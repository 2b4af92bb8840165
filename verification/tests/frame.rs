use ieee802154::codec::Error;
use ieee802154::mac::beacon;
use ieee802154::mac::command;
use ieee802154::mac::{
    Address, ExtendedAddress, Frame, FrameContent, FrameType, FrameVersion, Header, PanId,
    Security, ShortAddress,
};

#[test]
fn decode_ver0_pan_id_compression() {
    let data = [
        0x41, 0x88, 0x91, 0x8f, 0x20, 0xff, 0xff, 0x33, 0x44, 0x00, 0x00,
    ];
    let frame: Frame = Frame::try_read(&data).unwrap().0;
    let hdr = frame.header;
    assert_eq!(hdr.frame_type, FrameType::Data);
    assert_eq!(hdr.security, Security::Disabled);
    assert_eq!(hdr.frame_pending, false);
    assert_eq!(hdr.ack_request, false);
    assert_eq!(hdr.pan_id_compress, true);
    assert_eq!(hdr.version, FrameVersion::Ieee802154_2003);
    assert_eq!(
        frame.header.destination,
        Some(Address::Short(PanId(0x208f), ShortAddress(0xffff)))
    );
    assert_eq!(
        frame.header.source,
        Some(Address::Short(PanId(0x208f), ShortAddress(0x4433)))
    );
    assert_eq!(frame.header.seq, 145);
}

#[test]
fn decode_ver0_pan_id_compression_bad() {
    let data = [
        0x41, 0x80, 0x91, 0x8f, 0x20, 0xff, 0xff, 0x33, 0x44, 0x00, 0x00,
    ];
    let frame = Frame::try_read(&data);
    assert!(frame.is_err());
    if let Err(e) = frame {
        assert_eq!(
            e,
            Error::BadInput {
                err: "InvalidAddressMode"
            }
        )
    }
}

#[test]
fn decode_ver0_extended() {
    let data = [
        0x21, 0xc8, 0x8b, 0xff, 0xff, 0x02, 0x00, 0x23, 0x00, 0x60, 0xe2, 0x16, 0x21, 0x1c,
        0x4a, 0xc2, 0xae, 0xaa, 0xbb, 0xcc,
    ];
    let frame: Frame = Frame::try_read(&data).unwrap().0;
    let hdr = frame.header;
    assert_eq!(hdr.frame_type, FrameType::Data);
    assert_eq!(hdr.security, Security::Disabled);
    assert_eq!(hdr.frame_pending, false);
    assert_eq!(hdr.ack_request, true);
    assert_eq!(hdr.pan_id_compress, false);
    assert_eq!(hdr.version, FrameVersion::Ieee802154_2003);
    assert_eq!(
        frame.header.destination,
        Some(Address::Short(PanId(0xffff), ShortAddress(0x0002)))
    );
    assert_eq!(
        frame.header.source,
        Some(Address::Extended(
            PanId(0x0023),
            ExtendedAddress(0xaec24a1c2116e260)
        ))
    );
    assert_eq!(frame.header.seq, 139);
}

#[test]
fn encode_ver0_short() {
    let frame = Frame {
        header: Header {
            frame_type: FrameType::Data,
            security: Security::Disabled,
            frame_pending: false,
            ack_request: false,
            pan_id_compress: false,
            version: FrameVersion::Ieee802154_2003,
            destination: Some(Address::Short(PanId(0x1234), ShortAddress(0x5678))),
            source: Some(Address::Short(PanId(0x4321), ShortAddress(0x9abc))),
            seq: 0x01,
        },
        content: FrameContent::Data,
        payload: &[0xde, 0xf0],
        footer: [0x00, 0x00],
    };
    let mut buf = [0u8; 32];
    let len = frame.try_write(&mut buf).unwrap();
    assert_eq!(len, 13);
    assert_eq!(
        buf[..len],
        [0x01, 0x88, 0x01, 0x34, 0x12, 0x78, 0x56, 0x21, 0x43, 0xbc, 0x9a, 0xde, 0xf0]
    );
}

#[test]
fn encode_ver1_extended() {
    let frame = Frame {
        header: Header {
            frame_type: FrameType::Beacon,
            security: Security::Disabled,
            frame_pending: true,
            ack_request: false,
            pan_id_compress: false,
            version: FrameVersion::Ieee802154_2006,
            destination: Some(Address::Extended(
                PanId(0x1234),
                ExtendedAddress(0x1122334455667788),
            )),
            source: Some(Address::Short(PanId(0x4321), ShortAddress(0x9abc))),
            seq: 0xff,
        },
        content: FrameContent::Beacon(beacon::Beacon {
            superframe_spec: beacon::SuperframeSpecification {
                beacon_order: beacon::BeaconOrder::OnDemand,
                superframe_order: beacon::SuperframeOrder::Inactive,
                final_cap_slot: 15,
                battery_life_extension: false,
                pan_coordinator: false,
                association_permit: false,
            },
            guaranteed_time_slot_info: beacon::GuaranteedTimeSlotInformation::new(),
            pending_address: beacon::PendingAddress::new(),
        }),
        payload: &[0xde, 0xf0],
        footer: [0x00, 0x00],
    };
    let mut buf = [0u8; 32];
    let len = frame.try_write(&mut buf).unwrap();
    assert_eq!(len, 23);
    assert_eq!(
        buf[..len],
        [
            0x10, 0x9c, 0xff, 0x34, 0x12, 0x88, 0x77, 0x66, 0x55, 0x44, 0x33, 0x22, 0x11, 0x21,
            0x43, 0xbc, 0x9a, 0xff, 0x0f, 0x00, 0x00, 0xde, 0xf0
        ]
    );
}

#[test]
fn encode_ver0_pan_compress() {
    let frame = Frame {
        header: Header {
            frame_type: FrameType::Acknowledgement,
            security: Security::Disabled,
            frame_pending: false,
            ack_request: false,
            pan_id_compress: true,
            version: FrameVersion::Ieee802154_2003,
            destination: Some(Address::Extended(
                PanId(0x1234),
                ExtendedAddress(0x1122334455667788),
            )),
            source: Some(Address::Short(PanId(0x1234), ShortAddress(0x9abc))),
            seq: 0xff,
        },
        content: FrameContent::Acknowledgement,
        payload: &[],
        footer: [0x00, 0x00],
    };
    let mut buf = [0u8; 32];
    let len = frame.try_write(&mut buf).unwrap();
    assert_eq!(len, 15);
    assert_eq!(
        buf[..len],
        [
            0x42, 0x8c, 0xff, 0x34, 0x12, 0x88, 0x77, 0x66, 0x55, 0x44, 0x33, 0x22, 0x11, 0xbc,
            0x9a
        ]
    );
}

#[test]
fn encode_ver2_none() {
    let frame = Frame {
        header: Header {
            frame_type: FrameType::MacCommand,
            security: Security::Disabled,
            frame_pending: false,
            ack_request: true,
            pan_id_compress: false,
            version: FrameVersion::Ieee802154,
            destination: None,
            source: Some(Address::Short(PanId(0x1234), ShortAddress(0x9abc))),
            seq: 0xff,
        },
        content: FrameContent::Command(command::Command::DataRequest),
        payload: &[],
        footer: [0x00, 0x00],
    };
    let mut buf = [0u8; 32];
    let len = frame.try_write(&mut buf).unwrap();
    assert_eq!(len, 8);
    assert_eq!(buf[..len], [0x23, 0xa0, 0xff, 0x34, 0x12, 0xbc, 0x9a, 0x04]);
}
