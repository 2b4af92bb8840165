use ieee802154::codec::Error;
use ieee802154::mac::beacon::{
    Beacon, BeaconOrder, Direction, GuaranteedTimeSlotDescriptor, GuaranteedTimeSlotInformation,
    PendingAddress, SuperframeOrder, SuperframeSpecification,
};
use ieee802154::mac::command::{
    AssociationStatus, CapabilityInformation, Command, CoordinatorRealignmentData,
    DisassociationReason, GuaranteedTimeSlotCharacteristics,
};
use ieee802154::mac::{
    Address, DecodeError, ExtendedAddress, Frame, FrameContent, FrameType, FrameVersion, Header,
    PanId, Security, ShortAddress,
};

fn header(frame_type: FrameType) -> Header {
    Header {
        frame_type,
        security: Security::Disabled,
        frame_pending: false,
        ack_request: true,
        pan_id_compress: false,
        version: FrameVersion::Ieee802154_2006,
        destination: Some(Address::Short(PanId(0xabcd), ShortAddress(0x0102))),
        source: Some(Address::Extended(
            PanId(0x1357),
            ExtendedAddress(0x0102030405060708),
        )),
        seq: 42,
    }
}

fn write_read(frame: Frame) {
    let mut buf = [0u8; 127];
    let len = frame.try_write(&mut buf).unwrap();
    let (decoded, _) = Frame::try_read(&buf[..len]).unwrap();
    assert_eq!(decoded.header, frame.header);
    assert_eq!(decoded.content, frame.content);
    assert_eq!(decoded.payload, frame.payload);
    assert_eq!(decoded.footer, [0, 0]);
}

#[test]
fn roundtrip_data_frame() {
    write_read(Frame {
        header: header(FrameType::Data),
        content: FrameContent::Data,
        payload: &[1, 2, 3, 4, 5],
        footer: [0x12, 0x34],
    });
}

#[test]
fn roundtrip_pan_id_compression_extended() {
    let mut h = header(FrameType::Acknowledgement);
    h.pan_id_compress = true;
    h.destination = Some(Address::Extended(PanId(0x4444), ExtendedAddress(7)));
    h.source = Some(Address::Extended(PanId(0x4444), ExtendedAddress(u64::MAX)));
    write_read(Frame {
        header: h,
        content: FrameContent::Acknowledgement,
        payload: &[],
        footer: [0, 0],
    });
}

#[test]
fn roundtrip_beacon_with_slots_and_pending_addresses() {
    let mut gts = GuaranteedTimeSlotInformation::new();
    gts.set_permit(true);
    assert!(gts.add_slot(GuaranteedTimeSlotDescriptor {
        short_address: ShortAddress(0x1111),
        starting_slot: 3,
        length: 2,
        direction: Direction::Receive,
    }));
    assert!(gts.add_slot(GuaranteedTimeSlotDescriptor {
        short_address: ShortAddress(0x2222),
        starting_slot: 9,
        length: 15,
        direction: Direction::Transmit,
    }));
    let mut pending = PendingAddress::new();
    assert!(pending.add_short_address(ShortAddress(0x0a0b)));
    assert!(pending.add_extended_address(ExtendedAddress(0x1122334455667788)));
    let beacon = Beacon {
        superframe_spec: SuperframeSpecification {
            beacon_order: BeaconOrder::BeaconOrder(7),
            superframe_order: SuperframeOrder::SuperframeOrder(3),
            final_cap_slot: 9,
            battery_life_extension: true,
            pan_coordinator: true,
            association_permit: false,
        },
        guaranteed_time_slot_info: gts,
        pending_address: pending,
    };
    let frame = Frame {
        header: header(FrameType::Beacon),
        content: FrameContent::Beacon(beacon),
        payload: &[0xaa],
        footer: [0, 0],
    };
    let mut buf = [0u8; 127];
    let len = frame.try_write(&mut buf).unwrap();
    // header: 2 + 1 + 4 + 10 = 17; beacon: 2 + (1 + 1 + 2 * 3) + (1 + 2 + 8) = 21
    assert_eq!(len, 17 + 21 + 1);
    assert_eq!(
        buf[17..38],
        [
            0x37, 0x59, // superframe specification
            0x82, 0x01, // two slots, permit; slot 0 receives
            0x11, 0x11, 0x23, // slot 0
            0x22, 0x22, 0xf9, // slot 1
            0x11, // one short, one extended pending address
            0x0b, 0x0a, 0x88, 0x77, 0x66, 0x55, 0x44, 0x33, 0x22, 0x11,
        ]
    );
    write_read(frame);
}

#[test]
fn roundtrip_commands() {
    let commands = [
        Command::AssociationRequest(CapabilityInformation {
            full_function_device: true,
            mains_power: false,
            idle_receive: true,
            frame_protection: false,
            allocate_address: true,
        }),
        Command::AssociationResponse(ShortAddress(0x9876), AssociationStatus::AccessDenied),
        Command::DisassociationNotification(DisassociationReason::DeviceLeave),
        Command::DataRequest,
        Command::PanIdConflictNotification,
        Command::OrphanNotification,
        Command::BeaconRequest,
        Command::CoordinatorRealignment(CoordinatorRealignmentData {
            pan_id: PanId(0x1234),
            coordinator_address: ShortAddress(0x0001),
            channel: 11,
            device_address: ShortAddress(0xfffe),
            channel_page: Some(0),
        }),
        Command::CoordinatorRealignment(CoordinatorRealignmentData {
            pan_id: PanId(0x1234),
            coordinator_address: ShortAddress(0x0001),
            channel: 26,
            device_address: ShortAddress(0xfffe),
            channel_page: None,
        }),
        Command::GuaranteedTimeSlotRequest(GuaranteedTimeSlotCharacteristics {
            count: 4,
            receive_only: true,
            allocation: true,
        }),
    ];
    for command in commands.iter() {
        write_read(Frame {
            header: header(FrameType::MacCommand),
            content: FrameContent::Command(*command),
            payload: &[],
            footer: [0, 0],
        });
    }
}

#[test]
fn command_bytes() {
    let mut buf = [0u8; 16];
    let n = FrameContent::Command(Command::AssociationRequest(CapabilityInformation {
        full_function_device: true,
        mains_power: true,
        idle_receive: false,
        frame_protection: false,
        allocate_address: true,
    }))
    .try_write(&mut buf)
    .unwrap();
    assert_eq!(buf[..n], [0x01, 0x86]);
    let n = FrameContent::Command(Command::AssociationResponse(
        ShortAddress(0x1234),
        AssociationStatus::NetworkAtCapacity,
    ))
    .try_write(&mut buf)
    .unwrap();
    assert_eq!(buf[..n], [0x02, 0x34, 0x12, 0x01]);
    let n = FrameContent::Command(Command::GuaranteedTimeSlotRequest(
        GuaranteedTimeSlotCharacteristics { count: 15, receive_only: false, allocation: true },
    ))
    .try_write(&mut buf)
    .unwrap();
    assert_eq!(buf[..n], [0x09, 0x2f]);
}

#[test]
fn realignment_takes_a_following_byte_as_channel_page() {
    let data = [0x03, 0x00, 0x01, 0x08, 0x34, 0x12, 0x01, 0x00, 0x0b, 0xfe, 0xff, 0x05];
    let (frame, n) = Frame::try_read(&data).unwrap();
    assert_eq!(n, data.len());
    assert_eq!(
        frame.content,
        FrameContent::Command(Command::CoordinatorRealignment(CoordinatorRealignmentData {
            pan_id: PanId(0x1234),
            coordinator_address: ShortAddress(0x0001),
            channel: 11,
            device_address: ShortAddress(0xfffe),
            channel_page: Some(5),
        }))
    );
    assert_eq!(frame.payload, &[]);
}

#[test]
fn decode_rejects_reserved_frame_type() {
    let data = [0x05, 0x00, 0x00];
    assert_eq!(Frame::try_read(&data).unwrap_err(), Error::BadInput { err: "InvalidFrameType" });
}

#[test]
fn decode_rejects_security() {
    let data = [0x09, 0x00, 0x00];
    assert_eq!(
        Frame::try_read(&data).unwrap_err(),
        Error::BadInput { err: "SecurityNotSupported" }
    );
}

#[test]
fn decode_rejects_reserved_version() {
    let data = [0x01, 0x30, 0x00];
    assert_eq!(
        Frame::try_read(&data).unwrap_err(),
        Error::BadInput { err: "InvalidFrameVersion" }
    );
}

#[test]
fn decode_rejects_reserved_address_mode() {
    let data = [0x01, 0x04, 0x00];
    assert_eq!(
        Frame::try_read(&data).unwrap_err(),
        Error::BadInput { err: "InvalidAddressMode" }
    );
    let data = [0x01, 0x40, 0x00];
    assert_eq!(
        Frame::try_read(&data).unwrap_err(),
        Error::BadInput { err: "InvalidAddressMode" }
    );
}

#[test]
fn decode_needs_three_bytes() {
    assert_eq!(Frame::try_read(&[]).unwrap_err(), Error::Incomplete);
    assert_eq!(Frame::try_read(&[0x07, 0x00]).unwrap_err(), Error::Incomplete);
}

#[test]
fn decode_truncated_address_is_incomplete() {
    let data = [0x01, 0x08, 0x00, 0x34, 0x12, 0x78];
    assert_eq!(Frame::try_read(&data).unwrap_err(), Error::Incomplete);
}

#[test]
fn decode_rejects_unknown_command() {
    let data = [0x03, 0x00, 0x00, 0x0a];
    assert_eq!(Frame::try_read(&data).unwrap_err(), Error::BadInput { err: "InvalidValue" });
    let data = [0x03, 0x00, 0x00, 0x02, 0x34, 0x12, 0x03];
    assert_eq!(Frame::try_read(&data).unwrap_err(), Error::BadInput { err: "InvalidValue" });
    let data = [0x03, 0x00, 0x00, 0x03, 0x00];
    assert_eq!(Frame::try_read(&data).unwrap_err(), Error::BadInput { err: "InvalidValue" });
}

#[test]
fn decode_data_frame_payload_and_offset() {
    let data = [0x01, 0x00, 0x07, 0xde, 0xad];
    let (frame, n) = Frame::try_read(&data).unwrap();
    assert_eq!(n, 3);
    assert_eq!(frame.header.seq, 7);
    assert_eq!(frame.header.destination, None);
    assert_eq!(frame.header.source, None);
    assert_eq!(frame.content, FrameContent::Data);
    assert_eq!(frame.payload, &[0xde, 0xad]);
}

#[test]
fn decode_beacon_with_slots() {
    let data = [
        0x00, 0x80, 0x01, 0x34, 0x12, 0x00, 0x00, // header: beacon, source short
        0xff, 0xcf, // superframe specification
        0x81, 0x00, 0x78, 0x56, 0x21, // one slot, permit
        0x00, // no pending addresses
        0x99, // payload
    ];
    let (frame, n) = Frame::try_read(&data).unwrap();
    assert_eq!(n, 15);
    let beacon = match frame.content {
        FrameContent::Beacon(b) => b,
        _ => panic!("not a beacon"),
    };
    assert_eq!(beacon.superframe_spec.beacon_order, BeaconOrder::OnDemand);
    assert_eq!(beacon.superframe_spec.superframe_order, SuperframeOrder::Inactive);
    assert_eq!(beacon.superframe_spec.final_cap_slot, 15);
    assert!(beacon.superframe_spec.pan_coordinator);
    assert!(beacon.superframe_spec.association_permit);
    assert!(!beacon.superframe_spec.battery_life_extension);
    assert!(beacon.guaranteed_time_slot_info.permit());
    assert_eq!(
        beacon.guaranteed_time_slot_info.slots(),
        &[GuaranteedTimeSlotDescriptor {
            short_address: ShortAddress(0x5678),
            starting_slot: 1,
            length: 2,
            direction: Direction::Transmit,
        }]
    );
    assert_eq!(beacon.pending_address.short_addresses(), &[]);
    assert_eq!(frame.payload, &[0x99]);
}

#[test]
fn decode_truncated_beacon_is_incomplete() {
    let data = [0x00, 0x00, 0x01, 0xff, 0xcf, 0x02, 0x00, 0x78];
    assert_eq!(Frame::try_read(&data).unwrap_err(), Error::Incomplete);
}

#[test]
fn write_header_too_long_is_incomplete() {
    let frame = Frame {
        header: header(FrameType::Data),
        content: FrameContent::Data,
        payload: &[],
        footer: [0, 0],
    };
    let mut buf = [0u8; 10];
    assert_eq!(frame.try_write(&mut buf), Err(Error::Incomplete));
}

#[test]
fn write_payload_too_long_is_incomplete() {
    let frame = Frame {
        header: header(FrameType::Data),
        content: FrameContent::Data,
        payload: &[1, 2, 3],
        footer: [0, 0],
    };
    let mut buf = [0u8; 18];
    assert_eq!(frame.try_write(&mut buf), Err(Error::Incomplete));
}

#[test]
fn write_drops_content_that_does_not_fit() {
    let frame = Frame {
        header: header(FrameType::Beacon),
        content: FrameContent::Beacon(Beacon {
            superframe_spec: SuperframeSpecification {
                beacon_order: BeaconOrder::OnDemand,
                superframe_order: SuperframeOrder::Inactive,
                final_cap_slot: 15,
                battery_life_extension: false,
                pan_coordinator: false,
                association_permit: false,
            },
            guaranteed_time_slot_info: GuaranteedTimeSlotInformation::new(),
            pending_address: PendingAddress::new(),
        }),
        payload: &[0xee],
        footer: [0, 0],
    };
    // header takes 17 bytes, the beacon 4, the payload 1
    let mut buf = [0u8; 20];
    assert_eq!(frame.try_write(&mut buf), Ok(18));
    assert_eq!(buf[17], 0xee);
    // what fitted of the beacon stays behind the payload
    assert_eq!(buf[18..20], [0x0f, 0x00]);
}

#[test]
fn content_try_write_and_read() {
    let mut buf = [0u8; 8];
    assert_eq!(FrameContent::Data.try_write(&mut buf), Ok(0));
    assert_eq!(FrameContent::Acknowledgement.try_write(&mut buf), Ok(0));
    let cmd = FrameContent::Command(Command::BeaconRequest);
    assert_eq!(cmd.try_write(&mut buf), Ok(1));
    assert_eq!(buf[0], 0x07);
    let mut small = [0u8; 0];
    assert_eq!(cmd.try_write(&mut small), Ok(0));
    let h = header(FrameType::MacCommand);
    assert_eq!(FrameContent::try_read(&buf, &h), Ok((cmd, 1)));
    let h = header(FrameType::Data);
    assert_eq!(FrameContent::try_read(&buf, &h), Ok((FrameContent::Data, 0)));
}

#[test]
fn decode_errors_map_to_byte_errors() {
    assert_eq!(Error::from(DecodeError::NotEnoughBytes), Error::Incomplete);
    assert_eq!(
        Error::from(DecodeError::InvalidFrameType(5)),
        Error::BadInput { err: "InvalidFrameType" }
    );
    assert_eq!(
        Error::from(DecodeError::SecurityNotSupported),
        Error::BadInput { err: "SecurityNotSupported" }
    );
    assert_eq!(
        Error::from(DecodeError::InvalidAddressMode(1)),
        Error::BadInput { err: "InvalidAddressMode" }
    );
    assert_eq!(
        Error::from(DecodeError::InvalidFrameVersion(3)),
        Error::BadInput { err: "InvalidFrameVersion" }
    );
    assert_eq!(Error::from(DecodeError::InvalidValue), Error::BadInput { err: "InvalidValue" });
}

#[test]
fn footer_is_not_written() {
    let mut a = [0u8; 32];
    let mut b = [0u8; 32];
    let f1 = Frame {
        header: header(FrameType::Data),
        content: FrameContent::Data,
        payload: &[9],
        footer: [0x00, 0x00],
    };
    let f2 = Frame { footer: [0xab, 0xcd], ..f1 };
    assert_eq!(f1.try_write(&mut a), f2.try_write(&mut b));
    assert_eq!(a, b);
}

#[test]
fn full_lists_refuse_more() {
    let mut gts = GuaranteedTimeSlotInformation::new();
    let slot = GuaranteedTimeSlotDescriptor {
        short_address: ShortAddress(1),
        starting_slot: 0,
        length: 1,
        direction: Direction::Transmit,
    };
    for _ in 0..7 {
        assert!(gts.add_slot(slot));
    }
    assert!(!gts.add_slot(slot));
    assert_eq!(gts.len(), 7);
    let mut bad = GuaranteedTimeSlotInformation::new();
    assert!(!bad.add_slot(GuaranteedTimeSlotDescriptor { length: 16, ..slot }));
    let mut pending = PendingAddress::new();
    for i in 0..7 {
        assert!(pending.add_short_address(ShortAddress(i)));
    }
    assert!(!pending.add_short_address(ShortAddress(8)));
    assert_eq!(pending.short_addresses().len(), 7);
}

#[test]
fn documented_decode_example() {
    let bytes = [
        0x01u8, 0x98, // frame control
        0x00, // sequence number
        0x12, 0x34, 0x56, 0x78, // PAN identifier and address of destination
        0x12, 0x34, 0x9a, 0xbc, // PAN identifier and address of source
        0xde, 0xf0, // payload
    ];
    let frame: Frame = Frame::try_read(&bytes).unwrap().0;
    let header = frame.header;
    assert_eq!(frame.header.seq, 0x00);
    assert_eq!(header.frame_type, FrameType::Data);
    assert_eq!(header.security, Security::Disabled);
    assert_eq!(header.frame_pending, false);
    assert_eq!(header.ack_request, false);
    assert_eq!(header.pan_id_compress, false);
    assert_eq!(
        frame.header.destination,
        Some(Address::Short(PanId(0x3412), ShortAddress(0x7856)))
    );
    assert_eq!(
        frame.header.source,
        Some(Address::Short(PanId(0x3412), ShortAddress(0xbc9a)))
    );
    assert_eq!(frame.payload, &[0xde, 0xf0]);
}

#[test]
fn documented_encode_example() {
    let frame = Frame {
        header: Header {
            frame_type: FrameType::Data,
            security: Security::Disabled,
            frame_pending: false,
            ack_request: false,
            pan_id_compress: false,
            version: FrameVersion::Ieee802154_2006,
            seq: 0x00,
            destination: Some(Address::Short(PanId(0x1234), ShortAddress(0x5678))),
            source: Some(Address::Short(PanId(0x1234), ShortAddress(0x9abc))),
        },
        content: FrameContent::Data,
        payload: &[0xde, 0xf0],
        footer: [0x12, 0x34],
    };
    let expected_bytes = [
        0x01, 0x98, // frame control
        0x00, // sequence number
        0x34, 0x12, 0x78, 0x56, // PAN identifier and address of destination
        0x34, 0x12, 0xbc, 0x9a, // PAN identifier and address of source
        0xde, 0xf0, // payload
    ];
    let mut bytes = [0u8; 32];
    let len = frame.try_write(&mut bytes).unwrap();
    assert_eq!(bytes[..len], expected_bytes);
    let mut bytes = [0u8; 64];
    let len = frame.try_write(&mut bytes).unwrap();
    assert_eq!(bytes[..len], expected_bytes);
}
