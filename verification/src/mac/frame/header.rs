//! The MAC frame header: frame control field, sequence number and addressing.
use super::frame_control::{
    field, flag, get_field, lemma_pack_unpack, pack, pack_exec, MASK_ACK, MASK_DEST_ADDR_MODE,
    MASK_FRAME_TYPE, MASK_PAN_ID_COMPRESS, MASK_PENDING, MASK_SECURITY, MASK_SRC_ADDR_MODE,
    MASK_VERSION, OFFSET_ACK, OFFSET_DEST_ADDR_MODE, OFFSET_FRAME_TYPE, OFFSET_PAN_ID_COMPRESS,
    OFFSET_PENDING, OFFSET_SECURITY, OFFSET_SRC_ADDR_MODE, OFFSET_VERSION,
};
use super::{spec_error_of, DecodeError};
use crate::codec::{
    check_len, from_le16, le16, le64, le_value, lemma_flatten_one, lemma_flatten_two,
    lemma_from_le16_value, lemma_from_le64_value, lemma_le16_roundtrip, lemma_le16_value,
    lemma_le64_roundtrip, lemma_le64_value, lemma_le_value_shift, lemma_write_all_append,
    lemma_write_all_len, read_u16_le, read_u64_le, read_u8, spec_read_u16_le, spec_read_u64_le,
    write_all, write_u16_le, write_u64_le, write_u8, Error,
};
use vstd::prelude::*;
use vstd::seq_lib::lemma_flatten_concat;

verus! {

/// A PAN identifier
#[derive(Clone, Copy, Debug, Eq, Hash, PartialEq)]
pub struct PanId(pub u16);

/// A short 16-bit address
#[derive(Clone, Copy, Debug, Eq, Hash, PartialEq)]
pub struct ShortAddress(pub u16);

/// An extended 64-bit address
#[derive(Clone, Copy, Debug, Eq, Hash, PartialEq)]
pub struct ExtendedAddress(pub u64);

/// An address that might contain a PAN ID and either a short or extended address
#[derive(Clone, Copy, Debug, Eq, Hash, PartialEq)]
pub enum Address {
    /// Short (16-bit) address and PAN ID
    Short(PanId, ShortAddress),
    /// Extended (64-bit) address and PAN ID
    Extended(PanId, ExtendedAddress),
}

impl Address {
    pub open spec fn spec_pan_id(self) -> PanId {
        match self {
            Address::Short(pan_id, _) => pan_id,
            Address::Extended(pan_id, _) => pan_id,
        }
    }

    /// The PAN ID of this address
    pub fn pan_id(&self) -> (r: PanId)
        ensures
            r == self.spec_pan_id(),
    {
        match *self {
            Address::Short(pan_id, _) => pan_id,
            Address::Extended(pan_id, _) => pan_id,
        }
    }
}

/// The addressing mode of the source or destination field
#[derive(Clone, Copy, Debug, Eq, Hash, PartialEq)]
pub enum AddressMode {
    /// No address present
    Absent,
    /// Short (16-bit) address
    Short,
    /// Extended (64-bit) address
    Extended,
}

/// The addressing mode of an optional address, as its two bits.
pub open spec fn address_mode_bits(a: Option<Address>) -> u8 {
    match a {
        None => 0,
        Some(Address::Short(..)) => 2,
        Some(Address::Extended(..)) => 3,
    }
}

pub open spec fn address_mode_from_bits(bits: u8) -> Option<AddressMode> {
    if bits == 0 {
        Some(AddressMode::Absent)
    } else if bits == 2 {
        Some(AddressMode::Short)
    } else if bits == 3 {
        Some(AddressMode::Extended)
    } else {
        None
    }
}

impl AddressMode {
    /// Decodes an addressing mode from its two bits; `1` is reserved
    pub fn from_bits(bits: u8) -> (r: Result<AddressMode, DecodeError>)
        ensures
            r is Ok <==> address_mode_from_bits(bits) is Some,
            r matches Ok(m) ==> address_mode_from_bits(bits) == Some(m),
            r matches Err(e) ==> e == DecodeError::InvalidAddressMode(bits),
    {
        match bits {
            0 => Ok(AddressMode::Absent),
            2 => Ok(AddressMode::Short),
            3 => Ok(AddressMode::Extended),
            _ => Err(DecodeError::InvalidAddressMode(bits)),
        }
    }
}

/// Frame type
#[derive(Clone, Copy, Debug, Eq, Hash, PartialEq)]
pub enum FrameType {
    /// Beacon
    Beacon,
    /// Data
    Data,
    /// Acknowledgement
    Acknowledgement,
    /// MAC command
    MacCommand,
}

pub open spec fn frame_type_bits(t: FrameType) -> u8 {
    match t {
        FrameType::Beacon => 0,
        FrameType::Data => 1,
        FrameType::Acknowledgement => 2,
        FrameType::MacCommand => 3,
    }
}

pub open spec fn frame_type_from_bits(bits: u8) -> Option<FrameType> {
    if bits == 0 {
        Some(FrameType::Beacon)
    } else if bits == 1 {
        Some(FrameType::Data)
    } else if bits == 2 {
        Some(FrameType::Acknowledgement)
    } else if bits == 3 {
        Some(FrameType::MacCommand)
    } else {
        None
    }
}

impl FrameType {
    /// Decodes a frame type from its three bits; values above 3 are reserved
    pub fn from_bits(bits: u8) -> (r: Option<FrameType>)
        ensures
            r == frame_type_from_bits(bits),
    {
        match bits {
            0 => Some(FrameType::Beacon),
            1 => Some(FrameType::Data),
            2 => Some(FrameType::Acknowledgement),
            3 => Some(FrameType::MacCommand),
            _ => None,
        }
    }

    /// The three bits of this frame type
    pub fn to_bits(&self) -> (r: u8)
        ensures
            r == frame_type_bits(*self),
    {
        match *self {
            FrameType::Beacon => 0,
            FrameType::Data => 1,
            FrameType::Acknowledgement => 2,
            FrameType::MacCommand => 3,
        }
    }
}

/// Whether the frame is protected; only unprotected frames are supported
#[derive(Clone, Copy, Debug, Eq, Hash, PartialEq)]
pub enum Security {
    /// No security: the frame is sent as it is
    Disabled,
}

pub open spec fn security_from_bits(bits: u8) -> Option<Security> {
    if bits == 0 {
        Some(Security::Disabled)
    } else {
        None
    }
}

impl Security {
    /// Decodes the security bit; a set bit is not supported
    pub fn from_bits(bits: u8) -> (r: Option<Security>)
        ensures
            r == security_from_bits(bits),
    {
        if bits == 0 {
            Some(Security::Disabled)
        } else {
            None
        }
    }
}

/// The version of the standard the frame follows
#[derive(Clone, Copy, Debug, Eq, Hash, PartialEq)]
pub enum FrameVersion {
    /// IEEE 802.15.4-2003
    Ieee802154_2003,
    /// IEEE 802.15.4-2006
    Ieee802154_2006,
    /// IEEE 802.15.4 (later revisions)
    Ieee802154,
}

pub open spec fn frame_version_bits(v: FrameVersion) -> u8 {
    match v {
        FrameVersion::Ieee802154_2003 => 0,
        FrameVersion::Ieee802154_2006 => 1,
        FrameVersion::Ieee802154 => 2,
    }
}

pub open spec fn frame_version_from_bits(bits: u8) -> Option<FrameVersion> {
    if bits == 0 {
        Some(FrameVersion::Ieee802154_2003)
    } else if bits == 1 {
        Some(FrameVersion::Ieee802154_2006)
    } else if bits == 2 {
        Some(FrameVersion::Ieee802154)
    } else {
        None
    }
}

impl FrameVersion {
    /// Decodes a frame version from its two bits; `3` is reserved
    pub fn from_bits(bits: u8) -> (r: Option<FrameVersion>)
        ensures
            r == frame_version_from_bits(bits),
    {
        match bits {
            0 => Some(FrameVersion::Ieee802154_2003),
            1 => Some(FrameVersion::Ieee802154_2006),
            2 => Some(FrameVersion::Ieee802154),
            _ => None,
        }
    }

    /// The two bits of this frame version
    pub fn to_bits(&self) -> (r: u8)
        ensures
            r == frame_version_bits(*self),
    {
        match *self {
            FrameVersion::Ieee802154_2003 => 0,
            FrameVersion::Ieee802154_2006 => 1,
            FrameVersion::Ieee802154 => 2,
        }
    }
}

/// MAC frame header
#[derive(Clone, Copy, Debug, Eq, Hash, PartialEq)]
pub struct Header {
    /// Frame Type
    pub frame_type: FrameType,
    /// Auxiliary Security header
    pub security: Security,
    /// Frame Pending
    ///
    /// The Frame Pending field shall be set to `true` if the device sending
    /// the frame has more data for the recipient, and to `false` otherwise.
    pub frame_pending: bool,
    /// Acknowledgement Request
    ///
    /// The Acknowledgement Request field specifies whether an
    /// acknowledgement is required from the recipient device on receipt of a
    /// data or MAC command frame.
    pub ack_request: bool,
    /// PAN ID Compress
    ///
    /// When set, the source PAN ID is left out and taken to be the
    /// destination PAN ID.
    pub pan_id_compress: bool,
    /// Frame version
    pub version: FrameVersion,
    /// Destination Address
    pub destination: Option<Address>,
    /// Source Address
    pub source: Option<Address>,
    /// Sequence Number
    pub seq: u8,
}

// ---------------------------------------------------------------------------
// Encoding

/// The frame control field of a header.
pub open spec fn spec_frame_control(h: Header) -> u16 {
    pack(
        frame_type_bits(h.frame_type),
        0,
        h.frame_pending,
        h.ack_request,
        h.pan_id_compress,
        address_mode_bits(h.destination),
        frame_version_bits(h.version),
        address_mode_bits(h.source),
    )
}

/// The writes that encode an optional address: its PAN ID when `with_pan`,
/// then the address itself.
pub open spec fn address_chunks(a: Option<Address>, with_pan: bool) -> Seq<Seq<u8>> {
    match a {
        None => seq![],
        Some(Address::Short(pan_id, short)) => if with_pan {
            seq![le16(pan_id.0), le16(short.0)]
        } else {
            seq![le16(short.0)]
        },
        Some(Address::Extended(pan_id, ext)) => if with_pan {
            seq![le16(pan_id.0), le64(ext.0)]
        } else {
            seq![le64(ext.0)]
        },
    }
}

/// The writes that encode a header: the frame control field, the sequence
/// number, the destination with its PAN ID, and the source, whose PAN ID is
/// left out when `pan_id_compress` is set.
pub open spec fn header_chunks(h: Header) -> Seq<Seq<u8>> {
    seq![le16(spec_frame_control(h)), seq![h.seq]] + address_chunks(h.destination, true)
        + address_chunks(h.source, !h.pan_id_compress)
}

/// The bytes of an encoded header.
pub open spec fn header_bytes(h: Header) -> Seq<u8> {
    header_chunks(h).flatten()
}

fn write_address(a: Option<Address>, with_pan: bool, bytes: &mut [u8], offset: usize) -> (res:
    Result<usize, Error>)
    requires
        offset <= old(bytes)@.len(),
    ensures
        res == write_all(old(bytes)@, offset as int, address_chunks(a, with_pan)).1,
        final(bytes)@ == write_all(old(bytes)@, offset as int, address_chunks(a, with_pan)).0,
        final(bytes)@.len() == old(bytes)@.len(),
        res matches Ok(p) ==> offset <= p <= final(bytes)@.len(),
{
    let len = bytes.len();
    proof {
        reveal_with_fuel(write_all, 3);
        lemma_write_all_len(bytes@, offset as int, address_chunks(a, with_pan));
    }
    match a {
        None => Ok(offset),
        Some(Address::Short(pan_id, short)) => {
            let mut pos = offset;
            if with_pan {
                pos = write_u16_le(bytes, pos, pan_id.0)?;
            }
            write_u16_le(bytes, pos, short.0)
        },
        Some(Address::Extended(pan_id, ext)) => {
            let mut pos = offset;
            if with_pan {
                pos = write_u16_le(bytes, pos, pan_id.0)?;
            }
            write_u64_le(bytes, pos, ext.0)
        },
    }
}

impl Header {
    /// Writes the header at `offset`, one field at a time; the first field
    /// that does not fit stops the write with an error.
    #[verifier::rlimit(30)]
    pub fn write_at(&self, bytes: &mut [u8], offset: usize) -> (res: Result<usize, Error>)
        requires
            offset <= old(bytes)@.len(),
        ensures
            res == write_all(old(bytes)@, offset as int, header_chunks(*self)).1,
            final(bytes)@ == write_all(old(bytes)@, offset as int, header_chunks(*self)).0,
    {
        let len = bytes.len();
        let ghost h = header_chunks(*self);
        let ghost dest = address_chunks(self.destination, true);
        let ghost src = address_chunks(self.source, !self.pan_id_compress);
        proof {
            assert(h[0] == le16(spec_frame_control(*self)));
            assert(h.drop_first()[0] == seq![self.seq]);
            assert(h.drop_first().drop_first() =~= dest + src);
        }
        let dest_mode: u8 = match self.destination {
            None => 0,
            Some(Address::Short(..)) => 2,
            Some(Address::Extended(..)) => 3,
        };
        let src_mode: u8 = match self.source {
            None => 0,
            Some(Address::Short(..)) => 2,
            Some(Address::Extended(..)) => 3,
        };
        let bits = pack_exec(
            self.frame_type.to_bits(),
            0,
            self.frame_pending,
            self.ack_request,
            self.pan_id_compress,
            dest_mode,
            self.version.to_bits(),
            src_mode,
        );
        let ghost b0 = bytes@;
        let pos = write_u16_le(bytes, offset, bits)?;
        assert(write_all(b0, offset as int, h) == write_all(bytes@, pos as int, h.drop_first()));
        let ghost b1 = bytes@;
        let pos = write_u8(bytes, pos, self.seq)?;
        assert(write_all(b1, (pos - 1) as int, h.drop_first()) == write_all(
            bytes@,
            pos as int,
            dest + src,
        ));
        proof {
            lemma_write_all_append(bytes@, pos as int, dest, src);
        }
        let pos = write_address(self.destination, true, bytes, pos)?;
        write_address(self.source, !self.pan_id_compress, bytes, pos)
    }
}

// ---------------------------------------------------------------------------
// Decoding

/// Reading an address of mode `mode` at `pos`: its PAN ID is read unless
/// `pan_id` gives it, then the address itself.
pub open spec fn spec_read_address(
    s: Seq<u8>,
    pos: int,
    mode: AddressMode,
    pan_id: Option<PanId>,
) -> Result<(Option<Address>, usize), Error> {
    let pan: Result<(PanId, int), Error> = match pan_id {
        Some(p) => Ok((p, pos)),
        None => match spec_read_u16_le(s, pos) {
            Ok(v) => Ok((PanId(v), pos + 2)),
            Err(e) => Err(e),
        },
    };
    match mode {
        AddressMode::Absent => Ok((None, pos as usize)),
        AddressMode::Short => match pan {
            Err(e) => Err(e),
            Ok((p, q)) => match spec_read_u16_le(s, q) {
                Ok(v) => Ok((Some(Address::Short(p, ShortAddress(v))), (q + 2) as usize)),
                Err(e) => Err(e),
            },
        },
        AddressMode::Extended => match pan {
            Err(e) => Err(e),
            Ok((p, q)) => match spec_read_u64_le(s, q) {
                Ok(v) => Ok((Some(Address::Extended(p, ExtendedAddress(v))), (q + 8) as usize)),
                Err(e) => Err(e),
            },
        },
    }
}

/// Decoding a header at `pos`.
///
/// Three bytes (frame control field and sequence number) must be there. The
/// frame control field is checked in this order: frame type, security,
/// version, destination and source addressing modes. Then come the
/// destination with its PAN ID, and the source; when `pan_id_compress` is set
/// the source has no PAN ID of its own and takes the destination's, so a
/// destination must be present.
pub open spec fn spec_parse_header(s: Seq<u8>, pos: int) -> Result<(Header, usize), Error> {
    if s.len() - pos < 3 {
        Err(Error::Incomplete)
    } else {
        let bits = from_le16(s[pos], s[pos + 1]);
        let ft = field(bits, MASK_FRAME_TYPE, OFFSET_FRAME_TYPE);
        let sec = field(bits, MASK_SECURITY, OFFSET_SECURITY);
        let pending = field(bits, MASK_PENDING, OFFSET_PENDING) == 1;
        let ack = field(bits, MASK_ACK, OFFSET_ACK) == 1;
        let compress = field(bits, MASK_PAN_ID_COMPRESS, OFFSET_PAN_ID_COMPRESS) == 1;
        let dmode = field(bits, MASK_DEST_ADDR_MODE, OFFSET_DEST_ADDR_MODE);
        let ver = field(bits, MASK_VERSION, OFFSET_VERSION);
        let smode = field(bits, MASK_SRC_ADDR_MODE, OFFSET_SRC_ADDR_MODE);
        if frame_type_from_bits(ft) is None {
            Err(spec_error_of(DecodeError::InvalidFrameType(ft)))
        } else if security_from_bits(sec) is None {
            Err(spec_error_of(DecodeError::SecurityNotSupported))
        } else if frame_version_from_bits(ver) is None {
            Err(spec_error_of(DecodeError::InvalidFrameVersion(ver)))
        } else if address_mode_from_bits(dmode) is None {
            Err(spec_error_of(DecodeError::InvalidAddressMode(dmode)))
        } else if address_mode_from_bits(smode) is None {
            Err(spec_error_of(DecodeError::InvalidAddressMode(smode)))
        } else {
            let seq = s[pos + 2];
            match spec_read_address(s, pos + 3, address_mode_from_bits(dmode).unwrap(), None) {
                Err(e) => Err(e),
                Ok((destination, p1)) => if compress && destination is None {
                    Err(spec_error_of(DecodeError::InvalidAddressMode(dmode)))
                } else {
                    let src_pan = if compress {
                        Some(destination.unwrap().spec_pan_id())
                    } else {
                        None
                    };
                    match spec_read_address(
                        s,
                        p1 as int,
                        address_mode_from_bits(smode).unwrap(),
                        src_pan,
                    ) {
                        Err(e) => Err(e),
                        Ok((source, p2)) => Ok(
                            (
                                Header {
                                    frame_type: frame_type_from_bits(ft).unwrap(),
                                    security: Security::Disabled,
                                    frame_pending: pending,
                                    ack_request: ack,
                                    pan_id_compress: compress,
                                    version: frame_version_from_bits(ver).unwrap(),
                                    destination,
                                    source,
                                    seq,
                                },
                                p2,
                            ),
                        ),
                    }
                },
            }
        }
    }
}

fn read_address(bytes: &[u8], offset: usize, mode: AddressMode, pan_id: Option<PanId>) -> (res:
    Result<(Option<Address>, usize), Error>)
    requires
        offset <= bytes@.len(),
    ensures
        res == spec_read_address(bytes@, offset as int, mode, pan_id),
        res matches Ok((_, p)) ==> offset <= p <= bytes@.len(),
{
    let len = bytes.len();
    assert(len == bytes@.len());
    match mode {
        AddressMode::Absent => Ok((None, offset)),
        AddressMode::Short => {
            let (pan, pos) = match pan_id {
                Some(p) => (p, offset),
                None => (PanId(read_u16_le(bytes, offset)?), offset + 2),
            };
            let short = read_u16_le(bytes, pos)?;
            Ok((Some(Address::Short(pan, ShortAddress(short))), pos + 2))
        },
        AddressMode::Extended => {
            let (pan, pos) = match pan_id {
                Some(p) => (p, offset),
                None => (PanId(read_u16_le(bytes, offset)?), offset + 2),
            };
            let ext = read_u64_le(bytes, pos)?;
            Ok((Some(Address::Extended(pan, ExtendedAddress(ext))), pos + 8))
        },
    }
}

impl Header {
    /// Decodes a header at `offset`
    ///
    /// # Errors
    ///
    /// `Incomplete` when the bytes end early; `BadInput` when the frame
    /// control field holds a reserved or unsupported value, or asks for PAN
    /// ID compression without a destination.
    pub fn read_at(bytes: &[u8], offset: usize) -> (res: Result<(Header, usize), Error>)
        requires
            offset <= bytes@.len(),
        ensures
            res == spec_parse_header(bytes@, offset as int),
            res matches Ok((_, p)) ==> offset <= p <= bytes@.len(),
    {
        let rest = vstd::slice::slice_subrange(bytes, offset, bytes.len());
        check_len(rest, 3)?;
        let bits = read_u16_le(bytes, offset)?;
        let ft = get_field(bits, MASK_FRAME_TYPE, OFFSET_FRAME_TYPE);
        let sec = get_field(bits, MASK_SECURITY, OFFSET_SECURITY);
        let pending = get_field(bits, MASK_PENDING, OFFSET_PENDING) == 1;
        let ack = get_field(bits, MASK_ACK, OFFSET_ACK) == 1;
        let compress = get_field(bits, MASK_PAN_ID_COMPRESS, OFFSET_PAN_ID_COMPRESS) == 1;
        let dmode = get_field(bits, MASK_DEST_ADDR_MODE, OFFSET_DEST_ADDR_MODE);
        let ver = get_field(bits, MASK_VERSION, OFFSET_VERSION);
        let smode = get_field(bits, MASK_SRC_ADDR_MODE, OFFSET_SRC_ADDR_MODE);
        let frame_type = match FrameType::from_bits(ft) {
            Some(t) => t,
            None => return Err(Error::from(DecodeError::InvalidFrameType(ft))),
        };
        let security = match Security::from_bits(sec) {
            Some(s) => s,
            None => return Err(Error::from(DecodeError::SecurityNotSupported)),
        };
        let version = match FrameVersion::from_bits(ver) {
            Some(v) => v,
            None => return Err(Error::from(DecodeError::InvalidFrameVersion(ver))),
        };
        let dest_mode = match AddressMode::from_bits(dmode) {
            Ok(m) => m,
            Err(e) => return Err(Error::from(e)),
        };
        let src_mode = match AddressMode::from_bits(smode) {
            Ok(m) => m,
            Err(e) => return Err(Error::from(e)),
        };
        let seq = read_u8(bytes, offset + 2)?;
        let (destination, pos) = read_address(bytes, offset + 3, dest_mode, None)?;
        let src_pan = if compress {
            match destination {
                Some(d) => Some(d.pan_id()),
                None => return Err(Error::from(DecodeError::InvalidAddressMode(dmode))),
            }
        } else {
            None
        };
        let (source, pos) = read_address(bytes, pos, src_mode, src_pan)?;
        Ok(
            (
                Header {
                    frame_type,
                    security,
                    frame_pending: pending,
                    ack_request: ack,
                    pan_id_compress: compress,
                    version,
                    destination,
                    source,
                    seq,
                },
                pos,
            ),
        )
    }
}

// ---------------------------------------------------------------------------
// Decoding what was encoded

/// The addressing mode of an optional address.
pub open spec fn address_mode_of(a: Option<Address>) -> AddressMode {
    match a {
        None => AddressMode::Absent,
        Some(Address::Short(..)) => AddressMode::Short,
        Some(Address::Extended(..)) => AddressMode::Extended,
    }
}

/// A header that decoding gives back: with PAN ID compression, the
/// destination is present and a source shares its PAN ID.
pub open spec fn header_wf(h: Header) -> bool {
    h.pan_id_compress ==> {
        &&& h.destination is Some
        &&& h.source matches Some(src) ==> src.spec_pan_id() == h.destination.unwrap().spec_pan_id()
    }
}

proof fn lemma_read_address_roundtrip(s: Seq<u8>, pos: int, a: Option<Address>, pan_id: Option<
    PanId,
>)
    requires
        0 <= pos,
        pos + address_chunks(a, pan_id is None).flatten().len() <= s.len(),
        s.len() <= usize::MAX,
        s.subrange(pos, pos + address_chunks(a, pan_id is None).flatten().len())
            == address_chunks(a, pan_id is None).flatten(),
        a is Some ==> (pan_id matches Some(p) ==> p == a.unwrap().spec_pan_id()),
    ensures
        spec_read_address(s, pos, address_mode_of(a), pan_id) == Ok::<
            (Option<Address>, usize),
            Error,
        >((a, (pos + address_chunks(a, pan_id is None).flatten().len()) as usize)),
{
    let c = address_chunks(a, pan_id is None);
    match a {
        None => {
            assert(c.flatten() =~= Seq::<u8>::empty());
        },
        Some(Address::Short(p, short)) => {
            lemma_le16_roundtrip(p.0);
            lemma_le16_roundtrip(short.0);
            if pan_id is None {
                lemma_flatten_two(le16(p.0), le16(short.0));
                assert(s[pos] == c.flatten()[0]);
                assert(s[pos + 1] == c.flatten()[1]);
                assert(s[pos + 2] == c.flatten()[2]);
                assert(s[pos + 3] == c.flatten()[3]);
            } else {
                lemma_flatten_one(le16(short.0));
                assert(s[pos] == c.flatten()[0]);
                assert(s[pos + 1] == c.flatten()[1]);
            }
        },
        Some(Address::Extended(p, ext)) => {
            lemma_le16_roundtrip(p.0);
            if pan_id is None {
                lemma_flatten_two(le16(p.0), le64(ext.0));
                assert(s[pos] == c.flatten()[0]);
                assert(s[pos + 1] == c.flatten()[1]);
                assert forall|i: int| 0 <= i < 8 implies s.subrange(pos + 2, pos + 10)[i] == le64(
                    ext.0,
                )[i] by {
                    assert(s[pos + 2 + i] == c.flatten()[2 + i]);
                }
                assert(s.subrange(pos + 2, pos + 10) =~= le64(ext.0));
                lemma_le64_roundtrip(ext.0, s, pos + 2);
            } else {
                lemma_flatten_one(le64(ext.0));
                assert(s.subrange(pos, pos + 8int) =~= le64(ext.0));
                lemma_le64_roundtrip(ext.0, s, pos);
            }
        },
    }
}

/// Decoding the encoding of a well-formed header gives the header back, and
/// the offset just past its bytes.
#[verifier::rlimit(40)]
pub proof fn lemma_header_roundtrip(h: Header, s: Seq<u8>, pos: int)
    requires
        header_wf(h),
        0 <= pos,
        pos + header_bytes(h).len() <= s.len(),
        s.len() <= usize::MAX,
        s.subrange(pos, pos + header_bytes(h).len()) == header_bytes(h),
    ensures
        spec_parse_header(s, pos) == Ok::<(Header, usize), Error>(
            (h, (pos + header_bytes(h).len()) as usize),
        ),
{
    let fcf = spec_frame_control(h);
    let first: Seq<Seq<u8>> = seq![le16(fcf), seq![h.seq]];
    let dest = address_chunks(h.destination, true);
    let src = address_chunks(h.source, !h.pan_id_compress);
    assert(header_chunks(h) == first + dest + src);
    lemma_flatten_concat(first + dest, src);
    lemma_flatten_concat(first, dest);
    lemma_flatten_two(le16(fcf), seq![h.seq]);
    let hb = header_bytes(h);
    let n1 = first.flatten().len();
    let n2 = dest.flatten().len();
    let n3 = src.flatten().len();
    assert(hb == first.flatten() + dest.flatten() + src.flatten());
    assert(n1 == 3);
    assert(s[pos] == hb[0]);
    assert(s[pos + 1] == hb[1]);
    assert(s[pos + 2] == hb[2]);
    lemma_le16_roundtrip(fcf);
    assert(from_le16(s[pos], s[pos + 1]) == fcf);
    lemma_pack_unpack(
        frame_type_bits(h.frame_type),
        0,
        h.frame_pending,
        h.ack_request,
        h.pan_id_compress,
        address_mode_bits(h.destination),
        frame_version_bits(h.version),
        address_mode_bits(h.source),
    );
    assert(s.subrange(pos + 3, pos + 3 + n2) =~= dest.flatten()) by {
        assert forall|i: int| 0 <= i < n2 implies s.subrange(pos + 3, pos + 3 + n2)[i]
            == dest.flatten()[i] by {
            assert(s.subrange(pos + 3, pos + 3 + n2)[i] == s[pos + 3 + i]);
            assert(s[pos + 3 + i] == hb[3 + i]);
        }
    }
    lemma_read_address_roundtrip(s, pos + 3, h.destination, None);
    assert(s.subrange(pos + 3 + n2, pos + 3 + n2 + n3) =~= src.flatten()) by {
        assert forall|i: int| 0 <= i < n3 implies s.subrange(pos + 3 + n2, pos + 3 + n2 + n3)[i]
            == src.flatten()[i] by {
            assert(s.subrange(pos + 3 + n2, pos + 3 + n2 + n3)[i] == s[pos + 3 + n2 + i]);
            assert(s[pos + 3 + n2 + i] == hb[3 + n2 + i]);
        }
    }
    let src_pan = if h.pan_id_compress {
        Some(h.destination.unwrap().spec_pan_id())
    } else {
        None
    };
    lemma_read_address_roundtrip(s, pos + 3 + n2, h.source, src_pan);
}

proof fn lemma_read_address_pan(s: Seq<u8>, pos: int, mode: AddressMode, p: PanId)
    ensures
        spec_read_address(s, pos, mode, Some(p)) matches Ok((Some(a), _)) ==> a.spec_pan_id()
            == p,
{
}

/// Every header that decoding gives is well-formed.
pub proof fn lemma_parsed_header_wf(s: Seq<u8>, pos: int)
    ensures
        spec_parse_header(s, pos) matches Ok((h, _)) ==> header_wf(h),
{
    if let Ok((h, p)) = spec_parse_header(s, pos) {
        if h.pan_id_compress {
            let bits = from_le16(s[pos], s[pos + 1]);
            let smode = field(bits, MASK_SRC_ADDR_MODE, OFFSET_SRC_ADDR_MODE);
            let dmode = field(bits, MASK_DEST_ADDR_MODE, OFFSET_DEST_ADDR_MODE);
            let (d, p1) = spec_read_address(
                s,
                pos + 3,
                address_mode_from_bits(dmode).unwrap(),
                None,
            ).unwrap();
            lemma_read_address_pan(
                s,
                p1 as int,
                address_mode_from_bits(smode).unwrap(),
                d.unwrap().spec_pan_id(),
            );
        }
    }
}

// ---------------------------------------------------------------------------
// The header on the wire

proof fn lemma_frame_control_bytes(b0: u8, b1: u8)
    ensures
        ({
            let bits = from_le16(b0, b1);
            &&& field(bits, MASK_FRAME_TYPE, OFFSET_FRAME_TYPE) == b0 % 8
            &&& field(bits, MASK_SECURITY, OFFSET_SECURITY) == (b0 / 8) % 2
            &&& field(bits, MASK_PENDING, OFFSET_PENDING) == (b0 / 16) % 2
            &&& field(bits, MASK_ACK, OFFSET_ACK) == (b0 / 32) % 2
            &&& field(bits, MASK_PAN_ID_COMPRESS, OFFSET_PAN_ID_COMPRESS) == (b0 / 64) % 2
            &&& field(bits, MASK_DEST_ADDR_MODE, OFFSET_DEST_ADDR_MODE) == (b1 / 4) % 4
            &&& field(bits, MASK_VERSION, OFFSET_VERSION) == (b1 / 16) % 4
            &&& field(bits, MASK_SRC_ADDR_MODE, OFFSET_SRC_ADDR_MODE) == b1 / 64
        }),
{
    let bits = (b0 as u16) | ((b1 as u16) << 8u16);
    assert({
        &&& ((bits & 0x0007u16) >> 0u16) as u8 == b0 % 8
        &&& ((bits & 0x0008u16) >> 3u16) as u8 == (b0 / 8) % 2
        &&& ((bits & 0x0010u16) >> 4u16) as u8 == (b0 / 16) % 2
        &&& ((bits & 0x0020u16) >> 5u16) as u8 == (b0 / 32) % 2
        &&& ((bits & 0x0040u16) >> 6u16) as u8 == (b0 / 64) % 2
        &&& ((bits & 0x0c00u16) >> 10u16) as u8 == (b1 / 4) % 4
        &&& ((bits & 0x3000u16) >> 12u16) as u8 == (b1 / 16) % 4
        &&& ((bits & 0xc000u16) >> 14u16) as u8 == b1 / 64
    }) by (bit_vector)
        requires
            bits == (b0 as u16) | ((b1 as u16) << 8u16),
    ;
}

/// Reading an address at `pos`: nothing for mode `Absent`; otherwise a
/// two-byte PAN ID unless one is given, then a two-byte short or an
/// eight-byte extended address, all least significant byte first. Running
/// out of bytes is `Incomplete`.
pub proof fn lemma_read_address_layout(s: Seq<u8>, pos: int, mode: AddressMode, pan_id: Option<PanId>)
    requires
        0 <= pos <= s.len(),
        s.len() <= usize::MAX,
    ensures
        ({
            let pl: int = if pan_id is None { 2 } else { 0 };
            let pan = match pan_id {
                Some(p) => p,
                None => PanId(le_value(s, pos, 2) as u16),
            };
            let r = spec_read_address(s, pos, mode, pan_id);
            &&& mode is Absent ==> r == Ok::<(Option<Address>, usize), Error>((None, pos as usize))
            &&& mode is Short ==> if pos + pl + 2 <= s.len() {
                r == Ok::<(Option<Address>, usize), Error>(
                    (
                        Some(Address::Short(pan, ShortAddress(le_value(s, pos + pl, 2) as u16))),
                        (pos + pl + 2) as usize,
                    ),
                )
            } else {
                r == Err::<(Option<Address>, usize), Error>(Error::Incomplete)
            }
            &&& mode is Extended ==> if pos + pl + 8 <= s.len() {
                r == Ok::<(Option<Address>, usize), Error>(
                    (
                        Some(
                            Address::Extended(
                                pan,
                                ExtendedAddress(le_value(s, pos + pl, 8) as u64),
                            ),
                        ),
                        (pos + pl + 8) as usize,
                    ),
                )
            } else {
                r == Err::<(Option<Address>, usize), Error>(Error::Incomplete)
            }
        }),
{
    lemma_from_le16_value(s, pos);
    if pan_id is None {
        lemma_from_le16_value(s, pos + 2);
        lemma_from_le64_value(s, pos + 2);
    } else {
        lemma_from_le16_value(s, pos);
        lemma_from_le64_value(s, pos);
    }
}

/// Where a header's fields lie in the bytes it is decoded from.
///
/// Byte 0 holds the frame type (bits 0 to 2; values above 3 are reserved),
/// security (bit 3; not supported), frame pending (bit 4), acknowledgement
/// request (bit 5) and PAN ID compression (bit 6); byte 1 holds the
/// destination addressing mode (bits 2 and 3), the version (bits 4 and 5;
/// 3 is reserved) and the source addressing mode (bits 6 and 7), where 0 is
/// no address, 1 is reserved, 2 a short and 3 an extended address. Byte 2 is
/// the sequence number. The destination follows with its PAN ID, then the
/// source, whose PAN ID is left out under compression and taken from the
/// destination, which must then be present. Numbers are least significant
/// byte first. The checks come in that order, and running out of bytes is
/// `Incomplete`.
pub proof fn lemma_header_layout(s: Seq<u8>)
    requires
        s.len() <= usize::MAX,
    ensures
        s.len() < 3 ==> spec_parse_header(s, 0) == Err::<(Header, usize), Error>(Error::Incomplete),
        s.len() >= 3 ==> ({
            let b0 = s[0];
            let b1 = s[1];
            let ft = b0 % 8;
            let ver = (b1 / 16) % 4;
            let dmode = (b1 / 4) % 4;
            let smode = b1 / 64;
            let compress = (b0 / 64) % 2 == 1;
            let dl: int = if dmode == 2 {
                4
            } else if dmode == 3 {
                10
            } else {
                0
            };
            let q = 3 + dl;
            let sl: int = if smode == 2 {
                if compress {
                    2
                } else {
                    4
                }
            } else if smode == 3 {
                if compress {
                    8
                } else {
                    10
                }
            } else {
                0
            };
            let r = spec_parse_header(s, 0);
            &&& ft >= 4 ==> r == Err::<(Header, usize), Error>(
                Error::BadInput { err: "InvalidFrameType" },
            )
            &&& ft < 4 && (b0 / 8) % 2 == 1 ==> r == Err::<(Header, usize), Error>(
                Error::BadInput { err: "SecurityNotSupported" },
            )
            &&& ft < 4 && (b0 / 8) % 2 == 0 && ver == 3 ==> r == Err::<(Header, usize), Error>(
                Error::BadInput { err: "InvalidFrameVersion" },
            )
            &&& ft < 4 && (b0 / 8) % 2 == 0 && ver < 3 && (dmode == 1 || smode == 1) ==> r
                == Err::<(Header, usize), Error>(Error::BadInput { err: "InvalidAddressMode" })
            &&& ft < 4 && (b0 / 8) % 2 == 0 && ver < 3 && dmode != 1 && smode != 1 && dmode == 0
                && compress ==> r == Err::<(Header, usize), Error>(
                Error::BadInput { err: "InvalidAddressMode" },
            )
            &&& ft < 4 && (b0 / 8) % 2 == 0 && ver < 3 && dmode != 1 && smode != 1 && !(dmode == 0
                && compress) && s.len() < q + sl ==> r == Err::<(Header, usize), Error>(
                Error::Incomplete,
            )
            &&& r is Ok <==> (ft < 4 && (b0 / 8) % 2 == 0 && ver < 3 && dmode != 1 && smode != 1
                && !(dmode == 0 && compress) && q + sl <= s.len())
            &&& r matches Ok((h, n)) ==> {
                &&& n == q + sl
                &&& h.frame_type == (if ft == 0 {
                    FrameType::Beacon
                } else if ft == 1 {
                    FrameType::Data
                } else if ft == 2 {
                    FrameType::Acknowledgement
                } else {
                    FrameType::MacCommand
                })
                &&& h.security == Security::Disabled
                &&& h.frame_pending == ((b0 / 16) % 2 == 1)
                &&& h.ack_request == ((b0 / 32) % 2 == 1)
                &&& h.pan_id_compress == compress
                &&& h.version == (if ver == 0 {
                    FrameVersion::Ieee802154_2003
                } else if ver == 1 {
                    FrameVersion::Ieee802154_2006
                } else {
                    FrameVersion::Ieee802154
                })
                &&& h.seq == s[2]
                &&& dmode == 0 ==> h.destination is None
                &&& dmode == 2 ==> h.destination == Some(
                    Address::Short(
                        PanId(le_value(s, 3, 2) as u16),
                        ShortAddress(le_value(s, 5, 2) as u16),
                    ),
                )
                &&& dmode == 3 ==> h.destination == Some(
                    Address::Extended(
                        PanId(le_value(s, 3, 2) as u16),
                        ExtendedAddress(le_value(s, 5, 8) as u64),
                    ),
                )
                &&& smode == 0 ==> h.source is None
                &&& smode == 2 && compress ==> h.source == Some(
                    Address::Short(
                        PanId(le_value(s, 3, 2) as u16),
                        ShortAddress(le_value(s, q, 2) as u16),
                    ),
                )
                &&& smode == 3 && compress ==> h.source == Some(
                    Address::Extended(
                        PanId(le_value(s, 3, 2) as u16),
                        ExtendedAddress(le_value(s, q, 8) as u64),
                    ),
                )
                &&& smode == 2 && !compress ==> h.source == Some(
                    Address::Short(
                        PanId(le_value(s, q, 2) as u16),
                        ShortAddress(le_value(s, q + 2, 2) as u16),
                    ),
                )
                &&& smode == 3 && !compress ==> h.source == Some(
                    Address::Extended(
                        PanId(le_value(s, q, 2) as u16),
                        ExtendedAddress(le_value(s, q + 2, 8) as u64),
                    ),
                )
            }
        }),
{
    if s.len() >= 3 {
        lemma_frame_control_bytes(s[0], s[1]);
        let b1 = s[1];
        let dmode = (b1 / 4) % 4;
        let smode = b1 / 64;
        if let Some(dm) = address_mode_from_bits(dmode) {
            lemma_read_address_layout(s, 3, dm, None);
            if let Ok((d, p1)) = spec_read_address(s, 3, dm, None) {
                if let Some(sm) = address_mode_from_bits(smode) {
                    lemma_read_address_layout(s, p1 as int, sm, None);
                    if let Some(dd) = d {
                        lemma_read_address_layout(s, p1 as int, sm, Some(dd.spec_pan_id()));
                    }
                }
            }
        }
    }
}

proof fn lemma_frame_control_pack_bytes(
    ft: u8,
    pending: bool,
    ack: bool,
    compress: bool,
    dmode: u8,
    ver: u8,
    smode: u8,
)
    requires
        ft < 4,
        dmode < 4,
        ver < 4,
        smode < 4,
    ensures
        ({
            let bits = pack(ft, 0, pending, ack, compress, dmode, ver, smode);
            let b0 = le16(bits)[0];
            let b1 = le16(bits)[1];
            &&& b0 % 8 == ft
            &&& (b0 / 8) % 2 == 0
            &&& (b0 / 16) % 2 == (if pending { 1int } else { 0 })
            &&& (b0 / 32) % 2 == (if ack { 1int } else { 0 })
            &&& (b0 / 64) % 2 == (if compress { 1int } else { 0 })
            &&& b0 / 128 == 0
            &&& b1 % 4 == 0
            &&& (b1 / 4) % 4 == dmode
            &&& (b1 / 16) % 4 == ver
            &&& b1 / 64 == smode
        }),
{
    let p = flag(pending);
    let a = flag(ack);
    let c = flag(compress);
    let f = ft as u16;
    let d = dmode as u16;
    let v = ver as u16;
    let sm = smode as u16;
    let bits = f | (0u16 << 3u16) | (p << 4u16) | (a << 5u16) | (c << 6u16) | (d << 10u16) | (v
        << 12u16) | (sm << 14u16);
    let b0 = bits as u8;
    let b1 = (bits >> 8u16) as u8;
    assert({
        &&& b0 % 8 == f as u8
        &&& (b0 / 8) % 2 == 0
        &&& (b0 / 16) % 2 == p as u8
        &&& (b0 / 32) % 2 == a as u8
        &&& (b0 / 64) % 2 == c as u8
        &&& b0 / 128 == 0
        &&& b1 % 4 == 0
        &&& (b1 / 4) % 4 == d as u8
        &&& (b1 / 16) % 4 == v as u8
        &&& b1 / 64 == sm as u8
    }) by (bit_vector)
        requires
            f < 4,
            p < 2,
            a < 2,
            c < 2,
            d < 4,
            v < 4,
            sm < 4,
            bits == f | (0u16 << 3u16) | (p << 4u16) | (a << 5u16) | (c << 6u16) | (d << 10u16) | (v
                << 12u16) | (sm << 14u16),
            b0 == bits as u8,
            b1 == (bits >> 8u16) as u8,
    ;
}

proof fn lemma_address_bytes(a: Option<Address>, with_pan: bool)
    ensures
        ({
            let b = address_chunks(a, with_pan).flatten();
            let pl: int = if with_pan { 2 } else { 0 };
            match a {
                None => b.len() == 0,
                Some(Address::Short(p, x)) => {
                    &&& b.len() == pl + 2
                    &&& with_pan ==> le_value(b, 0, 2) == p.0
                    &&& le_value(b, pl, 2) == x.0
                },
                Some(Address::Extended(p, x)) => {
                    &&& b.len() == pl + 8
                    &&& with_pan ==> le_value(b, 0, 2) == p.0
                    &&& le_value(b, pl, 8) == x.0
                },
            }
        }),
{
    let b = address_chunks(a, with_pan).flatten();
    match a {
        None => {
            assert(b =~= Seq::<u8>::empty());
        },
        Some(Address::Short(p, x)) => {
            lemma_le16_value(p.0);
            lemma_le16_value(x.0);
            if with_pan {
                lemma_flatten_two(le16(p.0), le16(x.0));
                assert(b.subrange(0, 0 + 2int) =~= le16(p.0).subrange(0, 0 + 2int));
                lemma_le_value_shift(b, 0, le16(p.0), 0, 2);
                assert(b.subrange(2, 2 + 2int) =~= le16(x.0).subrange(0, 0 + 2int));
                lemma_le_value_shift(b, 2, le16(x.0), 0, 2);
            } else {
                lemma_flatten_one(le16(x.0));
            }
        },
        Some(Address::Extended(p, x)) => {
            lemma_le16_value(p.0);
            lemma_le64_value(x.0);
            if with_pan {
                lemma_flatten_two(le16(p.0), le64(x.0));
                assert(b.subrange(0, 0 + 2int) =~= le16(p.0).subrange(0, 0 + 2int));
                lemma_le_value_shift(b, 0, le16(p.0), 0, 2);
                assert(b.subrange(2, 2 + 8int) =~= le64(x.0).subrange(0, 0 + 8int));
                lemma_le_value_shift(b, 2, le64(x.0), 0, 8);
            } else {
                lemma_flatten_one(le64(x.0));
            }
        },
    }
}

/// The bytes a header is encoded to, field by field.
///
/// Byte 0: frame type in bits 0 to 2 (beacon 0, data 1, acknowledgement 2,
/// MAC command 3), security bit 3 clear, frame pending bit 4,
/// acknowledgement request bit 5, PAN ID compression bit 6. Byte 1:
/// destination addressing mode in bits 2 and 3, version in bits 4 and 5
/// (2003: 0, 2006: 1, later: 2), source addressing mode in bits 6 and 7 (no
/// address 0, short 2, extended 3). Byte 2: the sequence number. Then the
/// destination PAN ID and address, then the source: its PAN ID only without
/// compression, then its address. Numbers are least significant byte first.
pub proof fn lemma_header_bytes_layout(h: Header)
    ensures
        ({
            let b = header_bytes(h);
            let dcode: int = match h.destination {
                None => 0,
                Some(Address::Short(..)) => 2,
                Some(Address::Extended(..)) => 3,
            };
            let scode: int = match h.source {
                None => 0,
                Some(Address::Short(..)) => 2,
                Some(Address::Extended(..)) => 3,
            };
            let dl: int = match h.destination {
                None => 0,
                Some(Address::Short(..)) => 4,
                Some(Address::Extended(..)) => 10,
            };
            let pl: int = if h.pan_id_compress {
                0
            } else {
                2
            };
            let sl: int = match h.source {
                None => 0,
                Some(Address::Short(..)) => pl + 2,
                Some(Address::Extended(..)) => pl + 8,
            };
            let q = 3 + dl;
            &&& b.len() == 3 + dl + sl
            &&& b[0] % 8 == match h.frame_type {
                FrameType::Beacon => 0int,
                FrameType::Data => 1,
                FrameType::Acknowledgement => 2,
                FrameType::MacCommand => 3,
            }
            &&& (b[0] / 8) % 2 == 0
            &&& (b[0] / 16) % 2 == (if h.frame_pending { 1int } else { 0 })
            &&& (b[0] / 32) % 2 == (if h.ack_request { 1int } else { 0 })
            &&& (b[0] / 64) % 2 == (if h.pan_id_compress { 1int } else { 0 })
            &&& b[0] / 128 == 0
            &&& b[1] % 4 == 0
            &&& (b[1] / 4) % 4 == dcode
            &&& (b[1] / 16) % 4 == match h.version {
                FrameVersion::Ieee802154_2003 => 0int,
                FrameVersion::Ieee802154_2006 => 1,
                FrameVersion::Ieee802154 => 2,
            }
            &&& b[1] / 64 == scode
            &&& b[2] == h.seq
            &&& h.destination matches Some(d) ==> le_value(b, 3, 2) == d.spec_pan_id().0
            &&& h.destination matches Some(Address::Short(_, x)) ==> le_value(b, 5, 2) == x.0
            &&& h.destination matches Some(Address::Extended(_, x)) ==> le_value(b, 5, 8) == x.0
            &&& (h.source is Some && !h.pan_id_compress) ==> le_value(b, q, 2)
                == h.source.unwrap().spec_pan_id().0
            &&& h.source matches Some(Address::Short(_, x)) ==> le_value(b, q + pl, 2) == x.0
            &&& h.source matches Some(Address::Extended(_, x)) ==> le_value(b, q + pl, 8) == x.0
        }),
{
    let fcf = spec_frame_control(h);
    let first: Seq<Seq<u8>> = seq![le16(fcf), seq![h.seq]];
    let dest = address_chunks(h.destination, true);
    let src = address_chunks(h.source, !h.pan_id_compress);
    assert(header_chunks(h) == first + dest + src);
    lemma_flatten_concat(first + dest, src);
    lemma_flatten_concat(first, dest);
    lemma_flatten_two(le16(fcf), seq![h.seq]);
    let b = header_bytes(h);
    let fb = first.flatten();
    let db = dest.flatten();
    let sb = src.flatten();
    assert(b == fb + db + sb);
    lemma_le16_roundtrip(fcf);
    assert(b[0] == le16(fcf)[0]);
    assert(b[1] == le16(fcf)[1]);
    assert(b[2] == h.seq);
    lemma_frame_control_pack_bytes(
        frame_type_bits(h.frame_type),
        h.frame_pending,
        h.ack_request,
        h.pan_id_compress,
        address_mode_bits(h.destination),
        frame_version_bits(h.version),
        address_mode_bits(h.source),
    );
    lemma_address_bytes(h.destination, true);
    lemma_address_bytes(h.source, !h.pan_id_compress);
    let q: int = 3 + db.len() as int;
    assert(b.subrange(3, q) =~= db);
    assert(b.subrange(q, q + sb.len() as int) =~= sb);
    if db.len() >= 2 {
        assert(b.subrange(3, 5) =~= db.subrange(0, 2));
        assert(b.subrange(3, 3 + 2int) =~= db.subrange(0, 0 + 2int));
        lemma_le_value_shift(b, 3, db, 0, 2);
    }
    if db.len() >= 4 {
        assert(b.subrange(5, 5 + 2int) =~= db.subrange(2, 2 + 2int));
        lemma_le_value_shift(b, 5, db, 2, 2);
    }
    if db.len() >= 10 {
        assert(b.subrange(5, 5 + 8int) =~= db.subrange(2, 2 + 8int));
        lemma_le_value_shift(b, 5, db, 2, 8);
    }
    if sb.len() >= 2 {
        assert(b.subrange(q, q + 2int) =~= sb.subrange(0, 0 + 2int));
        lemma_le_value_shift(b, q, sb, 0, 2);
    }
    if sb.len() >= 4 {
        assert(b.subrange(q + 2, q + 2 + 2int) =~= sb.subrange(2, 2 + 2int));
        lemma_le_value_shift(b, q + 2, sb, 2, 2);
    }
    if sb.len() >= 8 {
        assert(b.subrange(q, q + 8int) =~= sb.subrange(0, 0 + 8int));
        lemma_le_value_shift(b, q, sb, 0, 8);
    }
    if sb.len() >= 10 {
        assert(b.subrange(q + 2, q + 2 + 8int) =~= sb.subrange(2, 2 + 8int));
        lemma_le_value_shift(b, q + 2, sb, 2, 8);
    }
}

} // verus!
