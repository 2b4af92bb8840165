//! MAC commands: the content of MAC command frames.
use crate::codec::{
    le16, le_value, lemma_flatten_one, lemma_flatten_two, lemma_from_le16_value,
    lemma_le16_roundtrip, lemma_le16_value, lemma_le_value_shift, lemma_write_all_append,
    read_u16_le, read_u8, spec_read_u16_le, spec_read_u8, write_all, write_u16_le, write_u8, Error,
};
use crate::mac::frame::header::{PanId, ShortAddress};
use crate::mac::frame::{spec_error_of, DecodeError};
use vstd::prelude::*;
use vstd::seq_lib::lemma_flatten_concat;

verus! {

/// The capabilities of a device asking to associate
#[derive(Clone, Copy, Debug, Eq, Hash, PartialEq)]
pub struct CapabilityInformation {
    /// The device is a full-function device
    pub full_function_device: bool,
    /// The device is mains powered
    pub mains_power: bool,
    /// The receiver stays on while the device is idle
    pub idle_receive: bool,
    /// The device can send and receive protected frames
    pub frame_protection: bool,
    /// The device wants the coordinator to allocate a short address
    pub allocate_address: bool,
}

/// The byte of a capability information field (bits 1, 2, 3, 6 and 7).
pub open spec fn capability_byte(c: CapabilityInformation) -> u8 {
    (bit(c.full_function_device) << 1u8) | (bit(c.mains_power) << 2u8) | (bit(c.idle_receive)
        << 3u8) | (bit(c.frame_protection) << 6u8) | (bit(c.allocate_address) << 7u8)
}

/// The capability information held in a byte; the reserved bits are ignored.
pub open spec fn capability_from_byte(b: u8) -> CapabilityInformation {
    CapabilityInformation {
        full_function_device: (b >> 1u8) & 1 == 1,
        mains_power: (b >> 2u8) & 1 == 1,
        idle_receive: (b >> 3u8) & 1 == 1,
        frame_protection: (b >> 6u8) & 1 == 1,
        allocate_address: (b >> 7u8) & 1 == 1,
    }
}

pub open spec fn bit(b: bool) -> u8 {
    if b {
        1
    } else {
        0
    }
}

fn bit_exec(b: bool) -> (r: u8)
    ensures
        r == bit(b),
{
    if b {
        1
    } else {
        0
    }
}

/// The outcome of an association request
#[derive(Clone, Copy, Debug, Eq, Hash, PartialEq)]
pub enum AssociationStatus {
    /// The association was successful
    Successful,
    /// The PAN is at capacity
    NetworkAtCapacity,
    /// Access to the PAN is denied
    AccessDenied,
}

pub open spec fn association_status_byte(s: AssociationStatus) -> u8 {
    match s {
        AssociationStatus::Successful => 0,
        AssociationStatus::NetworkAtCapacity => 1,
        AssociationStatus::AccessDenied => 2,
    }
}

pub open spec fn association_status_from_byte(b: u8) -> Option<AssociationStatus> {
    if b == 0 {
        Some(AssociationStatus::Successful)
    } else if b == 1 {
        Some(AssociationStatus::NetworkAtCapacity)
    } else if b == 2 {
        Some(AssociationStatus::AccessDenied)
    } else {
        None
    }
}

/// The reason for leaving a PAN
#[derive(Clone, Copy, Debug, Eq, Hash, PartialEq)]
pub enum DisassociationReason {
    /// The coordinator wants the device to leave the PAN
    CoordinatorLeave,
    /// The device wants to leave the PAN
    DeviceLeave,
}

pub open spec fn disassociation_reason_byte(r: DisassociationReason) -> u8 {
    match r {
        DisassociationReason::CoordinatorLeave => 1,
        DisassociationReason::DeviceLeave => 2,
    }
}

pub open spec fn disassociation_reason_from_byte(b: u8) -> Option<DisassociationReason> {
    if b == 1 {
        Some(DisassociationReason::CoordinatorLeave)
    } else if b == 2 {
        Some(DisassociationReason::DeviceLeave)
    } else {
        None
    }
}

/// The content of a coordinator realignment command
#[derive(Clone, Copy, Debug, Eq, Hash, PartialEq)]
pub struct CoordinatorRealignmentData {
    /// The PAN ID the coordinator will use
    pub pan_id: PanId,
    /// The short address of the coordinator
    pub coordinator_address: ShortAddress,
    /// The logical channel the coordinator will use
    pub channel: u8,
    /// The short address of the device, when sent to an orphaned device
    pub device_address: ShortAddress,
    /// The channel page the coordinator will use, if given
    pub channel_page: Option<u8>,
}

/// The characteristics of a requested guaranteed time slot
#[derive(Clone, Copy, Debug, Eq, Hash, PartialEq)]
pub struct GuaranteedTimeSlotCharacteristics {
    /// Number of superframe slots requested (four bits)
    pub count: u8,
    /// The slot is for receiving only
    pub receive_only: bool,
    /// `true` to allocate the slot, `false` to deallocate it
    pub allocation: bool,
}

/// The byte of the characteristics: count in bits 0 to 3, then the two flags.
pub open spec fn gts_characteristics_byte(c: GuaranteedTimeSlotCharacteristics) -> u8 {
    (c.count & 0x0f) | (bit(c.receive_only) << 4u8) | (bit(c.allocation) << 5u8)
}

pub open spec fn gts_characteristics_from_byte(b: u8) -> GuaranteedTimeSlotCharacteristics {
    GuaranteedTimeSlotCharacteristics {
        count: b & 0x0f,
        receive_only: (b >> 4u8) & 1 == 1,
        allocation: (b >> 5u8) & 1 == 1,
    }
}

/// A MAC command
#[derive(Clone, Copy, Debug, Eq, Hash, PartialEq)]
pub enum Command {
    /// Association request
    AssociationRequest(CapabilityInformation),
    /// Association response: the short address given, and the outcome
    AssociationResponse(ShortAddress, AssociationStatus),
    /// Disassociation notification
    DisassociationNotification(DisassociationReason),
    /// Data request
    DataRequest,
    /// PAN ID conflict notification
    PanIdConflictNotification,
    /// Orphan notification
    OrphanNotification,
    /// Beacon request
    BeaconRequest,
    /// Coordinator realignment
    CoordinatorRealignment(CoordinatorRealignmentData),
    /// Guaranteed time slot request
    GuaranteedTimeSlotRequest(GuaranteedTimeSlotCharacteristics),
}

/// The identifier byte that starts a command.
pub open spec fn command_id(c: Command) -> u8 {
    match c {
        Command::AssociationRequest(_) => 1,
        Command::AssociationResponse(..) => 2,
        Command::DisassociationNotification(_) => 3,
        Command::DataRequest => 4,
        Command::PanIdConflictNotification => 5,
        Command::OrphanNotification => 6,
        Command::BeaconRequest => 7,
        Command::CoordinatorRealignment(_) => 8,
        Command::GuaranteedTimeSlotRequest(_) => 9,
    }
}

/// The writes that encode a command: its identifier, then its fields in order.
pub open spec fn command_chunks(c: Command) -> Seq<Seq<u8>> {
    seq![seq![command_id(c)]] + match c {
        Command::AssociationRequest(cap) => seq![seq![capability_byte(cap)]],
        Command::AssociationResponse(addr, status) => seq![
            le16(addr.0),
            seq![association_status_byte(status)],
        ],
        Command::DisassociationNotification(reason) => seq![
            seq![disassociation_reason_byte(reason)],
        ],
        Command::CoordinatorRealignment(d) => seq![
            le16(d.pan_id.0),
            le16(d.coordinator_address.0),
            seq![d.channel],
            le16(d.device_address.0),
        ] + match d.channel_page {
            Some(page) => seq![seq![page]],
            None => seq![],
        },
        Command::GuaranteedTimeSlotRequest(ch) => seq![seq![gts_characteristics_byte(ch)]],
        _ => seq![],
    }
}

/// The bytes of an encoded command.
pub open spec fn command_bytes(c: Command) -> Seq<u8> {
    command_chunks(c).flatten()
}

/// Decoding a coordinator realignment after its identifier: PAN ID,
/// coordinator address, channel and device address, then a channel page
/// when any byte is left.
pub open spec fn spec_parse_realignment(s: Seq<u8>, pos: int) -> Result<
    (CoordinatorRealignmentData, usize),
    Error,
> {
    match spec_read_u16_le(s, pos) {
        Err(e) => Err(e),
        Ok(pan) => match spec_read_u16_le(s, pos + 2) {
            Err(e) => Err(e),
            Ok(coord) => match spec_read_u8(s, pos + 4) {
                Err(e) => Err(e),
                Ok(channel) => match spec_read_u16_le(s, pos + 5) {
                    Err(e) => Err(e),
                    Ok(device) => {
                        let d = CoordinatorRealignmentData {
                            pan_id: PanId(pan),
                            coordinator_address: ShortAddress(coord),
                            channel,
                            device_address: ShortAddress(device),
                            channel_page: None,
                        };
                        if s.len() > pos + 7 {
                            Ok(
                                (
                                    CoordinatorRealignmentData {
                                        channel_page: Some(s[pos + 7]),
                                        ..d
                                    },
                                    (pos + 8) as usize,
                                ),
                            )
                        } else {
                            Ok((d, (pos + 7) as usize))
                        }
                    },
                },
            },
        },
    }
}

/// Decoding a command at `pos`: an identifier byte, then the fields of that
/// command. An unknown identifier, association status or disassociation
/// reason is an `InvalidValue`.
pub open spec fn spec_parse_command(s: Seq<u8>, pos: int) -> Result<(Command, usize), Error> {
    match spec_read_u8(s, pos) {
        Err(e) => Err(e),
        Ok(id) => {
            let p = pos + 1;
            if id == 1 {
                match spec_read_u8(s, p) {
                    Err(e) => Err(e),
                    Ok(b) => Ok(
                        (Command::AssociationRequest(capability_from_byte(b)), (p + 1) as usize),
                    ),
                }
            } else if id == 2 {
                match spec_read_u16_le(s, p) {
                    Err(e) => Err(e),
                    Ok(addr) => match spec_read_u8(s, p + 2) {
                        Err(e) => Err(e),
                        Ok(b) => match association_status_from_byte(b) {
                            None => Err(spec_error_of(DecodeError::InvalidValue)),
                            Some(status) => Ok(
                                (
                                    Command::AssociationResponse(ShortAddress(addr), status),
                                    (p + 3) as usize,
                                ),
                            ),
                        },
                    },
                }
            } else if id == 3 {
                match spec_read_u8(s, p) {
                    Err(e) => Err(e),
                    Ok(b) => match disassociation_reason_from_byte(b) {
                        None => Err(spec_error_of(DecodeError::InvalidValue)),
                        Some(reason) => Ok(
                            (Command::DisassociationNotification(reason), (p + 1) as usize),
                        ),
                    },
                }
            } else if id == 4 {
                Ok((Command::DataRequest, p as usize))
            } else if id == 5 {
                Ok((Command::PanIdConflictNotification, p as usize))
            } else if id == 6 {
                Ok((Command::OrphanNotification, p as usize))
            } else if id == 7 {
                Ok((Command::BeaconRequest, p as usize))
            } else if id == 8 {
                match spec_parse_realignment(s, p) {
                    Err(e) => Err(e),
                    Ok((d, q)) => Ok((Command::CoordinatorRealignment(d), q)),
                }
            } else if id == 9 {
                match spec_read_u8(s, p) {
                    Err(e) => Err(e),
                    Ok(b) => Ok(
                        (
                            Command::GuaranteedTimeSlotRequest(gts_characteristics_from_byte(b)),
                            (p + 1) as usize,
                        ),
                    ),
                }
            } else {
                Err(spec_error_of(DecodeError::InvalidValue))
            }
        },
    }
}

fn read_realignment(bytes: &[u8], offset: usize) -> (res: Result<
    (CoordinatorRealignmentData, usize),
    Error,
>)
    requires
        offset <= bytes@.len(),
    ensures
        res == spec_parse_realignment(bytes@, offset as int),
        res matches Ok((_, p)) ==> offset <= p <= bytes@.len(),
{
    let len = bytes.len();
    let pan = read_u16_le(bytes, offset)?;
    let coord = read_u16_le(bytes, offset + 2)?;
    let channel = read_u8(bytes, offset + 4)?;
    let device = read_u16_le(bytes, offset + 5)?;
    let channel_page = if len > offset + 7 {
        Some(read_u8(bytes, offset + 7)?)
    } else {
        None
    };
    let end = if channel_page.is_some() {
        offset + 8
    } else {
        offset + 7
    };
    Ok(
        (
            CoordinatorRealignmentData {
                pan_id: PanId(pan),
                coordinator_address: ShortAddress(coord),
                channel,
                device_address: ShortAddress(device),
                channel_page,
            },
            end,
        ),
    )
}

impl Command {
    /// Decodes a command at `offset`
    ///
    /// # Errors
    ///
    /// `Incomplete` when the bytes end early, `BadInput` (`InvalidValue`)
    /// for an unknown command identifier, association status or
    /// disassociation reason.
    pub fn read_at(bytes: &[u8], offset: usize) -> (res: Result<(Command, usize), Error>)
        requires
            offset <= bytes@.len(),
        ensures
            res == spec_parse_command(bytes@, offset as int),
            res matches Ok((_, p)) ==> offset <= p <= bytes@.len(),
    {
        let len = bytes.len();
        let id = read_u8(bytes, offset)?;
        let p = offset + 1;
        match id {
            1 => {
                let b = read_u8(bytes, p)?;
                let cap = CapabilityInformation {
                    full_function_device: (b >> 1u8) & 1 == 1,
                    mains_power: (b >> 2u8) & 1 == 1,
                    idle_receive: (b >> 3u8) & 1 == 1,
                    frame_protection: (b >> 6u8) & 1 == 1,
                    allocate_address: (b >> 7u8) & 1 == 1,
                };
                Ok((Command::AssociationRequest(cap), p + 1))
            },
            2 => {
                let addr = read_u16_le(bytes, p)?;
                let b = read_u8(bytes, p + 2)?;
                let status = match b {
                    0 => AssociationStatus::Successful,
                    1 => AssociationStatus::NetworkAtCapacity,
                    2 => AssociationStatus::AccessDenied,
                    _ => return Err(Error::from(DecodeError::InvalidValue)),
                };
                Ok((Command::AssociationResponse(ShortAddress(addr), status), p + 3))
            },
            3 => {
                let b = read_u8(bytes, p)?;
                let reason = match b {
                    1 => DisassociationReason::CoordinatorLeave,
                    2 => DisassociationReason::DeviceLeave,
                    _ => return Err(Error::from(DecodeError::InvalidValue)),
                };
                Ok((Command::DisassociationNotification(reason), p + 1))
            },
            4 => Ok((Command::DataRequest, p)),
            5 => Ok((Command::PanIdConflictNotification, p)),
            6 => Ok((Command::OrphanNotification, p)),
            7 => Ok((Command::BeaconRequest, p)),
            8 => {
                let (d, q) = read_realignment(bytes, p)?;
                Ok((Command::CoordinatorRealignment(d), q))
            },
            9 => {
                let b = read_u8(bytes, p)?;
                let ch = GuaranteedTimeSlotCharacteristics {
                    count: b & 0x0f,
                    receive_only: (b >> 4u8) & 1 == 1,
                    allocation: (b >> 5u8) & 1 == 1,
                };
                Ok((Command::GuaranteedTimeSlotRequest(ch), p + 1))
            },
            _ => Err(Error::from(DecodeError::InvalidValue)),
        }
    }

    /// Writes the command at `offset`, one field at a time; the first field
    /// that does not fit stops the write with an error.
    pub fn write_at(&self, bytes: &mut [u8], offset: usize) -> (res: Result<usize, Error>)
        requires
            offset <= old(bytes)@.len(),
        ensures
            res == write_all(old(bytes)@, offset as int, command_chunks(*self)).1,
            final(bytes)@ == write_all(old(bytes)@, offset as int, command_chunks(*self)).0,
    {
        let len = bytes.len();
        proof {
            reveal_with_fuel(write_all, 7);
        }
        let id: u8 = match *self {
            Command::AssociationRequest(_) => 1,
            Command::AssociationResponse(..) => 2,
            Command::DisassociationNotification(_) => 3,
            Command::DataRequest => 4,
            Command::PanIdConflictNotification => 5,
            Command::OrphanNotification => 6,
            Command::BeaconRequest => 7,
            Command::CoordinatorRealignment(_) => 8,
            Command::GuaranteedTimeSlotRequest(_) => 9,
        };
        let ghost c = command_chunks(*self);
        assert(c[0] == seq![id]);
        let ghost b0 = bytes@;
        let p = write_u8(bytes, offset, id)?;
        assert(write_all(b0, offset as int, c) == write_all(bytes@, p as int, c.drop_first()));
        match *self {
            Command::AssociationRequest(cap) => {
                assert(c.drop_first() =~= seq![seq![capability_byte(cap)]]);
                let b = (bit_exec(cap.full_function_device) << 1u8) | (bit_exec(cap.mains_power)
                    << 2u8) | (bit_exec(cap.idle_receive) << 3u8) | (bit_exec(cap.frame_protection)
                    << 6u8) | (bit_exec(cap.allocate_address) << 7u8);
                write_u8(bytes, p, b)
            },
            Command::AssociationResponse(addr, status) => {
                let sb: u8 = match status {
                    AssociationStatus::Successful => 0,
                    AssociationStatus::NetworkAtCapacity => 1,
                    AssociationStatus::AccessDenied => 2,
                };
                assert(c.drop_first() =~= seq![le16(addr.0), seq![sb]]);
                let p = write_u16_le(bytes, p, addr.0)?;
                write_u8(bytes, p, sb)
            },
            Command::DisassociationNotification(reason) => {
                let rb: u8 = match reason {
                    DisassociationReason::CoordinatorLeave => 1,
                    DisassociationReason::DeviceLeave => 2,
                };
                assert(c.drop_first() =~= seq![seq![rb]]);
                write_u8(bytes, p, rb)
            },
            Command::CoordinatorRealignment(d) => {
                let ghost fixed: Seq<Seq<u8>> = seq![
                    le16(d.pan_id.0),
                    le16(d.coordinator_address.0),
                    seq![d.channel],
                    le16(d.device_address.0),
                ];
                let ghost page: Seq<Seq<u8>> = match d.channel_page {
                    Some(pg) => seq![seq![pg]],
                    None => seq![],
                };
                assert(c.drop_first() =~= fixed + page);
                proof {
                    lemma_write_all_append(bytes@, p as int, fixed, page);
                }
                let p = write_u16_le(bytes, p, d.pan_id.0)?;
                let p = write_u16_le(bytes, p, d.coordinator_address.0)?;
                let p = write_u8(bytes, p, d.channel)?;
                let p = write_u16_le(bytes, p, d.device_address.0)?;
                match d.channel_page {
                    Some(pg) => write_u8(bytes, p, pg),
                    None => Ok(p),
                }
            },
            Command::GuaranteedTimeSlotRequest(ch) => {
                assert(c.drop_first() =~= seq![seq![gts_characteristics_byte(ch)]]);
                let b = (ch.count & 0x0f) | (bit_exec(ch.receive_only) << 4u8) | (bit_exec(
                    ch.allocation,
                ) << 5u8);
                write_u8(bytes, p, b)
            },
            _ => {
                assert(c.drop_first() =~= Seq::<Seq<u8>>::empty());
                Ok(p)
            },
        }
    }
}

// ---------------------------------------------------------------------------
// Decoding what was encoded

proof fn lemma_capability_roundtrip(c: CapabilityInformation)
    ensures
        capability_from_byte(capability_byte(c)) == c,
{
    let f1 = bit(c.full_function_device);
    let f2 = bit(c.mains_power);
    let f3 = bit(c.idle_receive);
    let f6 = bit(c.frame_protection);
    let f7 = bit(c.allocate_address);
    let b = capability_byte(c);
    assert({
        &&& (b >> 1u8) & 1 == f1
        &&& (b >> 2u8) & 1 == f2
        &&& (b >> 3u8) & 1 == f3
        &&& (b >> 6u8) & 1 == f6
        &&& (b >> 7u8) & 1 == f7
    }) by (bit_vector)
        requires
            f1 < 2,
            f2 < 2,
            f3 < 2,
            f6 < 2,
            f7 < 2,
            b == (f1 << 1u8) | (f2 << 2u8) | (f3 << 3u8) | (f6 << 6u8) | (f7 << 7u8),
    ;
}

proof fn lemma_gts_characteristics_roundtrip(c: GuaranteedTimeSlotCharacteristics)
    requires
        c.count < 16,
    ensures
        gts_characteristics_from_byte(gts_characteristics_byte(c)) == c,
{
    let n = c.count;
    let r = bit(c.receive_only);
    let a = bit(c.allocation);
    let b = gts_characteristics_byte(c);
    assert({
        &&& b & 0x0fu8 == n
        &&& (b >> 4u8) & 1 == r
        &&& (b >> 5u8) & 1 == a
    }) by (bit_vector)
        requires
            n < 16,
            r < 2,
            a < 2,
            b == (n & 0x0fu8) | (r << 4u8) | (a << 5u8),
    ;
}

/// A command that decoding gives back: a requested slot count fits in four
/// bits.
pub open spec fn command_wf(c: Command) -> bool {
    c matches Command::GuaranteedTimeSlotRequest(ch) ==> ch.count < 16
}

/// A coordinator realignment without a channel page: decoding it takes a
/// byte that follows as the channel page.
pub open spec fn command_takes_next_byte(c: Command) -> bool {
    c matches Command::CoordinatorRealignment(d) && d.channel_page is None
}

/// Decoding the encoding of a well-formed command gives it back, with the
/// offset just past its bytes; a coordinator realignment without a channel
/// page must end the buffer.
pub proof fn lemma_command_roundtrip(c: Command, s: Seq<u8>, pos: int)
    requires
        command_wf(c),
        0 <= pos,
        pos + command_bytes(c).len() <= s.len(),
        s.len() <= usize::MAX,
        s.subrange(pos, pos + command_bytes(c).len()) == command_bytes(c),
        command_takes_next_byte(c) ==> pos + command_bytes(c).len() == s.len(),
    ensures
        spec_parse_command(s, pos) == Ok::<(Command, usize), Error>(
            (c, (pos + command_bytes(c).len()) as usize),
        ),
{
    let cb = command_bytes(c);
    let id = command_id(c);
    let rest = command_chunks(c).drop_first();
    assert(command_chunks(c) =~= seq![seq![id]] + rest);
    lemma_flatten_concat(seq![seq![id]], rest);
    lemma_flatten_one(seq![id]);
    assert(cb == seq![id] + rest.flatten());
    assert(s[pos] == cb[0]);
    assert forall|i: int| 0 <= i < cb.len() implies s[pos + i] == cb[i] by {
        assert(s.subrange(pos, pos + cb.len())[i] == s[pos + i]);
    }
    match c {
        Command::AssociationRequest(cap) => {
            assert(rest =~= seq![seq![capability_byte(cap)]]);
            lemma_flatten_one(seq![capability_byte(cap)]);
            assert(s[pos + 1] == cb[1]);
            lemma_capability_roundtrip(cap);
        },
        Command::AssociationResponse(addr, status) => {
            assert(rest =~= seq![le16(addr.0), seq![association_status_byte(status)]]);
            lemma_flatten_two(le16(addr.0), seq![association_status_byte(status)]);
            lemma_le16_roundtrip(addr.0);
            assert(s[pos + 1] == cb[1]);
            assert(s[pos + 2] == cb[2]);
            assert(s[pos + 3] == cb[3]);
        },
        Command::DisassociationNotification(reason) => {
            assert(rest =~= seq![seq![disassociation_reason_byte(reason)]]);
            lemma_flatten_one(seq![disassociation_reason_byte(reason)]);
            assert(s[pos + 1] == cb[1]);
        },
        Command::CoordinatorRealignment(d) => {
            let fixed: Seq<Seq<u8>> = seq![
                le16(d.pan_id.0),
                le16(d.coordinator_address.0),
                seq![d.channel],
                le16(d.device_address.0),
            ];
            let page: Seq<Seq<u8>> = match d.channel_page {
                Some(pg) => seq![seq![pg]],
                None => seq![],
            };
            assert(rest == fixed + page);
            lemma_flatten_concat(fixed, page);
            assert(fixed =~= seq![le16(d.pan_id.0), le16(d.coordinator_address.0)] + seq![
                seq![d.channel],
                le16(d.device_address.0),
            ]);
            lemma_flatten_concat(
                seq![le16(d.pan_id.0), le16(d.coordinator_address.0)],
                seq![seq![d.channel], le16(d.device_address.0)],
            );
            lemma_flatten_two(le16(d.pan_id.0), le16(d.coordinator_address.0));
            lemma_flatten_two(seq![d.channel], le16(d.device_address.0));
            lemma_le16_roundtrip(d.pan_id.0);
            lemma_le16_roundtrip(d.coordinator_address.0);
            lemma_le16_roundtrip(d.device_address.0);
            assert(s[pos + 1] == cb[1]);
            assert(s[pos + 2] == cb[2]);
            assert(s[pos + 3] == cb[3]);
            assert(s[pos + 4] == cb[4]);
            assert(s[pos + 5] == cb[5]);
            assert(s[pos + 6] == cb[6]);
            assert(s[pos + 7] == cb[7]);
            match d.channel_page {
                Some(pg) => {
                    lemma_flatten_one(seq![pg]);
                    assert(s[pos + 8] == cb[8]);
                },
                None => {
                    assert(page.flatten() =~= Seq::<u8>::empty());
                },
            }
        },
        Command::GuaranteedTimeSlotRequest(ch) => {
            assert(rest =~= seq![seq![gts_characteristics_byte(ch)]]);
            lemma_flatten_one(seq![gts_characteristics_byte(ch)]);
            assert(s[pos + 1] == cb[1]);
            lemma_gts_characteristics_roundtrip(ch);
        },
        _ => {
            assert(rest =~= Seq::<Seq<u8>>::empty());
            assert(rest.flatten() =~= Seq::<u8>::empty());
        },
    }
}

/// Every command that decoding gives is well-formed, and a coordinator
/// realignment without a channel page ends the bytes.
pub proof fn lemma_parsed_command_wf(s: Seq<u8>, pos: int)
    requires
        0 <= pos,
        s.len() <= usize::MAX,
    ensures
        spec_parse_command(s, pos) matches Ok((c, p)) ==> {
            &&& command_wf(c)
            &&& command_takes_next_byte(c) ==> p == s.len()
        },
{
    if let Ok((c, p)) = spec_parse_command(s, pos) {
        if let Command::GuaranteedTimeSlotRequest(ch) = c {
            let b = s[pos + 1];
            assert(b & 0x0f < 16) by (bit_vector);
        }
    }
}

// ---------------------------------------------------------------------------
// Commands on the wire

proof fn lemma_capability_byte_layout(c: CapabilityInformation)
    ensures
        ({
            let b = capability_byte(c);
            &&& b % 2 == 0
            &&& (b / 2) % 2 == (if c.full_function_device { 1int } else { 0 })
            &&& (b / 4) % 2 == (if c.mains_power { 1int } else { 0 })
            &&& (b / 8) % 2 == (if c.idle_receive { 1int } else { 0 })
            &&& (b / 16) % 4 == 0
            &&& (b / 64) % 2 == (if c.frame_protection { 1int } else { 0 })
            &&& b / 128 == (if c.allocate_address { 1int } else { 0 })
        }),
{
    let f1 = bit(c.full_function_device);
    let f2 = bit(c.mains_power);
    let f3 = bit(c.idle_receive);
    let f6 = bit(c.frame_protection);
    let f7 = bit(c.allocate_address);
    let b = capability_byte(c);
    assert({
        &&& b % 2 == 0
        &&& (b / 2) % 2 == f1
        &&& (b / 4) % 2 == f2
        &&& (b / 8) % 2 == f3
        &&& (b / 16) % 4 == 0
        &&& (b / 64) % 2 == f6
        &&& b / 128 == f7
    }) by (bit_vector)
        requires
            f1 < 2,
            f2 < 2,
            f3 < 2,
            f6 < 2,
            f7 < 2,
            b == (f1 << 1u8) | (f2 << 2u8) | (f3 << 3u8) | (f6 << 6u8) | (f7 << 7u8),
    ;
}

proof fn lemma_gts_characteristics_byte_layout(c: GuaranteedTimeSlotCharacteristics)
    ensures
        ({
            let b = gts_characteristics_byte(c);
            &&& b % 16 == c.count % 16
            &&& (b / 16) % 2 == (if c.receive_only { 1int } else { 0 })
            &&& (b / 32) % 2 == (if c.allocation { 1int } else { 0 })
            &&& b / 64 == 0
        }),
{
    let n = c.count;
    let r = bit(c.receive_only);
    let a = bit(c.allocation);
    let b = gts_characteristics_byte(c);
    assert({
        &&& b % 16 == n % 16
        &&& (b / 16) % 2 == r
        &&& (b / 32) % 2 == a
        &&& b / 64 == 0
    }) by (bit_vector)
        requires
            r < 2,
            a < 2,
            b == (n & 0x0fu8) | (r << 4u8) | (a << 5u8),
    ;
}

/// The bytes a command is encoded to: its identifier (association request
/// 1, association response 2, disassociation notification 3, data request
/// 4, PAN ID conflict notification 5, orphan notification 6, beacon request
/// 7, coordinator realignment 8, guaranteed time slot request 9), then its
/// fields. Association status: successful 0, PAN at capacity 1, access
/// denied 2. Disassociation reason: coordinator wishes the device to leave
/// 1, device wishes to leave 2. Capability bits: full-function device 1,
/// mains power 2, receiver on when idle 3, security 6, address allocation
/// 7. Slot request: count in bits 0 to 3, receive only bit 4, allocation
/// bit 5. Numbers are least significant byte first.
pub proof fn lemma_command_bytes_layout(c: Command)
    ensures
        ({
            let b = command_bytes(c);
            &&& b.len() >= 1
            &&& b[0] == match c {
                Command::AssociationRequest(_) => 1u8,
                Command::AssociationResponse(..) => 2,
                Command::DisassociationNotification(_) => 3,
                Command::DataRequest => 4,
                Command::PanIdConflictNotification => 5,
                Command::OrphanNotification => 6,
                Command::BeaconRequest => 7,
                Command::CoordinatorRealignment(_) => 8,
                Command::GuaranteedTimeSlotRequest(_) => 9,
            }
            &&& match c {
                Command::AssociationRequest(cap) => {
                    &&& b.len() == 2
                    &&& b[1] % 2 == 0
                    &&& (b[1] / 2) % 2 == (if cap.full_function_device { 1int } else { 0 })
                    &&& (b[1] / 4) % 2 == (if cap.mains_power { 1int } else { 0 })
                    &&& (b[1] / 8) % 2 == (if cap.idle_receive { 1int } else { 0 })
                    &&& (b[1] / 16) % 4 == 0
                    &&& (b[1] / 64) % 2 == (if cap.frame_protection { 1int } else { 0 })
                    &&& b[1] / 128 == (if cap.allocate_address { 1int } else { 0 })
                },
                Command::AssociationResponse(addr, status) => {
                    &&& b.len() == 4
                    &&& le_value(b, 1, 2) == addr.0
                    &&& b[3] == match status {
                        AssociationStatus::Successful => 0u8,
                        AssociationStatus::NetworkAtCapacity => 1,
                        AssociationStatus::AccessDenied => 2,
                    }
                },
                Command::DisassociationNotification(reason) => {
                    &&& b.len() == 2
                    &&& b[1] == match reason {
                        DisassociationReason::CoordinatorLeave => 1u8,
                        DisassociationReason::DeviceLeave => 2,
                    }
                },
                Command::CoordinatorRealignment(d) => {
                    &&& b.len() == (if d.channel_page is Some { 9int } else { 8 })
                    &&& le_value(b, 1, 2) == d.pan_id.0
                    &&& le_value(b, 3, 2) == d.coordinator_address.0
                    &&& b[5] == d.channel
                    &&& le_value(b, 6, 2) == d.device_address.0
                    &&& d.channel_page matches Some(page) ==> b[8] == page
                },
                Command::GuaranteedTimeSlotRequest(ch) => {
                    &&& b.len() == 2
                    &&& b[1] % 16 == ch.count % 16
                    &&& (b[1] / 16) % 2 == (if ch.receive_only { 1int } else { 0 })
                    &&& (b[1] / 32) % 2 == (if ch.allocation { 1int } else { 0 })
                    &&& b[1] / 64 == 0
                },
                _ => b.len() == 1,
            }
        }),
{
    let b = command_bytes(c);
    let id = command_id(c);
    let rest = command_chunks(c).drop_first();
    assert(command_chunks(c) =~= seq![seq![id]] + rest);
    lemma_flatten_concat(seq![seq![id]], rest);
    lemma_flatten_one(seq![id]);
    assert(b == seq![id] + rest.flatten());
    match c {
        Command::AssociationRequest(cap) => {
            assert(rest =~= seq![seq![capability_byte(cap)]]);
            lemma_flatten_one(seq![capability_byte(cap)]);
            lemma_capability_byte_layout(cap);
            assert(b[1] == capability_byte(cap));
        },
        Command::AssociationResponse(addr, status) => {
            assert(rest =~= seq![le16(addr.0), seq![association_status_byte(status)]]);
            lemma_flatten_two(le16(addr.0), seq![association_status_byte(status)]);
            lemma_le16_value(addr.0);
            assert(b.subrange(1, 3) =~= le16(addr.0).subrange(0, 2));
            lemma_le_value_shift(b, 1, le16(addr.0), 0, 2);
        },
        Command::DisassociationNotification(reason) => {
            assert(rest =~= seq![seq![disassociation_reason_byte(reason)]]);
            lemma_flatten_one(seq![disassociation_reason_byte(reason)]);
        },
        Command::CoordinatorRealignment(d) => {
            let fixed: Seq<Seq<u8>> = seq![
                le16(d.pan_id.0),
                le16(d.coordinator_address.0),
                seq![d.channel],
                le16(d.device_address.0),
            ];
            let page: Seq<Seq<u8>> = match d.channel_page {
                Some(pg) => seq![seq![pg]],
                None => seq![],
            };
            assert(rest == fixed + page);
            lemma_flatten_concat(fixed, page);
            assert(fixed =~= seq![le16(d.pan_id.0), le16(d.coordinator_address.0)] + seq![
                seq![d.channel],
                le16(d.device_address.0),
            ]);
            lemma_flatten_concat(
                seq![le16(d.pan_id.0), le16(d.coordinator_address.0)],
                seq![seq![d.channel], le16(d.device_address.0)],
            );
            lemma_flatten_two(le16(d.pan_id.0), le16(d.coordinator_address.0));
            lemma_flatten_two(seq![d.channel], le16(d.device_address.0));
            lemma_le16_value(d.pan_id.0);
            lemma_le16_value(d.coordinator_address.0);
            lemma_le16_value(d.device_address.0);
            match d.channel_page {
                Some(pg) => {
                    lemma_flatten_one(seq![pg]);
                },
                None => {
                    assert(page.flatten() =~= Seq::<u8>::empty());
                },
            }
            assert(b.subrange(1, 3) =~= le16(d.pan_id.0).subrange(0, 2));
            lemma_le_value_shift(b, 1, le16(d.pan_id.0), 0, 2);
            assert(b.subrange(3, 5) =~= le16(d.coordinator_address.0).subrange(0, 2));
            lemma_le_value_shift(b, 3, le16(d.coordinator_address.0), 0, 2);
            assert(b.subrange(6, 8) =~= le16(d.device_address.0).subrange(0, 2));
            lemma_le_value_shift(b, 6, le16(d.device_address.0), 0, 2);
        },
        Command::GuaranteedTimeSlotRequest(ch) => {
            assert(rest =~= seq![seq![gts_characteristics_byte(ch)]]);
            lemma_flatten_one(seq![gts_characteristics_byte(ch)]);
            lemma_gts_characteristics_byte_layout(ch);
            assert(b[1] == gts_characteristics_byte(ch));
        },
        _ => {
            assert(rest =~= Seq::<Seq<u8>>::empty());
            assert(rest.flatten() =~= Seq::<u8>::empty());
        },
    }
}

/// Decoding a command at `pos`, from its bytes (see
/// [`lemma_command_bytes_layout`] for the identifiers and codes). An unknown
/// identifier, association status or disassociation reason is
/// `InvalidValue`; running out of bytes is `Incomplete`. A coordinator
/// realignment takes a ninth byte, when there is one, as its channel page.
pub proof fn lemma_command_decode_layout(s: Seq<u8>, pos: int)
    requires
        0 <= pos <= s.len(),
        s.len() <= usize::MAX,
    ensures
        pos == s.len() ==> spec_parse_command(s, pos) == Err::<(Command, usize), Error>(
            Error::Incomplete,
        ),
        pos < s.len() ==> ({
            let id = s[pos];
            let r = spec_parse_command(s, pos);
            let invalid = Err::<(Command, usize), Error>(Error::BadInput { err: "InvalidValue" });
            let incomplete = Err::<(Command, usize), Error>(Error::Incomplete);
            &&& (id == 0 || id > 9) ==> r == invalid
            &&& id == 1 ==> if pos + 2 <= s.len() {
                let b = s[pos + 1];
                r == Ok::<(Command, usize), Error>(
                    (
                        Command::AssociationRequest(
                            CapabilityInformation {
                                full_function_device: (b / 2) % 2 == 1,
                                mains_power: (b / 4) % 2 == 1,
                                idle_receive: (b / 8) % 2 == 1,
                                frame_protection: (b / 64) % 2 == 1,
                                allocate_address: b / 128 == 1,
                            },
                        ),
                        (pos + 2) as usize,
                    ),
                )
            } else {
                r == incomplete
            }
            &&& id == 2 ==> if pos + 4 <= s.len() {
                let addr = ShortAddress(le_value(s, pos + 1, 2) as u16);
                let st = s[pos + 3];
                &&& st == 0 ==> r == Ok::<(Command, usize), Error>(
                    (
                        Command::AssociationResponse(addr, AssociationStatus::Successful),
                        (pos + 4) as usize,
                    ),
                )
                &&& st == 1 ==> r == Ok::<(Command, usize), Error>(
                    (
                        Command::AssociationResponse(addr, AssociationStatus::NetworkAtCapacity),
                        (pos + 4) as usize,
                    ),
                )
                &&& st == 2 ==> r == Ok::<(Command, usize), Error>(
                    (
                        Command::AssociationResponse(addr, AssociationStatus::AccessDenied),
                        (pos + 4) as usize,
                    ),
                )
                &&& st > 2 ==> r == invalid
            } else {
                r == incomplete
            }
            &&& id == 3 ==> if pos + 2 <= s.len() {
                let rb = s[pos + 1];
                &&& rb == 1 ==> r == Ok::<(Command, usize), Error>(
                    (
                        Command::DisassociationNotification(DisassociationReason::CoordinatorLeave),
                        (pos + 2) as usize,
                    ),
                )
                &&& rb == 2 ==> r == Ok::<(Command, usize), Error>(
                    (
                        Command::DisassociationNotification(DisassociationReason::DeviceLeave),
                        (pos + 2) as usize,
                    ),
                )
                &&& (rb == 0 || rb > 2) ==> r == invalid
            } else {
                r == incomplete
            }
            &&& id == 4 ==> r == Ok::<(Command, usize), Error>(
                (Command::DataRequest, (pos + 1) as usize),
            )
            &&& id == 5 ==> r == Ok::<(Command, usize), Error>(
                (Command::PanIdConflictNotification, (pos + 1) as usize),
            )
            &&& id == 6 ==> r == Ok::<(Command, usize), Error>(
                (Command::OrphanNotification, (pos + 1) as usize),
            )
            &&& id == 7 ==> r == Ok::<(Command, usize), Error>(
                (Command::BeaconRequest, (pos + 1) as usize),
            )
            &&& id == 8 ==> if pos + 8 <= s.len() {
                r == Ok::<(Command, usize), Error>(
                    (
                        Command::CoordinatorRealignment(
                            CoordinatorRealignmentData {
                                pan_id: PanId(le_value(s, pos + 1, 2) as u16),
                                coordinator_address: ShortAddress(le_value(s, pos + 3, 2) as u16),
                                channel: s[pos + 5],
                                device_address: ShortAddress(le_value(s, pos + 6, 2) as u16),
                                channel_page: if s.len() > pos + 8 {
                                    Some(s[pos + 8])
                                } else {
                                    None
                                },
                            },
                        ),
                        (if s.len() > pos + 8 {
                            pos + 9
                        } else {
                            pos + 8
                        }) as usize,
                    ),
                )
            } else {
                r == incomplete
            }
            &&& id == 9 ==> if pos + 2 <= s.len() {
                let b = s[pos + 1];
                r == Ok::<(Command, usize), Error>(
                    (
                        Command::GuaranteedTimeSlotRequest(
                            GuaranteedTimeSlotCharacteristics {
                                count: b % 16,
                                receive_only: (b / 16) % 2 == 1,
                                allocation: (b / 32) % 2 == 1,
                            },
                        ),
                        (pos + 2) as usize,
                    ),
                )
            } else {
                r == incomplete
            }
        }),
{
    if pos < s.len() {
        let id = s[pos];
        if id == 1 && pos + 2 <= s.len() {
            let b = s[pos + 1];
            assert({
                &&& ((b >> 1u8) & 1 == 1) == ((b / 2) % 2 == 1)
                &&& ((b >> 2u8) & 1 == 1) == ((b / 4) % 2 == 1)
                &&& ((b >> 3u8) & 1 == 1) == ((b / 8) % 2 == 1)
                &&& ((b >> 6u8) & 1 == 1) == ((b / 64) % 2 == 1)
                &&& ((b >> 7u8) & 1 == 1) == (b / 128 == 1)
            }) by (bit_vector);
        }
        if id == 2 && pos + 4 <= s.len() {
            lemma_from_le16_value(s, pos + 1);
        }
        if id == 8 && pos + 8 <= s.len() {
            lemma_from_le16_value(s, pos + 1);
            lemma_from_le16_value(s, pos + 3);
            lemma_from_le16_value(s, pos + 6);
        }
        if id == 9 && pos + 2 <= s.len() {
            let b = s[pos + 1];
            assert({
                &&& b & 0x0f == b % 16
                &&& ((b >> 4u8) & 1 == 1) == ((b / 16) % 2 == 1)
                &&& ((b >> 5u8) & 1 == 1) == ((b / 32) % 2 == 1)
            }) by (bit_vector);
        }
    }
}

} // verus!
