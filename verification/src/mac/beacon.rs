//! Beacons: the content of beacon frames.
use crate::codec::{
    from_le16, from_le64, le16, le64, le_value, lemma_flatten_one, lemma_flatten_two,
    lemma_flatten_uniform, lemma_from_le16_value, lemma_from_le64_value, lemma_le16_roundtrip,
    lemma_le16_value, lemma_le64_roundtrip, lemma_le64_value, lemma_le_value_shift,
    lemma_write_all_append, lemma_write_all_len, lemma_write_one, read_u16_le, read_u64_le, read_u8,
    spec_read_u16_le, spec_read_u8, write_all, write_u16_le, write_u64_le, write_u8, Error,
};
use crate::mac::frame::header::{ExtendedAddress, ShortAddress};
use vstd::array::spec_array_fill_for_copy_type;
use vstd::prelude::*;
use vstd::seq_lib::lemma_flatten_concat;

verus! {

pub open spec fn bit(b: bool) -> u8 {
    if b {
        1
    } else {
        0
    }
}

fn bit_exec(b: bool) -> (r: u8)
    ensures
        r == bit(b),
{
    if b {
        1
    } else {
        0
    }
}

pub open spec fn bit16(b: bool) -> u16 {
    if b {
        1
    } else {
        0
    }
}

fn bit16_exec(b: bool) -> (r: u16)
    ensures
        r == bit16(b),
{
    if b {
        1
    } else {
        0
    }
}

// ---------------------------------------------------------------------------
// Superframe specification

/// How often the coordinator sends beacons
#[derive(Clone, Copy, Debug, Eq, Hash, PartialEq)]
pub enum BeaconOrder {
    /// A beacon every `aBaseSuperframeDuration * 2^n` symbols (`n` below 15)
    BeaconOrder(u8),
    /// Beacons only on demand
    OnDemand,
}

/// How long the active part of the superframe is
#[derive(Clone, Copy, Debug, Eq, Hash, PartialEq)]
pub enum SuperframeOrder {
    /// Active for `aBaseSuperframeDuration * 2^n` symbols (`n` below 15)
    SuperframeOrder(u8),
    /// The superframe is inactive after the beacon
    Inactive,
}

pub open spec fn beacon_order_bits(o: BeaconOrder) -> u16 {
    match o {
        BeaconOrder::BeaconOrder(v) => (v as u16) & 0x0f,
        BeaconOrder::OnDemand => 15,
    }
}

pub open spec fn beacon_order_from_bits(b: u16) -> BeaconOrder {
    if b == 15 {
        BeaconOrder::OnDemand
    } else {
        BeaconOrder::BeaconOrder(b as u8)
    }
}

pub open spec fn superframe_order_bits(o: SuperframeOrder) -> u16 {
    match o {
        SuperframeOrder::SuperframeOrder(v) => (v as u16) & 0x0f,
        SuperframeOrder::Inactive => 15,
    }
}

pub open spec fn superframe_order_from_bits(b: u16) -> SuperframeOrder {
    if b == 15 {
        SuperframeOrder::Inactive
    } else {
        SuperframeOrder::SuperframeOrder(b as u8)
    }
}

/// The superframe specification sent in a beacon
#[derive(Clone, Copy, Debug, Eq, Hash, PartialEq)]
pub struct SuperframeSpecification {
    /// How often beacons are sent
    pub beacon_order: BeaconOrder,
    /// How long the active part of the superframe is
    pub superframe_order: SuperframeOrder,
    /// The last superframe slot of the contention access period
    pub final_cap_slot: u8,
    /// Battery life extension is in use
    pub battery_life_extension: bool,
    /// The sender is the PAN coordinator
    pub pan_coordinator: bool,
    /// The coordinator accepts association requests
    pub association_permit: bool,
}

/// The two bytes of a superframe specification, as a number: beacon order
/// in bits 0 to 3, superframe order in 4 to 7, final CAP slot in 8 to 11,
/// then battery life extension (12), PAN coordinator (14) and association
/// permit (15).
pub open spec fn superframe_spec_bits(ss: SuperframeSpecification) -> u16 {
    beacon_order_bits(ss.beacon_order) | (superframe_order_bits(ss.superframe_order) << 4u16) | (((
    ss.final_cap_slot as u16) & 0x0f) << 8u16) | (bit16(ss.battery_life_extension) << 12u16) | (
    bit16(ss.pan_coordinator) << 14u16) | (bit16(ss.association_permit) << 15u16)
}

/// The superframe specification held in two bytes, as a number; bit 13 is
/// reserved and ignored.
pub open spec fn superframe_spec_from_bits(bits: u16) -> SuperframeSpecification {
    SuperframeSpecification {
        beacon_order: beacon_order_from_bits(bits & 0x0f),
        superframe_order: superframe_order_from_bits((bits >> 4u16) & 0x0f),
        final_cap_slot: ((bits >> 8u16) & 0x0f) as u8,
        battery_life_extension: (bits >> 12u16) & 1 == 1,
        pan_coordinator: (bits >> 14u16) & 1 == 1,
        association_permit: (bits >> 15u16) & 1 == 1,
    }
}

/// A superframe specification that decoding gives back: orders below 15 and
/// a final CAP slot below 16.
pub open spec fn superframe_spec_wf(ss: SuperframeSpecification) -> bool {
    &&& ss.beacon_order matches BeaconOrder::BeaconOrder(v) ==> v < 15
    &&& ss.superframe_order matches SuperframeOrder::SuperframeOrder(v) ==> v < 15
    &&& ss.final_cap_slot < 16
}

fn superframe_spec_bits_exec(ss: &SuperframeSpecification) -> (r: u16)
    ensures
        r == superframe_spec_bits(*ss),
{
    let bo: u16 = match ss.beacon_order {
        BeaconOrder::BeaconOrder(v) => (v as u16) & 0x0f,
        BeaconOrder::OnDemand => 15,
    };
    let so: u16 = match ss.superframe_order {
        SuperframeOrder::SuperframeOrder(v) => (v as u16) & 0x0f,
        SuperframeOrder::Inactive => 15,
    };
    bo | (so << 4u16) | (((ss.final_cap_slot as u16) & 0x0f) << 8u16) | (bit16_exec(
        ss.battery_life_extension,
    ) << 12u16) | (bit16_exec(ss.pan_coordinator) << 14u16) | (bit16_exec(ss.association_permit)
        << 15u16)
}

fn superframe_spec_from_bits_exec(bits: u16) -> (r: SuperframeSpecification)
    ensures
        r == superframe_spec_from_bits(bits),
{
    let bo = bits & 0x0f;
    let so = (bits >> 4u16) & 0x0f;
    SuperframeSpecification {
        beacon_order: if bo == 15 {
            BeaconOrder::OnDemand
        } else {
            BeaconOrder::BeaconOrder(bo as u8)
        },
        superframe_order: if so == 15 {
            SuperframeOrder::Inactive
        } else {
            SuperframeOrder::SuperframeOrder(so as u8)
        },
        final_cap_slot: ((bits >> 8u16) & 0x0f) as u8,
        battery_life_extension: (bits >> 12u16) & 1 == 1,
        pan_coordinator: (bits >> 14u16) & 1 == 1,
        association_permit: (bits >> 15u16) & 1 == 1,
    }
}

proof fn lemma_low_nibble(v: u8)
    ensures
        (v as u16) & 0x0f < 16,
        v < 16 ==> (v as u16) & 0x0f == v,
{
    assert((v as u16) & 0x0f < 16) by (bit_vector);
    assert(v < 16 ==> (v as u16) & 0x0f == v as u16) by (bit_vector);
}

proof fn lemma_superframe_spec_roundtrip(ss: SuperframeSpecification)
    requires
        superframe_spec_wf(ss),
    ensures
        superframe_spec_from_bits(superframe_spec_bits(ss)) == ss,
{
    if let BeaconOrder::BeaconOrder(v) = ss.beacon_order {
        lemma_low_nibble(v);
    }
    if let SuperframeOrder::SuperframeOrder(v) = ss.superframe_order {
        lemma_low_nibble(v);
    }
    let bo = beacon_order_bits(ss.beacon_order);
    let so = superframe_order_bits(ss.superframe_order);
    let fc = ss.final_cap_slot as u16;
    let b = bit16(ss.battery_life_extension);
    let p = bit16(ss.pan_coordinator);
    let a = bit16(ss.association_permit);
    let bits = superframe_spec_bits(ss);
    assert({
        &&& bits & 0x0f == bo
        &&& (bits >> 4u16) & 0x0f == so
        &&& (bits >> 8u16) & 0x0f == fc
        &&& (bits >> 12u16) & 1 == b
        &&& (bits >> 14u16) & 1 == p
        &&& (bits >> 15u16) & 1 == a
    }) by (bit_vector)
        requires
            bo < 16,
            so < 16,
            fc < 16,
            b < 2,
            p < 2,
            a < 2,
            bits == bo | (so << 4u16) | ((fc & 0x0f) << 8u16) | (b << 12u16) | (p << 14u16) | (a
                << 15u16),
    ;
}

// ---------------------------------------------------------------------------
// Guaranteed time slots

/// The direction of a guaranteed time slot
#[derive(Clone, Copy, Debug, Eq, Hash, PartialEq)]
pub enum Direction {
    /// The device transmits in the slot
    Transmit,
    /// The device receives in the slot
    Receive,
}

/// A guaranteed time slot given to a device
#[derive(Clone, Copy, Debug, Eq, Hash, PartialEq)]
pub struct GuaranteedTimeSlotDescriptor {
    /// The device the slot is given to
    pub short_address: ShortAddress,
    /// The superframe slot the slot starts at (four bits)
    pub starting_slot: u8,
    /// The number of superframe slots (four bits)
    pub length: u8,
    /// Whether the device transmits or receives
    pub direction: Direction,
}

/// The descriptor that fills unused places: broadcast address, empty slot.
pub open spec fn default_descriptor() -> GuaranteedTimeSlotDescriptor {
    GuaranteedTimeSlotDescriptor {
        short_address: ShortAddress(0xffff),
        starting_slot: 0,
        length: 0,
        direction: Direction::Transmit,
    }
}

impl GuaranteedTimeSlotDescriptor {
    /// An empty slot for the broadcast address
    pub fn new() -> (r: Self)
        ensures
            r == default_descriptor(),
    {
        GuaranteedTimeSlotDescriptor {
            short_address: ShortAddress(0xffff),
            starting_slot: 0,
            length: 0,
            direction: Direction::Transmit,
        }
    }
}

/// The byte of a slot: starting slot in bits 0 to 3, length in 4 to 7.
pub open spec fn slot_byte(d: GuaranteedTimeSlotDescriptor) -> u8 {
    (d.starting_slot & 0x0f) | ((d.length & 0x0f) << 4u8)
}

pub open spec fn direction_bit(d: Direction) -> u8 {
    match d {
        Direction::Transmit => 0,
        Direction::Receive => 1,
    }
}

/// The direction mask of slots: bit `i` set when slot `i` receives.
pub open spec fn direction_mask(s: Seq<GuaranteedTimeSlotDescriptor>) -> u8
    decreases s.len(),
{
    if s.len() == 0 {
        0
    } else {
        direction_mask(s.drop_last()) | (direction_bit(s.last().direction) << ((s.len() - 1) as u8))
    }
}

/// The writes that encode one slot: its short address, then its byte.
pub open spec fn slot_chunks(d: GuaranteedTimeSlotDescriptor) -> Seq<Seq<u8>> {
    seq![le16(d.short_address.0), seq![slot_byte(d)]]
}

/// The writes that encode slots, in order.
pub open spec fn slots_chunks(s: Seq<GuaranteedTimeSlotDescriptor>) -> Seq<Seq<u8>>
    decreases s.len(),
{
    if s.len() == 0 {
        seq![]
    } else {
        slot_chunks(s[0]) + slots_chunks(s.drop_first())
    }
}

/// The guaranteed time slots announced in a beacon
#[derive(Clone, Copy, Debug, Eq, Hash, PartialEq)]
pub struct GuaranteedTimeSlotInformation {
    permit: bool,
    slot_count: usize,
    slots: [GuaranteedTimeSlotDescriptor; 7],
}

/// An array of seven holding `s` first and `fill` after it.
pub open spec fn array_of<T: Copy>(s: Seq<T>, fill: T) -> [T; 7]
    decreases s.len(),
{
    if s.len() == 0 {
        spec_array_fill_for_copy_type::<T, 7>(fill)
    } else {
        vstd::array::spec_array_update(array_of(s.drop_last(), fill), s.len() - 1, s.last())
    }
}

pub proof fn lemma_array_of<T: Copy>(s: Seq<T>, fill: T)
    requires
        s.len() <= 7,
    ensures
        forall|i: int| 0 <= i < s.len() ==> #[trigger] array_of(s, fill)@[i] == s[i],
        forall|i: int| s.len() <= i < 7 ==> #[trigger] array_of(s, fill)@[i] == fill,
        array_of(s, fill)@.len() == 7,
    decreases s.len(),
{
    broadcast use vstd::array::group_array_axioms;

    if s.len() > 0 {
        lemma_array_of(s.drop_last(), fill);
    }
}

/// The array of seven holding `s` first and `fill` after it, when `a` has
/// those elements.
pub proof fn lemma_array_of_eq<T: Copy>(a: [T; 7], s: Seq<T>, fill: T)
    requires
        s.len() <= 7,
        forall|i: int| 0 <= i < s.len() ==> a@[i] == s[i],
        forall|i: int| s.len() <= i < 7 ==> a@[i] == fill,
    ensures
        a == array_of(s, fill),
{
    broadcast use vstd::array::group_array_axioms;

    lemma_array_of(s, fill);
    assert(a =~= array_of(s, fill));
}

impl GuaranteedTimeSlotInformation {
    /// No slots, and no permit
    pub fn new() -> (r: Self)
        ensures
            r.wf(),
            r.slots_view() == Seq::<GuaranteedTimeSlotDescriptor>::empty(),
            !r.spec_permit(),
    {
        let r = GuaranteedTimeSlotInformation {
            permit: false,
            slot_count: 0,
            slots: [GuaranteedTimeSlotDescriptor::new();7],
        };
        proof {
            broadcast use vstd::array::group_array_axioms;

            lemma_array_of_eq(r.slots, Seq::empty(), default_descriptor());
        }
        assert(r.slots_view() =~= Seq::<GuaranteedTimeSlotDescriptor>::empty());
        r
    }

    /// Whether the coordinator accepts guaranteed time slot requests.
    pub closed spec fn spec_permit(&self) -> bool {
        self.permit
    }

    /// The slots in use, in order.
    pub closed spec fn slots_view(&self) -> Seq<GuaranteedTimeSlotDescriptor> {
        self.slots@.take(self.slot_count as int)
    }

    /// At most seven slots, each with a starting slot and a length of four
    /// bits, and the unused places empty.
    #[verifier::type_invariant]
    pub closed spec fn wf(&self) -> bool {
        &&& self.slot_count <= 7
        &&& self.slots == array_of(self.slots_view(), default_descriptor())
        &&& forall|i: int|
            0 <= i < self.slot_count ==> #[trigger] self.slots@[i].starting_slot < 16
                && self.slots@[i].length < 16
    }

    /// The number of slots in use
    pub fn len(&self) -> (r: usize)
        ensures
            r == self.slots_view().len(),
    {
        proof {
            use_type_invariant(self);
        }
        self.slot_count
    }

    /// Whether the coordinator accepts guaranteed time slot requests
    pub fn permit(&self) -> (r: bool)
        ensures
            r == self.spec_permit(),
    {
        self.permit
    }
}

/// The byte that starts the guaranteed time slot information: the number of
/// slots in bits 0 to 2, the permit in bit 7.
pub open spec fn gts_spec_byte(permit: bool, count: nat) -> u8 {
    ((count as u8) & 0x07) | (bit(permit) << 7u8)
}

/// The writes that encode guaranteed time slot information with `permit`
/// and `slots`: the first byte, then, when there are slots, the direction
/// mask and the slots.
pub open spec fn gts_chunks_of(permit: bool, slots: Seq<GuaranteedTimeSlotDescriptor>) -> Seq<
    Seq<u8>,
> {
    seq![seq![gts_spec_byte(permit, slots.len())]] + if slots.len() > 0 {
        seq![seq![direction_mask(slots)]] + slots_chunks(slots)
    } else {
        seq![]
    }
}

pub open spec fn gts_chunks(g: GuaranteedTimeSlotInformation) -> Seq<Seq<u8>> {
    gts_chunks_of(g.spec_permit(), g.slots_view())
}

/// The guaranteed time slot information with `permit` and `slots`.
pub closed spec fn gts_from(permit: bool, slots: Seq<GuaranteedTimeSlotDescriptor>) -> GuaranteedTimeSlotInformation {
    GuaranteedTimeSlotInformation {
        permit,
        slot_count: slots.len() as usize,
        slots: array_of(slots, default_descriptor()),
    }
}

/// The slot described by a short address, a slot byte and a direction bit.
pub open spec fn descriptor_from(addr: u16, b: u8, dir: u8) -> GuaranteedTimeSlotDescriptor {
    GuaranteedTimeSlotDescriptor {
        short_address: ShortAddress(addr),
        starting_slot: b & 0x0f,
        length: b >> 4u8,
        direction: if dir == 1 {
            Direction::Receive
        } else {
            Direction::Transmit
        },
    }
}

/// Decoding `n` slots at `pos`, slot `i` taking its direction from bit `i`
/// of `mask`.
pub open spec fn spec_parse_slots(s: Seq<u8>, pos: int, mask: u8, n: nat) -> Result<
    (Seq<GuaranteedTimeSlotDescriptor>, usize),
    Error,
>
    decreases n,
{
    if n == 0 {
        Ok((seq![], pos as usize))
    } else {
        match spec_parse_slots(s, pos, mask, (n - 1) as nat) {
            Err(e) => Err(e),
            Ok((ds, p)) => match spec_read_u16_le(s, p as int) {
                Err(e) => Err(e),
                Ok(a) => match spec_read_u8(s, p + 2) {
                    Err(e) => Err(e),
                    Ok(b) => Ok(
                        (
                            ds.push(descriptor_from(a, b, (mask >> ((n - 1) as u8)) & 1)),
                            (p + 3) as usize,
                        ),
                    ),
                },
            },
        }
    }
}

/// Decoding guaranteed time slot information at `pos`.
pub open spec fn spec_parse_gts(s: Seq<u8>, pos: int) -> Result<
    (GuaranteedTimeSlotInformation, usize),
    Error,
> {
    match spec_read_u8(s, pos) {
        Err(e) => Err(e),
        Ok(b) => {
            let count = b & 0x07;
            let permit = (b >> 7u8) & 1 == 1;
            if count == 0 {
                Ok((gts_from(permit, seq![]), (pos + 1) as usize))
            } else {
                match spec_read_u8(s, pos + 1) {
                    Err(e) => Err(e),
                    Ok(mask) => match spec_parse_slots(s, pos + 2, mask, count as nat) {
                        Err(e) => Err(e),
                        Ok((ds, p)) => Ok((gts_from(permit, ds), p)),
                    },
                }
            }
        },
    }
}

proof fn lemma_parse_slots_err(s: Seq<u8>, pos: int, mask: u8, n: nat, m: nat)
    requires
        n <= m,
        spec_parse_slots(s, pos, mask, n) is Err,
    ensures
        spec_parse_slots(s, pos, mask, m) == spec_parse_slots(s, pos, mask, n),
    decreases m - n,
{
    if n < m {
        lemma_parse_slots_err(s, pos, mask, n, (m - 1) as nat);
    }
}

proof fn lemma_gts_from_wf(permit: bool, ds: Seq<GuaranteedTimeSlotDescriptor>)
    requires
        ds.len() <= 7,
        forall|j: int| 0 <= j < ds.len() ==> #[trigger] ds[j].starting_slot < 16 && ds[j].length < 16,
    ensures
        gts_from(permit, ds).wf(),
        gts_from(permit, ds).slots_view() == ds,
        gts_from(permit, ds).spec_permit() == permit,
{
    let g = gts_from(permit, ds);
    lemma_array_of(ds, default_descriptor());
    assert(g.slots_view() =~= ds);
    assert forall|i: int| 0 <= i < g.slot_count implies #[trigger] g.slots@[i].starting_slot < 16
        && g.slots@[i].length < 16 by {
        assert(g.slots@[i] == ds[i]);
    }
}

impl GuaranteedTimeSlotInformation {
    /// Decodes guaranteed time slot information at `offset`; only running
    /// out of bytes makes it fail
    pub fn read_at(bytes: &[u8], offset: usize) -> (res: Result<(Self, usize), Error>)
        requires
            offset <= bytes@.len(),
        ensures
            res == spec_parse_gts(bytes@, offset as int),
            res matches Ok((_, p)) ==> offset <= p <= bytes@.len(),
    {
        let len = bytes.len();
        let b = read_u8(bytes, offset)?;
        let count = b & 0x07;
        let permit = (b >> 7u8) & 1 == 1;
        assert(count < 8) by (bit_vector)
            requires
                count == b & 0x07,
        ;
        let mut slots = [GuaranteedTimeSlotDescriptor::new();7];
        if count == 0 {
            let r = GuaranteedTimeSlotInformation { permit, slot_count: 0, slots };
            proof {
                broadcast use vstd::array::group_array_axioms;

                lemma_array_of_eq(slots, seq![], default_descriptor());
                assert(r.slots_view() =~= seq![]);
            }
            return Ok((r, offset + 1));
        }
        let mask = read_u8(bytes, offset + 1)?;
        let start = offset + 2;
        let mut pos = start;
        let mut i: usize = 0;
        let ghost mut ds: Seq<GuaranteedTimeSlotDescriptor> = seq![];
        while i < count as usize
            invariant
                len == bytes@.len(),
                offset + 2 <= len,
                start == offset + 2,
                spec_read_u8(bytes@, offset as int) == Ok::<u8, Error>(b),
                spec_read_u8(bytes@, offset + 1) == Ok::<u8, Error>(mask),
                count == b & 0x07,
                permit == ((b >> 7u8) & 1 == 1),
                count != 0,
                count < 8,
                i <= count,
                spec_parse_slots(bytes@, start as int, mask, i as nat) == Ok::<
                    (Seq<GuaranteedTimeSlotDescriptor>, usize),
                    Error,
                >((ds, pos)),
                pos == start + 3 * i,
                pos <= len,
                ds.len() == i,
                forall|j: int| 0 <= j < i ==> slots@[j] == ds[j],
                forall|j: int|
                    0 <= j < i ==> #[trigger] ds[j].starting_slot < 16 && ds[j].length < 16,
                forall|j: int| i <= j < 7 ==> slots@[j] == default_descriptor(),
                slots@.len() == 7,
            decreases count - i,
        {
            let a = match read_u16_le(bytes, pos) {
                Ok(a) => a,
                Err(e) => {
                    proof {
                        assert(spec_parse_slots(bytes@, start as int, mask, (i + 1) as nat) == Err::<
                            (Seq<GuaranteedTimeSlotDescriptor>, usize),
                            Error,
                        >(e));
                        lemma_parse_slots_err(bytes@, start as int, mask, (i + 1) as nat, count as nat);
                    }
                    return Err(e);
                },
            };
            let sb = match read_u8(bytes, pos + 2) {
                Ok(sb) => sb,
                Err(e) => {
                    proof {
                        assert(spec_parse_slots(bytes@, start as int, mask, (i + 1) as nat) == Err::<
                            (Seq<GuaranteedTimeSlotDescriptor>, usize),
                            Error,
                        >(e));
                        lemma_parse_slots_err(bytes@, start as int, mask, (i + 1) as nat, count as nat);
                    }
                    return Err(e);
                },
            };
            let dir = (mask >> (i as u8)) & 1;
            assert((sb & 0x0f) < 16 && (sb >> 4u8) < 16) by (bit_vector);
            let d = GuaranteedTimeSlotDescriptor {
                short_address: ShortAddress(a),
                starting_slot: sb & 0x0f,
                length: sb >> 4u8,
                direction: if dir == 1 {
                    Direction::Receive
                } else {
                    Direction::Transmit
                },
            };
            slots[i] = d;
            proof {
                ds = ds.push(d);
            }
            pos = pos + 3;
            i = i + 1;
        }
        proof {
            lemma_array_of_eq(slots, ds, default_descriptor());
            lemma_gts_from_wf(permit, ds);
            assert(gts_from(permit, ds) == GuaranteedTimeSlotInformation {
                permit,
                slot_count: count as usize,
                slots,
            });
        }
        let r = GuaranteedTimeSlotInformation { permit, slot_count: count as usize, slots };
        Ok((r, pos))
    }
}

impl GuaranteedTimeSlotInformation {
    /// Writes the guaranteed time slot information at `offset`, one field
    /// at a time; the first field that does not fit stops the write with an
    /// error.
    pub fn write_at(&self, bytes: &mut [u8], offset: usize) -> (res: Result<usize, Error>)
        requires
            offset <= old(bytes)@.len(),
        ensures
            res == write_all(old(bytes)@, offset as int, gts_chunks(*self)).1,
            final(bytes)@ == write_all(old(bytes)@, offset as int, gts_chunks(*self)).0,
    {
        proof {
            use_type_invariant(self);
        }
        let len = bytes.len();
        let count = self.slot_count;
        let ghost v = self.slots_view();
        let ghost all = gts_chunks(*self);
        let ghost b0 = bytes@;
        let first = ((count as u8) & 0x07) | (bit_exec(self.permit) << 7u8);
        assert(all[0] == seq![first]);
        let p = write_u8(bytes, offset, first)?;
        assert(write_all(b0, offset as int, all) == write_all(bytes@, p as int, all.drop_first()));
        if count == 0 {
            assert(all.drop_first() =~= Seq::<Seq<u8>>::empty());
            return Ok(p);
        }
        let mut mask: u8 = 0;
        let mut i: usize = 0;
        while i < count
            invariant
                count == self.slot_count,
                count <= 7,
                v == self.slots@.take(count as int),
                i <= count,
                mask == direction_mask(v.take(i as int)),
            decreases count - i,
        {
            let db: u8 = match self.slots[i].direction {
                Direction::Transmit => 0,
                Direction::Receive => 1,
            };
            assert(v.take(i + 1).drop_last() =~= v.take(i as int));
            mask = mask | (db << (i as u8));
            i = i + 1;
        }
        assert(v.take(count as int) =~= v);
        let ghost rest = all.drop_first();
        assert(rest =~= seq![seq![mask]] + slots_chunks(v));
        assert(rest[0] == seq![mask]);
        assert(rest.drop_first() =~= slots_chunks(v));
        let ghost b1 = bytes@;
        let p1 = write_u8(bytes, p, mask)?;
        assert(write_all(b1, p as int, rest) == write_all(bytes@, p1 as int, slots_chunks(v)));
        let mut pos = p1;
        let mut i: usize = 0;
        while i < count
            invariant
                count == self.slot_count,
                count <= 7,
                v == self.slots@.take(count as int),
                v.len() == count,
                i <= count,
                len == bytes@.len(),
                pos <= len,
                all == gts_chunks(*self),
                b0 == old(bytes)@,
                write_all(b0, offset as int, all) == write_all(
                    bytes@,
                    pos as int,
                    slots_chunks(v.skip(i as int)),
                ),
            decreases count - i,
        {
            let d = self.slots[i];
            let ghost tail = slots_chunks(v.skip(i + 1));
            proof {
                assert(v.skip(i as int)[0] == d);
                assert(v.skip(i as int).drop_first() =~= v.skip(i + 1));
                assert(slots_chunks(v.skip(i as int)) == slot_chunks(d) + tail);
                lemma_write_all_append(bytes@, pos as int, slot_chunks(d), tail);
            }
            let ghost bb = bytes@;
            let ghost pp = pos;
            let sb = (d.starting_slot & 0x0f) | ((d.length & 0x0f) << 4u8);
            assert(slot_chunks(d)[0] == le16(d.short_address.0));
            assert(slot_chunks(d).drop_first() =~= seq![seq![sb]]);
            let q = write_u16_le(bytes, pos, d.short_address.0)?;
            assert(write_all(bb, pp as int, slot_chunks(d)) == write_all(
                bytes@,
                q as int,
                seq![seq![sb]],
            ));
            proof {
                lemma_write_one(bytes@, q as int, seq![sb]);
            }
            pos = write_u8(bytes, q, sb)?;
            i = i + 1;
        }
        assert(v.skip(count as int) =~= Seq::<GuaranteedTimeSlotDescriptor>::empty());
        Ok(pos)
    }
}

// ---------------------------------------------------------------------------
// Decoding encoded guaranteed time slot information

proof fn lemma_slots_bytes(v: Seq<GuaranteedTimeSlotDescriptor>)
    ensures
        slots_chunks(v).flatten().len() == 3 * v.len(),
        forall|j: int|
            0 <= j < v.len() ==> {
                &&& #[trigger] slots_chunks(v).flatten()[3 * j] == le16(v[j].short_address.0)[0]
                &&& slots_chunks(v).flatten()[3 * j + 1] == le16(v[j].short_address.0)[1]
                &&& slots_chunks(v).flatten()[3 * j + 2] == slot_byte(v[j])
            },
    decreases v.len(),
{
    if v.len() > 0 {
        let rest = v.drop_first();
        lemma_slots_bytes(rest);
        lemma_flatten_concat(slot_chunks(v[0]), slots_chunks(rest));
        lemma_flatten_two(le16(v[0].short_address.0), seq![slot_byte(v[0])]);
        let f = slots_chunks(v).flatten();
        let rf = slots_chunks(rest).flatten();
        assert(f == le16(v[0].short_address.0) + seq![slot_byte(v[0])] + rf);
        assert forall|j: int| 0 <= j < v.len() implies {
            &&& #[trigger] f[3 * j] == le16(v[j].short_address.0)[0]
            &&& f[3 * j + 1] == le16(v[j].short_address.0)[1]
            &&& f[3 * j + 2] == slot_byte(v[j])
        } by {
            if j > 0 {
                assert(v[j] == rest[j - 1]);
                assert(rf[3 * (j - 1)] == le16(rest[j - 1].short_address.0)[0]);
                assert(f[3 * j] == rf[3 * (j - 1)]);
                assert(f[3 * j + 1] == rf[3 * (j - 1) + 1]);
                assert(f[3 * j + 2] == rf[3 * (j - 1) + 2]);
            }
        }
    } else {
        assert(slots_chunks(v).flatten() =~= Seq::<u8>::empty());
    }
}

proof fn lemma_descriptor_roundtrip(d: GuaranteedTimeSlotDescriptor)
    requires
        d.starting_slot < 16,
        d.length < 16,
    ensures
        descriptor_from(
            from_le16(le16(d.short_address.0)[0], le16(d.short_address.0)[1]),
            slot_byte(d),
            direction_bit(d.direction),
        ) == d,
{
    lemma_le16_roundtrip(d.short_address.0);
    let x = d.starting_slot;
    let y = d.length;
    assert(((x & 0x0f) | ((y & 0x0f) << 4u8)) & 0x0f == x && ((x & 0x0f) | ((y & 0x0f) << 4u8))
        >> 4u8 == y) by (bit_vector)
        requires
            x < 16,
            y < 16,
    ;
}

proof fn lemma_direction_mask(v: Seq<GuaranteedTimeSlotDescriptor>)
    requires
        v.len() <= 7,
    ensures
        direction_mask(v) < (1u8 << (v.len() as u8)),
        forall|j: int|
            0 <= j < v.len() ==> (direction_mask(v) >> (j as u8)) & 1 == direction_bit(
                #[trigger] v[j].direction,
            ),
    decreases v.len(),
{
    if v.len() > 0 {
        let w = v.drop_last();
        lemma_direction_mask(w);
        let m = direction_mask(w);
        let b = direction_bit(v.last().direction);
        let k = (v.len() - 1) as u8;
        assert(direction_mask(v) == m | (b << k));
        assert(w.len() as u8 == k);
        assert forall|j: int| 0 <= j < v.len() implies (direction_mask(v) >> (j as u8)) & 1
            == direction_bit(#[trigger] v[j].direction) by {
            let jj = j as u8;
            if j < k {
                assert(v[j] == w[j]);
                assert(((m | (b << k)) >> jj) & 1 == (m >> jj) & 1) by (bit_vector)
                    requires
                        k < 7,
                        jj < k,
                        b < 2,
                        m < (1u8 << k),
                ;
            } else {
                assert(((m | (b << k)) >> k) & 1 == b) by (bit_vector)
                    requires
                        k < 7,
                        b < 2,
                        m < (1u8 << k),
                ;
            }
        }
        let k1 = (k + 1) as u8;
        assert((m | (b << k)) < (1u8 << k1)) by (bit_vector)
            requires
                k < 7,
                k1 == k + 1,
                b < 2,
                m < (1u8 << k),
        ;
        assert(v.len() as u8 == k1);
    } else {
        assert(0u8 < (1u8 << 0u8)) by (bit_vector);
    }
}

proof fn lemma_parse_slots_roundtrip(
    s: Seq<u8>,
    q: int,
    mask: u8,
    v: Seq<GuaranteedTimeSlotDescriptor>,
    n: nat,
)
    requires
        0 <= q,
        n <= v.len(),
        q + 3 * v.len() <= s.len(),
        s.len() <= usize::MAX,
        forall|j: int|
            0 <= j < v.len() ==> {
                &&& #[trigger] s[q + 3 * j] == le16(v[j].short_address.0)[0]
                &&& s[q + 3 * j + 1] == le16(v[j].short_address.0)[1]
                &&& s[q + 3 * j + 2] == slot_byte(v[j])
            },
        forall|j: int|
            0 <= j < v.len() ==> (mask >> (j as u8)) & 1 == direction_bit(#[trigger] v[j].direction),
        forall|j: int|
            0 <= j < v.len() ==> #[trigger] v[j].starting_slot < 16 && v[j].length < 16,
    ensures
        spec_parse_slots(s, q, mask, n) == Ok::<(Seq<GuaranteedTimeSlotDescriptor>, usize), Error>(
            (v.take(n as int), (q + 3 * n) as usize),
        ),
    decreases n,
{
    if n == 0 {
        assert(v.take(0) =~= Seq::<GuaranteedTimeSlotDescriptor>::empty());
    } else {
        lemma_parse_slots_roundtrip(s, q, mask, v, (n - 1) as nat);
        let j = n - 1;
        let d = v[j];
        assert(s[q + 3 * j] == le16(d.short_address.0)[0]);
        assert((mask >> (j as u8)) & 1 == direction_bit(d.direction));
        lemma_descriptor_roundtrip(d);
        assert(v.take(j).push(d) =~= v.take(n as int));
    }
}

/// Decoding encoded guaranteed time slot information gives it back, with
/// the offset just past its bytes.
pub proof fn lemma_gts_roundtrip(g: GuaranteedTimeSlotInformation, s: Seq<u8>, pos: int)
    requires
        g.wf(),
        0 <= pos,
        pos + gts_chunks(g).flatten().len() <= s.len(),
        s.len() <= usize::MAX,
        s.subrange(pos, pos + gts_chunks(g).flatten().len()) == gts_chunks(g).flatten(),
    ensures
        spec_parse_gts(s, pos) == Ok::<(GuaranteedTimeSlotInformation, usize), Error>(
            (g, (pos + gts_chunks(g).flatten().len()) as usize),
        ),
{
    let v = g.slots_view();
    let c = v.len();
    let f = gts_chunks(g).flatten();
    let b = gts_spec_byte(g.permit, c);
    let tail: Seq<Seq<u8>> = if c > 0 {
        seq![seq![direction_mask(v)]] + slots_chunks(v)
    } else {
        seq![]
    };
    lemma_flatten_concat(seq![seq![b]], tail);
    lemma_flatten_one(seq![b]);
    assert(f == seq![b] + tail.flatten());
    assert forall|i: int| 0 <= i < f.len() implies s[pos + i] == f[i] by {
        assert(s.subrange(pos, pos + f.len())[i] == s[pos + i]);
    }
    assert(f[0] == b);
    assert(s.subrange(pos, pos + f.len())[0] == s[pos]);
    assert(s[pos] == b);
    let cc = c as u8;
    let pb = bit(g.permit);
    assert(b & 0x07 == cc && (b >> 7u8) & 1 == pb) by (bit_vector)
        requires
            cc < 8,
            pb < 2,
            b == (cc & 0x07) | (pb << 7u8),
    ;
    assert(gts_from(g.permit, v) == g);
    if c > 0 {
        let m = direction_mask(v);
        lemma_flatten_concat(seq![seq![m]], slots_chunks(v));
        lemma_flatten_one(seq![m]);
        lemma_slots_bytes(v);
        assert(tail.flatten() == seq![m] + slots_chunks(v).flatten());
        assert(f[1] == m);
        assert(s.subrange(pos, pos + f.len())[1] == s[pos + 1]);
        assert(s[pos + 1] == m);
        lemma_direction_mask(v);
        assert forall|j: int| 0 <= j < v.len() implies {
            &&& #[trigger] s[pos + 2 + 3 * j] == le16(v[j].short_address.0)[0]
            &&& s[pos + 2 + 3 * j + 1] == le16(v[j].short_address.0)[1]
            &&& s[pos + 2 + 3 * j + 2] == slot_byte(v[j])
        } by {
            let sf = slots_chunks(v).flatten();
            assert(sf[3 * j] == le16(v[j].short_address.0)[0]);
            assert(s[pos + 2 + 3 * j] == f[2 + 3 * j]);
            assert(s[pos + 2 + 3 * j + 1] == f[2 + 3 * j + 1]);
            assert(s[pos + 2 + 3 * j + 2] == f[2 + 3 * j + 2]);
        }
        assert forall|j: int| 0 <= j < v.len() implies #[trigger] v[j].starting_slot < 16
            && v[j].length < 16 by {
            assert(v[j] == g.slots@[j]);
        }
        lemma_parse_slots_roundtrip(s, pos + 2, m, v, c);
        assert(v.take(c as int) =~= v);
    } else {
        assert(tail.flatten() =~= Seq::<u8>::empty());
        assert(v =~= Seq::<GuaranteedTimeSlotDescriptor>::empty());
    }
}

// ---------------------------------------------------------------------------
// Pending addresses

/// The devices the coordinator holds data for
#[derive(Clone, Copy, Debug, Eq, Hash, PartialEq)]
pub struct PendingAddress {
    short_address_count: usize,
    short_addresses: [ShortAddress; 7],
    extended_address_count: usize,
    extended_addresses: [ExtendedAddress; 7],
}

/// The byte that starts the pending addresses: the number of short
/// addresses in bits 0 to 2, of extended addresses in bits 4 to 6.
pub open spec fn pending_spec_byte(shorts: nat, exts: nat) -> u8 {
    ((shorts as u8) & 0x07) | (((exts as u8) & 0x07) << 4u8)
}

pub open spec fn shorts_chunks(s: Seq<ShortAddress>) -> Seq<Seq<u8>> {
    Seq::new(s.len(), |i: int| le16(s[i].0))
}

pub open spec fn exts_chunks(s: Seq<ExtendedAddress>) -> Seq<Seq<u8>> {
    Seq::new(s.len(), |i: int| le64(s[i].0))
}

/// The writes that encode pending addresses: the first byte, the short
/// addresses, then the extended addresses.
pub open spec fn pending_chunks_of(shorts: Seq<ShortAddress>, exts: Seq<ExtendedAddress>) -> Seq<
    Seq<u8>,
> {
    seq![seq![pending_spec_byte(shorts.len(), exts.len())]] + shorts_chunks(shorts) + exts_chunks(
        exts,
    )
}

pub open spec fn pending_chunks(p: PendingAddress) -> Seq<Seq<u8>> {
    pending_chunks_of(p.shorts_view(), p.exts_view())
}

/// The pending addresses `shorts` and `exts`.
pub closed spec fn pending_from(shorts: Seq<ShortAddress>, exts: Seq<ExtendedAddress>) -> PendingAddress {
    PendingAddress {
        short_address_count: shorts.len() as usize,
        short_addresses: array_of(shorts, ShortAddress(0xffff)),
        extended_address_count: exts.len() as usize,
        extended_addresses: array_of(exts, ExtendedAddress(0xffff_ffff_ffff_ffff)),
    }
}

/// The `n` short addresses stored from `pos` on.
pub open spec fn shorts_at(s: Seq<u8>, pos: int, n: nat) -> Seq<ShortAddress> {
    Seq::new(n, |j: int| ShortAddress(from_le16(s[pos + 2 * j], s[pos + 2 * j + 1])))
}

/// The `n` extended addresses stored from `pos` on.
pub open spec fn exts_at(s: Seq<u8>, pos: int, n: nat) -> Seq<ExtendedAddress> {
    Seq::new(n, |j: int| ExtendedAddress(from_le64(s, pos + 8 * j)))
}

/// Decoding pending addresses at `pos`; the bytes running out is the only
/// error once the first byte is there.
pub open spec fn spec_parse_pending(s: Seq<u8>, pos: int) -> Result<(PendingAddress, usize), Error> {
    match spec_read_u8(s, pos) {
        Err(e) => Err(e),
        Ok(b) => {
            let ns = (b & 0x07) as nat;
            let ne = ((b >> 4u8) & 0x07) as nat;
            let p1 = pos + 1;
            let p2 = p1 + 2 * ns;
            let p3 = p2 + 8 * ne;
            if s.len() < p2 {
                Err(Error::Incomplete)
            } else if s.len() < p3 {
                Err(Error::Incomplete)
            } else {
                Ok((pending_from(shorts_at(s, p1, ns), exts_at(s, p2, ne)), p3 as usize))
            }
        },
    }
}

impl PendingAddress {
    /// No pending addresses
    pub fn new() -> (r: Self)
        ensures
            r.wf(),
            r.shorts_view() == Seq::<ShortAddress>::empty(),
            r.exts_view() == Seq::<ExtendedAddress>::empty(),
    {
        let r = PendingAddress {
            short_address_count: 0,
            short_addresses: [ShortAddress(0xffff);7],
            extended_address_count: 0,
            extended_addresses: [ExtendedAddress(0xffff_ffff_ffff_ffff);7],
        };
        proof {
            broadcast use vstd::array::group_array_axioms;

            lemma_array_of_eq(r.short_addresses, Seq::empty(), ShortAddress(0xffff));
            lemma_array_of_eq(
                r.extended_addresses,
                Seq::empty(),
                ExtendedAddress(0xffff_ffff_ffff_ffff),
            );
        }
        assert(r.shorts_view() =~= Seq::<ShortAddress>::empty());
        assert(r.exts_view() =~= Seq::<ExtendedAddress>::empty());
        r
    }

    /// The short addresses, in order.
    pub closed spec fn shorts_view(&self) -> Seq<ShortAddress> {
        self.short_addresses@.take(self.short_address_count as int)
    }

    /// The extended addresses, in order.
    pub closed spec fn exts_view(&self) -> Seq<ExtendedAddress> {
        self.extended_addresses@.take(self.extended_address_count as int)
    }

    /// At most seven addresses of each kind, the unused places holding the
    /// broadcast address.
    #[verifier::type_invariant]
    pub closed spec fn wf(&self) -> bool {
        &&& self.short_address_count <= 7
        &&& self.extended_address_count <= 7
        &&& self.short_addresses == array_of(self.shorts_view(), ShortAddress(0xffff))
        &&& self.extended_addresses == array_of(
            self.exts_view(),
            ExtendedAddress(0xffff_ffff_ffff_ffff),
        )
    }

    /// Decodes pending addresses at `offset`; only running out of bytes
    /// makes it fail
    pub fn read_at(bytes: &[u8], offset: usize) -> (res: Result<(Self, usize), Error>)
        requires
            offset <= bytes@.len(),
        ensures
            res == spec_parse_pending(bytes@, offset as int),
            res matches Ok((_, p)) ==> offset <= p <= bytes@.len(),
    {
        let len = bytes.len();
        let b = read_u8(bytes, offset)?;
        let ns = (b & 0x07) as usize;
        let ne = ((b >> 4u8) & 0x07) as usize;
        assert(ns < 8 && ne < 8) by (bit_vector)
            requires
                ns == b & 0x07,
                ne == (b >> 4u8) & 0x07,
        ;
        let ghost s = bytes@;
        let mut shorts = [ShortAddress(0xffff);7];
        let mut pos = offset + 1;
        let mut i: usize = 0;
        while i < ns
            invariant
                len == bytes@.len(),
                s == bytes@,
                spec_read_u8(s, offset as int) == Ok::<u8, Error>(b),
                ns == b & 0x07,
                ne == (b >> 4u8) & 0x07,
                ns < 8,
                i <= ns,
                pos == offset + 1 + 2 * i,
                pos <= len,
                shorts@.len() == 7,
                forall|j: int|
                    0 <= j < i ==> #[trigger] shorts@[j] == shorts_at(s, offset + 1, ns as nat)[j],
                forall|j: int| i <= j < 7 ==> #[trigger] shorts@[j] == ShortAddress(0xffff),
            decreases ns - i,
        {
            let a = match read_u16_le(bytes, pos) {
                Ok(a) => a,
                Err(e) => {
                    assert(len < offset + 1 + 2 * ns);
                    return Err(e);
                },
            };
            shorts[i] = ShortAddress(a);
            pos = pos + 2;
            i = i + 1;
        }
        let mut exts = [ExtendedAddress(0xffff_ffff_ffff_ffff);7];
        let start = pos;
        let mut i: usize = 0;
        while i < ne
            invariant
                len == bytes@.len(),
                s == bytes@,
                spec_read_u8(s, offset as int) == Ok::<u8, Error>(b),
                ns == b & 0x07,
                ne == (b >> 4u8) & 0x07,
                start == offset + 1 + 2 * ns,
                ne < 8,
                i <= ne,
                start <= len,
                pos == start + 8 * i,
                pos <= len,
                exts@.len() == 7,
                forall|j: int|
                    0 <= j < i ==> #[trigger] exts@[j] == exts_at(s, start as int, ne as nat)[j],
                forall|j: int|
                    i <= j < 7 ==> #[trigger] exts@[j] == ExtendedAddress(0xffff_ffff_ffff_ffff),
            decreases ne - i,
        {
            let a = match read_u64_le(bytes, pos) {
                Ok(a) => a,
                Err(e) => {
                    assert(len < start + 8 * ne);
                    return Err(e);
                },
            };
            exts[i] = ExtendedAddress(a);
            pos = pos + 8;
            i = i + 1;
        }
        proof {
            broadcast use vstd::array::group_array_axioms;

            lemma_array_of_eq(shorts, shorts_at(s, offset + 1, ns as nat), ShortAddress(0xffff));
            lemma_array_of_eq(
                exts,
                exts_at(s, start as int, ne as nat),
                ExtendedAddress(0xffff_ffff_ffff_ffff),
            );
            assert(shorts@.take(ns as int) =~= shorts_at(s, offset + 1, ns as nat));
            assert(exts@.take(ne as int) =~= exts_at(s, start as int, ne as nat));
            let g = PendingAddress {
                short_address_count: ns,
                short_addresses: shorts,
                extended_address_count: ne,
                extended_addresses: exts,
            };
            assert(g.shorts_view() == shorts_at(s, offset + 1, ns as nat));
            assert(g.exts_view() == exts_at(s, start as int, ne as nat));
            assert(g.short_addresses == array_of(g.shorts_view(), ShortAddress(0xffff)));
            assert(g.extended_addresses == array_of(
                g.exts_view(),
                ExtendedAddress(0xffff_ffff_ffff_ffff),
            ));
            assert(g.wf());
            assert(g == pending_from(shorts_at(s, offset + 1, ns as nat), exts_at(s, start as int, ne as nat)));
        }
        let r = PendingAddress {
            short_address_count: ns,
            short_addresses: shorts,
            extended_address_count: ne,
            extended_addresses: exts,
        };
        Ok((r, pos))
    }

    /// Writes the pending addresses at `offset`, one field at a time; the
    /// first field that does not fit stops the write with an error.
    pub fn write_at(&self, bytes: &mut [u8], offset: usize) -> (res: Result<usize, Error>)
        requires
            offset <= old(bytes)@.len(),
        ensures
            res == write_all(old(bytes)@, offset as int, pending_chunks(*self)).1,
            final(bytes)@ == write_all(old(bytes)@, offset as int, pending_chunks(*self)).0,
    {
        proof {
            use_type_invariant(self);
        }
        let len = bytes.len();
        let ns = self.short_address_count;
        let ne = self.extended_address_count;
        let ghost vs = self.shorts_view();
        let ghost ve = self.exts_view();
        let ghost all = pending_chunks(*self);
        let ghost b0 = bytes@;
        let first = ((ns as u8) & 0x07) | (((ne as u8) & 0x07) << 4u8);
        assert(all[0] == seq![first]);
        assert(all.drop_first() =~= shorts_chunks(vs) + exts_chunks(ve));
        let p = write_u8(bytes, offset, first)?;
        assert(write_all(b0, offset as int, all) == write_all(
            bytes@,
            p as int,
            shorts_chunks(vs) + exts_chunks(ve),
        ));
        let mut pos = p;
        let mut i: usize = 0;
        assert(vs.skip(0) =~= vs);
        while i < ns
            invariant
                ns == self.short_address_count,
                ns <= 7,
                vs == self.shorts_view(),
                vs.len() == ns,
                i <= ns,
                len == bytes@.len(),
                pos <= len,
                write_all(b0, offset as int, all) == write_all(
                    bytes@,
                    pos as int,
                    shorts_chunks(vs.skip(i as int)) + exts_chunks(ve),
                ),
                all == pending_chunks(*self),
                b0 == old(bytes)@,
            decreases ns - i,
        {
            let a = self.short_addresses[i];
            let ghost tail = shorts_chunks(vs.skip(i + 1)) + exts_chunks(ve);
            proof {
                assert(vs[i as int] == a);
                assert(shorts_chunks(vs.skip(i as int)) + exts_chunks(ve) =~= seq![le16(a.0)]
                    + tail);
                lemma_write_all_append(bytes@, pos as int, seq![le16(a.0)], tail);
                lemma_write_one(bytes@, pos as int, le16(a.0));
            }
            pos = write_u16_le(bytes, pos, a.0)?;
            i = i + 1;
        }
        assert(shorts_chunks(vs.skip(ns as int)) + exts_chunks(ve) =~= exts_chunks(ve));
        assert(ve.skip(0) =~= ve);
        let mut i: usize = 0;
        while i < ne
            invariant
                ne == self.extended_address_count,
                ne <= 7,
                ve == self.exts_view(),
                ve.len() == ne,
                i <= ne,
                len == bytes@.len(),
                pos <= len,
                write_all(b0, offset as int, all) == write_all(
                    bytes@,
                    pos as int,
                    exts_chunks(ve.skip(i as int)),
                ),
                all == pending_chunks(*self),
                b0 == old(bytes)@,
            decreases ne - i,
        {
            let a = self.extended_addresses[i];
            let ghost tail = exts_chunks(ve.skip(i + 1));
            proof {
                assert(ve[i as int] == a);
                assert(exts_chunks(ve.skip(i as int)) =~= seq![le64(a.0)] + tail);
                lemma_write_all_append(bytes@, pos as int, seq![le64(a.0)], tail);
                lemma_write_one(bytes@, pos as int, le64(a.0));
            }
            pos = write_u64_le(bytes, pos, a.0)?;
            i = i + 1;
        }
        assert(exts_chunks(ve.skip(ne as int)) =~= Seq::<Seq<u8>>::empty());
        Ok(pos)
    }
}

proof fn lemma_pending_from_eq(p: PendingAddress)
    requires
        p.wf(),
    ensures
        pending_from(p.shorts_view(), p.exts_view()) == p,
{
}

/// Decoding encoded pending addresses gives them back, with the offset just
/// past their bytes.
pub proof fn lemma_pending_roundtrip(p: PendingAddress, s: Seq<u8>, pos: int)
    requires
        p.wf(),
        0 <= pos,
        pos + pending_chunks(p).flatten().len() <= s.len(),
        s.len() <= usize::MAX,
        s.subrange(pos, pos + pending_chunks(p).flatten().len()) == pending_chunks(p).flatten(),
    ensures
        spec_parse_pending(s, pos) == Ok::<(PendingAddress, usize), Error>(
            (p, (pos + pending_chunks(p).flatten().len()) as usize),
        ),
{
    let vs = p.shorts_view();
    let ve = p.exts_view();
    let ns = vs.len();
    let ne = ve.len();
    let b = pending_spec_byte(ns, ne);
    let cs = shorts_chunks(vs);
    let ce = exts_chunks(ve);
    let f = pending_chunks(p).flatten();
    assert(pending_chunks(p) == seq![seq![b]] + cs + ce);
    lemma_flatten_concat(seq![seq![b]] + cs, ce);
    lemma_flatten_concat(seq![seq![b]], cs);
    lemma_flatten_one(seq![b]);
    lemma_flatten_uniform(cs, 2);
    lemma_flatten_uniform(ce, 8);
    assert(f == seq![b] + cs.flatten() + ce.flatten());
    assert forall|i: int| 0 <= i < f.len() implies s[pos + i] == f[i] by {
        assert(s.subrange(pos, pos + f.len())[i] == s[pos + i]);
    }
    assert(s[pos + 0] == f[0]);
    let nsb = ns as u8;
    let neb = ne as u8;
    assert(b & 0x07 == nsb && (b >> 4u8) & 0x07 == neb) by (bit_vector)
        requires
            nsb < 8,
            neb < 8,
            b == (nsb & 0x07) | ((neb & 0x07) << 4u8),
    ;
    let p1 = pos + 1;
    let p2 = p1 + 2 * ns;
    assert(shorts_at(s, p1, ns) =~= vs) by {
        assert forall|j: int| 0 <= j < ns implies #[trigger] shorts_at(s, p1, ns)[j] == vs[j] by {
            lemma_le16_roundtrip(vs[j].0);
            assert(cs[j] == le16(vs[j].0));
            assert(cs.flatten()[2 * j + 0] == cs[j][0]);
            assert(cs.flatten()[2 * j + 1] == cs[j][1]);
            assert(s[p1 + 2 * j] == f[1 + 2 * j]);
            assert(s[p1 + 2 * j + 1] == f[1 + 2 * j + 1]);
        }
    }
    assert(exts_at(s, p2, ne) =~= ve) by {
        assert forall|j: int| 0 <= j < ne implies #[trigger] exts_at(s, p2, ne)[j] == ve[j] by {
            assert(ce[j] == le64(ve[j].0));
            assert forall|t: int| 0 <= t < 8 implies s.subrange(p2 + 8 * j, p2 + 8 * j + 8)[t]
                == le64(ve[j].0)[t] by {
                assert(ce.flatten()[8 * j + t] == ce[j][t]);
                assert(s[p2 + 8 * j + t] == f[1 + 2 * ns + 8 * j + t]);
            }
            assert(s.subrange(p2 + 8 * j, p2 + 8 * j + 8) =~= le64(ve[j].0));
            lemma_le64_roundtrip(ve[j].0, s, p2 + 8 * j);
        }
    }
    lemma_pending_from_eq(p);
}

// ---------------------------------------------------------------------------
// Beacons

/// Beacon frame content
#[derive(Clone, Copy, Debug, Eq, Hash, PartialEq)]
pub struct Beacon {
    /// Superframe specification
    pub superframe_spec: SuperframeSpecification,
    /// Guaranteed time slots
    pub guaranteed_time_slot_info: GuaranteedTimeSlotInformation,
    /// Pending addresses
    pub pending_address: PendingAddress,
}

/// The writes that encode a beacon: superframe specification, guaranteed
/// time slots, pending addresses.
pub open spec fn beacon_chunks(b: Beacon) -> Seq<Seq<u8>> {
    seq![le16(superframe_spec_bits(b.superframe_spec))] + gts_chunks(b.guaranteed_time_slot_info)
        + pending_chunks(b.pending_address)
}

/// The bytes of an encoded beacon.
pub open spec fn beacon_bytes(b: Beacon) -> Seq<u8> {
    beacon_chunks(b).flatten()
}

/// Decoding a beacon at `pos`.
pub open spec fn spec_parse_beacon(s: Seq<u8>, pos: int) -> Result<(Beacon, usize), Error> {
    match spec_read_u16_le(s, pos) {
        Err(e) => Err(e),
        Ok(bits) => match spec_parse_gts(s, pos + 2) {
            Err(e) => Err(e),
            Ok((g, p1)) => match spec_parse_pending(s, p1 as int) {
                Err(e) => Err(e),
                Ok((pa, p2)) => Ok(
                    (
                        Beacon {
                            superframe_spec: superframe_spec_from_bits(bits),
                            guaranteed_time_slot_info: g,
                            pending_address: pa,
                        },
                        p2,
                    ),
                ),
            },
        },
    }
}

/// A beacon that decoding gives back.
pub open spec fn beacon_wf(b: Beacon) -> bool {
    &&& superframe_spec_wf(b.superframe_spec)
    &&& b.guaranteed_time_slot_info.wf()
    &&& b.pending_address.wf()
}

impl Beacon {
    /// Decodes a beacon at `offset`; only running out of bytes makes it fail
    pub fn read_at(bytes: &[u8], offset: usize) -> (res: Result<(Beacon, usize), Error>)
        requires
            offset <= bytes@.len(),
        ensures
            res == spec_parse_beacon(bytes@, offset as int),
            res matches Ok((_, p)) ==> offset <= p <= bytes@.len(),
    {
        let len = bytes.len();
        let bits = read_u16_le(bytes, offset)?;
        let superframe_spec = superframe_spec_from_bits_exec(bits);
        let (g, p1) = GuaranteedTimeSlotInformation::read_at(bytes, offset + 2)?;
        let (pa, p2) = PendingAddress::read_at(bytes, p1)?;
        Ok(
            (
                Beacon { superframe_spec, guaranteed_time_slot_info: g, pending_address: pa },
                p2,
            ),
        )
    }

    /// Writes the beacon at `offset`, one field at a time; the first field
    /// that does not fit stops the write with an error.
    pub fn write_at(&self, bytes: &mut [u8], offset: usize) -> (res: Result<usize, Error>)
        requires
            offset <= old(bytes)@.len(),
        ensures
            res == write_all(old(bytes)@, offset as int, beacon_chunks(*self)).1,
            final(bytes)@ == write_all(old(bytes)@, offset as int, beacon_chunks(*self)).0,
    {
        let len = bytes.len();
        let ghost first: Seq<Seq<u8>> = seq![le16(superframe_spec_bits(self.superframe_spec))];
        let ghost gc = gts_chunks(self.guaranteed_time_slot_info);
        let ghost pc = pending_chunks(self.pending_address);
        proof {
            lemma_write_all_append(bytes@, offset as int, first + gc, pc);
            lemma_write_all_append(bytes@, offset as int, first, gc);
            lemma_write_one(bytes@, offset as int, first[0]);
        }
        let bits = superframe_spec_bits_exec(&self.superframe_spec);
        let p = write_u16_le(bytes, offset, bits)?;
        proof {
            lemma_write_all_len(bytes@, p as int, gc);
        }
        let p = self.guaranteed_time_slot_info.write_at(bytes, p)?;
        self.pending_address.write_at(bytes, p)
    }
}

/// Decoding the encoding of a well-formed beacon gives it back, with the
/// offset just past its bytes.
pub proof fn lemma_beacon_roundtrip(b: Beacon, s: Seq<u8>, pos: int)
    requires
        beacon_wf(b),
        0 <= pos,
        pos + beacon_bytes(b).len() <= s.len(),
        s.len() <= usize::MAX,
        s.subrange(pos, pos + beacon_bytes(b).len()) == beacon_bytes(b),
    ensures
        spec_parse_beacon(s, pos) == Ok::<(Beacon, usize), Error>(
            (b, (pos + beacon_bytes(b).len()) as usize),
        ),
{
    let bits = superframe_spec_bits(b.superframe_spec);
    let first: Seq<Seq<u8>> = seq![le16(bits)];
    let gc = gts_chunks(b.guaranteed_time_slot_info);
    let pc = pending_chunks(b.pending_address);
    lemma_flatten_concat(first + gc, pc);
    lemma_flatten_concat(first, gc);
    lemma_flatten_one(le16(bits));
    let f = beacon_bytes(b);
    let n2 = gc.flatten().len();
    let n3 = pc.flatten().len();
    assert(f == le16(bits) + gc.flatten() + pc.flatten());
    assert forall|i: int| 0 <= i < f.len() implies s[pos + i] == f[i] by {
        assert(s.subrange(pos, pos + f.len())[i] == s[pos + i]);
    }
    lemma_le16_roundtrip(bits);
    assert(s[pos] == f[0]);
    assert(s[pos + 1] == f[1]);
    lemma_superframe_spec_roundtrip(b.superframe_spec);
    assert(s.subrange(pos + 2, pos + 2 + n2) =~= gc.flatten()) by {
        assert forall|i: int| 0 <= i < n2 implies s.subrange(pos + 2, pos + 2 + n2)[i]
            == gc.flatten()[i] by {
            assert(s[pos + 2 + i] == f[2 + i]);
        }
    }
    lemma_gts_roundtrip(b.guaranteed_time_slot_info, s, pos + 2);
    assert(s.subrange(pos + 2 + n2, pos + 2 + n2 + n3) =~= pc.flatten()) by {
        assert forall|i: int| 0 <= i < n3 implies s.subrange(pos + 2 + n2, pos + 2 + n2 + n3)[i]
            == pc.flatten()[i] by {
            assert(s[pos + 2 + n2 + i] == f[2 + n2 + i]);
        }
    }
    lemma_pending_roundtrip(b.pending_address, s, pos + 2 + n2);
}

// ---------------------------------------------------------------------------
// Building and inspecting

impl GuaranteedTimeSlotInformation {
    /// Sets whether the coordinator accepts guaranteed time slot requests
    pub fn set_permit(&mut self, permit: bool)
        ensures
            final(self).spec_permit() == permit,
            final(self).slots_view() == old(self).slots_view(),
    {
        proof {
            use_type_invariant(&*self);
        }
        *self = GuaranteedTimeSlotInformation {
            permit,
            slot_count: self.slot_count,
            slots: self.slots,
        };
    }

    /// Adds a slot after the others; when seven slots are there already, or
    /// the starting slot or length does not fit in four bits, nothing
    /// changes and the result is `false`
    pub fn add_slot(&mut self, slot: GuaranteedTimeSlotDescriptor) -> (added: bool)
        ensures
            added == (old(self).slots_view().len() < 7 && slot.starting_slot < 16 && slot.length
                < 16),
            added ==> final(self).slots_view() == old(self).slots_view().push(slot),
            !added ==> final(self).slots_view() == old(self).slots_view(),
            final(self).spec_permit() == old(self).spec_permit(),
    {
        proof {
            use_type_invariant(&*self);
        }
        if self.slot_count >= 7 || slot.starting_slot >= 16 || slot.length >= 16 {
            return false;
        }
        let ghost v = self.slots_view();
        let mut slots = self.slots;
        slots[self.slot_count] = slot;
        proof {
            lemma_array_of(v, default_descriptor());
            lemma_array_of_eq(slots, v.push(slot), default_descriptor());
            lemma_gts_from_wf(self.permit, v.push(slot));
        }
        *self = GuaranteedTimeSlotInformation {
            permit: self.permit,
            slot_count: self.slot_count + 1,
            slots,
        };
        proof {
            assert(self.slots_view() =~= v.push(slot));
        }
        true
    }

    /// The slots, in order
    pub fn slots(&self) -> (r: &[GuaranteedTimeSlotDescriptor])
        ensures
            r@ == self.slots_view(),
    {
        proof {
            use_type_invariant(self);
        }
        vstd::slice::slice_subrange(self.slots.as_slice(), 0, self.slot_count)
    }
}

impl PendingAddress {
    /// Adds a short address after the others; when seven are there already,
    /// nothing changes and the result is `false`
    pub fn add_short_address(&mut self, address: ShortAddress) -> (added: bool)
        ensures
            added == (old(self).shorts_view().len() < 7),
            added ==> final(self).shorts_view() == old(self).shorts_view().push(address),
            !added ==> final(self).shorts_view() == old(self).shorts_view(),
            final(self).exts_view() == old(self).exts_view(),
    {
        proof {
            use_type_invariant(&*self);
        }
        if self.short_address_count >= 7 {
            return false;
        }
        let ghost v = self.shorts_view();
        let mut shorts = self.short_addresses;
        shorts[self.short_address_count] = address;
        proof {
            lemma_array_of(v, ShortAddress(0xffff));
            lemma_array_of_eq(shorts, v.push(address), ShortAddress(0xffff));
            lemma_array_of(v.push(address), ShortAddress(0xffff));
            assert(shorts@.take(v.len() + 1 as int) =~= v.push(address));
        }
        *self = PendingAddress {
            short_address_count: self.short_address_count + 1,
            short_addresses: shorts,
            extended_address_count: self.extended_address_count,
            extended_addresses: self.extended_addresses,
        };
        true
    }

    /// Adds an extended address after the others; when seven are there
    /// already, nothing changes and the result is `false`
    pub fn add_extended_address(&mut self, address: ExtendedAddress) -> (added: bool)
        ensures
            added == (old(self).exts_view().len() < 7),
            added ==> final(self).exts_view() == old(self).exts_view().push(address),
            !added ==> final(self).exts_view() == old(self).exts_view(),
            final(self).shorts_view() == old(self).shorts_view(),
    {
        proof {
            use_type_invariant(&*self);
        }
        if self.extended_address_count >= 7 {
            return false;
        }
        let ghost v = self.exts_view();
        let mut exts = self.extended_addresses;
        exts[self.extended_address_count] = address;
        proof {
            lemma_array_of(v, ExtendedAddress(0xffff_ffff_ffff_ffff));
            lemma_array_of_eq(exts, v.push(address), ExtendedAddress(0xffff_ffff_ffff_ffff));
            lemma_array_of(v.push(address), ExtendedAddress(0xffff_ffff_ffff_ffff));
            assert(exts@.take(v.len() + 1 as int) =~= v.push(address));
        }
        *self = PendingAddress {
            short_address_count: self.short_address_count,
            short_addresses: self.short_addresses,
            extended_address_count: self.extended_address_count + 1,
            extended_addresses: exts,
        };
        true
    }

    /// The short addresses, in order
    pub fn short_addresses(&self) -> (r: &[ShortAddress])
        ensures
            r@ == self.shorts_view(),
    {
        proof {
            use_type_invariant(self);
        }
        vstd::slice::slice_subrange(self.short_addresses.as_slice(), 0, self.short_address_count)
    }

    /// The extended addresses, in order
    pub fn extended_addresses(&self) -> (r: &[ExtendedAddress])
        ensures
            r@ == self.exts_view(),
    {
        proof {
            use_type_invariant(self);
        }
        vstd::slice::slice_subrange(
            self.extended_addresses.as_slice(),
            0,
            self.extended_address_count,
        )
    }
}

// ---------------------------------------------------------------------------
// What decoding gives

proof fn lemma_parsed_slots(s: Seq<u8>, pos: int, mask: u8, n: nat)
    ensures
        spec_parse_slots(s, pos, mask, n) matches Ok((ds, _)) ==> {
            &&& ds.len() == n
            &&& forall|j: int|
                0 <= j < ds.len() ==> #[trigger] ds[j].starting_slot < 16 && ds[j].length < 16
        },
    decreases n,
{
    if n > 0 {
        lemma_parsed_slots(s, pos, mask, (n - 1) as nat);
        if let Ok((ds, p)) = spec_parse_slots(s, pos, mask, n) {
            let (ds0, p0) = spec_parse_slots(s, pos, mask, (n - 1) as nat).unwrap();
            let b = s[p0 + 2];
            assert((b & 0x0f) < 16 && (b >> 4u8) < 16) by (bit_vector);
            assert forall|j: int| 0 <= j < ds.len() implies #[trigger] ds[j].starting_slot < 16
                && ds[j].length < 16 by {
                if j < ds0.len() {
                    assert(ds[j] == ds0[j]);
                }
            }
        }
    }
}

proof fn lemma_pending_from_wf(shorts: Seq<ShortAddress>, exts: Seq<ExtendedAddress>)
    requires
        shorts.len() <= 7,
        exts.len() <= 7,
    ensures
        pending_from(shorts, exts).wf(),
{
    let p = pending_from(shorts, exts);
    lemma_array_of(shorts, ShortAddress(0xffff));
    lemma_array_of(exts, ExtendedAddress(0xffff_ffff_ffff_ffff));
    assert(p.shorts_view() =~= shorts);
    assert(p.exts_view() =~= exts);
}

/// Every beacon that decoding gives is well-formed.
pub proof fn lemma_parsed_beacon_wf(s: Seq<u8>, pos: int)
    ensures
        spec_parse_beacon(s, pos) matches Ok((b, _)) ==> beacon_wf(b),
{
    if let Ok((b, p)) = spec_parse_beacon(s, pos) {
        let bits = spec_read_u16_le(s, pos).unwrap();
        assert((bits & 0x0f) < 16 && ((bits >> 4u16) & 0x0f) < 16 && ((bits >> 8u16) & 0x0f) < 16)
            by (bit_vector);
        let gb = s[pos + 2];
        let count = gb & 0x07;
        assert(count < 8) by (bit_vector)
            requires
                count == gb & 0x07,
        ;
        if count == 0 {
            lemma_gts_from_wf((gb >> 7u8) & 1 == 1, seq![]);
        } else {
            let mask = s[pos + 3];
            lemma_parsed_slots(s, pos + 4, mask, count as nat);
            let (ds, _) = spec_parse_slots(s, pos + 4, mask, count as nat).unwrap();
            lemma_gts_from_wf((gb >> 7u8) & 1 == 1, ds);
        }
        let (g, p1) = spec_parse_gts(s, pos + 2).unwrap();
        let pb = s[p1 as int];
        let ns = pb & 0x07;
        let ne = (pb >> 4u8) & 0x07;
        assert(ns < 8 && ne < 8) by (bit_vector)
            requires
                ns == pb & 0x07,
                ne == (pb >> 4u8) & 0x07,
        ;
        let p2 = p1 + 1 + 2 * (ns as nat);
        lemma_pending_from_wf(
            shorts_at(s, p1 + 1, ns as nat),
            exts_at(s, p2, ne as nat),
        );
    }
}

// ---------------------------------------------------------------------------
// Beacons on the wire

/// The bytes a beacon starts with: the superframe specification, least
/// significant byte first. Byte 0: beacon order in bits 0 to 3 (15 for on
/// demand), superframe order in bits 4 to 7 (15 for inactive). Byte 1:
/// final CAP slot in bits 0 to 3, battery life extension bit 4, reserved
/// bit 5 clear, PAN coordinator bit 6, association permit bit 7.
pub proof fn lemma_superframe_bytes_layout(b: Beacon)
    ensures
        ({
            let bytes = beacon_bytes(b);
            let ss = b.superframe_spec;
            &&& bytes.len() >= 2
            &&& bytes[0] % 16 == match ss.beacon_order {
                BeaconOrder::BeaconOrder(v) => v % 16,
                BeaconOrder::OnDemand => 15,
            }
            &&& bytes[0] / 16 == match ss.superframe_order {
                SuperframeOrder::SuperframeOrder(v) => v % 16,
                SuperframeOrder::Inactive => 15,
            }
            &&& bytes[1] % 16 == ss.final_cap_slot % 16
            &&& (bytes[1] / 16) % 2 == (if ss.battery_life_extension { 1int } else { 0 })
            &&& (bytes[1] / 32) % 2 == 0
            &&& (bytes[1] / 64) % 2 == (if ss.pan_coordinator { 1int } else { 0 })
            &&& bytes[1] / 128 == (if ss.association_permit { 1int } else { 0 })
        }),
{
    let ss = b.superframe_spec;
    let bits = superframe_spec_bits(ss);
    let first: Seq<Seq<u8>> = seq![le16(bits)];
    let gc = gts_chunks(b.guaranteed_time_slot_info);
    let pc = pending_chunks(b.pending_address);
    lemma_flatten_concat(first + gc, pc);
    lemma_flatten_concat(first, gc);
    lemma_flatten_one(le16(bits));
    let bytes = beacon_bytes(b);
    assert(bytes[0] == le16(bits)[0]);
    assert(bytes[1] == le16(bits)[1]);
    let bo = beacon_order_bits(ss.beacon_order);
    let so = superframe_order_bits(ss.superframe_order);
    let fc = ss.final_cap_slot as u16;
    let e = bit16(ss.battery_life_extension);
    let pc1 = bit16(ss.pan_coordinator);
    let ap = bit16(ss.association_permit);
    if let BeaconOrder::BeaconOrder(v) = ss.beacon_order {
        assert((v as u16) & 0x0f == v % 16) by (bit_vector);
    }
    if let SuperframeOrder::SuperframeOrder(v) = ss.superframe_order {
        assert((v as u16) & 0x0f == v % 16) by (bit_vector);
    }
    let b0 = bits as u8;
    let b1 = (bits >> 8u16) as u8;
    assert({
        &&& b0 % 16 == bo as u8
        &&& b0 / 16 == so as u8
        &&& b1 % 16 == (fc & 0x0f) as u8
        &&& (b1 / 16) % 2 == e as u8
        &&& (b1 / 32) % 2 == 0
        &&& (b1 / 64) % 2 == pc1 as u8
        &&& b1 / 128 == ap as u8
    }) by (bit_vector)
        requires
            bo < 16,
            so < 16,
            e < 2,
            pc1 < 2,
            ap < 2,
            bits == bo | (so << 4u16) | ((fc & 0x0f) << 8u16) | (e << 12u16) | (pc1 << 14u16) | (ap
                << 15u16),
            b0 == bits as u8,
            b1 == (bits >> 8u16) as u8,
    ;
    let fcs = ss.final_cap_slot;
    assert((fc & 0x0f) as int == fcs % 16) by (bit_vector)
        requires
            fc == fcs as u16,
    ;
}

/// The superframe specification of a decoded beacon, field by field from
/// its first two bytes (see [`lemma_superframe_bytes_layout`]).
pub proof fn lemma_superframe_decode_layout(s: Seq<u8>, pos: int)
    requires
        0 <= pos,
    ensures
        spec_parse_beacon(s, pos) matches Ok((b, _)) ==> ({
            let x = s[pos];
            let y = s[pos + 1];
            let ss = b.superframe_spec;
            &&& ss.beacon_order == (if x % 16 == 15 {
                BeaconOrder::OnDemand
            } else {
                BeaconOrder::BeaconOrder(x % 16)
            })
            &&& ss.superframe_order == (if x / 16 == 15 {
                SuperframeOrder::Inactive
            } else {
                SuperframeOrder::SuperframeOrder(x / 16)
            })
            &&& ss.final_cap_slot == y % 16
            &&& ss.battery_life_extension == ((y / 16) % 2 == 1)
            &&& ss.pan_coordinator == ((y / 64) % 2 == 1)
            &&& ss.association_permit == (y / 128 == 1)
        }),
{
    if let Ok((b, _)) = spec_parse_beacon(s, pos) {
        let x = s[pos];
        let y = s[pos + 1];
        let bits = from_le16(x, y);
        assert({
            &&& bits & 0x0f == (x % 16) as u16
            &&& (bits >> 4u16) & 0x0f == (x / 16) as u16
            &&& ((bits >> 8u16) & 0x0f) as u8 == y % 16
            &&& (bits >> 12u16) & 1 == ((y / 16) % 2) as u16
            &&& (bits >> 14u16) & 1 == ((y / 64) % 2) as u16
            &&& (bits >> 15u16) & 1 == (y / 128) as u16
        }) by (bit_vector)
            requires
                bits == (x as u16) | ((y as u16) << 8u16),
        ;
    }
}

/// The bytes of pending addresses: a first byte with the number of short
/// addresses in bits 0 to 2 and of extended addresses in bits 4 to 6, the
/// other bits clear; then the short addresses, two bytes each, then the
/// extended addresses, eight bytes each, least significant byte first.
pub proof fn lemma_pending_bytes_layout(p: PendingAddress)
    requires
        p.wf(),
    ensures
        ({
            let b = pending_chunks(p).flatten();
            let ns = p.shorts_view().len();
            let ne = p.exts_view().len();
            &&& b.len() == 1 + 2 * ns + 8 * ne
            &&& b[0] % 8 == ns
            &&& (b[0] / 8) % 2 == 0
            &&& (b[0] / 16) % 8 == ne
            &&& b[0] / 128 == 0
            &&& forall|j: int|
                0 <= j < ns ==> le_value(b, 1 + 2 * j, 2) == (#[trigger] p.shorts_view()[j]).0
            &&& forall|j: int|
                0 <= j < ne ==> le_value(b, 1 + 2 * ns + 8 * j, 8) == (
                #[trigger] p.exts_view()[j]).0
        }),
{
    let vs = p.shorts_view();
    let ve = p.exts_view();
    let ns = vs.len();
    let ne = ve.len();
    let x = pending_spec_byte(ns, ne);
    let cs = shorts_chunks(vs);
    let ce = exts_chunks(ve);
    let b = pending_chunks(p).flatten();
    assert(pending_chunks(p) == seq![seq![x]] + cs + ce);
    lemma_flatten_concat(seq![seq![x]] + cs, ce);
    lemma_flatten_concat(seq![seq![x]], cs);
    lemma_flatten_one(seq![x]);
    lemma_flatten_uniform(cs, 2);
    lemma_flatten_uniform(ce, 8);
    assert(b == seq![x] + cs.flatten() + ce.flatten());
    let nsb = ns as u8;
    let neb = ne as u8;
    assert({
        &&& x % 8 == nsb
        &&& (x / 8) % 2 == 0
        &&& (x / 16) % 8 == neb
        &&& x / 128 == 0
    }) by (bit_vector)
        requires
            nsb < 8,
            neb < 8,
            x == (nsb & 0x07) | ((neb & 0x07) << 4u8),
    ;
    assert forall|j: int| 0 <= j < ns implies le_value(b, 1 + 2 * j, 2) == (
    #[trigger] vs[j]).0 by {
        lemma_le16_value(vs[j].0);
        assert forall|t: int| 0 <= t < 2 implies b[1 + 2 * j + t] == le16(vs[j].0)[t] by {
            assert(cs.flatten()[2 * j + t] == cs[j][t]);
        }
        assert(b.subrange(1 + 2 * j, 1 + 2 * j + 2) =~= le16(vs[j].0).subrange(0, 2));
        lemma_le_value_shift(b, 1 + 2 * j, le16(vs[j].0), 0, 2);
    }
    assert forall|j: int| 0 <= j < ne implies le_value(b, 1 + 2 * ns + 8 * j, 8) == (
    #[trigger] ve[j]).0 by {
        lemma_le64_value(ve[j].0);
        assert forall|t: int| 0 <= t < 8 implies b[1 + 2 * ns + 8 * j + t] == le64(ve[j].0)[t] by {
            assert(ce.flatten()[8 * j + t] == ce[j][t]);
        }
        assert(b.subrange(1 + 2 * ns + 8 * j, 1 + 2 * ns + 8 * j + 8) =~= le64(ve[j].0).subrange(
            0,
            8,
        ));
        lemma_le_value_shift(b, 1 + 2 * ns + 8 * j, le64(ve[j].0), 0, 8);
    }
}

/// Decoding pending addresses at `pos`: the first byte gives the number of
/// short addresses (bits 0 to 2) and extended ones (bits 4 to 6); the
/// addresses follow, short ones first, least significant byte first.
/// Running out of bytes is `Incomplete`.
pub proof fn lemma_pending_decode_layout(s: Seq<u8>, pos: int)
    requires
        0 <= pos <= s.len(),
        s.len() <= usize::MAX,
    ensures
        pos == s.len() ==> spec_parse_pending(s, pos) == Err::<(PendingAddress, usize), Error>(
            Error::Incomplete,
        ),
        pos < s.len() ==> ({
            let ns = s[pos] % 8;
            let ne = (s[pos] / 16) % 8;
            let end = pos + 1 + 2 * ns + 8 * ne;
            &&& spec_parse_pending(s, pos) is Ok <==> end <= s.len()
            &&& spec_parse_pending(s, pos) is Err ==> spec_parse_pending(s, pos) == Err::<
                (PendingAddress, usize),
                Error,
            >(Error::Incomplete)
            &&& spec_parse_pending(s, pos) matches Ok((p, q)) ==> {
                &&& q == end
                &&& p.shorts_view().len() == ns
                &&& p.exts_view().len() == ne
                &&& forall|j: int|
                    0 <= j < ns ==> (#[trigger] p.shorts_view()[j]).0 == le_value(
                        s,
                        pos + 1 + 2 * j,
                        2,
                    )
                &&& forall|j: int|
                    0 <= j < ne ==> (#[trigger] p.exts_view()[j]).0 == le_value(
                        s,
                        pos + 1 + 2 * ns + 8 * j,
                        8,
                    )
            }
        }),
{
    if pos < s.len() {
        let x = s[pos];
        let ns = x & 0x07;
        let ne = (x >> 4u8) & 0x07;
        assert(ns == x % 8 && ne == (x / 16) % 8) by (bit_vector)
            requires
                ns == x & 0x07,
                ne == (x >> 4u8) & 0x07,
        ;
        if let Ok((p, q)) = spec_parse_pending(s, pos) {
            let sh = shorts_at(s, pos + 1, ns as nat);
            let ex = exts_at(s, pos + 1 + 2 * (ns as nat), ne as nat);
            lemma_pending_from_wf(sh, ex);
            lemma_array_of(sh, ShortAddress(0xffff));
            lemma_array_of(ex, ExtendedAddress(0xffff_ffff_ffff_ffff));
            assert(p.shorts_view() =~= sh);
            assert(p.exts_view() =~= ex);
            assert forall|j: int| 0 <= j < ns implies (#[trigger] p.shorts_view()[j]).0
                == le_value(s, pos + 1 + 2 * j, 2) by {
                lemma_from_le16_value(s, pos + 1 + 2 * j);
            }
            assert forall|j: int| 0 <= j < ne implies (#[trigger] p.exts_view()[j]).0 == le_value(
                s,
                pos + 1 + 2 * ns + 8 * j,
                8,
            ) by {
                lemma_from_le64_value(s, pos + 1 + 2 * ns + 8 * j);
            }
        }
    }
}


/// The bytes of guaranteed time slot information: a first byte with the
/// number of slots in bits 0 to 2 and the permit in bit 7, the other bits
/// clear; when there are slots, a direction mask whose bit `j` is set when
/// slot `j` is a receive slot, the bits past the last slot clear; then three
/// bytes per slot: the device's short address, least significant byte
/// first, and a byte with the starting slot in bits 0 to 3 and the length
/// in bits 4 to 7.
pub proof fn lemma_gts_bytes_layout(g: GuaranteedTimeSlotInformation)
    requires
        g.wf(),
    ensures
        ({
            let b = gts_chunks(g).flatten();
            let v = g.slots_view();
            let n = v.len();
            &&& b.len() == (if n == 0 {
                1int
            } else {
                2 + 3 * n as int
            })
            &&& b[0] % 8 == n
            &&& (b[0] / 8) % 16 == 0
            &&& b[0] / 128 == (if g.spec_permit() {
                1int
            } else {
                0
            })
            &&& n > 0 ==> b[1] >> (n as u8) == 0
            &&& forall|j: int|
                0 <= j < n ==> ((b[1] >> (j as u8)) & 1 == 1) == (#[trigger] v[j]).direction is Receive
            &&& forall|j: int|
                0 <= j < n ==> {
                    &&& le_value(b, 2 + 3 * j, 2) == (#[trigger] v[j]).short_address.0
                    &&& b[2 + 3 * j + 2] % 16 == v[j].starting_slot
                    &&& b[2 + 3 * j + 2] / 16 == v[j].length
                }
        }),
{
    let v = g.slots_view();
    let n = v.len();
    let f = gts_chunks(g).flatten();
    assert(g.slots@.len() == 7);
    assert(n == g.slot_count);
    let x = gts_spec_byte(g.permit, n);
    let tail: Seq<Seq<u8>> = if n > 0 {
        seq![seq![direction_mask(v)]] + slots_chunks(v)
    } else {
        seq![]
    };
    lemma_flatten_concat(seq![seq![x]], tail);
    lemma_flatten_one(seq![x]);
    assert(f == seq![x] + tail.flatten());
    let cc = n as u8;
    let pb = bit(g.permit);
    assert({
        &&& x % 8 == cc
        &&& (x / 8) % 16 == 0
        &&& x / 128 == pb
    }) by (bit_vector)
        requires
            cc < 8,
            pb < 2,
            x == (cc & 0x07) | (pb << 7u8),
    ;
    if n > 0 {
        let m = direction_mask(v);
        let sf = slots_chunks(v).flatten();
        lemma_flatten_concat(seq![seq![m]], slots_chunks(v));
        lemma_flatten_one(seq![m]);
        lemma_slots_bytes(v);
        assert(tail.flatten() == seq![m] + sf);
        assert(f == seq![x, m] + sf);
        assert(f[1] == m);
        lemma_direction_mask(v);
        let k = n as u8;
        assert(m >> k == 0) by (bit_vector)
            requires
                k <= 7,
                m < (1u8 << k),
        ;
        assert forall|j: int| 0 <= j < n implies ((f[1] >> (j as u8)) & 1 == 1) == (
        #[trigger] v[j]).direction is Receive by {
            assert((m >> (j as u8)) & 1 == direction_bit(v[j].direction));
        }
        assert forall|j: int| 0 <= j < n implies {
            &&& le_value(f, 2 + 3 * j, 2) == (#[trigger] v[j]).short_address.0
            &&& f[2 + 3 * j + 2] % 16 == v[j].starting_slot
            &&& f[2 + 3 * j + 2] / 16 == v[j].length
        } by {
            let d = v[j];
            assert(d == g.slots@[j]);
            assert(f[2 + 3 * j] == sf[3 * j]);
            assert(f[2 + 3 * j + 1] == sf[3 * j + 1]);
            assert(f[2 + 3 * j + 2] == sf[3 * j + 2]);
            lemma_le16_value(d.short_address.0);
            assert(f.subrange(2 + 3 * j, 2 + 3 * j + 2) =~= le16(d.short_address.0).subrange(0, 2));
            lemma_le_value_shift(f, 2 + 3 * j, le16(d.short_address.0), 0, 2);
            let st = d.starting_slot;
            let ln = d.length;
            let sb = slot_byte(d);
            assert(sb % 16 == st && sb / 16 == ln) by (bit_vector)
                requires
                    st < 16,
                    ln < 16,
                    sb == (st & 0x0f) | ((ln & 0x0f) << 4u8),
            ;
        }
    } else {
        assert(tail.flatten() =~= Seq::<u8>::empty());
        assert(f =~= seq![x]);
    }
}

/// Decoding `n` slots at `q`: three bytes each, slot `j` taking its
/// direction from bit `j` of `mask`; running out of bytes is `Incomplete`.
proof fn lemma_parse_slots_layout(s: Seq<u8>, q: int, mask: u8, n: nat)
    requires
        0 <= q <= s.len(),
        s.len() <= usize::MAX,
        n <= 7,
    ensures
        spec_parse_slots(s, q, mask, n) is Ok <==> q + 3 * n <= s.len(),
        spec_parse_slots(s, q, mask, n) is Err ==> spec_parse_slots(s, q, mask, n) == Err::<
            (Seq<GuaranteedTimeSlotDescriptor>, usize),
            Error,
        >(Error::Incomplete),
        spec_parse_slots(s, q, mask, n) matches Ok((ds, p)) ==> {
            &&& p == q + 3 * n
            &&& ds.len() == n
            &&& forall|j: int|
                0 <= j < n ==> #[trigger] ds[j] == descriptor_from(
                    from_le16(s[q + 3 * j], s[q + 3 * j + 1]),
                    s[q + 3 * j + 2],
                    (mask >> (j as u8)) & 1,
                )
        },
    decreases n,
{
    if n > 0 {
        lemma_parse_slots_layout(s, q, mask, (n - 1) as nat);
        if let Ok((ds, p)) = spec_parse_slots(s, q, mask, (n - 1) as nat) {
            if let Ok((ds2, p2)) = spec_parse_slots(s, q, mask, n) {
                assert forall|j: int| 0 <= j < n implies #[trigger] ds2[j] == descriptor_from(
                    from_le16(s[q + 3 * j], s[q + 3 * j + 1]),
                    s[q + 3 * j + 2],
                    (mask >> (j as u8)) & 1,
                ) by {
                    if j < n - 1 {
                        assert(ds2[j] == ds[j]);
                    }
                }
            }
        }
    }
}

/// Decoding guaranteed time slot information at `pos`: the first byte gives
/// the number of slots (bits 0 to 2) and the permit (bit 7); when there are
/// slots, the direction mask follows, then three bytes per slot (see
/// [`lemma_gts_bytes_layout`]). Running out of bytes is `Incomplete`.
pub proof fn lemma_gts_decode_layout(s: Seq<u8>, pos: int)
    requires
        0 <= pos <= s.len(),
        s.len() <= usize::MAX,
    ensures
        pos == s.len() ==> spec_parse_gts(s, pos) == Err::<(GuaranteedTimeSlotInformation, usize), Error>(
            Error::Incomplete,
        ),
        pos < s.len() ==> ({
            let x = s[pos];
            let n = x % 8;
            let end = if n == 0 {
                pos + 1
            } else {
                pos + 2 + 3 * n
            };
            let r = spec_parse_gts(s, pos);
            &&& r is Ok <==> end <= s.len()
            &&& r is Err ==> r == Err::<(GuaranteedTimeSlotInformation, usize), Error>(
                Error::Incomplete,
            )
            &&& r matches Ok((g, q)) ==> {
                &&& q == end
                &&& g.spec_permit() == (x / 128 == 1)
                &&& g.slots_view().len() == n
                &&& forall|j: int|
                    0 <= j < n ==> {
                        &&& (#[trigger] g.slots_view()[j]).short_address.0 == le_value(
                            s,
                            pos + 2 + 3 * j,
                            2,
                        )
                        &&& g.slots_view()[j].starting_slot == s[pos + 2 + 3 * j + 2] % 16
                        &&& g.slots_view()[j].length == s[pos + 2 + 3 * j + 2] / 16
                        &&& (g.slots_view()[j].direction is Receive) == ((s[pos + 1] >> (
                        j as u8)) & 1 == 1)
                    }
            }
        }),
{
    if pos < s.len() {
        let x = s[pos];
        let count = x & 0x07;
        let permit = (x >> 7u8) & 1 == 1;
        assert(count == x % 8 && permit == (x / 128 == 1)) by (bit_vector)
            requires
                count == x & 0x07,
                permit == ((x >> 7u8) & 1 == 1),
        ;
        if count == 0 {
            lemma_gts_from_wf(permit, seq![]);
        } else if pos + 1 < s.len() {
            let mask = s[pos + 1];
            let n = count as nat;
            lemma_parse_slots_layout(s, pos + 2, mask, n);
            if let Ok((ds, p)) = spec_parse_slots(s, pos + 2, mask, n) {
                assert forall|j: int| 0 <= j < ds.len() implies #[trigger] ds[j].starting_slot < 16
                    && ds[j].length < 16 by {
                    let b = s[pos + 2 + 3 * j + 2];
                    assert((b & 0x0f) < 16 && (b >> 4u8) < 16) by (bit_vector);
                }
                lemma_gts_from_wf(permit, ds);
                assert forall|j: int| 0 <= j < n implies {
                    &&& (#[trigger] ds[j]).short_address.0 == le_value(s, pos + 2 + 3 * j, 2)
                    &&& ds[j].starting_slot == s[pos + 2 + 3 * j + 2] % 16
                    &&& ds[j].length == s[pos + 2 + 3 * j + 2] / 16
                    &&& (ds[j].direction is Receive) == ((mask >> (j as u8)) & 1 == 1)
                } by {
                    lemma_from_le16_value(s, pos + 2 + 3 * j);
                    let b = s[pos + 2 + 3 * j + 2];
                    assert(b & 0x0f == b % 16 && b >> 4u8 == b / 16) by (bit_vector);
                }
            }
        }
    }
}

/// Where the parts of a beacon lie in its bytes: the two bytes of the
/// superframe specification (see [`lemma_superframe_bytes_layout`]), then
/// the guaranteed time slots (see [`lemma_gts_bytes_layout`]), then the
/// pending addresses (see [`lemma_pending_bytes_layout`]), and nothing else.
pub proof fn lemma_beacon_bytes_layout(b: Beacon)
    ensures
        ({
            let bytes = beacon_bytes(b);
            let gb = gts_chunks(b.guaranteed_time_slot_info).flatten();
            let pb = pending_chunks(b.pending_address).flatten();
            &&& bytes.len() == 2 + gb.len() + pb.len()
            &&& bytes.subrange(2, 2 + gb.len() as int) == gb
            &&& bytes.subrange(2 + gb.len() as int, bytes.len() as int) == pb
        }),
{
    let bits = superframe_spec_bits(b.superframe_spec);
    let first: Seq<Seq<u8>> = seq![le16(bits)];
    let gc = gts_chunks(b.guaranteed_time_slot_info);
    let pc = pending_chunks(b.pending_address);
    lemma_flatten_concat(first + gc, pc);
    lemma_flatten_concat(first, gc);
    lemma_flatten_one(le16(bits));
    let f = beacon_bytes(b);
    assert(f == le16(bits) + gc.flatten() + pc.flatten());
    assert(f.subrange(2, 2 + gc.flatten().len() as int) =~= gc.flatten());
    assert(f.subrange(2 + gc.flatten().len() as int, f.len() as int) =~= pc.flatten());
}

/// Decoding a beacon at `pos`: the superframe specification takes two
/// bytes, the guaranteed time slots are decoded right after them and the
/// pending addresses right after those; the beacon ends where they end.
/// Running out of bytes is `Incomplete`, and is the only way to fail.
pub proof fn lemma_beacon_decode_layout(s: Seq<u8>, pos: int)
    requires
        0 <= pos <= s.len(),
        s.len() <= usize::MAX,
    ensures
        pos + 2 > s.len() ==> spec_parse_beacon(s, pos) == Err::<(Beacon, usize), Error>(
            Error::Incomplete,
        ),
        pos + 2 <= s.len() ==> ({
            let r = spec_parse_beacon(s, pos);
            let g = spec_parse_gts(s, pos + 2);
            &&& r is Ok <==> (g matches Ok((_, q)) && spec_parse_pending(s, q as int) is Ok)
            &&& r is Err ==> r == Err::<(Beacon, usize), Error>(Error::Incomplete)
            &&& r matches Ok((b, n)) ==> {
                &&& g matches Ok((gi, q)) && gi == b.guaranteed_time_slot_info
                    && spec_parse_pending(s, q as int) == Ok::<(PendingAddress, usize), Error>(
                    (b.pending_address, n),
                )
            }
        }),
{
    if pos + 2 <= s.len() {
        lemma_gts_decode_layout(s, pos + 2);
        if let Ok((gi, q)) = spec_parse_gts(s, pos + 2) {
            lemma_pending_decode_layout(s, q as int);
        }
    }
}

} // verus!
