//! The frame control field: the first two bytes of every frame.
use vstd::prelude::*;

verus! {

pub const MASK_FRAME_TYPE: u16 = 0x0007;
pub const MASK_SECURITY: u16 = 0x0008;
pub const MASK_PENDING: u16 = 0x0010;
pub const MASK_ACK: u16 = 0x0020;
pub const MASK_PAN_ID_COMPRESS: u16 = 0x0040;
pub const MASK_DEST_ADDR_MODE: u16 = 0x0c00;
pub const MASK_VERSION: u16 = 0x3000;
pub const MASK_SRC_ADDR_MODE: u16 = 0xc000;

pub const OFFSET_FRAME_TYPE: u16 = 0;
pub const OFFSET_SECURITY: u16 = 3;
pub const OFFSET_PENDING: u16 = 4;
pub const OFFSET_ACK: u16 = 5;
pub const OFFSET_PAN_ID_COMPRESS: u16 = 6;
pub const OFFSET_DEST_ADDR_MODE: u16 = 10;
pub const OFFSET_VERSION: u16 = 12;
pub const OFFSET_SRC_ADDR_MODE: u16 = 14;

/// The field of `bits` under `mask`, shifted down by `offset`.
pub open spec fn field(bits: u16, mask: u16, offset: u16) -> u8 {
    ((bits & mask) >> offset) as u8
}

/// Extracts the field of `bits` under `mask`, shifted down by `offset`.
pub fn get_field(bits: u16, mask: u16, offset: u16) -> (r: u8)
    requires
        offset < 16,
    ensures
        r == field(bits, mask, offset),
{
    ((bits & mask) >> offset) as u8
}

pub open spec fn flag(b: bool) -> u16 {
    if b {
        1
    } else {
        0
    }
}

/// The frame control field with the given sub-fields.
pub open spec fn pack(
    frame_type: u8,
    security: u8,
    pending: bool,
    ack: bool,
    pan_id_compress: bool,
    dest_mode: u8,
    version: u8,
    src_mode: u8,
) -> u16 {
    (frame_type as u16) | ((security as u16) << OFFSET_SECURITY) | (flag(pending)
        << OFFSET_PENDING) | (flag(ack) << OFFSET_ACK) | (flag(pan_id_compress)
        << OFFSET_PAN_ID_COMPRESS) | ((dest_mode as u16) << OFFSET_DEST_ADDR_MODE) | ((
    version as u16) << OFFSET_VERSION) | ((src_mode as u16) << OFFSET_SRC_ADDR_MODE)
}

/// Assembles the frame control field from its sub-fields.
pub fn pack_exec(
    frame_type: u8,
    security: u8,
    pending: bool,
    ack: bool,
    pan_id_compress: bool,
    dest_mode: u8,
    version: u8,
    src_mode: u8,
) -> (r: u16)
    ensures
        r == pack(frame_type, security, pending, ack, pan_id_compress, dest_mode, version, src_mode),
{
    let p: u16 = if pending {
        1
    } else {
        0
    };
    let a: u16 = if ack {
        1
    } else {
        0
    };
    let c: u16 = if pan_id_compress {
        1
    } else {
        0
    };
    (frame_type as u16) | ((security as u16) << OFFSET_SECURITY) | (p << OFFSET_PENDING) | (a
        << OFFSET_ACK) | (c << OFFSET_PAN_ID_COMPRESS) | ((dest_mode as u16)
        << OFFSET_DEST_ADDR_MODE) | ((version as u16) << OFFSET_VERSION) | ((src_mode as u16)
        << OFFSET_SRC_ADDR_MODE)
}

/// Packing sub-fields that fit their widths and reading them back gives them again.
pub proof fn lemma_pack_unpack(
    frame_type: u8,
    security: u8,
    pending: bool,
    ack: bool,
    pan_id_compress: bool,
    dest_mode: u8,
    version: u8,
    src_mode: u8,
)
    requires
        frame_type < 8,
        security < 2,
        dest_mode < 4,
        version < 4,
        src_mode < 4,
    ensures
        ({
            let bits = pack(
                frame_type,
                security,
                pending,
                ack,
                pan_id_compress,
                dest_mode,
                version,
                src_mode,
            );
            &&& field(bits, MASK_FRAME_TYPE, OFFSET_FRAME_TYPE) == frame_type
            &&& field(bits, MASK_SECURITY, OFFSET_SECURITY) == security
            &&& (field(bits, MASK_PENDING, OFFSET_PENDING) == 1) == pending
            &&& (field(bits, MASK_ACK, OFFSET_ACK) == 1) == ack
            &&& (field(bits, MASK_PAN_ID_COMPRESS, OFFSET_PAN_ID_COMPRESS) == 1)
                == pan_id_compress
            &&& field(bits, MASK_DEST_ADDR_MODE, OFFSET_DEST_ADDR_MODE) == dest_mode
            &&& field(bits, MASK_VERSION, OFFSET_VERSION) == version
            &&& field(bits, MASK_SRC_ADDR_MODE, OFFSET_SRC_ADDR_MODE) == src_mode
        }),
{
    let ft = frame_type as u16;
    let sec = security as u16;
    let p = flag(pending);
    let a = flag(ack);
    let c = flag(pan_id_compress);
    let d = dest_mode as u16;
    let v = version as u16;
    let s = src_mode as u16;
    let bits = ft | (sec << 3u16) | (p << 4u16) | (a << 5u16) | (c << 6u16) | (d << 10u16) | (v
        << 12u16) | (s << 14u16);
    assert({
        &&& (bits & 0x0007u16) >> 0u16 == ft
        &&& (bits & 0x0008u16) >> 3u16 == sec
        &&& (bits & 0x0010u16) >> 4u16 == p
        &&& (bits & 0x0020u16) >> 5u16 == a
        &&& (bits & 0x0040u16) >> 6u16 == c
        &&& (bits & 0x0c00u16) >> 10u16 == d
        &&& (bits & 0x3000u16) >> 12u16 == v
        &&& (bits & 0xc000u16) >> 14u16 == s
    }) by (bit_vector)
        requires
            ft < 8,
            sec < 2,
            p < 2,
            a < 2,
            c < 2,
            d < 4,
            v < 4,
            s < 4,
            bits == ft | (sec << 3u16) | (p << 4u16) | (a << 5u16) | (c << 6u16) | (d << 10u16) | (v
                << 12u16) | (s << 14u16),
    ;
}

} // verus!
