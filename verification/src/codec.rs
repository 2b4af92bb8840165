//! Byte-level reading and writing.
//!
//! The primitive reads and writes go through the `byte` crate. Everything the
//! frame codec does with a buffer is described here by two models:
//!
//! - a read of a value at an offset, which either yields the value or an error;
//! - a sequence of writes ("chunks"), each of which either lands completely or
//!   stops the whole sequence, leaving what was written before it in place.
use vstd::prelude::*;

verus! {

/// Errors that reading from or writing to a byte buffer can produce.
#[derive(Clone, Copy, Debug, PartialEq, Eq)]
pub enum Error {
    /// The buffer ends before the value does.
    Incomplete,
    /// The offset lies past the end of the buffer.
    BadOffset(usize),
    /// The bytes do not encode a valid value.
    BadInput { err: &'static str },
}

// ---------------------------------------------------------------------------
// Little-endian encodings

/// The two bytes of `v`, least significant first.
pub open spec fn le16(v: u16) -> Seq<u8> {
    seq![v as u8, (v >> 8u16) as u8]
}

/// The eight bytes of `v`, least significant first.
pub open spec fn le64(v: u64) -> Seq<u8> {
    seq![
        v as u8,
        (v >> 8u64) as u8,
        (v >> 16u64) as u8,
        (v >> 24u64) as u8,
        (v >> 32u64) as u8,
        (v >> 40u64) as u8,
        (v >> 48u64) as u8,
        (v >> 56u64) as u8,
    ]
}

/// The value of two bytes, least significant first.
pub open spec fn from_le16(b0: u8, b1: u8) -> u16 {
    (b0 as u16) | ((b1 as u16) << 8u16)
}

/// The value of the eight bytes of `s` starting at `pos`, least significant first.
pub open spec fn from_le64(s: Seq<u8>, pos: int) -> u64 {
    (s[pos] as u64) | ((s[pos + 1] as u64) << 8u64) | ((s[pos + 2] as u64) << 16u64) | ((s[pos
        + 3] as u64) << 24u64) | ((s[pos + 4] as u64) << 32u64) | ((s[pos + 5] as u64) << 40u64)
        | ((s[pos + 6] as u64) << 48u64) | ((s[pos + 7] as u64) << 56u64)
}

pub proof fn lemma_le16_roundtrip(v: u16)
    ensures
        le16(v).len() == 2,
        from_le16(le16(v)[0], le16(v)[1]) == v,
{
    let b0 = v as u8;
    let b1 = (v >> 8u16) as u8;
    assert(((b0 as u16) | ((b1 as u16) << 8u16)) == v) by (bit_vector)
        requires
            b0 == v as u8,
            b1 == (v >> 8u16) as u8,
    ;
}

pub proof fn lemma_le64_roundtrip(v: u64, s: Seq<u8>, pos: int)
    requires
        0 <= pos,
        pos + 8 <= s.len(),
        s.subrange(pos, pos + 8) == le64(v),
    ensures
        from_le64(s, pos) == v,
{
    assert(s[pos] == le64(v)[0]);
    assert(s[pos + 1] == le64(v)[1]);
    assert(s[pos + 2] == le64(v)[2]);
    assert(s[pos + 3] == le64(v)[3]);
    assert(s[pos + 4] == le64(v)[4]);
    assert(s[pos + 5] == le64(v)[5]);
    assert(s[pos + 6] == le64(v)[6]);
    assert(s[pos + 7] == le64(v)[7]);
    let b0 = s[pos];
    let b1 = s[pos + 1];
    let b2 = s[pos + 2];
    let b3 = s[pos + 3];
    let b4 = s[pos + 4];
    let b5 = s[pos + 5];
    let b6 = s[pos + 6];
    let b7 = s[pos + 7];
    assert((b0 as u64) | ((b1 as u64) << 8u64) | ((b2 as u64) << 16u64) | ((b3 as u64) << 24u64)
        | ((b4 as u64) << 32u64) | ((b5 as u64) << 40u64) | ((b6 as u64) << 48u64) | ((b7 as u64)
        << 56u64) == v) by (bit_vector)
        requires
            b0 == v as u8,
            b1 == (v >> 8u64) as u8,
            b2 == (v >> 16u64) as u8,
            b3 == (v >> 24u64) as u8,
            b4 == (v >> 32u64) as u8,
            b5 == (v >> 40u64) as u8,
            b6 == (v >> 48u64) as u8,
            b7 == (v >> 56u64) as u8,
    ;
}

/// Concatenating one chunk.
pub proof fn lemma_flatten_one(a: Seq<u8>)
    ensures
        seq![a].flatten() == a,
{
    assert(seq![a].drop_first() =~= Seq::<Seq<u8>>::empty());
    assert(Seq::<Seq<u8>>::empty().flatten() =~= Seq::<u8>::empty());
    assert(seq![a].flatten() =~= a);
}

/// Concatenating two chunks.
pub proof fn lemma_flatten_two(a: Seq<u8>, b: Seq<u8>)
    ensures
        seq![a, b].flatten() == a + b,
{
    assert(seq![a, b].drop_first() =~= seq![b]);
    lemma_flatten_one(b);
    assert(seq![a, b].flatten() =~= a + b);
}

/// Concatenating chunks that all have length `k`: chunk `j` lands at `k * j`.
pub proof fn lemma_flatten_uniform(c: Seq<Seq<u8>>, k: nat)
    requires
        forall|j: int| 0 <= j < c.len() ==> (#[trigger] c[j]).len() == k,
    ensures
        c.flatten().len() == k * c.len(),
        forall|j: int, t: int|
            0 <= j < c.len() && 0 <= t < k ==> c.flatten()[k * j + t] == #[trigger] c[j][t],
    decreases c.len(),
{
    if c.len() == 0 {
        assert(c.flatten() =~= Seq::<u8>::empty());
    } else {
        let rest = c.drop_first();
        lemma_flatten_uniform(rest, k);
        assert(c.flatten() == c[0] + rest.flatten());
        assert(k * c.len() == k + k * rest.len()) by (nonlinear_arith)
            requires
                c.len() == rest.len() + 1,
        ;
        assert forall|j: int, t: int| 0 <= j < c.len() && 0 <= t < k implies c.flatten()[k * j
            + t] == #[trigger] c[j][t] by {
            if j > 0 {
                assert(k * j + t == k + (k * (j - 1) + t)) by (nonlinear_arith);
                assert(k * (j - 1) + t < k * rest.len()) by (nonlinear_arith)
                    requires
                        0 <= t < k,
                        0 <= j - 1 < rest.len(),
                ;
                assert(0 <= k * (j - 1)) by (nonlinear_arith)
                    requires
                        j >= 1,
                ;
                assert(rest[j - 1] == c[j]);
            }
        }
    }
}

/// The number whose base-256 digits, least significant first, are the `n`
/// bytes of `s` from `pos` on.
pub open spec fn le_value(s: Seq<u8>, pos: int, n: nat) -> int
    decreases n,
{
    if n == 0 {
        0
    } else {
        s[pos] + 256 * le_value(s, pos + 1, (n - 1) as nat)
    }
}

/// A little-endian `u16` read is the base-256 number of its two bytes.
pub proof fn lemma_from_le16_value(s: Seq<u8>, pos: int)
    ensures
        from_le16(s[pos], s[pos + 1]) as int == le_value(s, pos, 2),
{
    reveal_with_fuel(le_value, 3);
    let b0 = s[pos];
    let b1 = s[pos + 1];
    assert(((b0 as u16) | ((b1 as u16) << 8u16)) == (b0 as u16) + 256 * (b1 as u16)) by (
    bit_vector);
}

/// A little-endian `u64` read is the base-256 number of its eight bytes.
pub proof fn lemma_from_le64_value(s: Seq<u8>, pos: int)
    ensures
        from_le64(s, pos) as int == le_value(s, pos, 8),
{
    reveal_with_fuel(le_value, 9);
    let b0 = s[pos];
    let b1 = s[pos + 1];
    let b2 = s[pos + 2];
    let b3 = s[pos + 3];
    let b4 = s[pos + 4];
    let b5 = s[pos + 5];
    let b6 = s[pos + 6];
    let b7 = s[pos + 7];
    assert((b0 as u64) | ((b1 as u64) << 8u64) | ((b2 as u64) << 16u64) | ((b3 as u64) << 24u64)
        | ((b4 as u64) << 32u64) | ((b5 as u64) << 40u64) | ((b6 as u64) << 48u64) | ((b7 as u64)
        << 56u64) == (b0 as u64) + 256 * ((b1 as u64) + 256 * ((b2 as u64) + 256 * ((b3 as u64)
        + 256 * ((b4 as u64) + 256 * ((b5 as u64) + 256 * ((b6 as u64) + 256 * (b7
        as u64)))))))) by (bit_vector);
}

/// The two bytes of `le16(v)` are the base-256 digits of `v`.
pub proof fn lemma_le16_value(v: u16)
    ensures
        le16(v).len() == 2,
        le_value(le16(v), 0, 2) == v,
{
    lemma_le16_roundtrip(v);
    lemma_from_le16_value(le16(v), 0);
}

/// The eight bytes of `le64(v)` are the base-256 digits of `v`.
pub proof fn lemma_le64_value(v: u64)
    ensures
        le64(v).len() == 8,
        le_value(le64(v), 0, 8) == v,
{
    assert(le64(v).subrange(0, 8) =~= le64(v));
    lemma_le64_roundtrip(v, le64(v), 0);
    lemma_from_le64_value(le64(v), 0);
}

/// The base-256 number of bytes depends only on those bytes.
pub proof fn lemma_le_value_shift(a: Seq<u8>, i: int, b: Seq<u8>, j: int, n: nat)
    requires
        0 <= i,
        i + n <= a.len(),
        0 <= j,
        j + n <= b.len(),
        a.subrange(i, i + n) == b.subrange(j, j + n),
    ensures
        le_value(a, i, n) == le_value(b, j, n),
    decreases n,
{
    if n > 0 {
        assert(a[i] == a.subrange(i, i + n)[0]);
        assert(b[j] == b.subrange(j, j + n)[0]);
        assert(a.subrange(i + 1, i + n) =~= a.subrange(i, i + n).subrange(1, n as int));
        assert(b.subrange(j + 1, j + n) =~= b.subrange(j, j + n).subrange(1, n as int));
        lemma_le_value_shift(a, i + 1, b, j + 1, (n - 1) as nat);
    }
}

// ---------------------------------------------------------------------------
// Reads

/// Reading one byte at `pos`.
pub open spec fn spec_read_u8(s: Seq<u8>, pos: int) -> Result<u8, Error> {
    if pos > s.len() {
        Err(Error::BadOffset(pos as usize))
    } else if s.len() - pos < 1 {
        Err(Error::Incomplete)
    } else {
        Ok(s[pos])
    }
}

/// Reading a little-endian `u16` at `pos`.
pub open spec fn spec_read_u16_le(s: Seq<u8>, pos: int) -> Result<u16, Error> {
    if pos > s.len() {
        Err(Error::BadOffset(pos as usize))
    } else if s.len() - pos < 2 {
        Err(Error::Incomplete)
    } else {
        Ok(from_le16(s[pos], s[pos + 1]))
    }
}

/// Reading a little-endian `u64` at `pos`.
pub open spec fn spec_read_u64_le(s: Seq<u8>, pos: int) -> Result<u64, Error> {
    if pos > s.len() {
        Err(Error::BadOffset(pos as usize))
    } else if s.len() - pos < 8 {
        Err(Error::Incomplete)
    } else {
        Ok(from_le64(s, pos))
    }
}

/// Reads one byte at `offset`, through `byte::BytesExt::read_with::<u8>`.
///
/// As `byte`'s source shows: an offset past the end gives `BadOffset`, a
/// buffer that ends at the offset gives `Incomplete`, otherwise the byte.
#[verifier::external_body]
pub(crate) fn read_u8(bytes: &[u8], offset: usize) -> (res: Result<u8, Error>)
    ensures
        res == spec_read_u8(bytes@, offset as int),
{
    let mut off = offset;
    match byte::BytesExt::read_with::<u8>(bytes, &mut off, byte::LE) {
        Ok(v) => Ok(v),
        Err(byte::Error::Incomplete) => Err(Error::Incomplete),
        Err(byte::Error::BadOffset(o)) => Err(Error::BadOffset(o)),
        Err(byte::Error::BadInput { err }) => Err(Error::BadInput { err }),
    }
}

/// Reads a little-endian `u16` at `offset`, through
/// `byte::BytesExt::read_with::<u16>` with `byte::LE`.
///
/// As `byte`'s source shows: an offset past the end gives `BadOffset`, fewer
/// than two bytes from the offset give `Incomplete`, otherwise the value.
#[verifier::external_body]
pub(crate) fn read_u16_le(bytes: &[u8], offset: usize) -> (res: Result<u16, Error>)
    ensures
        res == spec_read_u16_le(bytes@, offset as int),
{
    let mut off = offset;
    match byte::BytesExt::read_with::<u16>(bytes, &mut off, byte::LE) {
        Ok(v) => Ok(v),
        Err(byte::Error::Incomplete) => Err(Error::Incomplete),
        Err(byte::Error::BadOffset(o)) => Err(Error::BadOffset(o)),
        Err(byte::Error::BadInput { err }) => Err(Error::BadInput { err }),
    }
}

/// Reads a little-endian `u64` at `offset`, through
/// `byte::BytesExt::read_with::<u64>` with `byte::LE`.
///
/// As `byte`'s source shows: an offset past the end gives `BadOffset`, fewer
/// than eight bytes from the offset give `Incomplete`, otherwise the value.
#[verifier::external_body]
pub(crate) fn read_u64_le(bytes: &[u8], offset: usize) -> (res: Result<u64, Error>)
    ensures
        res == spec_read_u64_le(bytes@, offset as int),
{
    let mut off = offset;
    match byte::BytesExt::read_with::<u64>(bytes, &mut off, byte::LE) {
        Ok(v) => Ok(v),
        Err(byte::Error::Incomplete) => Err(Error::Incomplete),
        Err(byte::Error::BadOffset(o)) => Err(Error::BadOffset(o)),
        Err(byte::Error::BadInput { err }) => Err(Error::BadInput { err }),
    }
}

/// What `byte::check_len` returns: `Incomplete` when the buffer is shorter
/// than `len`, otherwise `len`.
pub open spec fn spec_check_len(s: Seq<u8>, len: int) -> Result<usize, Error> {
    if s.len() < len {
        Err(Error::Incomplete)
    } else {
        Ok(len as usize)
    }
}

/// Checks that `bytes` holds at least `len` bytes, through `byte::check_len`.
#[verifier::external_body]
pub(crate) fn check_len(bytes: &[u8], len: usize) -> (res: Result<usize, Error>)
    ensures
        res == spec_check_len(bytes@, len as int),
{
    match byte::check_len(bytes, len) {
        Ok(n) => Ok(n),
        Err(byte::Error::Incomplete) => Err(Error::Incomplete),
        Err(byte::Error::BadOffset(o)) => Err(Error::BadOffset(o)),
        Err(byte::Error::BadInput { err }) => Err(Error::BadInput { err }),
    }
}

// ---------------------------------------------------------------------------
// Writes

/// `buf` with `data` written over it from `pos` on.
pub open spec fn splice(buf: Seq<u8>, pos: int, data: Seq<u8>) -> Seq<u8> {
    buf.take(pos) + data + buf.skip(pos + data.len())
}

/// One write of `data` at `pos`: the buffer after it, and the offset just
/// past the written bytes, or the error (with the buffer untouched).
pub open spec fn spec_write(buf: Seq<u8>, pos: int, data: Seq<u8>) -> (Seq<u8>, Result<
    usize,
    Error,
>) {
    if pos > buf.len() {
        (buf, Err(Error::BadOffset(pos as usize)))
    } else if buf.len() - pos < data.len() {
        (buf, Err(Error::Incomplete))
    } else {
        (splice(buf, pos, data), Ok((pos + data.len()) as usize))
    }
}

/// A sequence of writes, one per chunk, starting at `pos`; the first one that
/// fails stops the sequence and its error is the result.
pub open spec fn write_all(buf: Seq<u8>, pos: int, chunks: Seq<Seq<u8>>) -> (Seq<u8>, Result<
    usize,
    Error,
>)
    decreases chunks.len(),
{
    if chunks.len() == 0 {
        (buf, Ok(pos as usize))
    } else {
        let (b1, r1) = spec_write(buf, pos, chunks[0]);
        match r1 {
            Ok(p) => write_all(b1, p as int, chunks.drop_first()),
            Err(e) => (b1, Err(e)),
        }
    }
}

/// Continuing a sequence of writes after `first` with `rest`.
pub open spec fn then_write(first: (Seq<u8>, Result<usize, Error>), rest: Seq<Seq<u8>>) -> (
    Seq<u8>,
    Result<usize, Error>,
) {
    match first.1 {
        Ok(p) => write_all(first.0, p as int, rest),
        Err(e) => (first.0, Err(e)),
    }
}

/// A single write.
pub proof fn lemma_write_one(buf: Seq<u8>, pos: int, c: Seq<u8>)
    ensures
        write_all(buf, pos, seq![c]) == spec_write(buf, pos, c),
{
    reveal_with_fuel(write_all, 2);
    assert(seq![c].drop_first() =~= Seq::<Seq<u8>>::empty());
}

/// Writing `a + b` is writing `a`, then `b` where `a` ended.
pub proof fn lemma_write_all_append(buf: Seq<u8>, pos: int, a: Seq<Seq<u8>>, b: Seq<Seq<u8>>)
    requires
        0 <= pos <= buf.len(),
        buf.len() <= usize::MAX,
    ensures
        write_all(buf, pos, a + b) == then_write(write_all(buf, pos, a), b),
    decreases a.len(),
{
    if a.len() == 0 {
        assert(a + b =~= b);
    } else {
        assert((a + b)[0] == a[0]);
        assert((a + b).drop_first() =~= a.drop_first() + b);
        let (b1, r1) = spec_write(buf, pos, a[0]);
        if let Ok(p) = r1 {
            lemma_write_all_append(b1, p as int, a.drop_first(), b);
        }
    }
}

/// Writing chunks that fit lays their concatenation down at `pos`.
pub proof fn lemma_write_all_fits(buf: Seq<u8>, pos: int, chunks: Seq<Seq<u8>>)
    requires
        0 <= pos,
        pos + chunks.flatten().len() <= buf.len(),
        buf.len() <= usize::MAX,
    ensures
        write_all(buf, pos, chunks) == (
            splice(buf, pos, chunks.flatten()),
            Ok::<usize, Error>((pos + chunks.flatten().len()) as usize),
        ),
    decreases chunks.len(),
{
    if chunks.len() == 0 {
        assert(splice(buf, pos, chunks.flatten()) =~= buf);
    } else {
        let c = chunks[0];
        let rest = chunks.drop_first();
        assert(chunks.flatten() == c + rest.flatten());
        let b1 = splice(buf, pos, c);
        assert(b1.len() == buf.len());
        lemma_write_all_fits(b1, pos + c.len(), rest);
        assert(splice(b1, pos + c.len(), rest.flatten()) =~= splice(buf, pos, chunks.flatten()));
    }
}

/// Writes are all or nothing: when the chunks do not fit, the result is an
/// error and the buffer keeps its length.
pub proof fn lemma_write_all_len(buf: Seq<u8>, pos: int, chunks: Seq<Seq<u8>>)
    requires
        0 <= pos <= buf.len(),
        buf.len() <= usize::MAX,
    ensures
        write_all(buf, pos, chunks).0.len() == buf.len(),
        write_all(buf, pos, chunks).1 is Ok <==> pos + chunks.flatten().len() <= buf.len(),
        write_all(buf, pos, chunks).1 matches Ok(p) ==> p == pos + chunks.flatten().len(),
        write_all(buf, pos, chunks).1 is Err ==> write_all(buf, pos, chunks).1 == Err::<
            usize,
            Error,
        >(Error::Incomplete),
    decreases chunks.len(),
{
    if chunks.len() > 0 {
        let c = chunks[0];
        let rest = chunks.drop_first();
        assert(chunks.flatten() == c + rest.flatten());
        if pos + c.len() <= buf.len() {
            let b1 = splice(buf, pos, c);
            assert(b1.len() == buf.len());
            lemma_write_all_len(b1, pos + c.len(), rest);
        }
    }
}

/// Writes one byte at `offset`, through `byte::BytesExt::write_with::<u8>`.
///
/// As `byte`'s source shows: an offset past the end gives `BadOffset`, no
/// room at the offset gives `Incomplete`; in both cases nothing is written.
/// Otherwise the byte is written and the offset past it returned.
#[verifier::external_body]
pub(crate) fn write_u8(bytes: &mut [u8], offset: usize, v: u8) -> (res: Result<usize, Error>)
    ensures
        res == spec_write(old(bytes)@, offset as int, seq![v]).1,
        final(bytes)@ == spec_write(old(bytes)@, offset as int, seq![v]).0,
{
    let mut off = offset;
    match byte::BytesExt::write_with::<u8>(bytes, &mut off, v, byte::LE) {
        Ok(()) => Ok(off),
        Err(byte::Error::Incomplete) => Err(Error::Incomplete),
        Err(byte::Error::BadOffset(o)) => Err(Error::BadOffset(o)),
        Err(byte::Error::BadInput { err }) => Err(Error::BadInput { err }),
    }
}

/// Writes a little-endian `u16` at `offset`, through
/// `byte::BytesExt::write_with::<u16>` with `byte::LE`.
///
/// As `byte`'s source shows: an offset past the end gives `BadOffset`, fewer
/// than two bytes of room give `Incomplete`; in both cases nothing is
/// written. Otherwise the two bytes are written and the offset past them
/// returned.
#[verifier::external_body]
pub(crate) fn write_u16_le(bytes: &mut [u8], offset: usize, v: u16) -> (res: Result<usize, Error>)
    ensures
        res == spec_write(old(bytes)@, offset as int, le16(v)).1,
        final(bytes)@ == spec_write(old(bytes)@, offset as int, le16(v)).0,
{
    let mut off = offset;
    match byte::BytesExt::write_with::<u16>(bytes, &mut off, v, byte::LE) {
        Ok(()) => Ok(off),
        Err(byte::Error::Incomplete) => Err(Error::Incomplete),
        Err(byte::Error::BadOffset(o)) => Err(Error::BadOffset(o)),
        Err(byte::Error::BadInput { err }) => Err(Error::BadInput { err }),
    }
}

/// Writes a little-endian `u64` at `offset`, through
/// `byte::BytesExt::write_with::<u64>` with `byte::LE`.
///
/// As `byte`'s source shows: an offset past the end gives `BadOffset`, fewer
/// than eight bytes of room give `Incomplete`; in both cases nothing is
/// written. Otherwise the eight bytes are written and the offset past them
/// returned.
#[verifier::external_body]
pub(crate) fn write_u64_le(bytes: &mut [u8], offset: usize, v: u64) -> (res: Result<usize, Error>)
    ensures
        res == spec_write(old(bytes)@, offset as int, le64(v)).1,
        final(bytes)@ == spec_write(old(bytes)@, offset as int, le64(v)).0,
{
    let mut off = offset;
    match byte::BytesExt::write_with::<u64>(bytes, &mut off, v, byte::LE) {
        Ok(()) => Ok(off),
        Err(byte::Error::Incomplete) => Err(Error::Incomplete),
        Err(byte::Error::BadOffset(o)) => Err(Error::BadOffset(o)),
        Err(byte::Error::BadInput { err }) => Err(Error::BadInput { err }),
    }
}

/// Copies `data` to `offset`, through `byte::BytesExt::write` of a `&[u8]`.
///
/// As `byte`'s source shows: an offset past the end gives `BadOffset`, too
/// little room gives `Incomplete`; in both cases nothing is written.
/// Otherwise `data` is copied and the offset past it returned.
#[verifier::external_body]
pub(crate) fn write_slice(bytes: &mut [u8], offset: usize, data: &[u8]) -> (res: Result<
    usize,
    Error,
>)
    ensures
        res == spec_write(old(bytes)@, offset as int, data@).1,
        final(bytes)@ == spec_write(old(bytes)@, offset as int, data@).0,
{
    let mut off = offset;
    match byte::BytesExt::write::<&[u8]>(bytes, &mut off, data) {
        Ok(()) => Ok(off),
        Err(byte::Error::Incomplete) => Err(Error::Incomplete),
        Err(byte::Error::BadOffset(o)) => Err(Error::BadOffset(o)),
        Err(byte::Error::BadInput { err }) => Err(Error::BadInput { err }),
    }
}

} // verus!
