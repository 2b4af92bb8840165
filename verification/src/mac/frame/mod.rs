//! Partial implementation of the IEEE 802.15.4 Frame
//!
//! The main type in this module is [Frame], a type that represents an IEEE
//! 802.15.4 MAC frame. The other types in this module are supporting types
//! that are either part of [Frame] or are required to support its API.
mod frame_control;
pub mod header;

use self::header::{
    header_bytes, header_chunks, header_wf, lemma_header_roundtrip, lemma_parsed_header_wf,
    spec_parse_header, FrameType, Header,
};
use crate::codec::{
    lemma_write_all_fits, lemma_write_all_len, spec_write, splice, write_all, write_slice, Error,
};
use crate::mac::beacon::{
    beacon_chunks, beacon_wf, lemma_beacon_roundtrip, lemma_parsed_beacon_wf, spec_parse_beacon,
    Beacon,
};
use crate::mac::command::{
    command_chunks, command_takes_next_byte, command_wf, lemma_command_roundtrip,
    lemma_parsed_command_wf, spec_parse_command, Command,
};
use vstd::prelude::*;

verus! {

/// Signals an error that occured while decoding bytes
#[derive(Clone, Copy, Debug, Eq, Hash, PartialEq)]
pub enum DecodeError {
    /// Buffer does not contain enough bytes
    NotEnoughBytes,
    /// The frame type is invalid
    InvalidFrameType(u8),
    /// The frame has the security bit set, which is not supported
    SecurityNotSupported,
    /// The frame's address mode is invalid
    InvalidAddressMode(u8),
    /// The frame's version is invalid or not supported
    InvalidFrameVersion(u8),
    /// The data stream contains an invalid value
    InvalidValue,
}

/// The byte-level error that a decode error stands for: a shortage of bytes
/// is `Incomplete`, every other error is `BadInput` named after its variant.
pub open spec fn spec_error_of(e: DecodeError) -> Error {
    match e {
        DecodeError::NotEnoughBytes => Error::Incomplete,
        DecodeError::InvalidFrameType(_) => Error::BadInput { err: "InvalidFrameType" },
        DecodeError::SecurityNotSupported => Error::BadInput { err: "SecurityNotSupported" },
        DecodeError::InvalidAddressMode(_) => Error::BadInput { err: "InvalidAddressMode" },
        DecodeError::InvalidFrameVersion(_) => Error::BadInput { err: "InvalidFrameVersion" },
        DecodeError::InvalidValue => Error::BadInput { err: "InvalidValue" },
    }
}

impl From<DecodeError> for Error {
    fn from(e: DecodeError) -> (r: Self) {
        match e {
            DecodeError::NotEnoughBytes => Error::Incomplete,
            DecodeError::InvalidFrameType(_) => Error::BadInput { err: "InvalidFrameType" },
            DecodeError::SecurityNotSupported => Error::BadInput { err: "SecurityNotSupported" },
            DecodeError::InvalidAddressMode(_) => Error::BadInput { err: "InvalidAddressMode" },
            DecodeError::InvalidFrameVersion(_) => Error::BadInput { err: "InvalidFrameVersion" },
            DecodeError::InvalidValue => Error::BadInput { err: "InvalidValue" },
        }
    }
}

impl vstd::std_specs::convert::FromSpecImpl<DecodeError> for Error {
    open spec fn obeys_from_spec() -> bool {
        true
    }

    open spec fn from_spec(e: DecodeError) -> Self {
        spec_error_of(e)
    }
}

/// An IEEE 802.15.4 MAC frame
///
/// Represents a MAC frame. Can be used to decode a frame from bytes
/// ([`Frame::try_read`]), or encode a frame to bytes ([`Frame::try_write`]).
#[derive(Clone, Copy, Debug, Eq, Hash, PartialEq)]
pub struct Frame<'p> {
    /// Header
    pub header: Header,
    /// Content
    pub content: FrameContent,
    /// Payload
    pub payload: &'p [u8],
    /// Footer
    ///
    /// This is a 2-byte CRC checksum.
    ///
    /// When creating an instance of this struct for encoding, you don't
    /// necessarily need to write an actual CRC checksum here. [`Frame::try_write`]
    /// omits writing this checksum, for example because the transceiver
    /// hardware adds the checksum itself.
    pub footer: [u8; 2],
}

/// Tells the encoder whether to write the footer
///
/// Eventually, this should support three options:
/// - Don't write the footer
/// - Calculate the 2-byte CRC checksum and write that as the footer
/// - Write the footer as written into the `footer` field
///
/// For now, only not writing the footer is supported.
pub enum WriteFooter {
    /// Don't write the footer
    No,
}

/// Content of a frame
#[derive(Clone, Copy, Debug, Eq, Hash, PartialEq)]
pub enum FrameContent {
    /// Beacon frame content
    Beacon(Beacon),
    /// Data frame
    Data,
    /// Acknowledgement frame
    Acknowledgement,
    /// MAC command frame
    Command(Command),
}

/// The writes that encode frame content: a beacon or a command; data and
/// acknowledgement frames have no content of their own.
pub open spec fn content_chunks(c: FrameContent) -> Seq<Seq<u8>> {
    match c {
        FrameContent::Beacon(b) => beacon_chunks(b),
        FrameContent::Command(cmd) => command_chunks(cmd),
        _ => seq![],
    }
}

/// The bytes of encoded frame content.
pub open spec fn content_bytes(c: FrameContent) -> Seq<u8> {
    content_chunks(c).flatten()
}

/// Decoding the content of a frame of type `frame_type` at `pos`.
pub open spec fn spec_parse_content(s: Seq<u8>, pos: int, frame_type: FrameType) -> Result<
    (FrameContent, usize),
    Error,
> {
    match frame_type {
        FrameType::Beacon => match spec_parse_beacon(s, pos) {
            Ok((b, p)) => Ok((FrameContent::Beacon(b), p)),
            Err(e) => Err(e),
        },
        FrameType::Data => Ok((FrameContent::Data, pos as usize)),
        FrameType::Acknowledgement => Ok((FrameContent::Acknowledgement, pos as usize)),
        FrameType::MacCommand => match spec_parse_command(s, pos) {
            Ok((cmd, p)) => Ok((FrameContent::Command(cmd), p)),
            Err(e) => Err(e),
        },
    }
}

/// What writing content at `pos` does: its writes, one after the other,
/// and, whatever they gave, the offset after the content when they all
/// landed, `pos` otherwise.
pub open spec fn spec_content_write(buf: Seq<u8>, pos: int, c: FrameContent) -> (Seq<u8>, usize) {
    let (b, r) = write_all(buf, pos, content_chunks(c));
    match r {
        Ok(p) => (b, p),
        Err(_) => (b, pos as usize),
    }
}

impl FrameContent {
    fn write_at(&self, bytes: &mut [u8], offset: usize) -> (res: Result<usize, Error>)
        requires
            offset <= old(bytes)@.len(),
        ensures
            res == write_all(old(bytes)@, offset as int, content_chunks(*self)).1,
            final(bytes)@ == write_all(old(bytes)@, offset as int, content_chunks(*self)).0,
    {
        match self {
            FrameContent::Beacon(beacon) => beacon.write_at(bytes, offset),
            FrameContent::Data | FrameContent::Acknowledgement => Ok(offset),
            FrameContent::Command(command) => command.write_at(bytes, offset),
        }
    }

    fn read_at(bytes: &[u8], offset: usize, frame_type: FrameType) -> (res: Result<
        (FrameContent, usize),
        Error,
    >)
        requires
            offset <= bytes@.len(),
        ensures
            res == spec_parse_content(bytes@, offset as int, frame_type),
            res matches Ok((_, p)) ==> offset <= p <= bytes@.len(),
    {
        match frame_type {
            FrameType::Beacon => {
                let (b, p) = Beacon::read_at(bytes, offset)?;
                Ok((FrameContent::Beacon(b), p))
            },
            FrameType::Data => Ok((FrameContent::Data, offset)),
            FrameType::Acknowledgement => Ok((FrameContent::Acknowledgement, offset)),
            FrameType::MacCommand => {
                let (c, p) = Command::read_at(bytes, offset)?;
                Ok((FrameContent::Command(c), p))
            },
        }
    }

    /// Writes the content at the start of `bytes` and returns how many bytes
    /// it took.
    ///
    /// Data and acknowledgement frames have no content: nothing is written.
    /// A beacon or command is written field by field; when a field does not
    /// fit, the write stops there, the fields before it stay written, and
    /// the result is `Ok(0)`.
    pub fn try_write(self, bytes: &mut [u8]) -> (res: Result<usize, Error>)
        ensures
            res == Ok::<usize, Error>(spec_content_write(old(bytes)@, 0, self).1),
            final(bytes)@ == spec_content_write(old(bytes)@, 0, self).0,
            old(bytes)@.len() >= content_bytes(self).len() ==> res == Ok::<usize, Error>(
                content_bytes(self).len() as usize,
            ) && final(bytes)@ == splice(old(bytes)@, 0, content_bytes(self)),
    {
        let len = bytes.len();
        proof {
            lemma_write_all_len(bytes@, 0, content_chunks(self));
            if bytes@.len() >= content_bytes(self).len() {
                lemma_write_all_fits(bytes@, 0, content_chunks(self));
            }
        }
        match self.write_at(bytes, 0) {
            Ok(n) => Ok(n),
            Err(_) => Ok(0),
        }
    }

    /// Decodes the content of a frame with `header` from the start of
    /// `bytes`, and returns how many bytes it took
    ///
    /// Beacon frames hold a beacon and MAC command frames a command; data
    /// and acknowledgement frames have no content and take no bytes.
    pub fn try_read(bytes: &[u8], header: &Header) -> (res: Result<(FrameContent, usize), Error>)
        ensures
            res == spec_parse_content(bytes@, 0, header.frame_type),
    {
        FrameContent::read_at(bytes, 0, header.frame_type)
    }
}

/// The bytes of an encoded frame: header, content and payload; the footer
/// is not written.
pub open spec fn frame_bytes(header: Header, content: FrameContent, payload: Seq<u8>) -> Seq<u8> {
    header_bytes(header) + content_bytes(content) + payload
}

/// What writing a frame at the start of `buf` does.
///
/// The header is written field by field, and a field that does not fit is
/// an error. The content is written next; when it does not fit, its error
/// is dropped and the payload goes where the content would have started.
/// The payload is copied in one piece, and not fitting is an error. The
/// result is the number of bytes of the frame that were written.
pub open spec fn spec_frame_write(
    buf: Seq<u8>,
    header: Header,
    content: FrameContent,
    payload: Seq<u8>,
) -> (Seq<u8>, Result<usize, Error>) {
    let (b1, r1) = write_all(buf, 0, header_chunks(header));
    match r1 {
        Err(e) => (b1, Err(e)),
        Ok(p1) => {
            let (b2, p2) = spec_content_write(b1, p1 as int, content);
            spec_write(b2, p2 as int, payload)
        },
    }
}

/// Decoding a frame from the start of `s`: its header, its content, and the
/// offset where the payload starts; the payload is the rest of `s`.
pub open spec fn spec_parse_frame(s: Seq<u8>) -> Result<(Header, FrameContent, usize), Error> {
    match spec_parse_header(s, 0) {
        Err(e) => Err(e),
        Ok((h, p1)) => match spec_parse_content(s, p1 as int, h.frame_type) {
            Err(e) => Err(e),
            Ok((c, p2)) => Ok((h, c, p2)),
        },
    }
}

impl<'p> Frame<'p> {
    /// Encodes the frame into the start of `bytes`, and returns the number
    /// of bytes written; the footer is not written
    ///
    /// # Errors
    ///
    /// `Incomplete` when the header or the payload does not fit.
    pub fn try_write(self, bytes: &mut [u8]) -> (res: Result<usize, Error>)
        ensures
            res == spec_frame_write(old(bytes)@, self.header, self.content, self.payload@).1,
            final(bytes)@ == spec_frame_write(
                old(bytes)@,
                self.header,
                self.content,
                self.payload@,
            ).0,
            old(bytes)@.len() >= frame_bytes(self.header, self.content, self.payload@).len() ==> res
                == Ok::<usize, Error>(
                frame_bytes(self.header, self.content, self.payload@).len() as usize,
            ) && final(bytes)@ == splice(
                old(bytes)@,
                0,
                frame_bytes(self.header, self.content, self.payload@),
            ),
    {
        let len = bytes.len();
        let ghost buf = bytes@;
        proof {
            lemma_write_all_len(buf, 0, header_chunks(self.header));
        }
        let p1 = self.header.write_at(bytes, 0)?;
        let ghost b1 = bytes@;
        proof {
            lemma_write_all_len(b1, p1 as int, content_chunks(self.content));
        }
        let p2 = match self.content.write_at(bytes, p1) {
            Ok(p) => p,
            Err(_) => p1,
        };
        let ghost b2 = bytes@;
        let p3 = write_slice(bytes, p2, self.payload)?;
        proof {
            let fb = frame_bytes(self.header, self.content, self.payload@);
            let hb = header_bytes(self.header);
            let cb = content_bytes(self.content);
            if buf.len() >= fb.len() {
                lemma_write_all_fits(buf, 0, header_chunks(self.header));
                lemma_write_all_fits(b1, p1 as int, content_chunks(self.content));
                assert(splice(splice(splice(buf, 0, hb), hb.len() as int, cb), (hb.len()
                    + cb.len()) as int, self.payload@) =~= splice(buf, 0, fb));
            }
        }
        Ok(p3)
    }

    /// Decodes a frame from `bytes`, and returns it with the offset where its
    /// payload starts
    ///
    /// The payload is everything after the header and the content; the
    /// footer is set to zero.
    ///
    /// # Errors
    ///
    /// `Incomplete` when the bytes end before the header or the content
    /// does; `BadInput` when the header holds a reserved or unsupported
    /// value, or the content an invalid one.
    pub fn try_read(bytes: &'p [u8]) -> (res: Result<(Frame<'p>, usize), Error>)
        ensures
            res is Ok <==> spec_parse_frame(bytes@) is Ok,
            res matches Ok((f, n)) ==> {
                &&& spec_parse_frame(bytes@) == Ok::<(Header, FrameContent, usize), Error>(
                    (f.header, f.content, n),
                )
                &&& n <= bytes@.len()
                &&& f.payload@ == bytes@.skip(n as int)
                &&& f.footer@ == seq![0u8, 0u8]
            },
            res matches Err(e) ==> spec_parse_frame(bytes@) == Err::<
                (Header, FrameContent, usize),
                Error,
            >(e),
    {
        let len = bytes.len();
        let (header, p1) = Header::read_at(bytes, 0)?;
        let (content, p2) = FrameContent::read_at(bytes, p1, header.frame_type)?;
        let payload = vstd::slice::slice_subrange(bytes, p2, len);
        let f = Frame { header, content, payload, footer: [0, 0] };
        assert(f.footer@ =~= seq![0u8, 0u8]);
        Ok((f, p2))
    }
}

// ---------------------------------------------------------------------------
// Decoding what was encoded

/// The content kind that goes with a frame type.
pub open spec fn content_of_type(c: FrameContent, frame_type: FrameType) -> bool {
    match frame_type {
        FrameType::Beacon => c is Beacon,
        FrameType::Data => c is Data,
        FrameType::Acknowledgement => c is Acknowledgement,
        FrameType::MacCommand => c is Command,
    }
}

/// A frame that decoding gives back: a well-formed header, content of the
/// kind its frame type names and well-formed, and no payload after a
/// coordinator realignment without a channel page (decoding would read the
/// first payload byte as the channel page).
pub open spec fn frame_wf(header: Header, content: FrameContent, payload: Seq<u8>) -> bool {
    &&& header_wf(header)
    &&& content_of_type(content, header.frame_type)
    &&& match content {
        FrameContent::Beacon(b) => beacon_wf(b),
        FrameContent::Command(cmd) => command_wf(cmd) && (command_takes_next_byte(cmd)
            ==> payload.len() == 0),
        _ => true,
    }
}

/// Decoding the bytes of a well-formed frame gives back its header and
/// content, and its payload is what follows them.
pub proof fn lemma_frame_roundtrip(header: Header, content: FrameContent, payload: Seq<u8>)
    requires
        frame_wf(header, content, payload),
        frame_bytes(header, content, payload).len() <= usize::MAX,
    ensures
        spec_parse_frame(frame_bytes(header, content, payload)) == Ok::<
            (Header, FrameContent, usize),
            Error,
        >(
            (
                header,
                content,
                (header_bytes(header).len() + content_bytes(content).len()) as usize,
            ),
        ),
        frame_bytes(header, content, payload).skip(
            header_bytes(header).len() + content_bytes(content).len() as int,
        ) == payload,
{
    let hb = header_bytes(header);
    let cb = content_bytes(content);
    let s = frame_bytes(header, content, payload);
    assert(s.subrange(0, hb.len() as int) =~= hb);
    lemma_header_roundtrip(header, s, 0);
    let p1 = hb.len() as int;
    assert(s.subrange(p1, p1 + cb.len()) =~= cb);
    match content {
        FrameContent::Beacon(b) => {
            lemma_beacon_roundtrip(b, s, p1);
        },
        FrameContent::Command(cmd) => {
            lemma_command_roundtrip(cmd, s, p1);
        },
        _ => {
            assert(cb =~= Seq::<u8>::empty());
        },
    }
    assert(s.skip(p1 + cb.len()) =~= payload);
}

/// Writing a well-formed frame into a buffer with room for it, then
/// decoding the bytes written, gives back its header, content and payload.
pub proof fn lemma_write_then_read(
    buf: Seq<u8>,
    header: Header,
    content: FrameContent,
    payload: Seq<u8>,
)
    requires
        frame_wf(header, content, payload),
        buf.len() >= frame_bytes(header, content, payload).len(),
        buf.len() <= usize::MAX,
    ensures
        ({
            let (written, res) = spec_frame_write(buf, header, content, payload);
            let n = frame_bytes(header, content, payload).len();
            let m = header_bytes(header).len() + content_bytes(content).len();
            &&& res == Ok::<usize, Error>(n as usize)
            &&& spec_parse_frame(written.take(n as int)) == Ok::<
                (Header, FrameContent, usize),
                Error,
            >((header, content, m as usize))
            &&& written.take(n as int).skip(m as int) == payload
        }),
{
    let fb = frame_bytes(header, content, payload);
    let hb = header_bytes(header);
    let cb = content_bytes(content);
    lemma_write_all_fits(buf, 0, header_chunks(header));
    let b1 = splice(buf, 0, hb);
    lemma_write_all_fits(b1, hb.len() as int, content_chunks(content));
    let b2 = splice(b1, hb.len() as int, cb);
    let b3 = splice(b2, (hb.len() + cb.len()) as int, payload);
    assert(b3.take(fb.len() as int) =~= fb);
    lemma_frame_roundtrip(header, content, payload);
}

/// Every frame that decoding gives is well-formed, so encoding it and
/// decoding again gives the same header, content and payload.
pub proof fn lemma_parsed_frame_wf(s: Seq<u8>)
    requires
        s.len() <= usize::MAX,
    ensures
        spec_parse_frame(s) matches Ok((h, c, n)) ==> {
            &&& frame_wf(h, c, s.skip(n as int))
            &&& frame_bytes(h, c, s.skip(n as int)).len() <= usize::MAX ==> spec_parse_frame(
                frame_bytes(h, c, s.skip(n as int)),
            ) == Ok::<(Header, FrameContent, usize), Error>(
                (h, c, (header_bytes(h).len() + content_bytes(c).len()) as usize),
            )
        },
{
    if let Ok((h, c, n)) = spec_parse_frame(s) {
        lemma_parsed_header_wf(s, 0);
        let (h0, p1) = spec_parse_header(s, 0).unwrap();
        match h.frame_type {
            FrameType::Beacon => {
                lemma_parsed_beacon_wf(s, p1 as int);
            },
            FrameType::MacCommand => {
                lemma_parsed_command_wf(s, p1 as int);
                assert(s.skip(s.len() as int) =~= Seq::<u8>::empty());
            },
            _ => {},
        }
        assert(frame_wf(h, c, s.skip(n as int)));
        if frame_bytes(h, c, s.skip(n as int)).len() <= usize::MAX {
            lemma_frame_roundtrip(h, c, s.skip(n as int));
        }
    }
}

} // verus!
