//! The simple-string frame: one line of text.

use vstd::prelude::*;
use crate::resp::buf::{bm_advance, bm_bytes};
use crate::resp::decode::line_decode;
use crate::resp::frame::RespError;
use crate::resp::wire::{chars_of, parse_text_line, LineOut};

verus! {

/// A single-line text frame, written as `+<text>\r\n`.
#[derive(Debug, Clone, PartialEq, Eq)]
pub struct SimpleString(pub String);

impl View for SimpleString {
    type V = Seq<char>;

    open spec fn view(&self) -> Seq<char> {
        self.0@
    }
}

impl SimpleString {
    pub fn new(s: &str) -> (r: Self)
        ensures
            r@ == s@,
    {
        SimpleString(s.to_owned())
    }

    /// The text of the frame.
    pub fn as_str(&self) -> (r: &str)
        ensures
            r@ == self@,
    {
        self.0.as_str()
    }

    /// Encodes the frame as `+<text>\r\n`.
    pub fn encode(self) -> (r: Vec<u8>)
        ensures
            r@ == crate::resp::wire::enc(crate::resp::wire::FrameModel::Simple(self@)),
    {
        crate::resp::frame::encode_line_frame(43u8, &self.0)
    }

    /// Reads one simple-string frame from the front of the buffer,
    /// consuming its bytes; on any other outcome the buffer is unchanged.
    pub fn decode(buf: &mut bytes::BytesMut) -> (r: Result<Self, RespError>)
        ensures
            decode_line_post(old(buf), final(buf), r, 43u8),
    {
        let (s, c) = match line_decode(bm_bytes(buf), 43u8) {
            Ok(p) => p,
            Err(e) => {
                return Err(e);
            },
        };
        bm_advance(buf, c);
        Ok(SimpleString(s))
    }

    /// The total byte length of the simple-string frame at the front of
    /// the buffer, under the same incomplete and malformed outcomes as
    /// `decode`, without consuming anything.
    pub fn expect_length(buf: &[u8]) -> (r: Result<usize, RespError>)
        ensures
            expect_line_post(buf@, r, 43u8),
    {
        match line_decode(buf, 43u8) {
            Ok((_, c)) => Ok(c),
            Err(e) => Err(e),
        }
    }
}

/// What decoding a line frame with the given prefix does: on success the
/// text before the first CRLF is taken and exactly the line's bytes are
/// consumed; otherwise the buffer is untouched and the outcome mirrors
/// the grammar.
pub open spec fn decode_line_post<T: View<V = Seq<char>>>(
    pre: &bytes::BytesMut,
    post: &bytes::BytesMut,
    r: Result<T, RespError>,
    prefix: u8,
) -> bool {
    let b = crate::resp::buf::bm_view(*pre);
    match parse_text_line(b, prefix) {
        LineOut::Incomplete => r == Err::<T, RespError>(RespError::NotComplete)
            && crate::resp::buf::bm_view(*post) == b,
        LineOut::Bad => r == Err::<T, RespError>(RespError::InvalidFrame)
            && crate::resp::buf::bm_view(*post) == b,
        LineOut::Val(t, c) => r matches Ok(v) && v@ == chars_of(t)
            && crate::resp::buf::bm_view(*post) == b.skip(c),
    }
}

/// What probing a line frame's length reports, the buffer untouched.
pub open spec fn expect_line_post(b: Seq<u8>, r: Result<usize, RespError>, prefix: u8) -> bool {
    match parse_text_line(b, prefix) {
        LineOut::Incomplete => r == Err::<usize, RespError>(RespError::NotComplete),
        LineOut::Bad => r == Err::<usize, RespError>(RespError::InvalidFrame),
        LineOut::Val(t, c) => r == Ok::<usize, RespError>(c as usize),
    }
}

} // verus!
