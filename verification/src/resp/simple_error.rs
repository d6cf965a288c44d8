//! The simple-error frame: one line of text carried as an error.

use vstd::prelude::*;
use crate::resp::buf::{bm_advance, bm_bytes};
use crate::resp::decode::line_decode;
use crate::resp::frame::RespError;
use crate::resp::simple_string::{decode_line_post, expect_line_post};

verus! {

/// A single-line error frame, written as `-<text>\r\n`.
#[derive(Debug, Clone, PartialEq, Eq)]
pub struct SimpleError(pub String);

impl View for SimpleError {
    type V = Seq<char>;

    open spec fn view(&self) -> Seq<char> {
        self.0@
    }
}

impl SimpleError {
    pub fn new(s: &str) -> (r: Self)
        ensures
            r@ == s@,
    {
        SimpleError(s.to_owned())
    }

    /// The text of the frame.
    pub fn as_str(&self) -> (r: &str)
        ensures
            r@ == self@,
    {
        self.0.as_str()
    }

    /// Encodes the frame as `-<text>\r\n`.
    pub fn encode(self) -> (r: Vec<u8>)
        ensures
            r@ == crate::resp::wire::enc(crate::resp::wire::FrameModel::ErrText(self@)),
    {
        crate::resp::frame::encode_line_frame(45u8, &self.0)
    }

    /// Reads one simple-error frame from the front of the buffer,
    /// consuming its bytes; on any other outcome the buffer is unchanged.
    pub fn decode(buf: &mut bytes::BytesMut) -> (r: Result<Self, RespError>)
        ensures
            decode_line_post(old(buf), final(buf), r, 45u8),
    {
        let (s, c) = match line_decode(bm_bytes(buf), 45u8) {
            Ok(p) => p,
            Err(e) => {
                return Err(e);
            },
        };
        bm_advance(buf, c);
        Ok(SimpleError(s))
    }

    /// The total byte length of the simple-error frame at the front of
    /// the buffer, without consuming anything.
    pub fn expect_length(buf: &[u8]) -> (r: Result<usize, RespError>)
        ensures
            expect_line_post(buf@, r, 45u8),
    {
        match line_decode(buf, 45u8) {
            Ok((_, c)) => Ok(c),
            Err(e) => Err(e),
        }
    }
}

} // verus!
