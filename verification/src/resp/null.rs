//! The null frames: the explicit null marker and the two legacy
//! encode-only absent markers.

use vstd::prelude::*;
use crate::resp::buf::{bm_advance, bm_bytes};
use crate::resp::frame::RespError;
use crate::resp::wire::{null_text, parse_fixed, FrameModel, ParseOut};

verus! {

/// The explicit null frame, written as `_\r\n`.
#[derive(Debug, Clone, PartialEq, Eq)]
pub struct RespNull;

/// The legacy null-array marker, written as `*-1\r\n`; its wire form reads
/// back as an empty array.
#[derive(Debug, Clone, PartialEq, Eq)]
pub struct RespNullArray;

/// The legacy null-bulk-string marker, written as `$-1\r\n`.
#[derive(Debug, Clone, PartialEq, Eq)]
pub struct RespNullBulkString;

impl RespNull {
    /// Encodes the frame as `_\r\n`.
    pub fn encode(self) -> (r: Vec<u8>)
        ensures
            r@ == crate::resp::wire::enc(FrameModel::Null),
    {
        let mut out: Vec<u8> = Vec::new();
        out.push(95u8);
        out.push(13u8);
        out.push(10u8);
        proof {
            assert(out@ =~= null_text());
        }
        out
    }

    /// Reads the null frame from the front of the buffer, consuming its
    /// three bytes; on any other outcome the buffer is unchanged.
    pub fn decode(buf: &mut bytes::BytesMut) -> (r: Result<Self, RespError>)
        ensures
            ({
                let b = crate::resp::buf::bm_view(*old(buf));
                match parse_fixed(b, null_text()) {
                    ParseOut::Incomplete => r == Err::<RespNull, RespError>(RespError::NotComplete)
                        && crate::resp::buf::bm_view(*final(buf)) == b,
                    ParseOut::Bad => r == Err::<RespNull, RespError>(RespError::InvalidFrame)
                        && crate::resp::buf::bm_view(*final(buf)) == b,
                    ParseOut::Val(m, c) => r == Ok::<RespNull, RespError>(RespNull)
                        && crate::resp::buf::bm_view(*final(buf)) == b.skip(c),
                }
            }),
    {
        let b = bm_bytes(buf);
        if b.len() < 3 {
            return Err(RespError::NotComplete);
        }
        if b[0] == 95u8 && b[1] == 13u8 && b[2] == 10u8 {
            proof {
                assert(b@.subrange(0, 3) =~= null_text());
            }
            bm_advance(buf, 3);
            Ok(RespNull)
        } else {
            proof {
                assert(b@.subrange(0, 3) != null_text());
            }
            Err(RespError::InvalidFrame)
        }
    }

    /// The total byte length of the null frame at the front of the buffer.
    pub fn expect_length(buf: &[u8]) -> (r: Result<usize, RespError>)
        ensures
            ({
                match parse_fixed(buf@, null_text()) {
                    ParseOut::Incomplete => r == Err::<usize, RespError>(RespError::NotComplete),
                    ParseOut::Bad => r == Err::<usize, RespError>(RespError::InvalidFrame),
                    ParseOut::Val(m, c) => r == Ok::<usize, RespError>(3),
                }
            }),
    {
        if buf.len() < 3 {
            return Err(RespError::NotComplete);
        }
        if buf[0] == 95u8 && buf[1] == 13u8 && buf[2] == 10u8 {
            proof {
                assert(buf@.subrange(0, 3) =~= null_text());
            }
            Ok(3)
        } else {
            proof {
                assert(buf@.subrange(0, 3) != null_text());
            }
            Err(RespError::InvalidFrame)
        }
    }
}

impl RespNullArray {
    /// Encodes the marker as `*-1\r\n`.
    pub fn encode(self) -> (r: Vec<u8>)
        ensures
            r@ == crate::resp::wire::enc(FrameModel::NullArr),
    {
        let mut out: Vec<u8> = Vec::new();
        out.push(42u8);
        out.push(45u8);
        out.push(49u8);
        out.push(13u8);
        out.push(10u8);
        proof {
            assert(out@ =~= crate::resp::wire::null_array_text());
        }
        out
    }
}

impl RespNullBulkString {
    /// Encodes the marker as `$-1\r\n`.
    pub fn encode(self) -> (r: Vec<u8>)
        ensures
            r@ == crate::resp::wire::enc(FrameModel::NullBulk),
    {
        let mut out: Vec<u8> = Vec::new();
        out.push(36u8);
        out.push(45u8);
        out.push(49u8);
        out.push(13u8);
        out.push(10u8);
        proof {
            assert(out@ =~= crate::resp::wire::null_bulk_text());
        }
        out
    }
}

} // verus!
