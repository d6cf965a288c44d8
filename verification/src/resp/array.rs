//! The array frame: an ordered sequence of frames.  An empty array and the
//! legacy null array share one wire form, `*-1\r\n`.

use vstd::prelude::*;
use crate::resp::buf::{bm_advance, bm_bytes, bm_view};
use crate::resp::frame::{models_of, RespError, RespFrame};
use crate::resp::wire::{spec_parse, FrameModel, ParseOut};

verus! {

/// An array frame, written as `*<n>\r\n<frame>*n`, or `*-1\r\n` when empty.
#[derive(Debug, PartialEq)]
pub struct RespArray(pub Vec<RespFrame>);

impl View for RespArray {
    type V = Seq<FrameModel>;

    open spec fn view(&self) -> Seq<FrameModel> {
        models_of(self.0@)
    }
}

impl RespArray {
    pub fn new(s: Vec<RespFrame>) -> (r: Self)
        ensures
            r@ == models_of(s@),
    {
        RespArray(s)
    }

    /// The empty array, which doubles as the decoded form of the legacy
    /// null array.
    pub fn null() -> (r: Self)
        ensures
            r@ == Seq::<FrameModel>::empty(),
    {
        RespArray(Vec::new())
    }

    /// Whether the array is the null (empty) array.
    pub fn is_null(&self) -> (r: bool)
        ensures
            r == (self@.len() == 0),
    {
        proof {
            crate::resp::frame::lemma_models_of(self.0@);
        }
        self.0.is_empty()
    }

    pub fn len(&self) -> (r: usize)
        ensures
            r == self@.len(),
    {
        proof {
            crate::resp::frame::lemma_models_of(self.0@);
        }
        self.0.len()
    }

    /// A borrow of the element at `i`.
    pub fn get(&self, i: usize) -> (r: &RespFrame)
        requires
            i < self@.len(),
        ensures
            r@ == self@[i as int],
    {
        proof {
            crate::resp::frame::lemma_models_of(self.0@);
        }
        &self.0[i]
    }

    /// Consumes the array, handing out its elements.
    pub fn into_vec(self) -> (r: Vec<RespFrame>)
        ensures
            models_of(r@) == self@,
    {
        self.0
    }

    /// Encodes the frame: `*-1\r\n` when empty, else the length header and
    /// each element in order.
    pub fn encode(self) -> (r: Vec<u8>)
        ensures
            r@ == crate::resp::wire::enc(FrameModel::Arr(self@)),
    {
        RespFrame::Array(self).encode()
    }

    /// Reads one array frame from the front of the buffer, consuming its
    /// bytes; a frame of another variant is malformed here and consumes
    /// nothing.
    pub fn decode(buf: &mut bytes::BytesMut) -> (r: Result<Self, RespError>)
        ensures
            decode_array_post(old(buf), final(buf), r),
    {
        let b = bm_bytes(buf);
        if b.len() == 0 {
            return Err(RespError::NotComplete);
        }
        if b[0] != 42u8 {
            return Err(RespError::InvalidFrame);
        }
        proof {
            assert(bm_view(*old(buf)).skip(0) =~= bm_view(*old(buf)));
        }
        let (f, end) = match crate::resp::decode::parse_at(b, 0) {
            Ok(p) => p,
            Err(e) => {
                return Err(e);
            },
        };
        bm_advance(buf, end);
        match f {
            RespFrame::Array(a) => Ok(a),
            _ => {
                proof {
                    assert(false);
                }
                Err(RespError::InvalidFrame)
            },
        }
    }

    /// The total byte length of the array frame at the front of the
    /// buffer, without consuming anything.
    pub fn expect_length(buf: &[u8]) -> (r: Result<usize, RespError>)
        ensures
            expect_variant_post(buf@, r, 42u8),
    {
        if buf.len() == 0 {
            return Err(RespError::NotComplete);
        }
        if buf[0] != 42u8 {
            return Err(RespError::InvalidFrame);
        }
        proof {
            assert(buf@.skip(0) =~= buf@);
        }
        match crate::resp::decode::parse_at(buf, 0) {
            Ok((_, end)) => Ok(end),
            Err(e) => Err(e),
        }
    }
}

/// What decoding an array frame does: an empty buffer is incomplete,
/// another leading prefix byte malformed, and otherwise the outcome of
/// the frame grammar, consuming the frame's bytes exactly on success.
pub open spec fn decode_array_post(
    pre: &bytes::BytesMut,
    post: &bytes::BytesMut,
    r: Result<RespArray, RespError>,
) -> bool {
    let b = bm_view(*pre);
    if b.len() == 0 {
        r == Err::<RespArray, RespError>(RespError::NotComplete) && bm_view(*post) == b
    } else if b[0] != 42u8 {
        r == Err::<RespArray, RespError>(RespError::InvalidFrame) && bm_view(*post) == b
    } else {
        match spec_parse(b) {
            ParseOut::Incomplete => r == Err::<RespArray, RespError>(RespError::NotComplete)
                && bm_view(*post) == b,
            ParseOut::Bad => r == Err::<RespArray, RespError>(RespError::InvalidFrame) && bm_view(
                *post,
            ) == b,
            ParseOut::Val(m, c) => r matches Ok(v) && m == FrameModel::Arr(v@) && bm_view(*post)
                == b.skip(c),
        }
    }
}

/// What probing one particular frame variant's length reports.
pub open spec fn expect_variant_post(
    b: Seq<u8>,
    r: Result<usize, RespError>,
    prefix: u8,
) -> bool {
    if b.len() == 0 {
        r == Err::<usize, RespError>(RespError::NotComplete)
    } else if b[0] != prefix {
        r == Err::<usize, RespError>(RespError::InvalidFrame)
    } else {
        match spec_parse(b) {
            ParseOut::Incomplete => r == Err::<usize, RespError>(RespError::NotComplete),
            ParseOut::Bad => r == Err::<usize, RespError>(RespError::InvalidFrame),
            ParseOut::Val(m, c) => r == Ok::<usize, RespError>(c as usize),
        }
    }
}

} // verus!
