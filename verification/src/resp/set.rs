//! The set frame: a sequence of frames, unordered semantically but
//! encoded in the order given, with no dedup or sort at the wire layer.

use vstd::prelude::*;
use crate::resp::frame::{models_of, RespFrame};
use crate::resp::wire::FrameModel;

verus! {

/// A set frame, written as `~<n>\r\n<frame>*n`.
#[derive(Debug, PartialEq)]
pub struct RespSet(pub Vec<RespFrame>);

impl View for RespSet {
    type V = Seq<FrameModel>;

    open spec fn view(&self) -> Seq<FrameModel> {
        models_of(self.0@)
    }
}

impl RespSet {
    pub fn new(s: Vec<RespFrame>) -> (r: Self)
        ensures
            r@ == models_of(s@),
    {
        RespSet(s)
    }

    pub fn len(&self) -> (r: usize)
        ensures
            r == self@.len(),
    {
        proof {
            crate::resp::frame::lemma_models_of(self.0@);
        }
        self.0.len()
    }

    /// Encodes the frame: the length header, then each element in the
    /// stored order.
    pub fn encode(self) -> (r: Vec<u8>)
        ensures
            r@ == crate::resp::wire::enc(FrameModel::Members(self@)),
    {
        RespFrame::Members(self).encode()
    }
}

} // verus!
