//! The bulk-string frame: a length-prefixed, binary-safe byte string.

use vstd::prelude::*;
use vstd::slice::slice_to_vec;
use crate::resp::wire::FrameModel;
use vstd::string::StringSliceAdditionalSpecFns;

verus! {

/// A length-prefixed byte-string frame, written as `$<len>\r\n<bytes>\r\n`.
#[derive(Debug, Clone, PartialEq, Eq)]
pub struct BulkString(pub Vec<u8>);

impl View for BulkString {
    type V = Seq<u8>;

    open spec fn view(&self) -> Seq<u8> {
        self.0@
    }
}

impl BulkString {
    pub fn new(s: &str) -> (r: Self)
        ensures
            r@ == s.spec_bytes(),
    {
        BulkString(s.as_bytes_vec())
    }

    /// A bulk string holding the given bytes.
    pub fn from_bytes(b: Vec<u8>) -> (r: Self)
        ensures
            r@ == b@,
    {
        BulkString(b)
    }

    /// The payload bytes.
    pub fn as_bytes(&self) -> (r: &[u8])
        ensures
            r@ == self@,
    {
        let b: &[u8] = self.0.as_slice();
        b
    }

    pub fn len(&self) -> (r: usize)
        ensures
            r == self@.len(),
    {
        self.0.len()
    }

    /// Encodes the frame as `$<len>\r\n<bytes>\r\n`.
    pub fn encode(self) -> (r: Vec<u8>)
        ensures
            r@ == crate::resp::wire::enc(FrameModel::Bulk(self@)),
    {
        let ghost m = self@;
        let mut out: Vec<u8> = Vec::new();
        crate::resp::frame::push_header(&mut out, 36u8, self.0.len());
        let mut payload = self.0;
        out.append(&mut payload);
        out.push(13u8);
        out.push(10u8);
        proof {
            assert(out@ =~= crate::resp::wire::enc(FrameModel::Bulk(m)));
        }
        out
    }
}

} // verus!
