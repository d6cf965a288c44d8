//! The double frame: a signed decimal number carried in its textual form.
//!
//! The engine stores and moves the formatted text; turning a machine float
//! into that text is left to callers, since the formatting rules (fixed
//! versus scientific notation) are a property of the writer, not of the
//! wire grammar.

use vstd::prelude::*;
use crate::resp::wire::FrameModel;
use vstd::string::StringSliceAdditionalSpecFns;

verus! {

/// A double frame, written as `,<text>\r\n`; the text is the number's
/// rendered form, sign first.
#[derive(Debug, Clone, PartialEq, Eq)]
pub struct RespDouble(pub Vec<u8>);

impl View for RespDouble {
    type V = Seq<u8>;

    open spec fn view(&self) -> Seq<u8> {
        self.0@
    }
}

impl RespDouble {
    /// A double frame holding the given rendered text.
    pub fn new(s: &str) -> (r: Self)
        ensures
            r@ == s.spec_bytes(),
    {
        RespDouble(s.as_bytes_vec())
    }

    /// Encodes the frame as `,<text>\r\n`.
    pub fn encode(self) -> (r: Vec<u8>)
        ensures
            r@ == crate::resp::wire::enc(FrameModel::Double(self@)),
    {
        let ghost m = self@;
        let mut out: Vec<u8> = Vec::new();
        out.push(44u8);
        let mut text = self.0;
        out.append(&mut text);
        out.push(13u8);
        out.push(10u8);
        proof {
            assert(out@ =~= crate::resp::wire::enc(FrameModel::Double(m)));
        }
        out
    }
}

} // verus!
