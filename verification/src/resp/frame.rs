//! The closed set of protocol frames, their abstract values, and the
//! frame-level encode and decode entry points.

use vstd::prelude::*;
use crate::resp::array::RespArray;
use crate::resp::buf::{bm_advance, bm_bytes, bm_view};
use crate::resp::bulk_string::BulkString;
use crate::resp::double::RespDouble;
use crate::resp::map::RespMap;
use crate::resp::null::{RespNull, RespNullArray, RespNullBulkString};
use crate::resp::num::u64_to_digits;
use crate::resp::set::RespSet;
use crate::resp::simple_error::SimpleError;
use crate::resp::simple_string::SimpleString;
use crate::resp::wire::{
    crlf, dec_digits, enc, enc_all, enc_entries, int_text, FrameModel, ParseOut,
};

verus! {

broadcast use vstd::std_specs::vec::axiom_vec_decreases_to_view, vstd::std_specs::vec::axiom_vec_index_decreases;

/// A decode outcome that is not a frame: more bytes are needed, or the
/// bytes in the buffer violate the grammar.
#[derive(Debug, Clone, Copy, PartialEq, Eq)]
pub enum RespError {
    /// Not enough bytes yet; feed more bytes and retry.  Not a failure.
    NotComplete,
    /// The bytes are malformed; the stream cannot be realigned.
    InvalidFrame,
}

/// One frame of the wire protocol: a closed, tagged union of the protocol
/// value variants.  Equality is structural.
#[derive(Debug, PartialEq)]
pub enum RespFrame {
    SimpleString(SimpleString),
    SimpleError(SimpleError),
    Integer(i64),
    BulkString(BulkString),
    NullBulkString(RespNullBulkString),
    Array(RespArray),
    NullArray(RespNullArray),
    Null(RespNull),
    Boolean(bool),
    Double(RespDouble),
    Mapping(RespMap),
    Members(RespSet),
}

/// The abstract value of a frame.
pub open spec fn model_of(f: RespFrame) -> FrameModel
    decreases f,
{
    match f {
        RespFrame::SimpleString(s) => FrameModel::Simple(s.0@),
        RespFrame::SimpleError(s) => FrameModel::ErrText(s.0@),
        RespFrame::Integer(i) => FrameModel::Int(i),
        RespFrame::BulkString(b) => FrameModel::Bulk(b.0@),
        RespFrame::NullBulkString(_) => FrameModel::NullBulk,
        RespFrame::Array(a) => FrameModel::Arr(models_of(a.0@)),
        RespFrame::NullArray(_) => FrameModel::NullArr,
        RespFrame::Null(_) => FrameModel::Null,
        RespFrame::Boolean(b) => FrameModel::Bool(b),
        RespFrame::Double(d) => FrameModel::Double(d.0@),
        RespFrame::Mapping(m) => FrameModel::Entries(entry_models(m.0@)),
        RespFrame::Members(s) => FrameModel::Members(models_of(s.0@)),
    }
}

/// The abstract values of a sequence of frames, in order.
pub open spec fn models_of(v: Seq<RespFrame>) -> Seq<FrameModel>
    decreases v,
{
    if v.len() == 0 {
        Seq::empty()
    } else {
        seq![model_of(v[0])] + models_of(v.drop_first())
    }
}

/// The abstract values of a sequence of map entries, in order.
pub open spec fn entry_models(v: Seq<(String, RespFrame)>) -> Seq<(Seq<char>, FrameModel)>
    decreases v,
{
    if v.len() == 0 {
        Seq::empty()
    } else {
        seq![(v[0].0@, model_of(v[0].1))] + entry_models(v.drop_first())
    }
}

impl View for RespFrame {
    type V = FrameModel;

    open spec fn view(&self) -> FrameModel {
        model_of(*self)
    }
}

pub broadcast proof fn lemma_models_of(v: Seq<RespFrame>)
    ensures
        (#[trigger] models_of(v)).len() == v.len(),
        forall|i: int| 0 <= i < v.len() ==> models_of(v)[i] == model_of(v[i]),
    decreases v.len(),
{
    if v.len() > 0 {
        lemma_models_of(v.drop_first());
    }
}

pub broadcast proof fn lemma_entry_models(v: Seq<(String, RespFrame)>)
    ensures
        (#[trigger] entry_models(v)).len() == v.len(),
        forall|i: int|
            0 <= i < v.len() ==> entry_models(v)[i] == (v[i].0@, model_of(v[i].1)),
    decreases v.len(),
{
    if v.len() > 0 {
        lemma_entry_models(v.drop_first());
    }
}

pub proof fn lemma_enc_all_snoc(es: Seq<FrameModel>, m: FrameModel)
    ensures
        enc_all(es.push(m)) == enc_all(es) + enc(m),
    decreases es.len(),
{
    let p = es.push(m);
    assert(p.len() == es.len() + 1);
    if es.len() == 0 {
        assert(p[0] == m);
        assert(p.drop_first() =~= Seq::<FrameModel>::empty());
        assert(enc_all(p) == enc(m) + enc_all(Seq::<FrameModel>::empty()));
        assert(enc_all(Seq::<FrameModel>::empty()) =~= Seq::<u8>::empty());
        assert(enc_all(es) =~= Seq::<u8>::empty());
        assert(enc(m) + Seq::<u8>::empty() =~= Seq::<u8>::empty() + enc(m));
        assert(enc_all(p) =~= enc_all(es) + enc(m));
    } else {
        assert(p[0] == es[0]);
        assert(p.drop_first() =~= es.drop_first().push(m));
        lemma_enc_all_snoc(es.drop_first(), m);
        assert(enc_all(p) == enc(es[0]) + enc_all(es.drop_first().push(m)));
        assert(enc(es[0]) + (enc_all(es.drop_first()) + enc(m)) =~= (enc(es[0]) + enc_all(
            es.drop_first(),
        )) + enc(m));
        assert(enc_all(p) =~= enc_all(es) + enc(m));
    }
}

pub proof fn lemma_enc_entries_snoc(es: Seq<(Seq<char>, FrameModel)>, p: (Seq<char>, FrameModel))
    ensures
        enc_entries(es.push(p)) == enc_entries(es) + (seq![43u8] + vstd::utf8::encode_utf8(p.0)
            + crlf() + enc(p.1)),
    decreases es.len(),
{
    let q = es.push(p);
    let pe = seq![43u8] + vstd::utf8::encode_utf8(p.0) + crlf() + enc(p.1);
    assert(q.len() == es.len() + 1);
    if es.len() == 0 {
        assert(q[0] == p);
        assert(q.drop_first() =~= Seq::<(Seq<char>, FrameModel)>::empty());
        assert(enc_entries(q) == seq![43u8] + vstd::utf8::encode_utf8(q[0].0) + crlf() + enc(
            q[0].1,
        ) + enc_entries(q.drop_first()));
        assert(enc_entries(Seq::<(Seq<char>, FrameModel)>::empty()) =~= Seq::<u8>::empty());
        assert(enc_entries(es) =~= Seq::<u8>::empty());
        assert(enc_entries(q) =~= enc_entries(es) + pe);
    } else {
        assert(q[0] == es[0]);
        assert(q.drop_first() =~= es.drop_first().push(p));
        lemma_enc_entries_snoc(es.drop_first(), p);
        assert(enc_entries(q) =~= enc_entries(es) + pe);
    }
}

/// Appends the bytes of a slice, byte for byte.
pub(crate) fn push_bytes(out: &mut Vec<u8>, src: &[u8])
    ensures
        final(out)@ == old(out)@ + src@,
{
    let n = src.len();
    let mut i: usize = 0;
    proof {
        assert(out@ =~= old(out)@ + src@.take(0));
    }
    while i < n
        invariant
            i <= n,
            n == src@.len(),
            out@ == old(out)@ + src@.take(i as int),
        decreases n - i,
    {
        let x = src[i];
        out.push(x);
        proof {
            assert(old(out)@ + src@.take(i as int) + seq![x] =~= old(out)@ + src@.take(i + 1));
        }
        i = i + 1;
    }
    proof {
        assert(src@.take(n as int) =~= src@);
    }
}

/// Writes `<prefix><decimal length>\r\n`.
pub(crate) fn push_header(out: &mut Vec<u8>, prefix: u8, n: usize)
    ensures
        final(out)@ == old(out)@ + seq![prefix] + dec_digits(n as nat) + crlf(),
{
    out.push(prefix);
    let mut digits = u64_to_digits(n as u64);
    out.append(&mut digits);
    out.push(13u8);
    out.push(10u8);
    proof {
        assert(out@ =~= old(out)@ + seq![prefix] + dec_digits(n as nat) + crlf());
    }
}

/// Writes `<prefix><text>\r\n`.
pub(crate) fn encode_line_frame(prefix: u8, s: &String) -> (r: Vec<u8>)
    ensures
        r@ == seq![prefix] + vstd::utf8::encode_utf8(s@) + crlf(),
{
    let mut out: Vec<u8> = Vec::new();
    out.push(prefix);
    push_bytes(&mut out, s.as_str().as_bytes());
    out.push(13u8);
    out.push(10u8);
    proof {
        assert(out@ =~= seq![prefix] + vstd::utf8::encode_utf8(s@) + crlf());
    }
    out
}

/// Writes the sign and the decimal magnitude of `i`, the sign always
/// explicit.
pub(crate) fn push_int_text(out: &mut Vec<u8>, i: i64)
    ensures
        final(out)@ == old(out)@ + int_text(i as int),
{
    if i < 0 {
        out.push(45u8);
        let m: u64 = if i == i64::MIN {
            9223372036854775808u64
        } else {
            (-i) as u64
        };
        let mut digits = u64_to_digits(m);
        out.append(&mut digits);
        proof {
            assert(out@ =~= old(out)@ + int_text(i as int));
        }
    } else {
        out.push(43u8);
        let mut digits = u64_to_digits(i as u64);
        out.append(&mut digits);
        proof {
            assert(out@ =~= old(out)@ + int_text(i as int));
        }
    }
}

/// Writes the full encoding of a frame after whatever is already in `out`.
#[verifier::rlimit(80)]
pub(crate) fn encode_frame_into(f: &RespFrame, out: &mut Vec<u8>)
    ensures
        final(out)@ == old(out)@ + enc(f@),
    decreases *f,
{
    match f {
        RespFrame::SimpleString(s) => {
            out.push(43u8);
            push_bytes(out, s.0.as_str().as_bytes());
            out.push(13u8);
            out.push(10u8);
            proof {
                assert(out@ =~= old(out)@ + enc(f@));
            }
        },
        RespFrame::SimpleError(s) => {
            out.push(45u8);
            push_bytes(out, s.0.as_str().as_bytes());
            out.push(13u8);
            out.push(10u8);
            proof {
                assert(out@ =~= old(out)@ + enc(f@));
            }
        },
        RespFrame::Integer(i) => {
            out.push(58u8);
            push_int_text(out, *i);
            out.push(13u8);
            out.push(10u8);
            proof {
                assert(out@ =~= old(out)@ + enc(f@));
            }
        },
        RespFrame::BulkString(b) => {
            push_header(out, 36u8, b.0.len());
            push_bytes(out, b.0.as_slice());
            out.push(13u8);
            out.push(10u8);
            proof {
                assert(out@ =~= old(out)@ + enc(f@));
            }
        },
        RespFrame::NullBulkString(_) => {
            out.push(36u8);
            out.push(45u8);
            out.push(49u8);
            out.push(13u8);
            out.push(10u8);
            proof {
                assert(out@ =~= old(out)@ + enc(f@));
            }
        },
        RespFrame::Array(a) => {
            encode_elems(42u8, true, &a.0, out);
            proof {
                lemma_models_of(a.0@);
                assert(enc(f@) == enc(FrameModel::Arr(models_of(a.0@))));
                assert(out@ =~= old(out)@ + enc(f@));
            }
        },
        RespFrame::NullArray(_) => {
            out.push(42u8);
            out.push(45u8);
            out.push(49u8);
            out.push(13u8);
            out.push(10u8);
            proof {
                assert(out@ =~= old(out)@ + enc(f@));
            }
        },
        RespFrame::Null(_) => {
            out.push(95u8);
            out.push(13u8);
            out.push(10u8);
            proof {
                assert(out@ =~= old(out)@ + enc(f@));
            }
        },
        RespFrame::Boolean(b) => {
            out.push(35u8);
            out.push(if *b {
                116u8
            } else {
                102u8
            });
            out.push(13u8);
            out.push(10u8);
            proof {
                assert(out@ =~= old(out)@ + enc(f@));
            }
        },
        RespFrame::Double(d) => {
            out.push(44u8);
            push_bytes(out, d.0.as_slice());
            out.push(13u8);
            out.push(10u8);
            proof {
                assert(out@ =~= old(out)@ + enc(f@));
            }
        },
        RespFrame::Mapping(m) => {
            encode_entries_into(&m.0, out);
            proof {
                lemma_entry_models(m.0@);
                assert(enc(f@) == enc(FrameModel::Entries(entry_models(m.0@))));
                assert(out@ =~= old(out)@ + enc(f@));
            }
        },
        RespFrame::Members(s) => {
            encode_elems(126u8, false, &s.0, out);
            proof {
                lemma_models_of(s.0@);
                assert(enc(f@) == enc(FrameModel::Members(models_of(s.0@))));
                assert(out@ =~= old(out)@ + enc(f@));
            }
        },
    }
}

/// Writes a container frame of the given prefix: the length header, then
/// each element.  With `null_when_empty`, an empty container is written as
/// the legacy null-array marker.
pub(crate) fn encode_elems(prefix: u8, null_when_empty: bool, elems: &Vec<RespFrame>, out: &mut Vec<
    u8,
>)
    ensures
        null_when_empty && elems@.len() == 0 ==> final(out)@ == old(out)@
            + crate::resp::wire::null_array_text(),
        !(null_when_empty && elems@.len() == 0) ==> final(out)@ == old(out)@ + seq![prefix]
            + dec_digits(elems@.len() as nat) + crlf() + enc_all(models_of(elems@)),
    decreases elems@,
{
    if null_when_empty && elems.len() == 0 {
        out.push(42u8);
        out.push(45u8);
        out.push(49u8);
        out.push(13u8);
        out.push(10u8);
        proof {
            assert(out@ =~= old(out)@ + crate::resp::wire::null_array_text());
        }
        return ;
    }
    push_header(out, prefix, elems.len());
    let ghost start = out@;
    let ghost ms = models_of(elems@);
    proof {
        lemma_models_of(elems@);
        assert(enc_all(ms.take(0)) =~= Seq::<u8>::empty());
        assert(start + enc_all(ms.take(0)) =~= start);
    }
    let n = elems.len();
    let mut i: usize = 0;
    while i < n
        invariant
            n == elems.len(),
            i <= n,
            ms == models_of(elems@),
            ms.len() == n,
            forall|j: int| 0 <= j < n ==> ms[j] == model_of(elems@[j]),
            out@ == start + enc_all(ms.take(i as int)),
        decreases n - i,
    {
        encode_frame_into(&elems[i], out);
        proof {
            lemma_enc_all_snoc(ms.take(i as int), ms[i as int]);
            assert(ms.take(i as int).push(ms[i as int]) =~= ms.take(i + 1));
            assert(out@ =~= start + enc_all(ms.take(i + 1)));
        }
        i = i + 1;
    }
    proof {
        assert(ms.take(n as int) =~= ms);
    }
}

/// Writes a map frame: the length header, then each entry, the key as a
/// simple-string frame, then the value frame.
pub(crate) fn encode_entries_into(entries: &Vec<(String, RespFrame)>, out: &mut Vec<u8>)
    ensures
        final(out)@ == old(out)@ + seq![37u8] + dec_digits(entries@.len() as nat) + crlf()
            + enc_entries(entry_models(entries@)),
    decreases entries@,
{
    push_header(out, 37u8, entries.len());
    let ghost start = out@;
    let ghost ems = entry_models(entries@);
    proof {
        lemma_entry_models(entries@);
        assert(enc_entries(ems.take(0)) =~= Seq::<u8>::empty());
        assert(start + enc_entries(ems.take(0)) =~= start);
    }
    let n = entries.len();
    let mut i: usize = 0;
    while i < n
        invariant
            n == entries.len(),
            i <= n,
            ems == entry_models(entries@),
            ems.len() == n,
            forall|j: int| 0 <= j < n ==> ems[j] == (entries@[j].0@, model_of(entries@[j].1)),
            out@ == start + enc_entries(ems.take(i as int)),
        decreases n - i,
    {
        out.push(43u8);
        push_bytes(out, entries[i].0.as_str().as_bytes());
        out.push(13u8);
        out.push(10u8);
        encode_frame_into(&entries[i].1, out);
        proof {
            lemma_enc_entries_snoc(ems.take(i as int), ems[i as int]);
            assert(ems.take(i as int).push(ems[i as int]) =~= ems.take(i + 1));
            assert(out@ =~= start + enc_entries(ems.take(i + 1)));
        }
        i = i + 1;
    }
    proof {
        assert(ems.take(n as int) =~= ems);
    }
}

impl RespFrame {
    /// Encodes the frame into its canonical wire form.  Encoding is total
    /// and never fails.
    pub fn encode(self) -> (r: Vec<u8>)
        ensures
            r@ == enc(self@),
    {
        let mut out: Vec<u8> = Vec::new();
        encode_frame_into(&self, &mut out);
        out
    }

    /// Reads one frame of any variant from the front of the buffer,
    /// consuming exactly its bytes on success; on an incomplete or
    /// malformed outcome the buffer is unchanged.
    pub fn decode(buf: &mut bytes::BytesMut) -> (r: Result<Self, RespError>)
        ensures
            ({
                let b = bm_view(*old(buf));
                match crate::resp::wire::spec_parse(b) {
                    ParseOut::Incomplete => r == Err::<RespFrame, RespError>(
                        RespError::NotComplete,
                    ) && bm_view(*final(buf)) == b,
                    ParseOut::Bad => r == Err::<RespFrame, RespError>(RespError::InvalidFrame)
                        && bm_view(*final(buf)) == b,
                    ParseOut::Val(m, c) => r matches Ok(f) && f@ == m && bm_view(*final(buf)) == b.skip(
                        c,
                    ),
                }
            }),
    {
        proof {
            assert(bm_view(*old(buf)).skip(0) =~= bm_view(*old(buf)));
        }
        let (f, end) = match crate::resp::decode::parse_at(bm_bytes(buf), 0) {
            Ok(p) => p,
            Err(e) => {
                return Err(e);
            },
        };
        bm_advance(buf, end);
        Ok(f)
    }

    /// The total byte length of the frame at the front of the buffer,
    /// under the same incomplete and malformed outcomes as `decode`,
    /// without consuming anything.
    pub fn expect_length(buf: &[u8]) -> (r: Result<usize, RespError>)
        ensures
            ({
                match crate::resp::wire::spec_parse(buf@) {
                    ParseOut::Incomplete => r == Err::<usize, RespError>(RespError::NotComplete),
                    ParseOut::Bad => r == Err::<usize, RespError>(RespError::InvalidFrame),
                    ParseOut::Val(m, c) => r == Ok::<usize, RespError>(c as usize),
                }
            }),
    {
        proof {
            assert(buf@.skip(0) =~= buf@);
        }
        match crate::resp::decode::parse_at(buf, 0) {
            Ok((_, end)) => Ok(end),
            Err(e) => Err(e),
        }
    }
}

/// A structural copy of a frame; the copy has the same abstract value.
pub(crate) fn clone_frame(f: &RespFrame) -> (r: RespFrame)
    ensures
        r@ == f@,
    decreases *f,
{
    match f {
        RespFrame::SimpleString(s) => RespFrame::SimpleString(SimpleString(s.0.clone())),
        RespFrame::SimpleError(s) => RespFrame::SimpleError(SimpleError(s.0.clone())),
        RespFrame::Integer(i) => RespFrame::Integer(*i),
        RespFrame::BulkString(b) => RespFrame::BulkString(
            BulkString(vstd::slice::slice_to_vec(b.0.as_slice())),
        ),
        RespFrame::NullBulkString(_) => RespFrame::NullBulkString(RespNullBulkString),
        RespFrame::Array(a) => RespFrame::Array(RespArray(clone_frames(&a.0))),
        RespFrame::NullArray(_) => RespFrame::NullArray(RespNullArray),
        RespFrame::Null(_) => RespFrame::Null(RespNull),
        RespFrame::Boolean(b) => RespFrame::Boolean(*b),
        RespFrame::Double(d) => RespFrame::Double(
            RespDouble(vstd::slice::slice_to_vec(d.0.as_slice())),
        ),
        RespFrame::Mapping(m) => RespFrame::Mapping(RespMap(clone_entries(&m.0))),
        RespFrame::Members(s) => RespFrame::Members(RespSet(clone_frames(&s.0))),
    }
}

pub(crate) fn clone_frames(v: &Vec<RespFrame>) -> (r: Vec<RespFrame>)
    ensures
        models_of(r@) == models_of(v@),
    decreases v@,
{
    let mut out: Vec<RespFrame> = Vec::new();
    let n = v.len();
    let mut i: usize = 0;
    proof {
        lemma_models_of(v@);
    }
    while i < n
        invariant
            i <= n,
            n == v@.len(),
            models_of(out@).len() == i,
            forall|j: int| 0 <= j < n ==> models_of(v@)[j] == model_of(v@[j]),
            models_of(out@) == models_of(v@).take(i as int),
        decreases n - i,
    {
        let f = clone_frame(&v[i]);
        let ghost fm = f@;
        let ghost gf = f;
        let ghost oldout = out@;
        out.push(f);
        proof {
            lemma_models_of(v@);
            lemma_models_of(oldout);
            lemma_models_of(out@);
            assert(out@ == oldout.push(gf));
            assert forall|j: int| 0 <= j < i + 1 implies models_of(out@)[j] == models_of(
                v@,
            ).take(i + 1)[j] by {
                assert(models_of(out@)[j] == model_of(out@[j]));
                assert(models_of(v@).take(i + 1)[j] == models_of(v@)[j]);
                assert(models_of(v@)[j] == model_of(v@[j]));
                if j < i {
                    assert(out@[j] == oldout[j]);
                    assert(models_of(oldout)[j] == model_of(oldout[j]));
                    assert(models_of(oldout)[j] == models_of(v@).take(i as int)[j]);
                    assert(models_of(v@).take(i as int)[j] == models_of(v@)[j]);
                } else {
                    assert(out@[j] == gf);
                    assert(model_of(gf) == fm);
                    assert(fm == model_of(v@[j]));
                }
            }
            assert(models_of(out@) =~= models_of(v@).take(i + 1));
        }
        i = i + 1;
    }
    proof {
        assert(models_of(v@).take(n as int) =~= models_of(v@));
    }
    out
}

pub(crate) fn clone_entries(v: &Vec<(String, RespFrame)>) -> (r: Vec<(String, RespFrame)>)
    ensures
        entry_models(r@) == entry_models(v@),
    decreases v@,
{
    let mut out: Vec<(String, RespFrame)> = Vec::new();
    let n = v.len();
    let mut i: usize = 0;
    proof {
        lemma_entry_models(v@);
    }
    while i < n
        invariant
            i <= n,
            n == v@.len(),
            entry_models(out@).len() == i,
            forall|j: int|
                0 <= j < n ==> entry_models(v@)[j] == (v@[j].0@, model_of(v@[j].1)),
            entry_models(out@) == entry_models(v@).take(i as int),
        decreases n - i,
    {
        let k = v[i].0.clone();
        let f = clone_frame(&v[i].1);
        let ghost oldout = out@;
        let pair = (k, f);
        let ghost gp = pair;
        out.push(pair);
        proof {
            lemma_entry_models(v@);
            lemma_entry_models(oldout);
            lemma_entry_models(out@);
            assert(out@ == oldout.push(gp));
            assert forall|j: int| 0 <= j < i + 1 implies entry_models(out@)[j] == entry_models(
                v@,
            ).take(i + 1)[j] by {
                assert(entry_models(out@)[j] == (out@[j].0@, model_of(out@[j].1)));
                assert(entry_models(v@).take(i + 1)[j] == entry_models(v@)[j]);
                assert(entry_models(v@)[j] == (v@[j].0@, model_of(v@[j].1)));
                if j < i {
                    assert(out@[j] == oldout[j]);
                    assert(entry_models(oldout)[j] == (oldout[j].0@, model_of(oldout[j].1)));
                    assert(entry_models(oldout)[j] == entry_models(v@).take(i as int)[j]);
                    assert(entry_models(v@).take(i as int)[j] == entry_models(v@)[j]);
                } else {
                    assert(out@[j] == gp);
                    assert(gp.0@ == v@[j].0@);
                    assert(model_of(gp.1) == model_of(v@[j].1));
                }
            }
            assert(entry_models(out@) =~= entry_models(v@).take(i + 1));
        }
        i = i + 1;
    }
    proof {
        assert(entry_models(v@).take(n as int) =~= entry_models(v@));
    }
    out
}

impl Clone for RespFrame {
    /// The copy has the same abstract value.
    fn clone(&self) -> (r: Self)
        ensures
            r@ == self@,
    {
        clone_frame(self)
    }
}

impl Clone for RespArray {
    /// The copy has the same abstract value.
    fn clone(&self) -> (r: Self)
        ensures
            r@ == self@,
    {
        RespArray(clone_frames(&self.0))
    }
}

impl Clone for RespMap {
    /// The copy has the same abstract value.
    fn clone(&self) -> (r: Self)
        ensures
            r@ == self@,
    {
        RespMap(clone_entries(&self.0))
    }
}

impl Clone for RespSet {
    /// The copy has the same abstract value.
    fn clone(&self) -> (r: Self)
        ensures
            r@ == self@,
    {
        RespSet(clone_frames(&self.0))
    }
}

impl From<SimpleString> for RespFrame {
    fn from(v: SimpleString) -> (r: RespFrame) {
        RespFrame::SimpleString(v)
    }
}

impl vstd::std_specs::convert::FromSpecImpl<SimpleString> for RespFrame {
    open spec fn obeys_from_spec() -> bool {
        true
    }

    open spec fn from_spec(v: SimpleString) -> RespFrame {
        RespFrame::SimpleString(v)
    }
}

impl From<SimpleError> for RespFrame {
    fn from(v: SimpleError) -> (r: RespFrame) {
        RespFrame::SimpleError(v)
    }
}

impl vstd::std_specs::convert::FromSpecImpl<SimpleError> for RespFrame {
    open spec fn obeys_from_spec() -> bool {
        true
    }

    open spec fn from_spec(v: SimpleError) -> RespFrame {
        RespFrame::SimpleError(v)
    }
}

impl From<i64> for RespFrame {
    fn from(v: i64) -> (r: RespFrame) {
        RespFrame::Integer(v)
    }
}

impl vstd::std_specs::convert::FromSpecImpl<i64> for RespFrame {
    open spec fn obeys_from_spec() -> bool {
        true
    }

    open spec fn from_spec(v: i64) -> RespFrame {
        RespFrame::Integer(v)
    }
}

impl From<bool> for RespFrame {
    fn from(v: bool) -> (r: RespFrame) {
        RespFrame::Boolean(v)
    }
}

impl vstd::std_specs::convert::FromSpecImpl<bool> for RespFrame {
    open spec fn obeys_from_spec() -> bool {
        true
    }

    open spec fn from_spec(v: bool) -> RespFrame {
        RespFrame::Boolean(v)
    }
}

impl From<BulkString> for RespFrame {
    fn from(v: BulkString) -> (r: RespFrame) {
        RespFrame::BulkString(v)
    }
}

impl vstd::std_specs::convert::FromSpecImpl<BulkString> for RespFrame {
    open spec fn obeys_from_spec() -> bool {
        true
    }

    open spec fn from_spec(v: BulkString) -> RespFrame {
        RespFrame::BulkString(v)
    }
}

impl From<RespNullBulkString> for RespFrame {
    fn from(v: RespNullBulkString) -> (r: RespFrame) {
        RespFrame::NullBulkString(v)
    }
}

impl vstd::std_specs::convert::FromSpecImpl<RespNullBulkString> for RespFrame {
    open spec fn obeys_from_spec() -> bool {
        true
    }

    open spec fn from_spec(v: RespNullBulkString) -> RespFrame {
        RespFrame::NullBulkString(v)
    }
}

impl From<RespArray> for RespFrame {
    fn from(v: RespArray) -> (r: RespFrame) {
        RespFrame::Array(v)
    }
}

impl vstd::std_specs::convert::FromSpecImpl<RespArray> for RespFrame {
    open spec fn obeys_from_spec() -> bool {
        true
    }

    open spec fn from_spec(v: RespArray) -> RespFrame {
        RespFrame::Array(v)
    }
}

impl From<RespNullArray> for RespFrame {
    fn from(v: RespNullArray) -> (r: RespFrame) {
        RespFrame::NullArray(v)
    }
}

impl vstd::std_specs::convert::FromSpecImpl<RespNullArray> for RespFrame {
    open spec fn obeys_from_spec() -> bool {
        true
    }

    open spec fn from_spec(v: RespNullArray) -> RespFrame {
        RespFrame::NullArray(v)
    }
}

impl From<RespNull> for RespFrame {
    fn from(v: RespNull) -> (r: RespFrame) {
        RespFrame::Null(v)
    }
}

impl vstd::std_specs::convert::FromSpecImpl<RespNull> for RespFrame {
    open spec fn obeys_from_spec() -> bool {
        true
    }

    open spec fn from_spec(v: RespNull) -> RespFrame {
        RespFrame::Null(v)
    }
}

impl From<RespDouble> for RespFrame {
    fn from(v: RespDouble) -> (r: RespFrame) {
        RespFrame::Double(v)
    }
}

impl vstd::std_specs::convert::FromSpecImpl<RespDouble> for RespFrame {
    open spec fn obeys_from_spec() -> bool {
        true
    }

    open spec fn from_spec(v: RespDouble) -> RespFrame {
        RespFrame::Double(v)
    }
}

impl From<RespMap> for RespFrame {
    fn from(v: RespMap) -> (r: RespFrame) {
        RespFrame::Mapping(v)
    }
}

impl vstd::std_specs::convert::FromSpecImpl<RespMap> for RespFrame {
    open spec fn obeys_from_spec() -> bool {
        true
    }

    open spec fn from_spec(v: RespMap) -> RespFrame {
        RespFrame::Mapping(v)
    }
}

impl From<RespSet> for RespFrame {
    fn from(v: RespSet) -> (r: RespFrame) {
        RespFrame::Members(v)
    }
}

impl vstd::std_specs::convert::FromSpecImpl<RespSet> for RespFrame {
    open spec fn obeys_from_spec() -> bool {
        true
    }

    open spec fn from_spec(v: RespSet) -> RespFrame {
        RespFrame::Members(v)
    }
}

} // verus!
