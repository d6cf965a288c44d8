//! The mathematical model of the wire grammar: the abstract value of a frame,
//! the byte sequence a frame encodes to, and the outcome of reading a frame
//! from the front of a byte sequence.

use vstd::prelude::*;
use vstd::utf8::{decode_utf8, encode_utf8, valid_utf8};
use crate::resp::unicode::utf8_lossy;

verus! {

/// The abstract value of one protocol frame.  Container frames hold the
/// abstract values of their elements; text payloads are character sequences,
/// binary payloads byte sequences.  A map frame holds its entries in the
/// order the map stores them, which is ascending key order.
pub enum FrameModel {
    Simple(Seq<char>),
    ErrText(Seq<char>),
    Int(i64),
    Bulk(Seq<u8>),
    NullBulk,
    Arr(Seq<FrameModel>),
    NullArr,
    Null,
    Bool(bool),
    Double(Seq<u8>),
    Entries(Seq<(Seq<char>, FrameModel)>),
    Members(Seq<FrameModel>),
}

pub open spec fn crlf() -> Seq<u8> {
    seq![13u8, 10u8]
}

pub open spec fn null_bulk_text() -> Seq<u8> {
    // "$-1\r\n"
    seq![36u8, 45u8, 49u8, 13u8, 10u8]
}

pub open spec fn null_array_text() -> Seq<u8> {
    // "*-1\r\n"
    seq![42u8, 45u8, 49u8, 13u8, 10u8]
}

pub open spec fn null_text() -> Seq<u8> {
    // "_\r\n"
    seq![95u8, 13u8, 10u8]
}

/// The canonical decimal digits of a natural number, most significant first.
pub open spec fn dec_digits(n: nat) -> Seq<u8>
    decreases n,
{
    if n < 10 {
        seq![(48 + n) as u8]
    } else {
        dec_digits(n / 10).push((48 + n % 10) as u8)
    }
}

/// The signed decimal text of an integer, the sign always explicit.
pub open spec fn int_text(i: int) -> Seq<u8> {
    if i < 0 {
        seq![45u8] + dec_digits((-i) as nat)
    } else {
        seq![43u8] + dec_digits(i as nat)
    }
}

/// No carriage-return byte directly followed by a line-feed byte.
pub open spec fn no_crlf(b: Seq<u8>) -> bool {
    forall|i: int| 0 <= i && i + 1 < b.len() ==> !((#[trigger] b[i]) == 13u8 && b[i + 1] == 10u8)
}

/// Strict lexicographic order on byte sequences.
pub open spec fn lex_lt(a: Seq<u8>, b: Seq<u8>) -> bool
    decreases a.len(),
{
    if b.len() == 0 {
        false
    } else if a.len() == 0 {
        true
    } else if a[0] < b[0] {
        true
    } else if a[0] > b[0] {
        false
    } else {
        lex_lt(a.drop_first(), b.drop_first())
    }
}

/// The bytes a map key is compared and written by.
pub open spec fn key_bytes(k: Seq<char>) -> Seq<u8> {
    encode_utf8(k)
}

/// Map entries carry strictly ascending keys.
pub open spec fn entries_sorted(es: Seq<(Seq<char>, FrameModel)>) -> bool {
    forall|i: int, j: int|
        0 <= i < j < es.len() ==> lex_lt(key_bytes(es[i].0), key_bytes(es[j].0))
}

/// The exact byte sequence a frame encodes to.  Encoding is total: every
/// frame value has a wire form.  An empty array is written as the legacy
/// null-array marker, as is the explicit null-array frame.
pub open spec fn enc(m: FrameModel) -> Seq<u8>
    decreases m,
{
    match m {
        FrameModel::Simple(s) => seq![43u8] + encode_utf8(s) + crlf(),
        FrameModel::ErrText(s) => seq![45u8] + encode_utf8(s) + crlf(),
        FrameModel::Int(i) => seq![58u8] + int_text(i as int) + crlf(),
        FrameModel::Bulk(p) => seq![36u8] + dec_digits(p.len()) + crlf() + p + crlf(),
        FrameModel::NullBulk => null_bulk_text(),
        FrameModel::Arr(es) => if es.len() == 0 {
            null_array_text()
        } else {
            seq![42u8] + dec_digits(es.len()) + crlf() + enc_all(es)
        },
        FrameModel::NullArr => null_array_text(),
        FrameModel::Null => null_text(),
        FrameModel::Bool(b) => seq![35u8, if b { 116u8 } else { 102u8 }, 13u8, 10u8],
        FrameModel::Double(t) => seq![44u8] + t + crlf(),
        FrameModel::Entries(es) => seq![37u8] + dec_digits(es.len()) + crlf() + enc_entries(es),
        FrameModel::Members(es) => seq![126u8] + dec_digits(es.len()) + crlf() + enc_all(es),
    }
}

/// The concatenation of the encodings of a sequence of frames.
pub open spec fn enc_all(es: Seq<FrameModel>) -> Seq<u8>
    decreases es,
{
    if es.len() == 0 {
        Seq::empty()
    } else {
        enc(es[0]) + enc_all(es.drop_first())
    }
}

/// The concatenation of the encodings of map entries: each key as a
/// simple-string frame, then the value frame.
pub open spec fn enc_entries(es: Seq<(Seq<char>, FrameModel)>) -> Seq<u8>
    decreases es,
{
    if es.len() == 0 {
        Seq::empty()
    } else {
        seq![43u8] + encode_utf8(es[0].0) + crlf() + enc(es[0].1) + enc_entries(es.drop_first())
    }
}

/// The legal payloads: frames whose encoding reads back as the same value.
/// Text lines must not contain a CRLF pair; the explicit null-array marker
/// is excluded, since its wire form reads back as an empty array.
pub open spec fn wf(m: FrameModel) -> bool
    decreases m,
{
    match m {
        FrameModel::Simple(s) => no_crlf(encode_utf8(s)),
        FrameModel::ErrText(s) => no_crlf(encode_utf8(s)),
        FrameModel::Int(_) => true,
        FrameModel::Bulk(p) => p.len() <= usize::MAX,
        FrameModel::NullBulk => true,
        FrameModel::Arr(es) => es.len() <= usize::MAX && wf_all(es),
        FrameModel::NullArr => false,
        FrameModel::Null => true,
        FrameModel::Bool(_) => true,
        FrameModel::Double(t) => no_crlf(t),
        FrameModel::Entries(es) => es.len() <= usize::MAX && entries_sorted(es)
            && wf_entries(es),
        FrameModel::Members(es) => es.len() <= usize::MAX && wf_all(es),
    }
}

pub open spec fn wf_all(es: Seq<FrameModel>) -> bool
    decreases es,
{
    if es.len() == 0 {
        true
    } else {
        wf(es[0]) && wf_all(es.drop_first())
    }
}

pub open spec fn wf_entries(es: Seq<(Seq<char>, FrameModel)>) -> bool
    decreases es,
{
    if es.len() == 0 {
        true
    } else {
        no_crlf(encode_utf8(es[0].0)) && wf(es[0].1) && wf_entries(es.drop_first())
    }
}

/// Sorted insertion of one entry: an equal key replaces, a new key lands
/// before the first greater key.
pub open spec fn map_insert_at(
    es: Seq<(Seq<char>, FrameModel)>,
    k: Seq<char>,
    v: FrameModel,
) -> Seq<(Seq<char>, FrameModel)>
    decreases es.len(),
{
    if es.len() == 0 {
        seq![(k, v)]
    } else if lex_lt(key_bytes(k), key_bytes(es[0].0)) {
        seq![(k, v)] + es
    } else if key_bytes(k) == key_bytes(es[0].0) {
        seq![(k, v)] + es.drop_first()
    } else {
        seq![es[0]] + map_insert_at(es.drop_first(), k, v)
    }
}

/// The entry sequence obtained by inserting wire pairs in order into an
/// empty map.
pub open spec fn map_from_pairs(ps: Seq<(Seq<char>, FrameModel)>) -> Seq<(Seq<char>, FrameModel)>
    decreases ps.len(),
{
    if ps.len() == 0 {
        Seq::empty()
    } else {
        map_insert_at(map_from_pairs(ps.drop_last()), ps.last().0, ps.last().1)
    }
}

/// The characters a text payload reads as: exact UTF-8 decoding where the
/// bytes are valid, the lossy replacement reading otherwise.
pub open spec fn chars_of(b: Seq<u8>) -> Seq<char> {
    if valid_utf8(b) {
        decode_utf8(b)
    } else {
        utf8_lossy(b)
    }
}

/// The position of the first CRLF pair at or after `i`.
pub open spec fn find_crlf_from(b: Seq<u8>, i: int) -> Option<int>
    recommends
        0 <= i,
    decreases b.len() - i,
{
    if i + 1 >= b.len() {
        None
    } else if b[i] == 13u8 && b[i + 1] == 10u8 {
        Some(i)
    } else {
        find_crlf_from(b, i + 1)
    }
}

pub open spec fn all_digits(t: Seq<u8>) -> bool {
    forall|i: int| 0 <= i < t.len() ==> 48 <= #[trigger] t[i] <= 57
}

/// The value of a digit string, most significant digit first.
pub open spec fn digits_val(t: Seq<u8>) -> nat
    decreases t.len(),
{
    if t.len() == 0 {
        0
    } else {
        (digits_val(t.drop_last()) * 10 + t.last() - 48) as nat
    }
}

/// The signed 64-bit value of an integer line, if it is one: an optional
/// sign, then at least one digit, the value in range.
pub open spec fn int_of(t: Seq<u8>) -> Option<i64> {
    let (neg, d) = if t.len() >= 1 && t[0] == 43u8 {
        (false, t.drop_first())
    } else if t.len() >= 1 && t[0] == 45u8 {
        (true, t.drop_first())
    } else {
        (false, t)
    };
    if d.len() == 0 || !all_digits(d) {
        None
    } else {
        let v = digits_val(d);
        if neg {
            if v <= 0x8000_0000_0000_0000 {
                Some((-(v as int)) as i64)
            } else {
                None
            }
        } else {
            if v <= 0x7fff_ffff_ffff_ffff {
                Some(v as i64)
            } else {
                None
            }
        }
    }
}

/// The outcome of reading one frame from the front of a byte sequence:
/// more bytes are needed, the bytes are malformed, or a frame was read
/// and this many bytes belong to it.
pub enum ParseOut {
    Incomplete,
    Bad,
    Val(FrameModel, int),
}

pub enum ItemsOut {
    Incomplete,
    Bad,
    Val(Seq<FrameModel>, int),
}

pub enum PairsOut {
    Incomplete,
    Bad,
    Val(Seq<(Seq<char>, FrameModel)>, int),
}

/// Reading a line frame: the given prefix byte, the text up to the first
/// CRLF, the CRLF itself.
pub enum LineOut {
    Incomplete,
    Bad,
    Val(Seq<u8>, int),
}

pub open spec fn parse_text_line(b: Seq<u8>, prefix: u8) -> LineOut {
    if b.len() == 0 {
        LineOut::Incomplete
    } else if b[0] != prefix {
        LineOut::Bad
    } else {
        match find_crlf_from(b, 1) {
            None => LineOut::Incomplete,
            Some(e) => LineOut::Val(b.subrange(1, e), e + 2),
        }
    }
}

/// Reading a fixed byte literal: incomplete while fewer bytes than the
/// literal are present, then an exact match or malformed.
pub open spec fn parse_fixed(b: Seq<u8>, lit: Seq<u8>) -> ParseOut {
    if b.len() < lit.len() {
        ParseOut::Incomplete
    } else if b.subrange(0, lit.len() as int) == lit {
        ParseOut::Val(FrameModel::Null, lit.len() as int)
    } else {
        ParseOut::Bad
    }
}

/// Reading the declared length of a length-prefixed frame: the digits up
/// to the first CRLF.  `Val(n, h)` gives the length and the header size.
pub enum LenOut {
    Incomplete,
    Bad,
    Val(nat, int),
}

pub open spec fn parse_len_header(b: Seq<u8>) -> LenOut {
    match find_crlf_from(b, 1) {
        None => LenOut::Incomplete,
        Some(e) => {
            let t = b.subrange(1, e);
            if t.len() == 0 || !all_digits(t) {
                LenOut::Bad
            } else if digits_val(t) > usize::MAX {
                LenOut::Bad
            } else {
                LenOut::Val(digits_val(t), e + 2)
            }
        },
    }
}

/// Reading one frame from the front of `b`.  The dispatch is on the prefix
/// byte; an unknown prefix is malformed, an empty buffer incomplete.
pub open spec fn spec_parse(b: Seq<u8>) -> ParseOut
    decreases b.len(), 0int, 0int,
{
    if b.len() == 0 {
        ParseOut::Incomplete
    } else if b[0] == 43u8 {
        match parse_text_line(b, 43u8) {
            LineOut::Incomplete => ParseOut::Incomplete,
            LineOut::Bad => ParseOut::Bad,
            LineOut::Val(t, c) => ParseOut::Val(FrameModel::Simple(chars_of(t)), c),
        }
    } else if b[0] == 45u8 {
        match parse_text_line(b, 45u8) {
            LineOut::Incomplete => ParseOut::Incomplete,
            LineOut::Bad => ParseOut::Bad,
            LineOut::Val(t, c) => ParseOut::Val(FrameModel::ErrText(chars_of(t)), c),
        }
    } else if b[0] == 58u8 {
        match parse_text_line(b, 58u8) {
            LineOut::Incomplete => ParseOut::Incomplete,
            LineOut::Bad => ParseOut::Bad,
            LineOut::Val(t, c) => match int_of(t) {
                None => ParseOut::Bad,
                Some(i) => ParseOut::Val(FrameModel::Int(i), c),
            },
        }
    } else if b[0] == 44u8 {
        match parse_text_line(b, 44u8) {
            LineOut::Incomplete => ParseOut::Incomplete,
            LineOut::Bad => ParseOut::Bad,
            LineOut::Val(t, c) => ParseOut::Val(FrameModel::Double(t), c),
        }
    } else if b[0] == 95u8 {
        parse_fixed(b, null_text())
    } else if b[0] == 35u8 {
        if b.len() < 2 {
            ParseOut::Incomplete
        } else if b[1] != 116u8 && b[1] != 102u8 {
            ParseOut::Bad
        } else if b.len() < 4 {
            ParseOut::Incomplete
        } else if b[2] == 13u8 && b[3] == 10u8 {
            ParseOut::Val(FrameModel::Bool(b[1] == 116u8), 4)
        } else {
            ParseOut::Bad
        }
    } else if b[0] == 36u8 {
        if b.len() >= 5 && b.subrange(0, 5) == null_bulk_text() {
            ParseOut::Val(FrameModel::NullBulk, 5)
        } else {
            match parse_len_header(b) {
                LenOut::Incomplete => ParseOut::Incomplete,
                LenOut::Bad => ParseOut::Bad,
                LenOut::Val(n, h) => if b.len() < h + n + 2 {
                    ParseOut::Incomplete
                } else if b[h + n] == 13u8 && b[h + n + 1] == 10u8 {
                    ParseOut::Val(FrameModel::Bulk(b.subrange(h, h + n)), h + n + 2)
                } else {
                    ParseOut::Bad
                },
            }
        }
    } else if b[0] == 42u8 {
        if b.len() >= 5 && b.subrange(0, 5) == null_array_text() {
            ParseOut::Val(FrameModel::Arr(Seq::empty()), 5)
        } else {
            match parse_len_header(b) {
                LenOut::Incomplete => ParseOut::Incomplete,
                LenOut::Bad => ParseOut::Bad,
                LenOut::Val(n, h) => if !(3 <= h <= b.len()) {
                    ParseOut::Bad
                } else {
                    match parse_items(b.skip(h), n as int) {
                        ItemsOut::Incomplete => ParseOut::Incomplete,
                        ItemsOut::Bad => ParseOut::Bad,
                        ItemsOut::Val(es, c) => ParseOut::Val(FrameModel::Arr(es), h + c),
                    }
                },
            }
        }
    } else if b[0] == 37u8 {
        match parse_len_header(b) {
            LenOut::Incomplete => ParseOut::Incomplete,
            LenOut::Bad => ParseOut::Bad,
            LenOut::Val(n, h) => if !(3 <= h <= b.len()) {
                ParseOut::Bad
            } else {
                match parse_pairs(b.skip(h), n as int) {
                    PairsOut::Incomplete => ParseOut::Incomplete,
                    PairsOut::Bad => ParseOut::Bad,
                    PairsOut::Val(ps, c) => ParseOut::Val(
                        FrameModel::Entries(map_from_pairs(ps)),
                        h + c,
                    ),
                }
            },
        }
    } else if b[0] == 126u8 {
        match parse_len_header(b) {
            LenOut::Incomplete => ParseOut::Incomplete,
            LenOut::Bad => ParseOut::Bad,
            LenOut::Val(n, h) => if !(3 <= h <= b.len()) {
                ParseOut::Bad
            } else {
                match parse_items(b.skip(h), n as int) {
                    ItemsOut::Incomplete => ParseOut::Incomplete,
                    ItemsOut::Bad => ParseOut::Bad,
                    ItemsOut::Val(es, c) => ParseOut::Val(FrameModel::Members(es), h + c),
                }
            },
        }
    } else {
        ParseOut::Bad
    }
}

/// Reading `n` frames in sequence from the front of `b`.
pub open spec fn parse_items(b: Seq<u8>, n: int) -> ItemsOut
    decreases b.len(), 1int, n,
{
    if n <= 0 {
        ItemsOut::Val(Seq::empty(), 0)
    } else {
        match spec_parse(b) {
            ParseOut::Incomplete => ItemsOut::Incomplete,
            ParseOut::Bad => ItemsOut::Bad,
            ParseOut::Val(f, c) => if !(1 <= c <= b.len()) {
                ItemsOut::Bad
            } else {
                match parse_items(b.skip(c), n - 1) {
                    ItemsOut::Incomplete => ItemsOut::Incomplete,
                    ItemsOut::Bad => ItemsOut::Bad,
                    ItemsOut::Val(es, c2) => ItemsOut::Val(seq![f] + es, c + c2),
                }
            },
        }
    }
}

/// Reading `n` key/value pairs in sequence: each key a simple-string frame,
/// each value any frame.
pub open spec fn parse_pairs(b: Seq<u8>, n: int) -> PairsOut
    decreases b.len(), 1int, n,
{
    if n <= 0 {
        PairsOut::Val(Seq::empty(), 0)
    } else {
        match parse_text_line(b, 43u8) {
            LineOut::Incomplete => PairsOut::Incomplete,
            LineOut::Bad => PairsOut::Bad,
            LineOut::Val(t, kc) => if !(3 <= kc <= b.len()) {
                PairsOut::Bad
            } else {
                match spec_parse(b.skip(kc)) {
                    ParseOut::Incomplete => PairsOut::Incomplete,
                    ParseOut::Bad => PairsOut::Bad,
                    ParseOut::Val(v, vc) => if !(1 <= vc && kc + vc <= b.len()) {
                        PairsOut::Bad
                    } else {
                        match parse_pairs(b.skip(kc + vc), n - 1) {
                            PairsOut::Incomplete => PairsOut::Incomplete,
                            PairsOut::Bad => PairsOut::Bad,
                            PairsOut::Val(ps, c2) => PairsOut::Val(
                                seq![(chars_of(t), v)] + ps,
                                kc + vc + c2,
                            ),
                        }
                    },
                }
            },
        }
    }
}

} // verus!
