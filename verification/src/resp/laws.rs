//! Laws of the wire grammar: encoded frames read back as themselves, and
//! a frame's bytes fed one at a time stay incomplete until the last.

use vstd::prelude::*;
use vstd::utf8::encode_utf8;
use crate::resp::num::{lemma_dec_digits_are_digits, lemma_digits_val_dec_digits};
use crate::resp::wire::{
    all_digits, crlf, dec_digits, digits_val, enc, enc_all, enc_entries, entries_sorted,
    find_crlf_from, int_of, int_text, key_bytes, lex_lt, map_from_pairs, no_crlf,
    null_array_text, null_bulk_text, null_text, parse_items, parse_len_header,
    parse_pairs, parse_text_line, spec_parse, wf, wf_all, wf_entries, FrameModel, ItemsOut,
    LenOut, LineOut, PairsOut, ParseOut,
};

verus! {

broadcast use vstd::utf8::encode_utf8_valid_utf8, vstd::utf8::encode_utf8_decode_utf8;

/// A found CRLF is a CRLF in bounds.
pub proof fn lemma_find_some(b: Seq<u8>, i: int)
    requires
        0 <= i,
    ensures
        find_crlf_from(b, i) matches Some(e) ==> i <= e && e + 1 < b.len() && b[e] == 13u8
            && b[e + 1] == 10u8,
    decreases b.len() - i,
{
    if i + 1 >= b.len() {
    } else if b[i] == 13u8 && b[i + 1] == 10u8 {
    } else {
        lemma_find_some(b, i + 1);
    }
}

/// The first CRLF at or after `start` is `e` when `e` holds a CRLF and no
/// earlier position does.
pub proof fn lemma_find_exact(b: Seq<u8>, start: int, e: int)
    requires
        0 <= start <= e,
        e + 1 < b.len(),
        b[e] == 13u8,
        b[e + 1] == 10u8,
        forall|j: int| start <= j < e ==> !((#[trigger] b[j]) == 13u8 && b[j + 1] == 10u8),
    ensures
        find_crlf_from(b, start) == Some(e),
    decreases e - start,
{
    if start == e {
    } else {
        lemma_find_exact(b, start + 1, e);
    }
}

/// Reading a line frame laid out as prefix, CRLF-free text, CRLF: the text
/// and its exact length come back.
pub proof fn lemma_line_parse(prefix: u8, t: Seq<u8>, rest: Seq<u8>)
    requires
        no_crlf(t),
    ensures
        parse_text_line(seq![prefix] + t + crlf() + rest, prefix) == LineOut::Val(
            t,
            t.len() + 3int,
        ),
{
    let b = seq![prefix] + t + crlf() + rest;
    let e = t.len() + 1;
    assert(b.len() == t.len() + 3 + rest.len());
    assert(b[0] == prefix);
    assert(b[e as int] == 13u8);
    assert(b[e + 1int] == 10u8);
    assert forall|j: int| 1 <= j < e implies !((#[trigger] b[j]) == 13u8 && b[j + 1] == 10u8) by {
        if j + 1 < e {
            assert(b[j] == t[j - 1]);
            assert(b[j + 1] == t[j]);
        } else {
            assert(b[j + 1] == 13u8);
        }
    }
    lemma_find_exact(b, 1, e as int);
    assert(b.subrange(1, e as int) =~= t);
}

/// Digit strings hold no CRLF.
pub proof fn lemma_digits_no_crlf(t: Seq<u8>)
    requires
        all_digits(t),
    ensures
        no_crlf(t),
{
}

/// Reading a length header laid out as prefix, canonical digits, CRLF.
pub proof fn lemma_len_header_parse(prefix: u8, n: nat, tail: Seq<u8>)
    requires
        n <= usize::MAX,
    ensures
        parse_len_header(seq![prefix] + dec_digits(n) + crlf() + tail) == LenOut::Val(
            n,
            dec_digits(n).len() + 3int,
        ),
{
    let d = dec_digits(n);
    let b = seq![prefix] + d + crlf() + tail;
    lemma_dec_digits_are_digits(n);
    lemma_digits_no_crlf(d);
    lemma_line_parse(prefix, d, tail);
    assert(parse_text_line(b, prefix) == LineOut::Val(d, d.len() + 3int));
    assert(b[0] == prefix);
    lemma_digits_val_dec_digits(n);
}

/// A successful read consumes at least one byte and at most the buffer.
pub proof fn lemma_parse_bounds(b: Seq<u8>)
    ensures
        spec_parse(b) matches ParseOut::Val(f, c) ==> 1 <= c <= b.len(),
    decreases b.len(), 2int, 0int,
{
    if b.len() == 0 {
    } else if b[0] == 43u8 || b[0] == 45u8 || b[0] == 58u8 || b[0] == 44u8 {
        lemma_find_some(b, 1);
    } else if b[0] == 95u8 || b[0] == 35u8 {
    } else if b[0] == 36u8 {
        if b.len() >= 5 && b.subrange(0, 5) == null_bulk_text() {
        } else {
            lemma_find_some(b, 1);
        }
    } else if b[0] == 42u8 {
        if b.len() >= 5 && b.subrange(0, 5) == null_array_text() {
        } else {
            lemma_find_some(b, 1);
            if let LenOut::Val(n, h) = parse_len_header(b) {
                if 3 <= h <= b.len() {
                    lemma_items_bounds(b.skip(h), n as int);
                }
            }
        }
    } else if b[0] == 37u8 {
        lemma_find_some(b, 1);
        if let LenOut::Val(n, h) = parse_len_header(b) {
            if 3 <= h <= b.len() {
                lemma_pairs_bounds(b.skip(h), n as int);
            }
        }
    } else if b[0] == 126u8 {
        lemma_find_some(b, 1);
        if let LenOut::Val(n, h) = parse_len_header(b) {
            if 3 <= h <= b.len() {
                lemma_items_bounds(b.skip(h), n as int);
            }
        }
    } else {
    }
}

pub proof fn lemma_items_bounds(b: Seq<u8>, n: int)
    ensures
        parse_items(b, n) matches ItemsOut::Val(es, c) ==> 0 <= c <= b.len(),
    decreases b.len(), 3int, n,
{
    if n <= 0 {
    } else {
        lemma_parse_bounds(b);
        if let ParseOut::Val(f, c) = spec_parse(b) {
            if 1 <= c <= b.len() {
                lemma_items_bounds(b.skip(c), n - 1);
            }
        }
    }
}

pub proof fn lemma_pairs_bounds(b: Seq<u8>, n: int)
    ensures
        parse_pairs(b, n) matches PairsOut::Val(ps, c) ==> 0 <= c <= b.len(),
    decreases b.len(), 3int, n,
{
    if n <= 0 {
    } else {
        lemma_find_some(b, 1);
        if let LineOut::Val(t, kc) = parse_text_line(b, 43u8) {
            if 3 <= kc <= b.len() {
                lemma_parse_bounds(b.skip(kc));
                if let ParseOut::Val(v, vc) = spec_parse(b.skip(kc)) {
                    if 1 <= vc && kc + vc <= b.len() {
                        lemma_pairs_bounds(b.skip(kc + vc), n - 1);
                    }
                }
            }
        }
    }
}

/// A CRLF found in a buffer is still the first CRLF after the buffer grows.
pub proof fn lemma_find_extend(b: Seq<u8>, ext: Seq<u8>, i: int)
    requires
        0 <= i,
    ensures
        find_crlf_from(b, i) matches Some(e) ==> find_crlf_from(b + ext, i) == Some(e),
    decreases b.len() - i,
{
    if i + 1 >= b.len() {
    } else if b[i] == 13u8 && b[i + 1] == 10u8 {
        assert((b + ext)[i] == 13u8);
        assert((b + ext)[i + 1] == 10u8);
    } else {
        assert((b + ext)[i] == b[i]);
        assert((b + ext)[i + 1] == b[i + 1]);
        lemma_find_extend(b, ext, i + 1);
    }
}

/// Growing the buffer never changes a frame already read, and never mends
/// bytes already malformed.  Only an incomplete outcome can change.
pub proof fn lemma_parse_extend(b: Seq<u8>, ext: Seq<u8>)
    ensures
        spec_parse(b) matches ParseOut::Val(f, c) ==> spec_parse(b + ext) == ParseOut::Val(f, c),
        spec_parse(b) is Bad ==> spec_parse(b + ext) is Bad,
    decreases b.len(), 2int, 0int,
{
    let bx = b + ext;
    if b.len() == 0 {
    } else {
        assert(bx[0] == b[0]);
        if b[0] == 43u8 || b[0] == 45u8 || b[0] == 58u8 || b[0] == 44u8 {
            lemma_find_extend(b, ext, 1);
            lemma_find_some(b, 1);
            if let Some(e) = find_crlf_from(b, 1) {
                assert(bx.subrange(1, e) =~= b.subrange(1, e));
            }
        } else if b[0] == 95u8 {
            if b.len() >= 3 {
                assert(bx.subrange(0, 3) =~= b.subrange(0, 3));
            }
        } else if b[0] == 35u8 {
            if b.len() >= 2 {
                assert(bx[1] == b[1]);
            }
            if b.len() >= 4 {
                assert(bx[2] == b[2]);
                assert(bx[3] == b[3]);
            }
        } else if b[0] == 36u8 {
            lemma_lp_extend(b, ext, 36u8, null_bulk_text());
            if !(b.len() >= 5 && b.subrange(0, 5) == null_bulk_text()) && !(bx.len() >= 5
                && bx.subrange(0, 5) == null_bulk_text()) {
                lemma_find_extend(b, ext, 1);
                lemma_find_some(b, 1);
                if let Some(e) = find_crlf_from(b, 1) {
                    assert(bx.subrange(1, e) =~= b.subrange(1, e));
                }
                if let LenOut::Val(n, h) = parse_len_header(b) {
                    if b.len() >= h + n + 2 {
                        assert(bx[h + n] == b[h + n]);
                        assert(bx[h + n + 1] == b[h + n + 1]);
                        assert(bx.subrange(h, h + n) =~= b.subrange(h, h + n));
                    }
                }
            }
        } else if b[0] == 42u8 {
            lemma_lp_extend(b, ext, 42u8, null_array_text());
            if !(b.len() >= 5 && b.subrange(0, 5) == null_array_text()) && !(bx.len() >= 5
                && bx.subrange(0, 5) == null_array_text()) {
                lemma_find_extend(b, ext, 1);
                lemma_find_some(b, 1);
                if let Some(e) = find_crlf_from(b, 1) {
                    assert(bx.subrange(1, e) =~= b.subrange(1, e));
                }
                if let LenOut::Val(n, h) = parse_len_header(b) {
                    if 3 <= h <= b.len() {
                        assert(bx.skip(h) =~= b.skip(h) + ext);
                        lemma_items_extend(b.skip(h), ext, n as int);
                    }
                }
            }
        } else if b[0] == 37u8 {
            lemma_find_extend(b, ext, 1);
            lemma_find_some(b, 1);
            if let Some(e) = find_crlf_from(b, 1) {
                assert(bx.subrange(1, e) =~= b.subrange(1, e));
            }
            if let LenOut::Val(n, h) = parse_len_header(b) {
                if 3 <= h <= b.len() {
                    assert(bx.skip(h) =~= b.skip(h) + ext);
                    lemma_pairs_extend(b.skip(h), ext, n as int);
                }
            }
        } else if b[0] == 126u8 {
            lemma_find_extend(b, ext, 1);
            lemma_find_some(b, 1);
            if let Some(e) = find_crlf_from(b, 1) {
                assert(bx.subrange(1, e) =~= b.subrange(1, e));
            }
            if let LenOut::Val(n, h) = parse_len_header(b) {
                if 3 <= h <= b.len() {
                    assert(bx.skip(h) =~= b.skip(h) + ext);
                    lemma_items_extend(b.skip(h), ext, n as int);
                }
            }
        } else {
        }
    }
}

/// Helper for the two null-marker literals: the length-header reading of a
/// short buffer that the grown buffer completes into the literal was
/// incomplete, and the literal check itself is stable.
proof fn lemma_lp_extend(b: Seq<u8>, ext: Seq<u8>, prefix: u8, lit: Seq<u8>)
    requires
        b.len() >= 1,
        b[0] == prefix,
        lit.len() == 5,
        lit[1] == 45u8,
        lit[2] == 49u8,
        lit[3] == 13u8,
        lit[4] == 10u8,
    ensures
        b.len() >= 5 && b.subrange(0, 5) == lit ==> (b + ext).len() >= 5 && (b + ext).subrange(
            0,
            5,
        ) == lit,
        (b.len() >= 5 && b.subrange(0, 5) != lit) ==> ((b + ext).len() >= 5 ==> (b
            + ext).subrange(0, 5) != lit),
        (b.len() < 5 && (b + ext).len() >= 5 && (b + ext).subrange(0, 5) == lit)
            ==> find_crlf_from(b, 1) is None,
{
    let bx = b + ext;
    if b.len() >= 5 {
        assert(bx.subrange(0, 5) =~= b.subrange(0, 5));
    } else if bx.len() >= 5 && bx.subrange(0, 5) == lit {
        lemma_find_some(b, 1);
        if let Some(e) = find_crlf_from(b, 1) {
            assert(b[e] == 13u8);
            assert(1 <= e && e + 1 < b.len());
            assert(b[1] == bx.subrange(0, 5)[1]);
            if e + 1 < b.len() && b.len() <= 4 {
                assert(b[2] == bx.subrange(0, 5)[2]);
                assert(false);
            }
        }
    }
}

pub proof fn lemma_items_extend(b: Seq<u8>, ext: Seq<u8>, n: int)
    ensures
        parse_items(b, n) matches ItemsOut::Val(es, c) ==> parse_items(b + ext, n)
            == ItemsOut::Val(es, c),
        parse_items(b, n) is Bad ==> parse_items(b + ext, n) is Bad,
    decreases b.len(), 3int, n,
{
    if n <= 0 {
    } else {
        lemma_parse_bounds(b);
        lemma_parse_extend(b, ext);
        if let ParseOut::Val(f, c) = spec_parse(b) {
            assert((b + ext).skip(c) =~= b.skip(c) + ext);
            lemma_items_extend(b.skip(c), ext, n - 1);
        }
    }
}

pub proof fn lemma_pairs_extend(b: Seq<u8>, ext: Seq<u8>, n: int)
    ensures
        parse_pairs(b, n) matches PairsOut::Val(ps, c) ==> parse_pairs(b + ext, n)
            == PairsOut::Val(ps, c),
        parse_pairs(b, n) is Bad ==> parse_pairs(b + ext, n) is Bad,
    decreases b.len(), 3int, n,
{
    if n <= 0 {
    } else {
        let bx = b + ext;
        if b.len() >= 1 {
            assert(bx[0] == b[0]);
        }
        lemma_find_extend(b, ext, 1);
        lemma_find_some(b, 1);
        if let LineOut::Val(t, kc) = parse_text_line(b, 43u8) {
            assert(bx.subrange(1, kc - 2) =~= b.subrange(1, kc - 2));
            if 3 <= kc <= b.len() {
                lemma_parse_bounds(b.skip(kc));
                assert(bx.skip(kc) =~= b.skip(kc) + ext);
                lemma_parse_extend(b.skip(kc), ext);
                if let ParseOut::Val(v, vc) = spec_parse(b.skip(kc)) {
                    if 1 <= vc && kc + vc <= b.len() {
                        assert(bx.skip(kc + vc) =~= b.skip(kc + vc) + ext);
                        lemma_pairs_extend(b.skip(kc + vc), ext, n - 1);
                    }
                }
            }
        }
    }
}

/// Every frame encoding is at least three bytes.
pub proof fn lemma_enc_min_len(m: FrameModel)
    ensures
        enc(m).len() >= 3,
{
    match m {
        FrameModel::Simple(s) => {},
        FrameModel::ErrText(s) => {},
        FrameModel::Int(i) => {
            lemma_dec_digits_are_digits(if i >= 0 {
                i as nat
            } else {
                (-(i as int)) as nat
            });
        },
        FrameModel::Bulk(p) => {
            lemma_dec_digits_are_digits(p.len());
        },
        FrameModel::NullBulk => {},
        FrameModel::Arr(es) => {
            if es.len() > 0 {
                lemma_dec_digits_are_digits(es.len());
            }
        },
        FrameModel::NullArr => {},
        FrameModel::Null => {},
        FrameModel::Bool(_) => {},
        FrameModel::Double(t) => {},
        FrameModel::Entries(es) => {
            lemma_dec_digits_are_digits(es.len());
        },
        FrameModel::Members(es) => {
            lemma_dec_digits_are_digits(es.len());
        },
    }
}

/// The signed decimal text of an in-range integer reads back as the
/// integer, and contains no CRLF.
pub proof fn lemma_int_text_value(i: int)
    requires
        -0x8000_0000_0000_0000 <= i <= 0x7fff_ffff_ffff_ffff,
    ensures
        int_of(int_text(i)) == Some(i as i64),
        no_crlf(int_text(i)),
{
    let t = int_text(i);
    if i < 0 {
        let d = dec_digits((-i) as nat);
        lemma_dec_digits_are_digits((-i) as nat);
        lemma_digits_val_dec_digits((-i) as nat);
        assert(t[0] == 45u8);
        assert(t.drop_first() =~= d);
        assert(no_crlf(t)) by {
            assert forall|j: int| 0 <= j && j + 1 < t.len() implies !((#[trigger] t[j]) == 13u8
                && t[j + 1] == 10u8) by {
                if j > 0 {
                    assert(t[j] == d[j - 1]);
                }
            }
        }
        assert(digits_val(d) == (-i) as nat);
        assert(int_of(t) == Some((-((-i) as nat as int)) as i64));
    } else {
        let d = dec_digits(i as nat);
        lemma_dec_digits_are_digits(i as nat);
        lemma_digits_val_dec_digits(i as nat);
        assert(t[0] == 43u8);
        assert(t.drop_first() =~= d);
        assert(no_crlf(t)) by {
            assert forall|j: int| 0 <= j && j + 1 < t.len() implies !((#[trigger] t[j]) == 13u8
                && t[j + 1] == 10u8) by {
                if j > 0 {
                    assert(t[j] == d[j - 1]);
                }
            }
        }
    }
}

/// Inserting pairs that already stand in strictly ascending key order
/// rebuilds exactly that entry sequence.
pub proof fn lemma_map_from_pairs_sorted(es: Seq<(Seq<char>, FrameModel)>)
    requires
        entries_sorted(es),
    ensures
        map_from_pairs(es) == es,
    decreases es.len(),
{
    if es.len() == 0 {
        assert(map_from_pairs(es) =~= es);
    } else {
        let front = es.drop_last();
        let last = es.last();
        assert(entries_sorted(front)) by {
            assert(forall|i: int, j: int|
                0 <= i < j < front.len() ==> lex_lt(
                    key_bytes(#[trigger] front[i].0),
                    key_bytes(#[trigger] front[j].0),
                ));
        }
        lemma_map_from_pairs_sorted(front);
        crate::resp::map::lemma_map_insert_front_smaller(front, last.0, last.1);
        assert(forall|j: int|
            0 <= j < front.len() ==> lex_lt(
                key_bytes(#[trigger] front[j].0),
                key_bytes(last.0),
            )) by {
            assert(forall|j: int| 0 <= j < front.len() ==> front[j] == es[j]);
        }
        assert(map_from_pairs(es) == front.push((last.0, last.1)));
        assert(front.push((last.0, last.1)) =~= es);
    }
}

/// The bytes of an encoded frame, followed by anything, read back as
/// exactly that frame, consuming exactly the encoding.  This is the
/// round-trip law: decoding an encoding yields the encoded value, and
/// trailing bytes stay untouched.
#[verifier::rlimit(100)]
pub proof fn lemma_parse_enc(m: FrameModel, rest: Seq<u8>)
    requires
        wf(m),
    ensures
        spec_parse(enc(m) + rest) == ParseOut::Val(m, enc(m).len() as int),
    decreases m, 0int, 0int,
{
    let b = enc(m) + rest;
    match m {
        FrameModel::Simple(s) => {
            let t = encode_utf8(s);
            assert(b =~= seq![43u8] + t + crlf() + rest);
            lemma_line_parse(43u8, t, rest);
            assert(b[0] == 43u8);
        },
        FrameModel::ErrText(s) => {
            let t = encode_utf8(s);
            assert(b =~= seq![45u8] + t + crlf() + rest);
            lemma_line_parse(45u8, t, rest);
            assert(b[0] == 45u8);
        },
        FrameModel::Int(i) => {
            let t = int_text(i as int);
            lemma_int_text_value(i as int);
            assert(b =~= seq![58u8] + t + crlf() + rest);
            lemma_line_parse(58u8, t, rest);
            assert(b[0] == 58u8);
        },
        FrameModel::Bulk(p) => {
            let d = dec_digits(p.len());
            lemma_dec_digits_are_digits(p.len());
            let tail = p + crlf() + rest;
            assert(b =~= seq![36u8] + d + crlf() + tail);
            lemma_len_header_parse(36u8, p.len(), tail);
            assert(b[0] == 36u8);
            let h = d.len() + 3;
            let n = p.len() as int;
            assert(!(b.len() >= 5 && b.subrange(0, 5) == null_bulk_text())) by {
                if b.len() >= 5 && b.subrange(0, 5) == null_bulk_text() {
                    assert(b.subrange(0, 5)[1] == b[1]);
                    assert(b[1] == d[0]);
                }
            }
            assert(b.len() == h + n + 2 + rest.len());
            assert(b[h + n] == 13u8) by {
                assert(b[h + n] == (crlf() + rest)[0]);
            }
            assert(b[h + n + 1] == 10u8) by {
                assert(b[h + n + 1] == (crlf() + rest)[1]);
            }
            assert(b.subrange(h as int, h + n) =~= p);
            assert(enc(m).len() == h + n + 2);
        },
        FrameModel::NullBulk => {
            assert(b.len() >= 5);
            assert(b.subrange(0, 5) =~= null_bulk_text());
            assert(b[0] == 36u8);
        },
        FrameModel::Arr(es) => {
            if es.len() == 0 {
                assert(b.len() >= 5);
                assert(b.subrange(0, 5) =~= null_array_text());
                assert(b[0] == 42u8);
                assert(es =~= Seq::<FrameModel>::empty());
            } else {
                let d = dec_digits(es.len());
                lemma_dec_digits_are_digits(es.len());
                let tail = enc_all(es) + rest;
                assert(b =~= seq![42u8] + d + crlf() + tail);
                lemma_len_header_parse(42u8, es.len(), tail);
                assert(b[0] == 42u8);
                let h = d.len() + 3;
                assert(!(b.len() >= 5 && b.subrange(0, 5) == null_array_text())) by {
                    if b.len() >= 5 && b.subrange(0, 5) == null_array_text() {
                        assert(b.subrange(0, 5)[1] == b[1]);
                        assert(b[1] == d[0]);
                    }
                }
                assert(b.skip(h as int) =~= enc_all(es) + rest);
                lemma_parse_enc_items(es, rest);
                assert(enc(m).len() == h + enc_all(es).len());
            }
        },
        FrameModel::NullArr => {
            assert(false);
        },
        FrameModel::Null => {
            assert(b[0] == 95u8);
            assert(b.len() >= 3);
            assert(b.subrange(0, 3) =~= null_text());
        },
        FrameModel::Bool(v) => {
            assert(b[0] == 35u8);
            assert(b.len() >= 4);
            assert(b[1] == if v {
                116u8
            } else {
                102u8
            });
            assert(b[2] == 13u8);
            assert(b[3] == 10u8);
        },
        FrameModel::Double(t) => {
            assert(b =~= seq![44u8] + t + crlf() + rest);
            lemma_line_parse(44u8, t, rest);
            assert(b[0] == 44u8);
        },
        FrameModel::Entries(es) => {
            let d = dec_digits(es.len());
            lemma_dec_digits_are_digits(es.len());
            let tail = enc_entries(es) + rest;
            assert(b =~= seq![37u8] + d + crlf() + tail);
            lemma_len_header_parse(37u8, es.len(), tail);
            assert(b[0] == 37u8);
            let h = d.len() + 3;
            assert(b.skip(h as int) =~= enc_entries(es) + rest);
            lemma_parse_enc_pairs(es, rest);
            lemma_map_from_pairs_sorted(es);
            assert(enc(m).len() == h + enc_entries(es).len());
        },
        FrameModel::Members(es) => {
            let d = dec_digits(es.len());
            lemma_dec_digits_are_digits(es.len());
            let tail = enc_all(es) + rest;
            assert(b =~= seq![126u8] + d + crlf() + tail);
            lemma_len_header_parse(126u8, es.len(), tail);
            assert(b[0] == 126u8);
            let h = d.len() + 3;
            assert(b.skip(h as int) =~= enc_all(es) + rest);
            lemma_parse_enc_items(es, rest);
            assert(enc(m).len() == h + enc_all(es).len());
        },
    }
}

proof fn lemma_parse_enc_items(es: Seq<FrameModel>, rest: Seq<u8>)
    requires
        wf_all(es),
    ensures
        parse_items(enc_all(es) + rest, es.len() as int) == ItemsOut::Val(
            es,
            enc_all(es).len() as int,
        ),
    decreases es, 1int, 0int,
{
    if es.len() == 0 {
        assert(enc_all(es) =~= Seq::<u8>::empty());
        assert(parse_items(enc_all(es) + rest, 0) == ItemsOut::Val(
            Seq::<FrameModel>::empty(),
            0,
        ));
        assert(es =~= Seq::<FrameModel>::empty());
    } else {
        let head = es[0];
        let tail = es.drop_first();
        let b = enc_all(es) + rest;
        assert(b =~= enc(head) + (enc_all(tail) + rest));
        lemma_parse_enc(head, enc_all(tail) + rest);
        lemma_enc_min_len(head);
        let c = enc(head).len() as int;
        assert(spec_parse(b) == ParseOut::Val(head, c));
        assert(b.len() == enc(head).len() + enc_all(tail).len() + rest.len());
        assert(b.skip(c) =~= enc_all(tail) + rest);
        lemma_parse_enc_items(tail, rest);
        assert(seq![head] + tail =~= es);
    }
}

proof fn lemma_parse_enc_pairs(es: Seq<(Seq<char>, FrameModel)>, rest: Seq<u8>)
    requires
        wf_entries(es),
    ensures
        parse_pairs(enc_entries(es) + rest, es.len() as int) == PairsOut::Val(
            es,
            enc_entries(es).len() as int,
        ),
    decreases es, 1int, 0int,
{
    if es.len() == 0 {
        assert(enc_entries(es) =~= Seq::<u8>::empty());
        assert(parse_pairs(enc_entries(es) + rest, 0) == PairsOut::Val(
            Seq::<(Seq<char>, FrameModel)>::empty(),
            0,
        ));
        assert(es =~= Seq::<(Seq<char>, FrameModel)>::empty());
    } else {
        let k = es[0].0;
        let v = es[0].1;
        let tail = es.drop_first();
        let kt = encode_utf8(k);
        let b = enc_entries(es) + rest;
        let after_key = enc(v) + enc_entries(tail) + rest;
        assert(b =~= seq![43u8] + kt + crlf() + after_key);
        lemma_line_parse(43u8, kt, after_key);
        let kc = kt.len() + 3;
        assert(b.len() == kc + enc(v).len() + enc_entries(tail).len() + rest.len());
        assert(b.skip(kc as int) =~= enc(v) + (enc_entries(tail) + rest));
        lemma_parse_enc(v, enc_entries(tail) + rest);
        lemma_enc_min_len(v);
        let vc = enc(v).len() as int;
        assert(spec_parse(b.skip(kc as int)) == ParseOut::Val(v, vc));
        assert(b.skip(kc + vc) =~= enc_entries(tail) + rest);
        lemma_parse_enc_pairs(tail, rest);
        assert(seq![(k, v)] + tail =~= es);
    }
}

/// Round trip without trailing bytes: decoding an encoded frame yields
/// the frame and consumes the whole buffer.  A canonically-encoded buffer
/// therefore re-encodes to itself.
pub proof fn lemma_round_trip(m: FrameModel)
    requires
        wf(m),
    ensures
        spec_parse(enc(m)) == ParseOut::Val(m, enc(m).len() as int),
{
    lemma_parse_enc(m, Seq::empty());
    assert(enc(m) + Seq::<u8>::empty() =~= enc(m));
}

/// The second round-trip direction: a canonically-encoded buffer reads
/// back as the frame it encodes, consuming the whole buffer, and that
/// frame re-encodes to the same bytes.
pub proof fn lemma_canonical_bytes(b: Seq<u8>, m: FrameModel)
    requires
        wf(m),
        b == enc(m),
    ensures
        spec_parse(b) == ParseOut::Val(m, b.len() as int),
        enc(m) == b,
{
    lemma_round_trip(m);
}

/// Feeding a frame's bytes one at a time never yields a false success or
/// a malformed error: every strict prefix of an encoding reads as
/// incomplete.
pub proof fn lemma_prefix_incomplete(m: FrameModel, k: int)
    requires
        wf(m),
        0 <= k < enc(m).len(),
    ensures
        spec_parse(enc(m).take(k)) is Incomplete,
{
    let p = enc(m).take(k);
    let suffix = enc(m).skip(k);
    lemma_round_trip(m);
    assert(p + suffix =~= enc(m));
    match spec_parse(p) {
        ParseOut::Incomplete => {},
        ParseOut::Bad => {
            lemma_parse_extend(p, suffix);
            assert(spec_parse(enc(m)) is Bad);
            assert(false);
        },
        ParseOut::Val(f, c) => {
            lemma_parse_bounds(p);
            lemma_parse_extend(p, suffix);
            assert(spec_parse(enc(m)) == ParseOut::Val(f, c));
            assert(c == enc(m).len());
            assert(c <= p.len());
            assert(false);
        },
    }
}

} // verus!
