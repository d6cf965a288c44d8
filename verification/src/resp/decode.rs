//! The exec decode engine: reads one frame from a byte slice, reporting
//! incomplete or malformed outcomes exactly as the wire grammar does.

use vstd::prelude::*;
use vstd::slice::slice_to_vec;
use crate::resp::array::RespArray;
use crate::resp::bulk_string::BulkString;
use crate::resp::double::RespDouble;
use crate::resp::frame::{lemma_models_of, models_of, RespError, RespFrame};
use crate::resp::map::RespMap;
use crate::resp::null::{RespNull, RespNullBulkString};
use crate::resp::num::{parse_i64, parse_usize};
use crate::resp::set::RespSet;
use crate::resp::simple_error::SimpleError;
use crate::resp::simple_string::SimpleString;
use crate::resp::unicode::bytes_to_string_lossy;
use crate::resp::wire::{
    chars_of, find_crlf_from, map_from_pairs, map_insert_at, null_array_text, null_bulk_text,
    null_text, parse_items, parse_len_header, parse_pairs, parse_text_line, spec_parse,
    FrameModel, ItemsOut, LenOut, LineOut, PairsOut, ParseOut,
};

verus! {

/// Finds the first CRLF pair at or after `start`.
pub(crate) fn find_crlf(b: &[u8], start: usize) -> (r: Option<usize>)
    ensures
        match r {
            Some(e) => find_crlf_from(b@, start as int) == Some(e as int) && start <= e && e + 2
                <= b@.len(),
            None => find_crlf_from(b@, start as int) is None,
        },
{
    let len = b.len();
    if len == 0 {
        return None;
    }
    let mut i: usize = start;
    while i < len - 1
        invariant
            start <= i,
            1 <= len == b@.len(),
            find_crlf_from(b@, start as int) == find_crlf_from(b@, i as int),
        decreases len - i,
    {
        if b[i] == 13u8 && b[i + 1] == 10u8 {
            return Some(i);
        }
        i = i + 1;
    }
    None
}

/// The first CRLF of a suffix sits at the shifted position.
pub proof fn lemma_find_crlf_shift(b: Seq<u8>, p: int, i: int)
    requires
        0 <= p <= b.len(),
        0 <= i,
    ensures
        find_crlf_from(b.skip(p), i) == match find_crlf_from(b, p + i) {
            Some(e) => Some(e - p),
            None => None::<int>,
        },
    decreases b.len() - p - i,
{
    if i + 1 >= b.skip(p).len() {
    } else {
        assert(b.skip(p)[i] == b[p + i]);
        assert(b.skip(p)[i + 1] == b[p + i + 1]);
        if b[p + i] == 13u8 && b[p + i + 1] == 10u8 {
        } else {
            lemma_find_crlf_shift(b, p, i + 1);
        }
    }
}

/// Reads the line frame that starts at `pos`: the prefix byte, the text up
/// to the first CRLF, the CRLF.  On success returns the text and the
/// absolute end position.
pub(crate) fn line_decode_at(b: &[u8], pos: usize, prefix: u8) -> (r: Result<
    (String, usize),
    RespError,
>)
    requires
        pos <= b@.len(),
    ensures
        ({
            let rem = b@.skip(pos as int);
            match parse_text_line(rem, prefix) {
                LineOut::Incomplete => r == Err::<(String, usize), RespError>(
                    RespError::NotComplete,
                ),
                LineOut::Bad => r == Err::<(String, usize), RespError>(RespError::InvalidFrame),
                LineOut::Val(t, c) => r matches Ok(p) && p.0@ == chars_of(t) && p.1 == pos + c
                    && pos + 3 <= p.1 <= b@.len(),
            }
        }),
{
    let ghost rem = b@.skip(pos as int);
    if pos == b.len() {
        return Err(RespError::NotComplete);
    }
    proof {
        assert(rem[0] == b@[pos as int]);
    }
    if b[pos] != prefix {
        return Err(RespError::InvalidFrame);
    }
    proof {
        lemma_find_crlf_shift(b@, pos as int, 1);
    }
    let e = match find_crlf(b, pos + 1) {
        Some(e) => e,
        None => {
            return Err(RespError::NotComplete);
        },
    };
    let text: &[u8] = &b[pos + 1..e];
    proof {
        assert(text@ =~= rem.subrange(1, e - pos));
    }
    let s = bytes_to_string_lossy(text);
    Ok((s, e + 2))
}

/// Reads the line frame at the front of the buffer.
pub(crate) fn line_decode(b: &[u8], prefix: u8) -> (r: Result<(String, usize), RespError>)
    ensures
        match parse_text_line(b@, prefix) {
            LineOut::Incomplete => r == Err::<(String, usize), RespError>(RespError::NotComplete),
            LineOut::Bad => r == Err::<(String, usize), RespError>(RespError::InvalidFrame),
            LineOut::Val(t, c) => r matches Ok(p) && p.0@ == chars_of(t) && p.1 == c && c
                <= b@.len(),
        },
{
    proof {
        assert(b@.skip(0) =~= b@);
    }
    line_decode_at(b, 0, prefix)
}

/// Reads the length header of the container frame at `pos`: the prefix
/// byte, the decimal length, the CRLF.  Returns the length and the
/// absolute position just past the header.
fn parse_header_at(b: &[u8], pos: usize) -> (r: Result<(usize, usize), RespError>)
    requires
        pos < b@.len(),
    ensures
        ({
            let rem = b@.skip(pos as int);
            match parse_len_header(rem) {
                LenOut::Incomplete => r == Err::<(usize, usize), RespError>(
                    RespError::NotComplete,
                ),
                LenOut::Bad => r == Err::<(usize, usize), RespError>(RespError::InvalidFrame),
                LenOut::Val(n, hrel) => r matches Ok(p) && p.0 == n && p.1 == pos + hrel && pos
                    + 3 <= p.1 <= b@.len(),
            }
        }),
{
    let ghost rem = b@.skip(pos as int);
    let len = b.len();
    proof {
        lemma_find_crlf_shift(b@, pos as int, 1);
    }
    let e = match find_crlf(b, pos + 1) {
        Some(e) => e,
        None => {
            return Err(RespError::NotComplete);
        },
    };
    proof {
        assert(b@.subrange(pos + 1, e as int) =~= rem.subrange(1, e - pos));
    }
    match parse_usize(b, pos + 1, e) {
        Some(n) => Ok((n, e + 2)),
        None => Err(RespError::InvalidFrame),
    }
}

/// A parsed prefix composed with the outcome of the remaining items.
pub open spec fn prepend_items(pre: Seq<FrameModel>, d: int, o: ItemsOut) -> ItemsOut {
    match o {
        ItemsOut::Incomplete => ItemsOut::Incomplete,
        ItemsOut::Bad => ItemsOut::Bad,
        ItemsOut::Val(es, c) => ItemsOut::Val(pre + es, d + c),
    }
}

pub open spec fn prepend_pairs(pre: Seq<(Seq<char>, FrameModel)>, d: int, o: PairsOut) -> PairsOut {
    match o {
        PairsOut::Incomplete => PairsOut::Incomplete,
        PairsOut::Bad => PairsOut::Bad,
        PairsOut::Val(ps, c) => PairsOut::Val(pre + ps, d + c),
    }
}

proof fn lemma_prepend_items_assoc(p1: Seq<FrameModel>, d1: int, p2: Seq<FrameModel>, d2: int, o: ItemsOut)
    ensures
        prepend_items(p1, d1, prepend_items(p2, d2, o)) == prepend_items(p1 + p2, d1 + d2, o),
{
    match o {
        ItemsOut::Incomplete => {},
        ItemsOut::Bad => {},
        ItemsOut::Val(es, c) => {
            assert(p1 + (p2 + es) =~= (p1 + p2) + es);
        },
    }
}

proof fn lemma_prepend_pairs_assoc(
    p1: Seq<(Seq<char>, FrameModel)>,
    d1: int,
    p2: Seq<(Seq<char>, FrameModel)>,
    d2: int,
    o: PairsOut,
)
    ensures
        prepend_pairs(p1, d1, prepend_pairs(p2, d2, o)) == prepend_pairs(p1 + p2, d1 + d2, o),
{
    match o {
        PairsOut::Incomplete => {},
        PairsOut::Bad => {},
        PairsOut::Val(ps, c) => {
            assert(p1 + (p2 + ps) =~= (p1 + p2) + ps);
        },
    }
}

proof fn lemma_items_step(s: Seq<u8>, n: int)
    requires
        n > 0,
    ensures
        spec_parse(s) matches ParseOut::Val(f, c) ==> (1 <= c <= s.len() ==> parse_items(s, n)
            == prepend_items(seq![f], c, parse_items(s.skip(c), n - 1))),
{
    if let ParseOut::Val(f, c) = spec_parse(s) {
        if 1 <= c <= s.len() {
            match parse_items(s.skip(c), n - 1) {
                ItemsOut::Incomplete => {},
                ItemsOut::Bad => {},
                ItemsOut::Val(es, c2) => {},
            }
        }
    }
}

proof fn lemma_pairs_step(s: Seq<u8>, n: int)
    requires
        n > 0,
    ensures
        parse_text_line(s, 43u8) matches LineOut::Val(t, kc) ==> (3 <= kc <= s.len() ==> (
        spec_parse(s.skip(kc)) matches ParseOut::Val(v, vc) ==> (1 <= vc && kc + vc <= s.len()
            ==> parse_pairs(s, n) == prepend_pairs(
            seq![(chars_of(t), v)],
            kc + vc,
            parse_pairs(s.skip(kc + vc), n - 1),
        )))),
{
    if let LineOut::Val(t, kc) = parse_text_line(s, 43u8) {
        if 3 <= kc <= s.len() {
            if let ParseOut::Val(v, vc) = spec_parse(s.skip(kc)) {
                if 1 <= vc && kc + vc <= s.len() {
                    match parse_pairs(s.skip(kc + vc), n - 1) {
                        PairsOut::Incomplete => {},
                        PairsOut::Bad => {},
                        PairsOut::Val(ps, c2) => {},
                    }
                }
            }
        }
    }
}

/// Reads `n` frames starting at `h`, returning them with the absolute end
/// position.
fn parse_elems_at(b: &[u8], h: usize, n: usize) -> (r: Result<(Vec<RespFrame>, usize), RespError>)
    requires
        h <= b@.len(),
    ensures
        ({
            match parse_items(b@.skip(h as int), n as int) {
                ItemsOut::Incomplete => r == Err::<(Vec<RespFrame>, usize), RespError>(
                    RespError::NotComplete,
                ),
                ItemsOut::Bad => r == Err::<(Vec<RespFrame>, usize), RespError>(
                    RespError::InvalidFrame,
                ),
                ItemsOut::Val(es, c) => r matches Ok(p) && models_of(p.0@) == es && p.1 == h + c
                    && h <= p.1 <= b@.len(),
            }
        }),
    decreases b@.len() - h, 1int,
{
    let ghost rem_h = b@.skip(h as int);
    let mut elems: Vec<RespFrame> = Vec::new();
    let ghost mut acc: Seq<FrameModel> = Seq::empty();
    let mut cur: usize = h;
    let mut k: usize = 0;
    proof {
        assert(models_of(elems@) =~= acc);
        match parse_items(b@.skip(cur as int), (n - k) as int) {
            ItemsOut::Incomplete => {},
            ItemsOut::Bad => {},
            ItemsOut::Val(es, c) => {
                assert(acc + es =~= es);
            },
        }
    }
    while k < n
        invariant
            h <= cur <= b@.len(),
            k <= n,
            rem_h == b@.skip(h as int),
            models_of(elems@) == acc,
            parse_items(rem_h, n as int) == prepend_items(
                acc,
                cur - h,
                parse_items(b@.skip(cur as int), (n - k) as int),
            ),
        decreases n - k,
    {
        let ghost scur = b@.skip(cur as int);
        let (f, end) = match parse_at(b, cur) {
            Ok(p) => p,
            Err(e) => {
                return Err(e);
            },
        };
        proof {
            lemma_items_step(scur, (n - k) as int);
            assert(scur.skip(end - cur) =~= b@.skip(end as int));
            lemma_prepend_items_assoc(
                acc,
                cur - h,
                seq![f@],
                end - cur,
                parse_items(b@.skip(end as int), (n - k - 1) as int),
            );
            assert(acc + seq![f@] =~= acc.push(f@));
        }
        let ghost fm = f@;
        let ghost oldelems = elems@;
        elems.push(f);
        proof {
            lemma_models_of(oldelems);
            lemma_models_of(elems@);
            assert(models_of(elems@) =~= acc.push(fm));
            acc = acc.push(fm);
        }
        cur = end;
        k = k + 1;
    }
    proof {
        assert(b@.skip(cur as int).len() == b@.len() - cur);
        match parse_items(rem_h, n as int) {
            ItemsOut::Incomplete => {
                assert(false);
            },
            ItemsOut::Bad => {
                assert(false);
            },
            ItemsOut::Val(es, c) => {
                assert(acc + Seq::<FrameModel>::empty() =~= acc);
            },
        }
    }
    Ok((elems, cur))
}

/// Reads `n` key/value pairs starting at `h`, inserting each into a map;
/// returns the map with the absolute end position.
fn parse_map_at(b: &[u8], h: usize, n: usize) -> (r: Result<(RespMap, usize), RespError>)
    requires
        h <= b@.len(),
    ensures
        ({
            match parse_pairs(b@.skip(h as int), n as int) {
                PairsOut::Incomplete => r == Err::<(RespMap, usize), RespError>(
                    RespError::NotComplete,
                ),
                PairsOut::Bad => r == Err::<(RespMap, usize), RespError>(
                    RespError::InvalidFrame,
                ),
                PairsOut::Val(ps, c) => r matches Ok(p) && p.0@ == map_from_pairs(ps) && p.1 == h
                    + c && h <= p.1 <= b@.len(),
            }
        }),
    decreases b@.len() - h, 1int,
{
    let ghost rem_h = b@.skip(h as int);
    let mut rm = RespMap::new();
    let ghost mut acc: Seq<(Seq<char>, FrameModel)> = Seq::empty();
    let mut cur: usize = h;
    let mut k: usize = 0;
    proof {
        match parse_pairs(b@.skip(cur as int), (n - k) as int) {
            PairsOut::Incomplete => {},
            PairsOut::Bad => {},
            PairsOut::Val(ps, c) => {
                assert(acc + ps =~= ps);
            },
        }
    }
    while k < n
        invariant
            h <= cur <= b@.len(),
            k <= n,
            rem_h == b@.skip(h as int),
            rm@ == map_from_pairs(acc),
            parse_pairs(rem_h, n as int) == prepend_pairs(
                acc,
                cur - h,
                parse_pairs(b@.skip(cur as int), (n - k) as int),
            ),
        decreases n - k,
    {
        let ghost scur = b@.skip(cur as int);
        let (kstr, kend) = match line_decode_at(b, cur, 43u8) {
            Ok(p) => p,
            Err(e) => {
                return Err(e);
            },
        };
        let ghost t = parse_text_line(scur, 43u8)->Val_0;
        let (vf, vend) = match parse_at(b, kend) {
            Ok(p) => p,
            Err(e) => {
                proof {
                    assert(scur.skip(kend - cur) =~= b@.skip(kend as int));
                }
                return Err(e);
            },
        };
        proof {
            assert(scur.skip(kend - cur) =~= b@.skip(kend as int));
            lemma_pairs_step(scur, (n - k) as int);
            assert(scur.skip((kend - cur) + (vend - kend)) =~= b@.skip(vend as int));
            lemma_prepend_pairs_assoc(
                acc,
                cur - h,
                seq![(chars_of(t), vf@)],
                vend - cur,
                parse_pairs(b@.skip(vend as int), (n - k - 1) as int),
            );
            assert(acc + seq![(chars_of(t), vf@)] =~= acc.push((chars_of(t), vf@)));
            assert(map_from_pairs(acc.push((chars_of(t), vf@))) == map_insert_at(
                map_from_pairs(acc),
                chars_of(t),
                vf@,
            )) by {
                assert(acc.push((chars_of(t), vf@)).drop_last() =~= acc);
            }
            assert(kstr@ == chars_of(t));
        }
        let ghost vm = vf@;
        rm.insert(kstr, vf);
        proof {
            acc = acc.push((chars_of(t), vm));
        }
        cur = vend;
        k = k + 1;
    }
    proof {
        assert(b@.skip(cur as int).len() == b@.len() - cur);
        match parse_pairs(rem_h, n as int) {
            PairsOut::Incomplete => {
                assert(false);
            },
            PairsOut::Bad => {
                assert(false);
            },
            PairsOut::Val(ps, c) => {
                assert(acc + Seq::<(Seq<char>, FrameModel)>::empty() =~= acc);
            },
        }
    }
    Ok((rm, cur))
}

/// Reads the frame that starts at `pos`, returning it with its absolute
/// end position, or the grammar's incomplete or malformed outcome.
#[verifier::rlimit(100)]
pub(crate) fn parse_at(b: &[u8], pos: usize) -> (r: Result<(RespFrame, usize), RespError>)
    requires
        pos <= b@.len(),
    ensures
        ({
            let rem = b@.skip(pos as int);
            match spec_parse(rem) {
                ParseOut::Incomplete => r == Err::<(RespFrame, usize), RespError>(
                    RespError::NotComplete,
                ),
                ParseOut::Bad => r == Err::<(RespFrame, usize), RespError>(
                    RespError::InvalidFrame,
                ),
                ParseOut::Val(m, c) => r matches Ok(p) && p.0@ == m && p.1 == pos + c && pos
                    < p.1 <= b@.len(),
            }
        }),
    decreases b@.len() - pos, 0int,
{
    let ghost rem = b@.skip(pos as int);
    let len = b.len();
    if pos == len {
        return Err(RespError::NotComplete);
    }
    proof {
        assert(rem[0] == b@[pos as int]);
        assert(rem.len() == len - pos);
    }
    let p0 = b[pos];
    if p0 == 43u8 {
        match line_decode_at(b, pos, 43u8) {
            Ok((s, end)) => Ok((RespFrame::SimpleString(SimpleString(s)), end)),
            Err(e) => Err(e),
        }
    } else if p0 == 45u8 {
        match line_decode_at(b, pos, 45u8) {
            Ok((s, end)) => Ok((RespFrame::SimpleError(SimpleError(s)), end)),
            Err(e) => Err(e),
        }
    } else if p0 == 58u8 {
        proof {
            lemma_find_crlf_shift(b@, pos as int, 1);
        }
        let e = match find_crlf(b, pos + 1) {
            Some(e) => e,
            None => {
                return Err(RespError::NotComplete);
            },
        };
        proof {
            assert(b@.subrange(pos + 1, e as int) =~= rem.subrange(1, e - pos));
        }
        match parse_i64(b, pos + 1, e) {
            Some(i) => Ok((RespFrame::Integer(i), e + 2)),
            None => Err(RespError::InvalidFrame),
        }
    } else if p0 == 44u8 {
        proof {
            lemma_find_crlf_shift(b@, pos as int, 1);
        }
        let e = match find_crlf(b, pos + 1) {
            Some(e) => e,
            None => {
                return Err(RespError::NotComplete);
            },
        };
        let text: &[u8] = &b[pos + 1..e];
        proof {
            assert(text@ =~= rem.subrange(1, e - pos));
        }
        Ok((RespFrame::Double(RespDouble(slice_to_vec(text))), e + 2))
    } else if p0 == 95u8 {
        if len - pos < 3 {
            return Err(RespError::NotComplete);
        }
        proof {
            assert(rem[1] == b@[pos + 1]);
            assert(rem[2] == b@[pos + 2]);
        }
        if b[pos + 1] == 13u8 && b[pos + 2] == 10u8 {
            proof {
                assert(rem.subrange(0, 3) =~= null_text());
            }
            Ok((RespFrame::Null(RespNull), pos + 3))
        } else {
            proof {
                assert(rem.subrange(0, 3) != null_text()) by {
                    if rem.subrange(0, 3) == null_text() {
                        assert(rem.subrange(0, 3)[1] == rem[1]);
                        assert(rem.subrange(0, 3)[2] == rem[2]);
                    }
                }
            }
            Err(RespError::InvalidFrame)
        }
    } else if p0 == 35u8 {
        if len - pos < 2 {
            return Err(RespError::NotComplete);
        }
        let v = b[pos + 1];
        proof {
            assert(rem[1] == b@[pos + 1]);
        }
        if v != 116u8 && v != 102u8 {
            return Err(RespError::InvalidFrame);
        }
        if len - pos < 4 {
            return Err(RespError::NotComplete);
        }
        proof {
            assert(rem[2] == b@[pos + 2]);
            assert(rem[3] == b@[pos + 3]);
        }
        if b[pos + 2] == 13u8 && b[pos + 3] == 10u8 {
            Ok((RespFrame::Boolean(v == 116u8), pos + 4))
        } else {
            Err(RespError::InvalidFrame)
        }
    } else if p0 == 36u8 {
        if len - pos >= 5 && b[pos + 1] == 45u8 && b[pos + 2] == 49u8 && b[pos + 3] == 13u8 && b[
            pos + 4
        ] == 10u8 {
            proof {
                assert(rem.subrange(0, 5) =~= null_bulk_text());
            }
            return Ok((RespFrame::NullBulkString(RespNullBulkString), pos + 5));
        }
        proof {
            if rem.len() >= 5 && rem.subrange(0, 5) == null_bulk_text() {
                assert(rem.subrange(0, 5)[1] == rem[1]);
                assert(rem.subrange(0, 5)[2] == rem[2]);
                assert(rem.subrange(0, 5)[3] == rem[3]);
                assert(rem.subrange(0, 5)[4] == rem[4]);
                assert(rem[1] == b@[pos + 1]);
                assert(rem[2] == b@[pos + 2]);
                assert(rem[3] == b@[pos + 3]);
                assert(rem[4] == b@[pos + 4]);
                assert(false);
            }
        }
        let (n, h) = match parse_header_at(b, pos) {
            Ok(p) => p,
            Err(e) => {
                return Err(e);
            },
        };
        let total_end = match h.checked_add(n) {
            Some(x) => match x.checked_add(2) {
                Some(y) => y,
                None => {
                    proof {
                        assert(rem.len() < (h - pos) + n + 2);
                    }
                    return Err(RespError::NotComplete);
                },
            },
            None => {
                proof {
                    assert(rem.len() < (h - pos) + n + 2);
                }
                return Err(RespError::NotComplete);
            },
        };
        if len < total_end {
            proof {
                assert(rem.len() < (h - pos) + n + 2);
            }
            return Err(RespError::NotComplete);
        }
        proof {
            assert(rem[(h - pos) + n] == b@[h + n]);
            assert(rem[(h - pos) + n + 1] == b@[h + n + 1]);
        }
        if b[h + n] == 13u8 && b[h + n + 1] == 10u8 {
            let payload: &[u8] = &b[h..h + n];
            proof {
                assert(payload@ =~= rem.subrange(h - pos, (h - pos) + n));
            }
            Ok((RespFrame::BulkString(BulkString(slice_to_vec(payload))), total_end))
        } else {
            Err(RespError::InvalidFrame)
        }
    } else if p0 == 42u8 {
        if len - pos >= 5 && b[pos + 1] == 45u8 && b[pos + 2] == 49u8 && b[pos + 3] == 13u8 && b[
            pos + 4
        ] == 10u8 {
            proof {
                assert(rem.subrange(0, 5) =~= null_array_text());
                assert(models_of(Seq::<RespFrame>::empty()) =~= Seq::<FrameModel>::empty());
            }
            let empty: Vec<RespFrame> = Vec::new();
            return Ok((RespFrame::Array(RespArray(empty)), pos + 5));
        }
        proof {
            if rem.len() >= 5 && rem.subrange(0, 5) == null_array_text() {
                assert(rem.subrange(0, 5)[1] == rem[1]);
                assert(rem.subrange(0, 5)[2] == rem[2]);
                assert(rem.subrange(0, 5)[3] == rem[3]);
                assert(rem.subrange(0, 5)[4] == rem[4]);
                assert(rem[1] == b@[pos + 1]);
                assert(rem[2] == b@[pos + 2]);
                assert(rem[3] == b@[pos + 3]);
                assert(rem[4] == b@[pos + 4]);
                assert(false);
            }
        }
        let (n, h) = match parse_header_at(b, pos) {
            Ok(p) => p,
            Err(e) => {
                return Err(e);
            },
        };
        proof {
            assert(rem.skip(h - pos) =~= b@.skip(h as int));
        }
        let (elems, end) = match parse_elems_at(b, h, n) {
            Ok(p) => p,
            Err(e) => {
                return Err(e);
            },
        };
        Ok((RespFrame::Array(RespArray(elems)), end))
    } else if p0 == 37u8 {
        let (n, h) = match parse_header_at(b, pos) {
            Ok(p) => p,
            Err(e) => {
                return Err(e);
            },
        };
        proof {
            assert(rem.skip(h - pos) =~= b@.skip(h as int));
        }
        let (rm, end) = match parse_map_at(b, h, n) {
            Ok(p) => p,
            Err(e) => {
                return Err(e);
            },
        };
        Ok((RespFrame::Mapping(rm), end))
    } else if p0 == 126u8 {
        let (n, h) = match parse_header_at(b, pos) {
            Ok(p) => p,
            Err(e) => {
                return Err(e);
            },
        };
        proof {
            assert(rem.skip(h - pos) =~= b@.skip(h as int));
        }
        let (elems, end) = match parse_elems_at(b, h, n) {
            Ok(p) => p,
            Err(e) => {
                return Err(e);
            },
        };
        Ok((RespFrame::Members(RespSet(elems)), end))
    } else {
        Err(RespError::InvalidFrame)
    }
}

} // verus!
