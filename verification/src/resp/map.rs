//! The map frame: text keys to frames, kept in ascending key order.
//!
//! Iteration order is key-sorted regardless of insertion order; this is a
//! deliberate invariant of the frame, and the wire form writes entries in
//! that order.

use vstd::prelude::*;
use crate::resp::buf::{bm_advance, bm_bytes, bm_view};
use crate::resp::frame::{entry_models, lemma_entry_models, RespError, RespFrame};
use crate::resp::wire::{
    entries_sorted, key_bytes, lex_lt, map_insert_at, spec_parse, FrameModel, ParseOut,
};

verus! {

/// A map frame, written as `%<n>\r\n(<key><value>)*n` with keys as
/// simple strings, entries in ascending key order.
#[derive(Debug, PartialEq)]
pub struct RespMap(pub Vec<(String, RespFrame)>);

impl View for RespMap {
    type V = Seq<(Seq<char>, FrameModel)>;

    open spec fn view(&self) -> Seq<(Seq<char>, FrameModel)> {
        entry_models(self.0@)
    }
}

/// How two byte strings compare lexicographically.
#[derive(PartialEq, Eq, Structural, Debug, Clone, Copy)]
pub enum ByteOrder {
    Before,
    Same,
    After,
}

/// Three-way lexicographic comparison of byte strings.
pub(crate) fn bytes_cmp(a: &[u8], b: &[u8]) -> (r: ByteOrder)
    ensures
        r == ByteOrder::Before <==> lex_lt(a@, b@),
        r == ByteOrder::Same <==> a@ == b@,
        r == ByteOrder::After <==> lex_lt(b@, a@),
{
    let mut i: usize = 0;
    let alen = a.len();
    let blen = b.len();
    proof {
        assert(a@.skip(0) =~= a@);
        assert(b@.skip(0) =~= b@);
    }
    while i < alen && i < blen
        invariant
            i <= a@.len(),
            i <= b@.len(),
            alen == a@.len(),
            blen == b@.len(),
            forall|j: int| 0 <= j < i ==> a@[j] == b@[j],
            lex_lt(a@, b@) == lex_lt(a@.skip(i as int), b@.skip(i as int)),
            lex_lt(b@, a@) == lex_lt(b@.skip(i as int), a@.skip(i as int)),
        decreases alen - i,
    {
        let x = a[i];
        let y = b[i];
        if x < y {
            proof {
                assert(lex_lt(a@.skip(i as int), b@.skip(i as int)));
                assert(!lex_lt(b@.skip(i as int), a@.skip(i as int)));
                assert(a@ != b@) by {
                    assert(a@[i as int] != b@[i as int]);
                }
            }
            return ByteOrder::Before;
        }
        if x > y {
            proof {
                assert(lex_lt(b@.skip(i as int), a@.skip(i as int)));
                assert(!lex_lt(a@.skip(i as int), b@.skip(i as int)));
                assert(a@ != b@) by {
                    assert(a@[i as int] != b@[i as int]);
                }
            }
            return ByteOrder::After;
        }
        proof {
            assert(a@.skip(i as int).drop_first() =~= a@.skip(i + 1));
            assert(b@.skip(i as int).drop_first() =~= b@.skip(i + 1));
        }
        i = i + 1;
    }
    if alen == blen {
        proof {
            assert(a@ =~= b@);
            assert(a@.skip(i as int).len() == 0);
            assert(b@.skip(i as int).len() == 0);
            assert(!lex_lt(a@.skip(i as int), b@.skip(i as int)));
            assert(!lex_lt(b@.skip(i as int), a@.skip(i as int)));
        }
        ByteOrder::Same
    } else if alen < blen {
        proof {
            assert(a@.skip(i as int).len() == 0);
            assert(b@.skip(i as int).len() > 0);
            assert(a@.len() != b@.len());
            assert(a@ != b@);
        }
        ByteOrder::Before
    } else {
        proof {
            assert(b@.skip(i as int).len() == 0);
            assert(a@.skip(i as int).len() > 0);
            assert(a@ != b@);
        }
        ByteOrder::After
    }
}

/// Under a prefix of strictly smaller keys, sorted insertion leaves the
/// prefix in place.
proof fn lemma_map_insert_skip(
    es: Seq<(Seq<char>, FrameModel)>,
    k: Seq<char>,
    v: FrameModel,
    i: int,
)
    requires
        0 <= i <= es.len(),
        forall|j: int| 0 <= j < i ==> lex_lt(key_bytes(#[trigger] es[j].0), key_bytes(k)),
    ensures
        map_insert_at(es, k, v) == es.take(i) + map_insert_at(es.skip(i), k, v),
    decreases i,
{
    if i == 0 {
        assert(es.skip(0) =~= es);
        assert(es.take(0) + map_insert_at(es, k, v) =~= map_insert_at(es, k, v));
    } else {
        lemma_lex_lt_asym(key_bytes(es[0].0), key_bytes(k));
        assert(map_insert_at(es, k, v) == seq![es[0]] + map_insert_at(es.drop_first(), k, v));
        assert(es.drop_first() =~= es.skip(1));
        lemma_map_insert_skip(es.skip(1), k, v, i - 1);
        assert(es.skip(1).take(i - 1) =~= es.subrange(1, i));
        assert(es.skip(1).skip(i - 1) =~= es.skip(i));
        assert(seq![es[0]] + (es.subrange(1, i) + map_insert_at(es.skip(i), k, v)) =~= es.take(i)
            + map_insert_at(es.skip(i), k, v));
    }
}

/// Strict lexicographic order is asymmetric and irreflexive, so strictly
/// ordered byte strings differ.
pub proof fn lemma_lex_lt_asym(a: Seq<u8>, b: Seq<u8>)
    ensures
        lex_lt(a, b) ==> !lex_lt(b, a),
        lex_lt(a, b) ==> a != b,
    decreases a.len(),
{
    if b.len() == 0 || a.len() == 0 {
    } else if a[0] == b[0] {
        lemma_lex_lt_asym(a.drop_first(), b.drop_first());
        if lex_lt(a, b) && a == b {
            assert(a.drop_first() == b.drop_first());
            assert(lex_lt(a.drop_first(), b.drop_first()));
            assert(false);
        }
    }
}

/// Strict lexicographic order is transitive.
pub proof fn lemma_lex_lt_trans(a: Seq<u8>, b: Seq<u8>, c: Seq<u8>)
    requires
        lex_lt(a, b),
        lex_lt(b, c),
    ensures
        lex_lt(a, c),
    decreases a.len(),
{
    if a.len() == 0 {
    } else if b.len() == 0 {
    } else if a[0] < b[0] {
        if b[0] < c[0] {
        } else if b[0] == c[0] {
        }
    } else if a[0] == b[0] {
        if b[0] < c[0] {
        } else if b[0] == c[0] {
            lemma_lex_lt_trans(a.drop_first(), b.drop_first(), c.drop_first());
        }
    }
}

/// Total: two byte strings compare one way or the other, or are equal.
pub proof fn lemma_lex_lt_total(a: Seq<u8>, b: Seq<u8>)
    ensures
        lex_lt(a, b) || lex_lt(b, a) || a == b,
    decreases a.len(),
{
    if a.len() == 0 {
        if b.len() == 0 {
            assert(a =~= b);
        }
    } else if b.len() == 0 {
    } else if a[0] == b[0] {
        lemma_lex_lt_total(a.drop_first(), b.drop_first());
        if !lex_lt(a, b) && !lex_lt(b, a) {
            assert(a.drop_first() == b.drop_first());
            assert(a =~= seq![a[0]] + a.drop_first());
            assert(b =~= seq![b[0]] + b.drop_first());
        }
    }
}

/// When every present key is strictly smaller, sorted insertion appends.
pub proof fn lemma_map_insert_front_smaller(
    es: Seq<(Seq<char>, FrameModel)>,
    k: Seq<char>,
    v: FrameModel,
)
    requires
        forall|j: int| 0 <= j < es.len() ==> lex_lt(key_bytes(#[trigger] es[j].0), key_bytes(k)),
    ensures
        map_insert_at(es, k, v) == es.push((k, v)),
    decreases es.len(),
{
    if es.len() == 0 {
        assert(map_insert_at(es, k, v) =~= es.push((k, v)));
    } else {
        lemma_lex_lt_asym(key_bytes(es[0].0), key_bytes(k));
        assert(forall|j: int|
            0 <= j < es.drop_first().len() ==> lex_lt(
                key_bytes(#[trigger] es.drop_first()[j].0),
                key_bytes(k),
            ));
        lemma_map_insert_front_smaller(es.drop_first(), k, v);
        assert(seq![es[0]] + es.drop_first().push((k, v)) =~= es.push((k, v)));
    }
}

/// The map ordering law: sorted insertion keeps entries strictly
/// ascending, so a map built from the empty map by any sequence of
/// insertions holds ascending keys — and its wire form, which writes
/// entries in stored order, emits keys in ascending lexicographic order
/// regardless of insertion order.
pub proof fn lemma_map_insert_sorted(es: Seq<(Seq<char>, FrameModel)>, k: Seq<char>, v: FrameModel)
    requires
        entries_sorted(es),
    ensures
        entries_sorted(map_insert_at(es, k, v)),
        map_insert_at(es, k, v).len() >= 1,
        map_insert_at(es, k, v).len() <= es.len() + 1,
    decreases es.len(),
{
    if es.len() == 0 {
    } else if lex_lt(key_bytes(k), key_bytes(es[0].0)) {
        let r = seq![(k, v)] + es;
        assert forall|i: int, j: int| 0 <= i < j < r.len() implies lex_lt(
            key_bytes(r[i].0),
            key_bytes(r[j].0),
        ) by {
            if i == 0 {
                if j > 1 {
                    lemma_lex_lt_trans(key_bytes(k), key_bytes(es[0].0), key_bytes(r[j].0));
                }
            }
        }
    } else if key_bytes(k) == key_bytes(es[0].0) {
        let r = seq![(k, v)] + es.drop_first();
        assert(entries_sorted(es.drop_first())) by {
            assert(forall|i: int, j: int|
                0 <= i < j < es.drop_first().len() ==> lex_lt(
                    key_bytes(#[trigger] es.drop_first()[i].0),
                    key_bytes(#[trigger] es.drop_first()[j].0),
                ));
        }
        assert forall|i: int, j: int| 0 <= i < j < r.len() implies lex_lt(
            key_bytes(r[i].0),
            key_bytes(r[j].0),
        ) by {
            if i == 0 {
                assert(lex_lt(key_bytes(es[0].0), key_bytes(es[j].0)));
            }
        }
    } else {
        lemma_lex_lt_total(key_bytes(k), key_bytes(es[0].0));
        assert(lex_lt(key_bytes(es[0].0), key_bytes(k)));
        assert(entries_sorted(es.drop_first())) by {
            assert(forall|i: int, j: int|
                0 <= i < j < es.drop_first().len() ==> lex_lt(
                    key_bytes(#[trigger] es.drop_first()[i].0),
                    key_bytes(#[trigger] es.drop_first()[j].0),
                ));
        }
        lemma_map_insert_sorted(es.drop_first(), k, v);
        let tail = map_insert_at(es.drop_first(), k, v);
        let r = seq![es[0]] + tail;
        assert forall|i: int, j: int| 0 <= i < j < r.len() implies lex_lt(
            key_bytes(r[i].0),
            key_bytes(r[j].0),
        ) by {
            if i == 0 {
                lemma_map_insert_key_present(es.drop_first(), k, v, j - 1);
            }
        }
    }
}

/// Every key of a sorted insertion result is the inserted key or one of
/// the old keys; used to carry a lower bound across the insertion.
pub proof fn lemma_map_insert_key_present(
    es: Seq<(Seq<char>, FrameModel)>,
    k: Seq<char>,
    v: FrameModel,
    j: int,
)
    requires
        0 <= j < map_insert_at(es, k, v).len(),
    ensures
        map_insert_at(es, k, v)[j].0 == k || exists|t: int|
            0 <= t < es.len() && map_insert_at(es, k, v)[j].0 == #[trigger] es[t].0,
    decreases es.len(),
{
    if es.len() == 0 {
    } else if lex_lt(key_bytes(k), key_bytes(es[0].0)) {
    } else if key_bytes(k) == key_bytes(es[0].0) {
        if j > 0 {
            assert(map_insert_at(es, k, v)[j].0 == es.drop_first()[j - 1].0);
            assert(es.drop_first()[j - 1].0 == es[j].0);
        }
    } else {
        if j > 0 {
            lemma_map_insert_key_present(es.drop_first(), k, v, j - 1);
            assert(map_insert_at(es, k, v)[j] == map_insert_at(es.drop_first(), k, v)[j - 1]);
            if map_insert_at(es.drop_first(), k, v)[j - 1].0 != k {
                let t = choose|t: int|
                    0 <= t < es.drop_first().len() && map_insert_at(es.drop_first(), k, v)[j
                        - 1].0 == #[trigger] es.drop_first()[t].0;
                assert(es.drop_first()[t].0 == es[t + 1].0);
            }
        }
    }
}

impl Default for RespMap {
    /// The empty map.
    fn default() -> (r: Self)
        ensures
            r@ == Seq::<(Seq<char>, FrameModel)>::empty(),
    {
        RespMap(Vec::new())
    }
}

impl RespMap {
    pub fn new() -> (r: Self)
        ensures
            r@ == Seq::<(Seq<char>, FrameModel)>::empty(),
            entries_sorted(r@),
    {
        RespMap(Vec::new())
    }

    /// The number of entries.
    pub fn len(&self) -> (r: usize)
        ensures
            r == self@.len(),
    {
        proof {
            lemma_entry_models(self.0@);
        }
        self.0.len()
    }

    /// Inserts or replaces one entry, keeping the entries in ascending
    /// key order.
    #[verifier::loop_isolation(false)]
    pub fn insert(&mut self, key: String, value: RespFrame)
        ensures
            final(self)@ == map_insert_at(old(self)@, key@, value@),
    {
        let ghost olds = self@;
        let ghost oldv = self.0@;
        let ghost kb = key_bytes(key@);
        let ghost km = (key@, crate::resp::frame::model_of(value));
        proof {
            lemma_entry_models(self.0@);
        }
        let n = self.0.len();
        let mut i: usize = 0;
        while i < n
            invariant
                n == self.0.len(),
                i <= n,
                self.0@ == oldv,
                olds == entry_models(oldv),
                olds.len() == n,
                kb == key_bytes(key@),
                forall|j: int| 0 <= j < n ==> olds[j] == (oldv[j].0@, model_of_at(oldv, j)),
                forall|j: int| 0 <= j < i ==> lex_lt(key_bytes(#[trigger] olds[j].0), kb),
            decreases n - i,
        {
            let ks: &str = key.as_str();
            let kab: &[u8] = ks.as_bytes();
            let es: &str = self.0[i].0.as_str();
            let ebb: &[u8] = es.as_bytes();
            let ord = bytes_cmp(kab, ebb);
            proof {
                assert(kab@ == kb);
                assert(self.0@[i as int].0@ == olds[i as int].0);
                assert(ebb@ == key_bytes(olds[i as int].0));
            }
            match ord {
                ByteOrder::Before => {
                    proof {
                        lemma_map_insert_skip(olds, key@, km.1, i as int);
                        assert(olds.skip(i as int)[0] == olds[i as int]);
                        assert(map_insert_at(olds.skip(i as int), key@, km.1) == seq![km]
                            + olds.skip(i as int));
                    }
                    let pair = (key, value);
                    let ghost gp = pair;
                    self.0.insert(i, pair);
                    proof {
                        let target = olds.take(i as int) + (seq![km] + olds.skip(i as int));
                        let newv = self.0@;
                        assert(newv == oldv.insert(i as int, gp));
                        assert(newv.len() == n + 1);
                        assert(target.len() == n + 1);
                        assert forall|j: int| 0 <= j < newv.len() implies #[trigger] target[j]
                            == (newv[j].0@, model_of_at(newv, j)) by {
                            if j < i {
                                assert(newv[j] == oldv[j]);
                                assert(target[j] == olds[j]);
                            } else if j == i {
                                assert(newv[j] == gp);
                                assert(target[j] == km);
                            } else {
                                assert(newv[j] == oldv[j - 1]);
                                assert(target[j] == olds.skip(i as int)[j - i - 1]);
                                assert(olds.skip(i as int)[j - i - 1] == olds[j - 1]);
                            }
                        }
                        lemma_entry_models_pointwise(newv, target);
                    }
                    return ;
                },
                ByteOrder::Same => {
                    proof {
                        lemma_lex_lt_asym(kb, kb);
                        lemma_map_insert_skip(olds, key@, km.1, i as int);
                        assert(olds.skip(i as int)[0] == olds[i as int]);
                        assert(map_insert_at(olds.skip(i as int), key@, km.1) == seq![km]
                            + olds.skip(i as int).drop_first());
                    }
                    self.0.remove(i);
                    let pair = (key, value);
                    let ghost gp = pair;
                    self.0.insert(i, pair);
                    proof {
                        let target = olds.take(i as int) + (seq![km] + olds.skip(
                            i as int,
                        ).drop_first());
                        let mid = oldv.remove(i as int);
                        let newv = self.0@;
                        assert(newv == mid.insert(i as int, gp));
                        assert(mid.len() == n - 1);
                        assert(newv.len() == n);
                        assert(olds.skip(i as int).drop_first() =~= olds.skip(i + 1));
                        assert(target.len() == n);
                        assert forall|j: int| 0 <= j < newv.len() implies #[trigger] target[j]
                            == (newv[j].0@, model_of_at(newv, j)) by {
                            if j < i {
                                assert(mid[j] == oldv[j]);
                                assert(newv[j] == mid[j]);
                                assert(target[j] == olds[j]);
                            } else if j == i {
                                assert(newv[j] == gp);
                                assert(target[j] == km);
                            } else {
                                assert(newv[j] == mid[j - 1]);
                                assert(mid[j - 1] == oldv[j]);
                                assert(target[j] == olds.skip(i + 1)[j - i - 1]);
                                assert(olds.skip(i + 1)[j - i - 1] == olds[j]);
                            }
                        }
                        lemma_entry_models_pointwise(newv, target);
                    }
                    return ;
                },
                ByteOrder::After => {
                },
            }
            i = i + 1;
        }
        proof {
            lemma_map_insert_skip(olds, key@, km.1, n as int);
            assert(olds.skip(n as int) =~= Seq::<(Seq<char>, FrameModel)>::empty());
            assert(map_insert_at(olds.skip(n as int), key@, km.1) == seq![km]);
        }
        let pair = (key, value);
        let ghost gp = pair;
        self.0.push(pair);
        proof {
            let target = olds + seq![km];
            let newv = self.0@;
            assert(newv == oldv.push(gp));
            assert forall|j: int| 0 <= j < newv.len() implies #[trigger] target[j] == (
            newv[j].0@, model_of_at(newv, j)) by {
                if j < n {
                    assert(newv[j] == oldv[j]);
                    assert(target[j] == olds[j]);
                } else {
                    assert(newv[j] == gp);
                    assert(target[j] == km);
                }
            }
            lemma_entry_models_pointwise(newv, target);
            assert(olds.take(n as int) =~= olds);
            assert(olds + seq![km] =~= olds.take(n as int) + (seq![km] + olds.skip(n as int)));
        }
    }

    /// Encodes the frame: the length header, then each entry in ascending
    /// key order, the key as a simple-string frame.
    pub fn encode(self) -> (r: Vec<u8>)
        ensures
            r@ == crate::resp::wire::enc(FrameModel::Entries(self@)),
    {
        RespFrame::Mapping(self).encode()
    }

    /// Reads one map frame from the front of the buffer, consuming its
    /// bytes; wire pairs are inserted in order, so the decoded entries
    /// are key-sorted whatever order the wire carried.
    pub fn decode(buf: &mut bytes::BytesMut) -> (r: Result<Self, RespError>)
        ensures
            decode_map_post(old(buf), final(buf), r),
    {
        let b = bm_bytes(buf);
        if b.len() == 0 {
            return Err(RespError::NotComplete);
        }
        if b[0] != 37u8 {
            return Err(RespError::InvalidFrame);
        }
        proof {
            assert(bm_view(*old(buf)).skip(0) =~= bm_view(*old(buf)));
        }
        let (f, end) = match crate::resp::decode::parse_at(b, 0) {
            Ok(p) => p,
            Err(e) => {
                return Err(e);
            },
        };
        bm_advance(buf, end);
        match f {
            RespFrame::Mapping(m) => Ok(m),
            _ => {
                proof {
                    assert(false);
                }
                Err(RespError::InvalidFrame)
            },
        }
    }

    /// The total byte length of the map frame at the front of the buffer,
    /// without consuming anything.
    pub fn expect_length(buf: &[u8]) -> (r: Result<usize, RespError>)
        ensures
            crate::resp::array::expect_variant_post(buf@, r, 37u8),
    {
        if buf.len() == 0 {
            return Err(RespError::NotComplete);
        }
        if buf[0] != 37u8 {
            return Err(RespError::InvalidFrame);
        }
        proof {
            assert(buf@.skip(0) =~= buf@);
        }
        match crate::resp::decode::parse_at(buf, 0) {
            Ok((_, end)) => Ok(end),
            Err(e) => Err(e),
        }
    }
}

/// The model of one stored entry.
pub open spec fn model_of_at(v: Seq<(String, RespFrame)>, j: int) -> FrameModel {
    crate::resp::frame::model_of(v[j].1)
}

/// The entry models of a stored sequence are whatever sequence agrees
/// with them pointwise.
proof fn lemma_entry_models_pointwise(
    v: Seq<(String, RespFrame)>,
    s: Seq<(Seq<char>, FrameModel)>,
)
    requires
        s.len() == v.len(),
        forall|j: int| 0 <= j < v.len() ==> #[trigger] s[j] == (v[j].0@, model_of_at(v, j)),
    ensures
        entry_models(v) == s,
{
    lemma_entry_models(v);
    assert(entry_models(v) =~= s);
}

/// What decoding a map frame does.
pub open spec fn decode_map_post(
    pre: &bytes::BytesMut,
    post: &bytes::BytesMut,
    r: Result<RespMap, RespError>,
) -> bool {
    let b = bm_view(*pre);
    if b.len() == 0 {
        r == Err::<RespMap, RespError>(RespError::NotComplete) && bm_view(*post) == b
    } else if b[0] != 37u8 {
        r == Err::<RespMap, RespError>(RespError::InvalidFrame) && bm_view(*post) == b
    } else {
        match spec_parse(b) {
            ParseOut::Incomplete => r == Err::<RespMap, RespError>(RespError::NotComplete)
                && bm_view(*post) == b,
            ParseOut::Bad => r == Err::<RespMap, RespError>(RespError::InvalidFrame) && bm_view(
                *post,
            ) == b,
            ParseOut::Val(m, c) => r matches Ok(v) && m == FrameModel::Entries(v@) && bm_view(
                *post,
            ) == b.skip(c),
        }
    }
}

} // verus!
