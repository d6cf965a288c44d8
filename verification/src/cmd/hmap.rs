//! The hash-keyspace commands: hget, hset, hgetall, hmget.

use vstd::prelude::*;
use vstd::string::{StrSliceExecFns, StringSliceAdditionalSpecFns};
use vstd::utf8::{decode_utf8, valid_utf8};
use crate::backend::{pair_keys_distinct, pairs_to_map, str_view_set, str_views, Backend};
use crate::cmd::conn::spaces_unchanged;
use crate::cmd::smap::{all_bulk_texts, bulk_texts, texts_of};
use crate::cmd::{extract_args, is_bulk_with, validate_command, CommandError};
use crate::resp::array::RespArray;
use crate::resp::bulk_string::BulkString;
use crate::resp::frame::{
    clone_frame, entry_models, lemma_entry_models, lemma_models_of, model_of, models_of,
    RespFrame,
};
use crate::resp::map::{lemma_lex_lt_asym, lemma_map_insert_key_present, lemma_map_insert_sorted, RespMap};
use crate::resp::null::RespNull;
use crate::resp::simple_string::SimpleString;
use crate::resp::wire::{
    entries_sorted, key_bytes, lex_lt, map_insert_at, FrameModel,
};

verus! {

broadcast use vstd::utf8::encode_utf8_decode_utf8;

/// The hget command: read one field of one hash key.
#[derive(Debug)]
pub struct HGet {
    pub key: String,
    pub field: String,
}

/// The hset command: write one field of one hash key.
#[derive(Debug)]
pub struct HSet {
    pub key: String,
    pub field: String,
    pub value: RespFrame,
}

/// The hgetall command: read a hash key's whole field map, flattened;
/// the sort flag is internal, not parsed from the wire.
#[derive(Debug)]
pub struct HGetAll {
    pub key: String,
    pub sort: bool,
}

/// The hmget command: read several fields of one hash key.
#[derive(Debug)]
pub struct HMGet {
    pub key: String,
    pub fields: Vec<String>,
}

/// What converting an array into an hget command yields.
pub open spec fn hget_from(es: Seq<FrameModel>, r: Result<HGet, CommandError>) -> bool {
    if es.len() != 3 {
        r matches Err(e) && e matches CommandError::InvalidArgument(_)
    } else if !is_bulk_with(es[0], "hget".spec_bytes()) {
        r matches Err(e) && e matches CommandError::InvalidCommand(_)
    } else {
        match (es[1], es[2]) {
            (FrameModel::Bulk(kb), FrameModel::Bulk(fb)) => if valid_utf8(kb) && valid_utf8(
                fb,
            ) {
                r matches Ok(c) && c.key@ == decode_utf8(kb) && c.field@ == decode_utf8(fb)
            } else {
                r matches Err(e) && e matches CommandError::Utf8Error(_)
            },
            _ => r matches Err(e) && e matches CommandError::InvalidArgument(_),
        }
    }
}

/// What converting an array into an hset command yields: key and field
/// read as text, the value handed through as any frame.
pub open spec fn hset_from(es: Seq<FrameModel>, r: Result<HSet, CommandError>) -> bool {
    if es.len() != 4 {
        r matches Err(e) && e matches CommandError::InvalidArgument(_)
    } else if !is_bulk_with(es[0], "hset".spec_bytes()) {
        r matches Err(e) && e matches CommandError::InvalidCommand(_)
    } else {
        match (es[1], es[2]) {
            (FrameModel::Bulk(kb), FrameModel::Bulk(fb)) => if valid_utf8(kb) && valid_utf8(
                fb,
            ) {
                r matches Ok(c) && c.key@ == decode_utf8(kb) && c.field@ == decode_utf8(fb)
                    && c.value@ == es[3]
            } else {
                r matches Err(e) && e matches CommandError::Utf8Error(_)
            },
            _ => r matches Err(e) && e matches CommandError::InvalidArgument(_),
        }
    }
}

/// What converting an array into an hgetall command yields; the sort
/// flag always starts false.
pub open spec fn hgetall_from(es: Seq<FrameModel>, r: Result<HGetAll, CommandError>) -> bool {
    if es.len() != 2 {
        r matches Err(e) && e matches CommandError::InvalidArgument(_)
    } else if !is_bulk_with(es[0], "hgetall".spec_bytes()) {
        r matches Err(e) && e matches CommandError::InvalidCommand(_)
    } else {
        match es[1] {
            FrameModel::Bulk(kb) => if valid_utf8(kb) {
                r matches Ok(c) && c.key@ == decode_utf8(kb) && c.sort == false
            } else {
                r matches Err(e) && e matches CommandError::Utf8Error(_)
            },
            _ => r matches Err(e) && e matches CommandError::InvalidArgument(_),
        }
    }
}

/// What converting an array into an hmget command yields: the name, a
/// key, and at least one field, all read as text.
pub open spec fn hmget_from(es: Seq<FrameModel>, r: Result<HMGet, CommandError>) -> bool {
    if es.len() <= 2 {
        r matches Err(e) && e matches CommandError::InvalidArgument(_)
    } else if !is_bulk_with(es[0], "hmget".spec_bytes()) {
        r matches Err(e) && e matches CommandError::InvalidCommand(_)
    } else if all_bulk_texts(es, 1) {
        r matches Ok(c) && c.key@ == texts_of(es)[1] && str_views(c.fields@) == texts_of(
            es,
        ).skip(2)
    } else {
        r matches Err(e) && e matches CommandError::InvalidArgument(_)
    }
}

/// The mapping an abstract entry sequence induces, later entries winning.
pub open spec fn emap(es: Seq<(Seq<char>, FrameModel)>) -> Map<Seq<char>, FrameModel>
    decreases es.len(),
{
    if es.len() == 0 {
        Map::empty()
    } else {
        emap(es.drop_last()).insert(es.last().0, es.last().1)
    }
}

pub open spec fn entry_keys_distinct(es: Seq<(Seq<char>, FrameModel)>) -> bool {
    forall|i: int, j: int| 0 <= i < j < es.len() ==> es[i].0 != es[j].0
}

/// A flattened field map: field name as a bulk string, then its value,
/// entry by entry.
pub open spec fn flatten_entries(es: Seq<(Seq<char>, FrameModel)>) -> Seq<FrameModel>
    decreases es.len(),
{
    if es.len() == 0 {
        Seq::empty()
    } else {
        seq![FrameModel::Bulk(key_bytes(es[0].0)), es[0].1] + flatten_entries(es.drop_first())
    }
}

/// The per-field reply: the stored value, or the explicit null for a
/// field the map does not hold.
pub open spec fn hmget_reply(fm: Map<Seq<char>, FrameModel>, fields: Seq<Seq<char>>) -> Seq<
    FrameModel,
>
    decreases fields.len(),
{
    if fields.len() == 0 {
        Seq::empty()
    } else {
        seq![
            if fm.dom().contains(fields[0]) {
                fm[fields[0]]
            } else {
                FrameModel::Null
            },
        ] + hmget_reply(fm, fields.drop_first())
    }
}

/// Hget replies with the stored field frame, or the explicit null when
/// the key or field is absent; it touches nothing.
pub open spec fn hget_executed(c: HGet, pre: &Backend, post: &Backend, r: RespFrame) -> bool {
    spaces_unchanged(pre, post) && r@ == if pre.hash_space().dom().contains(c.key@)
        && pre.hash_space()[c.key@].dom().contains(c.field@) {
        pre.hash_space()[c.key@][c.field@]
    } else {
        FrameModel::Null
    }
}

/// Hset writes one field of the key's hash, creating the hash on first
/// use, touches no other keyspace, and replies with the fixed OK.
pub open spec fn hset_executed(c: HSet, pre: &Backend, post: &Backend, r: RespFrame) -> bool {
    &&& ({
        let inner = if pre.hash_space().dom().contains(c.key@) {
            pre.hash_space()[c.key@]
        } else {
            Map::<Seq<char>, FrameModel>::empty()
        };
        post.hash_space() == pre.hash_space().insert(c.key@, inner.insert(c.field@, c.value@))
    })
    &&& post.scalar_space() == pre.scalar_space()
    &&& post.set_space() == pre.set_space()
    &&& r@ == FrameModel::Simple("OK"@)
}

/// Hgetall replies with the flattened field map — an empty array for an
/// absent key — as some entry order whose induced mapping is the stored
/// field map; with the sort flag the entries are in ascending field
/// order.  It touches nothing.
pub open spec fn hgetall_executed(c: HGetAll, pre: &Backend, post: &Backend, r: RespFrame) -> bool {
    &&& spaces_unchanged(pre, post)
    &&& if !pre.hash_space().dom().contains(c.key@) {
        r@ == FrameModel::Arr(Seq::empty())
    } else {
        exists|es: Seq<(Seq<char>, FrameModel)>|
            entry_keys_distinct(es) && emap(es) == pre.hash_space()[c.key@] && (c.sort
                ==> entries_sorted(es)) && r@ == FrameModel::Arr(#[trigger] flatten_entries(es))
    }
}

/// Hmget replies with one element per requested field, in request order:
/// the stored value or the explicit null; an absent key gives all nulls.
/// It touches nothing.
pub open spec fn hmget_executed(c: HMGet, pre: &Backend, post: &Backend, r: RespFrame) -> bool {
    &&& spaces_unchanged(pre, post)
    &&& ({
        let fm = if pre.hash_space().dom().contains(c.key@) {
            pre.hash_space()[c.key@]
        } else {
            Map::<Seq<char>, FrameModel>::empty()
        };
        r@ == FrameModel::Arr(hmget_reply(fm, str_views(c.fields@)))
    })
}

/// Reads the key and field arguments at indices 1 and 2 as text.
fn two_texts(mut args: Vec<RespFrame>, ghost_e1: Ghost<FrameModel>, ghost_e2: Ghost<FrameModel>)
    -> (r: Result<((String, String), Option<RespFrame>), CommandError>)
    requires
        args@.len() == 2 || args@.len() == 3,
        model_of(args@[0]) == ghost_e1@,
        model_of(args@[1]) == ghost_e2@,
    ensures
        match (ghost_e1@, ghost_e2@) {
            (FrameModel::Bulk(kb), FrameModel::Bulk(fb)) => if valid_utf8(kb) && valid_utf8(
                fb,
            ) {
                r matches Ok(p) && p.0.0@ == decode_utf8(kb) && p.0.1@ == decode_utf8(fb) && (
                if args@.len() == 3 {
                    p.1 matches Some(f) && f@ == model_of(args@[2])
                } else {
                    p.1 is None
                })
            } else {
                r matches Err(e) && e matches CommandError::Utf8Error(_)
            },
            _ => r matches Err(e) && e matches CommandError::InvalidArgument(_),
        },
{
    let ghost a0 = args@;
    let first = args.remove(0);
    proof {
        assert(a0.remove(0) =~= a0.drop_first());
    }
    let second = args.remove(0);
    proof {
        assert(second == a0.drop_first()[0]);
        assert(second == a0[1]);
        if a0.len() == 3 {
            assert(a0.drop_first().drop_first() =~= args@);
            assert(args@[0] == a0[2]);
        }
    }
    match (first, second) {
        (RespFrame::BulkString(kb), RespFrame::BulkString(fb)) => {
            let key = match crate::resp::unicode::string_from_utf8(kb.0) {
                Ok(s) => s,
                Err(m) => {
                    return Err(CommandError::Utf8Error(m));
                },
            };
            let field = match crate::resp::unicode::string_from_utf8(fb.0) {
                Ok(s) => s,
                Err(m) => {
                    return Err(CommandError::Utf8Error(m));
                },
            };
            if args.len() > 0 {
                let third = args.remove(0);
                Ok(((key, field), Some(third)))
            } else {
                Ok(((key, field), None))
            }
        },
        _ => Err(CommandError::InvalidArgument("invalid key or field".to_owned())),
    }
}

impl HGet {
    pub fn try_from(value: RespArray) -> (r: Result<HGet, CommandError>)
        ensures
            hget_from(value@, r),
    {
        let ghost es = value@;
        proof {
            lemma_models_of(value.0@);
        }
        match validate_command(&value, &["hget"], 2) {
            Ok(()) => {},
            Err(e) => {
                return Err(e);
            },
        }
        let args = match extract_args(value, 1) {
            Ok(v) => v,
            Err(e) => {
                return Err(e);
            },
        };
        proof {
            lemma_models_of(args@);
            assert(models_of(args@)[0] == es[1]);
            assert(models_of(args@)[1] == es[2]);
        }
        match two_texts(args, Ghost(es[1]), Ghost(es[2])) {
            Ok(((key, field), _)) => Ok(HGet { key, field }),
            Err(e) => Err(e),
        }
    }

    /// Replies with the stored field frame or the explicit null.
    pub fn execute(self, backend: &mut Backend) -> (r: RespFrame)
        ensures
            hget_executed(self, old(backend), final(backend), r),
    {
        match backend.hget(self.key.as_str(), self.field.as_str()) {
            Some(v) => v,
            None => RespFrame::Null(RespNull),
        }
    }
}

impl HSet {
    pub fn try_from(value: RespArray) -> (r: Result<HSet, CommandError>)
        ensures
            hset_from(value@, r),
    {
        let ghost es = value@;
        proof {
            lemma_models_of(value.0@);
        }
        match validate_command(&value, &["hset"], 3) {
            Ok(()) => {},
            Err(e) => {
                return Err(e);
            },
        }
        let args = match extract_args(value, 1) {
            Ok(v) => v,
            Err(e) => {
                return Err(e);
            },
        };
        proof {
            lemma_models_of(args@);
            assert(models_of(args@)[0] == es[1]);
            assert(models_of(args@)[1] == es[2]);
            assert(models_of(args@)[2] == es[3]);
        }
        match two_texts(args, Ghost(es[1]), Ghost(es[2])) {
            Ok(((key, field), Some(v))) => Ok(HSet { key, field, value: v }),
            Ok((_, None)) => {
                proof {
                    assert(false);
                }
                Err(CommandError::InvalidArgument("invalid value".to_owned()))
            },
            Err(e) => Err(e),
        }
    }

    /// Writes the field and replies with the fixed OK simple string.
    pub fn execute(self, backend: &mut Backend) -> (r: RespFrame)
        ensures
            hset_executed(self, old(backend), final(backend), r),
    {
        backend.hset(self.key, self.field, self.value);
        RespFrame::SimpleString(SimpleString::new("OK"))
    }
}

/// The induced mapping agrees between stored pairs and their models.
proof fn lemma_emap_entry_models(s: Seq<(String, RespFrame)>)
    ensures
        emap(entry_models(s)) == pairs_to_map(s),
    decreases s.len(),
{
    lemma_entry_models(s);
    if s.len() > 0 {
        lemma_emap_entry_models(s.drop_last());
        lemma_entry_models(s.drop_last());
        assert(entry_models(s).drop_last() =~= entry_models(s.drop_last()));
        assert(entry_models(s).last() == (s.last().0@, model_of(s.last().1)));
    }
}

/// Prepending an entry whose key is absent from the rest inserts it.
proof fn lemma_emap_prepend(p: (Seq<char>, FrameModel), es: Seq<(Seq<char>, FrameModel)>)
    requires
        forall|j: int| 0 <= j < es.len() ==> (#[trigger] es[j]).0 != p.0,
    ensures
        emap(seq![p] + es) == emap(es).insert(p.0, p.1),
    decreases es.len(),
{
    if es.len() == 0 {
        assert(seq![p] + es =~= seq![p]);
        assert(seq![p].drop_last() =~= Seq::<(Seq<char>, FrameModel)>::empty());
        assert(emap(Seq::<(Seq<char>, FrameModel)>::empty()) =~= Map::<Seq<char>,
            FrameModel,
        >::empty());
        assert(emap(seq![p]) == emap(Seq::<(Seq<char>, FrameModel)>::empty()).insert(
            p.0,
            p.1,
        ));
        assert(emap(es) =~= Map::<Seq<char>, FrameModel>::empty());
        assert(emap(seq![p] + es) =~= emap(es).insert(p.0, p.1));
    } else {
        let front = es.drop_last();
        let last = es.last();
        assert((seq![p] + es).drop_last() =~= seq![p] + front);
        assert((seq![p] + es).last() == last);
        lemma_emap_prepend(p, front);
        assert(emap(seq![p] + es) == emap(front).insert(p.0, p.1).insert(last.0, last.1));
        assert(emap(front).insert(p.0, p.1).insert(last.0, last.1) =~= emap(front).insert(
            last.0,
            last.1,
        ).insert(p.0, p.1));
    }
}

/// Sorted insertion inserts into the induced mapping.
proof fn lemma_emap_insert(es: Seq<(Seq<char>, FrameModel)>, k: Seq<char>, v: FrameModel)
    requires
        entries_sorted(es),
    ensures
        emap(map_insert_at(es, k, v)) == emap(es).insert(k, v),
    decreases es.len(),
{
    if es.len() == 0 {
        assert(map_insert_at(es, k, v) =~= seq![(k, v)] + Seq::<(Seq<char>, FrameModel)>::empty());
        lemma_emap_prepend((k, v), Seq::empty());
    } else {
        let head = es[0];
        let tail = es.drop_first();
        assert(entries_sorted(tail)) by {
            assert(forall|i: int, j: int|
                0 <= i < j < tail.len() ==> lex_lt(
                    key_bytes(#[trigger] tail[i].0),
                    key_bytes(#[trigger] tail[j].0),
                ));
        }
        assert(es =~= seq![head] + tail);
        assert(forall|j: int| 0 <= j < tail.len() ==> lex_lt(
            key_bytes(head.0),
            key_bytes(#[trigger] tail[j].0),
        ));
        assert(forall|j: int| 0 <= j < tail.len() ==> (#[trigger] tail[j]).0 != head.0) by {
            assert forall|j: int| 0 <= j < tail.len() implies (#[trigger] tail[j]).0 != head.0 by {
                lemma_lex_lt_asym(key_bytes(head.0), key_bytes(tail[j].0));
            }
        }
        lemma_emap_prepend(head, tail);
        if lex_lt(key_bytes(k), key_bytes(head.0)) {
            assert(forall|j: int| 0 <= j < es.len() ==> lex_lt(
                key_bytes(k),
                key_bytes(#[trigger] es[j].0),
            )) by {
                assert forall|j: int| 0 <= j < es.len() implies lex_lt(
                    key_bytes(k),
                    key_bytes(es[j].0),
                ) by {
                    if j > 0 {
                        crate::resp::map::lemma_lex_lt_trans(
                            key_bytes(k),
                            key_bytes(head.0),
                            key_bytes(es[j].0),
                        );
                    }
                }
            }
            assert(forall|j: int| 0 <= j < es.len() ==> (#[trigger] es[j]).0 != k) by {
                assert forall|j: int| 0 <= j < es.len() implies (#[trigger] es[j]).0 != k by {
                    lemma_lex_lt_asym(key_bytes(k), key_bytes(es[j].0));
                }
            }
            lemma_emap_prepend((k, v), es);
        } else if key_bytes(k) == key_bytes(head.0) {
            assert(k == head.0) by {
                assert(decode_utf8(key_bytes(k)) == decode_utf8(key_bytes(head.0)));
            }
            assert(forall|j: int| 0 <= j < tail.len() ==> (#[trigger] tail[j]).0 != k);
            lemma_emap_prepend((k, v), tail);
            assert(emap(es).insert(k, v) =~= emap(tail).insert(k, v)) by {
                assert(emap(es) == emap(tail).insert(head.0, head.1));
            }
        } else {
            lemma_emap_insert(tail, k, v);
            let itail = map_insert_at(tail, k, v);
            assert(forall|j: int| 0 <= j < itail.len() ==> (#[trigger] itail[j]).0 != head.0)
                by {
                assert forall|j: int| 0 <= j < itail.len() implies (#[trigger] itail[j]).0
                    != head.0 by {
                    lemma_map_insert_key_present(tail, k, v, j);
                    crate::resp::map::lemma_lex_lt_total(key_bytes(k), key_bytes(head.0));
                    if itail[j].0 == k {
                        lemma_lex_lt_asym(key_bytes(head.0), key_bytes(k));
                        assert(key_bytes(head.0) != key_bytes(k));
                    }
                }
            }
            lemma_emap_prepend(head, itail);
            assert(emap(seq![head] + itail) == emap(itail).insert(head.0, head.1));
            assert(emap(itail).insert(head.0, head.1) =~= emap(tail).insert(head.0, head.1).insert(
                k,
                v,
            )) by {
                assert(emap(itail) == emap(tail).insert(k, v));
                assert(k != head.0) by {
                    crate::resp::map::lemma_lex_lt_total(key_bytes(k), key_bytes(head.0));
                    lemma_lex_lt_asym(key_bytes(head.0), key_bytes(k));
                }
            }
        }
    }
}

/// Builds a key-sorted map from snapshot pairs; the induced mapping is
/// kept.
fn sort_into_map(snap: Vec<(String, RespFrame)>) -> (r: RespMap)
    ensures
        entries_sorted(r@),
        emap(r@) == pairs_to_map(snap@),
    decreases snap@.len(),
{
    let mut rm = RespMap::new();
    let n = snap.len();
    let mut i: usize = 0;
    proof {
        assert(emap(rm@) =~= pairs_to_map(snap@.take(0)));
    }
    while i < n
        invariant
            i <= n,
            n == snap@.len(),
            entries_sorted(rm@),
            emap(rm@) == pairs_to_map(snap@.take(i as int)),
        decreases n - i,
    {
        let k = snap[i].0.clone();
        let v = clone_frame(&snap[i].1);
        let ghost pre = rm@;
        proof {
            lemma_map_insert_sorted(pre, k@, v@);
            lemma_emap_insert(pre, k@, v@);
        }
        rm.insert(k, v);
        proof {
            assert(snap@.take(i + 1).drop_last() =~= snap@.take(i as int));
            assert(snap@.take(i + 1).last() == snap@[i as int]);
        }
        i = i + 1;
    }
    proof {
        assert(snap@.take(n as int) =~= snap@);
    }
    rm
}

proof fn lemma_flatten_snoc(es: Seq<(Seq<char>, FrameModel)>, p: (Seq<char>, FrameModel))
    ensures
        flatten_entries(es.push(p)) == flatten_entries(es) + seq![
            FrameModel::Bulk(key_bytes(p.0)),
            p.1,
        ],
    decreases es.len(),
{
    if es.len() == 0 {
        assert(es.push(p).drop_first() =~= Seq::<(Seq<char>, FrameModel)>::empty());
        assert(es.push(p)[0] == p);
        assert(flatten_entries(es) =~= Seq::<FrameModel>::empty());
        assert(flatten_entries(Seq::<(Seq<char>, FrameModel)>::empty())
            =~= Seq::<FrameModel>::empty());
        assert(flatten_entries(es.push(p)) == seq![FrameModel::Bulk(key_bytes(p.0)), p.1]
            + flatten_entries(es.push(p).drop_first()));
        assert(flatten_entries(es.push(p)) =~= flatten_entries(es) + seq![
            FrameModel::Bulk(key_bytes(p.0)),
            p.1,
        ]);
    } else {
        assert(es.push(p)[0] == es[0]);
        assert(es.push(p).drop_first() =~= es.drop_first().push(p));
        lemma_flatten_snoc(es.drop_first(), p);
        assert(flatten_entries(es.push(p)) =~= flatten_entries(es) + seq![
            FrameModel::Bulk(key_bytes(p.0)),
            p.1,
        ]);
    }
}

/// Flattens stored pairs to alternating field-name bulk strings and
/// values, in the stored order.
fn flatten_pairs(v: &Vec<(String, RespFrame)>) -> (r: Vec<RespFrame>)
    ensures
        models_of(r@) == flatten_entries(entry_models(v@)),
{
    let ghost ems = entry_models(v@);
    proof {
        lemma_entry_models(v@);
    }
    let mut out: Vec<RespFrame> = Vec::new();
    let n = v.len();
    let mut i: usize = 0;
    proof {
        assert(models_of(out@) =~= flatten_entries(ems.take(0)));
    }
    while i < n
        invariant
            i <= n,
            n == v@.len(),
            ems == entry_models(v@),
            ems.len() == n,
            forall|j: int| 0 <= j < n ==> ems[j] == (v@[j].0@, model_of(v@[j].1)),
            models_of(out@) == flatten_entries(ems.take(i as int)),
        decreases n - i,
    {
        let kb = BulkString(v[i].0.as_str().as_bytes_vec());
        let ghost out0 = out@;
        out.push(RespFrame::BulkString(kb));
        let ghost out1 = out@;
        let f = clone_frame(&v[i].1);
        let ghost fm = f@;
        out.push(f);
        proof {
            lemma_models_of(out0);
            lemma_models_of(out1);
            lemma_models_of(out@);
            assert(ems.take(i as int).push(ems[i as int]) =~= ems.take(i + 1));
            lemma_flatten_snoc(ems.take(i as int), ems[i as int]);
            assert(models_of(out@) =~= flatten_entries(ems.take(i + 1))) by {
                assert(models_of(out@).len() == out@.len());
                assert(forall|j: int|
                    0 <= j < out@.len() ==> models_of(out@)[j] == model_of(#[trigger] out@[j]));
            }
        }
        i = i + 1;
    }
    proof {
        assert(ems.take(n as int) =~= ems);
    }
    out
}

/// Keys distinct as text when their bytes are strictly ordered.
proof fn lemma_sorted_distinct(es: Seq<(Seq<char>, FrameModel)>)
    requires
        entries_sorted(es),
    ensures
        entry_keys_distinct(es),
{
    assert forall|i: int, j: int| 0 <= i < j < es.len() implies es[i].0 != es[j].0 by {
        lemma_lex_lt_asym(key_bytes(es[i].0), key_bytes(es[j].0));
    }
}

impl HGetAll {
    pub fn try_from(value: RespArray) -> (r: Result<HGetAll, CommandError>)
        ensures
            hgetall_from(value@, r),
    {
        let ghost es = value@;
        proof {
            lemma_models_of(value.0@);
        }
        match validate_command(&value, &["hgetall"], 1) {
            Ok(()) => {},
            Err(e) => {
                return Err(e);
            },
        }
        let args = match extract_args(value, 1) {
            Ok(v) => v,
            Err(e) => {
                return Err(e);
            },
        };
        proof {
            lemma_models_of(args@);
            assert(models_of(args@)[0] == es[1]);
        }
        match crate::cmd::conn::utf8_arg(args, Ghost(es[1])) {
            Ok(s) => Ok(HGetAll { key: s, sort: false }),
            Err(e) => Err(e),
        }
    }

    /// Replies with the flattened field map, empty for an absent key;
    /// with the sort flag the fields come in ascending order.
    pub fn execute(self, backend: &mut Backend) -> (r: RespFrame)
        ensures
            hgetall_executed(self, old(backend), final(backend), r),
    {
        let snap = match backend.hgetall(self.key.as_str()) {
            Some(v) => v,
            None => {
                let empty: Vec<RespFrame> = Vec::new();
                proof {
                    assert(models_of(empty@) =~= Seq::<FrameModel>::empty());
                }
                return RespFrame::Array(crate::resp::array::RespArray(empty));
            },
        };
        let ghost fullmap = old(backend).hash_space()[self.key@];
        if self.sort {
            let rm = sort_into_map(snap);
            let ghost witness = rm@;
            let flat = flatten_pairs(&rm.0);
            proof {
                lemma_sorted_distinct(witness);
                assert(entry_keys_distinct(witness) && emap(witness) == fullmap && (self.sort
                    ==> entries_sorted(witness)) && models_of(flat@) == flatten_entries(witness));
            }
            RespFrame::Array(crate::resp::array::RespArray(flat))
        } else {
            let ghost witness = entry_models(snap@);
            let flat = flatten_pairs(&snap);
            proof {
                lemma_entry_models(snap@);
                lemma_emap_entry_models(snap@);
                assert(entry_keys_distinct(witness)) by {
                    assert(forall|a: int, b: int|
                        0 <= a < b < snap@.len() ==> (#[trigger] snap@[a].0@) != (
                        #[trigger] snap@[b].0@));
                    assert(forall|a: int|
                        0 <= a < snap@.len() ==> (#[trigger] witness[a]).0 == snap@[a].0@);
                }
                assert(entry_keys_distinct(witness) && emap(witness) == fullmap && (self.sort
                    ==> entries_sorted(witness)) && models_of(flat@) == flatten_entries(witness));
            }
            RespFrame::Array(crate::resp::array::RespArray(flat))
        }
    }
}

/// Looks one field up in snapshot pairs by text equality.
fn lookup_pair(pairs: &Vec<(String, RespFrame)>, f: &String) -> (r: Option<RespFrame>)
    requires
        pair_keys_distinct(pairs@),
    ensures
        match r {
            Some(x) => pairs_to_map(pairs@).dom().contains(f@) && x@ == pairs_to_map(pairs@)[f@],
            None => !pairs_to_map(pairs@).dom().contains(f@),
        },
{
    let n = pairs.len();
    let mut i: usize = 0;
    while i < n
        invariant
            i <= n,
            n == pairs@.len(),
            pair_keys_distinct(pairs@),
            forall|j: int| 0 <= j < i ==> (#[trigger] pairs@[j].0@) != f@,
        decreases n - i,
    {
        if pairs[i].0.eq(f) {
            let x = clone_frame(&pairs[i].1);
            proof {
                lemma_ptm_at(pairs@, i as int);
            }
            return Some(x);
        }
        i = i + 1;
    }
    proof {
        lemma_ptm_dom(pairs@, f@);
        if pairs_to_map(pairs@).dom().contains(f@) {
            let j = choose|j: int| 0 <= j < pairs@.len() && (#[trigger] pairs@[j].0@) == f@;
            assert(false);
        }
    }
    None
}

/// The induced mapping's domain is exactly the pair keys.
proof fn lemma_ptm_dom(s: Seq<(String, RespFrame)>, k: Seq<char>)
    ensures
        pairs_to_map(s).dom().contains(k) <==> exists|j: int|
            0 <= j < s.len() && (#[trigger] s[j].0@) == k,
    decreases s.len(),
{
    if s.len() > 0 {
        lemma_ptm_dom(s.drop_last(), k);
        if k == s.last().0@ {
            assert(s[s.len() - 1].0@ == k);
        } else {
            if pairs_to_map(s).dom().contains(k) {
                assert(pairs_to_map(s.drop_last()).dom().contains(k));
                let j = choose|j: int|
                    0 <= j < s.drop_last().len() && (#[trigger] s.drop_last()[j].0@) == k;
                assert(s[j].0@ == k);
            }
            if exists|j: int| 0 <= j < s.len() && (#[trigger] s[j].0@) == k {
                let j = choose|j: int| 0 <= j < s.len() && (#[trigger] s[j].0@) == k;
                assert(j != s.len() - 1);
                assert(s.drop_last()[j].0@ == k);
                assert(pairs_to_map(s.drop_last()).dom().contains(k));
            }
        }
    }
}

/// With distinct keys, the induced mapping reads each pair's value.
proof fn lemma_ptm_at(s: Seq<(String, RespFrame)>, i: int)
    requires
        pair_keys_distinct(s),
        0 <= i < s.len(),
    ensures
        pairs_to_map(s).dom().contains(s[i].0@),
        pairs_to_map(s)[s[i].0@] == s[i].1@,
    decreases s.len(),
{
    if i == s.len() - 1 {
    } else {
        assert(pair_keys_distinct(s.drop_last())) by {
            assert(forall|a: int, b: int|
                0 <= a < b < s.drop_last().len() ==> (#[trigger] s.drop_last()[a].0@) != (
                #[trigger] s.drop_last()[b].0@));
        }
        lemma_ptm_at(s.drop_last(), i);
        assert(s.drop_last()[i] == s[i]);
        assert(s[i].0@ != s.last().0@);
    }
}

impl HMGet {
    pub fn try_from(value: RespArray) -> (r: Result<HMGet, CommandError>)
        ensures
            hmget_from(value@, r),
    {
        let ghost es = value@;
        proof {
            lemma_models_of(value.0@);
        }
        if value.len() <= 2 {
            return Err(
                CommandError::InvalidArgument(
                    "wrong number of arguments for the hmget command".to_owned(),
                ),
            );
        }
        let n_args = value.len() - 1;
        match validate_command(&value, &["hmget"], n_args) {
            Ok(()) => {},
            Err(e) => {
                return Err(e);
            },
        }
        let args = match extract_args(value, 1) {
            Ok(v) => v,
            Err(e) => {
                return Err(e);
            },
        };
        let ghost ams = models_of(args@);
        proof {
            assert(ams == es.skip(1));
        }
        let mut texts = match bulk_texts(args) {
            Ok(v) => v,
            Err(e) => {
                proof {
                    assert(!all_bulk_texts(es, 1)) by {
                        let i = choose|i: int|
                            0 <= i < ams.len() && !((#[trigger] ams[i])
                                matches FrameModel::Bulk(b) && valid_utf8(b));
                        assert(es[i + 1] == ams[i]);
                    }
                }
                return Err(e);
            },
        };
        proof {
            if !all_bulk_texts(es, 1) {
                let i = choose|i: int|
                    1 <= i < es.len() && !((#[trigger] es[i]) matches FrameModel::Bulk(b)
                        && valid_utf8(b));
                assert(ams[i - 1] == es[i]);
                assert(!all_bulk_texts(ams, 0));
                assert(false);
            }
        }
        let ghost t0 = texts@;
        proof {
            assert(str_views(t0).len() == t0.len());
            assert(texts_of(ams).len() == ams.len());
            assert(t0.len() == ams.len());
        }
        let key = texts.remove(0);
        proof {
            assert(texts@ =~= t0.drop_first());
            assert(str_views(texts@) =~= texts_of(ams).drop_first());
            assert(texts_of(ams).drop_first() =~= texts_of(es).skip(2)) by {
                assert(forall|j: int|
                    0 <= j < ams.len() ==> texts_of(ams)[j] == decode_utf8(
                        (#[trigger] ams[j])->Bulk_0,
                    ));
                assert(forall|j: int|
                    0 <= j < es.len() ==> texts_of(es)[j] == decode_utf8(
                        (#[trigger] es[j])->Bulk_0,
                    ));
            }
            assert(key == t0[0]);
            assert(key@ == str_views(t0)[0]);
            assert(str_views(t0)[0] == texts_of(ams)[0]);
            assert(texts_of(ams)[0] == decode_utf8(ams[0]->Bulk_0));
            assert(ams[0] == es[1]);
            assert(key@ == texts_of(es)[1]);
        }
        Ok(HMGet { key, fields: texts })
    }

    /// Replies with the stored value or the explicit null for each
    /// requested field, in request order; an absent key gives all nulls.
    pub fn execute(self, backend: &mut Backend) -> (r: RespFrame)
        ensures
            hmget_executed(self, old(backend), final(backend), r),
    {
        let ghost fviews = str_views(self.fields@);
        let snap_opt = backend.hmget(self.key.as_str(), &self.fields);
        let ghost fm = if old(backend).hash_space().dom().contains(self.key@) {
            old(backend).hash_space()[self.key@]
        } else {
            Map::<Seq<char>, FrameModel>::empty()
        };
        proof {
            lemma_hmget_reply_len(fm, fviews);
        }
        let mut out: Vec<RespFrame> = Vec::new();
        let n = self.fields.len();
        let mut i: usize = 0;
        proof {
            assert(models_of(out@) =~= hmget_reply(fm, fviews).take(0));
        }
        match snap_opt {
            Some(snap) => {
                while i < n
                    invariant
                        i <= n,
                        n == self.fields@.len(),
                        fviews == str_views(self.fields@),
                        fviews.len() == n,
                        forall|j: int|
                            0 <= j < n ==> fviews[j] == (#[trigger] self.fields@[j])@,
                        hmget_reply(fm, fviews).len() == n,
                        forall|j: int|
                            0 <= j < n ==> #[trigger] hmget_reply(fm, fviews)[j] == (
                            if fm.dom().contains(fviews[j]) {
                                fm[fviews[j]]
                            } else {
                                FrameModel::Null
                            }),
                        models_of(out@) == hmget_reply(fm, fviews).take(i as int),
                        pair_keys_distinct(snap@),
                        pairs_to_map(snap@) == fm.restrict(str_view_set(self.fields@)),
                    decreases n - i,
                {
                    let elem = match lookup_pair(&snap, &self.fields[i]) {
                        Some(x) => {
                            proof {
                                assert(str_view_set(self.fields@).contains(fviews[i as int]));
                                assert(fm.restrict(str_view_set(self.fields@)).dom().contains(
                                    fviews[i as int],
                                ));
                                assert(x@ == fm[fviews[i as int]]);
                            }
                            x
                        },
                        None => {
                            proof {
                                assert(str_view_set(self.fields@).contains(fviews[i as int]));
                                assert(!fm.restrict(str_view_set(self.fields@)).dom().contains(
                                    fviews[i as int],
                                ));
                                assert(!fm.dom().contains(fviews[i as int]));
                            }
                            RespFrame::Null(RespNull)
                        },
                    };
                    let ghost out0 = out@;
                    let ghost em = elem@;
                    out.push(elem);
                    proof {
                        lemma_models_of(out0);
                        lemma_models_of(out@);
                        assert(em == hmget_reply(fm, fviews)[i as int]);
                        assert(models_of(out@) =~= hmget_reply(fm, fviews).take(i + 1));
                    }
                    i = i + 1;
                }
            },
            None => {
                proof {
                    assert(fm =~= Map::<Seq<char>, FrameModel>::empty());
                }
                while i < n
                    invariant
                        i <= n,
                        n == self.fields@.len(),
                        fviews == str_views(self.fields@),
                        fviews.len() == n,
                        fm == Map::<Seq<char>, FrameModel>::empty(),
                        hmget_reply(fm, fviews).len() == n,
                        forall|j: int|
                            0 <= j < n ==> #[trigger] hmget_reply(fm, fviews)[j]
                                == FrameModel::Null,
                        models_of(out@) == hmget_reply(fm, fviews).take(i as int),
                    decreases n - i,
                {
                    let elem = RespFrame::Null(RespNull);
                    let ghost out0 = out@;
                    out.push(elem);
                    proof {
                        lemma_models_of(out0);
                        lemma_models_of(out@);
                        assert(models_of(out@) =~= hmget_reply(fm, fviews).take(i + 1));
                    }
                    i = i + 1;
                }
            },
        }
        proof {
            assert(hmget_reply(fm, fviews).take(n as int) =~= hmget_reply(fm, fviews));
        }
        RespFrame::Array(crate::resp::array::RespArray(out))
    }
}

/// The per-field reply has one element per field, each the stored value
/// or the explicit null.
proof fn lemma_hmget_reply_len(fm: Map<Seq<char>, FrameModel>, fields: Seq<Seq<char>>)
    ensures
        hmget_reply(fm, fields).len() == fields.len(),
        forall|j: int|
            0 <= j < fields.len() ==> #[trigger] hmget_reply(fm, fields)[j] == (
            if fm.dom().contains(fields[j]) {
                fm[fields[j]]
            } else {
                FrameModel::Null
            }),
    decreases fields.len(),
{
    if fields.len() > 0 {
        lemma_hmget_reply_len(fm, fields.drop_first());
        assert forall|j: int| 0 <= j < fields.len() implies #[trigger] hmget_reply(
            fm,
            fields,
        )[j] == (if fm.dom().contains(fields[j]) {
            fm[fields[j]]
        } else {
            FrameModel::Null
        }) by {
            if j > 0 {
                assert(hmget_reply(fm, fields)[j] == hmget_reply(fm, fields.drop_first())[j - 1]);
                assert(fields.drop_first()[j - 1] == fields[j]);
            }
        }
    }
}

} // verus!
