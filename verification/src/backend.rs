//! The concurrent backend store: three independent keyspaces — scalar
//! values, hashes of fields, and sets of members — each backed by its own
//! concurrent map so that access to different keys does not serialize.
//!
//! The concurrent maps come from the `dashmap` crate and are read and
//! written through trusted wrappers; every operation's effect is stated
//! over the abstract contents of each keyspace.  Each wrapper call is one
//! atomic step on its keyspace, which is what makes the read-check-write
//! of `sadd` safe per element under concurrent callers.

use vstd::prelude::*;
use crate::resp::frame::RespFrame;
use crate::resp::wire::FrameModel;

verus! {

#[verifier::external_type_specification]
#[verifier::external_body]
#[verifier::reject_recursive_types(K)]
#[verifier::reject_recursive_types(V)]
#[verifier::reject_recursive_types(S)]
pub struct ExDashMap<K, V, S>(dashmap::DashMap<K, V, S>);

#[verifier::external_type_specification]
#[verifier::external_body]
#[verifier::reject_recursive_types(K)]
#[verifier::reject_recursive_types(S)]
pub struct ExDashSet<K, S>(dashmap::DashSet<K, S>);

/// The scalar keyspace a concurrent map holds: text key to frame value.
pub uninterp spec fn kv_contents(m: dashmap::DashMap<String, RespFrame>) -> Map<
    Seq<char>,
    FrameModel,
>;

/// The hash keyspace a concurrent map of maps holds: text key to a field
/// map of text field to frame value.
pub uninterp spec fn hkv_contents(
    m: dashmap::DashMap<String, dashmap::DashMap<String, RespFrame>>,
) -> Map<Seq<char>, Map<Seq<char>, FrameModel>>;

/// The set keyspace a concurrent map of sets holds: text key to the set
/// of member strings.
pub uninterp spec fn sset_contents(
    m: dashmap::DashMap<String, dashmap::DashSet<String>>,
) -> Map<Seq<char>, Set<Seq<char>>>;

/// The empty contents of each keyspace.
pub open spec fn kv_empty() -> Map<Seq<char>, FrameModel> {
    Map::empty()
}

pub open spec fn hkv_empty() -> Map<Seq<char>, Map<Seq<char>, FrameModel>> {
    Map::empty()
}

pub open spec fn sset_empty() -> Map<Seq<char>, Set<Seq<char>>> {
    Map::empty()
}

/// Relies on `dashmap::DashMap::new`: a fresh map holds nothing.
#[verifier::external_body]
fn kv_new() -> (r: dashmap::DashMap<String, RespFrame>)
    ensures
        kv_contents(r) == kv_empty(),
{
    dashmap::DashMap::new()
}

/// Relies on `dashmap::DashMap::new`: a fresh map holds nothing.
#[verifier::external_body]
fn hkv_new() -> (r: dashmap::DashMap<String, dashmap::DashMap<String, RespFrame>>)
    ensures
        hkv_contents(r) == hkv_empty(),
{
    dashmap::DashMap::new()
}

/// Relies on `dashmap::DashMap::new`: a fresh map holds nothing.
#[verifier::external_body]
fn sset_new() -> (r: dashmap::DashMap<String, dashmap::DashSet<String>>)
    ensures
        sset_contents(r) == sset_empty(),
{
    dashmap::DashMap::new()
}

/// Relies on `dashmap::DashMap::get`: the value the key maps to, cloned,
/// or nothing when the key is absent.
#[verifier::external_body]
fn kv_get(m: &dashmap::DashMap<String, RespFrame>, key: &str) -> (r: Option<RespFrame>)
    ensures
        match r {
            Some(f) => kv_contents(*m).dom().contains(key@) && f@ == kv_contents(*m)[key@],
            None => !kv_contents(*m).dom().contains(key@),
        },
{
    m.get(key).map(|v| v.value().clone())
}

/// Relies on `dashmap::DashMap::insert`: the key maps to the value
/// afterwards; other keys are untouched.
#[verifier::external_body]
fn kv_insert(m: &mut dashmap::DashMap<String, RespFrame>, key: String, value: RespFrame)
    ensures
        kv_contents(*final(m)) == kv_contents(*old(m)).insert(key@, value@),
{
    m.insert(key, value);
}

/// Relies on `dashmap::DashMap::get` on the outer and inner maps: the
/// value a field maps to under a key, cloned.
#[verifier::external_body]
fn hkv_get(
    m: &dashmap::DashMap<String, dashmap::DashMap<String, RespFrame>>,
    key: &str,
    field: &str,
) -> (r: Option<RespFrame>)
    ensures
        match r {
            Some(f) => hkv_contents(*m).dom().contains(key@) && hkv_contents(
                *m,
            )[key@].dom().contains(field@) && f@ == hkv_contents(*m)[key@][field@],
            None => !hkv_contents(*m).dom().contains(key@) || !hkv_contents(
                *m,
            )[key@].dom().contains(field@),
        },
{
    m.get(key).and_then(|v| v.get(field).map(|x| x.value().clone()))
}

/// Relies on `dashmap::DashMap::entry().or_default()` and the inner map's
/// `insert`: the per-key field map is created on first use, and the field
/// then maps to the value.
#[verifier::external_body]
fn hkv_insert(
    m: &mut dashmap::DashMap<String, dashmap::DashMap<String, RespFrame>>,
    key: String,
    field: String,
    value: RespFrame,
)
    ensures
        ({
            let pre = hkv_contents(*old(m));
            let inner = if pre.dom().contains(key@) {
                pre[key@]
            } else {
                Map::<Seq<char>, FrameModel>::empty()
            };
            hkv_contents(*final(m)) == pre.insert(key@, inner.insert(field@, value@))
        }),
{
    m.entry(key).or_default().insert(field, value);
}

/// The mapping a sequence of cloned pairs induces, later pairs winning.
pub open spec fn pairs_to_map(s: Seq<(String, RespFrame)>) -> Map<Seq<char>, FrameModel>
    decreases s.len(),
{
    if s.len() == 0 {
        Map::empty()
    } else {
        pairs_to_map(s.drop_last()).insert(s.last().0@, s.last().1@)
    }
}

pub open spec fn pair_keys_distinct(s: Seq<(String, RespFrame)>) -> bool {
    forall|i: int, j: int| 0 <= i < j < s.len() ==> s[i].0@ != s[j].0@
}

/// Relies on `dashmap::DashMap::get` and iteration over the inner map: a
/// snapshot of one key's field map as cloned pairs.  Iteration order is
/// unspecified, so only the induced mapping and the distinctness of the
/// field names are stated.
#[verifier::external_body]
fn hkv_entries(
    m: &dashmap::DashMap<String, dashmap::DashMap<String, RespFrame>>,
    key: &str,
) -> (r: Option<Vec<(String, RespFrame)>>)
    ensures
        match r {
            Some(v) => hkv_contents(*m).dom().contains(key@) && pair_keys_distinct(v@)
                && pairs_to_map(v@) == hkv_contents(*m)[key@],
            None => !hkv_contents(*m).dom().contains(key@),
        },
{
    m.get(key).map(|r| r.iter().map(|e| (e.key().clone(), e.value().clone())).collect())
}

/// Relies on `dashmap::DashMap::entry().or_default()` and
/// `dashmap::DashSet::insert`: the member set is created on first use,
/// and insert reports whether the value was newly added.
#[verifier::external_body]
fn sset_insert_one(
    m: &mut dashmap::DashMap<String, dashmap::DashSet<String>>,
    key: &str,
    value: String,
) -> (r: bool)
    ensures
        ({
            let pre = sset_contents(*old(m));
            let s0 = if pre.dom().contains(key@) {
                pre[key@]
            } else {
                Set::<Seq<char>>::empty()
            };
            r == !s0.contains(value@) && sset_contents(*final(m)) == pre.insert(
                key@,
                s0.insert(value@),
            )
        }),
{
    m.entry(key.to_owned()).or_default().insert(value)
}

/// Relies on `dashmap::DashMap::get` and `dashmap::DashSet::contains`:
/// membership of a value under a key; an absent key holds nothing.
#[verifier::external_body]
fn sset_contains(
    m: &dashmap::DashMap<String, dashmap::DashSet<String>>,
    key: &str,
    value: &str,
) -> (r: bool)
    ensures
        r == (sset_contents(*m).dom().contains(key@) && sset_contents(*m)[key@].contains(
            value@,
        )),
{
    m.get(key).map(|s| s.contains(value)).unwrap_or(false)
}

/// The member set a keyspace holds under a key; an absent key holds the
/// empty set.
pub open spec fn set_at(space: Map<Seq<char>, Set<Seq<char>>>, key: Seq<char>) -> Set<Seq<char>> {
    if space.dom().contains(key) {
        space[key]
    } else {
        Set::empty()
    }
}

/// The member set after adding each value in order.
pub open spec fn set_with(s: Set<Seq<char>>, vs: Seq<Seq<char>>) -> Set<Seq<char>>
    decreases vs.len(),
{
    if vs.len() == 0 {
        s
    } else {
        set_with(s.insert(vs[0]), vs.drop_first())
    }
}

/// How many of the values, taken in order, were not yet members when
/// their turn came.
pub open spec fn new_count(s: Set<Seq<char>>, vs: Seq<Seq<char>>) -> int
    decreases vs.len(),
{
    if vs.len() == 0 {
        0
    } else {
        (if s.contains(vs[0]) {
            0int
        } else {
            1int
        }) + new_count(s.insert(vs[0]), vs.drop_first())
    }
}

/// The views of a sequence of strings.
pub open spec fn str_views(vs: Seq<String>) -> Seq<Seq<char>> {
    vs.map_values(|s: String| s@)
}

proof fn lemma_set_with_push(s: Set<Seq<char>>, vs: Seq<Seq<char>>, x: Seq<char>)
    ensures
        set_with(s, vs.push(x)) == set_with(s, vs).insert(x),
        new_count(s, vs.push(x)) == new_count(s, vs) + (if set_with(s, vs).contains(x) {
            0int
        } else {
            1int
        }),
    decreases vs.len(),
{
    if vs.len() == 0 {
        assert(vs.push(x).drop_first() =~= Seq::<Seq<char>>::empty());
        assert(vs.push(x)[0] == x);
        assert(set_with(s.insert(x), Seq::<Seq<char>>::empty()) == s.insert(x));
        assert(new_count(s.insert(x), Seq::<Seq<char>>::empty()) == 0);
        assert(set_with(s, vs) == s);
        assert(new_count(s, vs) == 0);
    } else {
        assert(vs.push(x)[0] == vs[0]);
        assert(vs.push(x).drop_first() =~= vs.drop_first().push(x));
        lemma_set_with_push(s.insert(vs[0]), vs.drop_first(), x);
        assert(set_with(s, vs.push(x)) == set_with(s.insert(vs[0]), vs.drop_first().push(x)));
        assert(set_with(s, vs) == set_with(s.insert(vs[0]), vs.drop_first()));
        assert(new_count(s, vs.push(x)) == (if s.contains(vs[0]) {
            0int
        } else {
            1int
        }) + new_count(s.insert(vs[0]), vs.drop_first().push(x)));
    }
}

/// Newly-inserted counts add up across consecutive additions: adding two
/// batches in turn counts the same as adding their concatenation.
pub proof fn lemma_new_count_concat(s: Set<Seq<char>>, vs1: Seq<Seq<char>>, vs2: Seq<Seq<char>>)
    ensures
        new_count(s, vs1 + vs2) == new_count(s, vs1) + new_count(set_with(s, vs1), vs2),
        set_with(s, vs1 + vs2) == set_with(set_with(s, vs1), vs2),
    decreases vs1.len(),
{
    if vs1.len() == 0 {
        assert(vs1 + vs2 =~= vs2);
    } else {
        assert((vs1 + vs2)[0] == vs1[0]);
        assert((vs1 + vs2).drop_first() =~= vs1.drop_first() + vs2);
        lemma_new_count_concat(s.insert(vs1[0]), vs1.drop_first(), vs2);
    }
}

/// The newly-inserted count is exactly the growth of the member set: no
/// value is counted twice and none is lost.
pub proof fn lemma_new_count_growth(s: Set<Seq<char>>, vs: Seq<Seq<char>>)
    requires
        s.finite(),
    ensures
        set_with(s, vs).finite(),
        new_count(s, vs) == set_with(s, vs).len() - s.len(),
    decreases vs.len(),
{
    if vs.len() == 0 {
    } else {
        let s1 = s.insert(vs[0]);
        lemma_new_count_growth(s1, vs.drop_first());
        if s.contains(vs[0]) {
            assert(s1 =~= s);
        } else {
            broadcast use vstd::set_lib::group_set_properties;

            assert(s1.len() == s.len() + 1);
        }
    }
}

/// The three independent concurrent keyspaces.
pub struct BackendInner {
    map: dashmap::DashMap<String, RespFrame>,
    hmap: dashmap::DashMap<String, dashmap::DashMap<String, RespFrame>>,
    smap: dashmap::DashMap<String, dashmap::DashSet<String>>,
}

/// The store handle.  The three keyspaces are disjoint namespaces: a key
/// may exist in more than one of them with unrelated values.
pub struct Backend {
    inner: BackendInner,
}

impl Default for Backend {
    /// A fresh store with all three keyspaces empty.
    fn default() -> (r: Self)
        ensures
            r.scalar_space() == kv_empty(),
            r.hash_space() == hkv_empty(),
            r.set_space() == sset_empty(),
    {
        Backend { inner: BackendInner { map: kv_new(), hmap: hkv_new(), smap: sset_new() } }
    }
}

impl Backend {
    /// The scalar keyspace: key to stored frame.
    pub closed spec fn scalar_space(&self) -> Map<Seq<char>, FrameModel> {
        kv_contents(self.inner.map)
    }

    /// The hash keyspace: key to a field-to-frame mapping.
    pub closed spec fn hash_space(&self) -> Map<Seq<char>, Map<Seq<char>, FrameModel>> {
        hkv_contents(self.inner.hmap)
    }

    /// The set keyspace: key to a set of member strings.
    pub closed spec fn set_space(&self) -> Map<Seq<char>, Set<Seq<char>>> {
        sset_contents(self.inner.smap)
    }

    /// A fresh store with all three keyspaces empty.
    pub fn new() -> (r: Self)
        ensures
            r.scalar_space() == Map::<Seq<char>, FrameModel>::empty(),
            r.hash_space() == Map::<Seq<char>, Map<Seq<char>, FrameModel>>::empty(),
            r.set_space() == Map::<Seq<char>, Set<Seq<char>>>::empty(),
    {
        Backend { inner: BackendInner { map: kv_new(), hmap: hkv_new(), smap: sset_new() } }
    }

    /// The scalar value stored under the key, if any.
    pub fn get(&self, key: &str) -> (r: Option<RespFrame>)
        ensures
            match r {
                Some(f) => self.scalar_space().dom().contains(key@) && f@
                    == self.scalar_space()[key@],
                None => !self.scalar_space().dom().contains(key@),
            },
    {
        kv_get(&self.inner.map, key)
    }

    /// Stores the value under the key, replacing unconditionally.
    pub fn set(&mut self, key: String, value: RespFrame)
        ensures
            final(self).scalar_space() == old(self).scalar_space().insert(key@, value@),
            final(self).hash_space() == old(self).hash_space(),
            final(self).set_space() == old(self).set_space(),
    {
        kv_insert(&mut self.inner.map, key, value);
    }

    /// The frame a hash field holds under a key, if the key and field
    /// both exist.
    pub fn hget(&self, key: &str, field: &str) -> (r: Option<RespFrame>)
        ensures
            match r {
                Some(f) => self.hash_space().dom().contains(key@)
                    && self.hash_space()[key@].dom().contains(field@) && f@
                    == self.hash_space()[key@][field@],
                None => !self.hash_space().dom().contains(key@)
                    || !self.hash_space()[key@].dom().contains(field@),
            },
    {
        hkv_get(&self.inner.hmap, key, field)
    }

    /// Inserts or replaces one field of the key's hash, creating the
    /// per-key field map on first use.
    pub fn hset(&mut self, key: String, field: String, value: RespFrame)
        ensures
            ({
                let pre = old(self).hash_space();
                let inner = if pre.dom().contains(key@) {
                    pre[key@]
                } else {
                    Map::<Seq<char>, FrameModel>::empty()
                };
                final(self).hash_space() == pre.insert(key@, inner.insert(field@, value@))
            }),
            final(self).scalar_space() == old(self).scalar_space(),
            final(self).set_space() == old(self).set_space(),
    {
        hkv_insert(&mut self.inner.hmap, key, field, value);
    }

    /// A snapshot of the key's whole field map as pairs, in unspecified
    /// order, or nothing when the key is absent.
    pub fn hgetall(&self, key: &str) -> (r: Option<Vec<(String, RespFrame)>>)
        ensures
            match r {
                Some(v) => self.hash_space().dom().contains(key@) && pair_keys_distinct(v@)
                    && pairs_to_map(v@) == self.hash_space()[key@],
                None => !self.hash_space().dom().contains(key@),
            },
    {
        hkv_entries(&self.inner.hmap, key)
    }

    /// A snapshot of the key's field map restricted to the requested
    /// fields; fields not present are simply absent from the snapshot.
    pub fn hmget(&self, key: &str, fields: &Vec<String>) -> (r: Option<
        Vec<(String, RespFrame)>,
    >)
        ensures
            match r {
                Some(v) => self.hash_space().dom().contains(key@) && pair_keys_distinct(v@)
                    && pairs_to_map(v@) == self.hash_space()[key@].restrict(
                    str_view_set(fields@),
                ),
                None => !self.hash_space().dom().contains(key@),
            },
    {
        let snap = match hkv_entries(&self.inner.hmap, key) {
            Some(v) => v,
            None => {
                return None;
            },
        };
        let ghost fullmap = self.hash_space()[key@];
        let ghost fset = str_view_set(fields@);
        let mut out: Vec<(String, RespFrame)> = Vec::new();
        let n = snap.len();
        let mut i: usize = 0;
        proof {
            assert(pairs_to_map(snap@.take(0)) =~= Map::<Seq<char>, FrameModel>::empty());
            assert(pairs_to_map(out@) =~= pairs_to_map(snap@.take(0)).restrict(fset));
        }
        while i < n
            invariant
                i <= n,
                n == snap@.len(),
                pair_keys_distinct(snap@),
                pairs_to_map(snap@) == fullmap,
                fset == str_view_set(fields@),
                pair_keys_distinct(out@),
                forall|j: int|
                    0 <= j < out@.len() ==> exists|t: int|
                        0 <= t < i && (#[trigger] out@[j].0@) == snap@[t].0@,
                pairs_to_map(out@) == pairs_to_map(snap@.take(i as int)).restrict(fset),
            decreases n - i,
        {
            let ghost oldout = out@;
            proof {
                assert(snap@.take(i + 1).drop_last() =~= snap@.take(i as int));
                assert(snap@.take(i + 1).last() == snap@[i as int]);
            }
            if contains_string(fields, &snap[i].0) {
                let k = snap[i].0.clone();
                let f = crate::resp::frame::clone_frame(&snap[i].1);
                out.push((k, f));
                proof {
                    assert(fset.contains(snap@[i as int].0@));
                    assert(pairs_to_map(out@) == pairs_to_map(oldout).insert(
                        snap@[i as int].0@,
                        crate::resp::frame::model_of(snap@[i as int].1),
                    )) by {
                        assert(out@.drop_last() =~= oldout);
                    }
                    assert(pairs_to_map(out@) =~= pairs_to_map(snap@.take(i + 1)).restrict(
                        fset,
                    ));
                    assert forall|j: int| 0 <= j < out@.len() implies exists|t: int|
                        0 <= t < i + 1 && (#[trigger] out@[j].0@) == snap@[t].0@ by {
                        if j < oldout.len() {
                            assert(out@[j] == oldout[j]);
                        } else {
                            assert(out@[j].0@ == snap@[i as int].0@);
                        }
                    }
                    assert(pair_keys_distinct(out@)) by {
                        assert forall|a: int, b: int| 0 <= a < b < out@.len() implies out@[a].0@
                            != out@[b].0@ by {
                            if b == out@.len() - 1 {
                                let t = choose|t: int|
                                    0 <= t < i && (#[trigger] out@[a].0@) == snap@[t].0@;
                                assert(snap@[t].0@ != snap@[i as int].0@);
                            } else {
                                assert(out@[a] == oldout[a]);
                                assert(out@[b] == oldout[b]);
                            }
                        }
                    }
                }
            } else {
                proof {
                    assert(!fset.contains(snap@[i as int].0@));
                    assert(pairs_to_map(out@) =~= pairs_to_map(snap@.take(i + 1)).restrict(
                        fset,
                    ));
                }
            }
            i = i + 1;
        }
        proof {
            assert(snap@.take(n as int) =~= snap@);
        }
        Some(out)
    }

    /// Adds each value to the key's member set, creating the set on first
    /// use, and replies with the count of values that were newly
    /// inserted; values already present do not count.
    pub fn sadd(&mut self, key: &str, values: Vec<String>) -> (r: RespFrame)
        ensures
            values@.len() == 0 ==> final(self).set_space() == old(self).set_space(),
            values@.len() > 0 ==> final(self).set_space() == old(self).set_space().insert(
                key@,
                set_with(set_at(old(self).set_space(), key@), str_views(values@)),
            ),
            values@.len() <= 0x7fff_ffff_ffff_ffff ==> r@ == FrameModel::Int(
                new_count(set_at(old(self).set_space(), key@), str_views(values@)) as i64,
            ),
            final(self).scalar_space() == old(self).scalar_space(),
            final(self).hash_space() == old(self).hash_space(),
    {
        let ghost s0 = set_at(old(self).set_space(), key@);
        let ghost views = str_views(values@);
        let mut count: usize = 0;
        let n = values.len();
        let mut i: usize = 0;
        while i < n
            invariant
                i <= n,
                n == values@.len(),
                views == str_views(values@),
                views.len() == n,
                forall|j: int| 0 <= j < n ==> views[j] == values@[j]@,
                count <= i,
                count == new_count(s0, views.take(i as int)),
                set_at(self.set_space(), key@) == set_with(s0, views.take(i as int)),
                i == 0 ==> self.set_space() == old(self).set_space(),
                i > 0 ==> self.set_space() == old(self).set_space().insert(
                    key@,
                    set_with(s0, views.take(i as int)),
                ),
                self.scalar_space() == old(self).scalar_space(),
                self.hash_space() == old(self).hash_space(),
            decreases n - i,
        {
            let v = values[i].clone();
            let ghost scur = set_at(self.set_space(), key@);
            let newly = sset_insert_one(&mut self.inner.smap, key, v);
            proof {
                assert(views.take(i + 1) =~= views.take(i as int).push(views[i as int]));
                lemma_set_with_push(s0, views.take(i as int), views[i as int]);
            }
            if newly {
                count = count + 1;
            }
            i = i + 1;
        }
        proof {
            assert(views.take(n as int) =~= views);
        }
        let c64: u64 = count as u64;
        let c: i64 = if c64 <= 0x7fff_ffff_ffff_ffffu64 {
            c64 as i64
        } else {
            0x7fff_ffff_ffff_ffffi64
        };
        RespFrame::Integer(c)
    }

    /// Whether the value is a member of the key's set, as an integer
    /// frame: one when present, zero otherwise; an absent key holds
    /// nothing and is not an error.
    pub fn sismember(&self, key: &str, value: &str) -> (r: RespFrame)
        ensures
            r@ == FrameModel::Int(
                if set_at(self.set_space(), key@).contains(value@) {
                    1
                } else {
                    0
                },
            ),
    {
        if sset_contains(&self.inner.smap, key, value) {
            RespFrame::Integer(1)
        } else {
            RespFrame::Integer(0)
        }
    }
}

/// The set of views of the given strings.
pub open spec fn str_view_set(fields: Seq<String>) -> Set<Seq<char>> {
    Set::new(|k: Seq<char>| exists|i: int| 0 <= i < fields.len() && (#[trigger] fields[i])@ == k)
}

/// Whether some string in the list reads the same as the given one.
pub(crate) fn contains_string(fields: &Vec<String>, s: &String) -> (r: bool)
    ensures
        r == str_view_set(fields@).contains(s@),
{
    let n = fields.len();
    let mut i: usize = 0;
    while i < n
        invariant
            i <= n,
            n == fields@.len(),
            forall|j: int| 0 <= j < i ==> (#[trigger] fields@[j])@ != s@,
        decreases n - i,
    {
        if fields[i].eq(s) {
            proof {
                assert(str_view_set(fields@).contains(s@));
            }
            return true;
        }
        i = i + 1;
    }
    proof {
        assert(!str_view_set(fields@).contains(s@));
    }
    false
}

} // verus!
