//! The set-keyspace commands: sadd and sismember.

use vstd::prelude::*;
use vstd::string::StringSliceAdditionalSpecFns;
use vstd::utf8::{decode_utf8, valid_utf8};
use crate::backend::{new_count, set_at, set_with, str_views, Backend};
use crate::cmd::conn::spaces_unchanged;
use crate::cmd::{extract_args, is_bulk_with, validate_command, CommandError};
use crate::resp::array::RespArray;
use crate::resp::frame::{lemma_models_of, models_of, RespFrame};
use crate::resp::wire::FrameModel;

verus! {

/// The sadd command: add members to one key's set.
#[derive(Debug)]
pub struct SAdd {
    pub key: String,
    pub values: Vec<String>,
}

/// The sismember command: test one member of one key's set.
#[derive(Debug)]
pub struct SisMember {
    pub key: String,
    pub value: String,
}

/// The elements from `from` on are all bulk strings holding valid UTF-8.
pub open spec fn all_bulk_texts(es: Seq<FrameModel>, from: int) -> bool {
    forall|i: int|
        from <= i < es.len() ==> ((#[trigger] es[i]) matches FrameModel::Bulk(b) && valid_utf8(
            b,
        ))
}

/// The texts of a run of bulk-string elements.
pub open spec fn texts_of(es: Seq<FrameModel>) -> Seq<Seq<char>> {
    es.map_values(|m: FrameModel| decode_utf8(m->Bulk_0))
}

/// What converting an array into an sadd command yields: the name, a
/// key, and at least one value, all read as text.
pub open spec fn sadd_from(es: Seq<FrameModel>, r: Result<SAdd, CommandError>) -> bool {
    if es.len() <= 2 {
        r matches Err(e) && e matches CommandError::InvalidArgument(_)
    } else if !is_bulk_with(es[0], "sadd".spec_bytes()) {
        r matches Err(e) && e matches CommandError::InvalidCommand(_)
    } else if all_bulk_texts(es, 1) {
        r matches Ok(c) && c.key@ == texts_of(es)[1] && str_views(c.values@) == texts_of(
            es,
        ).skip(2)
    } else {
        r matches Err(e) && e matches CommandError::InvalidArgument(_)
    }
}

/// What converting an array into an sismember command yields.
pub open spec fn sismember_from(es: Seq<FrameModel>, r: Result<SisMember, CommandError>) -> bool {
    if es.len() != 3 {
        r matches Err(e) && e matches CommandError::InvalidArgument(_)
    } else if !is_bulk_with(es[0], "sismember".spec_bytes()) {
        r matches Err(e) && e matches CommandError::InvalidCommand(_)
    } else {
        match (es[1], es[2]) {
            (FrameModel::Bulk(kb), FrameModel::Bulk(vb)) => if valid_utf8(kb) && valid_utf8(
                vb,
            ) {
                r matches Ok(c) && c.key@ == decode_utf8(kb) && c.value@ == decode_utf8(vb)
            } else {
                r matches Err(e) && e matches CommandError::Utf8Error(_)
            },
            _ => r matches Err(e) && e matches CommandError::InvalidArgument(_),
        }
    }
}

/// Sadd adds every value to the key's member set and replies with the
/// count of values that were newly inserted; duplicates already present
/// do not increment the count.  Only the set keyspace changes.
pub open spec fn sadd_executed(c: SAdd, pre: &Backend, post: &Backend, r: RespFrame) -> bool {
    &&& c.values@.len() > 0 ==> post.set_space() == pre.set_space().insert(
        c.key@,
        set_with(set_at(pre.set_space(), c.key@), str_views(c.values@)),
    )
    &&& c.values@.len() == 0 ==> post.set_space() == pre.set_space()
    &&& c.values@.len() <= 0x7fff_ffff_ffff_ffff ==> r@ == FrameModel::Int(
        new_count(set_at(pre.set_space(), c.key@), str_views(c.values@)) as i64,
    )
    &&& post.scalar_space() == pre.scalar_space()
    &&& post.hash_space() == pre.hash_space()
}

/// Sismember replies one when the value is a member of the key's set and
/// zero otherwise — never an error, even for an absent key — and touches
/// nothing.
pub open spec fn sismember_executed(c: SisMember, pre: &Backend, post: &Backend, r: RespFrame) -> bool {
    spaces_unchanged(pre, post) && r@ == FrameModel::Int(
        if set_at(pre.set_space(), c.key@).contains(c.value@) {
            1
        } else {
            0
        },
    )
}

/// Reads every element as text, in order; the first element that is not
/// a valid-UTF-8 bulk string rejects the whole run.
#[verifier::loop_isolation(false)]
pub(crate) fn bulk_texts(args: Vec<RespFrame>) -> (r: Result<Vec<String>, CommandError>)
    ensures
        all_bulk_texts(models_of(args@), 0) ==> (r matches Ok(v) && str_views(v@) == texts_of(
            models_of(args@),
        )),
        !all_bulk_texts(models_of(args@), 0) ==> (r matches Err(e) && e
            matches CommandError::InvalidArgument(_)),
{
    let ghost ms = models_of(args@);
    proof {
        lemma_models_of(args@);
    }
    let mut out: Vec<String> = Vec::new();
    let mut rest = args;
    let ghost k: int = 0;
    while rest.len() > 0
        invariant
            0 <= k <= ms.len(),
            ms.len() - k == rest@.len(),
            forall|j: int| 0 <= j < rest@.len() ==> crate::resp::frame::model_of(
                #[trigger] rest@[j],
            ) == ms[k + j],
            forall|j: int|
                0 <= j < k ==> ((#[trigger] ms[j]) matches FrameModel::Bulk(b) && valid_utf8(
                    b,
                )),
            str_views(out@) == texts_of(ms.take(k)),
        decreases rest@.len(),
    {
        let ghost oldrest = rest@;
        let first = rest.remove(0);
        proof {
            assert(crate::resp::frame::model_of(first) == ms[k]);
            assert(oldrest.drop_first() =~= rest@);
        }
        let s = match first {
            RespFrame::BulkString(b) => match crate::resp::unicode::string_from_utf8(b.0) {
                Ok(s) => s,
                Err(_) => {
                    proof {
                        assert(!all_bulk_texts(ms, 0)) by {
                            assert(!(ms[k] matches FrameModel::Bulk(bb) && valid_utf8(bb)));
                        }
                    }
                    return Err(
                        CommandError::InvalidArgument("values must be text".to_owned()),
                    );
                },
            },
            _ => {
                proof {
                    assert(!all_bulk_texts(ms, 0)) by {
                        assert(!(ms[k] matches FrameModel::Bulk(bb) && valid_utf8(bb)));
                    }
                }
                return Err(CommandError::InvalidArgument("values must be text".to_owned()));
            },
        };
        let ghost oldout = out@;
        out.push(s);
        proof {
            assert(out@ == oldout.push(s));
            assert(str_views(out@).len() == out@.len());
            assert(texts_of(ms.take(k + 1)).len() == k + 1);
            assert forall|j: int| 0 <= j < out@.len() implies str_views(out@)[j] == texts_of(
                ms.take(k + 1),
            )[j] by {
                assert(str_views(out@)[j] == (out@[j])@);
                assert(texts_of(ms.take(k + 1))[j] == decode_utf8(ms.take(k + 1)[j]->Bulk_0));
                assert(ms.take(k + 1)[j] == ms[j]);
                if j < k {
                    assert(out@[j] == oldout[j]);
                    assert(str_views(oldout)[j] == (oldout[j])@);
                    assert(texts_of(ms.take(k))[j] == decode_utf8(ms.take(k)[j]->Bulk_0));
                    assert(ms.take(k)[j] == ms[j]);
                } else {
                    assert(out@[j] == s);
                }
            }
            assert(str_views(out@) =~= texts_of(ms.take(k + 1)));
            k = k + 1;
        }
    }
    proof {
        assert(ms.take(k) =~= ms);
        assert(all_bulk_texts(ms, 0));
    }
    Ok(out)
}

impl SAdd {
    pub fn try_from(value: RespArray) -> (r: Result<SAdd, CommandError>)
        ensures
            sadd_from(value@, r),
    {
        let ghost es = value@;
        proof {
            lemma_models_of(value.0@);
        }
        if value.len() <= 2 {
            return Err(
                CommandError::InvalidArgument(
                    "wrong number of arguments for the sadd command".to_owned(),
                ),
            );
        }
        let n_args = value.len() - 1;
        match validate_command(&value, &["sadd"], n_args) {
            Ok(()) => {},
            Err(e) => {
                return Err(e);
            },
        }
        let args = match extract_args(value, 1) {
            Ok(v) => v,
            Err(e) => {
                return Err(e);
            },
        };
        let ghost ams = models_of(args@);
        proof {
            assert(ams == es.skip(1));
        }
        let mut texts = match bulk_texts(args) {
            Ok(v) => v,
            Err(e) => {
                proof {
                    assert(!all_bulk_texts(es, 1)) by {
                        let i = choose|i: int|
                            0 <= i < ams.len() && !((#[trigger] ams[i])
                                matches FrameModel::Bulk(b) && valid_utf8(b));
                        assert(es[i + 1] == ams[i]);
                    }
                }
                return Err(e);
            },
        };
        proof {
            if !all_bulk_texts(es, 1) {
                let i = choose|i: int|
                    1 <= i < es.len() && !((#[trigger] es[i]) matches FrameModel::Bulk(b)
                        && valid_utf8(b));
                assert(ams[i - 1] == es[i]);
                assert(!all_bulk_texts(ams, 0));
                assert(false);
            }
        }
        let ghost t0 = texts@;
        proof {
            assert(str_views(t0).len() == t0.len());
            assert(texts_of(ams).len() == ams.len());
            assert(t0.len() == ams.len());
        }
        let key = texts.remove(0);
        proof {
            assert(texts@ =~= t0.drop_first());
            assert(str_views(texts@) =~= texts_of(ams).drop_first());
            assert(texts_of(ams).drop_first() =~= texts_of(es).skip(2)) by {
                assert(forall|j: int|
                    0 <= j < ams.len() ==> texts_of(ams)[j] == decode_utf8(
                        (#[trigger] ams[j])->Bulk_0,
                    ));
                assert(forall|j: int|
                    0 <= j < es.len() ==> texts_of(es)[j] == decode_utf8(
                        (#[trigger] es[j])->Bulk_0,
                    ));
            }
            assert(key == t0[0]);
            assert(key@ == str_views(t0)[0]);
            assert(str_views(t0)[0] == texts_of(ams)[0]);
            assert(texts_of(ams)[0] == decode_utf8(ams[0]->Bulk_0));
            assert(ams[0] == es[1]);
            assert(key@ == texts_of(es)[1]);
        }
        Ok(SAdd { key, values: texts })
    }

    /// Adds the values and replies with the newly-inserted count.
    pub fn execute(self, backend: &mut Backend) -> (r: RespFrame)
        ensures
            sadd_executed(self, old(backend), final(backend), r),
    {
        backend.sadd(self.key.as_str(), self.values)
    }
}

impl SisMember {
    pub fn try_from(value: RespArray) -> (r: Result<SisMember, CommandError>)
        ensures
            sismember_from(value@, r),
    {
        let ghost es = value@;
        proof {
            lemma_models_of(value.0@);
        }
        match validate_command(&value, &["sismember"], 2) {
            Ok(()) => {},
            Err(e) => {
                return Err(e);
            },
        }
        let mut args = match extract_args(value, 1) {
            Ok(v) => v,
            Err(e) => {
                return Err(e);
            },
        };
        proof {
            lemma_models_of(args@);
        }
        let ghost a0 = args@;
        let first = args.remove(0);
        proof {
            assert(a0.remove(0) =~= a0.drop_first());
        }
        let second = args.remove(0);
        proof {
            lemma_models_of(a0);
            assert(first == a0[0]);
            assert(second == a0.drop_first()[0]);
            assert(second == a0[1]);
            assert(crate::resp::frame::models_of(a0)[0] == es[1]);
            assert(crate::resp::frame::models_of(a0)[1] == es[2]);
        }
        match (first, second) {
            (RespFrame::BulkString(kb), RespFrame::BulkString(vb)) => {
                let key = match crate::resp::unicode::string_from_utf8(kb.0) {
                    Ok(s) => s,
                    Err(m) => {
                        return Err(CommandError::Utf8Error(m));
                    },
                };
                let val = match crate::resp::unicode::string_from_utf8(vb.0) {
                    Ok(s) => s,
                    Err(m) => {
                        return Err(CommandError::Utf8Error(m));
                    },
                };
                Ok(SisMember { key, value: val })
            },
            _ => Err(CommandError::InvalidArgument("invalid key or member".to_owned())),
        }
    }

    /// Replies one when the value is a member, zero otherwise.
    pub fn execute(self, backend: &mut Backend) -> (r: RespFrame)
        ensures
            sismember_executed(self, old(backend), final(backend), r),
    {
        backend.sismember(self.key.as_str(), self.value.as_str())
    }
}

} // verus!
