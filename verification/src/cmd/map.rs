//! The scalar-keyspace commands: get and set.

use vstd::prelude::*;
use vstd::string::StringSliceAdditionalSpecFns;
use vstd::utf8::{decode_utf8, valid_utf8};
use crate::backend::Backend;
use crate::cmd::conn::spaces_unchanged;
use crate::cmd::{extract_args, is_bulk_with, validate_command, CommandError};
use crate::resp::array::RespArray;
use crate::resp::frame::{lemma_models_of, model_of, RespFrame};
use crate::resp::null::RespNull;
use crate::resp::simple_string::SimpleString;
use crate::resp::wire::FrameModel;

verus! {

/// The get command: read one scalar key.
#[derive(Debug)]
pub struct Get {
    pub key: String,
}

/// The set command: store one scalar key.
#[derive(Debug)]
pub struct SetCmd {
    pub key: String,
    pub value: RespFrame,
}

/// What the shared validate-and-extract helper yields: arity checked
/// first, then the command name, then the key read as text; the element
/// after the key, if any, is handed through untouched.
pub open spec fn eva_from(
    es: Seq<FrameModel>,
    command: &str,
    expected: int,
    r: Result<(String, Option<RespFrame>), CommandError>,
) -> bool {
    if es.len() != 1 + expected {
        r matches Err(e) && e matches CommandError::InvalidArgument(_)
    } else if !is_bulk_with(es[0], command.spec_bytes()) {
        r matches Err(e) && e matches CommandError::InvalidCommand(_)
    } else if es.len() < 2 {
        r matches Err(e) && e matches CommandError::InvalidArgument(_)
    } else {
        match es[1] {
            FrameModel::Bulk(b) => if valid_utf8(b) {
                r matches Ok(p) && p.0@ == decode_utf8(b) && (if es.len() >= 3 {
                    p.1 matches Some(f) && f@ == es[2]
                } else {
                    p.1 is None
                })
            } else {
                r matches Err(e) && e matches CommandError::Utf8Error(_)
            },
            _ => r matches Err(e) && e matches CommandError::InvalidArgument(_),
        }
    }
}

/// Validates the command shape and hands back the key, and the value
/// element when one follows the key.
pub fn extract_and_validate_args(value: RespArray, command: &str, expected_args: usize) -> (r:
    Result<(String, Option<RespFrame>), CommandError>)
    ensures
        eva_from(value@, command, expected_args as int, r),
{
    let ghost es = value@;
    proof {
        lemma_models_of(value.0@);
    }
    match validate_command(&value, &[command], expected_args) {
        Ok(()) => {},
        Err(e) => {
            return Err(e);
        },
    }
    let mut args = match extract_args(value, 1) {
        Ok(v) => v,
        Err(e) => {
            return Err(e);
        },
    };
    proof {
        lemma_models_of(args@);
    }
    if args.len() == 0 {
        return Err(CommandError::InvalidArgument("missing key".to_owned()));
    }
    let ghost oldargs = args@;
    let first = args.remove(0);
    proof {
        lemma_models_of(oldargs);
        assert(crate::resp::frame::models_of(oldargs)[0] == es[1]);
    }
    let key = match first {
        RespFrame::BulkString(b) => match crate::resp::unicode::string_from_utf8(b.0) {
            Ok(s) => s,
            Err(m) => {
                return Err(CommandError::Utf8Error(m));
            },
        },
        _ => {
            return Err(CommandError::InvalidArgument("invalid key".to_owned()));
        },
    };
    if args.len() > 0 {
        let ghost rem = args@;
        let second = args.remove(0);
        proof {
            lemma_models_of(oldargs);
            lemma_models_of(rem);
            assert(rem =~= oldargs.drop_first());
            assert(rem[0] == oldargs[1]);
            assert(crate::resp::frame::models_of(rem)[0] == crate::resp::frame::model_of(
                rem[0],
            ));
            assert(crate::resp::frame::models_of(oldargs)[1] == crate::resp::frame::model_of(
                oldargs[1],
            ));
            assert(crate::resp::frame::models_of(rem)[0] == es[2]);
        }
        Ok((key, Some(second)))
    } else {
        Ok((key, None))
    }
}

/// What converting an array into a get command yields.
pub open spec fn get_from(es: Seq<FrameModel>, r: Result<Get, CommandError>) -> bool {
    if es.len() != 2 {
        r matches Err(e) && e matches CommandError::InvalidArgument(_)
    } else if !is_bulk_with(es[0], "get".spec_bytes()) {
        r matches Err(e) && e matches CommandError::InvalidCommand(_)
    } else {
        match es[1] {
            FrameModel::Bulk(b) => if valid_utf8(b) {
                r matches Ok(c) && c.key@ == decode_utf8(b)
            } else {
                r matches Err(e) && e matches CommandError::Utf8Error(_)
            },
            _ => r matches Err(e) && e matches CommandError::InvalidArgument(_),
        }
    }
}

/// What converting an array into a set command yields: the key read as
/// text, the value handed through as any frame.
pub open spec fn set_from(es: Seq<FrameModel>, r: Result<SetCmd, CommandError>) -> bool {
    if es.len() != 3 {
        r matches Err(e) && e matches CommandError::InvalidArgument(_)
    } else if !is_bulk_with(es[0], "set".spec_bytes()) {
        r matches Err(e) && e matches CommandError::InvalidCommand(_)
    } else {
        match es[1] {
            FrameModel::Bulk(b) => if valid_utf8(b) {
                r matches Ok(c) && c.key@ == decode_utf8(b) && c.value@ == es[2]
            } else {
                r matches Err(e) && e matches CommandError::Utf8Error(_)
            },
            _ => r matches Err(e) && e matches CommandError::InvalidArgument(_),
        }
    }
}

/// Get replies with the stored scalar frame, or the explicit null when
/// the key is absent; it touches nothing.
pub open spec fn get_executed(c: Get, pre: &Backend, post: &Backend, r: RespFrame) -> bool {
    spaces_unchanged(pre, post) && r@ == if pre.scalar_space().dom().contains(c.key@) {
        pre.scalar_space()[c.key@]
    } else {
        FrameModel::Null
    }
}

/// Set stores the value under the key unconditionally, touches no other
/// keyspace, and replies with the fixed OK simple string.
pub open spec fn set_executed(c: SetCmd, pre: &Backend, post: &Backend, r: RespFrame) -> bool {
    post.scalar_space() == pre.scalar_space().insert(c.key@, c.value@) && post.hash_space()
        == pre.hash_space() && post.set_space() == pre.set_space() && r@ == FrameModel::Simple(
        "OK"@,
    )
}

impl Get {
    pub fn try_from(value: RespArray) -> (r: Result<Get, CommandError>)
        ensures
            get_from(value@, r),
    {
        match extract_and_validate_args(value, "get", 1) {
            Ok((key, _)) => Ok(Get { key }),
            Err(e) => Err(e),
        }
    }

    /// Replies with the stored frame or the explicit null.
    pub fn execute(self, backend: &mut Backend) -> (r: RespFrame)
        ensures
            get_executed(self, old(backend), final(backend), r),
    {
        match backend.get(self.key.as_str()) {
            Some(v) => v,
            None => RespFrame::Null(RespNull),
        }
    }
}

impl SetCmd {
    pub fn try_from(value: RespArray) -> (r: Result<SetCmd, CommandError>)
        ensures
            set_from(value@, r),
    {
        match extract_and_validate_args(value, "set", 2) {
            Ok((key, Some(v))) => Ok(SetCmd { key, value: v }),
            Ok((key, None)) => {
                proof {
                    assert(false);
                }
                Err(CommandError::InvalidArgument("invalid value".to_owned()))
            },
            Err(e) => Err(e),
        }
    }

    /// Stores the value and replies with the fixed OK simple string.
    pub fn execute(self, backend: &mut Backend) -> (r: RespFrame)
        ensures
            set_executed(self, old(backend), final(backend), r),
    {
        backend.set(self.key, self.value);
        RespFrame::SimpleString(SimpleString::new("OK"))
    }
}

} // verus!
