//! The connection commands: echo and ping.

use vstd::prelude::*;
use vstd::string::{StrSliceExecFns, StringSliceAdditionalSpecFns};
use vstd::utf8::{decode_utf8, encode_utf8, valid_utf8};
use crate::backend::Backend;
use crate::cmd::{extract_args, is_bulk_with, validate_command, CommandError};
use crate::resp::array::RespArray;
use crate::resp::bulk_string::BulkString;
use crate::resp::frame::{lemma_models_of, RespFrame};
use crate::resp::map::{bytes_cmp, ByteOrder};
use crate::resp::simple_string::SimpleString;
use crate::resp::wire::FrameModel;

verus! {

broadcast use vstd::utf8::encode_utf8_decode_utf8;

/// The echo command: reply with the message.
#[derive(Debug)]
pub struct Echo {
    pub message: String,
}

/// The ping command: reply with the fixed pong, or echo the argument.
#[derive(Debug)]
pub struct Ping {
    pub message: String,
}

/// What converting an array into an echo command yields.
pub open spec fn echo_from(es: Seq<FrameModel>, r: Result<Echo, CommandError>) -> bool {
    if es.len() != 2 {
        r matches Err(e) && e matches CommandError::InvalidArgument(_)
    } else if !is_bulk_with(es[0], "echo".spec_bytes()) {
        r matches Err(e) && e matches CommandError::InvalidCommand(_)
    } else {
        match es[1] {
            FrameModel::Bulk(b) => if valid_utf8(b) {
                r matches Ok(c) && c.message@ == decode_utf8(b)
            } else {
                r matches Err(e) && e matches CommandError::Utf8Error(_)
            },
            _ => r matches Err(e) && e matches CommandError::InvalidArgument(_),
        }
    }
}

/// What converting an array into a ping command yields: with no argument
/// the message is the fixed pong; with one argument, that argument.
pub open spec fn ping_from(es: Seq<FrameModel>, r: Result<Ping, CommandError>) -> bool {
    if es.len() == 1 {
        if !is_bulk_with(es[0], "ping".spec_bytes()) {
            r matches Err(e) && e matches CommandError::InvalidCommand(_)
        } else {
            r matches Ok(c) && c.message@ == "PONG"@
        }
    } else if es.len() == 2 {
        if !is_bulk_with(es[0], "ping".spec_bytes()) {
            r matches Err(e) && e matches CommandError::InvalidCommand(_)
        } else {
            match es[1] {
                FrameModel::Bulk(b) => if valid_utf8(b) {
                    r matches Ok(c) && c.message@ == decode_utf8(b)
                } else {
                    r matches Err(e) && e matches CommandError::Utf8Error(_)
                },
                _ => r matches Err(e) && e matches CommandError::InvalidArgument(_),
            }
        }
    } else {
        r matches Err(e) && e matches CommandError::InvalidArgument(_)
    }
}

pub open spec fn spaces_unchanged(pre: &Backend, post: &Backend) -> bool {
    post.scalar_space() == pre.scalar_space() && post.hash_space() == pre.hash_space()
        && post.set_space() == pre.set_space()
}

/// Echo replies with its message as a bulk string and touches nothing.
pub open spec fn echo_executed(c: Echo, pre: &Backend, post: &Backend, r: RespFrame) -> bool {
    spaces_unchanged(pre, post) && r@ == FrameModel::Bulk(encode_utf8(c.message@))
}

/// Ping replies with the fixed pong as a simple string when its message
/// is exactly that text, and otherwise echoes the message as a bulk
/// string; it touches nothing.
pub open spec fn ping_executed(c: Ping, pre: &Backend, post: &Backend, r: RespFrame) -> bool {
    spaces_unchanged(pre, post) && r@ == if c.message@ == "PONG"@ {
        FrameModel::Simple(c.message@)
    } else {
        FrameModel::Bulk(encode_utf8(c.message@))
    }
}

/// Reads the single bulk-string argument at index 1 as text.
pub(crate) fn utf8_arg(args: Vec<RespFrame>, ghost_wanted: Ghost<FrameModel>) -> (r: Result<
    String,
    CommandError,
>)
    requires
        args@.len() == 1,
        crate::resp::frame::model_of(args@[0]) == ghost_wanted@,
    ensures
        match ghost_wanted@ {
            FrameModel::Bulk(b) => if valid_utf8(b) {
                r matches Ok(s) && s@ == decode_utf8(b)
            } else {
                r matches Err(e) && e matches CommandError::Utf8Error(_)
            },
            _ => r matches Err(e) && e matches CommandError::InvalidArgument(_),
        },
{
    let mut args = args;
    let first = args.remove(0);
    match first {
        RespFrame::BulkString(b) => match crate::resp::unicode::string_from_utf8(b.0) {
            Ok(s) => Ok(s),
            Err(m) => Err(CommandError::Utf8Error(m)),
        },
        _ => Err(CommandError::InvalidArgument("the argument must be a bulk string".to_owned())),
    }
}

impl Echo {
    pub fn try_from(value: RespArray) -> (r: Result<Echo, CommandError>)
        ensures
            echo_from(value@, r),
    {
        let ghost es = value@;
        proof {
            lemma_models_of(value.0@);
        }
        match validate_command(&value, &["echo"], 1) {
            Ok(()) => {},
            Err(e) => {
                return Err(e);
            },
        }
        let args = match extract_args(value, 1) {
            Ok(v) => v,
            Err(e) => {
                return Err(e);
            },
        };
        proof {
            lemma_models_of(args@);
            assert(crate::resp::frame::models_of(args@)[0] == es[1]);
        }
        match utf8_arg(args, Ghost(es[1])) {
            Ok(s) => Ok(Echo { message: s }),
            Err(e) => Err(e),
        }
    }

    /// Replies with the message re-encoded as a bulk string.
    pub fn execute(self, backend: &mut Backend) -> (r: RespFrame)
        ensures
            echo_executed(self, old(backend), final(backend), r),
    {
        RespFrame::BulkString(BulkString(self.message.as_str().as_bytes_vec()))
    }
}

impl Ping {
    pub fn try_from(value: RespArray) -> (r: Result<Ping, CommandError>)
        ensures
            ping_from(value@, r),
    {
        let ghost es = value@;
        proof {
            lemma_models_of(value.0@);
        }
        let command_len = value.len();
        if command_len == 1 {
            match validate_command(&value, &["ping"], 0) {
                Ok(()) => {},
                Err(e) => {
                    return Err(e);
                },
            }
            Ok(Ping { message: "PONG".to_owned() })
        } else if command_len == 2 {
            match validate_command(&value, &["ping"], 1) {
                Ok(()) => {},
                Err(e) => {
                    return Err(e);
                },
            }
            let args = match extract_args(value, 1) {
                Ok(v) => v,
                Err(e) => {
                    return Err(e);
                },
            };
            proof {
                lemma_models_of(args@);
                assert(crate::resp::frame::models_of(args@)[0] == es[1]);
            }
            match utf8_arg(args, Ghost(es[1])) {
                Ok(s) => Ok(Ping { message: s }),
                Err(e) => Err(e),
            }
        } else {
            Err(
                CommandError::InvalidArgument(
                    "wrong number of arguments for the ping command".to_owned(),
                ),
            )
        }
    }

    /// Replies as the reference server does: the fixed pong text comes
    /// back as a simple string, anything else as a bulk-string echo.
    pub fn execute(self, backend: &mut Backend) -> (r: RespFrame)
        ensures
            ping_executed(self, old(backend), final(backend), r),
    {
        let is_pong = match bytes_cmp(self.message.as_str().as_bytes(), "PONG".as_bytes()) {
            ByteOrder::Same => true,
            _ => false,
        };
        if is_pong {
            proof {
                assert(encode_utf8(self.message@) == encode_utf8("PONG"@));
                assert(decode_utf8(encode_utf8(self.message@)) == decode_utf8(
                    encode_utf8("PONG"@),
                ));
            }
            RespFrame::SimpleString(SimpleString(self.message))
        } else {
            proof {
                assert(self.message@ != "PONG"@);
            }
            RespFrame::BulkString(BulkString(self.message.as_str().as_bytes_vec()))
        }
    }
}

} // verus!
