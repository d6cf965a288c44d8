//! The typed command model: converting a generic array frame into a
//! validated command, and executing commands against the backend store.

pub mod conn;
pub mod hmap;
pub mod map;
pub mod smap;

use vstd::prelude::*;
use vstd::string::StringSliceAdditionalSpecFns;
use crate::backend::Backend;
use crate::cmd::conn::{echo_from, ping_from, Echo, Ping};
use crate::cmd::hmap::{hget_from, hgetall_from, hmget_from, hset_from, HGet, HGetAll, HMGet, HSet};
use crate::cmd::map::{get_from, set_from, Get, SetCmd};
use crate::cmd::smap::{sadd_from, sismember_from, SAdd, SisMember};
use crate::resp::array::RespArray;
use crate::resp::frame::{lemma_models_of, models_of, RespError, RespFrame};
use crate::resp::map::{bytes_cmp, ByteOrder};
use crate::resp::wire::FrameModel;

verus! {

/// Why a frame could not become a command.
#[derive(Debug, PartialEq, Eq)]
pub enum CommandError {
    /// The command-name tokens do not match, or the first element is not
    /// a bulk string.
    InvalidCommand(String),
    /// Wrong arity, wrong argument type, or an argument that cannot be
    /// read as required.
    InvalidArgument(String),
    /// A decode outcome passed through from the frame layer.
    RespError(RespError),
    /// A key or field expected to be text was not valid UTF-8.
    Utf8Error(String),
}

/// A byte sequence with ASCII capitals lowered.
pub open spec fn ascii_lower(b: Seq<u8>) -> Seq<u8> {
    b.map_values(
        |x: u8|
            if 65 <= x <= 90 {
                (x + 32) as u8
            } else {
                x
            },
    )
}

/// Lowers ASCII capitals in a byte string.
pub(crate) fn to_ascii_lower(b: &[u8]) -> (r: Vec<u8>)
    ensures
        r@ == ascii_lower(b@),
{
    let n = b.len();
    let mut out: Vec<u8> = Vec::new();
    let mut i: usize = 0;
    proof {
        assert(out@ =~= ascii_lower(b@).take(0));
    }
    while i < n
        invariant
            i <= n,
            n == b@.len(),
            out@ == ascii_lower(b@).take(i as int),
        decreases n - i,
    {
        let x = b[i];
        let y: u8 = if 65 <= x && x <= 90 {
            x + 32
        } else {
            x
        };
        out.push(y);
        proof {
            assert(ascii_lower(b@)[i as int] == y);
            assert(out@ =~= ascii_lower(b@).take(i + 1));
        }
        i = i + 1;
    }
    proof {
        assert(ascii_lower(b@).take(n as int) =~= ascii_lower(b@));
    }
    out
}

/// The element is a bulk string whose lowered bytes are the given name.
pub open spec fn is_bulk_with(m: FrameModel, name: Seq<u8>) -> bool {
    m matches FrameModel::Bulk(b) && ascii_lower(b) == name
}

/// Every fixed command-name token matches, case-insensitively, in order.
pub open spec fn names_match(es: Seq<FrameModel>, names: Seq<&str>) -> bool {
    forall|i: int|
        #![trigger names[i]]
        0 <= i < names.len() ==> is_bulk_with(es[i], names[i].spec_bytes())
}

pub open spec fn arity_ok(es: Seq<FrameModel>, n_names: int, n_args: int) -> bool {
    es.len() == n_names + n_args
}

/// Checks that the array has exactly the fixed tokens plus the expected
/// argument count, and that each fixed token is a bulk string matching
/// its name case-insensitively.  Arity is checked first.
pub fn validate_command(value: &RespArray, names: &[&str], n_args: usize) -> (r: Result<
    (),
    CommandError,
>)
    ensures
        r is Ok <==> arity_ok(value@, names@.len() as int, n_args as int) && names_match(
            value@,
            names@,
        ),
        r matches Err(e) ==> (e matches CommandError::InvalidArgument(_) <==> !arity_ok(
            value@,
            names@.len() as int,
            n_args as int,
        )),
        r matches Err(e) ==> (e matches CommandError::InvalidCommand(_) <==> arity_ok(
            value@,
            names@.len() as int,
            n_args as int,
        ) && !names_match(value@, names@)),
{
    let ghost es = value@;
    let vlen = value.len();
    let nn = names.len();
    if vlen < nn || vlen - nn != n_args {
        return Err(
            CommandError::InvalidArgument("wrong number of arguments for the command".to_owned()),
        );
    }
    let mut i: usize = 0;
    while i < nn
        invariant
            i <= nn,
            nn == names@.len(),
            es == value@,
            es.len() == nn + n_args,
            forall|j: int|
                #![trigger names@[j]]
                0 <= j < i ==> is_bulk_with(es[j], names@[j].spec_bytes()),
        decreases nn - i,
    {
        let nm: &str = names[i];
        match value.get(i) {
            RespFrame::BulkString(b) => {
                let low = to_ascii_lower(b.as_bytes());
                match bytes_cmp(low.as_slice(), nm.as_bytes()) {
                    ByteOrder::Same => {},
                    _ => {
                        proof {
                            assert(!is_bulk_with(es[i as int], names@[i as int].spec_bytes()));
                        }
                        return Err(
                            CommandError::InvalidCommand("unexpected command name".to_owned()),
                        );
                    },
                }
            },
            _ => {
                proof {
                    assert(!is_bulk_with(es[i as int], names@[i as int].spec_bytes()));
                }
                return Err(
                    CommandError::InvalidCommand(
                        "command tokens must be bulk strings".to_owned(),
                    ),
                );
            },
        }
        i = i + 1;
    }
    Ok(())
}

/// Hands back the elements after the first `start`, in order.
pub fn extract_args(value: RespArray, start: usize) -> (r: Result<Vec<RespFrame>, CommandError>)
    ensures
        r matches Ok(v) && models_of(v@) == if start <= value@.len() {
            value@.skip(start as int)
        } else {
            Seq::<FrameModel>::empty()
        },
{
    proof {
        lemma_models_of(value.0@);
    }
    let ghost v0 = value.0@;
    let mut v = value.0;
    if start <= v.len() {
        let tail = v.split_off(start);
        proof {
            lemma_models_of(v0);
            lemma_models_of(tail@);
            assert(tail@ =~= v0.skip(start as int));
            assert(models_of(tail@) =~= models_of(v0).skip(start as int));
        }
        Ok(tail)
    } else {
        let empty: Vec<RespFrame> = Vec::new();
        proof {
            assert(models_of(empty@) =~= Seq::<FrameModel>::empty());
        }
        Ok(empty)
    }
}

/// A validated, typed request: one variant per supported operation, plus
/// the deliberate catch-all for unknown command names.
#[derive(Debug)]
pub enum Command {
    Get(Get),
    SetCmd(SetCmd),
    HGet(HGet),
    HSet(HSet),
    HGetAll(HGetAll),
    HMGet(HMGet),
    SAdd(SAdd),
    SisMember(SisMember),
    Echo(Echo),
    Ping(Ping),
    Unrecognized(Unrecognized),
}

/// The catch-all command: an array whose first token matches no known
/// command name is acknowledged, not rejected.
#[derive(Debug, PartialEq, Eq, Structural)]
pub struct Unrecognized;

impl Unrecognized {
    /// Unknown commands reply with the fixed OK simple string and touch
    /// nothing.
    pub fn execute(self, backend: &mut Backend) -> (r: RespFrame)
        ensures
            r@ == FrameModel::Simple("OK"@),
            final(backend).scalar_space() == old(backend).scalar_space(),
            final(backend).hash_space() == old(backend).hash_space(),
            final(backend).set_space() == old(backend).set_space(),
    {
        RespFrame::SimpleString(crate::resp::simple_string::SimpleString::new("OK"))
    }
}

/// What converting an array frame into a command yields: dispatch on the
/// lowered first token, each known name handled by its command's own
/// conversion, anything else accepted as unrecognized.
pub open spec fn cmd_from(es: Seq<FrameModel>, r: Result<Command, CommandError>) -> bool {
    if es.len() == 0 || !(es[0] matches FrameModel::Bulk(_)) {
        r matches Err(e) && e matches CommandError::InvalidCommand(_)
    } else {
        let low = ascii_lower(es[0]->Bulk_0);
        if low == "get".spec_bytes() {
            match r {
                Ok(c) => c matches Command::Get(g) && get_from(es, Ok(g)),
                Err(e) => get_from(es, Err(e)),
            }
        } else if low == "set".spec_bytes() {
            match r {
                Ok(c) => c matches Command::SetCmd(g) && set_from(es, Ok(g)),
                Err(e) => set_from(es, Err(e)),
            }
        } else if low == "hget".spec_bytes() {
            match r {
                Ok(c) => c matches Command::HGet(g) && hget_from(es, Ok(g)),
                Err(e) => hget_from(es, Err(e)),
            }
        } else if low == "hset".spec_bytes() {
            match r {
                Ok(c) => c matches Command::HSet(g) && hset_from(es, Ok(g)),
                Err(e) => hset_from(es, Err(e)),
            }
        } else if low == "hgetall".spec_bytes() {
            match r {
                Ok(c) => c matches Command::HGetAll(g) && hgetall_from(es, Ok(g)),
                Err(e) => hgetall_from(es, Err(e)),
            }
        } else if low == "hmget".spec_bytes() {
            match r {
                Ok(c) => c matches Command::HMGet(g) && hmget_from(es, Ok(g)),
                Err(e) => hmget_from(es, Err(e)),
            }
        } else if low == "sadd".spec_bytes() {
            match r {
                Ok(c) => c matches Command::SAdd(g) && sadd_from(es, Ok(g)),
                Err(e) => sadd_from(es, Err(e)),
            }
        } else if low == "sismember".spec_bytes() {
            match r {
                Ok(c) => c matches Command::SisMember(g) && sismember_from(es, Ok(g)),
                Err(e) => sismember_from(es, Err(e)),
            }
        } else if low == "echo".spec_bytes() {
            match r {
                Ok(c) => c matches Command::Echo(g) && echo_from(es, Ok(g)),
                Err(e) => echo_from(es, Err(e)),
            }
        } else if low == "ping".spec_bytes() {
            match r {
                Ok(c) => c matches Command::Ping(g) && ping_from(es, Ok(g)),
                Err(e) => ping_from(es, Err(e)),
            }
        } else {
            r matches Ok(c) && c matches Command::Unrecognized(_)
        }
    }
}

impl Command {
    /// Converts an array frame into a command by its first token.
    pub fn try_from(value: RespArray) -> (r: Result<Command, CommandError>)
        ensures
            cmd_from(value@, r),
    {
        let ghost es = value@;
        proof {
            lemma_models_of(value.0@);
        }
        if value.len() == 0 {
            return Err(CommandError::InvalidCommand("command must not be empty".to_owned()));
        }
        let low = match value.get(0) {
            RespFrame::BulkString(b) => to_ascii_lower(b.as_bytes()),
            _ => {
                return Err(
                    CommandError::InvalidCommand(
                        "command must have a bulk string as the first element".to_owned(),
                    ),
                );
            },
        };
        if matches_lower(&low, "get") {
            match Get::try_from(value) {
                Ok(g) => Ok(Command::Get(g)),
                Err(e) => Err(e),
            }
        } else if matches_lower(&low, "set") {
            match SetCmd::try_from(value) {
                Ok(g) => Ok(Command::SetCmd(g)),
                Err(e) => Err(e),
            }
        } else if matches_lower(&low, "hget") {
            match HGet::try_from(value) {
                Ok(g) => Ok(Command::HGet(g)),
                Err(e) => Err(e),
            }
        } else if matches_lower(&low, "hset") {
            match HSet::try_from(value) {
                Ok(g) => Ok(Command::HSet(g)),
                Err(e) => Err(e),
            }
        } else if matches_lower(&low, "hgetall") {
            match HGetAll::try_from(value) {
                Ok(g) => Ok(Command::HGetAll(g)),
                Err(e) => Err(e),
            }
        } else if matches_lower(&low, "hmget") {
            match HMGet::try_from(value) {
                Ok(g) => Ok(Command::HMGet(g)),
                Err(e) => Err(e),
            }
        } else if matches_lower(&low, "sadd") {
            match SAdd::try_from(value) {
                Ok(g) => Ok(Command::SAdd(g)),
                Err(e) => Err(e),
            }
        } else if matches_lower(&low, "sismember") {
            match SisMember::try_from(value) {
                Ok(g) => Ok(Command::SisMember(g)),
                Err(e) => Err(e),
            }
        } else if matches_lower(&low, "echo") {
            match Echo::try_from(value) {
                Ok(g) => Ok(Command::Echo(g)),
                Err(e) => Err(e),
            }
        } else if matches_lower(&low, "ping") {
            match Ping::try_from(value) {
                Ok(g) => Ok(Command::Ping(g)),
                Err(e) => Err(e),
            }
        } else {
            Ok(Command::Unrecognized(Unrecognized))
        }
    }

    /// Converts any frame: commands arrive as arrays; anything else is
    /// rejected.
    pub fn try_from_frame(value: RespFrame) -> (r: Result<Command, CommandError>)
        ensures
            match value@ {
                FrameModel::Arr(es) => cmd_from(es, r),
                _ => r matches Err(e) && e matches CommandError::InvalidCommand(_),
            },
    {
        match value {
            RespFrame::Array(a) => Command::try_from(a),
            _ => Err(CommandError::InvalidCommand("command must be an array".to_owned())),
        }
    }

    /// Executes the command against the store, producing the reply frame.
    /// The effect and reply of each variant are those of its own
    /// `execute`.
    pub fn execute(self, backend: &mut Backend) -> (r: RespFrame)
        ensures
            executed(self, old(backend), final(backend), r),
    {
        match self {
            Command::Get(c) => c.execute(backend),
            Command::SetCmd(c) => c.execute(backend),
            Command::HGet(c) => c.execute(backend),
            Command::HSet(c) => c.execute(backend),
            Command::HGetAll(c) => c.execute(backend),
            Command::HMGet(c) => c.execute(backend),
            Command::SAdd(c) => c.execute(backend),
            Command::SisMember(c) => c.execute(backend),
            Command::Echo(c) => c.execute(backend),
            Command::Ping(c) => c.execute(backend),
            Command::Unrecognized(c) => c.execute(backend),
        }
    }
}

/// What executing one command does, by variant; read keys reply with the
/// stored value or the documented absent form, write keys update exactly
/// their own keyspace.
pub open spec fn executed(c: Command, pre: &Backend, post: &Backend, r: RespFrame) -> bool {
    match c {
        Command::Get(g) => crate::cmd::map::get_executed(g, pre, post, r),
        Command::SetCmd(g) => crate::cmd::map::set_executed(g, pre, post, r),
        Command::HGet(g) => crate::cmd::hmap::hget_executed(g, pre, post, r),
        Command::HSet(g) => crate::cmd::hmap::hset_executed(g, pre, post, r),
        Command::HGetAll(g) => crate::cmd::hmap::hgetall_executed(g, pre, post, r),
        Command::HMGet(g) => crate::cmd::hmap::hmget_executed(g, pre, post, r),
        Command::SAdd(g) => crate::cmd::smap::sadd_executed(g, pre, post, r),
        Command::SisMember(g) => crate::cmd::smap::sismember_executed(g, pre, post, r),
        Command::Echo(g) => crate::cmd::conn::echo_executed(g, pre, post, r),
        Command::Ping(g) => crate::cmd::conn::ping_executed(g, pre, post, r),
        Command::Unrecognized(_) => r@ == FrameModel::Simple("OK"@) && pre.scalar_space()
            == post.scalar_space() && pre.hash_space() == post.hash_space() && pre.set_space()
            == post.set_space(),
    }
}

/// Whether the lowered token spells the given name.
fn matches_lower(low: &Vec<u8>, name: &str) -> (r: bool)
    ensures
        r <==> low@ == name.spec_bytes(),
{
    match bytes_cmp(low.as_slice(), name.as_bytes()) {
        ByteOrder::Same => true,
        _ => false,
    }
}

} // verus!
