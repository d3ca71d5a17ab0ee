//! The per-command key schema: which arguments of a Redis command are keys,
//! which commands are writes, and how a multi-key command's fragments merge
//! back into one reply.  Commands not in the table have an unknown schema
//! and fall back to the pool's no-key policy.

use vstd::prelude::*;

use crate::ascii::{ascii_of, bytes_eq_str, to_upper_bytes, upper_bytes};
use crate::message::Message;

verus! {

broadcast use vstd::seq::group_seq_axioms, vstd::string::is_ascii_spec_bytes;

/// How a command's keys sit among its arguments.
#[derive(Clone, Copy, PartialEq, Eq, Structural, Debug)]
pub enum KeySchema {
    /// No key, or a command the table does not know: the pool's no-key
    /// policy decides where it goes.
    NoKey,
    /// One key, the first argument after the command name.
    SingleKey,
    /// Every argument after the name is a key (`MGET k1 k2 …`).
    MultiKey,
    /// Alternating key/value pairs after the name (`MSET k1 v1 k2 v2 …`).
    KeyValuePairs,
}

/// How the per-key fragments of a multi-key command recombine.
#[derive(Clone, Copy, PartialEq, Eq, Structural, Debug)]
pub enum MergeKind {
    /// One reply per key, gathered into an array in key order (`MGET`).
    Gather,
    /// Integer replies summed, saturating at the extremes (`DEL`, `UNLINK`).
    Sum,
    /// All fragments must answer; the first error wins, else `+OK` (`MSET`).
    AllOk,
}

/// Whether an uppercased name is a recognized multi-key command.
pub open spec fn multi_key_name(name: Seq<u8>) -> bool {
    ||| name == ascii_of("MGET"@)
    ||| name == ascii_of("DEL"@)
    ||| name == ascii_of("UNLINK"@)
}

/// Whether an uppercased name is a recognized single-key command.
pub open spec fn single_key_name(name: Seq<u8>) -> bool {
    ||| name == ascii_of("GET"@)
    ||| name == ascii_of("SET"@)
    ||| name == ascii_of("INCR"@)
    ||| name == ascii_of("DECR"@)
    ||| name == ascii_of("INCRBY"@)
    ||| name == ascii_of("DECRBY"@)
    ||| name == ascii_of("APPEND"@)
    ||| name == ascii_of("STRLEN"@)
    ||| name == ascii_of("GETSET"@)
    ||| name == ascii_of("SETNX"@)
    ||| name == ascii_of("EXPIRE"@)
    ||| name == ascii_of("PERSIST"@)
    ||| name == ascii_of("TTL"@)
    ||| name == ascii_of("TYPE"@)
    ||| name == ascii_of("EXISTS"@)
    ||| name == ascii_of("HGET"@)
    ||| name == ascii_of("HSET"@)
    ||| name == ascii_of("HDEL"@)
    ||| name == ascii_of("LPUSH"@)
    ||| name == ascii_of("RPUSH"@)
    ||| name == ascii_of("LPOP"@)
    ||| name == ascii_of("RPOP"@)
    ||| name == ascii_of("LLEN"@)
    ||| name == ascii_of("SADD"@)
    ||| name == ascii_of("SREM"@)
}

/// Whether an uppercased name is a write command: one the warmup router
/// must copy to the cold pool.
pub open spec fn write_name(name: Seq<u8>) -> bool {
    ||| name == ascii_of("SET"@)
    ||| name == ascii_of("SETNX"@)
    ||| name == ascii_of("MSET"@)
    ||| name == ascii_of("DEL"@)
    ||| name == ascii_of("UNLINK"@)
    ||| name == ascii_of("INCR"@)
    ||| name == ascii_of("DECR"@)
    ||| name == ascii_of("INCRBY"@)
    ||| name == ascii_of("DECRBY"@)
    ||| name == ascii_of("APPEND"@)
    ||| name == ascii_of("EXPIRE"@)
    ||| name == ascii_of("PERSIST"@)
    ||| name == ascii_of("GETSET"@)
    ||| name == ascii_of("HSET"@)
    ||| name == ascii_of("HDEL"@)
    ||| name == ascii_of("LPUSH"@)
    ||| name == ascii_of("RPUSH"@)
    ||| name == ascii_of("LPOP"@)
    ||| name == ascii_of("RPOP"@)
    ||| name == ascii_of("SADD"@)
    ||| name == ascii_of("SREM"@)
}

/// The key schema of an uppercased command name.
pub open spec fn schema_of(name: Seq<u8>) -> KeySchema {
    if multi_key_name(name) {
        KeySchema::MultiKey
    } else if name == ascii_of("MSET"@) {
        KeySchema::KeyValuePairs
    } else if single_key_name(name) {
        KeySchema::SingleKey
    } else {
        KeySchema::NoKey
    }
}

/// How a multi-key command's fragments merge; meaningful for `MultiKey` and
/// `KeyValuePairs` schemas.
pub open spec fn merge_kind_of(name: Seq<u8>) -> MergeKind {
    if name == ascii_of("MGET"@) {
        MergeKind::Gather
    } else if name == ascii_of("MSET"@) {
        MergeKind::AllOk
    } else {
        MergeKind::Sum
    }
}

/// The command name each per-key fragment of a multi-key command carries:
/// `MGET` fragments as `GET`, the rest keep their own name.
pub open spec fn fragment_name(name: Seq<u8>) -> Seq<u8> {
    if name == ascii_of("MGET"@) {
        ascii_of("GET"@)
    } else if name == ascii_of("MSET"@) {
        ascii_of("SET"@)
    } else {
        name
    }
}

/// Establishes that every command literal of the table is ASCII, so that
/// byte comparison against a literal decides view equality.
proof fn table_literals_ascii()
    ensures
        "MGET".is_ascii() && "DEL".is_ascii() && "UNLINK".is_ascii() && "MSET".is_ascii(),
        "GET".is_ascii() && "SET".is_ascii() && "INCR".is_ascii() && "DECR".is_ascii(),
        "INCRBY".is_ascii() && "DECRBY".is_ascii() && "APPEND".is_ascii() && "STRLEN".is_ascii(),
        "GETSET".is_ascii() && "SETNX".is_ascii() && "EXPIRE".is_ascii() && "PERSIST".is_ascii(),
        "TTL".is_ascii() && "TYPE".is_ascii() && "EXISTS".is_ascii() && "HGET".is_ascii(),
        "HSET".is_ascii() && "HDEL".is_ascii() && "LPUSH".is_ascii() && "RPUSH".is_ascii(),
        "LPOP".is_ascii() && "RPOP".is_ascii() && "LLEN".is_ascii() && "SADD".is_ascii(),
        "SREM".is_ascii(),
{
    reveal_strlit("MGET");
    reveal_strlit("DEL");
    reveal_strlit("UNLINK");
    reveal_strlit("MSET");
    reveal_strlit("GET");
    reveal_strlit("SET");
    reveal_strlit("INCR");
    reveal_strlit("DECR");
    reveal_strlit("INCRBY");
    reveal_strlit("DECRBY");
    reveal_strlit("APPEND");
    reveal_strlit("STRLEN");
    reveal_strlit("GETSET");
    reveal_strlit("SETNX");
    reveal_strlit("EXPIRE");
    reveal_strlit("PERSIST");
    reveal_strlit("TTL");
    reveal_strlit("TYPE");
    reveal_strlit("EXISTS");
    reveal_strlit("HGET");
    reveal_strlit("HSET");
    reveal_strlit("HDEL");
    reveal_strlit("LPUSH");
    reveal_strlit("RPUSH");
    reveal_strlit("LPOP");
    reveal_strlit("RPOP");
    reveal_strlit("LLEN");
    reveal_strlit("SADD");
    reveal_strlit("SREM");
}

/// The key schema of a command name, compared case-insensitively.
pub fn command_schema(name: &[u8]) -> (r: KeySchema)
    ensures
        r == schema_of(upper_bytes(name@)),
{
    let up = to_upper_bytes(name);
    proof {
        table_literals_ascii();
    }
    if bytes_eq_str(up.as_slice(), "MGET") || bytes_eq_str(up.as_slice(), "DEL")
        || bytes_eq_str(up.as_slice(), "UNLINK") {
        KeySchema::MultiKey
    } else if bytes_eq_str(up.as_slice(), "MSET") {
        KeySchema::KeyValuePairs
    } else if bytes_eq_str(up.as_slice(), "GET") || bytes_eq_str(up.as_slice(), "SET")
        || bytes_eq_str(up.as_slice(), "INCR") || bytes_eq_str(up.as_slice(), "DECR")
        || bytes_eq_str(up.as_slice(), "INCRBY") || bytes_eq_str(up.as_slice(), "DECRBY")
        || bytes_eq_str(up.as_slice(), "APPEND") || bytes_eq_str(up.as_slice(), "STRLEN")
        || bytes_eq_str(up.as_slice(), "GETSET") || bytes_eq_str(up.as_slice(), "SETNX")
        || bytes_eq_str(up.as_slice(), "EXPIRE") || bytes_eq_str(up.as_slice(), "PERSIST")
        || bytes_eq_str(up.as_slice(), "TTL") || bytes_eq_str(up.as_slice(), "TYPE")
        || bytes_eq_str(up.as_slice(), "EXISTS") || bytes_eq_str(up.as_slice(), "HGET")
        || bytes_eq_str(up.as_slice(), "HSET") || bytes_eq_str(up.as_slice(), "HDEL")
        || bytes_eq_str(up.as_slice(), "LPUSH") || bytes_eq_str(up.as_slice(), "RPUSH")
        || bytes_eq_str(up.as_slice(), "LPOP") || bytes_eq_str(up.as_slice(), "RPOP")
        || bytes_eq_str(up.as_slice(), "LLEN") || bytes_eq_str(up.as_slice(), "SADD")
        || bytes_eq_str(up.as_slice(), "SREM") {
        KeySchema::SingleKey
    } else {
        KeySchema::NoKey
    }
}

/// Whether a command name is a write, compared case-insensitively.
pub fn command_is_write(name: &[u8]) -> (r: bool)
    ensures
        r == write_name(upper_bytes(name@)),
{
    let up = to_upper_bytes(name);
    proof {
        table_literals_ascii();
    }
    bytes_eq_str(up.as_slice(), "SET") || bytes_eq_str(up.as_slice(), "SETNX")
        || bytes_eq_str(up.as_slice(), "MSET") || bytes_eq_str(up.as_slice(), "DEL")
        || bytes_eq_str(up.as_slice(), "UNLINK") || bytes_eq_str(up.as_slice(), "INCR")
        || bytes_eq_str(up.as_slice(), "DECR") || bytes_eq_str(up.as_slice(), "INCRBY")
        || bytes_eq_str(up.as_slice(), "DECRBY") || bytes_eq_str(up.as_slice(), "APPEND")
        || bytes_eq_str(up.as_slice(), "EXPIRE") || bytes_eq_str(up.as_slice(), "PERSIST")
        || bytes_eq_str(up.as_slice(), "GETSET") || bytes_eq_str(up.as_slice(), "HSET")
        || bytes_eq_str(up.as_slice(), "HDEL") || bytes_eq_str(up.as_slice(), "LPUSH")
        || bytes_eq_str(up.as_slice(), "RPUSH") || bytes_eq_str(up.as_slice(), "LPOP")
        || bytes_eq_str(up.as_slice(), "RPOP") || bytes_eq_str(up.as_slice(), "SADD")
        || bytes_eq_str(up.as_slice(), "SREM")
}

/// The views of a sequence of byte vectors, element by element.
pub open spec fn views_of(v: Seq<Vec<u8>>) -> Seq<Seq<u8>> {
    Seq::new(v.len(), |i: int| v[i]@)
}

/// The bulk payload views of a message sequence, element by element;
/// meaningful where every element is a bulk string.
pub open spec fn bulk_views(items: Seq<Message>) -> Seq<Seq<u8>> {
    Seq::new(items.len(), |i: int| (items[i]->Bulk_0)@)
}

/// How a multi-key command's fragments recombine, from its name.
pub fn merge_command_kind(name: &[u8]) -> (r: MergeKind)
    ensures
        r == merge_kind_of(upper_bytes(name@)),
{
    let up = to_upper_bytes(name);
    proof {
        table_literals_ascii();
    }
    if bytes_eq_str(up.as_slice(), "MGET") {
        MergeKind::Gather
    } else if bytes_eq_str(up.as_slice(), "MSET") {
        MergeKind::AllOk
    } else {
        MergeKind::Sum
    }
}

/// The command name a per-key fragment carries, as fresh bytes.
pub fn fragment_command(name: &[u8]) -> (r: Vec<u8>)
    ensures
        r@ == fragment_name(upper_bytes(name@)),
{
    let up = to_upper_bytes(name);
    proof {
        table_literals_ascii();
    }
    if bytes_eq_str(up.as_slice(), "MGET") {
        let r = vstd::slice::slice_to_vec("GET".as_bytes());
        proof {
            assert(r@ =~= ascii_of("GET"@));
        }
        r
    } else if bytes_eq_str(up.as_slice(), "MSET") {
        let r = vstd::slice::slice_to_vec("SET".as_bytes());
        proof {
            assert(r@ =~= ascii_of("SET"@));
        }
        r
    } else {
        up
    }
}

/// The arguments of a request: the bulk payloads of a multi-bulk array, or
/// the words of an inline command.  Anything else has no arguments.
pub open spec fn args_view(m: Message) -> Option<Seq<Seq<u8>>> {
    match m {
        Message::Array(items) => if forall|i: int|
            0 <= i < items@.len() ==> items@[i] is Bulk {
            Some(bulk_views(items@))
        } else {
            None
        },
        Message::Inline(words) => Some(views_of(words@)),
        _ => None,
    }
}

/// Whether a request is an inline command.
pub fn is_inline(m: &Message) -> (r: bool)
    ensures
        r == (*m is Inline),
{
    match m {
        Message::Inline(_) => true,
        _ => false,
    }
}

/// Whether a request is a write command, per the table; a message without
/// arguments is not a write.
pub open spec fn is_write_req(m: Message) -> bool {
    match args_view(m) {
        Some(args) => args.len() > 0 && write_name(upper_bytes(args[0])),
        None => false,
    }
}

/// The routing key of a request: the first key of a recognized keyed
/// command, `None` where the schema is unknown or carries no key.
pub open spec fn routing_key_of(m: Message) -> Option<Seq<u8>> {
    match args_view(m) {
        Some(args) => if args.len() >= 2 && schema_of(upper_bytes(args[0]))
            != KeySchema::NoKey {
            Some(args[1])
        } else {
            None
        },
        None => None,
    }
}

/// Extracts the arguments of a request as fresh byte vectors: the bulk
/// payloads of a multi-bulk array, or the words of an inline command.
#[verifier::loop_isolation(false)]
pub fn request_args(m: &Message) -> (r: Option<Vec<Vec<u8>>>)
    ensures
        match args_view(*m) {
            Some(args) => r matches Some(v) && views_of(v@) == args,
            None => r is None,
        },
{
    match m {
        Message::Array(items) => {
            let n = items.len();
            let mut out: Vec<Vec<u8>> = Vec::new();
            let mut i: usize = 0;
            while i < n
                invariant
                    i <= n,
                    n == items@.len(),
                    forall|j: int| 0 <= j < i ==> items@[j] is Bulk,
                    out@.len() == i,
                    views_of(out@) =~= bulk_views(items@.subrange(0, i as int)),
                decreases n - i,
            {
                let ghost out0 = out@;
                match &items[i] {
                    Message::Bulk(b) => {
                        out.push(crate::message::copy_bytes(b));
                        proof {
                            assert(out@ == out0.push(out@[i as int]));
                            assert(out@[i as int]@ == b@);
                            assert(items@[i as int] == Message::Bulk(*b));
                            assert forall|j: int| 0 <= j < i + 1 implies views_of(out@)[j]
                                == bulk_views(items@.subrange(0, (i + 1) as int))[j] by {
                                assert(items@.subrange(0, (i + 1) as int)[j] == items@[j]);
                                if j < i {
                                    assert(out@[j] == out0[j]);
                                    assert(views_of(out0)[j] == bulk_views(
                                        items@.subrange(0, i as int),
                                    )[j]);
                                    assert(items@.subrange(0, i as int)[j] == items@[j]);
                                }
                            }
                            assert(views_of(out@) =~= bulk_views(
                                items@.subrange(0, (i + 1) as int),
                            ));
                        }
                    },
                    _ => {
                        proof {
                            assert(!(forall|k: int|
                                0 <= k < items@.len() ==> items@[k] is Bulk)) by {
                                assert(!(items@[i as int] is Bulk));
                            }
                        }
                        return None;
                    },
                }
                i += 1;
            }
            proof {
                assert(items@.subrange(0, n as int) =~= items@);
            }
            Some(out)
        },
        Message::Inline(words) => {
            let n = words.len();
            let mut out: Vec<Vec<u8>> = Vec::new();
            let mut i: usize = 0;
            while i < n
                invariant
                    i <= n,
                    n == words@.len(),
                    out@.len() == i,
                    views_of(out@) =~= views_of(words@.subrange(0, i as int)),
                decreases n - i,
            {
                let ghost out0 = out@;
                out.push(crate::message::copy_bytes(&words[i]));
                proof {
                    assert(out@ == out0.push(out@[i as int]));
                    assert(out@[i as int]@ == words@[i as int]@);
                    assert forall|j: int| 0 <= j < i + 1 implies views_of(out@)[j] == views_of(
                        words@.subrange(0, (i + 1) as int),
                    )[j] by {
                        assert(words@.subrange(0, (i + 1) as int)[j] == words@[j]);
                        if j < i {
                            assert(out@[j] == out0[j]);
                            assert(views_of(out0)[j] == views_of(words@.subrange(0, i as int))[j]);
                            assert(words@.subrange(0, i as int)[j] == words@[j]);
                        }
                    }
                    assert(views_of(out@) =~= views_of(words@.subrange(0, (i + 1) as int)));
                }
                i += 1;
            }
            proof {
                assert(words@.subrange(0, n as int) =~= words@);
            }
            Some(out)
        },
        _ => None,
    }
}

/// Whether a request is a write command, per the table.
pub fn is_write(m: &Message) -> (r: bool)
    ensures
        r == is_write_req(*m),
{
    match request_args(m) {
        Some(args) => {
            if args.len() > 0 {
                proof {
                    assert(views_of(args@)[0] == args_view(*m)->Some_0[0]);
                }
                command_is_write(args[0].as_slice())
            } else {
                false
            }
        },
        None => false,
    }
}

/// The routing key of a request, as a fresh byte vector.
pub fn routing_key(m: &Message) -> (r: Option<Vec<u8>>)
    ensures
        match routing_key_of(*m) {
            Some(k) => r matches Some(v) && v@ == k,
            None => r is None,
        },
{
    match request_args(m) {
        Some(args) => {
            if args.len() >= 2 {
                let schema = command_schema(args[0].as_slice());
                if schema != KeySchema::NoKey {
                    let ghost spec_args = args_view(*m)->Some_0;
                    proof {
                        assert(views_of(args@)[0] == spec_args[0]);
                        assert(views_of(args@)[1] == spec_args[1]);
                    }
                    Some(crate::message::copy_bytes(&args[1]))
                } else {
                    None
                }
            } else {
                None
            }
        },
        None => None,
    }
}

} // verus!
