//! Listener assembly and the per-client pipeline's value-level turns.
//!
//! The daemon owns the sockets and the task spawning; the decisions — which
//! protocols and route types are accepted, which pools a policy requires,
//! how big a read batch may grow, and what one pipeline turn writes back —
//! are made and proved here.

use vstd::prelude::*;
use vstd::string::StringSliceAdditionalSpecFns;

use crate::ascii::{ascii_of, bytes_eq_str, str_eq, upper_bytes};
use crate::errors::CreationError;
use crate::message::{Message, encode_all, encoding_seq};
use crate::queue::MessageQueue;
use crate::router::RouterPolicy;

verus! {

broadcast use vstd::seq::group_seq_axioms, vstd::std_specs::vec::group_vec_axioms;

/// A client read drains at most this many pipelined requests per batch:
/// readiness-based batching takes what is immediately available, up to the
/// cap, and never blocks to fill it.
pub const CLIENT_BATCH_LIMIT: usize = 128;

/// The listen backlog every listener socket is configured with.
pub const LISTEN_BACKLOG: usize = 1024;

/// Checks a listener's `protocol` field, case-insensitively: only
/// `"redis"` is recognized; anything else fails listener creation.
pub fn validate_protocol(protocol: &str) -> (r: Result<(), CreationError>)
    ensures
        (r is Ok) <==> upper_bytes(protocol.spec_bytes()) == ascii_of("REDIS"@),
{
    proof {
        reveal_strlit("REDIS");
        assert("REDIS".is_ascii());
    }
    let up = crate::ascii::to_upper_bytes(protocol.as_bytes());
    if bytes_eq_str(up.as_slice(), "REDIS") {
        Ok(())
    } else {
        Err(
            CreationError::InvalidResource(
                String::from_str("unknown cache protocol for listener"),
            ),
        )
    }
}

/// Whether one of the names reads as the given pool name.
pub open spec fn has_pool(names: Seq<String>, want: Seq<char>) -> bool {
    exists|i: int| 0 <= i < names.len() && names[i]@ == want
}

/// Whether the configured pools contain one with the given name.
fn contains_pool(names: &Vec<String>, want: &str) -> (r: bool)
    ensures
        r == has_pool(names@, want@),
{
    let n = names.len();
    let mut i: usize = 0;
    while i < n
        invariant
            i <= n,
            n == names@.len(),
            forall|j: int| 0 <= j < i ==> names@[j]@ != want@,
        decreases n - i,
    {
        if str_eq(names[i].as_str(), want) {
            proof {
                assert(names@[i as int]@ == want@);
            }
            return true;
        }
        i += 1;
    }
    false
}

/// Checks that the pools a routing policy needs are configured: `default`
/// for a fixed route, `warm` and `cold` for a warmup, `default` and
/// `shadow` for a shadow.
pub fn validate_routing(policy: RouterPolicy, pool_names: &Vec<String>) -> (r: Result<
    (),
    CreationError,
>)
    ensures
        policy is Fixed ==> ((r is Ok) <==> has_pool(pool_names@, "default"@)),
        policy is Warmup ==> ((r is Ok) <==> (has_pool(pool_names@, "warm"@) && has_pool(
            pool_names@,
            "cold"@,
        ))),
        policy is Shadow ==> ((r is Ok) <==> (has_pool(pool_names@, "default"@) && has_pool(
            pool_names@,
            "shadow"@,
        ))),
{
    match policy {
        RouterPolicy::Fixed => {
            if contains_pool(pool_names, "default") {
                Ok(())
            } else {
                Err(
                    CreationError::InvalidResource(
                        String::from_str("no default pool configured for fixed router"),
                    ),
                )
            }
        },
        RouterPolicy::Warmup => {
            if contains_pool(pool_names, "warm") && contains_pool(pool_names, "cold") {
                Ok(())
            } else {
                Err(
                    CreationError::InvalidResource(
                        String::from_str("warmup router needs warm and cold pools"),
                    ),
                )
            }
        },
        RouterPolicy::Shadow => {
            if contains_pool(pool_names, "default") && contains_pool(pool_names, "shadow") {
                Ok(())
            } else {
                Err(
                    CreationError::InvalidResource(
                        String::from_str("shadow router needs default and shadow pools"),
                    ),
                )
            }
        },
    }
}

/// Takes the next read batch off the pending requests: up to
/// `CLIENT_BATCH_LIMIT` of them, in arrival order, leaving the rest.
pub fn take_batch(pending: &mut Vec<Message>) -> (batch: Vec<Message>)
    ensures
        batch@.len() == if old(pending)@.len() < CLIENT_BATCH_LIMIT {
            old(pending)@.len()
        } else {
            CLIENT_BATCH_LIMIT as nat
        },
        batch@ == old(pending)@.subrange(0, batch@.len() as int),
        final(pending)@ == old(pending)@.subrange(
            batch@.len() as int,
            old(pending)@.len() as int,
        ),
{
    let k = if pending.len() < CLIENT_BATCH_LIMIT {
        pending.len()
    } else {
        CLIENT_BATCH_LIMIT
    };
    let mut tail = pending.split_off(k);
    core::mem::swap(pending, &mut tail);
    tail
}

/// One pipeline turn after the router answered: the freshly merged replies
/// fill their reserved slots, the contiguous ready prefix drains, and its
/// encoding is what goes onto the client socket.  The bytes written are
/// exactly the encodings of the drained replies, which extend the drain
/// history in request order.
pub fn pipeline_turn(q: &mut MessageQueue, start: usize, merged: Vec<Message>) -> (out: Vec<u8>)
    requires
        old(q).wf(),
        start + merged@.len() <= old(q).len(),
        forall|j: int|
            start <= j < start + merged@.len() ==> old(q).filled@[j] is None,
    ensures
        final(q).wf(),
        final(q).len() == old(q).len(),
        final(q).filled@.len() == old(q).filled@.len(),
        forall|j: int|
            0 <= j < old(q).filled@.len() && !(start <= j < start + merged@.len())
                ==> final(q).filled@[j] == old(q).filled@[j],
        forall|j: int|
            start <= j < start + merged@.len() ==> final(q).filled@[j] == Some(
                merged@[j - start],
            ),
        final(q).flushed == final(q).len() || final(q).filled@[final(q).flushed as int] is None,
        old(q).history@.len() <= final(q).history@.len(),
        final(q).history@.subrange(0, old(q).history@.len() as int) == old(q).history@,
        out@ == encoding_seq(
            final(q).history@.subrange(
                old(q).history@.len() as int,
                final(q).history@.len() as int,
            ),
        ),
{
    q.fill_batch(start, merged);
    let ready = q.drain_ready();
    proof {
        assert(q.history@.subrange(0, old(q).history@.len() as int) =~= old(q).history@);
        assert(q.history@.subrange(old(q).history@.len() as int, q.history@.len() as int)
            =~= ready@);
    }
    encode_all(&ready)
}

} // verus!
