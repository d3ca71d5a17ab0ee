//! Router policies: which pools see a batch, and how their responses
//! compose.  Only the primary pool ever answers the client; warmup and
//! shadow fan-outs are fire-and-forget.

use vstd::prelude::*;

use crate::errors::BackendFailure;
use crate::message::{Message, clone_message, encoding};
use crate::schema::is_write_req;

verus! {

broadcast use vstd::seq::group_seq_axioms, vstd::std_specs::vec::group_vec_axioms;

/// The per-listener routing policy, fixed at configuration load.
#[derive(Clone, Copy, PartialEq, Eq, Structural, Debug)]
pub enum RouterPolicy {
    /// Forward every batch to the `default` pool.
    Fixed,
    /// Forward to the `warm` pool; copy the writes to the `cold` pool and
    /// discard whatever the cold pool answers.
    Warmup,
    /// Forward to the `default` pool; duplicate the whole batch to the
    /// `shadow` pool and discard whatever the shadow pool answers.
    Shadow,
}

/// The role a pool plays for a policy.
#[derive(Clone, Copy, PartialEq, Eq, Structural, Debug)]
pub enum PoolRole {
    Default,
    Warm,
    Cold,
    Shadow,
}

/// What one batch does under a policy: the pool whose replies answer the
/// client, and an optional background copy whose replies are discarded.
pub struct RoutePlan {
    /// The pool whose replies compose the client response.
    pub primary: PoolRole,
    /// A background fan-out: the receiving pool and what it gets.
    pub secondary: Option<(PoolRole, Vec<Message>)>,
}

/// The requests of a batch that are writes, in order.
pub open spec fn writes_of(batch: Seq<Message>) -> Seq<Message> {
    batch.filter(|m: Message| is_write_req(m))
}

/// Plans one batch under a policy.  The primary pool always sees the batch
/// itself (the caller forwards it unchanged); the secondary copy carries
/// the same bytes: the whole batch for a shadow, only the writes for a
/// warmup's cold pool, nothing for a fixed route.
pub fn plan_route(policy: RouterPolicy, batch: &Vec<Message>) -> (r: RoutePlan)
    ensures
        policy is Fixed ==> r.primary is Default && r.secondary is None,
        policy is Warmup ==> r.primary is Warm && (r.secondary matches Some((role, msgs)) && {
            &&& role is Cold
            &&& msgs@.len() == writes_of(batch@).len()
            &&& forall|k: int|
                0 <= k < msgs@.len() ==> #[trigger] encoding(msgs@[k]) == encoding(
                    writes_of(batch@)[k],
                )
        }),
        policy is Shadow ==> r.primary is Default && (r.secondary matches Some((role, msgs)) && {
            &&& role is Shadow
            &&& msgs@.len() == batch@.len()
            &&& forall|k: int|
                0 <= k < msgs@.len() ==> #[trigger] encoding(msgs@[k]) == encoding(batch@[k])
        }),
{
    match policy {
        RouterPolicy::Fixed => RoutePlan { primary: PoolRole::Default, secondary: None },
        RouterPolicy::Warmup => {
            let n = batch.len();
            let mut writes: Vec<Message> = Vec::new();
            let mut i: usize = 0;
            while i < n
                invariant
                    i <= n,
                    n == batch@.len(),
                    writes@.len() == writes_of(batch@.subrange(0, i as int)).len(),
                    forall|k: int|
                        0 <= k < writes@.len() ==> #[trigger] encoding(writes@[k]) == encoding(
                            writes_of(batch@.subrange(0, i as int))[k],
                        ),
                decreases n - i,
            {
                let ghost pre = batch@.subrange(0, i as int);
                proof {
                    assert(batch@.subrange(0, (i + 1) as int).drop_last() =~= pre);
                    lemma_writes_unfold(batch@.subrange(0, (i + 1) as int));
                }
                if crate::schema::is_write(&batch[i]) {
                    writes.push(clone_message(&batch[i]));
                }
                i += 1;
            }
            proof {
                assert(batch@.subrange(0, n as int) =~= batch@);
            }
            RoutePlan {
                primary: PoolRole::Warm,
                secondary: Some((PoolRole::Cold, writes)),
            }
        },
        RouterPolicy::Shadow => {
            let n = batch.len();
            let mut copy: Vec<Message> = Vec::new();
            let mut i: usize = 0;
            while i < n
                invariant
                    i <= n,
                    n == batch@.len(),
                    copy@.len() == i,
                    forall|k: int|
                        0 <= k < i ==> #[trigger] encoding(copy@[k]) == encoding(batch@[k]),
                decreases n - i,
            {
                copy.push(clone_message(&batch[i]));
                i += 1;
            }
            RoutePlan { primary: PoolRole::Default, secondary: Some((PoolRole::Shadow, copy)) }
        },
    }
}

/// A non-empty sequence's writes are the writes of its front, extended by
/// its last element where that is a write.
proof fn lemma_writes_unfold(s: Seq<Message>)
    requires
        s.len() > 0,
    ensures
        writes_of(s) == if is_write_req(s.last()) {
            writes_of(s.drop_last()).push(s.last())
        } else {
            writes_of(s.drop_last())
        },
{
    reveal(Seq::filter);
}

/// Composes the client's response: exactly the primary pool's replies, in
/// their order.  Whatever a background fan-out answered — or failed with —
/// never reaches the client; its errors are only logged.
pub fn compose_response(
    primary: Vec<Message>,
    secondary: Option<Result<Vec<Message>, BackendFailure>>,
) -> (r: Vec<Message>)
    ensures
        r@ == primary@,
{
    primary
}

} // verus!
