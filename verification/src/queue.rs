//! The per-client ordered reply queue.
//!
//! Each request read from a client reserves one slot, in read order.  The
//! router may complete requests out of order; replies land in their reserved
//! slots, and only the contiguous ready prefix is ever drained onto the
//! client socket.  The ghost drain history makes the ordering guarantee a
//! stated invariant: everything drained so far is exactly the filled replies
//! in request order.

use vstd::prelude::*;

use crate::message::Message;

verus! {

broadcast use vstd::seq::group_seq_axioms, vstd::std_specs::vec::group_vec_axioms;

/// An ordered queue of promised replies for one client.  Slot `j` belongs to
/// the `j`-th request read from the client since the connection opened.
pub struct MessageQueue {
    /// Replies not yet drained: slot `j` holds `Some` once its reply is
    /// ready, and `None` while pending or after draining.
    pub slots: Vec<Option<Message>>,
    /// How many leading slots have been drained to the client socket.
    pub flushed: usize,
    /// Every reply ever filled, by request index, drained or not.
    pub filled: Ghost<Seq<Option<Message>>>,
    /// Every reply ever drained, in drain order.
    pub history: Ghost<Seq<Message>>,
}

impl MessageQueue {
    /// The queue's internal invariant.  Its last clause is the ordering
    /// guarantee: the drain history equals the filled replies in request
    /// order, so replies reach the client exactly as the requests came in.
    pub open spec fn wf(&self) -> bool {
        &&& self.slots@.len() == self.filled@.len()
        &&& self.flushed <= self.slots@.len()
        &&& forall|j: int|
            self.flushed <= j < self.slots@.len() ==> self.slots@[j] == self.filled@[j]
        &&& forall|j: int| 0 <= j < self.flushed ==> self.filled@[j] is Some
        &&& self.history@ == Seq::new(self.flushed as nat, |j: int| self.filled@[j]->Some_0)
    }

    /// The number of slots ever reserved.
    pub open spec fn len(&self) -> nat {
        self.slots@.len()
    }

    pub fn new() -> (q: MessageQueue)
        ensures
            q.wf(),
            q.len() == 0,
            q.flushed == 0,
            q.history@ == Seq::<Message>::empty(),
    {
        let q = MessageQueue {
            slots: Vec::new(),
            flushed: 0,
            filled: Ghost(Seq::empty()),
            history: Ghost(Seq::empty()),
        };
        proof {
            assert(q.history@ =~= Seq::new(0, |j: int| q.filled@[j]->Some_0));
        }
        q
    }

    /// Reserves `n` fresh pending slots, one per request of a newly read
    /// batch, and answers with the index of the first.
    #[verifier::loop_isolation(false)]
    pub fn reserve(&mut self, n: usize) -> (start: usize)
        requires
            old(self).wf(),
            old(self).len() + n <= usize::MAX,
        ensures
            final(self).wf(),
            start == old(self).len(),
            final(self).len() == old(self).len() + n,
            final(self).flushed == old(self).flushed,
            final(self).history@ == old(self).history@,
            forall|j: int|
                0 <= j < old(self).len() ==> final(self).filled@[j] == old(self).filled@[j],
            forall|j: int|
                old(self).len() <= j < final(self).len() ==> final(self).filled@[j] is None,
    {
        let start = self.slots.len();
        let mut k: usize = 0;
        while k < n
            invariant
                k <= n,
                self.slots@.len() == start + k,
                forall|j: int| 0 <= j < start ==> self.slots@[j] == old(self).slots@[j],
                forall|j: int| start <= j < start + k ==> self.slots@[j] is None,
                self.flushed == old(self).flushed,
                self.filled == old(self).filled,
                self.history == old(self).history,
            decreases n - k,
        {
            self.slots.push(None);
            k += 1;
        }
        proof {
            self.filled@ = self.filled@ + Seq::new(n as nat, |j: int| Option::<Message>::None);
            assert(self.history@ =~= Seq::new(
                self.flushed as nat,
                |j: int| self.filled@[j]->Some_0,
            ));
        }
        start
    }

    /// Stores the reply for slot `at`.  A slot is filled exactly once; the
    /// drained prefix is never rewritten.
    pub fn fill(&mut self, at: usize, m: Message)
        requires
            old(self).wf(),
            at < old(self).len(),
            old(self).filled@[at as int] is None,
        ensures
            final(self).wf(),
            final(self).len() == old(self).len(),
            final(self).flushed == old(self).flushed,
            final(self).history@ == old(self).history@,
            final(self).filled@ == old(self).filled@.update(at as int, Some(m)),
    {
        proof {
            assert(at >= self.flushed);
        }
        self.slots[at] = Some(m);
        proof {
            self.filled@ = self.filled@.update(at as int, Some(m));
            assert(self.history@ =~= Seq::new(
                self.flushed as nat,
                |j: int| self.filled@[j]->Some_0,
            ));
        }
    }

    /// Stores a batch of replies into the `n` slots reserved at `start`, in
    /// order: the reply for request `start + j` is `replies[j]`.
    #[verifier::loop_isolation(false)]
    pub fn fill_batch(&mut self, start: usize, replies: Vec<Message>)
        requires
            old(self).wf(),
            start + replies@.len() <= old(self).len(),
            forall|j: int|
                start <= j < start + replies@.len() ==> old(self).filled@[j] is None,
        ensures
            final(self).wf(),
            final(self).len() == old(self).len(),
            final(self).flushed == old(self).flushed,
            final(self).history@ == old(self).history@,
            final(self).filled@.len() == old(self).filled@.len(),
            forall|j: int|
                0 <= j < old(self).filled@.len() && !(start <= j < start + replies@.len())
                    ==> final(self).filled@[j] == old(self).filled@[j],
            forall|j: int|
                start <= j < start + replies@.len() ==> final(self).filled@[j] == Some(
                    replies@[j - start],
                ),
    {
        let ghost all = replies@;
        let n = replies.len();
        let mut rest = replies;
        while rest.len() > 0
            invariant
                self.wf(),
                rest@.len() <= n,
                n == all.len(),
                rest@ == all.subrange(0, rest@.len() as int),
                start + n <= self.len(),
                self.len() == old(self).len(),
                self.flushed == old(self).flushed,
                self.history@ == old(self).history@,
                self.filled@.len() == old(self).filled@.len(),
                forall|j: int|
                    0 <= j < old(self).filled@.len() && !(start <= j < start + n)
                        ==> self.filled@[j] == old(self).filled@[j],
                forall|j: int|
                    start <= j < start + rest@.len() ==> self.filled@[j] is None,
                forall|j: int|
                    start + rest@.len() <= j < start + n ==> self.filled@[j] == Some(
                        all[j - start],
                    ),
            decreases rest@.len(),
        {
            let m = rest.pop().unwrap();
            let cap = self.slots.len();
            proof {
                assert(start + rest@.len() < cap);
            }
            let at = start + rest.len();
            proof {
                assert(m == all[at - start]);
                assert(rest@ =~= all.subrange(0, rest@.len() as int));
            }
            self.fill(at, m);
        }
    }

    /// Drains the contiguous ready prefix, in request order, and hands it
    /// back for writing to the client socket.  Nothing beyond the first
    /// still-pending slot moves; the drain history grows by exactly what is
    /// returned.
    #[verifier::loop_isolation(false)]
    pub fn drain_ready(&mut self) -> (out: Vec<Message>)
        requires
            old(self).wf(),
        ensures
            final(self).wf(),
            final(self).len() == old(self).len(),
            final(self).filled@ == old(self).filled@,
            final(self).flushed >= old(self).flushed,
            final(self).flushed == final(self).len() || final(self).filled@[final(self).flushed
                as int] is None,
            out@.len() == final(self).flushed - old(self).flushed,
            forall|k: int|
                0 <= k < out@.len() ==> old(self).filled@[old(self).flushed + k] == Some(out@[k]),
            final(self).history@ == old(self).history@ + out@,
    {
        let mut out: Vec<Message> = Vec::new();
        loop
            invariant
                self.wf(),
                self.len() == old(self).len(),
                self.filled@ == old(self).filled@,
                self.flushed >= old(self).flushed,
                self.flushed == old(self).flushed + out@.len(),
                forall|k: int|
                    0 <= k < out@.len() ==> old(self).filled@[old(self).flushed + k] == Some(
                        out@[k],
                    ),
                self.history@ == old(self).history@ + out@,
            decreases self.len() - self.flushed,
        {
            if self.flushed >= self.slots.len() {
                break;
            }
            let mut taken: Option<Message> = None;
            let at = self.flushed;
            core::mem::swap(&mut self.slots[at], &mut taken);
            match taken {
                Some(m) => {
                    out.push(m);
                    self.flushed = at + 1;
                    proof {
                        self.history@ = self.history@.push(m);
                        assert(self.history@ =~= Seq::new(
                            self.flushed as nat,
                            |j: int| self.filled@[j]->Some_0,
                        ));
                        assert(self.history@ =~= old(self).history@ + out@);
                    }
                },
                None => {
                    proof {
                        assert(self.filled@[at as int] is None);
                    }
                    break;
                },
            }
        }
        out
    }
}

/// Order preservation: whatever interleaving fills the slots, everything
/// ever drained to the client is exactly the filled replies in request
/// order — the reply in drain position `j` answers request `j`.
pub proof fn lemma_order_preservation(q: MessageQueue)
    requires
        q.wf(),
    ensures
        q.history@.len() == q.flushed,
        forall|j: int| 0 <= j < q.history@.len() ==> q.filled@[j] == Some(q.history@[j]),
{
    assert forall|j: int| 0 <= j < q.history@.len() implies q.filled@[j] == Some(
        q.history@[j],
    ) by {
        assert(q.filled@[j] is Some);
    }
}

} // verus!
