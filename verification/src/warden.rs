//! The shutdown warden: counts in-flight client tasks and bounds the drain
//! after the close signal.  Once closing, the acceptor takes no new
//! clients; existing tasks run out, and the deadline cuts the wait off.

use vstd::prelude::*;

use crate::backend::sat_add;

verus! {

/// Shutdown accounting for one listener.
#[derive(Clone, Copy, PartialEq, Eq, Structural, Debug)]
pub struct Warden {
    /// Client tasks currently running.
    pub in_flight: u64,
    /// Whether the close signal has been taken.
    pub closing: bool,
    /// When the drain gives up; meaningful once closing.
    pub deadline_ms: u64,
    /// How long past the close signal the drain may wait.
    pub drain_ms: u64,
}

impl Warden {
    /// Whether the acceptor may take another client.
    pub open spec fn spec_accepting(&self) -> bool {
        !self.closing
    }

    pub fn new(drain_ms: u64) -> (w: Warden)
        ensures
            w.in_flight == 0,
            !w.closing,
            w.drain_ms == drain_ms,
    {
        Warden { in_flight: 0, closing: false, deadline_ms: 0, drain_ms }
    }

    /// Records an accepted client.  The acceptor calls this only while
    /// accepting, so the count never rises after the close signal.
    pub fn increment(&mut self)
        requires
            old(self).in_flight < u64::MAX,
            old(self).spec_accepting(),
        ensures
            *final(self) == (Warden { in_flight: (old(self).in_flight + 1) as u64, ..*old(self) }),
    {
        self.in_flight = self.in_flight + 1;
    }

    /// Records a finished client task.
    pub fn decrement(&mut self)
        requires
            old(self).in_flight > 0,
        ensures
            *final(self) == (Warden { in_flight: (old(self).in_flight - 1) as u64, ..*old(self) }),
    {
        self.in_flight = self.in_flight - 1;
    }

    /// Takes the close signal at time `now`: accepting stops at once and
    /// the drain deadline is set `drain_ms` ahead.
    pub fn close(&mut self, now: u64)
        ensures
            *final(self) == (Warden {
                closing: true,
                deadline_ms: sat_add(now, old(self).drain_ms),
                ..*old(self)
            }),
            !final(self).spec_accepting(),
    {
        self.closing = true;
        self.deadline_ms = crate::backend::saturating_add(now, self.drain_ms);
    }

    /// Whether the acceptor may take another client.
    pub fn accepting(&self) -> (r: bool)
        ensures
            r == self.spec_accepting(),
    {
        !self.closing
    }

    /// Whether every in-flight task has finished.
    pub fn drained(&self) -> (r: bool)
        ensures
            r == (self.in_flight == 0),
    {
        self.in_flight == 0
    }

    /// Whether the drain deadline has passed: surviving tasks are then
    /// cancelled rather than awaited.
    pub fn deadline_expired(&self, now: u64) -> (r: bool)
        ensures
            r == (self.closing && now >= self.deadline_ms),
    {
        self.closing && now >= self.deadline_ms
    }
}

/// What the warden does with one lifecycle event: an accepted client, or a
/// finished task.  A connect while closing is refused and changes nothing.
#[derive(Clone, Copy, PartialEq, Eq, Structural, Debug)]
pub enum WardenEvent {
    Connect,
    Disconnect,
}

/// The warden after one event.
pub open spec fn warden_step(w: Warden, e: WardenEvent) -> Warden {
    match e {
        WardenEvent::Connect => if !w.closing && w.in_flight < u64::MAX {
            Warden { in_flight: (w.in_flight + 1) as u64, ..w }
        } else {
            w
        },
        WardenEvent::Disconnect => if w.in_flight > 0 {
            Warden { in_flight: (w.in_flight - 1) as u64, ..w }
        } else {
            w
        },
    }
}

/// The warden after a whole sequence of events, in order.
pub open spec fn warden_run(w: Warden, events: Seq<WardenEvent>) -> Warden
    decreases events,
{
    if events.len() == 0 {
        w
    } else {
        warden_run(warden_step(w, events[0]), events.drop_first())
    }
}

/// How many events of a sequence are disconnects.
pub open spec fn disconnect_count(events: Seq<WardenEvent>) -> nat
    decreases events,
{
    if events.len() == 0 {
        0
    } else {
        (if events[0] is Disconnect {
            1nat
        } else {
            0nat
        }) + disconnect_count(events.drop_first())
    }
}

/// Drain bound, the accounting half: after the close signal no connection
/// is accepted, so under any further workload the in-flight count never
/// rises, it stays closing, and once the tasks that were in flight have
/// all finished the count is zero.  The wall-clock half — that this
/// happens within `drain_ms` while backends answer, and that the deadline
/// cancels survivors otherwise — is the acceptor loop's business.
pub proof fn lemma_drain_bound(w: Warden, events: Seq<WardenEvent>)
    requires
        w.closing,
    ensures
        warden_run(w, events).closing,
        warden_run(w, events).in_flight <= w.in_flight,
        disconnect_count(events) >= w.in_flight ==> warden_run(w, events).in_flight == 0,
    decreases events,
{
    if events.len() > 0 {
        lemma_drain_bound(warden_step(w, events[0]), events.drop_first());
    }
}

} // verus!
