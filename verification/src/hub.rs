//! The broadcast hub: a single publisher fans batches of log records (and
//! one terminal stop signal) out to every registered subscriber, each of
//! which sees every message exactly once, in publish order.
//!
//! The hub keeps the published messages as an ordered log and a delivery
//! cursor per subscriber, so per-subscriber delivery order is publish order
//! by construction. Registration is subscribe-before-start: every subscriber
//! registers before the first message is published. Subscribers run as
//! cooperatively scheduled tasks, each pulling from its own cursor; no
//! subscriber ever blocks another, and a slow subscriber only leaves its own
//! cursor behind (the undelivered suffix is retained unboundedly — the
//! intended tradeoff for a non-blocking publisher).

use vstd::prelude::*;

use crate::types::{LogRecord, LogRecordV};

verus! {

/// Mathematical model of a broadcast message.
pub enum BroadcastV {
    /// A batch of log records, in emission order.
    Event(Seq<LogRecordV>),
    /// The terminal stop signal.
    Stop,
}

/// A broadcast message: a batch of log records, or the terminal stop signal.
pub enum Broadcast {
    /// A batch of log records, in emission order.
    Event(Vec<LogRecord>),
    /// The terminal stop signal. Exactly one ends a hub's lifetime; it is
    /// the last message any subscriber receives.
    StopSignal,
}

impl View for Broadcast {
    type V = BroadcastV;

    open spec fn view(&self) -> BroadcastV {
        match self {
            Broadcast::Event(batch) => BroadcastV::Event(
                Seq::new(batch@.len(), |i: int| batch@[i]@),
            ),
            Broadcast::StopSignal => BroadcastV::Stop,
        }
    }
}

impl Broadcast {
    /// Every record of an event batch is well-formed.
    pub open spec fn wf(&self) -> bool {
        match self {
            Broadcast::Event(batch) => forall|i: int|
                0 <= i < batch@.len() ==> (#[trigger] batch@[i]).wf(),
            Broadcast::StopSignal => true,
        }
    }

    /// Decides well-formedness at run time — exactly `wf` — so a caller
    /// outside the verified boundary can test a message before publishing
    /// it.
    pub fn check_wf(&self) -> (r: bool)
        ensures
            r == self.wf(),
    {
        match self {
            Broadcast::Event(batch) => {
                let mut i: usize = 0;
                while i < batch.len()
                    invariant
                        i <= batch@.len(),
                        self.wf() == (forall|j: int|
                            0 <= j < batch@.len() ==> (#[trigger] batch@[j]).wf()),
                        forall|j: int| 0 <= j < i ==> (#[trigger] batch@[j]).wf(),
                    decreases batch@.len() - i,
                {
                    if !batch[i].check_wf() {
                        proof {
                            assert(!batch@[i as int].wf());
                        }
                        return false;
                    }
                    i = i + 1;
                }
                true
            },
            Broadcast::StopSignal => true,
        }
    }

    /// A copy of this message with an equal view.
    pub fn duplicate(&self) -> (r: Self)
        ensures
            r@ == self@,
            self.wf() ==> r.wf(),
    {
        match self {
            Broadcast::Event(batch) => {
                let mut out: Vec<LogRecord> = Vec::new();
                let mut i: usize = 0;
                while i < batch.len()
                    invariant
                        i <= batch@.len(),
                        out@.len() == i,
                        forall|j: int| 0 <= j < i ==> out@[j]@ == batch@[j]@,
                        forall|j: int| 0 <= j < i ==> (batch@[j].wf() ==> (#[trigger] out@[j]).wf()),
                    decreases batch@.len() - i,
                {
                    out.push(batch[i].duplicate());
                    i = i + 1;
                }
                let r = Broadcast::Event(out);
                proof {
                    assert(Seq::new(out@.len(), |j: int| out@[j]@) =~= Seq::new(
                        batch@.len(),
                        |j: int| batch@[j]@,
                    ));
                }
                r
            },
            Broadcast::StopSignal => Broadcast::StopSignal,
        }
    }
}

/// The fan-out hub. One logically single-threaded publisher appends to the
/// message log; each subscriber holds a cursor into it.
pub struct BroadcastHub {
    /// Every message published on this hub, in publish order.
    pub log: Vec<Broadcast>,
    /// Per subscriber: how many messages it has received.
    pub cursors: Vec<usize>,
    /// Per subscriber: whether it owes a shutdown acknowledgement.
    pub ack_owed: Vec<bool>,
    /// Per subscriber: whether its acknowledgement has arrived.
    pub ack_sent: Vec<bool>,
    /// Whether the terminal stop signal has been published.
    pub stopped: bool,
}

impl BroadcastHub {
    /// The messages published so far, in publish order.
    pub open spec fn published(&self) -> Seq<BroadcastV> {
        Seq::new(self.log@.len(), |i: int| self.log@[i]@)
    }

    /// The number of registered subscribers.
    pub open spec fn subscriber_count(&self) -> nat {
        self.cursors@.len()
    }

    /// The messages subscriber `i` has received, in order.
    pub open spec fn delivered(&self, i: int) -> Seq<BroadcastV> {
        self.published().take(self.cursors@[i] as int)
    }

    /// Whether subscriber `i` owes a shutdown acknowledgement.
    pub open spec fn owes_ack(&self, i: int) -> bool {
        self.ack_owed@[i]
    }

    /// Whether subscriber `i` has acknowledged shutdown.
    pub open spec fn acked(&self, i: int) -> bool {
        self.ack_sent@[i]
    }

    /// Whether the stop signal has been published.
    pub open spec fn is_stopped(&self) -> bool {
        self.stopped
    }

    /// Hub invariant: one cursor, ack obligation, and ack flag per
    /// subscriber; cursors never pass the log; the stop signal, if
    /// published, is the last message and the only one; every published
    /// batch is well-formed.
    pub open spec fn wf(&self) -> bool {
        &&& self.cursors@.len() == self.ack_owed@.len()
        &&& self.cursors@.len() == self.ack_sent@.len()
        &&& forall|i: int| 0 <= i < self.cursors@.len() ==> self.cursors@[i] <= self.log@.len()
        &&& (self.stopped <==> (self.log@.len() > 0 && self.log@.last()@ == BroadcastV::Stop))
        &&& forall|k: int|
            0 <= k < self.log@.len() - 1 ==> !((#[trigger] self.log@[k])@ == BroadcastV::Stop)
        &&& forall|k: int| 0 <= k < self.log@.len() ==> (#[trigger] self.log@[k]).wf()
    }

    /// A fresh hub with no subscribers and nothing published.
    pub fn new() -> (r: Self)
        ensures
            r.wf(),
            r.published() == Seq::<BroadcastV>::empty(),
            r.subscriber_count() == 0,
            !r.is_stopped(),
    {
        let r = BroadcastHub {
            log: Vec::new(),
            cursors: Vec::new(),
            ack_owed: Vec::new(),
            ack_sent: Vec::new(),
            stopped: false,
        };
        proof {
            assert(r.published() =~= Seq::<BroadcastV>::empty());
        }
        r
    }

    /// Registers a subscriber and returns its identifier. Registration
    /// happens only before the first publish (subscribe-before-start), so
    /// every subscriber sees the whole publish order.
    pub fn register(&mut self, wants_ack: bool) -> (id: usize)
        requires
            old(self).wf(),
            old(self).published().len() == 0,
        ensures
            final(self).wf(),
            id == old(self).subscriber_count(),
            final(self).subscriber_count() == old(self).subscriber_count() + 1,
            final(self).published() == old(self).published(),
            !final(self).is_stopped(),
            final(self).owes_ack(id as int) == wants_ack,
            !final(self).acked(id as int),
            final(self).delivered(id as int) == Seq::<BroadcastV>::empty(),
            forall|j: int|
                0 <= j < old(self).subscriber_count() ==> final(self).delivered(j) == old(self).delivered(j) && final(self).owes_ack(j) == old(self).owes_ack(j) && final(self).acked(j) == old(self).acked(j),
    {
        let id = self.cursors.len();
        self.cursors.push(0);
        self.ack_owed.push(wants_ack);
        self.ack_sent.push(false);
        proof {
            assert(final(self).delivered(id as int) =~= Seq::<BroadcastV>::empty());
            assert(forall|j: int|
                0 <= j < old(self).subscriber_count() ==> final(self).delivered(j) =~= old(self).delivered(j));
        }
        id
    }

    /// Publishes a message to every subscriber: it is appended to the
    /// single publish order that each subscriber's deliveries follow.
    /// Publishing the stop signal is terminal: no further publish is valid.
    pub fn publish(&mut self, msg: Broadcast)
        requires
            old(self).wf(),
            !old(self).is_stopped(),
            msg.wf(),
        ensures
            final(self).wf(),
            final(self).published() == old(self).published().push(msg@),
            final(self).subscriber_count() == old(self).subscriber_count(),
            final(self).is_stopped() == (msg@ == BroadcastV::Stop),
            forall|j: int|
                0 <= j < old(self).subscriber_count() ==> final(self).delivered(j) == old(self).delivered(j) && final(self).owes_ack(j) == old(self).owes_ack(j) && final(self).acked(j) == old(self).acked(j),
    {
        let stop = match &msg {
            Broadcast::StopSignal => true,
            Broadcast::Event(_) => false,
        };
        self.log.push(msg);
        self.stopped = stop;
        proof {
            assert(final(self).published() =~= old(self).published().push(msg@));
            assert(forall|j: int|
                0 <= j < old(self).subscriber_count() ==> final(self).delivered(j) =~= old(self).delivered(j));
        }
    }

    /// Delivers the next undelivered message to subscriber `id`, or reports
    /// that it has seen everything published so far. Each message is
    /// delivered exactly once, in publish order.
    pub fn receive(&mut self, id: usize) -> (r: Option<Broadcast>)
        requires
            old(self).wf(),
            id < old(self).subscriber_count(),
        ensures
            final(self).wf(),
            final(self).published() == old(self).published(),
            final(self).subscriber_count() == old(self).subscriber_count(),
            final(self).is_stopped() == old(self).is_stopped(),
            forall|j: int|
                0 <= j < old(self).subscriber_count() && j != id ==> final(self).delivered(j)
                    == old(self).delivered(j),
            forall|j: int|
                0 <= j < old(self).subscriber_count() ==> final(self).owes_ack(j) == old(self).owes_ack(j) && final(self).acked(j) == old(self).acked(j),
            match r {
                Some(m) => {
                    &&& old(self).delivered(id as int).len() < old(self).published().len()
                    &&& m@ == old(self).published()[old(self).delivered(id as int).len() as int]
                    &&& m.wf()
                    &&& final(self).delivered(id as int) == old(self).delivered(id as int).push(m@)
                },
                None => {
                    &&& old(self).delivered(id as int).len() == old(self).published().len()
                    &&& *final(self) == *old(self)
                },
            },
    {
        let cursor = self.cursors[id];
        if cursor < self.log.len() {
            let m = self.log[cursor].duplicate();
            let _ = self.cursors.remove(id);
            self.cursors.insert(id, cursor + 1);
            proof {
                assert(final(self).delivered(id as int) =~= old(self).delivered(id as int).push(
                    m@,
                ));
                assert(forall|j: int|
                    0 <= j < old(self).subscriber_count() && j != id ==> final(self).delivered(j)
                        =~= old(self).delivered(j));
            }
            Some(m)
        } else {
            None
        }
    }

    /// Records subscriber `id`'s shutdown acknowledgement: sent exactly once,
    /// after its post-stop work is complete.
    pub fn acknowledge(&mut self, id: usize)
        requires
            old(self).wf(),
            id < old(self).subscriber_count(),
            old(self).owes_ack(id as int),
            !old(self).acked(id as int),
        ensures
            final(self).wf(),
            final(self).published() == old(self).published(),
            final(self).subscriber_count() == old(self).subscriber_count(),
            final(self).is_stopped() == old(self).is_stopped(),
            final(self).acked(id as int),
            forall|j: int|
                0 <= j < old(self).subscriber_count() ==> final(self).delivered(j) == old(self).delivered(j) && final(self).owes_ack(j) == old(self).owes_ack(j),
            forall|j: int|
                0 <= j < old(self).subscriber_count() && j != id ==> final(self).acked(j) == old(self).acked(j),
    {
        let _ = self.ack_sent.remove(id);
        self.ack_sent.insert(id, true);
        proof {
            assert(forall|j: int|
                0 <= j < old(self).subscriber_count() ==> final(self).delivered(j) =~= old(self).delivered(j));
        }
    }

    /// Withdraws subscriber `id`'s acknowledgement obligation: a consumer
    /// that terminates without flushing owes no acknowledgement.
    pub fn release_ack(&mut self, id: usize)
        requires
            old(self).wf(),
            id < old(self).subscriber_count(),
        ensures
            final(self).wf(),
            final(self).published() == old(self).published(),
            final(self).subscriber_count() == old(self).subscriber_count(),
            final(self).is_stopped() == old(self).is_stopped(),
            !final(self).owes_ack(id as int),
            forall|j: int|
                0 <= j < old(self).subscriber_count() ==> final(self).delivered(j) == old(self).delivered(j) && final(self).acked(j) == old(self).acked(j),
            forall|j: int|
                0 <= j < old(self).subscriber_count() && j != id ==> final(self).owes_ack(j)
                    == old(self).owes_ack(j),
    {
        let _ = self.ack_owed.remove(id);
        self.ack_owed.insert(id, false);
        proof {
            assert(forall|j: int|
                0 <= j < old(self).subscriber_count() ==> final(self).delivered(j) =~= old(self).delivered(j));
        }
    }

    /// Whether every subscriber that owes a shutdown acknowledgement has
    /// sent it: the condition the orchestrator waits on before the pipeline
    /// counts as torn down.
    pub fn all_acknowledged(&self) -> (r: bool)
        requires
            self.wf(),
        ensures
            r == forall|j: int|
                0 <= j < self.subscriber_count() ==> (self.owes_ack(j) ==> self.acked(j)),
    {
        let mut i: usize = 0;
        let n = self.cursors.len();
        while i < n
            invariant
                self.wf(),
                n == self.subscriber_count(),
                i <= n,
                forall|j: int| 0 <= j < i ==> (self.owes_ack(j) ==> self.acked(j)),
            decreases n - i,
        {
            if self.ack_owed[i] && !self.ack_sent[i] {
                proof {
                    assert(!(self.owes_ack(i as int) ==> self.acked(i as int)));
                }
                return false;
            }
            i = i + 1;
        }
        true
    }
}

/// Per-subscriber delivery equals publish order: what subscriber `i` has
/// received is exactly the first `delivered(i).len()` published messages —
/// no reordering, no duplication, no loss. (With subscribe-before-start
/// registration, every message published while the subscriber is live is in
/// flight for it.)
pub proof fn lemma_subscriber_order(h: BroadcastHub, i: int)
    requires
        h.wf(),
        0 <= i < h.subscriber_count(),
    ensures
        h.delivered(i) == h.published().take(h.delivered(i).len() as int),
        h.delivered(i).len() <= h.published().len(),
        forall|k: int| 0 <= k < h.delivered(i).len() ==> h.delivered(i)[k] == h.published()[k],
{
    assert(h.delivered(i) =~= h.published().take(h.delivered(i).len() as int));
}

/// The stop signal is terminal: wherever it stands in the publish order, it
/// is the last message, so it is the last message any subscriber receives.
pub proof fn lemma_stop_is_last(h: BroadcastHub, k: int)
    requires
        h.wf(),
        0 <= k < h.published().len(),
        h.published()[k] == BroadcastV::Stop,
    ensures
        k == h.published().len() - 1,
{
}

} // verus!
