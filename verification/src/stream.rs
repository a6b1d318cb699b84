//! The streaming consumer: a lazy, ordered sequence of decoded events as
//! JSON text, one item per matching registry entry per record, with no
//! buffering and no accumulation. The sequence is infinite until the stop
//! signal arrives and finite and terminating thereafter; a single traversal
//! consumes the underlying subscription.

use vstd::prelude::*;

use crate::hub::{Broadcast, BroadcastHub, BroadcastV};
use crate::json::{render_object, spec_object};
use crate::logger::EventLogger;
use crate::registry::{outcome_view, spec_match_decode, DecodeError, Registry, RegistryEntryV};
use crate::types::LogRecordV;
use crate::value::ValueV;

verus! {

/// The texts a record's match outcomes yield, in registry order: the JSON
/// object of each successfully decoded entry; a decode failure yields
/// nothing for that entry and nothing is aborted.
pub open spec fn spec_yields_of_outcomes(
    os: Seq<(Seq<char>, Result<Seq<(Seq<char>, ValueV)>, DecodeError>)>,
) -> Seq<Seq<char>>
    decreases os.len(),
{
    if os.len() == 0 {
        Seq::empty()
    } else {
        spec_yields_of_outcomes(os.drop_last()) + (match os.last().1 {
            Ok(fs) => seq![spec_object(fs)],
            Err(_) => Seq::<Seq<char>>::empty(),
        })
    }
}

/// The texts one record yields against a registry.
pub open spec fn spec_yields_of_log(es: Seq<RegistryEntryV>, l: LogRecordV) -> Seq<Seq<char>> {
    spec_yields_of_outcomes(spec_match_decode(es, l))
}

/// The texts one batch yields, record by record in batch order.
pub open spec fn spec_yields_of_batch(es: Seq<RegistryEntryV>, b: Seq<LogRecordV>) -> Seq<Seq<char>>
    decreases b.len(),
{
    if b.len() == 0 {
        Seq::empty()
    } else {
        spec_yields_of_batch(es, b.drop_last()) + spec_yields_of_log(es, b.last())
    }
}

/// The texts one broadcast message yields: a batch's yields, or nothing for
/// the stop signal.
pub open spec fn spec_yields_of_message(es: Seq<RegistryEntryV>, msg: BroadcastV) -> Seq<Seq<char>> {
    match msg {
        BroadcastV::Event(b) => spec_yields_of_batch(es, b),
        BroadcastV::Stop => Seq::empty(),
    }
}

/// One step of the lazy sequence.
pub enum StreamStep {
    /// The yields of the next delivered event batch, in order (possibly
    /// none, when nothing matched).
    Items(Vec<String>),
    /// Nothing is pending: the consumer suspends until the hub publishes
    /// more.
    Pending,
    /// The stop signal has been consumed: the sequence has ended.
    Ended,
}

/// A single-traversal consumer of one subscription, yielding decoded events
/// as text. Not restartable: it consumes the subscription it was made from.
pub struct EventStream {
    /// The registry whose matching entries produce the yields.
    pub registry: Registry,
    /// The consumed subscription.
    pub subscription: usize,
    /// Whether the stop signal has been consumed.
    pub done: bool,
}

impl EventLogger {
    /// Turns this logger into a streaming consumer of its subscription:
    /// mutually exclusive with running it. The consumer owes no shutdown
    /// acknowledgement, so the obligation taken at registration is
    /// withdrawn.
    pub fn stream(self, hub: &mut BroadcastHub) -> (r: EventStream)
        requires
            old(hub).wf(),
            (match self.subscription {
                Some(id) => id < old(hub).subscriber_count(),
                None => false,
            }),
        ensures
            final(hub).wf(),
            final(hub).published() == old(hub).published(),
            final(hub).subscriber_count() == old(hub).subscriber_count(),
            final(hub).is_stopped() == old(hub).is_stopped(),
            r.registry@ == self.registry@,
            Some(r.subscription) == self.subscription,
            !r.done,
            !final(hub).owes_ack(r.subscription as int),
            forall|j: int|
                0 <= j < old(hub).subscriber_count() && j != r.subscription ==> final(hub).owes_ack(j) == old(hub).owes_ack(j),
            forall|j: int|
                0 <= j < old(hub).subscriber_count() ==> final(hub).delivered(j) == old(hub).delivered(j) && final(hub).acked(j) == old(hub).acked(j),
    {
        let id: usize = match self.subscription {
            Some(id) => id,
            None => {
                proof {
                    assert(false);
                }
                0
            },
        };
        hub.release_ack(id);
        EventStream { registry: self.registry, subscription: id, done: false }
    }
}

impl EventStream {
    /// Pulls the next message and yields its decoded texts: the suspension
    /// point of the lazy sequence. After the stop signal has been consumed
    /// the sequence only ever reports its end.
    pub fn poll_next(&mut self, hub: &mut BroadcastHub) -> (r: StreamStep)
        requires
            old(hub).wf(),
            old(self).subscription < old(hub).subscriber_count(),
        ensures
            final(hub).wf(),
            final(hub).published() == old(hub).published(),
            final(hub).subscriber_count() == old(hub).subscriber_count(),
            final(hub).is_stopped() == old(hub).is_stopped(),
            final(self).registry@ == old(self).registry@,
            final(self).subscription == old(self).subscription,
            forall|j: int|
                0 <= j < old(hub).subscriber_count() && j != old(self).subscription ==> final(hub).delivered(j) == old(hub).delivered(j),
            forall|j: int|
                0 <= j < old(hub).subscriber_count() ==> final(hub).owes_ack(j) == old(hub).owes_ack(j) && final(hub).acked(j) == old(hub).acked(j),
            (match r {
                StreamStep::Items(items) => {
                    let dlen = old(hub).delivered(old(self).subscription as int).len() as int;
                    &&& !old(self).done
                    &&& !final(self).done
                    &&& dlen < old(hub).published().len()
                    &&& old(hub).published()[dlen] matches BroadcastV::Event(_)
                    &&& Seq::new(items@.len(), |k: int| items@[k]@) == spec_yields_of_message(
                        old(self).registry@,
                        old(hub).published()[dlen],
                    )
                    &&& final(hub).delivered(old(self).subscription as int) == old(hub).delivered(
                        old(self).subscription as int,
                    ).push(old(hub).published()[dlen])
                },
                StreamStep::Pending => {
                    &&& !old(self).done
                    &&& !final(self).done
                    &&& old(hub).delivered(old(self).subscription as int).len() == old(hub).published().len()
                    &&& *final(hub) == *old(hub)
                },
                StreamStep::Ended => {
                    &&& final(self).done
                    &&& (old(self).done ==> *final(hub) == *old(hub))
                    &&& (!old(self).done ==> {
                        let dlen = old(hub).delivered(old(self).subscription as int).len() as int;
                        &&& dlen < old(hub).published().len()
                        &&& old(hub).published()[dlen] == BroadcastV::Stop
                        &&& final(hub).delivered(old(self).subscription as int) == old(hub).delivered(old(self).subscription as int).push(BroadcastV::Stop)
                    })
                },
            }),
    {
        if self.done {
            return StreamStep::Ended;
        }
        let id = self.subscription;
        match hub.receive(id) {
            Some(msg) => match &msg {
                Broadcast::StopSignal => {
                    self.done = true;
                    StreamStep::Ended
                },
                Broadcast::Event(batch) => {
                    let ghost rv = self.registry@;
                    let ghost bv = Seq::new(batch@.len(), |k: int| batch@[k]@);
                    let mut items: Vec<String> = Vec::new();
                    proof {
                        assert(bv.take(0) =~= Seq::<LogRecordV>::empty());
                        assert(Seq::new(items@.len(), |k: int| items@[k]@)
                            =~= spec_yields_of_batch(rv, bv.take(0)));
                    }
                    let n = batch.len();
                    let mut i: usize = 0;
                    while i < n
                        invariant
                            n == batch@.len(),
                            i <= n,
                            rv == self.registry@,
                            bv == Seq::new(batch@.len(), |k: int| batch@[k]@),
                            forall|k: int| 0 <= k < n ==> (#[trigger] batch@[k]).wf(),
                            Seq::new(items@.len(), |k: int| items@[k]@) == spec_yields_of_batch(
                                rv,
                                bv.take(i as int),
                            ),
                        decreases n - i,
                    {
                        proof {
                            assert(bv.take(i + 1).drop_last() =~= bv.take(i as int));
                            assert(bv.take(i + 1).last() == bv[i as int]);
                        }
                        let ghost ov = spec_match_decode(rv, bv[i as int]);
                        let ghost before = Seq::new(items@.len(), |k: int| items@[k]@);
                        let outcomes = self.registry.match_and_decode(&batch[i]);
                        proof {
                            assert(spec_yields_of_outcomes(ov.take(0)) =~= Seq::<Seq<char>>::empty());
                            assert(before + spec_yields_of_outcomes(ov.take(0)) =~= before);
                        }
                        let m = outcomes.len();
                        let mut j: usize = 0;
                        while j < m
                            invariant
                                m == outcomes@.len(),
                                j <= m,
                                Seq::new(outcomes@.len(), |k: int| outcome_view(outcomes@[k]))
                                    == ov,
                                Seq::new(items@.len(), |k: int| items@[k]@) == before
                                    + spec_yields_of_outcomes(ov.take(j as int)),
                            decreases m - j,
                        {
                            proof {
                                assert(ov.take(j + 1).drop_last() =~= ov.take(j as int));
                                assert(ov.take(j + 1).last() == ov[j as int]);
                                assert(outcome_view(outcomes@[j as int]) == ov[j as int]);
                            }
                            match &outcomes[j].result {
                                Ok(fields) => {
                                    let text = render_object(fields);
                                    let ghost fsv = Seq::new(
                                        fields@.len(),
                                        |k: int| (fields@[k].0@, fields@[k].1@),
                                    );
                                    proof {
                                        assert(ov[j as int].1 == Ok::<_, DecodeError>(fsv));
                                        assert(text@ == spec_object(fsv));
                                        assert(spec_yields_of_outcomes(ov.take(j + 1))
                                            == spec_yields_of_outcomes(ov.take(j as int)) + seq![
                                            spec_object(fsv),
                                        ]);
                                    }
                                    let ghost pre_items = items@;
                                    proof {
                                        assert(Seq::new(pre_items.len(), |k: int| pre_items[k]@)
                                            =~= Seq::new(items@.len(), |k: int| items@[k]@));
                                        assert(Seq::new(pre_items.len(), |k: int| pre_items[k]@)
                                            == before + spec_yields_of_outcomes(ov.take(j as int)));
                                    }
                                    items.push(text);
                                    proof {
                                        assert(items@ == pre_items.push(text));
                                        assert(forall|k: int|
                                            0 <= k < pre_items.len() ==> items@[k]
                                                == #[trigger] pre_items[k]);
                                        let lhs = Seq::new(items@.len(), |k: int| items@[k]@);
                                        let rhs = before + (spec_yields_of_outcomes(ov.take(
                                            j as int,
                                        )) + seq![spec_object(fsv)]);
                                        assert(Seq::new(pre_items.len(), |k: int| pre_items[k]@)
                                            == before + spec_yields_of_outcomes(ov.take(j as int)));
                                        assert(Seq::new(pre_items.len(), |k: int| pre_items[k]@)
                                            .len() == (before + spec_yields_of_outcomes(ov.take(
                                            j as int,
                                        ))).len());
                                        assert(items@.len() == pre_items.len() + 1);
                                        assert(lhs.len() == items@.len());
                                        assert(rhs.len() == before.len()
                                            + spec_yields_of_outcomes(ov.take(j as int)).len() + 1);
                                        assert(pre_items.len() == before.len()
                                            + spec_yields_of_outcomes(ov.take(j as int)).len());
                                        assert(lhs.len() == rhs.len());
                                        let xs = spec_yields_of_outcomes(ov.take(j as int));
                                        assert forall|k: int|
                                            0 <= k < pre_items.len() implies #[trigger] lhs[k]
                                            == rhs[k] by {
                                            assert(lhs[k] == items@[k]@);
                                            assert(items@[k] == pre_items[k]);
                                            assert(Seq::new(
                                                pre_items.len(),
                                                |q: int| pre_items[q]@,
                                            )[k] == pre_items[k]@);
                                            assert((before + xs)[k] == pre_items[k]@);
                                            if k < before.len() {
                                                assert((before + xs)[k] == before[k]);
                                                assert(rhs[k] == before[k]);
                                            } else {
                                                assert((before + xs)[k] == xs[k - before.len()]);
                                                assert((xs + seq![spec_object(fsv)])[k
                                                    - before.len()] == xs[k - before.len()]);
                                                assert(rhs[k] == (xs + seq![spec_object(fsv)])[k
                                                    - before.len()]);
                                            }
                                        }
                                        assert(lhs[pre_items.len() as int] == text@);
                                        assert(rhs[pre_items.len() as int] == spec_object(fsv));
                                        assert(lhs =~= rhs);
                                        assert(lhs =~= before + spec_yields_of_outcomes(ov.take(
                                            j + 1,
                                        )));
                                    }
                                },
                                Err(_) => {
                                    proof {
                                        assert(ov[j as int].1 is Err);
                                        assert(spec_yields_of_outcomes(ov.take(j + 1))
                                            =~= spec_yields_of_outcomes(ov.take(j as int)));
                                    }
                                },
                            }
                            j = j + 1;
                        }
                        proof {
                            assert(ov.take(m as int) =~= ov);
                            assert(before + spec_yields_of_outcomes(ov) =~= spec_yields_of_batch(
                                rv,
                                bv.take(i + 1),
                            ));
                        }
                        i = i + 1;
                    }
                    proof {
                        assert(bv.take(n as int) =~= bv);
                        assert(msg@ == BroadcastV::Event(bv));
                        assert(Seq::new(items@.len(), |k: int| items@[k]@)
                            == spec_yields_of_message(rv, msg@));
                    }
                    StreamStep::Items(items)
                },
            },
            None => StreamStep::Pending,
        }
    }
}

} // verus!
