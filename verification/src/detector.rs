//! The divergence detector: a reactive subscriber keeping one latest-value
//! slot per registered filter and deriving a signal whenever every slot is
//! populated. Slots start at the sentinel "unknown" value; a matching record
//! overwrites the slot of the first filter that matches it (a defined
//! tie-break), with the value read from the record's first payload word.

use vstd::prelude::*;

use crate::hub::{Broadcast, BroadcastHub, BroadcastV};
use crate::registry::{spec_field_word, spec_word_u128, word_u128, DecodeError, FieldSource};
use crate::types::{spec_matches, Filter, FilterV, LogRecord, LogRecordV};
use crate::value::copy_string;

verus! {

/// Mathematical model of one pair's derived signal.
pub struct PairSignalV {
    pub first: int,
    pub second: int,
    pub negative: bool,
    pub magnitude: nat,
}

/// The derived signal for one pair of slots: the difference
/// `slot[first] - slot[second]`, split into sign and magnitude.
pub struct PairSignal {
    pub first: usize,
    pub second: usize,
    pub negative: bool,
    pub magnitude: u128,
}

impl View for PairSignal {
    type V = PairSignalV;

    open spec fn view(&self) -> PairSignalV {
        PairSignalV {
            first: self.first as int,
            second: self.second as int,
            negative: self.negative,
            magnitude: self.magnitude as nat,
        }
    }
}

/// Mathematical model of one observation's outcome.
pub enum ObserveOutcomeV {
    /// No registered filter matched the record.
    NoMatch,
    /// The matching filter's record could not be decoded; the detector's
    /// state is unchanged and nothing else is affected.
    DecodeFailed(DecodeError),
    /// A slot was updated but some slot still holds the sentinel.
    InsufficientData,
    /// Every slot is populated: the signals of all slot pairs, in order.
    Signal(Seq<PairSignalV>),
}

/// What one observation reported.
pub enum ObserveOutcome {
    /// No registered filter matched the record.
    NoMatch,
    /// The matching filter's record could not be decoded.
    DecodeFailed(DecodeError),
    /// A slot was updated but some slot still holds the sentinel.
    InsufficientData,
    /// Every slot is populated: the signals of all slot pairs, in order.
    Signal(Vec<PairSignal>),
}

impl View for ObserveOutcome {
    type V = ObserveOutcomeV;

    open spec fn view(&self) -> ObserveOutcomeV {
        match self {
            ObserveOutcome::NoMatch => ObserveOutcomeV::NoMatch,
            ObserveOutcome::DecodeFailed(e) => ObserveOutcomeV::DecodeFailed(*e),
            ObserveOutcome::InsufficientData => ObserveOutcomeV::InsufficientData,
            ObserveOutcome::Signal(ps) => ObserveOutcomeV::Signal(
                Seq::new(ps@.len(), |i: int| ps@[i]@),
            ),
        }
    }
}

/// The least index of a filter matching the record, or -1 when none does:
/// first match wins.
pub open spec fn spec_first_match(fs: Seq<FilterV>, l: LogRecordV, i: int) -> int
    decreases fs.len() - i,
{
    if i < 0 || i >= fs.len() {
        -1
    } else if spec_matches(fs[i], l) {
        i
    } else {
        spec_first_match(fs, l, i + 1)
    }
}

/// The numeric quantity a record carries: its first payload word.
pub open spec fn spec_extract(l: LogRecordV) -> Result<nat, DecodeError> {
    match spec_field_word(l, FieldSource::DataWord(0)) {
        Ok(w) => match spec_word_u128(w) {
            Some(v) => Ok(v),
            None => Err(DecodeError::Overflow),
        },
        Err(e) => Err(e),
    }
}

/// The sentinel-free value of a slot (zero for the sentinel).
pub open spec fn slot_val(o: Option<u128>) -> nat {
    match o {
        Some(v) => v as nat,
        None => 0,
    }
}

/// Whether every slot holds a non-sentinel value.
pub open spec fn all_populated(slots: Seq<Option<u128>>) -> bool {
    forall|i: int| 0 <= i < slots.len() ==> slots[i] is Some
}

/// The signal for the slot pair `(i, j)`.
pub open spec fn spec_pair(slots: Seq<Option<u128>>, i: int, j: int) -> PairSignalV {
    PairSignalV {
        first: i,
        second: j,
        negative: slot_val(slots[i]) < slot_val(slots[j]),
        magnitude: if slot_val(slots[i]) < slot_val(slots[j]) {
            (slot_val(slots[j]) - slot_val(slots[i])) as nat
        } else {
            (slot_val(slots[i]) - slot_val(slots[j])) as nat
        },
    }
}

/// The signals of the pairs `(i, j)` for `j` from `j0` on.
pub open spec fn spec_pairs_with(slots: Seq<Option<u128>>, i: int, j0: int) -> Seq<PairSignalV>
    decreases slots.len() - j0,
{
    if j0 < 0 || j0 >= slots.len() {
        Seq::empty()
    } else {
        seq![spec_pair(slots, i, j0)] + spec_pairs_with(slots, i, j0 + 1)
    }
}

/// The signals of all slot pairs `(i, j)` with `i < j`, for `i` from `i0`
/// on, in lexicographic order.
pub open spec fn spec_pairs_from(slots: Seq<Option<u128>>, i0: int) -> Seq<PairSignalV>
    decreases slots.len() - i0,
{
    if i0 < 0 || i0 >= slots.len() {
        Seq::empty()
    } else {
        spec_pairs_with(slots, i0, i0 + 1) + spec_pairs_from(slots, i0 + 1)
    }
}

/// The slots after observing one record: unchanged when nothing matches or
/// the record does not decode; otherwise the first matching filter's slot
/// holds the extracted value.
pub open spec fn spec_observe_slots(
    slots: Seq<Option<u128>>,
    fs: Seq<FilterV>,
    l: LogRecordV,
) -> Seq<Option<u128>> {
    let i = spec_first_match(fs, l, 0);
    if i == -1 {
        slots
    } else {
        match spec_extract(l) {
            Ok(v) => if 0 <= i < slots.len() {
                slots.update(i, Some(v as u128))
            } else {
                slots
            },
            Err(_) => slots,
        }
    }
}

/// What observing one record reports, given the slots before it.
pub open spec fn spec_observe_outcome(
    slots: Seq<Option<u128>>,
    fs: Seq<FilterV>,
    l: LogRecordV,
) -> ObserveOutcomeV {
    let i = spec_first_match(fs, l, 0);
    if i == -1 {
        ObserveOutcomeV::NoMatch
    } else {
        match spec_extract(l) {
            Ok(v) => {
                let s2 = spec_observe_slots(slots, fs, l);
                if all_populated(s2) {
                    ObserveOutcomeV::Signal(spec_pairs_from(s2, 0))
                } else {
                    ObserveOutcomeV::InsufficientData
                }
            },
            Err(e) => ObserveOutcomeV::DecodeFailed(e),
        }
    }
}

/// The slots after observing a batch, record by record in batch order.
pub open spec fn spec_slots_batch(
    slots: Seq<Option<u128>>,
    fs: Seq<FilterV>,
    b: Seq<LogRecordV>,
) -> Seq<Option<u128>>
    decreases b.len(),
{
    if b.len() == 0 {
        slots
    } else {
        spec_observe_slots(spec_slots_batch(slots, fs, b.drop_last()), fs, b.last())
    }
}

/// The outcomes a batch reports, one per record in batch order.
pub open spec fn spec_outcomes_batch(
    slots: Seq<Option<u128>>,
    fs: Seq<FilterV>,
    b: Seq<LogRecordV>,
) -> Seq<ObserveOutcomeV>
    decreases b.len(),
{
    if b.len() == 0 {
        Seq::empty()
    } else {
        spec_outcomes_batch(slots, fs, b.drop_last()) + seq![
            spec_observe_outcome(spec_slots_batch(slots, fs, b.drop_last()), fs, b.last()),
        ]
    }
}

/// The slots after one broadcast message.
pub open spec fn spec_slots_message(
    slots: Seq<Option<u128>>,
    fs: Seq<FilterV>,
    msg: BroadcastV,
) -> Seq<Option<u128>> {
    match msg {
        BroadcastV::Event(b) => spec_slots_batch(slots, fs, b),
        BroadcastV::Stop => slots,
    }
}

/// The outcomes one broadcast message reports.
pub open spec fn spec_outcomes_message(
    slots: Seq<Option<u128>>,
    fs: Seq<FilterV>,
    msg: BroadcastV,
) -> Seq<ObserveOutcomeV> {
    match msg {
        BroadcastV::Event(b) => spec_outcomes_batch(slots, fs, b),
        BroadcastV::Stop => Seq::empty(),
    }
}

/// The slots after a sequence of messages, in delivery order.
pub open spec fn spec_slots_messages(
    slots: Seq<Option<u128>>,
    fs: Seq<FilterV>,
    msgs: Seq<BroadcastV>,
) -> Seq<Option<u128>>
    decreases msgs.len(),
{
    if msgs.len() == 0 {
        slots
    } else {
        spec_slots_message(spec_slots_messages(slots, fs, msgs.drop_last()), fs, msgs.last())
    }
}

/// The outcomes a sequence of messages reports, in delivery order.
pub open spec fn spec_outcomes_messages(
    slots: Seq<Option<u128>>,
    fs: Seq<FilterV>,
    msgs: Seq<BroadcastV>,
) -> Seq<ObserveOutcomeV>
    decreases msgs.len(),
{
    if msgs.len() == 0 {
        Seq::empty()
    } else {
        spec_outcomes_messages(slots, fs, msgs.drop_last()) + spec_outcomes_message(
            spec_slots_messages(slots, fs, msgs.drop_last()),
            fs,
            msgs.last(),
        )
    }
}

/// A reactive subscriber watching one event stream per filter and deriving
/// a price-divergence signal from the latest values.
pub struct SimpleArbitrageur {
    /// Name of the agent.
    pub name: String,
    /// The filters whose streams it watches, in registration order.
    pub event_filters: Vec<Filter>,
    /// One latest-value slot per filter; the sentinel `None` means the
    /// stream has not reported yet.
    pub prices: Vec<Option<u128>>,
    /// The agent's hub subscription, when activated.
    pub subscription: Option<usize>,
}

impl SimpleArbitrageur {
    /// One slot per filter.
    pub open spec fn wf(&self) -> bool {
        self.prices@.len() == self.event_filters@.len()
    }

    /// The views of the registered filters, in order.
    pub open spec fn filters_view(&self) -> Seq<FilterV> {
        Seq::new(self.event_filters@.len(), |i: int| self.event_filters@[i]@)
    }

    /// A fresh, not yet activated agent: every slot holds the sentinel.
    pub fn new(name: String, event_filters: Vec<Filter>) -> (r: Self)
        ensures
            r.wf(),
            r.name@ == name@,
            r.event_filters == event_filters,
            r.prices@ == Seq::new(event_filters@.len(), |i: int| None::<u128>),
            r.subscription is None,
    {
        let mut prices: Vec<Option<u128>> = Vec::new();
        let mut i: usize = 0;
        let n = event_filters.len();
        while i < n
            invariant
                i <= n,
                prices@.len() == i,
                forall|j: int| 0 <= j < i ==> prices@[j] is None,
            decreases n - i,
        {
            prices.push(None);
            i = i + 1;
        }
        let r = SimpleArbitrageur { name, event_filters, prices, subscription: None };
        proof {
            assert(r.prices@ =~= Seq::new(r.event_filters@.len(), |i: int| None::<u128>));
        }
        r
    }

    /// The agent's name.
    pub fn agent_name(&self) -> (r: String)
        ensures
            r@ == self.name@,
    {
        copy_string(&self.name)
    }

    /// Activates the agent: registers its subscription on the hub, before
    /// anything is published. The detector owes no shutdown
    /// acknowledgement.
    pub fn activate(&mut self, hub: &mut BroadcastHub)
        requires
            old(hub).wf(),
            old(hub).published().len() == 0,
            old(self).subscription is None,
        ensures
            final(hub).wf(),
            final(hub).published().len() == 0,
            final(hub).subscriber_count() == old(hub).subscriber_count() + 1,
            final(self).name@ == old(self).name@,
            final(self).event_filters == old(self).event_filters,
            final(self).prices == old(self).prices,
            final(self).wf() == old(self).wf(),
            (match final(self).subscription {
                Some(id) => id < final(hub).subscriber_count() && !final(hub).owes_ack(id as int)
                    && final(hub).delivered(id as int) == Seq::<BroadcastV>::empty(),
                None => false,
            }),
    {
        let id = hub.register(false);
        self.subscription = Some(id);
    }

    /// The signals of the pairs `(i, j)` for `j` from `j0` on.
    fn pairs_with(&self, i: usize, j0: usize) -> (r: Vec<PairSignal>)
        requires
            i < self.prices@.len(),
        ensures
            Seq::new(r@.len(), |k: int| r@[k]@) == spec_pairs_with(
                self.prices@,
                i as int,
                j0 as int,
            ),
        decreases self.prices@.len() - j0,
    {
        if j0 >= self.prices.len() {
            let r: Vec<PairSignal> = Vec::new();
            proof {
                assert(Seq::new(r@.len(), |k: int| r@[k]@) =~= spec_pairs_with(
                    self.prices@,
                    i as int,
                    j0 as int,
                ));
            }
            r
        } else {
            let vi = match self.prices[i] {
                Some(v) => v,
                None => 0,
            };
            let vj = match self.prices[j0] {
                Some(v) => v,
                None => 0,
            };
            let signal = if vi < vj {
                PairSignal { first: i, second: j0, negative: true, magnitude: vj - vi }
            } else {
                PairSignal { first: i, second: j0, negative: false, magnitude: vi - vj }
            };
            proof {
                assert(signal@ == spec_pair(self.prices@, i as int, j0 as int));
            }
            let rest = self.pairs_with(i, j0 + 1);
            let mut r = rest;
            r.insert(0, signal);
            proof {
                assert(Seq::new(r@.len(), |k: int| r@[k]@) =~= seq![
                    spec_pair(self.prices@, i as int, j0 as int),
                ] + Seq::new((r@.len() - 1) as nat, |k: int| r@[k + 1]@));
            }
            r
        }
    }

    /// The signals of all slot pairs, for `i` from `i0` on.
    fn pairs_from(&self, i0: usize) -> (r: Vec<PairSignal>)
        ensures
            Seq::new(r@.len(), |k: int| r@[k]@) == spec_pairs_from(self.prices@, i0 as int),
        decreases self.prices@.len() - i0,
    {
        if i0 >= self.prices.len() {
            let r: Vec<PairSignal> = Vec::new();
            proof {
                assert(Seq::new(r@.len(), |k: int| r@[k]@) =~= spec_pairs_from(
                    self.prices@,
                    i0 as int,
                ));
            }
            r
        } else {
            let mut r = self.pairs_with(i0, i0 + 1);
            let ghost head = Seq::new(r@.len(), |k: int| r@[k]@);
            let ghost head_len = r@.len() as int;
            proof {
                assert(forall|k: int| 0 <= k < head_len ==> (#[trigger] r@[k])@ == head[k]);
            }
            let rest = self.pairs_from(i0 + 1);
            let ghost tail = Seq::new(rest@.len(), |k: int| rest@[k]@);
            let m = rest.len();
            let mut j: usize = 0;
            while j < m
                invariant
                    m == rest@.len(),
                    j <= m,
                    head_len == head.len(),
                    r@.len() == head_len + j,
                    tail == Seq::new(rest@.len(), |k: int| rest@[k]@),
                    forall|k: int| 0 <= k < head_len ==> (#[trigger] r@[k])@ == head[k],
                    forall|k: int|
                        head_len <= k < head_len + j ==> (#[trigger] r@[k])@ == tail[k - head_len],
                decreases m - j,
            {
                let item = PairSignal {
                    first: rest[j].first,
                    second: rest[j].second,
                    negative: rest[j].negative,
                    magnitude: rest[j].magnitude,
                };
                proof {
                    assert(item@ == tail[j as int]);
                }
                r.push(item);
                j = j + 1;
            }
            proof {
                assert(Seq::new(r@.len(), |k: int| r@[k]@) =~= head + tail);
                assert(head + tail =~= spec_pairs_from(self.prices@, i0 as int));
            }
            r
        }
    }

    /// Finds the first filter matching the record, if any.
    fn first_match(&self, log: &LogRecord) -> (r: Option<usize>)
        ensures
            (match r {
                Some(i) => i < self.event_filters@.len() && spec_first_match(
                    self.filters_view(),
                    log@,
                    0,
                ) == i as int,
                None => spec_first_match(self.filters_view(), log@, 0) == -1,
            }),
    {
        let n = self.event_filters.len();
        let mut i: usize = 0;
        while i < n
            invariant
                n == self.event_filters@.len(),
                i <= n,
                spec_first_match(self.filters_view(), log@, 0) == spec_first_match(
                    self.filters_view(),
                    log@,
                    i as int,
                ),
            decreases n - i,
        {
            if self.event_filters[i].matches(log) {
                proof {
                    assert(self.filters_view()[i as int] == self.event_filters@[i as int]@);
                }
                return Some(i);
            }
            i = i + 1;
        }
        None
    }

    /// Observes one record: the slot of the first matching filter is
    /// overwritten with the record's first payload word, and the derived
    /// signal is reported whenever every slot is populated. A record that
    /// matches nothing, or that its matching stream cannot decode, changes
    /// nothing and aborts nothing.
    pub fn observe(&mut self, log: &LogRecord) -> (r: ObserveOutcome)
        requires
            old(self).wf(),
            log.wf(),
        ensures
            final(self).wf(),
            final(self).name@ == old(self).name@,
            final(self).event_filters == old(self).event_filters,
            final(self).subscription == old(self).subscription,
            final(self).prices@ == spec_observe_slots(
                old(self).prices@,
                old(self).filters_view(),
                log@,
            ),
            r@ == spec_observe_outcome(old(self).prices@, old(self).filters_view(), log@),
    {
        let i = match self.first_match(log) {
            Some(i) => i,
            None => {
                return ObserveOutcome::NoMatch;
            },
        };
        // Read the record's first payload word.
        if log.data.len() < 32 {
            proof {
                assert(spec_field_word(log@, FieldSource::DataWord(0)) == Err::<
                    Seq<u8>,
                    DecodeError,
                >(DecodeError::ShortData));
            }
            return ObserveOutcome::DecodeFailed(DecodeError::ShortData);
        }
        let mut w: Vec<u8> = Vec::new();
        let mut k: usize = 0;
        while k < 32
            invariant
                k <= 32,
                log.data@.len() >= 32,
                w@.len() == k,
                forall|q: int| 0 <= q < k ==> w@[q] == log.data@[q],
            decreases 32 - k,
        {
            w.push(log.data[k]);
            k = k + 1;
        }
        proof {
            assert(w@ =~= log@.data.subrange(0, 32));
            assert(spec_field_word(log@, FieldSource::DataWord(0)) == Ok::<Seq<u8>, DecodeError>(
                w@,
            ));
        }
        let v = match word_u128(&w) {
            Some(v) => v,
            None => {
                return ObserveOutcome::DecodeFailed(DecodeError::Overflow);
            },
        };
        let _ = self.prices.remove(i);
        self.prices.insert(i, Some(v));
        proof {
            assert(self.prices@ =~= old(self).prices@.update(i as int, Some(v)));
        }
        // Report the derived signal once every slot is populated.
        let n = self.prices.len();
        let mut k2: usize = 0;
        while k2 < n
            invariant
                n == self.prices@.len(),
                k2 <= n,
                self.wf(),
                self.name@ == old(self).name@,
                self.event_filters == old(self).event_filters,
                self.subscription == old(self).subscription,
                i < old(self).prices@.len(),
                old(self).wf(),
                log.wf(),
                self.prices@ == old(self).prices@.update(i as int, Some(v)),
                spec_first_match(old(self).filters_view(), log@, 0) == i as int,
                spec_extract(log@) == Ok::<nat, DecodeError>(v as nat),
                forall|q: int| 0 <= q < k2 ==> self.prices@[q] is Some,
            decreases n - k2,
        {
            match self.prices[k2] {
                Some(_) => {},
                None => {
                    proof {
                        assert(!all_populated(self.prices@));
                    }
                    return ObserveOutcome::InsufficientData;
                },
            }
            k2 = k2 + 1;
        }
        proof {
            assert(all_populated(self.prices@));
        }
        ObserveOutcome::Signal(self.pairs_from(0))
    }

    /// Drains this agent's delivered messages, observing every record of
    /// every event batch in order, and reports the outcome of each
    /// observation; it stops at the stop signal or when it has seen
    /// everything published so far. No acknowledgement is owed.
    pub fn detect_arbitrage(&mut self, hub: &mut BroadcastHub) -> (r: Vec<ObserveOutcome>)
        requires
            old(hub).wf(),
            old(hub).is_stopped(),
            old(self).wf(),
            (match old(self).subscription {
                Some(id) => id < old(hub).subscriber_count(),
                None => false,
            }),
            (match old(self).subscription {
                Some(id) => forall|k: int|
                    0 <= k < old(hub).delivered(id as int).len() ==> old(hub).published()[k]
                        != BroadcastV::Stop,
                None => false,
            }),
        ensures
            final(hub).wf(),
            final(hub).published() == old(hub).published(),
            final(hub).subscriber_count() == old(hub).subscriber_count(),
            final(self).wf(),
            final(self).name@ == old(self).name@,
            final(self).event_filters == old(self).event_filters,
            final(self).subscription == old(self).subscription,
            (match old(self).subscription {
                Some(id) => {
                    let rest = old(hub).published().skip(
                        old(hub).delivered(id as int).len() as int,
                    );
                    &&& final(hub).delivered(id as int) == old(hub).published()
                    &&& final(self).prices@ == spec_slots_messages(
                        old(self).prices@,
                        old(self).filters_view(),
                        rest,
                    )
                    &&& Seq::new(r@.len(), |k: int| r@[k]@) == spec_outcomes_messages(
                        old(self).prices@,
                        old(self).filters_view(),
                        rest,
                    )
                },
                None => false,
            }),
    {
        let id: usize = match self.subscription {
            Some(id) => id,
            None => {
                proof {
                    assert(false);
                }
                0
            },
        };
        let ghost s0 = self.prices@;
        let ghost fv = self.filters_view();
        let ghost d0 = old(hub).delivered(id as int).len() as int;
        let ghost pubv = old(hub).published();
        let mut outcomes: Vec<ObserveOutcome> = Vec::new();
        proof {
            assert(pubv.subrange(d0, d0) =~= Seq::<BroadcastV>::empty());
            assert(Seq::new(outcomes@.len(), |k: int| outcomes@[k]@) =~= Seq::<
                ObserveOutcomeV,
            >::empty());
        }
        let mut done = false;
        while !done
            invariant
                hub.wf(),
                hub.is_stopped(),
                hub.published() == pubv,
                hub.subscriber_count() == old(hub).subscriber_count(),
                id < hub.subscriber_count(),
                self.wf(),
                self.name@ == old(self).name@,
                self.event_filters == old(self).event_filters,
                self.subscription == old(self).subscription,
                fv == self.filters_view(),
                0 <= d0 <= hub.delivered(id as int).len(),
                self.prices@ == spec_slots_messages(
                    s0,
                    fv,
                    pubv.subrange(d0, hub.delivered(id as int).len() as int),
                ),
                Seq::new(outcomes@.len(), |k: int| outcomes@[k]@) == spec_outcomes_messages(
                    s0,
                    fv,
                    pubv.subrange(d0, hub.delivered(id as int).len() as int),
                ),
                !done ==> forall|k: int|
                    0 <= k < hub.delivered(id as int).len() ==> pubv[k] != BroadcastV::Stop,
                done ==> hub.delivered(id as int) == pubv,
            decreases pubv.len() - hub.delivered(id as int).len() + (if done {
                0int
            } else {
                1int
            }),
        {
            proof {
                assert(pubv.len() > 0 && pubv.last() == BroadcastV::Stop);
                if hub.delivered(id as int).len() == pubv.len() {
                    assert(pubv[pubv.len() - 1] != BroadcastV::Stop);
                }
            }
            let ghost dlen = hub.delivered(id as int).len() as int;
            match hub.receive(id) {
                Some(msg) => {
                    proof {
                        assert(pubv.subrange(d0, dlen + 1).drop_last() =~= pubv.subrange(d0, dlen));
                        assert(pubv.subrange(d0, dlen + 1).last() == pubv[dlen]);
                    }
                    match &msg {
                        Broadcast::StopSignal => {
                            proof {
                                crate::hub::lemma_stop_is_last(*hub, dlen);
                                assert(hub.delivered(id as int) =~= pubv);
                                assert(Seq::new(outcomes@.len(), |k: int| outcomes@[k]@)
                                    =~= spec_outcomes_messages(
                                    s0,
                                    fv,
                                    pubv.subrange(d0, dlen + 1),
                                ));
                            }
                            done = true;
                        },
                        Broadcast::Event(batch) => {
                            let ghost slots_before = self.prices@;
                            let ghost out_before = Seq::new(
                                outcomes@.len(),
                                |k: int| outcomes@[k]@,
                            );
                            let ghost bv = Seq::new(batch@.len(), |k: int| batch@[k]@);
                            proof {
                                assert(bv.take(0) =~= Seq::<LogRecordV>::empty());
                                assert(spec_outcomes_batch(slots_before, fv, bv.take(0)) =~= Seq::<
                                    ObserveOutcomeV,
                                >::empty());
                                assert(out_before + Seq::<ObserveOutcomeV>::empty() =~= out_before);
                            }
                            let bn = batch.len();
                            let mut bi: usize = 0;
                            while bi < bn
                                invariant
                                    bn == batch@.len(),
                                    bi <= bn,
                                    bv == Seq::new(batch@.len(), |k: int| batch@[k]@),
                                    forall|k: int| 0 <= k < bn ==> (#[trigger] batch@[k]).wf(),
                                    self.wf(),
                                    self.name@ == old(self).name@,
                                    self.event_filters == old(self).event_filters,
                                    self.subscription == old(self).subscription,
                                    fv == self.filters_view(),
                                    self.prices@ == spec_slots_batch(
                                        slots_before,
                                        fv,
                                        bv.take(bi as int),
                                    ),
                                    Seq::new(outcomes@.len(), |k: int| outcomes@[k]@) == out_before
                                        + spec_outcomes_batch(slots_before, fv, bv.take(bi as int)),
                                decreases bn - bi,
                            {
                                proof {
                                    assert(bv.take(bi + 1).drop_last() =~= bv.take(bi as int));
                                    assert(bv.take(bi + 1).last() == bv[bi as int]);
                                }
                                let ghost pre_out = Seq::new(outcomes@.len(), |k: int| outcomes@[k]@);
                                let outcome = self.observe(&batch[bi]);
                                let ghost oov = outcome@;
                                outcomes.push(outcome);
                                proof {
                                    assert(Seq::new(outcomes@.len(), |k: int| outcomes@[k]@)
                                        =~= pre_out.push(oov));
                                    assert(out_before + spec_outcomes_batch(
                                        slots_before,
                                        fv,
                                        bv.take(bi + 1),
                                    ) =~= pre_out.push(oov));
                                }
                                bi = bi + 1;
                            }
                            proof {
                                assert(bv.take(bn as int) =~= bv);
                                assert(msg@ == BroadcastV::Event(bv));
                                assert(self.prices@ == spec_slots_messages(
                                    s0,
                                    fv,
                                    pubv.subrange(d0, dlen + 1),
                                ));
                                assert(Seq::new(outcomes@.len(), |k: int| outcomes@[k]@)
                                    == spec_outcomes_messages(s0, fv, pubv.subrange(d0, dlen + 1)));
                            }
                        },
                    }
                },
                None => {
                    proof {
                        assert(false);
                    }
                    done = true;
                },
            }
        }
        proof {
            assert(pubv.subrange(d0, pubv.len() as int) =~= pubv.skip(d0));
        }
        outcomes
    }
}

} // verus!
