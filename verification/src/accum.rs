//! The logger's accumulated output: a two-level ordered mapping from stream
//! name to event name to the ordered sequence of decoded values, keyed in
//! ascending name order at both levels, append-only during a run.

use vstd::prelude::*;

use crate::value::{copy_string, lex_lt, lemma_lex_trichotomy, string_lt, Value, ValueV};

verus! {

/// Mathematical model of one value series.
pub struct SeriesV {
    pub name: Seq<char>,
    pub values: Seq<ValueV>,
}

/// Mathematical model of one stream bucket.
pub struct StreamV {
    pub name: Seq<char>,
    pub series: Seq<SeriesV>,
}

/// Mathematical model of the accumulated output.
pub struct EventMapV {
    pub streams: Seq<StreamV>,
}

/// One event-name bucket: the ordered values appended under it.
pub struct SeriesEntry {
    pub name: String,
    pub values: Vec<Value>,
}

/// One stream-name bucket: its event-name buckets in ascending name order.
pub struct StreamEntry {
    pub name: String,
    pub series: Vec<SeriesEntry>,
}

/// The accumulated output of a logger run.
pub struct EventMap {
    pub streams: Vec<StreamEntry>,
}

impl View for SeriesEntry {
    type V = SeriesV;

    open spec fn view(&self) -> SeriesV {
        SeriesV {
            name: self.name@,
            values: Seq::new(self.values@.len(), |i: int| self.values@[i]@),
        }
    }
}

impl View for StreamEntry {
    type V = StreamV;

    open spec fn view(&self) -> StreamV {
        StreamV {
            name: self.name@,
            series: Seq::new(self.series@.len(), |i: int| self.series@[i]@),
        }
    }
}

impl View for EventMap {
    type V = EventMapV;

    open spec fn view(&self) -> EventMapV {
        EventMapV { streams: Seq::new(self.streams@.len(), |i: int| self.streams@[i]@) }
    }
}

/// Appends `v` under `name` in a name-sorted series sequence: pushed onto
/// the bucket of that name, or into a fresh bucket at its sorted position.
pub open spec fn spec_append_series(ss: Seq<SeriesV>, name: Seq<char>, v: ValueV) -> Seq<SeriesV>
    decreases ss.len(),
{
    if ss.len() == 0 {
        seq![SeriesV { name, values: seq![v] }]
    } else if ss[0].name == name {
        seq![SeriesV { name, values: ss[0].values.push(v) }] + ss.drop_first()
    } else if lex_lt(name, ss[0].name) {
        seq![SeriesV { name, values: seq![v] }] + ss
    } else {
        seq![ss[0]] + spec_append_series(ss.drop_first(), name, v)
    }
}

/// Appends `v` under `(stream, event)` in a name-sorted stream sequence.
pub open spec fn spec_append_stream(
    sts: Seq<StreamV>,
    stream: Seq<char>,
    event: Seq<char>,
    v: ValueV,
) -> Seq<StreamV>
    decreases sts.len(),
{
    if sts.len() == 0 {
        seq![StreamV { name: stream, series: spec_append_series(Seq::empty(), event, v) }]
    } else if sts[0].name == stream {
        seq![StreamV { name: stream, series: spec_append_series(sts[0].series, event, v) }]
            + sts.drop_first()
    } else if lex_lt(stream, sts[0].name) {
        seq![StreamV { name: stream, series: spec_append_series(Seq::empty(), event, v) }] + sts
    } else {
        seq![sts[0]] + spec_append_stream(sts.drop_first(), stream, event, v)
    }
}

/// Appends `v` under `(stream, event)` in the accumulated map.
pub open spec fn spec_append(m: EventMapV, stream: Seq<char>, event: Seq<char>, v: ValueV) -> EventMapV {
    EventMapV { streams: spec_append_stream(m.streams, stream, event, v) }
}

/// The values recorded under `(stream, event)`: the first matching buckets,
/// or empty when either is absent.
pub open spec fn spec_lookup(m: EventMapV, stream: Seq<char>, event: Seq<char>) -> Seq<ValueV>
{
    spec_lookup_stream(m.streams, stream, event)
}

/// Helper of `spec_lookup` over the stream sequence.
pub open spec fn spec_lookup_stream(sts: Seq<StreamV>, stream: Seq<char>, event: Seq<char>) -> Seq<ValueV>
    decreases sts.len(),
{
    if sts.len() == 0 {
        Seq::empty()
    } else if sts[0].name == stream {
        spec_lookup_series(sts[0].series, event)
    } else {
        spec_lookup_stream(sts.drop_first(), stream, event)
    }
}

/// Helper of `spec_lookup` over a series sequence.
pub open spec fn spec_lookup_series(ss: Seq<SeriesV>, event: Seq<char>) -> Seq<ValueV>
    decreases ss.len(),
{
    if ss.len() == 0 {
        Seq::empty()
    } else if ss[0].name == event {
        ss[0].values
    } else {
        spec_lookup_series(ss.drop_first(), event)
    }
}

/// Finds the first series bucket with the given name.
fn find_series(series: &Vec<SeriesEntry>, name: &String) -> (r: Option<usize>)
    ensures
        match r {
            Some(i) => i < series@.len() && series@[i as int]@.name == name@ && forall|j: int|
                0 <= j < i ==> #[trigger] series@[j]@.name != name@,
            None => forall|j: int| 0 <= j < series@.len() ==> #[trigger] series@[j]@.name != name@,
        },
{
    let mut i: usize = 0;
    while i < series.len()
        invariant
            i <= series@.len(),
            forall|j: int| 0 <= j < i ==> #[trigger] series@[j]@.name != name@,
        decreases series@.len() - i,
    {
        if series[i].name.eq(name) {
            return Some(i);
        }
        i = i + 1;
    }
    None
}

/// Finds the first stream bucket with the given name.
fn find_stream(streams: &Vec<StreamEntry>, name: &String) -> (r: Option<usize>)
    ensures
        match r {
            Some(i) => i < streams@.len() && streams@[i as int]@.name == name@ && forall|j: int|
                0 <= j < i ==> #[trigger] streams@[j]@.name != name@,
            None => forall|j: int| 0 <= j < streams@.len() ==> #[trigger] streams@[j]@.name != name@,
        },
{
    let mut i: usize = 0;
    while i < streams.len()
        invariant
            i <= streams@.len(),
            forall|j: int| 0 <= j < i ==> #[trigger] streams@[j]@.name != name@,
        decreases streams@.len() - i,
    {
        if streams[i].name.eq(name) {
            return Some(i);
        }
        i = i + 1;
    }
    None
}

impl EventMap {
    /// The empty accumulated map, trivially in ascending name order.
    pub fn new() -> (r: Self)
        ensures
            r@.streams == Seq::<StreamV>::empty(),
            spec_sorted(r@),
    {
        let r = EventMap { streams: Vec::new() };
        proof {
            assert(r@.streams =~= Seq::<StreamV>::empty());
        }
        r
    }

    /// Appends `v` under `(stream, event)`, creating buckets at their
    /// sorted positions as needed: the map's keys stay in ascending name
    /// order at both levels.
    pub fn append(&mut self, stream: &String, event: &String, v: Value)
        ensures
            final(self)@ == spec_append(old(self)@, stream@, event@, v@),
    {
        let ghost old_streams = self@.streams;
        let n = self.streams.len();
        let mut i: usize = 0;
        while i < n
            invariant
                n == self.streams@.len(),
                i <= n,
                self@.streams == old_streams,
                old_streams == old(self)@.streams,
                forall|j: int| 0 <= j < i ==> lex_lt(#[trigger] old_streams[j].name, stream@),
            decreases n - i,
        {
            if self.streams[i].name.eq(stream) {
                proof {
                    assert(old_streams[i as int].name == stream@);
                }
                let mut st = self.streams.remove(i);
                append_in_series(&mut st.series, event, v);
                self.streams.insert(i, st);
                proof {
                    lemma_append_stream_at(old_streams, stream@, event@, v@, i as int);
                    assert(self@.streams =~= old_streams.update(
                        i as int,
                        StreamV {
                            name: stream@,
                            series: spec_append_series(old_streams[i as int].series, event@, v@),
                        },
                    ));
                }
                return ;
            }
            if !string_lt(&self.streams[i].name, stream) {
                // This bucket orders after the new name: insert before it.
                proof {
                    lemma_lex_trichotomy(old_streams[i as int].name, stream@);
                    assert(lex_lt(stream@, old_streams[i as int].name));
                }
                let mut values: Vec<Value> = Vec::new();
                values.push(v);
                let mut series: Vec<SeriesEntry> = Vec::new();
                series.push(SeriesEntry { name: copy_string(event), values });
                self.streams.insert(i, StreamEntry { name: copy_string(stream), series });
                proof {
                    lemma_append_stream_insert(old_streams, stream@, event@, v@, i as int);
                    assert(spec_append_series(Seq::<SeriesV>::empty(), event@, v@) =~= seq![
                        SeriesV { name: event@, values: seq![v@] },
                    ]);
                    assert(self@.streams[i as int].series[0].values =~= seq![v@]);
                    assert(self@.streams[i as int].series =~= spec_append_series(
                        Seq::<SeriesV>::empty(),
                        event@,
                        v@,
                    ));
                    assert(self@.streams =~= old_streams.take(i as int) + seq![
                        StreamV {
                            name: stream@,
                            series: spec_append_series(Seq::<SeriesV>::empty(), event@, v@),
                        },
                    ] + old_streams.skip(i as int));
                }
                return ;
            }
            i = i + 1;
        }
        // Every bucket orders before the new name: it goes at the end.
        let mut values: Vec<Value> = Vec::new();
        values.push(v);
        let mut series: Vec<SeriesEntry> = Vec::new();
        series.push(SeriesEntry { name: copy_string(event), values });
        self.streams.push(StreamEntry { name: copy_string(stream), series });
        proof {
            lemma_append_stream_insert(old_streams, stream@, event@, v@, n as int);
            assert(spec_append_series(Seq::<SeriesV>::empty(), event@, v@) =~= seq![
                SeriesV { name: event@, values: seq![v@] },
            ]);
            assert(self@.streams[n as int].series[0].values =~= seq![v@]);
            assert(self@.streams[n as int].series =~= spec_append_series(
                Seq::<SeriesV>::empty(),
                event@,
                v@,
            ));
            assert(old_streams.take(n as int) =~= old_streams);
            assert(old_streams.skip(n as int) =~= Seq::<StreamV>::empty());
            assert(self@.streams =~= old_streams.take(n as int) + seq![
                StreamV {
                    name: stream@,
                    series: spec_append_series(Seq::<SeriesV>::empty(), event@, v@),
                },
            ] + old_streams.skip(n as int));
        }
    }

    /// The values recorded under `(stream, event)`, in append order.
    pub fn lookup(&self, stream: &String, event: &String) -> (r: Vec<Value>)
        ensures
            Seq::new(r@.len(), |i: int| r@[i]@) == spec_lookup(self@, stream@, event@),
    {
        match find_stream(&self.streams, stream) {
            Some(si) => {
                proof {
                    lemma_lookup_stream_at(self@.streams, stream@, event@, si as int);
                }
                let st = &self.streams[si];
                match find_series(&st.series, event) {
                    Some(ei) => {
                        proof {
                            lemma_lookup_series_at(self@.streams[si as int].series, event@, ei as int);
                        }
                        let se = &st.series[ei];
                        let mut out: Vec<Value> = Vec::new();
                        let mut i: usize = 0;
                        while i < se.values.len()
                            invariant
                                i <= se.values@.len(),
                                out@.len() == i,
                                forall|j: int| 0 <= j < i ==> out@[j]@ == se.values@[j]@,
                            decreases se.values@.len() - i,
                        {
                            out.push(se.values[i].duplicate());
                            i = i + 1;
                        }
                        proof {
                            assert(Seq::new(out@.len(), |i: int| out@[i]@) =~= spec_lookup(
                                self@,
                                stream@,
                                event@,
                            ));
                        }
                        out
                    },
                    None => {
                        proof {
                            lemma_lookup_series_none(self@.streams[si as int].series, event@);
                        }
                        let out: Vec<Value> = Vec::new();
                        proof {
                            assert(Seq::new(out@.len(), |i: int| out@[i]@) =~= Seq::<ValueV>::empty());
                        }
                        out
                    },
                }
            },
            None => {
                proof {
                    lemma_lookup_stream_none(self@.streams, stream@, event@);
                }
                let out: Vec<Value> = Vec::new();
                proof {
                    assert(Seq::new(out@.len(), |i: int| out@[i]@) =~= Seq::<ValueV>::empty());
                }
                out
            },
        }
    }
}

/// Appends `v` under `event` in a name-sorted series vector, keeping it
/// sorted.
fn append_in_series(series: &mut Vec<SeriesEntry>, event: &String, v: Value)
    ensures
        Seq::new(final(series)@.len(), |i: int| final(series)@[i]@) == spec_append_series(
            Seq::new(old(series)@.len(), |i: int| old(series)@[i]@),
            event@,
            v@,
        ),
{
    let ghost old_ss = Seq::new(series@.len(), |i: int| series@[i]@);
    let n = series.len();
    let mut i: usize = 0;
    while i < n
        invariant
            n == series@.len(),
            i <= n,
            Seq::new(series@.len(), |k: int| series@[k]@) == old_ss,
            old_ss == Seq::new(old(series)@.len(), |k: int| old(series)@[k]@),
            forall|j: int| 0 <= j < i ==> lex_lt(#[trigger] old_ss[j].name, event@),
        decreases n - i,
    {
        if series[i].name.eq(event) {
            proof {
                assert(old_ss[i as int].name == event@);
            }
            let mut se = series.remove(i);
            se.values.push(v);
            series.insert(i, se);
            proof {
                lemma_append_series_at(old_ss, event@, v@, i as int);
                assert(Seq::new(series@.len(), |k: int| series@[k]@)[i as int].values
                    =~= old_ss[i as int].values.push(v@));
                assert(Seq::new(series@.len(), |k: int| series@[k]@) =~= old_ss.update(
                    i as int,
                    SeriesV { name: event@, values: old_ss[i as int].values.push(v@) },
                ));
            }
            return ;
        }
        if !string_lt(&series[i].name, event) {
            // This bucket orders after the new name: insert before it.
            proof {
                lemma_lex_trichotomy(old_ss[i as int].name, event@);
                assert(lex_lt(event@, old_ss[i as int].name));
            }
            let mut values: Vec<Value> = Vec::new();
            values.push(v);
            series.insert(i, SeriesEntry { name: copy_string(event), values });
            proof {
                lemma_append_series_insert(old_ss, event@, v@, i as int);
                assert(Seq::new(series@.len(), |k: int| series@[k]@)[i as int].values =~= seq![v@]);
                assert(Seq::new(series@.len(), |k: int| series@[k]@) =~= old_ss.take(i as int)
                    + seq![SeriesV { name: event@, values: seq![v@] }] + old_ss.skip(i as int));
            }
            return ;
        }
        i = i + 1;
    }
    // Every bucket orders before the new name: it goes at the end.
    let mut values: Vec<Value> = Vec::new();
    values.push(v);
    series.push(SeriesEntry { name: copy_string(event), values });
    proof {
        lemma_append_series_insert(old_ss, event@, v@, n as int);
        assert(Seq::new(series@.len(), |k: int| series@[k]@)[n as int].values =~= seq![v@]);
        assert(old_ss.take(n as int) =~= old_ss);
        assert(old_ss.skip(n as int) =~= Seq::<SeriesV>::empty());
        assert(Seq::new(series@.len(), |k: int| series@[k]@) =~= old_ss.take(n as int) + seq![
            SeriesV { name: event@, values: seq![v@] },
        ] + old_ss.skip(n as int));
    }
}

impl SeriesEntry {
    /// A copy with an equal view.
    pub fn duplicate(&self) -> (r: Self)
        ensures
            r@ == self@,
    {
        let mut values: Vec<Value> = Vec::new();
        let mut i: usize = 0;
        while i < self.values.len()
            invariant
                i <= self.values@.len(),
                values@.len() == i,
                forall|j: int| 0 <= j < i ==> values@[j]@ == self.values@[j]@,
            decreases self.values@.len() - i,
        {
            values.push(self.values[i].duplicate());
            i = i + 1;
        }
        let r = SeriesEntry { name: copy_string(&self.name), values };
        proof {
            assert(r@.values =~= self@.values);
        }
        r
    }
}

/// When every bucket before index `i` orders strictly before `name` and
/// bucket `i` carries it, appending updates exactly that bucket.
proof fn lemma_append_series_at(ss: Seq<SeriesV>, name: Seq<char>, v: ValueV, i: int)
    requires
        0 <= i < ss.len(),
        ss[i].name == name,
        forall|j: int| 0 <= j < i ==> lex_lt(#[trigger] ss[j].name, name),
    ensures
        spec_append_series(ss, name, v) == ss.update(
            i,
            SeriesV { name, values: ss[i].values.push(v) },
        ),
    decreases i,
{
    if i == 0 {
        assert(spec_append_series(ss, name, v) =~= ss.update(
            0,
            SeriesV { name, values: ss[0].values.push(v) },
        ));
    } else {
        lemma_lex_trichotomy(ss[0].name, name);
        assert(ss[0].name != name && !lex_lt(name, ss[0].name));
        lemma_append_series_at(ss.drop_first(), name, v, i - 1);
        assert(spec_append_series(ss, name, v) =~= ss.update(
            i,
            SeriesV { name, values: ss[i].values.push(v) },
        ));
    }
}

/// When every bucket before index `i` orders strictly before `name` and
/// bucket `i`, if any, orders strictly after it, appending inserts a fresh
/// bucket at index `i`.
proof fn lemma_append_series_insert(ss: Seq<SeriesV>, name: Seq<char>, v: ValueV, i: int)
    requires
        0 <= i <= ss.len(),
        forall|j: int| 0 <= j < i ==> lex_lt(#[trigger] ss[j].name, name),
        i < ss.len() ==> lex_lt(name, ss[i].name),
    ensures
        spec_append_series(ss, name, v) == ss.take(i) + seq![SeriesV { name, values: seq![v] }]
            + ss.skip(i),
    decreases i,
{
    if i == 0 {
        if ss.len() == 0 {
            assert(spec_append_series(ss, name, v) =~= ss.take(0) + seq![
                SeriesV { name, values: seq![v] },
            ] + ss.skip(0));
        } else {
            lemma_lex_trichotomy(name, ss[0].name);
            assert(ss[0].name != name);
            assert(spec_append_series(ss, name, v) =~= ss.take(0) + seq![
                SeriesV { name, values: seq![v] },
            ] + ss.skip(0));
        }
    } else {
        lemma_lex_trichotomy(ss[0].name, name);
        assert(ss[0].name != name && !lex_lt(name, ss[0].name));
        assert(ss.drop_first().take(i - 1) =~= ss.subrange(1, i));
        assert(i - 1 < ss.drop_first().len() ==> ss.drop_first()[i - 1] == ss[i]);
        lemma_append_series_insert(ss.drop_first(), name, v, i - 1);
        assert(ss.drop_first().skip(i - 1) =~= ss.skip(i));
        assert(spec_append_series(ss, name, v) =~= ss.take(i) + seq![
            SeriesV { name, values: seq![v] },
        ] + ss.skip(i));
    }
}

/// When every bucket before index `i` orders strictly before `stream` and
/// bucket `i` carries it, appending updates exactly that bucket.
proof fn lemma_append_stream_at(sts: Seq<StreamV>, stream: Seq<char>, event: Seq<char>, v: ValueV, i: int)
    requires
        0 <= i < sts.len(),
        sts[i].name == stream,
        forall|j: int| 0 <= j < i ==> lex_lt(#[trigger] sts[j].name, stream),
    ensures
        spec_append_stream(sts, stream, event, v) == sts.update(
            i,
            StreamV { name: stream, series: spec_append_series(sts[i].series, event, v) },
        ),
    decreases i,
{
    if i == 0 {
        assert(spec_append_stream(sts, stream, event, v) =~= sts.update(
            0,
            StreamV { name: stream, series: spec_append_series(sts[0].series, event, v) },
        ));
    } else {
        lemma_lex_trichotomy(sts[0].name, stream);
        assert(sts[0].name != stream && !lex_lt(stream, sts[0].name));
        lemma_append_stream_at(sts.drop_first(), stream, event, v, i - 1);
        assert(spec_append_stream(sts, stream, event, v) =~= sts.update(
            i,
            StreamV { name: stream, series: spec_append_series(sts[i].series, event, v) },
        ));
    }
}

/// When every bucket before index `i` orders strictly before `stream` and
/// bucket `i`, if any, orders strictly after it, appending inserts a fresh
/// bucket at index `i`.
proof fn lemma_append_stream_insert(
    sts: Seq<StreamV>,
    stream: Seq<char>,
    event: Seq<char>,
    v: ValueV,
    i: int,
)
    requires
        0 <= i <= sts.len(),
        forall|j: int| 0 <= j < i ==> lex_lt(#[trigger] sts[j].name, stream),
        i < sts.len() ==> lex_lt(stream, sts[i].name),
    ensures
        spec_append_stream(sts, stream, event, v) == sts.take(i) + seq![
            StreamV { name: stream, series: spec_append_series(Seq::empty(), event, v) },
        ] + sts.skip(i),
    decreases i,
{
    if i == 0 {
        if sts.len() == 0 {
            assert(spec_append_stream(sts, stream, event, v) =~= sts.take(0) + seq![
                StreamV { name: stream, series: spec_append_series(Seq::empty(), event, v) },
            ] + sts.skip(0));
        } else {
            lemma_lex_trichotomy(stream, sts[0].name);
            assert(sts[0].name != stream);
            assert(spec_append_stream(sts, stream, event, v) =~= sts.take(0) + seq![
                StreamV { name: stream, series: spec_append_series(Seq::empty(), event, v) },
            ] + sts.skip(0));
        }
    } else {
        lemma_lex_trichotomy(sts[0].name, stream);
        assert(sts[0].name != stream && !lex_lt(stream, sts[0].name));
        assert(sts.drop_first().take(i - 1) =~= sts.subrange(1, i));
        assert(i - 1 < sts.drop_first().len() ==> sts.drop_first()[i - 1] == sts[i]);
        lemma_append_stream_insert(sts.drop_first(), stream, event, v, i - 1);
        assert(sts.drop_first().skip(i - 1) =~= sts.skip(i));
        assert(spec_append_stream(sts, stream, event, v) =~= sts.take(i) + seq![
            StreamV { name: stream, series: spec_append_series(Seq::empty(), event, v) },
        ] + sts.skip(i));
    }
}

/// Whether a series sequence is in strictly ascending name order.
pub open spec fn series_sorted(ss: Seq<SeriesV>) -> bool {
    forall|i: int| 0 <= i < ss.len() - 1 ==> lex_lt(#[trigger] ss[i].name, ss[i + 1].name)
}

/// Whether the accumulated map is in strictly ascending name order at both
/// levels.
pub open spec fn spec_sorted(m: EventMapV) -> bool {
    &&& forall|i: int|
        0 <= i < m.streams.len() - 1 ==> lex_lt(#[trigger] m.streams[i].name, m.streams[i + 1].name)
    &&& forall|i: int| 0 <= i < m.streams.len() ==> series_sorted((#[trigger] m.streams[i]).series)
}

/// The first bucket after a series append carries the appended name or the
/// old first name.
proof fn lemma_append_series_head(ss: Seq<SeriesV>, name: Seq<char>, v: ValueV)
    ensures
        spec_append_series(ss, name, v).len() == ss.len() || spec_append_series(ss, name, v).len()
            == ss.len() + 1,
        spec_append_series(ss, name, v).len() >= 1,
        spec_append_series(ss, name, v)[0].name == name || (ss.len() > 0 && spec_append_series(
            ss,
            name,
            v,
        )[0].name == ss[0].name),
    decreases ss.len(),
{
    if ss.len() > 0 && ss[0].name != name && !lex_lt(name, ss[0].name) {
        lemma_append_series_head(ss.drop_first(), name, v);
    }
}

/// Appending under a name keeps a sorted series sequence sorted.
proof fn lemma_append_series_sorted(ss: Seq<SeriesV>, name: Seq<char>, v: ValueV)
    requires
        series_sorted(ss),
    ensures
        series_sorted(spec_append_series(ss, name, v)),
    decreases ss.len(),
{
    let r = spec_append_series(ss, name, v);
    if ss.len() == 0 {
    } else if ss[0].name == name {
        assert(forall|i: int| 0 <= i < r.len() - 1 ==> r[i].name == ss[i].name);
    } else if lex_lt(name, ss[0].name) {
        assert(forall|i: int| 1 <= i < r.len() ==> r[i] == ss[i - 1]);
        assert(forall|i: int|
            1 <= i < r.len() - 1 ==> lex_lt(#[trigger] r[i].name, r[i + 1].name));
    } else {
        lemma_lex_trichotomy(ss[0].name, name);
        assert(lex_lt(ss[0].name, name));
        assert(forall|i: int|
            0 <= i < ss.drop_first().len() - 1 ==> lex_lt(
                #[trigger] ss.drop_first()[i].name,
                ss.drop_first()[i + 1].name,
            ));
        lemma_append_series_sorted(ss.drop_first(), name, v);
        lemma_append_series_head(ss.drop_first(), name, v);
        let rest = spec_append_series(ss.drop_first(), name, v);
        assert(r[0] == ss[0]);
        assert(forall|i: int| 1 <= i < r.len() ==> r[i] == rest[i - 1]);
        if rest[0].name == name {
            assert(lex_lt(r[0].name, r[1].name));
        } else {
            assert(rest[0].name == ss[1].name);
            assert(lex_lt(r[0].name, r[1].name));
        }
        assert(forall|i: int|
            1 <= i < r.len() - 1 ==> lex_lt(#[trigger] r[i].name, r[i + 1].name));
    }
}

/// The first bucket after a stream append carries the appended name or the
/// old first name.
proof fn lemma_append_stream_head(sts: Seq<StreamV>, stream: Seq<char>, event: Seq<char>, v: ValueV)
    ensures
        spec_append_stream(sts, stream, event, v).len() >= 1,
        spec_append_stream(sts, stream, event, v)[0].name == stream || (sts.len() > 0
            && spec_append_stream(sts, stream, event, v)[0].name == sts[0].name),
    decreases sts.len(),
{
    if sts.len() > 0 && sts[0].name != stream && !lex_lt(stream, sts[0].name) {
        lemma_append_stream_head(sts.drop_first(), stream, event, v);
    }
}

/// Appending keeps a sorted stream sequence sorted, with every bucket's
/// series sorted.
proof fn lemma_append_stream_sorted(sts: Seq<StreamV>, stream: Seq<char>, event: Seq<char>, v: ValueV)
    requires
        forall|i: int| 0 <= i < sts.len() - 1 ==> lex_lt(#[trigger] sts[i].name, sts[i + 1].name),
        forall|i: int| 0 <= i < sts.len() ==> series_sorted((#[trigger] sts[i]).series),
    ensures
        forall|i: int|
            0 <= i < spec_append_stream(sts, stream, event, v).len() - 1 ==> lex_lt(
                (#[trigger] spec_append_stream(sts, stream, event, v)[i]).name,
                spec_append_stream(sts, stream, event, v)[i + 1].name,
            ),
        forall|i: int|
            0 <= i < spec_append_stream(sts, stream, event, v).len() ==> series_sorted(
                (#[trigger] spec_append_stream(sts, stream, event, v)[i]).series,
            ),
    decreases sts.len(),
{
    let r = spec_append_stream(sts, stream, event, v);
    lemma_append_series_sorted(Seq::<SeriesV>::empty(), event, v);
    if sts.len() == 0 {
    } else if sts[0].name == stream {
        lemma_append_series_sorted(sts[0].series, event, v);
        assert(forall|i: int| 0 <= i < r.len() - 1 ==> r[i].name == sts[i].name);
        assert(forall|i: int| 1 <= i < r.len() ==> r[i] == sts[i]);
    } else if lex_lt(stream, sts[0].name) {
        assert(forall|i: int| 1 <= i < r.len() ==> r[i] == sts[i - 1]);
        assert(forall|i: int|
            1 <= i < r.len() - 1 ==> lex_lt(#[trigger] r[i].name, r[i + 1].name));
    } else {
        lemma_lex_trichotomy(sts[0].name, stream);
        assert(lex_lt(sts[0].name, stream));
        assert(forall|i: int|
            0 <= i < sts.drop_first().len() - 1 ==> lex_lt(
                #[trigger] sts.drop_first()[i].name,
                sts.drop_first()[i + 1].name,
            ));
        assert(forall|i: int|
            0 <= i < sts.drop_first().len() ==> series_sorted(
                (#[trigger] sts.drop_first()[i]).series,
            ));
        lemma_append_stream_sorted(sts.drop_first(), stream, event, v);
        lemma_append_stream_head(sts.drop_first(), stream, event, v);
        let rest = spec_append_stream(sts.drop_first(), stream, event, v);
        assert(r[0] == sts[0]);
        assert(forall|i: int| 1 <= i < r.len() ==> r[i] == rest[i - 1]);
        if rest[0].name == stream {
            assert(lex_lt(r[0].name, r[1].name));
        } else {
            assert(rest[0].name == sts[1].name);
            assert(lex_lt(r[0].name, r[1].name));
        }
        assert(forall|i: int|
            1 <= i < r.len() - 1 ==> lex_lt(#[trigger] r[i].name, r[i + 1].name));
    }
}

/// Appending preserves the map's ascending name order at both levels: the
/// accumulated map, built by appends from empty, always renders its streams
/// and events in ascending name order.
pub proof fn lemma_append_sorted(m: EventMapV, stream: Seq<char>, event: Seq<char>, v: ValueV)
    requires
        spec_sorted(m),
    ensures
        spec_sorted(spec_append(m, stream, event, v)),
{
    lemma_append_stream_sorted(m.streams, stream, event, v);
}

/// When `stream` first occurs at index `i`, the lookup reads that bucket.
proof fn lemma_lookup_stream_at(sts: Seq<StreamV>, stream: Seq<char>, event: Seq<char>, i: int)
    requires
        0 <= i < sts.len(),
        sts[i].name == stream,
        forall|j: int| 0 <= j < i ==> #[trigger] sts[j].name != stream,
    ensures
        spec_lookup_stream(sts, stream, event) == spec_lookup_series(sts[i].series, event),
    decreases i,
{
    if i > 0 {
        lemma_lookup_stream_at(sts.drop_first(), stream, event, i - 1);
    }
}

/// When `event` first occurs at index `i`, the lookup reads that bucket.
proof fn lemma_lookup_series_at(ss: Seq<SeriesV>, event: Seq<char>, i: int)
    requires
        0 <= i < ss.len(),
        ss[i].name == event,
        forall|j: int| 0 <= j < i ==> #[trigger] ss[j].name != event,
    ensures
        spec_lookup_series(ss, event) == ss[i].values,
    decreases i,
{
    if i > 0 {
        lemma_lookup_series_at(ss.drop_first(), event, i - 1);
    }
}

/// A lookup over buckets that never match the stream name is empty.
proof fn lemma_lookup_stream_none(sts: Seq<StreamV>, stream: Seq<char>, event: Seq<char>)
    requires
        forall|j: int| 0 <= j < sts.len() ==> #[trigger] sts[j].name != stream,
    ensures
        spec_lookup_stream(sts, stream, event) == Seq::<ValueV>::empty(),
    decreases sts.len(),
{
    if sts.len() > 0 {
        lemma_lookup_stream_none(sts.drop_first(), stream, event);
    }
}

/// A lookup over buckets that never match the event name is empty.
proof fn lemma_lookup_series_none(ss: Seq<SeriesV>, event: Seq<char>)
    requires
        forall|j: int| 0 <= j < ss.len() ==> #[trigger] ss[j].name != event,
    ensures
        spec_lookup_series(ss, event) == Seq::<ValueV>::empty(),
    decreases ss.len(),
{
    if ss.len() > 0 {
        lemma_lookup_series_none(ss.drop_first(), event);
    }
}

} // verus!
