//! The event logger: a subscriber that matches every delivered record
//! against its registry, accumulates the decoded fields keyed by
//! (stream name, field name), and on the stop signal flushes the
//! accumulated map to one sink format.
//!
//! Its lifetime has four phases: building (this struct's builder calls),
//! running (the drain loop in [`EventLogger::run`]), flushing (rendering the
//! accumulated map), and done (after the shutdown acknowledgement).

use vstd::prelude::*;

use crate::accum::{lemma_append_sorted, spec_append, spec_sorted, EventMap, EventMapV};
use crate::csv::{flatten_rows, render_csv, spec_csv, spec_flatten, Row, RowV};
use crate::digest::{spec_stream_id, stream_id};
use crate::hub::{Broadcast, BroadcastHub, BroadcastV};
use crate::json::{render_json, spec_output};
use crate::registry::{
    outcome_view, spec_match_decode, DecodeError, Decoder, Registry, RegistryEntryV,
};
use crate::types::{Filter, LogRecord, LogRecordV};
use crate::value::{Value, ValueV};

verus! {

/// The sink formats a logger can flush to.
#[derive(Clone, Copy, Debug, PartialEq, Eq, Structural)]
pub enum OutputFileType {
    /// One JSON document holding the accumulated map and the metadata.
    JSON,
    /// The tidy/long table as CSV text.
    CSV,
    /// The tidy/long table as rows for a columnar writer.
    Parquet,
}

/// Mathematical model of what a flush hands the sink.
pub enum SinkContentV {
    /// Finished text, to be written as is.
    Text(Seq<char>),
    /// Table rows, to be written by a columnar writer.
    Table(Seq<RowV>),
}

/// What a flush hands the sink: finished text for the JSON and CSV formats,
/// table rows for the columnar format.
pub enum SinkContent {
    /// Finished text, to be written as is.
    Text(String),
    /// Table rows, to be written by a columnar writer.
    Table(Vec<Row>),
}

impl View for SinkContent {
    type V = SinkContentV;

    open spec fn view(&self) -> SinkContentV {
        match self {
            SinkContent::Text(s) => SinkContentV::Text(s@),
            SinkContent::Table(rows) => SinkContentV::Table(
                Seq::new(rows@.len(), |i: int| rows@[i]@),
            ),
        }
    }
}

/// One flush: where the sink file belongs and what goes into it.
pub struct FlushOutput {
    /// `<directory>/<file name>.<extension>`, with the configured or
    /// default directory and file name.
    pub path: String,
    /// The rendered content.
    pub content: SinkContent,
}

/// Accumulates one decoded field list under its stream name, field by field.
pub open spec fn spec_accum_fields(
    m: EventMapV,
    stream: Seq<char>,
    fs: Seq<(Seq<char>, ValueV)>,
) -> EventMapV
    decreases fs.len(),
{
    if fs.len() == 0 {
        m
    } else {
        spec_append(spec_accum_fields(m, stream, fs.drop_last()), stream, fs.last().0, fs.last().1)
    }
}

/// Accumulates one match outcome: a decoded record contributes each of its
/// named fields; a decode failure contributes nothing and aborts nothing.
pub open spec fn spec_accum_outcome(
    m: EventMapV,
    o: (Seq<char>, Result<Seq<(Seq<char>, ValueV)>, DecodeError>),
) -> EventMapV {
    match o.1 {
        Ok(fs) => spec_accum_fields(m, o.0, fs),
        Err(_) => m,
    }
}

/// Accumulates a record's match outcomes, in registry order.
pub open spec fn spec_accum_outcomes(
    m: EventMapV,
    os: Seq<(Seq<char>, Result<Seq<(Seq<char>, ValueV)>, DecodeError>)>,
) -> EventMapV
    decreases os.len(),
{
    if os.len() == 0 {
        m
    } else {
        spec_accum_outcome(spec_accum_outcomes(m, os.drop_last()), os.last())
    }
}

/// Accumulates one log record against a registry.
pub open spec fn spec_accum_log(m: EventMapV, es: Seq<RegistryEntryV>, l: LogRecordV) -> EventMapV {
    spec_accum_outcomes(m, spec_match_decode(es, l))
}

/// Accumulates a batch of records, in batch order.
pub open spec fn spec_accum_batch(m: EventMapV, es: Seq<RegistryEntryV>, b: Seq<LogRecordV>) -> EventMapV
    decreases b.len(),
{
    if b.len() == 0 {
        m
    } else {
        spec_accum_log(spec_accum_batch(m, es, b.drop_last()), es, b.last())
    }
}

/// Accumulates one broadcast message: an event batch record by record; the
/// stop signal changes nothing.
pub open spec fn spec_accum_message(m: EventMapV, es: Seq<RegistryEntryV>, msg: BroadcastV) -> EventMapV {
    match msg {
        BroadcastV::Event(b) => spec_accum_batch(m, es, b),
        BroadcastV::Stop => m,
    }
}

/// Accumulates a sequence of broadcast messages, in delivery order.
pub open spec fn spec_accum_messages(
    m: EventMapV,
    es: Seq<RegistryEntryV>,
    msgs: Seq<BroadcastV>,
) -> EventMapV
    decreases msgs.len(),
{
    if msgs.len() == 0 {
        m
    } else {
        spec_accum_message(spec_accum_messages(m, es, msgs.drop_last()), es, msgs.last())
    }
}

/// Accumulates one record's decoded fields into `acc`.
pub fn accumulate_log(acc: &mut EventMap, registry: &Registry, log: &LogRecord)
    requires
        log.wf(),
    ensures
        final(acc)@ == spec_accum_log(old(acc)@, registry@, log@),
{
    let ghost m0 = acc@;
    let ghost ov = spec_match_decode(registry@, log@);
    let outcomes = registry.match_and_decode(log);
    let n = outcomes.len();
    proof {
        assert(ov.take(0) =~= Seq::<(Seq<char>, Result<Seq<(Seq<char>, ValueV)>, DecodeError>)>::empty());
    }
    let mut i: usize = 0;
    while i < n
        invariant
            n == outcomes@.len(),
            i <= n,
            Seq::new(outcomes@.len(), |k: int| outcome_view(outcomes@[k])) == ov,
            acc@ == spec_accum_outcomes(m0, ov.take(i as int)),
        decreases n - i,
    {
        proof {
            assert(ov.take(i + 1).drop_last() =~= ov.take(i as int));
            assert(ov.take(i + 1).last() == ov[i as int]);
            assert(outcome_view(outcomes@[i as int]) == ov[i as int]);
        }
        let ghost mid = acc@;
        let name = &outcomes[i].name;
        match &outcomes[i].result {
            Ok(fields) => {
                let ghost fvv = Seq::new(fields@.len(), |k: int| (fields@[k].0@, fields@[k].1@));
                proof {
                    assert(ov[i as int].0 == name@);
                    assert(ov[i as int].1 == Ok::<_, DecodeError>(fvv));
                    assert(fvv.take(0) =~= Seq::<(Seq<char>, ValueV)>::empty());
                }
                let m = fields.len();
                let mut j: usize = 0;
                while j < m
                    invariant
                        m == fields@.len(),
                        j <= m,
                        fvv == Seq::new(fields@.len(), |k: int| (fields@[k].0@, fields@[k].1@)),
                        acc@ == spec_accum_fields(mid, name@, fvv.take(j as int)),
                    decreases m - j,
                {
                    proof {
                        assert(fvv.take(j + 1).drop_last() =~= fvv.take(j as int));
                        assert(fvv.take(j + 1).last() == fvv[j as int]);
                    }
                    acc.append(name, &fields[j].0, fields[j].1.duplicate());
                    j = j + 1;
                }
                proof {
                    assert(fvv.take(m as int) =~= fvv);
                    assert(acc@ == spec_accum_outcome(mid, ov[i as int]));
                    assert(acc@ == spec_accum_outcomes(m0, ov.take(i + 1)));
                }
            },
            Err(_) => {
                proof {
                    assert(ov[i as int].1 is Err);
                    assert(acc@ == spec_accum_outcome(mid, ov[i as int]));
                    assert(acc@ == spec_accum_outcomes(m0, ov.take(i + 1)));
                }
            },
        }
        i = i + 1;
    }
    proof {
        assert(ov.take(n as int) =~= ov);
    }
}

/// Accumulates one broadcast message into `acc`: an event batch record by
/// record, in batch order; the stop signal changes nothing.
pub fn accumulate_message(acc: &mut EventMap, registry: &Registry, msg: &Broadcast)
    requires
        msg.wf(),
    ensures
        final(acc)@ == spec_accum_message(old(acc)@, registry@, msg@),
{
    let ghost m0 = acc@;
    match msg {
        Broadcast::Event(batch) => {
            let ghost bv = Seq::new(batch@.len(), |k: int| batch@[k]@);
            proof {
                assert(bv.take(0) =~= Seq::<LogRecordV>::empty());
            }
            let n = batch.len();
            let mut i: usize = 0;
            while i < n
                invariant
                    n == batch@.len(),
                    i <= n,
                    bv == Seq::new(batch@.len(), |k: int| batch@[k]@),
                    forall|k: int| 0 <= k < n ==> (#[trigger] batch@[k]).wf(),
                    acc@ == spec_accum_batch(m0, registry@, bv.take(i as int)),
                decreases n - i,
            {
                proof {
                    assert(bv.take(i + 1).drop_last() =~= bv.take(i as int));
                    assert(bv.take(i + 1).last() == bv[i as int]);
                }
                accumulate_log(acc, registry, &batch[i]);
                i = i + 1;
            }
            proof {
                assert(bv.take(n as int) =~= bv);
            }
        },
        Broadcast::StopSignal => {},
    }
}

/// What a flush renders for an accumulated map, metadata, and format.
pub open spec fn spec_flush_content(
    m: EventMapV,
    metadata: Option<ValueV>,
    t: OutputFileType,
) -> SinkContentV {
    match t {
        OutputFileType::JSON => SinkContentV::Text(spec_output(m, metadata)),
        OutputFileType::CSV => SinkContentV::Text(spec_csv(spec_flatten(m.streams))),
        OutputFileType::Parquet => SinkContentV::Table(spec_flatten(m.streams)),
    }
}

/// The sink file's path: the configured directory and file name, or the
/// defaults, with the format's extension.
pub open spec fn spec_output_path(
    directory: Option<Seq<char>>,
    file_name: Option<Seq<char>>,
    t: OutputFileType,
) -> Seq<char> {
    (match directory {
        Some(d) => d,
        None => "./data"@,
    }) + "/"@ + (match file_name {
        Some(f) => f,
        None => "output"@,
    }) + (match t {
        OutputFileType::JSON => ".json"@,
        OutputFileType::CSV => ".csv"@,
        OutputFileType::Parquet => ".parquet"@,
    })
}

/// Accumulating a record's field list keeps the map name-sorted.
proof fn lemma_accum_fields_sorted(m: EventMapV, stream: Seq<char>, fs: Seq<(Seq<char>, ValueV)>)
    requires
        spec_sorted(m),
    ensures
        spec_sorted(spec_accum_fields(m, stream, fs)),
    decreases fs.len(),
{
    if fs.len() > 0 {
        lemma_accum_fields_sorted(m, stream, fs.drop_last());
        lemma_append_sorted(
            spec_accum_fields(m, stream, fs.drop_last()),
            stream,
            fs.last().0,
            fs.last().1,
        );
    }
}

/// Accumulating a record's match outcomes keeps the map name-sorted.
proof fn lemma_accum_outcomes_sorted(
    m: EventMapV,
    os: Seq<(Seq<char>, Result<Seq<(Seq<char>, ValueV)>, DecodeError>)>,
)
    requires
        spec_sorted(m),
    ensures
        spec_sorted(spec_accum_outcomes(m, os)),
    decreases os.len(),
{
    if os.len() > 0 {
        lemma_accum_outcomes_sorted(m, os.drop_last());
        match os.last().1 {
            Ok(fs) => {
                lemma_accum_fields_sorted(spec_accum_outcomes(m, os.drop_last()), os.last().0, fs);
            },
            Err(_) => {},
        }
    }
}

/// Accumulating a batch keeps the map name-sorted.
proof fn lemma_accum_batch_sorted(m: EventMapV, es: Seq<RegistryEntryV>, b: Seq<LogRecordV>)
    requires
        spec_sorted(m),
    ensures
        spec_sorted(spec_accum_batch(m, es, b)),
    decreases b.len(),
{
    if b.len() > 0 {
        lemma_accum_batch_sorted(m, es, b.drop_last());
        lemma_accum_outcomes_sorted(
            spec_accum_batch(m, es, b.drop_last()),
            spec_match_decode(es, b.last()),
        );
    }
}

/// A logger's accumulated map stays in ascending name order at both levels
/// through any delivered message sequence, so its flushed JSON keys and its
/// table rows come out in ascending stream and event name order.
pub proof fn lemma_accum_messages_sorted(
    m: EventMapV,
    es: Seq<RegistryEntryV>,
    msgs: Seq<BroadcastV>,
)
    requires
        spec_sorted(m),
    ensures
        spec_sorted(spec_accum_messages(m, es, msgs)),
    decreases msgs.len(),
{
    if msgs.len() > 0 {
        lemma_accum_messages_sorted(m, es, msgs.drop_last());
        match msgs.last() {
            BroadcastV::Event(b) => {
                lemma_accum_batch_sorted(spec_accum_messages(m, es, msgs.drop_last()), es, b);
            },
            BroadcastV::Stop => {},
        }
    }
}

/// Flushing is a pure function of the accumulated state: flushing twice
/// with identical accumulated state, metadata, and format produces
/// byte-identical output.
pub proof fn lemma_flush_idempotent(
    m1: EventMapV,
    m2: EventMapV,
    md1: Option<ValueV>,
    md2: Option<ValueV>,
    t: OutputFileType,
)
    requires
        m1 == m2,
        md1 == md2,
    ensures
        spec_flush_content(m1, md1, t) == spec_flush_content(m2, md2, t),
{
}

/// The logger while it is being built and run: its registry, its
/// subscription, the sink configuration, and the accumulated map.
pub struct EventLogger {
    /// The named filter/decoder registrations.
    pub registry: Registry,
    /// The hub subscription shared by all of this logger's registrations,
    /// created by the first one.
    pub subscription: Option<usize>,
    /// The sink format; JSON when unset.
    pub output_file_type: Option<OutputFileType>,
    /// The sink directory; `./data` when unset. Stored as given; resolving
    /// it against a working directory is the caller's concern.
    pub directory: Option<String>,
    /// The sink file's base name; `output` when unset.
    pub file_name: Option<String>,
    /// Free-form metadata flushed beside the events.
    pub metadata: Option<Value>,
    /// The accumulated output, append-only while running.
    pub accumulated: EventMap,
}

impl EventLogger {
    /// A fresh logger with nothing registered, nothing configured, and
    /// nothing accumulated: the building phase.
    pub fn builder() -> (r: Self)
        ensures
            r.registry@ == Seq::<RegistryEntryV>::empty(),
            r.subscription is None,
            r.output_file_type is None,
            r.directory is None,
            r.file_name is None,
            r.metadata is None,
            r.accumulated@.streams == Seq::<crate::accum::StreamV>::empty(),
    {
        EventLogger {
            registry: Registry::new(),
            subscription: None,
            output_file_type: None,
            directory: None,
            file_name: None,
            metadata: None,
            accumulated: EventMap::new(),
        }
    }

    /// Registers `(filter, decoder)` under `name`. The first registration
    /// creates this logger's one subscription on the hub (with a shutdown
    /// acknowledgement owed); later ones share it. A repeated name
    /// overwrites its earlier registration.
    pub fn add(self, hub: &mut BroadcastHub, filter: Filter, decoder: Decoder, name: String) -> (r:
        Self)
        requires
            old(hub).wf(),
            old(hub).published().len() == 0,
        ensures
            final(hub).wf(),
            final(hub).published().len() == 0,
            r.registry@ == crate::registry::spec_registry_add(
                self.registry@,
                RegistryEntryV { name: name@, filter: filter@, decoder: decoder@ },
            ),
            r.subscription is Some,
            (self.subscription is None ==> (match r.subscription {
                Some(id) => id < final(hub).subscriber_count() && final(hub).owes_ack(id as int)
                    && !final(hub).acked(id as int) && final(hub).delivered(id as int)
                    == Seq::<BroadcastV>::empty(),
                None => false,
            })),
            self.subscription is Some ==> *final(hub) == *old(hub) && r.subscription
                == self.subscription,
            r.output_file_type == self.output_file_type,
            r.directory == self.directory,
            r.file_name == self.file_name,
            r.metadata == self.metadata,
            r.accumulated@ == self.accumulated@,
            self.subscription is None ==> final(hub).subscriber_count() == old(hub).subscriber_count() + 1,
    {
        let EventLogger {
            mut registry,
            subscription,
            output_file_type,
            directory,
            file_name,
            metadata,
            accumulated,
        } = self;
        registry.add(name, filter, decoder);
        let subscription = match subscription {
            Some(id) => Some(id),
            None => Some(hub.register(true)),
        };
        EventLogger {
            registry,
            subscription,
            output_file_type,
            directory,
            file_name,
            metadata,
            accumulated,
        }
    }

    /// Registers `(filter, decoder)` under the stable name derived from the
    /// filter: the hexadecimal digest of its canonical encoding. Used for
    /// streams that are consumed, not stored.
    pub fn add_stream(self, hub: &mut BroadcastHub, filter: Filter, decoder: Decoder) -> (r: Self)
        requires
            old(hub).wf(),
            old(hub).published().len() == 0,
            filter.wf(),
        ensures
            final(hub).wf(),
            final(hub).published().len() == 0,
            r.registry@ == crate::registry::spec_registry_add(
                self.registry@,
                RegistryEntryV {
                    name: spec_stream_id(filter@),
                    filter: filter@,
                    decoder: decoder@,
                },
            ),
            r.subscription is Some,
            (self.subscription is None ==> (match r.subscription {
                Some(id) => id < final(hub).subscriber_count() && final(hub).owes_ack(id as int)
                    && !final(hub).acked(id as int) && final(hub).delivered(id as int)
                    == Seq::<BroadcastV>::empty(),
                None => false,
            })),
            self.subscription is Some ==> *final(hub) == *old(hub) && r.subscription
                == self.subscription,
            r.output_file_type == self.output_file_type,
            r.directory == self.directory,
            r.file_name == self.file_name,
            r.metadata == self.metadata,
            r.accumulated@ == self.accumulated@,
    {
        let name = stream_id(&filter);
        self.add(hub, filter, decoder, name)
    }

    /// Sets the sink directory, stored as given.
    pub fn directory(self, path: String) -> (r: Self)
        ensures
            r.directory == Some(path),
            r.registry@ == self.registry@,
            r.subscription == self.subscription,
            r.output_file_type == self.output_file_type,
            r.file_name == self.file_name,
            r.metadata == self.metadata,
            r.accumulated@ == self.accumulated@,
    {
        EventLogger { directory: Some(path), ..self }
    }

    /// Sets the sink file's base name.
    pub fn file_name(self, name: String) -> (r: Self)
        ensures
            r.file_name == Some(name),
            r.registry@ == self.registry@,
            r.subscription == self.subscription,
            r.output_file_type == self.output_file_type,
            r.directory == self.directory,
            r.metadata == self.metadata,
            r.accumulated@ == self.accumulated@,
    {
        EventLogger { file_name: Some(name), ..self }
    }

    /// Sets the sink format. JSON is the default when this is never called.
    pub fn file_type(self, t: OutputFileType) -> (r: Self)
        ensures
            r.output_file_type == Some(t),
            r.registry@ == self.registry@,
            r.subscription == self.subscription,
            r.directory == self.directory,
            r.file_name == self.file_name,
            r.metadata == self.metadata,
            r.accumulated@ == self.accumulated@,
    {
        EventLogger { output_file_type: Some(t), ..self }
    }

    /// Sets the metadata flushed beside the events.
    pub fn metadata(self, m: Value) -> (r: Self)
        ensures
            (match r.metadata {
                Some(v) => v@ == m@,
                None => false,
            }),
            r.registry@ == self.registry@,
            r.subscription == self.subscription,
            r.output_file_type == self.output_file_type,
            r.directory == self.directory,
            r.file_name == self.file_name,
            r.accumulated@ == self.accumulated@,
    {
        EventLogger { metadata: Some(m), ..self }
    }

    /// The metadata view this logger flushes.
    pub open spec fn metadata_view(&self) -> Option<ValueV> {
        match self.metadata {
            Some(v) => Some(v@),
            None => None,
        }
    }

    /// The format this logger flushes to: the configured one, or JSON.
    pub open spec fn file_type_view(&self) -> OutputFileType {
        match self.output_file_type {
            Some(t) => t,
            None => OutputFileType::JSON,
        }
    }

    /// The view of an optional configured string.
    pub open spec fn opt_string_view(o: Option<String>) -> Option<Seq<char>> {
        match o {
            Some(s) => Some(s@),
            None => None,
        }
    }

    /// Renders this logger's accumulated map for its sink, without changing
    /// anything: the flushing phase. Two calls with the same state produce
    /// identical output.
    pub fn flush_output(&self) -> (out: FlushOutput)
        ensures
            out.path@ == spec_output_path(
                Self::opt_string_view(self.directory),
                Self::opt_string_view(self.file_name),
                self.file_type_view(),
            ),
            out.content@ == spec_flush_content(
                self.accumulated@,
                self.metadata_view(),
                self.file_type_view(),
            ),
    {
        let mut path = String::new();
        match &self.directory {
            Some(d) => path.append(d.as_str()),
            None => path.append("./data"),
        }
        path.append("/");
        match &self.file_name {
            Some(f) => path.append(f.as_str()),
            None => path.append("output"),
        }
        let content = match &self.output_file_type {
            Some(OutputFileType::JSON) | None => {
                path.append(".json");
                SinkContent::Text(render_json(&self.accumulated, &self.metadata))
            },
            Some(OutputFileType::CSV) => {
                path.append(".csv");
                let rows = flatten_rows(&self.accumulated);
                SinkContent::Text(render_csv(&rows))
            },
            Some(OutputFileType::Parquet) => {
                path.append(".parquet");
                SinkContent::Table(flatten_rows(&self.accumulated))
            },
        };
        proof {
            assert(path@ =~= spec_output_path(
                Self::opt_string_view(self.directory),
                Self::opt_string_view(self.file_name),
                self.file_type_view(),
            ));
        }
        FlushOutput { path, content }
    }

    /// Runs the logger to completion against a stopped hub: the running
    /// phase drains this subscriber's remaining messages in delivery order,
    /// accumulating every event batch; the stop signal — always the last
    /// message — triggers the flush; the shutdown acknowledgement is
    /// recorded afterwards (the done phase). The caller writes the returned
    /// content to the returned path; a write failure there is that caller's
    /// failure domain, never another subscriber's, and the acknowledgement
    /// has already been sent either way, so the shutdown wait cannot hang
    /// on it.
    pub fn run(self, hub: &mut BroadcastHub) -> (out: FlushOutput)
        requires
            old(hub).wf(),
            old(hub).is_stopped(),
            (match self.subscription {
                Some(id) => id < old(hub).subscriber_count() && old(hub).owes_ack(id as int)
                    && !old(hub).acked(id as int),
                None => false,
            }),
            (match self.subscription {
                Some(id) => forall|k: int|
                    0 <= k < old(hub).delivered(id as int).len() ==> old(hub).published()[k]
                        != BroadcastV::Stop,
                None => false,
            }),
        ensures
            final(hub).wf(),
            final(hub).published() == old(hub).published(),
            final(hub).subscriber_count() == old(hub).subscriber_count(),
            (match self.subscription {
                Some(id) => final(hub).acked(id as int) && final(hub).delivered(id as int) == old(hub).published(),
                None => false,
            }),
            forall|j: int|
                0 <= j < old(hub).subscriber_count() ==> final(hub).owes_ack(j) == old(hub).owes_ack(j),
            (match self.subscription {
                Some(id) => forall|j: int|
                    0 <= j < old(hub).subscriber_count() && j != id ==> final(hub).acked(j) == old(hub).acked(j),
                None => false,
            }),
            (match self.subscription {
                Some(id) => out.content@ == spec_flush_content(
                    spec_accum_messages(
                        self.accumulated@,
                        self.registry@,
                        old(hub).published().skip(old(hub).delivered(id as int).len() as int),
                    ),
                    self.metadata_view(),
                    self.file_type_view(),
                ),
                None => false,
            }),
            out.path@ == spec_output_path(
                Self::opt_string_view(self.directory),
                Self::opt_string_view(self.file_name),
                self.file_type_view(),
            ),
    {
        let EventLogger {
            registry,
            subscription,
            output_file_type,
            directory,
            file_name,
            metadata,
            mut accumulated,
        } = self;
        let id: usize = match subscription {
            Some(id) => id,
            None => {
                proof {
                    assert(false);
                }
                0
            },
        };
        let ghost m0 = self.accumulated@;
        let ghost rv = self.registry@;
        let ghost d0 = old(hub).delivered(id as int).len() as int;
        let ghost pubv = old(hub).published();
        proof {
            assert(pubv.subrange(d0, d0) =~= Seq::<BroadcastV>::empty());
        }
        let mut done = false;
        while !done
            invariant
                hub.wf(),
                hub.is_stopped(),
                hub.published() == pubv,
                hub.subscriber_count() == old(hub).subscriber_count(),
                id < hub.subscriber_count(),
                hub.owes_ack(id as int),
                !hub.acked(id as int),
                0 <= d0 <= hub.delivered(id as int).len(),
                rv == registry@,
                forall|j: int|
                    0 <= j < hub.subscriber_count() && j != id ==> hub.delivered(j) == old(hub).delivered(j),
                forall|j: int|
                    0 <= j < hub.subscriber_count() ==> hub.owes_ack(j) == old(hub).owes_ack(j),
                forall|j: int|
                    0 <= j < hub.subscriber_count() && j != id ==> hub.acked(j) == old(hub).acked(
                        j,
                    ),
                accumulated@ == spec_accum_messages(
                    m0,
                    rv,
                    pubv.subrange(d0, hub.delivered(id as int).len() as int),
                ),
                !done ==> forall|k: int|
                    0 <= k < hub.delivered(id as int).len() ==> pubv[k] != BroadcastV::Stop,
                done ==> hub.delivered(id as int) == pubv,
            decreases pubv.len() - hub.delivered(id as int).len() + (if done {
                0int
            } else {
                1int
            }),
        {
            proof {
                // The stop signal is still undelivered, so something is.
                assert(pubv.len() > 0 && pubv.last() == BroadcastV::Stop);
                if hub.delivered(id as int).len() == pubv.len() {
                    assert(pubv[pubv.len() - 1] != BroadcastV::Stop);
                }
            }
            let ghost dlen = hub.delivered(id as int).len() as int;
            match hub.receive(id) {
                Some(msg) => {
                    let ghost mv = msg@;
                    proof {
                        assert(pubv.subrange(d0, dlen + 1).drop_last() =~= pubv.subrange(d0, dlen));
                        assert(pubv.subrange(d0, dlen + 1).last() == pubv[dlen]);
                    }
                    match &msg {
                        Broadcast::StopSignal => {
                            proof {
                                crate::hub::lemma_stop_is_last(*hub, dlen);
                                assert(hub.delivered(id as int) =~= pubv);
                            }
                            done = true;
                        },
                        Broadcast::Event(_) => {
                            accumulate_message(&mut accumulated, &registry, &msg);
                            proof {
                                assert(accumulated@ == spec_accum_messages(
                                    m0,
                                    rv,
                                    pubv.subrange(d0, dlen + 1),
                                ));
                            }
                        },
                    }
                },
                None => {
                    proof {
                        assert(false);
                    }
                    done = true;
                },
            }
        }
        proof {
            assert(pubv.subrange(d0, pubv.len() as int) =~= pubv.skip(d0));
        }
        let finished = EventLogger {
            registry,
            subscription: Some(id),
            output_file_type,
            directory,
            file_name,
            metadata,
            accumulated,
        };
        let out = finished.flush_output();
        hub.acknowledge(id);
        out
    }
}

} // verus!
