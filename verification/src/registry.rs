//! The per-subscriber filter/decode registry: named entries pairing a filter
//! with a schema-bound decoder. Decoders here are data-driven: each named
//! field reads one 32-byte word of the record (a topic or a data word) as an
//! unsigned number, reported either as a number or as its decimal text.

use vstd::prelude::*;

use crate::types::{spec_matches, Filter, LogRecord, LogRecordV};
use crate::value::{copy_string, lex_lt, lemma_lex_transitive, lemma_lex_trichotomy, spec_dec, dec_string, string_lt, Value, ValueV};

verus! {

/// Where a field's 32-byte word is read from.
#[derive(Clone, Copy)]
pub enum FieldSource {
    /// The topic at this position.
    TopicWord(usize),
    /// The 32-byte word at this position of the payload.
    DataWord(usize),
}

/// How a field's numeric word is reported.
#[derive(Clone, Copy)]
pub enum FieldForm {
    /// As a number.
    Number,
    /// As its decimal text.
    Text,
}

/// One named field of a decoder's schema.
pub struct FieldRule {
    pub name: String,
    pub source: FieldSource,
    pub form: FieldForm,
}

/// A schema-bound decoder: the named fields it extracts from a matching
/// record, in order.
pub struct Decoder {
    pub fields: Vec<FieldRule>,
}

/// Why a record's payload did not fit a decoder's schema.
#[derive(Clone, Copy, PartialEq, Eq, Structural, Debug)]
pub enum DecodeError {
    /// The record has no topic at the position the schema reads.
    MissingTopic,
    /// The payload is shorter than the word the schema reads.
    ShortData,
    /// The word's value does not fit in 128 bits.
    Overflow,
}

/// Mathematical model of one field rule.
pub struct FieldRuleV {
    pub name: Seq<char>,
    pub source: FieldSource,
    pub form: FieldForm,
}

impl View for FieldRule {
    type V = FieldRuleV;

    open spec fn view(&self) -> FieldRuleV {
        FieldRuleV { name: self.name@, source: self.source, form: self.form }
    }
}

impl View for Decoder {
    type V = Seq<FieldRuleV>;

    open spec fn view(&self) -> Seq<FieldRuleV> {
        Seq::new(self.fields@.len(), |i: int| self.fields@[i]@)
    }
}

impl FieldRule {
    /// A copy with an equal view.
    pub fn duplicate(&self) -> (r: Self)
        ensures
            r@ == self@,
    {
        FieldRule { name: copy_string(&self.name), source: self.source, form: self.form }
    }
}

impl Decoder {
    /// A decoder from its field rules.
    pub fn new(fields: Vec<FieldRule>) -> (r: Self)
        ensures
            r.fields == fields,
    {
        Decoder { fields }
    }

    /// A copy with an equal view.
    pub fn duplicate(&self) -> (r: Self)
        ensures
            r@ == self@,
    {
        let mut fields: Vec<FieldRule> = Vec::new();
        let mut i: usize = 0;
        while i < self.fields.len()
            invariant
                i <= self.fields@.len(),
                fields@.len() == i,
                forall|j: int| 0 <= j < i ==> fields@[j]@ == self.fields@[j]@,
            decreases self.fields@.len() - i,
        {
            fields.push(self.fields[i].duplicate());
            i = i + 1;
        }
        let r = Decoder { fields };
        proof {
            assert(r@ =~= self@);
        }
        r
    }
}

/// 256 to the power `n`.
pub open spec fn pow256(n: nat) -> nat
    decreases n,
{
    if n == 0 {
        1
    } else {
        256 * pow256((n - 1) as nat)
    }
}

/// The big-endian value of a byte word.
pub open spec fn word_val(w: Seq<u8>) -> nat
    decreases w.len(),
{
    if w.len() == 0 {
        0
    } else {
        (word_val(w.drop_last()) * 256 + w.last()) as nat
    }
}

/// A word's value is below 256 to its length.
pub proof fn lemma_word_val_bound(w: Seq<u8>)
    ensures
        word_val(w) < pow256(w.len()),
    decreases w.len(),
{
    if w.len() > 0 {
        lemma_word_val_bound(w.drop_last());
        assert(word_val(w.drop_last()) * 256 + 255 < pow256(w.len())) by (nonlinear_arith)
            requires
                word_val(w.drop_last()) < pow256((w.len() - 1) as nat),
                pow256(w.len()) == 256 * pow256((w.len() - 1) as nat);
    }
}

/// Sixteen bytes of value fit in 128 bits.
pub proof fn lemma_pow256_16()
    ensures
        pow256(16) == u128::MAX as nat + 1,
{
    reveal_with_fuel(pow256, 17);
}

/// The value a 32-byte word denotes at run time: the big-endian value when
/// it fits in 128 bits, absent otherwise (equivalently: when any of the
/// first sixteen bytes is nonzero).
pub open spec fn spec_word_u128(w: Seq<u8>) -> Option<nat> {
    if word_val(w) <= u128::MAX as nat {
        Some(word_val(w))
    } else {
        None
    }
}

/// A prefix of zero bytes contributes nothing to a word's value.
proof fn lemma_word_split(w: Seq<u8>, k: int)
    requires
        0 <= k <= w.len(),
        forall|i: int| 0 <= i < k ==> w[i] == 0,
    ensures
        word_val(w) == word_val(w.skip(k)),
    decreases w.len(),
{
    if w.len() > 0 {
        if k == w.len() {
            // The whole word is zero.
            lemma_word_zero(w);
            assert(w.skip(k) =~= Seq::<u8>::empty());
        } else {
            assert(w.drop_last().skip(k) =~= w.skip(k).drop_last());
            lemma_word_split(w.drop_last(), k);
            assert(w.skip(k).last() == w.last());
        }
    } else {
        assert(w.skip(k) =~= w);
    }
}

/// A word of zero bytes has value zero.
proof fn lemma_word_zero(w: Seq<u8>)
    requires
        forall|i: int| 0 <= i < w.len() ==> w[i] == 0,
    ensures
        word_val(w) == 0,
    decreases w.len(),
{
    if w.len() > 0 {
        lemma_word_zero(w.drop_last());
    }
}

/// A word with a nonzero byte among its first sixteen of thirty-two exceeds
/// 128 bits.
proof fn lemma_word_high_nonzero(w: Seq<u8>, k: int)
    requires
        w.len() == 32,
        0 <= k < 16,
        w[k] != 0,
    ensures
        word_val(w) > u128::MAX as nat,
    decreases w.len(),
{
    lemma_word_val_tail_bound(w, k);
    lemma_pow256_tail_ge(w.len() - k - 1);
    lemma_pow256_16();
}

/// A byte at position `k` contributes at least 256^(len-k-1) to the value.
proof fn lemma_word_val_tail_bound(w: Seq<u8>, k: int)
    requires
        0 <= k < w.len(),
        w[k] != 0,
    ensures
        word_val(w) >= pow256((w.len() - k - 1) as nat),
    decreases w.len(),
{
    if k == w.len() - 1 {
        assert(word_val(w) == word_val(w.drop_last()) * 256 + w.last());
        assert(word_val(w.drop_last()) * 256 >= 0) by (nonlinear_arith)
            requires
                word_val(w.drop_last()) >= 0;
    } else {
        assert(w.drop_last()[k] == w[k]);
        lemma_word_val_tail_bound(w.drop_last(), k);
        assert(word_val(w.drop_last()) * 256 >= pow256((w.len() - k - 2) as nat) * 256)
            by (nonlinear_arith)
            requires
                word_val(w.drop_last()) >= pow256((w.len() - k - 2) as nat);
    }
}

/// Powers of 256 from the sixteenth on are at least `pow256(16)`.
pub proof fn lemma_pow256_tail_ge(n: int)
    requires
        n >= 16,
    ensures
        pow256(n as nat) >= pow256(16),
    decreases n,
{
    if n > 16 {
        lemma_pow256_tail_ge(n - 1);
        assert(pow256(n as nat) == 256 * pow256((n - 1) as nat));
        assert(256 * pow256((n - 1) as nat) >= pow256((n - 1) as nat)) by (nonlinear_arith)
            requires
                pow256((n - 1) as nat) >= 0;
    }
}

/// Reads the big-endian value of a 32-byte word, or `None` when it exceeds
/// 128 bits.
pub fn word_u128(w: &Vec<u8>) -> (r: Option<u128>)
    requires
        w@.len() == 32,
    ensures
        match r {
            Some(v) => spec_word_u128(w@) == Some(v as nat),
            None => spec_word_u128(w@) is None,
        },
{
    // Any nonzero byte among the first sixteen puts the value past 128 bits.
    let mut i: usize = 0;
    while i < 16
        invariant
            i <= 16,
            w@.len() == 32,
            forall|j: int| 0 <= j < i ==> w@[j] == 0,
        decreases 16 - i,
    {
        if w[i] != 0 {
            proof {
                lemma_word_high_nonzero(w@, i as int);
            }
            return None;
        }
        i = i + 1;
    }
    proof {
        lemma_word_split(w@, 16);
    }
    // The remaining sixteen bytes fit exactly.
    let mut val: u128 = 0;
    let mut j: usize = 16;
    while j < 32
        invariant
            16 <= j <= 32,
            w@.len() == 32,
            val as nat == word_val(w@.skip(16).take(j - 16)),
        decreases 32 - j,
    {
        let ghost pre = w@.skip(16).take(j - 16);
        let ghost post = w@.skip(16).take(j - 15);
        proof {
            assert(post.drop_last() =~= pre);
            assert(post.last() == w@[j as int]);
            lemma_word_val_bound(pre);
            lemma_pow256_16();
            assert(pre.len() <= 15);
            lemma_pow256_tail_ge2(pre.len() as int);
            assert(word_val(pre) * 256 + 255 <= (pow256(15) - 1) * 256 + 255) by (nonlinear_arith)
                requires
                    word_val(pre) <= pow256(15) - 1;
            assert((pow256(15) - 1) * 256 + 255 < pow256(16));
        }
        val = val * 256 + (w[j] as u128);
        j = j + 1;
    }
    proof {
        assert(w@.skip(16).take(16) =~= w@.skip(16));
    }
    Some(val)
}

/// Powers of 256 grow with the exponent up to sixteen.
proof fn lemma_pow256_tail_ge2(n: int)
    requires
        0 <= n <= 15,
    ensures
        pow256(n as nat) <= pow256(15),
    decreases 15 - n,
{
    if n < 15 {
        lemma_pow256_tail_ge2(n + 1);
        assert(pow256((n + 1) as nat) == 256 * pow256(n as nat));
        assert(pow256(n as nat) <= 256 * pow256(n as nat)) by (nonlinear_arith)
            requires
                pow256(n as nat) >= 0;
    }
}

/// The word a field rule reads from a record, or the error explaining why it
/// cannot.
pub open spec fn spec_field_word(l: LogRecordV, source: FieldSource) -> Result<Seq<u8>, DecodeError> {
    match source {
        FieldSource::TopicWord(k) => {
            if k < l.topics.len() {
                Ok(l.topics[k as int])
            } else {
                Err(DecodeError::MissingTopic)
            }
        },
        FieldSource::DataWord(k) => {
            if 32 * (k as int) + 32 <= l.data.len() {
                Ok(l.data.subrange(32 * (k as int), 32 * (k as int) + 32))
            } else {
                Err(DecodeError::ShortData)
            }
        },
    }
}

/// The value one field rule decodes from a record.
pub open spec fn spec_decode_field(l: LogRecordV, r: FieldRuleV) -> Result<ValueV, DecodeError> {
    match spec_field_word(l, r.source) {
        Ok(w) => match spec_word_u128(w) {
            Some(v) => match r.form {
                FieldForm::Number => Ok(ValueV::UInt(v)),
                FieldForm::Text => Ok(ValueV::Str(spec_dec(v))),
            },
            None => Err(DecodeError::Overflow),
        },
        Err(e) => Err(e),
    }
}

/// The named fields a decoder extracts from a record: the first failing
/// field fails the whole record for this decoder.
pub open spec fn spec_decode(l: LogRecordV, d: Seq<FieldRuleV>) -> Result<
    Seq<(Seq<char>, ValueV)>,
    DecodeError,
>
    decreases d.len(),
{
    if d.len() == 0 {
        Ok(Seq::empty())
    } else {
        match spec_decode_field(l, d[0]) {
            Ok(v) => match spec_decode(l, d.drop_first()) {
                Ok(rest) => Ok(seq![(d[0].name, v)] + rest),
                Err(e) => Err(e),
            },
            Err(e) => Err(e),
        }
    }
}

/// Extracts the word a field rule reads, as a fresh vector.
fn field_word(log: &LogRecord, source: FieldSource) -> (r: Result<Vec<u8>, DecodeError>)
    requires
        log.wf(),
    ensures
        match r {
            Ok(w) => spec_field_word(log@, source) == Ok::<Seq<u8>, DecodeError>(w@) && w@.len()
                == 32,
            Err(e) => spec_field_word(log@, source) == Err::<Seq<u8>, DecodeError>(e),
        },
{
    match source {
        FieldSource::TopicWord(k) => {
            if k < log.topics.len() {
                let t = log.topics[k].duplicate();
                let w = t.bytes;
                proof {
                    assert(log@.topics[k as int] == log.topics@[k as int]@);
                }
                Ok(w)
            } else {
                Err(DecodeError::MissingTopic)
            }
        },
        FieldSource::DataWord(k) => {
            if k < log.data.len() / 32 {
                proof {
                    assert(32 * (k as int) + 32 <= log@.data.len()) by (nonlinear_arith)
                        requires
                            (k as int) < (log.data@.len() as int) / 32;
                }
                let start = 32 * k;
                let mut w: Vec<u8> = Vec::new();
                let mut i: usize = 0;
                while i < 32
                    invariant
                        i <= 32,
                        start + 32 <= log.data@.len(),
                        start == 32 * k,
                        w@.len() == i,
                        forall|j: int| 0 <= j < i ==> w@[j] == log.data@[start + j],
                    decreases 32 - i,
                {
                    w.push(log.data[start + i]);
                    i = i + 1;
                }
                proof {
                    assert(w@ =~= log@.data.subrange(32 * (k as int), 32 * (k as int) + 32));
                }
                Ok(w)
            } else {
                proof {
                    assert(32 * (k as int) + 32 > log@.data.len()) by (nonlinear_arith)
                        requires
                            (k as int) >= (log.data@.len() as int) / 32;
                }
                Err(DecodeError::ShortData)
            }
        },
    }
}

/// Decodes one field of a record.
fn decode_field(log: &LogRecord, rule: &FieldRule) -> (r: Result<Value, DecodeError>)
    requires
        log.wf(),
    ensures
        match r {
            Ok(v) => spec_decode_field(log@, rule@) == Ok::<ValueV, DecodeError>(v@),
            Err(e) => spec_decode_field(log@, rule@) == Err::<ValueV, DecodeError>(e),
        },
{
    match field_word(log, rule.source) {
        Ok(w) => match word_u128(&w) {
            Some(v) => match rule.form {
                FieldForm::Number => Ok(Value::UInt(v)),
                FieldForm::Text => Ok(Value::Str(dec_string(v))),
            },
            None => Err(DecodeError::Overflow),
        },
        Err(e) => Err(e),
    }
}

/// Decodes the fields of a record from index `i` on.
fn decode_from(log: &LogRecord, d: &Decoder, i: usize) -> (r: Result<
    Vec<(String, Value)>,
    DecodeError,
>)
    requires
        log.wf(),
        i <= d.fields@.len(),
    ensures
        match r {
            Ok(vs) => spec_decode(log@, d@.skip(i as int)) == Ok::<_, DecodeError>(
                Seq::new(vs@.len(), |k: int| (vs@[k].0@, vs@[k].1@)),
            ),
            Err(e) => spec_decode(log@, d@.skip(i as int)) == Err::<Seq<(Seq<char>, ValueV)>, _>(e),
        },
    decreases d.fields@.len() - i,
{
    let ghost model = d@.skip(i as int);
    if i == d.fields.len() {
        let out: Vec<(String, Value)> = Vec::new();
        proof {
            assert(Seq::new(out@.len(), |k: int| (out@[k].0@, out@[k].1@)) =~= Seq::<(
                Seq<char>,
                ValueV,
            )>::empty());
        }
        Ok(out)
    } else {
        proof {
            assert(model[0] == d@[i as int]);
            assert(model.drop_first() =~= d@.skip(i + 1));
        }
        match decode_field(log, &d.fields[i]) {
            Ok(v) => {
                let ghost vv = v@;
                match decode_from(log, d, i + 1) {
                    Ok(rest) => {
                        let ghost rest_view = Seq::new(rest@.len(), |k: int| (rest@[k].0@, rest@[k].1@));
                        let mut out = rest;
                        out.insert(0, (copy_string(&d.fields[i].name), v));
                        proof {
                            assert(out@[0].0@ == d@[i as int].name);
                            assert(out@[0].1@ == vv);
                            assert(forall|k: int|
                                0 <= k < rest_view.len() ==> (#[trigger] out@[k + 1]).0@
                                    == rest_view[k].0 && out@[k + 1].1@ == rest_view[k].1);
                            assert(Seq::new(out@.len(), |k: int| (out@[k].0@, out@[k].1@)) =~= seq![
                                (d@[i as int].name, vv),
                            ] + rest_view);
                            assert(spec_decode(log@, model) == Ok::<_, DecodeError>(
                                seq![(model[0].name, vv)] + rest_view,
                            ));
                        }
                        Ok(out)
                    },
                    Err(e) => {
                        proof {
                            assert(spec_decode(log@, model) == Err::<Seq<(Seq<char>, ValueV)>, _>(e));
                        }
                        Err(e)
                    },
                }
            },
            Err(e) => {
                proof {
                    assert(spec_decode(log@, model) == Err::<Seq<(Seq<char>, ValueV)>, _>(e));
                }
                Err(e)
            },
        }
    }
}

/// Decodes a record against a decoder's schema: every named field, in order,
/// or the first field's error.
pub fn decode(log: &LogRecord, d: &Decoder) -> (r: Result<Vec<(String, Value)>, DecodeError>)
    requires
        log.wf(),
    ensures
        match r {
            Ok(vs) => spec_decode(log@, d@) == Ok::<_, DecodeError>(
                Seq::new(vs@.len(), |k: int| (vs@[k].0@, vs@[k].1@)),
            ),
            Err(e) => spec_decode(log@, d@) == Err::<Seq<(Seq<char>, ValueV)>, _>(e),
        },
{
    let r = decode_from(log, d, 0);
    proof {
        assert(d@.skip(0) =~= d@);
    }
    r
}

/// Mathematical model of one registry entry.
pub struct RegistryEntryV {
    pub name: Seq<char>,
    pub filter: crate::types::FilterV,
    pub decoder: Seq<FieldRuleV>,
}

/// One named registration: a filter and the decoder bound to that stream.
pub struct RegistryEntry {
    pub name: String,
    pub filter: Filter,
    pub decoder: Decoder,
}

impl View for RegistryEntry {
    type V = RegistryEntryV;

    open spec fn view(&self) -> RegistryEntryV {
        RegistryEntryV { name: self.name@, filter: self.filter@, decoder: self.decoder@ }
    }
}

/// A subscriber's named filter/decoder registry. Names are unique; a second
/// registration under a name overwrites the first.
pub struct Registry {
    pub entries: Vec<RegistryEntry>,
}

impl View for Registry {
    type V = Seq<RegistryEntryV>;

    open spec fn view(&self) -> Seq<RegistryEntryV> {
        Seq::new(self.entries@.len(), |i: int| self.entries@[i]@)
    }
}

/// Registering under a taken name replaces that entry in place; a fresh
/// name is inserted at its sorted position, so a registry built by `add`
/// keeps its entries in ascending name order.
pub open spec fn spec_registry_add(
    es: Seq<RegistryEntryV>,
    e: RegistryEntryV,
) -> Seq<RegistryEntryV>
    decreases es.len(),
{
    if es.len() == 0 {
        seq![e]
    } else if es[0].name == e.name {
        seq![e] + es.drop_first()
    } else if lex_lt(e.name, es[0].name) {
        seq![e] + es
    } else {
        seq![es[0]] + spec_registry_add(es.drop_first(), e)
    }
}

/// Whether a registry's entries are in strictly ascending name order.
pub open spec fn registry_sorted(es: Seq<RegistryEntryV>) -> bool {
    forall|i: int| 0 <= i < es.len() - 1 ==> lex_lt(#[trigger] es[i].name, es[i + 1].name)
}

/// The outcomes of matching a record against every entry, in entry order:
/// one pair per matching entry.
pub open spec fn spec_match_decode(es: Seq<RegistryEntryV>, l: LogRecordV) -> Seq<
    (Seq<char>, Result<Seq<(Seq<char>, ValueV)>, DecodeError>),
>
    decreases es.len(),
{
    if es.len() == 0 {
        Seq::empty()
    } else {
        (if spec_matches(es[0].filter, l) {
            seq![(es[0].name, spec_decode(l, es[0].decoder))]
        } else {
            Seq::empty()
        }) + spec_match_decode(es.drop_first(), l)
    }
}

/// One match-and-decode outcome: the entry's name and what its decoder made
/// of the record.
pub struct MatchOutcome {
    pub name: String,
    pub result: Result<Vec<(String, Value)>, DecodeError>,
}

/// Mathematical model of one match-and-decode outcome.
pub open spec fn outcome_view(o: MatchOutcome) -> (Seq<char>, Result<
    Seq<(Seq<char>, ValueV)>,
    DecodeError,
>) {
    (
        o.name@,
        match o.result {
            Ok(vs) => Ok(Seq::new(vs@.len(), |k: int| (vs@[k].0@, vs@[k].1@))),
            Err(e) => Err(e),
        },
    )
}

impl Registry {
    /// The empty registry.
    pub fn new() -> (r: Self)
        ensures
            r@ == Seq::<RegistryEntryV>::empty(),
    {
        let r = Registry { entries: Vec::new() };
        proof {
            assert(r@ =~= Seq::<RegistryEntryV>::empty());
        }
        r
    }

    /// Registers `(name, filter, decoder)`. A repeated name overwrites its
    /// earlier registration — only the last one is ever applied — and a
    /// fresh name takes its sorted position, so the entries stay in
    /// ascending name order.
    pub fn add(&mut self, name: String, filter: Filter, decoder: Decoder)
        ensures
            final(self)@ == spec_registry_add(
                old(self)@,
                RegistryEntryV { name: name@, filter: filter@, decoder: decoder@ },
            ),
    {
        let ghost old_es = self@;
        let ghost e = RegistryEntryV { name: name@, filter: filter@, decoder: decoder@ };
        let mut i: usize = 0;
        let n = self.entries.len();
        while i < n
            invariant
                n == self.entries@.len(),
                i <= n,
                self@ == old_es,
                old_es == old(self)@,
                e == (RegistryEntryV { name: name@, filter: filter@, decoder: decoder@ }),
                forall|j: int| 0 <= j < i ==> lex_lt(#[trigger] old_es[j].name, name@),
            decreases n - i,
        {
            if self.entries[i].name.eq(&name) {
                proof {
                    assert(self@[i as int] == self.entries@[i as int]@);
                    assert(old_es[i as int].name == name@);
                }
                let _ = self.entries.remove(i);
                self.entries.insert(i, RegistryEntry { name, filter, decoder });
                proof {
                    lemma_registry_add_at(old_es, e, i as int);
                    assert(self@ =~= old_es.update(i as int, e));
                }
                return ;
            }
            if !string_lt(&self.entries[i].name, &name) {
                // This entry orders after the new name: insert before it.
                proof {
                    assert(self@[i as int] == self.entries@[i as int]@);
                    lemma_lex_trichotomy(old_es[i as int].name, name@);
                    assert(lex_lt(name@, old_es[i as int].name));
                }
                self.entries.insert(i, RegistryEntry { name, filter, decoder });
                proof {
                    lemma_registry_add_insert(old_es, e, i as int);
                    assert(self@ =~= old_es.take(i as int) + seq![e] + old_es.skip(i as int));
                }
                return ;
            }
            i = i + 1;
        }
        self.entries.push(RegistryEntry { name, filter, decoder });
        proof {
            lemma_registry_add_insert(old_es, e, n as int);
            assert(old_es.take(n as int) =~= old_es);
            assert(old_es.skip(n as int) =~= Seq::<RegistryEntryV>::empty());
            assert(self@ =~= old_es.take(n as int) + seq![e] + old_es.skip(n as int));
        }
    }

    /// Matches `log` against every entry in order; for each entry whose
    /// filter matches, yields the entry's name with its decoder's outcome.
    /// One entry's decode error never hides another entry's outcome.
    pub fn match_and_decode(&self, log: &LogRecord) -> (r: Vec<MatchOutcome>)
        requires
            log.wf(),
        ensures
            Seq::new(r@.len(), |k: int| outcome_view(r@[k])) == spec_match_decode(self@, log@),
    {
        let r = self.match_decode_from(log, 0);
        proof {
            assert(self@.skip(0) =~= self@);
        }
        r
    }

    /// Matches `log` against the entries from index `i` on.
    fn match_decode_from(&self, log: &LogRecord, i: usize) -> (r: Vec<MatchOutcome>)
        requires
            log.wf(),
            i <= self.entries@.len(),
        ensures
            Seq::new(r@.len(), |k: int| outcome_view(r@[k])) == spec_match_decode(
                self@.skip(i as int),
                log@,
            ),
        decreases self.entries@.len() - i,
    {
        let ghost model = self@.skip(i as int);
        if i == self.entries.len() {
            let out: Vec<MatchOutcome> = Vec::new();
            proof {
                assert(Seq::new(out@.len(), |k: int| outcome_view(out@[k])) =~= spec_match_decode(
                    model,
                    log@,
                ));
            }
            out
        } else {
            proof {
                assert(model[0] == self@[i as int]);
                assert(model.drop_first() =~= self@.skip(i + 1));
            }
            let entry = &self.entries[i];
            let mut rest = self.match_decode_from(log, i + 1);
            if entry.filter.matches(log) {
                let outcome = MatchOutcome {
                    name: copy_string(&entry.name),
                    result: decode(log, &entry.decoder),
                };
                let ghost ov = outcome_view(outcome);
                rest.insert(0, outcome);
                proof {
                    assert(Seq::new(rest@.len(), |k: int| outcome_view(rest@[k])) =~= seq![ov]
                        + Seq::new((rest@.len() - 1) as nat, |k: int| outcome_view(rest@[k + 1])));
                    assert(seq![ov] =~= seq![
                        (self@[i as int].name, spec_decode(log@, self@[i as int].decoder)),
                    ]);
                }
            } else {
                proof {
                    assert(Seq::new(rest@.len(), |k: int| outcome_view(rest@[k]))
                        =~= spec_match_decode(model, log@));
                }
            }
            rest
        }
    }
}

/// When every entry before index `i` orders strictly before `e.name` and
/// entry `i` carries it, registering updates exactly that entry.
proof fn lemma_registry_add_at(es: Seq<RegistryEntryV>, e: RegistryEntryV, i: int)
    requires
        0 <= i < es.len(),
        es[i].name == e.name,
        forall|j: int| 0 <= j < i ==> lex_lt(#[trigger] es[j].name, e.name),
    ensures
        spec_registry_add(es, e) == es.update(i, e),
    decreases i,
{
    if i == 0 {
        assert(spec_registry_add(es, e) =~= es.update(0, e));
    } else {
        lemma_lex_trichotomy(es[0].name, e.name);
        assert(es[0].name != e.name && !lex_lt(e.name, es[0].name));
        lemma_registry_add_at(es.drop_first(), e, i - 1);
        assert(spec_registry_add(es, e) =~= es.update(i, e));
    }
}

/// When every entry before index `i` orders strictly before `e.name` and
/// entry `i`, if any, orders strictly after it, registering inserts at
/// index `i`.
proof fn lemma_registry_add_insert(es: Seq<RegistryEntryV>, e: RegistryEntryV, i: int)
    requires
        0 <= i <= es.len(),
        forall|j: int| 0 <= j < i ==> lex_lt(#[trigger] es[j].name, e.name),
        i < es.len() ==> lex_lt(e.name, es[i].name),
    ensures
        spec_registry_add(es, e) == es.take(i) + seq![e] + es.skip(i),
    decreases i,
{
    if i == 0 {
        if es.len() == 0 {
            assert(spec_registry_add(es, e) =~= es.take(0) + seq![e] + es.skip(0));
        } else {
            lemma_lex_trichotomy(e.name, es[0].name);
            assert(es[0].name != e.name);
            assert(spec_registry_add(es, e) =~= es.take(0) + seq![e] + es.skip(0));
        }
    } else {
        lemma_lex_trichotomy(es[0].name, e.name);
        assert(es[0].name != e.name && !lex_lt(e.name, es[0].name));
        assert(es.drop_first().take(i - 1) =~= es.subrange(1, i));
        assert(i - 1 < es.drop_first().len() ==> es.drop_first()[i - 1] == es[i]);
        lemma_registry_add_insert(es.drop_first(), e, i - 1);
        assert(es.drop_first().skip(i - 1) =~= es.skip(i));
        assert(spec_registry_add(es, e) =~= es.take(i) + seq![e] + es.skip(i));
    }
}

/// The first entry after a registration carries the registered name or the
/// old first name.
proof fn lemma_registry_add_head(es: Seq<RegistryEntryV>, e: RegistryEntryV)
    ensures
        spec_registry_add(es, e).len() >= 1,
        spec_registry_add(es, e)[0].name == e.name || (es.len() > 0 && spec_registry_add(
            es,
            e,
        )[0].name == es[0].name),
    decreases es.len(),
{
    if es.len() > 0 && es[0].name != e.name && !lex_lt(e.name, es[0].name) {
        lemma_registry_add_head(es.drop_first(), e);
    }
}

/// Registering keeps a sorted registry sorted: matching and yielding walk
/// the entries in ascending name order.
pub proof fn lemma_registry_add_sorted(es: Seq<RegistryEntryV>, e: RegistryEntryV)
    requires
        registry_sorted(es),
    ensures
        registry_sorted(spec_registry_add(es, e)),
    decreases es.len(),
{
    let r = spec_registry_add(es, e);
    if es.len() == 0 {
    } else if es[0].name == e.name {
        assert(forall|i: int| 0 <= i < r.len() - 1 ==> r[i].name == es[i].name);
    } else if lex_lt(e.name, es[0].name) {
        assert(forall|i: int| 1 <= i < r.len() ==> r[i] == es[i - 1]);
        assert(forall|i: int|
            1 <= i < r.len() - 1 ==> lex_lt(#[trigger] r[i].name, r[i + 1].name));
    } else {
        lemma_lex_trichotomy(es[0].name, e.name);
        assert(lex_lt(es[0].name, e.name));
        assert(forall|i: int|
            0 <= i < es.drop_first().len() - 1 ==> lex_lt(
                #[trigger] es.drop_first()[i].name,
                es.drop_first()[i + 1].name,
            ));
        lemma_registry_add_sorted(es.drop_first(), e);
        lemma_registry_add_head(es.drop_first(), e);
        let rest = spec_registry_add(es.drop_first(), e);
        assert(r[0] == es[0]);
        assert(forall|i: int| 1 <= i < r.len() ==> r[i] == rest[i - 1]);
        if rest[0].name == e.name {
            assert(lex_lt(r[0].name, r[1].name));
        } else {
            assert(rest[0].name == es[1].name);
            assert(lex_lt(r[0].name, r[1].name));
        }
        assert(forall|i: int|
            1 <= i < r.len() - 1 ==> lex_lt(#[trigger] r[i].name, r[i + 1].name));
    }
}

/// Adjacent ascending order gives pairwise ascending order.
proof fn lemma_registry_sorted_pair(es: Seq<RegistryEntryV>, i: int, j: int)
    requires
        registry_sorted(es),
        0 <= i < j < es.len(),
    ensures
        lex_lt(es[i].name, es[j].name),
    decreases j - i,
{
    if j == i + 1 {
    } else {
        lemma_registry_sorted_pair(es, i, j - 1);
        lemma_lex_transitive(es[i].name, es[j - 1].name, es[j].name);
    }
}

/// Helper of `lemma_match_decode_ordered`, threading a strict lower bound
/// on every entry name.
proof fn lemma_match_ordered_from(es: Seq<RegistryEntryV>, l: LogRecordV, lo: Option<Seq<char>>)
    requires
        forall|i: int, j: int| 0 <= i < j < es.len() ==> lex_lt(es[i].name, es[j].name),
        (match lo {
            Some(x) => forall|i: int| 0 <= i < es.len() ==> lex_lt(x, (#[trigger] es[i]).name),
            None => true,
        }),
    ensures
        forall|i: int, j: int|
            0 <= i < j < spec_match_decode(es, l).len() ==> lex_lt(
                spec_match_decode(es, l)[i].0,
                spec_match_decode(es, l)[j].0,
            ),
        (match lo {
            Some(x) => forall|k: int|
                0 <= k < spec_match_decode(es, l).len() ==> lex_lt(
                    x,
                    (#[trigger] spec_match_decode(es, l)[k]).0,
                ),
            None => true,
        }),
    decreases es.len(),
{
    if es.len() > 0 {
        let r = spec_match_decode(es, l);
        let rest = spec_match_decode(es.drop_first(), l);
        assert(forall|i: int, j: int|
            0 <= i < j < es.drop_first().len() ==> lex_lt(
                es.drop_first()[i].name,
                es.drop_first()[j].name,
            ));
        if spec_matches(es[0].filter, l) {
            assert(forall|i: int|
                0 <= i < es.drop_first().len() ==> lex_lt(
                    es[0].name,
                    (#[trigger] es.drop_first()[i]).name,
                ));
            lemma_match_ordered_from(es.drop_first(), l, Some(es[0].name));
            assert(r[0].0 == es[0].name);
            assert(forall|k: int| 1 <= k < r.len() ==> r[k] == rest[k - 1]);
            match lo {
                Some(x) => {
                    assert forall|k: int| 0 <= k < rest.len() implies lex_lt(
                        x,
                        (#[trigger] rest[k]).0,
                    ) by {
                        lemma_lex_transitive(x, es[0].name, rest[k].0);
                    }
                },
                None => {},
            }
        } else {
            lemma_match_ordered_from(es.drop_first(), l, lo);
            assert(forall|k: int| 0 <= k < r.len() ==> r[k] == rest[k]);
        }
    }
}

/// Matching against a name-sorted registry yields its outcomes under
/// strictly ascending names: the logger's accumulation and the streaming
/// consumer's per-record yields walk the entries in ascending name order.
pub proof fn lemma_match_decode_ordered(es: Seq<RegistryEntryV>, l: LogRecordV)
    requires
        registry_sorted(es),
    ensures
        forall|i: int, j: int|
            0 <= i < j < spec_match_decode(es, l).len() ==> lex_lt(
                spec_match_decode(es, l)[i].0,
                spec_match_decode(es, l)[j].0,
            ),
{
    assert forall|i: int, j: int| 0 <= i < j < es.len() implies lex_lt(
        es[i].name,
        es[j].name,
    ) by {
        lemma_registry_sorted_pair(es, i, j);
    }
    lemma_match_ordered_from(es, l, None);
}

/// Only the most recent registration under a name is ever applied: after a
/// second `add` under the same name, matching consults the second entry's
/// filter and decoder wherever the first stood.
pub proof fn lemma_add_overwrites(es: Seq<RegistryEntryV>, e1: RegistryEntryV, e2: RegistryEntryV)
    requires
        e1.name == e2.name,
    ensures
        spec_registry_add(spec_registry_add(es, e1), e2) == spec_registry_add(es, e2),
    decreases es.len(),
{
    if es.len() == 0 {
        assert(spec_registry_add(spec_registry_add(es, e1), e2) =~= spec_registry_add(es, e2));
    } else if es[0].name == e1.name {
        assert(spec_registry_add(es, e1).drop_first() =~= es.drop_first());
        assert(spec_registry_add(spec_registry_add(es, e1), e2) =~= spec_registry_add(es, e2));
    } else if lex_lt(e1.name, es[0].name) {
        assert(spec_registry_add(es, e1).drop_first() =~= es);
        assert(spec_registry_add(spec_registry_add(es, e1), e2) =~= spec_registry_add(es, e2));
    } else {
        lemma_add_overwrites(es.drop_first(), e1, e2);
        assert(spec_registry_add(es, e1).drop_first() =~= spec_registry_add(es.drop_first(), e1));
        assert(spec_registry_add(spec_registry_add(es, e1), e2) =~= spec_registry_add(es, e2));
    }
}

} // verus!
