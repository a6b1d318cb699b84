//! The CSV sink format: flattening the accumulated map into a tidy/long
//! table — one row per (stream name, event name, value), columns
//! `contract_name`, `event_name`, `event_value` (the value as stringified
//! JSON scalar) — and rendering that table as CSV text. A cell is quoted
//! only when it holds a separator, a quote, or a line break, with quotes
//! doubled, as the usual writers do.

use vstd::prelude::*;

use crate::accum::{EventMap, SeriesEntry, SeriesV, StreamEntry, StreamV};
use crate::json::spec_scalar;
use crate::value::{copy_string, Value, ValueV};

verus! {

/// Mathematical model of one output row.
pub struct RowV {
    pub contract_name: Seq<char>,
    pub event_name: Seq<char>,
    pub event_value: Seq<char>,
}

/// One row of the tidy/long output table.
pub struct Row {
    pub contract_name: String,
    pub event_name: String,
    pub event_value: String,
}

impl View for Row {
    type V = RowV;

    open spec fn view(&self) -> RowV {
        RowV {
            contract_name: self.contract_name@,
            event_name: self.event_name@,
            event_value: self.event_value@,
        }
    }
}

/// The rows one series contributes: one per value, in append order.
pub open spec fn rows_of_values(stream: Seq<char>, event: Seq<char>, vs: Seq<ValueV>) -> Seq<RowV> {
    Seq::new(
        vs.len(),
        |i: int| RowV { contract_name: stream, event_name: event, event_value: spec_scalar(vs[i]) },
    )
}

/// The rows one stream contributes, series by series.
pub open spec fn rows_of_series(stream: Seq<char>, ss: Seq<SeriesV>) -> Seq<RowV>
    decreases ss.len(),
{
    if ss.len() == 0 {
        Seq::empty()
    } else {
        rows_of_values(stream, ss[0].name, ss[0].values) + rows_of_series(stream, ss.drop_first())
    }
}

/// The whole table, stream by stream.
pub open spec fn spec_flatten(sts: Seq<StreamV>) -> Seq<RowV>
    decreases sts.len(),
{
    if sts.len() == 0 {
        Seq::empty()
    } else {
        rows_of_series(sts[0].name, sts[0].series) + spec_flatten(sts.drop_first())
    }
}

/// Appends the rows of the values of one series from index `i` on.
fn flatten_values_from(
    out: &mut Vec<Row>,
    stream: &String,
    event: &String,
    vs: &Vec<Value>,
    i: usize,
)
    requires
        i <= vs@.len(),
    ensures
        Seq::new(final(out)@.len(), |k: int| final(out)@[k]@) == Seq::new(
            old(out)@.len(),
            |k: int| old(out)@[k]@,
        ) + rows_of_values(
            stream@,
            event@,
            Seq::new(vs@.len(), |k: int| vs@[k]@),
        ).skip(i as int),
    decreases vs@.len() - i,
{
    let ghost model = rows_of_values(stream@, event@, Seq::new(vs@.len(), |k: int| vs@[k]@));
    if i < vs.len() {
        let text = crate::json::render_scalar(&vs[i]);
        out.push(
            Row {
                contract_name: copy_string(stream),
                event_name: copy_string(event),
                event_value: text,
            },
        );
        flatten_values_from(out, stream, event, vs, i + 1);
        proof {
            assert(model.skip(i as int) =~= seq![model[i as int]] + model.skip(i + 1));
            assert(Seq::new(final(out)@.len(), |k: int| final(out)@[k]@) =~= Seq::new(
                old(out)@.len(),
                |k: int| old(out)@[k]@,
            ) + model.skip(i as int));
        }
    } else {
        proof {
            assert(model.skip(i as int).len() == 0);
            assert(Seq::new(final(out)@.len(), |k: int| final(out)@[k]@) =~= Seq::new(
                old(out)@.len(),
                |k: int| old(out)@[k]@,
            ) + model.skip(i as int));
        }
    }
}

/// Appends the rows of one stream's series from index `i` on.
fn flatten_series_from(out: &mut Vec<Row>, stream: &String, ss: &Vec<SeriesEntry>, i: usize)
    requires
        i <= ss@.len(),
    ensures
        Seq::new(final(out)@.len(), |k: int| final(out)@[k]@) == Seq::new(
            old(out)@.len(),
            |k: int| old(out)@[k]@,
        ) + rows_of_series(stream@, Seq::new(ss@.len(), |k: int| ss@[k]@).skip(i as int)),
    decreases ss@.len() - i,
{
    let ghost model = Seq::new(ss@.len(), |k: int| ss@[k]@);
    if i < ss.len() {
        flatten_values_from(out, stream, &ss[i].name, &ss[i].values, 0);
        flatten_series_from(out, stream, ss, i + 1);
        proof {
            assert(model.skip(i as int)[0] == model[i as int]);
            assert(model.skip(i as int).drop_first() =~= model.skip(i + 1));
            assert(rows_of_values(stream@, ss@[i as int].name@, Seq::new(
                ss@[i as int].values@.len(),
                |k: int| ss@[i as int].values@[k]@,
            )).skip(0) =~= rows_of_values(stream@, model[i as int].name, model[i as int].values));
            assert(Seq::new(final(out)@.len(), |k: int| final(out)@[k]@) =~= Seq::new(
                old(out)@.len(),
                |k: int| old(out)@[k]@,
            ) + rows_of_series(stream@, model.skip(i as int)));
        }
    } else {
        proof {
            assert(rows_of_series(stream@, model.skip(i as int)).len() == 0);
            assert(Seq::new(final(out)@.len(), |k: int| final(out)@[k]@) =~= Seq::new(
                old(out)@.len(),
                |k: int| old(out)@[k]@,
            ) + rows_of_series(stream@, model.skip(i as int)));
        }
    }
}

/// Appends the rows of the streams from index `i` on.
fn flatten_streams_from(out: &mut Vec<Row>, sts: &Vec<StreamEntry>, i: usize)
    requires
        i <= sts@.len(),
    ensures
        Seq::new(final(out)@.len(), |k: int| final(out)@[k]@) == Seq::new(
            old(out)@.len(),
            |k: int| old(out)@[k]@,
        ) + spec_flatten(Seq::new(sts@.len(), |k: int| sts@[k]@).skip(i as int)),
    decreases sts@.len() - i,
{
    let ghost model = Seq::new(sts@.len(), |k: int| sts@[k]@);
    if i < sts.len() {
        flatten_series_from(out, &sts[i].name, &sts[i].series, 0);
        flatten_streams_from(out, sts, i + 1);
        proof {
            assert(model.skip(i as int)[0] == model[i as int]);
            assert(model.skip(i as int).drop_first() =~= model.skip(i + 1));
            assert(Seq::new(sts@[i as int].series@.len(), |k: int| sts@[i as int].series@[k]@).skip(
                0,
            ) =~= model[i as int].series);
            assert(Seq::new(final(out)@.len(), |k: int| final(out)@[k]@) =~= Seq::new(
                old(out)@.len(),
                |k: int| old(out)@[k]@,
            ) + spec_flatten(model.skip(i as int)));
        }
    } else {
        proof {
            assert(spec_flatten(model.skip(i as int)).len() == 0);
            assert(Seq::new(final(out)@.len(), |k: int| final(out)@[k]@) =~= Seq::new(
                old(out)@.len(),
                |k: int| old(out)@[k]@,
            ) + spec_flatten(model.skip(i as int)));
        }
    }
}

/// Flattens the accumulated map into the tidy/long table: one row per
/// (stream name, event name, value), in map order — ascending stream and
/// event name for any map built by `append`.
pub fn flatten_rows(m: &EventMap) -> (r: Vec<Row>)
    ensures
        Seq::new(r@.len(), |k: int| r@[k]@) == spec_flatten(m@.streams),
{
    let mut out: Vec<Row> = Vec::new();
    flatten_streams_from(&mut out, &m.streams, 0);
    proof {
        assert(Seq::new(m.streams@.len(), |k: int| m.streams@[k]@).skip(0) =~= m@.streams);
        assert(Seq::new(out@.len(), |k: int| out@[k]@) =~= Seq::<RowV>::empty() + spec_flatten(
            m@.streams,
        ));
        assert(Seq::<RowV>::empty() + spec_flatten(m@.streams) =~= spec_flatten(m@.streams));
    }
    out
}

/// Whether a cell's character forces quoting: the separator, the quote
/// itself, or a line break.
pub open spec fn is_special(c: char) -> bool {
    c == ',' || c == '"' || c == '\n' || c == '\r'
}

/// Whether a cell needs quoting.
pub open spec fn needs_quote(s: Seq<char>) -> bool {
    exists|i: int| 0 <= i < s.len() && is_special(#[trigger] s[i])
}

/// One character of a cell: a quote is doubled, everything else passes.
pub open spec fn dq_char(c: char) -> Seq<char> {
    if c == '"' {
        seq!['"', '"']
    } else {
        seq![c]
    }
}

/// A cell's text with every quote doubled.
pub open spec fn spec_dq(s: Seq<char>) -> Seq<char>
    decreases s.len(),
{
    if s.len() == 0 {
        Seq::empty()
    } else {
        dq_char(s[0]) + spec_dq(s.drop_first())
    }
}

/// A CSV cell: quoted with doubled quotes when it holds a separator, a
/// quote, or a line break; written as is otherwise.
pub open spec fn spec_cell(s: Seq<char>) -> Seq<char> {
    if needs_quote(s) {
        seq!['"'] + spec_dq(s) + seq!['"']
    } else {
        s
    }
}

/// One CSV line: the three cells, comma-separated, newline-terminated.
pub open spec fn spec_line(r: RowV) -> Seq<char> {
    spec_cell(r.contract_name) + seq![','] + spec_cell(r.event_name) + seq![','] + spec_cell(
        r.event_value,
    ) + seq!['\n']
}

/// The data lines of the table.
pub open spec fn spec_lines(rows: Seq<RowV>) -> Seq<char>
    decreases rows.len(),
{
    if rows.len() == 0 {
        Seq::empty()
    } else {
        spec_line(rows[0]) + spec_lines(rows.drop_first())
    }
}

/// The header line naming the three columns.
pub open spec fn csv_header() -> Seq<char> {
    "contract_name,event_name,event_value\n"@
}

/// The full CSV text of a table.
pub open spec fn spec_csv(rows: Seq<RowV>) -> Seq<char> {
    csv_header() + spec_lines(rows)
}

/// Doubling one more character's quotes appends its doubling.
proof fn lemma_dq_snoc(s: Seq<char>, c: char)
    ensures
        spec_dq(s.push(c)) == spec_dq(s) + dq_char(c),
    decreases s.len(),
{
    if s.len() == 0 {
        assert(s.push(c).drop_first() =~= Seq::<char>::empty());
        assert(s.push(c)[0] == c);
        assert(spec_dq(s.push(c)) == dq_char(c) + spec_dq(Seq::<char>::empty()));
        assert(dq_char(c) + Seq::<char>::empty() =~= dq_char(c));
        assert(spec_dq(s) + dq_char(c) =~= dq_char(c));
    } else {
        assert(s.push(c).drop_first() =~= s.drop_first().push(c));
        assert(s.push(c)[0] == s[0]);
        lemma_dq_snoc(s.drop_first(), c);
        assert(spec_dq(s.push(c)) == dq_char(s[0]) + (spec_dq(s.drop_first()) + dq_char(c)));
        assert(dq_char(s[0]) + (spec_dq(s.drop_first()) + dq_char(c)) =~= (dq_char(s[0]) + spec_dq(
            s.drop_first(),
        )) + dq_char(c));
    }
}

/// Whether a cell's text forces quoting.
fn has_special(s: &str) -> (r: bool)
    ensures
        r == needs_quote(s@),
{
    let n = s.unicode_len();
    let mut i: usize = 0;
    while i < n
        invariant
            n == s@.len(),
            i <= n,
            forall|j: int| 0 <= j < i ==> !is_special(#[trigger] s@[j]),
        decreases n - i,
    {
        let c = s.get_char(i);
        if c == ',' || c == '"' || c == '\n' || c == '\r' {
            proof {
                assert(is_special(s@[i as int]));
            }
            return true;
        }
        i = i + 1;
    }
    false
}

/// Writes one cell onto `out`, quoting it only when its text demands it.
fn enc_cell(out: &mut String, s: &str)
    ensures
        final(out)@ == old(out)@ + spec_cell(s@),
{
    if !has_special(s) {
        out.append(s);
        return ;
    }
    proof {
        reveal_strlit("\"");
    }
    out.append("\"");
    let n = s.unicode_len();
    let mut i: usize = 0;
    while i < n
        invariant
            n == s@.len(),
            i <= n,
            out@ == old(out)@ + seq!['"'] + spec_dq(s@.take(i as int)),
        decreases n - i,
    {
        let c = s.get_char(i);
        proof {
            reveal_strlit("\"\"");
            assert(s@.take(i + 1) =~= s@.take(i as int).push(s@[i as int]));
            lemma_dq_snoc(s@.take(i as int), s@[i as int]);
        }
        if c == '"' {
            out.append("\"\"");
            proof {
                assert("\"\""@ =~= dq_char(c));
                assert(out@ =~= old(out)@ + seq!['"'] + spec_dq(s@.take(i + 1)));
            }
        } else {
            let piece = s.substring_char(i, i + 1);
            out.append(piece);
            proof {
                assert(piece@ =~= dq_char(c));
                assert(out@ =~= old(out)@ + seq!['"'] + spec_dq(s@.take(i + 1)));
            }
        }
        i = i + 1;
    }
    out.append("\"");
    proof {
        assert(s@.take(n as int) =~= s@);
        assert(out@ =~= old(out)@ + (seq!['"'] + spec_dq(s@) + seq!['"']));
    }
}

/// Writes the data lines from row `i` on onto `out`.
fn enc_lines_from(out: &mut String, rows: &Vec<Row>, i: usize)
    requires
        i <= rows@.len(),
    ensures
        final(out)@ == old(out)@ + spec_lines(Seq::new(rows@.len(), |k: int| rows@[k]@).skip(i as int)),
    decreases rows@.len() - i,
{
    let ghost model = Seq::new(rows@.len(), |k: int| rows@[k]@);
    if i < rows.len() {
        proof {
            reveal_strlit(",");
            reveal_strlit("\n");
        }
        enc_cell(out, rows[i].contract_name.as_str());
        out.append(",");
        enc_cell(out, rows[i].event_name.as_str());
        out.append(",");
        enc_cell(out, rows[i].event_value.as_str());
        out.append("\n");
        let ghost mid = out@;
        proof {
            assert(","@ =~= seq![',']);
            assert("\n"@ =~= seq!['\n']);
            assert(mid =~= old(out)@ + spec_line(model[i as int]));
        }
        enc_lines_from(out, rows, i + 1);
        proof {
            assert(model.skip(i as int)[0] == model[i as int]);
            assert(model.skip(i as int).drop_first() =~= model.skip(i + 1));
            assert(out@ =~= old(out)@ + spec_lines(model.skip(i as int)));
        }
    } else {
        proof {
            assert(spec_lines(model.skip(i as int)).len() == 0);
            assert(out@ =~= old(out)@ + spec_lines(model.skip(i as int)));
        }
    }
}

/// Renders a flattened table as CSV text, exactly `spec_csv` of its rows.
pub fn render_csv(rows: &Vec<Row>) -> (r: String)
    ensures
        r@ == spec_csv(Seq::new(rows@.len(), |k: int| rows@[k]@)),
{
    let mut out = String::new();
    out.append("contract_name,event_name,event_value\n");
    enc_lines_from(&mut out, rows, 0);
    proof {
        assert(Seq::new(rows@.len(), |k: int| rows@[k]@).skip(0) =~= Seq::new(
            rows@.len(),
            |k: int| rows@[k]@,
        ));
        assert(out@ =~= spec_csv(Seq::new(rows@.len(), |k: int| rows@[k]@)));
    }
    out
}

} // verus!
