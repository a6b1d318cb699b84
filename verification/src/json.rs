//! The JSON sink format: rendering the accumulated map (plus optional
//! metadata) to text, parsing that text back, and the proof that parsing
//! inverts rendering.
//!
//! The emitted shape is `{"events":{<stream>:{<event>:[<value>,...],...},...},
//! "metadata":<scalar>}` with scalar values `null`, `true`, `false`, decimal
//! integers, and quoted strings. Quotes, backslashes, and control characters
//! in strings are escaped; all other characters pass through unchanged.

use vstd::prelude::*;

use crate::accum::{EventMap, EventMapV, SeriesEntry, SeriesV, StreamEntry, StreamV};
use crate::value::{
    digit_char, digit_val, is_digit_char, dec_string, digit_str, lemma_dec_digits, spec_dec,
    try_digit_val, Value, ValueV,
};

verus! {

/// The character for hexadecimal digit `d` (lowercase).
pub open spec fn hex_char(d: nat) -> char {
    if d < 10 {
        digit_char(d)
    } else if d == 10 {
        'a'
    } else if d == 11 {
        'b'
    } else if d == 12 {
        'c'
    } else if d == 13 {
        'd'
    } else if d == 14 {
        'e'
    } else {
        'f'
    }
}

/// Whether `c` is a lowercase hexadecimal digit character.
pub open spec fn is_hex_char(c: char) -> bool {
    is_digit_char(c) || c == 'a' || c == 'b' || c == 'c' || c == 'd' || c == 'e' || c == 'f'
}

/// The numeric value of hexadecimal digit character `c`.
pub open spec fn hex_val(c: char) -> nat {
    if is_digit_char(c) {
        digit_val(c)
    } else if c == 'a' {
        10
    } else if c == 'b' {
        11
    } else if c == 'c' {
        12
    } else if c == 'd' {
        13
    } else if c == 'e' {
        14
    } else {
        15
    }
}

/// The escape of one character inside a quoted string.
pub open spec fn esc_char(c: char) -> Seq<char> {
    if c == '"' {
        seq!['\\', '"']
    } else if c == '\\' {
        seq!['\\', '\\']
    } else if (c as u32) < 32 {
        seq!['\\', 'u', '0', '0', hex_char((c as u32 / 16) as nat), hex_char((c as u32 % 16) as nat)]
    } else {
        seq![c]
    }
}

/// The escaped body of a quoted string.
pub open spec fn spec_escape(s: Seq<char>) -> Seq<char>
    decreases s.len(),
{
    if s.len() == 0 {
        Seq::empty()
    } else {
        esc_char(s[0]) + spec_escape(s.drop_first())
    }
}

/// A quoted, escaped JSON string.
pub open spec fn spec_quote(s: Seq<char>) -> Seq<char> {
    seq!['"'] + spec_escape(s) + seq!['"']
}

/// The rendering of one scalar value.
pub open spec fn spec_scalar(v: ValueV) -> Seq<char> {
    match v {
        ValueV::Null => seq!['n', 'u', 'l', 'l'],
        ValueV::Bool(b) => if b {
            seq!['t', 'r', 'u', 'e']
        } else {
            seq!['f', 'a', 'l', 's', 'e']
        },
        ValueV::UInt(n) => spec_dec(n),
        ValueV::Str(s) => spec_quote(s),
    }
}

/// Comma-separated renderings of a value sequence.
pub open spec fn spec_values_body(vs: Seq<ValueV>) -> Seq<char>
    decreases vs.len(),
{
    if vs.len() == 0 {
        Seq::empty()
    } else if vs.len() == 1 {
        spec_scalar(vs[0])
    } else {
        spec_scalar(vs[0]) + seq![','] + spec_values_body(vs.drop_first())
    }
}

/// A JSON array of scalar values.
pub open spec fn spec_values(vs: Seq<ValueV>) -> Seq<char> {
    seq!['['] + spec_values_body(vs) + seq![']']
}

/// One `"event":[...]` member.
pub open spec fn spec_series(s: SeriesV) -> Seq<char> {
    spec_quote(s.name) + seq![':'] + spec_values(s.values)
}

/// Comma-separated series members.
pub open spec fn spec_series_body(ss: Seq<SeriesV>) -> Seq<char>
    decreases ss.len(),
{
    if ss.len() == 0 {
        Seq::empty()
    } else if ss.len() == 1 {
        spec_series(ss[0])
    } else {
        spec_series(ss[0]) + seq![','] + spec_series_body(ss.drop_first())
    }
}

/// A JSON object of series members.
pub open spec fn spec_series_obj(ss: Seq<SeriesV>) -> Seq<char> {
    seq!['{'] + spec_series_body(ss) + seq!['}']
}

/// One `"stream":{...}` member.
pub open spec fn spec_stream(st: StreamV) -> Seq<char> {
    spec_quote(st.name) + seq![':'] + spec_series_obj(st.series)
}

/// Comma-separated stream members.
pub open spec fn spec_streams_body(sts: Seq<StreamV>) -> Seq<char>
    decreases sts.len(),
{
    if sts.len() == 0 {
        Seq::empty()
    } else if sts.len() == 1 {
        spec_stream(sts[0])
    } else {
        spec_stream(sts[0]) + seq![','] + spec_streams_body(sts.drop_first())
    }
}

/// A JSON object of stream members.
pub open spec fn spec_streams_obj(sts: Seq<StreamV>) -> Seq<char> {
    seq!['{'] + spec_streams_body(sts) + seq!['}']
}

/// The full output document for an accumulated map and optional metadata.
pub open spec fn spec_output(m: EventMapV, metadata: Option<ValueV>) -> Seq<char> {
    seq!['{', '"', 'e', 'v', 'e', 'n', 't', 's', '"', ':'] + spec_streams_obj(m.streams) + seq![
        ',',
        '"',
        'm',
        'e',
        't',
        'a',
        'd',
        'a',
        't',
        'a',
        '"',
        ':',
    ] + (match metadata {
        Some(v) => spec_scalar(v),
        None => seq!['n', 'u', 'l', 'l'],
    }) + seq!['}']
}

/// A one-character string for hexadecimal digit `d`.
fn hex_str(d: u8) -> (r: &'static str)
    requires
        d < 16,
    ensures
        r@ == seq![hex_char(d as nat)],
{
    if d < 10 {
        digit_str(d)
    } else {
        proof {
            reveal_strlit("a");
            reveal_strlit("b");
            reveal_strlit("c");
            reveal_strlit("d");
            reveal_strlit("e");
            reveal_strlit("f");
        }
        let r = match d {
            10 => "a",
            11 => "b",
            12 => "c",
            13 => "d",
            14 => "e",
            _ => "f",
        };
        proof {
            assert(r@ =~= seq![hex_char(d as nat)]);
        }
        r
    }
}

/// Appending one more character escapes it after the rest.
proof fn lemma_escape_snoc(s: Seq<char>, c: char)
    ensures
        spec_escape(s.push(c)) == spec_escape(s) + esc_char(c),
    decreases s.len(),
{
    if s.len() == 0 {
        assert(s.push(c).drop_first() =~= Seq::<char>::empty());
        assert(s.push(c)[0] == c);
        assert(spec_escape(s.push(c)) == esc_char(c) + spec_escape(Seq::<char>::empty()));
        assert(esc_char(c) + Seq::<char>::empty() =~= esc_char(c));
        assert(spec_escape(s) + esc_char(c) =~= esc_char(c));
    } else {
        assert(s.push(c).drop_first() =~= s.drop_first().push(c));
        assert(s.push(c)[0] == s[0]);
        lemma_escape_snoc(s.drop_first(), c);
        assert(spec_escape(s.push(c)) == esc_char(s[0]) + (spec_escape(s.drop_first())
            + esc_char(c)));
        assert(esc_char(s[0]) + (spec_escape(s.drop_first()) + esc_char(c)) =~= (esc_char(s[0])
            + spec_escape(s.drop_first())) + esc_char(c));
    }
}

/// Writes the quoted, escaped rendering of `s` onto `out`.
fn enc_qstr(out: &mut String, s: &str)
    ensures
        final(out)@ == old(out)@ + spec_quote(s@),
{
    proof {
        reveal_strlit("\"");
        reveal_strlit("\\\"");
        reveal_strlit("\\\\");
        reveal_strlit("\\u00");
    }
    out.append("\"");
    let n = s.unicode_len();
    let mut i: usize = 0;
    while i < n
        invariant
            n == s@.len(),
            i <= n,
            out@ == old(out)@ + seq!['"'] + spec_escape(s@.take(i as int)),
        decreases n - i,
    {
        let c = s.get_char(i);
        proof {
            reveal_strlit("\"");
            reveal_strlit("\\\"");
            reveal_strlit("\\\\");
            reveal_strlit("\\u00");
            assert(s@.take(i + 1).drop_last() =~= s@.take(i as int));
            assert(s@.take(i + 1).last() == s@[i as int]);
            assert(s@.take(i + 1) =~= s@.take(i as int).push(s@[i as int]));
            lemma_escape_snoc(s@.take(i as int), s@[i as int]);
        }
        if c == '"' {
            out.append("\\\"");
            proof {
                assert("\\\""@ =~= esc_char(c));
                assert(out@ =~= old(out)@ + seq!['"'] + spec_escape(s@.take(i + 1)));
            }
        } else if c == '\\' {
            out.append("\\\\");
            proof {
                assert("\\\\"@ =~= esc_char(c));
                assert(out@ =~= old(out)@ + seq!['"'] + spec_escape(s@.take(i + 1)));
            }
        } else if (c as u32) < 32 {
            out.append("\\u00");
            out.append(hex_str((c as u32 / 16) as u8));
            out.append(hex_str((c as u32 % 16) as u8));
            proof {
                assert("\\u00"@ + seq![hex_char((c as u32 / 16) as nat)] + seq![
                    hex_char((c as u32 % 16) as nat),
                ] =~= esc_char(c));
                assert(out@ =~= old(out)@ + seq!['"'] + spec_escape(s@.take(i + 1)));
            }
        } else {
            let piece = s.substring_char(i, i + 1);
            out.append(piece);
            proof {
                assert(piece@ =~= esc_char(c));
                assert(out@ =~= old(out)@ + seq!['"'] + spec_escape(s@.take(i + 1)));
            }
        }
        i = i + 1;
    }
    out.append("\"");
    proof {
        assert(s@.take(n as int) =~= s@);
        assert(out@ =~= old(out)@ + spec_quote(s@));
    }
}

/// Writes the rendering of one scalar value onto `out`.
fn enc_scalar(out: &mut String, v: &Value)
    ensures
        final(out)@ == old(out)@ + spec_scalar(v@),
{
    match v {
        Value::Null => {
            proof {
                reveal_strlit("null");
            }
            out.append("null");
            proof {
                assert("null"@ =~= spec_scalar(v@));
            }
        },
        Value::Bool(b) => {
            proof {
                reveal_strlit("true");
                reveal_strlit("false");
            }
            if *b {
                out.append("true");
                proof {
                    assert("true"@ =~= spec_scalar(v@));
                }
            } else {
                out.append("false");
                proof {
                    assert("false"@ =~= spec_scalar(v@));
                }
            }
        },
        Value::UInt(n) => {
            let s = dec_string(*n);
            out.append(s.as_str());
        },
        Value::Str(s) => {
            enc_qstr(out, s.as_str());
        },
    }
}

/// Renders one scalar value as JSON text, exactly `spec_scalar` of its
/// view: `null`, `true`/`false`, the decimal digits, or the quoted string.
pub fn render_scalar(v: &Value) -> (r: String)
    ensures
        r@ == spec_scalar(v@),
{
    let mut out = String::new();
    enc_scalar(&mut out, v);
    proof {
        assert(out@ =~= spec_scalar(v@));
    }
    out
}

/// Writes the members of a value array from index `i` on onto `out`.
fn enc_values_from(out: &mut String, vs: &Vec<Value>, i: usize)
    requires
        i <= vs@.len(),
    ensures
        final(out)@ == old(out)@ + spec_values_body(
            Seq::new(vs@.len(), |k: int| vs@[k]@).skip(i as int),
        ),
    decreases vs@.len() - i,
{
    let ghost model = Seq::new(vs@.len(), |k: int| vs@[k]@);
    if i < vs.len() {
        enc_scalar(out, &vs[i]);
        if i + 1 < vs.len() {
            proof {
                reveal_strlit(",");
            }
            out.append(",");
            enc_values_from(out, vs, i + 1);
            proof {
                assert(model.skip(i as int).drop_first() =~= model.skip(i + 1));
                assert(","@ =~= seq![',']);
                assert(out@ =~= old(out)@ + spec_values_body(model.skip(i as int)));
            }
        } else {
            proof {
                assert(model.skip(i as int).len() == 1);
                assert(model.skip(i as int)[0] == vs@[i as int]@);
                assert(out@ =~= old(out)@ + spec_values_body(model.skip(i as int)));
            }
        }
    } else {
        proof {
            assert(model.skip(i as int).len() == 0);
            assert(out@ =~= old(out)@ + spec_values_body(model.skip(i as int)));
        }
    }
}

/// Writes one series member onto `out`.
fn enc_series(out: &mut String, s: &SeriesEntry)
    ensures
        final(out)@ == old(out)@ + spec_series(s@),
{
    proof {
        reveal_strlit(":");
        reveal_strlit("[");
        reveal_strlit("]");
    }
    enc_qstr(out, s.name.as_str());
    out.append(":");
    out.append("[");
    enc_values_from(out, &s.values, 0);
    out.append("]");
    proof {
        assert(Seq::new(s.values@.len(), |k: int| s.values@[k]@).skip(0) =~= s@.values);
        assert(":"@ =~= seq![':']);
        assert("["@ =~= seq!['[']);
        assert("]"@ =~= seq![']']);
        assert(out@ =~= old(out)@ + spec_series(s@));
    }
}

/// Writes the series members from index `i` on onto `out`.
fn enc_series_from(out: &mut String, ss: &Vec<SeriesEntry>, i: usize)
    requires
        i <= ss@.len(),
    ensures
        final(out)@ == old(out)@ + spec_series_body(
            Seq::new(ss@.len(), |k: int| ss@[k]@).skip(i as int),
        ),
    decreases ss@.len() - i,
{
    let ghost model = Seq::new(ss@.len(), |k: int| ss@[k]@);
    if i < ss.len() {
        enc_series(out, &ss[i]);
        if i + 1 < ss.len() {
            proof {
                reveal_strlit(",");
            }
            out.append(",");
            enc_series_from(out, ss, i + 1);
            proof {
                assert(model.skip(i as int).drop_first() =~= model.skip(i + 1));
                assert(","@ =~= seq![',']);
                assert(out@ =~= old(out)@ + spec_series_body(model.skip(i as int)));
            }
        } else {
            proof {
                assert(model.skip(i as int).len() == 1);
                assert(model.skip(i as int)[0] == ss@[i as int]@);
                assert(out@ =~= old(out)@ + spec_series_body(model.skip(i as int)));
            }
        }
    } else {
        proof {
            assert(model.skip(i as int).len() == 0);
            assert(out@ =~= old(out)@ + spec_series_body(model.skip(i as int)));
        }
    }
}

/// Writes one stream member onto `out`.
fn enc_stream(out: &mut String, st: &StreamEntry)
    ensures
        final(out)@ == old(out)@ + spec_stream(st@),
{
    proof {
        reveal_strlit(":");
        reveal_strlit("{");
        reveal_strlit("}");
    }
    enc_qstr(out, st.name.as_str());
    out.append(":");
    out.append("{");
    enc_series_from(out, &st.series, 0);
    out.append("}");
    proof {
        assert(Seq::new(st.series@.len(), |k: int| st.series@[k]@).skip(0) =~= st@.series);
        assert(":"@ =~= seq![':']);
        assert("{"@ =~= seq!['{']);
        assert("}"@ =~= seq!['}']);
        assert(out@ =~= old(out)@ + spec_stream(st@));
    }
}

/// Writes the stream members from index `i` on onto `out`.
fn enc_streams_from(out: &mut String, sts: &Vec<StreamEntry>, i: usize)
    requires
        i <= sts@.len(),
    ensures
        final(out)@ == old(out)@ + spec_streams_body(
            Seq::new(sts@.len(), |k: int| sts@[k]@).skip(i as int),
        ),
    decreases sts@.len() - i,
{
    let ghost model = Seq::new(sts@.len(), |k: int| sts@[k]@);
    if i < sts.len() {
        enc_stream(out, &sts[i]);
        if i + 1 < sts.len() {
            proof {
                reveal_strlit(",");
            }
            out.append(",");
            enc_streams_from(out, sts, i + 1);
            proof {
                assert(model.skip(i as int).drop_first() =~= model.skip(i + 1));
                assert(","@ =~= seq![',']);
                assert(out@ =~= old(out)@ + spec_streams_body(model.skip(i as int)));
            }
        } else {
            proof {
                assert(model.skip(i as int).len() == 1);
                assert(model.skip(i as int)[0] == sts@[i as int]@);
                assert(out@ =~= old(out)@ + spec_streams_body(model.skip(i as int)));
            }
        }
    } else {
        proof {
            assert(model.skip(i as int).len() == 0);
            assert(out@ =~= old(out)@ + spec_streams_body(model.skip(i as int)));
        }
    }
}

/// Renders the full output document for `m` and `metadata`, exactly
/// `spec_output` of their views.
pub fn render_json(m: &EventMap, metadata: &Option<Value>) -> (r: String)
    ensures
        r@ == spec_output(m@, match metadata {
            Some(v) => Some(v@),
            None => None,
        }),
{
    proof {
        reveal_strlit("{\"events\":");
        reveal_strlit(",\"metadata\":");
        reveal_strlit("null");
        reveal_strlit("{");
        reveal_strlit("}");
    }
    let mut out = String::new();
    out.append("{\"events\":");
    out.append("{");
    enc_streams_from(&mut out, &m.streams, 0);
    out.append("}");
    out.append(",\"metadata\":");
    match metadata {
        Some(v) => {
            enc_scalar(&mut out, v);
        },
        None => {
            out.append("null");
        },
    }
    out.append("}");
    proof {
        assert(Seq::new(m.streams@.len(), |k: int| m.streams@[k]@).skip(0) =~= m@.streams);
        assert("{\"events\":"@ =~= seq!['{', '"', 'e', 'v', 'e', 'n', 't', 's', '"', ':']);
        assert(",\"metadata\":"@ =~= seq![
            ',',
            '"',
            'm',
            'e',
            't',
            'a',
            'd',
            'a',
            't',
            'a',
            '"',
            ':',
        ]);
        assert("null"@ =~= seq!['n', 'u', 'l', 'l']);
        assert(out@ =~= spec_output(m@, match metadata {
            Some(v) => Some(v@),
            None => None,
        }));
    }
    out
}


/// Parses the escaped body of a quoted string up to its closing quote,
/// returning the unescaped text and the remaining input.
pub open spec fn p_qstr_body(s: Seq<char>) -> Option<(Seq<char>, Seq<char>)>
    decreases s.len(),
{
    if s.len() == 0 {
        None
    } else if s[0] == '"' {
        Some((Seq::empty(), s.drop_first()))
    } else if s[0] == '\\' {
        if s.len() < 2 {
            None
        } else if s[1] == '"' || s[1] == '\\' {
            match p_qstr_body(s.skip(2)) {
                Some(tr) => Some((seq![s[1]] + tr.0, tr.1)),
                None => None,
            }
        } else if s[1] == 'u' {
            if s.len() < 6 {
                None
            } else if s[2] == '0' && s[3] == '0' && is_hex_char(s[4]) && is_hex_char(s[5])
                && hex_val(s[4]) * 16 + hex_val(s[5]) < 32 {
                match p_qstr_body(s.skip(6)) {
                    Some(tr) => Some(
                        (seq![((hex_val(s[4]) * 16 + hex_val(s[5])) as u8) as char] + tr.0, tr.1),
                    ),
                    None => None,
                }
            } else {
                None
            }
        } else {
            None
        }
    } else {
        match p_qstr_body(s.drop_first()) {
            Some(tr) => Some((seq![s[0]] + tr.0, tr.1)),
            None => None,
        }
    }
}

/// Splits a maximal run of decimal digits off the front of the input.
pub open spec fn p_digits(s: Seq<char>) -> (Seq<char>, Seq<char>)
    decreases s.len(),
{
    if s.len() == 0 || !is_digit_char(s[0]) {
        (Seq::empty(), s)
    } else {
        (seq![s[0]] + p_digits(s.drop_first()).0, p_digits(s.drop_first()).1)
    }
}

/// The numeric value of a digit run, most significant digit first.
pub open spec fn digits_val(ds: Seq<char>) -> nat
    decreases ds.len(),
{
    if ds.len() == 0 {
        0
    } else {
        digits_val(ds.drop_last()) * 10 + digit_val(ds.last())
    }
}

/// Parses one scalar value off the front of the input.
pub open spec fn p_scalar(s: Seq<char>) -> Option<(ValueV, Seq<char>)> {
    if s.len() == 0 {
        None
    } else if s[0] == 'n' {
        if s.len() >= 4 && s[1] == 'u' && s[2] == 'l' && s[3] == 'l' {
            Some((ValueV::Null, s.skip(4)))
        } else {
            None
        }
    } else if s[0] == 't' {
        if s.len() >= 4 && s[1] == 'r' && s[2] == 'u' && s[3] == 'e' {
            Some((ValueV::Bool(true), s.skip(4)))
        } else {
            None
        }
    } else if s[0] == 'f' {
        if s.len() >= 5 && s[1] == 'a' && s[2] == 'l' && s[3] == 's' && s[4] == 'e' {
            Some((ValueV::Bool(false), s.skip(5)))
        } else {
            None
        }
    } else if s[0] == '"' {
        match p_qstr_body(s.drop_first()) {
            Some(tr) => Some((ValueV::Str(tr.0), tr.1)),
            None => None,
        }
    } else if is_digit_char(s[0]) {
        if digits_val(p_digits(s).0) <= u128::MAX as nat {
            Some((ValueV::UInt(digits_val(p_digits(s).0)), p_digits(s).1))
        } else {
            None
        }
    } else {
        None
    }
}

/// A control character's code point survives the trip through `u8`.
proof fn lemma_char_roundtrip(c: char)
    requires
        (c as u32) < 32,
    ensures
        (((c as u32) as u8) as char) == c,
{
}

/// For every hexadecimal digit, the rendered character decodes back to it.
proof fn lemma_hex_inverse(d: nat)
    requires
        d < 16,
    ensures
        is_hex_char(hex_char(d)),
        hex_val(hex_char(d)) == d,
{
}

/// The escaped body of `x`, its closing quote, and then `rest`.
pub open spec fn quoted_tail(x: Seq<char>, rest: Seq<char>) -> Seq<char> {
    spec_escape(x) + seq!['"'] + rest
}

/// Parsing a quoted-string body inverts escaping, whatever follows the
/// closing quote.
proof fn lemma_parse_quote(x: Seq<char>, rest: Seq<char>)
    ensures
        (p_qstr_body(quoted_tail(x, rest)) == Some((x, rest))),
    decreases x.len(),
{
    let s = spec_escape(x) + seq!['"'] + rest;
    if x.len() == 0 {
        assert(s[0] == '"');
        assert(s.drop_first() =~= rest);
    } else {
        let c = x[0];
        let x2 = x.drop_first();
        lemma_parse_quote(x2, rest);
        let s2 = quoted_tail(x2, rest);
        assert(s2 == spec_escape(x2) + seq!['"'] + rest);
        assert(spec_escape(x) == esc_char(c) + spec_escape(x2));
        if c == '"' {
            assert(s[0] == '\\' && s[1] == '"');
            assert(s.skip(2) =~= s2);
            assert(seq![s[1]] + x2 =~= x);
        } else if c == '\\' {
            assert(s[0] == '\\' && s[1] == '\\');
            assert(s.skip(2) =~= s2);
            assert(seq![s[1]] + x2 =~= x);
        } else if (c as u32) < 32 {
            let hi = (c as u32 / 16) as nat;
            let lo = (c as u32 % 16) as nat;
            lemma_hex_inverse(hi);
            lemma_hex_inverse(lo);
            assert(s[0] == '\\' && s[1] == 'u' && s[2] == '0' && s[3] == '0');
            assert(s[4] == hex_char(hi) && s[5] == hex_char(lo));
            assert(hex_val(s[4]) * 16 + hex_val(s[5]) == c as u32);
            assert(s.skip(6) =~= s2);
            lemma_char_roundtrip(c);
            assert(seq![((hex_val(s[4]) * 16 + hex_val(s[5])) as u8) as char] + x2 =~= x);
        } else {
            assert(s[0] == c);
            assert(s.drop_first() =~= s2);
            assert(seq![s[0]] + x2 =~= x);
        }
    }
}

/// Whether a value is representable at run time (numbers fit in `u128`).
pub open spec fn bounded_value(v: ValueV) -> bool {
    match v {
        ValueV::UInt(n) => n <= u128::MAX as nat,
        _ => true,
    }
}

/// Whether every value in a series is representable.
pub open spec fn bounded_series(s: SeriesV) -> bool {
    forall|i: int| 0 <= i < s.values.len() ==> bounded_value(#[trigger] s.values[i])
}

/// Whether every value in a stream is representable.
pub open spec fn bounded_stream(st: StreamV) -> bool {
    forall|i: int| 0 <= i < st.series.len() ==> bounded_series(#[trigger] st.series[i])
}

/// Whether every value in the map is representable.
pub open spec fn bounded_map(m: EventMapV) -> bool {
    forall|i: int| 0 <= i < m.streams.len() ==> bounded_stream(#[trigger] m.streams[i])
}

/// Parses a comma-separated, nonempty list of scalar values.
pub open spec fn p_value_list(s: Seq<char>) -> Option<(Seq<ValueV>, Seq<char>)>
    decreases s.len(),
{
    match p_scalar(s) {
        Some(vr) => {
            if vr.1.len() < s.len() {
                if vr.1.len() > 0 && vr.1[0] == ',' {
                    match p_value_list(vr.1.drop_first()) {
                        Some(lr) => Some((seq![vr.0] + lr.0, lr.1)),
                        None => None,
                    }
                } else {
                    Some((seq![vr.0], vr.1))
                }
            } else {
                None
            }
        },
        None => None,
    }
}

/// Parses a JSON array of scalar values.
pub open spec fn p_values(s: Seq<char>) -> Option<(Seq<ValueV>, Seq<char>)> {
    if s.len() >= 1 && s[0] == '[' {
        if s.len() >= 2 && s[1] == ']' {
            Some((Seq::empty(), s.skip(2)))
        } else {
            match p_value_list(s.drop_first()) {
                Some(lr) => {
                    if lr.1.len() > 0 && lr.1[0] == ']' {
                        Some((lr.0, lr.1.drop_first()))
                    } else {
                        None
                    }
                },
                None => None,
            }
        }
    } else {
        None
    }
}

/// Parses one `"event":[...]` member.
pub open spec fn p_series_member(s: Seq<char>) -> Option<(SeriesV, Seq<char>)> {
    if s.len() >= 1 && s[0] == '"' {
        match p_qstr_body(s.drop_first()) {
            Some(nr) => {
                if nr.1.len() > 0 && nr.1[0] == ':' {
                    match p_values(nr.1.drop_first()) {
                        Some(vr) => Some((SeriesV { name: nr.0, values: vr.0 }, vr.1)),
                        None => None,
                    }
                } else {
                    None
                }
            },
            None => None,
        }
    } else {
        None
    }
}

/// Parses a comma-separated, nonempty list of series members.
pub open spec fn p_series_list(s: Seq<char>) -> Option<(Seq<SeriesV>, Seq<char>)>
    decreases s.len(),
{
    match p_series_member(s) {
        Some(mr) => {
            if mr.1.len() < s.len() {
                if mr.1.len() > 0 && mr.1[0] == ',' {
                    match p_series_list(mr.1.drop_first()) {
                        Some(lr) => Some((seq![mr.0] + lr.0, lr.1)),
                        None => None,
                    }
                } else {
                    Some((seq![mr.0], mr.1))
                }
            } else {
                None
            }
        },
        None => None,
    }
}

/// Parses a JSON object of series members.
pub open spec fn p_series_obj(s: Seq<char>) -> Option<(Seq<SeriesV>, Seq<char>)> {
    if s.len() >= 1 && s[0] == '{' {
        if s.len() >= 2 && s[1] == '}' {
            Some((Seq::empty(), s.skip(2)))
        } else {
            match p_series_list(s.drop_first()) {
                Some(lr) => {
                    if lr.1.len() > 0 && lr.1[0] == '}' {
                        Some((lr.0, lr.1.drop_first()))
                    } else {
                        None
                    }
                },
                None => None,
            }
        }
    } else {
        None
    }
}

/// Parses one `"stream":{...}` member.
pub open spec fn p_stream_member(s: Seq<char>) -> Option<(StreamV, Seq<char>)> {
    if s.len() >= 1 && s[0] == '"' {
        match p_qstr_body(s.drop_first()) {
            Some(nr) => {
                if nr.1.len() > 0 && nr.1[0] == ':' {
                    match p_series_obj(nr.1.drop_first()) {
                        Some(or) => Some((StreamV { name: nr.0, series: or.0 }, or.1)),
                        None => None,
                    }
                } else {
                    None
                }
            },
            None => None,
        }
    } else {
        None
    }
}

/// Parses a comma-separated, nonempty list of stream members.
pub open spec fn p_stream_list(s: Seq<char>) -> Option<(Seq<StreamV>, Seq<char>)>
    decreases s.len(),
{
    match p_stream_member(s) {
        Some(mr) => {
            if mr.1.len() < s.len() {
                if mr.1.len() > 0 && mr.1[0] == ',' {
                    match p_stream_list(mr.1.drop_first()) {
                        Some(lr) => Some((seq![mr.0] + lr.0, lr.1)),
                        None => None,
                    }
                } else {
                    Some((seq![mr.0], mr.1))
                }
            } else {
                None
            }
        },
        None => None,
    }
}

/// Parses a JSON object of stream members.
pub open spec fn p_streams_obj(s: Seq<char>) -> Option<(Seq<StreamV>, Seq<char>)> {
    if s.len() >= 1 && s[0] == '{' {
        if s.len() >= 2 && s[1] == '}' {
            Some((Seq::empty(), s.skip(2)))
        } else {
            match p_stream_list(s.drop_first()) {
                Some(lr) => {
                    if lr.1.len() > 0 && lr.1[0] == '}' {
                        Some((lr.0, lr.1.drop_first()))
                    } else {
                        None
                    }
                },
                None => None,
            }
        }
    } else {
        None
    }
}

/// The fixed opening of the output document.
pub open spec fn events_prefix() -> Seq<char> {
    seq!['{', '"', 'e', 'v', 'e', 'n', 't', 's', '"', ':']
}

/// The fixed text between the events object and the metadata value.
pub open spec fn metadata_infix() -> Seq<char> {
    seq![',', '"', 'm', 'e', 't', 'a', 'd', 'a', 't', 'a', '"', ':']
}

/// Parses a full output document. A `null` metadata field reads back as
/// absent metadata.
pub open spec fn p_output(s: Seq<char>) -> Option<(Seq<StreamV>, Option<ValueV>)> {
    if s.len() >= 10 && s.take(10) == events_prefix() {
        match p_streams_obj(s.skip(10)) {
            Some(or) => {
                if or.1.len() >= 12 && or.1.take(12) == metadata_infix() {
                    match p_scalar(or.1.skip(12)) {
                        Some(mr) => {
                            if mr.1.len() == 1 && mr.1[0] == '}' {
                                Some(
                                    (
                                        or.0,
                                        match mr.0 {
                                            ValueV::Null => None,
                                            v => Some(v),
                                        },
                                    ),
                                )
                            } else {
                                None
                            }
                        },
                        None => None,
                    }
                } else {
                    None
                }
            },
            None => None,
        }
    } else {
        None
    }
}

/// A scalar rendering is never empty and never starts with a separator.
proof fn lemma_scalar_shape(v: ValueV)
    ensures
        spec_scalar(v).len() >= 1,
        spec_scalar(v)[0] != ',' && spec_scalar(v)[0] != ']' && spec_scalar(v)[0] != '}'
            && spec_scalar(v)[0] != ':' && spec_scalar(v)[0] != '[' && spec_scalar(v)[0] != '{',
{
    match v {
        ValueV::UInt(n) => {
            lemma_dec_digits(n);
        },
        _ => {},
    }
}

/// `p_digits` splits exactly at the first non-digit.
proof fn lemma_p_digits(ds: Seq<char>, rest: Seq<char>)
    requires
        forall|i: int| 0 <= i < ds.len() ==> is_digit_char(#[trigger] ds[i]),
        rest.len() == 0 || !is_digit_char(rest[0]),
    ensures
        (p_digits(ds + rest) == (ds, rest)),
    decreases ds.len(),
{
    let s = ds + rest;
    if ds.len() == 0 {
        assert(s =~= rest);
        assert(p_digits(s).0 =~= ds);
    } else {
        assert(s[0] == ds[0]);
        assert(s.drop_first() =~= ds.drop_first() + rest);
        lemma_p_digits(ds.drop_first(), rest);
        assert(seq![s[0]] + ds.drop_first() =~= ds);
    }
}

/// Rendering a digit and reading it back is the identity.
proof fn lemma_digit_inverse(d: nat)
    requires
        d < 10,
    ensures
        digit_val(digit_char(d)) == d,
{
}

/// A decimal rendering decodes back to its value.
proof fn lemma_dec_val(n: nat)
    ensures
        digits_val(spec_dec(n)) == n,
    decreases n,
{
    if n < 10 {
        lemma_digit_inverse(n);
        assert(spec_dec(n).drop_last() =~= Seq::<char>::empty());
        assert(spec_dec(n).last() == digit_char(n));
        assert(digits_val(spec_dec(n)) == digits_val(Seq::<char>::empty()) * 10 + digit_val(
            digit_char(n),
        ));
    } else {
        lemma_dec_val(n / 10);
        lemma_digit_inverse(n % 10);
        assert(spec_dec(n).drop_last() =~= spec_dec(n / 10));
        assert(spec_dec(n).last() == digit_char(n % 10));
        assert(digits_val(spec_dec(n)) == digits_val(spec_dec(n / 10)) * 10 + digit_val(
            digit_char(n % 10),
        ));
        assert(n / 10 * 10 + n % 10 == n);
    }
}

/// Parsing one scalar inverts rendering whenever the following text does not
/// begin with a digit.
proof fn lemma_parse_scalar(v: ValueV, rest: Seq<char>)
    requires
        bounded_value(v),
        rest.len() == 0 || !is_digit_char(rest[0]),
    ensures
        (p_scalar(spec_scalar(v) + rest) == Some((v, rest))),
{
    let s = spec_scalar(v) + rest;
    match v {
        ValueV::Null => {
            assert(s[0] == 'n' && s[1] == 'u' && s[2] == 'l' && s[3] == 'l');
            assert(s.skip(4) =~= rest);
        },
        ValueV::Bool(b) => {
            if b {
                assert(s[0] == 't' && s[1] == 'r' && s[2] == 'u' && s[3] == 'e');
                assert(s.skip(4) =~= rest);
            } else {
                assert(s[0] == 'f' && s[1] == 'a' && s[2] == 'l' && s[3] == 's' && s[4] == 'e');
                assert(s.skip(5) =~= rest);
            }
        },
        ValueV::UInt(n) => {
            lemma_dec_digits(n);
            lemma_p_digits(spec_dec(n), rest);
            lemma_dec_val(n);
            assert(s[0] == spec_dec(n)[0]);
            assert(is_digit_char(s[0]));
        },
        ValueV::Str(x) => {
            assert(s[0] == '"');
            assert(s.drop_first() =~= quoted_tail(x, rest));
            lemma_parse_quote(x, rest);
        },
    }
}

/// Parsing a value list inverts rendering of a nonempty value sequence when
/// the following text begins with the closing bracket.
proof fn lemma_parse_value_list(vs: Seq<ValueV>, rest: Seq<char>)
    requires
        vs.len() >= 1,
        forall|i: int| 0 <= i < vs.len() ==> bounded_value(#[trigger] vs[i]),
        rest.len() >= 1 && rest[0] == ']',
    ensures
        (p_value_list(spec_values_body(vs) + rest) == Some((vs, rest))),
    decreases vs.len(),
{
    let s = spec_values_body(vs) + rest;
    lemma_scalar_shape(vs[0]);
    if vs.len() == 1 {
        lemma_parse_scalar(vs[0], rest);
        assert(s =~= spec_scalar(vs[0]) + rest);
        assert(seq![vs[0]] =~= vs);
    } else {
        let rest2 = seq![','] + spec_values_body(vs.drop_first()) + rest;
        assert(s =~= spec_scalar(vs[0]) + rest2);
        lemma_parse_scalar(vs[0], rest2);
        lemma_parse_value_list(vs.drop_first(), rest);
        assert(rest2.drop_first() =~= spec_values_body(vs.drop_first()) + rest);
        lemma_scalar_shape(vs.drop_first()[0]);
        assert(spec_values_body(vs.drop_first()).len() >= 1);
        assert(rest2.len() < s.len());
        assert(seq![vs[0]] + vs.drop_first() =~= vs);
    }
}

/// Parsing a value array inverts rendering when the following text does not
/// begin with a digit boundary conflict.
proof fn lemma_parse_values(vs: Seq<ValueV>, rest: Seq<char>)
    requires
        forall|i: int| 0 <= i < vs.len() ==> bounded_value(#[trigger] vs[i]),
    ensures
        (p_values(spec_values(vs) + rest) == Some((vs, rest))),
{
    let s = spec_values(vs) + rest;
    assert(s[0] == '[');
    if vs.len() == 0 {
        assert(s[1] == ']');
        assert(s.skip(2) =~= rest);
        assert(p_values(s).unwrap().0 =~= vs);
    } else {
        lemma_scalar_shape(vs[0]);
        assert(spec_values_body(vs)[0] == spec_scalar(vs[0])[0]);
        assert(s[1] == spec_scalar(vs[0])[0]);
        assert(s[1] != ']');
        let rest2 = seq![']'] + rest;
        assert(s.drop_first() =~= spec_values_body(vs) + rest2);
        lemma_parse_value_list(vs, rest2);
        assert(rest2.drop_first() =~= rest);
    }
}

/// Parsing one series member inverts rendering.
proof fn lemma_parse_series_member(sv: SeriesV, rest: Seq<char>)
    requires
        bounded_series(sv),
    ensures
        (p_series_member(spec_series(sv) + rest) == Some((sv, rest))),
{
    let s = spec_series(sv) + rest;
    assert(s[0] == '"');
    let rest2 = seq![':'] + spec_values(sv.values) + rest;
    assert(s.drop_first() =~= quoted_tail(sv.name, rest2));
    lemma_parse_quote(sv.name, rest2);
    assert(rest2[0] == ':');
    assert(rest2.drop_first() =~= spec_values(sv.values) + rest);
    lemma_parse_values(sv.values, rest);
}

/// Parsing a series list inverts rendering of a nonempty series sequence
/// when the following text begins with the closing brace.
proof fn lemma_parse_series_list(ss: Seq<SeriesV>, rest: Seq<char>)
    requires
        ss.len() >= 1,
        forall|i: int| 0 <= i < ss.len() ==> bounded_series(#[trigger] ss[i]),
        rest.len() >= 1 && rest[0] == '}',
    ensures
        (p_series_list(spec_series_body(ss) + rest) == Some((ss, rest))),
    decreases ss.len(),
{
    let s = spec_series_body(ss) + rest;
    if ss.len() == 1 {
        lemma_parse_series_member(ss[0], rest);
        assert(s =~= spec_series(ss[0]) + rest);
        assert(seq![ss[0]] =~= ss);
        assert(spec_series(ss[0]).len() >= 1);
    } else {
        let rest2 = seq![','] + spec_series_body(ss.drop_first()) + rest;
        assert(s =~= spec_series(ss[0]) + rest2);
        lemma_parse_series_member(ss[0], rest2);
        lemma_parse_series_list(ss.drop_first(), rest);
        assert(rest2.drop_first() =~= spec_series_body(ss.drop_first()) + rest);
        assert(spec_series(ss.drop_first()[0]).len() >= 1);
        assert(spec_series_body(ss.drop_first()).len() >= 1);
        assert(rest2.len() < s.len());
        assert(seq![ss[0]] + ss.drop_first() =~= ss);
    }
}

/// Parsing a series object inverts rendering.
proof fn lemma_parse_series_obj(ss: Seq<SeriesV>, rest: Seq<char>)
    requires
        forall|i: int| 0 <= i < ss.len() ==> bounded_series(#[trigger] ss[i]),
    ensures
        (p_series_obj(spec_series_obj(ss) + rest) == Some((ss, rest))),
{
    let s = spec_series_obj(ss) + rest;
    assert(s[0] == '{');
    if ss.len() == 0 {
        assert(s[1] == '}');
        assert(s.skip(2) =~= rest);
        assert(p_series_obj(s).unwrap().0 =~= ss);
    } else {
        assert(spec_series_body(ss)[0] == spec_series(ss[0])[0]);
        assert(spec_series(ss[0])[0] == '"');
        assert(s[1] == '"');
        let rest2 = seq!['}'] + rest;
        assert(s.drop_first() =~= spec_series_body(ss) + rest2);
        lemma_parse_series_list(ss, rest2);
        assert(rest2.drop_first() =~= rest);
    }
}

/// Parsing one stream member inverts rendering.
proof fn lemma_parse_stream_member(st: StreamV, rest: Seq<char>)
    requires
        bounded_stream(st),
    ensures
        (p_stream_member(spec_stream(st) + rest) == Some((st, rest))),
{
    let s = spec_stream(st) + rest;
    assert(s[0] == '"');
    let rest2 = seq![':'] + spec_series_obj(st.series) + rest;
    assert(s.drop_first() =~= quoted_tail(st.name, rest2));
    lemma_parse_quote(st.name, rest2);
    assert(rest2[0] == ':');
    assert(rest2.drop_first() =~= spec_series_obj(st.series) + rest);
    lemma_parse_series_obj(st.series, rest);
}

/// Parsing a stream list inverts rendering of a nonempty stream sequence
/// when the following text begins with the closing brace.
proof fn lemma_parse_stream_list(sts: Seq<StreamV>, rest: Seq<char>)
    requires
        sts.len() >= 1,
        forall|i: int| 0 <= i < sts.len() ==> bounded_stream(#[trigger] sts[i]),
        rest.len() >= 1 && rest[0] == '}',
    ensures
        (p_stream_list(spec_streams_body(sts) + rest) == Some((sts, rest))),
    decreases sts.len(),
{
    let s = spec_streams_body(sts) + rest;
    if sts.len() == 1 {
        lemma_parse_stream_member(sts[0], rest);
        assert(s =~= spec_stream(sts[0]) + rest);
        assert(seq![sts[0]] =~= sts);
        assert(spec_stream(sts[0]).len() >= 1);
    } else {
        let rest2 = seq![','] + spec_streams_body(sts.drop_first()) + rest;
        assert(s =~= spec_stream(sts[0]) + rest2);
        lemma_parse_stream_member(sts[0], rest2);
        lemma_parse_stream_list(sts.drop_first(), rest);
        assert(rest2.drop_first() =~= spec_streams_body(sts.drop_first()) + rest);
        assert(spec_stream(sts.drop_first()[0]).len() >= 1);
        assert(spec_streams_body(sts.drop_first()).len() >= 1);
        assert(rest2.len() < s.len());
        assert(seq![sts[0]] + sts.drop_first() =~= sts);
    }
}

/// Parsing a streams object inverts rendering.
proof fn lemma_parse_streams_obj(sts: Seq<StreamV>, rest: Seq<char>)
    requires
        forall|i: int| 0 <= i < sts.len() ==> bounded_stream(#[trigger] sts[i]),
    ensures
        (p_streams_obj(spec_streams_obj(sts) + rest) == Some((sts, rest))),
{
    let s = spec_streams_obj(sts) + rest;
    assert(s[0] == '{');
    if sts.len() == 0 {
        assert(s[1] == '}');
        assert(s.skip(2) =~= rest);
        assert(p_streams_obj(s).unwrap().0 =~= sts);
    } else {
        assert(spec_streams_body(sts)[0] == spec_stream(sts[0])[0]);
        assert(spec_stream(sts[0])[0] == '"');
        assert(s[1] == '"');
        let rest2 = seq!['}'] + rest;
        assert(s.drop_first() =~= spec_streams_body(sts) + rest2);
        lemma_parse_stream_list(sts, rest2);
        assert(rest2.drop_first() =~= rest);
    }
}

/// The metadata value a parsed document reports for a written one: absent
/// metadata and explicit `null` metadata both read back as absent.
pub open spec fn canonical_metadata(metadata: Option<ValueV>) -> Option<ValueV> {
    match metadata {
        Some(ValueV::Null) => None,
        md => md,
    }
}

/// Round trip: parsing a rendered output document reproduces the stream,
/// event, and ordered-value structure exactly, and the metadata up to the
/// identification of absent metadata with `null`.
pub proof fn lemma_json_round_trip(m: EventMapV, metadata: Option<ValueV>)
    requires
        bounded_map(m),
        match metadata {
            Some(v) => bounded_value(v),
            None => true,
        },
    ensures
        (p_output(spec_output(m, metadata)) == Some((m.streams, canonical_metadata(metadata)))),
{
    let s = spec_output(m, metadata);
    let md_text = match metadata {
        Some(v) => spec_scalar(v),
        None => seq!['n', 'u', 'l', 'l'],
    };
    let after_obj = metadata_infix() + md_text + seq!['}'];
    assert(s =~= events_prefix() + spec_streams_obj(m.streams) + after_obj);
    assert(s.take(10) =~= events_prefix());
    assert(s.skip(10) =~= spec_streams_obj(m.streams) + after_obj);
    lemma_parse_streams_obj(m.streams, after_obj);
    assert(after_obj.take(12) =~= metadata_infix());
    assert(after_obj.skip(12) =~= md_text + seq!['}']);
    let close = seq!['}'];
    match metadata {
        Some(v) => {
            lemma_parse_scalar(v, close);
        },
        None => {
            lemma_parse_scalar(ValueV::Null, close);
            assert(md_text =~= spec_scalar(ValueV::Null));
        },
    }
}


/// One `"field":value` member of a decoded-event object.
pub open spec fn spec_field_member(f: (Seq<char>, ValueV)) -> Seq<char> {
    spec_quote(f.0) + seq![':'] + spec_scalar(f.1)
}

/// Comma-separated field members of a decoded-event object.
pub open spec fn spec_fields_body(fs: Seq<(Seq<char>, ValueV)>) -> Seq<char>
    decreases fs.len(),
{
    if fs.len() == 0 {
        Seq::empty()
    } else if fs.len() == 1 {
        spec_field_member(fs[0])
    } else {
        spec_field_member(fs[0]) + seq![','] + spec_fields_body(fs.drop_first())
    }
}

/// The JSON object text of a decoded event's named fields, in order.
pub open spec fn spec_object(fs: Seq<(Seq<char>, ValueV)>) -> Seq<char> {
    seq!['{'] + spec_fields_body(fs) + seq!['}']
}

/// Writes the field members from index `i` on onto `out`.
fn enc_fields_from(out: &mut String, fs: &Vec<(String, Value)>, i: usize)
    requires
        i <= fs@.len(),
    ensures
        final(out)@ == old(out)@ + spec_fields_body(
            Seq::new(fs@.len(), |k: int| (fs@[k].0@, fs@[k].1@)).skip(i as int),
        ),
    decreases fs@.len() - i,
{
    let ghost model = Seq::new(fs@.len(), |k: int| (fs@[k].0@, fs@[k].1@));
    if i < fs.len() {
        proof {
            reveal_strlit(":");
        }
        enc_qstr(out, fs[i].0.as_str());
        out.append(":");
        enc_scalar(out, &fs[i].1);
        let ghost mid = out@;
        proof {
            assert(":"@ =~= seq![':']);
            assert(mid =~= old(out)@ + spec_field_member(model[i as int]));
        }
        if i + 1 < fs.len() {
            proof {
                reveal_strlit(",");
            }
            out.append(",");
            enc_fields_from(out, fs, i + 1);
            proof {
                assert(model.skip(i as int).drop_first() =~= model.skip(i + 1));
                assert(","@ =~= seq![',']);
                assert(out@ =~= old(out)@ + spec_fields_body(model.skip(i as int)));
            }
        } else {
            proof {
                assert(model.skip(i as int).len() == 1);
                assert(model.skip(i as int)[0] == model[i as int]);
                assert(out@ =~= old(out)@ + spec_fields_body(model.skip(i as int)));
            }
        }
    } else {
        proof {
            assert(model.skip(i as int).len() == 0);
            assert(out@ =~= old(out)@ + spec_fields_body(model.skip(i as int)));
        }
    }
}

/// Renders a decoded event's named fields as one JSON object, exactly
/// `spec_object` of their views.
pub fn render_object(fs: &Vec<(String, Value)>) -> (r: String)
    ensures
        r@ == spec_object(Seq::new(fs@.len(), |k: int| (fs@[k].0@, fs@[k].1@))),
{
    proof {
        reveal_strlit("{");
        reveal_strlit("}");
    }
    let mut out = String::new();
    out.append("{");
    enc_fields_from(&mut out, fs, 0);
    out.append("}");
    proof {
        let model = Seq::new(fs@.len(), |k: int| (fs@[k].0@, fs@[k].1@));
        assert(model.skip(0) =~= model);
        assert("{"@ =~= seq!['{']);
        assert("}"@ =~= seq!['}']);
        assert(out@ =~= spec_object(model));
    }
    out
}

/// The numeric value of a lowercase hexadecimal digit character, or `None`.
fn try_hex_val(c: char) -> (r: Option<u8>)
    ensures
        match r {
            Some(d) => is_hex_char(c) && d as nat == hex_val(c) && d < 16,
            None => !is_hex_char(c),
        },
{
    match try_digit_val(c) {
        Some(d) => Some(d),
        None => match c {
            'a' => Some(10),
            'b' => Some(11),
            'c' => Some(12),
            'd' => Some(13),
            'e' => Some(14),
            'f' => Some(15),
            _ => None,
        },
    }
}

/// The character sequence of a string, one entry per character.
pub fn chars_of(s: &str) -> (r: Vec<char>)
    ensures
        r@ == s@,
{
    let n = s.unicode_len();
    let mut r: Vec<char> = Vec::new();
    let mut i: usize = 0;
    while i < n
        invariant
            n == s@.len(),
            i <= n,
            r@ == s@.take(i as int),
        decreases n - i,
    {
        r.push(s.get_char(i));
        proof {
            assert(r@ =~= s@.take(i + 1));
        }
        i = i + 1;
    }
    proof {
        assert(s@.take(n as int) =~= s@);
    }
    r
}

/// Runs the quoted-string body parser at `pos`.
fn x_qstr_body(cs: &Vec<char>, pos: usize) -> (r: Option<(String, usize)>)
    requires
        pos <= cs@.len(),
    ensures
        match r {
            Some(tp) => tp.1 <= cs@.len() && pos <= tp.1 && p_qstr_body(cs@.skip(pos as int))
                == Some((tp.0@, cs@.skip(tp.1 as int))),
            None => p_qstr_body(cs@.skip(pos as int)) is None,
        },
    decreases cs@.len() - pos,
{
    let ghost s = cs@.skip(pos as int);
    if pos == cs.len() {
        return None;
    }
    let c = cs[pos];
    proof {
        assert(s[0] == cs@[pos as int]);
    }
    if c == '"' {
        proof {
            assert(s.drop_first() =~= cs@.skip(pos + 1));
        }
        Some((String::new(), pos + 1))
    } else if c == '\\' {
        if pos + 1 == cs.len() {
            return None;
        }
        let c2 = cs[pos + 1];
        proof {
            assert(s[1] == cs@[pos + 1]);
            assert(s.len() >= 2);
        }
        if c2 == '"' || c2 == '\\' {
            proof {
                assert(s.skip(2) =~= cs@.skip(pos + 2));
            }
            match x_qstr_body(cs, pos + 2) {
                Some((t, np)) => {
                    let mut out = String::new();
                    out.push(c2);
                    out.append(t.as_str());
                    proof {
                        assert(out@ =~= seq![s[1]] + t@);
                    }
                    Some((out, np))
                },
                None => None,
            }
        } else if c2 == 'u' {
            if cs.len() - pos < 6 {
                return None;
            }
            let c3 = cs[pos + 2];
            let c4 = cs[pos + 3];
            proof {
                assert(s[2] == cs@[pos + 2]);
                assert(s[3] == cs@[pos + 3]);
                assert(s[4] == cs@[pos + 4]);
                assert(s[5] == cs@[pos + 5]);
            }
            if c3 != '0' || c4 != '0' {
                return None;
            }
            let h1 = match try_hex_val(cs[pos + 4]) {
                Some(d) => d,
                None => {
                    return None;
                },
            };
            let h2 = match try_hex_val(cs[pos + 5]) {
                Some(d) => d,
                None => {
                    return None;
                },
            };
            let code: u8 = h1 * 16 + h2;
            if code >= 32 {
                return None;
            }
            proof {
                assert(s.skip(6) =~= cs@.skip(pos + 6));
            }
            match x_qstr_body(cs, pos + 6) {
                Some((t, np)) => {
                    let ch = code as char;
                    let mut out = String::new();
                    out.push(ch);
                    out.append(t.as_str());
                    proof {
                        assert(out@ =~= seq![((hex_val(s[4]) * 16 + hex_val(s[5])) as u8) as char]
                            + t@);
                    }
                    Some((out, np))
                },
                None => None,
            }
        } else {
            None
        }
    } else {
        proof {
            assert(s.drop_first() =~= cs@.skip(pos + 1));
        }
        match x_qstr_body(cs, pos + 1) {
            Some((t, np)) => {
                let mut out = String::new();
                out.push(c);
                out.append(t.as_str());
                proof {
                    assert(out@ =~= seq![s[0]] + t@);
                }
                Some((out, np))
            },
            None => None,
        }
    }
}

/// Runs the scalar parser at `pos`.
fn x_scalar(cs: &Vec<char>, pos: usize) -> (r: Option<(Value, usize)>)
    requires
        pos <= cs@.len(),
    ensures
        match r {
            Some(vp) => vp.1 <= cs@.len() && pos <= vp.1 && p_scalar(cs@.skip(pos as int))
                == Some((vp.0@, cs@.skip(vp.1 as int))),
            None => p_scalar(cs@.skip(pos as int)) is None,
        },
{
    let ghost s = cs@.skip(pos as int);
    if pos == cs.len() {
        return None;
    }
    let c = cs[pos];
    proof {
        assert(s[0] == cs@[pos as int]);
        assert(forall|k: int| 0 <= k < s.len() ==> s[k] == cs@[pos + k]);
    }
    if c == 'n' {
        if cs.len() - pos >= 4 && cs[pos + 1] == 'u' && cs[pos + 2] == 'l' && cs[pos + 3] == 'l' {
            proof {
                assert(s.skip(4) =~= cs@.skip(pos + 4));
            }
            Some((Value::Null, pos + 4))
        } else {
            None
        }
    } else if c == 't' {
        if cs.len() - pos >= 4 && cs[pos + 1] == 'r' && cs[pos + 2] == 'u' && cs[pos + 3] == 'e' {
            proof {
                assert(s.skip(4) =~= cs@.skip(pos + 4));
            }
            Some((Value::Bool(true), pos + 4))
        } else {
            None
        }
    } else if c == 'f' {
        if cs.len() - pos >= 5 && cs[pos + 1] == 'a' && cs[pos + 2] == 'l' && cs[pos + 3] == 's'
            && cs[pos + 4] == 'e' {
            proof {
                assert(s.skip(5) =~= cs@.skip(pos + 5));
            }
            Some((Value::Bool(false), pos + 5))
        } else {
            None
        }
    } else if c == '"' {
        proof {
            assert(s.drop_first() =~= cs@.skip(pos + 1));
        }
        match x_qstr_body(cs, pos + 1) {
            Some((t, np)) => Some((Value::Str(t), np)),
            None => None,
        }
    } else {
        let d0 = match try_digit_val(c) {
            Some(d) => d,
            None => {
                return None;
            },
        };
        // Find the end of the digit run.
        let mut end: usize = pos;
        while end < cs.len() && matches!(try_digit_val(cs[end]), Some(_))
            invariant
                pos <= end <= cs@.len(),
                forall|k: int| pos <= k < end ==> is_digit_char(#[trigger] cs@[k]),
            decreases cs@.len() - end,
        {
            end = end + 1;
        }
        let ghost ds = cs@.subrange(pos as int, end as int);
        let ghost tail = cs@.skip(end as int);
        proof {
            assert(forall|k: int| 0 <= k < ds.len() ==> is_digit_char(#[trigger] ds[k]));
            assert(tail.len() == 0 || !is_digit_char(tail[0]));
            assert(s =~= ds + tail);
            lemma_p_digits(ds, tail);
            assert(ds[0] == cs@[pos as int]);
            assert(is_digit_char(s[0]));
        }
        // Accumulate the value, tracking overflow past u128.
        let mut val: u128 = 0;
        let mut over: bool = false;
        let mut j: usize = pos;
        while j < end
            invariant
                pos <= j <= end <= cs@.len(),
                forall|k: int| pos <= k < end ==> is_digit_char(#[trigger] cs@[k]),
                !over ==> val as nat == digits_val(cs@.subrange(pos as int, j as int)),
                over ==> digits_val(cs@.subrange(pos as int, j as int)) > u128::MAX as nat,
            decreases end - j,
        {
            let ghost pre = cs@.subrange(pos as int, j as int);
            let ghost post = cs@.subrange(pos as int, j + 1);
            proof {
                assert(post.drop_last() =~= pre);
                assert(post.last() == cs@[j as int]);
            }
            let d = match try_digit_val(cs[j]) {
                Some(d) => d,
                None => {
                    proof {
                        assert(is_digit_char(cs@[j as int]));
                    }
                    return None;
                },
            };
            if over {
                proof {
                    assert(digits_val(post) == digits_val(pre) * 10 + digit_val(post.last()));
                    assert(digits_val(pre) * 10 >= digits_val(pre)) by (nonlinear_arith)
                        requires
                            digits_val(pre) >= 0;
                }
            } else {
                let step = match val.checked_mul(10) {
                    Some(m) => m.checked_add(d as u128),
                    None => None,
                };
                proof {
                    assert(digits_val(post) == digits_val(pre) * 10 + digit_val(post.last()));
                }
                match step {
                    Some(nv) => {
                        val = nv;
                    },
                    None => {
                        over = true;
                    },
                }
            }
            j = j + 1;
        }
        proof {
            assert(cs@.subrange(pos as int, end as int) =~= ds);
        }
        if over {
            proof {
                assert(digits_val(p_digits(s).0) > u128::MAX as nat);
            }
            None
        } else {
            Some((Value::UInt(val), end))
        }
    }
}

/// Runs the value-list parser at `pos`.
fn x_value_list(cs: &Vec<char>, pos: usize) -> (r: Option<(Vec<Value>, usize)>)
    requires
        pos <= cs@.len(),
    ensures
        match r {
            Some(vp) => vp.1 <= cs@.len() && pos <= vp.1 && p_value_list(cs@.skip(pos as int))
                == Some((Seq::new(vp.0@.len(), |i: int| vp.0@[i]@), cs@.skip(vp.1 as int))),
            None => p_value_list(cs@.skip(pos as int)) is None,
        },
    decreases cs@.len() - pos,
{
    let ghost s = cs@.skip(pos as int);
    match x_scalar(cs, pos) {
        Some((v, np)) => {
            if np > pos {
                if np < cs.len() && cs[np] == ',' {
                    proof {
                        assert(cs@.skip(np as int)[0] == cs@[np as int]);
                        assert(cs@.skip(np as int).drop_first() =~= cs@.skip(np + 1));
                    }
                    match x_value_list(cs, np + 1) {
                        Some((vs, np2)) => {
                            let mut out = vs;
                            out.insert(0, v);
                            proof {
                                assert(Seq::new(out@.len(), |i: int| out@[i]@) =~= seq![v@]
                                    + Seq::new((out@.len() - 1) as nat, |i: int| out@[i + 1]@));
                            }
                            Some((out, np2))
                        },
                        None => None,
                    }
                } else {
                    let mut out: Vec<Value> = Vec::new();
                    out.push(v);
                    proof {
                        assert(cs@.skip(np as int).len() > 0 ==> cs@.skip(np as int)[0]
                            == cs@[np as int]);
                        assert(Seq::new(out@.len(), |i: int| out@[i]@) =~= seq![v@]);
                    }
                    Some((out, np))
                }
            } else {
                proof {
                    assert(cs@.skip(np as int).len() == s.len());
                }
                None
            }
        },
        None => None,
    }
}

/// Runs the value-array parser at `pos`.
fn x_values(cs: &Vec<char>, pos: usize) -> (r: Option<(Vec<Value>, usize)>)
    requires
        pos <= cs@.len(),
    ensures
        match r {
            Some(vp) => vp.1 <= cs@.len() && pos <= vp.1 && p_values(cs@.skip(pos as int))
                == Some((Seq::new(vp.0@.len(), |i: int| vp.0@[i]@), cs@.skip(vp.1 as int))),
            None => p_values(cs@.skip(pos as int)) is None,
        },
{
    let ghost s = cs@.skip(pos as int);
    if pos == cs.len() || cs[pos] != '[' {
        proof {
            assert(s.len() > 0 ==> s[0] == cs@[pos as int]);
        }
        return None;
    }
    proof {
        assert(s[0] == cs@[pos as int]);
        assert(s.len() >= 2 ==> s[1] == cs@[pos + 1]);
    }
    if pos + 1 < cs.len() && cs[pos + 1] == ']' {
        proof {
            assert(s.skip(2) =~= cs@.skip(pos + 2));
            assert(p_values(s).unwrap().0 =~= Seq::<ValueV>::empty());
        }
        let out: Vec<Value> = Vec::new();
        proof {
            assert(Seq::new(out@.len(), |i: int| out@[i]@) =~= Seq::<ValueV>::empty());
        }
        return Some((out, pos + 2));
    }
    proof {
        assert(s.drop_first() =~= cs@.skip(pos + 1));
    }
    match x_value_list(cs, pos + 1) {
        Some((vs, np)) => {
            if np < cs.len() && cs[np] == ']' {
                proof {
                    assert(cs@.skip(np as int)[0] == cs@[np as int]);
                    assert(cs@.skip(np as int).drop_first() =~= cs@.skip(np + 1));
                }
                Some((vs, np + 1))
            } else {
                proof {
                    assert(cs@.skip(np as int).len() > 0 ==> cs@.skip(np as int)[0]
                        == cs@[np as int]);
                }
                None
            }
        },
        None => None,
    }
}


/// Runs the series-member parser at `pos`.
fn x_series_member(cs: &Vec<char>, pos: usize) -> (r: Option<(SeriesEntry, usize)>)
    requires
        pos <= cs@.len(),
    ensures
        match r {
            Some(mp) => mp.1 <= cs@.len() && pos <= mp.1 && p_series_member(cs@.skip(pos as int))
                == Some((mp.0@, cs@.skip(mp.1 as int))),
            None => p_series_member(cs@.skip(pos as int)) is None,
        },
{
    let ghost s = cs@.skip(pos as int);
    if pos == cs.len() || cs[pos] != '"' {
        proof {
            assert(s.len() > 0 ==> s[0] == cs@[pos as int]);
        }
        return None;
    }
    proof {
        assert(s[0] == cs@[pos as int]);
        assert(s.drop_first() =~= cs@.skip(pos + 1));
    }
    match x_qstr_body(cs, pos + 1) {
        Some((name, np)) => {
            if np < cs.len() && cs[np] == ':' {
                proof {
                    assert(cs@.skip(np as int)[0] == cs@[np as int]);
                    assert(cs@.skip(np as int).drop_first() =~= cs@.skip(np + 1));
                }
                match x_values(cs, np + 1) {
                    Some((values, np2)) => {
                        let entry = SeriesEntry { name, values };
                        proof {
                            assert(entry@ =~= p_series_member(s).unwrap().0);
                        }
                        Some((entry, np2))
                    },
                    None => None,
                }
            } else {
                proof {
                    assert(cs@.skip(np as int).len() > 0 ==> cs@.skip(np as int)[0]
                        == cs@[np as int]);
                }
                None
            }
        },
        None => None,
    }
}

/// Runs the series-list parser at `pos`.
fn x_series_list(cs: &Vec<char>, pos: usize) -> (r: Option<(Vec<SeriesEntry>, usize)>)
    requires
        pos <= cs@.len(),
    ensures
        match r {
            Some(lp) => lp.1 <= cs@.len() && pos <= lp.1 && p_series_list(cs@.skip(pos as int))
                == Some((Seq::new(lp.0@.len(), |i: int| lp.0@[i]@), cs@.skip(lp.1 as int))),
            None => p_series_list(cs@.skip(pos as int)) is None,
        },
    decreases cs@.len() - pos,
{
    let ghost s = cs@.skip(pos as int);
    match x_series_member(cs, pos) {
        Some((m, np)) => {
            if np > pos {
                if np < cs.len() && cs[np] == ',' {
                    proof {
                        assert(cs@.skip(np as int)[0] == cs@[np as int]);
                        assert(cs@.skip(np as int).drop_first() =~= cs@.skip(np + 1));
                    }
                    match x_series_list(cs, np + 1) {
                        Some((ms, np2)) => {
                            let mut out = ms;
                            out.insert(0, m);
                            proof {
                                assert(Seq::new(out@.len(), |i: int| out@[i]@) =~= seq![m@]
                                    + Seq::new((out@.len() - 1) as nat, |i: int| out@[i + 1]@));
                            }
                            Some((out, np2))
                        },
                        None => None,
                    }
                } else {
                    let mut out: Vec<SeriesEntry> = Vec::new();
                    out.push(m);
                    proof {
                        assert(cs@.skip(np as int).len() > 0 ==> cs@.skip(np as int)[0]
                            == cs@[np as int]);
                        assert(Seq::new(out@.len(), |i: int| out@[i]@) =~= seq![out@[0]@]);
                    }
                    Some((out, np))
                }
            } else {
                proof {
                    assert(cs@.skip(np as int).len() == s.len());
                }
                None
            }
        },
        None => None,
    }
}

/// Runs the series-object parser at `pos`.
fn x_series_obj(cs: &Vec<char>, pos: usize) -> (r: Option<(Vec<SeriesEntry>, usize)>)
    requires
        pos <= cs@.len(),
    ensures
        match r {
            Some(op) => op.1 <= cs@.len() && pos <= op.1 && p_series_obj(cs@.skip(pos as int))
                == Some((Seq::new(op.0@.len(), |i: int| op.0@[i]@), cs@.skip(op.1 as int))),
            None => p_series_obj(cs@.skip(pos as int)) is None,
        },
{
    let ghost s = cs@.skip(pos as int);
    if pos == cs.len() || cs[pos] != '{' {
        proof {
            assert(s.len() > 0 ==> s[0] == cs@[pos as int]);
        }
        return None;
    }
    proof {
        assert(s[0] == cs@[pos as int]);
        assert(s.len() >= 2 ==> s[1] == cs@[pos + 1]);
    }
    if pos + 1 < cs.len() && cs[pos + 1] == '}' {
        proof {
            assert(s.skip(2) =~= cs@.skip(pos + 2));
            assert(p_series_obj(s).unwrap().0 =~= Seq::<SeriesV>::empty());
        }
        let out: Vec<SeriesEntry> = Vec::new();
        proof {
            assert(Seq::new(out@.len(), |i: int| out@[i]@) =~= Seq::<SeriesV>::empty());
        }
        return Some((out, pos + 2));
    }
    proof {
        assert(s.drop_first() =~= cs@.skip(pos + 1));
    }
    match x_series_list(cs, pos + 1) {
        Some((ms, np)) => {
            if np < cs.len() && cs[np] == '}' {
                proof {
                    assert(cs@.skip(np as int)[0] == cs@[np as int]);
                    assert(cs@.skip(np as int).drop_first() =~= cs@.skip(np + 1));
                }
                Some((ms, np + 1))
            } else {
                proof {
                    assert(cs@.skip(np as int).len() > 0 ==> cs@.skip(np as int)[0]
                        == cs@[np as int]);
                }
                None
            }
        },
        None => None,
    }
}

/// Runs the stream-member parser at `pos`.
fn x_stream_member(cs: &Vec<char>, pos: usize) -> (r: Option<(StreamEntry, usize)>)
    requires
        pos <= cs@.len(),
    ensures
        match r {
            Some(mp) => mp.1 <= cs@.len() && pos <= mp.1 && p_stream_member(cs@.skip(pos as int))
                == Some((mp.0@, cs@.skip(mp.1 as int))),
            None => p_stream_member(cs@.skip(pos as int)) is None,
        },
{
    let ghost s = cs@.skip(pos as int);
    if pos == cs.len() || cs[pos] != '"' {
        proof {
            assert(s.len() > 0 ==> s[0] == cs@[pos as int]);
        }
        return None;
    }
    proof {
        assert(s[0] == cs@[pos as int]);
        assert(s.drop_first() =~= cs@.skip(pos + 1));
    }
    match x_qstr_body(cs, pos + 1) {
        Some((name, np)) => {
            if np < cs.len() && cs[np] == ':' {
                proof {
                    assert(cs@.skip(np as int)[0] == cs@[np as int]);
                    assert(cs@.skip(np as int).drop_first() =~= cs@.skip(np + 1));
                }
                match x_series_obj(cs, np + 1) {
                    Some((series, np2)) => {
                        let entry = StreamEntry { name, series };
                        proof {
                            assert(entry@ =~= p_stream_member(s).unwrap().0);
                        }
                        Some((entry, np2))
                    },
                    None => None,
                }
            } else {
                proof {
                    assert(cs@.skip(np as int).len() > 0 ==> cs@.skip(np as int)[0]
                        == cs@[np as int]);
                }
                None
            }
        },
        None => None,
    }
}

/// Runs the stream-list parser at `pos`.
fn x_stream_list(cs: &Vec<char>, pos: usize) -> (r: Option<(Vec<StreamEntry>, usize)>)
    requires
        pos <= cs@.len(),
    ensures
        match r {
            Some(lp) => lp.1 <= cs@.len() && pos <= lp.1 && p_stream_list(cs@.skip(pos as int))
                == Some((Seq::new(lp.0@.len(), |i: int| lp.0@[i]@), cs@.skip(lp.1 as int))),
            None => p_stream_list(cs@.skip(pos as int)) is None,
        },
    decreases cs@.len() - pos,
{
    let ghost s = cs@.skip(pos as int);
    match x_stream_member(cs, pos) {
        Some((m, np)) => {
            if np > pos {
                if np < cs.len() && cs[np] == ',' {
                    proof {
                        assert(cs@.skip(np as int)[0] == cs@[np as int]);
                        assert(cs@.skip(np as int).drop_first() =~= cs@.skip(np + 1));
                    }
                    match x_stream_list(cs, np + 1) {
                        Some((ms, np2)) => {
                            let mut out = ms;
                            out.insert(0, m);
                            proof {
                                assert(Seq::new(out@.len(), |i: int| out@[i]@) =~= seq![m@]
                                    + Seq::new((out@.len() - 1) as nat, |i: int| out@[i + 1]@));
                            }
                            Some((out, np2))
                        },
                        None => None,
                    }
                } else {
                    let mut out: Vec<StreamEntry> = Vec::new();
                    out.push(m);
                    proof {
                        assert(cs@.skip(np as int).len() > 0 ==> cs@.skip(np as int)[0]
                            == cs@[np as int]);
                        assert(Seq::new(out@.len(), |i: int| out@[i]@) =~= seq![out@[0]@]);
                    }
                    Some((out, np))
                }
            } else {
                proof {
                    assert(cs@.skip(np as int).len() == s.len());
                }
                None
            }
        },
        None => None,
    }
}

/// Runs the streams-object parser at `pos`.
fn x_streams_obj(cs: &Vec<char>, pos: usize) -> (r: Option<(Vec<StreamEntry>, usize)>)
    requires
        pos <= cs@.len(),
    ensures
        match r {
            Some(op) => op.1 <= cs@.len() && pos <= op.1 && p_streams_obj(cs@.skip(pos as int))
                == Some((Seq::new(op.0@.len(), |i: int| op.0@[i]@), cs@.skip(op.1 as int))),
            None => p_streams_obj(cs@.skip(pos as int)) is None,
        },
{
    let ghost s = cs@.skip(pos as int);
    if pos == cs.len() || cs[pos] != '{' {
        proof {
            assert(s.len() > 0 ==> s[0] == cs@[pos as int]);
        }
        return None;
    }
    proof {
        assert(s[0] == cs@[pos as int]);
        assert(s.len() >= 2 ==> s[1] == cs@[pos + 1]);
    }
    if pos + 1 < cs.len() && cs[pos + 1] == '}' {
        proof {
            assert(s.skip(2) =~= cs@.skip(pos + 2));
            assert(p_streams_obj(s).unwrap().0 =~= Seq::<StreamV>::empty());
        }
        let out: Vec<StreamEntry> = Vec::new();
        proof {
            assert(Seq::new(out@.len(), |i: int| out@[i]@) =~= Seq::<StreamV>::empty());
        }
        return Some((out, pos + 2));
    }
    proof {
        assert(s.drop_first() =~= cs@.skip(pos + 1));
    }
    match x_stream_list(cs, pos + 1) {
        Some((ms, np)) => {
            if np < cs.len() && cs[np] == '}' {
                proof {
                    assert(cs@.skip(np as int)[0] == cs@[np as int]);
                    assert(cs@.skip(np as int).drop_first() =~= cs@.skip(np + 1));
                }
                Some((ms, np + 1))
            } else {
                proof {
                    assert(cs@.skip(np as int).len() > 0 ==> cs@.skip(np as int)[0]
                        == cs@[np as int]);
                }
                None
            }
        },
        None => None,
    }
}

/// Parses a rendered output document back into an accumulated map and its
/// metadata, exactly as `p_output` reads it; any other input is rejected.
pub fn parse_json(s: &str) -> (r: Option<(EventMap, Option<Value>)>)
    ensures
        match r {
            Some(md) => p_output(s@) == Some(
                (
                    md.0@.streams,
                    match md.1 {
                        Some(v) => Some(v@),
                        None => None,
                    },
                ),
            ),
            None => p_output(s@) is None,
        },
{
    let cs = chars_of(s);
    if cs.len() < 10 {
        return None;
    }
    let ok = cs[0] == '{' && cs[1] == '"' && cs[2] == 'e' && cs[3] == 'v' && cs[4] == 'e'
        && cs[5] == 'n' && cs[6] == 't' && cs[7] == 's' && cs[8] == '"' && cs[9] == ':';
    if !ok {
        proof {
            assert(s@.take(10) != events_prefix());
        }
        return None;
    }
    proof {
        assert(s@.take(10) =~= events_prefix());
    }
    match x_streams_obj(&cs, 10) {
        Some((streams, np)) => {
            let ghost rv = s@.skip(np as int);
            if cs.len() - np < 12 {
                proof {
                    assert(rv.len() < 12);
                }
                return None;
            }
            let ok2 = cs[np] == ',' && cs[np + 1] == '"' && cs[np + 2] == 'm' && cs[np + 3] == 'e'
                && cs[np + 4] == 't' && cs[np + 5] == 'a' && cs[np + 6] == 'd' && cs[np + 7] == 'a'
                && cs[np + 8] == 't' && cs[np + 9] == 'a' && cs[np + 10] == '"'
                && cs[np + 11] == ':';
            proof {
                assert(forall|k: int| 0 <= k < rv.len() ==> rv[k] == s@[np + k]);
            }
            if !ok2 {
                proof {
                    assert(rv.take(12) != metadata_infix());
                }
                return None;
            }
            proof {
                assert(rv.take(12) =~= metadata_infix());
                assert(rv.skip(12) =~= s@.skip(np + 12));
            }
            match x_scalar(&cs, np + 12) {
                Some((v, np2)) => {
                    if np2 < cs.len() && cs.len() - np2 == 1 && cs[np2] == '}' {
                        proof {
                            assert(s@.skip(np2 as int).len() == 1);
                            assert(s@.skip(np2 as int)[0] == s@[np2 as int]);
                        }
                        let metadata = match &v {
                            Value::Null => None,
                            other => Some(other.duplicate()),
                        };
                        let m = EventMap { streams };
                        proof {
                            assert(m@.streams =~= p_output(s@).unwrap().0);
                        }
                        Some((m, metadata))
                    } else {
                        proof {
                            let tail = s@.skip(np2 as int);
                            assert(tail.len() > 0 ==> tail[0] == s@[np2 as int]);
                        }
                        None
                    }
                },
                None => None,
            }
        },
        None => None,
    }
}

} // verus!
