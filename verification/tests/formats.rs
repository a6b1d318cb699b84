//! The JSON codec: exact renderings, the round trip, and the scalar forms.

use arbiter_core::accum::EventMap;
use arbiter_core::csv::{flatten_rows, render_csv};
use arbiter_core::registry::{Decoder, FieldForm, FieldRule, FieldSource, Registry};
use arbiter_core::types::{Address, Filter, LogRecord};
use arbiter_core::json::{parse_json, render_json, render_scalar};
use arbiter_core::value::{dec_string, Value};

#[test]
fn scalars_render_as_json_text() {
    assert_eq!(render_scalar(&Value::Null), "null");
    assert_eq!(render_scalar(&Value::Bool(true)), "true");
    assert_eq!(render_scalar(&Value::Bool(false)), "false");
    assert_eq!(render_scalar(&Value::UInt(0)), "0");
    assert_eq!(render_scalar(&Value::UInt(340282366920938463463374607431768211455)), "340282366920938463463374607431768211455");
    assert_eq!(render_scalar(&Value::Str("plain".to_string())), "\"plain\"");
    assert_eq!(
        render_scalar(&Value::Str("a\"b\\c".to_string())),
        "\"a\\\"b\\\\c\""
    );
    assert_eq!(render_scalar(&Value::Str("x\ny".to_string())), "\"x\\u000ay\"");
}

#[test]
fn decimal_rendering_is_exact() {
    assert_eq!(dec_string(0), "0");
    assert_eq!(dec_string(7), "7");
    assert_eq!(dec_string(1230), "1230");
    assert_eq!(dec_string(42069000000000000000000), "42069000000000000000000");
}

#[test]
fn json_round_trip_reproduces_structure() {
    let mut m = EventMap::new();
    let lex = "lex".to_string();
    let price = "price".to_string();
    let volume = "volume".to_string();
    let registry = "registry".to_string();
    let fee = "fee".to_string();
    m.append(&lex, &price, Value::UInt(1000));
    m.append(&lex, &price, Value::UInt(1230));
    m.append(&lex, &volume, Value::Str("hi \"there\"\\".to_string()));
    m.append(&registry, &fee, Value::Bool(false));
    m.append(&registry, &fee, Value::Null);
    let text = render_json(&m, &Some(Value::UInt(9)));
    let (back, metadata) = parse_json(text.as_str()).expect("a rendered document parses");
    match metadata {
        Some(Value::UInt(9)) => {}
        _ => panic!("metadata must survive the round trip"),
    }
    let prices = back.lookup(&lex, &price);
    assert_eq!(prices.len(), 2);
    assert!(prices[0].equals(&Value::UInt(1000)));
    assert!(prices[1].equals(&Value::UInt(1230)));
    let volumes = back.lookup(&lex, &volume);
    assert_eq!(volumes.len(), 1);
    assert!(volumes[0].equals(&Value::Str("hi \"there\"\\".to_string())));
    let fees = back.lookup(&registry, &fee);
    assert_eq!(fees.len(), 2);
    assert!(fees[0].equals(&Value::Bool(false)));
    assert!(fees[1].equals(&Value::Null));
    // A second trip is byte-identical.
    let again = render_json(&back, &Some(Value::UInt(9)));
    assert_eq!(text, again);
}

#[test]
fn null_metadata_reads_back_as_absent() {
    let m = EventMap::new();
    let text = render_json(&m, &None);
    assert_eq!(text, "{\"events\":{},\"metadata\":null}");
    let (_, metadata) = parse_json(text.as_str()).expect("a rendered document parses");
    assert!(metadata.is_none());
}

#[test]
fn malformed_documents_are_rejected() {
    assert!(parse_json("").is_none());
    assert!(parse_json("{}").is_none());
    assert!(parse_json("{\"events\":{}").is_none());
    assert!(parse_json("{\"events\":{},\"metadata\":null} ").is_none());
    assert!(parse_json("{\"events\":{\"a\":1},\"metadata\":null}").is_none());
}

#[test]
fn lookup_of_absent_keys_is_empty() {
    let mut m = EventMap::new();
    let a = "a".to_string();
    let b = "b".to_string();
    m.append(&a, &b, Value::UInt(1));
    assert_eq!(m.lookup(&a, &a).len(), 0);
    assert_eq!(m.lookup(&b, &b).len(), 0);
    assert_eq!(m.lookup(&a, &b).len(), 1);
}

#[test]
fn parser_accepts_documents_with_mixed_scalars() {
    let text = "{\"events\":{\"a\":{\"b\":[1,true,null,\"x\"]}},\"metadata\":false}";
    let (m, metadata) = parse_json(text).expect("well-formed document");
    match metadata {
        Some(Value::Bool(false)) => {}
        _ => panic!("metadata must be the false scalar"),
    }
    let values = m.lookup(&"a".to_string(), &"b".to_string());
    assert_eq!(values.len(), 4);
    assert!(values[0].equals(&Value::UInt(1)));
    assert!(values[1].equals(&Value::Bool(true)));
    assert!(values[2].equals(&Value::Null));
    assert!(values[3].equals(&Value::Str("x".to_string())));
}

#[test]
fn parser_rejects_numbers_past_128_bits() {
    let fits = "{\"events\":{\"a\":{\"b\":[340282366920938463463374607431768211455]}},\"metadata\":null}";
    assert!(parse_json(fits).is_some());
    let too_wide = "{\"events\":{\"a\":{\"b\":[340282366920938463463374607431768211456]}},\"metadata\":null}";
    assert!(parse_json(too_wide).is_none());
}

#[test]
fn buckets_order_by_name_not_arrival() {
    let mut m = EventMap::new();
    let zeta = "zeta".to_string();
    let alpha = "alpha".to_string();
    let y = "y".to_string();
    let x = "x".to_string();
    // Streams and events arrive out of name order.
    m.append(&zeta, &y, Value::UInt(1));
    m.append(&zeta, &x, Value::UInt(2));
    m.append(&alpha, &y, Value::UInt(3));
    // The rendered document lists them ascending at both levels.
    let text = render_json(&m, &None);
    assert_eq!(
        text,
        "{\"events\":{\"alpha\":{\"y\":[3]},\"zeta\":{\"x\":[2],\"y\":[1]}},\"metadata\":null}"
    );
    // The flattened table follows the same ascending order.
    let rows = flatten_rows(&m);
    assert_eq!(rows.len(), 3);
    assert_eq!(rows[0].contract_name, "alpha");
    assert_eq!(rows[0].event_name, "y");
    assert_eq!(rows[1].contract_name, "zeta");
    assert_eq!(rows[1].event_name, "x");
    assert_eq!(rows[2].contract_name, "zeta");
    assert_eq!(rows[2].event_name, "y");
    let csv = render_csv(&rows);
    assert_eq!(
        csv,
        "contract_name,event_name,event_value\nalpha,y,3\nzeta,x,2\nzeta,y,1\n"
    );
}

#[test]
fn registry_entries_order_by_name_not_arrival() {
    let decoder = |field: &str| {
        Decoder::new(vec![FieldRule {
            name: field.to_string(),
            source: FieldSource::DataWord(0),
            form: FieldForm::Number,
        }])
    };
    let any = || Filter::new(None, Vec::new());
    let mut registry = Registry::new();
    registry.add("zeta".to_string(), any(), decoder("z"));
    registry.add("alpha".to_string(), any(), decoder("a"));
    let log = LogRecord::new(
        Address::from_low_byte(0x01),
        Vec::new(),
        arbiter_core::contract::word_bytes(9, 32),
    );
    // Both entries match; the outcomes walk the entries in ascending name
    // order, not arrival order.
    let outcomes = registry.match_and_decode(&log);
    assert_eq!(outcomes.len(), 2);
    assert_eq!(outcomes[0].name, "alpha");
    assert_eq!(outcomes[1].name, "zeta");
}
