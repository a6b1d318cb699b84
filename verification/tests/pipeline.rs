//! End-to-end scenarios: hub delivery order, logger accumulation, and the
//! flush formats.

use arbiter_core::hub::{Broadcast, BroadcastHub};
use arbiter_core::logger::{EventLogger, OutputFileType, SinkContent};
use arbiter_core::registry::{Decoder, FieldForm, FieldRule, FieldSource};
use arbiter_core::types::{Address, Filter, LogRecord, Topic};
use arbiter_core::value::Value;

fn address_filter(b: u8) -> Filter {
    Filter::new(Some(Address::from_low_byte(b)), Vec::new())
}

fn word_of(v: u128) -> Vec<u8> {
    arbiter_core::contract::word_bytes(v, 32)
}

fn record_from(addr: u8, value: u128) -> LogRecord {
    LogRecord::new(Address::from_low_byte(addr), Vec::new(), word_of(value))
}

fn amount_decoder() -> Decoder {
    Decoder::new(vec![FieldRule {
        name: "amount".to_string(),
        source: FieldSource::DataWord(0),
        form: FieldForm::Text,
    }])
}

#[test]
fn subscriber_sees_publish_order_exactly_once() {
    let mut hub = BroadcastHub::new();
    let id = hub.register(false);
    let other = hub.register(false);
    hub.publish(Broadcast::Event(vec![record_from(0x01, 7)]));
    hub.publish(Broadcast::Event(vec![record_from(0x02, 8)]));
    hub.publish(Broadcast::StopSignal);
    // First subscriber sees the three messages in publish order, then
    // nothing more.
    match hub.receive(id) {
        Some(Broadcast::Event(batch)) => {
            assert_eq!(batch.len(), 1);
            assert_eq!(batch[0].data, word_of(7));
        }
        _ => panic!("expected the first event"),
    }
    match hub.receive(id) {
        Some(Broadcast::Event(batch)) => {
            assert_eq!(batch[0].data, word_of(8));
        }
        _ => panic!("expected the second event"),
    }
    assert!(matches!(hub.receive(id), Some(Broadcast::StopSignal)));
    assert!(hub.receive(id).is_none());
    // The other subscriber independently sees the same order.
    match hub.receive(other) {
        Some(Broadcast::Event(batch)) => {
            assert_eq!(batch[0].data, word_of(7));
        }
        _ => panic!("expected the first event again"),
    }
}

#[test]
fn logger_json_scenario_single_transfer() {
    let mut hub = BroadcastHub::new();
    let logger = EventLogger::builder().add(
        &mut hub,
        address_filter(0xCC),
        amount_decoder(),
        "Transfer".to_string(),
    );
    hub.publish(Broadcast::Event(vec![record_from(0xCC, 42)]));
    hub.publish(Broadcast::StopSignal);
    let out = logger.run(&mut hub);
    assert_eq!(out.path, "./data/output.json");
    match out.content {
        SinkContent::Text(s) => {
            assert_eq!(s, "{\"events\":{\"Transfer\":{\"amount\":[\"42\"]}},\"metadata\":null}");
        }
        _ => panic!("JSON flush must produce text"),
    }
    assert!(hub.all_acknowledged());
}

#[test]
fn unmatched_record_changes_nothing() {
    let mut hub = BroadcastHub::new();
    let logger = EventLogger::builder().add(
        &mut hub,
        address_filter(0xCC),
        amount_decoder(),
        "Transfer".to_string(),
    );
    // A record from an address no filter selects: accumulated state stays
    // empty and nothing fails.
    hub.publish(Broadcast::Event(vec![record_from(0xAB, 42)]));
    hub.publish(Broadcast::StopSignal);
    let out = logger.run(&mut hub);
    match out.content {
        SinkContent::Text(s) => {
            assert_eq!(s, "{\"events\":{},\"metadata\":null}");
        }
        _ => panic!("JSON flush must produce text"),
    }
}

#[test]
fn stop_with_no_events_flushes_valid_empty_output() {
    // JSON.
    let mut hub = BroadcastHub::new();
    let logger = EventLogger::builder().add(
        &mut hub,
        address_filter(0xCC),
        amount_decoder(),
        "Transfer".to_string(),
    );
    hub.publish(Broadcast::StopSignal);
    let out = logger.run(&mut hub);
    match out.content {
        SinkContent::Text(s) => assert_eq!(s, "{\"events\":{},\"metadata\":null}"),
        _ => panic!("JSON flush must produce text"),
    }
    // CSV: the header line alone.
    let mut hub2 = BroadcastHub::new();
    let logger2 = EventLogger::builder()
        .add(
            &mut hub2,
            address_filter(0xCC),
            amount_decoder(),
            "Transfer".to_string(),
        )
        .file_type(OutputFileType::CSV);
    hub2.publish(Broadcast::StopSignal);
    let out2 = logger2.run(&mut hub2);
    assert_eq!(out2.path, "./data/output.csv");
    match out2.content {
        SinkContent::Text(s) => {
            assert_eq!(s, "contract_name,event_name,event_value\n");
        }
        _ => panic!("CSV flush must produce text"),
    }
    // The columnar format: an empty table.
    let mut hub3 = BroadcastHub::new();
    let logger3 = EventLogger::builder()
        .add(
            &mut hub3,
            address_filter(0xCC),
            amount_decoder(),
            "Transfer".to_string(),
        )
        .file_type(OutputFileType::Parquet);
    hub3.publish(Broadcast::StopSignal);
    let out3 = logger3.run(&mut hub3);
    assert_eq!(out3.path, "./data/output.parquet");
    match out3.content {
        SinkContent::Table(rows) => assert!(rows.is_empty()),
        _ => panic!("the columnar flush must produce a table"),
    }
}

#[test]
fn flush_twice_is_byte_identical() {
    let mut hub = BroadcastHub::new();
    let mut logger = EventLogger::builder().add(
        &mut hub,
        address_filter(0xCC),
        amount_decoder(),
        "Transfer".to_string(),
    );
    logger
        .accumulated
        .append(&"Transfer".to_string(), &"amount".to_string(), Value::UInt(5));
    let first = logger.flush_output();
    let second = logger.flush_output();
    assert_eq!(first.path, second.path);
    match (first.content, second.content) {
        (SinkContent::Text(a), SinkContent::Text(b)) => assert_eq!(a, b),
        _ => panic!("JSON flushes must produce text"),
    }
}

#[test]
fn configured_directory_name_and_metadata() {
    let mut hub = BroadcastHub::new();
    let logger = EventLogger::builder()
        .add(
            &mut hub,
            address_filter(0xCC),
            amount_decoder(),
            "Transfer".to_string(),
        )
        .directory("out".to_string())
        .file_name("events".to_string())
        .metadata(Value::Str("run-1".to_string()));
    hub.publish(Broadcast::Event(vec![record_from(0xCC, 3)]));
    hub.publish(Broadcast::StopSignal);
    let out = logger.run(&mut hub);
    assert_eq!(out.path, "out/events.json");
    match out.content {
        SinkContent::Text(s) => {
            assert_eq!(
                s,
                "{\"events\":{\"Transfer\":{\"amount\":[\"3\"]}},\"metadata\":\"run-1\"}"
            );
        }
        _ => panic!("JSON flush must produce text"),
    }
}

#[test]
fn csv_flush_renders_tidy_rows() {
    let mut hub = BroadcastHub::new();
    let logger = EventLogger::builder()
        .add(
            &mut hub,
            address_filter(0xCC),
            amount_decoder(),
            "Transfer".to_string(),
        )
        .file_type(OutputFileType::CSV);
    hub.publish(Broadcast::Event(vec![
        record_from(0xCC, 1),
        record_from(0xCC, 2),
    ]));
    hub.publish(Broadcast::StopSignal);
    let out = logger.run(&mut hub);
    match out.content {
        SinkContent::Text(s) => {
            assert_eq!(
                s,
                "contract_name,event_name,event_value\n\
                 Transfer,amount,\"\"\"1\"\"\"\n\
                 Transfer,amount,\"\"\"2\"\"\"\n"
            );
        }
        _ => panic!("CSV flush must produce text"),
    }
}

#[test]
fn topic_patterns_select_positionally() {
    let mut hub = BroadcastHub::new();
    let topic = Topic::new(vec![9u8; 32]);
    let filter = Filter::new(None, vec![Some(topic)]);
    let logger = EventLogger::builder().add(
        &mut hub,
        filter,
        amount_decoder(),
        "Topical".to_string(),
    );
    let matching = LogRecord::new(
        Address::from_low_byte(0x01),
        vec![Topic::new(vec![9u8; 32])],
        word_of(5),
    );
    // Same address, different first topic: filtered out.
    let other = LogRecord::new(
        Address::from_low_byte(0x01),
        vec![Topic::new(vec![8u8; 32])],
        word_of(6),
    );
    hub.publish(Broadcast::Event(vec![matching, other]));
    hub.publish(Broadcast::StopSignal);
    let out = logger.run(&mut hub);
    match out.content {
        SinkContent::Text(s) => {
            assert_eq!(s, "{\"events\":{\"Topical\":{\"amount\":[\"5\"]}},\"metadata\":null}");
        }
        _ => panic!("JSON flush must produce text"),
    }
}
