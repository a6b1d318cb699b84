//! The divergence detector, the streaming consumer, the registry's
//! overwrite rule, and the derived stream names.

use arbiter_core::contract::word_bytes;
use arbiter_core::digest::stream_id;
use arbiter_core::detector::{ObserveOutcome, SimpleArbitrageur};
use arbiter_core::hub::{Broadcast, BroadcastHub};
use arbiter_core::logger::EventLogger;
use arbiter_core::registry::{
    decode, DecodeError, Decoder, FieldForm, FieldRule, FieldSource, Registry,
};
use arbiter_core::stream::StreamStep;
use arbiter_core::types::{Address, Filter, LogRecord, Topic};

fn address_filter(b: u8) -> Filter {
    Filter::new(Some(Address::from_low_byte(b)), Vec::new())
}

fn record_from(addr: u8, value: u128) -> LogRecord {
    LogRecord::new(
        Address::from_low_byte(addr),
        Vec::new(),
        word_bytes(value, 32),
    )
}

fn number_decoder(field: &str) -> Decoder {
    Decoder::new(vec![FieldRule {
        name: field.to_string(),
        source: FieldSource::DataWord(0),
        form: FieldForm::Number,
    }])
}

#[test]
fn divergence_signal_after_both_venues_report() {
    let mut hub = BroadcastHub::new();
    let filters = vec![address_filter(0xAA), address_filter(0xBB)];
    let mut arb = SimpleArbitrageur::new("arbitrageur".to_string(), filters);
    arb.activate(&mut hub);
    hub.publish(Broadcast::Event(vec![
        record_from(0xAA, 1000),
        record_from(0xBB, 1230),
    ]));
    hub.publish(Broadcast::StopSignal);
    let outcomes = arb.detect_arbitrage(&mut hub);
    assert_eq!(outcomes.len(), 2);
    // After the first venue alone: insufficient data, no signal.
    assert!(matches!(outcomes[0], ObserveOutcome::InsufficientData));
    // After the second: the derived signal 1000 - 1230 = -230.
    match &outcomes[1] {
        ObserveOutcome::Signal(pairs) => {
            assert_eq!(pairs.len(), 1);
            assert_eq!(pairs[0].first, 0);
            assert_eq!(pairs[0].second, 1);
            assert!(pairs[0].negative);
            assert_eq!(pairs[0].magnitude, 230);
        }
        _ => panic!("both slots are populated: a signal is owed"),
    }
}

#[test]
fn simple_arbitrageur_event_filter() {
    // Price changes on the two watched venues pass the filters; an
    // unrelated token event does not.
    let filters = vec![address_filter(0xAA), address_filter(0xBB)];
    let arb = SimpleArbitrageur::new("arbitrageur".to_string(), filters);
    let wad: u128 = 10u128.pow(18);
    let price0 = record_from(0xAA, 42069 * wad);
    let price1 = record_from(0xBB, 69420 * wad);
    let mint = record_from(0x10, 1);
    assert!(arb.event_filters[0].matches(&price0));
    assert!(arb.event_filters[1].matches(&price1));
    assert!(!arb.event_filters[0].matches(&mint));
    assert!(!arb.event_filters[1].matches(&mint));
}

#[test]
fn simple_arbitrage_detection() {
    let mut hub = BroadcastHub::new();
    let filters = vec![address_filter(0xAA), address_filter(0xBB)];
    let mut arb = SimpleArbitrageur::new("arbitrageur".to_string(), filters);
    arb.activate(&mut hub);
    let wad: u128 = 10u128.pow(18);
    hub.publish(Broadcast::Event(vec![record_from(0xAA, 42069 * wad)]));
    hub.publish(Broadcast::Event(vec![record_from(0xBB, 69420 * wad)]));
    // An event the agent filters out changes nothing.
    hub.publish(Broadcast::Event(vec![record_from(0x10, 1)]));
    hub.publish(Broadcast::StopSignal);
    let outcomes = arb.detect_arbitrage(&mut hub);
    assert_eq!(outcomes.len(), 3);
    assert!(matches!(outcomes[0], ObserveOutcome::InsufficientData));
    match &outcomes[1] {
        ObserveOutcome::Signal(pairs) => {
            // The first venue lists lower: buy there.
            assert!(pairs[0].negative);
            assert_eq!(pairs[0].magnitude, (69420 - 42069) * wad);
        }
        _ => panic!("a signal is owed once both venues have reported"),
    }
    assert!(matches!(outcomes[2], ObserveOutcome::NoMatch));
    assert_eq!(arb.prices[0], Some(42069 * wad));
    assert_eq!(arb.prices[1], Some(69420 * wad));
}

#[test]
fn duplicate_registration_overwrites() {
    let mut registry = Registry::new();
    registry.add(
        "PriceChange".to_string(),
        address_filter(0xAA),
        number_decoder("price"),
    );
    // A second registration under the same name wins: only its filter and
    // decoder are ever applied.
    registry.add(
        "PriceChange".to_string(),
        address_filter(0xBB),
        number_decoder("newPrice"),
    );
    let old_style = record_from(0xAA, 1);
    let new_style = record_from(0xBB, 2);
    assert_eq!(registry.match_and_decode(&old_style).len(), 0);
    let outcomes = registry.match_and_decode(&new_style);
    assert_eq!(outcomes.len(), 1);
    assert_eq!(outcomes[0].name, "PriceChange");
    match &outcomes[0].result {
        Ok(fields) => {
            assert_eq!(fields.len(), 1);
            assert_eq!(fields[0].0, "newPrice");
            assert!(fields[0].1.equals(&arbiter_core::value::Value::UInt(2)));
        }
        Err(_) => panic!("the record fits the schema"),
    }
}

#[test]
fn decode_errors_name_their_cause() {
    let log = LogRecord::new(Address::from_low_byte(0x01), Vec::new(), vec![1u8; 16]);
    // The payload is shorter than one word.
    let short = Decoder::new(vec![FieldRule {
        name: "x".to_string(),
        source: FieldSource::DataWord(0),
        form: FieldForm::Number,
    }]);
    assert!(matches!(decode(&log, &short), Err(DecodeError::ShortData)));
    // There is no topic at the read position.
    let topical = Decoder::new(vec![FieldRule {
        name: "x".to_string(),
        source: FieldSource::TopicWord(0),
        form: FieldForm::Number,
    }]);
    assert!(matches!(decode(&log, &topical), Err(DecodeError::MissingTopic)));
    // The word's value exceeds 128 bits.
    let wide = LogRecord::new(Address::from_low_byte(0x01), Vec::new(), vec![1u8; 32]);
    let numeric = Decoder::new(vec![FieldRule {
        name: "x".to_string(),
        source: FieldSource::DataWord(0),
        form: FieldForm::Number,
    }]);
    assert!(matches!(decode(&wide, &numeric), Err(DecodeError::Overflow)));
}

#[test]
fn decode_failure_does_not_hide_other_entries() {
    let mut registry = Registry::new();
    // Both entries match the record; the first reads a missing topic.
    registry.add(
        "broken".to_string(),
        address_filter(0x01),
        Decoder::new(vec![FieldRule {
            name: "x".to_string(),
            source: FieldSource::TopicWord(3),
            form: FieldForm::Number,
        }]),
    );
    registry.add(
        "fine".to_string(),
        address_filter(0x01),
        number_decoder("v"),
    );
    let outcomes = registry.match_and_decode(&record_from(0x01, 77));
    assert_eq!(outcomes.len(), 2);
    assert_eq!(outcomes[0].name, "broken");
    assert!(outcomes[0].result.is_err());
    assert_eq!(outcomes[1].name, "fine");
    assert!(outcomes[1].result.is_ok());
}

#[test]
fn stream_yields_decoded_objects_lazily() {
    let mut hub = BroadcastHub::new();
    let logger = EventLogger::builder().add(
        &mut hub,
        address_filter(0xCC),
        number_decoder("amount"),
        "Transfer".to_string(),
    );
    let mut stream = logger.stream(&mut hub);
    // Nothing published yet: the consumer suspends.
    assert!(matches!(stream.poll_next(&mut hub), StreamStep::Pending));
    hub.publish(Broadcast::Event(vec![
        record_from(0xCC, 5),
        record_from(0x01, 6),
    ]));
    hub.publish(Broadcast::StopSignal);
    match stream.poll_next(&mut hub) {
        StreamStep::Items(items) => {
            assert_eq!(items.len(), 1);
            assert_eq!(items[0], "{\"amount\":5}");
        }
        _ => panic!("the batch yields one matching record"),
    }
    assert!(matches!(stream.poll_next(&mut hub), StreamStep::Ended));
    // The sequence is not restartable.
    assert!(matches!(stream.poll_next(&mut hub), StreamStep::Ended));
    // No acknowledgement is owed by a stream consumer.
    assert!(hub.all_acknowledged());
}

#[test]
fn derived_stream_names_are_stable_hex() {
    let f1 = address_filter(0xAA);
    let f2 = address_filter(0xAA);
    let f3 = address_filter(0xBB);
    let id1 = stream_id(&f1);
    let id2 = stream_id(&f2);
    let id3 = stream_id(&f3);
    // 32 digest bytes render as 64 hexadecimal characters.
    assert_eq!(id1.len(), 64);
    assert!(id1.chars().all(|c| c.is_ascii_hexdigit() && !c.is_ascii_uppercase()));
    // Equal filters get equal names; different filters differ.
    assert_eq!(id1, id2);
    assert_ne!(id1, id3);
}

#[test]
fn add_stream_registers_under_the_derived_name() {
    let mut hub = BroadcastHub::new();
    let filter = address_filter(0xCC);
    let name = stream_id(&filter);
    let logger = EventLogger::builder().add_stream(
        &mut hub,
        address_filter(0xCC),
        number_decoder("amount"),
    );
    assert_eq!(logger.registry.entries.len(), 1);
    assert_eq!(logger.registry.entries[0].name, name);
}

#[test]
fn match_is_deterministic_and_pure() {
    let f = address_filter(0xAA);
    let l = record_from(0xAA, 1);
    let first = f.matches(&l);
    let second = f.matches(&l);
    assert_eq!(first, second);
    assert!(first);
}

#[test]
fn topic_pattern_without_topic_never_matches() {
    // The filter constrains the first topic; a record with no topics at all
    // cannot satisfy it.
    let filter = Filter::new(None, vec![Some(Topic::new(vec![1u8; 32]))]);
    let bare = record_from(0x01, 5);
    assert!(!filter.matches(&bare));
    // An absent positional pattern constrains nothing.
    let open_filter = Filter::new(None, vec![None]);
    assert!(open_filter.matches(&bare));
}
