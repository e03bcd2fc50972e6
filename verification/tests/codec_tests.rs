use distconssim::codec::parse_envelope;
use distconssim::codec::parse_event;
use distconssim::codec::serialize_active;
use distconssim::codec::serialize_passive;
use distconssim::model::ActiveEvent;
use distconssim::model::Event;
use distconssim::model::PassiveEvent;

#[test]
fn active_event_serializes_to_canonical_line() {
    let e = ActiveEvent {
        feeding_node: String::from("127.0.0.1:1"),
        transition_id: 5,
        value: -1,
        clock: 3,
    };
    let line = serialize_active(&e);
    assert_eq!(
        String::from_utf8(line).unwrap(),
        "{\"feeding_node\":\"127.0.0.1:1\",\"transition_id\":5,\"value\":-1,\"clock\":3}"
    );
}

#[test]
fn passive_event_serializes_to_canonical_line() {
    let e = PassiveEvent { feeding_node: String::from("127.0.0.1:2"), clock: 7 };
    let line = serialize_passive(&e);
    assert_eq!(
        String::from_utf8(line).unwrap(),
        "{\"feeding_node\":\"127.0.0.1:2\",\"clock\":7}"
    );
}

#[test]
fn active_event_round_trips() {
    let e = ActiveEvent {
        feeding_node: String::from("10.0.0.7:4242"),
        transition_id: 0,
        value: -9_000,
        clock: 123_456,
    };
    let line = serialize_active(&e);
    let text = String::from_utf8(line).unwrap();
    match parse_event(&text) {
        Some(Event::Active(a)) => {
            assert_eq!(a.feeding_node, e.feeding_node);
            assert_eq!(a.transition_id, e.transition_id);
            assert_eq!(a.value, e.value);
            assert_eq!(a.clock, e.clock);
        }
        _ => panic!("expected an active event"),
    }
}

#[test]
fn passive_event_round_trips() {
    let e = PassiveEvent { feeding_node: String::from("host-9:80"), clock: 0 };
    let line = serialize_passive(&e);
    let text = String::from_utf8(line).unwrap();
    match parse_event(&text) {
        Some(Event::Passive(p)) => {
            assert_eq!(p.feeding_node, e.feeding_node);
            assert_eq!(p.clock, e.clock);
        }
        _ => panic!("expected a passive event"),
    }
}

#[test]
fn extreme_values_round_trip() {
    let e = ActiveEvent {
        feeding_node: String::from("n:1"),
        transition_id: usize::MAX,
        value: isize::MIN,
        clock: usize::MAX,
    };
    let line = serialize_active(&e);
    let text = String::from_utf8(line).unwrap();
    match parse_event(&text) {
        Some(Event::Active(a)) => {
            assert_eq!(a.transition_id, usize::MAX);
            assert_eq!(a.value, isize::MIN);
            assert_eq!(a.clock, usize::MAX);
        }
        _ => panic!("expected an active event"),
    }
}

#[test]
fn garbage_lines_do_not_parse() {
    assert!(parse_event("").is_none());
    assert!(parse_event("{}").is_none());
    assert!(parse_event("{\"feeding_node\":\"a\"}").is_none());
    assert!(parse_event("{\"feeding_node\":\"a\",\"clock\":}").is_none());
    assert!(parse_event("{\"feeding_node\":\"a\",\"clock\":1").is_none());
    assert!(parse_event("{\"other\":\"a\",\"clock\":1}").is_none());
    assert!(parse_event("{\"feeding_node\":\"a\",\"clock\":1}x").is_none());
}

#[test]
fn overflowing_numbers_do_not_parse() {
    // one past usize::MAX on a 64-bit machine
    let line = "{\"feeding_node\":\"a\",\"clock\":18446744073709551616}";
    assert!(parse_event(line).is_none());
}

#[test]
fn passive_line_parses_to_expected_fields() {
    match parse_event("{\"feeding_node\":\"127.0.0.1:9\",\"clock\":41}") {
        Some(Event::Passive(p)) => {
            assert_eq!(p.feeding_node, "127.0.0.1:9");
            assert_eq!(p.clock, 41);
        }
        _ => panic!("expected a passive event"),
    }
}

#[test]
fn envelope_names_the_sender_for_both_shapes() {
    let g = parse_envelope("{\"feeding_node\":\"127.0.0.1:3\",\"clock\":2}").unwrap();
    assert_eq!(g.feeding_node, "127.0.0.1:3");
    let g =
        parse_envelope("{\"feeding_node\":\"h:1\",\"transition_id\":0,\"value\":0,\"clock\":0}")
            .unwrap();
    assert_eq!(g.feeding_node, "h:1");
    assert!(parse_envelope("{\"clock\":2}").is_none());
}
