use distconssim::bootstrap::sort_dedup_nodes;
use distconssim::engine::Engine;
use distconssim::error::AppError;
use distconssim::model::Instruction;
use distconssim::model::Net;
use distconssim::model::Transition;

fn transition(
    id: usize,
    value: isize,
    clock: usize,
    duration: usize,
    immediate: Vec<(isize, isize)>,
    delayed: Vec<(isize, isize)>,
) -> Transition {
    Transition {
        id,
        value,
        clock,
        duration,
        immediate_instructions: immediate.iter().map(Instruction::new).collect(),
        delayed_instructions: delayed.iter().map(Instruction::new).collect(),
        is_output: false,
    }
}

fn build(
    terminal: usize,
    node: &str,
    nodes: &[&str],
    nets: Vec<Net>,
) -> (Engine, Vec<(String, std::sync::mpsc::Sender<String>)>) {
    let nodes = sort_dedup_nodes(nodes.iter().map(|n| n.to_string()).collect());
    Engine::new(terminal, node.to_string(), nodes, nets).unwrap()
}

#[test]
fn single_node_runs_to_terminal_clock() {
    // one transition rescheduling itself one step ahead; three firings, then
    // the terminal clock is reached
    let net = Net { transitions: vec![transition(0, 0, 0, 1, vec![], vec![(0, 0)])] };
    let (mut e, senders) = build(3, "127.0.0.1:1", &["127.0.0.1:1"], vec![net]);
    assert!(senders.is_empty());
    let mut firings = 0;
    while e.clock < e.terminal_clock {
        let due = e.net.transitions[0].clock == e.clock && e.net.transitions[0].value <= 0;
        if due {
            firings += 1;
        }
        e.fire_due_transitions();
        let out = e.handle_external_events();
        assert!(out.is_empty());
        assert!(e.external_active_events.is_empty());
        e.tick().unwrap();
        e.handle_internal_events();
    }
    assert_eq!(firings, 3);
    assert_eq!(e.clock, 3);
    assert_eq!(e.net.transitions[0].clock, 3);
    assert_eq!(e.net.transitions[0].value, 0);
}

#[test]
fn reverse_order_firing_lets_later_transition_fire_first() {
    // both due at clock 0; the later one fires first, then the earlier one
    // sets its value to 1
    let net = Net {
        transitions: vec![
            transition(0, 0, 0, 1, vec![(1, 1)], vec![]),
            transition(1, 0, 0, 1, vec![], vec![]),
        ],
    };
    let (mut e, _) = build(1, "127.0.0.1:1", &["127.0.0.1:1"], vec![net]);
    e.fire_due_transitions();
    let out = e.handle_external_events();
    assert!(out.is_empty());
    e.tick().unwrap();
    e.handle_internal_events();
    assert_eq!(e.net.transitions[1].value, 1);
    assert_eq!(e.net.transitions[0].value, 0);
    assert_eq!(e.clock, 1);
}

#[test]
fn positive_value_is_never_selected_for_firing() {
    // due clock, positive value: its immediate instruction must not land
    let net = Net {
        transitions: vec![
            transition(0, 1, 0, 1, vec![(1, 5)], vec![]),
            transition(1, 0, 0, 1, vec![], vec![]),
        ],
    };
    let (mut e, _) = build(1, "127.0.0.1:1", &["127.0.0.1:1"], vec![net]);
    e.fire_due_transitions();
    assert_eq!(e.net.transitions[1].value, 0);
    assert_eq!(e.net.transitions[0].value, 1);
}

#[test]
fn zero_delayed_instructions_advance_by_step_each_iteration() {
    let net = Net { transitions: vec![transition(0, 0, 0, 1, vec![], vec![])] };
    let (mut e, _) = build(5, "127.0.0.1:1", &["127.0.0.1:1"], vec![net]);
    let mut expected = 0;
    while e.clock < e.terminal_clock {
        e.fire_due_transitions();
        e.handle_external_events();
        e.tick().unwrap();
        e.handle_internal_events();
        expected += 1;
        assert_eq!(e.clock, expected);
    }
    assert_eq!(e.clock, 5);
}

#[test]
fn two_nodes_one_cross_edge() {
    let node_a = "127.0.0.1:1";
    let node_b = "127.0.0.1:2";
    let nets = || vec![
        Net { transitions: vec![transition(0, 0, 0, 1, vec![], vec![(-2, -1)])] },
        Net { transitions: vec![transition(1, 0, 0, 1, vec![], vec![])] },
    ];
    let (mut a, senders_a) = build(2, node_a, &[node_a, node_b], nets());
    let (mut b, senders_b) = build(2, node_b, &[node_a, node_b], nets());
    // A feeds B across the edge; B feeds nobody
    assert_eq!(a.fed_nodes, vec![node_b.to_string()]);
    assert!(a.feeding_nodes.is_empty());
    assert!(senders_a.is_empty());
    assert!(b.fed_nodes.is_empty());
    assert_eq!(b.feeding_nodes.len(), 1);
    assert_eq!(b.feeding_nodes[0].name, node_a);
    assert_eq!(senders_b.len(), 1);

    // iteration at clock 0
    a.fire_due_transitions();
    b.fire_due_transitions();
    let out_a = a.handle_external_events();
    let out_b = b.handle_external_events();
    assert_eq!(out_a.len(), 1, "exactly one message for the one fed node");
    assert!(out_b.is_empty());
    assert_eq!(out_a[0].0, node_b);
    assert_eq!(
        String::from_utf8(out_a[0].1.clone()).unwrap(),
        format!("{{\"feeding_node\":\"{}\",\"transition_id\":1,\"value\":-1,\"clock\":1}}", node_a)
    );
    senders_b[0].1.send(String::from_utf8(out_a[0].1.clone()).unwrap()).unwrap();
    a.tick().unwrap();
    b.tick().unwrap();
    a.handle_internal_events();
    b.handle_internal_events();
    assert_eq!(a.clock, 1);
    assert_eq!(b.clock, 1);
    assert_eq!(b.net.transitions[0].value, -1);
    assert_eq!(b.net.transitions[0].clock, 1);

    // iteration at clock 1: B fires its transition; A sends the passive
    // promise for clock 2
    a.fire_due_transitions();
    b.fire_due_transitions();
    let out_a = a.handle_external_events();
    assert_eq!(out_a.len(), 1);
    assert_eq!(
        String::from_utf8(out_a[0].1.clone()).unwrap(),
        format!("{{\"feeding_node\":\"{}\",\"clock\":2}}", node_a)
    );
    senders_b[0].1.send(String::from_utf8(out_a[0].1.clone()).unwrap()).unwrap();
    b.handle_external_events();
    a.tick().unwrap();
    b.tick().unwrap();
    a.handle_internal_events();
    b.handle_internal_events();
    assert_eq!(a.clock, 2);
    assert_eq!(b.clock, 2);
    assert!(a.clock >= a.terminal_clock && b.clock >= b.terminal_clock);
}

#[test]
fn node_advances_on_passive_events_alone() {
    let node_a = "127.0.0.1:1";
    let node_b = "127.0.0.1:2";
    // B's first transition refires every step with no external edges; B's
    // second transition never fires but its external edge makes B feed A
    let nets = || vec![
        Net { transitions: vec![transition(0, 1, 0, 1, vec![], vec![])] },
        Net {
            transitions: vec![
                transition(1, 0, 0, 1, vec![], vec![(1, 0)]),
                transition(2, 1, 0, 1, vec![], vec![(-1, 0)]),
            ],
        },
    ];
    let (mut a, _senders_a) = build(2, node_a, &[node_a, node_b], nets());
    let (mut b, _senders_b) = build(2, node_b, &[node_a, node_b], nets());
    assert_eq!(a.feeding_nodes.len(), 1);
    assert_eq!(a.feeding_nodes[0].name, node_b);
    assert_eq!(b.fed_nodes, vec![node_a.to_string()]);
    let senders_for_a = _senders_a;
    assert_eq!(senders_for_a.len(), 1);

    while a.clock < a.terminal_clock || b.clock < b.terminal_clock {
        if b.clock < b.terminal_clock {
            b.fire_due_transitions();
            let out = b.handle_external_events();
            assert_eq!(out.len(), 1, "B sends A one message per iteration");
            assert_eq!(out[0].0, node_a);
            senders_for_a[0].1.send(String::from_utf8(out[0].1.clone()).unwrap()).unwrap();
            b.tick().unwrap();
            b.handle_internal_events();
        }
        if a.clock < a.terminal_clock {
            a.fire_due_transitions();
            a.handle_external_events();
            a.tick().unwrap();
            a.handle_internal_events();
        }
    }
    assert_eq!(a.clock, 2);
    assert_eq!(b.clock, 2);
    assert_eq!(a.feeding_nodes[0].clock, 2);
    // the never-enabled transition stayed untouched
    assert_eq!(b.net.transitions[1].value, 1);
}

#[test]
fn cohort_size_mismatch_is_fatal() {
    let nets = vec![
        Net { transitions: vec![transition(0, 0, 0, 1, vec![], vec![])] },
        Net { transitions: vec![transition(1, 0, 0, 1, vec![], vec![])] },
        Net { transitions: vec![transition(2, 0, 0, 1, vec![], vec![])] },
    ];
    let nodes = sort_dedup_nodes(vec!["127.0.0.1:1".to_string(), "127.0.0.1:2".to_string()]);
    let r = Engine::new(2, "127.0.0.1:1".to_string(), nodes, nets);
    assert!(matches!(r, Err(AppError::NetCountMismatch)));
}

#[test]
fn startup_validation_errors() {
    let one_net = || vec![Net { transitions: vec![transition(0, 0, 0, 1, vec![], vec![])] }];
    let one_node = || sort_dedup_nodes(vec!["127.0.0.1:1".to_string()]);

    let r = Engine::new(2, "127.0.0.1:1".to_string(), one_node(), vec![]);
    assert!(matches!(r, Err(AppError::NoNets)));

    let r = Engine::new(2, "127.0.0.1:1".to_string(), sort_dedup_nodes(vec![]), one_net());
    assert!(matches!(r, Err(AppError::NoNodes)));

    let r = Engine::new(2, "127.0.0.1:9".to_string(), one_node(), one_net());
    assert!(matches!(r, Err(AppError::SelfNotInNodes)));

    // the same global id in two nets
    let nets = vec![
        Net { transitions: vec![transition(0, 0, 0, 1, vec![], vec![])] },
        Net { transitions: vec![transition(0, 0, 0, 1, vec![], vec![])] },
    ];
    let nodes = sort_dedup_nodes(vec!["127.0.0.1:1".to_string(), "127.0.0.1:2".to_string()]);
    let r = Engine::new(2, "127.0.0.1:1".to_string(), nodes, nets);
    assert!(matches!(r, Err(AppError::DuplicateTransition(0))));

    // an immediate instruction marked external
    let nets = vec![Net { transitions: vec![transition(0, 0, 0, 1, vec![(-1, 0)], vec![])] }];
    let r = Engine::new(2, "127.0.0.1:1".to_string(), one_node(), nets);
    assert!(matches!(r, Err(AppError::ImmediateExternal(0))));

    // an immediate instruction to a transition nobody owns
    let nets = vec![Net { transitions: vec![transition(0, 0, 0, 1, vec![(7, 0)], vec![])] }];
    let r = Engine::new(2, "127.0.0.1:1".to_string(), one_node(), nets);
    assert!(matches!(r, Err(AppError::MissingTransition(7))));

    // a delayed instruction to a transition nobody owns
    let nets = vec![Net { transitions: vec![transition(0, 0, 0, 1, vec![], vec![(7, 0)])] }];
    let r = Engine::new(2, "127.0.0.1:1".to_string(), one_node(), nets);
    assert!(matches!(r, Err(AppError::MissingTransition(7))));

    // a delayed instruction marked external whose target this node owns
    let nets = vec![Net { transitions: vec![transition(0, 0, 0, 1, vec![], vec![(-1, 0)])] }];
    let r = Engine::new(2, "127.0.0.1:1".to_string(), one_node(), nets);
    assert!(matches!(r, Err(AppError::ExternalityMismatch(0))));
}

#[test]
fn undecodable_line_is_fatal_in_tick() {
    let node_a = "127.0.0.1:1";
    let node_b = "127.0.0.1:2";
    let nets = || vec![
        Net { transitions: vec![transition(0, 0, 0, 1, vec![], vec![(-2, -1)])] },
        Net { transitions: vec![transition(1, 0, 0, 1, vec![], vec![])] },
    ];
    let (mut b, senders_b) = build(2, node_b, &[node_a, node_b], nets());
    senders_b[0].1.send("not a message".to_string()).unwrap();
    assert!(matches!(b.tick(), Err(AppError::Decode)));
}

#[test]
fn closed_inbox_is_fatal_in_tick() {
    let node_a = "127.0.0.1:1";
    let node_b = "127.0.0.1:2";
    let nets = || vec![
        Net { transitions: vec![transition(0, 0, 0, 1, vec![], vec![(-2, -1)])] },
        Net { transitions: vec![transition(1, 0, 0, 1, vec![], vec![])] },
    ];
    let (mut b, senders_b) = build(2, node_b, &[node_a, node_b], nets());
    drop(senders_b);
    assert!(matches!(b.tick(), Err(AppError::ChannelClosed)));
}

#[test]
fn tick_takes_queued_lines_without_blocking() {
    let node_a = "127.0.0.1:1";
    let node_b = "127.0.0.1:2";
    let nets = || vec![
        Net { transitions: vec![transition(0, 0, 0, 1, vec![], vec![(-2, -1)])] },
        Net { transitions: vec![transition(1, 0, 0, 1, vec![], vec![])] },
    ];
    let (mut b, senders_b) = build(2, node_b, &[node_a, node_b], nets());
    // two lines already queued: the blocking receive takes the first, the
    // non-blocking drain the second
    senders_b[0]
        .1
        .send(format!(
            "{{\"feeding_node\":\"{node_a}\",\"transition_id\":1,\"value\":-1,\"clock\":1}}"
        ))
        .unwrap();
    senders_b[0]
        .1
        .send(format!("{{\"feeding_node\":\"{node_a}\",\"clock\":3}}"))
        .unwrap();
    b.tick().unwrap();
    assert_eq!(b.clock, 1, "the earliest buffered event sets the clock");
    assert_eq!(b.feeding_nodes[0].clock, 3, "the passive promise was integrated");
    assert_eq!(b.internal_active_events.len(), 1);
    b.handle_internal_events();
    assert_eq!(b.net.transitions[0].value, -1);
    assert!(b.internal_active_events.is_empty());
}

#[test]
fn integrate_lines_lands_actives_in_order_and_last_passive_wins() {
    let node_a = "127.0.0.1:1";
    let node_b = "127.0.0.1:2";
    let nets = || vec![
        Net { transitions: vec![transition(0, 0, 0, 1, vec![], vec![(-2, -1)])] },
        Net { transitions: vec![transition(1, 0, 0, 1, vec![], vec![])] },
    ];
    let (mut b, _senders_b) = build(5, node_b, &[node_a, node_b], nets());
    let lines = vec![
        format!("{{\"feeding_node\":\"{node_a}\",\"transition_id\":1,\"value\":-1,\"clock\":2}}"),
        format!("{{\"feeding_node\":\"{node_a}\",\"clock\":3}}"),
        format!("{{\"feeding_node\":\"{node_a}\",\"transition_id\":1,\"value\":-2,\"clock\":4}}"),
        format!("{{\"feeding_node\":\"{node_a}\",\"clock\":5}}"),
        // a passive event from a name no feeding node bears is dropped
        format!("{{\"feeding_node\":\"127.0.0.1:9\",\"clock\":99}}"),
    ];
    b.integrate_lines(&lines).unwrap();
    assert_eq!(b.internal_active_events.len(), 2, "both active events joined the buffer");
    assert_eq!(b.internal_active_events[0].clock, 2);
    assert_eq!(b.internal_active_events[0].value, -1);
    assert_eq!(b.internal_active_events[1].clock, 4);
    assert_eq!(b.internal_active_events[1].value, -2);
    assert_eq!(b.feeding_nodes[0].clock, 5, "the last passive promise wins");
    assert_eq!(b.clock, 0, "integration does not move the clock");
}

#[test]
fn integrate_lines_rejects_an_undecodable_batch() {
    let node_a = "127.0.0.1:1";
    let node_b = "127.0.0.1:2";
    let nets = || vec![
        Net { transitions: vec![transition(0, 0, 0, 1, vec![], vec![(-2, -1)])] },
        Net { transitions: vec![transition(1, 0, 0, 1, vec![], vec![])] },
    ];
    let (mut b, _senders_b) = build(5, node_b, &[node_a, node_b], nets());
    let lines = vec![
        format!("{{\"feeding_node\":\"{node_a}\",\"clock\":3}}"),
        "not a message".to_string(),
    ];
    assert!(matches!(b.integrate_lines(&lines), Err(AppError::Decode)));
}
