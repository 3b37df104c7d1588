use lichtung::clock_map::ClockMap;
use lichtung::log::{CausalEvent, Op};
use lichtung::replay::engine::replay_log;
use lichtung::replay::error::ReplayError;
use lichtung::replay::extension::linearize;
use lichtung::replay::poset::{hb_strict, Poset};

fn clock(vc: &[(&str, u64)]) -> ClockMap {
    let mut m = ClockMap::new();
    for (k, v) in vc {
        m.insert(k.to_string(), *v);
    }
    m
}

fn ev(actor: &str, seq: u64, op: Op, lamport: u64, vc: &[(&str, u64)]) -> CausalEvent {
    CausalEvent {
        id: format!("{actor}:{seq}"),
        actor: actor.to_string(),
        seq,
        op,
        vclock: clock(vc),
        lamport,
        msg_id: None,
        src: None,
        dst: None,
        value: None,
        payload_hash: None,
    }
}

fn with_msg(mut e: CausalEvent, msg_id: &str, src: &str, dst: &str) -> CausalEvent {
    e.msg_id = Some(msg_id.to_string());
    e.src = Some(src.to_string());
    e.dst = Some(dst.to_string());
    e
}

#[test]
fn builds_program_order_and_message_edges() {
    let events = vec![
        with_msg(ev("world", 1, Op::Emit, 1, &[("world", 1)]), "m1", "world", "a"),
        with_msg(ev("a", 1, Op::Recv, 2, &[("world", 1), ("a", 1)]), "m1", "world", "a"),
        with_msg(ev("a", 2, Op::Emit, 3, &[("world", 1), ("a", 2)]), "m2", "a", "b"),
        with_msg(ev("b", 1, Op::Recv, 4, &[("world", 1), ("a", 2), ("b", 1)]), "m2", "a", "b"),
    ];
    let p = Poset::build(&events).unwrap();
    assert!(p.edges.contains(&(1, 2)), "program-order edge a:1->a:2 missing");
    assert!(p.edges.contains(&(0, 1)), "message edge m1 missing");
    assert!(p.edges.contains(&(2, 3)), "message edge m2 missing");
    assert_eq!(p.edges.len(), 3);
}

#[test]
fn recv_without_emit_is_missing_emit_error() {
    let events = vec![with_msg(ev("a", 1, Op::Recv, 1, &[("a", 1)]), "ghost", "x", "a")];
    let err = Poset::build(&events).unwrap_err();
    assert!(matches!(err, ReplayError::MissingEmit(_, _)));
    if let ReplayError::MissingEmit(id, msg) = err {
        assert_eq!((id.as_str(), msg.as_str()), ("a:1", "ghost"));
    }
}

#[test]
fn valid_log_passes_validation() {
    let events = vec![
        with_msg(ev("world", 1, Op::Emit, 1, &[("world", 1)]), "m1", "world", "a"),
        with_msg(ev("a", 1, Op::Recv, 2, &[("world", 1), ("a", 1)]), "m1", "world", "a"),
    ];
    Poset::build(&events).unwrap().validate().unwrap();
}

#[test]
fn inconsistent_vclock_on_an_edge_is_rejected() {
    let events = vec![
        with_msg(ev("world", 1, Op::Emit, 1, &[("world", 1)]), "m1", "world", "a"),
        with_msg(ev("a", 1, Op::Recv, 2, &[("a", 1)]), "m1", "world", "a"),
    ];
    let err = Poset::build(&events).unwrap().validate().unwrap_err();
    assert!(matches!(err, ReplayError::Inconsistent(_, _)));
    if let ReplayError::Inconsistent(a, b) = err {
        assert_eq!((a.as_str(), b.as_str()), ("world:1", "a:1"));
    }
    assert!(matches!(replay_log(&events), Err(ReplayError::Inconsistent(_, _))));
}

#[test]
fn duplicate_emit_msg_id_is_rejected() {
    let events = vec![
        with_msg(ev("a", 1, Op::Emit, 1, &[("a", 1)]), "dup", "a", "b"),
        with_msg(ev("a", 2, Op::Emit, 2, &[("a", 2)]), "dup", "a", "c"),
    ];
    assert!(matches!(Poset::build(&events).unwrap_err(), ReplayError::DuplicateEmit(_)));
    if let Err(ReplayError::DuplicateEmit(m)) = replay_log(&events) {
        assert_eq!(m, "dup");
    } else {
        panic!("a message sent twice must be refused");
    }
}

#[test]
fn duplicate_actor_seq_is_rejected() {
    let events = vec![
        ev("a", 1, Op::Compute, 1, &[("a", 1)]),
        ev("a", 1, Op::Compute, 2, &[("a", 1)]),
    ];
    assert!(matches!(Poset::build(&events).unwrap_err(), ReplayError::DuplicateSeq(_, _)));
    if let Err(ReplayError::DuplicateSeq(a, n)) = replay_log(&events) {
        assert_eq!((a.as_str(), n), ("a", 1));
    } else {
        panic!("a repeated counter must be refused");
    }
}

#[test]
fn hb_strict_basics() {
    let a = clock(&[("x", 1)]);
    let b = clock(&[("x", 1), ("y", 1)]);
    assert!(hb_strict(&a, &b));
    assert!(!hb_strict(&b, &a));
    assert!(!hb_strict(&a, &a));
    let c = clock(&[("y", 1)]);
    assert!(!hb_strict(&a, &c));
}

#[test]
fn a_missing_component_counts_as_zero() {
    let a = clock(&[("x", 1)]);
    let b = clock(&[("x", 1), ("y", 0)]);
    assert!(!hb_strict(&a, &b));
    assert!(!hb_strict(&b, &a));
    assert!(hb_strict(&b, &clock(&[("x", 2)])));
}

fn fanin_log() -> Vec<CausalEvent> {
    vec![
        with_msg(ev("world", 1, Op::Emit, 1, &[("world", 1)]), "m1", "world", "a"),
        with_msg(ev("world", 2, Op::Emit, 2, &[("world", 2)]), "m2", "world", "b"),
        with_msg(ev("a", 1, Op::Recv, 3, &[("world", 1), ("a", 1)]), "m1", "world", "a"),
        with_msg(ev("b", 1, Op::Recv, 4, &[("world", 2), ("b", 1)]), "m2", "world", "b"),
    ]
}

#[test]
fn order_respects_all_edges() {
    let events = fanin_log();
    let p = Poset::build(&events).unwrap();
    let order = linearize(&p).unwrap();
    let pos: std::collections::HashMap<usize, usize> =
        order.iter().enumerate().map(|(rank, &i)| (i, rank)).collect();
    for &(a, b) in &p.edges {
        assert!(pos[&a] < pos[&b], "edge {a}->{b} violated by the linear extension");
    }
}

#[test]
fn is_deterministic() {
    let events = fanin_log();
    let p = Poset::build(&events).unwrap();
    assert_eq!(linearize(&p).unwrap(), linearize(&p).unwrap());
}

#[test]
fn tie_break_orders_concurrent_by_lamport_then_actor() {
    let events = fanin_log();
    let p = Poset::build(&events).unwrap();
    let order = linearize(&p).unwrap();
    let id_order: Vec<&str> = order.iter().map(|&i| events[i].id.as_str()).collect();
    let ia = id_order.iter().position(|s| *s == "a:1").unwrap();
    let ib = id_order.iter().position(|s| *s == "b:1").unwrap();
    assert!(ia < ib, "lower-lamport concurrent event should come first");
}

#[test]
fn equal_lamport_stamps_go_by_actor_then_counter() {
    let events = vec![
        ev("b", 1, Op::Compute, 1, &[("b", 1)]),
        ev("a", 2, Op::Compute, 1, &[("a", 2)]),
        ev("a", 1, Op::Compute, 1, &[("a", 1)]),
        ev("Z", 9, Op::Compute, 1, &[("Z", 1)]),
    ];
    let p = Poset { events: &events, edges: vec![] };
    assert_eq!(linearize(&p).unwrap(), vec![3, 2, 1, 0]);
}

#[test]
fn a_cycle_is_reported_with_the_events_left_over() {
    let events = vec![
        ev("a", 1, Op::Compute, 1, &[("a", 1)]),
        ev("b", 1, Op::Compute, 2, &[("b", 1)]),
        ev("c", 1, Op::Compute, 3, &[("c", 1)]),
    ];
    let p = Poset { events: &events, edges: vec![(1, 2), (2, 1)] };
    assert!(matches!(linearize(&p), Err(ReplayError::Cycle(2))));
}

#[test]
fn a_log_replays_into_its_timeline_and_order() {
    let mut events = fanin_log();
    events.reverse();
    let r = replay_log(&events).unwrap();
    let ids: Vec<&str> = r.timeline.iter().map(|e| e.id.as_str()).collect();
    assert_eq!(ids, vec!["world:1", "world:2", "a:1", "b:1"]);
    assert_eq!(r.poset_json.events, ids);
    let pair = |a: &str, b: &str| (a.to_string(), b.to_string());
    assert_eq!(r.poset_json.edges.len(), 3);
    assert!(r.poset_json.edges.contains(&pair("world:1", "world:2")));
    assert!(r.poset_json.edges.contains(&pair("world:1", "a:1")));
    assert!(r.poset_json.edges.contains(&pair("world:2", "b:1")));
    assert_eq!(r.poset_json.concurrent, vec![pair("world:2", "a:1"), pair("a:1", "b:1")]);
}

#[test]
fn an_empty_log_has_an_empty_timeline() {
    let r = replay_log(&[]).unwrap();
    assert!(r.timeline.is_empty());
    assert!(r.poset_json.edges.is_empty());
}

#[test]
fn a_log_in_another_order_has_the_same_edges() {
    let events = fanin_log();
    let p = Poset::build(&events).unwrap();
    let from = [2usize, 0, 3, 1];
    let shuffled: Vec<CausalEvent> = from.iter().map(|&i| events[i].clone()).collect();
    let q = Poset::build(&shuffled).unwrap();
    let mut renamed: Vec<(usize, usize)> = q.edges.iter().map(|&(a, b)| (from[a], from[b])).collect();
    let mut edges = p.edges.clone();
    renamed.sort();
    edges.sort();
    assert_eq!(renamed, edges);
}

#[test]
fn a_message_to_oneself_gives_two_edges() {
    let events = vec![
        with_msg(ev("a", 1, Op::Emit, 1, &[("a", 1)]), "m1", "a", "a"),
        with_msg(ev("a", 2, Op::Recv, 2, &[("a", 2)]), "m1", "a", "a"),
    ];
    assert_eq!(Poset::build(&events).unwrap().edges, vec![(0, 1), (0, 1)]);
}
