use lichtung::actor::WorldLine;
use lichtung::clock::{ActorId, Lamport, VectorClock};
use lichtung::envelope::Envelope;
use lichtung::event::{compute_event, emit_event, mid, parse_mid, recv_event};
use lichtung::log::Op;

fn envelope() -> Envelope<Box<u8>> {
    let src = ActorId::from("src");
    let mut clock = VectorClock::new();
    clock.increment(&src);
    Envelope {
        msg: Box::new(7u8),
        vclock: clock,
        lamport: Lamport(1),
        msg_id: 5,
        src,
        dst: ActorId::from("dst"),
    }
}

#[test]
fn emit_event_maps_envelope_to_schema_fields() {
    let mut clock = VectorClock::new();
    clock.increment(&ActorId::from("src"));
    let env = Envelope {
        msg: Box::new(7u32),
        vclock: clock.clone(),
        lamport: Lamport(1),
        msg_id: 4,
        src: ActorId::from("src"),
        dst: ActorId::from("dst"),
    };
    let ev = emit_event(&ActorId::from("src"), 1, &env);
    assert_eq!(ev.actor, "src");
    assert_eq!(ev.seq, 1);
    assert_eq!(ev.op, Op::Emit);
    assert_eq!(ev.msg_id.as_deref(), Some("m4"));
    assert_eq!(ev.src.as_deref(), Some("src"));
    assert_eq!(ev.dst.as_deref(), Some("dst"));
    assert_eq!(ev.vclock.get("src"), Some(&1));
    assert_eq!(ev.id, "src:1");
}

#[test]
fn recv_event_carries_the_receivers_stamps() {
    let mut world = WorldLine::new(ActorId::from("dst"));
    let env = envelope();
    assert!(world.can_receive(&env));
    let ev = world.receive(&env);
    assert_eq!(ev.op, Op::Recv);
    assert_eq!(ev.id, "dst:1");
    assert_eq!(ev.vclock.get("src"), Some(&1));
    assert_eq!(ev.vclock.get("dst"), Some(&1));
    assert_eq!(ev.lamport, 2);
    assert_eq!(ev.msg_id.as_deref(), Some("m5"));
    assert_eq!((ev.src.as_deref(), ev.dst.as_deref()), (Some("src"), Some("dst")));
    let again = recv_event(&ActorId::from("dst"), 9, &env.vclock, 3, &env);
    assert_eq!((again.id.as_str(), again.lamport), ("dst:9", 3));
}

#[test]
fn compute_event_has_no_message() {
    let ev = compute_event(&ActorId::from("a"), 18446744073709551615, &VectorClock::new(), 4);
    assert_eq!(ev.op, Op::Compute);
    assert_eq!(ev.id, "a:18446744073709551615");
    assert!(ev.msg_id.is_none() && ev.src.is_none() && ev.dst.is_none());
}

#[test]
fn message_names_read_back() {
    for n in [0, 1, 9, 10, 42, u64::MAX] {
        assert_eq!(mid(n), Some(format!("m{n}")));
        assert_eq!(parse_mid(&mid(n).unwrap()), Some(n));
    }
    assert_eq!(parse_mid("m+7"), Some(7));
    assert_eq!(parse_mid("m007"), Some(7));
    assert_eq!(parse_mid("m18446744073709551616"), None);
    for bad in ["", "m", "7", "n7", "m-1", "m+", "m 1", "m1 ", "m++1", "m\u{0661}"] {
        assert_eq!(parse_mid(bad), None, "{bad:?}");
        let like = bad.strip_prefix('m').and_then(|d| d.parse::<u64>().ok());
        assert_eq!(parse_mid(bad), like);
    }
}

#[test]
fn a_receipt_is_after_the_send_and_after_what_came_before() {
    let mut world = WorldLine::new(ActorId::from("dst"));
    let env = envelope();
    let first = world.receive(&env);
    let second = world.receive(&env);
    let clock = |m: &lichtung::clock_map::ClockMap| lichtung::replay::index::vclock_from(m);
    assert!(env.vclock.happens_before(&clock(&first.vclock)));
    assert!(clock(&first.vclock).happens_before(&clock(&second.vclock)));
}
