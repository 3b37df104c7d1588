use lichtung::actor::Actor;
use lichtung::addr::Addr;
use lichtung::clock_map::ClockMap;
use lichtung::context::Context;
use lichtung::dispatch::Dispatch;
use lichtung::envelope::Payload;
use lichtung::event::parse_mid;
use lichtung::log::{CausalEvent, Op};
use lichtung::replay::error::ReplayError;
use lichtung::replay::index::{vclock_from, RecordedIndex};
use lichtung::replay::outcome::Turn;
use lichtung::replay::reexec::{ReplayDispatch, ReplaySystem};
use std::any::Any;

/// A payload of any type.
#[derive(Debug)]
struct Erased(Box<dyn Any + Send>);

impl<M: Send + 'static> Payload<M> for Erased {
    fn wrap(msg: M) -> Self {
        Erased(Box::new(msg))
    }
    fn unwrap_msg(self) -> Result<M, Self> {
        self.0.downcast::<M>().map(|b| *b).map_err(Erased)
    }
}

type Backend = ReplayDispatch<Erased>;

struct Noop;
impl<B: Dispatch<Erased>> Actor<B> for Noop {
    type Msg = u32;
    fn handle(&mut self, _m: u32, _ctx: &mut Context<B>) {}
}

#[test]
fn spawn_and_origin_register() {
    let mut sys: ReplaySystem<Erased> = ReplaySystem::new();
    let a = sys.spawn("a", Noop);
    assert_eq!(a.id().as_str(), "a");
    sys.origin(&a, 7u32);
    assert_eq!(sys.actor_count(), 1);
    assert_eq!(sys.origin_count(), 1);
    sys.spawn("a", Noop);
    assert_eq!(sys.actor_count(), 1);
    sys.spawn("b", Noop);
    assert_eq!(sys.actor_count(), 2);
}

fn clock(vc: &[(&str, u64)]) -> ClockMap {
    let mut m = ClockMap::new();
    for (k, v) in vc {
        m.insert(k.to_string(), *v);
    }
    m
}

#[test]
fn recorded_index_groups_emits_by_actor_sorted() {
    let log = vec![
        CausalEvent {
            id: "x:2".into(), actor: "x".into(), seq: 2, op: Op::Emit,
            vclock: ClockMap::new(), lamport: 2, msg_id: Some("m9".into()),
            src: Some("x".into()), dst: Some("y".into()), value: None, payload_hash: None,
        },
        CausalEvent {
            id: "x:1".into(), actor: "x".into(), seq: 1, op: Op::Emit,
            vclock: ClockMap::new(), lamport: 1, msg_id: Some("m4".into()),
            src: Some("x".into()), dst: Some("z".into()), value: None, payload_hash: None,
        },
    ];
    let idx = RecordedIndex::build(&log);
    let xs = idx.emits_of("x");
    assert_eq!(log[xs[0]].seq, 1, "emits must be sorted by seq");
    assert_eq!(log[xs[1]].seq, 2);
    assert_eq!(parse_mid(log[xs[0]].msg_id.as_deref().unwrap()), Some(4));
    assert_eq!(xs.len(), 2);
    assert!(idx.emits_of("y").is_empty());
    assert_eq!(idx.event("x:2").unwrap().msg_id.as_deref(), Some("m9"));
    assert!(idx.event("x:3").is_none());
}

#[test]
fn an_index_keeps_the_last_event_of_a_name() {
    let mut log = fanout_log();
    let mut again = log[0].clone();
    again.lamport = 77;
    log.push(again);
    let idx = RecordedIndex::build(&log);
    assert_eq!(idx.event("world:1").unwrap().lamport, 77);
}

#[test]
fn a_clock_is_rebuilt_from_its_record() {
    let vc = vclock_from(&clock(&[("b", 2), ("a", 1), ("c", 0)]));
    let back = vc.to_string_map();
    assert_eq!(back.get("a"), Some(&1));
    assert_eq!(back.get("b"), Some(&2));
    assert_eq!(back.get("c"), Some(&0));
    assert_eq!(back.get("d"), None);
}

struct Source {
    a: Addr<u32, Erased>,
    b: Addr<u32, Erased>,
}
impl<B: Dispatch<Erased>> Actor<B> for Source {
    type Msg = u32;
    fn handle(&mut self, n: u32, ctx: &mut Context<B>) {
        ctx.send(&self.a, n);
        ctx.send(&self.b, n + 100);
    }
}

struct Worker {
    sink: Addr<u32, Erased>,
}
impl<B: Dispatch<Erased>> Actor<B> for Worker {
    type Msg = u32;
    fn handle(&mut self, n: u32, ctx: &mut Context<B>) {
        ctx.compute();
        ctx.send(&self.sink, n * 2);
    }
}

struct Gather;
impl<B: Dispatch<Erased>> Actor<B> for Gather {
    type Msg = u32;
    fn handle(&mut self, _n: u32, ctx: &mut Context<B>) {
        ctx.compute();
    }
}

struct DriftWorker {
    sink: Addr<u32, Erased>,
}
impl<B: Dispatch<Erased>> Actor<B> for DriftWorker {
    type Msg = u32;
    fn handle(&mut self, n: u32, ctx: &mut Context<B>) {
        ctx.compute();
        ctx.send(&self.sink, n * 2);
        ctx.send(&self.sink, n);
    }
}

/// A worker that forgets to send.
struct QuietWorker;
impl<B: Dispatch<Erased>> Actor<B> for QuietWorker {
    type Msg = u32;
    fn handle(&mut self, _n: u32, ctx: &mut Context<B>) {
        ctx.compute();
    }
}

fn ev(actor: &str, seq: u64, op: Op, lamport: u64, vc: &[(&str, u64)]) -> CausalEvent {
    CausalEvent {
        id: format!("{actor}:{seq}"),
        actor: actor.to_string(),
        seq,
        op,
        vclock: clock(vc),
        lamport,
        msg_id: None,
        src: None,
        dst: None,
        value: None,
        payload_hash: None,
    }
}

fn with_msg(mut e: CausalEvent, msg_id: &str, src: &str, dst: &str) -> CausalEvent {
    e.msg_id = Some(msg_id.to_string());
    e.src = Some(src.to_string());
    e.dst = Some(dst.to_string());
    e
}

/// A recorded fan-out: world -> source -> two workers -> sink. The sink saw worker-b first.
fn fanout_log() -> Vec<CausalEvent> {
    let (w, s, a, b, k) = ("world", "source", "worker-a", "worker-b", "sink");
    vec![
        with_msg(ev(w, 1, Op::Emit, 1, &[(w, 1)]), "m1", w, s),
        with_msg(ev(s, 1, Op::Recv, 2, &[(w, 1), (s, 1)]), "m1", w, s),
        with_msg(ev(s, 2, Op::Emit, 3, &[(w, 1), (s, 2)]), "m2", s, a),
        with_msg(ev(s, 3, Op::Emit, 4, &[(w, 1), (s, 3)]), "m3", s, b),
        with_msg(ev(b, 1, Op::Recv, 5, &[(w, 1), (s, 3), (b, 1)]), "m3", s, b),
        ev(b, 2, Op::Compute, 6, &[(w, 1), (s, 3), (b, 2)]),
        with_msg(ev(b, 3, Op::Emit, 7, &[(w, 1), (s, 3), (b, 3)]), "m4", b, k),
        with_msg(ev(a, 1, Op::Recv, 4, &[(w, 1), (s, 2), (a, 1)]), "m2", s, a),
        ev(a, 2, Op::Compute, 5, &[(w, 1), (s, 2), (a, 2)]),
        with_msg(ev(a, 3, Op::Emit, 6, &[(w, 1), (s, 2), (a, 3)]), "m5", a, k),
        with_msg(ev(k, 1, Op::Recv, 8, &[(w, 1), (s, 3), (b, 3), (k, 1)]), "m4", b, k),
        ev(k, 2, Op::Compute, 9, &[(w, 1), (s, 3), (b, 3), (k, 2)]),
        with_msg(ev(k, 3, Op::Recv, 10, &[(w, 1), (s, 3), (b, 3), (a, 3), (k, 3)]), "m5", a, k),
        ev(k, 4, Op::Compute, 11, &[(w, 1), (s, 3), (b, 3), (a, 3), (k, 4)]),
    ]
}

fn rebuild_faithful() -> (ReplaySystem<Erased>, Addr<u32, Erased>) {
    let mut sys = ReplaySystem::new();
    let sink = sys.spawn("sink", Gather);
    let a = sys.spawn("worker-a", Worker { sink: sink.clone() });
    let b = sys.spawn("worker-b", Worker { sink: sink.clone() });
    let source = sys.spawn("source", Source { a, b });
    (sys, source)
}

#[test]
fn faithful_replay_has_no_divergences() {
    let log = fanout_log();
    let (mut sys, source) = rebuild_faithful();
    sys.origin(&source, 1u32);
    let outcome = sys.replay(&log).unwrap();
    assert!(
        outcome.is_faithful(),
        "faithful rebuild must replay cleanly, got: {:?}",
        outcome.divergences
    );
    assert_eq!(outcome.replayed.timeline.len(), log.len());
    assert_eq!(outcome.executed.len(), log.len() - 1);
    assert_eq!(sys.origin_count(), 0);
}

#[test]
fn replay_is_deterministic() {
    let log = fanout_log();
    let run = || {
        let (mut sys, source) = rebuild_faithful();
        sys.origin(&source, 1u32);
        sys.replay(&log).unwrap()
    };
    let (a, b) = (run(), run());
    assert_eq!(a.replayed.timeline, b.replayed.timeline, "replay timeline must be byte-identical across runs");
    assert_eq!(a.executed, b.executed);
}

#[test]
fn drifted_handler_is_detected() {
    let log = fanout_log();
    let mut sys: ReplaySystem<Erased> = ReplaySystem::new();
    let sink = sys.spawn("sink", Gather);
    let a = sys.spawn("worker-a", DriftWorker { sink: sink.clone() });
    let b = sys.spawn("worker-b", Worker { sink: sink.clone() });
    let source = sys.spawn("source", Source { a, b });
    sys.origin(&source, 1u32);
    let outcome = sys.replay(&log).unwrap();
    assert!(
        !outcome.is_faithful(),
        "a structurally-drifted handler must produce at least one divergence"
    );
    assert_eq!(outcome.extra_sends, vec!["worker-a".to_string()]);
    let told: Vec<(&str, &str)> =
        outcome.divergences.iter().map(|d| (d.event_id.as_str(), d.detail.as_str())).collect();
    assert_eq!(
        told,
        vec![
            ("worker-a:4", "re-executed event is not in the recording"),
            ("worker-a", "more sends than recorded"),
        ]
    );
}

#[test]
fn a_handler_that_sends_less_leaves_recorded_events_out() {
    let log = fanout_log();
    let mut sys: ReplaySystem<Erased> = ReplaySystem::new();
    let sink = sys.spawn("sink", Gather);
    let a = sys.spawn("worker-a", QuietWorker);
    let b = sys.spawn("worker-b", Worker { sink: sink.clone() });
    let source = sys.spawn("source", Source { a, b });
    sys.origin(&source, 1u32);
    let outcome = sys.replay(&log).unwrap();
    let told: Vec<(&str, &str)> =
        outcome.divergences.iter().map(|d| (d.event_id.as_str(), d.detail.as_str())).collect();
    let missing = "recorded event was not re-executed";
    assert_eq!(
        told,
        vec![("worker-a:3", missing), ("sink:3", missing), ("sink:4", missing)]
    );
    assert!(outcome.turns.iter().any(|t| matches!(t, Turn::Undelivered)));
}

#[test]
fn an_altered_record_is_told_from_the_re_execution() {
    let mut log = fanout_log();
    log[13].payload_hash = Some("h".to_string());
    let (mut sys, source) = rebuild_faithful();
    sys.origin(&source, 1u32);
    let outcome = sys.replay(&log).unwrap();
    assert_eq!(outcome.divergences.len(), 1);
    assert_eq!(outcome.divergences[0].event_id, "sink:4");
    assert_eq!(outcome.divergences[0].detail, "re-executed event differs from the recording");
}

#[test]
fn without_its_origin_nothing_runs() {
    let log = fanout_log();
    let (mut sys, _source) = rebuild_faithful();
    let outcome = sys.replay(&log).unwrap();
    assert_eq!(outcome.executed.len(), 0);
    assert_eq!(outcome.divergences.len(), log.len());
    assert!(matches!(outcome.turns[0], Turn::Unsupplied));
}

#[test]
fn an_origin_for_another_actor_is_not_used() {
    let log = fanout_log();
    let (mut sys, _source) = rebuild_faithful();
    let elsewhere = sys.spawn("elsewhere", Noop);
    sys.origin(&elsewhere, 1u32);
    let outcome = sys.replay(&log).unwrap();
    assert!(matches!(outcome.turns[0], Turn::Unsupplied));
    assert!(!outcome.is_faithful());
}

#[test]
fn a_message_of_the_wrong_type_is_reported() {
    let log = fanout_log();
    let mut sys: ReplaySystem<Erased> = ReplaySystem::new();
    sys.spawn("source", Noop);
    let liar: Addr<String, Erased> = {
        let mut other: ReplaySystem<Erased> = ReplaySystem::new();
        other.spawn("source", Words)
    };
    sys.origin(&liar, "one".to_string());
    match sys.replay(&log) {
        Err(ReplayError::WrongMessageType(who)) => assert_eq!(who, "source"),
        other => panic!("expected a type mismatch, got {:?}", other.map(|o| o.divergences)),
    }
}

struct Words;
impl Actor<Backend> for Words {
    type Msg = String;
    fn handle(&mut self, _m: String, _ctx: &mut Context<Backend>) {}
}

#[test]
fn a_clock_at_its_limit_is_reported() {
    let top = u64::MAX;
    let log = vec![
        with_msg(ev("world", 1, Op::Emit, top, &[("world", 1)]), "m1", "world", "a"),
        with_msg(ev("a", 1, Op::Recv, top, &[("world", 1), ("a", 1)]), "m1", "world", "a"),
    ];
    let mut sys: ReplaySystem<Erased> = ReplaySystem::new();
    let a = sys.spawn("a", Noop);
    sys.origin(&a, 1u32);
    match sys.replay(&log) {
        Err(ReplayError::ClockExhausted(who)) => assert_eq!(who, "a"),
        other => panic!("expected an exhausted clock, got {:?}", other.map(|o| o.divergences)),
    }
}

#[test]
fn a_log_that_is_no_causal_record_is_refused() {
    let mut log = fanout_log();
    log[1].vclock = clock(&[("source", 1)]);
    let (mut sys, source) = rebuild_faithful();
    sys.origin(&source, 1u32);
    assert!(matches!(sys.replay(&log), Err(ReplayError::Inconsistent(_, _))));
}

/// An actor that sends as it starts.
struct Opener {
    to: Addr<u32, Erased>,
}
impl<B: Dispatch<Erased>> Actor<B> for Opener {
    type Msg = u32;
    fn started(&mut self, ctx: &mut Context<B>) {
        ctx.send(&self.to, 5u32);
    }
    fn handle(&mut self, _m: u32, _ctx: &mut Context<B>) {}
}

#[test]
fn what_is_sent_at_the_start_is_delivered() {
    let log = vec![
        with_msg(ev("o", 1, Op::Emit, 1, &[("o", 1)]), "m8", "o", "a"),
        with_msg(ev("a", 1, Op::Recv, 2, &[("o", 1), ("a", 1)]), "m8", "o", "a"),
    ];
    let mut sys: ReplaySystem<Erased> = ReplaySystem::new();
    let a = sys.spawn("a", Noop);
    sys.spawn("o", Opener { to: a });
    let outcome = sys.replay(&log).unwrap();
    assert_eq!(outcome.opening, vec![8]);
    assert!(outcome.is_faithful(), "{:?}", outcome.divergences);
}

#[test]
fn a_second_actor_takes_the_place_of_the_first() {
    let log = fanout_log();
    let mut sys: ReplaySystem<Erased> = ReplaySystem::new();
    let sink = sys.spawn("sink", Gather);
    sys.spawn("worker-a", QuietWorker);
    let a = sys.spawn("worker-a", Worker { sink: sink.clone() });
    let b = sys.spawn("worker-b", Worker { sink: sink.clone() });
    let source = sys.spawn("source", Source { a, b });
    sys.origin(&source, 1u32);
    assert!(sys.replay(&log).unwrap().is_faithful());
}
