use lichtung::actor::{Actor, WorldLine};
use lichtung::addr::Addr;
use lichtung::clock::{ActorId, Lamport, VectorClock};
use lichtung::context::Context;
use lichtung::dispatch::Dispatch;
use lichtung::envelope::{Envelope, Payload};
use lichtung::log::{CausalEvent, Op};
use lichtung::mailbox::{Mailbox, MailboxTx, Sink};
use lichtung::prod::delivery::{receive, send_external, Delivery};
use lichtung::prod::dispatch::ProdDispatch;
use lichtung::prod::mailbox::{TokioMailbox, TokioRx};
use lichtung::prod::shared::{is_last, number_after, SharedRuntime};
use lichtung::prod::task::ActorTask;
use lichtung::prod::writer::{Action, Found, LogWriter};
use lichtung::replay::engine::replay_log;
use lichtung::replay::reexec::ReplaySystem;
use std::any::Any;
use std::future::{poll_fn, Future};
use std::sync::{Arc, Mutex};
use std::task::Poll;
use tokio::sync::mpsc::{unbounded_channel, UnboundedReceiver};

/// A payload of any type.
#[derive(Debug)]
struct Erased(Box<dyn Any + Send>);

impl<M: Send + 'static> Payload<M> for Erased {
    fn wrap(msg: M) -> Self {
        Erased(Box::new(msg))
    }
    fn unwrap_msg(self) -> Result<M, Self> {
        self.0.downcast::<M>().map(|b| *b).map_err(Erased)
    }
}

#[test]
fn msg_ids_are_monotonic_from_one() {
    let (tx, _rx) = unbounded_channel();
    let s = SharedRuntime::new(tx);
    assert_eq!(s.next_msg_id(), 1);
    assert_eq!(s.next_msg_id(), 2);
}

#[test]
fn in_flight_tracks_inc_dec() {
    let (tx, _rx) = unbounded_channel();
    let s = SharedRuntime::new(tx);
    s.inc_in_flight();
    s.inc_in_flight();
    assert_eq!(s.in_flight(), 2);
    s.dec_in_flight();
    assert_eq!(s.in_flight(), 1);
}

#[test]
fn numbers_start_over_after_the_largest() {
    assert_eq!(number_after(0), 1);
    assert_eq!(number_after(41), 42);
    assert_eq!(number_after(u64::MAX), 0);
}

#[test]
fn the_last_message_gives_the_signal() {
    assert!(is_last(1));
    assert!(!is_last(2));
    assert!(!is_last(0));
    let rt = tokio::runtime::Builder::new_current_thread().build().unwrap();
    rt.block_on(async {
        let (tx, _rx) = unbounded_channel();
        let s = SharedRuntime::new(tx);
        s.inc_in_flight();
        s.inc_in_flight();
        s.dec_in_flight();
        s.dec_in_flight();
        s.quiescent().notified().await;
        assert_eq!(s.in_flight(), 0);
    });
}

#[test]
fn no_other_message_gives_the_signal() {
    let rt = tokio::runtime::Builder::new_current_thread().build().unwrap();
    rt.block_on(async {
        let (tx, _rx) = unbounded_channel();
        let s = SharedRuntime::new(tx);
        let mut signal = Box::pin(s.quiescent().notified());
        for _ in 0..3 {
            s.inc_in_flight();
        }
        for left in [2, 1, 0] {
            s.dec_in_flight();
            assert_eq!(s.in_flight(), left);
            let given = poll_fn(|cx| Poll::Ready(signal.as_mut().poll(cx).is_ready())).await;
            assert_eq!(given, left == 0);
        }
    });
}

fn envelope(id: u64, msg: u32) -> Envelope<Erased> {
    Envelope {
        msg: Erased(Box::new(msg)),
        vclock: VectorClock::new(),
        lamport: Lamport(3),
        msg_id: id,
        src: ActorId::from("world"),
        dst: ActorId::from("a"),
    }
}

#[test]
fn a_mailbox_delivers_in_order_and_hands_back_when_closed() {
    let (tx, mut rx) = <TokioMailbox as Mailbox<Erased>>::unbounded();
    tx.try_send(envelope(1, 10)).unwrap();
    tx.clone().try_send(envelope(2, 20)).unwrap();
    assert_eq!(rx.0.try_recv().unwrap().msg_id, 1);
    let second = rx.0.try_recv().unwrap();
    assert_eq!(second.msg_id, 2);
    let msg: Result<u32, Erased> = second.msg.unwrap_msg();
    assert_eq!(msg.unwrap(), 20);
    drop(rx);
    let back = tx.try_send(envelope(3, 30)).unwrap_err();
    assert_eq!(back.msg_id, 3);
}

fn mailbox<M>(name: &str) -> (Addr<M, Erased>, TokioRx<Erased>) {
    let (tx, rx) = <TokioMailbox as Mailbox<Erased>>::unbounded();
    let sink: Sink<Erased> = Arc::new(Box::new(tx));
    (Addr::new(ActorId::from(name), sink), rx)
}

fn runtime() -> (Arc<SharedRuntime>, UnboundedReceiver<CausalEvent>) {
    let (tx, rx) = unbounded_channel();
    (Arc::new(SharedRuntime::new(tx)), rx)
}

#[test]
fn a_message_is_in_flight_until_it_is_handled() {
    let (shared, mut log) = runtime();
    let (addr, mut rx) = mailbox::<u32>("echo");
    let mut backend = ProdDispatch::new(shared.clone());
    let mut world = WorldLine::new(ActorId::from("world"));
    assert!(send_external(&mut world, &mut backend, &addr, 7u32));
    assert_eq!(shared.in_flight(), 1);

    let mut echo = WorldLine::new(ActorId::from("echo"));
    let env = rx.0.try_recv().unwrap();
    assert_eq!((env.msg_id, env.lamport), (1, Lamport(1)));
    assert_eq!(receive(&mut Gather, &mut echo, &mut backend, env), Delivery::Handled);
    assert_eq!(shared.in_flight(), 0);
    let ops: Vec<(String, Op)> =
        std::iter::from_fn(|| log.try_recv().ok()).map(|e| (e.id, e.op)).collect();
    assert_eq!(
        ops,
        vec![
            ("world:1".to_string(), Op::Emit),
            ("echo:1".to_string(), Op::Recv),
            ("echo:2".to_string(), Op::Compute),
        ]
    );
}

#[test]
fn a_message_to_a_closed_mailbox_is_counted_out() {
    let (shared, mut log) = runtime();
    let (addr, rx) = mailbox::<u32>("gone");
    drop(rx);
    let mut backend = ProdDispatch::new(shared.clone());
    let mut world = WorldLine::new(ActorId::from("world"));
    assert!(send_external(&mut world, &mut backend, &addr, 7u32));
    assert_eq!(shared.in_flight(), 0);
    assert_eq!(log.try_recv().unwrap().id, "world:1");
}

#[test]
fn a_message_of_the_wrong_type_is_received_and_skipped() {
    let (shared, mut log) = runtime();
    let mut backend = ProdDispatch::new(shared.clone());
    let mut world = WorldLine::new(ActorId::from("a"));
    shared.inc_in_flight();
    let mut env = envelope(4, 1);
    env.msg = Erased(Box::new("text"));
    assert_eq!(receive(&mut Gather, &mut world, &mut backend, env), Delivery::WrongType);
    assert_eq!(shared.in_flight(), 0);
    assert_eq!(log.try_recv().unwrap().id, "a:1");
    assert!(log.try_recv().is_err(), "the handler did not run");
}

#[test]
fn a_stamp_at_its_limit_is_not_received() {
    let (shared, mut log) = runtime();
    let mut backend = ProdDispatch::new(shared.clone());
    let mut world = WorldLine::new(ActorId::from("a"));
    let mut env = envelope(4, 1);
    env.lamport = Lamport(u64::MAX);
    assert_eq!(receive(&mut Gather, &mut world, &mut backend, env), Delivery::Exhausted);
    assert!(log.try_recv().is_err());
}

struct Source {
    a: Addr<u32, Erased>,
    b: Addr<u32, Erased>,
}
impl<B: Dispatch<Erased>> Actor<B> for Source {
    type Msg = u32;
    fn handle(&mut self, n: u32, ctx: &mut Context<B>) {
        ctx.send(&self.a, n);
        ctx.send(&self.b, n + 100);
    }
}

struct Worker {
    sink: Addr<u32, Erased>,
}
impl<B: Dispatch<Erased>> Actor<B> for Worker {
    type Msg = u32;
    fn handle(&mut self, n: u32, ctx: &mut Context<B>) {
        ctx.compute();
        ctx.send(&self.sink, n * 2);
    }
}

struct Gather;
impl<B: Dispatch<Erased>> Actor<B> for Gather {
    type Msg = u32;
    fn handle(&mut self, _n: u32, ctx: &mut Context<B>) {
        ctx.compute();
    }
}

/// One actor and its mailbox.
struct Task<A> {
    task: ActorTask<A, Erased>,
    rx: TokioRx<Erased>,
}

impl<A: Actor<ProdDispatch<Erased>, Msg = u32>> Task<A> {
    fn new(name: &str, actor: A, rx: TokioRx<Erased>, shared: &Arc<SharedRuntime>) -> Self {
        Task { task: ActorTask::new(actor, ActorId::from(name), shared.clone()), rx }
    }
    fn step(&mut self) {
        while let Ok(env) = self.rx.0.try_recv() {
            assert_eq!(self.task.take(env), Delivery::Handled);
        }
    }
}

/// Records one event as it starts, and two for each message.
struct Starter {
    seen: Arc<Mutex<Vec<String>>>,
}
impl<B: Dispatch<Erased>> Actor<B> for Starter {
    type Msg = u32;
    fn started(&mut self, ctx: &mut Context<B>) {
        self.seen.lock().unwrap().push("started".to_string());
        ctx.compute();
    }
    fn handle(&mut self, n: u32, ctx: &mut Context<B>) {
        self.seen.lock().unwrap().push(n.to_string());
        ctx.compute();
        ctx.compute();
    }
}

#[test]
fn a_task_starts_its_actor_once_and_takes_messages_in_order() {
    let (shared, mut log) = runtime();
    let seen = Arc::new(Mutex::new(Vec::new()));
    let mut task: ActorTask<Starter, Erased> =
        ActorTask::new(Starter { seen: seen.clone() }, ActorId::from("a"), shared.clone());
    assert_eq!(task.id().as_str(), "a");
    for (id, msg) in [(1, 10), (2, 20)] {
        shared.inc_in_flight();
        assert_eq!(task.take(envelope(id, msg)), Delivery::Handled);
        assert_eq!(shared.in_flight(), 0);
    }
    shared.inc_in_flight();
    let mut other = envelope(3, 0);
    other.msg = Erased(Box::new("text"));
    assert_eq!(task.take(other), Delivery::WrongType);
    assert_eq!(shared.in_flight(), 0);
    assert_eq!(*seen.lock().unwrap(), vec!["started", "10", "20"]);
    let events: Vec<CausalEvent> = std::iter::from_fn(|| log.try_recv().ok()).collect();
    assert_eq!(events.len(), 8);
    for (k, e) in events.iter().enumerate() {
        assert_eq!(e.seq, k as u64 + 1);
        assert_eq!(e.vclock.get("a"), Some(&e.seq));
    }
    assert!(events.windows(2).all(|w| w[0].lamport < w[1].lamport));
}

/// Run the fan-out, worker-b first when `swapped`, and give back its log.
fn record_fanout(swapped: bool) -> Vec<CausalEvent> {
    let (shared, mut log) = runtime();
    let (sink, sink_rx) = mailbox("sink");
    let (a, a_rx) = mailbox("worker-a");
    let (b, b_rx) = mailbox("worker-b");
    let (source, source_rx) = mailbox("source");
    let mut sink_task = Task::new("sink", Gather, sink_rx, &shared);
    let mut a_task = Task::new("worker-a", Worker { sink: sink.clone() }, a_rx, &shared);
    let mut b_task = Task::new("worker-b", Worker { sink }, b_rx, &shared);
    let mut source_task = Task::new("source", Source { a, b }, source_rx, &shared);
    let mut world = WorldLine::new(ActorId::from("world"));
    let mut backend = ProdDispatch::new(shared.clone());
    assert!(send_external(&mut world, &mut backend, &source, 1u32));
    source_task.step();
    assert_eq!(shared.in_flight(), 2);
    if swapped {
        b_task.step();
        a_task.step();
    } else {
        a_task.step();
        b_task.step();
    }
    sink_task.step();
    assert_eq!(shared.in_flight(), 0);
    std::iter::from_fn(|| log.try_recv().ok()).collect()
}

#[test]
fn a_recorded_fanout_replays_faithfully() {
    for swapped in [false, true] {
        let log = record_fanout(swapped);
        assert_eq!(log.len(), 14);
        let mut sys: ReplaySystem<Erased> = ReplaySystem::new();
        let sink = sys.spawn("sink", Gather);
        let a = sys.spawn("worker-a", Worker { sink: sink.clone() });
        let b = sys.spawn("worker-b", Worker { sink: sink.clone() });
        let source = sys.spawn("source", Source { a, b });
        sys.origin(&source, 1u32);
        let outcome = sys.replay(&log).unwrap();
        assert!(outcome.is_faithful(), "{:?}", outcome.divergences);
        assert_eq!(outcome.replayed.timeline.len(), log.len());
    }
}

/// Writes down what it is run for, and does what another actor does.
struct Noting<A> {
    name: &'static str,
    inner: A,
    seen: Arc<Mutex<Vec<(&'static str, u32)>>>,
}
impl<B, A: Actor<B, Msg = u32>> Actor<B> for Noting<A> {
    type Msg = u32;
    fn handle(&mut self, n: u32, ctx: &mut Context<B>) {
        self.seen.lock().unwrap().push((self.name, n));
        self.inner.handle(n, ctx);
    }
}

#[test]
fn a_replay_hands_every_actor_its_own_messages() {
    let log = record_fanout(false);
    let seen = Arc::new(Mutex::new(Vec::new()));
    let mut sys: ReplaySystem<Erased> = ReplaySystem::new();
    let sink = sys.spawn("sink", Noting { name: "sink", inner: Gather, seen: seen.clone() });
    let worker = |name, sink: &Addr<u32, Erased>| Noting {
        name,
        inner: Worker { sink: sink.clone() },
        seen: seen.clone(),
    };
    let a = sys.spawn("worker-a", worker("worker-a", &sink));
    let b = sys.spawn("worker-b", worker("worker-b", &sink));
    let source = sys.spawn(
        "source",
        Noting { name: "source", inner: Source { a, b }, seen: seen.clone() },
    );
    sys.origin(&source, 1u32);
    assert!(sys.replay(&log).unwrap().is_faithful());
    let mut seen = seen.lock().unwrap().clone();
    assert_eq!(seen[0], ("source", 1));
    seen.sort();
    assert_eq!(
        seen,
        vec![("sink", 2), ("sink", 202), ("source", 1), ("worker-a", 1), ("worker-b", 101)]
    );
}

#[test]
fn origin_messages_are_supplied_in_order() {
    let (shared, mut log) = runtime();
    let (addr, rx) = mailbox("echo");
    let mut task = Task::new("echo", Gather, rx, &shared);
    let mut world = WorldLine::new(ActorId::from("world"));
    let mut backend = ProdDispatch::new(shared.clone());
    assert!(send_external(&mut world, &mut backend, &addr, 5u32));
    assert!(send_external(&mut world, &mut backend, &addr, 7u32));
    task.step();
    let log: Vec<CausalEvent> = std::iter::from_fn(|| log.try_recv().ok()).collect();
    let seen = Arc::new(Mutex::new(Vec::new()));
    let mut sys: ReplaySystem<Erased> = ReplaySystem::new();
    let echo = sys.spawn("echo", Noting { name: "echo", inner: Gather, seen: seen.clone() });
    sys.origin(&echo, 5u32);
    sys.origin(&echo, 7u32);
    assert!(sys.replay(&log).unwrap().is_faithful());
    assert_eq!(*seen.lock().unwrap(), vec![("echo", 5), ("echo", 7)]);
}

#[test]
fn receipts_dominate_their_sends_and_workers_are_concurrent() {
    let log = record_fanout(false);
    let clock = |e: &CausalEvent| lichtung::replay::index::vclock_from(&e.vclock);
    let mut receipts = 0;
    for r in log.iter().filter(|e| e.op == Op::Recv) {
        let s = log.iter().find(|e| e.op == Op::Emit && e.msg_id == r.msg_id).unwrap();
        assert!(clock(s).happens_before(&clock(r)));
        assert!(s.lamport < r.lamport);
        receipts += 1;
    }
    assert_eq!(receipts, 5);
    let compute = |who: &str| {
        log.iter().find(|e| e.actor == who && e.op == Op::Compute).map(|e| clock(e)).unwrap()
    };
    assert!(compute("worker-a").concurrent(&compute("worker-b")));
}

#[test]
fn the_order_of_the_lines_does_not_matter() {
    let log = record_fanout(true);
    let straight = replay_log(&log).unwrap();
    let mut mixed = log.clone();
    mixed.reverse();
    mixed.swap(0, 5);
    mixed.swap(3, 11);
    let again = replay_log(&mixed).unwrap();
    assert_eq!(straight.timeline, again.timeline);
    let at = |id: &str| straight.timeline.iter().position(|e| e.id == id).unwrap();
    let clock = |e: &CausalEvent| lichtung::replay::index::vclock_from(&e.vclock);
    for x in &log {
        for y in &log {
            if clock(x).happens_before(&clock(y)) {
                assert!(at(&x.id) < at(&y.id), "{} happened before {}", x.id, y.id);
                assert!(x.lamport < y.lamport);
            }
        }
    }
}

#[test]
fn the_writer_flushes_once_per_burst() {
    let event = |s: &str| Found::Event(s.to_string());
    let write = |s: &str| Action::Write(s.to_string());
    let mut w = LogWriter::new();
    assert!(!w.is_draining());
    assert_eq!(w.next(event("{1}")), write("{1}\n"));
    assert!(w.is_draining());
    assert_eq!(w.next(event("{2}")), write("{2}\n"));
    assert_eq!(w.next(Found::Nothing), Action::Flush);
    assert!(!w.is_draining());
    assert_eq!(w.next(event("{3}")), write("{3}\n"));
    assert_eq!(w.next(Found::End), Action::Flush);
    assert_eq!(w.next(Found::End), Action::Finish(3));
    assert_eq!(w.count(), 3);
}

#[test]
fn what_the_writer_writes_reads_back_in_order() {
    let mut w = LogWriter::new();
    let mut text = String::new();
    for burst in [vec!["{a}", "{b}"], vec!["{c}"]] {
        for line in burst {
            if let Action::Write(s) = w.next(Found::Event(line.to_string())) {
                text += &s;
            }
        }
        assert_eq!(w.next(Found::Nothing), Action::Flush);
    }
    assert_eq!(lichtung::log::log_lines(&text), vec!["{a}", "{b}", "{c}"]);
}

#[test]
fn an_idle_writer_finishes_with_nothing() {
    assert_eq!(LogWriter::new().next(Found::End), Action::Finish(0));
}
