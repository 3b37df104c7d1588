use lichtung::addr::Addr;
use lichtung::clock::{ActorId, Lamport, VectorClock};
use lichtung::context::Context;
use lichtung::dispatch::Dispatch;
use lichtung::envelope::{Envelope, Payload};
use lichtung::log::{CausalEvent, Op};
use lichtung::mailbox::{AnySink, MailboxTx, Sink};
use std::any::Any;
use std::sync::{Arc, Mutex};

/// A payload of any type.
#[derive(Debug)]
struct Erased(Box<dyn Any + Send>);

impl<M: Send + 'static> Payload<M> for Erased {
    fn wrap(msg: M) -> Self {
        Erased(Box::new(msg))
    }
    fn unwrap_msg(self) -> Result<M, Self> {
        self.0.downcast::<M>().map(|b| *b).map_err(Erased)
    }
}

#[derive(Clone)]
struct VecTx(Arc<Mutex<Vec<Envelope<Erased>>>>);

impl MailboxTx<Erased> for VecTx {
    fn try_send(&self, env: Envelope<Erased>) -> Result<(), Envelope<Erased>> {
        self.0.lock().unwrap().push(env);
        Ok(())
    }
}

fn env(id: u64) -> Envelope<Erased> {
    Envelope {
        msg: Erased(Box::new(id)),
        vclock: VectorClock::new(),
        lamport: Lamport(0),
        msg_id: id,
        src: ActorId::from("a"),
        dst: ActorId::from("b"),
    }
}

#[test]
fn erased_sink_delivers_and_downcasts() {
    let store = Arc::new(Mutex::new(Vec::new()));
    let sink: Arc<dyn AnySink<Erased>> = Arc::new(VecTx(store.clone()));
    sink.deliver(env(42)).unwrap();
    let got = store.lock().unwrap().pop().unwrap();
    assert_eq!(*got.msg.0.downcast::<u64>().unwrap(), 42);
}

/// A backend that keeps what it is given.
#[derive(Default)]
struct Capture {
    next_id: u64,
    records: Vec<CausalEvent>,
    delivered: Vec<Envelope<Erased>>,
}

impl Dispatch<Erased> for Capture {
    fn next_msg_id(&mut self) -> u64 {
        self.next_id += 1;
        self.next_id
    }
    fn record(&mut self, ev: CausalEvent) {
        self.records.push(ev);
    }
    fn deliver(&mut self, _sink: &Sink<Erased>, env: Envelope<Erased>) {
        self.delivered.push(env);
    }
}

#[derive(Clone)]
struct NullTx;

impl MailboxTx<Erased> for NullTx {
    fn try_send(&self, _env: Envelope<Erased>) -> Result<(), Envelope<Erased>> {
        Ok(())
    }
}

#[test]
fn send_increments_own_clock_and_emits() {
    let me = ActorId::from("a");
    let mut clock = VectorClock::new();
    let mut lamport = Lamport::default();
    let mut seq = 0u64;
    let mut backend = Capture::default();

    let peer_id = ActorId::from("b");
    let sink: Sink<Erased> = Arc::new(Box::new(NullTx));
    let peer: Addr<u32, Erased> = Addr::new(peer_id.clone(), sink);

    {
        let dyn_backend: &mut dyn Dispatch<Erased> = &mut backend;
        let mut ctx = Context::new(&me, &mut clock, &mut lamport, &mut seq, dyn_backend);
        ctx.send(&peer, 99u32);
    }

    assert_eq!(clock.get(&me), 1, "own component incremented on send");
    assert_eq!(seq, 1);
    assert_eq!(backend.records.len(), 1);
    let ev = &backend.records[0];
    assert_eq!(ev.op, Op::Emit);
    assert_eq!(ev.src.as_deref(), Some("a"));
    assert_eq!(ev.dst.as_deref(), Some("b"));
    assert_eq!(ev.vclock.get("a"), Some(&1));
    let d = &backend.delivered[0];
    assert_eq!(d.vclock.get(&me), 1, "delivered envelope carries the post-increment clock");
    assert_eq!(*d.msg.0.downcast_ref::<u32>().unwrap(), 99);
}

/// A backend that keeps the order of the calls.
#[derive(Default)]
struct Order(Vec<&'static str>);

impl Dispatch<Erased> for Order {
    fn next_msg_id(&mut self) -> u64 {
        self.0.push("number");
        7
    }
    fn record(&mut self, ev: CausalEvent) {
        assert_eq!(ev.msg_id.as_deref(), Some("m7"));
        self.0.push("record");
    }
    fn deliver(&mut self, _sink: &Sink<Erased>, env: Envelope<Erased>) {
        assert_eq!(env.msg_id, 7);
        self.0.push("deliver");
    }
}

#[test]
fn a_send_is_recorded_before_it_is_delivered() {
    let me = ActorId::from("a");
    let (mut clock, mut lamport, mut seq) = (VectorClock::new(), Lamport::default(), 0u64);
    let mut backend = Order::default();
    let sink: Sink<Erased> = Arc::new(Box::new(NullTx));
    let peer: Addr<u32, Erased> = Addr::new(ActorId::from("b"), sink);
    Context::new(&me, &mut clock, &mut lamport, &mut seq, &mut backend).send(&peer, 1u32);
    assert_eq!(backend.0, vec!["number", "record", "deliver"]);
}
