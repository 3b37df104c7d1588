//! Re-execution: driving real handlers over a recorded log in canonical order. The payloads
//! come from the handlers; the log supplies the order and what to hold the result against.

use crate::actor::{Actor, WorldLine};
use crate::addr::Addr;
use crate::clock::{ActorId, Lamport};
use crate::context::Context;
use crate::dispatch::{Call, Deed, Dispatch};
use crate::envelope::{Envelope, EnvelopeModel, EnvelopeStamp, Payload};
use crate::event::recv_model;
use crate::log::{log_model, opt_text, texts, CausalEvent, EventModel, Op};
use crate::mailbox::{AnySink, MailboxTx, Sink};
use crate::replay::engine::{replay_fails_with, replay_log, replayable, timeline};
use crate::replay::error::ReplayError;
use crate::replay::index::{sends_among, sends_of, vclock_from, RecordedIndex};
use crate::replay::outcome::{
    find_divergences, is_outcome, number_of, tells, turns_tell, ReplayOutcome, Turn,
};
use crate::replay::poset::world_lines;
use crate::replay::poset_laws::lemma_world_lines;
use crate::replay::stage::{
    after_handling, after_step, at_most, comes_to_receipt, first_named, first_numbered, first_stage,
    handled_at, has_room_there, ids_left, ids_of, kept, lemma_place, lemma_slot, message_at,
    no_stamps, numbers, open_numbers, place, played, receipt_stamps, received_message,
    recorded_number, recorded_stamp, repeated, slot, stage_after, started, step_fits, waits, Handling,
    Stage, Stamps, Standing, Step,
};
use std::sync::Arc;
use vstd::prelude::*;

verus! {

/// What an actor is run for.
pub enum Errand<P> {
    /// To start.
    Start,
    /// To handle a message.
    Message(P),
}

/// An actor whose message type is forgotten.
pub trait ErasedActor<P, B: ?Sized>: Send {
    /// The name that the actor was given when it was registered.
    open spec fn tag(&self) -> Seq<char> {
        arbitrary()
    }

    /// Everything that the actor was run for, in order.
    open spec fn runs(&self) -> Seq<Errand<P>> {
        arbitrary()
    }

    /// Starting the actor as it is may do to `ctx` what became of it.
    open spec fn starts(&self, ctx: &mut Context<B>) -> bool {
        true
    }

    /// Run the actor's `started`.
    fn started(&mut self, ctx: &mut Context<B>)
        ensures
            final(self).tag() == old(self).tag(),
            final(self).runs() == old(self).runs().push(Errand::Start),
            exists|c: &mut Context<B>| #[trigger]
                old(self).starts(c) && *c == *old(ctx) && *final(c) == *final(ctx),
    ;

    /// The message in `msg` is of the actor's type.
    open spec fn takes(&self, msg: P) -> bool {
        true
    }

    /// Handling `msg` with the actor as it is may do to `ctx` what became of it.
    open spec fn handles(&self, msg: P, ctx: &mut Context<B>) -> bool {
        true
    }

    /// Handle the message in `msg`. False, without running the handler, if it is of another
    /// type than the actor's.
    fn handle_any(&mut self, msg: P, ctx: &mut Context<B>) -> (r: bool)
        ensures
            r == old(self).takes(msg),
            final(self).tag() == old(self).tag(),
            r ==> final(self).runs() == old(self).runs().push(Errand::Message(msg)),
            r ==> exists|c: &mut Context<B>| #[trigger]
                old(self).handles(msg, c) && *c == *old(ctx) && *final(c) == *final(ctx),
            !r ==> &*final(self) == &*old(self) && *final(ctx) == *old(ctx),
    ;
}

/// An actor with its message type.
#[verifier::reject_recursive_types(P)]
pub struct TypedActor<A, P> {
    actor: A,
    tag: Ghost<Seq<char>>,
    runs: Ghost<Seq<Errand<P>>>,
}

impl<A, P> TypedActor<A, P> {
    /// The actor.
    pub closed spec fn actor(&self) -> A {
        self.actor
    }

    /// The name that the actor is registered under.
    pub closed spec fn given_name(&self) -> Seq<char> {
        self.tag@
    }

    /// What the actor was run for.
    pub closed spec fn errands(&self) -> Seq<Errand<P>> {
        self.runs@
    }

    /// An actor that was not run yet, to be registered under `name`.
    pub fn new(name: &str, actor: A) -> (r: Self)
        ensures
            r.actor() == actor,
            r.given_name() == name@,
            r.errands() == Seq::<Errand<P>>::empty(),
    {
        TypedActor { actor, tag: Ghost(name@), runs: Ghost(Seq::empty()) }
    }
}

impl<A, P, B: ?Sized> ErasedActor<P, B> for TypedActor<A, P> where
    A: Actor<B>,
    P: Payload<A::Msg> + Send,
 {
    open spec fn tag(&self) -> Seq<char> {
        self.given_name()
    }

    open spec fn runs(&self) -> Seq<Errand<P>> {
        self.errands()
    }

    open spec fn starts(&self, ctx: &mut Context<B>) -> bool {
        exists|a: &mut A| #[trigger] call_ensures(A::started, (a, ctx), ()) && *a == self.actor()
    }

    fn started(&mut self, ctx: &mut Context<B>)
        ensures
            exists|a: &mut A, c: &mut Context<B>|
                {
                    &&& #[trigger] call_ensures(A::started, (a, c), ())
                    &&& *a == old(self).actor()
                    &&& *final(a) == final(self).actor()
                    &&& *c == *old(ctx)
                    &&& *final(c) == *final(ctx)
                },
    {
        self.runs = Ghost(self.runs@.push(Errand::Start));
        self.actor.started(ctx);
        proof {
            let (a, c) = choose|a: &mut A, c: &mut Context<B>|
                {
                    &&& #[trigger] call_ensures(A::started, (a, c), ())
                    &&& *a == old(self).actor()
                    &&& *final(a) == self.actor()
                    &&& *c == *old(ctx)
                    &&& *final(c) == *ctx
                };
            assert(ErasedActor::<P, B>::starts(old(self), c));
        }
    }

    open spec fn takes(&self, msg: P) -> bool {
        msg.carried() is Some
    }

    open spec fn handles(&self, msg: P, ctx: &mut Context<B>) -> bool {
        exists|a: &mut A| #[trigger]
            call_ensures(A::handle, (a, msg.carried()->0, ctx), ()) && *a == self.actor()
    }

    fn handle_any(&mut self, msg: P, ctx: &mut Context<B>) -> (r: bool)
        ensures
            r == (msg.carried() is Some),
            r ==> exists|a: &mut A, c: &mut Context<B>|
                {
                    &&& #[trigger] call_ensures(A::handle, (a, msg.carried()->0, c), ())
                    &&& *a == old(self).actor()
                    &&& *final(a) == final(self).actor()
                    &&& *c == *old(ctx)
                    &&& *final(c) == *final(ctx)
                },
    {
        match msg.unwrap_msg() {
            Ok(m) => {
                self.runs = Ghost(self.runs@.push(Errand::Message(msg)));
                self.actor.handle(m, ctx);
                proof {
                    let (a, c) = choose|a: &mut A, c: &mut Context<B>|
                        {
                            &&& #[trigger] call_ensures(A::handle, (a, msg.carried()->0, c), ())
                            &&& *a == old(self).actor()
                            &&& *final(a) == self.actor()
                            &&& *c == *old(ctx)
                            &&& *final(c) == *ctx
                        };
                    assert(ErasedActor::<P, B>::handles(old(self), msg, c));
                }
                true
            },
            Err(_) => false,
        }
    }
}

/// An inert delivery target: in a re-execution the driver delivers, not the mailbox.
#[derive(Clone, Copy)]
pub struct NoopSink;

impl<P> MailboxTx<P> for NoopSink {
    fn try_send(&self, _env: Envelope<P>) -> (r: Result<(), Envelope<P>>)
        ensures
            r is Ok,
    {
        Ok(())
    }
}

/// The backend of a re-execution. It hands out the recorded message numbers and keeps
/// everything that a handler does for the driver.
#[verifier::reject_recursive_types(P)]
pub struct ReplayDispatch<P> {
    ids: Vec<u64>,
    issued: Vec<u64>,
    events: Vec<CausalEvent>,
    sent: Vec<Envelope<P>>,
    targets: Ghost<Seq<Sink<P>>>,
    calls: Ghost<Seq<Call<P>>>,
}

impl<P> ReplayDispatch<P> {
    /// The numbers that the backend was given to hand out.
    pub closed spec fn ids(&self) -> Seq<u64> {
        self.ids@
    }

    /// A backend that hands out `ids`, in order.
    pub fn new(ids: Vec<u64>) -> (r: Self)
        ensures
            r.ids() == ids@,
            r.calls() == Seq::<Call<P>>::empty(),
            r.issued() == Seq::<u64>::empty(),
            r.recorded() == Seq::<EventModel>::empty(),
            r.sent() == Seq::<(Sink<P>, Envelope<P>)>::empty(),
    {
        let r = ReplayDispatch {
            ids,
            issued: Vec::new(),
            events: Vec::new(),
            sent: Vec::new(),
            targets: Ghost(Seq::empty()),
            calls: Ghost(Seq::empty()),
        };
        assert(r.recorded() =~= Seq::<EventModel>::empty());
        assert(r.sent() =~= Seq::<(Sink<P>, Envelope<P>)>::empty());
        r
    }
}

impl<P> Dispatch<P> for ReplayDispatch<P> {
    closed spec fn calls(&self) -> Seq<Call<P>> {
        self.calls@
    }

    closed spec fn issued(&self) -> Seq<u64> {
        self.issued@
    }

    open spec fn deeds(&self) -> Seq<Deed> {
        seq![]
    }

    open spec fn serves(&self, call: Call<P>, steps: Seq<Deed>) -> bool {
        steps.len() == 0
    }

    closed spec fn recorded(&self) -> Seq<EventModel> {
        log_model(self.events@)
    }

    closed spec fn sent(&self) -> Seq<(Sink<P>, Envelope<P>)> {
        Seq::new(self.sent@.len(), |i: int| (self.targets@[i], self.sent@[i]))
    }

    /// The next recorded number; 0 once they are used up.
    fn next_msg_id(&mut self) -> (r: u64)
        ensures
            final(self).ids() == old(self).ids(),
            r == if old(self).issued().len() < old(self).ids().len() {
                old(self).ids()[old(self).issued().len() as int]
            } else {
                0
            },
    {
        let k: usize = self.issued.len();
        let id: u64 = if k < self.ids.len() {
            self.ids[k]
        } else {
            0
        };
        self.issued.push(id);
        self.calls = Ghost(self.calls@.push(Call::Numbered(id)));
        assert(old(self).serves(Call::Numbered(id), seq![]));
        id
    }

    fn record(&mut self, event: CausalEvent)
        ensures
            final(self).ids() == old(self).ids(),
    {
        self.calls = Ghost(self.calls@.push(Call::Recorded(event@)));
        self.events.push(event);
        assert(self.recorded() =~= old(self).recorded().push(event@));
        assert(old(self).serves(Call::Recorded(event@), seq![]));
    }

    fn deliver(&mut self, sink: &Sink<P>, env: Envelope<P>)
        ensures
            final(self).ids() == old(self).ids(),
    {
        let ghost n = self.sent@.len();
        let ghost targets = Seq::new(
            n + 1,
            |i: int|
                if i < n {
                    self.targets@[i]
                } else {
                    *sink
                },
        );
        self.sent.push(env);
        self.targets = Ghost(targets);
        self.calls = Ghost(self.calls@.push(Call::Delivered(*sink, env)));
        assert(self.sent() =~= old(self).sent().push((*sink, env)));
        assert(old(self).serves(Call::Delivered(*sink, env), seq![]));
    }
}

/// Something under the name of an actor.
pub struct Named<T> {
    name: ActorId,
    actor: T,
}

/// An actor under the name that it has in the recording.
pub type Registered<P> = Named<Box<dyn ErasedActor<P, ReplayDispatch<P>>>>;

impl<P> Named<Box<dyn ErasedActor<P, ReplayDispatch<P>>>> {
    /// The name that the actor stands under.
    pub closed spec fn name(&self) -> Seq<char> {
        self.name@
    }

    /// The name that the actor was registered under.
    pub closed spec fn tag(&self) -> Seq<char> {
        self.actor.tag()
    }

    /// Everything that the actor was run for, in order.
    pub closed spec fn runs(&self) -> Seq<Errand<P>> {
        self.actor.runs()
    }

    /// The actor as it is may do so to its context as it starts.
    pub closed spec fn starts(&self, c: &mut Context<ReplayDispatch<P>>) -> bool {
        self.actor.starts(c)
    }

    /// The actor takes the message.
    pub closed spec fn takes(&self, msg: P) -> bool {
        self.actor.takes(msg)
    }

    /// The actor as it is may do so to its context as it handles the message.
    pub closed spec fn handles(&self, msg: P, c: &mut Context<ReplayDispatch<P>>) -> bool {
        self.actor.handles(msg, c)
    }

    /// `self` is the actor `before`, run once more, for `errand`.
    pub open spec fn ran_for(&self, before: Self, errand: Errand<P>) -> bool {
        &&& self.name() == before.name()
        &&& self.tag() == before.tag()
        &&& self.runs() == before.runs().push(errand)
    }
}

/// The course of a re-execution.
#[verifier::reject_recursive_types(P)]
pub struct Course<P> {
    /// What each actor did as it started.
    pub opened: Seq<Handling<P>>,
    /// What was done at each event of the timeline.
    pub steps: Seq<Step<P>>,
    /// The actors before each of these steps, and after the last one.
    pub casts: Seq<Seq<Registered<P>>>,
}

/// The single-threaded replay harness: rebuild the topology under the same names, supply the
/// origin messages again, then `replay`.
#[verifier::reject_recursive_types(P)]
pub struct ReplaySystem<P> {
    actors: Vec<Registered<P>>,
    origins: Vec<(ActorId, P)>,
    course: Ghost<Course<P>>,
}

/// The step at event `i` ran one actor at most: the one that received a message there, for that
/// message. All others stayed as they were.
pub open spec fn cast_moves<P>(
    log: Seq<EventModel>,
    t: Seq<EventModel>,
    names: Seq<Seq<char>>,
    c: Course<P>,
    i: int,
) -> bool {
    let a = place(names, t[i].actor);
    match c.steps[i] {
        Step::Received(_) => {
            &&& c.casts[i + 1] == c.casts[i].update(a, c.casts[i + 1][a])
            &&& c.casts[i + 1][a].ran_for(
                c.casts[i][a],
                Errand::Message(message_at(log, t, names, c.opened, c.steps, i)),
            )
        },
        _ => c.casts[i + 1] == c.casts[i],
    }
}

/// Every actor of `cast` was started, each once, and then the steps were made with them.
pub open spec fn casts_follow<P>(
    log: Seq<EventModel>,
    t: Seq<EventModel>,
    names: Seq<Seq<char>>,
    cast: Seq<Registered<P>>,
    c: Course<P>,
) -> bool {
    &&& c.casts.len() == c.steps.len() + 1
    &&& forall|i: int| 0 <= i < c.casts.len() ==> (#[trigger] c.casts[i]).len() == cast.len()
    &&& forall|a: int|
        0 <= a < cast.len() ==> (#[trigger] c.casts[0][a]).ran_for(cast[a], Errand::Start)
    &&& forall|i: int| 0 <= i < c.steps.len() ==> #[trigger] cast_moves(log, t, names, c, i)
}

/// The recording could be followed: the re-execution began.
pub open spec fn began(r: Result<ReplayOutcome, ReplayError>) -> bool {
    match r {
        Ok(_) => true,
        Err(e) => e is ClockExhausted || e is WrongMessageType,
    }
}

spec fn actor_names<P>(v: Seq<Registered<P>>) -> Seq<Seq<char>> {
    Seq::new(v.len(), |i: int| v[i].name@)
}

spec fn origin_models<P>(v: Seq<(ActorId, P)>) -> Seq<(Seq<char>, P)> {
    Seq::new(v.len(), |i: int| (v[i].0@, v[i].1))
}

spec fn env_models<P>(v: Seq<Envelope<P>>) -> Seq<EnvelopeModel<P>> {
    Seq::new(v.len(), |i: int| v[i]@)
}

spec fn stamps_of(world: WorldLine) -> Stamps {
    Stamps { clock: world.clock(), lamport: world.lamport(), seq: world.seq() }
}

/// `c` is a context as a handler gets it: for the actor, at the given stamps, and over a backend
/// that has nothing but message numbers to hand out.
pub open spec fn hands_over<P>(
    c: Context<ReplayDispatch<P>>,
    actor: Seq<char>,
    stamps: Stamps,
    ids: Seq<u64>,
) -> bool {
    &&& c.actor() == actor
    &&& c.clock() == stamps.clock
    &&& c.lamport() == stamps.lamport
    &&& c.seq() == stamps.seq
    &&& c.backend().ids() == ids
    &&& c.backend().calls().len() == 0
    &&& c.backend().issued().len() == 0
    &&& c.backend().recorded().len() == 0
    &&& c.backend().sent().len() == 0
}

impl<P> ReplayDispatch<P> {
    /// The backend holds what a handler did.
    pub closed spec fn holds(&self, h: Handling<P>) -> bool {
        &&& log_model(self.events@) == h.events
        &&& env_models(self.sent@) == h.sent
        &&& self.issued@.len() == h.issued
    }

    /// The messages that were sent with one of the first `open` numbers.
    spec fn kept(&self, open: nat) -> Seq<Envelope<P>> {
        self.sent@.take(at_most(self.sent@.len(), open) as int)
    }

    /// How many numbers were asked for beyond the first `open`.
    spec fn excess(&self, open: nat) -> nat {
        (self.issued@.len() - at_most(self.issued@.len(), open)) as nat
    }
}

/// Where a re-execution stands.
#[verifier::reject_recursive_types(P)]
struct Run<P> {
    lines: Vec<Line>,
    pending: Vec<Envelope<P>>,
    executed: Vec<CausalEvent>,
    extra_sends: Vec<String>,
}

/// One actor of a re-execution: its stamps, and its recorded message numbers, of which `used`
/// are gone.
struct Line {
    world: WorldLine,
    ids: Vec<u64>,
    used: usize,
}

impl Line {
    /// How many of the recorded message numbers are left.
    spec fn open(&self) -> nat {
        (self.ids@.len() - self.used) as nat
    }

    /// The line after a turn in which `issued` message numbers were asked for.
    spec fn moved_on(self, issued: nat) -> Line {
        Line { used: (self.used + at_most(issued, self.open())) as usize, ..self }
    }

    /// The line is that of the actor `name`, with so many numbers gone.
    spec fn counts(&self, log: Seq<EventModel>, name: Seq<char>, used: nat) -> bool {
        &&& self.world.name() == name
        &&& self.ids@ == ids_of(log, name)
        &&& self.used == used
        &&& self.used <= self.ids@.len()
    }

    /// The line stands where the model says.
    spec fn stands(&self, log: Seq<EventModel>, name: Seq<char>, s: Standing) -> bool {
        self.counts(log, name, s.used) && stamps_of(self.world) == s.stamps
    }
}

impl<P> Run<P> {
    /// The run stands where the model says.
    spec fn stands(&self, log: Seq<EventModel>, names: Seq<Seq<char>>, st: Stage<P>) -> bool {
        &&& self.lines@.len() == names.len()
        &&& st.lines.len() == names.len()
        &&& forall|a: int|
            0 <= a < names.len() ==> (#[trigger] self.lines@[a]).stands(
                log,
                names[a],
                st.lines[a],
            )
        &&& env_models(self.pending@) == st.mail
        &&& log_model(self.executed@) == st.executed
        &&& texts(self.extra_sends@) == st.extra
    }

    /// The message numbers that actor `a` is still recorded to use.
    fn open_ids(&self, a: usize) -> (r: Vec<u64>)
        requires
            a < self.lines@.len(),
            self.lines@[a as int].used <= self.lines@[a as int].ids@.len(),
        ensures
            r@ == self.lines@[a as int].ids@.skip(self.lines@[a as int].used as int),
    {
        let line = &self.lines[a];
        let mut out: Vec<u64> = Vec::new();
        let mut i: usize = line.used;
        while i < line.ids.len()
            invariant
                line.used <= i <= line.ids@.len(),
                out@ == line.ids@.subrange(line.used as int, i as int),
            decreases line.ids@.len() - i,
        {
            out.push(line.ids[i]);
            assert(out@ =~= line.ids@.subrange(line.used as int, i + 1));
            i = i + 1;
        }
        assert(out@ =~= line.ids@.skip(line.used as int));
        out
    }

    /// Take over what a handler of actor `a` did, when `open` of its recorded message numbers
    /// were left. The numbers of the messages that now wait are returned.
    fn collect(&mut self, a: usize, open: usize, backend: ReplayDispatch<P>) -> (r: Vec<u64>)
        requires
            a < old(self).lines@.len(),
            old(self).lines@[a as int].used <= old(self).lines@[a as int].ids@.len(),
            open == old(self).lines@[a as int].open(),
        ensures
            r@ == numbers(env_models(backend.kept(open as nat))),
            final(self).pending@ == old(self).pending@ + backend.kept(open as nat),
            final(self).executed@ == old(self).executed@ + backend.events@,
            texts(final(self).extra_sends@) == texts(old(self).extra_sends@) + repeated(
                old(self).lines@[a as int].world.name(),
                backend.excess(open as nat),
            ),
            final(self).lines@ == old(self).lines@.update(
                a as int,
                old(self).lines@[a as int].moved_on(backend.issued@.len()),
            ),
            final(self).lines@[a as int].used == old(self).lines@[a as int].used + at_most(
                backend.issued@.len(),
                open as nat,
            ),
    {
        let ghost given = backend;
        let ghost name = self.lines@[a as int].world.name();
        let mut backend = backend;
        let issued: usize = backend.issued.len();
        self.executed.append(&mut backend.events);
        if backend.sent.len() > open {
            backend.sent.truncate(open);
        }
        let mut sends: Vec<u64> = Vec::new();
        let mut i: usize = 0;
        while i < backend.sent.len()
            invariant
                i <= backend.sent@.len(),
                sends@ == numbers(env_models(backend.sent@)).take(i as int),
            decreases backend.sent@.len() - i,
        {
            sends.push(backend.sent[i].msg_id);
            assert(sends@ =~= numbers(env_models(backend.sent@)).take(i + 1));
            i = i + 1;
        }
        let ghost added = backend.sent@;
        assert(added =~= given.kept(open as nat));
        assert(sends@ =~= numbers(env_models(added)));
        self.pending.append(&mut backend.sent);
        let used: usize = if issued <= open {
            issued
        } else {
            open
        };
        let recorded: usize = self.lines[a].ids.len();
        let total: usize = recorded - open + used;
        self.lines[a].used = total;
        let mut extra: usize = open;
        let ghost lines = self.lines@;
        let ghost executed = self.executed@;
        let ghost before = texts(self.extra_sends@);
        assert(before =~= before + repeated(name, 0));
        while extra < issued
            invariant
                a < self.lines@.len(),
                self.lines@[a as int].world.name() == name,
                self.pending@ == old(self).pending@ + added,
                self.executed@ == executed,
                self.lines@ == lines,
                extra == open || open <= extra <= issued,
                texts(self.extra_sends@) == before + repeated(name, (extra - open) as nat),
            decreases issued - extra,
        {
            let ghost told = self.extra_sends@;
            let who = self.lines[a].world.id().to_string();
            self.extra_sends.push(who);
            assert(texts(self.extra_sends@) =~= texts(told).push(name));
            assert(texts(self.extra_sends@) =~= before + repeated(
                name,
                (extra + 1 - open) as nat,
            ));
            extra = extra + 1;
        }
        sends
    }
}

/// Taking over what a handler did moves the run as the model says. `mid` is the run when the
/// handler is through: it stands where `st` says, but for the stamps of actor `a`.
proof fn lemma_taken_over<P>(
    log: Seq<EventModel>,
    names: Seq<Seq<char>>,
    st: Stage<P>,
    a: int,
    mid: Run<P>,
    after: Run<P>,
    backend: ReplayDispatch<P>,
    h: Handling<P>,
)
    requires
        0 <= a < names.len(),
        mid.lines@.len() == names.len(),
        st.lines.len() == names.len(),
        forall|b: int|
            0 <= b < names.len() && b != a ==> (#[trigger] mid.lines@[b]).stands(
                log,
                names[b],
                st.lines[b],
            ),
        mid.lines@[a].counts(log, names[a], st.lines[a].used),
        env_models(mid.pending@) == st.mail,
        log_model(mid.executed@) == st.executed,
        texts(mid.extra_sends@) == st.extra,
        backend.holds(h),
        stamps_of(mid.lines@[a].world) == h.after,
        after.pending@ == mid.pending@ + backend.kept(mid.lines@[a].open()),
        after.executed@ == mid.executed@ + backend.events@,
        texts(after.extra_sends@) == texts(mid.extra_sends@) + repeated(
            names[a],
            backend.excess(mid.lines@[a].open()),
        ),
        after.lines@ == mid.lines@.update(a, mid.lines@[a].moved_on(backend.issued@.len())),
        after.lines@[a].used == mid.lines@[a].used + at_most(
            backend.issued@.len(),
            mid.lines@[a].open(),
        ),
    ensures
        after.stands(log, names, after_handling(log, names, st, a, h)),
        env_models(backend.kept(mid.lines@[a].open())) == kept(
            h,
            open_numbers(log, names, st, a),
        ),
{
    let open = open_numbers(log, names, st, a);
    let next = after_handling(log, names, st, a, h);
    assert(open == mid.lines@[a].open());
    assert(backend.sent@.len() == h.sent.len()) by {
        assert(env_models(backend.sent@).len() == h.sent.len());
    }
    assert(env_models(backend.kept(open)) =~= kept(h, open)) by {
        assert(env_models(backend.sent@) == h.sent);
        assert forall|i: int| 0 <= i < backend.kept(open).len() implies env_models(
            backend.kept(open),
        )[i] == kept(h, open)[i] by {
            assert(env_models(backend.sent@)[i] == h.sent[i]);
        }
    }
    assert(env_models(after.pending@) =~= next.mail) by {
        assert(env_models(mid.pending@ + backend.kept(open)) =~= env_models(mid.pending@)
            + env_models(backend.kept(open)));
    }
    assert(log_model(after.executed@) =~= next.executed) by {
        assert(log_model(mid.executed@ + backend.events@) =~= log_model(mid.executed@) + log_model(
            backend.events@,
        ));
    }
    assert forall|b: int| 0 <= b < names.len() implies (#[trigger] after.lines@[b]).stands(
        log,
        names[b],
        next.lines[b],
    ) by {
        if b != a {
            assert(after.lines@[b] == mid.lines@[b]);
        }
    }
}

/// The numbers that actor `actor` is recorded to have given to its messages; 0 for a send
/// without one.
fn recorded_ids(log: &[CausalEvent], index: &RecordedIndex, actor: &ActorId) -> (r: Vec<u64>)
    requires
        index.log() == log_model(log@),
    ensures
        r@ == ids_of(log_model(log@), actor@),
{
    let ghost model = log_model(log@);
    let emits = index.emits_of(actor.as_str());
    let mut out: Vec<u64> = Vec::new();
    let n: usize = log.len();
    let mut i: usize = 0;
    proof {
        assert(model.len() == n);
        lemma_sends_in_range(model, actor@, world_lines(model));
        lemma_world_lines(model);
    }
    while i < emits.len()
        invariant
            model == log_model(log@),
            emits@ == sends_of(model, actor@),
            forall|p: int| 0 <= p < emits@.len() ==> (#[trigger] emits@[p]) < log@.len(),
            i <= emits@.len(),
            out@ == ids_of(model, actor@).take(i as int),
        decreases emits@.len() - i,
    {
        let id: u64 = match number_of(&log[emits[i]]) {
            Some(k) => k,
            None => 0,
        };
        out.push(id);
        assert(out@ =~= ids_of(model, actor@).take(i + 1));
        i = i + 1;
    }
    assert(out@ =~= ids_of(model, actor@));
    out
}

proof fn lemma_sends_in_range(log: Seq<EventModel>, actor: Seq<char>, w: Seq<usize>)
    ensures
        forall|p: int|
            0 <= p < sends_among(log, actor, w).len() ==> w.contains(
                #[trigger] sends_among(log, actor, w)[p],
            ),
    decreases w.len(),
{
    if w.len() > 0 {
        lemma_sends_in_range(log, actor, w.drop_last());
        let s = sends_among(log, actor, w);
        assert forall|p: int| 0 <= p < s.len() implies w.contains(#[trigger] s[p]) by {
            let before = sends_among(log, actor, w.drop_last());
            if p < before.len() {
                assert(w.drop_last().contains(before[p]));
                let q = choose|q: int| 0 <= q < w.drop_last().len() && w.drop_last()[q] == before[p];
                assert(w[q] == s[p]);
            } else {
                assert(w[w.len() - 1] == s[p]);
            }
        }
    }
}

/// Take the first waiting message with number `k`.
fn take_mail<P>(pending: &mut Vec<Envelope<P>>, k: u64) -> (r: Option<Envelope<P>>)
    ensures
        match r {
            Some(env) => {
                let m = env_models(old(pending)@);
                &&& waits(m, k)
                &&& env@ == m[slot(m, k)]
                &&& env_models(final(pending)@) == m.remove(slot(m, k))
            },
            None => !waits(env_models(old(pending)@), k) && final(pending)@ == old(pending)@,
        },
{
    let ghost m = env_models(pending@);
    let mut i: usize = 0;
    while i < pending.len()
        invariant
            pending@ == old(pending)@,
            m == env_models(pending@),
            i <= pending@.len(),
            forall|j: int| 0 <= j < i ==> (#[trigger] m[j]).stamp.msg_id != k,
        decreases pending@.len() - i,
    {
        assert(m[i as int].stamp.msg_id == pending@[i as int].msg_id);
        if pending[i].msg_id == k {
            proof {
                assert(first_numbered(m, k, i as int));
                lemma_slot(m, k, i as int);
            }
            let env = pending.remove(i);
            assert(env_models(pending@) =~= m.remove(i as int));
            return Some(env);
        }
        i = i + 1;
    }
    None
}

impl<P> ReplaySystem<P> {
    /// The actors, in the order of their registration.
    pub closed spec fn cast(&self) -> Seq<Registered<P>> {
        self.actors@
    }

    /// The names of the actors.
    pub open spec fn names(&self) -> Seq<Seq<char>> {
        Seq::new(self.cast().len(), |i: int| self.cast()[i].name())
    }

    /// The origin messages, each with the name of its receiver.
    pub closed spec fn stimuli(&self) -> Seq<(Seq<char>, P)> {
        origin_models(self.origins@)
    }

    /// The course of the last re-execution.
    pub closed spec fn course(&self) -> Course<P> {
        self.course@
    }

    pub fn new() -> (r: Self)
        ensures
            r.names() == Seq::<Seq<char>>::empty(),
            r.stimuli() == Seq::<(Seq<char>, P)>::empty(),
            r.course() == (Course::<P> { opened: seq![], steps: seq![], casts: seq![] }),
    {
        let r = ReplaySystem {
            actors: Vec::new(),
            origins: Vec::new(),
            course: Ghost(Course { opened: seq![], steps: seq![], casts: seq![] }),
        };
        assert(r.names() =~= Seq::<Seq<char>>::empty());
        assert(r.stimuli() =~= Seq::<(Seq<char>, P)>::empty());
        r
    }

    /// How many actors are registered.
    pub fn actor_count(&self) -> (r: usize)
        ensures
            r == self.names().len(),
    {
        self.actors.len()
    }

    /// How many origin messages are supplied.
    pub fn origin_count(&self) -> (r: usize)
        ensures
            r == self.stimuli().len(),
    {
        self.origins.len()
    }

    /// The position of the actor with the given name.
    fn find_actor(&self, name: &ActorId) -> (r: Option<usize>)
        ensures
            match r {
                Some(a) => first_named(self.names(), name@, a as int),
                None => !self.names().contains(name@),
            },
    {
        let mut a: usize = 0;
        while a < self.actors.len()
            invariant
                a <= self.actors@.len(),
                forall|i: int| 0 <= i < a ==> (#[trigger] self.names()[i]) != name@,
            decreases self.actors@.len() - a,
        {
            if self.actors[a].name == *name {
                return Some(a);
            }
            assert(self.names()[a as int] != name@);
            a = a + 1;
        }
        None
    }

    fn register(&mut self, entry: Registered<P>)
        ensures
            final(self).names() == if old(self).names().contains(entry.name@) {
                old(self).names()
            } else {
                old(self).names().push(entry.name@)
            },
            final(self).stimuli() == old(self).stimuli(),
            final(self).course() == old(self).course(),
            0 <= place(final(self).names(), entry.name@) < final(self).actors@.len(),
            final(self).actors@[place(final(self).names(), entry.name@)] == entry,
            forall|b: int|
                0 <= b < old(self).actors@.len() && b != place(final(self).names(), entry.name@)
                    ==> #[trigger] final(self).actors@[b] == old(self).actors@[b],
    {
        match self.find_actor(&entry.name) {
            Some(a) => {
                self.actors[a] = entry;
                assert(self.names() =~= old(self).names());
                proof {
                    lemma_place(self.names(), entry.name@, a as int);
                }
            },
            None => {
                self.actors.push(entry);
                assert(self.names() =~= old(self).names().push(entry.name@));
                proof {
                    let names = self.names();
                    let n = old(self).names().len() as int;
                    assert forall|b: int| 0 <= b < n implies #[trigger] names[b] != entry.name@ by {
                        assert(old(self).names().contains(old(self).names()[b]));
                    }
                    assert(first_named(names, entry.name@, n));
                    lemma_place(names, entry.name@, n);
                }
            },
        }
    }

    /// Register an actor under the name that it had in the recorded run. An actor that was
    /// registered under the name before is replaced; all others stay as they are. The address
    /// leads to a target that swallows what it is given.
    pub fn spawn<A>(&mut self, name: &str, actor: A) -> (r: Addr<A::Msg, P>) where
        A: Actor<ReplayDispatch<P>>,
        P: Payload<A::Msg> + Send + 'static,

        ensures
            r.name() == name@,
            final(self).names() == if old(self).names().contains(name@) {
                old(self).names()
            } else {
                old(self).names().push(name@)
            },
            final(self).stimuli() == old(self).stimuli(),
            final(self).course() == old(self).course(),
            final(self).cast()[place(final(self).names(), name@)].name() == name@,
            final(self).cast()[place(final(self).names(), name@)].tag() == name@,
            final(self).cast()[place(final(self).names(), name@)].runs().len() == 0,
            forall|c: &mut Context<ReplayDispatch<P>>| #[trigger]
                final(self).cast()[place(final(self).names(), name@)].starts(c) == exists|
                    m: &mut A,
                |
                    #[trigger] call_ensures(A::started, (m, c), ()) && *m == actor,
            forall|msg: P| #[trigger]
                final(self).cast()[place(final(self).names(), name@)].takes(msg) == Payload::<
                    A::Msg,
                >::carried(&msg) is Some,
            forall|msg: P, c: &mut Context<ReplayDispatch<P>>| #[trigger]
                final(self).cast()[place(final(self).names(), name@)].handles(msg, c) == exists|
                    m: &mut A,
                |
                    #[trigger] call_ensures(
                        A::handle,
                        (m, Payload::<A::Msg>::carried(&msg)->0, c),
                        (),
                    ) && *m == actor,
            forall|b: int|
                0 <= b < old(self).names().len() && b != place(final(self).names(), name@)
                    ==> #[trigger] final(self).cast()[b] == old(self).cast()[b],
            forall|env: Envelope<P>, x: Result<(), Envelope<P>>| #[trigger]
                r.target().answers(env, x) ==> x is Ok,
    {
        let typed: TypedActor<A, P> = TypedActor::new(name, actor);
        let ghost given = typed;
        let erased: Box<dyn ErasedActor<P, ReplayDispatch<P>>> = Box::new(typed);
        assert(erased.tag() == ErasedActor::<P, ReplayDispatch<P>>::tag(&given));
        assert(erased.runs() == ErasedActor::<P, ReplayDispatch<P>>::runs(&given));
        assert(forall|c: &mut Context<ReplayDispatch<P>>| #[trigger]
            erased.starts(c) == ErasedActor::<P, ReplayDispatch<P>>::starts(&given, c));
        assert(forall|msg: P| #[trigger]
            erased.takes(msg) == ErasedActor::<P, ReplayDispatch<P>>::takes(&given, msg));
        assert(forall|msg: P, c: &mut Context<ReplayDispatch<P>>| #[trigger]
            erased.handles(msg, c) == ErasedActor::<P, ReplayDispatch<P>>::handles(&given, msg, c));
        let id = ActorId::from(name);
        let entry = Named { name: id.clone(), actor: erased };
        assert(entry.name@ == name@);
        self.register(entry);
        assert(self.actors@[place(self.names(), name@)] == entry);
        let target: Box<dyn AnySink<P>> = Box::new(NoopSink);
        let sink: Sink<P> = Arc::new(target);
        Addr::new(id, sink)
    }

    /// Supply an origin message again. It came from outside the recorded system, so the log
    /// does not hold it.
    pub fn origin<M>(&mut self, to: &Addr<M, P>, msg: M) where P: Payload<M>
        ensures
            final(self).cast() == old(self).cast(),
            final(self).course() == old(self).course(),
            final(self).stimuli().len() == old(self).stimuli().len() + 1,
            final(self).stimuli().drop_last() == old(self).stimuli(),
            final(self).stimuli().last().0 == to.name(),
            final(self).stimuli().last().1.carried() == Some(msg),
    {
        self.origins.push((to.id().clone(), P::wrap(msg)));
        assert(self.stimuli().drop_last() =~= old(self).stimuli());
    }
}

/// `h` is what the actor at `a` did.
pub open spec fn is_nth<P>(opened: Seq<Handling<P>>, a: int, h: Handling<P>) -> bool {
    0 <= a < opened.len() && opened[a] == h
}

proof fn lemma_one_more_step<P>(
    log: Seq<EventModel>,
    t: Seq<EventModel>,
    actors: Seq<Seq<char>>,
    stimuli: Seq<(Seq<char>, P)>,
    opened: Seq<Handling<P>>,
    turns: Seq<Turn>,
    steps: Seq<Step<P>>,
    turn: Turn,
    step: Step<P>,
)
    requires
        steps.len() < t.len(),
        played(log, t, actors, stimuli, opened, steps),
        turns_tell(log, t, actors, opened, turns, steps),
        step_fits(
            actors,
            stimuli,
            stage_after(log, t, actors, opened, steps),
            t[steps.len() as int],
            step,
        ),
        tells(
            log,
            actors,
            stage_after(log, t, actors, opened, steps),
            t[steps.len() as int],
            turn,
            step,
        ),
    ensures
        played(log, t, actors, stimuli, opened, steps.push(step)),
        turns_tell(log, t, actors, opened, turns.push(turn), steps.push(step)),
        stage_after(log, t, actors, opened, steps.push(step)) == after_step(
            log,
            actors,
            stage_after(log, t, actors, opened, steps),
            t[steps.len() as int],
            step,
        ),
        forall|i: int|
            0 <= i <= steps.len() ==> #[trigger] steps.push(step).take(i) == steps.take(i),
{
    let more = steps.push(step);
    let told = turns.push(turn);
    assert(more.drop_last() =~= steps);
    assert forall|i: int| 0 <= i <= steps.len() implies #[trigger] more.take(i) == steps.take(
        i,
    ) by {
        assert(more.take(i) =~= steps.take(i));
    }
    assert forall|i: int| 0 <= i < more.len() implies tells(
        log,
        actors,
        stage_after(log, t, actors, opened, more.take(i)),
        t[i],
        #[trigger] told[i],
        more[i],
    ) by {
        assert(more.take(i) =~= steps.take(i));
        if i < steps.len() {
            assert(told[i] == turns[i]);
        } else {
            assert(steps.take(i) =~= steps);
        }
    }
}

impl<P> ReplaySystem<P> {
    /// A run in which nothing has happened yet.
    fn begin(&self, log: &[CausalEvent], index: &RecordedIndex) -> (r: Run<P>)
        requires
            index.log() == log_model(log@),
        ensures
            r.stands(log_model(log@), self.names(), first_stage(self.names())),
    {
        let ghost model = log_model(log@);
        let mut lines: Vec<Line> = Vec::new();
        let mut a: usize = 0;
        while a < self.actors.len()
            invariant
                model == log_model(log@),
                index.log() == model,
                a <= self.actors@.len(),
                lines@.len() == a,
                forall|b: int|
                    0 <= b < a ==> (#[trigger] lines@[b]).stands(
                        model,
                        self.names()[b],
                        Standing { stamps: no_stamps(), used: 0 },
                    ),
            decreases self.actors@.len() - a,
        {
            let name = &self.actors[a].name;
            let ids = recorded_ids(log, index, name);
            lines.push(Line { world: WorldLine::new(name.clone()), ids, used: 0 });
            a = a + 1;
        }
        let r = Run { lines, pending: Vec::new(), executed: Vec::new(), extra_sends: Vec::new() };
        let ghost st = first_stage(self.names());
        assert(env_models(r.pending@) =~= st.mail);
        assert(log_model(r.executed@) =~= st.executed);
        assert(texts(r.extra_sends@) =~= st.extra);
        r
    }

    /// Start actor `a` over a backend with its recorded message numbers, and give the backend
    /// back.
    fn start_one(&mut self, run: &mut Run<P>, a: usize) -> (r: ReplayDispatch<P>)
        requires
            a < old(self).actors@.len(),
            a < old(run).lines@.len(),
            old(run).lines@[a as int].used <= old(run).lines@[a as int].ids@.len(),
        ensures
            final(self).names() == old(self).names(),
            final(self).stimuli() == old(self).stimuli(),
            final(self).actors@.len() == old(self).actors@.len(),
            final(self).actors@[a as int].ran_for(old(self).actors@[a as int], Errand::Start),
            forall|b: int|
                0 <= b < old(self).actors@.len() && b != a ==> #[trigger] final(self).actors@[b]
                    == old(self).actors@[b],
            final(run).pending@ == old(run).pending@,
            final(run).executed@ == old(run).executed@,
            final(run).extra_sends@ == old(run).extra_sends@,
            final(run).lines@.len() == old(run).lines@.len(),
            forall|b: int|
                0 <= b < old(run).lines@.len() && b != a ==> #[trigger] final(run).lines@[b] == old(
                    run,
                ).lines@[b],
            final(run).lines@[a as int].ids == old(run).lines@[a as int].ids,
            final(run).lines@[a as int].used == old(run).lines@[a as int].used,
            final(run).lines@[a as int].world.name() == old(run).lines@[a as int].world.name(),
            exists|c: &mut Context<ReplayDispatch<P>>|
                {
                    &&& #[trigger] old(self).actors@[a as int].actor.starts(c)
                    &&& hands_over(
                        *c,
                        old(run).lines@[a as int].world.name(),
                        stamps_of(old(run).lines@[a as int].world),
                        old(run).lines@[a as int].ids@.skip(old(run).lines@[a as int].used as int),
                    )
                    &&& &*final(c.backend_cell()) == &r
                    &&& (*final(c.clock_cell()))@ == final(run).lines@[a as int].world.clock()
                    &&& (*final(c.lamport_cell())).0 == final(run).lines@[a as int].world.lamport()
                    &&& *final(c.seq_cell()) == final(run).lines@[a as int].world.seq()
                },
    {
        let ids = run.open_ids(a);
        let mut backend: ReplayDispatch<P> = ReplayDispatch::new(ids);
        {
            let mut ctx = run.lines[a].world.context(&mut backend);
            self.actors[a].actor.started(&mut ctx);
        }
        assert(self.names() =~= old(self).names());
        backend
    }

    /// Start every actor, one after the other, each once. What they record and send is taken
    /// over in that order; the numbers of the messages that they sent are returned.
    fn start(&mut self, run: &mut Run<P>, log: Ghost<Seq<EventModel>>) -> (r: (
        Vec<u64>,
        Ghost<Seq<Handling<P>>>,
    ))
        requires
            old(run).stands(log@, old(self).names(), first_stage(old(self).names())),
        ensures
            final(self).names() == old(self).names(),
            final(self).stimuli() == old(self).stimuli(),
            final(self).actors@.len() == old(self).actors@.len(),
            forall|a: int|
                0 <= a < old(self).actors@.len() ==> (#[trigger] final(self).actors@[a]).ran_for(
                    old(self).actors@[a],
                    Errand::Start,
                ),
            r.1@.len() == old(self).names().len(),
            forall|a: int| 0 <= a < r.1@.len() ==> (#[trigger] r.1@[a]).before == no_stamps(),
            final(run).stands(log@, old(self).names(), started(log@, old(self).names(), r.1@)),
            r.0@ == numbers(started(log@, old(self).names(), r.1@).mail),
            forall|a: int, h: Handling<P>| #[trigger]
                is_nth(r.1@, a, h) ==> exists|c: &mut Context<ReplayDispatch<P>>|
                    {
                        &&& #[trigger] old(self).actors@[a].actor.starts(c)
                        &&& hands_over(
                            *c,
                            old(self).names()[a],
                            no_stamps(),
                            ids_of(log@, old(self).names()[a]),
                        )
                        &&& (*final(c.backend_cell())).holds(h)
                        &&& (*final(c.clock_cell()))@ == h.after.clock
                        &&& (*final(c.lamport_cell())).0 == h.after.lamport
                        &&& *final(c.seq_cell()) == h.after.seq
                    },
    {
        let ghost names = self.names();
        let n: usize = self.actors.len();
        let mut opening: Vec<u64> = Vec::new();
        let mut a: usize = 0;
        let ghost mut opened: Seq<Handling<P>> = seq![];
        assert(opening@ =~= numbers(started(log@, names, opened).mail));
        while a < n
            invariant
                a <= n,
                n == names.len(),
                names == old(self).names(),
                self.names() == names,
                self.stimuli() == old(self).stimuli(),
                self.actors@.len() == n,
                n == old(self).actors@.len(),
                forall|b: int| a <= b < n ==> #[trigger] self.actors@[b] == old(self).actors@[b],
                forall|b: int|
                    0 <= b < a ==> (#[trigger] self.actors@[b]).ran_for(
                        old(self).actors@[b],
                        Errand::Start,
                    ),
                opened.len() == a,
                forall|b: int| 0 <= b < a ==> (#[trigger] opened[b]).before == no_stamps(),
                run.stands(log@, names, started(log@, names, opened)),
                forall|b: int|
                    a <= b < n ==> (#[trigger] started(log@, names, opened).lines[b]) == (Standing {
                        stamps: no_stamps(),
                        used: 0,
                    }),
                opening@ == numbers(started(log@, names, opened).mail),
                forall|b: int, h: Handling<P>| #[trigger]
                    is_nth(opened, b, h) ==> exists|c: &mut Context<ReplayDispatch<P>>|
                        {
                            &&& #[trigger] old(self).actors@[b].actor.starts(c)
                            &&& hands_over(*c, names[b], no_stamps(), ids_of(log@, names[b]))
                            &&& (*final(c.backend_cell())).holds(h)
                            &&& (*final(c.clock_cell()))@ == h.after.clock
                            &&& (*final(c.lamport_cell())).0 == h.after.lamport
                            &&& *final(c.seq_cell()) == h.after.seq
                        },
            decreases n - a,
        {
            let ghost earlier = opened;
            let ghost st = started(log@, names, earlier);
            assert(run.lines@[a as int].stands(log@, names[a as int], st.lines[a as int]));
            let open: usize = run.lines[a].ids.len() - run.lines[a].used;
            let ghost run0 = *run;
            let backend = self.start_one(run, a);
            let ghost run1 = *run;
            let ghost h = Handling {
                before: no_stamps(),
                events: log_model(backend.events@),
                sent: env_models(backend.sent@),
                issued: backend.issued@.len(),
                after: stamps_of(run1.lines@[a as int].world),
            };
            let mut sends = run.collect(a, open, backend);
            opening.append(&mut sends);
            proof {
                opened = earlier.push(h);
                assert(opened.drop_last() =~= earlier);
                assert(run0.lines@[a as int].ids@.skip(0) =~= ids_of(log@, names[a as int]));
                assert forall|b: int| 0 <= b < names.len() && b != a implies (
                #[trigger] run1.lines@[b]).stands(log@, names[b], st.lines[b]) by {
                    assert(run0.lines@[b].stands(log@, names[b], st.lines[b]));
                }
                lemma_taken_over(log@, names, st, a as int, run1, *run, backend, h);
                assert(opening@ =~= numbers(started(log@, names, opened).mail));
                assert forall|b: int, g: Handling<P>| #[trigger]
                    is_nth(opened, b, g) implies exists|c: &mut Context<ReplayDispatch<P>>|
                    {
                        &&& #[trigger] old(self).actors@[b].actor.starts(c)
                        &&& hands_over(*c, names[b], no_stamps(), ids_of(log@, names[b]))
                        &&& (*final(c.backend_cell())).holds(g)
                        &&& (*final(c.clock_cell()))@ == g.after.clock
                        &&& (*final(c.lamport_cell())).0 == g.after.lamport
                        &&& *final(c.seq_cell()) == g.after.seq
                    } by {
                    if b < a {
                        assert(is_nth(earlier, b, g));
                    } else {
                        assert(g == h);
                    }
                }
            }
            a = a + 1;
        }
        (opening, Ghost(opened))
    }

    /// Actor `a` receives `env` and handles it.
    fn deliver(&mut self, run: &mut Run<P>, a: usize, env: Envelope<P>) -> (r: Result<
        (usize, Vec<u64>, Ghost<Handling<P>>),
        ReplayError,
    >)
        requires
            a < old(self).actors@.len(),
            a < old(run).lines@.len(),
            old(run).lines@[a as int].world.name() == old(self).names()[a as int],
            old(run).lines@[a as int].used <= old(run).lines@[a as int].ids@.len(),
        ensures
            final(self).names() == old(self).names(),
            final(self).stimuli() == old(self).stimuli(),
            match r {
                Ok((q, sends, h)) => {
                    let line = old(run).lines@[a as int];
                    &&& final(self).actors@ == old(self).actors@.update(
                        a as int,
                        final(self).actors@[a as int],
                    )
                    &&& final(self).actors@[a as int].ran_for(
                        old(self).actors@[a as int],
                        Errand::Message(env.msg),
                    )
                    &&& line.world.room_for(env@.stamp)
                    &&& old(self).actors@[a as int].takes(env.msg)
                    &&& h@.before == receipt_stamps(
                        stamps_of(line.world),
                        line.world.name(),
                        env@.stamp,
                    )
                    &&& q == old(run).executed@.len()
                    &&& final(run).lines@.len() == old(run).lines@.len()
                    &&& forall|b: int|
                        0 <= b < old(run).lines@.len() && b != a ==> #[trigger] final(run).lines@[b]
                            == old(run).lines@[b]
                    &&& final(run).lines@[a as int].ids == line.ids
                    &&& final(run).lines@[a as int].used == line.used + at_most(
                        h@.issued,
                        line.open(),
                    )
                    &&& final(run).lines@[a as int].world.name() == line.world.name()
                    &&& stamps_of(final(run).lines@[a as int].world) == h@.after
                    &&& env_models(final(run).pending@) == env_models(old(run).pending@) + kept(
                        h@,
                        line.open(),
                    )
                    &&& sends@ == numbers(kept(h@, line.open()))
                    &&& log_model(final(run).executed@) == log_model(old(run).executed@).push(
                        recv_model(
                            line.world.name(),
                            h@.before.seq,
                            h@.before.clock,
                            h@.before.lamport,
                            env@.stamp,
                        ),
                    ) + h@.events
                    &&& texts(final(run).extra_sends@) == texts(old(run).extra_sends@) + repeated(
                        line.world.name(),
                        (h@.issued - at_most(h@.issued, line.open())) as nat,
                    )
                    &&& exists|c: &mut Context<ReplayDispatch<P>>|
                        {
                            &&& #[trigger] old(self).actors@[a as int].actor.handles(env.msg, c)
                            &&& hands_over(
                                *c,
                                line.world.name(),
                                h@.before,
                                line.ids@.skip(line.used as int),
                            )
                            &&& (*final(c.backend_cell())).holds(h@)
                            &&& (*final(c.clock_cell()))@ == h@.after.clock
                            &&& (*final(c.lamport_cell())).0 == h@.after.lamport
                            &&& *final(c.seq_cell()) == h@.after.seq
                        }
                },
                Err(ReplayError::ClockExhausted(who)) => {
                    &&& final(self).actors@ == old(self).actors@
                    &&& who@ == old(self).names()[a as int]
                    &&& !old(run).lines@[a as int].world.room_for(env@.stamp)
                },
                Err(ReplayError::WrongMessageType(who)) => {
                    &&& final(self).actors@ == old(self).actors@
                    &&& who@ == old(self).names()[a as int]
                    &&& old(run).lines@[a as int].world.room_for(env@.stamp)
                    &&& !old(self).actors@[a as int].takes(env.msg)
                },
                Err(_) => false,
            },
    {
        let ghost names = self.names();
        let ghost system0 = *self;
        let ghost line = run.lines@[a as int];
        let open: usize = run.lines[a].ids.len() - run.lines[a].used;
        if !run.lines[a].world.can_receive(&env) {
            return Err(ReplayError::ClockExhausted(run.lines[a].world.id().to_string()));
        }
        let event = run.lines[a].world.receive(&env);
        let ghost before = stamps_of(run.lines@[a as int].world);
        let q: usize = run.executed.len();
        let ghost executed = log_model(run.executed@);
        run.executed.push(event);
        assert(log_model(run.executed@) =~= executed.push(event@));
        let ids = run.open_ids(a);
        let mut backend: ReplayDispatch<P> = ReplayDispatch::new(ids);
        let handled: bool;
        {
            let mut ctx = run.lines[a].world.context(&mut backend);
            handled = self.actors[a].actor.handle_any(env.msg, &mut ctx);
        }
        assert(self.names() =~= names);
        assert(self.actors@ =~= system0.actors@.update(a as int, self.actors@[a as int]));
        if !handled {
            return Err(ReplayError::WrongMessageType(run.lines[a].world.id().to_string()));
        }
        let ghost mid = *run;
        let ghost h = Handling {
            before,
            events: log_model(backend.events@),
            sent: env_models(backend.sent@),
            issued: backend.issued@.len(),
            after: stamps_of(mid.lines@[a as int].world),
        };
        let sends = run.collect(a, open, backend);
        proof {
            assert(env_models(backend.kept(open as nat)) =~= kept(h, open as nat)) by {
                assert(env_models(backend.sent@).len() == backend.sent@.len());
            }
            assert(env_models(run.pending@) =~= env_models(mid.pending@) + kept(h, open as nat));
            assert(log_model(run.executed@) =~= log_model(mid.executed@) + h.events);
        }
        Ok((q, sends, Ghost(h)))
    }

    /// The envelope of an outsider's send: the origin message, stamped as recorded.
    fn supply(e: &CausalEvent, k: u64, to: ActorId, msg: P) -> (r: Envelope<P>)
        ensures
            r@ == (EnvelopeModel {
                msg,
                stamp: EnvelopeStamp {
                    vclock: e@.vclock,
                    lamport: e@.lamport,
                    msg_id: k,
                    src: e@.actor,
                    dst: to@,
                },
            }),
    {
        Envelope {
            msg,
            vclock: vclock_from(&e.vclock),
            lamport: Lamport(e.lamport),
            msg_id: k,
            src: ActorId::from(e.actor.as_str()),
            dst: to,
        }
    }
}

impl<P> ReplaySystem<P> {
    /// Re-execute a recording, and report where it differs. The origin messages are used up.
    ///
    /// What the handlers do is theirs. Every actor is started once, and every receipt whose message
    /// waits is handled, in the order of the timeline, by the actor of its name: that actor gets
    /// the very message that was sent under the number, or supplied as origin message, and a
    /// context at the stamps of the receipt. What the handlers did is compared with the recording,
    /// all of it.
    pub fn replay(&mut self, log: &[CausalEvent]) -> (r: Result<ReplayOutcome, ReplayError>)
        ensures
            final(self).names() == old(self).names(),
            match r {
                Ok(o) => replayable(log_model(log@)) && is_outcome(
                    o,
                    log_model(log@),
                    old(self).names(),
                    old(self).stimuli(),
                    final(self).course().opened,
                    final(self).course().steps,
                ),
                Err(ReplayError::ClockExhausted(who)) => {
                    &&& replayable(log_model(log@))
                    &&& comes_to_receipt(
                        log_model(log@),
                        timeline(log_model(log@)),
                        old(self).names(),
                        old(self).stimuli(),
                        final(self).course().opened,
                        final(self).course().steps,
                        who@,
                    )
                    &&& !has_room_there(
                        log_model(log@),
                        timeline(log_model(log@)),
                        old(self).names(),
                        final(self).course().opened,
                        final(self).course().steps,
                    )
                },
                Err(ReplayError::WrongMessageType(who)) => {
                    let n = final(self).course().steps.len() as int;
                    &&& replayable(log_model(log@))
                    &&& comes_to_receipt(
                        log_model(log@),
                        timeline(log_model(log@)),
                        old(self).names(),
                        old(self).stimuli(),
                        final(self).course().opened,
                        final(self).course().steps,
                        who@,
                    )
                    &&& has_room_there(
                        log_model(log@),
                        timeline(log_model(log@)),
                        old(self).names(),
                        final(self).course().opened,
                        final(self).course().steps,
                    )
                    &&& !final(self).course().casts[n][place(old(self).names(), who@)].takes(
                        message_at(
                            log_model(log@),
                            timeline(log_model(log@)),
                            old(self).names(),
                            final(self).course().opened,
                            final(self).course().steps,
                            n,
                        ),
                    )
                },
                Err(e) => replay_fails_with(log_model(log@), e) && *final(self) == *old(self),
            },
            began(r) ==> final(self).stimuli().len() == 0,
            began(r) ==> casts_follow(
                log_model(log@),
                timeline(log_model(log@)),
                old(self).names(),
                old(self).cast(),
                final(self).course(),
            ),
            began(r) ==> final(self).cast() == final(self).course().casts.last(),
            began(r) ==> forall|a: int, h: Handling<P>| #[trigger]
                is_nth(final(self).course().opened, a, h) ==> exists|
                    c: &mut Context<ReplayDispatch<P>>,
                |
                    {
                        &&& #[trigger] old(self).cast()[a].starts(c)
                        &&& hands_over(
                            *c,
                            old(self).names()[a],
                            no_stamps(),
                            ids_of(log_model(log@), old(self).names()[a]),
                        )
                        &&& (*final(c.backend_cell())).holds(h)
                        &&& (*final(c.clock_cell()))@ == h.after.clock
                        &&& (*final(c.lamport_cell())).0 == h.after.lamport
                        &&& *final(c.seq_cell()) == h.after.seq
                    },
            began(r) ==> forall|i: int, h: Handling<P>| #[trigger]
                handled_at(final(self).course().steps, i, h) ==> exists|
                    c: &mut Context<ReplayDispatch<P>>,
                |
                    {
                        &&& #[trigger] final(self).course().casts[i][place(
                            old(self).names(),
                            timeline(log_model(log@))[i].actor,
                        )].handles(
                            message_at(
                                log_model(log@),
                                timeline(log_model(log@)),
                                old(self).names(),
                                final(self).course().opened,
                                final(self).course().steps,
                                i,
                            ),
                            c,
                        )
                        &&& hands_over(
                            *c,
                            timeline(log_model(log@))[i].actor,
                            h.before,
                            ids_left(
                                log_model(log@),
                                timeline(log_model(log@)),
                                old(self).names(),
                                final(self).course().opened,
                                final(self).course().steps,
                                i,
                            ),
                        )
                        &&& (*final(c.backend_cell())).holds(h)
                        &&& (*final(c.clock_cell()))@ == h.after.clock
                        &&& (*final(c.lamport_cell())).0 == h.after.lamport
                        &&& *final(c.seq_cell()) == h.after.seq
                    },
    {
        let ghost model = log_model(log@);
        let ghost names = self.names();
        let ghost stimuli = self.stimuli();
        let replayed = match replay_log(log) {
            Ok(replayed) => replayed,
            Err(e) => {
                return Err(e);
            },
        };
        let index = RecordedIndex::build(log);
        let mut run = self.begin(log, &index);
        let (opening, did) = self.start(&mut run, Ghost(model));
        let ghost opened = did@;
        let mut origins: Vec<(ActorId, P)> = Vec::new();
        std::mem::swap(&mut origins, &mut self.origins);
        assert(self.names() =~= names);
        let ghost t = timeline(model);
        let n: usize = replayed.timeline.len();
        let mut turns: Vec<Turn> = Vec::new();
        let ghost mut course = Course { opened, steps: seq![], casts: seq![self.actors@] };
        let mut i: usize = 0;
        assert(origin_models(origins@) =~= stimuli.skip(0));
        proof {
            lemma_started_origins(model, names, opened);
            assert forall|a: int, h: Handling<P>| #[trigger] is_nth(opened, a, h) implies exists|
                c: &mut Context<ReplayDispatch<P>>,
            |
                {
                    &&& #[trigger] old(self).cast()[a].starts(c)
                    &&& hands_over(*c, names[a], no_stamps(), ids_of(model, names[a]))
                    &&& (*final(c.backend_cell())).holds(h)
                    &&& (*final(c.clock_cell()))@ == h.after.clock
                    &&& (*final(c.lamport_cell())).0 == h.after.lamport
                    &&& *final(c.seq_cell()) == h.after.seq
                } by {
                let c = choose|c: &mut Context<ReplayDispatch<P>>|
                    {
                        &&& #[trigger] old(self).actors@[a].actor.starts(c)
                        &&& hands_over(*c, names[a], no_stamps(), ids_of(model, names[a]))
                        &&& (*final(c.backend_cell())).holds(h)
                        &&& (*final(c.clock_cell()))@ == h.after.clock
                        &&& (*final(c.lamport_cell())).0 == h.after.lamport
                        &&& *final(c.seq_cell()) == h.after.seq
                    };
                assert(old(self).cast()[a].starts(c));
            }
        }
        while i < n
            invariant
                model == log_model(log@),
                replayable(model),
                self.names() == names,
                self.actors@.len() == names.len(),
                self.stimuli().len() == 0,
                names == old(self).names(),
                stimuli == old(self).stimuli(),
                t == timeline(model),
                t == log_model(replayed.timeline@),
                n == t.len(),
                n == replayed.timeline@.len(),
                i <= n,
                course.opened == opened,
                course.steps.len() == i,
                played(model, t, names, stimuli, opened, course.steps),
                turns_tell(model, t, names, opened, turns@, course.steps),
                run.stands(model, names, stage_after(model, t, names, opened, course.steps)),
                stage_after(model, t, names, opened, course.steps).origins <= stimuli.len(),
                origin_models(origins@) == stimuli.skip(
                    stage_after(model, t, names, opened, course.steps).origins as int,
                ),
                casts_follow(model, t, names, old(self).cast(), course),
                self.actors@ == course.casts[i as int],
                forall|a: int, h: Handling<P>| #[trigger]
                    is_nth(opened, a, h) ==> exists|c: &mut Context<ReplayDispatch<P>>|
                        {
                            &&& #[trigger] old(self).cast()[a].starts(c)
                            &&& hands_over(*c, names[a], no_stamps(), ids_of(model, names[a]))
                            &&& (*final(c.backend_cell())).holds(h)
                            &&& (*final(c.clock_cell()))@ == h.after.clock
                            &&& (*final(c.lamport_cell())).0 == h.after.lamport
                            &&& *final(c.seq_cell()) == h.after.seq
                        },
                forall|j: int, h: Handling<P>| #[trigger]
                    handled_at(course.steps, j, h) ==> exists|c: &mut Context<ReplayDispatch<P>>|
                        {
                            &&& #[trigger] course.casts[j][place(names, t[j].actor)].handles(
                                message_at(model, t, names, opened, course.steps, j),
                                c,
                            )
                            &&& hands_over(
                                *c,
                                t[j].actor,
                                h.before,
                                ids_left(model, t, names, opened, course.steps, j),
                            )
                            &&& (*final(c.backend_cell())).holds(h)
                            &&& (*final(c.clock_cell()))@ == h.after.clock
                            &&& (*final(c.lamport_cell())).0 == h.after.lamport
                            &&& *final(c.seq_cell()) == h.after.seq
                        },
            decreases n - i,
        {
            let e = &replayed.timeline[i];
            assert(t[i as int] == e@);
            let ghost steps = course.steps;
            let ghost st = stage_after(model, t, names, opened, steps);
            let ghost turns0 = turns@;
            let ghost run0 = run;
            let ghost used = st.origins;
            let ghost cast = self.actors@;
            proof {
                let left = origin_models(origins@);
                assert(left.len() == origins@.len());
                assert(left.len() == stimuli.len() - used);
                assert(left.len() > 0 ==> left[0] == stimuli[used as int]);
                assert(steps.take(i as int) =~= steps);
            }
            let at = self.find_actor(&ActorId::from(e.actor.as_str()));
            let ghost mut step = Step::Followed;
            proof {
                if let Some(a) = at {
                    lemma_place(names, e@.actor, a as int);
                    assert(run.lines@[a as int].stands(model, names[a as int], st.lines[a as int]));
                }
            }
            let turn = match (at, e.op) {
                (Some(a), Op::Recv) => {
                    let found = match number_of(e) {
                        Some(k) => take_mail(&mut run.pending, k),
                        None => None,
                    };
                    match found {
                        Some(env) => {
                            assert(env@ == received_message(st, e@));
                            match self.deliver(&mut run, a, env) {
                                Ok((q, sends, did)) => {
                                    let ghost h = did@;
                                    proof {
                                        step = Step::Received(h);
                                        lemma_delivered(
                                            model,
                                            names,
                                            st,
                                            e@,
                                            a as int,
                                            run0,
                                            run,
                                            h,
                                            env@,
                                        );
                                    }
                                    Turn::Received(q, sends)
                                },
                                Err(err) => {
                                    proof {
                                        assert(comes_to_receipt(
                                            model,
                                            t,
                                            names,
                                            stimuli,
                                            opened,
                                            steps,
                                            e@.actor,
                                        ));
                                        assert(env.msg == message_at(
                                            model,
                                            t,
                                            names,
                                            opened,
                                            steps,
                                            i as int,
                                        ));
                                    }
                                    self.course = Ghost(course);
                                    assert(self.names() =~= names);
                                    return Err(err);
                                },
                            }
                        },
                        None => {
                            proof {
                                step = Step::Undelivered;
                            }
                            Turn::Undelivered
                        },
                    }
                },
                (None, Op::Emit) => {
                    match number_of(e) {
                        Some(k) if origins.len() > 0 && is_text(&e.dst, &origins[0].0) => {
                            let ghost rest = origin_models(origins@);
                            let (to, msg) = origins.remove(0);
                            assert(origin_models(origins@) =~= rest.skip(1));
                            assert(rest.skip(1) =~= stimuli.skip(used as int + 1));
                            assert(rest[0] == (to@, msg));
                            run.pending.push(Self::supply(e, k, to, msg));
                            proof {
                                step = Step::Supplied(msg);
                                assert(env_models(run.pending@) =~= st.mail.push(
                                    EnvelopeModel { msg, stamp: recorded_stamp(e@) },
                                ));
                            }
                            Turn::Supplied
                        },
                        _ => {
                            proof {
                                step = Step::Unsupplied;
                            }
                            Turn::Unsupplied
                        },
                    }
                },
                _ => Turn::Followed,
            };
            turns.push(turn);
            proof {
                let before = course;
                assert(at is Some ==> names.contains(e@.actor));
                lemma_one_more_step(
                    model,
                    t,
                    names,
                    stimuli,
                    opened,
                    turns0,
                    steps,
                    turn,
                    step,
                );
                course = Course {
                    opened,
                    steps: steps.push(step),
                    casts: before.casts.push(self.actors@),
                };
                assert(course.casts.drop_last() =~= before.casts);
                assert(course.steps.drop_last() =~= before.steps);
                assert(course.steps.take(i as int) == steps.take(i as int));
                lemma_casts_follow(model, t, names, old(self).cast(), before, course);
                assert forall|j: int, h: Handling<P>| #[trigger]
                    handled_at(course.steps, j, h) implies exists|
                    c: &mut Context<ReplayDispatch<P>>,
                |
                    {
                        &&& #[trigger] course.casts[j][place(names, t[j].actor)].handles(
                            message_at(model, t, names, opened, course.steps, j),
                            c,
                        )
                        &&& hands_over(
                            *c,
                            t[j].actor,
                            h.before,
                            ids_left(model, t, names, opened, course.steps, j),
                        )
                        &&& (*final(c.backend_cell())).holds(h)
                        &&& (*final(c.clock_cell()))@ == h.after.clock
                        &&& (*final(c.lamport_cell())).0 == h.after.lamport
                        &&& *final(c.seq_cell()) == h.after.seq
                    } by {
                    assert(course.steps.take(j) == steps.take(j));
                    assert(course.casts[j] == before.casts[j]);
                    if j < i {
                        assert(handled_at(steps, j, h));
                        assert(message_at(model, t, names, opened, course.steps, j) == message_at(
                            model,
                            t,
                            names,
                            opened,
                            steps,
                            j,
                        ));
                    } else {
                        assert(before.casts[j] == cast);
                        let a = at->0 as int;
                        let msg = message_at(model, t, names, opened, course.steps, j);
                        assert(step == Step::Received(h));
                        let c = choose|c: &mut Context<ReplayDispatch<P>>|
                            {
                                &&& #[trigger] cast[a].actor.handles(msg, c)
                                &&& hands_over(
                                    *c,
                                    e@.actor,
                                    h.before,
                                    run0.lines@[a].ids@.skip(run0.lines@[a].used as int),
                                )
                                &&& (*final(c.backend_cell())).holds(h)
                                &&& (*final(c.clock_cell()))@ == h.after.clock
                                &&& (*final(c.lamport_cell())).0 == h.after.lamport
                                &&& *final(c.seq_cell()) == h.after.seq
                            };
                        assert(course.casts[j][place(names, t[j].actor)].handles(msg, c));
                    }
                }
            }
            i = i + 1;
        }
        let divergences = find_divergences(
            &index,
            &replayed.timeline,
            &run.executed,
            &run.extra_sends,
            &turns,
        );
        self.course = Ghost(course);
        assert(self.names() =~= names);
        Ok(
            ReplayOutcome {
                replayed,
                divergences,
                executed: run.executed,
                extra_sends: run.extra_sends,
                opening,
                turns,
            },
        )
    }
}

/// One more step keeps what is said of the actors.
proof fn lemma_casts_follow<P>(
    log: Seq<EventModel>,
    t: Seq<EventModel>,
    names: Seq<Seq<char>>,
    cast: Seq<Registered<P>>,
    before: Course<P>,
    after: Course<P>,
)
    requires
        casts_follow(log, t, names, cast, before),
        after.opened == before.opened,
        after.steps.len() == before.steps.len() + 1,
        after.casts.len() == before.casts.len() + 1,
        after.steps.drop_last() == before.steps,
        after.casts.drop_last() == before.casts,
        after.casts.last().len() == cast.len(),
        cast_moves(log, t, names, after, before.steps.len() as int),
    ensures
        casts_follow(log, t, names, cast, after),
{
    assert forall|i: int| 0 <= i < after.casts.len() implies (#[trigger] after.casts[i]).len()
        == cast.len() by {
        if i < before.casts.len() {
            assert(after.casts[i] == before.casts[i]);
        }
    }
    assert(after.casts[0] == before.casts[0]);
    assert forall|i: int| 0 <= i < after.steps.len() implies #[trigger] cast_moves(
        log,
        t,
        names,
        after,
        i,
    ) by {
        if i < before.steps.len() {
            assert(cast_moves(log, t, names, before, i));
            assert(after.steps[i] == before.steps[i]);
            assert(after.casts[i] == before.casts[i]);
            assert(after.casts[i + 1] == before.casts[i + 1]);
            assert(after.steps.take(i) =~= before.steps.take(i));
        }
    }
}

proof fn lemma_started_origins<P>(
    log: Seq<EventModel>,
    actors: Seq<Seq<char>>,
    opened: Seq<Handling<P>>,
)
    ensures
        started(log, actors, opened).origins == 0,
    decreases opened.len(),
{
    if opened.len() > 0 {
        lemma_started_origins(log, actors, opened.drop_last());
    }
}

/// A delivered message moves the run as the model says.
proof fn lemma_delivered<P>(
    log: Seq<EventModel>,
    names: Seq<Seq<char>>,
    st: Stage<P>,
    e: EventModel,
    a: int,
    run0: Run<P>,
    run1: Run<P>,
    h: Handling<P>,
    env: EnvelopeModel<P>,
)
    requires
        first_named(names, e.actor, a),
        run0.stands(log, names, st),
        env == received_message(st, e),
        run1.lines@.len() == run0.lines@.len(),
        forall|b: int|
            0 <= b < run0.lines@.len() && b != a ==> #[trigger] run1.lines@[b] == run0.lines@[b],
        run1.lines@[a].ids == run0.lines@[a].ids,
        run1.lines@[a].used == run0.lines@[a].used + at_most(h.issued, run0.lines@[a].open()),
        run1.lines@[a].world.name() == run0.lines@[a].world.name(),
        stamps_of(run1.lines@[a].world) == h.after,
        env_models(run1.pending@) == st.mail.remove(slot(st.mail, recorded_number(e)->0)) + kept(
            h,
            run0.lines@[a].open(),
        ),
        log_model(run1.executed@) == log_model(run0.executed@).push(
            recv_model(e.actor, h.before.seq, h.before.clock, h.before.lamport, env.stamp),
        ) + h.events,
        texts(run1.extra_sends@) == texts(run0.extra_sends@) + repeated(
            e.actor,
            (h.issued - at_most(h.issued, run0.lines@[a].open())) as nat,
        ),
    ensures
        run1.stands(log, names, after_step(log, names, st, e, Step::Received(h))),
{
    lemma_place(names, e.actor, a);
    assert(run0.lines@[a].stands(log, names[a], st.lines[a]));
    let next = after_step(log, names, st, e, Step::Received(h));
    assert forall|b: int| 0 <= b < names.len() implies (#[trigger] run1.lines@[b]).stands(
        log,
        names[b],
        next.lines[b],
    ) by {
        if b != a {
            assert(run0.lines@[b].stands(log, names[b], st.lines[b]));
        }
    }
}

/// The optional text is the name of the actor.
fn is_text(o: &Option<String>, id: &ActorId) -> (r: bool)
    ensures
        r == (opt_text(*o) == Some(id@)),
{
    match o {
        Some(s) => ActorId::from(s.as_str()) == *id,
        None => false,
    }
}

impl<P> Default for ReplaySystem<P> {
    fn default() -> (r: Self)
        ensures
            r.names() == Seq::<Seq<char>>::empty(),
            r.stimuli() == Seq::<(Seq<char>, P)>::empty(),
    {
        ReplaySystem::new()
    }
}

/// A handler gets a context for its actor, at the given stamps, over a backend that has only the
/// given message numbers to hand out, and has done nothing yet.
pub proof fn what_a_handler_gets<P>(
    c: Context<ReplayDispatch<P>>,
    actor: Seq<char>,
    stamps: Stamps,
    ids: Seq<u64>,
)
    requires
        hands_over(c, actor, stamps, ids),
    ensures
        c.actor() == actor,
        c.clock() == stamps.clock,
        c.lamport() == stamps.lamport,
        c.seq() == stamps.seq,
        c.backend().ids() == ids,
        c.backend().calls() == Seq::<Call<P>>::empty(),
        c.backend().issued() == Seq::<u64>::empty(),
        c.backend().recorded() == Seq::<EventModel>::empty(),
        c.backend().sent() == Seq::<(Sink<P>, Envelope<P>)>::empty(),
{
    assert(c.backend().calls() =~= Seq::<Call<P>>::empty());
    assert(c.backend().issued() =~= Seq::<u64>::empty());
    assert(c.backend().recorded() =~= Seq::<EventModel>::empty());
    assert(c.backend().sent() =~= Seq::<(Sink<P>, Envelope<P>)>::empty());
}

impl<P> ReplayDispatch<P> {
    /// What a handler did is what the backend has from it: the events that it recorded, the
    /// envelopes that it sent, payload and stamps, and as many numbers as it asked for.
    pub proof fn holds_what_was_done(&self, h: Handling<P>)
        ensures
            self.holds(h) <==> {
                &&& h.events == self.recorded()
                &&& h.sent == self.sent().map_values(|s: (Sink<P>, Envelope<P>)| s.1@)
                &&& h.issued == self.issued().len()
            },
    {
        assert(env_models(self.sent@) =~= self.sent().map_values(
            |s: (Sink<P>, Envelope<P>)| s.1@,
        ));
    }
}

/// The re-execution began exactly when it came to a report or to a receipt that could not be
/// made.
pub proof fn when_a_re_execution_began(r: Result<ReplayOutcome, ReplayError>)
    ensures
        began(r) <==> r is Ok || r->Err_0 is ClockExhausted || r->Err_0 is WrongMessageType,
{
}

} // verus!
