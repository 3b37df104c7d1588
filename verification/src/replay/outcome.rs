//! What a re-execution found.

use crate::event::parse_mid;
use crate::log::{log_model, same_event, texts, CausalEvent, EventModel};
use crate::replay::engine::{is_replay_of, timeline, Replayed};
use crate::replay::index::{last_named, not_named, RecordedIndex};
use crate::replay::stage::{
    handled_at, ids_left, kept, lemma_played_so_far, message_at, numbers, open_numbers, past_of,
    place, played, recorded_number, stage_after, started, Handling, Stage, Step,
};
use vstd::hash_map::StringHashMap;
use vstd::prelude::*;

verus! {

/// A single mismatch between a re-execution and the recording.
#[derive(Debug, PartialEq)]
pub struct Divergence {
    pub event_id: String,
    pub detail: String,
}

impl Clone for Divergence {
    fn clone(&self) -> (r: Self)
        ensures
            r@ == self@,
    {
        Divergence { event_id: self.event_id.clone(), detail: self.detail.clone() }
    }
}

impl View for Divergence {
    type V = (Seq<char>, Seq<char>);

    open spec fn view(&self) -> (Seq<char>, Seq<char>) {
        (self.event_id@, self.detail@)
    }
}

/// What the re-execution did at one event of the timeline.
#[derive(Debug)]
pub enum Turn {
    /// The actor received its message and handled it: the re-executed receipt, as a position
    /// among the re-executed events, and the numbers of the messages that the handler sent.
    Received(usize, Vec<u64>),
    /// There was no message to receive.
    Undelivered,
    /// A send of an actor outside the topology, made with the next origin message.
    Supplied,
    /// Such a send without an origin message for it.
    Unsupplied,
    /// An event that handlers bring about, or that nothing brings about.
    Followed,
}

/// The outcome of a re-execution.
#[derive(Debug)]
pub struct ReplayOutcome {
    /// The replay of the recording itself.
    pub replayed: Replayed,
    /// The mismatches.
    pub divergences: Vec<Divergence>,
    /// The re-executed events, in the order in which they took place.
    pub executed: Vec<CausalEvent>,
    /// The actors that sent more messages than they are recorded to have sent, once for each
    /// message in excess.
    pub extra_sends: Vec<String>,
    /// The numbers of the messages that the actors sent as they started.
    pub opening: Vec<u64>,
    /// What was done at each event of the timeline.
    pub turns: Vec<Turn>,
}

/// `turn` tells of `step`, taken at the stage `st`: for a receipt, where it stands among the
/// re-executed events, and the numbers of the messages that its handler sent.
pub open spec fn tells<P>(
    log: Seq<EventModel>,
    actors: Seq<Seq<char>>,
    st: Stage<P>,
    e: EventModel,
    turn: Turn,
    step: Step<P>,
) -> bool {
    match (turn, step) {
        (Turn::Received(q, sends), Step::Received(h)) => {
            &&& q == st.executed.len()
            &&& sends@ == numbers(kept(h, open_numbers(log, actors, st, place(actors, e.actor))))
        },
        (Turn::Undelivered, Step::Undelivered) => true,
        (Turn::Supplied, Step::Supplied(_)) => true,
        (Turn::Unsupplied, Step::Unsupplied) => true,
        (Turn::Followed, Step::Followed) => true,
        _ => false,
    }
}

/// The turns tell of the steps, one by one.
pub open spec fn turns_tell<P>(
    log: Seq<EventModel>,
    t: Seq<EventModel>,
    actors: Seq<Seq<char>>,
    opened: Seq<Handling<P>>,
    turns: Seq<Turn>,
    steps: Seq<Step<P>>,
) -> bool {
    &&& turns.len() == steps.len()
    &&& forall|i: int|
        0 <= i < steps.len() ==> tells(
            log,
            actors,
            stage_after(log, t, actors, opened, steps.take(i)),
            t[i],
            #[trigger] turns[i],
            steps[i],
        )
}

/// A re-executed event has a name that the recording lacks.
pub open spec fn unrecorded() -> Seq<char> {
    "re-executed event is not in the recording"@
}

/// A re-executed event is recorded under its name, but otherwise.
pub open spec fn different() -> Seq<char> {
    "re-executed event differs from the recording"@
}

/// An actor sent a message beyond the recorded ones.
pub open spec fn too_many_sends() -> Seq<char> {
    "more sends than recorded"@
}

/// A recorded event did not come about.
pub open spec fn not_executed() -> Seq<char> {
    "recorded event was not re-executed"@
}

/// The event is in the recording as it is.
pub open spec fn confirmed(log: Seq<EventModel>, e: EventModel) -> bool {
    exists|i: int| #[trigger] last_named(log, e.id, i) && same_event(e, log[i])
}

/// What is wrong with the first `n` re-executed events.
pub open spec fn event_faults(log: Seq<EventModel>, executed: Seq<EventModel>, n: int) -> Seq<
    (Seq<char>, Seq<char>),
>
    decreases n,
{
    if n <= 0 {
        seq![]
    } else {
        let e = executed[n - 1];
        let before = event_faults(log, executed, n - 1);
        if not_named(log, e.id) {
            before.push((e.id, unrecorded()))
        } else if confirmed(log, e) {
            before
        } else {
            before.push((e.id, different()))
        }
    }
}

/// Some re-executed event has the name `id`.
pub open spec fn executed_as(executed: Seq<EventModel>, id: Seq<char>) -> bool {
    exists|q: int| 0 <= q < executed.len() && (#[trigger] executed[q]).id == id
}

/// Which of the first `n` recorded events were neither re-executed nor supplied.
pub open spec fn omissions(
    t: Seq<EventModel>,
    turns: Seq<Turn>,
    executed: Seq<EventModel>,
    n: int,
) -> Seq<(Seq<char>, Seq<char>)>
    decreases n,
{
    if n <= 0 {
        seq![]
    } else {
        let before = omissions(t, turns, executed, n - 1);
        if executed_as(executed, t[n - 1].id) || turns[n - 1] is Supplied {
            before
        } else {
            before.push((t[n - 1].id, not_executed()))
        }
    }
}

/// One entry for each message in excess.
pub open spec fn excesses(extra_sends: Seq<Seq<char>>) -> Seq<(Seq<char>, Seq<char>)> {
    Seq::new(extra_sends.len(), |i: int| (extra_sends[i], too_many_sends()))
}

/// All mismatches of a re-execution.
pub open spec fn verdict(
    log: Seq<EventModel>,
    executed: Seq<EventModel>,
    extra_sends: Seq<Seq<char>>,
    turns: Seq<Turn>,
) -> Seq<(Seq<char>, Seq<char>)> {
    event_faults(log, executed, executed.len() as int) + excesses(extra_sends) + omissions(
        timeline(log),
        turns,
        executed,
        timeline(log).len() as int,
    )
}

/// What a list of divergences says.
pub open spec fn fault_texts(v: Seq<Divergence>) -> Seq<(Seq<char>, Seq<char>)> {
    Seq::new(v.len(), |i: int| v[i]@)
}

/// `o` reports a re-execution of `log` by the `actors`, with the origin messages `stimuli`, in
/// which the actors did `opened` as they started, and `steps` at the events of the timeline.
pub open spec fn is_outcome<P>(
    o: ReplayOutcome,
    log: Seq<EventModel>,
    actors: Seq<Seq<char>>,
    stimuli: Seq<(Seq<char>, P)>,
    opened: Seq<Handling<P>>,
    steps: Seq<Step<P>>,
) -> bool {
    let t = timeline(log);
    let st = stage_after(log, t, actors, opened, steps);
    &&& is_replay_of(o.replayed, log)
    &&& steps.len() == t.len()
    &&& played(log, t, actors, stimuli, opened, steps)
    &&& turns_tell(log, t, actors, opened, o.turns@, steps)
    &&& o.opening@ == numbers(started(log, actors, opened).mail)
    &&& log_model(o.executed@) == st.executed
    &&& texts(o.extra_sends@) == st.extra
    &&& fault_texts(o.divergences@) == verdict(log, st.executed, st.extra, o.turns@)
}

/// The re-execution and the recording agree: every re-executed event is recorded as it is,
/// nobody sent more than recorded, and every recorded event was re-executed or supplied.
pub open spec fn faithful(o: ReplayOutcome, log: Seq<EventModel>) -> bool {
    &&& forall|q: int|
        0 <= q < o.executed@.len() ==> confirmed(log, (#[trigger] o.executed@[q])@)
    &&& o.extra_sends@.len() == 0
    &&& forall|i: int|
        0 <= i < timeline(log).len() ==> executed_as(
            log_model(o.executed@),
            (#[trigger] timeline(log)[i]).id,
        ) || o.turns@[i] is Supplied
}

impl ReplayOutcome {
    /// Whether there are no mismatches.
    pub fn is_faithful(&self) -> (r: bool)
        ensures
            r == (self.divergences@.len() == 0),
    {
        self.divergences.len() == 0
    }
}

proof fn lemma_event_faults(log: Seq<EventModel>, executed: Seq<EventModel>, n: int)
    requires
        0 <= n <= executed.len(),
    ensures
        event_faults(log, executed, n).len() == 0 <==> forall|q: int|
            0 <= q < n ==> confirmed(log, #[trigger] executed[q]),
    decreases n,
{
    if n > 0 {
        lemma_event_faults(log, executed, n - 1);
        let e = executed[n - 1];
        if not_named(log, e.id) && confirmed(log, e) {
            let i = choose|i: int| #[trigger] last_named(log, e.id, i) && same_event(e, log[i]);
            assert(log[i].id == e.id);
        }
    }
}

proof fn lemma_omissions(
    t: Seq<EventModel>,
    turns: Seq<Turn>,
    executed: Seq<EventModel>,
    n: int,
)
    requires
        0 <= n <= t.len(),
    ensures
        omissions(t, turns, executed, n).len() == 0 <==> forall|i: int|
            0 <= i < n ==> executed_as(executed, (#[trigger] t[i]).id) || turns[i] is Supplied,
    decreases n,
{
    if n > 0 {
        lemma_omissions(t, turns, executed, n - 1);
    }
}

/// A report is without mismatches if and only if the re-execution and the recording agree.
pub proof fn faithful_iff_no_divergences<P>(
    o: ReplayOutcome,
    log: Seq<EventModel>,
    actors: Seq<Seq<char>>,
    stimuli: Seq<(Seq<char>, P)>,
    opened: Seq<Handling<P>>,
    steps: Seq<Step<P>>,
)
    requires
        is_outcome(o, log, actors, stimuli, opened, steps),
    ensures
        o.divergences@.len() == 0 <==> faithful(o, log),
{
    let executed = log_model(o.executed@);
    let t = timeline(log);
    lemma_event_faults(log, executed, executed.len() as int);
    lemma_omissions(t, o.turns@, executed, t.len() as int);
    let v = verdict(log, executed, texts(o.extra_sends@), o.turns@);
    assert(fault_texts(o.divergences@).len() == o.divergences@.len());
    assert(v.len() == event_faults(log, executed, executed.len() as int).len()
        + o.extra_sends@.len() + omissions(t, o.turns@, executed, t.len() as int).len());
    assert forall|q: int| 0 <= q < executed.len() implies #[trigger] executed[q]
        == o.executed@[q]@ by {}
    if faithful(o, log) {
        assert forall|q: int| 0 <= q < executed.len() implies confirmed(
            log,
            #[trigger] executed[q],
        ) by {
            assert(confirmed(log, o.executed@[q]@));
        }
    }
    if o.divergences@.len() == 0 {
        assert forall|q: int| 0 <= q < o.executed@.len() implies confirmed(
            log,
            (#[trigger] o.executed@[q])@,
        ) by {
            assert(confirmed(log, executed[q]));
        }
    }
}

/// Whenever, at one event, the handlers of two re-executions had the same past, and got the same
/// message in the same context, they did the same.
pub open spec fn handlers_agree<P>(
    log: Seq<EventModel>,
    t: Seq<EventModel>,
    actors: Seq<Seq<char>>,
    opened: Seq<Handling<P>>,
    a: Seq<Step<P>>,
    b: Seq<Step<P>>,
) -> bool {
    forall|i: int, h: Handling<P>, g: Handling<P>|
        {
            &&& #[trigger] handled_at(a, i, h)
            &&& #[trigger] handled_at(b, i, g)
            &&& past_of(log, t, actors, opened, a, t[i].actor, i) == past_of(
                log,
                t,
                actors,
                opened,
                b,
                t[i].actor,
                i,
            )
            &&& message_at(log, t, actors, opened, a, i) == message_at(
                log,
                t,
                actors,
                opened,
                b,
                i,
            )
            &&& ids_left(log, t, actors, opened, a, i) == ids_left(log, t, actors, opened, b, i)
            &&& h.before == g.before
        } ==> h == g
}

proof fn lemma_same_past<P>(
    log: Seq<EventModel>,
    t: Seq<EventModel>,
    actors: Seq<Seq<char>>,
    opened: Seq<Handling<P>>,
    a: Seq<Step<P>>,
    b: Seq<Step<P>>,
    actor: Seq<char>,
    n: int,
)
    requires
        0 <= n <= a.len(),
        n <= b.len(),
        a.take(n) == b.take(n),
    ensures
        past_of(log, t, actors, opened, a, actor, n) == past_of(
            log,
            t,
            actors,
            opened,
            b,
            actor,
            n,
        ),
    decreases n,
{
    if n > 0 {
        assert(a.take(n - 1) =~= a.take(n).take(n - 1));
        assert(b.take(n - 1) =~= b.take(n).take(n - 1));
        assert(a[n - 1] == a.take(n)[n - 1]);
        assert(b[n - 1] == b.take(n)[n - 1]);
        lemma_same_past(log, t, actors, opened, a, b, actor, n - 1);
    }
}

proof fn lemma_same_course<P>(
    log: Seq<EventModel>,
    t: Seq<EventModel>,
    actors: Seq<Seq<char>>,
    stimuli: Seq<(Seq<char>, P)>,
    opened: Seq<Handling<P>>,
    a: Seq<Step<P>>,
    b: Seq<Step<P>>,
    n: int,
)
    requires
        0 <= n <= a.len(),
        a.len() == b.len(),
        played(log, t, actors, stimuli, opened, a),
        played(log, t, actors, stimuli, opened, b),
        handlers_agree(log, t, actors, opened, a, b),
    ensures
        a.take(n) == b.take(n),
    decreases n,
{
    if n > 0 {
        let i = n - 1;
        lemma_same_course(log, t, actors, stimuli, opened, a, b, i);
        lemma_played_so_far(log, t, actors, stimuli, opened, a, i);
        lemma_played_so_far(log, t, actors, stimuli, opened, b, i);
        lemma_same_past(log, t, actors, opened, a, b, t[i].actor, i);
        if let (Step::Received(h), Step::Received(g)) = (a[i], b[i]) {
            assert(handled_at(a, i, h) && handled_at(b, i, g));
        }
        assert(a[i] == b[i]);
        assert(a.take(n) =~= a.take(i).push(a[i]));
        assert(b.take(n) =~= b.take(i).push(b[i]));
    } else {
        assert(a.take(n) =~= b.take(n));
    }
}

/// Re-execution is deterministic as far as its handlers are: when the actors do the same as they
/// start, and handlers with the same past do the same with the same message in the same context,
/// then two re-executions of one log with the same origin messages agree in everything that they
/// do and say.
pub proof fn reexecution_is_deterministic<P>(
    a: ReplayOutcome,
    b: ReplayOutcome,
    log: Seq<EventModel>,
    actors: Seq<Seq<char>>,
    stimuli: Seq<(Seq<char>, P)>,
    opened: Seq<Handling<P>>,
    x: Seq<Step<P>>,
    y: Seq<Step<P>>,
)
    requires
        is_outcome(a, log, actors, stimuli, opened, x),
        is_outcome(b, log, actors, stimuli, opened, y),
        handlers_agree(log, timeline(log), actors, opened, x, y),
    ensures
        x == y,
        log_model(a.replayed.timeline@) == log_model(b.replayed.timeline@),
        log_model(a.executed@) == log_model(b.executed@),
        texts(a.extra_sends@) == texts(b.extra_sends@),
        fault_texts(a.divergences@) == fault_texts(b.divergences@),
{
    let t = timeline(log);
    let n = t.len() as int;
    lemma_same_course(log, t, actors, stimuli, opened, x, y, n);
    assert(x.take(n) =~= x);
    assert(y.take(n) =~= y);
    let executed = log_model(a.executed@);
    lemma_same_omissions(log, t, actors, opened, x, a, b, executed, n);
}

proof fn lemma_same_omissions<P>(
    log: Seq<EventModel>,
    t: Seq<EventModel>,
    actors: Seq<Seq<char>>,
    opened: Seq<Handling<P>>,
    steps: Seq<Step<P>>,
    a: ReplayOutcome,
    b: ReplayOutcome,
    executed: Seq<EventModel>,
    n: int,
)
    requires
        turns_tell(log, t, actors, opened, a.turns@, steps),
        turns_tell(log, t, actors, opened, b.turns@, steps),
        0 <= n <= steps.len(),
    ensures
        omissions(t, a.turns@, executed, n) == omissions(t, b.turns@, executed, n),
    decreases n,
{
    if n > 0 {
        lemma_same_omissions(log, t, actors, opened, steps, a, b, executed, n - 1);
        let st = stage_after(log, t, actors, opened, steps.take(n - 1));
        assert(tells(log, actors, st, t[n - 1], a.turns@[n - 1], steps[n - 1]));
        assert(tells(log, actors, st, t[n - 1], b.turns@[n - 1], steps[n - 1]));
    }
}

fn push_fault(out: &mut Vec<Divergence>, id: &str, detail: &str)
    ensures
        fault_texts(final(out)@) == fault_texts(old(out)@).push((id@, detail@)),
{
    out.push(Divergence { event_id: id.to_string(), detail: detail.to_string() });
    assert(fault_texts(out@) =~= fault_texts(old(out)@).push((id@, detail@)));
}

fn push_event_faults(out: &mut Vec<Divergence>, index: &RecordedIndex, executed: &Vec<CausalEvent>)
    ensures
        fault_texts(final(out)@) == fault_texts(old(out)@) + event_faults(
            index.log(),
            log_model(executed@),
            executed@.len() as int,
        ),
{
    let ghost log = index.log();
    let ghost model = log_model(executed@);
    let ghost before = fault_texts(out@);
    let mut n: usize = 0;
    assert(before =~= before + event_faults(log, model, 0));
    while n < executed.len()
        invariant
            log == index.log(),
            model == log_model(executed@),
            n <= executed@.len(),
            fault_texts(out@) == before + event_faults(log, model, n as int),
        decreases executed@.len() - n,
    {
        let e = &executed[n];
        let ghost faults = event_faults(log, model, n as int);
        assert(model[n as int] == e@);
        match index.event(&e.id) {
            None => {
                push_fault(out, &e.id, "re-executed event is not in the recording");
                assert(fault_texts(out@) =~= before + faults.push((e@.id, unrecorded())));
            },
            Some(rec) => {
                let ghost i = choose|i: int| #[trigger]
                    last_named(log, e.id@, i) && rec@ == log[i];
                assert(log[i].id == e@.id);
                assert(!not_named(log, e@.id));
                assert(forall|j: int| last_named(log, e@.id, j) ==> j == i);
                if *e == *rec {
                    assert(confirmed(log, e@));
                } else {
                    assert(!confirmed(log, e@));
                    push_fault(out, &e.id, "re-executed event differs from the recording");
                    assert(fault_texts(out@) =~= before + faults.push((e@.id, different())));
                }
            },
        }
        n = n + 1;
    }
}

fn push_excesses(out: &mut Vec<Divergence>, extra_sends: &Vec<String>)
    ensures
        fault_texts(final(out)@) == fault_texts(old(out)@) + excesses(texts(extra_sends@)),
{
    let ghost all = excesses(texts(extra_sends@));
    let ghost before = fault_texts(out@);
    let mut n: usize = 0;
    assert(before =~= before + all.take(0));
    while n < extra_sends.len()
        invariant
            all == excesses(texts(extra_sends@)),
            n <= extra_sends@.len(),
            fault_texts(out@) == before + all.take(n as int),
        decreases extra_sends@.len() - n,
    {
        push_fault(out, &extra_sends[n], "more sends than recorded");
        assert(fault_texts(out@) =~= before + all.take(n + 1));
        n = n + 1;
    }
    assert(all.take(n as int) =~= all);
}

fn executed_names(executed: &Vec<CausalEvent>) -> (r: StringHashMap<bool>)
    ensures
        forall|id: Seq<char>| #[trigger]
            r@.contains_key(id) <==> executed_as(log_model(executed@), id),
{
    let ghost model = log_model(executed@);
    let mut out: StringHashMap<bool> = StringHashMap::new();
    let mut n: usize = 0;
    while n < executed.len()
        invariant
            model == log_model(executed@),
            n <= executed@.len(),
            forall|id: Seq<char>| #[trigger]
                out@.contains_key(id) <==> exists|q: int|
                    0 <= q < n && (#[trigger] model[q]).id == id,
        decreases executed@.len() - n,
    {
        let ghost before = out@;
        out.insert(executed[n].id.clone(), true);
        proof {
            assert(model[n as int].id == executed@[n as int].id@);
            assert forall|id: Seq<char>| #[trigger] out@.contains_key(id) <==> exists|q: int|
                0 <= q < n + 1 && (#[trigger] model[q]).id == id by {
                if before.contains_key(id) {
                    let q = choose|q: int| 0 <= q < n && (#[trigger] model[q]).id == id;
                    assert(model[q].id == id);
                }
                if exists|q: int| 0 <= q < n + 1 && (#[trigger] model[q]).id == id {
                    let q = choose|q: int| 0 <= q < n + 1 && (#[trigger] model[q]).id == id;
                    if q < n {
                        assert(model[q].id == id);
                        assert(before.contains_key(id));
                    }
                }
            }
        }
        n = n + 1;
    }
    out
}

fn push_omissions(
    out: &mut Vec<Divergence>,
    t: &Vec<CausalEvent>,
    turns: &Vec<Turn>,
    executed: &Vec<CausalEvent>,
)
    requires
        t@.len() == turns@.len(),
    ensures
        fault_texts(final(out)@) == fault_texts(old(out)@) + omissions(
            log_model(t@),
            turns@,
            log_model(executed@),
            t@.len() as int,
        ),
{
    let ghost model = log_model(t@);
    let ghost ran = log_model(executed@);
    let ghost before = fault_texts(out@);
    let names = executed_names(executed);
    let mut n: usize = 0;
    assert(before =~= before + omissions(model, turns@, ran, 0));
    while n < t.len()
        invariant
            t@.len() == turns@.len(),
            model == log_model(t@),
            forall|id: Seq<char>| #[trigger] names@.contains_key(id) <==> executed_as(ran, id),
            n <= t@.len(),
            fault_texts(out@) == before + omissions(model, turns@, ran, n as int),
        decreases t@.len() - n,
    {
        let ghost faults = omissions(model, turns@, ran, n as int);
        let supplied = match &turns[n] {
            Turn::Supplied => true,
            _ => false,
        };
        assert(model[n as int] == t@[n as int]@);
        if !names.contains_key(&t[n].id) && !supplied {
            push_fault(out, &t[n].id, "recorded event was not re-executed");
            assert(fault_texts(out@) =~= before + faults.push(
                (model[n as int].id, not_executed()),
            ));
        }
        n = n + 1;
    }
}

/// All mismatches of a re-execution of an indexed log, whose timeline is `t`.
pub fn find_divergences(
    index: &RecordedIndex,
    t: &Vec<CausalEvent>,
    executed: &Vec<CausalEvent>,
    extra_sends: &Vec<String>,
    turns: &Vec<Turn>,
) -> (r: Vec<Divergence>)
    requires
        log_model(t@) == timeline(index.log()),
        t@.len() == turns@.len(),
    ensures
        fault_texts(r@) == verdict(
            index.log(),
            log_model(executed@),
            texts(extra_sends@),
            turns@,
        ),
{
    let mut out: Vec<Divergence> = Vec::new();
    assert(fault_texts(out@) =~= seq![]);
    push_event_faults(&mut out, index, executed);
    push_excesses(&mut out, extra_sends);
    push_omissions(&mut out, t, turns, executed);
    assert(log_model(t@).len() == t@.len());
    assert(fault_texts(out@) =~= verdict(
        index.log(),
        log_model(executed@),
        texts(extra_sends@),
        turns@,
    ));
    out
}

/// The number of the message that an event is recorded with.
pub fn number_of(e: &CausalEvent) -> (r: Option<u64>)
    ensures
        r == recorded_number(e@),
{
    match &e.msg_id {
        Some(s) => parse_mid(s),
        None => None,
    }
}

} // verus!
