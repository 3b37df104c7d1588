//! Handlers that act as recorded give no divergence.

use crate::envelope::{EnvelopeModel, EnvelopeStamp};
use crate::event::recv_model;
use crate::log::{log_model, same_event, texts, EventModel, Op};
use crate::replay::engine::{arranged, replayable, timeline};
use crate::replay::extension::canonical_order;
use crate::replay::index::{is_send_of, last_named, sends_among};
use crate::replay::order_laws::{
    full_order_holds_every_event, order_respects_all_edges, validated_log_has_no_cycle,
};
use crate::replay::outcome::{
    confirmed, executed_as, faithful_iff_no_divergences, is_outcome, tells, ReplayOutcome,
};
use crate::replay::poset::{causal_edges, edge_in_range, world_lines};
use crate::replay::poset_laws::{causal_edges_are, lemma_world_lines};
use crate::replay::stage::{
    after_handling, after_receipt, after_step, deliverable, first_named, handled_at, ids_of, kept,
    lemma_first_named, lemma_first_numbered, lemma_place, no_stamps, open_numbers, origin_matches,
    place, played, receipt_stamps, received_message, recorded_number, recorded_stamp, slot,
    stage_after, stamps_of_mail, started, step_fits, waits, Handling, Stage, Stamps, Standing, Step,
};
use vstd::prelude::*;

verus! {

/// Where its actor stands after an event.
pub open spec fn stamps_at(e: EventModel) -> Stamps {
    Stamps { clock: e.vclock, lamport: e.lamport, seq: e.seq }
}

/// Where an actor stands after the first `n` events of the timeline.
pub open spec fn stands_at(t: Seq<EventModel>, actor: Seq<char>, n: int) -> Stamps
    decreases n,
{
    if n <= 0 {
        no_stamps()
    } else if t[n - 1].actor == actor {
        stamps_at(t[n - 1])
    } else {
        stands_at(t, actor, n - 1)
    }
}

/// How many of the first `n` events are sends of the actor.
pub open spec fn sends_before(t: Seq<EventModel>, actor: Seq<char>, n: int) -> nat
    decreases n,
{
    if n <= 0 {
        0
    } else if t[n - 1].actor == actor && t[n - 1].op == Op::Emit {
        sends_before(t, actor, n - 1) + 1
    } else {
        sends_before(t, actor, n - 1)
    }
}

/// How many of the first `n` events are of outsiders.
pub open spec fn outside_before(t: Seq<EventModel>, actors: Seq<Seq<char>>, n: int) -> nat
    decreases n,
{
    if n <= 0 {
        0
    } else if !actors.contains(t[n - 1].actor) {
        outside_before(t, actors, n - 1) + 1
    } else {
        outside_before(t, actors, n - 1)
    }
}

/// The position of the next receipt of the actor from `i` on, or the end.
pub open spec fn next_receipt(t: Seq<EventModel>, actor: Seq<char>, i: int) -> int
    decreases t.len() - i,
{
    if i >= t.len() {
        t.len() as int
    } else if t[i].actor == actor && t[i].op == Op::Recv {
        i
    } else {
        next_receipt(t, actor, i + 1)
    }
}

/// What the actor is recorded to do from `i` on until its next receipt.
pub open spec fn turn_from(t: Seq<EventModel>, actor: Seq<char>, i: int) -> Seq<EventModel>
    decreases t.len() - i,
{
    if i >= t.len() {
        seq![]
    } else if t[i].actor != actor {
        turn_from(t, actor, i + 1)
    } else if t[i].op == Op::Recv {
        seq![]
    } else {
        seq![t[i]] + turn_from(t, actor, i + 1)
    }
}

/// The messages of the sends among some events, stamped as recorded.
pub open spec fn messages_of(events: Seq<EventModel>) -> Seq<EnvelopeStamp>
    decreases events.len(),
{
    if events.len() == 0 {
        seq![]
    } else if events[0].op == Op::Emit {
        seq![recorded_stamp(events[0])] + messages_of(events.drop_first())
    } else {
        messages_of(events.drop_first())
    }
}

/// Where the actor stands after some events, from `s`.
pub open spec fn stands_after(s: Stamps, events: Seq<EventModel>) -> Stamps {
    if events.len() == 0 {
        s
    } else {
        stamps_at(events.last())
    }
}

/// A handler did what the recording has from `i` on: the same events, the same messages, one
/// number for each, and it left the world-line after the last of them.
pub open spec fn as_recorded<P>(
    t: Seq<EventModel>,
    actor: Seq<char>,
    i: int,
    h: Handling<P>,
) -> bool {
    let events = turn_from(t, actor, i);
    &&& h.events == events
    &&& stamps_of_mail(h.sent) == messages_of(events)
    &&& h.issued == h.sent.len()
    &&& h.after == stands_after(h.before, events)
}

/// Every handler that gets its context at the recorded stamps does what is recorded.
pub open spec fn handlers_act_as_recorded<P>(
    t: Seq<EventModel>,
    actors: Seq<Seq<char>>,
    opened: Seq<Handling<P>>,
    steps: Seq<Step<P>>,
) -> bool {
    &&& forall|a: int|
        0 <= a < opened.len() ==> as_recorded(t, actors[a], 0, #[trigger] opened[a])
    &&& forall|i: int, h: Handling<P>| #[trigger]
        handled_at(steps, i, h) && h.before == stamps_at(t[i]) ==> as_recorded(
            t,
            t[i].actor,
            i + 1,
            h,
        )
}

/// Event `s` sends the message that event `i` receives.
pub open spec fn sent_at(t: Seq<EventModel>, i: int, s: int) -> bool {
    &&& 0 <= s < i
    &&& t[s].op == Op::Emit
    &&& recorded_number(t[s]) is Some
    &&& recorded_number(t[s]) == recorded_number(t[i])
}

/// The receipt at `i` is recorded as the rules stamp it.
pub open spec fn receipt_recorded(t: Seq<EventModel>, i: int) -> bool {
    exists|s: int|
        {
            let stamps = stands_at(t, t[i].actor, i);
            let env = recorded_stamp(t[s]);
            &&& #[trigger] sent_at(t, i, s)
            &&& stamps_at(t[i]) == receipt_stamps(stamps, t[i].actor, env)
            &&& t[i] == recv_model(t[i].actor, t[i].seq, t[i].vclock, t[i].lamport, env)
        }
}

/// The timeline is that of a run of the topology: receipts are stamped by the rules, sends have
/// numbers of their own, no message is received twice, and outsiders do nothing but send, in the
/// order of the origin messages.
pub open spec fn run_of<P>(
    t: Seq<EventModel>,
    actors: Seq<Seq<char>>,
    stimuli: Seq<(Seq<char>, P)>,
) -> bool {
    &&& actors.no_duplicates()
    &&& forall|i: int|
        0 <= i < t.len() && (#[trigger] t[i]).op == Op::Recv && actors.contains(t[i].actor)
            ==> receipt_recorded(t, i)
    &&& forall|i: int|
        0 <= i < t.len() && (#[trigger] t[i]).op == Op::Emit ==> recorded_number(t[i]) is Some
    &&& forall|i: int, j: int|
        0 <= i < j < t.len() && (#[trigger] t[i]).op == (#[trigger] t[j]).op && (t[i].op == Op::Emit
            || t[i].op == Op::Recv) ==> recorded_number(t[i]) != recorded_number(t[j])
    &&& forall|i: int|
        0 <= i < t.len() && !actors.contains((#[trigger] t[i]).actor) ==> t[i].op == Op::Emit
            && origin_matches(t[i], stimuli, outside_before(t, actors, i))
}

/// The recorded message numbers of every actor are those of its sends.
pub open spec fn numbers_complete(
    log: Seq<EventModel>,
    t: Seq<EventModel>,
    actors: Seq<Seq<char>>,
) -> bool {
    forall|a: int|
        0 <= a < actors.len() ==> ids_of(log, #[trigger] actors[a]).len() == sends_before(
            t,
            actors[a],
            t.len() as int,
        )
}

proof fn lemma_next_receipt(t: Seq<EventModel>, actor: Seq<char>, i: int)
    requires
        0 <= i <= t.len(),
    ensures
        i <= next_receipt(t, actor, i) <= t.len(),
    decreases t.len() - i,
{
    if i < t.len() && !(t[i].actor == actor && t[i].op == Op::Recv) {
        lemma_next_receipt(t, actor, i + 1);
    }
}

proof fn lemma_sends_grow(t: Seq<EventModel>, actor: Seq<char>, m: int, n: int)
    requires
        0 <= m <= n,
    ensures
        sends_before(t, actor, m) <= sends_before(t, actor, n),
    decreases n,
{
    if m < n {
        lemma_sends_grow(t, actor, m, n - 1);
    }
}

/// `e` is an event of the actor.
spec fn occurs(t: Seq<EventModel>, actor: Seq<char>, e: EventModel) -> bool {
    t.contains(e) && e.actor == actor
}

/// `env` is the message of a send.
spec fn from_send(t: Seq<EventModel>, env: EnvelopeStamp) -> bool {
    exists|s: int|
        0 <= s < t.len() && (#[trigger] t[s]).op == Op::Emit && env == recorded_stamp(t[s])
}

proof fn lemma_turn(t: Seq<EventModel>, actor: Seq<char>, i: int)
    requires
        0 <= i <= t.len(),
    ensures
        stands_after(stands_at(t, actor, i), turn_from(t, actor, i)) == stands_at(
            t,
            actor,
            next_receipt(t, actor, i),
        ),
        sends_before(t, actor, next_receipt(t, actor, i)) == sends_before(t, actor, i)
            + messages_of(turn_from(t, actor, i)).len(),
        forall|j: int|
            i <= j < next_receipt(t, actor, i) && (#[trigger] t[j]).actor == actor ==> turn_from(
                t,
                actor,
                i,
            ).contains(t[j]),
        forall|q: int|
            0 <= q < turn_from(t, actor, i).len() ==> occurs(
                t,
                actor,
                #[trigger] turn_from(t, actor, i)[q],
            ),
        forall|j: int|
            i <= j < next_receipt(t, actor, i) && (#[trigger] t[j]).actor == actor && t[j].op
                == Op::Emit ==> messages_of(turn_from(t, actor, i)).contains(
                recorded_stamp(t[j]),
            ),
        forall|m: int|
            0 <= m < messages_of(turn_from(t, actor, i)).len() ==> from_send(
                t,
                #[trigger] messages_of(turn_from(t, actor, i))[m],
            ),
    decreases t.len() - i,
{
    if i < t.len() && !(t[i].actor == actor && t[i].op == Op::Recv) {
        lemma_turn(t, actor, i + 1);
        lemma_next_receipt(t, actor, i + 1);
        let rest = turn_from(t, actor, i + 1);
        let all = turn_from(t, actor, i);
        let sent = messages_of(rest);
        let more = messages_of(all);
        if t[i].actor == actor {
            assert(all.drop_first() =~= rest);
            assert(all[0] == t[i]);
            assert forall|j: int|
                i <= j < next_receipt(t, actor, i) && (
                #[trigger] t[j]).actor == actor implies all.contains(t[j]) by {
                if j == i {
                    assert(all[0] == t[j]);
                } else {
                    let q = choose|q: int| 0 <= q < rest.len() && rest[q] == t[j];
                    assert(all[q + 1] == t[j]);
                }
            }
            assert forall|q: int| 0 <= q < all.len() implies occurs(t, actor, #[trigger] all[q]) by {
                if q > 0 {
                    assert(all[q] == rest[q - 1]);
                }
            }
            if t[i].op == Op::Emit {
                assert(more =~= seq![recorded_stamp(t[i])] + sent);
                assert(from_send(t, recorded_stamp(t[i])));
                assert forall|m: int| 0 <= m < more.len() implies from_send(
                    t,
                    #[trigger] more[m],
                ) by {
                    if m > 0 {
                        assert(more[m] == sent[m - 1]);
                    }
                }
                assert forall|j: int|
                    i <= j < next_receipt(t, actor, i) && (#[trigger] t[j]).actor == actor
                        && t[j].op == Op::Emit implies more.contains(recorded_stamp(t[j])) by {
                    if j == i {
                        assert(more[0] == recorded_stamp(t[j]));
                    } else {
                        let m = choose|m: int| 0 <= m < sent.len() && sent[m] == recorded_stamp(
                            t[j],
                        );
                        assert(more[m + 1] == recorded_stamp(t[j]));
                    }
                }
            }
        }
    }
}

/// The send `s` has come about when the actors are through up to `lim`, and outsiders up to `i`.
spec fn send_done(
    t: Seq<EventModel>,
    actors: Seq<Seq<char>>,
    lim: Seq<int>,
    i: int,
    s: int,
) -> bool {
    &&& 0 <= s < t.len()
    &&& t[s].op == Op::Emit
    &&& if actors.contains(t[s].actor) {
        s < lim[place(actors, t[s].actor)]
    } else {
        s < i
    }
}

/// The message of the send `s` is received before `i`.
spec fn taken(t: Seq<EventModel>, actors: Seq<Seq<char>>, i: int, s: int) -> bool {
    exists|r: int|
        {
            &&& 0 <= r < i
            &&& (#[trigger] t[r]).op == Op::Recv
            &&& actors.contains(t[r].actor)
            &&& recorded_number(t[r]) == recorded_number(t[s])
        }
}

/// A message with the stamps `env` waits.
spec fn holds_stamp<P>(mail: Seq<EnvelopeModel<P>>, env: EnvelopeStamp) -> bool {
    exists|m: int| 0 <= m < mail.len() && (#[trigger] mail[m]).stamp == env
}

/// The re-execution has gone as recorded: every actor is through up to its limit in `lim`, and
/// the receipts and the outsiders up to `i`.
spec fn on_course<P>(
    t: Seq<EventModel>,
    actors: Seq<Seq<char>>,
    st: Stage<P>,
    lim: Seq<int>,
    i: int,
) -> bool {
    &&& lim.len() == actors.len()
    &&& st.lines.len() == actors.len()
    &&& forall|a: int| 0 <= a < actors.len() ==> 0 <= #[trigger] lim[a] <= t.len()
    &&& forall|a: int|
        0 <= a < actors.len() ==> (#[trigger] st.lines[a]) == (Standing {
            stamps: stands_at(t, actors[a], lim[a]),
            used: sends_before(t, actors[a], lim[a]),
        })
    &&& forall|j: int|
        0 <= j < t.len() && actors.contains((#[trigger] t[j]).actor) && j < lim[place(
            actors,
            t[j].actor,
        )] ==> st.executed.contains(t[j])
    &&& forall|q: int|
        0 <= q < st.executed.len() ==> t.contains(#[trigger] st.executed[q]) && actors.contains(
            st.executed[q].actor,
        )
    &&& forall|m: int| 0 <= m < st.mail.len() ==> from_send(t, (#[trigger] st.mail[m]).stamp)
    &&& forall|s: int| #[trigger]
        send_done(t, actors, lim, i, s) && !taken(t, actors, i, s) ==> holds_stamp(
            st.mail,
            recorded_stamp(t[s]),
        )
    &&& st.extra.len() == 0
    &&& st.origins == outside_before(t, actors, i)
}

proof fn lemma_place_of(actors: Seq<Seq<char>>, a: int)
    requires
        actors.no_duplicates(),
        0 <= a < actors.len(),
    ensures
        place(actors, actors[a]) == a,
{
    assert(first_named(actors, actors[a], a));
    lemma_place(actors, actors[a], a);
}

/// A handler that acts as recorded keeps the course.
proof fn lemma_handled<P>(
    log: Seq<EventModel>,
    t: Seq<EventModel>,
    actors: Seq<Seq<char>>,
    st: Stage<P>,
    lim: Seq<int>,
    i: int,
    a: int,
    h: Handling<P>,
)
    requires
        actors.no_duplicates(),
        numbers_complete(log, t, actors),
        on_course(t, actors, st, lim, i),
        0 <= a < actors.len(),
        h.before == stands_at(t, actors[a], lim[a]),
        as_recorded(t, actors[a], lim[a], h),
    ensures
        on_course(
            t,
            actors,
            after_handling(log, actors, st, a, h),
            lim.update(a, next_receipt(t, actors[a], lim[a])),
            i,
        ),
{
    let x = actors[a];
    let p = lim[a];
    let nr = next_receipt(t, x, p);
    let lim2 = lim.update(a, nr);
    let st2 = after_handling(log, actors, st, a, h);
    let events = turn_from(t, x, p);
    let open = open_numbers(log, actors, st, a);
    lemma_turn(t, x, p);
    lemma_next_receipt(t, x, p);
    lemma_sends_grow(t, x, nr, t.len() as int);
    lemma_place_of(actors, a);
    assert(st.lines[a].used == sends_before(t, x, p));
    assert(ids_of(log, actors[a]).len() == sends_before(t, x, t.len() as int));
    assert(open >= h.sent.len());
    assert(kept(h, open) =~= h.sent);
    assert(st2.extra =~= st.extra);
    assert forall|j: int|
        0 <= j < t.len() && actors.contains((#[trigger] t[j]).actor) && j < lim2[place(
            actors,
            t[j].actor,
        )] implies st2.executed.contains(t[j]) by {
        lemma_first_named(actors, t[j].actor);
        if t[j].actor == x && j >= p {
            let q = choose|q: int| 0 <= q < events.len() && events[q] == t[j];
            assert(st2.executed[st.executed.len() + q] == t[j]);
        } else {
            assert(st.executed.contains(t[j]));
            let q = choose|q: int| 0 <= q < st.executed.len() && st.executed[q] == t[j];
            assert(st2.executed[q] == t[j]);
        }
    }
    assert forall|q: int| 0 <= q < st2.executed.len() implies t.contains(
        #[trigger] st2.executed[q],
    ) && actors.contains(st2.executed[q].actor) by {
        if q < st.executed.len() {
            assert(st2.executed[q] == st.executed[q]);
        } else {
            assert(st2.executed[q] == events[q - st.executed.len()]);
            assert(occurs(t, x, events[q - st.executed.len()]));
            assert(actors.contains(actors[a]));
        }
    }
    assert forall|m: int| 0 <= m < st2.mail.len() implies from_send(
        t,
        (#[trigger] st2.mail[m]).stamp,
    ) by {
        if m < st.mail.len() {
            assert(st2.mail[m] == st.mail[m]);
        } else {
            assert(st2.mail[m].stamp == messages_of(events)[m - st.mail.len()]);
        }
    }
    assert forall|s: int| #[trigger]
        send_done(t, actors, lim2, i, s) && !taken(t, actors, i, s) implies holds_stamp(
        st2.mail,
        recorded_stamp(t[s]),
    ) by {
        let env = recorded_stamp(t[s]);
        if actors.contains(t[s].actor) {
            lemma_first_named(actors, t[s].actor);
        }
        if t[s].actor == x && s >= p {
            assert(actors.contains(actors[a]));
            let m = choose|m: int|
                0 <= m < h.sent.len() && stamps_of_mail(h.sent)[m] == env;
            assert(st2.mail[st.mail.len() + m].stamp == env);
        } else {
            assert(send_done(t, actors, lim, i, s));
            let m = choose|m: int| 0 <= m < st.mail.len() && (#[trigger] st.mail[m]).stamp == env;
            assert(st2.mail[m].stamp == env);
        }
    }
}

spec fn opening_limits(t: Seq<EventModel>, actors: Seq<Seq<char>>, n: int) -> Seq<int> {
    Seq::new(
        actors.len(),
        |b: int|
            if b < n {
                next_receipt(t, actors[b], 0)
            } else {
                0
            },
    )
}

spec fn limits(t: Seq<EventModel>, actors: Seq<Seq<char>>, i: int) -> Seq<int> {
    Seq::new(actors.len(), |b: int| next_receipt(t, actors[b], i))
}

proof fn lemma_opening<P>(
    log: Seq<EventModel>,
    t: Seq<EventModel>,
    actors: Seq<Seq<char>>,
    opened: Seq<Handling<P>>,
)
    requires
        actors.no_duplicates(),
        numbers_complete(log, t, actors),
        opened.len() <= actors.len(),
        forall|a: int| 0 <= a < opened.len() ==> (#[trigger] opened[a]).before == no_stamps(),
        forall|a: int| 0 <= a < opened.len() ==> as_recorded(t, actors[a], 0, #[trigger] opened[a]),
    ensures
        on_course(
            t,
            actors,
            started(log, actors, opened),
            opening_limits(t, actors, opened.len() as int),
            0,
        ),
    decreases opened.len(),
{
    let n = opened.len() as int;
    let lim = opening_limits(t, actors, n);
    if n == 0 {
        let st = started(log, actors, opened);
        assert forall|j: int|
            0 <= j < t.len() && actors.contains((#[trigger] t[j]).actor) && j < lim[place(
                actors,
                t[j].actor,
            )] implies st.executed.contains(t[j]) by {
            lemma_first_named(actors, t[j].actor);
        }
        assert forall|s: int| #[trigger]
            send_done(t, actors, lim, 0, s) && !taken(t, actors, 0, s) implies holds_stamp(
            st.mail,
            recorded_stamp(t[s]),
        ) by {
            if actors.contains(t[s].actor) {
                lemma_first_named(actors, t[s].actor);
            }
        }
    } else {
        let less = opened.drop_last();
        assert forall|a: int| 0 <= a < less.len() implies (#[trigger] less[a]).before
            == no_stamps() && as_recorded(t, actors[a], 0, less[a]) by {
            assert(less[a] == opened[a]);
        }
        lemma_opening(log, t, actors, less);
        let lim0 = opening_limits(t, actors, n - 1);
        let h = opened[n - 1];
        assert(lim0[n - 1] == 0);
        lemma_handled(log, t, actors, started(log, actors, less), lim0, 0, n - 1, h);
        assert(lim0.update(n - 1, next_receipt(t, actors[n - 1], 0)) =~= lim);
    }
}

/// An event that is no receipt of the topology keeps the course.
proof fn lemma_other_step<P>(
    log: Seq<EventModel>,
    t: Seq<EventModel>,
    actors: Seq<Seq<char>>,
    stimuli: Seq<(Seq<char>, P)>,
    st: Stage<P>,
    i: int,
    step: Step<P>,
)
    requires
        run_of(t, actors, stimuli),
        0 <= i < t.len(),
        on_course(t, actors, st, limits(t, actors, i), i),
        step_fits(actors, stimuli, st, t[i], step),
        !(t[i].op == Op::Recv && actors.contains(t[i].actor)),
    ensures
        on_course(
            t,
            actors,
            after_step(log, actors, st, t[i], step),
            limits(t, actors, i + 1),
            i + 1,
        ),
        !actors.contains(t[i].actor) ==> step is Supplied,
{
    let e = t[i];
    let lim = limits(t, actors, i);
    let lim2 = limits(t, actors, i + 1);
    let st2 = after_step(log, actors, st, e, step);
    assert(lim2 =~= lim) by {
        assert forall|b: int| 0 <= b < actors.len() implies lim2[b] == lim[b] by {
            if e.actor == actors[b] {
                assert(actors.contains(actors[b]));
            }
        }
    }
    assert forall|s: int| #[trigger]
        send_done(t, actors, lim2, i + 1, s) && !taken(
            t,
            actors,
            i + 1,
            s,
        ) implies holds_stamp(st2.mail, recorded_stamp(t[s])) by {
        let env = recorded_stamp(t[s]);
        if taken(t, actors, i, s) {
            let r = choose|r: int|
                {
                    &&& 0 <= r < i
                    &&& (#[trigger] t[r]).op == Op::Recv
                    &&& actors.contains(t[r].actor)
                    &&& recorded_number(t[r]) == recorded_number(t[s])
                };
            assert(t[r].op == Op::Recv);
        }
        if s == i && !actors.contains(e.actor) {
            assert(st2.mail[st.mail.len() as int].stamp == env);
        } else {
            assert(send_done(t, actors, lim, i, s));
            let m = choose|m: int| 0 <= m < st.mail.len() && (#[trigger] st.mail[m]).stamp == env;
            assert(st2.mail[m].stamp == env);
        }
    }
    assert forall|m: int| 0 <= m < st2.mail.len() implies from_send(
        t,
        (#[trigger] st2.mail[m]).stamp,
    ) by {
        if m < st.mail.len() {
            assert(st2.mail[m] == st.mail[m]);
        } else {
            assert(t[i].op == Op::Emit);
        }
    }
}

/// A receipt of the topology finds its message, is stamped as recorded, and keeps the course.
proof fn lemma_receipt_step<P>(
    log: Seq<EventModel>,
    t: Seq<EventModel>,
    actors: Seq<Seq<char>>,
    stimuli: Seq<(Seq<char>, P)>,
    st: Stage<P>,
    i: int,
    step: Step<P>,
)
    requires
        run_of(t, actors, stimuli),
        numbers_complete(log, t, actors),
        0 <= i < t.len(),
        on_course(t, actors, st, limits(t, actors, i), i),
        step_fits(actors, stimuli, st, t[i], step),
        t[i].op == Op::Recv,
        actors.contains(t[i].actor),
        forall|h: Handling<P>|
            #![trigger as_recorded(t, t[i].actor, i + 1, h)]
            step == Step::Received(h) && h.before == stamps_at(t[i]) ==> as_recorded(
                t,
                t[i].actor,
                i + 1,
                h,
            ),
    ensures
        on_course(
            t,
            actors,
            after_step(log, actors, st, t[i], step),
            limits(t, actors, i + 1),
            i + 1,
        ),
{
    let e = t[i];
    let x = e.actor;
    let a = place(actors, x);
    let lim = limits(t, actors, i);
    lemma_first_named(actors, x);
    lemma_next_receipt(t, x, i);
    assert(lim[a] == i);
    assert(receipt_recorded(t, i));
    let s0 = choose|s: int|
        {
            let stamps = stands_at(t, t[i].actor, i);
            let env = recorded_stamp(t[s]);
            &&& #[trigger] sent_at(t, i, s)
            &&& stamps_at(t[i]) == receipt_stamps(stamps, t[i].actor, env)
            &&& t[i] == recv_model(t[i].actor, t[i].seq, t[i].vclock, t[i].lamport, env)
        };
    let k = recorded_number(e)->0;
    let env0 = recorded_stamp(t[s0]);
    // The message waits.
    assert(send_done(t, actors, lim, i, s0)) by {
        if actors.contains(t[s0].actor) {
            lemma_first_named(actors, t[s0].actor);
            lemma_next_receipt(t, t[s0].actor, i);
        }
    }
    assert(!taken(t, actors, i, s0)) by {
        if taken(t, actors, i, s0) {
            let r = choose|r: int|
                {
                    &&& 0 <= r < i
                    &&& (#[trigger] t[r]).op == Op::Recv
                    &&& actors.contains(t[r].actor)
                    &&& recorded_number(t[r]) == recorded_number(t[s0])
                };
            assert(t[r].op == t[i].op);
        }
    }
    let m0 = choose|m: int| 0 <= m < st.mail.len() && (#[trigger] st.mail[m]).stamp == env0;
    assert(st.mail[m0].stamp.msg_id == k);
    assert(waits(st.mail, k));
    lemma_first_numbered(st.mail, k);
    let j0 = slot(st.mail, k);
    // It is the one that was sent.
    assert(st.mail[j0].stamp == env0) by {
        assert(from_send(t, st.mail[j0].stamp));
        let s = choose|s: int|
            0 <= s < t.len() && (#[trigger] t[s]).op == Op::Emit && st.mail[j0].stamp
                == recorded_stamp(t[s]);
        assert(recorded_number(t[s]) is Some);
        assert(recorded_number(t[s]) == recorded_number(t[s0]));
        if s < s0 {
            assert(t[s].op == t[s0].op);
        } else if s0 < s {
            assert(t[s0].op == t[s].op);
        }
    }
    assert(deliverable(st, e));
    assert(received_message(st, e).stamp == env0);
    let h = step->Received_0;
    assert(step == Step::Received(h));
    assert(h.before == stamps_at(e));
    assert(as_recorded(t, x, i + 1, h));
    // The stage at which the handler begins.
    let st1 = after_receipt(actors, st, e, h.before);
    let st2 = Stage {
        lines: st1.lines.update(a, Standing { stamps: h.before, used: st1.lines[a].used }),
        ..st1
    };
    let lim2 = lim.update(a, i + 1);
    assert(st1.executed =~= st.executed.push(e));
    assert(after_handling(log, actors, st1, a, h) == after_handling(log, actors, st2, a, h)) by {
        assert(open_numbers(log, actors, st1, a) == open_numbers(log, actors, st2, a));
        assert(after_handling(log, actors, st1, a, h).lines =~= after_handling(
            log,
            actors,
            st2,
            a,
            h,
        ).lines);
    }
    assert(on_course(t, actors, st2, lim2, i + 1)) by {
        assert forall|j: int|
            0 <= j < t.len() && actors.contains((#[trigger] t[j]).actor) && j < lim2[place(
                actors,
                t[j].actor,
            )] implies st2.executed.contains(t[j]) by {
            lemma_first_named(actors, t[j].actor);
            if j == i {
                assert(st2.executed[st.executed.len() as int] == t[j]);
            } else {
                let q = choose|q: int| 0 <= q < st.executed.len() && st.executed[q] == t[j];
                assert(st2.executed[q] == t[j]);
            }
        }
        assert forall|q: int| 0 <= q < st2.executed.len() implies t.contains(
            #[trigger] st2.executed[q],
        ) && actors.contains(st2.executed[q].actor) by {
            if q < st.executed.len() {
                assert(st2.executed[q] == st.executed[q]);
            } else {
                assert(st2.executed[q] == t[i]);
            }
        }
        assert forall|m: int| 0 <= m < st2.mail.len() implies from_send(
            t,
            (#[trigger] st2.mail[m]).stamp,
        ) by {
            assert(st2.mail[m] == st.mail[if m < j0 {
                m
            } else {
                m + 1
            }]);
        }
        assert forall|s: int| #[trigger]
            send_done(t, actors, lim2, i + 1, s) && !taken(
                t,
                actors,
                i + 1,
                s,
            ) implies holds_stamp(st2.mail, recorded_stamp(t[s])) by {
            let env = recorded_stamp(t[s]);
            if actors.contains(t[s].actor) {
                lemma_first_named(actors, t[s].actor);
            }
            assert(send_done(t, actors, lim, i, s));
            if taken(t, actors, i, s) {
                let r = choose|r: int|
                    {
                        &&& 0 <= r < i
                        &&& (#[trigger] t[r]).op == Op::Recv
                        &&& actors.contains(t[r].actor)
                        &&& recorded_number(t[r]) == recorded_number(t[s])
                    };
                assert(t[r].op == Op::Recv);
            }
            if recorded_number(t[s]) == recorded_number(t[i]) {
                assert(t[i].op == Op::Recv);
            }
            let m = choose|m: int| 0 <= m < st.mail.len() && (#[trigger] st.mail[m]).stamp == env;
            assert(m != j0);
            if m < j0 {
                assert(st2.mail[m].stamp == env);
            } else {
                assert(st2.mail[m - 1].stamp == env);
            }
        }
    }
    lemma_handled(log, t, actors, st2, lim2, i + 1, a, h);
    assert(lim2.update(a, next_receipt(t, x, i + 1)) =~= limits(t, actors, i + 1)) by {
        assert forall|b: int| 0 <= b < actors.len() && b != a implies next_receipt(t, actors[b], i)
            == next_receipt(t, actors[b], i + 1) by {
            assert(actors[b] != x);
        }
    }
}

proof fn lemma_course<P>(
    log: Seq<EventModel>,
    t: Seq<EventModel>,
    actors: Seq<Seq<char>>,
    stimuli: Seq<(Seq<char>, P)>,
    opened: Seq<Handling<P>>,
    steps: Seq<Step<P>>,
)
    requires
        run_of(t, actors, stimuli),
        numbers_complete(log, t, actors),
        played(log, t, actors, stimuli, opened, steps),
        handlers_act_as_recorded(t, actors, opened, steps),
    ensures
        on_course(
            t,
            actors,
            stage_after(log, t, actors, opened, steps),
            limits(t, actors, steps.len() as int),
            steps.len() as int,
        ),
        forall|j: int|
            0 <= j < steps.len() && !actors.contains(t[j].actor) ==> (#[trigger] steps[j])
                is Supplied,
    decreases steps.len(),
{
    if steps.len() == 0 {
        lemma_opening(log, t, actors, opened);
        assert(opening_limits(t, actors, opened.len() as int) =~= limits(t, actors, 0));
    } else {
        let less = steps.drop_last();
        let i = less.len() as int;
        assert forall|j: int, h: Handling<P>| #[trigger]
            handled_at(less, j, h) && h.before == stamps_at(t[j]) implies as_recorded(
            t,
            t[j].actor,
            j + 1,
            h,
        ) by {
            assert(handled_at(steps, j, h));
        }
        lemma_course(log, t, actors, stimuli, opened, less);
        let st = stage_after(log, t, actors, opened, less);
        let step = steps.last();
        if t[i].op == Op::Recv && actors.contains(t[i].actor) {
            assert forall|h: Handling<P>|
                #![trigger as_recorded(t, t[i].actor, i + 1, h)]
                step == Step::Received(h) && h.before == stamps_at(t[i]) implies as_recorded(
                t,
                t[i].actor,
                i + 1,
                h,
            ) by {
                assert(handled_at(steps, i, h));
            }
            lemma_receipt_step(log, t, actors, stimuli, st, i, step);
        } else {
            lemma_other_step(log, t, actors, stimuli, st, i, step);
        }
        assert forall|j: int|
            0 <= j < steps.len() && !actors.contains(t[j].actor) implies (#[trigger] steps[j])
            is Supplied by {
            if j < i {
                assert(less[j] == steps[j]);
            }
        }
    }
}

/// How many of some events are sends of the actor.
spec fn sends_in(log: Seq<EventModel>, actor: Seq<char>, w: Seq<usize>) -> nat
    decreases w.len(),
{
    if w.len() == 0 {
        0
    } else {
        sends_in(log, actor, w.drop_last()) + if is_send_of(log, actor, w.last()) {
            1nat
        } else {
            0nat
        }
    }
}

proof fn lemma_sends_among(log: Seq<EventModel>, actor: Seq<char>, w: Seq<usize>)
    ensures
        sends_among(log, actor, w).len() == sends_in(log, actor, w),
    decreases w.len(),
{
    if w.len() > 0 {
        lemma_sends_among(log, actor, w.drop_last());
    }
}

proof fn lemma_sends_arranged(log: Seq<EventModel>, actor: Seq<char>, w: Seq<usize>, n: int)
    requires
        0 <= n <= w.len(),
    ensures
        sends_before(arranged(log, w), actor, n) == sends_in(log, actor, w.take(n)),
    decreases n,
{
    if n > 0 {
        lemma_sends_arranged(log, actor, w, n - 1);
        assert(w.take(n).drop_last() =~= w.take(n - 1));
        assert(w.take(n).last() == w[n - 1]);
        assert(arranged(log, w)[n - 1] == log[w[n - 1] as int]);
    }
}

proof fn lemma_sends_without(log: Seq<EventModel>, actor: Seq<char>, w: Seq<usize>, p: int)
    requires
        0 <= p < w.len(),
    ensures
        sends_in(log, actor, w) == sends_in(log, actor, w.remove(p)) + if is_send_of(
            log,
            actor,
            w[p],
        ) {
            1nat
        } else {
            0nat
        },
    decreases w.len(),
{
    if p == w.len() - 1 {
        assert(w.remove(p) =~= w.drop_last());
    } else {
        lemma_sends_without(log, actor, w.drop_last(), p);
        assert(w.remove(p).drop_last() =~= w.drop_last().remove(p));
        assert(w.remove(p).last() == w.last());
    }
}

proof fn lemma_same_sends(log: Seq<EventModel>, actor: Seq<char>, v: Seq<usize>, w: Seq<usize>)
    requires
        v.no_duplicates(),
        w.no_duplicates(),
        forall|x: usize| #[trigger] v.contains(x) <==> w.contains(x),
    ensures
        sends_in(log, actor, v) == sends_in(log, actor, w),
    decreases v.len(),
{
    if v.len() == 0 {
        if w.len() > 0 {
            assert(w.contains(w[0]));
            assert(v.contains(w[0]));
        }
    } else {
        let x = v.last();
        assert(v[v.len() - 1] == x);
        assert(v.contains(x));
        let p = choose|p: int| 0 <= p < w.len() && w[p] == x;
        let (v2, w2) = (v.drop_last(), w.remove(p));
        assert forall|y: usize| #[trigger] v2.contains(y) <==> w2.contains(y) by {
            if v2.contains(y) {
                let i = choose|i: int| 0 <= i < v2.len() && v2[i] == y;
                assert(v[i] == y);
                assert(v.contains(y));
                assert(w.contains(y));
                let q = choose|q: int| 0 <= q < w.len() && w[q] == y;
                assert(w2[if q < p {
                    q
                } else {
                    q - 1
                }] == y);
            }
            if w2.contains(y) {
                let i = choose|i: int| 0 <= i < w2.len() && w2[i] == y;
                let q = if i < p {
                    i
                } else {
                    i + 1
                };
                assert(w[q] == y);
                assert(w.contains(y));
                assert(v.contains(y));
                let j = choose|j: int| 0 <= j < v.len() && v[j] == y;
                assert(v2[j] == y);
            }
        }
        assert(w2.no_duplicates()) by {
            assert forall|i: int, j: int| 0 <= i < w2.len() && 0 <= j < w2.len() && i
                != j implies w2[i] != w2[j] by {
                assert(w2[i] == w[if i < p {
                    i
                } else {
                    i + 1
                }]);
                assert(w2[j] == w[if j < p {
                    j
                } else {
                    j + 1
                }]);
            }
        }
        lemma_same_sends(log, actor, v2, w2);
        lemma_sends_without(log, actor, w, p);
    }
}

/// The timeline of a faithful record holds every event of the log once.
proof fn lemma_timeline_is_complete(log: Seq<EventModel>)
    requires
        log.len() <= usize::MAX,
        replayable(log),
    ensures
        canonical_order(log, causal_edges(log)).len() == log.len(),
        canonical_order(log, causal_edges(log)).no_duplicates(),
        forall|p: int|
            0 <= p < log.len() ==> (#[trigger] canonical_order(log, causal_edges(log))[p])
                < log.len(),
        forall|x: usize|
            x < log.len() ==> #[trigger] canonical_order(log, causal_edges(log)).contains(x),
{
    let edges = causal_edges(log);
    assert forall|k: int| 0 <= k < edges.len() implies edge_in_range(
        #[trigger] edges[k],
        log.len(),
    ) by {
        assert(edges.contains(edges[k]));
        causal_edges_are(log, edges[k].0, edges[k].1);
    }
    validated_log_has_no_cycle(log, edges);
    order_respects_all_edges(log, edges);
    assert forall|x: usize| x < log.len() implies #[trigger] canonical_order(log, edges).contains(
        x,
    ) by {
        full_order_holds_every_event(log, edges, x);
    }
}

proof fn lemma_numbers_complete(log: Seq<EventModel>, actors: Seq<Seq<char>>)
    requires
        log.len() <= usize::MAX,
        replayable(log),
    ensures
        numbers_complete(log, timeline(log), actors),
{
    lemma_timeline_is_complete(log);
    lemma_world_lines(log);
    let order = canonical_order(log, causal_edges(log));
    let w = world_lines(log);
    let t = timeline(log);
    assert forall|x: usize| #[trigger] w.contains(x) <==> order.contains(x) by {
        if w.contains(x) {
            let p = choose|p: int| 0 <= p < w.len() && w[p] == x;
            assert(w[p] < log.len());
        }
        if order.contains(x) {
            let p = choose|p: int| 0 <= p < order.len() && order[p] == x;
            assert(order[p] < log.len());
        }
    }
    assert forall|a: int| 0 <= a < actors.len() implies ids_of(log, #[trigger] actors[a]).len()
        == sends_before(t, actors[a], t.len() as int) by {
        lemma_sends_among(log, actors[a], w);
        lemma_sends_arranged(log, actors[a], order, order.len() as int);
        assert(order.take(order.len() as int) =~= order);
        lemma_same_sends(log, actors[a], w, order);
    }
}

/// Every event of the log has a name of its own, and a value, if any, that is a number.
pub open spec fn well_named(log: Seq<EventModel>) -> bool {
    &&& forall|i: int, j: int|
        0 <= i < j < log.len() ==> (#[trigger] log[i]).id != (#[trigger] log[j]).id
    &&& forall|i: int| 0 <= i < log.len() ==> same_event(#[trigger] log[i], log[i])
}

/// Re-executing the recording of a run with handlers that act as recorded gives no divergence.
pub proof fn acting_as_recorded_is_faithful<P>(
    o: ReplayOutcome,
    log: Seq<EventModel>,
    actors: Seq<Seq<char>>,
    stimuli: Seq<(Seq<char>, P)>,
    opened: Seq<Handling<P>>,
    steps: Seq<Step<P>>,
)
    requires
        log.len() <= usize::MAX,
        replayable(log),
        well_named(log),
        run_of(timeline(log), actors, stimuli),
        is_outcome(o, log, actors, stimuli, opened, steps),
        handlers_act_as_recorded(timeline(log), actors, opened, steps),
    ensures
        o.divergences@.len() == 0,
{
    let t = timeline(log);
    let n = t.len() as int;
    let order = canonical_order(log, causal_edges(log));
    lemma_timeline_is_complete(log);
    lemma_numbers_complete(log, actors);
    lemma_course(log, t, actors, stimuli, opened, steps);
    let st = stage_after(log, t, actors, opened, steps);
    let lim = limits(t, actors, n);
    assert forall|q: int| 0 <= q < o.executed@.len() implies confirmed(
        log,
        (#[trigger] o.executed@[q])@,
    ) by {
        assert(log_model(o.executed@)[q] == o.executed@[q]@);
        assert(t.contains(st.executed[q]));
        let p = choose|p: int| 0 <= p < t.len() && t[p] == st.executed[q];
        let x = order[p] as int;
        assert(t[p] == log[x]);
        assert(same_event(log[x], log[x]));
        assert(last_named(log, log[x].id, x));
    }
    assert(o.extra_sends@.len() == 0) by {
        assert(texts(o.extra_sends@).len() == o.extra_sends@.len());
    }
    assert forall|i: int| 0 <= i < t.len() implies executed_as(
        log_model(o.executed@),
        (#[trigger] t[i]).id,
    ) || o.turns@[i] is Supplied by {
        if actors.contains(t[i].actor) {
            lemma_first_named(actors, t[i].actor);
            assert(st.executed.contains(t[i]));
            let q = choose|q: int| 0 <= q < st.executed.len() && st.executed[q] == t[i];
            assert(log_model(o.executed@)[q].id == t[i].id);
        } else {
            assert(steps[i] is Supplied);
            assert(tells(
                log,
                actors,
                stage_after(log, t, actors, opened, steps.take(i)),
                t[i],
                o.turns@[i],
                steps[i],
            ));
        }
    }
    faithful_iff_no_divergences(o, log, actors, stimuli, opened, steps);
}

} // verus!
