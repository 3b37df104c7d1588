//! An index over a recorded log: events by name, and each actor's sends by counter.

use crate::clock::{ActorId, VectorClock};
use crate::clock_map::ClockMap;
use crate::log::{log_model, CausalEvent, EventModel, Op};
use crate::replay::lines::line_up;
use crate::replay::poset::{all_positions, same_actor, world_lines};
use crate::replay::poset_laws::{lemma_between, lemma_world_lines};
use vstd::hash_map::StringHashMap;
use vstd::prelude::*;

verus! {

/// Event `i` is the last one of the log with the name `id`.
pub open spec fn last_named(log: Seq<EventModel>, id: Seq<char>, i: int) -> bool {
    &&& 0 <= i < log.len()
    &&& log[i].id == id
    &&& forall|j: int| i < j < log.len() ==> (#[trigger] log[j]).id != id
}

/// No event of the log has the name `id`.
pub open spec fn not_named(log: Seq<EventModel>, id: Seq<char>) -> bool {
    forall|j: int| 0 <= j < log.len() ==> (#[trigger] log[j]).id != id
}

/// Event `i` is a send of `actor`.
pub open spec fn is_send_of(log: Seq<EventModel>, actor: Seq<char>, i: usize) -> bool {
    log[i as int].op == Op::Emit && log[i as int].actor == actor
}

/// Those of some events that are sends of `actor`, in the same order.
pub open spec fn sends_among(log: Seq<EventModel>, actor: Seq<char>, w: Seq<usize>) -> Seq<usize>
    decreases w.len(),
{
    if w.len() == 0 {
        seq![]
    } else if is_send_of(log, actor, w.last()) {
        sends_among(log, actor, w.drop_last()).push(w.last())
    } else {
        sends_among(log, actor, w.drop_last())
    }
}

/// The sends of an actor by its counter.
pub open spec fn sends_of(log: Seq<EventModel>, actor: Seq<char>) -> Seq<usize> {
    sends_among(log, actor, world_lines(log))
}

/// The index.
pub struct RecordedIndex<'a> {
    log: &'a [CausalEvent],
    by_id: StringHashMap<usize>,
    emits_by_actor: StringHashMap<Vec<usize>>,
}

impl<'a> RecordedIndex<'a> {
    /// What the indexed log says.
    pub closed spec fn log(&self) -> Seq<EventModel> {
        log_model(self.log@)
    }

    #[verifier::type_invariant]
    spec fn inv(self) -> bool {
        &&& by_id_ok(self.log(), self.by_id@, self.log().len() as int)
        &&& forall|a: Seq<char>| #[trigger]
            self.emits_by_actor@.contains_key(a) ==> self.emits_by_actor@[a]@ == sends_of(
                self.log(),
                a,
            )
        &&& forall|a: Seq<char>|
            !#[trigger] self.emits_by_actor@.contains_key(a) ==> sends_of(self.log(), a).len() == 0
    }

    /// Index a log.
    pub fn build(log: &'a [CausalEvent]) -> (r: Self)
        ensures
            r.log() == log_model(log@),
    {
        let by_id = index_names(log);
        let emits_by_actor = index_emits(log);
        RecordedIndex { log, by_id, emits_by_actor }
    }

    /// The event with the name `id`; of several, the last.
    pub fn event(&self, id: &str) -> (r: Option<&CausalEvent>)
        ensures
            match r {
                Some(e) => exists|i: int| #[trigger]
                    last_named(self.log(), id@, i) && e@ == self.log()[i],
                None => not_named(self.log(), id@),
            },
    {
        proof {
            use_type_invariant(self);
            assert(self.log().take(self.log().len() as int) =~= self.log());
        }
        match self.by_id.get(id) {
            Some(i) => {
                assert(last_named(self.log(), id@, *i as int));
                Some(&self.log[*i])
            },
            None => None,
        }
    }

    /// The sends of an actor by its counter, as positions in the log.
    pub fn emits_of(&self, actor: &str) -> (r: Vec<usize>)
        ensures
            r@ == sends_of(self.log(), actor@),
    {
        proof {
            use_type_invariant(self);
        }
        let mut out: Vec<usize> = Vec::new();
        match self.emits_by_actor.get(actor) {
            Some(v) => {
                let mut i: usize = 0;
                while i < v.len()
                    invariant
                        i <= v@.len(),
                        out@ == v@.take(i as int),
                    decreases v@.len() - i,
                {
                    out.push(v[i]);
                    assert(out@ =~= v@.take(i + 1));
                    i = i + 1;
                }
                assert(v@.take(i as int) =~= v@);
            },
            None => {
                assert(out@ =~= sends_of(self.log(), actor@));
            },
        }
        out
    }
}

spec fn by_id_ok(log: Seq<EventModel>, m: Map<Seq<char>, usize>, n: int) -> bool {
    &&& forall|id: Seq<char>| #[trigger]
        m.contains_key(id) ==> last_named(log.take(n), id, m[id] as int)
    &&& forall|id: Seq<char>| !#[trigger] m.contains_key(id) ==> not_named(log.take(n), id)
}

fn index_names(log: &[CausalEvent]) -> (r: StringHashMap<usize>)
    ensures
        by_id_ok(log_model(log@), r@, log@.len() as int),
{
    let ghost model = log_model(log@);
    let mut out: StringHashMap<usize> = StringHashMap::new();
    let mut i: usize = 0;
    while i < log.len()
        invariant
            model == log_model(log@),
            i <= log@.len(),
            by_id_ok(model, out@, i as int),
        decreases log@.len() - i,
    {
        let ghost before = out@;
        let ghost prior = model.take(i as int);
        let ghost more = model.take(i + 1);
        out.insert(log[i].id.clone(), i);
        proof {
            assert(more =~= prior.push(model[i as int]));
            let id0 = model[i as int].id;
            assert(out@ == before.insert(id0, i));
            assert forall|id: Seq<char>| #[trigger] out@.contains_key(id) implies last_named(
                more,
                id,
                out@[id] as int,
            ) by {
                if id != id0 {
                    assert(before.contains_key(id));
                    let k = before[id] as int;
                    assert(last_named(prior, id, k));
                    assert forall|j: int| k < j < more.len() implies (#[trigger] more[j]).id != id by {
                        if j < i {
                            assert(prior[j].id != id);
                        }
                    }
                }
            }
            assert forall|id: Seq<char>| !#[trigger] out@.contains_key(id) implies not_named(
                more,
                id,
            ) by {
                assert(!before.contains_key(id));
                assert(not_named(prior, id));
                assert forall|j: int| 0 <= j < more.len() implies (#[trigger] more[j]).id != id by {
                    if j < i {
                        assert(prior[j].id != id);
                    }
                }
            }
        }
        i = i + 1;
    }
    out
}

proof fn lemma_sends_among_push(
    log: Seq<EventModel>,
    actor: Seq<char>,
    w: Seq<usize>,
    p: int,
)
    requires
        0 <= p < w.len(),
    ensures
        sends_among(log, actor, w.take(p + 1)) == if is_send_of(log, actor, w[p]) {
            sends_among(log, actor, w.take(p)).push(w[p])
        } else {
            sends_among(log, actor, w.take(p))
        },
{
    assert(w.take(p + 1).drop_last() =~= w.take(p));
    assert(w.take(p + 1).last() == w[p]);
}

proof fn lemma_no_sends(log: Seq<EventModel>, actor: Seq<char>, w: Seq<usize>, from: int, to: int)
    requires
        0 <= from <= to <= w.len(),
        forall|q: int| from <= q < to ==> log[(#[trigger] w[q]) as int].actor != actor,
    ensures
        sends_among(log, actor, w.take(to)) == sends_among(log, actor, w.take(from)),
    decreases to - from,
{
    if from < to {
        lemma_no_sends(log, actor, w, from, to - 1);
        lemma_sends_among_push(log, actor, w, to - 1);
        assert(log[w[to - 1] as int].actor != actor);
    }
}

/// The sends of each actor that has any.
fn index_emits(log: &[CausalEvent]) -> (r: StringHashMap<Vec<usize>>)
    ensures
        forall|a: Seq<char>| #[trigger]
            r@.contains_key(a) ==> r@[a]@ == sends_of(log_model(log@), a),
        forall|a: Seq<char>|
            !#[trigger] r@.contains_key(a) ==> sends_of(log_model(log@), a).len() == 0,
{
    let ghost model = log_model(log@);
    let w = line_up(log, all_positions(log.len()));
    proof {
        lemma_world_lines(model);
    }
    let n = w.len();
    let mut out: StringHashMap<Vec<usize>> = StringHashMap::new();
    let mut p: usize = 0;
    assert(w@.take(0) =~= Seq::<usize>::empty());
    while p < n
        invariant
            model == log_model(log@),
            w@ == world_lines(model),
            n == w@.len(),
            n == log@.len(),
            forall|q: int| 0 <= q < n ==> (#[trigger] w@[q]) < log@.len(),
            p <= n,
            // No actor has events on both sides of `p`.
            forall|q: int, s: int|
                0 <= q < p && p <= s < n ==> model[(#[trigger] w@[q]) as int].actor != model[(
                #[trigger] w@[s]) as int].actor,
            forall|a: Seq<char>| #[trigger]
                out@.contains_key(a) ==> out@[a]@ == sends_among(model, a, w@.take(p as int)),
            forall|a: Seq<char>|
                !#[trigger] out@.contains_key(a) ==> sends_among(
                    model,
                    a,
                    w@.take(p as int),
                ).len() == 0,
            forall|a: Seq<char>| #[trigger]
                out@.contains_key(a) ==> exists|q: int|
                    0 <= q < p && model[(#[trigger] w@[q]) as int].actor == a,
        decreases n - p,
    {
        let ghost who = model[w@[p as int] as int].actor;
        let mut group: Vec<usize> = Vec::new();
        let mut q: usize = p;
        proof {
            assert(!out@.contains_key(who)) by {
                if out@.contains_key(who) {
                    let s = choose|s: int| 0 <= s < p && model[(#[trigger] w@[s]) as int].actor == who;
                    assert(model[w@[s] as int].actor != model[w@[p as int] as int].actor);
                }
            }
            assert(group@ =~= sends_among(model, who, w@.take(p as int)));
        }
        while q < n && same_actor(log, w[p], w[q])
            invariant
                model == log_model(log@),
                n == w@.len(),
                p < n,
                p <= q <= n,
                forall|s: int| 0 <= s < n ==> (#[trigger] w@[s]) < log@.len(),
                who == model[w@[p as int] as int].actor,
                forall|s: int| p <= s < q ==> model[(#[trigger] w@[s]) as int].actor == who,
                group@ == sends_among(model, who, w@.take(q as int)),
            decreases n - q,
        {
            proof {
                lemma_sends_among_push(model, who, w@, q as int);
            }
            match log[w[q]].op {
                Op::Emit => {
                    group.push(w[q]);
                },
                _ => {},
            }
            q = q + 1;
        }
        proof {
            assert(q > p);
            assert forall|s: int, t: int| 0 <= s < q && q <= t < n implies model[(
            #[trigger] w@[s]) as int].actor != model[(#[trigger] w@[t]) as int].actor by {
                if model[w@[s] as int].actor == model[w@[t] as int].actor {
                    if s < p {
                    } else {
                        lemma_between(model, s, q as int, t);
                        assert(model[w@[q as int] as int].actor == who);
                    }
                }
            }
            assert forall|a: Seq<char>| a != who implies #[trigger] sends_among(
                model,
                a,
                w@.take(q as int),
            ) == sends_among(model, a, w@.take(p as int)) by {
                lemma_no_sends(model, a, w@, p as int, q as int);
            }
        }
        let ghost before = out@;
        if group.len() > 0 {
            out.insert(log[w[p]].actor.clone(), group);
            proof {
                assert forall|a: Seq<char>| #[trigger] out@.contains_key(a) implies exists|s: int|
                    0 <= s < q && model[(#[trigger] w@[s]) as int].actor == a by {
                    if a == who {
                        assert(model[w@[p as int] as int].actor == a);
                    } else {
                        assert(before.contains_key(a));
                        let s = choose|s: int| 0 <= s < p && model[(#[trigger] w@[s]) as int].actor == a;
                        assert(model[w@[s] as int].actor == a);
                    }
                }
            }
        }
        p = q;
    }
    assert(w@.take(n as int) =~= w@);
    out
}

/// A vector clock with the components of a recorded one.
pub fn vclock_from(map: &ClockMap) -> (r: VectorClock)
    ensures
        r@ == map@,
{
    let mut vc = VectorClock::new();
    let n = map.len();
    let mut i: usize = 0;
    while i < n
        invariant
            n == map.names().len(),
            i <= n,
            forall|k: Seq<char>| #[trigger]
                vc@.contains_key(k) <==> map.names().take(i as int).contains(k),
            forall|k: Seq<char>| #[trigger]
                vc@.contains_key(k) ==> map@.contains_key(k) && vc@[k] == map@[k],
        decreases n - i,
    {
        let ghost before = map.names().take(i as int);
        let ghost more = map.names().take(i + 1);
        let name = map.name_at(i);
        let v: u64 = map.value_at(i);
        vc.set(ActorId::from(name), v);
        proof {
            assert(more =~= before.push(name@));
            assert forall|k: Seq<char>| #[trigger] more.contains(k) <==> before.contains(k) || k
                == name@ by {
                if before.contains(k) {
                    let p = choose|p: int| 0 <= p < before.len() && before[p] == k;
                    assert(more[p] == k);
                }
                if k == name@ {
                    assert(more[i as int] == k);
                }
            }
        }
        i = i + 1;
    }
    proof {
        assert(map.names().take(n as int) =~= map.names());
        assert forall|k: Seq<char>| #[trigger] vc@.contains_key(k) <==> map@.contains_key(k) by {
            map.names_are_keys(k);
        }
        assert(vc@ =~= map@);
    }
    vc
}

} // verus!
