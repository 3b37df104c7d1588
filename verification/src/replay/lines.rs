//! The events of a log in the order of the actors' names and, for each actor, of its counter.

use crate::log::{log_model, CausalEvent, EventModel};
use crate::text::{
    text_lt, text_lt_irreflexive, text_lt_total, text_lt_transitive, text_order, Order,
};
use vstd::prelude::*;
use vstd::relations::{sorted_by, total_ordering};
use vstd::seq_lib::lemma_sorted_unique;

verus! {

/// Event `i` stands strictly before event `j`: by actor, then by counter, then by position.
pub open spec fn line_lt(log: Seq<EventModel>, i: int, j: int) -> bool {
    ||| text_lt(log[i].actor, log[j].actor)
    ||| {
        &&& log[i].actor == log[j].actor
        &&& (log[i].seq < log[j].seq || (log[i].seq == log[j].seq && i < j))
    }
}

/// Event `i` does not stand after event `j`.
pub open spec fn line_leq(log: Seq<EventModel>) -> spec_fn(usize, usize) -> bool {
    |i: usize, j: usize| i == j || line_lt(log, i as int, j as int)
}

/// Some events of a log, ordered by actor, counter and position.
pub open spec fn lined_up(log: Seq<EventModel>, idxs: Seq<usize>) -> Seq<usize> {
    idxs.sort_by(line_leq(log))
}

pub proof fn line_lt_transitive(log: Seq<EventModel>, i: int, j: int, k: int)
    requires
        line_lt(log, i, j),
        line_lt(log, j, k),
    ensures
        line_lt(log, i, k),
{
    if text_lt(log[i].actor, log[j].actor) && text_lt(log[j].actor, log[k].actor) {
        text_lt_transitive(log[i].actor, log[j].actor, log[k].actor);
    }
}

pub proof fn line_lt_irreflexive(log: Seq<EventModel>, i: int)
    ensures
        !line_lt(log, i, i),
{
    text_lt_irreflexive(log[i].actor);
}

pub proof fn line_lt_total(log: Seq<EventModel>, i: int, j: int)
    ensures
        i == j || line_lt(log, i, j) || line_lt(log, j, i),
{
    text_lt_total(log[i].actor, log[j].actor);
}

proof fn lemma_line_order_is_total(log: Seq<EventModel>)
    ensures
        total_ordering(line_leq(log)),
{
    let leq = line_leq(log);
    assert forall|x: usize, y: usize| #[trigger] leq(x, y) && #[trigger] leq(y, x) implies x
        == y by {
        if x != y {
            line_lt_transitive(log, x as int, y as int, x as int);
            line_lt_irreflexive(log, x as int);
        }
    }
    assert forall|x: usize, y: usize, z: usize| #[trigger] leq(x, y) && #[trigger] leq(y, z) implies leq(
        x,
        z,
    ) by {
        if x != y && y != z {
            line_lt_transitive(log, x as int, y as int, z as int);
        }
    }
    assert forall|x: usize, y: usize| #[trigger] leq(x, y) || #[trigger] leq(y, x) by {
        text_lt_total(log[x as int].actor, log[y as int].actor);
    }
}

/// Whether event `i` stands strictly before event `j`.
pub fn line_before(events: &[CausalEvent], i: usize, j: usize) -> (r: bool)
    requires
        i < events@.len(),
        j < events@.len(),
    ensures
        r == line_lt(log_model(events@), i as int, j as int),
{
    proof {
        text_lt_irreflexive(events@[i as int].actor@);
        if text_lt(events@[j as int].actor@, events@[i as int].actor@) && text_lt(
            events@[i as int].actor@,
            events@[j as int].actor@,
        ) {
            text_lt_transitive(
                events@[j as int].actor@,
                events@[i as int].actor@,
                events@[j as int].actor@,
            );
            text_lt_irreflexive(events@[j as int].actor@);
        }
    }
    match text_order(events[i].actor.as_str(), events[j].actor.as_str()) {
        Order::Less => true,
        Order::Greater => false,
        Order::Equal => events[i].seq < events[j].seq || (events[i].seq == events[j].seq && i < j),
    }
}

proof fn lemma_take_push(s: Seq<usize>, i: int)
    requires
        0 <= i < s.len(),
    ensures
        s.take(i + 1) == s.take(i).push(s[i]),
        s.take(i + 1).to_multiset() == s.take(i).to_multiset().insert(s[i]),
{
    broadcast use vstd::seq_lib::group_to_multiset_ensures;

    assert(s.take(i + 1) =~= s.take(i).push(s[i]));
}

proof fn lemma_push(s: Seq<usize>, x: usize)
    ensures
        s.push(x).to_multiset() == s.to_multiset().insert(x),
{
    broadcast use vstd::seq_lib::group_to_multiset_ensures;

}

fn merge_lines(events: &[CausalEvent], a: &Vec<usize>, b: &Vec<usize>) -> (r: Vec<usize>)
    requires
        forall|i: int| 0 <= i < a@.len() ==> (#[trigger] a@[i]) < events@.len(),
        forall|i: int| 0 <= i < b@.len() ==> (#[trigger] b@[i]) < events@.len(),
        sorted_by(a@, line_leq(log_model(events@))),
        sorted_by(b@, line_leq(log_model(events@))),
    ensures
        sorted_by(r@, line_leq(log_model(events@))),
        r@.to_multiset() == a@.to_multiset().add(b@.to_multiset()),
{
    broadcast use vstd::seq_lib::group_to_multiset_ensures;
    broadcast use vstd::multiset::group_multiset_axioms;

    let ghost leq = line_leq(log_model(events@));
    let mut out: Vec<usize> = Vec::new();
    let mut i: usize = 0;
    let mut j: usize = 0;
    proof {
        lemma_line_order_is_total(log_model(events@));
        assert(a@.take(0) =~= Seq::<usize>::empty());
        assert(b@.take(0) =~= Seq::<usize>::empty());
        assert(out@.to_multiset() =~= a@.take(0).to_multiset().add(b@.take(0).to_multiset()));
    }
    while i < a.len() || j < b.len()
        invariant
            leq == line_leq(log_model(events@)),
            total_ordering(leq),
            forall|k: int| 0 <= k < a@.len() ==> (#[trigger] a@[k]) < events@.len(),
            forall|k: int| 0 <= k < b@.len() ==> (#[trigger] b@[k]) < events@.len(),
            sorted_by(a@, leq),
            sorted_by(b@, leq),
            i <= a@.len(),
            j <= b@.len(),
            sorted_by(out@, leq),
            forall|p: int, q: int|
                0 <= p < out@.len() && i <= q < a@.len() ==> leq(
                    #[trigger] out@[p],
                    #[trigger] a@[q],
                ),
            forall|p: int, q: int|
                0 <= p < out@.len() && j <= q < b@.len() ==> leq(
                    #[trigger] out@[p],
                    #[trigger] b@[q],
                ),
            out@.to_multiset() == a@.take(i as int).to_multiset().add(
                b@.take(j as int).to_multiset(),
            ),
        decreases a@.len() - i + b@.len() - j,
    {
        let ghost before = out@;
        let from_a = j >= b.len() || (i < a.len() && !line_before(events, b[j], a[i]));
        if from_a {
            proof {
                lemma_take_push(a@, i as int);
                assert forall|q: int| j <= q < b@.len() implies leq(a@[i as int], #[trigger] b@[q]) by {
                    assert(leq(a@[i as int], b@[j as int]) || leq(b@[j as int], a@[i as int]));
                    assert(leq(a@[i as int], b@[j as int]));
                    assert(leq(b@[j as int], b@[q]));
                }
            }
            out.push(a[i]);
            i = i + 1;
        } else {
            proof {
                lemma_take_push(b@, j as int);
                assert forall|q: int| i <= q < a@.len() implies leq(b@[j as int], #[trigger] a@[q]) by {
                    assert(leq(b@[j as int], a@[i as int]));
                    assert(leq(a@[i as int], a@[q]));
                }
            }
            out.push(b[j]);
            j = j + 1;
        }
        proof {
            assert(out@ =~= before.push(out@.last()));
            lemma_push(before, out@.last());
            assert(out@.to_multiset() =~= a@.take(i as int).to_multiset().add(
                b@.take(j as int).to_multiset(),
            ));
        }
    }
    proof {
        assert(a@.take(i as int) =~= a@);
        assert(b@.take(j as int) =~= b@);
    }
    out
}

/// Order some events of a log by actor, counter and position.
pub fn line_up(events: &[CausalEvent], idxs: Vec<usize>) -> (r: Vec<usize>)
    requires
        forall|i: int| 0 <= i < idxs@.len() ==> (#[trigger] idxs@[i]) < events@.len(),
    ensures
        r@ == lined_up(log_model(events@), idxs@),
    decreases idxs@.len(),
{
    broadcast use vstd::seq_lib::group_to_multiset_ensures;
    broadcast use vstd::multiset::group_multiset_axioms;

    let ghost leq = line_leq(log_model(events@));
    proof {
        lemma_line_order_is_total(log_model(events@));
        idxs@.lemma_sort_by_ensures(leq);
    }
    if idxs.len() < 2 {
        proof {
            assert(sorted_by(idxs@, leq));
            lemma_sorted_unique(idxs@, lined_up(log_model(events@), idxs@), leq);
        }
        return idxs;
    }
    let ghost whole = idxs@;
    let mut left = idxs;
    let half: usize = left.len() / 2;
    let right = left.split_off(half);
    proof {
        assert(left@ + right@ =~= whole);
        vstd::seq_lib::lemma_multiset_commutative(left@, right@);
        left@.lemma_sort_by_ensures(leq);
        right@.lemma_sort_by_ensures(leq);
        assert forall|i: int| 0 <= i < right@.len() implies (#[trigger] right@[i]) < events@.len() by {
            assert(right@[i] == whole[half + i]);
        }
    }
    let ghost l0 = left@;
    let ghost r0 = right@;
    let a = line_up(events, left);
    let b = line_up(events, right);
    proof {
        lemma_members_kept(l0, a@, events@.len() as int);
        lemma_members_kept(r0, b@, events@.len() as int);
    }
    let r = merge_lines(events, &a, &b);
    proof {
        assert(r@.to_multiset() =~= whole.to_multiset());
        lemma_sorted_unique(r@, lined_up(log_model(events@), whole), leq);
    }
    r
}

/// Ordering events loses none and adds none, and the result is in order.
pub proof fn lined_up_is_a_permutation(log: Seq<EventModel>, idxs: Seq<usize>)
    ensures
        lined_up(log, idxs).len() == idxs.len(),
        lined_up(log, idxs).to_multiset() == idxs.to_multiset(),
        sorted_by(lined_up(log, idxs), line_leq(log)),
        forall|x: usize| #[trigger] lined_up(log, idxs).contains(x) <==> idxs.contains(x),
{
    broadcast use vstd::seq_lib::group_to_multiset_ensures;

    lemma_line_order_is_total(log);
    idxs.lemma_sort_by_ensures(line_leq(log));
    let w = lined_up(log, idxs);
    assert(w.len() == w.to_multiset().len());
    assert(idxs.len() == idxs.to_multiset().len());
    assert forall|x: usize| #[trigger] w.contains(x) <==> idxs.contains(x) by {
        assert(w.contains(x) <==> w.to_multiset().count(x) > 0);
        assert(idxs.contains(x) <==> idxs.to_multiset().count(x) > 0);
    }
}

proof fn lemma_members_kept(s: Seq<usize>, t: Seq<usize>, n: int)
    requires
        s.to_multiset() == t.to_multiset(),
        forall|i: int| 0 <= i < s.len() ==> (#[trigger] s[i]) < n,
    ensures
        forall|i: int| 0 <= i < t.len() ==> (#[trigger] t[i]) < n,
{
    broadcast use vstd::seq_lib::group_to_multiset_ensures;

    assert forall|i: int| 0 <= i < t.len() implies (#[trigger] t[i]) < n by {
        assert(t.to_multiset().contains(t[i]));
        assert(s.contains(t[i]));
    }
}

} // verus!
