use lichtung::clock::{ActorId, Lamport, VectorClock};
use lichtung::clock_map::ClockMap;
use std::cmp::Ordering;

#[test]
fn increment_and_get() {
    let a = ActorId::from("a");
    let mut vc = VectorClock::new();
    assert_eq!(vc.get(&a), 0);
    vc.increment(&a);
    vc.increment(&a);
    assert_eq!(vc.get(&a), 2);
    assert_eq!(vc.get(&ActorId::from("b")), 0);
}

fn vc(m: &[(&str, u64)]) -> VectorClock {
    let mut vc = VectorClock::new();
    for (k, v) in m {
        vc.set(ActorId::from(*k), *v);
    }
    vc
}

/// Clocks over two actors, each component missing or small.
fn samples() -> Vec<VectorClock> {
    let mut out = Vec::new();
    for a in 0..4u64 {
        for b in 0..4u64 {
            let mut c = VectorClock::new();
            if a > 0 {
                c.set(ActorId::from("a"), a - 1);
            }
            if b > 0 {
                c.set(ActorId::from("b"), b - 1);
            }
            out.push(c);
        }
    }
    out
}

#[test]
fn exactly_one_relation_holds() {
    for a in samples() {
        for b in samples() {
            let lt = a.happens_before(&b);
            let gt = b.happens_before(&a);
            let eq = a == b;
            let conc = a.concurrent(&b);
            let count = [lt, gt, eq, conc].iter().filter(|x| **x).count();
            assert_eq!(count, 1, "{a:?} and {b:?}");
        }
    }
}

#[test]
fn irreflexive() {
    for a in samples() {
        assert!(!a.happens_before(&a));
    }
}

#[test]
fn merge_dominates() {
    for a in samples() {
        for b in samples() {
            let mut m = a.clone();
            m.merge(&b);
            assert!(matches!(a.partial_cmp(&m), Some(Ordering::Less | Ordering::Equal)));
            assert!(matches!(b.partial_cmp(&m), Some(Ordering::Less | Ordering::Equal)));
            for c in samples() {
                if !matches!(a.partial_cmp(&c), None | Some(Ordering::Greater))
                    && !matches!(b.partial_cmp(&c), None | Some(Ordering::Greater))
                {
                    assert!(!c.happens_before(&m), "the merge is the least such clock");
                }
            }
        }
    }
}

#[test]
fn happens_before_is_transitive() {
    for a in samples() {
        for b in samples() {
            for c in samples() {
                if a.happens_before(&b) && b.happens_before(&c) {
                    assert!(a.happens_before(&c));
                }
            }
        }
    }
}

#[test]
fn a_zero_component_is_as_good_as_none() {
    assert!(vc(&[("a", 1), ("b", 0)]) == vc(&[("a", 1)]));
    assert_eq!(vc(&[("b", 0)]).partial_cmp(&VectorClock::new()), Some(Ordering::Equal));
    assert_eq!(vc(&[("a", 1)]).partial_cmp(&vc(&[("b", 1)])), None);
    assert_eq!(vc(&[("a", 2)]).partial_cmp(&vc(&[("a", 1)])), Some(Ordering::Greater));
}

#[test]
fn merge_takes_the_larger_components() {
    let mut m = vc(&[("a", 3), ("b", 1)]);
    m.merge(&vc(&[("b", 2), ("c", 4)]));
    let map = m.to_string_map();
    assert_eq!(map.get("a"), Some(&3));
    assert_eq!(map.get("b"), Some(&2));
    assert_eq!(map.get("c"), Some(&4));
    assert_eq!(map.len(), 3);
}

#[test]
fn an_event_moves_its_clock_forward() {
    let before = vc(&[("a", 1), ("b", 5)]);
    let mut after = before.clone();
    after.increment(&ActorId::from("a"));
    assert!(before.happens_before(&after));
    assert_eq!(after.get(&ActorId::from("a")), 2);
    assert_eq!(after.get(&ActorId::from("b")), 5);
}

#[test]
fn lamport_stamps_advance() {
    let mut l = Lamport::default();
    assert_eq!(l.tick(), 1);
    assert_eq!(l.update(Lamport(7)), 8);
    assert_eq!(l.update(Lamport(3)), 9);
    assert_eq!(l, Lamport(9));
}

#[test]
fn names_are_compared_by_their_text() {
    let a = ActorId::from("worker-a");
    assert_eq!(a.clone(), a);
    assert_ne!(a, ActorId::from("worker-b"));
    assert_eq!(a.as_str(), "worker-a");
    assert_eq!(a.to_string(), "worker-a");
}

#[test]
fn a_clock_map_keeps_its_names_in_order() {
    let mut m = ClockMap::new();
    assert_eq!(m.insert("b".to_string(), 1), None);
    assert_eq!(m.insert("a".to_string(), 2), None);
    assert_eq!(m.insert("b".to_string(), 3), Some(1));
    assert_eq!(m.len(), 2);
    assert_eq!((m.name_at(0), m.value_at(0)), ("a", 2));
    assert_eq!((m.name_at(1), m.value_at(1)), ("b", 3));
    assert_eq!(m.component("c"), 0);
}
