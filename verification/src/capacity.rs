//! First-come expert capacity of a mixture-of-experts layer: each example
//! is routed to one expert, examples are visited in order (optionally
//! starting from an offset and wrapping), and an expert admits examples
//! until it has admitted `capacity` of them; the rest are dropped.
use vstd::prelude::*;

use crate::batch::{lemma_occurrences_append, occurrences};

verus! {

/// The routes in visiting order: from `offset` (modulo their number) to
/// the end, then from the start.
pub open spec fn visit_order(routes: Seq<usize>, offset: nat) -> Seq<usize> {
    if routes.len() == 0 {
        routes
    } else {
        let off = (offset % routes.len()) as int;
        routes.subrange(off, routes.len() as int) + routes.subrange(0, off)
    }
}

/// What an expert admits of the examples routed to it: all of them, up to
/// the capacity.
pub open spec fn admitted_count(attempts: nat, capacity: nat) -> nat {
    if attempts < capacity {
        attempts
    } else {
        capacity
    }
}

/// The examples dropped by experts `0..n`: for each, the examples routed
/// to it beyond the capacity.
pub open spec fn excess_upto(routes: Seq<usize>, capacity: nat, n: int) -> nat
    decreases n,
{
    if n <= 0 {
        0
    } else {
        excess_upto(routes, capacity, n - 1) + (occurrences(routes, (n - 1) as usize) - admitted_count(
            occurrences(routes, (n - 1) as usize),
            capacity,
        )) as nat
    }
}

/// The outcome of admitting a batch of routed examples.
#[derive(Clone, Debug)]
pub struct Admission {
    /// Whether each example, in visiting order, was admitted.
    pub admitted: Vec<bool>,
    /// How many examples were routed to each expert.
    pub attempted: Vec<usize>,
    /// How many examples each expert admitted.
    pub accepted: Vec<usize>,
    /// How many examples were dropped.
    pub dropped: usize,
}

/// How many examples were routed to each of `experts` experts.
fn route_counts(routes: &[usize], experts: usize) -> (counts: Vec<usize>)
    requires
        forall|i: int| 0 <= i < routes@.len() ==> #[trigger] routes@[i] < experts,
    ensures
        counts@.len() == experts,
        forall|e: int| 0 <= e < experts ==> #[trigger] counts@[e] == occurrences(routes@, e as usize),
{
    let mut counts: Vec<usize> = Vec::new();
    let mut e: usize = 0;
    while e < experts
        invariant
            e <= experts,
            counts@.len() == e,
            forall|j: int| 0 <= j < e ==> #[trigger] counts@[j] == 0,
        decreases experts - e,
    {
        counts.push(0);
        e += 1;
    }
    let mut i: usize = 0;
    while i < routes.len()
        invariant
            i <= routes@.len(),
            counts@.len() == experts,
            forall|j: int| 0 <= j < routes@.len() ==> #[trigger] routes@[j] < experts,
            forall|x: int|
                0 <= x < experts ==> #[trigger] counts@[x] == occurrences(routes@.take(i as int), x as usize),
        decreases routes.len() - i,
    {
        let r = routes[i];
        proof {
            assert(routes@.take(i + 1).drop_last() =~= routes@.take(i as int));
            assert(occurrences(routes@.take(i as int), r) <= i) by {
                lemma_occurrences_bound(routes@.take(i as int), r);
            }
        }
        counts.set(r, counts[r] + 1);
        i += 1;
    }
    assert(routes@.take(routes@.len() as int) =~= routes@);
    counts
}

/// A sequence holds a value at most as many times as it is long.
proof fn lemma_occurrences_bound(s: Seq<usize>, x: usize)
    ensures
        occurrences(s, x) <= s.len(),
    decreases s.len(),
{
    if s.len() > 0 {
        lemma_occurrences_bound(s.drop_last(), x);
    }
}

/// Visiting in a rotated order sees each expert as often.
proof fn lemma_visit_counts(routes: Seq<usize>, offset: nat, x: usize)
    ensures
        occurrences(visit_order(routes, offset), x) == occurrences(routes, x),
{
    if routes.len() > 0 {
        let off = (offset % routes.len()) as int;
        let a = routes.subrange(0, off);
        let b = routes.subrange(off, routes.len() as int);
        assert(routes =~= a + b);
        lemma_occurrences_append(a, b, x);
        lemma_occurrences_append(b, a, x);
    }
}

/// The examples dropped after visiting `k` examples: for each expert, its
/// visits so far beyond the capacity.
pub open spec fn dropped_after(order: Seq<usize>, capacity: nat, k: int, n: int) -> nat {
    excess_upto(order.take(k), capacity, n)
}

/// Visiting one more example drops it exactly when its expert is full,
/// and changes no other expert's excess.
proof fn lemma_dropped_step(order: Seq<usize>, capacity: nat, k: int, n: int)
    requires
        0 <= k < order.len(),
        0 <= n <= usize::MAX,
    ensures
        excess_upto(order.take(k + 1), capacity, n) == excess_upto(order.take(k), capacity, n) + if order[k]
            < n && occurrences(order.take(k), order[k]) >= capacity {
            1nat
        } else {
            0nat
        },
    decreases n,
{
    if n > 0 {
        lemma_dropped_step(order, capacity, k, n - 1);
        let before = order.take(k);
        let after = order.take(k + 1);
        let x = (n - 1) as usize;
        assert(after.drop_last() =~= before);
        assert(after.last() == order[k]);
        assert(occurrences(after, x) == occurrences(before, x) + if order[k] == x {
            1nat
        } else {
            0nat
        });
    }
}

/// Admits a batch of routed examples: visiting them from `offset`
/// (modulo their number) and wrapping, each is admitted when its expert
/// has admitted fewer than `capacity` examples before it. Each expert
/// admits the examples routed to it up to the capacity, and the dropped
/// examples are, over all experts, those routed beyond it.
pub fn admit_routes(routes: &[usize], experts: usize, capacity: usize, offset: usize) -> (a: Admission)
    requires
        forall|i: int| 0 <= i < routes@.len() ==> #[trigger] routes@[i] < experts,
    ensures
        a.admitted@.len() == routes@.len(),
        forall|k: int|
            0 <= k < routes@.len() ==> #[trigger] a.admitted@[k] == (occurrences(
                visit_order(routes@, offset as nat).take(k),
                visit_order(routes@, offset as nat)[k],
            ) < capacity),
        a.attempted@.len() == experts,
        a.accepted@.len() == experts,
        forall|e: int|
            0 <= e < experts ==> #[trigger] a.attempted@[e] == occurrences(routes@, e as usize)
                && a.accepted@[e] == admitted_count(occurrences(routes@, e as usize), capacity as nat),
        a.dropped == excess_upto(routes@, capacity as nat, experts as int),
{
    let t = routes.len();
    let attempted = route_counts(routes, experts);
    let off = if t == 0 {
        0
    } else {
        offset % t
    };
    let ghost order = visit_order(routes@, offset as nat);
    let mut accepted: Vec<usize> = Vec::new();
    let mut e: usize = 0;
    while e < experts
        invariant
            e <= experts,
            accepted@.len() == e,
            forall|j: int| 0 <= j < e ==> #[trigger] accepted@[j] == 0,
        decreases experts - e,
    {
        accepted.push(0);
        e += 1;
    }
    proof {
        lemma_excess_empty(order.take(0), capacity as nat, experts as int);
    }
    let mut admitted: Vec<bool> = Vec::new();
    let mut dropped: usize = 0;
    let mut k: usize = 0;
    while k < t
        invariant
            t == routes@.len(),
            order == visit_order(routes@, offset as nat),
            order.len() == t,
            t > 0 ==> off == offset % t,
            forall|j: int| 0 <= j < t ==> #[trigger] order[j] < experts,
            k <= t,
            admitted@.len() == k,
            forall|j: int|
                0 <= j < k ==> #[trigger] admitted@[j] == (occurrences(order.take(j), order[j]) < capacity),
            accepted@.len() == experts,
            forall|x: int|
                0 <= x < experts ==> #[trigger] accepted@[x] == admitted_count(
                    occurrences(order.take(k as int), x as usize),
                    capacity as nat,
                ),
            dropped == excess_upto(order.take(k as int), capacity as nat, experts as int),
            dropped <= k,
        decreases t - k,
    {
        let i = if k < t - off {
            off + k
        } else {
            k - (t - off)
        };
        let r = routes[i];
        assert(r == order[k as int]);
        proof {
            lemma_dropped_step(order, capacity as nat, k as int, experts as int);
            assert(order.take(k + 1).drop_last() =~= order.take(k as int));
        }
        if accepted[r] < capacity {
            accepted.set(r, accepted[r] + 1);
            admitted.push(true);
        } else {
            dropped = dropped + 1;
            admitted.push(false);
        }
        k += 1;
    }
    proof {
        assert(order.take(t as int) =~= order);
        assert forall|x: int| 0 <= x < experts implies #[trigger] occurrences(order, x as usize) == occurrences(
            routes@,
            x as usize,
        ) by {
            lemma_visit_counts(routes@, offset as nat, x as usize);
        }
        lemma_excess_same_counts(order, routes@, capacity as nat, experts as int);
    }
    Admission { admitted, attempted, accepted, dropped }
}

/// Nothing is dropped before any example is visited.
proof fn lemma_excess_empty(s: Seq<usize>, capacity: nat, n: int)
    requires
        s.len() == 0,
    ensures
        excess_upto(s, capacity, n) == 0,
    decreases n,
{
    if n > 0 {
        lemma_excess_empty(s, capacity, n - 1);
    }
}

/// Sequences that hold each expert as often drop as many examples.
proof fn lemma_excess_same_counts(a: Seq<usize>, b: Seq<usize>, capacity: nat, n: int)
    requires
        forall|x: int| 0 <= x < n ==> #[trigger] occurrences(a, x as usize) == occurrences(b, x as usize),
    ensures
        excess_upto(a, capacity, n) == excess_upto(b, capacity, n),
    decreases n,
{
    if n > 0 {
        lemma_excess_same_counts(a, b, capacity, n - 1);
        assert(occurrences(a, (n - 1) as usize) == occurrences(b, (n - 1) as usize));
    }
}

} // verus!
