//! Summaries of benchmark timings: the median, fastest and slowest of a
//! set of samples, in nanoseconds.
use vstd::prelude::*;
use vstd::relations::{sorted_by, total_ordering};

verus! {

/// The usual order of durations.
pub open spec fn ascending() -> spec_fn(u128, u128) -> bool {
    |a: u128, b: u128| a <= b
}

/// The samples in ascending order.
pub open spec fn sorted_samples(s: Seq<u128>) -> Seq<u128> {
    s.sort_by(ascending())
}

/// `<=` on durations is a total order.
proof fn lemma_ascending_total()
    ensures
        total_ordering(ascending()),
{
    let r = ascending();
    assert(forall|x: u128| #[trigger] r(x, x));
    assert(forall|x: u128, y: u128| #[trigger] r(x, y) && #[trigger] r(y, x) ==> x == y);
    assert(forall|x: u128, y: u128, z: u128| #[trigger] r(x, y) && #[trigger] r(y, z) ==> r(x, z));
    assert(forall|x: u128, y: u128| #[trigger] r(x, y) || #[trigger] r(y, x));
}

/// Sorts the samples in place, smallest first.
fn sort_samples(v: &mut Vec<u128>)
    ensures
        final(v)@.len() == old(v)@.len(),
        final(v)@.to_multiset() == old(v)@.to_multiset(),
        sorted_by(final(v)@, ascending()),
{
    broadcast use vstd::seq_lib::group_to_multiset_ensures;
    let n = v.len();
    let mut i: usize = 0;
    while i < n
        invariant
            n == v@.len(),
            i <= n,
            v@.to_multiset() == old(v)@.to_multiset(),
            forall|a: int, b: int| 0 <= a < b < i ==> v@[a] <= v@[b],
            forall|a: int, b: int| 0 <= a < i <= b < n ==> v@[a] <= v@[b],
        decreases n - i,
    {
        let mut m: usize = i;
        let mut k: usize = i + 1;
        while k < n
            invariant
                n == v@.len(),
                i < n,
                i <= m < n,
                m < k <= n,
                forall|t: int| i <= t < k ==> v@[m as int] <= v@[t],
            decreases n - k,
        {
            if v[k] < v[m] {
                m = k;
            }
            k += 1;
        }
        let a = v[i];
        let b = v[m];
        let ghost before = v@;
        v.set(i, b);
        v.set(m, a);
        proof {
            broadcast use vstd::multiset::group_multiset_properties;
            let mid = before.update(i as int, b);
            assert(v@ == mid.update(m as int, a));
            assert(mid[m as int] == b);
            vstd::seq_lib::to_multiset_update(before, i as int, b);
            vstd::seq_lib::to_multiset_update(mid, m as int, a);
            let ms = before.to_multiset();
            assert(before[i as int] == a && before[m as int] == b);
            assert(before.contains(a) && before.contains(b));
            vstd::seq_lib::to_multiset_contains(before, a);
            vstd::seq_lib::to_multiset_contains(before, b);
            assert(ms.count(a) > 0 && ms.count(b) > 0);
            assert(ms.insert(b).remove(a).insert(a).remove(b) =~= ms);
        }
        i += 1;
    }
    assert(sorted_by(v@, ascending()));
}

/// The median, smallest and largest of `samples` (the median is the upper
/// one of an even count), in nanoseconds.
pub fn median_range(samples: Vec<u128>) -> (r: (u128, u128, u128))
    requires
        samples@.len() > 0,
    ensures
        ({
            let t = sorted_samples(samples@);
            r == (t[(samples@.len() / 2) as int], t[0], t[samples@.len() - 1])
        }),
{
    let mut v = samples;
    let ghost original = v@;
    sort_samples(&mut v);
    proof {
        lemma_ascending_total();
        original.lemma_sort_by_ensures(ascending());
        vstd::seq_lib::lemma_sorted_unique(v@, original.sort_by(ascending()), ascending());
    }
    let n = v.len();
    (v[n / 2], v[0], v[n - 1])
}

} // verus!
