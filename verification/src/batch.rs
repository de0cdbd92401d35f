//! The schedule of a batch of generation requests served by one cached
//! decoder: the requests take turns, round after round, and each emits one
//! token per round until it has emitted all it asked for.
use vstd::prelude::*;

verus! {

/// The requests, among the first `n`, that still have tokens to emit in
/// round `round` (counting from zero), in request order.
pub open spec fn active_upto(remaining: Seq<usize>, round: int, n: int) -> Seq<usize>
    decreases n,
{
    if n <= 0 {
        Seq::empty()
    } else {
        active_upto(remaining, round, n - 1) + if remaining[n - 1] > round {
            seq![(n - 1) as usize]
        } else {
            Seq::empty()
        }
    }
}

/// The requests that emit in round `round`, in request order.
pub open spec fn active(remaining: Seq<usize>, round: int) -> Seq<usize> {
    active_upto(remaining, round, remaining.len() as int)
}

/// The emissions of the first `rounds` rounds, round after round.
pub open spec fn rounds_upto(remaining: Seq<usize>, rounds: int) -> Seq<usize>
    decreases rounds,
{
    if rounds <= 0 {
        Seq::empty()
    } else {
        rounds_upto(remaining, rounds - 1) + active(remaining, rounds - 1)
    }
}

/// The largest count among the first `n` requests (zero for none).
pub open spec fn max_upto(remaining: Seq<usize>, n: int) -> int
    decreases n,
{
    if n <= 0 {
        0
    } else if remaining[n - 1] > max_upto(remaining, n - 1) {
        remaining[n - 1] as int
    } else {
        max_upto(remaining, n - 1)
    }
}

/// The order in which a batch emits: one round for each token the longest
/// request asks for.
pub open spec fn emission_spec(remaining: Seq<usize>) -> Seq<usize> {
    rounds_upto(remaining, max_upto(remaining, remaining.len() as int))
}

/// The request that emits each token of a batch, in the order the tokens
/// are emitted: in each round every request with tokens left emits one, in
/// request order, until none has any left.
pub fn emission_order(remaining: &[usize]) -> (out: Vec<usize>)
    ensures
        out@ == emission_spec(remaining@),
{
    let n = remaining.len();
    let mut last: usize = 0;
    let mut i: usize = 0;
    while i < n
        invariant
            n == remaining@.len(),
            i <= n,
            last == max_upto(remaining@, i as int),
        decreases n - i,
    {
        if remaining[i] > last {
            last = remaining[i];
        }
        i += 1;
    }
    let mut out: Vec<usize> = Vec::new();
    let mut round: usize = 0;
    while round < last
        invariant
            n == remaining@.len(),
            round <= last,
            last == max_upto(remaining@, n as int),
            out@ == rounds_upto(remaining@, round as int),
        decreases last - round,
    {
        let ghost before = out@;
        let mut j: usize = 0;
        while j < n
            invariant
                n == remaining@.len(),
                j <= n,
                out@ == before + active_upto(remaining@, round as int, j as int),
            decreases n - j,
        {
            if remaining[j] > round {
                out.push(j);
            }
            proof {
                let head = active_upto(remaining@, round as int, j as int);
                assert(active_upto(remaining@, round as int, j + 1) == head + if remaining@[j as int]
                    > round {
                    seq![j]
                } else {
                    Seq::<usize>::empty()
                });
                if remaining@[j as int] > round {
                    assert(out@ =~= before + (head + seq![j]));
                } else {
                    assert(before + head =~= before + (head + Seq::<usize>::empty()));
                }
            }
            j += 1;
        }
        assert(out@ =~= rounds_upto(remaining@, round + 1));
        round += 1;
    }
    out
}

/// How many times `x` occurs in `s`.
pub open spec fn occurrences(s: Seq<usize>, x: usize) -> nat
    decreases s.len(),
{
    if s.len() == 0 {
        0
    } else {
        occurrences(s.drop_last(), x) + if s.last() == x {
            1nat
        } else {
            0nat
        }
    }
}

/// Occurrences in two sequences, one after the other, add up.
pub proof fn lemma_occurrences_append(a: Seq<usize>, b: Seq<usize>, x: usize)
    ensures
        occurrences(a + b, x) == occurrences(a, x) + occurrences(b, x),
    decreases b.len(),
{
    if b.len() == 0 {
        assert(a + b =~= a);
    } else {
        lemma_occurrences_append(a, b.drop_last(), x);
        assert((a + b).drop_last() =~= a + b.drop_last());
    }
}

/// Request `i` emits at most once in a round: exactly when it has more
/// tokens to emit than rounds have passed.
proof fn lemma_active_occurrences(remaining: Seq<usize>, round: int, n: int, i: usize)
    requires
        0 <= n <= remaining.len() <= usize::MAX,
    ensures
        occurrences(active_upto(remaining, round, n), i) == if i < n && remaining[i as int] > round {
            1nat
        } else {
            0nat
        },
    decreases n,
{
    if n > 0 {
        lemma_active_occurrences(remaining, round, n - 1, i);
        let tail = if remaining[n - 1] > round {
            seq![(n - 1) as usize]
        } else {
            Seq::<usize>::empty()
        };
        lemma_occurrences_append(active_upto(remaining, round, n - 1), tail, i);
        if remaining[n - 1] > round {
            assert(tail.drop_last() =~= Seq::<usize>::empty());
            assert(occurrences(Seq::<usize>::empty(), i) == 0);
            assert(tail.last() == (n - 1) as usize);
            assert(((n - 1) as usize) as int == n - 1);
            assert(occurrences(tail, i) == if i == n - 1 {
                1nat
            } else {
                0nat
            });
        } else {
            assert(occurrences(tail, i) == 0);
        }
    }
}

/// Over the first `rounds` rounds, request `i` emits once per round for
/// as long as it has tokens left.
proof fn lemma_rounds_occurrences(remaining: Seq<usize>, rounds: int, i: usize)
    requires
        i < remaining.len() <= usize::MAX,
        rounds >= 0,
    ensures
        occurrences(rounds_upto(remaining, rounds), i) == if remaining[i as int] < rounds {
            remaining[i as int] as int
        } else {
            rounds
        },
    decreases rounds,
{
    if rounds > 0 {
        lemma_rounds_occurrences(remaining, rounds - 1, i);
        lemma_occurrences_append(rounds_upto(remaining, rounds - 1), active(remaining, rounds - 1), i);
        lemma_active_occurrences(remaining, rounds - 1, remaining.len() as int, i);
    }
}

/// No count exceeds the largest.
proof fn lemma_max_upto(remaining: Seq<usize>, n: int, i: int)
    requires
        0 <= i < n <= remaining.len(),
    ensures
        remaining[i] <= max_upto(remaining, n),
    decreases n,
{
    if i < n - 1 {
        lemma_max_upto(remaining, n - 1, i);
    }
}

/// Every request of a batch finishes, having emitted exactly the tokens it
/// asked for (a batch held in memory has at most `usize::MAX` requests).
pub proof fn lemma_each_request_emits_its_count(remaining: Seq<usize>, i: usize)
    requires
        i < remaining.len() <= usize::MAX,
    ensures
        occurrences(emission_spec(remaining), i) == remaining[i as int],
{
    lemma_max_upto(remaining, remaining.len() as int, i as int);
    lemma_rounds_occurrences(remaining, max_upto(remaining, remaining.len() as int), i);
}

} // verus!
