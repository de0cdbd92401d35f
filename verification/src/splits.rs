//! Keeping training and held-out text apart, and cutting token streams
//! into next-token training windows.
use vstd::prelude::*;
use std::collections::HashMap;
use crate::fnv::{fnv1a, fnv1a_range};

verus! {

broadcast use vstd::std_specs::hash::group_hash_axioms;

/// Length of the passages that two texts must not share.
pub const PASSAGE: usize = 32;

/// The passage of `s` that starts at `i`.
pub open spec fn passage(s: Seq<u8>, i: int) -> Seq<u8> {
    s.subrange(i, i + PASSAGE)
}

/// `i` is the start of a whole passage of `s`.
pub open spec fn passage_start(s: Seq<u8>, i: int) -> bool {
    0 <= i && i + PASSAGE <= s.len()
}

/// Some 32-byte passage occurs in both `a` and `b`.
pub open spec fn shares_passage(a: Seq<u8>, b: Seq<u8>) -> bool {
    exists|i: int, j: int|
        passage_start(a, i) && passage_start(b, j) && #[trigger] passage(a, i) == #[trigger] passage(
            b,
            j,
        )
}

/// Whether the passages of `a` at `i` and of `b` at `j` are equal.
fn same_passage(a: &[u8], i: usize, b: &[u8], j: usize) -> (r: bool)
    requires
        passage_start(a@, i as int),
        passage_start(b@, j as int),
    ensures
        r == (passage(a@, i as int) == passage(b@, j as int)),
{
    let mut k: usize = 0;
    while k < PASSAGE
        invariant
            k <= PASSAGE,
            a@.len() == a.len(),
            b@.len() == b.len(),
            passage_start(a@, i as int),
            passage_start(b@, j as int),
            forall|t: int| 0 <= t < k ==> #[trigger] passage(a@, i as int)[t] == passage(b@, j as int)[t],
        decreases PASSAGE - k,
    {
        if a[i + k] != b[j + k] {
            assert(passage(a@, i as int)[k as int] != passage(b@, j as int)[k as int]);
            return false;
        }
        k += 1;
    }
    assert(passage(a@, i as int) =~= passage(b@, j as int));
    true
}

/// The passages of `s`, filed under the hash of their bytes.
pub open spec fn indexes_passages(index: Map<u64, Vec<usize>>, s: Seq<u8>, count: int) -> bool {
    &&& forall|i: int|
        0 <= i < count ==> {
            let key = fnv1a(#[trigger] passage(s, i));
            index.contains_key(key) && index[key]@.contains(i as usize)
        }
    &&& forall|key: u64, t: int|
        index.contains_key(key) && 0 <= t < index[key]@.len() ==> passage_start(
            s,
            #[trigger] index[key]@[t] as int,
        )
}

/// Files every passage of `s` under the hash of its bytes.
fn passage_index(s: &[u8]) -> (index: HashMap<u64, Vec<usize>>)
    requires
        s@.len() >= PASSAGE,
    ensures
        indexes_passages(index@, s@, s@.len() - PASSAGE + 1),
{
    let mut index: HashMap<u64, Vec<usize>> = HashMap::new();
    let count = s.len() - PASSAGE + 1;
    let mut i: usize = 0;
    while i < count
        invariant
            count == s@.len() - PASSAGE + 1,
            s@.len() == s.len(),
            i <= count,
            indexes_passages(index@, s@, i as int),
        decreases count - i,
    {
        let key = fnv1a_range(s, i, i + PASSAGE);
        let ghost before = index@;
        let mut starts = match index.remove(&key) {
            Some(v) => v,
            None => Vec::new(),
        };
        let ghost old_starts = starts@;
        starts.push(i);
        index.insert(key, starts);
        proof {
            assert forall|k: int| 0 <= k < i + 1 implies {
                let kk = fnv1a(#[trigger] passage(s@, k));
                index@.contains_key(kk) && index@[kk]@.contains(k as usize)
            } by {
                let kk = fnv1a(passage(s@, k));
                if k < i {
                    assert(before.contains_key(kk) && before[kk]@.contains(k as usize));
                    if kk == key {
                        let t = choose|t: int| 0 <= t < before[kk]@.len() && before[kk]@[t] == k as usize;
                        assert(index@[kk]@[t] == k as usize);
                    }
                } else {
                    assert(index@[kk]@[old_starts.len() as int] == k as usize);
                }
            }
            assert forall|kk: u64, t: int|
                index@.contains_key(kk) && 0 <= t < index@[kk]@.len() implies passage_start(
                s@,
                #[trigger] index@[kk]@[t] as int,
            ) by {
                if kk != key {
                    assert(before.contains_key(kk));
                    assert(index@[kk] == before[kk]);
                } else if t < old_starts.len() {
                    assert(before.contains_key(kk));
                    assert(index@[kk]@[t] == before[kk]@[t]);
                }
            }
        }
        i += 1;
    }
    index
}

/// Whether `a` and `b` share a 32-byte passage.
pub fn share_passage(a: &[u8], b: &[u8]) -> (r: bool)
    ensures
        r == shares_passage(a@, b@),
{
    if a.len() < PASSAGE || b.len() < PASSAGE {
        return false;
    }
    let index = passage_index(a);
    let count = b.len() - PASSAGE + 1;
    let mut j: usize = 0;
    while j < count
        invariant
            count == b@.len() - PASSAGE + 1,
            b@.len() == b.len(),
            j <= count,
            a@.len() >= PASSAGE,
            a@.len() == a.len(),
            indexes_passages(index@, a@, a@.len() - PASSAGE + 1),
            forall|i: int, jj: int|
                passage_start(a@, i) && 0 <= jj < j ==> #[trigger] passage(a@, i) != #[trigger] passage(
                    b@,
                    jj,
                ),
        decreases count - j,
    {
        let key = fnv1a_range(b, j, j + PASSAGE);
        match index.get(&key) {
            Some(starts) => {
                let mut t: usize = 0;
                while t < starts.len()
                    invariant
                        index@.contains_key(key) && index@[key] == *starts,
                        t <= starts@.len(),
                        a@.len() == a.len(),
                        passage_start(b@, j as int),
                        key == fnv1a(passage(b@, j as int)),
                        indexes_passages(index@, a@, a@.len() - PASSAGE + 1),
                        forall|u: int| 0 <= u < t ==> passage(a@, #[trigger] starts@[u] as int) != passage(b@, j as int),
                    decreases starts.len() - t,
                {
                    let i = starts[t];
                    assert(passage_start(a@, starts@[t as int] as int));
                    if same_passage(a, i, b, j) {
                        return true;
                    }
                    t += 1;
                }
                assert forall|i: int| passage_start(a@, i) implies #[trigger] passage(a@, i) != passage(b@, j as int) by {
                    if passage(a@, i) == passage(b@, j as int) {
                        let kk = fnv1a(passage(a@, i));
                        assert(index@.contains_key(kk) && index@[kk]@.contains(i as usize));
                        let u = choose|u: int| 0 <= u < starts@.len() && starts@[u] == i as usize;
                        assert(passage(a@, starts@[u] as int) != passage(b@, j as int));
                    }
                }
            },
            None => {
                assert forall|i: int| passage_start(a@, i) implies #[trigger] passage(a@, i) != passage(b@, j as int) by {
                    if passage(a@, i) == passage(b@, j as int) {
                        assert(index@.contains_key(fnv1a(passage(a@, i))));
                    }
                }
            },
        }
        j += 1;
    }
    false
}

/// Whether `a` and `b` hold the same bytes.
pub fn same_bytes(a: &[u8], b: &[u8]) -> (r: bool)
    ensures
        r == (a@ == b@),
{
    if a.len() != b.len() {
        return false;
    }
    let mut k: usize = 0;
    while k < a.len()
        invariant
            k <= a@.len(),
            a@.len() == b@.len(),
            forall|t: int| 0 <= t < k ==> a@[t] == b@[t],
        decreases a.len() - k,
    {
        if a[k] != b[k] {
            return false;
        }
        k += 1;
    }
    assert(a@ =~= b@);
    true
}

/// Sharing a passage does not depend on the order of the two texts.
pub proof fn lemma_shares_passage_symmetric(a: Seq<u8>, b: Seq<u8>)
    ensures
        shares_passage(a, b) == shares_passage(b, a),
{
    if shares_passage(a, b) {
        let (i, j) = choose|i: int, j: int|
            passage_start(a, i) && passage_start(b, j) && #[trigger] passage(a, i) == #[trigger] passage(b, j);
        assert(passage_start(b, j) && passage_start(a, i) && passage(b, j) == passage(a, i));
    }
    if shares_passage(b, a) {
        let (j, i) = choose|j: int, i: int|
            passage_start(b, j) && passage_start(a, i) && #[trigger] passage(b, j) == #[trigger] passage(a, i);
        assert(passage_start(a, i) && passage_start(b, j) && passage(a, i) == passage(b, j));
    }
}

/// Whether held-out text leaks into training text: the two are equal, or
/// share a 32-byte passage.
pub fn has_overlap(train: &[u8], valid: &[u8]) -> (r: bool)
    ensures
        r == (train@ == valid@ || shares_passage(train@, valid@)),
{
    if same_bytes(train, valid) {
        return true;
    }
    proof {
        lemma_shares_passage_symmetric(train@, valid@);
    }
    if train.len() <= valid.len() {
        share_passage(train, valid)
    } else {
        share_passage(valid, train)
    }
}

/// Refuses a training and held-out pair that are equal or share a passage.
pub fn validate_split(train: &[u8], heldout: &[u8]) -> (r: Result<(), &'static str>)
    ensures
        train@ == heldout@ ==> r == Err::<(), &'static str>("train and held-out text must differ"),
        train@ != heldout@ && shares_passage(train@, heldout@) ==> r == Err::<(), &'static str>(
            "train and held-out text share a 32-byte passage",
        ),
        train@ != heldout@ && !shares_passage(train@, heldout@) ==> r is Ok,
{
    if same_bytes(train, heldout) {
        return Err("train and held-out text must differ");
    }
    proof {
        lemma_shares_passage_symmetric(train@, heldout@);
    }
    let shared = if train.len() < heldout.len() {
        share_passage(train, heldout)
    } else {
        share_passage(heldout, train)
    };
    if shared {
        Err("train and held-out text share a 32-byte passage")
    } else {
        Ok(())
    }
}

/// Number of training windows of `context` tokens in a stream of `len`
/// tokens: every window needs one more token as its last target.
pub open spec fn window_count(len: int, context: int) -> int {
    if len > context {
        len - context
    } else {
        0
    }
}

/// Every window of `context` tokens of `data` that has a next token, with
/// its targets: the same window shifted by one token.
pub fn next_token_windows(data: &[usize], context: usize) -> (out: Vec<(&[usize], &[usize])>)
    ensures
        out@.len() == window_count(data@.len() as int, context as int),
        forall|i: int|
            0 <= i < out@.len() ==> (#[trigger] out@[i]).0@ == data@.subrange(i, i + context) && out@[i].1@
                == data@.subrange(i + 1, i + context + 1),
{
    let mut out: Vec<(&[usize], &[usize])> = Vec::new();
    if data.len() <= context {
        return out;
    }
    let count = data.len() - context;
    let mut i: usize = 0;
    while i < count
        invariant
            count == data@.len() - context,
            data@.len() == data.len(),
            i <= count,
            out@.len() == i,
            forall|k: int|
                0 <= k < i ==> (#[trigger] out@[k]).0@ == data@.subrange(k, k + context) && out@[k].1@
                    == data@.subrange(k + 1, k + context + 1),
        decreases count - i,
    {
        let input = &data[i..i + context];
        let target = &data[i + 1..i + context + 1];
        out.push((input, target));
        i += 1;
    }
    out
}

/// The evaluation blocks from `start` on: consecutive `(start, count)`
/// runs of targets, each `per_block` long but the last, up to `available`.
pub open spec fn blocks_from(start: int, available: int, per_block: int) -> Seq<(int, int)>
    decreases available - start,
{
    if per_block <= 0 || start >= available {
        Seq::empty()
    } else {
        let count = if per_block < available - start { per_block } else { available - start };
        seq![(start, count)] + blocks_from(start + count, available, per_block)
    }
}

/// The number of targets evaluated in a stream of `len` tokens under a
/// budget: every token but the first is a target, up to the budget.
pub open spec fn evaluated_targets(len: int, budget: int) -> int {
    if len - 1 < budget {
        len - 1
    } else {
        budget
    }
}

/// Checks the arguments of a held-out evaluation: a block size within the
/// model's context, a positive budget, and at least two tokens.
pub fn check_evaluation(len: usize, per_block: usize, context: usize, budget: usize) -> (r: Result<(), &'static str>)
    ensures
        (per_block == 0 || per_block > context || budget == 0) ==> r == Err::<(), &'static str>(
            "validation needs a positive model-compatible context and token budget",
        ),
        !(per_block == 0 || per_block > context || budget == 0) && len < 2 ==> r == Err::<
            (),
            &'static str,
        >("validation text needs at least two bytes"),
        !(per_block == 0 || per_block > context || budget == 0) && len >= 2 ==> r is Ok,
{
    if per_block == 0 || per_block > context || budget == 0 {
        return Err("validation needs a positive model-compatible context and token budget");
    }
    if len < 2 {
        return Err("validation text needs at least two bytes");
    }
    Ok(())
}

/// The blocks a held-out stream of `len` tokens is evaluated in: from the
/// start, `per_block` targets at a time, the last block possibly shorter,
/// until the budget or the stream runs out.
pub fn evaluation_blocks(len: usize, per_block: usize, budget: usize) -> (out: Vec<(usize, usize)>)
    requires
        len >= 1,
        per_block > 0,
    ensures
        out@.len() == blocks_from(0, evaluated_targets(len as int, budget as int), per_block as int).len(),
        forall|i: int|
            0 <= i < out@.len() ==> (#[trigger] out@[i]).0 as int == blocks_from(
                0,
                evaluated_targets(len as int, budget as int),
                per_block as int,
            )[i].0 && out@[i].1 as int == blocks_from(
                0,
                evaluated_targets(len as int, budget as int),
                per_block as int,
            )[i].1,
{
    let available = if len - 1 < budget { len - 1 } else { budget };
    let ghost all = blocks_from(0, available as int, per_block as int);
    let mut out: Vec<(usize, usize)> = Vec::new();
    let mut start: usize = 0;
    while start < available
        invariant
            start <= available,
            per_block > 0,
            all == blocks_from(0, available as int, per_block as int),
            all == out@.map_values(|b: (usize, usize)| (b.0 as int, b.1 as int)) + blocks_from(
                start as int,
                available as int,
                per_block as int,
            ),
        decreases available - start,
    {
        let count = if per_block < available - start { per_block } else { available - start };
        let ghost before = out@;
        out.push((start, count));
        proof {
            let rest = blocks_from(start + count, available as int, per_block as int);
            assert(blocks_from(start as int, available as int, per_block as int) == seq![(
                start as int,
                count as int,
            )] + rest);
            assert(out@.map_values(|b: (usize, usize)| (b.0 as int, b.1 as int)) =~= before.map_values(
                |b: (usize, usize)| (b.0 as int, b.1 as int),
            ).push((start as int, count as int)));
            assert(before.map_values(|b: (usize, usize)| (b.0 as int, b.1 as int)).push(
                (start as int, count as int),
            ) + rest =~= before.map_values(|b: (usize, usize)| (b.0 as int, b.1 as int)) + (seq![(
                start as int,
                count as int,
            )] + rest));
        }
        start = start + count;
    }
    assert(out@.map_values(|b: (usize, usize)| (b.0 as int, b.1 as int)) + Seq::<(int, int)>::empty()
        =~= out@.map_values(|b: (usize, usize)| (b.0 as int, b.1 as int)));
    out
}

/// Evaluation blocks lie end to end from the first target and cover every
/// evaluated target once, none longer than the block size.
pub proof fn lemma_blocks_cover(start: int, available: int, per_block: int)
    requires
        per_block > 0,
        start <= available,
    ensures
        forall|i: int|
            0 <= i < blocks_from(start, available, per_block).len() ==> 0 < #[trigger] blocks_from(
                start,
                available,
                per_block,
            )[i].1 <= per_block,
        blocks_from(start, available, per_block).len() > 0 ==> blocks_from(start, available, per_block)[0].0
            == start,
        forall|i: int|
            0 <= i < blocks_from(start, available, per_block).len() - 1 ==> #[trigger] blocks_from(
                start,
                available,
                per_block,
            )[i].0 + blocks_from(start, available, per_block)[i].1 == blocks_from(
                start,
                available,
                per_block,
            )[i + 1].0,
        blocks_from(start, available, per_block).len() > 0 ==> blocks_from(start, available, per_block).last().0
            + blocks_from(start, available, per_block).last().1 == available,
    decreases available - start,
{
    if start < available {
        let count = if per_block < available - start { per_block } else { available - start };
        lemma_blocks_cover(start + count, available, per_block);
        let rest = blocks_from(start + count, available, per_block);
        let all = blocks_from(start, available, per_block);
        assert(all == seq![(start, count)] + rest);
        assert forall|i: int| 0 <= i < all.len() implies 0 < #[trigger] all[i].1 <= per_block by {
            if i > 0 {
                assert(all[i] == rest[i - 1]);
            }
        }
        assert forall|i: int| 0 <= i < all.len() - 1 implies #[trigger] all[i].0 + all[i].1 == all[i + 1].0 by {
            if i > 0 {
                assert(all[i] == rest[i - 1]);
                assert(all[i + 1] == rest[i]);
            } else {
                assert(all[1] == rest[0]);
            }
        }
        if rest.len() > 0 {
            assert(all.last() == rest.last());
        }
    }
}

} // verus!
