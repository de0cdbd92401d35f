//! Byte bigram and character trigram statistics, and a count-based
//! next-byte predictor.
use vstd::prelude::*;

use crate::text::chars_of;

verus! {

/// How often the byte pair `p` occurs at adjacent positions of `data`.
pub open spec fn bigram_count(data: Seq<u8>, p: (u8, u8)) -> nat
    decreases data.len(),
{
    if data.len() < 2 {
        0
    } else {
        bigram_count(data.drop_last(), p) + if data[data.len() - 2] == p.0 && data[data.len() - 1]
            == p.1 {
            1nat
        } else {
            0nat
        }
    }
}

/// How often the characters of `t` occur at three consecutive positions of `s`.
pub open spec fn trigram_count(s: Seq<char>, t: (char, char, char)) -> nat
    decreases s.len(),
{
    if s.len() < 3 {
        0
    } else {
        trigram_count(s.drop_last(), t) + if s[s.len() - 3] == t.0 && s[s.len() - 2] == t.1 && s[s.len()
            - 1] == t.2 {
            1nat
        } else {
            0nat
        }
    }
}

/// The keys of a list of counts.
pub open spec fn keys_of<K>(entries: Seq<(K, usize)>) -> Seq<K> {
    entries.map_values(|e: (K, usize)| e.0)
}

/// The count a list of counts holds for `k`, or zero.
pub open spec fn count_in<K>(entries: Seq<(K, usize)>, k: K) -> nat {
    if exists|i: int| 0 <= i < entries.len() && (#[trigger] entries[i]).0 == k {
        let i = choose|i: int| 0 <= i < entries.len() && (#[trigger] entries[i]).0 == k;
        entries[i].1 as nat
    } else {
        0
    }
}

/// The entries hold distinct keys.
pub open spec fn distinct_keys<K>(entries: Seq<(K, usize)>) -> bool {
    forall|i: int, j: int|
        0 <= i < entries.len() && 0 <= j < entries.len() && i != j ==> (#[trigger] entries[i]).0
            != (#[trigger] entries[j]).0
}

/// A list of counts with distinct keys, viewed as a map from key to count.
pub open spec fn counts_map<K>(entries: Seq<(K, usize)>) -> Map<K, nat> {
    Map::new(|k: K| keys_of(entries).contains(k), |k: K| count_in(entries, k))
}

/// With distinct keys, the map has as many keys as the list has entries.
pub proof fn lemma_counts_map_len<K>(entries: Seq<(K, usize)>)
    requires
        distinct_keys(entries),
    ensures
        counts_map(entries).dom().len() == entries.len(),
        counts_map(entries).dom().finite(),
{
    let keys = keys_of(entries);
    assert(keys.no_duplicates()) by {
        assert forall|i: int, j: int| 0 <= i < keys.len() && 0 <= j < keys.len() && i != j implies keys[i]
            != keys[j] by {
            assert(keys[i] == entries[i].0 && keys[j] == entries[j].0);
        }
    }
    keys.unique_seq_to_set();
    assert(counts_map(entries).dom() =~= keys.to_set());
}

/// The count held for an entry's key is that entry's count.
pub proof fn lemma_count_in_entry<K>(entries: Seq<(K, usize)>, j: int)
    requires
        distinct_keys(entries),
        0 <= j < entries.len(),
    ensures
        count_in(entries, entries[j].0) == entries[j].1,
{
    let k = entries[j].0;
    let i = choose|i: int| 0 <= i < entries.len() && (#[trigger] entries[i]).0 == k;
    assert(i == j);
}

/// Counts of the byte pairs that occur in some data, one entry per
/// distinct pair.
#[derive(Clone, Debug)]
pub struct BigramCounts {
    entries: Vec<((u8, u8), usize)>,
}

/// Counts of the character triples that occur in some text, one entry per
/// distinct triple.
#[derive(Clone, Debug)]
pub struct TrigramCounts {
    entries: Vec<((char, char, char), usize)>,
}

impl BigramCounts {
    /// Each occurring pair mapped to how often it occurs.
    pub closed spec fn view(&self) -> Map<(u8, u8), nat> {
        counts_map(self.entries@)
    }

    /// The entries hold distinct pairs.
    pub closed spec fn well_formed(&self) -> bool {
        distinct_keys(self.entries@)
    }

    /// Number of distinct pairs.
    pub fn len(&self) -> (n: usize)
        requires
            self.well_formed(),
        ensures
            n == self.view().dom().len(),
    {
        proof {
            lemma_counts_map_len(self.entries@);
        }
        self.entries.len()
    }

    /// How often `pair` occurs, or `None` when it does not occur.
    pub fn get(&self, pair: (u8, u8)) -> (r: Option<usize>)
        requires
            self.well_formed(),
        ensures
            r is None <==> !self.view().contains_key(pair),
            r matches Some(c) ==> c == self.view()[pair],
    {
        let mut j: usize = 0;
        while j < self.entries.len()
            invariant
                j <= self.entries@.len(),
                distinct_keys(self.entries@),
                forall|i: int| 0 <= i < j ==> (#[trigger] self.entries@[i]).0 != pair,
            decreases self.entries.len() - j,
        {
            let e = self.entries[j];
            if e.0.0 == pair.0 && e.0.1 == pair.1 {
                proof {
                    lemma_count_in_entry(self.entries@, j as int);
                    assert(keys_of(self.entries@)[j as int] == pair);
                }
                return Some(e.1);
            }
            j += 1;
        }
        assert(!keys_of(self.entries@).contains(pair));
        None
    }
}

impl TrigramCounts {
    /// Each occurring character triple mapped to how often it occurs.
    pub closed spec fn view(&self) -> Map<(char, char, char), nat> {
        counts_map(self.entries@)
    }

    /// The entries hold distinct triples.
    pub closed spec fn well_formed(&self) -> bool {
        distinct_keys(self.entries@)
    }

    /// Number of distinct triples.
    pub fn len(&self) -> (n: usize)
        requires
            self.well_formed(),
        ensures
            n == self.view().dom().len(),
    {
        proof {
            lemma_counts_map_len(self.entries@);
        }
        self.entries.len()
    }

    /// How often the three characters of `key` occur, or `None` when `key`
    /// is not three characters long or does not occur.
    pub fn get(&self, key: &str) -> (r: Option<usize>)
        requires
            self.well_formed(),
        ensures
            r is None <==> !(key@.len() == 3 && self.view().contains_key((key@[0], key@[1], key@[2]))),
            r matches Some(c) ==> c == self.view()[(key@[0], key@[1], key@[2])],
    {
        let k = chars_of(key);
        if k.len() != 3 {
            return None;
        }
        let t = (k[0], k[1], k[2]);
        let mut j: usize = 0;
        while j < self.entries.len()
            invariant
                j <= self.entries@.len(),
                distinct_keys(self.entries@),
                key@.len() == 3,
                t == (key@[0], key@[1], key@[2]),
                forall|i: int| 0 <= i < j ==> (#[trigger] self.entries@[i]).0 != t,
            decreases self.entries.len() - j,
        {
            let e = self.entries[j];
            if e.0.0 == t.0 && e.0.1 == t.1 && e.0.2 == t.2 {
                proof {
                    lemma_count_in_entry(self.entries@, j as int);
                    assert(keys_of(self.entries@)[j as int] == t);
                }
                return Some(e.1);
            }
            j += 1;
        }
        assert(!keys_of(self.entries@).contains(t));
        None
    }

    /// Whether the three characters of `key` occur.
    pub fn contains_key(&self, key: &str) -> (r: bool)
        requires
            self.well_formed(),
        ensures
            r == (key@.len() == 3 && self.view().contains_key((key@[0], key@[1], key@[2]))),
    {
        self.get(key).is_some()
    }
}

/// Counts every byte pair at adjacent positions of `data`.
pub fn byte_bigrams(data: &[u8]) -> (r: BigramCounts)
    ensures
        r.well_formed(),
        forall|p: (u8, u8)| #[trigger] r.view().contains_key(p) <==> bigram_count(data@, p) > 0,
        forall|p: (u8, u8)| #[trigger] r.view().contains_key(p) ==> r.view()[p] == bigram_count(data@, p),
{
    let mut entries: Vec<((u8, u8), usize)> = Vec::new();
    let n = data.len();
    if n >= 2 {
        let mut i: usize = 1;
        while i < n
            invariant
                1 <= i <= n,
                n == data@.len(),
                distinct_keys(entries@),
                forall|j: int|
                    0 <= j < entries@.len() ==> (#[trigger] entries@[j]).1 == bigram_count(
                        data@.take(i as int),
                        entries@[j].0,
                    ) && entries@[j].1 > 0 && entries@[j].1 <= i,
                forall|q: (u8, u8)|
                    #[trigger] bigram_count(data@.take(i as int), q) > 0 ==> keys_of(
                        entries@,
                    ).contains(q),
            decreases n - i,
        {
            let p = (data[i - 1], data[i]);
            let ghost before = entries@;
            assert(data@.take(i + 1).drop_last() =~= data@.take(i as int));
            assert forall|q: (u8, u8)|
                #[trigger] bigram_count(data@.take(i + 1), q) == bigram_count(data@.take(i as int), q)
                    + if q == p {
                    1nat
                } else {
                    0nat
                } by {}
            let mut j: usize = 0;
            let mut found = false;
            while j < entries.len()
                invariant_except_break
                    !found,
                invariant
                    j <= entries@.len(),
                    entries@ == before,
                    forall|k: int| 0 <= k < j ==> (#[trigger] entries@[k]).0 != p,
                ensures
                    found ==> j < entries@.len() && entries@[j as int].0 == p,
                    !found ==> j == entries@.len(),
                decreases entries.len() - j,
            {
                if entries[j].0.0 == p.0 && entries[j].0.1 == p.1 {
                    found = true;
                    break;
                }
                j += 1;
            }
            if found {
                let c = entries[j].1;
                entries.set(j, (p, c + 1));
                proof {
                    assert forall|a: int, b: int|
                        0 <= a < entries@.len() && 0 <= b < entries@.len() && a != b implies (
                        #[trigger] entries@[a]).0 != (#[trigger] entries@[b]).0 by {
                        assert(before[a].0 == entries@[a].0 && before[b].0 == entries@[b].0);
                    }
                    assert forall|q: (u8, u8)|
                        #[trigger] bigram_count(data@.take(i + 1), q) > 0 implies keys_of(
                        entries@,
                    ).contains(q) by {
                        if q != p {
                            assert(bigram_count(data@.take(i as int), q) > 0);
                            assert(keys_of(before).contains(q));
                            let k = choose|k: int| 0 <= k < before.len() && keys_of(before)[k] == q;
                            assert(keys_of(entries@)[k] == q);
                        } else {
                            assert(keys_of(entries@)[j as int] == q);
                        }
                    }
                }
            } else {
                proof {
                    assert(!keys_of(before).contains(p)) by {
                        if keys_of(before).contains(p) {
                            let k = choose|k: int| 0 <= k < before.len() && keys_of(before)[k] == p;
                            assert(before[k].0 == p);
                        }
                    }
                    assert(bigram_count(data@.take(i as int), p) == 0);
                }
                entries.push((p, 1));
                proof {
                    assert forall|q: (u8, u8)|
                        #[trigger] bigram_count(data@.take(i + 1), q) > 0 implies keys_of(
                        entries@,
                    ).contains(q) by {
                        if q != p {
                            assert(keys_of(before).contains(q));
                            let k = choose|k: int| 0 <= k < before.len() && keys_of(before)[k] == q;
                            assert(keys_of(entries@)[k] == q);
                        } else {
                            assert(keys_of(entries@)[before.len() as int] == q);
                        }
                    }
                }
            }
            i += 1;
        }
        assert(data@.take(n as int) =~= data@);
    }
    let r = BigramCounts { entries };
    proof {
        if n < 2 {
            assert forall|q: (u8, u8)| #[trigger] bigram_count(data@, q) == 0 by {}
        }
        assert forall|p: (u8, u8)| #[trigger] r.view().contains_key(p) implies r.view()[p]
            == bigram_count(data@, p) by {
            let k = choose|k: int| 0 <= k < r.entries@.len() && keys_of(r.entries@)[k] == p;
            lemma_count_in_entry(r.entries@, k);
        }
        assert forall|p: (u8, u8)| #[trigger] r.view().contains_key(p) implies bigram_count(data@, p)
            > 0 by {
            let k = choose|k: int| 0 <= k < r.entries@.len() && keys_of(r.entries@)[k] == p;
            assert(r.entries@[k].0 == p);
        }
    }
    r
}

/// Counts every triple of consecutive characters of `text`.
pub fn char_trigrams(text: &str) -> (r: TrigramCounts)
    ensures
        r.well_formed(),
        forall|p: (char, char, char)| #[trigger] r.view().contains_key(p) <==> trigram_count(text@, p) > 0,
        forall|p: (char, char, char)| #[trigger] r.view().contains_key(p) ==> r.view()[p] == trigram_count(text@, p),
{
    let data = chars_of(text);
    let mut entries: Vec<((char, char, char), usize)> = Vec::new();
    let n = data.len();
    if n >= 3 {
        let mut i: usize = 2;
        while i < n
            invariant
                2 <= i <= n,
                n == text@.len(),
                data@ == text@,
                distinct_keys(entries@),
                forall|j: int|
                    0 <= j < entries@.len() ==> (#[trigger] entries@[j]).1 == trigram_count(
                        text@.take(i as int),
                        entries@[j].0,
                    ) && entries@[j].1 > 0 && entries@[j].1 <= i,
                forall|q: (char, char, char)|
                    #[trigger] trigram_count(text@.take(i as int), q) > 0 ==> keys_of(
                        entries@,
                    ).contains(q),
            decreases n - i,
        {
            let p = (data[i - 2], data[i - 1], data[i]);
            let ghost before = entries@;
            assert(text@.take(i + 1).drop_last() =~= text@.take(i as int));
            assert forall|q: (char, char, char)|
                #[trigger] trigram_count(text@.take(i + 1), q) == trigram_count(text@.take(i as int), q)
                    + if q == p {
                    1nat
                } else {
                    0nat
                } by {}
            let mut j: usize = 0;
            let mut found = false;
            while j < entries.len()
                invariant_except_break
                    !found,
                invariant
                    j <= entries@.len(),
                    entries@ == before,
                    forall|k: int| 0 <= k < j ==> (#[trigger] entries@[k]).0 != p,
                ensures
                    found ==> j < entries@.len() && entries@[j as int].0 == p,
                    !found ==> j == entries@.len(),
                decreases entries.len() - j,
            {
                if entries[j].0.0 == p.0 && entries[j].0.1 == p.1 && entries[j].0.2 == p.2 {
                    found = true;
                    break;
                }
                j += 1;
            }
            if found {
                let c = entries[j].1;
                entries.set(j, (p, c + 1));
                proof {
                    assert forall|a: int, b: int|
                        0 <= a < entries@.len() && 0 <= b < entries@.len() && a != b implies (
                        #[trigger] entries@[a]).0 != (#[trigger] entries@[b]).0 by {
                        assert(before[a].0 == entries@[a].0 && before[b].0 == entries@[b].0);
                    }
                    assert forall|q: (char, char, char)|
                        #[trigger] trigram_count(text@.take(i + 1), q) > 0 implies keys_of(
                        entries@,
                    ).contains(q) by {
                        if q != p {
                            assert(trigram_count(text@.take(i as int), q) > 0);
                            assert(keys_of(before).contains(q));
                            let k = choose|k: int| 0 <= k < before.len() && keys_of(before)[k] == q;
                            assert(keys_of(entries@)[k] == q);
                        } else {
                            assert(keys_of(entries@)[j as int] == q);
                        }
                    }
                }
            } else {
                proof {
                    assert(!keys_of(before).contains(p)) by {
                        if keys_of(before).contains(p) {
                            let k = choose|k: int| 0 <= k < before.len() && keys_of(before)[k] == p;
                            assert(before[k].0 == p);
                        }
                    }
                    assert(trigram_count(text@.take(i as int), p) == 0);
                }
                entries.push((p, 1));
                proof {
                    assert forall|q: (char, char, char)|
                        #[trigger] trigram_count(text@.take(i + 1), q) > 0 implies keys_of(
                        entries@,
                    ).contains(q) by {
                        if q != p {
                            assert(keys_of(before).contains(q));
                            let k = choose|k: int| 0 <= k < before.len() && keys_of(before)[k] == q;
                            assert(keys_of(entries@)[k] == q);
                        } else {
                            assert(keys_of(entries@)[before.len() as int] == q);
                        }
                    }
                }
            }
            i += 1;
        }
        assert(text@.take(n as int) =~= text@);
    }
    let r = TrigramCounts { entries };
    proof {
        if n < 3 {
            assert forall|q: (char, char, char)| #[trigger] trigram_count(text@, q) == 0 by {}
        }
        assert forall|p: (char, char, char)| #[trigger] r.view().contains_key(p) implies r.view()[p]
            == trigram_count(text@, p) by {
            let k = choose|k: int| 0 <= k < r.entries@.len() && keys_of(r.entries@)[k] == p;
            lemma_count_in_entry(r.entries@, k);
        }
        assert forall|p: (char, char, char)| #[trigger] r.view().contains_key(p) implies trigram_count(text@, p)
            > 0 by {
            let k = choose|k: int| 0 <= k < r.entries@.len() && keys_of(r.entries@)[k] == p;
            assert(r.entries@[k].0 == p);
        }
    }
    r
}

/// The byte that most often follows `current` in `data` (ties go to the
/// smallest byte), or `None` when `current` is never followed by a byte.
pub fn most_likely_after(data: &[u8], current: u8) -> (r: Option<u8>)
    ensures
        r is None <==> forall|b: u8| #[trigger] bigram_count(data@, (current, b)) == 0,
        r matches Some(b) ==> bigram_count(data@, (current, b)) > 0 && forall|o: u8|
            #[trigger] bigram_count(data@, (current, o)) < bigram_count(data@, (current, b)) || (
            bigram_count(data@, (current, o)) == bigram_count(data@, (current, b)) && b <= o),
{
    let mut counts: Vec<usize> = Vec::new();
    let mut b: usize = 0;
    while b < 256
        invariant
            b <= 256,
            counts@.len() == b,
            forall|k: int| 0 <= k < b ==> #[trigger] counts@[k] == 0,
        decreases 256 - b,
    {
        counts.push(0);
        b += 1;
    }
    let n = data.len();
    if n == 0 {
        return None;
    }
    let mut i: usize = 1;
    assert(data@.take(1).len() == 1);
    assert forall|o: u8| #[trigger] bigram_count(data@.take(1), (current, o)) == 0 by {}
    while i < n
        invariant
            1 <= i <= n,
            n == data@.len(),
            counts@.len() == 256,
            forall|o: u8|
                #[trigger] counts@[o as int] == bigram_count(data@.take(i as int), (current, o))
                    && counts@[o as int] < i,
        decreases n - i,
    {
        assert(data@.take(i + 1).drop_last() =~= data@.take(i as int));
        if data[i - 1] == current {
            let next = data[i] as usize;
            counts.set(next, counts[next] + 1);
        }
        i += 1;
    }
    assert(data@.take(i as int) =~= data@);
    let mut best: usize = 0;
    let mut best_count: usize = counts[0];
    let mut o: usize = 1;
    while o < 256
        invariant
            o <= 256,
            best < 256,
            counts@.len() == 256,
            forall|x: u8| #[trigger] counts@[x as int] == bigram_count(data@, (current, x)),
            best_count == counts@[best as int],
            best_count == 0 ==> forall|k: int| 0 <= k < o ==> #[trigger] counts@[k] == 0,
            best_count > 0 ==> best < o,
            best_count == 0 ==> best == 0,
            forall|k: int|
                0 <= k < o ==> #[trigger] counts@[k] < best_count || (counts@[k] == best_count
                    && best <= k),
        decreases 256 - o,
    {
        if counts[o] > best_count {
            best = o;
            best_count = counts[o];
        }
        o += 1;
    }
    if best_count == 0 {
        assert forall|x: u8| #[trigger] bigram_count(data@, (current, x)) == 0 by {
            assert(counts@[x as int] == 0);
        }
        None
    } else {
        let r = best as u8;
        assert(counts@[r as int] == best_count);
        assert forall|x: u8|
            #[trigger] bigram_count(data@, (current, x)) < bigram_count(data@, (current, r)) || (
            bigram_count(data@, (current, x)) == bigram_count(data@, (current, r)) && r <= x) by {
            assert(counts@[x as int] == bigram_count(data@, (current, x)));
        }
        Some(r)
    }
}

} // verus!
