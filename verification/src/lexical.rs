//! The lexicographic order in which `String` and `Vec<String>` compare:
//! strings by code point, character by character, a proper prefix first;
//! word lists word by word in the same way.
use vstd::prelude::*;

verus! {

/// `a` comes before `b` as strings compare.
pub open spec fn text_before(a: Seq<char>, b: Seq<char>) -> bool
    decreases a.len(),
{
    if b.len() == 0 {
        false
    } else if a.len() == 0 {
        true
    } else if a[0] < b[0] {
        true
    } else if a[0] == b[0] {
        text_before(a.skip(1), b.skip(1))
    } else {
        false
    }
}

/// `a` comes before `b` as lists of strings compare.
pub open spec fn words_before(a: Seq<Seq<char>>, b: Seq<Seq<char>>) -> bool
    decreases a.len(),
{
    if b.len() == 0 {
        false
    } else if a.len() == 0 {
        true
    } else if text_before(a[0], b[0]) {
        true
    } else if a[0] == b[0] {
        words_before(a.skip(1), b.skip(1))
    } else {
        false
    }
}

/// Every entry of `v` comes before every later one: `v` is in increasing
/// order with nothing repeated.
pub open spec fn strictly_increasing(v: Seq<Seq<Seq<char>>>) -> bool {
    forall|i: int, j: int| 0 <= i < j < v.len() ==> words_before(#[trigger] v[i], #[trigger] v[j])
}

/// A nonempty sequence is its first entry followed by the rest.
proof fn lemma_head_tail<T>(a: Seq<T>)
    requires
        a.len() > 0,
    ensures
        a =~= seq![a[0]] + a.skip(1),
{
}

/// No string comes before itself.
pub proof fn lemma_text_irreflexive(a: Seq<char>)
    ensures
        !text_before(a, a),
    decreases a.len(),
{
    if a.len() > 0 {
        lemma_text_irreflexive(a.skip(1));
    }
}

/// The string order is transitive.
pub proof fn lemma_text_transitive(a: Seq<char>, b: Seq<char>, c: Seq<char>)
    requires
        text_before(a, b),
        text_before(b, c),
    ensures
        text_before(a, c),
    decreases a.len(),
{
    if a.len() > 0 && a[0] == b[0] && b[0] == c[0] {
        lemma_text_transitive(a.skip(1), b.skip(1), c.skip(1));
    }
}

/// Of two different strings, one comes before the other.
pub proof fn lemma_text_total(a: Seq<char>, b: Seq<char>)
    requires
        a != b,
    ensures
        text_before(a, b) || text_before(b, a),
    decreases a.len(),
{
    if a.len() == 0 {
        assert(b.len() > 0) by {
            if b.len() == 0 {
                assert(a =~= b);
            }
        }
    } else if b.len() == 0 {
    } else if a[0] == b[0] {
        lemma_head_tail(a);
        lemma_head_tail(b);
        lemma_text_total(a.skip(1), b.skip(1));
    } else {
        assert(a[0] < b[0] || b[0] < a[0]);
    }
}

/// No word list comes before itself.
pub proof fn lemma_words_irreflexive(a: Seq<Seq<char>>)
    ensures
        !words_before(a, a),
    decreases a.len(),
{
    if a.len() > 0 {
        lemma_text_irreflexive(a[0]);
        lemma_words_irreflexive(a.skip(1));
    }
}

/// The word-list order is transitive.
pub proof fn lemma_words_transitive(a: Seq<Seq<char>>, b: Seq<Seq<char>>, c: Seq<Seq<char>>)
    requires
        words_before(a, b),
        words_before(b, c),
    ensures
        words_before(a, c),
    decreases a.len(),
{
    if a.len() > 0 && c.len() > 0 {
        if text_before(a[0], b[0]) && text_before(b[0], c[0]) {
            lemma_text_transitive(a[0], b[0], c[0]);
        } else if a[0] == b[0] && b[0] == c[0] {
            lemma_words_transitive(a.skip(1), b.skip(1), c.skip(1));
        }
    }
}

/// Of two different word lists, one comes before the other.
pub proof fn lemma_words_total(a: Seq<Seq<char>>, b: Seq<Seq<char>>)
    requires
        a != b,
    ensures
        words_before(a, b) || words_before(b, a),
    decreases a.len(),
{
    if a.len() == 0 {
        assert(b.len() > 0) by {
            if b.len() == 0 {
                assert(a =~= b);
            }
        }
    } else if b.len() == 0 {
    } else if a[0] == b[0] {
        lemma_head_tail(a);
        lemma_head_tail(b);
        lemma_words_total(a.skip(1), b.skip(1));
    } else {
        lemma_text_total(a[0], b[0]);
    }
}

/// Two strictly increasing sequences with the same entries are equal.
pub proof fn lemma_increasing_unique(a: Seq<Seq<Seq<char>>>, b: Seq<Seq<Seq<char>>>)
    requires
        strictly_increasing(a),
        strictly_increasing(b),
        forall|t: Seq<Seq<char>>| a.contains(t) <==> b.contains(t),
    ensures
        a == b,
    decreases a.len(),
{
    if a.len() == 0 {
        if b.len() > 0 {
            assert(b.contains(b[0]));
        }
        assert(a =~= b);
    } else {
        assert(a.contains(a[0]));
        let j = choose|j: int| 0 <= j < b.len() && b[j] == a[0];
        assert(b.contains(b[0]));
        let i = choose|i: int| 0 <= i < a.len() && a[i] == b[0];
        if i > 0 && j > 0 {
            assert(words_before(a[0], a[i]));
            assert(words_before(b[0], b[j]));
            lemma_words_transitive(a[0], b[0], a[0]);
            lemma_words_irreflexive(a[0]);
        } else if i > 0 {
            assert(words_before(a[0], a[i]));
            lemma_words_irreflexive(a[0]);
        } else if j > 0 {
            assert(words_before(b[0], b[j]));
            lemma_words_irreflexive(b[0]);
        }
        assert(a[0] == b[0]);
        let ta = a.skip(1);
        let tb = b.skip(1);
        assert forall|t: Seq<Seq<char>>| ta.contains(t) <==> tb.contains(t) by {
            if ta.contains(t) {
                let k = choose|k: int| 0 <= k < ta.len() && ta[k] == t;
                assert(a[k + 1] == t);
                assert(words_before(a[0], a[k + 1]));
                lemma_words_irreflexive(t);
                assert(a.contains(t));
                let m = choose|m: int| 0 <= m < b.len() && b[m] == t;
                assert(m != 0);
                assert(tb[m - 1] == t);
            }
            if tb.contains(t) {
                let k = choose|k: int| 0 <= k < tb.len() && tb[k] == t;
                assert(b[k + 1] == t);
                assert(words_before(b[0], b[k + 1]));
                lemma_words_irreflexive(t);
                assert(b.contains(t));
                let m = choose|m: int| 0 <= m < a.len() && a[m] == t;
                assert(m != 0);
                assert(ta[m - 1] == t);
            }
        }
        assert forall|x: int, y: int| 0 <= x < y < ta.len() implies words_before(
            #[trigger] ta[x],
            #[trigger] ta[y],
        ) by {
            assert(ta[x] == a[x + 1] && ta[y] == a[y + 1]);
        }
        assert forall|x: int, y: int| 0 <= x < y < tb.len() implies words_before(
            #[trigger] tb[x],
            #[trigger] tb[y],
        ) by {
            assert(tb[x] == b[x + 1] && tb[y] == b[y + 1]);
        }
        lemma_increasing_unique(ta, tb);
        lemma_head_tail(a);
        lemma_head_tail(b);
    }
}

/// Reading one more character of both strings.
proof fn lemma_text_step(a: Seq<char>, b: Seq<char>, k: int)
    requires
        0 <= k < a.len(),
        k < b.len(),
    ensures
        text_before(a.skip(k), b.skip(k)) == if a[k] < b[k] {
            true
        } else if a[k] == b[k] {
            text_before(a.skip(k + 1), b.skip(k + 1))
        } else {
            false
        },
{
    assert(a.skip(k).skip(1) =~= a.skip(k + 1));
    assert(b.skip(k).skip(1) =~= b.skip(k + 1));
}

/// Comparing one more word of both lists.
pub proof fn lemma_words_step(a: Seq<Seq<char>>, b: Seq<Seq<char>>, k: int)
    requires
        0 <= k < a.len(),
        k < b.len(),
    ensures
        words_before(a.skip(k), b.skip(k)) == if text_before(a[k], b[k]) {
            true
        } else if a[k] == b[k] {
            words_before(a.skip(k + 1), b.skip(k + 1))
        } else {
            false
        },
{
    assert(a.skip(k).skip(1) =~= a.skip(k + 1));
    assert(b.skip(k).skip(1) =~= b.skip(k + 1));
}

/// Inserting `t` where everything before it comes before it and the entry
/// it displaces comes after it keeps a sequence strictly increasing.
pub proof fn lemma_insert_increasing(v: Seq<Seq<Seq<char>>>, p: int, t: Seq<Seq<char>>)
    requires
        strictly_increasing(v),
        0 <= p <= v.len(),
        forall|k: int| 0 <= k < p ==> words_before(#[trigger] v[k], t),
        p < v.len() ==> words_before(t, v[p]),
    ensures
        strictly_increasing(v.insert(p, t)),
{
    let w = v.insert(p, t);
    assert forall|x: int, y: int| 0 <= x < y < w.len() implies words_before(#[trigger] w[x], #[trigger] w[y]) by {
        if x < p && y < p {
            assert(w[x] == v[x] && w[y] == v[y]);
        } else if x < p && y == p {
            assert(w[x] == v[x]);
        } else if x < p {
            assert(w[x] == v[x] && w[y] == v[y - 1]);
        } else if x == p {
            assert(w[y] == v[y - 1]);
            if y - 1 > p {
                lemma_words_transitive(t, v[p], v[y - 1]);
            }
        } else {
            assert(w[x] == v[x - 1] && w[y] == v[y - 1]);
        }
    }
}

/// Whether `a` comes before `b` as strings compare.
pub fn text_less(a: &[char], b: &[char]) -> (r: bool)
    ensures
        r == text_before(a@, b@),
{
    let mut k: usize = 0;
    assert(a@.skip(0) =~= a@ && b@.skip(0) =~= b@);
    loop
        invariant
            k <= a@.len(),
            k <= b@.len(),
            text_before(a@, b@) == text_before(a@.skip(k as int), b@.skip(k as int)),
        decreases a@.len() - k,
    {
        if k == b.len() {
            return false;
        }
        if k == a.len() {
            return true;
        }
        proof {
            lemma_text_step(a@, b@, k as int);
        }
        if a[k] < b[k] {
            return true;
        }
        if a[k] != b[k] {
            return false;
        }
        k += 1;
    }
}

} // verus!
