//! The shape side of exact causal grouped-query attention: checking the
//! dimensions and buffer lengths, and the row-major position of one lane
//! of one head of one token.
use vstd::prelude::*;

verus! {

/// Dimensions of grouped-query attention.
#[derive(Clone, Copy, Debug, PartialEq, Eq)]
pub struct Shape {
    pub tokens: usize,
    pub query_heads: usize,
    pub kv_heads: usize,
    pub head_dim: usize,
}

/// The dimensions are positive and the query heads split evenly over the
/// key/value heads.
pub open spec fn dims_ok(s: Shape) -> bool {
    s.tokens > 0 && s.query_heads > 0 && s.kv_heads > 0 && s.head_dim > 0 && s.query_heads
        % s.kv_heads == 0
}

/// Checks the shape and the lengths of the Q, K and V buffers.
pub fn validate_shape(s: Shape, q_len: usize, k_len: usize, v_len: usize) -> (r: Result<(), &'static str>)
    ensures
        !dims_ok(s) ==> r == Err::<(), &'static str>(
            "dimensions must be positive and query_heads divisible by kv_heads",
        ),
        dims_ok(s) && (s.tokens * s.query_heads * s.head_dim > usize::MAX || s.tokens * s.kv_heads
            * s.head_dim > usize::MAX) ==> r == Err::<(), &'static str>("attention shape overflow"),
        dims_ok(s) && s.tokens * s.query_heads * s.head_dim <= usize::MAX && s.tokens * s.kv_heads
            * s.head_dim <= usize::MAX ==> (r is Ok <==> (q_len == s.tokens * s.query_heads
            * s.head_dim && k_len == s.tokens * s.kv_heads * s.head_dim && v_len == k_len)),
        dims_ok(s) && s.tokens * s.query_heads * s.head_dim <= usize::MAX && s.tokens * s.kv_heads
            * s.head_dim <= usize::MAX && r is Err ==> r == Err::<(), &'static str>(
            "Q, K, or V shape mismatch",
        ),
{
    if s.tokens == 0 || s.query_heads == 0 || s.kv_heads == 0 || s.head_dim == 0 || s.query_heads
        % s.kv_heads != 0 {
        return Err("dimensions must be positive and query_heads divisible by kv_heads");
    }
    proof {
        lemma_product_grows(s.tokens as int, s.query_heads as int, s.head_dim as int);
        lemma_product_grows(s.tokens as int, s.kv_heads as int, s.head_dim as int);
    }
    let q_expected = match s.tokens.checked_mul(s.query_heads) {
        Some(x) => match x.checked_mul(s.head_dim) {
            Some(y) => y,
            None => {
                return Err("attention shape overflow");
            },
        },
        None => {
            return Err("attention shape overflow");
        },
    };
    let kv_expected = match s.tokens.checked_mul(s.kv_heads) {
        Some(x) => match x.checked_mul(s.head_dim) {
            Some(y) => y,
            None => {
                return Err("attention shape overflow");
            },
        },
        None => {
            return Err("attention shape overflow");
        },
    };
    if q_len != q_expected || k_len != kv_expected || v_len != k_len {
        return Err("Q, K, or V shape mismatch");
    }
    Ok(())
}

/// With positive factors, a partial product never exceeds the full one.
proof fn lemma_product_grows(a: int, b: int, c: int)
    requires
        a > 0,
        b > 0,
        c > 0,
    ensures
        a * b <= a * b * c,
{
    assert(a * b <= a * b * c) by (nonlinear_arith)
        requires
            a > 0,
            b > 0,
            c > 0,
    ;
}

/// The row-major position of `lane` of `head` of `token`, with `heads`
/// heads of `dim` lanes each per token.
pub open spec fn offset_spec(token: int, head: int, lane: int, heads: int, dim: int) -> int {
    (token * heads + head) * dim + lane
}

/// The position of `lane` of `head` of `token` in a buffer laid out as
/// `[tokens, heads, dim]`.
pub fn offset(token: usize, head: usize, lane: usize, heads: usize, dim: usize) -> (p: usize)
    requires
        token * heads + head <= usize::MAX,
        offset_spec(token as int, head as int, lane as int, heads as int, dim as int) <= usize::MAX,
    ensures
        p == offset_spec(token as int, head as int, lane as int, heads as int, dim as int),
{
    proof {
        let t = token as int;
        let h = head as int;
        let hs = heads as int;
        let d = dim as int;
        assert(t * hs <= t * hs + h && (t * hs + h) * d <= (t * hs + h) * d + lane) by (nonlinear_arith)
            requires
                t >= 0,
                h >= 0,
                hs >= 0,
                d >= 0,
                lane >= 0,
        ;
        if d > 0 {
            assert(t * hs + h <= (t * hs + h) * d) by (nonlinear_arith)
                requires
                    t >= 0,
                    h >= 0,
                    hs >= 0,
                    d > 0,
            ;
        }
    }
    (token * heads + head) * dim + lane
}

/// Inside a `[tokens, heads, dim]` buffer every in-range index has its own
/// position, and that position lies inside the buffer.
pub proof fn lemma_offset_in_buffer(
    t1: int,
    h1: int,
    l1: int,
    t2: int,
    h2: int,
    l2: int,
    tokens: int,
    heads: int,
    dim: int,
)
    requires
        0 <= t1 < tokens,
        0 <= h1 < heads,
        0 <= l1 < dim,
        0 <= t2 < tokens,
        0 <= h2 < heads,
        0 <= l2 < dim,
    ensures
        0 <= offset_spec(t1, h1, l1, heads, dim) < tokens * heads * dim,
        offset_spec(t1, h1, l1, heads, dim) == offset_spec(t2, h2, l2, heads, dim) ==> (t1 == t2
            && h1 == h2 && l1 == l2),
{
    let r1 = t1 * heads + h1;
    let r2 = t2 * heads + h2;
    assert(0 <= r1 < tokens * heads && 0 <= r2 < tokens * heads) by (nonlinear_arith)
        requires
            0 <= t1 < tokens,
            0 <= h1 < heads,
            0 <= t2 < tokens,
            0 <= h2 < heads,
            r1 == t1 * heads + h1,
            r2 == t2 * heads + h2,
    ;
    assert(0 <= r1 * dim + l1 < tokens * heads * dim) by (nonlinear_arith)
        requires
            0 <= r1 < tokens * heads,
            0 <= l1 < dim,
    ;
    if r1 * dim + l1 == r2 * dim + l2 {
        assert(r1 == r2 && l1 == l2) by (nonlinear_arith)
            requires
                r1 * dim + l1 == r2 * dim + l2,
                0 <= l1 < dim,
                0 <= l2 < dim,
                r1 >= 0,
                r2 >= 0,
        ;
        assert(t1 == t2 && h1 == h2) by (nonlinear_arith)
            requires
                t1 * heads + h1 == t2 * heads + h2,
                0 <= h1 < heads,
                0 <= h2 < heads,
                t1 >= 0,
                t2 >= 0,
        ;
    }
}

} // verus!
