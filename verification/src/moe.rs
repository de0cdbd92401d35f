//! Shapes of the sparse mixture-of-experts decoder: its integer
//! dimensions and storage budget, the layout of every parameter group
//! (trunk, router and experts), the parameter counts, token checks, the
//! training cursor over a corpus, and the xorshift generator.
use vstd::prelude::*;
use std::ops::Range;

pub use crate::decoder::ModelError;
use crate::decoder::{covered, lemma_tiles_order, named, span_view, take, tiles, ParameterSpan};
use crate::decoder::{lemma_xorshift_nonzero, xorshift};
use crate::fnv::{fnv1a, fnv1a_bytes};
use crate::text::{decimal, push_decimal_str, push_str};

verus! {

/// The integer dimensions of a mixture-of-experts decoder.
#[derive(Clone, Copy, Debug, PartialEq, Eq)]
pub struct Shape {
    pub vocab_size: usize,
    pub context: usize,
    pub width: usize,
    pub ff_width: usize,
    pub experts: usize,
}

impl Shape {
    /// The small teaching shape with `experts` experts.
    pub fn tiny(experts: usize) -> (s: Shape)
        ensures
            s == (Shape { vocab_size: 128, context: 16, width: 8, ff_width: 12, experts }),
    {
        Shape { vocab_size: 128, context: 16, width: 8, ff_width: 12, experts }
    }
}

/// The dimensions are positive and the vocabulary holds at least two tokens.
pub open spec fn dims_ok(s: Shape) -> bool {
    s.vocab_size >= 2 && s.context > 0 && s.width > 0 && s.ff_width > 0 && s.experts > 0
}

/// Storage the reference implementation needs, in elements: parameters
/// together with the attention, routing and logits caches.
pub open spec fn storage_budget(s: Shape) -> int {
    let v = s.vocab_size as int;
    let c = s.context as int;
    let d = s.width as int;
    let f = s.ff_width as int;
    let e = s.experts as int;
    v * d + c * d + d * d * 4 + d * e + (d * f * 2 + f + d) * e + v * d + c * c + c * v + c * e + c
        * f + d * 12 + e + v
}

/// The largest storage budget the reference implementation accepts.
pub const MAX_STORAGE: usize = 8_000_000;

/// Multiplies two dimensions, reporting overflow.
fn mul_dim(a: usize, b: usize) -> (r: Result<usize, ModelError>)
    ensures
        a * b <= usize::MAX ==> r == Ok::<usize, ModelError>((a * b) as usize),
        a * b > usize::MAX ==> r == Err::<usize, ModelError>(ModelError("dimension overflow")),
{
    match a.checked_mul(b) {
        Some(x) => Ok(x),
        None => Err(ModelError("dimension overflow")),
    }
}

/// Adds two storage sizes, reporting overflow.
fn add_dim(a: usize, b: usize) -> (r: Result<usize, ModelError>)
    ensures
        a + b <= usize::MAX ==> r == Ok::<usize, ModelError>((a + b) as usize),
        a + b > usize::MAX ==> r == Err::<usize, ModelError>(ModelError("dimension overflow")),
{
    match a.checked_add(b) {
        Some(x) => Ok(x),
        None => Err(ModelError("dimension overflow")),
    }
}

/// Every partial product and partial sum met while totalling the storage
/// budget is at most the budget.
proof fn lemma_budget_parts(s: Shape)
    requires
        dims_ok(s),
    ensures
        ({
            let v = s.vocab_size as int;
            let c = s.context as int;
            let d = s.width as int;
            let f = s.ff_width as int;
            let e = s.experts as int;
            &&& 0 <= v * d && 0 <= c * d && 0 <= d * d && d * d <= d * d * 4 && 0 <= d * e
            &&& 0 <= d * f && d * f <= d * f * 2 && d * f * 2 + f + d <= (d * f * 2 + f + d) * e
            &&& 0 <= c * c && 0 <= c * v && 0 <= c * e && 0 <= c * f
            &&& v * d + c * d + d * d * 4 + d * e + (d * f * 2 + f + d) * e + v * d + c * c + c * v
                + c * e + c * f + d * 12 + e + v == storage_budget(s)
        }),
{
    let v = s.vocab_size as int;
    let c = s.context as int;
    let d = s.width as int;
    let f = s.ff_width as int;
    let e = s.experts as int;
    assert(0 <= v * d && 0 <= c * d && 0 <= d * d && d * d <= d * d * 4 && 0 <= d * e) by (nonlinear_arith)
        requires
            v > 0,
            c > 0,
            d > 0,
            e > 0,
    ;
    assert(0 <= d * f && d * f <= d * f * 2 && d * f * 2 + f + d <= (d * f * 2 + f + d) * e) by (nonlinear_arith)
        requires
            d > 0,
            f > 0,
            e > 0,
    ;
    assert(0 <= c * c && 0 <= c * v && 0 <= c * e && 0 <= c * f) by (nonlinear_arith)
        requires
            c > 0,
            v > 0,
            e > 0,
            f > 0,
    ;
}

/// Checks the dimensions and bounds the storage of the model before
/// anything is allocated.
pub fn validate_shape(s: Shape) -> (r: Result<(), ModelError>)
    ensures
        !dims_ok(s) ==> r == Err::<(), ModelError>(
            ModelError("invalid model dimensions or routing settings"),
        ),
        dims_ok(s) && storage_budget(s) > usize::MAX ==> r == Err::<(), ModelError>(
            ModelError("dimension overflow"),
        ),
        dims_ok(s) && storage_budget(s) <= usize::MAX && storage_budget(s) > MAX_STORAGE ==> r
            == Err::<(), ModelError>(
            ModelError("reference model exceeds eight million storage elements"),
        ),
        dims_ok(s) && storage_budget(s) <= MAX_STORAGE ==> r is Ok,
{
    if s.vocab_size < 2 || s.context == 0 || s.width == 0 || s.ff_width == 0 || s.experts == 0 {
        return Err(ModelError("invalid model dimensions or routing settings"));
    }
    proof {
        lemma_budget_parts(s);
    }
    let d = s.width;
    let e = s.experts;
    let f = s.ff_width;
    let v = s.vocab_size;
    let c = s.context;
    let t1 = match mul_dim(v, d) { Ok(x) => x, Err(err) => { return Err(err); } };
    let t2 = match mul_dim(c, d) { Ok(x) => x, Err(err) => { return Err(err); } };
    let dd = match mul_dim(d, d) { Ok(x) => x, Err(err) => { return Err(err); } };
    let t3 = match mul_dim(dd, 4) { Ok(x) => x, Err(err) => { return Err(err); } };
    let t4 = match mul_dim(d, e) { Ok(x) => x, Err(err) => { return Err(err); } };
    let df = match mul_dim(d, f) { Ok(x) => x, Err(err) => { return Err(err); } };
    let df2 = match mul_dim(df, 2) { Ok(x) => x, Err(err) => { return Err(err); } };
    let g1 = match add_dim(df2, f) { Ok(x) => x, Err(err) => { return Err(err); } };
    let g2 = match add_dim(g1, d) { Ok(x) => x, Err(err) => { return Err(err); } };
    let t5 = match mul_dim(g2, e) { Ok(x) => x, Err(err) => { return Err(err); } };
    let t6 = match mul_dim(v, d) { Ok(x) => x, Err(err) => { return Err(err); } };
    let t7 = match mul_dim(c, c) { Ok(x) => x, Err(err) => { return Err(err); } };
    let t8 = match mul_dim(c, v) { Ok(x) => x, Err(err) => { return Err(err); } };
    let t9 = match mul_dim(c, e) { Ok(x) => x, Err(err) => { return Err(err); } };
    let t10 = match mul_dim(c, f) { Ok(x) => x, Err(err) => { return Err(err); } };
    let t11 = match mul_dim(d, 12) { Ok(x) => x, Err(err) => { return Err(err); } };
    let mut budget: usize = 0;
    budget = match add_dim(budget, t1) { Ok(x) => x, Err(err) => { return Err(err); } };
    budget = match add_dim(budget, t2) { Ok(x) => x, Err(err) => { return Err(err); } };
    budget = match add_dim(budget, t3) { Ok(x) => x, Err(err) => { return Err(err); } };
    budget = match add_dim(budget, t4) { Ok(x) => x, Err(err) => { return Err(err); } };
    budget = match add_dim(budget, t5) { Ok(x) => x, Err(err) => { return Err(err); } };
    budget = match add_dim(budget, t6) { Ok(x) => x, Err(err) => { return Err(err); } };
    budget = match add_dim(budget, t7) { Ok(x) => x, Err(err) => { return Err(err); } };
    budget = match add_dim(budget, t8) { Ok(x) => x, Err(err) => { return Err(err); } };
    budget = match add_dim(budget, t9) { Ok(x) => x, Err(err) => { return Err(err); } };
    budget = match add_dim(budget, t10) { Ok(x) => x, Err(err) => { return Err(err); } };
    budget = match add_dim(budget, t11) { Ok(x) => x, Err(err) => { return Err(err); } };
    budget = match add_dim(budget, e) { Ok(x) => x, Err(err) => { return Err(err); } };
    budget = match add_dim(budget, v) { Ok(x) => x, Err(err) => { return Err(err); } };
    if budget > MAX_STORAGE {
        return Err(ModelError("reference model exceeds eight million storage elements"));
    }
    Ok(())
}

/// Where one expert's feed-forward parameters sit.
#[derive(Debug)]
pub struct ExpertLayout {
    pub w1: Range<usize>,
    pub b1: Range<usize>,
    pub w2: Range<usize>,
    pub b2: Range<usize>,
}

/// Where every parameter group sits in the flat parameter buffer.
#[derive(Debug)]
pub struct Layout {
    pub norm1: Range<usize>,
    pub norm2: Range<usize>,
    pub norm_final: Range<usize>,
    pub token: Range<usize>,
    pub position: Range<usize>,
    pub qkv_w: Range<usize>,
    pub qkv_b: Range<usize>,
    pub attention_w: Range<usize>,
    pub attention_b: Range<usize>,
    pub router_w: Range<usize>,
    pub router_b: Range<usize>,
    pub experts: Vec<ExpertLayout>,
    pub output_w: Range<usize>,
    pub output_b: Range<usize>,
    pub total: usize,
}

/// Parameters of one expert: two weight matrices and two bias vectors.
pub open spec fn expert_params(s: Shape) -> int {
    let d = s.width as int;
    let f = s.ff_width as int;
    d * f + f + f * d + d
}

/// Router parameters: none with a single expert, else a weight matrix and
/// a bias vector.
pub open spec fn router_params(s: Shape) -> int {
    if s.experts == 1 {
        0
    } else {
        (s.width as int) * (s.experts as int) + s.experts as int
    }
}

/// Parameters of the shared trunk: embeddings, three layer norms and the
/// attention block.
pub open spec fn trunk_params(s: Shape) -> int {
    let v = s.vocab_size as int;
    let d = s.width as int;
    v * d + (s.context as int) * d + 6 * d + d * 3 * d + 3 * d + d * d + d
}

/// Every trainable parameter of the model.
pub open spec fn total_params(s: Shape) -> int {
    let v = s.vocab_size as int;
    let d = s.width as int;
    trunk_params(s) + router_params(s) + (s.experts as int) * expert_params(s) + d * v + v
}

/// Parameters that one token uses: all but the experts it is not routed to.
pub open spec fn active_params(s: Shape) -> int {
    total_params(s) - (s.experts as int - 1) * expert_params(s)
}

/// The name `expert.{i}.{suffix}`.
pub open spec fn expert_name(i: int, suffix: Seq<char>) -> Seq<char> {
    "expert."@ + decimal(i as nat) + "."@ + suffix
}

/// The spans of expert `i`, in buffer order.
pub open spec fn expert_spans(i: int, x: ExpertLayout) -> Seq<(Seq<char>, int, int)> {
    seq![
        named(expert_name(i, "ff1_weight"@), x.w1),
        named(expert_name(i, "ff1_bias"@), x.b1),
        named(expert_name(i, "ff2_weight"@), x.w2),
        named(expert_name(i, "ff2_bias"@), x.b2),
    ]
}

/// The spans of the first `n` experts, in order.
pub open spec fn experts_spans(experts: Seq<ExpertLayout>, n: int) -> Seq<(Seq<char>, int, int)>
    decreases n,
{
    if n <= 0 {
        Seq::empty()
    } else {
        experts_spans(experts, n - 1) + expert_spans(n - 1, experts[n - 1])
    }
}

/// The trunk and router spans in buffer order.
pub open spec fn head_spans(x: Layout) -> Seq<(Seq<char>, int, int)> {
    seq![
        named("token_embedding"@, x.token),
        named("position_embedding"@, x.position),
        named("norm1"@, x.norm1),
        named("norm2"@, x.norm2),
        named("norm_final"@, x.norm_final),
        named("qkv_weight"@, x.qkv_w),
        named("qkv_bias"@, x.qkv_b),
        named("attention_output_weight"@, x.attention_w),
        named("attention_output_bias"@, x.attention_b),
        named("router_weight"@, x.router_w),
        named("router_bias"@, x.router_b),
    ]
}

/// The output spans.
pub open spec fn tail_spans(x: Layout) -> Seq<(Seq<char>, int, int)> {
    seq![named("output_weight"@, x.output_w), named("output_bias"@, x.output_b)]
}

/// Every named group in buffer order.
pub open spec fn buffer_spans(x: Layout) -> Seq<(Seq<char>, int, int)> {
    head_spans(x) + experts_spans(x.experts@, x.experts@.len() as int) + tail_spans(x)
}

/// Every named group in the order `parameter_spans` lists them: the three
/// layer norms first, then the rest in buffer order.
pub open spec fn listed_spans(x: Layout) -> Seq<(Seq<char>, int, int)> {
    let h = head_spans(x);
    seq![h[2], h[3], h[4], h[0], h[1]] + h.skip(5) + experts_spans(x.experts@, x.experts@.len() as int)
        + tail_spans(x)
}

/// The length of a range.
pub open spec fn range_len(r: Range<usize>) -> int {
    r.end - r.start
}

/// Each group of `x` has the length that shape `s` gives it.
pub open spec fn lengths_of(x: Layout, s: Shape) -> bool {
    let v = s.vocab_size as int;
    let d = s.width as int;
    let f = s.ff_width as int;
    let e = s.experts as int;
    &&& range_len(x.token) == v * d
    &&& range_len(x.position) == (s.context as int) * d
    &&& range_len(x.norm1) == 2 * d
    &&& range_len(x.norm2) == 2 * d
    &&& range_len(x.norm_final) == 2 * d
    &&& range_len(x.qkv_w) == d * 3 * d
    &&& range_len(x.qkv_b) == 3 * d
    &&& range_len(x.attention_w) == d * d
    &&& range_len(x.attention_b) == d
    &&& range_len(x.router_w) == (if e == 1 { 0 } else { d * e })
    &&& range_len(x.router_b) == (if e == 1 { 0 } else { e })
    &&& x.experts@.len() == e
    &&& forall|i: int|
        0 <= i < e ==> {
            &&& range_len((#[trigger] x.experts@[i]).w1) == d * f
            &&& range_len(x.experts@[i].b1) == f
            &&& range_len(x.experts@[i].w2) == f * d
            &&& range_len(x.experts@[i].b2) == d
        }
    &&& range_len(x.output_w) == d * v
    &&& range_len(x.output_b) == v
}

/// The parameter count is within the storage budget.
pub proof fn lemma_total_within_budget(s: Shape)
    requires
        dims_ok(s),
    ensures
        0 <= trunk_params(s),
        0 <= router_params(s),
        0 <= expert_params(s),
        total_params(s) <= storage_budget(s),
        active_params(s) >= 0,
{
    let v = s.vocab_size as int;
    let c = s.context as int;
    let d = s.width as int;
    let f = s.ff_width as int;
    let e = s.experts as int;
    lemma_budget_parts(s);
    assert(d * 3 * d == 3 * (d * d) && d * d * 4 == 4 * (d * d) && f * d == d * f && d * v == v * d) by (nonlinear_arith);
    assert(e * (d * f + f + f * d + d) == (d * f * 2 + f + d) * e) by (nonlinear_arith)
        requires
            f * d == d * f,
    ;
    assert(0 <= d * d && 0 <= d * f && 0 <= d * e && 0 <= v * d && 0 <= c * d) by (nonlinear_arith)
        requires
            d > 0,
            f > 0,
            e > 0,
            v > 0,
            c > 0,
    ;
    assert((e - 1) * expert_params(s) <= e * expert_params(s)) by (nonlinear_arith)
        requires
            e >= 1,
            expert_params(s) >= 0,
    ;
}

impl Layout {
    /// Lays out every parameter group of shape `s`, from position zero
    /// with nothing between them.
    pub fn new(s: Shape) -> (x: Layout)
        requires
            dims_ok(s),
            storage_budget(s) <= usize::MAX,
        ensures
            tiles(buffer_spans(x), 0, x.total as int),
            lengths_of(x, s),
            x.total == total_params(s),
    {
        proof {
            lemma_total_within_budget(s);
        }
        let v = s.vocab_size;
        let d = s.width;
        let f = s.ff_width;
        let e = s.experts;
        proof {
            let di = d as int;
            let fi = f as int;
            assert(di * fi >= 0 && fi * di == di * fi && di * 3 * di >= 0 && di * di >= 0) by (nonlinear_arith)
                requires
                    di > 0,
                    fi > 0,
            ;
        }
        let mut p: usize = 0;
        let ghost mut spans: Seq<(Seq<char>, int, int)> = Seq::empty();
        let token = take(&mut p, v * d);
        proof { spans = spans.push(named("token_embedding"@, token)); }
        let position = take(&mut p, s.context * d);
        proof { spans = spans.push(named("position_embedding"@, position)); }
        let norm1 = take(&mut p, 2 * d);
        proof { spans = spans.push(named("norm1"@, norm1)); }
        let norm2 = take(&mut p, 2 * d);
        proof { spans = spans.push(named("norm2"@, norm2)); }
        let norm_final = take(&mut p, 2 * d);
        proof { spans = spans.push(named("norm_final"@, norm_final)); }
        let qkv_w = take(&mut p, d * 3 * d);
        proof { spans = spans.push(named("qkv_weight"@, qkv_w)); }
        let qkv_b = take(&mut p, 3 * d);
        proof { spans = spans.push(named("qkv_bias"@, qkv_b)); }
        let attention_w = take(&mut p, d * d);
        proof { spans = spans.push(named("attention_output_weight"@, attention_w)); }
        let attention_b = take(&mut p, d);
        proof { spans = spans.push(named("attention_output_bias"@, attention_b)); }
        let router_w = take(&mut p, if e == 1 { 0 } else { d * e });
        proof { spans = spans.push(named("router_weight"@, router_w)); }
        let router_b = take(&mut p, if e == 1 { 0 } else { e });
        proof { spans = spans.push(named("router_bias"@, router_b)); }
        let ghost head = spans;
        assert(tiles(head, 0, p as int)) by {
            reveal_with_fuel(tiles, 12);
        }
        assert(p == trunk_params(s) + router_params(s));
        assert(p == trunk_params(s) + router_params(s) + 0 * expert_params(s));
        let mut experts: Vec<ExpertLayout> = Vec::new();
        let mut i: usize = 0;
        assert(head + experts_spans(experts@, 0) =~= head);
        while i < e
            invariant
                dims_ok(s),
                0 <= expert_params(s),
                total_params(s) <= usize::MAX,
                v == s.vocab_size,
                d == s.width,
                f == s.ff_width,
                e == s.experts,
                (d as int) * (f as int) >= 0,
                (f as int) * (d as int) == (d as int) * (f as int),
                i <= e,
                experts@.len() == i,
                p == trunk_params(s) + router_params(s) + (i as int) * expert_params(s),
                tiles(head + experts_spans(experts@, i as int), 0, p as int),
                forall|k: int|
                    0 <= k < i ==> {
                        &&& range_len((#[trigger] experts@[k]).w1) == (d as int) * (f as int)
                        &&& range_len(experts@[k].b1) == f
                        &&& range_len(experts@[k].w2) == (f as int) * (d as int)
                        &&& range_len(experts@[k].b2) == d
                    },
            decreases e - i,
        {
            proof {
                assert((i as int) * expert_params(s) + expert_params(s) <= (e as int) * expert_params(s)) by (nonlinear_arith)
                    requires
                        i < e,
                        expert_params(s) >= 0,
                ;
                assert((i as int + 1) * expert_params(s) == (i as int) * expert_params(s) + expert_params(s)) by (nonlinear_arith);
            }
            let ghost before = experts@;
            let w1 = take(&mut p, d * f);
            let b1 = take(&mut p, f);
            let w2 = take(&mut p, f * d);
            let b2 = take(&mut p, d);
            let ghost one = ExpertLayout { w1, b1, w2, b2 };
            experts.push(ExpertLayout { w1, b1, w2, b2 });
            proof {
                assert(experts@ =~= before.push(one));
                assert(experts_spans(experts@, i as int) =~= experts_spans(before, i as int)) by {
                    lemma_experts_spans_prefix(before, experts@, i as int);
                }
                let block = expert_spans(i as int, one);
                assert(tiles(block, w1.start as int, b2.end as int)) by {
                    reveal_with_fuel(tiles, 5);
                }
                crate::decoder::lemma_tiles_append(
                    head + experts_spans(before, i as int),
                    block,
                    0,
                    w1.start as int,
                    b2.end as int,
                );
                assert(head + experts_spans(experts@, i + 1) =~= head + experts_spans(before, i as int) + block);
            }
            i += 1;
        }
        let ghost middle = head + experts_spans(experts@, e as int);
        let output_w = take(&mut p, d * v);
        let output_b = take(&mut p, v);
        let x = Layout {
            norm1,
            norm2,
            norm_final,
            token,
            position,
            qkv_w,
            qkv_b,
            attention_w,
            attention_b,
            router_w,
            router_b,
            experts,
            output_w,
            output_b,
            total: p,
        };
        proof {
            assert(head_spans(x) =~= head);
            let t = tail_spans(x);
            assert(tiles(t, output_w.start as int, p as int)) by {
                reveal_with_fuel(tiles, 3);
            }
            crate::decoder::lemma_tiles_append(middle, t, 0, output_w.start as int, p as int);
            assert(buffer_spans(x) =~= middle + t);
        }
        x
    }
}

/// Expert spans of a prefix depend only on that prefix.
proof fn lemma_experts_spans_prefix(a: Seq<ExpertLayout>, b: Seq<ExpertLayout>, n: int)
    requires
        0 <= n <= a.len(),
        n <= b.len(),
        forall|k: int| 0 <= k < n ==> a[k] == b[k],
    ensures
        experts_spans(a, n) == experts_spans(b, n),
    decreases n,
{
    if n > 0 {
        lemma_experts_spans_prefix(a, b, n - 1);
    }
}

/// The names of the groups outside the experts, in the order they are
/// listed.
pub open spec fn fixed_names() -> Seq<Seq<char>> {
    seq![
        "norm1"@,
        "norm2"@,
        "norm_final"@,
        "token_embedding"@,
        "position_embedding"@,
        "qkv_weight"@,
        "qkv_bias"@,
        "attention_output_weight"@,
        "attention_output_bias"@,
        "router_weight"@,
        "router_bias"@,
        "output_weight"@,
        "output_bias"@,
    ]
}

/// The suffixes of an expert's groups, in buffer order.
pub open spec fn expert_suffixes() -> Seq<Seq<char>> {
    seq!["ff1_weight"@, "ff1_bias"@, "ff2_weight"@, "ff2_bias"@]
}

/// The fixed names differ from each other and none starts as an expert's
/// name does; the expert suffixes differ from each other.
proof fn lemma_fixed_names_distinct()
    ensures
        forall|a: int, b: int|
            0 <= a < 13 && 0 <= b < 13 && a != b ==> #[trigger] fixed_names()[a] != #[trigger] fixed_names()[b],
        forall|a: int| 0 <= a < 13 ==> (#[trigger] fixed_names()[a]).len() > 0 && fixed_names()[a][0] != 'e',
        forall|a: int, b: int|
            0 <= a < 4 && 0 <= b < 4 && a != b ==> #[trigger] expert_suffixes()[a] != #[trigger] expert_suffixes()[b],
{
    reveal_strlit("norm1");
    reveal_strlit("norm2");
    reveal_strlit("norm_final");
    reveal_strlit("token_embedding");
    reveal_strlit("position_embedding");
    reveal_strlit("qkv_weight");
    reveal_strlit("qkv_bias");
    reveal_strlit("attention_output_weight");
    reveal_strlit("attention_output_bias");
    reveal_strlit("router_weight");
    reveal_strlit("router_bias");
    reveal_strlit("output_weight");
    reveal_strlit("output_bias");
    reveal_strlit("ff1_weight");
    reveal_strlit("ff1_bias");
    reveal_strlit("ff2_weight");
    reveal_strlit("ff2_bias");
    let l = fixed_names();
    assert forall|a: int, b: int| 0 <= a < 13 && 0 <= b < 13 && a != b implies #[trigger] l[a] != #[trigger] l[b] by {
        if l[a] == l[b] {
            assert(l[a].len() == l[b].len());
            assert(l[a][0] == l[b][0]);
            if l[a].len() == 5 {
                assert(l[a][4] == l[b][4]);
            }
        }
    }
    let x = expert_suffixes();
    assert forall|a: int, b: int| 0 <= a < 4 && 0 <= b < 4 && a != b implies #[trigger] x[a] != #[trigger] x[b] by {
        if x[a] == x[b] {
            assert(x[a].len() == x[b].len());
            assert(x[a][2] == x[b][2]);
        }
    }
}

/// An expert's group name determines the expert and the suffix.
proof fn lemma_expert_name_injective(i: int, a: Seq<char>, j: int, b: Seq<char>)
    requires
        i >= 0,
        j >= 0,
        expert_name(i, a) == expert_name(j, b),
    ensures
        i == j,
        a == b,
{
    let di = decimal(i as nat);
    let dj = decimal(j as nat);
    let li = di.len() as int;
    let lj = dj.len() as int;
    crate::text::lemma_decimal(i as nat);
    crate::text::lemma_decimal(j as nat);
    reveal_strlit("expert.");
    reveal_strlit(".");
    let n = expert_name(i, a);
    let m = expert_name(j, b);
    assert(n.len() == m.len());
    if li < lj {
        assert(n[7 + li] == '.');
        assert(m[7 + li] == dj[li]);
        assert(crate::text::is_digit(dj[li]));
    }
    if lj < li {
        assert(m[7 + lj] == '.');
        assert(n[7 + lj] == di[lj]);
        assert(crate::text::is_digit(di[lj]));
    }
    assert(di.len() == dj.len());
    assert(di =~= n.subrange(7, 7 + li));
    assert(dj =~= m.subrange(7, 7 + lj));
    assert(a =~= n.skip(8 + li));
    assert(b =~= m.skip(8 + lj));
}

/// The spans of the first `n` experts are four per expert, in expert order.
proof fn lemma_experts_spans_shape(ex: Seq<ExpertLayout>, n: int)
    requires
        0 <= n <= ex.len(),
    ensures
        experts_spans(ex, n).len() == 4 * n,
        forall|q: int, r: int|
            0 <= q < n && 0 <= r < 4 ==> #[trigger] experts_spans(ex, n)[4 * q + r] == expert_spans(
                q,
                ex[q],
            )[r],
    decreases n,
{
    if n > 0 {
        lemma_experts_spans_shape(ex, n - 1);
        let front = experts_spans(ex, n - 1);
        let all = experts_spans(ex, n);
        assert forall|q: int, r: int| 0 <= q < n && 0 <= r < 4 implies #[trigger] all[4 * q + r]
            == expert_spans(q, ex[q])[r] by {
            if q < n - 1 {
                assert(all[4 * q + r] == front[4 * q + r]);
            }
        }
    }
}

/// Where listed group `k` sits in buffer order: the three layer norms are
/// listed first.
spec fn buffer_index(k: int) -> int {
    if k < 3 {
        k + 2
    } else if k < 5 {
        k - 3
    } else {
        k
    }
}

/// Where buffer group `k` is listed.
spec fn listed_index(k: int) -> int {
    if k < 2 {
        k + 3
    } else if k < 5 {
        k - 2
    } else {
        k
    }
}

/// Whether listed group `k` belongs to an expert, with `e` experts.
spec fn is_expert_slot(e: int, k: int) -> bool {
    11 <= k < 11 + 4 * e
}

/// The position among the fixed names of listed group `k` that is not an
/// expert's.
spec fn fixed_slot(e: int, k: int) -> int {
    if k < 11 {
        k
    } else {
        k - 4 * e
    }
}

/// Listed group `r` (in buffer order) of expert `k`.
pub open spec fn expert_group(x: Layout, k: int, r: int) -> (Seq<char>, int, int) {
    listed_spans(x)[11 + 4 * k + r]
}

/// The listed spans are the buffer spans in another order, and each is
/// named by a fixed name or by its expert and suffix.
proof fn lemma_listed_structure(x: Layout, s: Shape)
    requires
        lengths_of(x, s),
    ensures
        listed_spans(x).len() == 13 + 4 * s.experts,
        buffer_spans(x).len() == 13 + 4 * s.experts,
        forall|k: int|
            0 <= k < listed_spans(x).len() ==> #[trigger] listed_spans(x)[k] == buffer_spans(x)[buffer_index(k)],
        forall|k: int|
            0 <= k < listed_spans(x).len() && is_expert_slot(s.experts as int, k) ==> {
                &&& 0 <= (k - 11) % 4 < 4
                &&& 0 <= (k - 11) / 4 < s.experts
                &&& k == 11 + 4 * ((k - 11) / 4) + (k - 11) % 4
                &&& (#[trigger] listed_spans(x)[k]).0 == expert_name((k - 11) / 4, expert_suffixes()[(k - 11) % 4])
            },
        forall|k: int|
            0 <= k < listed_spans(x).len() && !is_expert_slot(s.experts as int, k) ==> {
                &&& 0 <= fixed_slot(s.experts as int, k) < 13
                &&& (#[trigger] listed_spans(x)[k]).0 == fixed_names()[fixed_slot(s.experts as int, k)]
            },
{
    let e = s.experts as int;
    let ex = experts_spans(x.experts@, e);
    let h = head_spans(x);
    let t = tail_spans(x);
    let l = listed_spans(x);
    let b = buffer_spans(x);
    lemma_experts_spans_shape(x.experts@, e);
    let front = seq![h[2], h[3], h[4], h[0], h[1]] + h.skip(5);
    assert(l == front + ex + t);
    assert(front.len() == 11);
    assert forall|k: int| 0 <= k < l.len() implies #[trigger] l[k] == b[buffer_index(k)] by {
        if k < 11 {
            assert(l[k] == front[k]);
            assert(b[buffer_index(k)] == h[buffer_index(k)]);
        } else if k < 11 + 4 * e {
            assert(l[k] == ex[k - 11]);
            assert(b[k] == ex[k - 11]);
        } else {
            assert(l[k] == t[k - 11 - 4 * e]);
            assert(b[k] == t[k - 11 - 4 * e]);
        }
    }
    assert forall|k: int| 0 <= k < l.len() && is_expert_slot(e, k) implies {
        &&& 0 <= (k - 11) % 4 < 4
        &&& 0 <= (k - 11) / 4 < s.experts
        &&& k == 11 + 4 * ((k - 11) / 4) + (k - 11) % 4
        &&& (#[trigger] l[k]).0 == expert_name((k - 11) / 4, expert_suffixes()[(k - 11) % 4])
    } by {
        let q = (k - 11) / 4;
        let r = (k - 11) % 4;
        assert(k - 11 == 4 * q + r && 0 <= r < 4 && 0 <= q) by (nonlinear_arith)
            requires
                k >= 11,
                q == (k - 11) / 4,
                r == (k - 11) % 4,
        ;
        assert(q < e) by (nonlinear_arith)
            requires
                k - 11 == 4 * q + r,
                0 <= r < 4,
                k < 11 + 4 * e,
        ;
        assert(l[k] == ex[4 * q + r]);
        assert(ex[4 * q + r] == expert_spans(q, x.experts@[q])[r]);
    }
    assert forall|k: int| 0 <= k < l.len() && !is_expert_slot(e, k) implies {
        &&& 0 <= fixed_slot(e, k) < 13
        &&& (#[trigger] l[k]).0 == fixed_names()[fixed_slot(e, k)]
    } by {
        if k < 11 {
            assert(l[k] == front[k]);
        } else {
            assert(l[k] == t[k - 11 - 4 * e]);
        }
    }
}

/// The listed parameter spans of a laid-out model partition its parameter
/// buffer: there are `13 + 4 * experts` of them, no two share a name, no
/// two overlap, together they cover `0..total`, and the router and expert
/// weight groups have the lengths the shape gives them.
pub proof fn lemma_listed_spans_partition(x: Layout, s: Shape)
    requires
        tiles(buffer_spans(x), 0, x.total as int),
        lengths_of(x, s),
    ensures
        listed_spans(x).len() == 13 + 4 * s.experts,
        forall|i: int, j: int|
            0 <= i < listed_spans(x).len() && 0 <= j < listed_spans(x).len() && i != j ==> (
            #[trigger] listed_spans(x)[i]).0 != (#[trigger] listed_spans(x)[j]).0 && (listed_spans(
                x,
            )[i].2 <= listed_spans(x)[j].1 || listed_spans(x)[j].2 <= listed_spans(x)[i].1),
        forall|i: int|
            0 <= i < listed_spans(x).len() ==> 0 <= (#[trigger] listed_spans(x)[i]).1 <= listed_spans(
                x,
            )[i].2 <= x.total,
        forall|p: int| 0 <= p < x.total ==> #[trigger] covered(listed_spans(x), p),
        listed_spans(x)[9].0 == "router_weight"@,
        listed_spans(x)[9].2 - listed_spans(x)[9].1 == (if s.experts == 1 {
            0
        } else {
            s.width * s.experts
        }),
        listed_spans(x)[10].0 == "router_bias"@,
        listed_spans(x)[10].2 - listed_spans(x)[10].1 == (if s.experts == 1 {
            0
        } else {
            s.experts as int
        }),
        forall|k: int|
            0 <= k < s.experts ==> {
                &&& (#[trigger] expert_group(x, k, 0)).0 == expert_name(k, "ff1_weight"@)
                &&& expert_group(x, k, 0).2 - expert_group(x, k, 0).1 == s.width * s.ff_width
                &&& expert_group(x, k, 2).0 == expert_name(k, "ff2_weight"@)
                &&& expert_group(x, k, 2).2 - expert_group(x, k, 2).1 == s.ff_width * s.width
            },
{
    let e = s.experts as int;
    let l = listed_spans(x);
    let b = buffer_spans(x);
    let ex = experts_spans(x.experts@, e);
    lemma_listed_structure(x, s);
    lemma_tiles_order(b, 0, x.total as int);
    lemma_experts_spans_shape(x.experts@, e);
    lemma_fixed_names_distinct();
    reveal_strlit("expert.");
    assert forall|i: int| 0 <= i < l.len() implies 0 <= (#[trigger] l[i]).1 <= l[i].2 <= x.total by {
        assert(l[i] == b[buffer_index(i)]);
    }
    assert forall|i: int, j: int| 0 <= i < l.len() && 0 <= j < l.len() && i != j implies (#[trigger] l[i]).0
        != (#[trigger] l[j]).0 && (l[i].2 <= l[j].1 || l[j].2 <= l[i].1) by {
        assert(l[i] == b[buffer_index(i)]);
        assert(l[j] == b[buffer_index(j)]);
        if buffer_index(i) < buffer_index(j) {
            assert(b[buffer_index(i)].2 <= b[buffer_index(j)].1);
        } else {
            assert(b[buffer_index(j)].2 <= b[buffer_index(i)].1);
        }
        let ei = is_expert_slot(e, i);
        let ej = is_expert_slot(e, j);
        if ei && ej {
            if l[i].0 == l[j].0 {
                lemma_expert_name_injective(
                    (i - 11) / 4,
                    expert_suffixes()[(i - 11) % 4],
                    (j - 11) / 4,
                    expert_suffixes()[(j - 11) % 4],
                );
            }
        } else if ei && !ej {
            assert(l[i].0[0] == 'e');
            assert(fixed_names()[fixed_slot(e, j)][0] != 'e');
        } else if !ei && ej {
            assert(l[j].0[0] == 'e');
            assert(fixed_names()[fixed_slot(e, i)][0] != 'e');
        } else {
            assert(fixed_slot(e, i) != fixed_slot(e, j));
        }
    }
    assert forall|p: int| 0 <= p < x.total implies #[trigger] covered(l, p) by {
        assert(covered(b, p));
        let m = choose|m: int| 0 <= m < b.len() && (#[trigger] b[m]).1 <= p < b[m].2;
        let k = listed_index(m);
        assert(buffer_index(k) == m);
        assert(l[k] == b[m]);
    }
    assert(l[9] == b[9]);
    assert(l[10] == b[10]);
    assert forall|k: int| 0 <= k < s.experts implies {
        &&& (#[trigger] expert_group(x, k, 0)).0 == expert_name(k, "ff1_weight"@)
        &&& expert_group(x, k, 0).2 - expert_group(x, k, 0).1 == s.width * s.ff_width
        &&& expert_group(x, k, 2).0 == expert_name(k, "ff2_weight"@)
        &&& expert_group(x, k, 2).2 - expert_group(x, k, 2).1 == s.ff_width * s.width
    } by {
        assert(11 + 4 * k + 0 == 11 + 4 * k);
        assert(l[11 + 4 * k] == b[11 + 4 * k]);
        assert(l[11 + 4 * k + 2] == b[11 + 4 * k + 2]);
        assert(b[11 + 4 * k] == ex[4 * k + 0]);
        assert(b[11 + 4 * k + 2] == ex[4 * k + 2]);
        assert(ex[4 * k + 0] == expert_spans(k, x.experts@[k])[0]);
        assert(ex[4 * k + 2] == expert_spans(k, x.experts@[k])[2]);
    }
}

/// A span named `name` covering `r`.
fn span(name: &str, r: &Range<usize>) -> (sp: ParameterSpan)
    ensures
        span_view(sp) == named(name@, *r),
{
    ParameterSpan { name: name.to_owned(), start: r.start, end: r.end }
}

/// Appends the span of one group of expert `i`.
fn push_expert_span(spans: &mut Vec<ParameterSpan>, i: usize, suffix: &str, r: &Range<usize>)
    ensures
        final(spans)@.len() == old(spans)@.len() + 1,
        forall|k: int| 0 <= k < old(spans)@.len() ==> #[trigger] final(spans)@[k] == old(spans)@[k],
        span_view(final(spans)@[old(spans)@.len() as int]) == named(expert_name(i as int, suffix@), *r),
{
    let mut name = "expert.".to_owned();
    push_decimal_str(&mut name, i as u64);
    push_str(&mut name, ".");
    push_str(&mut name, suffix);
    assert(name@ =~= expert_name(i as int, suffix@));
    spans.push(ParameterSpan { name, start: r.start, end: r.end });
}

impl Layout {
    /// Every named parameter group: the three layer norms, then the other
    /// groups in buffer order.
    pub fn parameter_spans(&self) -> (spans: Vec<ParameterSpan>)
        requires
            self.experts@.len() <= u64::MAX,
        ensures
            spans@.map_values(|sp: ParameterSpan| span_view(sp)) == listed_spans(*self),
    {
        let mut spans: Vec<ParameterSpan> = Vec::new();
        spans.push(span("norm1", &self.norm1));
        spans.push(span("norm2", &self.norm2));
        spans.push(span("norm_final", &self.norm_final));
        spans.push(span("token_embedding", &self.token));
        spans.push(span("position_embedding", &self.position));
        spans.push(span("qkv_weight", &self.qkv_w));
        spans.push(span("qkv_bias", &self.qkv_b));
        spans.push(span("attention_output_weight", &self.attention_w));
        spans.push(span("attention_output_bias", &self.attention_b));
        spans.push(span("router_weight", &self.router_w));
        spans.push(span("router_bias", &self.router_b));
        let ghost h = head_spans(*self);
        let ghost first = seq![h[2], h[3], h[4], h[0], h[1]] + h.skip(5);
        assert(spans@.map_values(|sp: ParameterSpan| span_view(sp)) =~= first + experts_spans(self.experts@, 0));
        let mut i: usize = 0;
        while i < self.experts.len()
            invariant
                i <= self.experts@.len(),
                self.experts@.len() <= u64::MAX,
                h == head_spans(*self),
                first == seq![h[2], h[3], h[4], h[0], h[1]] + h.skip(5),
                spans@.map_values(|sp: ParameterSpan| span_view(sp)) == first + experts_spans(
                    self.experts@,
                    i as int,
                ),
            decreases self.experts.len() - i,
        {
            let x = &self.experts[i];
            let ghost before = spans@;
            push_expert_span(&mut spans, i, "ff1_weight", &x.w1);
            push_expert_span(&mut spans, i, "ff1_bias", &x.b1);
            push_expert_span(&mut spans, i, "ff2_weight", &x.w2);
            push_expert_span(&mut spans, i, "ff2_bias", &x.b2);
            proof {
                assert(spans@.map_values(|sp: ParameterSpan| span_view(sp)) =~= before.map_values(
                    |sp: ParameterSpan| span_view(sp),
                ) + expert_spans(i as int, self.experts@[i as int]));
            }
            i += 1;
        }
        spans.push(span("output_weight", &self.output_w));
        spans.push(span("output_bias", &self.output_b));
        assert(spans@.map_values(|sp: ParameterSpan| span_view(sp)) =~= listed_spans(*self));
        spans
    }

    /// The number of parameters.
    pub fn total_parameters(&self) -> (n: usize)
        ensures
            n == self.total,
    {
        self.total
    }

    /// The parameters one token uses: all but those of the experts it is
    /// not routed to.
    pub fn active_parameters_per_token(&self, s: Shape) -> (n: usize)
        requires
            dims_ok(s),
            storage_budget(s) <= usize::MAX,
            self.total == total_params(s),
        ensures
            n == active_params(s),
    {
        proof {
            lemma_total_within_budget(s);
            let d = s.width as int;
            let f = s.ff_width as int;
            let e = s.experts as int;
            assert(0 <= d * f && f * d == d * f) by (nonlinear_arith)
                requires
                    d > 0,
                    f > 0,
            ;
            assert((e - 1) * expert_params(s) <= e * expert_params(s) && expert_params(s) <= e
                * expert_params(s)) by (nonlinear_arith)
                requires
                    e >= 1,
                    expert_params(s) >= 0,
            ;
            assert(e * expert_params(s) <= total_params(s)) by (nonlinear_arith)
                requires
                    total_params(s) == trunk_params(s) + router_params(s) + e * expert_params(s) + d
                        * (s.vocab_size as int) + s.vocab_size,
                    trunk_params(s) >= 0,
                    router_params(s) >= 0,
                    d * (s.vocab_size as int) >= 0,
            ;
        }
        let one_expert = s.width * s.ff_width + s.ff_width + s.ff_width * s.width + s.width;
        self.total - (s.experts - 1) * one_expert
    }
}

/// A token sequence the model accepts: one to `context` tokens, each a
/// vocabulary id.
pub open spec fn tokens_ok(s: Shape, tokens: Seq<usize>) -> bool {
    &&& 1 <= tokens.len() <= s.context
    &&& forall|i: int| 0 <= i < tokens.len() ==> #[trigger] tokens[i] < s.vocab_size
}

/// Checks that `tokens` is a sequence the model accepts.
pub fn validate_tokens(s: Shape, tokens: &[usize]) -> (r: Result<(), ModelError>)
    ensures
        r is Ok <==> tokens_ok(s, tokens@),
        !(1 <= tokens@.len() <= s.context) ==> r == Err::<(), ModelError>(
            ModelError("token length must be in 1..=context"),
        ),
        (1 <= tokens@.len() <= s.context && !tokens_ok(s, tokens@)) ==> r == Err::<(), ModelError>(
            ModelError("token id exceeds vocabulary"),
        ),
{
    if tokens.len() == 0 || tokens.len() > s.context {
        return Err(ModelError("token length must be in 1..=context"));
    }
    let mut i: usize = 0;
    while i < tokens.len()
        invariant
            i <= tokens@.len(),
            1 <= tokens@.len() <= s.context,
            forall|k: int| 0 <= k < i ==> #[trigger] tokens@[k] < s.vocab_size,
        decreases tokens.len() - i,
    {
        if tokens[i] >= s.vocab_size {
            return Err(ModelError("token id exceeds vocabulary"));
        }
        i += 1;
    }
    Ok(())
}

/// A xorshift pseudo-random generator; its state is never zero.
#[derive(Clone, Copy, Debug, PartialEq, Eq)]
pub struct Rng {
    state: u64,
}

impl Rng {
    /// The current state.
    pub closed spec fn state_spec(self) -> u64 {
        self.state
    }

    #[verifier::type_invariant]
    spec fn nonzero(self) -> bool {
        self.state != 0
    }

    /// A generator seeded with `seed`, or with one when `seed` is zero.
    pub fn new(seed: u64) -> (r: Rng)
        ensures
            r.state_spec() == if seed == 0 {
                1
            } else {
                seed
            },
    {
        Rng { state: if seed == 0 { 1 } else { seed } }
    }

    /// The current state, never zero.
    pub fn state(self) -> (s: u64)
        ensures
            s == self.state_spec(),
            s != 0,
    {
        proof {
            use_type_invariant(&self);
        }
        self.state
    }

    /// Advances the state by one xorshift step and returns its top 53
    /// bits, the numerator of a uniform sample of `[0, 1)` in steps of
    /// `2^-53`.
    pub fn next_fraction_bits(&mut self) -> (x: u64)
        ensures
            final(self).state_spec() == xorshift(old(self).state_spec()),
            x == final(self).state_spec() >> 11u64,
            x < 0x20_0000_0000_0000,
    {
        proof {
            use_type_invariant(&*self);
            lemma_xorshift_nonzero(self.state);
        }
        let mut x = self.state;
        x ^= x << 13;
        x ^= x >> 7;
        x ^= x << 17;
        self.state = x;
        assert(x >> 11u64 < 0x20_0000_0000_0000u64) by (bit_vector);
        x >> 11
    }
}

/// The FNV-1a fingerprint of a training corpus, which detects an
/// accidental change of corpus on resume.
pub fn fingerprint(data: &[u8]) -> (h: u64)
    ensures
        h == fnv1a(data@),
{
    fnv1a_bytes(data)
}

/// Checks a training step's integer inputs before any work: enough data, a
/// sequence length within the context, a cursor inside the data, and a
/// step counter that can still advance.
pub fn check_train_step(data_len: usize, sequence: usize, context: usize, cursor: usize, step: u64) -> (r: Result<(), ModelError>)
    ensures
        (data_len < 2 || sequence == 0 || sequence > context) ==> r == Err::<(), ModelError>(
            ModelError("training data and sequence length are invalid"),
        ),
        !(data_len < 2 || sequence == 0 || sequence > context) && (cursor >= data_len || step
            == u64::MAX) ==> r == Err::<(), ModelError>(
            ModelError("invalid training cursor or exhausted step counter"),
        ),
        !(data_len < 2 || sequence == 0 || sequence > context) && !(cursor >= data_len || step
            == u64::MAX) ==> r is Ok,
{
    if data_len < 2 || sequence == 0 || sequence > context {
        return Err(ModelError("training data and sequence length are invalid"));
    }
    if cursor >= data_len || step == u64::MAX {
        return Err(ModelError("invalid training cursor or exhausted step counter"));
    }
    Ok(())
}

/// The inputs and next-token targets of one training step: `sequence`
/// bytes of `data` from `cursor` on, wrapping around the end, and the same
/// shifted by one byte.
pub fn training_batch(data: &[u8], cursor: usize, sequence: usize) -> (r: (Vec<usize>, Vec<usize>))
    requires
        cursor < data@.len(),
    ensures
        r.0@.len() == sequence,
        r.1@.len() == sequence,
        forall|k: int|
            0 <= k < sequence ==> #[trigger] r.0@[k] == data@[(cursor + k) % (data@.len() as int)]
                && r.1@[k] == data@[(cursor + k + 1) % (data@.len() as int)],
{
    let n = data.len();
    let mut input: Vec<usize> = Vec::new();
    let mut targets: Vec<usize> = Vec::new();
    let mut at: usize = cursor;
    let mut k: usize = 0;
    assert((cursor as int + 0) % (n as int) == cursor) by (nonlinear_arith)
        requires
            0 <= cursor < n,
    ;
    while k < sequence
        invariant
            n == data@.len(),
            cursor < n,
            k <= sequence,
            at < n,
            at == (cursor + k) % (n as int),
            input@.len() == k,
            targets@.len() == k,
            forall|j: int|
                0 <= j < k ==> #[trigger] input@[j] == data@[(cursor + j) % (n as int)] && targets@[j]
                    == data@[(cursor + j + 1) % (n as int)],
        decreases sequence - k,
    {
        let next: usize = if at + 1 == n { 0 } else { at + 1 };
        proof {
            lemma_mod_step(cursor as int + k, n as int);
        }
        input.push(data[at] as usize);
        targets.push(data[next] as usize);
        at = next;
        k += 1;
    }
    (input, targets)
}

/// One more step along a cycle of length `n`.
proof fn lemma_mod_step(a: int, n: int)
    requires
        a >= 0,
        n > 0,
    ensures
        (a + 1) % n == if a % n + 1 == n {
            0
        } else {
            a % n + 1
        },
{
    assert((a + 1) % n == if a % n + 1 == n { 0 } else { a % n + 1 }) by (nonlinear_arith)
        requires
            a >= 0,
            n > 0,
    ;
}

/// The cursor after a step of `sequence` bytes over a corpus of `len` bytes.
pub fn advance_cursor(cursor: usize, sequence: usize, len: usize) -> (next: usize)
    requires
        cursor < len,
    ensures
        next == (cursor + sequence) % (len as int),
{
    let r = sequence % len;
    proof {
        assert((cursor + sequence) % (len as int) == if cursor >= len - r {
            cursor - (len - r)
        } else {
            cursor + r
        }) by (nonlinear_arith)
            requires
                0 <= cursor < len,
                r == (sequence as int) % (len as int),
                sequence >= 0,
        ;
    }
    if cursor >= len - r {
        cursor - (len - r)
    } else {
        cursor + r
    }
}

/// Whether a saved cursor is where `step` steps of `sequence` bytes from
/// the start of a corpus of `length` bytes leave it.
pub fn cursor_matches_step(step: u64, sequence: usize, length: usize, cursor: usize) -> (r: bool)
    requires
        length > 0,
    ensures
        r == (cursor == (step as int * sequence as int) % (length as int)),
{
    proof {
        assert(0 <= (step as int) * (sequence as int) <= 0xffff_ffff_ffff_ffff * 0xffff_ffff_ffff_ffff) by (nonlinear_arith)
            requires
                0 <= step <= 0xffff_ffff_ffff_ffff,
                0 <= sequence <= 0xffff_ffff_ffff_ffff,
        ;
    }
    let product = step as u128 * sequence as u128;
    cursor as u128 == product % length as u128
}

/// Each training step moves the cursor so that after `step` steps it is
/// `step * sequence` bytes into the corpus, taken modulo its length: the
/// state that checkpoints store and check.
pub proof fn lemma_cursor_tracks_steps(step: int, sequence: int, len: int)
    requires
        step >= 0,
        sequence >= 0,
        len > 0,
    ensures
        ((step * sequence) % len + sequence) % len == ((step + 1) * sequence) % len,
{
    let a = step * sequence;
    vstd::arithmetic::div_mod::lemma_add_mod_noop_right(sequence, a, len);
    vstd::arithmetic::mul::lemma_mul_is_distributive_add_other_way(sequence, step, 1);
    assert((step + 1) * sequence == a + sequence);
}

} // verus!
