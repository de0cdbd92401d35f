//! Shapes of the decoder Transformer: its configuration, the exact
//! parameter count, the layout of every parameter group in the flat
//! parameter buffer, token validation, and the xorshift generator that
//! seeds and samples it.
use vstd::prelude::*;

use std::ops::Range;

use crate::text::{decimal, push_decimal_str, push_str};

verus! {

/// A model error, carrying its description.
#[derive(Debug, Clone, Copy)]
pub struct ModelError(pub &'static str);

impl ModelError {
    /// The description of the error.
    pub fn message(&self) -> (m: &'static str)
        ensures
            m == self.0,
    {
        self.0
    }
}

/// Dimensions of a decoder Transformer.
#[derive(Clone, Copy, Debug, PartialEq, Eq)]
pub struct Config {
    pub vocab_size: usize,
    pub context: usize,
    pub width: usize,
    pub heads: usize,
    pub layers: usize,
    pub ff_width: usize,
}

/// The dimensions are positive, the vocabulary holds at least two tokens,
/// and the width splits evenly across the heads.
pub open spec fn dims_valid(c: Config) -> bool {
    &&& c.vocab_size >= 2
    &&& c.context > 0
    &&& c.width > 0
    &&& c.heads > 0
    &&& c.layers > 0
    &&& c.ff_width > 0
    &&& c.width % c.heads == 0
}

/// Parameters of one decoder layer: two layer norms, the QKV projection,
/// the attention output projection and the two feed-forward projections.
pub open spec fn layer_params(c: Config) -> int {
    let d = c.width as int;
    let f = c.ff_width as int;
    9 * d + 4 * (d * d) + 2 * (d * f) + f
}

/// Every trainable parameter: embeddings, layers, final norm and output head.
pub open spec fn total_params(c: Config) -> int {
    let d = c.width as int;
    let v = c.vocab_size as int;
    v * d + (c.context as int) * d + (c.layers as int) * layer_params(c) + 2 * d + d * v + v
}

/// The largest parameter count whose `f32` buffer Rust can allocate.
pub open spec fn allocation_limit() -> int {
    (isize::MAX as int) / 4
}

/// Multiplies, reporting overflow as a model error.
fn mul(a: usize, b: usize) -> (r: Result<usize, ModelError>)
    ensures
        a * b <= usize::MAX ==> r == Ok::<usize, ModelError>((a * b) as usize),
        a * b > usize::MAX ==> r == Err::<usize, ModelError>(ModelError("parameter count overflow")),
{
    match a.checked_mul(b) {
        Some(x) => Ok(x),
        None => Err(ModelError("parameter count overflow")),
    }
}

/// Adds, reporting overflow as a model error.
pub fn add(a: usize, b: usize) -> (r: Result<usize, ModelError>)
    ensures
        a + b <= usize::MAX ==> r == Ok::<usize, ModelError>((a + b) as usize),
        a + b > usize::MAX ==> r == Err::<usize, ModelError>(ModelError("parameter count overflow")),
{
    match a.checked_add(b) {
        Some(x) => Ok(x),
        None => Err(ModelError("parameter count overflow")),
    }
}

impl Config {
    /// The small teaching configuration.
    pub fn tiny() -> (c: Config)
        ensures
            c == (Config { vocab_size: 256, context: 16, width: 16, heads: 2, layers: 1, ff_width: 32 }),
    {
        Config { vocab_size: 256, context: 16, width: 16, heads: 2, layers: 1, ff_width: 32 }
    }

    /// The configuration of roughly fifteen million parameters.
    pub fn approximately_15m() -> (c: Config)
        ensures
            c == (Config {
                vocab_size: 256,
                context: 128,
                width: 384,
                heads: 8,
                layers: 8,
                ff_width: 1536,
            }),
    {
        Config { vocab_size: 256, context: 128, width: 384, heads: 8, layers: 8, ff_width: 1536 }
    }

    /// The error that checking invalid dimensions reports.
    pub open spec fn validate_spec_error(self) -> ModelError {
        if !(self.vocab_size >= 2 && self.context > 0 && self.width > 0 && self.heads > 0
            && self.layers > 0 && self.ff_width > 0) {
            ModelError(
                "all dimensions must be positive and vocabulary must contain at least two tokens",
            )
        } else {
            ModelError("width must be divisible by heads")
        }
    }

    /// Checks the dimensions.
    pub fn validate(self) -> (r: Result<(), ModelError>)
        ensures
            r is Ok <==> dims_valid(self),
            !dims_valid(self) ==> r == Err::<(), ModelError>(self.validate_spec_error()),
            !(self.vocab_size >= 2 && self.context > 0 && self.width > 0 && self.heads > 0
                && self.layers > 0 && self.ff_width > 0) ==> r == Err::<(), ModelError>(
                ModelError(
                    "all dimensions must be positive and vocabulary must contain at least two tokens",
                ),
            ),
            (self.vocab_size >= 2 && self.context > 0 && self.width > 0 && self.heads > 0
                && self.layers > 0 && self.ff_width > 0 && self.width % self.heads != 0) ==> r
                == Err::<(), ModelError>(ModelError("width must be divisible by heads")),
    {
        if self.vocab_size < 2 || self.context == 0 || self.width == 0 || self.heads == 0
            || self.layers == 0 || self.ff_width == 0 {
            return Err(
                ModelError(
                    "all dimensions must be positive and vocabulary must contain at least two tokens",
                ),
            );
        }
        if self.width % self.heads != 0 {
            return Err(ModelError("width must be divisible by heads"));
        }
        Ok(())
    }

    /// The exact number of trainable parameters, or an error when the
    /// dimensions are invalid, the count overflows `usize`, or an `f32`
    /// buffer of that many values could not be allocated.
    pub fn parameter_count(self) -> (r: Result<usize, ModelError>)
        ensures
            r is Ok <==> dims_valid(self) && total_params(self) <= allocation_limit(),
            r matches Ok(n) ==> n == total_params(self),
            !dims_valid(self) ==> r == Err::<usize, ModelError>(self.validate_spec_error()),
            dims_valid(self) && total_params(self) > usize::MAX ==> r == Err::<usize, ModelError>(
                ModelError("parameter count overflow"),
            ),
            dims_valid(self) && allocation_limit() < total_params(self) <= usize::MAX ==> r == Err::<
                usize,
                ModelError,
            >(ModelError("parameter buffer exceeds Rust allocation limit")),
    {
        self.validate()?;
        let d = self.width;
        let f = self.ff_width;
        proof {
            lemma_total_bounds(self);
        }
        let mut n = self::mul(self.vocab_size, d)?;
        n = self::add(n, self::mul(self.context, d)?)?;
        let mut per_layer = self::mul(3, self::mul(d, d)?)?;
        per_layer = self::add(per_layer, self::mul(3, d)?)?;
        per_layer = self::add(per_layer, self::mul(d, d)?)?;
        per_layer = self::add(per_layer, d)?;
        per_layer = self::add(per_layer, self::mul(4, d)?)?;
        per_layer = self::add(per_layer, self::mul(d, f)?)?;
        per_layer = self::add(per_layer, f)?;
        per_layer = self::add(per_layer, self::mul(f, d)?)?;
        per_layer = self::add(per_layer, d)?;
        assert(per_layer == layer_params(self)) by (nonlinear_arith)
            requires
                per_layer == 3 * (d * d) + 3 * d + d * d + d + 4 * d + d * f + f + f * d + d,
                layer_params(self) == 9 * d + 4 * (d * d) + 2 * (d * f) + f,
        ;
        n = self::add(n, self::mul(self.layers, per_layer)?)?;
        n = self::add(n, self::mul(2, d)?)?;
        n = self::add(n, self::mul(d, self.vocab_size)?)?;
        n = self::add(n, self.vocab_size)?;
        if n > (isize::MAX as usize) / 4 {
            return Err(ModelError("parameter buffer exceeds Rust allocation limit"));
        }
        Ok(n)
    }
}

/// Each product and partial sum of the parameter count is at most the
/// total, so the count overflows exactly when the total does.
proof fn lemma_total_bounds(c: Config)
    requires
        dims_valid(c),
    ensures
        (c.vocab_size as int) * (c.width as int) <= total_params(c),
        (c.context as int) * (c.width as int) <= total_params(c),
        (c.width as int) * (c.width as int) * 4 <= total_params(c),
        (c.width as int) * (c.ff_width as int) * 2 <= total_params(c),
        layer_params(c) <= total_params(c),
        (c.layers as int) * layer_params(c) <= total_params(c),
        (c.width as int) * (c.vocab_size as int) <= total_params(c),
{
    let d = c.width as int;
    let v = c.vocab_size as int;
    let f = c.ff_width as int;
    let l = c.layers as int;
    assert(d * d >= 0 && d * f >= 0 && v * d >= 0 && (c.context as int) * d >= 0) by (nonlinear_arith)
        requires
            d > 0,
            f > 0,
            v > 0,
            c.context > 0,
    ;
    assert(l * layer_params(c) >= layer_params(c)) by (nonlinear_arith)
        requires
            l >= 1,
            layer_params(c) >= 0,
    ;
    assert(d * v == v * d) by (nonlinear_arith);
}

/// Hands out the next `len` positions of a buffer being laid out.
pub fn take(cursor: &mut usize, len: usize) -> (r: Range<usize>)
    requires
        *old(cursor) + len <= usize::MAX,
    ensures
        r.start == *old(cursor),
        r.end == *old(cursor) + len,
        *final(cursor) == *old(cursor) + len,
{
    let start = *cursor;
    *cursor = *cursor + len;
    start..*cursor
}

/// Where one decoder layer's parameter groups sit in the parameter buffer.
#[derive(Debug)]
pub struct LayerLayout {
    pub ln1_g: Range<usize>,
    pub ln1_b: Range<usize>,
    pub qkv_w: Range<usize>,
    pub qkv_b: Range<usize>,
    pub out_w: Range<usize>,
    pub out_b: Range<usize>,
    pub ln2_g: Range<usize>,
    pub ln2_b: Range<usize>,
    pub ff1_w: Range<usize>,
    pub ff1_b: Range<usize>,
    pub ff2_w: Range<usize>,
    pub ff2_b: Range<usize>,
}

/// Where every parameter group sits in the flat parameter buffer.
#[derive(Debug)]
pub struct Layout {
    pub token: Range<usize>,
    pub position: Range<usize>,
    pub layers: Vec<LayerLayout>,
    pub final_g: Range<usize>,
    pub final_b: Range<usize>,
    pub lm_w: Range<usize>,
    pub lm_b: Range<usize>,
    pub total: usize,
}

/// The range `start..start + len`.
pub open spec fn is_range(r: Range<usize>, start: int, len: int) -> bool {
    r.start == start && r.end == start + len
}

/// Where layer `l`'s parameters start.
pub open spec fn layer_base(c: Config, l: int) -> int {
    (c.vocab_size as int) * (c.width as int) + (c.context as int) * (c.width as int) + l
        * layer_params(c)
}

/// A layer's groups, in order, each following the one before: two layer
/// norm vectors, the QKV weight and bias, the attention output weight and
/// bias, two more layer norm vectors, and the two feed-forward weights and
/// biases.
pub open spec fn layer_at(x: LayerLayout, c: Config, base: int) -> bool {
    let d = c.width as int;
    let f = c.ff_width as int;
    &&& is_range(x.ln1_g, base, d)
    &&& is_range(x.ln1_b, base + d, d)
    &&& is_range(x.qkv_w, base + 2 * d, 3 * (d * d))
    &&& is_range(x.qkv_b, base + 2 * d + 3 * (d * d), 3 * d)
    &&& is_range(x.out_w, base + 5 * d + 3 * (d * d), d * d)
    &&& is_range(x.out_b, base + 5 * d + 4 * (d * d), d)
    &&& is_range(x.ln2_g, base + 6 * d + 4 * (d * d), d)
    &&& is_range(x.ln2_b, base + 7 * d + 4 * (d * d), d)
    &&& is_range(x.ff1_w, base + 8 * d + 4 * (d * d), d * f)
    &&& is_range(x.ff1_b, base + 8 * d + 4 * (d * d) + d * f, f)
    &&& is_range(x.ff2_w, base + 8 * d + 4 * (d * d) + d * f + f, f * d)
    &&& is_range(x.ff2_b, base + 8 * d + 4 * (d * d) + 2 * (d * f) + f, d)
}

/// The layout of `c`: token and position embeddings, the layers in order,
/// the final norm gain and bias, and the output weight and bias, packed
/// from position zero with nothing between them.
pub open spec fn layout_of(x: Layout, c: Config) -> bool {
    let d = c.width as int;
    let v = c.vocab_size as int;
    let e = layer_base(c, c.layers as int);
    &&& is_range(x.token, 0, v * d)
    &&& is_range(x.position, v * d, (c.context as int) * d)
    &&& x.layers@.len() == c.layers
    &&& forall|l: int| 0 <= l < c.layers ==> layer_at(#[trigger] x.layers@[l], c, layer_base(c, l))
    &&& is_range(x.final_g, e, d)
    &&& is_range(x.final_b, e + d, d)
    &&& is_range(x.lm_w, e + 2 * d, d * v)
    &&& is_range(x.lm_b, e + 2 * d + d * v, v)
    &&& x.total == e + 2 * d + d * v + v
}

/// Every layer ends no later than the final norm starts.
proof fn lemma_layer_base_bound(c: Config, l: int)
    requires
        0 <= l < c.layers,
        layer_params(c) >= 0,
    ensures
        layer_base(c, l) + layer_params(c) <= layer_base(c, c.layers as int),
        layer_base(c, l + 1) == layer_base(c, l) + layer_params(c),
{
    let p = layer_params(c);
    assert(l * p + p <= (c.layers as int) * p) by (nonlinear_arith)
        requires
            0 <= l < c.layers,
            p >= 0,
    ;
    assert((l + 1) * p == l * p + p) by (nonlinear_arith);
}

/// A named group of parameters and where it sits in the parameter buffer.
#[derive(Clone, Debug, PartialEq, Eq)]
pub struct ParameterSpan {
    pub name: String,
    pub start: usize,
    pub end: usize,
}

/// A span as plain values: its name, start and end.
pub open spec fn span_view(s: ParameterSpan) -> (Seq<char>, int, int) {
    (s.name@, s.start as int, s.end as int)
}

/// A named range as plain values.
pub open spec fn named(name: Seq<char>, r: Range<usize>) -> (Seq<char>, int, int) {
    (name, r.start as int, r.end as int)
}

/// The named spans `s` lie end to end, each no shorter than empty, from
/// `start` to `end`.
pub open spec fn tiles(s: Seq<(Seq<char>, int, int)>, start: int, end: int) -> bool
    decreases s.len(),
{
    if s.len() == 0 {
        start == end
    } else {
        s.last().1 <= s.last().2 && s.last().2 == end && tiles(s.drop_last(), start, s.last().1)
    }
}

/// Spans that tile `a..m` followed by spans that tile `m..b` tile `a..b`.
pub proof fn lemma_tiles_append(x: Seq<(Seq<char>, int, int)>, y: Seq<(Seq<char>, int, int)>, a: int, m: int, b: int)
    requires
        tiles(x, a, m),
        tiles(y, m, b),
    ensures
        tiles(x + y, a, b),
    decreases y.len(),
{
    if y.len() == 0 {
        assert(x + y =~= x);
    } else {
        lemma_tiles_append(x, y.drop_last(), a, m, y.last().1);
        assert((x + y).drop_last() =~= x + y.drop_last());
        assert((x + y).last() == y.last());
    }
}

/// Position `p` lies in one of the spans `s`.
pub open spec fn covered(s: Seq<(Seq<char>, int, int)>, p: int) -> bool {
    exists|i: int| 0 <= i < s.len() && (#[trigger] s[i]).1 <= p < s[i].2
}

/// Spans that tile `a..b` lie inside it in order: each ends before the
/// next begins, and every position of `a..b` lies in one of them.
pub proof fn lemma_tiles_order(s: Seq<(Seq<char>, int, int)>, a: int, b: int)
    requires
        tiles(s, a, b),
    ensures
        a <= b,
        forall|i: int| 0 <= i < s.len() ==> a <= (#[trigger] s[i]).1 <= s[i].2 <= b,
        forall|i: int, j: int| 0 <= i < j < s.len() ==> (#[trigger] s[i]).2 <= (#[trigger] s[j]).1,
        forall|p: int| a <= p < b ==> #[trigger] covered(s, p),
    decreases s.len(),
{
    if s.len() > 0 {
        let t = s.drop_last();
        let n = s.len() - 1;
        lemma_tiles_order(t, a, s.last().1);
        assert forall|i: int| 0 <= i < n implies #[trigger] s[i] == t[i] by {}
        assert forall|i: int| 0 <= i < s.len() implies a <= (#[trigger] s[i]).1 <= s[i].2 <= b by {
            if i < n {
                assert(s[i] == t[i]);
            }
        }
        assert forall|i: int, j: int| 0 <= i < j < s.len() implies (#[trigger] s[i]).2 <= (
        #[trigger] s[j]).1 by {
            assert(s[i] == t[i]);
            if j < n {
                assert(s[j] == t[j]);
            }
        }
        assert forall|p: int| a <= p < b implies #[trigger] covered(s, p) by {
            if p < s.last().1 {
                assert(covered(t, p));
                let i = choose|i: int| 0 <= i < t.len() && (#[trigger] t[i]).1 <= p < t[i].2;
                assert(s[i] == t[i]);
            } else {
                assert(s[n] == s.last());
            }
        }
    }
}

/// The name of a group of layer `i`: `layer.{i}.{suffix}`.
pub open spec fn layer_group_name(i: int, suffix: Seq<char>) -> Seq<char> {
    "layer."@ + decimal(i as nat) + "."@ + suffix
}

/// The spans of layer `i`, in order.
pub open spec fn layer_spans(i: int, x: LayerLayout) -> Seq<(Seq<char>, int, int)> {
    seq![
        named(layer_group_name(i, "ln1_gain"@), x.ln1_g),
        named(layer_group_name(i, "ln1_bias"@), x.ln1_b),
        named(layer_group_name(i, "qkv_weight"@), x.qkv_w),
        named(layer_group_name(i, "qkv_bias"@), x.qkv_b),
        named(layer_group_name(i, "attention_output_weight"@), x.out_w),
        named(layer_group_name(i, "attention_output_bias"@), x.out_b),
        named(layer_group_name(i, "ln2_gain"@), x.ln2_g),
        named(layer_group_name(i, "ln2_bias"@), x.ln2_b),
        named(layer_group_name(i, "ff1_weight"@), x.ff1_w),
        named(layer_group_name(i, "ff1_bias"@), x.ff1_b),
        named(layer_group_name(i, "ff2_weight"@), x.ff2_w),
        named(layer_group_name(i, "ff2_bias"@), x.ff2_b),
    ]
}

/// The spans of the first `n` layers, in order.
pub open spec fn layers_spans(layers: Seq<LayerLayout>, n: int) -> Seq<(Seq<char>, int, int)>
    decreases n,
{
    if n <= 0 {
        Seq::empty()
    } else {
        layers_spans(layers, n - 1) + layer_spans(n - 1, layers[n - 1])
    }
}

/// Every named group of a layout, in buffer order.
pub open spec fn layout_spans(x: Layout) -> Seq<(Seq<char>, int, int)> {
    seq![named("token_embedding"@, x.token), named("position_embedding"@, x.position)]
        + layers_spans(x.layers@, x.layers@.len() as int) + seq![
        named("final_norm_gain"@, x.final_g),
        named("final_norm_bias"@, x.final_b),
        named("output_weight"@, x.lm_w),
        named("output_bias"@, x.lm_b),
    ]
}

/// A span named `name` covering `r`.
fn span(name: &str, r: &Range<usize>) -> (s: ParameterSpan)
    ensures
        span_view(s) == named(name@, *r),
{
    ParameterSpan { name: name.to_owned(), start: r.start, end: r.end }
}

/// Appends the span of one group of layer `i`.
fn push_layer_span(spans: &mut Vec<ParameterSpan>, i: usize, suffix: &str, r: &Range<usize>)
    ensures
        final(spans)@.len() == old(spans)@.len() + 1,
        forall|k: int| 0 <= k < old(spans)@.len() ==> #[trigger] final(spans)@[k] == old(spans)@[k],
        span_view(final(spans)@[old(spans)@.len() as int]) == named(
            layer_group_name(i as int, suffix@),
            *r,
        ),
{
    let mut name = "layer.".to_owned();
    push_decimal_str(&mut name, i as u64);
    push_str(&mut name, ".");
    push_str(&mut name, suffix);
    assert(name@ =~= layer_group_name(i as int, suffix@));
    spans.push(ParameterSpan { name, start: r.start, end: r.end });
}

impl Layout {
    /// Every named parameter group, in buffer order.
    pub fn parameter_spans(&self) -> (spans: Vec<ParameterSpan>)
        requires
            self.layers@.len() <= u64::MAX,
        ensures
            spans@.map_values(|s: ParameterSpan| span_view(s)) == layout_spans(*self),
    {
        let mut spans: Vec<ParameterSpan> = Vec::new();
        spans.push(span("token_embedding", &self.token));
        spans.push(span("position_embedding", &self.position));
        let ghost head = seq![named("token_embedding"@, self.token), named("position_embedding"@, self.position)];
        assert(spans@.map_values(|s: ParameterSpan| span_view(s)) =~= head + layers_spans(self.layers@, 0));
        let mut i: usize = 0;
        while i < self.layers.len()
            invariant
                i <= self.layers@.len(),
                self.layers@.len() <= u64::MAX,
                head == seq![named("token_embedding"@, self.token), named("position_embedding"@, self.position)],
                spans@.map_values(|s: ParameterSpan| span_view(s)) == head + layers_spans(
                    self.layers@,
                    i as int,
                ),
            decreases self.layers.len() - i,
        {
            let l = &self.layers[i];
            let ghost before = spans@;
            push_layer_span(&mut spans, i, "ln1_gain", &l.ln1_g);
            push_layer_span(&mut spans, i, "ln1_bias", &l.ln1_b);
            push_layer_span(&mut spans, i, "qkv_weight", &l.qkv_w);
            push_layer_span(&mut spans, i, "qkv_bias", &l.qkv_b);
            push_layer_span(&mut spans, i, "attention_output_weight", &l.out_w);
            push_layer_span(&mut spans, i, "attention_output_bias", &l.out_b);
            push_layer_span(&mut spans, i, "ln2_gain", &l.ln2_g);
            push_layer_span(&mut spans, i, "ln2_bias", &l.ln2_b);
            push_layer_span(&mut spans, i, "ff1_weight", &l.ff1_w);
            push_layer_span(&mut spans, i, "ff1_bias", &l.ff1_b);
            push_layer_span(&mut spans, i, "ff2_weight", &l.ff2_w);
            push_layer_span(&mut spans, i, "ff2_bias", &l.ff2_b);
            proof {
                let n = before.len();
                assert(spans@.len() == n + 12);
                assert(spans@.map_values(|s: ParameterSpan| span_view(s)) =~= before.map_values(
                    |s: ParameterSpan| span_view(s),
                ) + layer_spans(i as int, self.layers@[i as int]));
            }
            i += 1;
        }
        spans.push(span("final_norm_gain", &self.final_g));
        spans.push(span("final_norm_bias", &self.final_b));
        spans.push(span("output_weight", &self.lm_w));
        spans.push(span("output_bias", &self.lm_b));
        assert(spans@.map_values(|s: ParameterSpan| span_view(s)) =~= layout_spans(*self));
        spans
    }

    /// Lays out every parameter group of `c` in order, from position zero.
    pub fn new(c: Config) -> (x: Layout)
        requires
            dims_valid(c),
            total_params(c) <= usize::MAX,
        ensures
            layout_of(x, c),
            x.total == total_params(c),
    {
        proof {
            lemma_total_bounds(c);
        }
        let d = c.width;
        let f = c.ff_width;
        let v = c.vocab_size;
        proof {
            let di = d as int;
            let fi = f as int;
            assert(di * di >= 0 && di * fi >= 0 && fi * di == di * fi && di * (3 * di) == 3 * (di
                * di)) by (nonlinear_arith)
                requires
                    di > 0,
                    fi > 0,
            ;
            assert((v as int) * di == di * (v as int)) by (nonlinear_arith);
        }
        let mut p: usize = 0;
        let token = take(&mut p, v * d);
        let position = take(&mut p, c.context * d);
        let mut layers: Vec<LayerLayout> = Vec::new();
        let mut i: usize = 0;
        while i < c.layers
            invariant
                dims_valid(c),
                total_params(c) <= usize::MAX,
                i <= c.layers,
                d == c.width,
                f == c.ff_width,
                (d as int) * (d as int) >= 0,
                (d as int) * (f as int) >= 0,
                (f as int) * (d as int) == (d as int) * (f as int),
                (d as int) * (3 * (d as int)) == 3 * ((d as int) * (d as int)),
                layers@.len() == i,
                p == layer_base(c, i as int),
                layer_base(c, c.layers as int) <= total_params(c),
                forall|l: int| 0 <= l < i ==> layer_at(#[trigger] layers@[l], c, layer_base(c, l)),
            decreases c.layers - i,
        {
            proof {
                lemma_layer_base_bound(c, i as int);
            }
            let ln1_g = take(&mut p, d);
            let ln1_b = take(&mut p, d);
            let qkv_w = take(&mut p, d * (3 * d));
            let qkv_b = take(&mut p, 3 * d);
            let out_w = take(&mut p, d * d);
            let out_b = take(&mut p, d);
            let ln2_g = take(&mut p, d);
            let ln2_b = take(&mut p, d);
            let ff1_w = take(&mut p, d * f);
            let ff1_b = take(&mut p, f);
            let ff2_w = take(&mut p, f * d);
            let ff2_b = take(&mut p, d);
            layers.push(
                LayerLayout {
                    ln1_g,
                    ln1_b,
                    qkv_w,
                    qkv_b,
                    out_w,
                    out_b,
                    ln2_g,
                    ln2_b,
                    ff1_w,
                    ff1_b,
                    ff2_w,
                    ff2_b,
                },
            );
            i += 1;
        }
        let final_g = take(&mut p, d);
        let final_b = take(&mut p, d);
        let lm_w = take(&mut p, d * v);
        let lm_b = take(&mut p, v);
        Layout { token, position, layers, final_g, final_b, lm_w, lm_b, total: p }
    }
}

/// The groups of a layer lie end to end from its base.
proof fn lemma_layer_tiles(c: Config, i: int, x: LayerLayout)
    requires
        dims_valid(c),
        layer_at(x, c, layer_base(c, i)),
    ensures
        tiles(layer_spans(i, x), layer_base(c, i), layer_base(c, i) + layer_params(c)),
{
    let d = c.width as int;
    let f = c.ff_width as int;
    assert(d * d >= 0 && d * f >= 0 && f * d == d * f) by (nonlinear_arith)
        requires
            d > 0,
            f > 0,
    ;
    reveal_with_fuel(tiles, 13);
}

/// The layers lie end to end, the first at the base of layer zero.
proof fn lemma_layers_tile(x: Layout, c: Config, n: int)
    requires
        dims_valid(c),
        layout_of(x, c),
        0 <= n <= c.layers,
    ensures
        tiles(layers_spans(x.layers@, n), layer_base(c, 0), layer_base(c, n)),
    decreases n,
{
    if n > 0 {
        lemma_layers_tile(x, c, n - 1);
        lemma_layer_tiles(c, n - 1, x.layers@[n - 1]);
        lemma_total_bounds(c);
        lemma_layer_base_bound(c, n - 1);
        lemma_tiles_append(
            layers_spans(x.layers@, n - 1),
            layer_spans(n - 1, x.layers@[n - 1]),
            layer_base(c, 0),
            layer_base(c, n - 1),
            layer_base(c, n),
        );
    } else {
        assert(layers_spans(x.layers@, 0) =~= Seq::<(Seq<char>, int, int)>::empty());
    }
}

/// The named groups of a laid-out decoder lie end to end, in buffer
/// order, from position zero to the parameter count: every parameter
/// belongs to exactly one group.
pub proof fn lemma_layout_tiles(x: Layout, c: Config)
    requires
        dims_valid(c),
        layout_of(x, c),
    ensures
        tiles(layout_spans(x), 0, x.total as int),
{
    let d = c.width as int;
    let v = c.vocab_size as int;
    assert(v * d >= 0 && (c.context as int) * d >= 0 && d * v >= 0) by (nonlinear_arith)
        requires
            d > 0,
            v > 0,
            c.context > 0,
    ;
    let head = seq![named("token_embedding"@, x.token), named("position_embedding"@, x.position)];
    assert(tiles(head, 0, layer_base(c, 0))) by {
        reveal_with_fuel(tiles, 3);
    }
    lemma_layers_tile(x, c, c.layers as int);
    let mid = layers_spans(x.layers@, x.layers@.len() as int);
    lemma_tiles_append(head, mid, 0, layer_base(c, 0), layer_base(c, c.layers as int));
    let tail = seq![
        named("final_norm_gain"@, x.final_g),
        named("final_norm_bias"@, x.final_b),
        named("output_weight"@, x.lm_w),
        named("output_bias"@, x.lm_b),
    ];
    assert(tiles(tail, layer_base(c, c.layers as int), x.total as int)) by {
        reveal_with_fuel(tiles, 5);
    }
    lemma_tiles_append(head + mid, tail, 0, layer_base(c, c.layers as int), x.total as int);
    assert(layout_spans(x) =~= head + mid + tail);
}

/// A token sequence the model accepts: one to `context` tokens, each a
/// vocabulary id.
pub open spec fn tokens_valid(c: Config, tokens: Seq<usize>) -> bool {
    &&& 1 <= tokens.len() <= c.context
    &&& forall|i: int| 0 <= i < tokens.len() ==> #[trigger] tokens[i] < c.vocab_size
}

/// Checks that `tokens` is a sequence the model accepts.
pub fn validate_tokens(c: Config, tokens: &[usize]) -> (r: Result<(), ModelError>)
    ensures
        r is Ok <==> tokens_valid(c, tokens@),
        !(1 <= tokens@.len() <= c.context) ==> r == Err::<(), ModelError>(
            ModelError("sequence length must be in 1..=context"),
        ),
        (1 <= tokens@.len() <= c.context && !tokens_valid(c, tokens@)) ==> r == Err::<
            (),
            ModelError,
        >(ModelError("token id exceeds vocabulary")),
{
    if tokens.len() == 0 || tokens.len() > c.context {
        return Err(ModelError("sequence length must be in 1..=context"));
    }
    let mut i: usize = 0;
    while i < tokens.len()
        invariant
            i <= tokens@.len(),
            1 <= tokens@.len() <= c.context,
            forall|k: int| 0 <= k < i ==> #[trigger] tokens@[k] < c.vocab_size,
        decreases tokens.len() - i,
    {
        if tokens[i] >= c.vocab_size {
            return Err(ModelError("token id exceeds vocabulary"));
        }
        i += 1;
    }
    Ok(())
}

/// One xorshift step: shifts by 13 left, 7 right and 17 left, each
/// xored in.
pub open spec fn xorshift(x: u64) -> u64 {
    let a = x ^ (x << 13u64);
    let b = a ^ (a >> 7u64);
    b ^ (b << 17u64)
}

/// A xorshift step never reaches zero from a nonzero state.
pub proof fn lemma_xorshift_nonzero(x: u64)
    requires
        x != 0,
    ensures
        xorshift(x) != 0,
{
    let a = x ^ (x << 13u64);
    let b = a ^ (a >> 7u64);
    let c = b ^ (b << 17u64);
    assert(x != 0 ==> (x ^ (x << 13u64)) != 0) by (bit_vector);
    assert(a != 0 ==> (a ^ (a >> 7u64)) != 0) by (bit_vector);
    assert(b != 0 ==> (b ^ (b << 17u64)) != 0) by (bit_vector);
}

/// The seed used in place of zero.
pub open spec fn zero_seed_replacement() -> u64 {
    0x9e3779b97f4a7c15
}

/// A xorshift pseudo-random generator; its state is never zero.
#[derive(Clone, Copy, Debug, PartialEq, Eq)]
pub struct Rng {
    state: u64,
}

impl Rng {
    /// The current state.
    pub closed spec fn state_spec(self) -> u64 {
        self.state
    }

    #[verifier::type_invariant]
    spec fn nonzero(self) -> bool {
        self.state != 0
    }

    /// A generator seeded with `seed`, or with a fixed nonzero constant when
    /// `seed` is zero.
    pub fn new(seed: u64) -> (r: Rng)
        ensures
            r.state_spec() == if seed == 0 {
                zero_seed_replacement()
            } else {
                seed
            },
    {
        Rng { state: if seed == 0 { 0x9e3779b97f4a7c15 } else { seed } }
    }

    /// The current state.
    pub fn state(&self) -> (s: u64)
        ensures
            s == self.state_spec(),
            s != 0,
    {
        proof {
            use_type_invariant(self);
        }
        self.state
    }

    /// Resumes a generator from a saved state; zero is refused.
    pub fn from_state(state: u64) -> (r: Result<Rng, ModelError>)
        ensures
            state == 0 ==> r == Err::<Rng, ModelError>(ModelError("RNG state cannot be zero")),
            state != 0 ==> (r matches Ok(g) && g.state_spec() == state),
    {
        if state == 0 {
            Err(ModelError("RNG state cannot be zero"))
        } else {
            Ok(Rng { state })
        }
    }

    /// Advances the state by one xorshift step and returns the new state.
    pub fn next_u64(&mut self) -> (x: u64)
        ensures
            x == xorshift(old(self).state_spec()),
            final(self).state_spec() == x,
            x != 0,
    {
        proof {
            use_type_invariant(&*self);
            lemma_xorshift_nonzero(self.state);
        }
        let mut x = self.state;
        x ^= x << 13;
        x ^= x >> 7;
        x ^= x << 17;
        self.state = x;
        x
    }
}

} // verus!
