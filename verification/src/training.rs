//! The AdamW trainer of the decoder Transformer, outside its arithmetic:
//! the optimizer settings and their check, the state a trainer carries,
//! the byte format it is saved in and the validating reader of that
//! format, and the schedule of windows that gradient accumulation reads.
//! `f32` values travel as their IEEE-754 bit patterns, so a saved trainer
//! restores them bit for bit.
use vstd::prelude::*;

use crate::checkpoint::{
    le_bytes, lemma_le_bytes_len, lemma_le_bytes_round_trip, token_fingerprint, token_values,
    words_bytes, Reader,
};
use crate::decoder::{allocation_limit, dims_valid, total_params, xorshift, Config, Rng};
use crate::fnv::fnv1a;
use crate::kernels::{byte_power, le_value, le_word, lemma_byte_powers, lemma_le_value_bound};

verus! {

/// The bits of an `f32` are those of a finite number: the exponent field
/// is not all ones.
pub open spec fn finite32(b: u32) -> bool {
    (b >> 23u32) & 0xffu32 != 0xffu32
}

/// The magnitude field of an `f32`: every bit but the sign.
pub open spec fn magnitude32(b: u32) -> int {
    (b & 0x7fff_ffffu32) as int
}

/// A key that orders `f32` values as numbers: IEEE-754 stores a sign and a
/// magnitude whose bit patterns grow with the value, so for finite values
/// `x < y` exactly when `order_key(x) < order_key(y)`, and both zeros get
/// the key zero.
pub open spec fn order_key(b: u32) -> int {
    if b >> 31u32 == 1 {
        -magnitude32(b)
    } else {
        magnitude32(b)
    }
}

/// The bit pattern of `1.0f32`.
pub open spec fn one32() -> int {
    0x3f80_0000
}

/// Whether `finite32` holds of `b`.
pub fn is_finite32(b: u32) -> (r: bool)
    ensures
        r == finite32(b),
{
    (b >> 23) & 0xff != 0xff
}

/// The order key of `b`.
pub fn key32(b: u32) -> (k: i64)
    ensures
        k == order_key(b),
{
    let m = (b & 0x7fff_ffff) as i64;
    if b >> 31 == 1 {
        -m
    } else {
        m
    }
}

/// Whether `b` is the bit pattern of a number below zero (negative zero is
/// not).
pub fn is_negative32(b: u32) -> (r: bool)
    ensures
        r == (order_key(b) < 0),
{
    key32(b) < 0
}

/// The optimizer settings: AdamW with warmup and cosine decay, and the
/// global gradient-norm clip. `f32` settings are held as bit patterns.
#[derive(Clone, Copy, Debug, PartialEq, Eq)]
pub struct TrainConfig {
    pub peak_learning_rate_bits: u32,
    pub min_learning_rate_bits: u32,
    pub warmup_steps: u64,
    pub total_steps: u64,
    pub weight_decay_bits: u32,
    pub beta1_bits: u32,
    pub beta2_bits: u32,
    pub epsilon_bits: u32,
    pub clip_norm_bits: u32,
}

impl Default for TrainConfig {
    /// A peak rate of `2e-3` decaying to `2e-4`, five warmup steps of a
    /// hundred, weight decay `0.01`, betas `0.9` and `0.999`, epsilon
    /// `1e-8` and a clip of `1.0`.
    fn default() -> (c: Self)
        ensures
            c == (TrainConfig {
                peak_learning_rate_bits: 0x3b03_126f,
                min_learning_rate_bits: 0x3951_b717,
                warmup_steps: 5,
                total_steps: 100,
                weight_decay_bits: 0x3c23_d70a,
                beta1_bits: 0x3f66_6666,
                beta2_bits: 0x3f7f_be77,
                epsilon_bits: 0x322b_cc77,
                clip_norm_bits: 0x3f80_0000,
            }),
    {
        TrainConfig {
            peak_learning_rate_bits: 0x3b03_126f,
            min_learning_rate_bits: 0x3951_b717,
            warmup_steps: 5,
            total_steps: 100,
            weight_decay_bits: 0x3c23_d70a,
            beta1_bits: 0x3f66_6666,
            beta2_bits: 0x3f7f_be77,
            epsilon_bits: 0x322b_cc77,
            clip_norm_bits: 0x3f80_0000,
        }
    }
}

/// Settings the optimizer accepts: every `f32` finite, a positive peak
/// rate, a minimum rate from zero up to the peak, no negative weight decay,
/// both betas in `[0, 1)`, a positive epsilon and clip, at least one step,
/// and no more warmup steps than steps.
pub open spec fn train_ok(c: TrainConfig) -> bool {
    &&& finite32(c.peak_learning_rate_bits)
    &&& finite32(c.min_learning_rate_bits)
    &&& finite32(c.weight_decay_bits)
    &&& finite32(c.beta1_bits)
    &&& finite32(c.beta2_bits)
    &&& finite32(c.epsilon_bits)
    &&& finite32(c.clip_norm_bits)
    &&& order_key(c.peak_learning_rate_bits) > 0
    &&& 0 <= order_key(c.min_learning_rate_bits) <= order_key(c.peak_learning_rate_bits)
    &&& order_key(c.weight_decay_bits) >= 0
    &&& 0 <= order_key(c.beta1_bits) < one32()
    &&& 0 <= order_key(c.beta2_bits) < one32()
    &&& order_key(c.epsilon_bits) > 0
    &&& order_key(c.clip_norm_bits) > 0
    &&& c.total_steps > 0
    &&& c.warmup_steps <= c.total_steps
}

/// Checks the optimizer settings.
pub fn validate_train(c: TrainConfig) -> (r: Result<(), &'static str>)
    ensures
        train_ok(c) ==> r is Ok,
        !train_ok(c) ==> r == Err::<(), &'static str>("invalid optimizer configuration"),
{
    let finite = is_finite32(c.peak_learning_rate_bits) && is_finite32(c.min_learning_rate_bits)
        && is_finite32(c.weight_decay_bits) && is_finite32(c.beta1_bits) && is_finite32(
        c.beta2_bits,
    ) && is_finite32(c.epsilon_bits) && is_finite32(c.clip_norm_bits);
    let peak = key32(c.peak_learning_rate_bits);
    let min = key32(c.min_learning_rate_bits);
    let beta1 = key32(c.beta1_bits);
    let beta2 = key32(c.beta2_bits);
    if !finite || peak <= 0 || min < 0 || min > peak || key32(c.weight_decay_bits) < 0 || beta1 < 0
        || beta1 >= 0x3f80_0000 || beta2 < 0 || beta2 >= 0x3f80_0000 || key32(c.epsilon_bits) <= 0
        || key32(c.clip_norm_bits) <= 0 || c.total_steps == 0 || c.warmup_steps > c.total_steps {
        return Err("invalid optimizer configuration");
    }
    Ok(())
}

/// The state a trainer carries from step to step: the decoder's
/// dimensions and parameters, the optimizer settings, the number of steps
/// taken, where the next window of data starts, the generator state, the
/// fingerprint of the data trained on, and AdamW's two moment buffers.
/// `f32` values are held as bit patterns.
#[derive(Clone, Debug)]
pub struct TrainerState {
    pub config: Config,
    pub train: TrainConfig,
    pub step: u64,
    pub data_cursor: usize,
    pub rng_state: u64,
    pub data_fingerprint: u64,
    pub parameters: Vec<u32>,
    pub m: Vec<u32>,
    pub v: Vec<u32>,
}

/// A trainer state as plain values.
#[verifier::ext_equal]
pub struct TrainerView {
    pub config: Config,
    pub train: TrainConfig,
    pub step: u64,
    pub data_cursor: usize,
    pub rng_state: u64,
    pub data_fingerprint: u64,
    pub parameters: Seq<u32>,
    pub m: Seq<u32>,
    pub v: Seq<u32>,
}

impl TrainerState {
    /// The state as plain values.
    pub open spec fn view(&self) -> TrainerView {
        TrainerView {
            config: self.config,
            train: self.train,
            step: self.step,
            data_cursor: self.data_cursor,
            rng_state: self.rng_state,
            data_fingerprint: self.data_fingerprint,
            parameters: self.parameters@,
            m: self.m@,
            v: self.v@,
        }
    }

    /// The bytes the parameters and both moment buffers take as `f32`s.
    pub fn memory_bytes(&self) -> (b: usize)
        requires
            (self.parameters@.len() + self.m@.len() + self.v@.len()) * 4 <= usize::MAX,
        ensures
            b == (self.parameters@.len() + self.m@.len() + self.v@.len()) * 4,
    {
        (self.parameters.len() + self.m.len() + self.v.len()) * 4
    }
}

/// Every value of `xs` is finite.
pub open spec fn all_finite(xs: Seq<u32>) -> bool {
    forall|i: int| 0 <= i < xs.len() ==> finite32(#[trigger] xs[i])
}

/// No value of `xs` is below zero.
pub open spec fn none_negative(xs: Seq<u32>) -> bool {
    forall|i: int| 0 <= i < xs.len() ==> order_key(#[trigger] xs[i]) >= 0
}

/// Why a trainer state is refused, if it is: its settings, then its
/// moment buffers, which must match the parameters in length, and its
/// values, which must be finite with no negative second moment.
pub open spec fn state_error(s: TrainerView) -> Option<&'static str> {
    if !train_ok(s.train) {
        Some("invalid optimizer configuration")
    } else if s.m.len() != s.parameters.len() || s.v.len() != s.parameters.len() || !all_finite(
        s.parameters,
    ) || !all_finite(s.m) || !all_finite(s.v) || !none_negative(s.v) {
        Some("trainer state is invalid")
    } else {
        None
    }
}

/// Whether every value of `xs` is finite.
pub fn check_finite(xs: &[u32]) -> (r: bool)
    ensures
        r == all_finite(xs@),
{
    let mut i: usize = 0;
    while i < xs.len()
        invariant
            i <= xs@.len(),
            forall|j: int| 0 <= j < i ==> finite32(#[trigger] xs@[j]),
        decreases xs.len() - i,
    {
        if !is_finite32(xs[i]) {
            return false;
        }
        i += 1;
    }
    true
}

/// Whether no value of `xs` is below zero.
fn check_none_negative(xs: &[u32]) -> (r: bool)
    ensures
        r == none_negative(xs@),
{
    let mut i: usize = 0;
    while i < xs.len()
        invariant
            i <= xs@.len(),
            forall|j: int| 0 <= j < i ==> order_key(#[trigger] xs@[j]) >= 0,
        decreases xs.len() - i,
    {
        if is_negative32(xs[i]) {
            return false;
        }
        i += 1;
    }
    true
}

/// Checks a trainer state before it is used or saved.
pub fn validate_state(s: &TrainerState) -> (r: Result<(), &'static str>)
    ensures
        match state_error(s.view()) {
            Some(e) => r == Err::<(), &'static str>(e),
            None => r is Ok,
        },
{
    match validate_train(s.train) {
        Ok(()) => {},
        Err(e) => {
            return Err(e);
        },
    }
    let n = s.parameters.len();
    if s.m.len() != n || s.v.len() != n || !check_finite(&s.parameters) || !check_finite(&s.m)
        || !check_finite(&s.v) || !check_none_negative(&s.v) {
        return Err("trainer state is invalid");
    }
    Ok(())
}

/// The eight bytes `CH38LM02` that open a saved trainer.
pub open spec fn magic38() -> Seq<u8> {
    seq![0x43u8, 0x48u8, 0x33u8, 0x38u8, 0x4cu8, 0x4du8, 0x30u8, 0x32u8]
}

/// The bytes of `ws`, `width` little-endian bytes each.
pub open spec fn items_bytes(ws: Seq<nat>, width: nat) -> Seq<u8>
    decreases ws.len(),
{
    if ws.len() == 0 {
        Seq::empty()
    } else {
        items_bytes(ws.drop_last(), width) + le_bytes(ws.last(), width)
    }
}

/// The dimensions in file order.
pub open spec fn dims_values(c: Config) -> Seq<nat> {
    seq![
        c.vocab_size as nat,
        c.context as nat,
        c.width as nat,
        c.heads as nat,
        c.layers as nat,
        c.ff_width as nat,
    ]
}

/// The `f32` settings in file order.
pub open spec fn settings_values(t: TrainConfig) -> Seq<nat> {
    seq![
        t.peak_learning_rate_bits as nat,
        t.min_learning_rate_bits as nat,
        t.weight_decay_bits as nat,
        t.beta1_bits as nat,
        t.beta2_bits as nat,
        t.epsilon_bits as nat,
        t.clip_norm_bits as nat,
    ]
}

/// The step counts, position, generator state, fingerprint and parameter
/// count, in file order.
pub open spec fn counter_values(s: TrainerView) -> Seq<nat> {
    seq![
        s.train.warmup_steps as nat,
        s.train.total_steps as nat,
        s.step as nat,
        s.data_cursor as nat,
        s.rng_state as nat,
        s.data_fingerprint as nat,
        s.parameters.len(),
    ]
}

/// Bit patterns as numbers.
pub open spec fn bits_values(xs: Seq<u32>) -> Seq<nat> {
    xs.map_values(|x: u32| x as nat)
}

/// The bytes of a saved trainer: the magic, the dimensions (eight bytes
/// each), the `f32` settings (four bytes each), the counters (eight bytes
/// each), then the parameters, first moments and second moments (four
/// bytes each).
pub open spec fn trainer_bytes(s: TrainerView) -> Seq<u8> {
    magic38() + items_bytes(dims_values(s.config), 8) + items_bytes(settings_values(s.train), 4)
        + items_bytes(counter_values(s), 8) + items_bytes(bits_values(s.parameters + s.m + s.v), 4)
}

/// Appends the `width` little-endian bytes of `x`.
fn push_le(out: &mut Vec<u8>, x: u64, width: usize)
    ensures
        final(out)@ == old(out)@ + le_bytes(x as nat, width as nat),
{
    let mut v: u64 = x;
    let mut k: usize = 0;
    while k < width
        invariant
            k <= width,
            out@ + le_bytes(v as nat, (width - k) as nat) == old(out)@ + le_bytes(x as nat, width as nat),
        decreases width - k,
    {
        let ghost before = out@;
        let ghost rest = le_bytes(v as nat, (width - k) as nat);
        assert(rest =~= seq![(v % 256) as u8] + le_bytes((v / 256) as nat, (width - k - 1) as nat));
        out.push((v % 256) as u8);
        assert(out@ + le_bytes((v / 256) as nat, (width - k - 1) as nat) =~= before + rest);
        v = v / 256;
        k += 1;
    }
    assert(out@ + le_bytes(v as nat, 0) =~= out@);
}

/// Appends `width` little-endian bytes of every word of `ws`.
fn push_items(out: &mut Vec<u8>, ws: &[u64], width: usize)
    ensures
        final(out)@ == old(out)@ + items_bytes(ws@.map_values(|w: u64| w as nat), width as nat),
{
    let ghost all = ws@.map_values(|w: u64| w as nat);
    let mut i: usize = 0;
    while i < ws.len()
        invariant
            i <= ws@.len(),
            all == ws@.map_values(|w: u64| w as nat),
            out@ == old(out)@ + items_bytes(all.take(i as int), width as nat),
        decreases ws.len() - i,
    {
        push_le(out, ws[i], width);
        proof {
            let vs = all.take(i + 1);
            assert(vs.drop_last() =~= all.take(i as int));
            assert(vs.last() == ws@[i as int] as nat);
            assert(out@ =~= old(out)@ + items_bytes(vs, width as nat));
        }
        i += 1;
    }
    assert(all.take(ws@.len() as int) =~= all);
}

/// Appends the four little-endian bytes of every bit pattern of `xs`.
pub fn push_bits(out: &mut Vec<u8>, xs: &[u32])
    ensures
        final(out)@ == old(out)@ + items_bytes(bits_values(xs@), 4),
{
    let ghost all = bits_values(xs@);
    let mut i: usize = 0;
    while i < xs.len()
        invariant
            i <= xs@.len(),
            all == bits_values(xs@),
            out@ == old(out)@ + items_bytes(all.take(i as int), 4),
        decreases xs.len() - i,
    {
        push_le(out, xs[i] as u64, 4);
        proof {
            let vs = all.take(i + 1);
            assert(vs.drop_last() =~= all.take(i as int));
            assert(vs.last() == xs@[i as int] as nat);
            assert(out@ =~= old(out)@ + items_bytes(vs, 4));
        }
        i += 1;
    }
    assert(all.take(xs@.len() as int) =~= all);
}

/// The bytes of two runs of items are the bytes of each, one after the
/// other.
pub proof fn lemma_items_bytes_append(a: Seq<nat>, b: Seq<nat>, width: nat)
    ensures
        items_bytes(a + b, width) == items_bytes(a, width) + items_bytes(b, width),
    decreases b.len(),
{
    if b.len() == 0 {
        assert(a + b =~= a);
        assert(items_bytes(a, width) + items_bytes(b, width) =~= items_bytes(a, width));
    } else {
        lemma_items_bytes_append(a, b.drop_last(), width);
        assert((a + b).drop_last() =~= a + b.drop_last());
        assert((a + b).last() == b.last());
        assert(items_bytes(a, width) + items_bytes(b.drop_last(), width) + le_bytes(b.last(), width)
            =~= items_bytes(a, width) + items_bytes(b, width));
    }
}

/// The bytes of a trainer state, after checking that it can be saved.
pub fn encode_trainer(s: &TrainerState) -> (r: Result<Vec<u8>, &'static str>)
    ensures
        match state_error(s.view()) {
            Some(e) => r == Err::<Vec<u8>, &'static str>(e),
            None => r matches Ok(b) && b@ == trainer_bytes(s.view()),
        },
{
    match validate_state(s) {
        Ok(()) => {},
        Err(e) => {
            return Err(e);
        },
    }
    let mut out: Vec<u8> = vec![0x43, 0x48, 0x33, 0x38, 0x4c, 0x4d, 0x30, 0x32];
    assert(out@ =~= magic38());
    let c = s.config;
    let dims: Vec<u64> = vec![
        c.vocab_size as u64,
        c.context as u64,
        c.width as u64,
        c.heads as u64,
        c.layers as u64,
        c.ff_width as u64,
    ];
    push_items(&mut out, &dims, 8);
    let t = s.train;
    let settings: Vec<u64> = vec![
        t.peak_learning_rate_bits as u64,
        t.min_learning_rate_bits as u64,
        t.weight_decay_bits as u64,
        t.beta1_bits as u64,
        t.beta2_bits as u64,
        t.epsilon_bits as u64,
        t.clip_norm_bits as u64,
    ];
    push_items(&mut out, &settings, 4);
    let counters: Vec<u64> = vec![
        t.warmup_steps,
        t.total_steps,
        s.step,
        s.data_cursor as u64,
        s.rng_state,
        s.data_fingerprint,
        s.parameters.len() as u64,
    ];
    push_items(&mut out, &counters, 8);
    push_bits(&mut out, &s.parameters);
    push_bits(&mut out, &s.m);
    push_bits(&mut out, &s.v);
    proof {
        let sv = s.view();
        assert(dims@.map_values(|w: u64| w as nat) =~= dims_values(c));
        assert(settings@.map_values(|w: u64| w as nat) =~= settings_values(t));
        assert(counters@.map_values(|w: u64| w as nat) =~= counter_values(sv));
        assert(bits_values(sv.parameters + sv.m + sv.v) =~= bits_values(sv.parameters) + bits_values(
            sv.m,
        ) + bits_values(sv.v));
        lemma_items_bytes_append(bits_values(sv.parameters), bits_values(sv.m), 4);
        lemma_items_bytes_append(bits_values(sv.parameters) + bits_values(sv.m), bits_values(sv.v), 4);
        assert(out@ =~= trainer_bytes(sv));
    }
    Ok(out)
}

/// Where header field `i` starts: six dimensions of eight bytes, seven
/// `f32` settings of four, then seven counters of eight.
pub open spec fn field_start(i: int) -> int {
    if i <= 6 {
        8 + 8 * i
    } else if i <= 13 {
        56 + 4 * (i - 6)
    } else {
        84 + 8 * (i - 13)
    }
}

/// How many bytes header field `i` takes.
pub open spec fn field_width(i: int) -> int {
    if 6 <= i < 13 {
        4
    } else {
        8
    }
}

/// The header fields read as `usize`: the dimensions, the data position
/// and the parameter count.
pub open spec fn field_is_usize(i: int) -> bool {
    i < 6 || i == 16 || i == 19
}

/// The little-endian value of header field `i`.
pub open spec fn field_value(b: Seq<u8>, i: int) -> nat {
    le_value(b.subrange(field_start(i), field_start(i) + field_width(i)))
}

/// Why reading header field `i` fails, if it does.
pub open spec fn field_failure(b: Seq<u8>, i: int) -> Option<&'static str> {
    if b.len() < field_start(i) + field_width(i) {
        Some("truncated checkpoint")
    } else if field_is_usize(i) && field_value(b, i) > usize::MAX {
        Some("checkpoint dimension exceeds usize")
    } else {
        None
    }
}

/// The first failure reading header fields `from..to` in order, if any.
pub open spec fn fields_failure(b: Seq<u8>, from: int, to: int) -> Option<&'static str>
    decreases to - from,
{
    if from >= to {
        None
    } else {
        match field_failure(b, from) {
            Some(e) => Some(e),
            None => fields_failure(b, from + 1, to),
        }
    }
}

/// The dimensions stored in fields 0 to 5.
pub open spec fn stored_config(b: Seq<u8>) -> Config {
    Config {
        vocab_size: field_value(b, 0) as usize,
        context: field_value(b, 1) as usize,
        width: field_value(b, 2) as usize,
        heads: field_value(b, 3) as usize,
        layers: field_value(b, 4) as usize,
        ff_width: field_value(b, 5) as usize,
    }
}

/// The optimizer settings stored in fields 6 to 14.
pub open spec fn stored_train(b: Seq<u8>) -> TrainConfig {
    TrainConfig {
        peak_learning_rate_bits: field_value(b, 6) as u32,
        min_learning_rate_bits: field_value(b, 7) as u32,
        weight_decay_bits: field_value(b, 8) as u32,
        beta1_bits: field_value(b, 9) as u32,
        beta2_bits: field_value(b, 10) as u32,
        epsilon_bits: field_value(b, 11) as u32,
        clip_norm_bits: field_value(b, 12) as u32,
        warmup_steps: field_value(b, 13) as u64,
        total_steps: field_value(b, 14) as u64,
    }
}

/// Why the dimensions give no parameter count, if they do not.
pub open spec fn count_error(c: Config) -> Option<&'static str> {
    if !dims_valid(c) {
        Some(c.validate_spec_error().0)
    } else if total_params(c) > usize::MAX {
        Some("parameter count overflow")
    } else if total_params(c) > allocation_limit() {
        Some("parameter buffer exceeds Rust allocation limit")
    } else {
        None
    }
}

/// Size of the header: the magic and twenty fields.
pub open spec fn header38_len() -> int {
    140
}

/// The `n` four-byte little-endian values of `b` from byte `start` on.
pub open spec fn bits_at(b: Seq<u8>, start: int, n: nat) -> Seq<u32> {
    Seq::new(n, |i: int| le_value(b.subrange(start + 4 * i, start + 4 * i + 4)) as u32)
}

/// What the bytes of a saved trainer hold, or why they are refused: each
/// check is made in file order, before the fields after it are read.
pub open spec fn decode_trainer_spec(b: Seq<u8>) -> Result<TrainerView, &'static str> {
    if b.len() < 8 {
        Err("truncated checkpoint")
    } else if b.subrange(0, 8) != magic38() {
        Err("bad checkpoint header")
    } else {
        match fields_failure(b, 0, 15) {
            Some(e) => Err(e),
            None => {
                let config = stored_config(b);
                let train = stored_train(b);
                if !train_ok(train) {
                    Err("invalid optimizer configuration")
                } else {
                    match fields_failure(b, 15, 18) {
                        Some(e) => Err(e),
                        None => if field_value(b, 17) == 0 {
                            Err("RNG state cannot be zero")
                        } else {
                            match fields_failure(b, 18, 20) {
                                Some(e) => Err(e),
                                None => {
                                    let n = field_value(b, 19);
                                    match count_error(config) {
                                        Some(e) => Err(e),
                                        None => if n != total_params(config) {
                                            Err("checkpoint parameter count does not match dimensions")
                                        } else if n * 12 > usize::MAX {
                                            Err("checkpoint size overflow")
                                        } else if b.len() - header38_len() != n * 12 {
                                            Err("checkpoint length does not match parameter count")
                                        } else {
                                            let ps = bits_at(b, header38_len(), n);
                                            let ms = bits_at(b, header38_len() + 4 * n, n);
                                            let vs = bits_at(b, header38_len() + 8 * n, n);
                                            if !all_finite(ps) || !all_finite(ms) || !all_finite(vs)
                                                || !none_negative(vs) {
                                                Err("checkpoint length or values are invalid")
                                            } else {
                                                Ok(
                                                    TrainerView {
                                                        config,
                                                        train,
                                                        step: field_value(b, 15) as u64,
                                                        data_cursor: field_value(b, 16) as usize,
                                                        rng_state: field_value(b, 17) as u64,
                                                        data_fingerprint: field_value(b, 18) as u64,
                                                        parameters: ps,
                                                        m: ms,
                                                        v: vs,
                                                    },
                                                )
                                            }
                                        },
                                    }
                                },
                            }
                        },
                    }
                }
            },
        }
    }
}

/// Reads header fields `from..to`, each as its format says.
fn read_fields(reader: &mut Reader, from: usize, to: usize) -> (r: Result<Vec<u64>, &'static str>)
    requires
        from <= to <= 20,
        old(reader).at == field_start(from as int),
    ensures
        final(reader).bytes@ == old(reader).bytes@,
        match r {
            Ok(ws) => fields_failure(old(reader).bytes@, from as int, to as int) is None && ws@.len()
                == to - from && final(reader).at == field_start(to as int) && forall|j: int|
                0 <= j < ws@.len() ==> #[trigger] ws@[j] == field_value(old(reader).bytes@, from + j)
                && (field_is_usize(from + j) ==> ws@[j] <= usize::MAX) && (field_width(from + j) == 4
                ==> ws@[j] <= u32::MAX),
            Err(e) => fields_failure(old(reader).bytes@, from as int, to as int) == Some(e),
        },
{
    let ghost b = reader.bytes@;
    let mut ws: Vec<u64> = Vec::new();
    let mut k: usize = from;
    while k < to
        invariant
            from <= k <= to <= 20,
            b == old(reader).bytes@,
            reader.bytes@ == b,
            reader.at == field_start(k as int),
            fields_failure(b, from as int, to as int) == fields_failure(b, k as int, to as int),
            ws@.len() == k - from,
            forall|j: int|
                0 <= j < ws@.len() ==> #[trigger] ws@[j] == field_value(b, from + j) && (
                field_is_usize(from + j) ==> ws@[j] <= usize::MAX) && (field_width(from + j) == 4
                    ==> ws@[j] <= u32::MAX),
        decreases to - k,
    {
        let v = if 6 <= k && k < 13 {
            proof {
                if reader.at + 4 <= b.len() {
                    lemma_le_value_bound(b.subrange(reader.at as int, reader.at + 4));
                    lemma_byte_powers();
                }
            }
            match reader.f32_bits() {
                Ok(v) => v as u64,
                Err(e) => {
                    return Err(e);
                },
            }
        } else if k < 6 || k == 16 || k == 19 {
            match reader.usize() {
                Ok(v) => v as u64,
                Err(e) => {
                    return Err(e);
                },
            }
        } else {
            match reader.u64() {
                Ok(v) => v,
                Err(e) => {
                    return Err(e);
                },
            }
        };
        ws.push(v);
        k += 1;
    }
    Ok(ws)
}

/// The `n` four-byte little-endian values of `bytes` from `start` on.
pub fn read_bits(bytes: &[u8], start: usize, n: usize) -> (out: Vec<u32>)
    requires
        start + 4 * n <= bytes@.len(),
    ensures
        out@ == bits_at(bytes@, start as int, n as nat),
{
    let len = bytes.len();
    let mut out: Vec<u32> = Vec::new();
    let mut i: usize = 0;
    while i < n
        invariant
            i <= n,
            len == bytes@.len(),
            start + 4 * n <= bytes@.len(),
            out@.len() == i,
            forall|j: int| 0 <= j < i ==> #[trigger] out@[j] == bits_at(bytes@, start as int, n as nat)[j],
        decreases n - i,
    {
        assert(4 * i + 4 <= 4 * n) by (nonlinear_arith)
            requires
                i < n,
        ;
        let at = start + 4 * i;
        let w = le_word(bytes, at, 4);
        proof {
            lemma_le_value_bound(bytes@.subrange(at as int, at + 4));
            lemma_byte_powers();
        }
        out.push(w as u32);
        i += 1;
    }
    assert(out@ =~= bits_at(bytes@, start as int, n as nat));
    out
}

/// Reads a saved trainer, checking every field before it is used.
pub fn decode_trainer(bytes: &[u8]) -> (r: Result<TrainerState, &'static str>)
    ensures
        match r {
            Ok(s) => decode_trainer_spec(bytes@) == Ok::<TrainerView, &'static str>(s.view()),
            Err(e) => decode_trainer_spec(bytes@) == Err::<TrainerView, &'static str>(e),
        },
{
    let ghost b = bytes@;
    let mut reader = Reader::new(bytes);
    let head = match reader.take(8) {
        Ok(h) => h,
        Err(e) => {
            return Err(e);
        },
    };
    if !(head[0] == 0x43 && head[1] == 0x48 && head[2] == 0x33 && head[3] == 0x38 && head[4] == 0x4c
        && head[5] == 0x4d && head[6] == 0x30 && head[7] == 0x32) {
        proof {
            if b.subrange(0, 8) == magic38() {
                assert(head@[0] == magic38()[0]);
                assert(head@[7] == magic38()[7]);
            }
        }
        return Err("bad checkpoint header");
    }
    assert(b.subrange(0, 8) =~= magic38());
    let w1 = match read_fields(&mut reader, 0, 15) {
        Ok(w) => w,
        Err(e) => {
            return Err(e);
        },
    };
    let config = Config {
        vocab_size: w1[0] as usize,
        context: w1[1] as usize,
        width: w1[2] as usize,
        heads: w1[3] as usize,
        layers: w1[4] as usize,
        ff_width: w1[5] as usize,
    };
    let train = TrainConfig {
        peak_learning_rate_bits: w1[6] as u32,
        min_learning_rate_bits: w1[7] as u32,
        weight_decay_bits: w1[8] as u32,
        beta1_bits: w1[9] as u32,
        beta2_bits: w1[10] as u32,
        epsilon_bits: w1[11] as u32,
        clip_norm_bits: w1[12] as u32,
        warmup_steps: w1[13],
        total_steps: w1[14],
    };
    assert(config == stored_config(b));
    assert(train == stored_train(b));
    match validate_train(train) {
        Ok(()) => {},
        Err(e) => {
            return Err(e);
        },
    }
    let w2 = match read_fields(&mut reader, 15, 18) {
        Ok(w) => w,
        Err(e) => {
            return Err(e);
        },
    };
    let step = w2[0];
    let data_cursor = w2[1] as usize;
    let rng_state = match Rng::from_state(w2[2]) {
        Ok(_) => w2[2],
        Err(e) => {
            return Err(e.0);
        },
    };
    let w3 = match read_fields(&mut reader, 18, 20) {
        Ok(w) => w,
        Err(e) => {
            return Err(e);
        },
    };
    let data_fingerprint = w3[0];
    let n = w3[1] as usize;
    proof {
        reveal_with_fuel(fields_failure, 3);
        assert(field_failure(b, 19) is None);
    }
    let count = match config.parameter_count() {
        Ok(c) => c,
        Err(e) => {
            return Err(e.0);
        },
    };
    if n != count {
        return Err("checkpoint parameter count does not match dimensions");
    }
    let remaining = match n.checked_mul(3) {
        Some(x) => match x.checked_mul(4) {
            Some(y) => y,
            None => {
                return Err("checkpoint size overflow");
            },
        },
        None => {
            return Err("checkpoint size overflow");
        },
    };
    if bytes.len() - reader.at != remaining {
        return Err("checkpoint length does not match parameter count");
    }
    let parameters = read_bits(bytes, 140, n);
    let m = read_bits(bytes, 140 + 4 * n, n);
    let v = read_bits(bytes, 140 + 8 * n, n);
    if !check_finite(&parameters) || !check_finite(&m) || !check_finite(&v) || !check_none_negative(&v) {
        return Err("checkpoint length or values are invalid");
    }
    Ok(TrainerState { config, train, step, data_cursor, rng_state, data_fingerprint, parameters, m, v })
}

/// Items of `width` bytes take `width` bytes each.
pub proof fn lemma_items_len(ws: Seq<nat>, width: nat)
    ensures
        items_bytes(ws, width).len() == width * ws.len(),
    decreases ws.len(),
{
    if ws.len() > 0 {
        lemma_items_len(ws.drop_last(), width);
        lemma_le_bytes_len(ws.last(), width);
        assert(width * (ws.len() - 1) + width == width * ws.len()) by (nonlinear_arith);
    }
}

/// Item `i` takes bytes `width * i` to `width * i + width`.
proof fn lemma_items_slice(ws: Seq<nat>, width: nat, i: int)
    requires
        0 <= i < ws.len(),
    ensures
        items_bytes(ws, width).subrange(width * i, width * i + width) == le_bytes(ws[i], width),
    decreases ws.len(),
{
    let front = ws.drop_last();
    lemma_items_len(ws, width);
    lemma_items_len(front, width);
    lemma_le_bytes_len(ws.last(), width);
    if i < ws.len() - 1 {
        lemma_items_slice(front, width, i);
        assert(width * i + width <= width * front.len()) by (nonlinear_arith)
            requires
                i + 1 <= front.len(),
        ;
        assert(items_bytes(ws, width).subrange(width * i, width * i + width) =~= items_bytes(
            front,
            width,
        ).subrange(width * i, width * i + width));
    } else {
        assert(width * i == width * front.len());
        assert(items_bytes(ws, width).subrange(width * i, width * i + width) =~= le_bytes(
            ws.last(),
            width,
        ));
    }
}

/// An item that fits in its width reads back from wherever its run of
/// items stands.
pub proof fn lemma_item_at(x: Seq<u8>, ws: Seq<nat>, width: nat, y: Seq<u8>, i: int)
    requires
        0 <= i < ws.len(),
        ws[i] < byte_power(width),
    ensures
        le_value((x + items_bytes(ws, width) + y).subrange(
            x.len() + width * i,
            x.len() + width * i + width,
        )) == ws[i],
{
    let items = items_bytes(ws, width);
    lemma_items_len(ws, width);
    lemma_items_slice(ws, width, i);
    assert(width * i + width <= width * ws.len()) by (nonlinear_arith)
        requires
            i + 1 <= ws.len(),
    ;
    assert((x + items + y).subrange(x.len() + width * i, x.len() + width * i + width) =~= items.subrange(
        width * i,
        width * i + width,
    ));
    lemma_le_bytes_round_trip(ws[i], width);
}

/// Reading fields `from..to` of bytes long enough, whose `usize` fields
/// fit, does not fail.
proof fn lemma_fields_ok(b: Seq<u8>, from: int, to: int)
    requires
        0 <= from <= to <= 20,
        b.len() >= field_start(to),
        forall|k: int| from <= k < to && field_is_usize(k) ==> #[trigger] field_value(b, k) <= usize::MAX,
    ensures
        fields_failure(b, from, to) is None,
    decreases to - from,
{
    if from < to {
        assert(field_start(from) + field_width(from) <= field_start(to));
        lemma_fields_ok(b, from + 1, to);
    }
}

/// Saving a trainer state and reading the bytes back gives the same state,
/// bit for bit, whenever it can be saved: its generator state is never
/// zero, its dimensions give a parameter count, its parameter buffer has
/// that length, and its bytes fit in memory.
#[verifier::spinoff_prover]
#[verifier::rlimit(40)]
pub proof fn lemma_trainer_round_trip(s: TrainerView)
    requires
        state_error(s) is None,
        s.rng_state != 0,
        count_error(s.config) is None,
        s.parameters.len() == total_params(s.config),
        s.parameters.len() * 12 <= usize::MAX,
    ensures
        decode_trainer_spec(trainer_bytes(s)) == Ok::<TrainerView, &'static str>(s),
{
    let n = s.parameters.len();
    let dims = dims_values(s.config);
    let settings = settings_values(s.train);
    let counters = counter_values(s);
    let all = bits_values(s.parameters + s.m + s.v);
    let a = items_bytes(dims, 8);
    let bb = items_bytes(settings, 4);
    let c = items_bytes(counters, 8);
    let d = items_bytes(all, 4);
    let b = trainer_bytes(s);
    lemma_byte_powers();
    lemma_items_len(dims, 8);
    lemma_items_len(settings, 4);
    lemma_items_len(counters, 8);
    lemma_items_len(all, 4);
    assert(b.len() == 140 + 12 * n);
    assert(b.subrange(0, 8) =~= magic38());
    assert forall|i: int| 0 <= i < 6 implies #[trigger] field_value(b, i) == dims[i] by {
        assert(b =~= magic38() + a + (bb + c + d));
        lemma_item_at(magic38(), dims, 8, bb + c + d, i);
    }
    assert forall|k: int| 0 <= k < 7 implies #[trigger] field_value(b, 6 + k) == settings[k] by {
        assert(b =~= (magic38() + a) + bb + (c + d));
        lemma_item_at(magic38() + a, settings, 4, c + d, k);
    }
    assert forall|k: int| 0 <= k < 7 implies #[trigger] field_value(b, 13 + k) == counters[k] by {
        assert(b =~= (magic38() + a + bb) + c + d);
        lemma_item_at(magic38() + a + bb, counters, 8, d, k);
    }
    assert forall|j: int| 0 <= j < 3 * n implies #[trigger] le_value(b.subrange(140 + 4 * j, 140 + 4 * j + 4))
        == all[j] by {
        assert(b =~= (magic38() + a + bb + c) + d + Seq::<u8>::empty());
        lemma_item_at(magic38() + a + bb + c, all, 4, Seq::<u8>::empty(), j);
    }
    assert(field_value(b, 0) == dims[0]);
    assert(field_value(b, 1) == dims[1]);
    assert(field_value(b, 2) == dims[2]);
    assert(field_value(b, 3) == dims[3]);
    assert(field_value(b, 4) == dims[4]);
    assert(field_value(b, 5) == dims[5]);
    assert(field_value(b, 6int + 0) == settings[0]);
    assert(field_value(b, 6int + 1) == settings[1]);
    assert(field_value(b, 6int + 2) == settings[2]);
    assert(field_value(b, 6int + 3) == settings[3]);
    assert(field_value(b, 6int + 4) == settings[4]);
    assert(field_value(b, 6int + 5) == settings[5]);
    assert(field_value(b, 6int + 6) == settings[6]);
    assert(field_value(b, 13int + 0) == counters[0]);
    assert(field_value(b, 13int + 1) == counters[1]);
    assert(field_value(b, 13int + 2) == counters[2]);
    assert(field_value(b, 13int + 3) == counters[3]);
    assert(field_value(b, 13int + 4) == counters[4]);
    assert(field_value(b, 13int + 5) == counters[5]);
    assert(field_value(b, 13int + 6) == counters[6]);
    lemma_fields_ok(b, 0, 15);
    lemma_fields_ok(b, 15, 18);
    lemma_fields_ok(b, 18, 20);
    assert(stored_config(b) == s.config);
    assert(stored_train(b) == s.train);
    let ps = bits_at(b, 140, n);
    let ms = bits_at(b, 140 + 4 * (n as int), n);
    let vs = bits_at(b, 140 + 8 * (n as int), n);
    assert forall|j: int| 0 <= j < n implies #[trigger] ps[j] == s.parameters[j] by {
        assert(le_value(b.subrange(140 + 4 * j, 140 + 4 * j + 4)) == all[j]);
    }
    assert forall|j: int| 0 <= j < n implies #[trigger] ms[j] == s.m[j] by {
        assert(le_value(b.subrange(140 + 4 * (n + j), 140 + 4 * (n + j) + 4)) == all[n + j]);
    }
    assert forall|j: int| 0 <= j < n implies #[trigger] vs[j] == s.v[j] by {
        assert(le_value(b.subrange(140 + 4 * (2 * n + j), 140 + 4 * (2 * n + j) + 4)) == all[2 * n + j]);
    }
    assert(ps =~= s.parameters);
    assert(ms =~= s.m);
    assert(vs =~= s.v);
    let view = TrainerView {
        config: stored_config(b),
        train: stored_train(b),
        step: field_value(b, 15) as u64,
        data_cursor: field_value(b, 16) as usize,
        rng_state: field_value(b, 17) as u64,
        data_fingerprint: field_value(b, 18) as u64,
        parameters: ps,
        m: ms,
        v: vs,
    };
    assert(view =~= s);
}

/// `k` xorshift steps from `x`.
pub open spec fn xorshift_steps(x: u64, k: nat) -> u64
    decreases k,
{
    if k == 0 {
        x
    } else {
        xorshift(xorshift_steps(x, (k - 1) as nat))
    }
}

/// The data position after `k` micro-batches: each moves it on by the
/// window length, wrapping at `max`.
pub open spec fn window_cursor(start: int, tokens: int, max: int, k: nat) -> int
    decreases k,
{
    if k == 0 {
        start
    } else {
        (window_cursor(start, tokens, max, (k - 1) as nat) + tokens) % max
    }
}

/// The fingerprint a trainer keeps of its data.
pub open spec fn data_fingerprint(data: Seq<usize>) -> u64 {
    fnv1a(words_bytes(token_values(data)))
}

/// Why a step of gradient accumulation is refused, if it is, checked in
/// the order the trainer checks it: its state, the window length and the
/// number of micro-batches, the data length, the data it was trained on
/// before, and the first move of the data position.
pub open spec fn accumulation_error(s: TrainerView, data: Seq<usize>, tokens: int, micro_batches: int) -> Option<
    &'static str,
> {
    match state_error(s) {
        Some(e) => Some(e),
        None => if tokens == 0 || tokens > s.config.context || micro_batches == 0 {
            Some("invalid accumulation dimensions or corpus too short")
        } else if tokens + 1 > usize::MAX {
            Some("token count overflow")
        } else if data.len() < tokens + 1 {
            Some("invalid accumulation dimensions or corpus too short")
        } else if s.data_fingerprint != 0 && s.data_fingerprint != data_fingerprint(data) {
            Some("training data differs from checkpoint")
        } else if s.data_cursor + tokens > usize::MAX {
            Some("data cursor overflow")
        } else {
            None
        },
    }
}

/// What a step of gradient accumulation reads and where it leaves the
/// trainer: the start of each micro-batch's window, the next data
/// position, the generator state and the fingerprint of the data.
#[derive(Clone, Debug)]
pub struct Accumulation {
    pub starts: Vec<usize>,
    pub data_cursor: usize,
    pub rng_state: u64,
    pub data_fingerprint: u64,
}

/// Plans a step of gradient accumulation over `micro_batches` windows of
/// `tokens` inputs each (their targets one token on): window `k` starts at
/// the data position after `k` moves, taken modulo the number of window
/// starts; the generator advances once per micro-batch.
pub fn plan_accumulation(s: &TrainerState, data: &[usize], tokens: usize, micro_batches: usize) -> (r: Result<
    Accumulation,
    &'static str,
>)
    requires
        s.rng_state != 0,
    ensures
        match accumulation_error(s.view(), data@, tokens as int, micro_batches as int) {
            Some(e) => r == Err::<Accumulation, &'static str>(e),
            None => r matches Ok(p) && {
                let max = data@.len() - tokens;
                &&& p.starts@.len() == micro_batches
                &&& forall|k: int|
                    0 <= k < micro_batches ==> #[trigger] p.starts@[k] == window_cursor(
                        s.data_cursor as int,
                        tokens as int,
                        max,
                        k as nat,
                    ) % max
                &&& forall|k: int| 0 <= k < micro_batches ==> #[trigger] p.starts@[k] + tokens < data@.len()
                &&& p.data_cursor == window_cursor(
                    s.data_cursor as int,
                    tokens as int,
                    max,
                    micro_batches as nat,
                )
                &&& p.rng_state == xorshift_steps(s.rng_state, micro_batches as nat)
                &&& p.data_fingerprint == data_fingerprint(data@)
            },
        },
{
    match validate_state(s) {
        Ok(()) => {},
        Err(e) => {
            return Err(e);
        },
    }
    if tokens == 0 || tokens > s.config.context || micro_batches == 0 {
        return Err("invalid accumulation dimensions or corpus too short");
    }
    let need = match tokens.checked_add(1) {
        Some(x) => x,
        None => {
            return Err("token count overflow");
        },
    };
    if data.len() < need {
        return Err("invalid accumulation dimensions or corpus too short");
    }
    let fingerprint = token_fingerprint(data);
    if s.data_fingerprint != 0 && s.data_fingerprint != fingerprint {
        return Err("training data differs from checkpoint");
    }
    let len = data.len();
    let max = len - tokens;
    let ghost c0 = s.data_cursor as int;
    let mut cursor = s.data_cursor;
    let mut rng = Rng::new(s.rng_state);
    let mut starts: Vec<usize> = Vec::new();
    let mut k: usize = 0;
    while k < micro_batches
        invariant
            len == data@.len(),
            0 < max == data@.len() - tokens,
            fingerprint == data_fingerprint(data@),
            accumulation_error(s.view(), data@, tokens as int, micro_batches as int) == if c0 + tokens
                > usize::MAX {
                Some("data cursor overflow")
            } else {
                None::<&'static str>
            },
            k <= micro_batches,
            cursor == window_cursor(c0, tokens as int, max as int, k as nat),
            k > 0 ==> cursor < max && c0 + tokens <= usize::MAX,
            k == 0 ==> cursor == c0,
            micro_batches > 0,
            rng.state_spec() == xorshift_steps(s.rng_state, k as nat),
            starts@.len() == k,
            forall|j: int|
                0 <= j < k ==> #[trigger] starts@[j] == window_cursor(c0, tokens as int, max as int, j as nat)
                    % (max as int),
        decreases micro_batches - k,
    {
        starts.push(cursor % max);
        cursor = match cursor.checked_add(tokens) {
            Some(x) => x % max,
            None => {
                return Err("data cursor overflow");
            },
        };
        let _ = rng.next_u64();
        k += 1;
    }
    assert forall|j: int| 0 <= j < micro_batches implies #[trigger] starts@[j] + tokens < data@.len() by {
        assert(starts@[j] < max);
    }
    Ok(Accumulation { starts, data_cursor: cursor, rng_state: rng.state(), data_fingerprint: fingerprint })
}


/// A key above zero belongs to a positive `f32`: its sign bit is clear and
/// it is not zero; a key at or above zero has its sign bit clear or is
/// negative zero. With its sign bit clear, an `f32` is finite exactly when
/// it lies below positive infinity.
pub proof fn lemma_order_key_sign(b: u32)
    ensures
        order_key(b) > 0 <==> 0 < b < 0x8000_0000u32,
        order_key(b) >= 0 <==> (b < 0x8000_0000u32 || b == 0x8000_0000u32),
        b <= 0x8000_0000u32 ==> (finite32(b) <==> (b < 0x7f80_0000u32 || b == 0x8000_0000u32)),
        b < 0x8000_0000u32 ==> order_key(b) == b,
        b == 0x8000_0000u32 ==> order_key(b) == 0,
{
    assert(b >> 31u32 == 1u32 <==> b >= 0x8000_0000u32) by (bit_vector);
    assert(b < 0x8000_0000u32 ==> b & 0x7fff_ffffu32 == b) by (bit_vector);
    assert(b >= 0x8000_0000u32 ==> (b & 0x7fff_ffffu32 == 0 <==> b == 0x8000_0000u32)) by (bit_vector);
    assert(b <= 0x8000_0000u32 ==> ((b >> 23u32) & 0xffu32 != 0xffu32 <==> (b < 0x7f80_0000u32 || b
        == 0x8000_0000u32))) by (bit_vector);
}

/// The optimizer settings accepted are those with a finite positive peak
/// learning rate, epsilon and clipping norm, a finite learning-rate floor
/// no higher than the peak and weight decay that are not negative, betas
/// in `[0, 1)`, at least one step and no more
/// warmup steps than steps: in particular a clipping norm that is zero or
/// negative is always refused.
pub proof fn lemma_accepted_settings(c: TrainConfig)
    ensures
        train_ok(c) <==> {
            &&& 0 < c.peak_learning_rate_bits < 0x7f80_0000u32
            &&& 0 < c.epsilon_bits < 0x7f80_0000u32
            &&& 0 < c.clip_norm_bits < 0x7f80_0000u32
            &&& c.min_learning_rate_bits <= c.peak_learning_rate_bits || c.min_learning_rate_bits
                == 0x8000_0000u32
            &&& c.weight_decay_bits < 0x7f80_0000u32 || c.weight_decay_bits == 0x8000_0000u32
            &&& c.beta1_bits < 0x3f80_0000u32 || c.beta1_bits == 0x8000_0000u32
            &&& c.beta2_bits < 0x3f80_0000u32 || c.beta2_bits == 0x8000_0000u32
            &&& c.total_steps > 0
            &&& c.warmup_steps <= c.total_steps
        },
        (c.clip_norm_bits == 0 || c.clip_norm_bits >= 0x8000_0000u32) ==> !train_ok(c),
{
    lemma_order_key_sign(c.peak_learning_rate_bits);
    lemma_order_key_sign(c.epsilon_bits);
    lemma_order_key_sign(c.clip_norm_bits);
    lemma_order_key_sign(c.min_learning_rate_bits);
    lemma_order_key_sign(c.weight_decay_bits);
    lemma_order_key_sign(c.beta1_bits);
    lemma_order_key_sign(c.beta2_bits);
    let b1 = c.beta1_bits;
    let b2 = c.beta2_bits;
    assert(b1 < 0x8000_0000u32 ==> b1 & 0x7fff_ffffu32 == b1) by (bit_vector);
    assert(b2 < 0x8000_0000u32 ==> b2 & 0x7fff_ffffu32 == b2) by (bit_vector);
}

/// A trainer state whose clipping norm is zero or negative is neither
/// saved nor read: the writer refuses it with "invalid optimizer
/// configuration", and every state the reader accepts has a positive one.
pub proof fn lemma_nonpositive_clip_refused(s: TrainerView, b: Seq<u8>)
    ensures
        (s.train.clip_norm_bits == 0 || s.train.clip_norm_bits >= 0x8000_0000u32) ==> state_error(s)
            == Some::<&'static str>("invalid optimizer configuration"),
        decode_trainer_spec(b) matches Ok(t) ==> 0 < t.train.clip_norm_bits < 0x7f80_0000u32,
{
    lemma_accepted_settings(s.train);
    lemma_accepted_settings(stored_train(b));
}

} // verus!
