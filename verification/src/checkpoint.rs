//! The checkpoint format of the mixture-of-experts trainer: a bounds-checked
//! little-endian reader, the byte layout of a checkpoint, its writer and
//! its validating reader. Floating-point fields travel as their IEEE-754
//! bit patterns, so a checkpoint restores them bit for bit.
use vstd::prelude::*;
use crate::fnv::{fnv1a, fnv_from, fnv_step, lemma_fnv_append, FNV_OFFSET, FNV_PRIME};
use crate::kernels::{byte_power, le_value, le_word, lemma_byte_powers, lemma_le_value_bound};
use crate::moe::{dims_ok, storage_budget, total_params, validate_shape, Layout, Shape, MAX_STORAGE};

verus! {

/// A cursor over the bytes of a checkpoint.
pub struct Reader<'a> {
    pub bytes: &'a [u8],
    pub at: usize,
}

/// The 8-byte little-endian word of `b` that starts at byte `at`.
pub open spec fn word_from(b: Seq<u8>, at: int) -> nat {
    le_value(b.subrange(at, at + 8))
}

impl<'a> Reader<'a> {
    /// A reader at the start of `bytes`.
    pub fn new(bytes: &'a [u8]) -> (r: Reader<'a>)
        ensures
            r.bytes@ == bytes@,
            r.at == 0,
    {
        Reader { bytes, at: 0 }
    }

    /// The next `len` bytes.
    pub fn take(&mut self, len: usize) -> (r: Result<&'a [u8], &'static str>)
        ensures
            final(self).bytes@ == old(self).bytes@,
            old(self).at + len > usize::MAX ==> r == Err::<&'a [u8], &'static str>(
                "checkpoint offset overflow",
            ) && final(self).at == old(self).at,
            old(self).at + len <= usize::MAX && old(self).at + len > old(self).bytes@.len() ==> r
                == Err::<&'a [u8], &'static str>("truncated checkpoint") && final(self).at == old(
                self,
            ).at,
            old(self).at + len <= old(self).bytes@.len() ==> (r matches Ok(s) && s@ == old(
                self,
            ).bytes@.subrange(old(self).at as int, old(self).at + len)) && final(self).at == old(
                self,
            ).at + len,
    {
        let available = self.bytes.len();
        let end = match self.at.checked_add(len) {
            Some(e) => e,
            None => {
                return Err("checkpoint offset overflow");
            },
        };
        if end > available {
            return Err("truncated checkpoint");
        }
        let value = &self.bytes[self.at..end];
        self.at = end;
        Ok(value)
    }

    /// The next little-endian `u64`.
    pub fn u64(&mut self) -> (r: Result<u64, &'static str>)
        ensures
            final(self).bytes@ == old(self).bytes@,
            old(self).at + 8 > old(self).bytes@.len() ==> r == Err::<u64, &'static str>(
                "truncated checkpoint",
            ) && final(self).at == old(self).at,
            old(self).at + 8 <= old(self).bytes@.len() ==> r == Ok::<u64, &'static str>(
                word_from(old(self).bytes@, old(self).at as int) as u64,
            ) && final(self).at == old(self).at + 8,
            old(self).at + 8 <= old(self).bytes@.len() ==> word_from(old(self).bytes@, old(self).at as int) <= u64::MAX,
    {
        proof {
            if self.at + 8 <= self.bytes@.len() {
                lemma_le_value_bound(self.bytes@.subrange(self.at as int, self.at + 8));
                lemma_byte_powers();
            }
        }
        if self.bytes.len() < 8 || self.at > self.bytes.len() - 8 {
            return Err("truncated checkpoint");
        }
        let v = le_word(self.bytes, self.at, 8);
        self.at = self.at + 8;
        Ok(v)
    }

    /// The next little-endian `u64`, as a `usize` when it is one.
    pub fn usize(&mut self) -> (r: Result<usize, &'static str>)
        ensures
            final(self).bytes@ == old(self).bytes@,
            old(self).at + 8 > old(self).bytes@.len() ==> r == Err::<usize, &'static str>(
                "truncated checkpoint",
            ),
            old(self).at + 8 <= old(self).bytes@.len() ==> final(self).at == old(self).at + 8,
            old(self).at + 8 <= old(self).bytes@.len() && word_from(old(self).bytes@, old(self).at as int) > usize::MAX ==> r == Err::<usize, &'static str>(
                "checkpoint dimension exceeds usize",
            ),
            old(self).at + 8 <= old(self).bytes@.len() && word_from(old(self).bytes@, old(self).at as int) <= usize::MAX ==> r == Ok::<usize, &'static str>(
                word_from(old(self).bytes@, old(self).at as int) as usize,
            ),
    {
        let v = match self.u64() {
            Ok(v) => v,
            Err(e) => {
                return Err(e);
            },
        };
        if v > usize::MAX as u64 {
            Err("checkpoint dimension exceeds usize")
        } else {
            Ok(v as usize)
        }
    }

    /// The bit pattern of the next little-endian `f64`.
    pub fn f64_bits(&mut self) -> (r: Result<u64, &'static str>)
        ensures
            final(self).bytes@ == old(self).bytes@,
            old(self).at + 8 > old(self).bytes@.len() ==> r == Err::<u64, &'static str>(
                "truncated checkpoint",
            ) && final(self).at == old(self).at,
            old(self).at + 8 <= old(self).bytes@.len() ==> r == Ok::<u64, &'static str>(
                word_from(old(self).bytes@, old(self).at as int) as u64,
            ) && final(self).at == old(self).at + 8,
    {
        self.u64()
    }

    /// The bit pattern of the next little-endian `f32`.
    pub fn f32_bits(&mut self) -> (r: Result<u32, &'static str>)
        ensures
            final(self).bytes@ == old(self).bytes@,
            old(self).at + 4 > old(self).bytes@.len() ==> r == Err::<u32, &'static str>(
                "truncated checkpoint",
            ) && final(self).at == old(self).at,
            old(self).at + 4 <= old(self).bytes@.len() ==> r == Ok::<u32, &'static str>(
                le_value(old(self).bytes@.subrange(old(self).at as int, old(self).at + 4)) as u32,
            ) && final(self).at == old(self).at + 4,
    {
        proof {
            if self.at + 4 <= self.bytes@.len() {
                lemma_le_value_bound(self.bytes@.subrange(self.at as int, self.at + 4));
                lemma_byte_powers();
            }
        }
        if self.bytes.len() < 4 || self.at > self.bytes.len() - 4 {
            return Err("truncated checkpoint");
        }
        let v = le_word(self.bytes, self.at, 4);
        self.at = self.at + 4;
        Ok(v as u32)
    }
}

/// The `n` bytes of `x`, least significant first.
pub open spec fn le_bytes(x: nat, n: nat) -> Seq<u8>
    decreases n,
{
    if n == 0 {
        Seq::empty()
    } else {
        seq![(x % 256) as u8] + le_bytes(x / 256, (n - 1) as nat)
    }
}

/// Reading back the bytes of a number that fits gives the number.
pub proof fn lemma_le_bytes_round_trip(x: nat, n: nat)
    requires
        x < byte_power(n),
    ensures
        le_bytes(x, n).len() == n,
        le_value(le_bytes(x, n)) == x,
    decreases n,
{
    if n > 0 {
        let p = byte_power((n - 1) as nat);
        assert(x / 256 < p) by (nonlinear_arith)
            requires
                x < 256 * p,
        ;
        lemma_le_bytes_round_trip(x / 256, (n - 1) as nat);
        let b = le_bytes(x, n);
        assert(b.skip(1) =~= le_bytes(x / 256, (n - 1) as nat));
        assert(x == x % 256 + 256 * (x / 256)) by (nonlinear_arith);
    } else {
        assert(x == 0);
    }
}

/// Appends the 8 little-endian bytes of `x`.
pub fn push_u64(out: &mut Vec<u8>, x: u64)
    ensures
        final(out)@ == old(out)@ + le_bytes(x as nat, 8),
{
    let mut v: u64 = x;
    let mut k: usize = 0;
    while k < 8
        invariant
            k <= 8,
            out@ + le_bytes(v as nat, (8 - k) as nat) == old(out)@ + le_bytes(x as nat, 8),
        decreases 8 - k,
    {
        let ghost before = out@;
        let ghost rest = le_bytes(v as nat, (8 - k) as nat);
        assert(rest =~= seq![(v % 256) as u8] + le_bytes((v / 256) as nat, (8 - k - 1) as nat));
        out.push((v % 256) as u8);
        assert(out@ + le_bytes((v / 256) as nat, (8 - k - 1) as nat) =~= before + rest);
        v = v / 256;
        k += 1;
    }
    assert(out@ + le_bytes(v as nat, 0) =~= out@);
}

/// The bits of an `f64` are those of a finite number: the exponent field
/// is not all ones.
pub open spec fn finite_bits(b: u64) -> bool {
    (b >> 52u64) & 0x7ffu64 != 0x7ffu64
}

/// The bits of an `f64` are those of positive or negative zero.
pub open spec fn zero_bits(b: u64) -> bool {
    b & 0x7fff_ffff_ffff_ffffu64 == 0
}

/// The sign bit of an `f64` is set.
pub open spec fn sign_bits(b: u64) -> bool {
    b >> 63u64 == 1
}

/// The bits of an `f64` that is finite and greater than zero.
pub open spec fn positive_bits(b: u64) -> bool {
    finite_bits(b) && !sign_bits(b) && !zero_bits(b)
}

/// Routing settings the model accepts: a finite positive capacity factor
/// and a finite balance weight that is not below zero.
pub open spec fn settings_ok(capacity_factor: u64, balance_weight: u64) -> bool {
    positive_bits(capacity_factor) && finite_bits(balance_weight) && !(sign_bits(balance_weight)
        && !zero_bits(balance_weight))
}

/// Why a configuration is refused, if it is.
pub open spec fn config_error(s: Shape, capacity_factor: u64, balance_weight: u64) -> Option<&'static str> {
    if !(dims_ok(s) && settings_ok(capacity_factor, balance_weight)) {
        Some("invalid model dimensions or routing settings")
    } else if storage_budget(s) > usize::MAX {
        Some("dimension overflow")
    } else if storage_budget(s) > MAX_STORAGE {
        Some("reference model exceeds eight million storage elements")
    } else {
        None
    }
}

/// Whether `finite_bits` holds of `b`.
pub fn is_finite_bits(b: u64) -> (r: bool)
    ensures
        r == finite_bits(b),
{
    (b >> 52) & 0x7ff != 0x7ff
}

/// Whether `positive_bits` holds of `b`.
pub fn is_positive_bits(b: u64) -> (r: bool)
    ensures
        r == positive_bits(b),
{
    (b >> 52) & 0x7ff != 0x7ff && b >> 63 != 1 && b & 0x7fff_ffff_ffff_ffff != 0
}

/// Checks the dimensions and routing settings (as `f64` bit patterns) of a
/// model configuration.
pub fn validate_config(s: Shape, capacity_factor: u64, balance_weight: u64) -> (r: Result<(), &'static str>)
    ensures
        match config_error(s, capacity_factor, balance_weight) {
            Some(e) => r == Err::<(), &'static str>(e),
            None => r is Ok,
        },
{
    let settings = is_positive_bits(capacity_factor) && is_finite_bits(balance_weight) && !(
    balance_weight >> 63 == 1 && balance_weight & 0x7fff_ffff_ffff_ffff != 0);
    if !settings {
        return Err("invalid model dimensions or routing settings");
    }
    match validate_shape(s) {
        Ok(()) => Ok(()),
        Err(e) => Err(e.0),
    }
}

/// What a trainer has learned from: the corpus fingerprint and length,
/// the sequence length and the learning rate (as `f64` bits).
#[derive(Clone, Copy, Debug, PartialEq, Eq)]
pub struct Identity {
    pub fingerprint: u64,
    pub length: usize,
    pub sequence: usize,
    pub learning_rate_bits: u64,
}

/// Everything a checkpoint holds, `f64` values as bit patterns.
#[derive(Clone, Debug)]
pub struct Checkpoint {
    pub shape: Shape,
    pub capacity_factor_bits: u64,
    pub balance_weight_bits: u64,
    pub step: u64,
    pub cursor: usize,
    pub rng_state: u64,
    pub training: Option<Identity>,
    pub parameters: Vec<u64>,
}

/// A checkpoint as plain values.
#[verifier::ext_equal]
pub struct CheckpointView {
    pub shape: Shape,
    pub capacity_factor_bits: u64,
    pub balance_weight_bits: u64,
    pub step: u64,
    pub cursor: usize,
    pub rng_state: u64,
    pub training: Option<Identity>,
    pub parameters: Seq<u64>,
}

impl Checkpoint {
    /// The checkpoint as plain values.
    pub open spec fn view(&self) -> CheckpointView {
        CheckpointView {
            shape: self.shape,
            capacity_factor_bits: self.capacity_factor_bits,
            balance_weight_bits: self.balance_weight_bits,
            step: self.step,
            cursor: self.cursor,
            rng_state: self.rng_state,
            training: self.training,
            parameters: self.parameters@,
        }
    }
}

/// The eight bytes `CH56MOE2` that open a checkpoint.
pub open spec fn magic() -> Seq<u8> {
    seq![0x43u8, 0x48u8, 0x35u8, 0x36u8, 0x4du8, 0x4fu8, 0x45u8, 0x32u8]
}

/// Word `k` of a checkpoint, counting the magic as word zero.
pub open spec fn word(b: Seq<u8>, k: int) -> nat {
    word_from(b, 8 * k)
}

/// The words of the header that hold `usize` values.
pub open spec fn usize_word(k: int) -> bool {
    (1 <= k <= 5) || k == 9 || k == 12 || k == 13 || k == 15
}

/// Why reading word `k` fails, if it does.
pub open spec fn read_failure(b: Seq<u8>, k: int) -> Option<&'static str> {
    if b.len() < 8 * k + 8 {
        Some("truncated checkpoint")
    } else if usize_word(k) && word(b, k) > usize::MAX {
        Some("checkpoint dimension exceeds usize")
    } else {
        None
    }
}

/// The first failure reading words `from..to` in order, if any.
pub open spec fn first_failure(b: Seq<u8>, from: int, to: int) -> Option<&'static str>
    decreases to - from,
{
    if from >= to {
        None
    } else {
        match read_failure(b, from) {
            Some(e) => Some(e),
            None => first_failure(b, from + 1, to),
        }
    }
}

/// The identity of an untrained checkpoint: all zero.
pub open spec fn zero_identity(id: Identity) -> bool {
    id.fingerprint == 0 && id.length == 0 && id.sequence == 0 && zero_bits(id.learning_rate_bits)
}

/// Why the saved step, cursor and training identity do not fit together, if
/// they do not.
pub open spec fn training_error(step: u64, cursor: usize, id: Identity, s: Shape) -> Option<&'static str> {
    if step == 0 {
        if cursor != 0 || !zero_identity(id) {
            Some("invalid untrained checkpoint state")
        } else {
            None
        }
    } else if id.length < 2 || cursor >= id.length || id.sequence == 0 || id.sequence > s.context
        || !positive_bits(id.learning_rate_bits) {
        Some("invalid training identity")
    } else if cursor != (step as int * id.sequence as int) % (id.length as int) {
        Some("checkpoint cursor is inconsistent with step")
    } else {
        None
    }
}

/// The shape stored in words 1 to 5.
pub open spec fn stored_shape(b: Seq<u8>) -> Shape {
    Shape {
        vocab_size: word(b, 1) as usize,
        context: word(b, 2) as usize,
        width: word(b, 3) as usize,
        ff_width: word(b, 4) as usize,
        experts: word(b, 5) as usize,
    }
}

/// The training identity stored in words 11 to 14.
pub open spec fn stored_identity(b: Seq<u8>) -> Identity {
    Identity {
        fingerprint: word(b, 11) as u64,
        length: word(b, 12) as usize,
        sequence: word(b, 13) as usize,
        learning_rate_bits: word(b, 14) as u64,
    }
}

/// Size of the header: the magic and fifteen words.
pub open spec fn header_len() -> int {
    128
}

/// What the bytes of a checkpoint hold, or why they are refused: each
/// check is made in file order, before the words after it are read.
pub open spec fn decode_spec(b: Seq<u8>) -> Result<CheckpointView, &'static str> {
    if b.len() < 8 {
        Err("truncated checkpoint")
    } else if b.subrange(0, 8) != magic() {
        Err("bad checkpoint header")
    } else {
        match first_failure(b, 1, 8) {
            Some(e) => Err(e),
            None => {
                let s = stored_shape(b);
                let cf = word(b, 6) as u64;
                let bw = word(b, 7) as u64;
                match config_error(s, cf, bw) {
                    Some(e) => Err(e),
                    None => match first_failure(b, 8, 11) {
                        Some(e) => Err(e),
                        None => {
                            let step = word(b, 8) as u64;
                            let cursor = word(b, 9) as usize;
                            let rng = word(b, 10) as u64;
                            if rng == 0 {
                                Err("invalid zero RNG state")
                            } else {
                                match first_failure(b, 11, 15) {
                                    Some(e) => Err(e),
                                    None => {
                                        let id = stored_identity(b);
                                        match training_error(step, cursor, id, s) {
                                            Some(e) => Err(e),
                                            None => match first_failure(b, 15, 16) {
                                                Some(e) => Err(e),
                                                None => {
                                                    let count = word(b, 15);
                                                    if count != total_params(s) || b.len() - header_len()
                                                        != count * 8 {
                                                        Err("checkpoint length does not match model shape")
                                                    } else {
                                                        let ps = Seq::new(
                                                            count,
                                                            |i: int| word(b, 16 + i) as u64,
                                                        );
                                                        if exists|i: int| 0 <= i < count && !finite_bits(#[trigger] ps[i]) {
                                                            Err("checkpoint contains nonfinite parameters")
                                                        } else {
                                                            Ok(
                                                                CheckpointView {
                                                                    shape: s,
                                                                    capacity_factor_bits: cf,
                                                                    balance_weight_bits: bw,
                                                                    step,
                                                                    cursor,
                                                                    rng_state: rng,
                                                                    training: if step == 0 {
                                                                        None
                                                                    } else {
                                                                        Some(id)
                                                                    },
                                                                    parameters: ps,
                                                                },
                                                            )
                                                        }
                                                    }
                                                },
                                            },
                                        }
                                    },
                                }
                            }
                        },
                    },
                }
            },
        }
    }
}

/// Reads header words `from..to`, each as a `usize` where the format says
/// so.
fn read_header_words(reader: &mut Reader, from: usize, to: usize) -> (r: Result<Vec<u64>, &'static str>)
    requires
        1 <= from <= to <= 16,
        old(reader).at == 8 * from,
    ensures
        final(reader).bytes@ == old(reader).bytes@,
        match r {
            Ok(ws) => first_failure(old(reader).bytes@, from as int, to as int) is None && ws@.len()
                == to - from && final(reader).at == 8 * to && forall|j: int|
                0 <= j < ws@.len() ==> #[trigger] ws@[j] == word(old(reader).bytes@, from + j)
                && (usize_word(from + j) ==> ws@[j] <= usize::MAX),
            Err(e) => first_failure(old(reader).bytes@, from as int, to as int) == Some(e),
        },
{
    let ghost b = reader.bytes@;
    let mut ws: Vec<u64> = Vec::new();
    let mut k: usize = from;
    while k < to
        invariant
            1 <= from <= k <= to <= 16,
            b == old(reader).bytes@,
            reader.bytes@ == b,
            reader.at == 8 * k,
            first_failure(b, from as int, to as int) == first_failure(b, k as int, to as int),
            ws@.len() == k - from,
            forall|j: int|
                0 <= j < ws@.len() ==> #[trigger] ws@[j] == word(b, from + j) && (usize_word(from + j)
                    ==> ws@[j] <= usize::MAX),
        decreases to - k,
    {
        let is_usize = (1 <= k && k <= 5) || k == 9 || k == 12 || k == 13 || k == 15;
        let v = if is_usize {
            match reader.usize() {
                Ok(v) => v as u64,
                Err(e) => {
                    return Err(e);
                },
            }
        } else {
            match reader.u64() {
                Ok(v) => v,
                Err(e) => {
                    return Err(e);
                },
            }
        };
        ws.push(v);
        k += 1;
    }
    Ok(ws)
}

/// Why a step, cursor and identity do not fit together, checked in the
/// order the format demands.
fn check_training(step: u64, cursor: usize, id: Identity, s: Shape) -> (r: Result<(), &'static str>)
    ensures
        match training_error(step, cursor, id, s) {
            Some(e) => r == Err::<(), &'static str>(e),
            None => r is Ok,
        },
{
    if step == 0 {
        if cursor != 0 || !(id.fingerprint == 0 && id.length == 0 && id.sequence == 0
            && id.learning_rate_bits & 0x7fff_ffff_ffff_ffff == 0) {
            return Err("invalid untrained checkpoint state");
        }
        return Ok(());
    }
    if id.length < 2 || cursor >= id.length || id.sequence == 0 || id.sequence > s.context
        || !is_positive_bits(id.learning_rate_bits) {
        return Err("invalid training identity");
    }
    if !crate::moe::cursor_matches_step(step, id.sequence, id.length, cursor) {
        return Err("checkpoint cursor is inconsistent with step");
    }
    Ok(())
}

/// Reads a checkpoint, checking every field before it is used.
pub fn decode_checkpoint(bytes: &[u8]) -> (r: Result<Checkpoint, &'static str>)
    ensures
        match r {
            Ok(c) => decode_spec(bytes@) == Ok::<CheckpointView, &'static str>(c.view()),
            Err(e) => decode_spec(bytes@) == Err::<CheckpointView, &'static str>(e),
        },
{
    let ghost b = bytes@;
    let mut reader = Reader::new(bytes);
    let head = match reader.take(8) {
        Ok(h) => h,
        Err(e) => {
            return Err(e);
        },
    };
    if !(head[0] == 0x43 && head[1] == 0x48 && head[2] == 0x35 && head[3] == 0x36 && head[4] == 0x4d
        && head[5] == 0x4f && head[6] == 0x45 && head[7] == 0x32) {
        proof {
            if b.subrange(0, 8) == magic() {
                assert(head@[0] == magic()[0]);
                assert(head@[7] == magic()[7]);
            }
        }
        return Err("bad checkpoint header");
    }
    assert(b.subrange(0, 8) =~= magic());
    let w1 = match read_header_words(&mut reader, 1, 8) {
        Ok(w) => w,
        Err(e) => {
            return Err(e);
        },
    };
    let shape = Shape {
        vocab_size: w1[0] as usize,
        context: w1[1] as usize,
        width: w1[2] as usize,
        ff_width: w1[3] as usize,
        experts: w1[4] as usize,
    };
    assert(shape == stored_shape(b));
    let capacity_factor_bits = w1[5];
    let balance_weight_bits = w1[6];
    match validate_config(shape, capacity_factor_bits, balance_weight_bits) {
        Ok(()) => {},
        Err(e) => {
            return Err(e);
        },
    }
    let w2 = match read_header_words(&mut reader, 8, 11) {
        Ok(w) => w,
        Err(e) => {
            return Err(e);
        },
    };
    let step = w2[0];
    let cursor = w2[1] as usize;
    let rng_state = w2[2];
    if rng_state == 0 {
        return Err("invalid zero RNG state");
    }
    let w3 = match read_header_words(&mut reader, 11, 15) {
        Ok(w) => w,
        Err(e) => {
            return Err(e);
        },
    };
    let id = Identity {
        fingerprint: w3[0],
        length: w3[1] as usize,
        sequence: w3[2] as usize,
        learning_rate_bits: w3[3],
    };
    assert(id == stored_identity(b));
    match check_training(step, cursor, id, shape) {
        Ok(()) => {},
        Err(e) => {
            return Err(e);
        },
    }
    let w4 = match read_header_words(&mut reader, 15, 16) {
        Ok(w) => w,
        Err(e) => {
            return Err(e);
        },
    };
    let count = w4[0] as usize;
    let layout = Layout::new(shape);
    proof {
        crate::moe::lemma_total_within_budget(shape);
    }
    if count != layout.total || bytes.len() - reader.at != count * 8 {
        return Err("checkpoint length does not match model shape");
    }
    let mut parameters: Vec<u64> = Vec::new();
    let mut i: usize = 0;
    while i < count
        invariant
            reader.bytes@ == b,
            b.len() == header_len() + count * 8,
            reader.at == header_len() + 8 * i,
            i <= count,
            parameters@.len() == i,
            forall|j: int| 0 <= j < i ==> #[trigger] parameters@[j] == word(b, 16 + j) as u64,
        decreases count - i,
    {
        let v = match reader.f64_bits() {
            Ok(v) => v,
            Err(e) => {
                return Err(e);
            },
        };
        parameters.push(v);
        i += 1;
    }
    let ghost ps = Seq::new(count as nat, |j: int| word(b, 16 + j) as u64);
    assert(parameters@ =~= ps);
    let mut k: usize = 0;
    let mut finite = true;
    while k < count && finite
        invariant
            k <= count,
            parameters@ == ps,
            ps.len() == count,
            forall|j: int| 0 <= j < k ==> finite_bits(#[trigger] ps[j]),
            !finite ==> k < count && !finite_bits(ps[k as int]),
        decreases count - k + if finite { 1int } else { 0int },
    {
        if !is_finite_bits(parameters[k]) {
            finite = false;
        } else {
            k += 1;
        }
    }
    if !finite {
        return Err("checkpoint contains nonfinite parameters");
    }
    let training = if step == 0 { None } else { Some(id) };
    Ok(Checkpoint { shape, capacity_factor_bits, balance_weight_bits, step, cursor, rng_state, training, parameters })
}

/// The bytes of `ws`, eight little-endian bytes each.
pub open spec fn words_bytes(ws: Seq<nat>) -> Seq<u8>
    decreases ws.len(),
{
    if ws.len() == 0 {
        Seq::empty()
    } else {
        words_bytes(ws.drop_last()) + le_bytes(ws.last(), 8)
    }
}

/// The identity stored for a checkpoint: its training identity, or zeros
/// before any training.
pub open spec fn saved_identity(c: CheckpointView) -> Identity {
    match c.training {
        Some(id) => id,
        None => Identity { fingerprint: 0, length: 0, sequence: 0, learning_rate_bits: 0 },
    }
}

/// The fifteen header words after the magic.
pub open spec fn header_values(c: CheckpointView) -> Seq<nat> {
    let id = saved_identity(c);
    seq![
        c.shape.vocab_size as nat,
        c.shape.context as nat,
        c.shape.width as nat,
        c.shape.ff_width as nat,
        c.shape.experts as nat,
        c.capacity_factor_bits as nat,
        c.balance_weight_bits as nat,
        c.step as nat,
        c.cursor as nat,
        c.rng_state as nat,
        id.fingerprint as nat,
        id.length as nat,
        id.sequence as nat,
        id.learning_rate_bits as nat,
        c.parameters.len(),
    ]
}

/// The parameters as numbers.
pub open spec fn parameter_values(ps: Seq<u64>) -> Seq<nat> {
    ps.map_values(|p: u64| p as nat)
}

/// The bytes of a checkpoint: the magic, the header words, then every
/// parameter.
pub open spec fn checkpoint_bytes(c: CheckpointView) -> Seq<u8> {
    magic() + words_bytes(header_values(c) + parameter_values(c.parameters))
}

/// The saved step, cursor and training identity fit together: no step and
/// no identity before training, else the identity of the run and the
/// cursor its steps have reached.
pub open spec fn training_consistent(c: CheckpointView) -> bool {
    match c.training {
        None => c.step == 0 && c.cursor == 0,
        Some(id) => c.step > 0 && id.length >= 2 && id.sequence > 0 && id.sequence <= c.shape.context
            && positive_bits(id.learning_rate_bits) && c.cursor == (c.step as int * id.sequence as int)
            % (id.length as int),
    }
}

/// Why a checkpoint cannot be saved, if it cannot.
pub open spec fn save_error(c: CheckpointView) -> Option<&'static str> {
    if exists|i: int| 0 <= i < c.parameters.len() && !finite_bits(#[trigger] c.parameters[i]) {
        Some("cannot save nonfinite parameters")
    } else {
        match config_error(c.shape, c.capacity_factor_bits, c.balance_weight_bits) {
            Some(e) => Some(e),
            None => if !training_consistent(c) {
                Some("inconsistent training state cannot be saved")
            } else if c.rng_state == 0 {
                Some("invalid zero RNG state")
            } else if c.parameters.len() != total_params(c.shape) {
                Some("checkpoint length does not match model shape")
            } else {
                None
            },
        }
    }
}

/// Appends the little-endian bytes of every word of `ws`.
fn push_words(out: &mut Vec<u8>, ws: &[u64])
    ensures
        final(out)@ == old(out)@ + words_bytes(parameter_values(ws@)),
{
    let mut i: usize = 0;
    while i < ws.len()
        invariant
            i <= ws@.len(),
            out@ == old(out)@ + words_bytes(parameter_values(ws@.take(i as int))),
        decreases ws.len() - i,
    {
        let ghost before = out@;
        push_u64(out, ws[i]);
        proof {
            let vs = parameter_values(ws@.take(i + 1));
            assert(vs.drop_last() =~= parameter_values(ws@.take(i as int)));
            assert(vs.last() == ws@[i as int] as nat);
            assert(out@ =~= old(out)@ + words_bytes(vs));
        }
        i += 1;
    }
    assert(ws@.take(ws@.len() as int) =~= ws@);
}

/// The bytes of a checkpoint, after checking that it can be saved.
pub fn encode_checkpoint(c: &Checkpoint) -> (r: Result<Vec<u8>, &'static str>)
    ensures
        match save_error(c.view()) {
            Some(e) => r == Err::<Vec<u8>, &'static str>(e),
            None => r matches Ok(b) && b@ == checkpoint_bytes(c.view()),
        },
{
    let mut k: usize = 0;
    let mut finite = true;
    while k < c.parameters.len() && finite
        invariant
            k <= c.parameters@.len(),
            forall|j: int| 0 <= j < k ==> finite_bits(#[trigger] c.parameters@[j]),
            !finite ==> k < c.parameters@.len() && !finite_bits(c.parameters@[k as int]),
        decreases c.parameters@.len() - k + if finite { 1int } else { 0int },
    {
        if !is_finite_bits(c.parameters[k]) {
            finite = false;
        } else {
            k += 1;
        }
    }
    if !finite {
        assert(!finite_bits(c.view().parameters[k as int]));
        return Err("cannot save nonfinite parameters");
    }
    match validate_config(c.shape, c.capacity_factor_bits, c.balance_weight_bits) {
        Ok(()) => {},
        Err(e) => {
            return Err(e);
        },
    }
    let consistent = match c.training {
        None => c.step == 0 && c.cursor == 0,
        Some(id) => c.step > 0 && id.length >= 2 && id.sequence > 0 && id.sequence <= c.shape.context
            && is_positive_bits(id.learning_rate_bits) && crate::moe::cursor_matches_step(
            c.step,
            id.sequence,
            id.length,
            c.cursor,
        ),
    };
    if !consistent {
        return Err("inconsistent training state cannot be saved");
    }
    if c.rng_state == 0 {
        return Err("invalid zero RNG state");
    }
    let layout = Layout::new(c.shape);
    proof {
        crate::moe::lemma_total_within_budget(c.shape);
    }
    if c.parameters.len() != layout.total {
        return Err("checkpoint length does not match model shape");
    }
    let id = match c.training {
        Some(id) => id,
        None => Identity { fingerprint: 0, length: 0, sequence: 0, learning_rate_bits: 0 },
    };
    let header: Vec<u64> = vec![
        c.shape.vocab_size as u64,
        c.shape.context as u64,
        c.shape.width as u64,
        c.shape.ff_width as u64,
        c.shape.experts as u64,
        c.capacity_factor_bits,
        c.balance_weight_bits,
        c.step,
        c.cursor as u64,
        c.rng_state,
        id.fingerprint,
        id.length as u64,
        id.sequence as u64,
        id.learning_rate_bits,
        c.parameters.len() as u64,
    ];
    let mut out: Vec<u8> = vec![0x43, 0x48, 0x35, 0x36, 0x4d, 0x4f, 0x45, 0x32];
    assert(out@ =~= magic());
    push_words(&mut out, &header);
    push_words(&mut out, &c.parameters);
    proof {
        assert(parameter_values(header@) =~= header_values(c.view()));
        lemma_words_bytes_append(header_values(c.view()), parameter_values(c.parameters@));
        assert(out@ =~= checkpoint_bytes(c.view()));
    }
    Ok(out)
}

/// The bytes of two runs of words are the bytes of each, one after the other.
pub proof fn lemma_words_bytes_append(a: Seq<nat>, b: Seq<nat>)
    ensures
        words_bytes(a + b) == words_bytes(a) + words_bytes(b),
    decreases b.len(),
{
    if b.len() == 0 {
        assert(a + b =~= a);
        assert(words_bytes(a) + words_bytes(b) =~= words_bytes(a));
    } else {
        lemma_words_bytes_append(a, b.drop_last());
        assert((a + b).drop_last() =~= a + b.drop_last());
        assert((a + b).last() == b.last());
        assert(words_bytes(a) + words_bytes(b.drop_last()) + le_bytes(b.last(), 8) =~= words_bytes(a)
            + words_bytes(b));
    }
}

/// `le_bytes` gives as many bytes as asked for.
pub proof fn lemma_le_bytes_len(x: nat, n: nat)
    ensures
        le_bytes(x, n).len() == n,
    decreases n,
{
    if n > 0 {
        lemma_le_bytes_len(x / 256, (n - 1) as nat);
    }
}

/// The bytes of `ws` hold word `i` at bytes `8 * i` to `8 * i + 8`.
proof fn lemma_words_bytes_slice(ws: Seq<nat>, i: int)
    requires
        0 <= i < ws.len(),
    ensures
        words_bytes(ws).len() == 8 * ws.len(),
        words_bytes(ws).subrange(8 * i, 8 * i + 8) == le_bytes(ws[i], 8),
    decreases ws.len(),
{
    lemma_words_bytes_len(ws);
    let front = ws.drop_last();
    lemma_words_bytes_len(front);
    lemma_le_bytes_len(ws.last(), 8);
    if i < ws.len() - 1 {
        lemma_words_bytes_slice(front, i);
        assert(words_bytes(ws).subrange(8 * i, 8 * i + 8) =~= words_bytes(front).subrange(8 * i, 8 * i + 8));
    } else {
        assert(words_bytes(ws).subrange(8 * i, 8 * i + 8) =~= le_bytes(ws.last(), 8));
    }
}

/// The bytes of `ws` are eight per word.
proof fn lemma_words_bytes_len(ws: Seq<nat>)
    ensures
        words_bytes(ws).len() == 8 * ws.len(),
    decreases ws.len(),
{
    if ws.len() > 0 {
        lemma_words_bytes_len(ws.drop_last());
        lemma_le_bytes_len(ws.last(), 8);
    }
}

/// Word `k` of `magic() + words_bytes(ws)` is `ws[k - 1]`, when that fits
/// in eight bytes.
proof fn lemma_word_after_magic(ws: Seq<nat>, k: int)
    requires
        1 <= k <= ws.len(),
        ws[k - 1] <= u64::MAX,
    ensures
        (magic() + words_bytes(ws)).len() == 8 + 8 * ws.len(),
        word(magic() + words_bytes(ws), k) == ws[k - 1],
{
    let b = magic() + words_bytes(ws);
    lemma_words_bytes_slice(ws, k - 1);
    assert(b.subrange(8 * k, 8 * k + 8) =~= words_bytes(ws).subrange(8 * (k - 1), 8 * (k - 1) + 8));
    lemma_byte_powers();
    lemma_le_bytes_round_trip(ws[k - 1], 8);
}

/// Reading words `from..to` of bytes long enough, whose `usize` words fit,
/// does not fail.
proof fn lemma_no_failure(b: Seq<u8>, from: int, to: int)
    requires
        b.len() >= 8 * to,
        forall|k: int| from <= k < to && usize_word(k) ==> #[trigger] word(b, k) <= usize::MAX,
    ensures
        first_failure(b, from, to) is None,
    decreases to - from,
{
    if from < to {
        lemma_no_failure(b, from + 1, to);
    }
}

/// The words of an encoded checkpoint are its header values, then its
/// parameters.
proof fn lemma_encoded_words(c: CheckpointView)
    requires
        c.parameters.len() <= usize::MAX,
    ensures
        checkpoint_bytes(c).len() == 8 + 8 * (15 + c.parameters.len()),
        checkpoint_bytes(c).subrange(0, 8) == magic(),
        forall|k: int| 1 <= k <= 15 ==> #[trigger] word(checkpoint_bytes(c), k) == header_values(c)[k - 1],
        forall|i: int|
            0 <= i < c.parameters.len() ==> #[trigger] word(checkpoint_bytes(c), 16 + i) == c.parameters[i],
{
    let hv = header_values(c);
    let pv = parameter_values(c.parameters);
    let ws = hv + pv;
    let b = checkpoint_bytes(c);
    let n = c.parameters.len();
    lemma_words_bytes_len(ws);
    assert(b.subrange(0, 8) =~= magic());
    assert forall|k: int| 1 <= k <= 15 implies #[trigger] word(b, k) == hv[k - 1] by {
        assert(ws[k - 1] == hv[k - 1]);
        assert(hv[k - 1] <= u64::MAX);
        lemma_word_after_magic(ws, k);
    }
    assert forall|i: int| 0 <= i < n implies #[trigger] word(b, 16 + i) == c.parameters[i] by {
        assert(ws[15 + i] == pv[i]);
        lemma_word_after_magic(ws, 16 + i);
    }
}

/// Saving and reading back a checkpoint gives the same checkpoint, bit for
/// bit, whenever it can be saved.
#[verifier::rlimit(40)]
pub proof fn lemma_checkpoint_round_trip(c: CheckpointView)
    requires
        save_error(c) is None,
    ensures
        decode_spec(checkpoint_bytes(c)) == Ok::<CheckpointView, &'static str>(c),
{
    let b = checkpoint_bytes(c);
    let n = c.parameters.len();
    assert(config_error(c.shape, c.capacity_factor_bits, c.balance_weight_bits) is None);
    crate::moe::lemma_total_within_budget(c.shape);
    lemma_encoded_words(c);
    let hv = header_values(c);
    let id = saved_identity(c);
    assert(word(b, 1) == hv[0]);
    assert(word(b, 2) == hv[1]);
    assert(word(b, 3) == hv[2]);
    assert(word(b, 4) == hv[3]);
    assert(word(b, 5) == hv[4]);
    assert(word(b, 6) == hv[5]);
    assert(word(b, 7) == hv[6]);
    assert(word(b, 8) == hv[7]);
    assert(word(b, 9) == hv[8]);
    assert(word(b, 10) == hv[9]);
    assert(word(b, 11) == hv[10]);
    assert(word(b, 12) == hv[11]);
    assert(word(b, 13) == hv[12]);
    assert(word(b, 14) == hv[13]);
    assert(word(b, 15) == hv[14]);
    lemma_no_failure(b, 1, 8);
    lemma_no_failure(b, 8, 11);
    lemma_no_failure(b, 11, 15);
    lemma_no_failure(b, 15, 16);
    assert(stored_shape(b) == c.shape);
    assert(stored_identity(b) == id);
    assert(0u64 & 0x7fff_ffff_ffff_ffffu64 == 0) by (bit_vector);
    if let Some(t) = c.training {
        assert(0 <= (c.step as int * t.sequence as int) % (t.length as int) < t.length) by (nonlinear_arith)
            requires
                t.length >= 2,
        ;
    }
    assert(training_error(c.step, c.cursor, id, c.shape) is None);
    let ps = Seq::new(n, |i: int| word(b, 16 + i) as u64);
    assert(ps =~= c.parameters);
    assert(b.len() - header_len() == n * 8);
    let view = CheckpointView {
        shape: c.shape,
        capacity_factor_bits: c.capacity_factor_bits,
        balance_weight_bits: c.balance_weight_bits,
        step: c.step,
        cursor: c.cursor,
        rng_state: c.rng_state,
        training: if c.step == 0 { None } else { Some(id) },
        parameters: ps,
    };
    assert(view =~= c);
    assert(decode_spec(b) == Ok::<CheckpointView, &'static str>(view));
}

/// The token ids as numbers.
pub open spec fn token_values(data: Seq<usize>) -> Seq<nat> {
    data.map_values(|x: usize| x as nat)
}

/// The FNV-1a fingerprint of a token stream: the hash of the eight
/// little-endian bytes of every token id, in order.
pub fn token_fingerprint(data: &[usize]) -> (h: u64)
    ensures
        h == fnv1a(words_bytes(token_values(data@))),
{
    let mut h: u64 = FNV_OFFSET;
    let mut i: usize = 0;
    assert(token_values(data@.take(0)) =~= Seq::<nat>::empty());
    while i < data.len()
        invariant
            i <= data@.len(),
            h == fnv_from(FNV_OFFSET, words_bytes(token_values(data@.take(i as int)))),
        decreases data.len() - i,
    {
        let ghost prefix = words_bytes(token_values(data@.take(i as int)));
        let x = data[i];
        let mut v: u64 = x as u64;
        let mut k: usize = 0;
        let ghost start = h;
        assert(le_bytes(x as nat, 8).skip(0) =~= le_bytes(x as nat, 8));
        assert(le_bytes(x as nat, 8).take(0) =~= Seq::<u8>::empty());
        while k < 8
            invariant
                k <= 8,
                h == fnv_from(start, le_bytes(x as nat, 8).take(k as int)),
                le_bytes(x as nat, 8).skip(k as int) == le_bytes(v as nat, (8 - k) as nat),
            decreases 8 - k,
        {
            let ghost done = le_bytes(x as nat, 8).take(k as int);
            let ghost rest = le_bytes(v as nat, (8 - k) as nat);
            proof {
                lemma_le_bytes_len(x as nat, 8);
                lemma_le_bytes_len(v as nat, (8 - k) as nat);
            }
            let b = (v % 256) as u8;
            assert(rest[0] == b);
            assert(le_bytes(x as nat, 8)[k as int] == le_bytes(x as nat, 8).skip(k as int)[0]);
            assert(le_bytes(x as nat, 8).take(k + 1) =~= done.push(b));
            assert(done.push(b).drop_last() =~= done);
            h = (h ^ b as u64).wrapping_mul(FNV_PRIME);
            proof {
                assert(rest.skip(1) =~= le_bytes((v / 256) as nat, (8 - k - 1) as nat));
                assert(le_bytes(x as nat, 8).skip(k + 1) =~= rest.skip(1));
            }
            v = v / 256;
            k += 1;
        }
        proof {
            lemma_le_bytes_len(x as nat, 8);
            assert(le_bytes(x as nat, 8).take(8) =~= le_bytes(x as nat, 8));
            let tv = token_values(data@.take(i + 1));
            assert(tv.drop_last() =~= token_values(data@.take(i as int)));
            assert(tv.last() == x as nat);
            lemma_fnv_append(FNV_OFFSET, prefix, le_bytes(x as nat, 8));
        }
        i += 1;
    }
    assert(data@.take(data@.len() as int) =~= data@);
    h
}


/// The `f64` values taken as positive are exactly the finite ones above
/// zero: bit patterns from the smallest subnormal up to, not including,
/// positive infinity. Negative numbers, either zero, infinities and NaNs
/// never are.
pub proof fn lemma_positive_bits_range(b: u64)
    ensures
        positive_bits(b) <==> 0 < b < 0x7ff0_0000_0000_0000u64,
{
    assert(b >> 63u64 == 1u64 <==> b >= 0x8000_0000_0000_0000u64) by (bit_vector);
    assert(b & 0x7fff_ffff_ffff_ffffu64 == 0 <==> (b == 0 || b == 0x8000_0000_0000_0000u64)) by (bit_vector);
    assert(b < 0x8000_0000_0000_0000u64 ==> ((b >> 52u64) & 0x7ffu64 == 0x7ffu64 <==> b
        >= 0x7ff0_0000_0000_0000u64)) by (bit_vector);
}

/// A capacity factor that is zero or carries a sign bit makes the model
/// settings invalid, whatever the shape and balance weight.
pub proof fn lemma_nonpositive_capacity_refused(s: Shape, capacity_factor: u64, balance_weight: u64)
    requires
        capacity_factor >= 0x8000_0000_0000_0000u64 || capacity_factor == 0,
    ensures
        config_error(s, capacity_factor, balance_weight) == Some::<&'static str>(
            "invalid model dimensions or routing settings",
        ),
{
    lemma_positive_bits_range(capacity_factor);
}

/// The writer refuses a checkpoint whose capacity factor is zero or
/// negative with "invalid model dimensions or routing settings", unless it
/// already refused it for a nonfinite parameter; with valid settings it
/// refuses a trained checkpoint whose learning rate is zero or negative as
/// an inconsistent training state.
pub proof fn lemma_save_refuses_nonpositive_settings(c: CheckpointView)
    ensures
        (c.capacity_factor_bits >= 0x8000_0000_0000_0000u64 || c.capacity_factor_bits == 0) && (forall|i: int|
            0 <= i < c.parameters.len() ==> finite_bits(#[trigger] c.parameters[i])) ==> save_error(c)
            == Some::<&'static str>("invalid model dimensions or routing settings"),
        (c.training matches Some(id) && (id.learning_rate_bits >= 0x8000_0000_0000_0000u64
            || id.learning_rate_bits == 0)) ==> save_error(c) is Some,
{
    if c.capacity_factor_bits >= 0x8000_0000_0000_0000u64 || c.capacity_factor_bits == 0 {
        lemma_nonpositive_capacity_refused(c.shape, c.capacity_factor_bits, c.balance_weight_bits);
    }
    if let Some(id) = c.training {
        lemma_positive_bits_range(id.learning_rate_bits);
    }
}

/// Whatever the reader accepts has a finite positive capacity factor, and,
/// when trained, a finite positive learning rate.
pub proof fn lemma_read_settings_positive(b: Seq<u8>)
    ensures
        decode_spec(b) matches Ok(c) ==> {
            &&& 0 < c.capacity_factor_bits < 0x7ff0_0000_0000_0000u64
            &&& c.training matches Some(id) ==> 0 < id.learning_rate_bits < 0x7ff0_0000_0000_0000u64
        },
{
    lemma_positive_bits_range(word(b, 6) as u64);
    lemma_positive_bits_range(word(b, 14) as u64);
}

/// The reader refuses bytes whose capacity factor is zero or negative with
/// "invalid model dimensions or routing settings" once the magic and the
/// words before it are read, and refuses a trained checkpoint whose
/// learning rate is zero or negative.
pub proof fn lemma_read_refuses_nonpositive_capacity(b: Seq<u8>)
    requires
        b.len() >= 8,
        b.subrange(0, 8) == magic(),
        first_failure(b, 1, 8) is None,
        word(b, 6) as u64 >= 0x8000_0000_0000_0000u64 || word(b, 6) as u64 == 0,
    ensures
        decode_spec(b) == Err::<CheckpointView, &'static str>("invalid model dimensions or routing settings"),
{
    lemma_nonpositive_capacity_refused(stored_shape(b), word(b, 6) as u64, word(b, 7) as u64);
}

} // verus!
