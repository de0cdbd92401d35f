//! Shape and byte arithmetic around the GPU kernels: checked matrix
//! lengths, buffer sizes, workgroup counts, transfer counts, the
//! little-endian words read back from device buffers, and the choice of a
//! hardware adapter.
use vstd::prelude::*;

verus! {

/// The buffer lengths of an `m x k` by `k x n` product: `m * k`, `k * n`
/// and `m * n`, or why there are none.
pub fn checked_matmul_lengths(m: usize, k: usize, n: usize) -> (r: Result<(usize, usize, usize), &'static str>)
    ensures
        (m == 0 || k == 0 || n == 0) ==> r == Err::<(usize, usize, usize), &'static str>(
            "m, k, and n must be nonzero",
        ),
        (m != 0 && k != 0 && n != 0 && (m * k > usize::MAX || k * n > usize::MAX || m * n
            > usize::MAX)) ==> r == Err::<(usize, usize, usize), &'static str>(
            "matrix shape overflows usize",
        ),
        (m != 0 && k != 0 && n != 0 && m * k <= usize::MAX && k * n <= usize::MAX && m * n
            <= usize::MAX) ==> r == Ok::<(usize, usize, usize), &'static str>(
            ((m * k) as usize, (k * n) as usize, (m * n) as usize),
        ),
{
    if m == 0 || k == 0 || n == 0 {
        return Err("m, k, and n must be nonzero");
    }
    let a = match m.checked_mul(k) {
        Some(x) => x,
        None => {
            return Err("matrix shape overflows usize");
        },
    };
    let b = match k.checked_mul(n) {
        Some(x) => x,
        None => {
            return Err("matrix shape overflows usize");
        },
    };
    let c = match m.checked_mul(n) {
        Some(x) => x,
        None => {
            return Err("matrix shape overflows usize");
        },
    };
    Ok((a, b, c))
}

/// The size in bytes of a buffer of `len` `f32` values.
pub fn bytes_for_f32(len: usize) -> (r: Result<u64, &'static str>)
    ensures
        4 * len <= usize::MAX ==> r == Ok::<u64, &'static str>((4 * len) as u64),
        4 * len > usize::MAX ==> r == Err::<u64, &'static str>("buffer size overflow"),
{
    match len.checked_mul(4) {
        Some(bytes) => Ok(bytes as u64),
        None => Err("buffer size overflow"),
    }
}

/// Number of 16-wide tiles needed to cover `k` inner-dimension values,
/// the last one possibly partial.
pub fn tile_count(k: usize) -> (tiles: usize)
    ensures
        tiles as int == (k as int + 15) / 16,
{
    k / 16 + if k % 16 == 0 { 0 } else { 1 }
}

/// Number of workgroups of `workgroup_size` needed to cover
/// `element_count` elements.
pub fn dispatch_count(element_count: usize, workgroup_size: usize) -> (groups: usize)
    requires
        workgroup_size > 0,
    ensures
        groups as int == (element_count as int + workgroup_size as int - 1) / (workgroup_size as int),
{
    let q = element_count / workgroup_size;
    let r = element_count % workgroup_size;
    proof {
        let e = element_count as int;
        let w = workgroup_size as int;
        assert(q * w + r == e && 0 <= r < w) by (nonlinear_arith)
            requires
                w > 0,
                q == e / w,
                r == e % w,
        ;
        assert(r > 0 ==> q < e) by (nonlinear_arith)
            requires
                q * w + r == e,
                0 <= r < w,
                q >= 0,
        ;
        assert((e + w - 1) / w == q + if r == 0 { 0int } else { 1int }) by (nonlinear_arith)
            requires
                q * w + r == e,
                0 <= r < w,
                w > 0,
        ;
    }
    q + if r == 0 { 0 } else { 1 }
}

/// Floats moved through device memory by an elementwise pipeline over
/// `len` values: separate kernels write and read the intermediate too,
/// a fused kernel only reads the input and writes the output.
pub fn transferred_floats(len: usize, fused: bool) -> (floats: usize)
    requires
        4 * len <= usize::MAX,
    ensures
        floats == if fused {
            2 * len
        } else {
            4 * len
        },
{
    if fused {
        2 * len
    } else {
        4 * len
    }
}

/// The number that the bytes of `b` denote, least significant first.
pub open spec fn le_value(b: Seq<u8>) -> nat
    decreases b.len(),
{
    if b.len() == 0 {
        0
    } else {
        b[0] as nat + 256 * le_value(b.skip(1))
    }
}

/// `256` to the power `n`.
pub open spec fn byte_power(n: nat) -> nat
    decreases n,
{
    if n == 0 {
        1
    } else {
        256 * byte_power((n - 1) as nat)
    }
}

/// A little-endian number of `n` bytes is below `256^n`.
pub proof fn lemma_le_value_bound(b: Seq<u8>)
    ensures
        le_value(b) < byte_power(b.len()),
    decreases b.len(),
{
    if b.len() > 0 {
        lemma_le_value_bound(b.skip(1));
        let rest = le_value(b.skip(1));
        let p = byte_power((b.len() - 1) as nat);
        assert(b[0] as nat + 256 * rest < 256 * p) by (nonlinear_arith)
            requires
                rest < p,
                b[0] < 256,
        ;
    }
}

/// The little-endian word of `width` bytes that starts at `start`.
pub fn le_word(bytes: &[u8], start: usize, width: usize) -> (v: u64)
    requires
        1 <= width <= 8,
        start + width <= bytes@.len(),
    ensures
        v == le_value(bytes@.subrange(start as int, start + width)),
{
    proof {
        lemma_byte_powers();
    }
    let mut v: u64 = 0;
    let mut k: usize = width;
    assert(bytes@.subrange(start + width, start + width) =~= Seq::<u8>::empty());
    while k > 0
        invariant
            k <= width <= 8,
            start + width <= bytes@.len(),
            bytes@.len() == bytes.len(),
            byte_power(8) == 0x1_0000_0000_0000_0000,
            v == le_value(bytes@.subrange(start + k, start + width)),
        decreases k,
    {
        let ghost rest = bytes@.subrange(start + k, start + width);
        let ghost here = bytes@.subrange(start + k - 1, start + width);
        assert(here.skip(1) =~= rest);
        proof {
            lemma_le_value_bound(here);
            lemma_byte_power_monotone(here.len(), 8);
        }
        v = (bytes[start + k - 1] as u64) + 256 * v;
        k -= 1;
    }
    v
}

/// The powers of 256 that bound 32-bit and 64-bit words.
pub proof fn lemma_byte_powers()
    ensures
        byte_power(4) == 0x1_0000_0000,
        byte_power(8) == 0x1_0000_0000_0000_0000,
{
    reveal_with_fuel(byte_power, 9);
}

/// Powers of 256 grow with the exponent.
pub proof fn lemma_byte_power_monotone(a: nat, b: nat)
    requires
        a <= b,
    ensures
        byte_power(a) <= byte_power(b),
    decreases b,
{
    if a < b {
        lemma_byte_power_monotone(a, (b - 1) as nat);
    }
}

/// The first `count` little-endian words of `width` bytes in `bytes`.
pub open spec fn le_words(bytes: Seq<u8>, width: int, count: int) -> Seq<nat> {
    Seq::new(count as nat, |i: int| le_value(bytes.subrange(i * width, i * width + width)))
}

/// The whole words of `width` bytes that `bytes` holds, at most `limit` of them.
pub open spec fn word_count(len: int, width: int, limit: int) -> int {
    if len / width < limit {
        len / width
    } else {
        limit
    }
}

/// Reads up to `len` little-endian `u64` values from a mapped buffer.
pub fn read_u64_words(bytes: &[u8], len: usize) -> (out: Vec<u64>)
    ensures
        out@.len() == word_count(bytes@.len() as int, 8, len as int),
        forall|i: int| 0 <= i < out@.len() ==> #[trigger] out@[i] as nat == le_words(bytes@, 8, out@.len() as int)[i],
{
    read_words(bytes, 8, len)
}

/// The first `count` big-endian words of `width` bytes in `bytes`.
pub open spec fn be_words(bytes: Seq<u8>, width: int, count: int) -> Seq<nat> {
    Seq::new(count as nat, |i: int| le_value(bytes.subrange(i * width, i * width + width).reverse()))
}

/// `bytemuck::pod_collect_to_vec::<u8, u32>` on the first `count` words of
/// `bytes`: copies them into `u32` words as they lie in memory, so all of
/// them are read in the machine's byte order. Which order that is (little-
/// or big-endian) depends on the machine and is left unsaid.
#[verifier::external_body]
fn collect_u32_words(bytes: &[u8], count: usize) -> (out: Vec<u32>)
    requires
        4 * count <= bytes@.len(),
    ensures
        out@.len() == count,
        (forall|i: int| 0 <= i < count ==> #[trigger] out@[i] as nat == le_words(bytes@, 4, count as int)[i])
            || (forall|i: int| 0 <= i < count ==> #[trigger] out@[i] as nat == be_words(bytes@, 4, count as int)[i]),
{
    bytemuck::pod_collect_to_vec::<u8, u32>(&bytes[..4 * count])
}

/// Reads up to `len` 32-bit words (the bit patterns of `f32` values) from a
/// mapped buffer, each in the machine's byte order: all little-endian or
/// all big-endian.
pub fn read_u32_words(bytes: &[u8], len: usize) -> (out: Vec<u32>)
    ensures
        out@.len() == word_count(bytes@.len() as int, 4, len as int),
        (forall|i: int| 0 <= i < out@.len() ==> #[trigger] out@[i] as nat == le_words(bytes@, 4, out@.len() as int)[i])
            || (forall|i: int| 0 <= i < out@.len() ==> #[trigger] out@[i] as nat == be_words(bytes@, 4, out@.len() as int)[i]),
{
    let whole = bytes.len() / 4;
    let count = if whole < len { whole } else { len };
    collect_u32_words(bytes, count)
}

/// The first words of `width` bytes, at most `len` of them.
fn read_words(bytes: &[u8], width: usize, len: usize) -> (out: Vec<u64>)
    requires
        1 <= width <= 8,
    ensures
        out@.len() == word_count(bytes@.len() as int, width as int, len as int),
        forall|i: int| 0 <= i < out@.len() ==> #[trigger] out@[i] as nat == le_words(bytes@, width as int, out@.len() as int)[i],
{
    let whole = bytes.len() / width;
    let count = if whole < len { whole } else { len };
    let mut out: Vec<u64> = Vec::new();
    let mut i: usize = 0;
    while i < count
        invariant
            1 <= width <= 8,
            bytes@.len() == bytes.len(),
            whole == (bytes@.len() as int) / (width as int),
            count <= whole,
            count == word_count(bytes@.len() as int, width as int, len as int),
            i <= count,
            out@.len() == i,
            forall|j: int| 0 <= j < i ==> #[trigger] out@[j] as nat == le_value(bytes@.subrange(j * width, j * width + width)),
        decreases count - i,
    {
        proof {
            assert((i as int) * (width as int) + (width as int) <= (whole as int) * (width as int)) by (nonlinear_arith)
                requires
                    i < whole,
                    width >= 1,
            ;
            assert((whole as int) * (width as int) <= bytes@.len()) by (nonlinear_arith)
                requires
                    whole == (bytes@.len() as int) / (width as int),
                    width >= 1,
            ;
        }
        let v = le_word(bytes, i * width, width);
        out.push(v);
        i += 1;
    }
    out
}


/// What adapter selection reads of a discovered GPU adapter: whether it
/// runs on Vulkan, whether it is a CPU device, and whether it is a
/// discrete GPU.
#[derive(Clone, Copy, Debug, PartialEq, Eq)]
pub struct AdapterFacts {
    pub vulkan: bool,
    pub cpu: bool,
    pub discrete: bool,
}

/// A hardware Vulkan adapter: on Vulkan and not a CPU device (software
/// fallback is never chosen).
pub open spec fn eligible(a: AdapterFacts) -> bool {
    a.vulkan && !a.cpu
}

/// How much an adapter is preferred: a discrete GPU over any other.
pub open spec fn preference(a: AdapterFacts) -> int {
    if a.discrete {
        1
    } else {
        0
    }
}

/// The adapter to use among those discovered: an eligible one of the
/// highest preference, the last such when several tie; none when no
/// adapter is eligible.
pub fn choose_adapter(adapters: &[AdapterFacts]) -> (r: Option<usize>)
    ensures
        r is None <==> forall|i: int| 0 <= i < adapters@.len() ==> !eligible(#[trigger] adapters@[i]),
        r matches Some(k) ==> {
            &&& k < adapters@.len()
            &&& eligible(adapters@[k as int])
            &&& forall|i: int|
                0 <= i < adapters@.len() && eligible(#[trigger] adapters@[i]) ==> preference(adapters@[i])
                    <= preference(adapters@[k as int])
            &&& forall|i: int|
                k < i < adapters@.len() && eligible(#[trigger] adapters@[i]) ==> preference(adapters@[i])
                    < preference(adapters@[k as int])
        },
{
    let mut best: Option<usize> = None;
    let mut i: usize = 0;
    while i < adapters.len()
        invariant
            i <= adapters@.len(),
            best is None <==> forall|j: int| 0 <= j < i ==> !eligible(#[trigger] adapters@[j]),
            best matches Some(k) ==> {
                &&& k < i
                &&& eligible(adapters@[k as int])
                &&& forall|j: int|
                    0 <= j < i && eligible(#[trigger] adapters@[j]) ==> preference(adapters@[j]) <= preference(
                        adapters@[k as int],
                    )
                &&& forall|j: int|
                    k < j < i && eligible(#[trigger] adapters@[j]) ==> preference(adapters@[j]) < preference(
                        adapters@[k as int],
                    )
            },
        decreases adapters.len() - i,
    {
        let a = adapters[i];
        if a.vulkan && !a.cpu {
            let take_it = match best {
                None => true,
                Some(k) => a.discrete || !adapters[k].discrete,
            };
            if take_it {
                best = Some(i);
            }
        }
        i += 1;
    }
    best
}

} // verus!
