//! Storage of symmetric int8 and packed int4 quantized weights: the shape
//! checks, packing two signed 4-bit values per byte, and reading a value
//! back.
use vstd::prelude::*;

verus! {

/// Checks the shape and bit width of a weight matrix before quantizing.
pub fn check_quant_shape(len: usize, rows: usize, cols: usize, bits: u8) -> (r: Result<(), &'static str>)
    ensures
        (rows == 0 || cols == 0 || rows * cols != len) ==> r == Err::<(), &'static str>(
            "weights must be a nonempty [rows, cols] matrix",
        ),
        (rows != 0 && cols != 0 && rows * cols == len && bits != 8 && bits != 4) ==> r == Err::<
            (),
            &'static str,
        >("only int8 and int4 are supported"),
        (rows != 0 && cols != 0 && rows * cols == len && (bits == 8 || bits == 4)) ==> r is Ok,
{
    if rows == 0 || cols == 0 {
        return Err("weights must be a nonempty [rows, cols] matrix");
    }
    match rows.checked_mul(cols) {
        Some(n) => {
            if n != len {
                return Err("weights must be a nonempty [rows, cols] matrix");
            }
        },
        None => {
            return Err("weights must be a nonempty [rows, cols] matrix");
        },
    }
    if bits != 8 && bits != 4 {
        return Err("only int8 and int4 are supported");
    }
    Ok(())
}

/// The low four bits of a value's two's-complement byte.
pub open spec fn nibble(v: i8) -> u8 {
    (v as u8) & 0x0f
}

/// A byte holding `lo` in its low half and `hi` in its high half.
pub open spec fn pair_byte(lo: i8, hi: i8) -> u8 {
    nibble(lo) | (nibble(hi) << 4u8)
}

/// A four-bit two's-complement value widened to `i8`.
pub open spec fn widen(n: u8) -> i8 {
    if n & 0x08u8 != 0 {
        (n | 0xf0u8) as i8
    } else {
        n as i8
    }
}

/// The stored bytes of `values`: one byte per value for 8 bits, two values
/// per byte for 4 bits (the first in the low half, a missing last partner
/// as zero).
pub open spec fn packed(values: Seq<i8>, bits: u8) -> Seq<u8> {
    if bits == 8 {
        Seq::new(values.len(), |i: int| values[i] as u8)
    } else {
        Seq::new(
            ((values.len() + 1) / 2) as nat,
            |i: int| pair_byte(values[2 * i], if 2 * i + 1 < values.len() { values[2 * i + 1] } else { 0i8 }),
        )
    }
}

/// The value at `index` of weights stored as `data`.
pub open spec fn stored_value(data: Seq<u8>, bits: u8, index: int) -> i8 {
    if bits == 8 {
        data[index] as i8
    } else if index % 2 == 0 {
        widen(data[index / 2] & 0x0fu8)
    } else {
        widen(data[index / 2] >> 4u8)
    }
}

/// Weights in int8 or packed int4 form.
#[derive(Clone, Debug)]
pub struct PackedWeights {
    pub bits: u8,
    pub data: Vec<u8>,
}

/// Both halves of a packed byte read back the values put in them.
pub proof fn lemma_pair_byte(lo: i8, hi: i8)
    requires
        -8 <= lo <= 7,
        -8 <= hi <= 7,
    ensures
        widen(pair_byte(lo, hi) & 0x0fu8) == lo,
        widen(pair_byte(lo, hi) >> 4u8) == hi,
{
    assert(-8 <= lo <= 7 && -8 <= hi <= 7 ==> {
        let b = ((lo as u8) & 0x0fu8) | (((hi as u8) & 0x0fu8) << 4u8);
        let n = b & 0x0fu8;
        (if n & 0x08u8 != 0 { (n | 0xf0u8) as i8 } else { n as i8 }) == lo
    }) by (bit_vector);
    assert(-8 <= lo <= 7 && -8 <= hi <= 7 ==> {
        let b = ((lo as u8) & 0x0fu8) | (((hi as u8) & 0x0fu8) << 4u8);
        let n = b >> 4u8;
        (if n & 0x08u8 != 0 { (n | 0xf0u8) as i8 } else { n as i8 }) == hi
    }) by (bit_vector);
}

impl PackedWeights {
    /// Stores `values` with `bits` bits each.
    pub fn pack(values: &[i8], bits: u8) -> (p: PackedWeights)
        requires
            bits == 8 || bits == 4,
        ensures
            p.bits == bits,
            p.data@ == packed(values@, bits),
    {
        let mut data: Vec<u8> = Vec::new();
        if bits == 8 {
            let mut i: usize = 0;
            while i < values.len()
                invariant
                    i <= values@.len(),
                    data@.len() == i,
                    forall|k: int| 0 <= k < i ==> #[trigger] data@[k] == values@[k] as u8,
                decreases values.len() - i,
            {
                data.push(values[i] as u8);
                i += 1;
            }
            assert(data@ =~= packed(values@, bits));
        } else {
            let pairs = values.len() / 2 + values.len() % 2;
            let mut p: usize = 0;
            while p < pairs
                invariant
                    pairs == values@.len() / 2 + values@.len() % 2,
                    values@.len() == values.len(),
                    p <= pairs,
                    data@.len() == p,
                    forall|k: int|
                        0 <= k < p ==> #[trigger] data@[k] == pair_byte(
                            values@[2 * k],
                            if 2 * k + 1 < values@.len() {
                                values@[2 * k + 1]
                            } else {
                                0i8
                            },
                        ),
                decreases pairs - p,
            {
                let i = 2 * p;
                let lo = values[i];
                let hi: i8 = if i + 1 < values.len() { values[i + 1] } else { 0 };
                let byte = ((lo as u8) & 0x0f) | (((hi as u8) & 0x0f) << 4);
                assert(byte == pair_byte(lo, hi));
                data.push(byte);
                p += 1;
            }
            assert(data@ =~= packed(values@, bits));
        }
        PackedWeights { bits, data }
    }

    /// The value at `index`.
    pub fn value(&self, index: usize) -> (v: i8)
        requires
            self.bits == 8 ==> index < self.data@.len(),
            self.bits != 8 ==> index / 2 < self.data@.len(),
        ensures
            v == stored_value(self.data@, self.bits, index as int),
    {
        if self.bits == 8 {
            self.data[index] as i8
        } else {
            let nibble = if index % 2 == 0 {
                self.data[index / 2] & 0x0f
            } else {
                self.data[index / 2] >> 4
            };
            if nibble & 0x08 != 0 {
                (nibble | 0xf0) as i8
            } else {
                nibble as i8
            }
        }
    }

    /// Bytes of storage, counting one `f32` scale per row.
    pub fn storage_bytes(&self, rows: usize) -> (n: usize)
        requires
            self.data@.len() + 4 * rows <= usize::MAX,
        ensures
            n == self.data@.len() + 4 * rows,
    {
        self.data.len() + rows * 4
    }
}

/// Reading back packed values gives the values that were packed: exactly
/// for 8 bits, and for 4 bits whenever every value lies in `-8..=7`.
pub proof fn lemma_pack_round_trip(values: Seq<i8>, bits: u8, i: int)
    requires
        bits == 8 || bits == 4,
        0 <= i < values.len(),
        bits == 4 ==> forall|k: int| 0 <= k < values.len() ==> -8 <= #[trigger] values[k] <= 7,
    ensures
        stored_value(packed(values, bits), bits, i) == values[i],
{
    if bits == 8 {
        let v = values[i];
        assert((v as u8) as i8 == v) by (bit_vector);
    } else {
        let j = i / 2;
        let lo = values[2 * j];
        let hi = if 2 * j + 1 < values.len() { values[2 * j + 1] } else { 0i8 };
        lemma_pair_byte(lo, hi);
        assert(packed(values, bits)[j] == pair_byte(lo, hi));
    }
}

} // verus!
