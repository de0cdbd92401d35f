//! The artifact format of the two-input affine layer whose results a
//! tensor framework is checked against: the eleven bytes `CH55DENSE01`, then the four
//! weights (row-major, output by input) and the two biases as
//! little-endian `f32` bit patterns.
use vstd::prelude::*;

use crate::kernels::le_value;
use crate::training::{
    all_finite, bits_at, bits_values, check_finite, items_bytes, lemma_item_at, lemma_items_len,
    push_bits, read_bits,
};

verus! {

/// The eleven bytes `CH55DENSE01` that open an artifact.
pub open spec fn dense_magic() -> Seq<u8> {
    seq![0x43u8, 0x48u8, 0x35u8, 0x35u8, 0x44u8, 0x45u8, 0x4eu8, 0x53u8, 0x45u8, 0x30u8, 0x31u8]
}

/// The bytes of an artifact holding `values`.
pub open spec fn dense_bytes(values: Seq<u32>) -> Seq<u8> {
    dense_magic() + items_bytes(bits_values(values), 4)
}

/// What the bytes of an artifact hold, or why they are refused.
pub open spec fn decode_dense_spec(b: Seq<u8>) -> Result<Seq<u32>, &'static str> {
    if b.len() != 35 || b.subrange(0, 11) != dense_magic() {
        Err("wrong checkpoint header or length")
    } else if !all_finite(bits_at(b, 11, 6)) {
        Err("checkpoint contains a nonfinite value")
    } else {
        Ok(bits_at(b, 11, 6))
    }
}

/// The bytes of an artifact: the six parameters, weights first, after
/// checking that all are finite.
pub fn encode_dense(values: &[u32; 6]) -> (r: Result<Vec<u8>, &'static str>)
    ensures
        !all_finite(values@) ==> r == Err::<Vec<u8>, &'static str>("nonfinite model"),
        all_finite(values@) ==> (r matches Ok(b) && b@ == dense_bytes(values@)),
{
    let mut out: Vec<u8> = vec![0x43, 0x48, 0x35, 0x35, 0x44, 0x45, 0x4e, 0x53, 0x45, 0x30, 0x31];
    assert(out@ =~= dense_magic());
    push_bits(&mut out, values);
    if !check_finite(values) {
        return Err("nonfinite model");
    }
    Ok(out)
}

/// Reads an artifact: exactly thirty-five bytes, the magic, then six
/// finite parameters.
pub fn decode_dense(bytes: &[u8]) -> (r: Result<[u32; 6], &'static str>)
    ensures
        match r {
            Ok(v) => decode_dense_spec(bytes@) == Ok::<Seq<u32>, &'static str>(v@),
            Err(e) => decode_dense_spec(bytes@) == Err::<Seq<u32>, &'static str>(e),
        },
{
    if bytes.len() != 35 || !(bytes[0] == 0x43 && bytes[1] == 0x48 && bytes[2] == 0x35 && bytes[3]
        == 0x35 && bytes[4] == 0x44 && bytes[5] == 0x45 && bytes[6] == 0x4e && bytes[7] == 0x53
        && bytes[8] == 0x45 && bytes[9] == 0x30 && bytes[10] == 0x31) {
        proof {
            if bytes@.len() == 35 && bytes@.subrange(0, 11) == dense_magic() {
                assert(bytes@[0] == bytes@.subrange(0, 11)[0]);
                assert(bytes@[1] == bytes@.subrange(0, 11)[1]);
                assert(bytes@[2] == bytes@.subrange(0, 11)[2]);
                assert(bytes@[3] == bytes@.subrange(0, 11)[3]);
                assert(bytes@[4] == bytes@.subrange(0, 11)[4]);
                assert(bytes@[5] == bytes@.subrange(0, 11)[5]);
                assert(bytes@[6] == bytes@.subrange(0, 11)[6]);
                assert(bytes@[7] == bytes@.subrange(0, 11)[7]);
                assert(bytes@[8] == bytes@.subrange(0, 11)[8]);
                assert(bytes@[9] == bytes@.subrange(0, 11)[9]);
                assert(bytes@[10] == bytes@.subrange(0, 11)[10]);
            }
        }
        return Err("wrong checkpoint header or length");
    }
    assert(bytes@.subrange(0, 11) =~= dense_magic());
    let vs = read_bits(bytes, 11, 6);
    if !check_finite(&vs) {
        return Err("checkpoint contains a nonfinite value");
    }
    let out: [u32; 6] = [vs[0], vs[1], vs[2], vs[3], vs[4], vs[5]];
    assert(out@ =~= vs@);
    Ok(out)
}

/// An artifact written from finite parameters reads back as the same
/// parameters, bit for bit.
pub proof fn lemma_dense_round_trip(values: Seq<u32>)
    requires
        values.len() == 6,
        all_finite(values),
    ensures
        decode_dense_spec(dense_bytes(values)) == Ok::<Seq<u32>, &'static str>(values),
{
    let b = dense_bytes(values);
    let all = bits_values(values);
    crate::kernels::lemma_byte_powers();
    lemma_items_len(all, 4);
    assert(b.subrange(0, 11) =~= dense_magic());
    assert forall|j: int| 0 <= j < 6 implies #[trigger] bits_at(b, 11, 6)[j] == values[j] by {
        assert(b =~= dense_magic() + items_bytes(all, 4) + Seq::<u8>::empty());
        lemma_item_at(dense_magic(), all, 4, Seq::<u8>::empty(), j);
        assert(le_value(b.subrange(11 + 4 * j, 11 + 4 * j + 4)) == all[j]);
    }
    assert(bits_at(b, 11, 6) =~= values);
}

} // verus!
