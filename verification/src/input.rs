use vstd::prelude::*;
use crate::beavertuple::be_bytes;

verus! {

/// The 32 bits of `value`, most significant first.
pub open spec fn u32_msb_bits(value: u32) -> Seq<bool> {
    Seq::new(32, |k: int| (value >> ((31 - k) as u32)) & 1u32 == 1u32)
}

/// Reading the first `k` of the 32 bits of `n`, most significant first,
/// gives the `k` most significant bits of `n`.
proof fn lemma_u32_msb_bits_prefix(n: u32, k: nat)
    requires
        k <= 32,
    ensures
        crate::bits_msb_value(u32_msb_bits(n).take(k as int)) == (n >> ((32 - k) as u32)) as nat,
    decreases k,
{
    if k == 0 {
        assert(u32_msb_bits(n).take(0) =~= Seq::<bool>::empty());
        assert(n >> 32u32 == 0u32) by (bit_vector);
    } else {
        lemma_u32_msb_bits_prefix(n, (k - 1) as nat);
        let bits = u32_msb_bits(n).take(k as int);
        assert(bits.drop_last() =~= u32_msb_bits(n).take(k - 1));
        let sh = (32 - k) as u32;
        assert(bits.last() == ((n >> sh) & 1u32 == 1u32));
        assert((n >> sh) == 2 * (n >> ((sh + 1) as u32)) + ((n >> sh) & 1u32)) by (bit_vector)
            requires
                sh < 32,
        ;
        assert((n >> sh) & 1u32 == 0u32 || (n >> sh) & 1u32 == 1u32) by (bit_vector);
    }
}

/// Reading the 32 bits of `n`, most significant first, gives back `n`: bit
/// `k` of the encoding carries the weight `2^(31 - k)`.
pub proof fn lemma_u32_msb_bits_value(n: u32)
    ensures
        crate::bits_msb_value(u32_msb_bits(n)) == n,
{
    lemma_u32_msb_bits_prefix(n, 32);
    assert(u32_msb_bits(n).take(32) =~= u32_msb_bits(n));
    assert(n >> 0u32 == n) by (bit_vector);
}

/// The encoding of an input integer: its value for a non-negative one; for a
/// negative one, its magnitude with the top bit set.
pub open spec fn sign_magnitude_spec(value: i32) -> u32 {
    if value >= 0 {
        value as u32
    } else {
        ((-value) as u32) ^ 0x8000_0000u32
    }
}

/// Encodes an input integer as 32 bits: sign bit on top, magnitude below.
pub fn sign_magnitude(value_i32: i32) -> (r: u32)
    requires
        value_i32 != i32::MIN,
    ensures
        r == sign_magnitude_spec(value_i32),
{
    assert(1u32 << 31u32 == 0x8000_0000u32) by (bit_vector);
    if value_i32 >= 0 {
        value_i32 as u32
    } else {
        ((-value_i32) as u32) ^ (1u32 << 31u32)
    }
}

/// The bits of `value`, most significant first: the bytes in big-endian
/// order, each from its top bit down.
pub fn u32_to_bool_vector(value: u32) -> (r: Vec<bool>)
    ensures
        r@ == u32_msb_bits(value),
        r@.len() == 32,
        forall|k: int| 0 <= k < 32 ==> r@[k] == ((value >> ((31 - k) as u32)) & 1u32 == 1u32),
        crate::bits_msb_value(r@) == value,
{
    let bytes = [(value >> 24u32) as u8, (value >> 16u32) as u8, (value >> 8u32) as u8, value as u8];
    let mut bool_vector: Vec<bool> = Vec::new();
    let mut bi: usize = 0;
    while bi < 4
        invariant
            bi <= 4,
            bytes@ == be_bytes(value),
            bool_vector@ == u32_msb_bits(value).take(8 * bi as int),
        decreases 4 - bi,
    {
        let byte = bytes[bi];
        let mut i: u8 = 8;
        while i > 0
            invariant
                bi < 4,
                i <= 8,
                byte == be_bytes(value)[bi as int],
                bool_vector@ == u32_msb_bits(value).take(8 * bi + (8 - i)),
            decreases i,
        {
            i = i - 1;
            let bit = (byte & (1u8 << i)) != 0;
            proof {
                let k = 8 * bi + (7 - i);
                let sh = (31 - k) as u32;
                let b = (value >> ((24 - 8 * bi) as u32)) as u8;
                assert(byte == b) by {
                    if bi == 0 {
                        assert(be_bytes(value)[0] == (value >> 24u32) as u8);
                    } else if bi == 1 {
                        assert(be_bytes(value)[1] == (value >> 16u32) as u8);
                    } else if bi == 2 {
                        assert(be_bytes(value)[2] == (value >> 8u32) as u8);
                    } else {
                        assert(be_bytes(value)[3] == value as u8);
                        assert(value >> 0u32 == value) by (bit_vector);
                    }
                }
                assert(((b & (1u8 << i)) != 0u8) == ((value >> sh) & 1u32 == 1u32)) by (bit_vector)
                    requires
                        b == (value >> ((24 - 8 * bi) as u32)) as u8,
                        i < 8,
                        bi < 4,
                        sh == 31 - (8 * bi + (7 - i)),
                ;
                assert(u32_msb_bits(value).take(k + 1) =~= u32_msb_bits(value).take(k).push(
                    u32_msb_bits(value)[k],
                ));
            }
            bool_vector.push(bit);
        }
        bi = bi + 1;
    }
    assert(u32_msb_bits(value).take(32) =~= u32_msb_bits(value));
    proof {
        lemma_u32_msb_bits_value(value);
    }
    bool_vector
}

} // verus!
