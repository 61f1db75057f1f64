use vstd::prelude::*;
use vstd::arithmetic::power2::pow2;
use vstd::arithmetic::power2::lemma_pow2_unfold;
use vstd::arithmetic::power2::lemma2_to64;
use vstd::bits::lemma_u32_shl_is_mul;
use vstd::bits::lemma_u32_pow2_no_overflow;

pub mod beavertuple;
pub mod dpf;
pub mod input;
pub mod offline_data;
pub mod prg;
pub mod protocol;
pub mod ring;

pub use crate::ring::RingElm;
use crate::prg::FromRng;

verus! {

/// The component of `pair` that `val` selects: the first for `false`.
pub(crate) closed spec fn tuple_get_spec<T>(pair: (T, T), val: bool) -> T {
    if val {
        pair.1
    } else {
        pair.0
    }
}

/// The component of `pair` that `val` selects: the first for `false`.
pub(crate) fn tuple_get<T>(pair: &(T, T), val: bool) -> (r: &T)
    ensures
        *r == tuple_get_spec(*pair, val),
{
    match val {
        false => &pair.0,
        true => &pair.1,
    }
}

/// An abelian group, with a multiplication on top of it.
///
/// The spec functions give the mathematical meaning of each operation; the
/// proof functions are the group laws, which every implementation proves.
pub trait Group: Sized {
    spec fn g_zero() -> Self;

    spec fn g_one() -> Self;

    spec fn g_neg(a: Self) -> Self;

    spec fn g_add(a: Self, b: Self) -> Self;

    spec fn g_sub(a: Self, b: Self) -> Self;

    spec fn g_mul(a: Self, b: Self) -> Self;

    proof fn lemma_add_assoc(a: Self, b: Self, c: Self)
        ensures
            Self::g_add(Self::g_add(a, b), c) == Self::g_add(a, Self::g_add(b, c)),
    ;

    proof fn lemma_add_comm(a: Self, b: Self)
        ensures
            Self::g_add(a, b) == Self::g_add(b, a),
    ;

    proof fn lemma_add_zero(a: Self)
        ensures
            Self::g_add(a, Self::g_zero()) == a,
    ;

    proof fn lemma_add_neg(a: Self)
        ensures
            Self::g_add(a, Self::g_neg(a)) == Self::g_zero(),
    ;

    proof fn lemma_sub_is_add_neg(a: Self, b: Self)
        ensures
            Self::g_sub(a, b) == Self::g_add(a, Self::g_neg(b)),
    ;

    fn zero() -> (r: Self)
        ensures
            r == Self::g_zero(),
    ;

    fn one() -> (r: Self)
        ensures
            r == Self::g_one(),
    ;

    fn negate(&mut self)
        ensures
            *final(self) == Self::g_neg(*old(self)),
    ;

    fn add(&mut self, other: &Self)
        ensures
            *final(self) == Self::g_add(*old(self), *other),
    ;

    fn mul(&mut self, other: &Self)
        ensures
            *final(self) == Self::g_mul(*old(self), *other),
    ;

    fn sub(&mut self, other: &Self)
        ensures
            *final(self) == Self::g_sub(*old(self), *other),
    ;
}

/// `0 + a == a`.
pub proof fn lemma_zero_add<T: Group>(a: T)
    ensures
        T::g_add(T::g_zero(), a) == a,
{
    T::lemma_add_comm(T::g_zero(), a);
    T::lemma_add_zero(a);
}

/// `-a + a == 0`.
pub proof fn lemma_neg_add<T: Group>(a: T)
    ensures
        T::g_add(T::g_neg(a), a) == T::g_zero(),
{
    T::lemma_add_comm(T::g_neg(a), a);
    T::lemma_add_neg(a);
}

/// An element that cancels `a` is `-a`.
pub proof fn lemma_neg_unique<T: Group>(a: T, b: T)
    requires
        T::g_add(a, b) == T::g_zero(),
    ensures
        b == T::g_neg(a),
{
    // b = b + (a + -a) = (b + a) + -a = 0 + -a = -a
    T::lemma_add_zero(b);
    T::lemma_add_neg(a);
    T::lemma_add_assoc(b, a, T::g_neg(a));
    T::lemma_add_comm(b, a);
    lemma_zero_add(T::g_neg(a));
}

/// `-(-a) == a`.
pub proof fn lemma_neg_neg<T: Group>(a: T)
    ensures
        T::g_neg(T::g_neg(a)) == a,
{
    lemma_neg_add(a);
    lemma_neg_unique(T::g_neg(a), a);
}

/// `-(a + b) == -a + -b`.
pub proof fn lemma_neg_add_distr<T: Group>(a: T, b: T)
    ensures
        T::g_neg(T::g_add(a, b)) == T::g_add(T::g_neg(a), T::g_neg(b)),
{
    let na = T::g_neg(a);
    let nb = T::g_neg(b);
    // (a + b) + (na + nb) = a + (b + (na + nb)) = a + (b + (nb + na))
    //   = a + ((b + nb) + na) = a + (0 + na) = a + na = 0
    T::lemma_add_assoc(a, b, T::g_add(na, nb));
    T::lemma_add_comm(na, nb);
    T::lemma_add_assoc(b, nb, na);
    T::lemma_add_neg(b);
    lemma_zero_add(na);
    T::lemma_add_neg(a);
    lemma_neg_unique(T::g_add(a, b), T::g_add(na, nb));
}

/// `a + (b - a) == b`.
pub proof fn lemma_add_sub_cancel<T: Group>(a: T, b: T)
    ensures
        T::g_add(a, T::g_sub(b, a)) == b,
{
    T::lemma_sub_is_add_neg(b, a);
    T::lemma_add_comm(b, T::g_neg(a));
    T::lemma_add_assoc(a, T::g_neg(a), b);
    T::lemma_add_neg(a);
    lemma_zero_add(b);
}

/// Values that can be split into two additive shares.
pub trait Share: Group + FromRng + Copy {
    /// A value made from 16 fresh random bytes.
    fn random() -> (r: Self)
        ensures
            exists|b: Seq<u8>| b.len() == 16 && r == #[trigger] Self::from_block_spec(b),
    {
        let mut out = Self::zero();
        out.randomize();
        out
    }

    /// Splits the value into a random share and the share that completes
    /// it: the two add up to the value.
    fn share(&self) -> (r: (Self, Self))
        ensures
            Self::g_add(r.0, r.1) == *self,
            r.1 == Self::g_sub(*self, r.0),
            exists|b: Seq<u8>| b.len() == 16 && r.0 == #[trigger] Self::from_block_spec(b),
    {
        let mut s0 = Self::zero();
        s0.randomize();
        let mut s1 = *self;
        s1.sub(&s0);
        proof {
            lemma_add_sub_cancel(s0, *self);
        }
        (s0, s1)
    }

    /// Two independent random values.
    fn share_random() -> (r: (Self, Self))
        ensures
            exists|b: Seq<u8>| b.len() == 16 && r.0 == #[trigger] Self::from_block_spec(b),
            exists|b: Seq<u8>| b.len() == 16 && r.1 == #[trigger] Self::from_block_spec(b),
    {
        (Self::random(), Self::random())
    }
}

impl Share for bool {
}

/// Bits form a group under exclusive or; their product is the conjunction.
impl Group for bool {
    open spec fn g_zero() -> bool {
        false
    }

    open spec fn g_one() -> bool {
        true
    }

    open spec fn g_neg(a: bool) -> bool {
        a
    }

    open spec fn g_add(a: bool, b: bool) -> bool {
        a != b
    }

    open spec fn g_sub(a: bool, b: bool) -> bool {
        a != b
    }

    open spec fn g_mul(a: bool, b: bool) -> bool {
        a && b
    }

    proof fn lemma_add_assoc(a: bool, b: bool, c: bool) {
    }

    proof fn lemma_add_comm(a: bool, b: bool) {
    }

    proof fn lemma_add_zero(a: bool) {
    }

    proof fn lemma_add_neg(a: bool) {
    }

    proof fn lemma_sub_is_add_neg(a: bool, b: bool) {
    }

    fn zero() -> (r: bool) {
        false
    }

    fn one() -> (r: bool) {
        true
    }

    fn negate(&mut self) {
    }

    fn add(&mut self, other: &bool) {
        *self = *self != *other;
    }

    fn mul(&mut self, other: &bool) {
        *self = *self && *other;
    }

    fn sub(&mut self, other: &bool) {
        *self = *self != *other;
    }
}

/// The number whose binary digits are `bits`, the first bit being the most
/// significant one.
pub open spec fn bits_msb_value(bits: Seq<bool>) -> nat
    decreases bits.len(),
{
    if bits.len() == 0 {
        0
    } else {
        2 * bits_msb_value(bits.drop_last()) + (if bits.last() { 1nat } else { 0nat })
    }
}

/// The number whose binary digits are `bits`, the first bit being the least
/// significant one.
pub open spec fn bits_lsb_value(bits: Seq<bool>) -> nat
    decreases bits.len(),
{
    if bits.len() == 0 {
        0
    } else {
        bits_lsb_value(bits.drop_last()) + (if bits.last() {
            pow2((bits.len() - 1) as nat)
        } else {
            0nat
        })
    }
}

/// A number read from its bits, least significant first, is below
/// `2^len`.
pub proof fn lemma_lsb_bound(bits: Seq<bool>)
    ensures
        bits_lsb_value(bits) < pow2(bits.len()),
    decreases bits.len(),
{
    if bits.len() == 0 {
        lemma2_to64();
    } else {
        lemma_lsb_bound(bits.drop_last());
        lemma_pow2_unfold(bits.len());
    }
}

/// A number read from its bits, most significant first, is below `2^len`.
pub proof fn lemma_msb_bound(bits: Seq<bool>)
    ensures
        bits_msb_value(bits) < pow2(bits.len()),
    decreases bits.len(),
{
    lemma2_to64();
    if bits.len() > 0 {
        lemma_msb_bound(bits.drop_last());
        lemma_pow2_unfold(bits.len());
    }
}

/// Two bit sequences of the same length that read as the same number, most
/// significant bit first, are equal.
pub proof fn lemma_msb_value_injective(a: Seq<bool>, b: Seq<bool>)
    requires
        a.len() == b.len(),
        bits_msb_value(a) == bits_msb_value(b),
    ensures
        a == b,
    decreases a.len(),
{
    if a.len() > 0 {
        lemma_msb_value_injective(a.drop_last(), b.drop_last());
        assert(a =~= a.drop_last().push(a.last()));
        assert(b =~= b.drop_last().push(b.last()));
    } else {
        assert(a =~= b);
    }
}

/// Position-wise exclusive or of two bit sequences.
pub open spec fn bits_xor(a: Seq<bool>, b: Seq<bool>) -> Seq<bool> {
    Seq::new(a.len(), |i: int| a[i] != b[i])
}

/// The exclusive or of the numbers read from two bit sequences of the same
/// length (at most 16) is the number read from their position-wise
/// exclusive or.
pub proof fn lemma_lsb_xor(a: Seq<bool>, b: Seq<bool>)
    requires
        a.len() == b.len(),
        a.len() <= 16,
    ensures
        (bits_lsb_value(a) as u16) ^ (bits_lsb_value(b) as u16) == bits_lsb_value(bits_xor(a, b))
            as u16,
    decreases a.len(),
{
    lemma2_to64();
    if a.len() == 0 {
        assert(0u16 ^ 0u16 == 0u16) by (bit_vector);
    } else {
        let k = (a.len() - 1) as nat;
        lemma_lsb_xor(a.drop_last(), b.drop_last());
        assert(bits_xor(a, b).drop_last() =~= bits_xor(a.drop_last(), b.drop_last()));
        lemma_lsb_bound(a.drop_last());
        lemma_lsb_bound(b.drop_last());
        lemma_lsb_bound(bits_xor(a, b).drop_last());
        vstd::bits::lemma_u16_pow2_no_overflow(k);
        vstd::bits::lemma_u16_shl_is_mul(1u16, k as u16);
        if k < 15 {
            vstd::arithmetic::power2::lemma_pow2_strictly_increases(k + 1, 16);
        }
        lemma_pow2_unfold(k + 1);
        let x = bits_lsb_value(a.drop_last()) as u16;
        let y = bits_lsb_value(b.drop_last()) as u16;
        let kk = k as u16;
        let p = 1u16 << kk;
        assert((x + p) as u16 ^ (y + p) as u16 == x ^ y && (x + p) as u16 ^ y == ((x ^ y) + p) as u16
            && x ^ (y + p) as u16 == ((x ^ y) + p) as u16 && (x ^ y) < p) by (bit_vector)
            requires
                x < p,
                y < p,
                p == 1u16 << kk,
                kk < 16,
        ;
        assert(p == pow2(k));
        let c = bits_xor(a, b);
        assert(c.last() == (a.last() != b.last()));
        assert(bits_lsb_value(a) == x + (if a.last() { p as nat } else { 0 }));
        assert(bits_lsb_value(b) == y + (if b.last() { p as nat } else { 0 }));
        assert(bits_lsb_value(c) == (x ^ y) + (if c.last() { p as nat } else { 0 }));
        let va = bits_lsb_value(a);
        let vb = bits_lsb_value(b);
        let vc = bits_lsb_value(c);
        if a.last() && b.last() {
            assert(va as u16 == (x + p) as u16);
            assert(vb as u16 == (y + p) as u16);
            assert(vc as u16 == x ^ y);
        } else if a.last() {
            assert(va as u16 == (x + p) as u16);
            assert(vb as u16 == y);
            assert(vc as u16 == ((x ^ y) + p) as u16);
        } else if b.last() {
            assert(va as u16 == x);
            assert(vb as u16 == (y + p) as u16);
            assert(vc as u16 == ((x ^ y) + p) as u16);
        } else {
            assert(va as u16 == x);
            assert(vb as u16 == y);
            assert(vc as u16 == x ^ y);
        }
    }
}

/// Bit `i` of `x`, counted from the least significant bit.
pub open spec fn u64_bit(x: u64, i: nat) -> bool {
    x & (1u64 << i) != 0
}

/// The first `k` bits of `x`, least significant first, read back as a
/// number, are `x` modulo `2^k`.
proof fn lemma_u64_bits_prefix(x: u64, k: nat)
    requires
        k <= 64,
    ensures
        bits_lsb_value(Seq::new(64, |i: int| u64_bit(x, i as nat)).take(k as int)) == x as nat % pow2(
            k,
        ),
    decreases k,
{
    let bits = Seq::new(64, |i: int| u64_bit(x, i as nat));
    lemma2_to64();
    if k == 0 {
        assert(bits.take(0) =~= Seq::<bool>::empty());
    } else {
        let j = (k - 1) as nat;
        lemma_u64_bits_prefix(x, j);
        assert(bits.take(k as int).drop_last() =~= bits.take(j as int));
        let p = pow2(j);
        vstd::arithmetic::power2::lemma_pow2_pos(j);
        lemma_pow2_unfold(k);
        vstd::arithmetic::div_mod::lemma_mod_breakdown(x as int, p as int, 2);
        let jj = j as u64;
        vstd::bits::lemma_u64_shr_is_div(x, jj);
        assert((x & (1u64 << jj) != 0u64) == ((x >> jj) & 1u64 == 1u64)) by (bit_vector)
            requires
                jj < 64,
        ;
        let y = x >> jj;
        assert((y & 1u64 == 1u64) == (y % 2 == 1)) by (bit_vector);
        assert(bits.take(k as int).last() == u64_bit(x, j));
    }
}

/// The bits that `u64_to_bits` lists, read back least significant first,
/// give `x` again.
pub proof fn lemma_u64_bits_value(x: u64)
    ensures
        bits_lsb_value(Seq::new(64, |i: int| u64_bit(x, i as nat))) == x,
{
    lemma_u64_bits_prefix(x, 64);
    assert(Seq::new(64, |i: int| u64_bit(x, i as nat)).take(64) =~= Seq::new(
        64,
        |i: int| u64_bit(x, i as nat),
    ));
    lemma2_to64();
    vstd::arithmetic::div_mod::lemma_small_mod(x as nat, pow2(64));
}

/// Reads `bits` as a big-endian binary number.
pub fn bits_to_u16(bits: &[bool]) -> (out: u16)
    requires
        bits@.len() <= 16,
    ensures
        out as nat == bits_msb_value(bits@),
{
    let mut out = 0u16;
    let mut i: usize = 0;
    proof {
        lemma2_to64();
    }
    while i < bits.len()
        invariant
            i <= bits@.len() <= 16,
            out as nat == bits_msb_value(bits@.take(i as int)),
            out < pow2(i as nat),
        decreases bits@.len() - i,
    {
        let bit = bits[i];
        let b: u16 = if bit { 1 } else { 0 };
        proof {
            lemma2_to64();
            lemma_pow2_unfold((i + 1) as nat);
            assert(bits@.take(i + 1).drop_last() =~= bits@.take(i as int));
            assert(out < 0x8000) by {
                if i < 15 {
                    vstd::arithmetic::power2::lemma_pow2_strictly_increases(i as nat, 15);
                }
            }
            assert(((out << 1u16) | b) == 2 * out + b) by (bit_vector)
                requires
                    out < 0x8000,
                    b <= 1,
            ;
        }
        out = (out << 1) | b;
        i = i + 1;
    }
    assert(bits@.take(i as int) =~= bits@);
    out
}

/// Reads `bits` as a little-endian binary number.
pub fn bits_to_u32(bits: &[bool]) -> (out: u32)
    requires
        bits@.len() <= 32,
    ensures
        out as nat == bits_lsb_value(bits@),
{
    let mut out = 0u32;
    let mut i: usize = 0;
    proof {
        lemma2_to64();
    }
    while i < bits.len()
        invariant
            i <= bits@.len() <= 32,
            out as nat == bits_lsb_value(bits@.take(i as int)),
            out < pow2(i as nat),
        decreases bits@.len() - i,
    {
        let b32: u32 = if bits[i] { 1 } else { 0 };
        let sh: u32 = i as u32;
        proof {
            lemma_pow2_unfold((i + 1) as nat);
            lemma_u32_pow2_no_overflow(i as nat);
            lemma_u32_shl_is_mul(1u32, sh);
            lemma_u32_shl_is_mul(b32, sh);
            assert(bits@.take(i + 1).drop_last() =~= bits@.take(i as int));
            assert(out | (b32 << sh) == out + (b32 << sh)) by (bit_vector)
                requires
                    out < (1u32 << sh),
                    b32 <= 1,
                    sh < 32,
            ;
        }
        out = out | (b32 << sh);
        i = i + 1;
    }
    assert(bits@.take(i as int) =~= bits@);
    out
}

/// The 64 bits of `input`, least significant first.
pub fn u64_to_bits(input: u64) -> (out: Vec<bool>)
    ensures
        out@.len() == 64,
        forall|i: int| 0 <= i < 64 ==> out@[i] == u64_bit(input, i as nat),
{
    let mut out: Vec<bool> = Vec::new();
    let mut i: u64 = 0;
    while i < 64
        invariant
            i <= 64,
            out@.len() == i,
            forall|j: int| 0 <= j < i ==> out@[j] == u64_bit(input, j as nat),
        decreases 64 - i,
    {
        let bit = (input & (1u64 << i)) != 0;
        out.push(bit);
        i = i + 1;
    }
    out
}

} // verus!
