use vstd::prelude::*;
use vstd::arithmetic::div_mod::lemma_add_mod_noop;
use vstd::arithmetic::div_mod::lemma_mod_twice;
use crate::Group;
use crate::prg::FromRng;
use crate::Share;

verus! {

/// The modulus of the ring: elements are integers modulo 2^32.
pub open spec fn ring_modulus() -> int {
    0x1_0000_0000
}

/// An element of the ring of integers modulo 2^32.
#[derive(Clone, Copy, Debug, PartialEq, Eq, Structural)]
pub struct RingElm {
    pub value: u32,
}

/// The element of the ring that the integer `x` stands for.
pub open spec fn ring_of(x: int) -> RingElm {
    RingElm { value: (x % ring_modulus()) as u32 }
}

impl RingElm {
    /// The element whose representative is `value`.
    pub fn from(value: u32) -> (r: RingElm)
        ensures
            r.value == value,
    {
        RingElm { value }
    }

    /// The representative of this element, in `0..2^32`.
    pub fn to_u32(&self) -> (r: Option<u32>)
        ensures
            r == Some(self.value),
    {
        Some(self.value)
    }
}

/// The integer whose little-endian bytes are the first four of `b`.
pub open spec fn le_u32(b: Seq<u8>) -> int {
    b[0] + 256 * b[1] + 65536 * b[2] + 16777216 * b[3]
}

/// A ring element is the little-endian reading of the first four bytes.
impl FromRng for RingElm {
    open spec fn from_block_spec(block: Seq<u8>) -> RingElm {
        RingElm { value: le_u32(block) as u32 }
    }

    fn from_block(block: &[u8; 16]) -> (r: RingElm) {
        let value = block[0] as u32 + 256 * (block[1] as u32) + 65536 * (block[2] as u32)
            + 16777216 * (block[3] as u32);
        RingElm { value }
    }
}

impl Group for RingElm {
    open spec fn g_zero() -> RingElm {
        RingElm { value: 0 }
    }

    open spec fn g_one() -> RingElm {
        RingElm { value: 1 }
    }

    open spec fn g_neg(a: RingElm) -> RingElm {
        ring_of(-(a.value as int))
    }

    open spec fn g_add(a: RingElm, b: RingElm) -> RingElm {
        ring_of(a.value + b.value)
    }

    open spec fn g_sub(a: RingElm, b: RingElm) -> RingElm {
        ring_of(a.value - b.value)
    }

    open spec fn g_mul(a: RingElm, b: RingElm) -> RingElm {
        ring_of(a.value * b.value)
    }

    proof fn lemma_add_assoc(a: RingElm, b: RingElm, c: RingElm) {
        let m = ring_modulus();
        lemma_add_mod_noop(a.value + b.value, c.value as int, m);
        lemma_add_mod_noop(a.value as int, b.value + c.value, m);
        lemma_mod_twice(c.value as int, m);
        lemma_mod_twice(a.value as int, m);
        vstd::arithmetic::div_mod::lemma_small_mod(a.value as nat, m as nat);
        vstd::arithmetic::div_mod::lemma_small_mod(c.value as nat, m as nat);
    }

    proof fn lemma_add_comm(a: RingElm, b: RingElm) {
    }

    proof fn lemma_add_zero(a: RingElm) {
        vstd::arithmetic::div_mod::lemma_small_mod(a.value as nat, ring_modulus() as nat);
    }

    proof fn lemma_add_neg(a: RingElm) {
        let m = ring_modulus();
        lemma_add_mod_noop(a.value as int, -(a.value as int), m);
        vstd::arithmetic::div_mod::lemma_small_mod(a.value as nat, m as nat);
    }

    proof fn lemma_sub_is_add_neg(a: RingElm, b: RingElm) {
        let m = ring_modulus();
        lemma_add_mod_noop(a.value as int, -(b.value as int), m);
        vstd::arithmetic::div_mod::lemma_small_mod(a.value as nat, m as nat);
    }

    fn zero() -> (r: RingElm) {
        RingElm { value: 0 }
    }

    fn one() -> (r: RingElm) {
        RingElm { value: 1 }
    }

    fn negate(&mut self) {
        self.value = 0u32.wrapping_sub(self.value);
    }

    fn add(&mut self, other: &RingElm) {
        self.value = self.value.wrapping_add(other.value);
    }

    fn mul(&mut self, other: &RingElm) {
        self.value = self.value.wrapping_mul(other.value);
    }

    fn sub(&mut self, other: &RingElm) {
        self.value = self.value.wrapping_sub(other.value);
    }
}

impl Share for RingElm {
}

/// `a + b` is the sum in the ring.
impl std::ops::Add for RingElm {
    type Output = RingElm;

    fn add(self, rhs: RingElm) -> (r: RingElm) {
        RingElm { value: self.value.wrapping_add(rhs.value) }
    }
}

impl vstd::std_specs::ops::AddSpecImpl for RingElm {
    open spec fn obeys_add_spec() -> bool {
        true
    }

    open spec fn add_req(self, rhs: RingElm) -> bool {
        true
    }

    open spec fn add_spec(self, rhs: RingElm) -> RingElm {
        RingElm::g_add(self, rhs)
    }
}

/// `a - b` is the difference in the ring.
impl std::ops::Sub for RingElm {
    type Output = RingElm;

    fn sub(self, rhs: RingElm) -> (r: RingElm) {
        RingElm { value: self.value.wrapping_sub(rhs.value) }
    }
}

impl vstd::std_specs::ops::SubSpecImpl for RingElm {
    open spec fn obeys_sub_spec() -> bool {
        true
    }

    open spec fn sub_req(self, rhs: RingElm) -> bool {
        true
    }

    open spec fn sub_spec(self, rhs: RingElm) -> RingElm {
        RingElm::g_sub(self, rhs)
    }
}

/// `a * b` is the product in the ring.
impl std::ops::Mul for RingElm {
    type Output = RingElm;

    fn mul(self, rhs: RingElm) -> (r: RingElm) {
        RingElm { value: self.value.wrapping_mul(rhs.value) }
    }
}

impl vstd::std_specs::ops::MulSpecImpl for RingElm {
    open spec fn obeys_mul_spec() -> bool {
        true
    }

    open spec fn mul_req(self, rhs: RingElm) -> bool {
        true
    }

    open spec fn mul_spec(self, rhs: RingElm) -> RingElm {
        RingElm::g_mul(self, rhs)
    }
}

/// `x` and `y` are congruent modulo 2^32.
pub open spec fn cong(x: int, y: int) -> bool {
    x % ring_modulus() == y % ring_modulus()
}

/// Congruence is kept by addition, subtraction and multiplication.
pub proof fn lemma_cong_ops(x1: int, y1: int, x2: int, y2: int)
    requires
        cong(x1, y1),
        cong(x2, y2),
    ensures
        cong(x1 + x2, y1 + y2),
        cong(x1 - x2, y1 - y2),
        cong(x1 * x2, y1 * y2),
{
    let m = ring_modulus();
    vstd::arithmetic::div_mod::lemma_add_mod_noop(x1, x2, m);
    vstd::arithmetic::div_mod::lemma_add_mod_noop(y1, y2, m);
    vstd::arithmetic::div_mod::lemma_sub_mod_noop(x1, x2, m);
    vstd::arithmetic::div_mod::lemma_sub_mod_noop(y1, y2, m);
    vstd::arithmetic::div_mod::lemma_mul_mod_noop(x1, x2, m);
    vstd::arithmetic::div_mod::lemma_mul_mod_noop(y1, y2, m);
}

/// The value of a sum, difference or product of ring elements is congruent
/// to the sum, difference or product of their values.
pub proof fn lemma_ring_ops_cong(a: RingElm, b: RingElm)
    ensures
        cong(RingElm::g_add(a, b).value as int, a.value + b.value),
        cong(RingElm::g_sub(a, b).value as int, a.value - b.value),
        cong(RingElm::g_mul(a, b).value as int, a.value * b.value),
        cong(RingElm::g_neg(a).value as int, -(a.value as int)),
{
    let m = ring_modulus();
    lemma_mod_twice(a.value + b.value, m);
    lemma_mod_twice(a.value - b.value, m);
    lemma_mod_twice(a.value * b.value, m);
    lemma_mod_twice(-(a.value as int), m);
}

/// Ring elements whose values are congruent are equal.
pub proof fn lemma_cong_eq(a: RingElm, b: RingElm)
    requires
        cong(a.value as int, b.value as int),
    ensures
        a == b,
{
    vstd::arithmetic::div_mod::lemma_small_mod(a.value as nat, ring_modulus() as nat);
    vstd::arithmetic::div_mod::lemma_small_mod(b.value as nat, ring_modulus() as nat);
}

} // verus!
