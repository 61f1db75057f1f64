use pika::bits_to_u16;
use pika::bits_to_u32;
use pika::u64_to_bits;
use pika::Group;
use pika::Share;
use pika::RingElm;
use pika::input::sign_magnitude;
use pika::input::u32_to_bool_vector;

#[test]
fn bits_to_u16_reads_most_significant_first() {
    assert_eq!(bits_to_u16(&[true, false, true]), 5);
    assert_eq!(bits_to_u16(&[true, false, false, false]), 8);
    assert_eq!(bits_to_u16(&[]), 0);
    assert_eq!(bits_to_u16(&[true; 16]), u16::MAX);
}

#[test]
fn bits_to_u32_reads_least_significant_first() {
    assert_eq!(bits_to_u32(&[true, false, true]), 5);
    assert_eq!(bits_to_u32(&[false, true]), 2);
    assert_eq!(bits_to_u32(&[]), 0);
    assert_eq!(bits_to_u32(&[true; 32]), u32::MAX);
    let mut bits = [false; 32];
    bits[31] = true;
    assert_eq!(bits_to_u32(&bits), 0x8000_0000);
}

#[test]
fn u64_to_bits_lists_bits_least_significant_first() {
    let bits = u64_to_bits(5);
    assert_eq!(bits.len(), 64);
    assert!(bits[0]);
    assert!(!bits[1]);
    assert!(bits[2]);
    assert!(bits[3..].iter().all(|b| !b));
    let top = u64_to_bits(1u64 << 63);
    assert!(top[63]);
    assert_eq!(top.iter().filter(|b| **b).count(), 1);
}

#[test]
fn u64_bits_read_back_as_u32() {
    let x: u64 = 0x1234_5678_9abc_def0;
    let bits = u64_to_bits(x);
    assert_eq!(bits_to_u32(&bits[..32]), 0x9abc_def0);
}

#[test]
fn ring_operations_wrap_modulo_2_pow_32() {
    let mut a = RingElm::from(u32::MAX);
    a.add(&RingElm::from(2));
    assert_eq!(a, RingElm::from(1));
    let mut b = RingElm::from(1);
    b.sub(&RingElm::from(3));
    assert_eq!(b.to_u32(), Some(u32::MAX - 1));
    let mut c = RingElm::from(0x1_0000);
    c.mul(&RingElm::from(0x1_0001));
    assert_eq!(c, RingElm::from(0x1_0000));
    let mut d = RingElm::from(5);
    d.negate();
    assert_eq!(d, RingElm::from(u32::MAX - 4));
    let mut z = RingElm::zero();
    z.negate();
    assert_eq!(z, RingElm::zero());
    assert_eq!(RingElm::one(), RingElm::from(1));
}

#[test]
fn bits_form_a_group_under_xor() {
    let mut t = true;
    t.add(&true);
    assert!(!t);
    let mut f = false;
    f.sub(&true);
    assert!(f);
    let mut n = true;
    n.negate();
    assert!(n);
    let mut m = true;
    m.mul(&false);
    assert!(!m);
    assert!(!bool::zero());
    assert!(bool::one());
}

#[test]
fn sharing_splits_into_shares_that_add_up() {
    for v in [0u32, 1, 12345, u32::MAX] {
        let x = RingElm::from(v);
        let (s0, s1) = x.share();
        let mut sum = s0;
        sum.add(&s1);
        assert_eq!(sum, x);
    }
    for b in [false, true] {
        let (s0, s1) = b.share();
        assert_eq!(s0 ^ s1, b);
    }
    let (r0, r1) = RingElm::share_random();
    let _ = (r0, r1, RingElm::random());
}

#[test]
fn sign_magnitude_sets_the_top_bit_of_negative_inputs() {
    assert_eq!(sign_magnitude(5), 5);
    assert_eq!(sign_magnitude(0), 0);
    assert_eq!(sign_magnitude(-5), 0x8000_0005);
    assert_eq!(sign_magnitude(i32::MAX), 0x7fff_ffff);
    assert_eq!(sign_magnitude(-i32::MAX), 0xffff_ffff);
}

#[test]
fn u32_to_bool_vector_lists_bits_most_significant_first() {
    let bits = u32_to_bool_vector(1);
    assert_eq!(bits.len(), 32);
    assert!(bits[31]);
    assert_eq!(bits.iter().filter(|b| **b).count(), 1);
    let bits = u32_to_bool_vector(0x8000_0003);
    assert!(bits[0]);
    assert!(bits[30]);
    assert!(bits[31]);
    assert_eq!(bits.iter().filter(|b| **b).count(), 3);
}

#[test]
fn bits_most_significant_first_read_back() {
    for n in [0u16, 1, 2, 0x1234, 0x8000, u16::MAX] {
        let bits: Vec<bool> = (0..16).map(|k| (n >> (15 - k)) & 1 == 1).collect();
        assert_eq!(bits_to_u16(&bits), n);
    }
}

#[test]
fn u64_bits_read_back_whole() {
    for x in [0u64, 1, 0xdead_beef_0123_4567, u64::MAX] {
        let bits = u64_to_bits(x);
        let value = bits.iter().enumerate().fold(0u64, |acc, (i, b)| acc | ((*b as u64) << i));
        assert_eq!(value, x);
    }
}

#[test]
fn ring_addition_is_a_group() {
    let a = RingElm::from(0xffff_fff0);
    let b = RingElm::from(0x20);
    let c = RingElm::from(7);
    let mut ab = a;
    ab.add(&b);
    let mut ab_c = ab;
    ab_c.add(&c);
    let mut bc = b;
    bc.add(&c);
    let mut a_bc = a;
    a_bc.add(&bc);
    assert_eq!(ab_c, a_bc);
    let mut ba = b;
    ba.add(&a);
    assert_eq!(ab, ba);
    let mut na = a;
    na.negate();
    let mut sum = a;
    sum.add(&na);
    assert_eq!(sum, RingElm::zero());
    let mut d = a;
    d.sub(&b);
    let mut e = a;
    let mut nb = b;
    nb.negate();
    e.add(&nb);
    assert_eq!(d, e);
}

#[test]
fn ring_operators_wrap_modulo_2_pow_32() {
    assert_eq!(RingElm::from(u32::MAX) + RingElm::from(2), RingElm::from(1));
    assert_eq!(RingElm::from(3) - RingElm::from(5), RingElm::from(u32::MAX - 1));
    assert_eq!(RingElm::from(0x10000) * RingElm::from(0x10000), RingElm::from(0));
    assert_eq!(RingElm::from(6) * RingElm::from(7), RingElm::from(42));
}
