use pika::beavertuple::BeaverTuple;
use pika::dpf::DPFKey;
use pika::offline_data::BasicOffline;
use pika::prg::PrgSeed;
use pika::protocol::pika_local_x;
use pika::protocol::pika_share_value;
use pika::Group;
use pika::RingElm;

fn ring(v: u32) -> RingElm {
    RingElm::from(v)
}

fn add(a: RingElm, b: RingElm) -> RingElm {
    let mut r = a;
    r.add(&b);
    r
}

fn mul(a: RingElm, b: RingElm) -> RingElm {
    let mut r = a;
    r.mul(&b);
    r
}

fn seed(byte: u8) -> PrgSeed {
    let mut s = PrgSeed::zero();
    s.key[5] = byte;
    s
}

fn triple(byte: u8) -> (BeaverTuple, BeaverTuple) {
    let mut v0 = Vec::new();
    let mut v1 = Vec::new();
    BeaverTuple::gen_beaver(&mut v0, &mut v1, &seed(byte));
    assert_eq!(v0.len(), 1);
    assert_eq!(v1.len(), 1);
    (v0[0], v1[0])
}

#[test]
fn gen_beaver_makes_a_multiplication_triple() {
    for byte in [0u8, 1, 77, 255] {
        let (t0, t1) = triple(byte);
        assert_eq!(mul(add(t0.a, t1.a), add(t0.b, t1.b)), add(t0.ab, t1.ab));
        assert_eq!(t0.delta_a, RingElm::zero());
        assert_eq!(t1.delta_b, RingElm::zero());
    }
}

#[test]
fn gen_beaver_appends() {
    let mut v0 = Vec::new();
    let mut v1 = Vec::new();
    BeaverTuple::gen_beaver(&mut v0, &mut v1, &seed(1));
    BeaverTuple::gen_beaver(&mut v0, &mut v1, &seed(2));
    assert_eq!(v0.len(), 2);
    assert_eq!(v1.len(), 2);
    assert_ne!(v0[0].a, v0[1].a);
}

#[test]
fn beaver_multiplication_gives_shares_of_the_product() {
    let (mut t0, mut t1) = triple(9);
    let (x0, x1) = (ring(123456), ring(4000000000));
    let (y0, y1) = (ring(77), ring(0xffff_ff00));
    let m0 = t0.beaver_mul0(x0, y0);
    let m1 = t1.beaver_mul0(x1, y1);
    assert_eq!(m0.len(), 8);
    let r0 = t0.beaver_mul1(true, &m1);
    let r1 = t1.beaver_mul1(false, &m0);
    assert_eq!(add(r0, r1), mul(add(x0, x1), add(y0, y1)));
}

#[test]
fn beaver_mul0_sends_big_endian_differences() {
    let mut t = BeaverTuple {
        a: ring(1),
        b: ring(2),
        ab: ring(2),
        delta_a: RingElm::zero(),
        delta_b: RingElm::zero(),
    };
    let msg = t.beaver_mul0(ring(0x0102_0305), ring(1));
    assert_eq!(msg, vec![1, 2, 3, 4, 0xff, 0xff, 0xff, 0xff]);
    assert_eq!(t.delta_a, ring(0x0102_0304));
    assert_eq!(t.delta_b, ring(u32::MAX));
}

#[test]
fn beaver_mul1_adds_the_other_differences() {
    let mut t = BeaverTuple {
        a: ring(3),
        b: ring(5),
        ab: ring(15),
        delta_a: ring(1),
        delta_b: ring(2),
    };
    let r = t.beaver_mul1(true, &vec![0, 0, 0, 4, 0, 0, 1, 0]);
    assert_eq!(t.delta_a, ring(5));
    assert_eq!(t.delta_b, ring(258));
    // 5 * 258 + 5 * 5 + 258 * 3 + 15
    assert_eq!(r, ring(5 * 258 + 25 + 258 * 3 + 15));
    let mut c = t;
    let rc = c.beaver_mul1(false, &vec![0; 8]);
    assert_eq!(rc, ring(5 * 5 + 258 * 3 + 15));
}

#[test]
fn opened_multiplication_gives_shares_of_the_product() {
    let (mut t0, mut t1) = triple(3);
    let (x0, x1) = (ring(10), ring(20));
    let (y0, y1) = (ring(u32::MAX), ring(2));
    let (da0, db0) = t0.mul_open(x0, y0);
    let (da1, db1) = t1.mul_open(x1, y1);
    let da = add(da0, da1);
    let db = add(db0, db1);
    let r0 = t0.mul_compute(true, &da, &db);
    let r1 = t1.mul_compute(false, &da, &db);
    assert_eq!(add(r0, r1), ring(30));
    assert_eq!(t0.delta_a, da);
    assert_eq!(t1.delta_b, db);
}

fn input_bits(n: u32) -> Vec<bool> {
    (0..32).map(|i| (n >> (31 - i)) & 1 == 1).collect()
}

fn pack(bits: &[bool]) -> u16 {
    let mut v = 0u16;
    for (i, b) in bits.iter().enumerate() {
        if *b {
            v |= 1 << i;
        }
    }
    v
}

#[test]
fn offline_shares_fit_together() {
    let input = input_bits(323232123);
    let (p0, p1) = BasicOffline::gen_shares(&input, &seed(42), &seed(43));
    assert_eq!(p0.x_share.len(), 1);
    assert_eq!(p1.x_share.len(), 1);
    assert_eq!(p0.x_share[0] ^ p1.x_share[0], pack(&input[..16]));
    assert_eq!(p0.r_share.len(), 1);
    let r = p0.r_share[0] ^ p1.r_share[0];
    assert_eq!(p0.k_share.len(), 1);
    assert_eq!(p1.k_share.len(), 1);
    // The point of the keys is the mask, read from the same bits.
    let r_bits: Vec<bool> = (0..16).map(|i| (r >> i) & 1 == 1).collect();
    let y = p0.k_share[0].eval(&r_bits) ^ p1.k_share[0].eval(&r_bits);
    assert!(y);
    let mut other = r_bits.clone();
    other[3] = !other[3];
    assert!(!(p0.k_share[0].eval(&other) ^ p1.k_share[0].eval(&other)));
    let w = add(p0.w_share[0], p1.w_share[0]);
    assert!(w == RingElm::one() || w == ring(u32::MAX));
    let (t0, t1) = (p0.beavers[0], p1.beavers[0]);
    assert_eq!(mul(add(t0.a, t1.a), add(t0.b, t1.b)), add(t0.ab, t1.ab));
}

#[test]
fn offline_shares_skip_short_inputs() {
    let input = vec![true; 20];
    let (p0, p1) = BasicOffline::gen_shares(&input, &seed(1), &seed(2));
    assert!(p0.x_share.is_empty());
    assert!(p1.x_share.is_empty());
    assert_eq!(p0.r_share.len(), 1);
    assert_eq!(p1.w_share.len(), 1);
}

#[test]
fn offline_shares_are_deterministic_in_the_seed() {
    let input = input_bits(7);
    let (a0, _) = BasicOffline::gen_shares(&input, &seed(5), &seed(6));
    let (b0, _) = BasicOffline::gen_shares(&input, &seed(5), &seed(6));
    assert_eq!(a0.x_share, b0.x_share);
    assert_eq!(a0.r_share, b0.r_share);
    let (t, u) = (a0.beavers[0], b0.beavers[0]);
    assert_eq!((t.a, t.b, t.ab), (u.a, u.b, u.ab));
}

#[test]
fn offline_triple_does_not_come_from_the_mask_stream() {
    let input = input_bits(7);
    let (a0, _) = BasicOffline::gen_shares(&input, &seed(5), &seed(6));
    let (b0, _) = BasicOffline::gen_shares(&input, &seed(5), &seed(9));
    // the same mask stream, another triple key: the triple changes
    assert_eq!(a0.r_share, b0.r_share);
    let (t, u) = (a0.beavers[0], b0.beavers[0]);
    assert_ne!((t.a, t.b, t.ab), (u.a, u.b, u.ab));
}

#[test]
fn gen_data_makes_one_pair_per_input() {
    let offline = BasicOffline::new();
    assert!(offline.k_share.is_empty());
    let pairs = offline.gen_data(&vec![input_bits(1), input_bits(2)]);
    assert_eq!(pairs.len(), 2);
    for (p0, p1) in &pairs {
        assert_eq!(p0.x_share.len(), 1);
        assert_eq!(p1.r_share.len(), 1);
    }
}

#[test]
fn local_x_subtracts_modulo_2_pow_16() {
    assert_eq!(pika_local_x(10, 3), 7);
    assert_eq!(pika_local_x(3, 10), 65529);
    assert_eq!(pika_local_x(0, 0), 0);
}

#[test]
fn share_value_is_the_shifted_inner_product() {
    let y = vec![false, true, false, false];
    let db = vec![10u32, 20, 30];
    // shift 0: only table entry 1 meets the set bit
    assert_eq!(pika_share_value(&y, 0, &db, true), ring(20));
    // shift 1: entry 0 is paired with position 1
    assert_eq!(pika_share_value(&y, 1, &db, true), ring(10));
    // the client negates
    assert_eq!(pika_share_value(&y, 1, &db, false), ring(0u32.wrapping_sub(10)));
    // shift 2: entry i meets position (i + 2) % 4; position 1 is met by no entry
    assert_eq!(pika_share_value(&y, 2, &db, true), RingElm::zero());
    assert_eq!(pika_share_value(&vec![], 0, &vec![], true), RingElm::zero());
}

#[test]
fn share_value_gives_the_server_the_plus_sign() {
    let mut y = vec![false; 65535];
    y[0] = true;
    let db = vec![1u32];
    assert_eq!(pika_share_value(&y, 0, &db, true), RingElm::one());
    assert_eq!(pika_share_value(&y, 0, &db, false), ring(u32::MAX));
}

#[test]
fn dpf_keys_from_offline_data_evaluate_over_the_domain() {
    let (k0, k1, _) = DPFKey::<bool>::gen(&[false; 16], &true);
    let y0 = k0.eval_all();
    let y1 = k1.eval_all();
    assert!(y0[0] ^ y1[0]);
    assert!(!(y0[1] ^ y1[1]));
}

fn neg(a: RingElm) -> RingElm {
    let mut r = a;
    r.negate();
    r
}

#[test]
fn share_values_combine_to_the_entries_at_the_point() {
    // The share vectors differ only at position 2.
    let y_server = vec![true, false, false, true, false];
    let y_client = vec![true, false, true, true, false];
    let db = vec![7u32, 11, 13, 17, 19, 23, 29];
    let x = 3u16;
    let v0 = pika_share_value(&y_server, x, &db, true);
    let v1 = pika_share_value(&y_client, x, &db, false);
    // entries i with (i + 3) % 5 == 2: i = 4; the server's bit is unset
    assert_eq!(add(v0, v1), neg(ring(19)));
    // with the bit on the server's side the sum is the entry itself
    let v0b = pika_share_value(&y_client, x, &db, true);
    let v1b = pika_share_value(&y_server, x, &db, false);
    assert_eq!(add(v0b, v1b), ring(19));
}

#[test]
fn online_phase_without_the_network() {
    let input = input_bits(323232123);
    let (mut p0, mut p1) = BasicOffline::gen_shares(&input, &seed(11), &seed(12));
    let x = pika_local_x(p0.r_share[0], p0.x_share[0])
        .wrapping_add(pika_local_x(p1.r_share[0], p1.x_share[0]));
    let y0 = p0.k_share[0].eval_all();
    let y1 = p1.k_share[0].eval_all();
    let db: Vec<u32> = (0..65535u32).map(|i| i * 3 + 1).collect();
    let v0 = pika_share_value(&y0, x, &db, true);
    let v1 = pika_share_value(&y1, x, &db, false);
    let w0 = p0.w_share[0];
    let w1 = p1.w_share[0];
    let m0 = p0.beavers[0].beaver_mul0(v0, w0);
    let m1 = p1.beavers[0].beaver_mul0(v1, w1);
    let r0 = p0.beavers[0].beaver_mul1(true, &m1);
    let r1 = p1.beavers[0].beaver_mul1(false, &m0);
    let v = add(v0, v1);
    assert_eq!(add(r0, r1), mul(v, add(w0, w1)));
    // the point is the mask read most significant bit first
    let r = p0.r_share[0] ^ p1.r_share[0];
    let point = (0..16).fold(0u32, |acc, i| (acc << 1) | ((r >> i) & 1) as u32) as usize;
    if point < 65535 {
        let mut sel = RingElm::zero();
        for i in 0..db.len() {
            if (i + x as usize) % 65535 == point {
                sel.add(&ring(db[i]));
            }
        }
        assert!(v == sel || v == neg(sel));
    }
}
