use pika::dpf::DPFKey;
use pika::prg::FixedKeyPrgStream;
use pika::prg::PrgSeed;
use pika::Group;
use pika::RingElm;

fn bits_of(n: u32, len: usize) -> Vec<bool> {
    (0..len).map(|i| (n >> (len - 1 - i)) & 1 == 1).collect()
}

#[test]
fn seeds_zero_and_one() {
    assert_eq!(PrgSeed::zero().key, [0u8; 16]);
    let mut one = [0u8; 16];
    one[0] = 1;
    assert_eq!(PrgSeed::one().key, one);
}

#[test]
fn seed_xor_is_bytewise() {
    let mut a = PrgSeed::zero();
    a.key[3] = 0b1010;
    let mut b = PrgSeed::one();
    b.key[3] = 0b0110;
    let c = a.xor(&b);
    assert_eq!(c.key[0], 1);
    assert_eq!(c.key[3], 0b1100);
    assert_eq!(c.xor(&b), a);
}

#[test]
fn expand_uses_aes_on_counter_blocks() {
    // AES-128 under the all-zero key maps the all-zero block to this value.
    let expected: [u8; 16] = [
        0x66, 0xe9, 0x4b, 0xd4, 0xef, 0x8a, 0x2c, 0x3b, 0x88, 0x4c, 0xfa, 0x59, 0xca, 0x34, 0x2b,
        0x2e,
    ];
    let out = PrgSeed::zero().expand();
    assert_eq!(out.seeds.0.key, expected);
    assert_ne!(out.seeds.1.key, expected);
    let again = PrgSeed::zero().expand();
    assert_eq!(again.seeds.1.key, out.seeds.1.key);
    assert_eq!(again.bits, out.bits);
    assert_ne!(PrgSeed::one().expand().seeds.0.key, expected);
}

#[test]
fn stream_bits_are_aes_counter_mode_least_significant_bit_first() {
    let mut stream = FixedKeyPrgStream::new();
    let bits = stream.next_bits(8);
    // 0x66 = 0b0110_0110
    assert_eq!(bits, vec![false, true, true, false, false, true, true, false]);
    let next = stream.next_bits(8);
    // 0xe9 = 0b1110_1001
    assert_eq!(next, vec![true, false, false, true, false, true, true, true]);
    let mut again = FixedKeyPrgStream::new();
    again.set_key(&[0u8; 16]);
    let long = again.next_bits(300);
    assert_eq!(long.len(), 300);
    assert_eq!(&long[..8], &bits[..]);
    let mut other = FixedKeyPrgStream::new();
    other.set_key(&PrgSeed::one().key);
    assert_ne!(other.next_bits(128), long[..128].to_vec());
}

#[test]
fn dpf_bool_shares_xor_to_the_point_function() {
    let alpha = vec![true, false, true];
    let (k0, k1, _) = DPFKey::<bool>::gen(&alpha, &true);
    assert_eq!(k0.domain_size(), 3);
    for x in 0..8u32 {
        let idx = bits_of(x, 3);
        let y = k0.eval(&idx) ^ k1.eval(&idx);
        assert_eq!(y, idx == alpha, "point {}", x);
    }
}

#[test]
fn dpf_ring_shares_add_to_the_point_function() {
    let alpha = bits_of(0b1101_0010, 8);
    let value = RingElm::from(0xdead_beef);
    let (k0, k1, _) = DPFKey::<RingElm>::gen(&alpha, &value);
    for x in 0..256u32 {
        let idx = bits_of(x, 8);
        let mut y = k0.eval(&idx);
        y.add(&k1.eval(&idx));
        if idx == alpha {
            assert_eq!(y, value);
        } else {
            assert_eq!(y, RingElm::zero());
        }
    }
}

#[test]
fn dpf_single_level() {
    for a in [false, true] {
        let (k0, k1, _) = DPFKey::<bool>::gen(&[a], &true);
        assert_eq!(k0.eval(&vec![a]) ^ k1.eval(&vec![a]), true);
        assert_eq!(k0.eval(&vec![!a]) ^ k1.eval(&vec![!a]), false);
    }
}

#[test]
fn dpf_empty_point_gives_zero_word() {
    let (k0, k1, bit) = DPFKey::<RingElm>::gen(&[], &RingElm::from(3));
    assert_eq!(k0.domain_size(), 0);
    assert_eq!(k1.domain_size(), 0);
    assert!(!bit);
}

#[test]
fn stateful_eval_agrees_with_eval() {
    let alpha = bits_of(0b1011_0110, 8);
    let (k0, _k1, _) = DPFKey::<bool>::gen(&alpha, &true);
    let first = bits_of(0b0101_0101, 8);
    let (res, state) = k0.stateful_eval_no_prev_state(&first);
    assert_eq!(res, k0.eval(&first));
    let second = bits_of(0b0101_1010, 8);
    // the two points agree on their first four bits
    let (res2, state2) = k0.stateful_eval(&second, &state, 4);
    assert_eq!(res2, k0.eval(&second));
    let third = bits_of(0b0111_0000, 8);
    let (res3, _) = k0.stateful_eval(&third, &state2, 2);
    assert_eq!(res3, k0.eval(&third));
}

#[test]
fn eval_all_covers_the_domain_but_its_last_point() {
    let alpha = bits_of(0x1234, 16);
    let (k0, k1, _) = DPFKey::<bool>::gen(&alpha, &true);
    let y0 = k0.eval_all();
    let y1 = k1.eval_all();
    assert_eq!(y0.len(), 65535);
    assert_eq!(y1.len(), 65535);
    for j in 0..65535usize {
        assert_eq!(y0[j] ^ y1[j], j == 0x1234, "index {}", j);
    }
    assert_eq!(y0[77], k0.eval(&bits_of(77, 16)));
    assert_eq!(y1[40000], k1.eval(&bits_of(40000, 16)));
}

#[test]
fn key_size_counts_the_parts() {
    let (k0, _, _) = DPFKey::<RingElm>::gen(&[true, false], &RingElm::from(1));
    let cw = std::mem::size_of::<pika::dpf::CorWord>();
    assert_eq!(k0.key_size(), 1 + 16 + 2 * cw + 4);
}
