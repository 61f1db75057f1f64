use vstd::prelude::*;
use vstd::slice::slice_subrange;
use vstd::arithmetic::power2::pow2;
use crate::beavertuple::BeaverTuple;
use crate::beavertuple::beaver_pair;
use crate::beavertuple::stream_bits;
use crate::beavertuple::lemma_beaver_pair_valid;
use crate::beavertuple::radd;
use crate::beavertuple::rmul;
use crate::dpf::DPFKey;
use crate::dpf::is_gen_output;
use crate::dpf::gen_control_bit;
use crate::dpf::key_walk;
use crate::dpf::lemma_gen_control_bit;
use crate::prg::PrgSeed;
use crate::prg::FixedKeyPrgStream;
use crate::ring::RingElm;
use crate::bits_to_u32;
use crate::bits_lsb_value;
use crate::bits_xor;
use crate::lemma_lsb_bound;
use crate::lemma_lsb_xor;
use crate::lemma_add_sub_cancel;
use crate::Group;

verus! {

broadcast use vstd::array::group_array_axioms;

/// Bit length of an input value.
pub const INPUT_DOMAIN: usize = 32;

/// Bit length of the domain of the point function.
pub const BOUNDED_DOMAIN: usize = 16;

/// What one party receives in the offline phase.
pub struct BasicOffline {
    /// Point-function keys.
    pub k_share: Vec<DPFKey<bool>>,
    /// Shares of the input.
    pub x_share: Vec<u16>,
    /// Shares of the mask (the point of the point function).
    pub r_share: Vec<u16>,
    /// Shares of the sign `w`.
    pub w_share: Vec<RingElm>,
    /// Multiplication triple shares.
    pub beavers: Vec<BeaverTuple>,
}

/// The bits `lo..hi` of the offline randomness drawn from the stream of `key`.
pub open spec fn rand_bits(key: Seq<u8>, lo: nat, hi: nat) -> Seq<bool> {
    stream_bits(key, 0, (3 * BOUNDED_DOMAIN + INPUT_DOMAIN) as nat).subrange(lo as int, hi as int)
}

/// The input bits that the offline phase shares: the first half of `input`,
/// cut at 16 bits.
pub open spec fn quantized(input: Seq<bool>) -> Seq<bool> {
    let q = input.take((input.len() / 2) as int);
    if q.len() <= 16 {
        q
    } else {
        q.take(16)
    }
}

/// The 16-bit number read from `bits`, least significant first.
pub open spec fn pack16(bits: Seq<bool>) -> u16 {
    bits_lsb_value(bits) as u16
}

/// The ring element `1` where `control_bit` is set and `-1` elsewhere.
pub open spec fn sign_of(control_bit: bool) -> RingElm {
    if control_bit {
        RingElm::g_one()
    } else {
        RingElm::g_neg(RingElm::g_one())
    }
}

/// `p0` and `p1` are what the offline phase gives the two parties for the
/// input `input`, with the randomness of the PRG stream of `key` for the
/// shares and of the stream of `bkey` for the multiplication triple.
pub open spec fn is_offline_pair(
    input: Seq<bool>,
    key: Seq<u8>,
    bkey: Seq<u8>,
    p0: BasicOffline,
    p1: BasicOffline,
) -> bool {
    let q = quantized(input);
    let x0_bits = rand_bits(key, 0, 16).take(q.len() as int);
    let r_bits = rand_bits(key, 16, 32);
    let r0_bits = rand_bits(key, 32, 48);
    let w0 = RingElm { value: bits_lsb_value(rand_bits(key, 48, 80)) as u32 };
    let cb = gen_control_bit(r_bits, p0.k_share@[0].root(), p1.k_share@[0].root());
    &&& if q.len() == 16 {
        &&& p0.x_share@ == seq![pack16(x0_bits)]
        &&& p1.x_share@ == seq![pack16(bits_xor(q, x0_bits))]
    } else {
        &&& p0.x_share@ == Seq::<u16>::empty()
        &&& p1.x_share@ == Seq::<u16>::empty()
    }
    &&& p0.r_share@ == seq![pack16(r0_bits)]
    &&& p1.r_share@ == seq![pack16(bits_xor(r_bits, r0_bits))]
    &&& p0.k_share@.len() == 1
    &&& p1.k_share@.len() == 1
    &&& is_gen_output(r_bits, true, p0.k_share@[0], p1.k_share@[0])
    &&& p0.w_share@ == seq![w0]
    &&& p1.w_share@ == seq![RingElm::g_sub(sign_of(cb), w0)]
    &&& p0.beavers@ == seq![beaver_pair(bkey).0]
    &&& p1.beavers@ == seq![beaver_pair(bkey).1]
}

/// `pair` is what the offline phase gives the two parties for `input` with
/// some two 16-byte seeds.
pub open spec fn is_offline_pair_for_some_seed(input: Seq<bool>, pair: (BasicOffline, BasicOffline)) -> bool {
    exists|key: Seq<u8>, bkey: Seq<u8>|
        key.len() == 16 && bkey.len() == 16 && #[trigger] is_offline_pair(
            input,
            key,
            bkey,
            pair.0,
            pair.1,
        )
}

/// What the two parties receive in the offline phase fits together: the
/// shares of the input and of the mask combine by exclusive or to the input
/// (when it has 16 bits) and to the mask, the shares of the sign add up to
/// the sign given by the control bit, the keys are the point-function keys
/// for the mask with value `true`, and the triple shares form a
/// multiplication triple.
pub proof fn lemma_offline_pair_correct(
    input: Seq<bool>,
    key: Seq<u8>,
    bkey: Seq<u8>,
    p0: BasicOffline,
    p1: BasicOffline,
)
    requires
        is_offline_pair(input, key, bkey, p0, p1),
    ensures
        quantized(input).len() == 16 ==> p0.x_share@[0] ^ p1.x_share@[0] == pack16(quantized(input)),
        p0.r_share@[0] ^ p1.r_share@[0] == pack16(rand_bits(key, 16, 32)),
        RingElm::g_add(p0.w_share@[0], p1.w_share@[0]) == sign_of(
            gen_control_bit(rand_bits(key, 16, 32), p0.k_share@[0].root(), p1.k_share@[0].root()),
        ),
        is_gen_output(rand_bits(key, 16, 32), true, p0.k_share@[0], p1.k_share@[0]),
        RingElm::g_add(p0.w_share@[0], p1.w_share@[0]).value == if gen_control_bit(
            rand_bits(key, 16, 32),
            p0.k_share@[0].root(),
            p1.k_share@[0].root(),
        ) {
            1u32
        } else {
            0xFFFF_FFFFu32
        },
        RingElm::g_add(p0.w_share@[0], p1.w_share@[0]).value == if key_walk(
            p0.k_share@[0],
            rand_bits(key, 16, 32),
            rand_bits(key, 16, 32).len(),
        ).1 {
            1u32
        } else {
            0xFFFF_FFFFu32
        },
        ({
            let t0 = p0.beavers@[0];
            let t1 = p1.beavers@[0];
            rmul(radd(t0.a, t1.a), radd(t0.b, t1.b)) == radd(t0.ab, t1.ab)
        }),
{
    let q = quantized(input);
    let all = stream_bits(key, 0, 80);
    if q.len() == 16 {
        let x0b = rand_bits(key, 0, 16).take(16);
        lemma_lsb_xor(x0b, bits_xor(q, x0b));
        assert(bits_xor(x0b, bits_xor(q, x0b)) =~= q);
    }
    let r = rand_bits(key, 16, 32);
    let r0 = rand_bits(key, 32, 48);
    lemma_lsb_xor(r0, bits_xor(r, r0));
    assert(bits_xor(r0, bits_xor(r, r0)) =~= r);
    lemma_add_sub_cancel(p0.w_share@[0], sign_of(gen_control_bit(r, p0.k_share@[0].root(), p1.k_share@[0].root())));
    lemma_beaver_pair_valid(bkey);
    lemma_gen_control_bit(r, true, p0.k_share@[0], p1.k_share@[0]);
}

/// Adds bit `bit` at position `pos` to a number whose bits at `pos` and
/// above are zero.
fn accumulate(acc: u16, bit: bool, pos: u16) -> (r: u16)
    requires
        pos < 16,
        acc < pow2(pos as nat),
    ensures
        r == acc + if bit {
            pow2(pos as nat)
        } else {
            0
        },
        r < pow2((pos + 1) as nat),
{
    let b: u16 = if bit { 1 } else { 0 };
    proof {
        vstd::arithmetic::power2::lemma_pow2_unfold((pos + 1) as nat);
        vstd::bits::lemma_u16_pow2_no_overflow(pos as nat);
        vstd::bits::lemma_u16_shl_is_mul(1u16, pos);
        vstd::bits::lemma_u16_shl_is_mul(b, pos);
        assert(acc | (b << pos) == acc + (b << pos)) by (bit_vector)
            requires
                acc < (1u16 << pos),
                b <= 1,
                pos < 16,
        ;
    }
    acc | (b << pos)
}

impl BasicOffline {
    /// A party with no offline data.
    pub fn new() -> (r: BasicOffline)
        ensures
            r.k_share@.len() == 0,
            r.x_share@.len() == 0,
            r.r_share@.len() == 0,
            r.w_share@.len() == 0,
            r.beavers@.len() == 0,
    {
        BasicOffline {
            k_share: Vec::new(),
            x_share: Vec::new(),
            r_share: Vec::new(),
            w_share: Vec::new(),
            beavers: Vec::new(),
        }
    }

    /// The offline phase for every input, each with two fresh random seeds:
    /// one pair of party data per input, made by `gen_shares`.
    pub fn gen_data(&self, input_bool_vectors: &Vec<Vec<bool>>) -> (r: Vec<(BasicOffline, BasicOffline)>)
        ensures
            r@.len() == input_bool_vectors@.len(),
            forall|i: int|
                0 <= i < r@.len() ==> is_offline_pair_for_some_seed(
                    input_bool_vectors@[i]@,
                    #[trigger] r@[i],
                ),
    {
        let mut out: Vec<(BasicOffline, BasicOffline)> = Vec::new();
        let mut index: usize = 0;
        while index < input_bool_vectors.len()
            invariant
                index <= input_bool_vectors@.len(),
                out@.len() == index,
                forall|i: int|
                    0 <= i < index ==> is_offline_pair_for_some_seed(
                        input_bool_vectors@[i]@,
                        #[trigger] out@[i],
                    ),
            decreases input_bool_vectors@.len() - index,
        {
            let seed = PrgSeed::random();
            let beaver_seed = PrgSeed::random();
            let pair = BasicOffline::gen_shares(&input_bool_vectors[index], &seed, &beaver_seed);
            let ghost before = out@;
            out.push(pair);
            proof {
                assert(seed.key@.len() == 16);
                assert(beaver_seed.key@.len() == 16);
                assert(is_offline_pair(
                    input_bool_vectors@[index as int]@,
                    seed.key@,
                    beaver_seed.key@,
                    out@[index as int].0,
                    out@[index as int].1,
                ));
                assert(is_offline_pair_for_some_seed(input_bool_vectors@[index as int]@, out@[index as int]));
                assert forall|i: int| 0 <= i < index + 1 implies is_offline_pair_for_some_seed(
                    input_bool_vectors@[i]@,
                    #[trigger] out@[i],
                ) by {
                    if i < index {
                        assert(out@[i] == before[i]);
                    }
                }
            }
            index = index + 1;
        }
        out
    }

    /// The offline phase for one input: splits the first half of `input`
    /// and a random mask `r` into shares, makes the point-function keys for
    /// `r`, shares the sign given by the control bit, all from the PRG
    /// stream of `seed`, and makes a multiplication triple from the
    /// independent stream of `beaver_seed`.
    pub fn gen_shares(input: &Vec<bool>, seed: &PrgSeed, beaver_seed: &PrgSeed) -> (r: (
        BasicOffline,
        BasicOffline,
    ))
        ensures
            is_offline_pair(input@, seed.key@, beaver_seed.key@, r.0, r.1),
            RingElm::g_add(r.0.w_share@[0], r.1.w_share@[0]).value == if key_walk(
                r.0.k_share@[0],
                rand_bits(seed.key@, 16, 32),
                rand_bits(seed.key@, 16, 32).len(),
            ).1 {
                1u32
            } else {
                0xFFFF_FFFFu32
            },
    {
        let ghost key = seed.key@;
        let ghost bkey = beaver_seed.key@;
        let quantized_x = slice_subrange(input.as_slice(), 0, input.len() / 2);
        let mut stream = FixedKeyPrgStream::new();
        stream.set_key(&seed.key);
        let share_gen_bits = stream.next_bits(3 * BOUNDED_DOMAIN + INPUT_DOMAIN);
        let ghost all = share_gen_bits@;
        proof {
            assert(all =~= stream_bits(key, 0, 80));
        }
        let beta: bool = true;

        let mut x_vec0: Vec<u16> = Vec::new();
        let mut x_vec1: Vec<u16> = Vec::new();
        let mut r_vec_0: Vec<u16> = Vec::new();
        let mut r_vec_1: Vec<u16> = Vec::new();
        let mut dpf_0: Vec<DPFKey<bool>> = Vec::new();
        let mut dpf_1: Vec<DPFKey<bool>> = Vec::new();
        let mut w_vec_0: Vec<RingElm> = Vec::new();
        let mut w_vec_1: Vec<RingElm> = Vec::new();
        let mut beavertuples0: Vec<BeaverTuple> = Vec::new();
        let mut beavertuples1: Vec<BeaverTuple> = Vec::new();

        // 1. The input, shared by exclusive or.
        let x0_bits = slice_subrange(share_gen_bits.as_slice(), 0, BOUNDED_DOMAIN);
        let ghost q = quantized(input@);
        let n: usize = if quantized_x.len() < x0_bits.len() {
            quantized_x.len()
        } else {
            x0_bits.len()
        };
        proof {
            assert(quantized_x@ =~= input@.take((input@.len() / 2) as int));
            assert(q =~= quantized_x@.take(n as int));
        }
        let mut x0_accumulator = 0u16;
        let mut x1_accumulator = 0u16;
        let mut bit_count: u16 = 0;
        proof {
            vstd::arithmetic::power2::lemma2_to64();
        }
        while (bit_count as usize) < n
            invariant
                n <= 16,
                n <= quantized_x@.len(),
                n == q.len(),
                q == quantized_x@.take(n as int),
                x0_bits@ == rand_bits(key, 0, 16),
                bit_count <= n,
                x0_accumulator == bits_lsb_value(x0_bits@.take(bit_count as int)),
                x1_accumulator == bits_lsb_value(
                    bits_xor(q.take(bit_count as int), x0_bits@.take(bit_count as int)),
                ),
                x0_accumulator < pow2(bit_count as nat),
                x1_accumulator < pow2(bit_count as nat),
                bit_count < 16 ==> x_vec0@.len() == 0 && x_vec1@.len() == 0,
                bit_count == 16 ==> x_vec0@ == seq![x0_accumulator] && x_vec1@ == seq![
                    x1_accumulator,
                ],
            decreases n - bit_count,
        {
            let bit = quantized_x[bit_count as usize];
            let x0_bit = x0_bits[bit_count as usize];
            let x1_bit = bit ^ x0_bit;
            let ghost k = bit_count as int;
            proof {
                assert(x0_bits@.take(k + 1).drop_last() =~= x0_bits@.take(k));
                assert(bits_xor(q.take(k + 1), x0_bits@.take(k + 1)).drop_last() =~= bits_xor(
                    q.take(k),
                    x0_bits@.take(k),
                ));
                assert(q[k] == quantized_x@[k]);
            }
            x0_accumulator = accumulate(x0_accumulator, x0_bit, bit_count);
            x1_accumulator = accumulate(x1_accumulator, x1_bit, bit_count);
            bit_count += 1;
            if bit_count == 16 {
                x_vec0.push(x0_accumulator);
                x_vec1.push(x1_accumulator);
            }
        }
        proof {
            assert(q.take(n as int) =~= q);
            assert(x0_bits@.take(n as int) =~= rand_bits(key, 0, 16).take(q.len() as int));
            if n == 16 {
                lemma_lsb_bound(x0_bits@.take(16));
            }
        }

        // 2. The mask r, shared by exclusive or.
        let r_bits = slice_subrange(share_gen_bits.as_slice(), BOUNDED_DOMAIN, 2 * BOUNDED_DOMAIN);
        let r0_bits = slice_subrange(share_gen_bits.as_slice(), 2 * BOUNDED_DOMAIN, 3 * BOUNDED_DOMAIN);
        let mut r0_accumulator = 0u16;
        let mut r1_accumulator = 0u16;
        let mut bit_count: u16 = 0;
        while bit_count < 16
            invariant
                r_bits@ == rand_bits(key, 16, 32),
                r0_bits@ == rand_bits(key, 32, 48),
                r_bits@.len() == 16,
                r0_bits@.len() == 16,
                bit_count <= 16,
                r0_accumulator == bits_lsb_value(r0_bits@.take(bit_count as int)),
                r1_accumulator == bits_lsb_value(
                    bits_xor(r_bits@.take(bit_count as int), r0_bits@.take(bit_count as int)),
                ),
                r0_accumulator < pow2(bit_count as nat),
                r1_accumulator < pow2(bit_count as nat),
                bit_count < 16 ==> r_vec_0@.len() == 0 && r_vec_1@.len() == 0,
                bit_count == 16 ==> r_vec_0@ == seq![r0_accumulator] && r_vec_1@ == seq![
                    r1_accumulator,
                ],
            decreases 16 - bit_count,
        {
            let r_bit = r_bits[bit_count as usize];
            let r0_bit = r0_bits[bit_count as usize];
            let r1_bit = r_bit ^ r0_bit;
            let ghost k = bit_count as int;
            proof {
                assert(r0_bits@.take(k + 1).drop_last() =~= r0_bits@.take(k));
                assert(bits_xor(r_bits@.take(k + 1), r0_bits@.take(k + 1)).drop_last() =~= bits_xor(
                    r_bits@.take(k),
                    r0_bits@.take(k),
                ));
            }
            r0_accumulator = accumulate(r0_accumulator, r0_bit, bit_count);
            r1_accumulator = accumulate(r1_accumulator, r1_bit, bit_count);
            bit_count += 1;
            if bit_count == 16 {
                r_vec_0.push(r0_accumulator);
                r_vec_1.push(r1_accumulator);
            }
        }
        proof {
            assert(r0_bits@.take(16) =~= r0_bits@);
            assert(r_bits@.take(16) =~= r_bits@);
        }

        // 3. The point-function keys for r.
        let alpha_bits = r_bits;
        let (dpf_key0, dpf_key1, control_bit) = DPFKey::<bool>::gen(alpha_bits, &beta);
        dpf_0.push(dpf_key0);
        dpf_1.push(dpf_key1);

        // 4. The sign w, 1 or -1 according to the control bit, shared.
        let w0_bits = slice_subrange(
            share_gen_bits.as_slice(),
            3 * BOUNDED_DOMAIN,
            3 * BOUNDED_DOMAIN + INPUT_DOMAIN,
        );
        let w0_value = bits_to_u32(w0_bits);
        let w0 = RingElm::from(w0_value);
        let mut neg_one = RingElm::one();
        neg_one.negate();
        let w = if control_bit {
            RingElm::one()
        } else {
            neg_one
        };
        let w1 = w - w0;
        w_vec_0.push(w0);
        w_vec_1.push(w1);

        // 5. The multiplication triple.
        BeaverTuple::gen_beaver(&mut beavertuples0, &mut beavertuples1, beaver_seed);
        proof {
            assert(beavertuples0@ =~= seq![beaver_pair(bkey).0]);
            assert(beavertuples1@ =~= seq![beaver_pair(bkey).1]);
        }
        proof {
            assert(dpf_0@ =~= seq![dpf_key0]);
            assert(dpf_1@ =~= seq![dpf_key1]);
            assert(w_vec_0@ =~= seq![w0]);
            assert(w_vec_1@ =~= seq![w1]);
            assert(w0_bits@ =~= rand_bits(key, 48, 80));
            assert(r_bits@ =~= rand_bits(key, 16, 32));
            let p0 = BasicOffline {
                k_share: dpf_0,
                x_share: x_vec0,
                r_share: r_vec_0,
                w_share: w_vec_0,
                beavers: beavertuples0,
            };
            let p1 = BasicOffline {
                k_share: dpf_1,
                x_share: x_vec1,
                r_share: r_vec_1,
                w_share: w_vec_1,
                beavers: beavertuples1,
            };
            let x0b = rand_bits(key, 0, 16).take(q.len() as int);
            if q.len() == 16 {
                assert(p0.x_share@ == seq![pack16(x0b)]);
                assert(p1.x_share@ == seq![pack16(bits_xor(q, x0b))]);
            } else {
                assert(p0.x_share@ =~= Seq::<u16>::empty());
                assert(p1.x_share@ =~= Seq::<u16>::empty());
            }
            assert(p0.k_share@.len() == 1);
            assert(p0.w_share@ == seq![w0]);
            assert(p0.beavers@ == seq![beaver_pair(bkey).0]);
            assert(p1.beavers@ == seq![beaver_pair(bkey).1]);
            assert(p0.r_share@ == seq![pack16(rand_bits(key, 32, 48))]);
            assert(p1.r_share@ == seq![pack16(bits_xor(rand_bits(key, 16, 32), rand_bits(key, 32, 48)))]);
            assert(is_gen_output(rand_bits(key, 16, 32), true, p0.k_share@[0], p1.k_share@[0]));
            assert(p1.w_share@ == seq![RingElm::g_sub(sign_of(control_bit), w0)]);
            assert(w0 == RingElm { value: bits_lsb_value(rand_bits(key, 48, 80)) as u32 });
            assert(control_bit == gen_control_bit(rand_bits(key, 16, 32), dpf_key0.root(), dpf_key1.root()));
            assert(is_offline_pair(input@, key, bkey, p0, p1));
            lemma_offline_pair_correct(input@, key, bkey, p0, p1);
        }
        (
            BasicOffline {
                k_share: dpf_0,
                x_share: x_vec0,
                r_share: r_vec_0,
                w_share: w_vec_0,
                beavers: beavertuples0,
            },
            BasicOffline {
                k_share: dpf_1,
                x_share: x_vec1,
                r_share: r_vec_1,
                w_share: w_vec_1,
                beavers: beavertuples1,
            },
        )
    }
}

} // verus!
