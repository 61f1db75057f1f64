use vstd::prelude::*;
use crate::ring::RingElm;
use crate::Group;
use crate::ring::cong;
use crate::ring::lemma_cong_ops;
use crate::ring::lemma_ring_ops_cong;
use crate::ring::lemma_cong_eq;
use crate::dpf::DPFKey;
use crate::dpf::is_gen_output;
use crate::dpf::eval_spec;
use crate::dpf::u16_msb_bits;
use crate::dpf::lemma_dpf_domain_correct;

verus! {

/// The ring element `1` for `true` and `0` for `false`.
pub open spec fn bit_elm(b: bool) -> RingElm {
    if b {
        RingElm::g_one()
    } else {
        RingElm::g_zero()
    }
}

/// The position of `y_sigma` that table entry `i` is paired with when the
/// shares are shifted by `x`.
#[verifier::opaque]
pub open spec fn shifted_pos(i: int, x: u16, len: int) -> int {
    ((i + x) % (usize::MAX + 1)) % len
}

/// The sum over the first `n` table entries of the entry times the shifted
/// share bit.
pub open spec fn dot_spec(y_sigma: Seq<bool>, x: u16, func_db: Seq<u32>, n: nat) -> RingElm
    decreases n,
{
    if n == 0 {
        RingElm::g_zero()
    } else {
        let i = n - 1;
        RingElm::g_add(
            dot_spec(y_sigma, x, func_db, (n - 1) as nat),
            RingElm::g_mul(
                bit_elm(y_sigma[shifted_pos(i, x, y_sigma.len() as int)]),
                RingElm { value: func_db[i] },
            ),
        )
    }
}

/// The sum of the first `n` table entries whose shifted position is `pos`.
pub open spec fn select_spec(x: u16, func_db: Seq<u32>, len: int, pos: int, n: nat) -> RingElm
    decreases n,
{
    if n == 0 {
        RingElm::g_zero()
    } else {
        let prev = select_spec(x, func_db, len, pos, (n - 1) as nat);
        if shifted_pos(n - 1, x, len) == pos {
            RingElm::g_add(prev, RingElm { value: func_db[n - 1] })
        } else {
            prev
        }
    }
}

/// Where two share vectors differ only at `pos`, the client's inner product
/// minus the server's is the sum of the entries shifted onto `pos`, positive
/// where the client's bit there is set and negative otherwise.
#[verifier::rlimit(50)]
proof fn lemma_dot_difference(y0: Seq<bool>, y1: Seq<bool>, x: u16, func_db: Seq<u32>, pos: int, n: nat)
    requires
        y0.len() == y1.len(),
        y0.len() > 0,
        0 <= pos < y0.len(),
        forall|p: int| 0 <= p < y0.len() && p != pos ==> y0[p] == y1[p],
        y0[pos] != y1[pos],
        n <= func_db.len(),
    ensures
        cong(
            dot_spec(y1, x, func_db, n).value - dot_spec(y0, x, func_db, n).value,
            if y1[pos] {
                select_spec(x, func_db, y0.len() as int, pos, n).value as int
            } else {
                -(select_spec(x, func_db, y0.len() as int, pos, n).value as int)
            },
        ),
    decreases n,
{
    if n > 0 {
        let m = (n - 1) as nat;
        lemma_dot_difference(y0, y1, x, func_db, pos, m);
        let len = y0.len() as int;
        let i = n - 1;
        let sh = shifted_pos(i, x, len);
        let f = RingElm { value: func_db[i] };
        let p0 = RingElm::g_mul(bit_elm(y0[sh]), f);
        let p1 = RingElm::g_mul(bit_elm(y1[sh]), f);
        let d0 = dot_spec(y0, x, func_db, m);
        let d1 = dot_spec(y1, x, func_db, m);
        let sel = select_spec(x, func_db, len, pos, m);
        lemma_ring_ops_cong(d0, p0);
        lemma_ring_ops_cong(d1, p1);
        lemma_ring_ops_cong(bit_elm(y0[sh]), f);
        lemma_ring_ops_cong(bit_elm(y1[sh]), f);
        lemma_ring_ops_cong(sel, f);
        let dn0 = RingElm::g_add(d0, p0);
        let dn1 = RingElm::g_add(d1, p1);
        lemma_cong_ops(dn1.value as int, d1.value + p1.value, dn0.value as int, d0.value + p0.value);
        assert(0 <= sh < len) by {
            reveal(shifted_pos);
            vstd::arithmetic::div_mod::lemma_mod_pos_bound(((i + x) % (usize::MAX + 1)) as int, len);
        }
        let sv = sel.value as int;
        let fv = f.value as int;
        if sh == pos {
            let seln = RingElm::g_add(sel, f);
            if y1[pos] {
                assert(p1.value - p0.value == fv - 0) by {
                    assert(bit_elm(y1[sh]).value == 1 && bit_elm(y0[sh]).value == 0);
                }
                lemma_cong_ops(d1.value - d0.value, sv, p1.value - p0.value, fv);
            } else {
                lemma_cong_ops(d1.value - d0.value, -sv, p1.value - p0.value, -fv);
                lemma_cong_ops(0, 0, seln.value as int, sv + fv);
            }
        } else {
            assert(y0[sh] == y1[sh]);
            lemma_cong_ops(d1.value - d0.value, if y1[pos] { sv } else { -sv }, p1.value - p0.value, 0);
        }
    }
}

/// The server's and the client's values combine, by addition, to the sum
/// of the table entries shifted onto the one position where their share
/// vectors differ, negated where the server's bit there is unset.
pub proof fn lemma_share_values_combine(
    y0: Seq<bool>,
    y1: Seq<bool>,
    x: u16,
    func_db: Seq<u32>,
    pos: int,
)
    requires
        y0.len() == y1.len(),
        0 <= pos < y0.len(),
        forall|p: int| 0 <= p < y0.len() && p != pos ==> y0[p] == y1[p],
        y0[pos] != y1[pos],
    ensures
        ({
            let n = func_db.len();
            let v0 = RingElm::g_mul(party_sign(true), dot_spec(y0, x, func_db, n));
            let v1 = RingElm::g_mul(party_sign(false), dot_spec(y1, x, func_db, n));
            let sel = select_spec(x, func_db, y0.len() as int, pos, n);
            RingElm::g_add(v0, v1) == if y0[pos] {
                sel
            } else {
                RingElm::g_neg(sel)
            }
        }),
{
    let n = func_db.len();
    lemma_dot_difference(y0, y1, x, func_db, pos, n);
    let d0 = dot_spec(y0, x, func_db, n);
    let d1 = dot_spec(y1, x, func_db, n);
    let one = RingElm::g_one();
    let neg_one = RingElm::g_neg(one);
    let v0 = RingElm::g_mul(one, d0);
    let v1 = RingElm::g_mul(neg_one, d1);
    let sel = select_spec(x, func_db, y0.len() as int, pos, n);
    let sum = RingElm::g_add(v0, v1);
    let (dv0, dv1, sv) = (d0.value as int, d1.value as int, sel.value as int);
    // v0 is d0 and v1 is -d1, so the sum is -(d1 - d0).
    lemma_ring_ops_cong(one, d0);
    lemma_ring_ops_cong(neg_one, d1);
    lemma_ring_ops_cong(one, one);
    lemma_ring_ops_cong(v0, v1);
    lemma_cong_ops(neg_one.value as int, -1, dv1, dv1);
    assert(cong(v0.value as int, dv0));
    assert(cong(v1.value as int, -dv1));
    lemma_cong_ops(v0.value as int, dv0, v1.value as int, -dv1);
    assert(cong(sum.value as int, dv0 - dv1));
    lemma_cong_ops(0, 0, dv1 - dv0, if y1[pos] { sv } else { -sv });
    lemma_ring_ops_cong(sel, sel);
    if y0[pos] {
        assert(cong(dv0 - dv1, sv));
        lemma_cong_eq(sum, sel);
    } else {
        assert(cong(dv0 - dv1, -sv));
        lemma_cong_eq(sum, RingElm::g_neg(sel));
    }
}

/// The online phase up to the multiplication: when the two parties hold the
/// keys that `gen` makes for the 16-bit point `alpha` with value `true`,
/// evaluate them over the domain as `eval_all` does, and compute their
/// signed shifted inner products, the server's and the client's values add
/// up to the sum of the table entries shifted onto the point, up to a sign
/// given by the server's share at the point.
pub proof fn lemma_online_values_combine(
    alpha: Seq<bool>,
    k0: DPFKey<bool>,
    k1: DPFKey<bool>,
    y0: Seq<bool>,
    y1: Seq<bool>,
    x: u16,
    func_db: Seq<u32>,
)
    requires
        is_gen_output(alpha, true, k0, k1),
        alpha.len() == 16,
        crate::bits_msb_value(alpha) < 65535,
        y0.len() == 65535,
        y1.len() == 65535,
        forall|j: int| 0 <= j < 65535 ==> y0[j] == eval_spec(k0, u16_msb_bits(j as u16)),
        forall|j: int| 0 <= j < 65535 ==> y1[j] == eval_spec(k1, u16_msb_bits(j as u16)),
    ensures
        ({
            let pos = crate::bits_msb_value(alpha) as int;
            let n = func_db.len();
            let v0 = RingElm::g_mul(party_sign(true), dot_spec(y0, x, func_db, n));
            let v1 = RingElm::g_mul(party_sign(false), dot_spec(y1, x, func_db, n));
            let sel = select_spec(x, func_db, 65535, pos, n);
            RingElm::g_add(v0, v1) == if y0[pos] {
                sel
            } else {
                RingElm::g_neg(sel)
            }
        }),
{
    let pos = crate::bits_msb_value(alpha) as int;
    assert forall|p: int| 0 <= p < 65535 implies (y0[p] != y1[p]) == (p == pos) by {
        lemma_dpf_domain_correct(alpha, true, k0, k1, p as u16);
    }
    lemma_share_values_combine(y0, y1, x, func_db, pos);
}

/// `(-1)^sigma` for the party index `sigma`: `1` for the server (party 0),
/// `-1` for the client (party 1).
pub open spec fn party_sign(is_server: bool) -> RingElm {
    if is_server {
        RingElm::g_one()
    } else {
        RingElm::g_neg(RingElm::g_one())
    }
}

/// This party's share of the masked input: `r - a` modulo 2^16.
pub fn pika_local_x(r_share: u16, x_share: u16) -> (r: u16)
    ensures
        r as int == (r_share - x_share) % 0x1_0000,
{
    r_share.wrapping_sub(x_share)
}

/// This party's value before the final multiplication: the inner product
/// of the table with the point-function shares shifted by the public `x`,
/// times `(-1)^sigma`: the server keeps it, the client negates it.
pub fn pika_share_value(y_sigma: &Vec<bool>, x: u16, func_db: &Vec<u32>, is_server: bool) -> (r:
    RingElm)
    requires
        func_db@.len() == 0 || y_sigma@.len() > 0,
    ensures
        r == RingElm::g_mul(party_sign(is_server), dot_spec(y_sigma@, x, func_db@, func_db@.len())),
{
    let mut v_sum = RingElm::zero();
    let mut i: usize = 0;
    while i < func_db.len()
        invariant
            func_db@.len() == 0 || y_sigma@.len() > 0,
            i <= func_db@.len(),
            v_sum == dot_spec(y_sigma@, x, func_db@, i as nat),
        decreases func_db@.len() - i,
    {
        let shifted = i.wrapping_add(x as usize);
        assert(shifted == (i + x) % (usize::MAX + 1)) by {
            if i + x > usize::MAX {
                assert((i + x) % (usize::MAX + 1) == i + x - (usize::MAX + 1)) by {
                    vstd::arithmetic::div_mod::lemma_fundamental_div_mod_converse(
                        i + x,
                        usize::MAX + 1,
                        1,
                        i + x - (usize::MAX + 1),
                    );
                }
            } else {
                vstd::arithmetic::div_mod::lemma_small_mod((i + x) as nat, (usize::MAX + 1) as nat);
            }
        }
        let shift_index = shifted % y_sigma.len();
        proof {
            reveal(shifted_pos);
        }
        let y_val = if y_sigma[shift_index] {
            RingElm::one()
        } else {
            RingElm::zero()
        };
        let func_val = RingElm::from(func_db[i]);
        let mut prod = y_val;
        prod.mul(&func_val);
        v_sum.add(&prod);
        i = i + 1;
    }
    let scaling_factor = if is_server {
        RingElm::one()
    } else {
        let mut neg_one = RingElm::one();
        neg_one.negate();
        neg_one
    };
    let mut v = scaling_factor;
    v.mul(&v_sum);
    v
}

} // verus!
