use vstd::prelude::*;
use vstd::slice::slice_subrange;
use crate::prg::PrgSeed;
use crate::prg::FixedKeyPrgStream;
use crate::prg::stream_bit;
use crate::bits_to_u32;
use crate::bits_lsb_value;
use crate::Group;
use crate::ring::RingElm;
use crate::ring::cong;
use crate::ring::lemma_cong_ops;
use crate::ring::lemma_ring_ops_cong;
use crate::ring::lemma_cong_eq;

verus! {

/// Bit length of a ring element.
pub const NUMERIC_LEN: usize = 32;

/// One party's share of a multiplication triple, with the masked
/// differences of the current multiplication.
#[derive(Clone, Copy, Debug)]
pub struct BeaverTuple {
    pub a: RingElm,
    pub b: RingElm,
    pub ab: RingElm,
    pub delta_a: RingElm,
    pub delta_b: RingElm,
}

/// `n` bits of the key stream of `key`, from bit `start` on.
pub open spec fn stream_bits(key: Seq<u8>, start: nat, n: nat) -> Seq<bool> {
    Seq::new(n, |k: int| stream_bit(key, start + k as nat))
}

/// The ring element read from the `k`-th 32 bits of the key stream of `key`.
pub open spec fn stream_word(key: Seq<u8>, k: nat) -> RingElm {
    RingElm { value: bits_lsb_value(stream_bits(key, 32 * k, 32)) as u32 }
}

/// `a + b` in the ring.
pub open spec fn radd(a: RingElm, b: RingElm) -> RingElm {
    RingElm::g_add(a, b)
}

/// `a - b` in the ring.
pub open spec fn rsub(a: RingElm, b: RingElm) -> RingElm {
    RingElm::g_sub(a, b)
}

/// `a * b` in the ring.
pub open spec fn rmul(a: RingElm, b: RingElm) -> RingElm {
    RingElm::g_mul(a, b)
}

/// Zero of the ring.
pub open spec fn rzero() -> RingElm {
    RingElm::g_zero()
}

/// The triple shares that `gen_beaver` draws from the stream of `key`:
/// party 0 gets `a0, b0, ab0`, party 1 gets `a1, b1` and the rest of the
/// product.
pub open spec fn beaver_pair(key: Seq<u8>) -> (BeaverTuple, BeaverTuple) {
    let a0 = stream_word(key, 0);
    let b0 = stream_word(key, 1);
    let a1 = stream_word(key, 2);
    let b1 = stream_word(key, 3);
    let ab0 = stream_word(key, 4);
    let a = radd(radd(rzero(), a0), a1);
    let b = radd(radd(rzero(), b0), b1);
    let ab = rsub(rmul(rmul(RingElm::g_one(), a), b), ab0);
    (
        BeaverTuple { a: a0, b: b0, ab: ab0, delta_a: rzero(), delta_b: rzero() },
        BeaverTuple { a: a1, b: b1, ab: ab, delta_a: rzero(), delta_b: rzero() },
    )
}

/// The four bytes of `v`, most significant first.
pub open spec fn be_bytes(v: u32) -> Seq<u8> {
    seq![(v >> 24u32) as u8, (v >> 16u32) as u8, (v >> 8u32) as u8, v as u8]
}

/// The number whose big-endian bytes are `b[off..off + 4]`.
pub open spec fn be_value(b: Seq<u8>, off: int) -> u32 {
    (b[off] * 16777216 + b[off + 1] * 65536 + b[off + 2] * 256 + b[off + 3]) as u32
}

/// The big-endian bytes of `v` (`u32::to_be_bytes`).
fn u32_to_be_bytes(v: u32) -> (r: Vec<u8>)
    ensures
        r@ == be_bytes(v),
{
    let mut r: Vec<u8> = Vec::new();
    r.push((v >> 24u32) as u8);
    r.push((v >> 16u32) as u8);
    r.push((v >> 8u32) as u8);
    r.push(v as u8);
    assert(r@ =~= be_bytes(v));
    r
}

/// The number whose big-endian bytes are `b` (`u32::from_be_bytes`).
fn u32_from_be_bytes(b: [u8; 4]) -> (r: u32)
    ensures
        r == be_value(b@, 0),
{
    (b[0] as u32) * 16777216 + (b[1] as u32) * 65536 + (b[2] as u32) * 256 + (b[3] as u32)
}

/// Reading back the big-endian bytes of `v` gives `v`.
pub proof fn lemma_be_roundtrip(v: u32)
    ensures
        be_value(be_bytes(v), 0) == v,
{
    let b0 = (v >> 24u32) as u8;
    let b1 = (v >> 16u32) as u8;
    let b2 = (v >> 8u32) as u8;
    let b3 = v as u8;
    assert(b0 as u32 * 16777216 + b1 as u32 * 65536 + b2 as u32 * 256 + b3 as u32 == v) by (bit_vector)
        requires
            b0 == (v >> 24u32) as u8,
            b1 == (v >> 16u32) as u8,
            b2 == (v >> 8u32) as u8,
            b3 == v as u8,
    ;
}

/// The state and message of a party after the first round of a Beaver
/// multiplication of `alpha` by `beta`.
pub open spec fn mul0_spec(t: BeaverTuple, alpha: RingElm, beta: RingElm) -> (BeaverTuple, Seq<u8>) {
    let da = rsub(alpha, t.a);
    let db = rsub(beta, t.b);
    (BeaverTuple { delta_a: da, delta_b: db, ..t }, be_bytes(da.value) + be_bytes(db.value))
}

/// A party's share of the product, from its reconstructed differences.
pub open spec fn mul_result(t: BeaverTuple, is_server: bool) -> RingElm {
    let r0 = if is_server {
        radd(rzero(), rmul(t.delta_a, t.delta_b))
    } else {
        rzero()
    };
    radd(radd(radd(r0, rmul(t.delta_a, t.b)), rmul(t.delta_b, t.a)), t.ab)
}

/// The state and result of a party after the second round, on receipt of
/// the other party's message `other_half`.
pub open spec fn mul1_spec(t: BeaverTuple, is_server: bool, other_half: Seq<u8>) -> (
    BeaverTuple,
    RingElm,
) {
    let t1 = BeaverTuple {
        delta_a: radd(t.delta_a, RingElm { value: be_value(other_half, 0) }),
        delta_b: radd(t.delta_b, RingElm { value: be_value(other_half, 4) }),
        ..t
    };
    (t1, mul_result(t1, is_server))
}

/// The two shares that `gen_beaver` draws form a multiplication triple:
/// `(a0 + a1) * (b0 + b1) == ab0 + ab1`.
pub proof fn lemma_beaver_pair_valid(key: Seq<u8>)
    ensures
        ({
            let (t0, t1) = beaver_pair(key);
            rmul(radd(t0.a, t1.a), radd(t0.b, t1.b)) == radd(t0.ab, t1.ab)
        }),
{
    let (t0, t1) = beaver_pair(key);
    let a0 = t0.a;
    let b0 = t0.b;
    let a1 = t1.a;
    let b1 = t1.b;
    let ab0 = t0.ab;
    let z = rzero();
    let one = RingElm::g_one();
    let sa = radd(z, a0);
    let a = radd(sa, a1);
    let sb = radd(z, b0);
    let b = radd(sb, b1);
    let m1 = rmul(one, a);
    let m2 = rmul(m1, b);
    let ab1 = rsub(m2, ab0);
    let va = a0.value + a1.value;
    let vb = b0.value + b1.value;
    lemma_ring_ops_cong(z, a0);
    lemma_ring_ops_cong(sa, a1);
    lemma_cong_ops(sa.value as int, a0.value as int, a1.value as int, a1.value as int);
    lemma_ring_ops_cong(z, b0);
    lemma_ring_ops_cong(sb, b1);
    lemma_cong_ops(sb.value as int, b0.value as int, b1.value as int, b1.value as int);
    lemma_ring_ops_cong(one, a);
    lemma_ring_ops_cong(m1, b);
    lemma_cong_ops(m1.value as int, a.value as int, b.value as int, b.value as int);
    lemma_cong_ops(a.value as int, va, b.value as int, vb);
    lemma_ring_ops_cong(m2, ab0);
    lemma_cong_ops(m2.value as int, va * vb, ab0.value as int, ab0.value as int);
    lemma_ring_ops_cong(ab0, ab1);
    lemma_cong_ops(ab0.value as int, ab0.value as int, ab1.value as int, va * vb - ab0.value);
    let lhs = rmul(radd(a0, a1), radd(b0, b1));
    lemma_ring_ops_cong(a0, a1);
    lemma_ring_ops_cong(b0, b1);
    lemma_ring_ops_cong(radd(a0, a1), radd(b0, b1));
    lemma_cong_ops(radd(a0, a1).value as int, va, radd(b0, b1).value as int, vb);
    lemma_cong_eq(lhs, radd(ab0, ab1));
}

/// The state and opened differences of a party that masks `alpha` and
/// `beta` with its triple share.
pub open spec fn mul_open_spec(t: BeaverTuple, alpha: RingElm, beta: RingElm) -> (
    BeaverTuple,
    (RingElm, RingElm),
) {
    let da = rsub(alpha, t.a);
    let db = rsub(beta, t.b);
    (BeaverTuple { delta_a: da, delta_b: db, ..t }, (da, db))
}

/// The state and result of a party given the reconstructed differences.
pub open spec fn mul_compute_spec(t: BeaverTuple, is_server: bool, alpha: RingElm, beta: RingElm) -> (
    BeaverTuple,
    RingElm,
) {
    let t1 = BeaverTuple { delta_a: alpha, delta_b: beta, ..t };
    (t1, mul_result(t1, is_server))
}

/// The shares of the product add up to the product, when both parties hold
/// the reconstructed differences `da == x - a`, `db == y - b` of a valid
/// triple, and only the server adds `da * db`.
proof fn lemma_beaver_result(
    t0: BeaverTuple,
    t1: BeaverTuple,
    da: RingElm,
    db: RingElm,
    x: int,
    y: int,
)
    requires
        rmul(radd(t0.a, t1.a), radd(t0.b, t1.b)) == radd(t0.ab, t1.ab),
        cong(da.value as int, x - (t0.a.value + t1.a.value)),
        cong(db.value as int, y - (t0.b.value + t1.b.value)),
    ensures
        cong(
            radd(
                mul_result(BeaverTuple { delta_a: da, delta_b: db, ..t0 }, true),
                mul_result(BeaverTuple { delta_a: da, delta_b: db, ..t1 }, false),
            ).value as int,
            x * y,
        ),
{
    let va = t0.a.value + t1.a.value;
    let vb = t0.b.value + t1.b.value;
    let dx = x - va;
    let dy = y - vb;
    let u0 = BeaverTuple { delta_a: da, delta_b: db, ..t0 };
    let u1 = BeaverTuple { delta_a: da, delta_b: db, ..t1 };
    let z = rzero();
    // Party 0.
    let p = rmul(da, db);
    let q0 = radd(z, p);
    let e0 = rmul(da, t0.b);
    let q1 = radd(q0, e0);
    let f0 = rmul(db, t0.a);
    let q2 = radd(q1, f0);
    let r0 = radd(q2, t0.ab);
    lemma_ring_ops_cong(da, db);
    lemma_ring_ops_cong(z, p);
    lemma_ring_ops_cong(da, t0.b);
    lemma_ring_ops_cong(q0, e0);
    lemma_ring_ops_cong(db, t0.a);
    lemma_ring_ops_cong(q1, f0);
    lemma_ring_ops_cong(q2, t0.ab);
    // Party 1.
    let e1 = rmul(da, t1.b);
    let s1 = radd(z, e1);
    let f1 = rmul(db, t1.a);
    let s2 = radd(s1, f1);
    let r1 = radd(s2, t1.ab);
    lemma_ring_ops_cong(da, t1.b);
    lemma_ring_ops_cong(z, e1);
    lemma_ring_ops_cong(db, t1.a);
    lemma_ring_ops_cong(s1, f1);
    lemma_ring_ops_cong(s2, t1.ab);
    lemma_ring_ops_cong(r0, r1);
    assert(r0 == mul_result(u0, true));
    assert(r1 == mul_result(u1, false));
    // Lift every step to the integer expression.
    let (nda, ndb) = (da.value as int, db.value as int);
    let (a0, a1, b0, b1) = (t0.a.value as int, t1.a.value as int, t0.b.value as int, t1.b.value as int);
    let (ab0, ab1) = (t0.ab.value as int, t1.ab.value as int);
    lemma_cong_ops(nda, dx, ndb, dy);
    lemma_cong_ops(0, 0, p.value as int, dx * dy);
    lemma_cong_ops(nda, dx, b0, b0);
    lemma_cong_ops(q0.value as int, dx * dy, e0.value as int, dx * b0);
    lemma_cong_ops(ndb, dy, a0, a0);
    lemma_cong_ops(q1.value as int, dx * dy + dx * b0, f0.value as int, dy * a0);
    lemma_cong_ops(q2.value as int, dx * dy + dx * b0 + dy * a0, ab0, ab0);
    lemma_cong_ops(nda, dx, b1, b1);
    lemma_cong_ops(0, 0, e1.value as int, dx * b1);
    lemma_cong_ops(ndb, dy, a1, a1);
    lemma_cong_ops(s1.value as int, dx * b1, f1.value as int, dy * a1);
    lemma_cong_ops(s2.value as int, dx * b1 + dy * a1, ab1, ab1);
    lemma_cong_ops(
        r0.value as int,
        dx * dy + dx * b0 + dy * a0 + ab0,
        r1.value as int,
        dx * b1 + dy * a1 + ab1,
    );
    // The triple: ab0 + ab1 is congruent to va * vb.
    let sa = radd(t0.a, t1.a);
    let sb = radd(t0.b, t1.b);
    lemma_ring_ops_cong(t0.a, t1.a);
    lemma_ring_ops_cong(t0.b, t1.b);
    lemma_ring_ops_cong(sa, sb);
    lemma_ring_ops_cong(t0.ab, t1.ab);
    lemma_cong_ops(sa.value as int, va, sb.value as int, vb);
    assert(cong(ab0 + ab1, va * vb));
    assert(dx * dy + dx * b0 + dy * a0 + ab0 + (dx * b1 + dy * a1 + ab1) == dx * dy + dx * vb + dy
        * va + (ab0 + ab1)) by (nonlinear_arith)
        requires
            va == a0 + a1,
            vb == b0 + b1,
    ;
    lemma_cong_ops(dx * dy + dx * vb + dy * va, dx * dy + dx * vb + dy * va, ab0 + ab1, va * vb);
    assert(dx * dy + dx * vb + dy * va + va * vb == x * y) by (nonlinear_arith)
        requires
            dx == x - va,
            dy == y - vb,
    ;
}

/// Beaver multiplication: when two parties hold the two shares `t0`, `t1`
/// of a multiplication triple and shares `x0, x1` of `x` and `y0, y1` of
/// `y`, each sends the message of `beaver_mul0`, and each finishes with
/// `beaver_mul1` on the other's message (party 0 as the server), then their
/// results add up to `x * y`.
pub proof fn lemma_beaver_mul_correct(
    t0: BeaverTuple,
    t1: BeaverTuple,
    x0: RingElm,
    y0: RingElm,
    x1: RingElm,
    y1: RingElm,
)
    requires
        rmul(radd(t0.a, t1.a), radd(t0.b, t1.b)) == radd(t0.ab, t1.ab),
    ensures
        ({
            let (s0, m0) = mul0_spec(t0, x0, y0);
            let (s1, m1) = mul0_spec(t1, x1, y1);
            radd(mul1_spec(s0, true, m1).1, mul1_spec(s1, false, m0).1) == rmul(
                radd(x0, x1),
                radd(y0, y1),
            )
        }),
{
    let (s0, m0) = mul0_spec(t0, x0, y0);
    let (s1, m1) = mul0_spec(t1, x1, y1);
    let da0 = s0.delta_a;
    let db0 = s0.delta_b;
    let da1 = s1.delta_a;
    let db1 = s1.delta_b;
    lemma_be_roundtrip(da0.value);
    lemma_be_roundtrip(db0.value);
    lemma_be_roundtrip(da1.value);
    lemma_be_roundtrip(db1.value);
    assert(be_value(m1, 0) == be_value(be_bytes(da1.value), 0));
    assert(be_value(m1, 4) == be_value(be_bytes(db1.value), 0));
    assert(be_value(m0, 0) == be_value(be_bytes(da0.value), 0));
    assert(be_value(m0, 4) == be_value(be_bytes(db0.value), 0));
    let da = radd(da0, da1);
    let db = radd(db0, db1);
    assert(radd(da1, da0) == da) by {
        RingElm::lemma_add_comm(da1, da0);
    }
    assert(radd(db1, db0) == db) by {
        RingElm::lemma_add_comm(db1, db0);
    }
    let x = x0.value + x1.value;
    let y = y0.value + y1.value;
    lemma_ring_ops_cong(x0, t0.a);
    lemma_ring_ops_cong(x1, t1.a);
    lemma_ring_ops_cong(y0, t0.b);
    lemma_ring_ops_cong(y1, t1.b);
    lemma_ring_ops_cong(da0, da1);
    lemma_ring_ops_cong(db0, db1);
    lemma_cong_ops(da0.value as int, x0.value - t0.a.value, da1.value as int, x1.value - t1.a.value);
    lemma_cong_ops(db0.value as int, y0.value - t0.b.value, db1.value as int, y1.value - t1.b.value);
    lemma_beaver_result(t0, t1, da, db, x, y);
    let lhs = radd(mul1_spec(s0, true, m1).1, mul1_spec(s1, false, m0).1);
    let rhs = rmul(radd(x0, x1), radd(y0, y1));
    lemma_ring_ops_cong(x0, x1);
    lemma_ring_ops_cong(y0, y1);
    lemma_ring_ops_cong(radd(x0, x1), radd(y0, y1));
    lemma_cong_ops(radd(x0, x1).value as int, x, radd(y0, y1).value as int, y);
    lemma_cong_eq(lhs, rhs);
}

/// The opened variant of Beaver multiplication: when each party opens its
/// differences with `mul_open`, both compute with the sums of the opened
/// differences in `mul_compute` (party 0 as the server), their results add
/// up to `x * y`.
pub proof fn lemma_mul_open_compute_correct(
    t0: BeaverTuple,
    t1: BeaverTuple,
    x0: RingElm,
    y0: RingElm,
    x1: RingElm,
    y1: RingElm,
)
    requires
        rmul(radd(t0.a, t1.a), radd(t0.b, t1.b)) == radd(t0.ab, t1.ab),
    ensures
        ({
            let (s0, d0) = mul_open_spec(t0, x0, y0);
            let (s1, d1) = mul_open_spec(t1, x1, y1);
            let da = radd(d0.0, d1.0);
            let db = radd(d0.1, d1.1);
            radd(mul_compute_spec(s0, true, da, db).1, mul_compute_spec(s1, false, da, db).1)
                == rmul(radd(x0, x1), radd(y0, y1))
        }),
{
    let (s0, d0) = mul_open_spec(t0, x0, y0);
    let (s1, d1) = mul_open_spec(t1, x1, y1);
    let da = radd(d0.0, d1.0);
    let db = radd(d0.1, d1.1);
    let x = x0.value + x1.value;
    let y = y0.value + y1.value;
    lemma_ring_ops_cong(x0, t0.a);
    lemma_ring_ops_cong(x1, t1.a);
    lemma_ring_ops_cong(y0, t0.b);
    lemma_ring_ops_cong(y1, t1.b);
    lemma_ring_ops_cong(d0.0, d1.0);
    lemma_ring_ops_cong(d0.1, d1.1);
    lemma_cong_ops(d0.0.value as int, x0.value - t0.a.value, d1.0.value as int, x1.value - t1.a.value);
    lemma_cong_ops(d0.1.value as int, y0.value - t0.b.value, d1.1.value as int, y1.value - t1.b.value);
    lemma_beaver_result(t0, t1, da, db, x, y);
    let lhs = radd(mul_compute_spec(s0, true, da, db).1, mul_compute_spec(s1, false, da, db).1);
    let rhs = rmul(radd(x0, x1), radd(y0, y1));
    lemma_ring_ops_cong(x0, x1);
    lemma_ring_ops_cong(y0, y1);
    lemma_ring_ops_cong(radd(x0, x1), radd(y0, y1));
    lemma_cong_ops(radd(x0, x1).value as int, x, radd(y0, y1).value as int, y);
    lemma_cong_eq(lhs, rhs);
}

impl BeaverTuple {
    /// Draws one multiplication triple from the PRG stream of `seed` and
    /// appends party 0's share to `beavertuples0` and party 1's to
    /// `beavertuples1`.
    pub fn gen_beaver(
        beavertuples0: &mut Vec<BeaverTuple>,
        beavertuples1: &mut Vec<BeaverTuple>,
        seed: &PrgSeed,
    )
        ensures
            final(beavertuples0)@ == old(beavertuples0)@.push(beaver_pair(seed.key@).0),
            final(beavertuples1)@ == old(beavertuples1)@.push(beaver_pair(seed.key@).1),
    {
        let mut stream = FixedKeyPrgStream::new();
        stream.set_key(&seed.key);

        let rd_bits = stream.next_bits(NUMERIC_LEN * 5);
        let ghost key = seed.key@;
        let a0 = RingElm::from(bits_to_u32(slice_subrange(rd_bits.as_slice(), 0, NUMERIC_LEN)));
        let b0 = RingElm::from(
            bits_to_u32(slice_subrange(rd_bits.as_slice(), NUMERIC_LEN, 2 * NUMERIC_LEN)),
        );
        let a1 = RingElm::from(
            bits_to_u32(slice_subrange(rd_bits.as_slice(), 2 * NUMERIC_LEN, 3 * NUMERIC_LEN)),
        );
        let b1 = RingElm::from(
            bits_to_u32(slice_subrange(rd_bits.as_slice(), 3 * NUMERIC_LEN, 4 * NUMERIC_LEN)),
        );
        let ab0 = RingElm::from(
            bits_to_u32(slice_subrange(rd_bits.as_slice(), 4 * NUMERIC_LEN, 5 * NUMERIC_LEN)),
        );
        proof {
            assert(stream_bits(key, 32 * 0, 32) =~= rd_bits@.subrange(0, 32));
            assert(stream_bits(key, 32 * 1, 32) =~= rd_bits@.subrange(32, 64));
            assert(stream_bits(key, 32 * 2, 32) =~= rd_bits@.subrange(64, 96));
            assert(stream_bits(key, 32 * 3, 32) =~= rd_bits@.subrange(96, 128));
            assert(stream_bits(key, 32 * 4, 32) =~= rd_bits@.subrange(128, 160));
        }

        let mut a = RingElm::zero();
        a.add(&a0);
        a.add(&a1);

        let mut b = RingElm::zero();
        b.add(&b0);
        b.add(&b1);

        let mut ab = RingElm::one();
        ab.mul(&a);
        ab.mul(&b);

        ab.sub(&ab0);

        let beaver0 = BeaverTuple {
            a: a0,
            b: b0,
            ab: ab0,
            delta_a: RingElm::zero(),
            delta_b: RingElm::zero(),
        };

        let beaver1 = BeaverTuple {
            a: a1,
            b: b1,
            ab: ab,
            delta_a: RingElm::zero(),
            delta_b: RingElm::zero(),
        };
        beavertuples0.push(beaver0);
        beavertuples1.push(beaver1);
    }

    /// First round of a Beaver multiplication of `alpha` by `beta`: masks
    /// both with the triple share, keeps the differences and returns them as
    /// the message for the other party (four big-endian bytes each).
    pub fn beaver_mul0(&mut self, alpha: RingElm, beta: RingElm) -> (r: Vec<u8>)
        ensures
            (*final(self), r@) == mul0_spec(*old(self), alpha, beta),
    {
        self.delta_a = alpha - self.a;
        self.delta_b = beta - self.b;

        let mut container = Vec::<u8>::new();
        let mut bytes_a = u32_to_be_bytes(self.delta_a.to_u32().unwrap());
        container.append(&mut bytes_a);
        let mut bytes_b = u32_to_be_bytes(self.delta_b.to_u32().unwrap());
        container.append(&mut bytes_b);
        assert(container@ =~= be_bytes(self.delta_a.value) + be_bytes(self.delta_b.value));
        container
    }

    /// Second round: adds the other party's differences (from its message
    /// `other_half`) to this party's and returns this party's share of the
    /// product; only the server adds the product of the differences.
    pub fn beaver_mul1(&mut self, is_server: bool, other_half: &Vec<u8>) -> (r: RingElm)
        requires
            other_half@.len() == 8,
        ensures
            (*final(self), r) == mul1_spec(*old(self), is_server, other_half@),
    {
        let mut i: usize = 0;
        while i < 2
            invariant
                other_half@.len() == 8,
                i <= 2,
                self.a == old(self).a,
                self.b == old(self).b,
                self.ab == old(self).ab,
                self.delta_a == if i >= 1 {
                    radd(old(self).delta_a, RingElm { value: be_value(other_half@, 0) })
                } else {
                    old(self).delta_a
                },
                self.delta_b == if i >= 2 {
                    radd(old(self).delta_b, RingElm { value: be_value(other_half@, 4) })
                } else {
                    old(self).delta_b
                },
            decreases 2 - i,
        {
            let mut ybuf: [u8; 4] = [0; 4];
            let mut j: usize = 0;
            while j < 4
                invariant
                    other_half@.len() == 8,
                    i < 2,
                    j <= 4,
                    ybuf@.len() == 4,
                    forall|k: int| 0 <= k < j ==> ybuf@[k] == other_half@[i * 4 + k],
                decreases 4 - j,
            {
                ybuf[j] = other_half[i * 4 + j];
                j = j + 1;
            }
            let y = RingElm::from(u32_from_be_bytes(ybuf));
            assert(y.value == be_value(other_half@, (i * 4) as int));
            if i == 0 {
                self.delta_a.add(&y);
            } else {
                self.delta_b.add(&y);
            }
            i = i + 1;
        }
        self.compute_result(is_server)
    }

    /// This party's share of the product from its differences and triple.
    fn compute_result(&self, is_server: bool) -> (r: RingElm)
        ensures
            r == mul_result(*self, is_server),
    {
        let mut result = RingElm::zero();
        if is_server {
            result.add(&(self.delta_a * self.delta_b));
        }
        result.add(&(self.delta_a * self.b));
        result.add(&(self.delta_b * self.a));
        result.add(&self.ab);
        result
    }

    /// Masks `alpha` and `beta` with the triple share and returns the
    /// differences, to be opened.
    pub fn mul_open(&mut self, alpha: RingElm, beta: RingElm) -> (r: (RingElm, RingElm))
        ensures
            (*final(self), r) == mul_open_spec(*old(self), alpha, beta),
    {
        self.delta_a = alpha - self.a;
        self.delta_b = beta - self.b;
        (self.delta_a, self.delta_b)
    }

    /// Takes the opened differences `alpha` and `beta` and returns this
    /// party's share of the product.
    pub fn mul_compute(&mut self, is_server: bool, alpha: &RingElm, beta: &RingElm) -> (r: RingElm)
        ensures
            (*final(self), r) == mul_compute_spec(*old(self), is_server, *alpha, *beta),
    {
        self.delta_a = *alpha;
        self.delta_b = *beta;
        self.compute_result(is_server)
    }
}

} // verus!
