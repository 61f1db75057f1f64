use vstd::prelude::*;
use crate::prg;
use crate::prg::PrgSeed;
use crate::prg::PrgOutput;
use crate::prg::FromRng;
use crate::prg::seq_xor;
use crate::prg::expand_seed;
use crate::prg::expand_bit;
use crate::prg::expand_bit_left;
use crate::prg::expand_bit_right;
use crate::prg::convert_block;
use crate::Group;
use vstd::layout::size_of;
use crate::tuple_get;
use crate::tuple_get_spec;
use crate::lemma_zero_add;
use crate::lemma_neg_add;
use crate::lemma_neg_neg;
use crate::lemma_neg_add_distr;

verus! {

broadcast use vstd::array::group_array_axioms;

/// A correction word: one seed and one bit for each direction.
#[derive(Clone, Copy, Debug)]
pub struct CorWord {
    pub seed: PrgSeed,
    pub bits: (bool, bool),
}

/// What a correction word holds: its seed's bytes and its two bits.
pub type CorWordModel = (Seq<u8>, bool, bool);

/// The model of a correction word.
pub open spec fn cw_model(cw: CorWord) -> CorWordModel {
    (cw.seed.key@, cw.bits.0, cw.bits.1)
}

/// The models of a sequence of correction words.
pub open spec fn cws_model(cws: Seq<CorWord>) -> Seq<CorWordModel> {
    Seq::new(cws.len(), |i: int| cw_model(cws[i]))
}

/// The bit of a correction word in direction `dir`.
pub open spec fn cw_bit(cw: CorWordModel, dir: bool) -> bool {
    if dir {
        cw.2
    } else {
        cw.1
    }
}

/// One level of a walk down the tree: expand the seed, go in direction
/// `dir`, and apply the correction word where the control bit `t` is set.
pub open spec fn dpf_step(s: Seq<u8>, t: bool, cw: CorWordModel, dir: bool) -> (Seq<u8>, bool) {
    let child = expand_seed(s, dir);
    let bit = expand_bit(s, dir);
    if t {
        (seq_xor(child, cw.0), bit != cw_bit(cw, dir))
    } else {
        (child, bit)
    }
}

/// The seed and control bit reached from `(s, t)` at level `start` after
/// following the directions `idx[start..end]`.
pub open spec fn walk(
    cws: Seq<CorWordModel>,
    s: Seq<u8>,
    t: bool,
    idx: Seq<bool>,
    start: nat,
    end: nat,
) -> (Seq<u8>, bool)
    decreases end,
{
    if end <= start {
        (s, t)
    } else {
        let prev = walk(cws, s, t, idx, start, (end - 1) as nat);
        dpf_step(prev.0, prev.1, cws[end - 1], idx[end - 1])
    }
}

/// The correction word that key generation makes at a level where the two
/// parties hold seeds `s0`, `s1` and control bits `t0`, `t1`, on the way to
/// the point whose next bit is `bit`.
pub open spec fn gen_cw(s0: Seq<u8>, s1: Seq<u8>, bit: bool) -> CorWordModel {
    (
        seq_xor(expand_seed(s0, !bit), expand_seed(s1, !bit)),
        expand_bit_left(s0) != expand_bit_left(s1) != bit != true,
        expand_bit_right(s0) != expand_bit_right(s1) != bit,
    )
}

/// The seeds and control bits of both parties after key generation from
/// the root seeds `r0`, `r1` has handled the first `n` bits of `alpha`.
pub open spec fn gen_run(alpha: Seq<bool>, r0: Seq<u8>, r1: Seq<u8>, n: nat) -> (
    Seq<u8>,
    Seq<u8>,
    bool,
    bool,
)
    decreases n,
{
    if n == 0 {
        (r0, r1, false, true)
    } else {
        let st = gen_run(alpha, r0, r1, (n - 1) as nat);
        let cw = gen_cw(st.0, st.1, alpha[n - 1]);
        let next0 = dpf_step(st.0, st.2, cw, alpha[n - 1]);
        let next1 = dpf_step(st.1, st.3, cw, alpha[n - 1]);
        (next0.0, next1.0, next0.1, next1.1)
    }
}

/// The correction words of the keys for the point `alpha` and the root
/// seeds `r0`, `r1`.
pub open spec fn gen_cws(alpha: Seq<bool>, r0: Seq<u8>, r1: Seq<u8>) -> Seq<CorWordModel> {
    Seq::new(
        alpha.len(),
        |i: int|
            {
                let st = gen_run(alpha, r0, r1, i as nat);
                gen_cw(st.0, st.1, alpha[i])
            },
    )
}

/// The group element that `convert` derives from the seed `s`.
pub open spec fn convert_word<T: FromRng>(s: Seq<u8>) -> T {
    T::from_block_spec(convert_block(s))
}

/// The last word of the keys for the point `alpha`, the value `value` and
/// the root seeds `r0`, `r1`.
pub open spec fn gen_word<T: FromRng + Group>(alpha: Seq<bool>, value: T, r0: Seq<u8>, r1: Seq<u8>) -> T {
    if alpha.len() == 0 {
        T::g_zero()
    } else {
        let st = gen_run(alpha, r0, r1, alpha.len());
        let w = T::g_add(
            T::g_sub(T::g_add(T::g_zero(), value), convert_word::<T>(st.0)),
            convert_word::<T>(st.1),
        );
        if st.3 {
            T::g_neg(w)
        } else {
            w
        }
    }
}

/// The control bit that key generation reports: party 0's bit at the end.
pub open spec fn gen_control_bit(alpha: Seq<bool>, r0: Seq<u8>, r1: Seq<u8>) -> bool {
    gen_run(alpha, r0, r1, alpha.len()).2
}

/// A key of a distributed point function over `T`.
#[derive(Clone, Debug)]
pub struct DPFKey<T> {
    key_idx: bool,
    root_seed: PrgSeed,
    cor_words: Vec<CorWord>,
    word: T,
}

/// What a party keeps of its walk down the tree, level by level.
pub struct EvalState {
    seed: Vec<PrgSeed>,
    t_bit: Vec<bool>,
    bit: Vec<bool>,
    tau: Vec<PrgOutput>,
}

/// `s.take(n)` where `s` has at least `n` elements, and nothing otherwise.
pub open spec fn prefix_or_empty<A>(s: Seq<A>, n: nat) -> Seq<A> {
    if n <= s.len() {
        s.take(n as int)
    } else {
        Seq::empty()
    }
}

impl EvalState {
    /// The seeds reached, level by level.
    pub closed spec fn seeds(&self) -> Seq<PrgSeed> {
        self.seed@
    }

    /// The control bits reached, level by level.
    pub closed spec fn t_bits(&self) -> Seq<bool> {
        self.t_bit@
    }

    /// The directions taken, level by level.
    pub closed spec fn dirs(&self) -> Seq<bool> {
        self.bit@
    }

    /// The expansions computed, level by level.
    pub closed spec fn taus(&self) -> Seq<PrgOutput> {
        self.tau@
    }

    /// The state cut down to its first `index + 1` levels; a component
    /// shorter than that becomes empty.
    fn slice_to_index(&self, index: usize) -> (r: EvalState)
        requires
            index < usize::MAX,
        ensures
            r.seeds() == prefix_or_empty(self.seeds(), (index + 1) as nat),
            r.t_bits() == prefix_or_empty(self.t_bits(), (index + 1) as nat),
            r.dirs() == prefix_or_empty(self.dirs(), (index + 1) as nat),
            r.taus() == prefix_or_empty(self.taus(), (index + 1) as nat),
    {
        let seed = copy_prefix(&self.seed, index + 1);
        let bit = copy_prefix(&self.bit, index + 1);
        let t_bit = copy_prefix(&self.t_bit, index + 1);
        let tau = copy_prefix(&self.tau, index + 1);
        EvalState { seed, bit, t_bit, tau }
    }
}

/// The first `n` elements of `v` if it has that many, else nothing.
fn copy_prefix<A: Copy>(v: &Vec<A>, n: usize) -> (r: Vec<A>)
    ensures
        r@ == prefix_or_empty(v@, n as nat),
{
    let mut r: Vec<A> = Vec::new();
    if n <= v.len() {
        let mut i: usize = 0;
        while i < n
            invariant
                i <= n <= v@.len(),
                r@ == v@.take(i as int),
            decreases n - i,
        {
            r.push(v[i]);
            i = i + 1;
            assert(r@ =~= v@.take(i as int));
        }
    } else {
        assert(r@ =~= Seq::<A>::empty());
    }
    r
}

/// The 16 bits of `num`, most significant first.
pub open spec fn u16_msb_bits(num: u16) -> Seq<bool> {
    Seq::new(16, |k: int| (num >> ((15 - k) as u16)) & 1u16 == 1u16)
}

/// The 16 bits of `num`, most significant first.
fn u16_to_boolean_vector(num: u16) -> (r: Vec<bool>)
    ensures
        r@ == u16_msb_bits(num),
{
    let mut r: Vec<bool> = Vec::new();
    let mut k: u16 = 0;
    while k < 16
        invariant
            k <= 16,
            r@ == u16_msb_bits(num).take(k as int),
        decreases 16 - k,
    {
        r.push((num >> (15 - k)) & 1u16 == 1u16);
        k = k + 1;
        assert(r@ =~= u16_msb_bits(num).take(k as int));
    }
    assert(u16_msb_bits(num).take(16) =~= u16_msb_bits(num));
    r
}

/// The first position where the two sequences differ (see `first_difference`).
fn find_first_difference_index(v1: &[bool], v2: &[bool]) -> (r: usize)
    ensures
        r <= v1@.len(),
        forall|j: int| 0 <= j < r && j < v2@.len() ==> v1@[j] == v2@[j],
        r < v1@.len() ==> r < v2@.len() && v1@[r as int] != v2@[r as int],
        r == v1@.len() ==> forall|j: int| 0 <= j < v1@.len() && j < v2@.len() ==> v1@[j] == v2@[j],
{
    let mut i: usize = 0;
    while i < v1.len() && i < v2.len()
        invariant
            i <= v1@.len(),
            i <= v2@.len(),
            forall|j: int| 0 <= j < i ==> v1@[j] == v2@[j],
        decreases v1@.len() - i,
    {
        if v1[i] != v2[i] {
            return i;
        }
        i = i + 1;
    }
    v1.len()
}

impl<T> DPFKey<T> {
    /// Which of the two keys this is (`false` for party 0).
    pub closed spec fn party(&self) -> bool {
        self.key_idx
    }

    /// The bytes of the root seed.
    pub closed spec fn root(&self) -> Seq<u8> {
        self.root_seed.key@
    }

    /// The correction words.
    pub closed spec fn cws(&self) -> Seq<CorWordModel> {
        cws_model(self.cor_words@)
    }

    /// The last word.
    pub closed spec fn last_word(&self) -> T {
        self.word
    }

    /// The number of levels of the tree: one per correction word.
    pub fn domain_size(&self) -> (r: usize)
        ensures
            r == self.cws().len(),
    {
        self.cor_words.len()
    }

    /// The number of bytes that the parts of the key take in memory: the
    /// party bit, the root seed, the correction words and the last word.
    pub fn key_size(&self) -> (r: usize)
        requires
            size_of::<bool>() + size_of::<PrgSeed>() + self.cws().len() * size_of::<CorWord>()
                + size_of::<T>() <= usize::MAX,
        ensures
            r == size_of::<bool>() + size_of::<PrgSeed>() + self.cws().len() * size_of::<CorWord>()
                + size_of::<T>(),
    {
        let mut key_size = 0usize;
        key_size += std::mem::size_of::<bool>();
        key_size += std::mem::size_of::<PrgSeed>();
        let n = self.cor_words.len();
        let cw = std::mem::size_of::<CorWord>();
        proof {
            vstd::arithmetic::mul::lemma_mul_inequality(n as int, n as int, cw as int);
            assert(n * cw <= size_of::<bool>() + size_of::<PrgSeed>() + n * cw + size_of::<T>());
        }
        key_size += n * cw;
        key_size += std::mem::size_of::<T>();
        key_size
    }

    /// Builds a key from its parts.
    pub fn from_parts(key_idx: bool, root_seed: PrgSeed, cor_words: Vec<CorWord>, word: T) -> (r:
        DPFKey<T>)
        ensures
            r.party() == key_idx,
            r.root() == root_seed.key@,
            r.cws() == cws_model(cor_words@),
            r.last_word() == word,
    {
        DPFKey { key_idx, root_seed, cor_words, word }
    }
}

/// The seed and control bit of the key `key` after following the first `n`
/// directions of `idx`.
pub open spec fn key_walk<T>(key: DPFKey<T>, idx: Seq<bool>, n: nat) -> (Seq<u8>, bool) {
    walk(key.cws(), key.root(), key.party(), idx, 0, n)
}

/// The output share of `key` at a leaf reached with seed `s` and control
/// bit `t`.
pub open spec fn leaf_word<T: FromRng + Group>(key: DPFKey<T>, s: Seq<u8>, t: bool) -> T {
    let w0 = T::g_add(T::g_zero(), convert_word::<T>(s));
    let w1 = if t {
        T::g_add(w0, key.last_word())
    } else {
        w0
    };
    if key.party() {
        T::g_neg(w1)
    } else {
        w1
    }
}

/// The output share of `key` at the point `idx`.
pub open spec fn eval_spec<T: FromRng + Group>(key: DPFKey<T>, idx: Seq<bool>) -> T {
    if idx.len() == 0 {
        T::g_zero()
    } else {
        let st = key_walk(key, idx, idx.len());
        leaf_word(key, st.0, st.1)
    }
}

/// The expansion `tau` is that of the seed `s`.
pub open spec fn is_expansion(tau: PrgOutput, s: Seq<u8>) -> bool {
    &&& tau.seeds.0.key@ == prg::expand_left(s)
    &&& tau.seeds.1.key@ == prg::expand_right(s)
    &&& tau.bits.0 == expand_bit_left(s)
    &&& tau.bits.1 == expand_bit_right(s)
}

/// The levels `start..end` of `st` are those of a walk of `key` along
/// `idx` that left level `start` with seed `s` and control bit `t`.
pub open spec fn levels_follow<T>(
    key: DPFKey<T>,
    st: EvalState,
    s: Seq<u8>,
    t: bool,
    idx: Seq<bool>,
    start: nat,
    end: nat,
) -> bool {
    forall|j: int|
        start <= j < end ==> {
            &&& (#[trigger] st.seeds()[j]).key@ == walk(key.cws(), s, t, idx, start, (j + 1) as nat).0
            &&& st.t_bits()[j] == walk(key.cws(), s, t, idx, start, (j + 1) as nat).1
            &&& st.dirs()[j] == idx[j]
            &&& is_expansion(st.taus()[j], walk(key.cws(), s, t, idx, start, j as nat).0)
        }
}

/// `new` is the state whose components were `os`, `ot`, `od`, `otau`,
/// with the levels `start..end` of a walk of `key` along
/// `idx`, which left level `start` with seed `s` and control bit `t`,
/// appended to each of its components.
pub open spec fn extends<T>(
    key: DPFKey<T>,
    os: Seq<PrgSeed>,
    ot: Seq<bool>,
    od: Seq<bool>,
    otau: Seq<PrgOutput>,
    new: EvalState,
    s: Seq<u8>,
    t: bool,
    idx: Seq<bool>,
    start: nat,
    end: nat,
) -> bool {
    let e = if end > start {
        (end - start) as nat
    } else {
        0nat
    };
    &&& new.seeds().len() == os.len() + e
    &&& new.t_bits().len() == ot.len() + e
    &&& new.dirs().len() == od.len() + e
    &&& new.taus().len() == otau.len() + e
    &&& new.seeds().take(os.len() as int) == os
    &&& new.t_bits().take(ot.len() as int) == ot
    &&& new.dirs().take(od.len() as int) == od
    &&& new.taus().take(otau.len() as int) == otau
    &&& forall|j: int|
        0 <= j < e ==> #[trigger] appended_level(
            key,
            new,
            os.len(),
            ot.len(),
            od.len(),
            otau.len(),
            s,
            t,
            idx,
            start,
            j,
        )
}

/// Level `start + j` of a walk of `key` along `idx` that left level `start`
/// with seed `s` and bit `t` stands at offset `j` after the given lengths in
/// the components of `new`.
pub open spec fn appended_level<T>(
    key: DPFKey<T>,
    new: EvalState,
    ls: nat,
    lt: nat,
    ld: nat,
    ltau: nat,
    s: Seq<u8>,
    t: bool,
    idx: Seq<bool>,
    start: nat,
    j: int,
) -> bool {
    let w = walk(key.cws(), s, t, idx, start, (start + j + 1) as nat);
    &&& new.seeds()[ls + j].key@ == w.0
    &&& new.t_bits()[lt + j] == w.1
    &&& new.dirs()[ld + j] == idx[start + j]
    &&& is_expansion(new.taus()[ltau + j], walk(key.cws(), s, t, idx, start, (start + j) as nat).0)
}

/// Appending one more level of the walk keeps `extends`.
proof fn lemma_extends_step<T>(
    key: DPFKey<T>,
    os: Seq<PrgSeed>,
    ot: Seq<bool>,
    od: Seq<bool>,
    otau: Seq<PrgOutput>,
    before: EvalState,
    after: EvalState,
    s: Seq<u8>,
    t: bool,
    idx: Seq<bool>,
    start: nat,
    level: nat,
    seed: PrgSeed,
    t_bit: bool,
    tau: PrgOutput,
)
    requires
        start <= level < idx.len(),
        extends(key, os, ot, od, otau, before, s, t, idx, start, level),
        after.seeds() == before.seeds().push(seed),
        after.t_bits() == before.t_bits().push(t_bit),
        after.dirs() == before.dirs().push(idx[level as int]),
        after.taus() == before.taus().push(tau),
        (seed.key@, t_bit) == walk(key.cws(), s, t, idx, start, level + 1),
        is_expansion(tau, walk(key.cws(), s, t, idx, start, level).0),
    ensures
        extends(key, os, ot, od, otau, after, s, t, idx, start, level + 1),
{
    let e = (level - start) as int;
    assert(after.seeds().take(os.len() as int) =~= os) by {
        assert(before.seeds().take(os.len() as int) == os);
    }
    assert(after.t_bits().take(ot.len() as int) =~= ot) by {
        assert(before.t_bits().take(ot.len() as int) == ot);
    }
    assert(after.dirs().take(od.len() as int) =~= od) by {
        assert(before.dirs().take(od.len() as int) == od);
    }
    assert(after.taus().take(otau.len() as int) =~= otau) by {
        assert(before.taus().take(otau.len() as int) == otau);
    }
    assert forall|j: int| 0 <= j < e + 1 implies #[trigger] appended_level(
        key,
        after,
        os.len(),
        ot.len(),
        od.len(),
        otau.len(),
        s,
        t,
        idx,
        start,
        j,
    ) by {
        if j < e {
            assert(appended_level(key, before, os.len(), ot.len(), od.len(), otau.len(), s, t, idx, start, j));
            assert(before.seeds()[os.len() + j] == after.seeds()[os.len() + j]);
            assert(before.t_bits()[ot.len() + j] == after.t_bits()[ot.len() + j]);
            assert(before.dirs()[od.len() + j] == after.dirs()[od.len() + j]);
            assert(before.taus()[otau.len() + j] == after.taus()[otau.len() + j]);
        } else {
            assert(after.seeds()[os.len() + j] == seed);
            assert(after.t_bits()[ot.len() + j] == t_bit);
            assert(after.taus()[otau.len() + j] == tau);
        }
    }
    let e1 = (level + 1 - start) as nat;
    assert(after.seeds().len() == os.len() + e1);
    assert(after.t_bits().len() == ot.len() + e1);
    assert(after.dirs().len() == od.len() + e1);
    assert(after.taus().len() == otau.len() + e1);
}

/// Every level from `start` on that a walk of `key` along `idx`, leaving
/// level `start` with seed `s` and control bit `t`, reaches with its
/// control bit set has a correction word in the key.
pub open spec fn corrected_levels_in_key<T>(
    key: DPFKey<T>,
    s: Seq<u8>,
    t: bool,
    idx: Seq<bool>,
    start: nat,
) -> bool {
    forall|l: nat|
        start <= l < idx.len() && (#[trigger] walk(key.cws(), s, t, idx, start, l)).1 ==> l
            < key.cws().len()
}

/// `st` records the whole walk of `key` along `path`.
pub open spec fn state_matches<T>(key: DPFKey<T>, st: EvalState, path: Seq<bool>) -> bool {
    &&& st.seeds().len() == path.len()
    &&& st.t_bits().len() == path.len()
    &&& st.dirs().len() == path.len()
    &&& st.taus().len() == path.len()
    &&& levels_follow(key, st, key.root(), key.party(), path, 0, path.len())
}

/// The keys `k0`, `k1` are those that `gen` makes for `alpha` and `value`.
pub open spec fn is_gen_output<T: FromRng + Group>(
    alpha: Seq<bool>,
    value: T,
    k0: DPFKey<T>,
    k1: DPFKey<T>,
) -> bool {
    &&& k0.party() == false
    &&& k1.party() == true
    &&& k0.cws() == gen_cws(alpha, k0.root(), k1.root())
    &&& k1.cws() == gen_cws(alpha, k0.root(), k1.root())
    &&& k0.last_word() == gen_word(alpha, value, k0.root(), k1.root())
    &&& k1.last_word() == gen_word(alpha, value, k0.root(), k1.root())
}

/// The seed and control bit one level down in direction `dir`, from the
/// expansion `d` of a seed whose control bit is `t`.
fn descend(d: &PrgOutput, t: bool, cw: &CorWord, dir: bool) -> (r: (PrgSeed, bool))
    ensures
        r.0.key@ == if t {
            seq_xor(tuple_get_spec(d.seeds, dir).key@, cw.seed.key@)
        } else {
            tuple_get_spec(d.seeds, dir).key@
        },
        r.1 == if t {
            tuple_get_spec(d.bits, dir) != cw_bit(cw_model(*cw), dir)
        } else {
            tuple_get_spec(d.bits, dir)
        },
{
    let mut seed = *tuple_get(&d.seeds, dir);
    if t {
        seed = seed.xor(&cw.seed);
    }
    let mut newbit = *tuple_get(&d.bits, dir);
    if t {
        newbit = newbit ^ *tuple_get(&cw.bits, dir);
    }
    (seed, newbit)
}

/// Builds the correction word for one level, and moves both parties' seeds
/// and control bits down in direction `bit`.
fn gen_cor_word(bit: bool, bits: &mut (bool, bool), seeds: &mut (PrgSeed, PrgSeed)) -> (cw: CorWord)
    ensures
        cw_model(cw) == gen_cw(old(seeds).0.key@, old(seeds).1.key@, bit),
        (final(seeds).0.key@, final(bits).0) == dpf_step(
            old(seeds).0.key@,
            old(bits).0,
            cw_model(cw),
            bit,
        ),
        (final(seeds).1.key@, final(bits).1) == dpf_step(
            old(seeds).1.key@,
            old(bits).1,
            cw_model(cw),
            bit,
        ),
        old(bits).0 != old(bits).1 ==> final(bits).0 != final(bits).1 && dpf_step(
            old(seeds).0.key@,
            old(bits).0,
            cw_model(cw),
            !bit,
        ) == dpf_step(old(seeds).1.key@, old(bits).1, cw_model(cw), !bit),
{
    let data = (seeds.0.expand(), seeds.1.expand());
    let keep = bit;
    let lose = !keep;

    let cw = CorWord {
        seed: tuple_get(&data.0.seeds, lose).xor(tuple_get(&data.1.seeds, lose)),
        bits: (data.0.bits.0 ^ data.1.bits.0 ^ bit ^ true, data.0.bits.1 ^ data.1.bits.1 ^ bit),
    };
    let (seed0, bit0) = descend(&data.0, bits.0, &cw, keep);
    let (seed1, bit1) = descend(&data.1, bits.1, &cw, keep);
    proof {
        if old(bits).0 != old(bits).1 {
            lemma_gen_step(old(seeds).0.key@, old(seeds).1.key@, old(bits).0, old(bits).1, bit);
        }
    }
    *seeds = (seed0, seed1);
    *bits = (bit0, bit1);
    cw
}

impl<T: FromRng + Group + Copy> DPFKey<T> {
    /// Generates the two keys of a point function that is `value` at the
    /// point whose bits (first bit at the top of the tree) are `alpha_bits`
    /// and zero elsewhere, from two fresh random root seeds; also returns
    /// party 0's final control bit.
    pub fn gen(alpha_bits: &[bool], value: &T) -> (r: (DPFKey<T>, DPFKey<T>, bool))
        ensures
            is_gen_output(alpha_bits@, *value, r.0, r.1),
            r.2 == gen_control_bit(alpha_bits@, r.0.root(), r.1.root()),
            r.2 == key_walk(r.0, alpha_bits@, alpha_bits@.len()).1,
            r.2 != key_walk(r.1, alpha_bits@, alpha_bits@.len()).1,
    {
        let root_seeds = (PrgSeed::random(), PrgSeed::random());
        let root_bits = (false, true);
        let ghost r0 = root_seeds.0.key@;
        let ghost r1 = root_seeds.1.key@;

        let mut seeds = root_seeds;
        let mut bits = root_bits;
        let mut cor_words: Vec<CorWord> = Vec::new();
        let mut last_word: T = T::zero();
        let ghost alpha = alpha_bits@;

        let mut i: usize = 0;
        while i < alpha_bits.len()
            invariant
                alpha == alpha_bits@,
                i <= alpha.len(),
                (seeds.0.key@, seeds.1.key@, bits.0, bits.1) == gen_run(alpha, r0, r1, i as nat),
                cws_model(cor_words@) == gen_cws(alpha, r0, r1).take(i as int),
                i < alpha.len() ==> last_word == T::g_zero(),
                i == alpha.len() ==> last_word == gen_word(alpha, *value, r0, r1),
            decreases alpha.len() - i,
        {
            let bit = alpha_bits[i];
            let ghost cws_before = cor_words@;
            let ghost st = gen_run(alpha, r0, r1, i as nat);
            let cw = gen_cor_word(bit, &mut bits, &mut seeds);
            cor_words.push(cw);
            proof {
                assert(cws_model(cws_before).len() == cws_before.len());
                assert(gen_cws(alpha, r0, r1).len() == alpha.len());
                assert(gen_cws(alpha, r0, r1).take(i as int).len() == i);
                assert(cws_before.len() == i);
                assert(cw_model(cw) == gen_cw(st.0, st.1, bit));
                assert(gen_cws(alpha, r0, r1)[i as int] == gen_cw(st.0, st.1, alpha[i as int]));
                assert(cws_model(cor_words@).len() == i + 1);
                assert(cws_model(cor_words@) =~= gen_cws(alpha, r0, r1).take(i + 1)) by {
                    assert(cor_words@ == cws_before.push(cw));
                    assert forall|j: int| 0 <= j < i + 1 implies #[trigger] cws_model(
                        cor_words@,
                    )[j] == gen_cws(alpha, r0, r1).take(i + 1)[j] by {
                        if j < i {
                            assert(cws_model(cws_before)[j] == gen_cws(alpha, r0, r1).take(i as int)[j]);
                        }
                    }
                }
            }
            if i == alpha_bits.len() - 1 {
                let converted = (seeds.0.convert::<T>(), seeds.1.convert::<T>());
                last_word.add(value);
                last_word.sub(&converted.0.word);
                last_word.add(&converted.1.word);
                if bits.1 {
                    last_word.negate();
                }
            }
            i = i + 1;
        }
        proof {
            assert(gen_cws(alpha, r0, r1).take(alpha.len() as int) =~= gen_cws(alpha, r0, r1));
        }
        let cor_words1 = clone_cor_words(&cor_words);
        let k0 = DPFKey::<T> { key_idx: false, root_seed: root_seeds.0, cor_words: cor_words1, word: last_word };
        let k1 = DPFKey::<T> { key_idx: true, root_seed: root_seeds.1, cor_words: cor_words, word: last_word };
        proof {
            lemma_gen_control_bit(alpha, *value, k0, k1);
        }
        (k0, k1, bits.0)
    }

    /// This key's share of the function's value at the point whose bits
    /// (first bit at the top of the tree) are `idx`.
    pub fn eval(&self, idx: &Vec<bool>) -> (r: T)
        requires
            1 <= idx@.len() <= self.cws().len(),
        ensures
            r == eval_spec(*self, idx@),
    {
        let mut seed: PrgSeed = self.root_seed;
        let mut t_bit: bool = self.key_idx;
        let mut word: T = T::zero();

        let mut level: usize = 0;
        while level < idx.len()
            invariant
                1 <= idx@.len() <= self.cor_words@.len(),
                level <= idx@.len(),
                (seed.key@, t_bit) == key_walk(*self, idx@, level as nat),
                level < idx@.len() ==> word == T::g_zero(),
                level == idx@.len() ==> word == leaf_word(*self, seed.key@, t_bit),
            decreases idx@.len() - level,
        {
            let bit = idx[level];
            let tau = seed.expand();
            let step = descend(&tau, t_bit, &self.cor_words[level], bit);
            seed = step.0;
            t_bit = step.1;
            if level == idx.len() - 1 {
                let converted = seed.convert::<T>();
                word.add(&converted.word);
                if t_bit {
                    word.add(&self.word);
                }
                if self.key_idx {
                    word.negate();
                }
            }
            level = level + 1;
        }
        word
    }
}

impl<T: FromRng + Group + Copy> DPFKey<T> {
    /// Walks from level `start`, holding `seed` and `t_bit`, along `idx`,
    /// appending each level to `state`; returns the share at the leaf, or
    /// zero where no level was walked.
    fn walk_levels(
        &self,
        idx: &Vec<bool>,
        state: EvalState,
        seed: PrgSeed,
        t_bit: bool,
        start: usize,
    ) -> (r: (T, EvalState))
        requires
            corrected_levels_in_key(*self, seed.key@, t_bit, idx@, start as nat),
        ensures
            extends(*self, state.seeds(), state.t_bits(), state.dirs(), state.taus(), r.1, seed.key@, t_bit, idx@, start as nat, idx@.len()),
            r.0 == if start < idx@.len() {
                leaf_word(
                    *self,
                    walk(self.cws(), seed.key@, t_bit, idx@, start as nat, idx@.len()).0,
                    walk(self.cws(), seed.key@, t_bit, idx@, start as nat, idx@.len()).1,
                )
            } else {
                T::g_zero()
            },
    {
        let mut new_state = state;
        let mut seed = seed;
        let mut t_bit = t_bit;
        let ghost s0 = seed.key@;
        let ghost t0 = t_bit;
        let mut word: T = T::zero();
        let mut level: usize = start;
        proof {
            assert(state.seeds().take(state.seeds().len() as int) =~= state.seeds());
            assert(state.t_bits().take(state.t_bits().len() as int) =~= state.t_bits());
            assert(state.dirs().take(state.dirs().len() as int) =~= state.dirs());
            assert(state.taus().take(state.taus().len() as int) =~= state.taus());
        }
        while level < idx.len()
            invariant
                corrected_levels_in_key(*self, s0, t0, idx@, start as nat),
                start <= level || idx@.len() <= start,
                level < idx@.len() ==> start <= level,
                idx@.len() <= start ==> level == start,
                level <= idx@.len() || level == start,
                (seed.key@, t_bit) == walk(self.cws(), s0, t0, idx@, start as nat, level as nat),
                extends(*self, state.seeds(), state.t_bits(), state.dirs(), state.taus(), new_state, s0, t0, idx@, start as nat, level as nat),
                !(start < level && level == idx@.len()) ==> word == T::g_zero(),
                start < level && level == idx@.len() ==> word == leaf_word(*self, seed.key@, t_bit),
            decreases idx@.len() - level,
        {
            let bit = idx[level];
            let ghost prev_seed = seed.key@;
            let ghost prev_t = t_bit;
            let ghost before = new_state;
            let tau = seed.expand();
            proof {
                assert(walk(self.cws(), s0, t0, idx@, start as nat, level as nat).1 ==> level
                    < self.cws().len());
            }
            let step = if t_bit {
                descend(&tau, true, &self.cor_words[level], bit)
            } else {
                (*tuple_get(&tau.seeds, bit), *tuple_get(&tau.bits, bit))
            };
            seed = step.0;
            t_bit = step.1;
            if level == idx.len() - 1 {
                let converted = seed.convert::<T>();
                word.add(&converted.word);
                if t_bit {
                    word.add(&self.word);
                }
                if self.key_idx {
                    word.negate();
                }
            }
            new_state.seed.push(seed);
            new_state.t_bit.push(t_bit);
            new_state.bit.push(bit);
            new_state.tau.push(tau);
            proof {
                assert(new_state.seeds() == before.seeds().push(seed));
                assert(new_state.t_bits() == before.t_bits().push(t_bit));
                assert(new_state.dirs() == before.dirs().push(bit));
                assert(new_state.taus() == before.taus().push(tau));
                if prev_t {
                    assert(self.cws()[level as int] == cw_model(self.cor_words@[level as int]));
                }
                assert((seed.key@, t_bit) == walk(self.cws(), s0, t0, idx@, start as nat, (level + 1) as nat));
                lemma_extends_step(
                    *self,
                    state.seeds(),
                    state.t_bits(),
                    state.dirs(),
                    state.taus(),
                    before,
                    new_state,
                    s0,
                    t0,
                    idx@,
                    start as nat,
                    level as nat,
                    seed,
                    t_bit,
                    tau,
                );
            }
            level = level + 1;
        }
        (word, new_state)
    }

    /// Evaluates at `idx`, taking the levels before `idx_diff` from
    /// `prev_state` and walking the rest; returns the share at the leaf (zero
    /// where no level is left to walk) and the state of the walk.
    pub fn stateful_eval(&self, idx: &Vec<bool>, prev_state: &EvalState, idx_diff: usize) -> (r: (
        T,
        EvalState,
    ))
        requires
            1 <= idx_diff <= prev_state.seeds().len(),
            idx_diff <= prev_state.t_bits().len(),
            corrected_levels_in_key(
                *self,
                prev_state.seeds()[idx_diff - 1].key@,
                prev_state.t_bits()[idx_diff - 1],
                idx@,
                idx_diff as nat,
            ),
        ensures
            ({
                let s = prev_state.seeds()[idx_diff - 1].key@;
                let t = prev_state.t_bits()[idx_diff - 1];
                &&& extends(
                    *self,
                    prefix_or_empty(prev_state.seeds(), idx_diff as nat),
                    prefix_or_empty(prev_state.t_bits(), idx_diff as nat),
                    prefix_or_empty(prev_state.dirs(), idx_diff as nat),
                    prefix_or_empty(prev_state.taus(), idx_diff as nat),
                    r.1,
                    s,
                    t,
                    idx@,
                    idx_diff as nat,
                    idx@.len(),
                )
                &&& r.0 == if idx_diff < idx@.len() {
                    leaf_word(
                        *self,
                        walk(self.cws(), s, t, idx@, idx_diff as nat, idx@.len()).0,
                        walk(self.cws(), s, t, idx@, idx_diff as nat, idx@.len()).1,
                    )
                } else {
                    T::g_zero()
                }
            }),
            state_matches(*self, *prev_state, prev_state.dirs()) && prev_state.dirs().take(
                idx_diff as int,
            ) == idx@.take(idx_diff as int) && idx_diff < idx@.len() ==> r.0 == eval_spec(
                *self,
                idx@,
            ) && state_matches(*self, r.1, idx@),
    {
        let new_state = prev_state.slice_to_index(idx_diff - 1);
        let start_idx: usize = idx_diff;
        let seed: PrgSeed = new_state.seed[new_state.seed.len() - 1];
        let t_bit: bool = new_state.t_bit[new_state.t_bit.len() - 1];
        proof {
            assert(new_state.seed@[new_state.seed@.len() - 1] == prev_state.seeds()[idx_diff - 1]);
            assert(new_state.t_bit@[new_state.t_bit@.len() - 1] == prev_state.t_bits()[idx_diff - 1]);
        }
        let r = self.walk_levels(idx, new_state, seed, t_bit, start_idx);
        proof {
            lemma_resume_walk(*self, *prev_state, idx@, idx_diff as nat, r);
        }
        r
    }

    /// This key's shares at every point of a 16-bit domain but the last: the
    /// share at `j` (bits most significant first) for each `j` in `0..65535`.
    pub fn eval_all(&self) -> (r: Vec<T>)
        requires
            self.cws().len() >= 16,
        ensures
            r@.len() == 65535,
            forall|j: int| 0 <= j < 65535 ==> r@[j] == eval_spec(*self, u16_msb_bits(j as u16)),
    {
        let mut y_vec: Vec<T> = Vec::new();
        let max_value: u16 = u16::MAX;
        let half_value: u16 = (max_value / 2) + 1;

        let mut i: u16 = 0;
        while i < 2
            invariant
                self.cor_words@.len() >= 16,
                half_value == 32768,
                max_value == 65535,
                i <= 2,
                y_vec@.len() == (if i == 0 {
                    0int
                } else if i == 1 {
                    32768int
                } else {
                    65535int
                }),
                forall|j: int|
                    0 <= j < y_vec@.len() ==> y_vec@[j] == eval_spec(*self, u16_msb_bits(j as u16)),
            decreases 2 - i,
        {
            let init_16b: u16 = i * half_value;
            let init_16b_bool_vec: Vec<bool> = u16_to_boolean_vector(init_16b);
            let iter_end: u16 = if i == 0 {
                half_value
            } else {
                max_value
            };
            let (res, state) = self.stateful_eval_no_prev_state(&init_16b_bool_vec);
            let mut prev_state = state;
            let mut prev_num_bool = init_16b_bool_vec;
            y_vec.push(res);

            let mut num: u16 = init_16b + 1;
            while num < iter_end
                invariant
                    self.cor_words@.len() >= 16,
                    i < 2,
                    init_16b == i * 32768,
                    iter_end == if i == 0 {
                        32768u16
                    } else {
                        65535u16
                    },
                    init_16b < num <= iter_end,
                    y_vec@.len() == num,
                    prev_num_bool@ == u16_msb_bits((num - 1) as u16),
                    state_matches(*self, prev_state, prev_num_bool@),
                    forall|j: int|
                        0 <= j < y_vec@.len() ==> y_vec@[j] == eval_spec(
                            *self,
                            u16_msb_bits(j as u16),
                        ),
                decreases iter_end - num,
            {
                let num_bool_vec: Vec<bool> = u16_to_boolean_vector(num);
                let idx_diff = find_first_difference_index(&prev_num_bool, &num_bool_vec);
                proof {
                    let p = (num - 1) as u16;
                    lemma_same_top_bit(p);
                    assert(idx_diff < 16) by {
                        if idx_diff == 16 {
                            assert(prev_num_bool@ =~= num_bool_vec@);
                            lemma_msb_bits_value(p);
                            lemma_msb_bits_value(num);
                        }
                    }
                    lemma_state_dirs(*self, prev_state, prev_num_bool@);
                    assert(prev_state.dirs().take(idx_diff as int) =~= num_bool_vec@.take(
                        idx_diff as int,
                    ));
                }
                let (res, state) = self.stateful_eval(&num_bool_vec, &prev_state, idx_diff);
                y_vec.push(res);
                prev_state = state;
                prev_num_bool = num_bool_vec;
                num = num + 1;
            }
            i = i + 1;
        }
        y_vec
    }

    /// Evaluates at `idx` from the root, recording every level of the walk.
    pub fn stateful_eval_no_prev_state(&self, idx: &Vec<bool>) -> (r: (T, EvalState))
        requires
            corrected_levels_in_key(*self, self.root(), self.party(), idx@, 0),
        ensures
            r.0 == eval_spec(*self, idx@),
            state_matches(*self, r.1, idx@),
    {
        let new_state = EvalState { seed: Vec::new(), bit: Vec::new(), t_bit: Vec::new(), tau: Vec::new() };
        let r = self.walk_levels(idx, new_state, self.root_seed, self.key_idx, 0);
        proof {
            assert forall|j: int| 0 <= j < idx@.len() implies {
                &&& (#[trigger] r.1.seeds()[j]).key@ == walk(self.cws(), self.root(), self.party(), idx@, 0, (j + 1) as nat).0
                &&& r.1.t_bits()[j] == walk(self.cws(), self.root(), self.party(), idx@, 0, (j + 1) as nat).1
                &&& r.1.dirs()[j] == idx@[j]
                &&& is_expansion(r.1.taus()[j], walk(self.cws(), self.root(), self.party(), idx@, 0, j as nat).0)
            } by {
                assert(appended_level(*self, r.1, 0, 0, 0, 0, self.root(), self.party(), idx@, 0, j));
            }
        }
        r
    }
}

impl<T: Copy> DPFKey<T> {
    /// The parts of the key: party bit, root seed, correction words and last
    /// word.
    pub fn to_parts(&self) -> (r: (bool, PrgSeed, Vec<CorWord>, T))
        ensures
            r.0 == self.party(),
            r.1.key@ == self.root(),
            cws_model(r.2@) == self.cws(),
            r.3 == self.last_word(),
    {
        (self.key_idx, self.root_seed, clone_cor_words(&self.cor_words), self.word)
    }
}

/// A copy of a vector of correction words.
fn clone_cor_words(v: &Vec<CorWord>) -> (r: Vec<CorWord>)
    ensures
        r@ == v@,
{
    let mut r: Vec<CorWord> = Vec::new();
    let mut i: usize = 0;
    while i < v.len()
        invariant
            i <= v@.len(),
            r@ == v@.take(i as int),
        decreases v@.len() - i,
    {
        r.push(v[i]);
        i = i + 1;
        assert(r@ =~= v@.take(i as int));
    }
    assert(v@.take(i as int) =~= v@);
    r
}

/// Resuming a recorded walk at level `d` gives what a walk from the root
/// gives, when the recorded path agrees with `idx` before `d`.
#[verifier::spinoff_prover]
proof fn lemma_resume_walk<T: FromRng + Group>(
    key: DPFKey<T>,
    prev: EvalState,
    idx: Seq<bool>,
    d: nat,
    r: (T, EvalState),
)
    requires
        1 <= d <= prev.seeds().len(),
        d <= prev.t_bits().len(),

        extends(
            key,
            prefix_or_empty(prev.seeds(), d),
            prefix_or_empty(prev.t_bits(), d),
            prefix_or_empty(prev.dirs(), d),
            prefix_or_empty(prev.taus(), d),
            r.1,
            prev.seeds()[d - 1].key@,
            prev.t_bits()[d - 1],
            idx,
            d,
            idx.len(),
        ),
        r.0 == if d < idx.len() {
            leaf_word(
                key,
                walk(key.cws(), prev.seeds()[d - 1].key@, prev.t_bits()[d - 1], idx, d, idx.len()).0,
                walk(key.cws(), prev.seeds()[d - 1].key@, prev.t_bits()[d - 1], idx, d, idx.len()).1,
            )
        } else {
            T::g_zero()
        },
    ensures
        state_matches(key, prev, prev.dirs()) && prev.dirs().take(d as int) == idx.take(d as int)
            && d < idx.len() ==> r.0 == eval_spec(key, idx) && state_matches(key, r.1, idx),
{
            let path = prev.dirs();
            let n = idx.len();
            if state_matches(key, prev, path) && path.take(d as int) == idx.take(d as int)
                && d < n {
                let cws = key.cws();
                let root = key.root();
                let party = key.party();
                assert forall|j: int| 0 <= j < d implies path[j] == idx[j] by {
                    assert(path.take(d as int)[j] == idx.take(d as int)[j]);
                }
                assert(prev.seeds()[d - 1] == prev.seeds()[(d - 1) as int]);
                lemma_walk_same_dirs(cws, root, party, path, idx, 0, d);
                lemma_walk_split(cws, root, party, idx, 0, d, n);
                assert(prefix_or_empty(prev.seeds(), d) == prev.seeds().take(d as int));
                assert(prefix_or_empty(prev.t_bits(), d) == prev.t_bits().take(d as int));
                assert(prefix_or_empty(prev.dirs(), d) == prev.dirs().take(d as int));
                assert(prefix_or_empty(prev.taus(), d) == prev.taus().take(d as int));
                assert forall|j: int| 0 <= j < n implies {
                    &&& (#[trigger] r.1.seeds()[j]).key@ == walk(cws, root, party, idx, 0, (j + 1) as nat).0
                    &&& r.1.t_bits()[j] == walk(cws, root, party, idx, 0, (j + 1) as nat).1
                    &&& r.1.dirs()[j] == idx[j]
                    &&& is_expansion(r.1.taus()[j], walk(cws, root, party, idx, 0, j as nat).0)
                } by {
                    if j < d {
                        assert(r.1.seeds().take(d as int)[j] == r.1.seeds()[j]);
                        assert(r.1.t_bits().take(d as int)[j] == r.1.t_bits()[j]);
                        assert(r.1.dirs().take(d as int)[j] == r.1.dirs()[j]);
                        assert(r.1.taus().take(d as int)[j] == r.1.taus()[j]);
                        assert(prev.seeds()[j] == prev.seeds()[j]);
                        lemma_walk_same_dirs(cws, root, party, path, idx, 0, (j + 1) as nat);
                        lemma_walk_same_dirs(cws, root, party, path, idx, 0, j as nat);
                    } else {
                        let k = j - d;
                        assert(appended_level(
                            key,
                            r.1,
                            d,
                            d,
                            d,
                            d,
                            prev.seeds()[d - 1].key@,
                            prev.t_bits()[d - 1],
                            idx,
                            d,
                            k,
                        ));
                        lemma_walk_split(cws, root, party, idx, 0, d, (j + 1) as nat);
                        lemma_walk_split(cws, root, party, idx, 0, d, j as nat);
                    }
                }
                assert(levels_follow(key, r.1, root, party, idx, 0, n));
                assert(state_matches(key, r.1, idx));
                assert(r.0 == eval_spec(key, idx));
            }
        }

/// A state that records a walk along `path` holds `path` as its directions.
proof fn lemma_state_dirs<T>(key: DPFKey<T>, st: EvalState, path: Seq<bool>)
    requires
        state_matches(key, st, path),
    ensures
        st.dirs() == path,
{
    assert(levels_follow(key, st, key.root(), key.party(), path, 0, path.len()));
    assert forall|j: int| 0 <= j < path.len() implies st.dirs()[j] == path[j] by {
        assert(0 <= j < path.len());
        let x = st.seeds()[j];
    }
    assert(st.dirs() =~= path);
}

/// Walking from level `a` to `b` and on from `b` to `c` is walking from `a`
/// to `c`.
proof fn lemma_walk_split(
    cws: Seq<CorWordModel>,
    s: Seq<u8>,
    t: bool,
    idx: Seq<bool>,
    a: nat,
    b: nat,
    c: nat,
)
    requires
        a <= b <= c,
    ensures
        ({
            let mid = walk(cws, s, t, idx, a, b);
            walk(cws, mid.0, mid.1, idx, b, c) == walk(cws, s, t, idx, a, c)
        }),
    decreases c,
{
    if c > b {
        lemma_walk_split(cws, s, t, idx, a, b, (c - 1) as nat);
    }
}

/// A walk only reads the directions of the levels it walks.
proof fn lemma_walk_same_dirs(
    cws: Seq<CorWordModel>,
    s: Seq<u8>,
    t: bool,
    idx1: Seq<bool>,
    idx2: Seq<bool>,
    a: nat,
    b: nat,
)
    requires
        forall|j: int| a <= j < b ==> idx1[j] == idx2[j],
    ensures
        walk(cws, s, t, idx1, a, b) == walk(cws, s, t, idx2, a, b),
    decreases b,
{
    if b > a {
        lemma_walk_same_dirs(cws, s, t, idx1, idx2, a, (b - 1) as nat);
    }
}

/// Reading the first `k` bits of `u16_msb_bits(n)` gives the `k` most
/// significant bits of `n`.
proof fn lemma_msb_bits_prefix(n: u16, k: nat)
    requires
        k <= 16,
    ensures
        crate::bits_msb_value(u16_msb_bits(n).take(k as int)) == (n >> ((16 - k) as u16)) as nat,
    decreases k,
{
    if k == 0 {
        assert(u16_msb_bits(n).take(0) =~= Seq::<bool>::empty());
        assert(n >> 16u16 == 0u16) by (bit_vector);
    } else {
        lemma_msb_bits_prefix(n, (k - 1) as nat);
        let bits = u16_msb_bits(n).take(k as int);
        assert(bits.drop_last() =~= u16_msb_bits(n).take(k - 1));
        let sh = (16 - k) as u16;
        assert(bits.last() == ((n >> sh) & 1u16 == 1u16));
        assert((n >> sh) == 2 * (n >> ((sh + 1) as u16)) + ((n >> sh) & 1u16)) by (bit_vector)
            requires
                sh < 16,
        ;
        assert((n >> sh) & 1u16 == 0u16 || (n >> sh) & 1u16 == 1u16) by (bit_vector);
    }
}

/// Reading the 16 bits of `n`, most significant first, gives back `n`.
pub proof fn lemma_msb_bits_value(n: u16)
    ensures
        crate::bits_msb_value(u16_msb_bits(n)) == n,
{
    lemma_msb_bits_prefix(n, 16);
    assert(u16_msb_bits(n).take(16) =~= u16_msb_bits(n));
    assert(n >> 0u16 == n) by (bit_vector);
}

/// The 16 bits of the number that `alpha` (16 bits, most significant first)
/// reads as are `alpha`.
pub proof fn lemma_msb_bits_of_value(alpha: Seq<bool>)
    requires
        alpha.len() == 16,
    ensures
        crate::bits_msb_value(alpha) < 0x1_0000,
        u16_msb_bits(crate::bits_msb_value(alpha) as u16) == alpha,
{
    crate::lemma_msb_bound(alpha);
    vstd::arithmetic::power2::lemma2_to64();
    let n = crate::bits_msb_value(alpha) as u16;
    lemma_msb_bits_value(n);
    crate::lemma_msb_value_injective(u16_msb_bits(n), alpha);
}

/// The point function over the 16-bit domain: for the keys that `gen` makes
/// for a 16-bit point `alpha`, the shares at the number `j` (bits most
/// significant first, as `eval_all` lists them) add up to `value` where `j`
/// is the number `alpha` reads as, and to zero elsewhere.
pub proof fn lemma_dpf_domain_correct<T: FromRng + Group>(
    alpha: Seq<bool>,
    value: T,
    k0: DPFKey<T>,
    k1: DPFKey<T>,
    j: u16,
)
    requires
        is_gen_output(alpha, value, k0, k1),
        alpha.len() == 16,
    ensures
        T::g_add(eval_spec(k0, u16_msb_bits(j)), eval_spec(k1, u16_msb_bits(j))) == if j
            == crate::bits_msb_value(alpha) {
            value
        } else {
            T::g_zero()
        },
{
    lemma_dpf_correct(alpha, value, k0, k1, u16_msb_bits(j));
    lemma_msb_bits_of_value(alpha);
    lemma_msb_bits_value(j);
    if u16_msb_bits(j) == alpha {
        assert(j == crate::bits_msb_value(alpha));
    }
    if j == crate::bits_msb_value(alpha) {
        assert(u16_msb_bits(j) == alpha);
    }
}

/// Two numbers of the same half of the range that follow each other have
/// the same most significant bit.
proof fn lemma_same_top_bit(n: u16)
    requires
        n < 65534,
        n != 32767,
    ensures
        u16_msb_bits(n)[0] == u16_msb_bits((n + 1) as u16)[0],
{
    let m = (n + 1) as u16;
    assert(n < 32767 ==> (n >> 15u16) & 1u16 == 0u16 && (m >> 15u16) & 1u16 == 0u16) by (bit_vector)
        requires
            m == n + 1,
    ;
    assert(n >= 32768 ==> (n >> 15u16) & 1u16 == 1u16 && (m >> 15u16) & 1u16 == 1u16) by (bit_vector)
        requires
            m == n + 1,
            n < 65534,
    ;
}

/// Undoing an exclusive or: `a ^ (a ^ b) == b` and `b ^ (a ^ b) == a`.
proof fn lemma_xor_cancel(a: Seq<u8>, b: Seq<u8>)
    requires
        a.len() == 16,
        b.len() == 16,
    ensures
        seq_xor(a, seq_xor(a, b)) == b,
        seq_xor(b, seq_xor(a, b)) == a,
{
    assert forall|i: int| 0 <= i < 16 implies #[trigger] seq_xor(a, seq_xor(a, b))[i] == b[i]
        && seq_xor(b, seq_xor(a, b))[i] == a[i] by {
        let x = a[i];
        let y = b[i];
        assert(x ^ (x ^ y) == y && y ^ (x ^ y) == x) by (bit_vector);
    }
    assert(seq_xor(a, seq_xor(a, b)) =~= b);
    assert(seq_xor(b, seq_xor(a, b)) =~= a);
}

/// One level of key generation: where the two parties' control bits
/// differ, the correction word keeps them different in the direction of the
/// point, and makes the two parties' children in the other direction
/// coincide, seed and control bit.
pub proof fn lemma_gen_step(s0: Seq<u8>, s1: Seq<u8>, t0: bool, t1: bool, bit: bool)
    requires
        t0 != t1,
    ensures
        dpf_step(s0, t0, gen_cw(s0, s1, bit), bit).1 != dpf_step(s1, t1, gen_cw(s0, s1, bit), bit).1,
        dpf_step(s0, t0, gen_cw(s0, s1, bit), !bit) == dpf_step(s1, t1, gen_cw(s0, s1, bit), !bit),
{
    lemma_xor_cancel(expand_seed(s0, !bit), expand_seed(s1, !bit));
}

/// Key generation keeps the two parties' control bits different at every
/// level; at the end, the control bit that `gen` returns (party 0's) is the
/// negation of party 1's.
pub proof fn lemma_gen_bits_differ(alpha: Seq<bool>, r0: Seq<u8>, r1: Seq<u8>, n: nat)
    requires
        n <= alpha.len(),
    ensures
        gen_run(alpha, r0, r1, n).2 != gen_run(alpha, r0, r1, n).3,
    decreases n,
{
    if n > 0 {
        lemma_gen_bits_differ(alpha, r0, r1, (n - 1) as nat);
    }
}

/// The control bit that key generation reports is the one that party 0's
/// key holds at the leaf of the point; party 1's key holds the other one
/// there.
pub proof fn lemma_gen_control_bit<T: FromRng + Group>(
    alpha: Seq<bool>,
    value: T,
    k0: DPFKey<T>,
    k1: DPFKey<T>,
)
    requires
        is_gen_output(alpha, value, k0, k1),
    ensures
        key_walk(k0, alpha, alpha.len()).1 == gen_control_bit(alpha, k0.root(), k1.root()),
        key_walk(k1, alpha, alpha.len()).1 != gen_control_bit(alpha, k0.root(), k1.root()),
{
    lemma_walk_pair(alpha, value, k0, k1, alpha, alpha.len());
    lemma_gen_bits_differ(alpha, k0.root(), k1.root(), alpha.len());
    assert(alpha.take(alpha.len() as int) =~= alpha);
}

/// Walking both keys of a pair from `gen`: while the path agrees with
/// `alpha`, each party holds the seed and bit that key generation held;
/// once the path has left `alpha`, both parties hold the same seed and bit.
proof fn lemma_walk_pair<T: FromRng + Group>(
    alpha: Seq<bool>,
    value: T,
    k0: DPFKey<T>,
    k1: DPFKey<T>,
    x: Seq<bool>,
    n: nat,
)
    requires
        is_gen_output(alpha, value, k0, k1),
        x.len() == alpha.len(),
        n <= alpha.len(),
    ensures
        x.take(n as int) =~= alpha.take(n as int) ==> key_walk(k0, x, n) == (
            gen_run(alpha, k0.root(), k1.root(), n).0,
            gen_run(alpha, k0.root(), k1.root(), n).2,
        ) && key_walk(k1, x, n) == (gen_run(alpha, k0.root(), k1.root(), n).1, gen_run(alpha, k0.root(), k1.root(), n).3),
        !(x.take(n as int) =~= alpha.take(n as int)) ==> key_walk(k0, x, n) == key_walk(k1, x, n),
    decreases n,
{
    if n > 0 {
        let m = (n - 1) as nat;
        lemma_walk_pair(alpha, value, k0, k1, x, m);
        let cws = gen_cws(alpha, k0.root(), k1.root());
        let st = gen_run(alpha, k0.root(), k1.root(), m);
        assert(cws[m as int] == gen_cw(st.0, st.1, alpha[m as int]));
        if x.take(n as int) =~= alpha.take(n as int) {
            assert(x.take(m as int) =~= alpha.take(m as int)) by {
                assert forall|j: int| 0 <= j < m implies x.take(m as int)[j] == alpha.take(
                    m as int,
                )[j] by {
                    assert(x.take(n as int)[j] == alpha.take(n as int)[j]);
                }
            }
            assert(x[m as int] == x.take(n as int)[m as int]);
            assert(alpha[m as int] == alpha.take(n as int)[m as int]);
        } else if x.take(m as int) =~= alpha.take(m as int) {
            // The path leaves `alpha` at level m.
            assert(x[m as int] != alpha[m as int]) by {
                if x[m as int] == alpha[m as int] {
                    assert(x.take(n as int) =~= alpha.take(n as int)) by {
                        assert forall|j: int| 0 <= j < n implies x.take(n as int)[j]
                            == alpha.take(n as int)[j] by {
                            if j < m {
                                assert(x.take(m as int)[j] == alpha.take(m as int)[j]);
                            }
                        }
                    }
                }
            }
            lemma_gen_bits_differ(alpha, k0.root(), k1.root(), m);
            lemma_gen_step(st.0, st.1, st.2, st.3, alpha[m as int]);
        }
    }
}

/// The group algebra at the leaf of the point: the two shares add up to
/// `v`, whichever party holds the set control bit.
proof fn lemma_leaf_sum<T: Group>(c0: T, c1: T, v: T, t0: bool, t1: bool)
    requires
        t0 != t1,
    ensures
        ({
            let z = T::g_zero();
            let w0 = T::g_add(T::g_sub(T::g_add(z, v), c0), c1);
            let w = if t1 {
                T::g_neg(w0)
            } else {
                w0
            };
            let e0 = if t0 {
                T::g_add(T::g_add(z, c0), w)
            } else {
                T::g_add(z, c0)
            };
            let e1 = T::g_neg(
                if t1 {
                    T::g_add(T::g_add(z, c1), w)
                } else {
                    T::g_add(z, c1)
                },
            );
            T::g_add(e0, e1) == v
        }),
{
    let z = T::g_zero();
    lemma_zero_add(v);
    lemma_zero_add(c0);
    lemma_zero_add(c1);
    T::lemma_sub_is_add_neg(v, c0);
    let nc0 = T::g_neg(c0);
    let nc1 = T::g_neg(c1);
    let w0 = T::g_add(T::g_add(v, nc0), c1);
    if t0 {
        // c0 + w0 == c1 + v
        T::lemma_add_assoc(v, nc0, c1);
        T::lemma_add_comm(v, T::g_add(nc0, c1));
        T::lemma_add_assoc(c0, T::g_add(nc0, c1), v);
        T::lemma_add_assoc(c0, nc0, c1);
        T::lemma_add_neg(c0);
        lemma_zero_add(c1);
        assert(T::g_add(c0, w0) == T::g_add(c1, v));
        // (c1 + v) + -c1 == v
        T::lemma_add_comm(c1, v);
        T::lemma_add_assoc(v, c1, nc1);
        T::lemma_add_neg(c1);
        T::lemma_add_zero(v);
    } else {
        // -(c1 + -w0) == -c1 + w0 == v + -c0
        lemma_neg_add_distr(c1, T::g_neg(w0));
        lemma_neg_neg(w0);
        T::lemma_add_comm(nc1, w0);
        T::lemma_add_assoc(T::g_add(v, nc0), c1, nc1);
        T::lemma_add_neg(c1);
        T::lemma_add_zero(T::g_add(v, nc0));
        assert(T::g_neg(T::g_add(c1, T::g_neg(w0))) == T::g_add(v, nc0));
        // c0 + (v + -c0) == v
        T::lemma_add_comm(c0, T::g_add(v, nc0));
        T::lemma_add_assoc(v, nc0, c0);
        lemma_neg_add(c0);
        T::lemma_add_zero(v);
    }
}

/// Correctness of the distributed point function: for the two keys that
/// `gen` makes for the point `alpha` and the value `value`, the two shares
/// at any point `x` of the same length add up to `value` where `x` is
/// `alpha`, and to zero elsewhere.
pub proof fn lemma_dpf_correct<T: FromRng + Group>(
    alpha: Seq<bool>,
    value: T,
    k0: DPFKey<T>,
    k1: DPFKey<T>,
    x: Seq<bool>,
)
    requires
        is_gen_output(alpha, value, k0, k1),
        alpha.len() >= 1,
        x.len() == alpha.len(),
    ensures
        T::g_add(eval_spec(k0, x), eval_spec(k1, x)) == if x == alpha {
            value
        } else {
            T::g_zero()
        },
{
    let n = alpha.len();
    lemma_walk_pair(alpha, value, k0, k1, x, n);
    assert(x.take(n as int) =~= x);
    assert(alpha.take(n as int) =~= alpha);
    if x =~= alpha {
        let st = gen_run(alpha, k0.root(), k1.root(), n);
        lemma_gen_bits_differ(alpha, k0.root(), k1.root(), n);
        lemma_leaf_sum(convert_word::<T>(st.0), convert_word::<T>(st.1), value, st.2, st.3);
    } else {
        let st = key_walk(k0, x, n);
        T::lemma_add_neg(leaf_word(k0, st.0, st.1));
    }
}

} // verus!
