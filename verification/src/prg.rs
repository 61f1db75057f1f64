use vstd::prelude::*;
use aes::Aes128;
use aes::cipher::BlockEncrypt;
use aes::cipher::KeyInit;
use aes::cipher::generic_array::GenericArray;

verus! {

broadcast use vstd::array::group_array_axioms;

/// Size in bytes of an AES-128 key, of an AES block and of a PRG seed.
pub const AES_BLOCK_SIZE: usize = 16;

/// What AES-128 under `key` makes of the 16-byte block `block`.
pub uninterp spec fn aes128_encrypt(key: Seq<u8>, block: Seq<u8>) -> Seq<u8>;

/// Encrypts one block with AES-128 (`aes::Aes128::new(key).encrypt_block(block)`).
/// The contract claims that the cipher is a function of the key and the block
/// alone; nothing else about AES is stated.
#[verifier::external_body]
fn aes128_encrypt_block(key: &[u8; 16], block: &[u8; 16]) -> (out: [u8; 16])
    ensures
        out@ == aes128_encrypt(key@, block@),
{
    let cipher = Aes128::new(GenericArray::from_slice(key));
    let mut b = GenericArray::clone_from_slice(block);
    cipher.encrypt_block(&mut b);
    b.into()
}

/// Sixteen bytes from the thread-local generator of `rand` (`rand::random`).
/// Nothing is promised of the bytes.
#[verifier::external_body]
pub(crate) fn random_block() -> (out: [u8; 16]) {
    rand::random::<[u8; 16]>()
}

/// The 16-byte counter block for `c`: the 8 bytes of `c`, least significant
/// first, then 8 zero bytes.
pub open spec fn ctr_block(c: u64) -> Seq<u8> {
    Seq::new(16, |i: int| if i < 8 { (c >> ((8 * i) as u64)) as u8 } else { 0u8 })
}

/// Bit `j` of the key stream of `key`: the stream is AES-128 under `key` in
/// counter mode, read byte by byte, each byte least significant bit first.
pub open spec fn stream_bit(key: Seq<u8>, j: nat) -> bool {
    (aes128_encrypt(key, ctr_block((j / 128) as u64))[((j % 128) / 8) as int] >> ((j % 8) as u8))
        & 1u8 == 1u8
}

/// The 16 bytes of output of AES-128 under `key` on block `block`.
pub open spec fn aes_block(key: Seq<u8>, block: Seq<u8>) -> Seq<u8> {
    Seq::new(16, |i: int| aes128_encrypt(key, block)[i])
}

/// One AES-128 block, seen as the 16 bytes that `aes_block` gives.
fn encrypt(key: &[u8; 16], block: &[u8; 16]) -> (out: [u8; 16])
    ensures
        out@ == aes_block(key@, block@),
        out@ == aes128_encrypt(key@, block@),
{
    let out = aes128_encrypt_block(key, block);
    assert(out@ =~= aes_block(key@, block@));
    out
}

/// Byte-wise exclusive or of two sequences of the same length.
pub open spec fn seq_xor(a: Seq<u8>, b: Seq<u8>) -> Seq<u8> {
    Seq::new(a.len(), |i: int| a[i] ^ b[i])
}

/// A PRG seed: one AES-128 key.
#[derive(Clone, Copy, Debug, PartialEq, Eq)]
pub struct PrgSeed {
    pub key: [u8; 16],
}

/// The two seeds and the two bits that a seed expands to.
#[derive(Clone, Copy, Debug)]
pub struct PrgOutput {
    pub bits: (bool, bool),
    pub seeds: (PrgSeed, PrgSeed),
}

/// A fresh seed and a group element derived from a seed.
#[derive(Clone, Copy, Debug)]
pub struct ConvertOutput<T> {
    pub seed: PrgSeed,
    pub word: T,
}

/// Left seed of the expansion of `s`.
pub open spec fn expand_left(s: Seq<u8>) -> Seq<u8> {
    aes_block(s, ctr_block(0))
}

/// Right seed of the expansion of `s`.
pub open spec fn expand_right(s: Seq<u8>) -> Seq<u8> {
    aes_block(s, ctr_block(1))
}

/// Left bit of the expansion of `s`.
pub open spec fn expand_bit_left(s: Seq<u8>) -> bool {
    aes128_encrypt(s, ctr_block(2))[0] & 1u8 == 1u8
}

/// Right bit of the expansion of `s`.
pub open spec fn expand_bit_right(s: Seq<u8>) -> bool {
    aes128_encrypt(s, ctr_block(2))[0] & 2u8 == 2u8
}

/// The seed that the expansion of `s` gives in direction `dir`
/// (`false` is left).
pub open spec fn expand_seed(s: Seq<u8>, dir: bool) -> Seq<u8> {
    if dir {
        expand_right(s)
    } else {
        expand_left(s)
    }
}

/// The bit that the expansion of `s` gives in direction `dir`.
pub open spec fn expand_bit(s: Seq<u8>, dir: bool) -> bool {
    if dir {
        expand_bit_right(s)
    } else {
        expand_bit_left(s)
    }
}

/// The bytes from which the word of `convert` is made.
pub open spec fn convert_block(s: Seq<u8>) -> Seq<u8> {
    aes_block(s, ctr_block(4))
}

/// The seed that `convert` gives.
pub open spec fn convert_seed(s: Seq<u8>) -> Seq<u8> {
    aes_block(s, ctr_block(3))
}

/// The counter block for `c`.
fn counter_block(c: u64) -> (out: [u8; 16])
    ensures
        out@ == ctr_block(c),
{
    let mut out = [0u8; 16];
    let mut i: u64 = 0;
    while i < 8
        invariant
            i <= 8,
            out@.len() == 16,
            forall|j: int| 0 <= j < i ==> out@[j] == (c >> ((8 * j) as u64)) as u8,
            forall|j: int| i <= j < 16 ==> out@[j] == 0u8,
        decreases 8 - i,
    {
        out[i as usize] = (c >> (8 * i)) as u8;
        i = i + 1;
    }
    assert(out@ =~= ctr_block(c));
    out
}

/// Types that a block of 16 bytes of PRG output can be turned into.
pub trait FromRng: Sized {
    /// The value that `from_block` makes of `block`.
    spec fn from_block_spec(block: Seq<u8>) -> Self;

    fn from_block(block: &[u8; 16]) -> (r: Self)
        ensures
            r == Self::from_block_spec(block@),
    ;

    /// Replaces `self` by a value made from 16 fresh random bytes.
    fn randomize(&mut self)
        ensures
            exists|b: Seq<u8>| b.len() == 16 && *final(self) == #[trigger] Self::from_block_spec(b),
    {
        let b = random_block();
        *self = Self::from_block(&b);
        assert(*self == Self::from_block_spec(b@));
    }
}

/// A bit is the lowest bit of the first byte.
impl FromRng for bool {
    open spec fn from_block_spec(block: Seq<u8>) -> bool {
        block[0] & 1u8 == 1u8
    }

    fn from_block(block: &[u8; 16]) -> (r: bool) {
        block[0] & 1u8 == 1u8
    }
}

impl PrgSeed {
    /// The seed whose bytes are all zero.
    pub fn zero() -> (r: PrgSeed)
        ensures
            r.key@ == Seq::new(16, |i: int| 0u8),
    {
        let r = PrgSeed { key: [0u8; 16] };
        assert(r.key@ =~= Seq::new(16, |i: int| 0u8));
        r
    }

    /// The seed whose first byte is one and whose other bytes are zero.
    pub fn one() -> (r: PrgSeed)
        ensures
            r.key@ == Seq::new(16, |i: int| if i == 0 { 1u8 } else { 0u8 }),
    {
        let mut key = [0u8; 16];
        key[0] = 1u8;
        let r = PrgSeed { key };
        assert(r.key@ =~= Seq::new(16, |i: int| if i == 0 { 1u8 } else { 0u8 }));
        r
    }

    /// A seed of 16 fresh random bytes.
    pub fn random() -> (r: PrgSeed) {
        PrgSeed { key: random_block() }
    }

    /// Expands the seed into two seeds and two bits.
    pub fn expand(&self) -> (r: PrgOutput)
        ensures
            r.seeds.0.key@ == expand_left(self.key@),
            r.seeds.1.key@ == expand_right(self.key@),
            r.bits.0 == expand_bit_left(self.key@),
            r.bits.1 == expand_bit_right(self.key@),
    {
        let left = encrypt(&self.key, &counter_block(0));
        let right = encrypt(&self.key, &counter_block(1));
        let bits = encrypt(&self.key, &counter_block(2));
        PrgOutput {
            bits: (bits[0] & 1u8 == 1u8, bits[0] & 2u8 == 2u8),
            seeds: (PrgSeed { key: left }, PrgSeed { key: right }),
        }
    }

    /// Derives a fresh seed and a group element from the seed.
    pub fn convert<T: FromRng>(&self) -> (r: ConvertOutput<T>)
        ensures
            r.seed.key@ == convert_seed(self.key@),
            r.word == T::from_block_spec(convert_block(self.key@)),
    {
        let seed = encrypt(&self.key, &counter_block(3));
        let word_block = encrypt(&self.key, &counter_block(4));
        ConvertOutput { seed: PrgSeed { key: seed }, word: T::from_block(&word_block) }
    }

    /// Byte-wise exclusive or of two seeds.
    pub fn xor(&self, other: &PrgSeed) -> (r: PrgSeed)
        ensures
            r.key@ == seq_xor(self.key@, other.key@),
    {
        let mut key = [0u8; 16];
        let mut i: usize = 0;
        while i < 16
            invariant
                i <= 16,
                key@.len() == 16,
                forall|j: int| 0 <= j < i ==> key@[j] == self.key@[j] ^ other.key@[j],
            decreases 16 - i,
        {
            key[i] = self.key[i] ^ other.key[i];
            i = i + 1;
        }
        assert(key@ =~= seq_xor(self.key@, other.key@));
        PrgSeed { key }
    }
}

/// A stream of pseudo-random bits: AES-128 in counter mode under a key.
pub struct FixedKeyPrgStream {
    key: [u8; 16],
    pos: u64,
}

impl FixedKeyPrgStream {
    /// The key of the stream.
    pub closed spec fn stream_key(&self) -> Seq<u8> {
        self.key@
    }

    /// How many bits of the stream have been handed out.
    pub closed spec fn position(&self) -> nat {
        self.pos as nat
    }

    /// A stream under the all-zero key, at its start.
    pub fn new() -> (r: FixedKeyPrgStream)
        ensures
            r.stream_key() == Seq::new(16, |i: int| 0u8),
            r.position() == 0,
    {
        let r = FixedKeyPrgStream { key: [0u8; 16], pos: 0 };
        assert(r.key@ =~= Seq::new(16, |i: int| 0u8));
        r
    }

    /// Restarts the stream under `key`.
    pub fn set_key(&mut self, key: &[u8; 16])
        ensures
            final(self).stream_key() == key@,
            final(self).position() == 0,
    {
        self.key = *key;
        self.pos = 0;
    }

    /// The next `n` bits of the stream.
    pub fn next_bits(&mut self, n: usize) -> (out: Vec<bool>)
        requires
            old(self).position() + n < u64::MAX,
        ensures
            out@.len() == n,
            forall|k: int|
                0 <= k < n ==> out@[k] == stream_bit(old(self).stream_key(), (old(self).position() + k) as nat),
            final(self).stream_key() == old(self).stream_key(),
            final(self).position() == old(self).position() + n,
    {
        let mut out: Vec<bool> = Vec::new();
        let start = self.pos;
        let mut block = encrypt(&self.key, &counter_block(start / 128));
        let mut k: usize = 0;
        while k < n
            invariant
                k <= n,
                start + n < u64::MAX,
                self.key == old(self).key,
                self.pos == start + k,
                start == old(self).pos,
                out@.len() == k,
                self.pos % 128 != 0 || k == 0 ==> block@ == aes128_encrypt(
                    self.key@,
                    ctr_block((self.pos / 128) as u64),
                ),
                forall|j: int| 0 <= j < k ==> out@[j] == stream_bit(self.key@, (start + j) as nat),
            decreases n - k,
        {
            if self.pos % 128 == 0 {
                block = encrypt(&self.key, &counter_block(self.pos / 128));
            }
            let byte = block[((self.pos % 128) / 8) as usize];
            let bit = (byte >> ((self.pos % 8) as u8)) & 1u8 == 1u8;
            out.push(bit);
            self.pos = self.pos + 1;
            k = k + 1;
        }
        out
    }
}

} // verus!
