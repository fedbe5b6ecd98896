//! The hasher that turns what a recipe writes into its identity.
//!
//! Words are absorbed one at a time. Each step rotates the running state,
//! folds the word in with an exclusive or, and multiplies by an odd constant,
//! so a step is a bijection in the state for a fixed word and in the word for
//! a fixed state.

use vstd::prelude::*;

verus! {

/// The state of a hasher before anything is written.
pub const SEED: u64 = 0xCBF2_9CE4_8422_2325;

/// The odd constant each step multiplies by.
pub const MULTIPLIER: u64 = 0x9E37_79B9_7F4A_7C15;

/// The inverse of [`MULTIPLIER`] modulo 2^64.
pub const MULTIPLIER_INVERSE: u64 = 0xF1DE_83E1_9937_733D;

/// `h` rotated left by five bits.
pub open spec fn rotate(h: u64) -> u64 {
    (h << 5) | (h >> 59)
}

/// The state after absorbing `word` into the state `h`.
pub open spec fn mix(h: u64, word: u64) -> u64 {
    (rotate(h) ^ word).wrapping_mul(MULTIPLIER)
}

/// The digest of a sequence of words: every word absorbed in order, starting
/// from [`SEED`].
pub open spec fn digest(words: Seq<u64>) -> u64
    decreases words.len(),
{
    if words.len() == 0 {
        SEED
    } else {
        mix(digest(words.drop_last()), words.last())
    }
}

proof fn lemma_multiplier_cancels(x: u64)
    by (bit_vector)
    ensures
        x.wrapping_mul(MULTIPLIER).wrapping_mul(MULTIPLIER_INVERSE) == x,
{
}

proof fn lemma_rotate_cancels(h: u64)
    by (bit_vector)
    ensures
        (rotate(h) >> 5) | (rotate(h) << 59) == h,
{
}

proof fn lemma_xor_cancels(x: u64, word: u64)
    by (bit_vector)
    ensures
        (x ^ word) ^ word == x,
        (x ^ word) ^ x == word,
{
}

/// One step keeps two different words apart.
pub proof fn lemma_mix_separates_words(h: u64, a: u64, b: u64)
    requires
        a != b,
    ensures
        mix(h, a) != mix(h, b),
{
    let r = rotate(h);
    lemma_multiplier_cancels(r ^ a);
    lemma_multiplier_cancels(r ^ b);
    lemma_xor_cancels(r, a);
    lemma_xor_cancels(r, b);
}

/// One step keeps two different states apart.
pub proof fn lemma_mix_separates_states(g: u64, h: u64, word: u64)
    requires
        g != h,
    ensures
        mix(g, word) != mix(h, word),
{
    lemma_multiplier_cancels(rotate(g) ^ word);
    lemma_multiplier_cancels(rotate(h) ^ word);
    lemma_xor_cancels(rotate(g), word);
    lemma_xor_cancels(rotate(h), word);
    lemma_rotate_cancels(g);
    lemma_rotate_cancels(h);
}

/// Two sequences of the same length that differ in exactly one word have
/// different digests.
pub proof fn lemma_digest_separates_one_word(a: Seq<u64>, b: Seq<u64>, at: int)
    requires
        a.len() == b.len(),
        0 <= at < a.len(),
        a[at] != b[at],
        forall|i: int| 0 <= i < a.len() && i != at ==> a[i] == b[i],
    ensures
        digest(a) != digest(b),
    decreases a.len(),
{
    if at == a.len() - 1 {
        assert(a.drop_last() =~= b.drop_last());
        lemma_mix_separates_words(digest(a.drop_last()), a.last(), b.last());
    } else {
        lemma_digest_separates_one_word(a.drop_last(), b.drop_last(), at);
        lemma_mix_separates_states(digest(a.drop_last()), digest(b.drop_last()), a.last());
    }
}

/// A streaming hasher over 64-bit words.
pub struct Hasher {
    state: u64,
    written: Ghost<Seq<u64>>,
}

impl View for Hasher {
    type V = Seq<u64>;

    /// The words written so far, oldest first.
    closed spec fn view(&self) -> Seq<u64> {
        self.written@
    }
}

impl Hasher {
    #[verifier::type_invariant]
    spec fn inv(self) -> bool {
        self.state == digest(self.written@)
    }

    /// A hasher into which nothing has been written.
    pub fn new() -> (hasher: Hasher)
        ensures
            hasher@ == Seq::<u64>::empty(),
    {
        Hasher { state: SEED, written: Ghost(Seq::empty()) }
    }

    /// Absorbs one word.
    pub fn write_u64(&mut self, word: u64)
        ensures
            final(self)@ == old(self)@.push(word),
    {
        proof {
            use_type_invariant(&*self);
            assert(self.written@.push(word).drop_last() =~= self.written@);
        }
        let rotated: u64 = (self.state << 5) | (self.state >> 59);
        *self = Hasher {
            state: (rotated ^ word).wrapping_mul(MULTIPLIER),
            written: Ghost(self.written@.push(word)),
        };
    }

    /// The digest of everything written so far.
    pub fn finish(&self) -> (hash: u64)
        ensures
            hash == digest(self@),
    {
        proof {
            use_type_invariant(self);
        }
        self.state
    }
}

} // verus!
