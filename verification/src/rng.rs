//! The simulation's random numbers: a seeded ChaCha stream.
//!
//! A generator is a seed and a position in the stream of 32-bit words that the
//! seed determines. Equal generators produce equal numbers, and a generator can
//! be saved as its seed and position and restored from them.
use vstd::prelude::*;
use rand::{Rng, SeedableRng};
use rand_chacha::ChaCha12Rng;

verus! {

/// Words in a stream before it repeats.
pub const STREAM_PERIOD: u128 = 0x10_0000_0000_0000_0000;

/// The 32-byte seed that stands for a 64-bit seed.
pub uninterp spec fn expanded_seed(seed: u64) -> Seq<u8>;

/// The word at a position of the stream of a seed.
pub uninterp spec fn stream_word(seed: Seq<u8>, pos: int) -> u32;

/// A draw from `0..high` by the generator of a seed at a position, and the
/// position after it.
pub uninterp spec fn range_draw(seed: Seq<u8>, pos: int, high: u8) -> (u8, int);

/// `ChaCha12Rng::seed_from_u64`, read back with `get_seed`: the 64-bit seed
/// determines the 32 seed bytes.
#[verifier::external_body]
fn expand_seed(seed: u64) -> (bytes: [u8; 32])
    ensures
        bytes@ == expanded_seed(seed),
{
    ChaCha12Rng::seed_from_u64(seed).get_seed()
}

/// `Rng::fill` on a `ChaCha12Rng` that `set_word_pos` has put at a multiple of 64:
/// the 64 consecutive words of the seed's stream from that position on.
#[verifier::external_body]
fn stream_words(seed: [u8; 32], pos: u128) -> (words: [u32; 64])
    requires
        pos < STREAM_PERIOD,
        pos % 64 == 0,
    ensures
        forall|k: int| 0 <= k < 64 ==> #[trigger] words@[k] == stream_word(seed@, pos + k),
{
    let mut rng = ChaCha12Rng::from_seed(seed);
    rng.set_word_pos(pos);
    let mut words = [0u32; 64];
    rng.fill(&mut words[..]);
    words
}

/// `Rng::gen_range` on a `ChaCha12Rng` at a word position: a value below `high`,
/// with the position that `get_word_pos` reports afterwards.
#[verifier::external_body]
fn draw_below(seed: [u8; 32], pos: u128, high: u8) -> (drawn: (u8, u128))
    requires
        pos < STREAM_PERIOD,
        0 < high,
    ensures
        drawn.0 == range_draw(seed@, pos as int, high).0,
        drawn.1 == range_draw(seed@, pos as int, high).1,
        drawn.0 < high,
        drawn.1 < STREAM_PERIOD,
{
    let mut rng = ChaCha12Rng::from_seed(seed);
    rng.set_word_pos(pos);
    let value = rng.gen_range(0..high);
    (value, rng.get_word_pos())
}

/// What determines all future draws of a generator.
#[verifier::ext_equal]
pub struct RngView {
    pub seed: Seq<u8>,
    pub pos: int,
}

impl RngView {
    /// The generator `k` words further on.
    pub open spec fn ahead(self, k: int) -> RngView {
        RngView { seed: self.seed, pos: (self.pos + k) % (STREAM_PERIOD as int) }
    }

    /// The word that is drawn after `k` others.
    pub open spec fn word(self, k: int) -> u32 {
        stream_word(self.seed, self.ahead(k).pos)
    }

    /// A position inside the stream.
    pub open spec fn valid(self) -> bool {
        0 <= self.pos < STREAM_PERIOD && self.seed.len() == 32
    }

    /// The value of a draw from `0..high`.
    pub open spec fn below(self, high: u8) -> u8 {
        range_draw(self.seed, self.pos, high).0
    }

    /// The generator after a draw from `0..high`.
    pub open spec fn after_below(self, high: u8) -> RngView {
        RngView { seed: self.seed, pos: range_draw(self.seed, self.pos, high).1 }
    }
}

/// A generator seeded with a 64-bit seed.
pub open spec fn seeded(seed: u64) -> RngView {
    RngView { seed: expanded_seed(seed), pos: 0 }
}

/// Words drawn one after another are the words of the stream in order.
pub proof fn lemma_ahead(v: RngView, a: int, b: int)
    requires
        v.valid(),
    ensures
        v.ahead(a).ahead(b) == v.ahead(a + b),
        v.ahead(0) == v,
        v.ahead(a).word(b) == v.word(a + b),
        v.ahead(a).valid(),
{
    vstd::arithmetic::div_mod::lemma_add_mod_noop(v.pos + a, b, STREAM_PERIOD as int);
    vstd::arithmetic::div_mod::lemma_mod_twice(v.pos + a, STREAM_PERIOD as int);
    let p = (v.pos + a) % (STREAM_PERIOD as int);
    assert((p + b) % (STREAM_PERIOD as int) == (v.pos + a + b) % (STREAM_PERIOD as int)) by {
        vstd::arithmetic::div_mod::lemma_add_mod_noop(p, b, STREAM_PERIOD as int);
    }
    vstd::arithmetic::div_mod::lemma_small_mod(v.pos as nat, STREAM_PERIOD as nat);
}

/// A random number generator that can be saved and restored.
pub struct SimRng {
    seed: [u8; 32],
    pos: u128,
    words: [u32; 64],
    words_at: u128,
}

impl View for SimRng {
    type V = RngView;

    closed spec fn view(&self) -> RngView {
        RngView { seed: self.seed@, pos: self.pos as int }
    }
}

impl SimRng {
    #[verifier::type_invariant]
    spec fn wf(self) -> bool {
        &&& self.pos < STREAM_PERIOD
        &&& self.words_at < STREAM_PERIOD
        &&& self.words_at % 64 == 0
        &&& forall|k: int|
            0 <= k < 64 ==> #[trigger] self.words@[k] == stream_word(self.seed@, self.words_at + k)
    }

    /// The generator of a 64-bit seed, at the start of its stream.
    pub fn seed_from_u64(seed: u64) -> (rng: SimRng)
        ensures
            rng@ == seeded(seed),
    {
        SimRng::restore(expand_seed(seed), 0)
    }

    /// The generator of a seed at a position; positions are read modulo the period
    /// of the stream.
    pub fn restore(seed: [u8; 32], word_pos: u128) -> (rng: SimRng)
        ensures
            rng@ == (RngView { seed: seed@, pos: word_pos as int % (STREAM_PERIOD as int) }),
    {
        let pos: u128 = word_pos % STREAM_PERIOD;
        let words_at: u128 = pos - pos % 64;
        let words = stream_words(seed, words_at);
        SimRng { seed, pos, words, words_at }
    }

    /// The seed of the stream.
    pub fn get_seed(&self) -> (seed: [u8; 32])
        ensures
            seed@ == self@.seed,
    {
        self.seed
    }

    /// The position in the stream.
    pub fn get_word_pos(&self) -> (pos: u128)
        ensures
            pos == self@.pos,
            self@.valid(),
    {
        proof {
            use_type_invariant(self);
        }
        self.pos
    }

    /// The next word of the stream.
    pub fn next_u32(&mut self) -> (word: u32)
        ensures
            old(self)@.valid(),
            word == old(self)@.word(0),
            final(self)@ == old(self)@.ahead(1),
    {
        proof {
            use_type_invariant(&*self);
            lemma_ahead(self@, 0, 0);
        }
        let base: u128 = self.pos - self.pos % 64;
        if base != self.words_at {
            let words = stream_words(self.seed, base);
            *self = SimRng { seed: self.seed, pos: self.pos, words, words_at: base };
        }
        proof {
            use_type_invariant(&*self);
        }
        let k: usize = (self.pos % 64) as usize;
        let word: u32 = self.words[k];
        let next: u128 = (self.pos + 1) % STREAM_PERIOD;
        self.pos = next;
        word
    }

    /// A draw from `0..high`.
    pub fn below(&mut self, high: u8) -> (value: u8)
        requires
            0 < high,
        ensures
            old(self)@.valid(),
            value == old(self)@.below(high),
            final(self)@ == old(self)@.after_below(high),
            value < high,
    {
        proof {
            use_type_invariant(&*self);
        }
        let (value, pos) = draw_below(self.seed, self.pos, high);
        self.pos = pos;
        value
    }
}

impl Clone for SimRng {
    fn clone(&self) -> (copy: Self)
        ensures
            copy@ == self@,
    {
        proof {
            use_type_invariant(self);
        }
        SimRng { seed: self.seed, pos: self.pos, words: self.words, words_at: self.words_at }
    }
}

} // verus!
