//! The generator against the library that it draws from.
use rand::{Rng, RngCore, SeedableRng};
use rand_chacha::ChaCha12Rng;
use simulife::rng::SimRng;

#[test]
fn words_are_those_of_the_stream() {
    let mut ours = SimRng::seed_from_u64(42);
    let mut theirs = ChaCha12Rng::seed_from_u64(42);
    assert_eq!(ours.get_seed(), theirs.get_seed());
    for _ in 0..300 {
        assert_eq!(ours.next_u32(), theirs.next_u32());
        assert_eq!(ours.get_word_pos(), theirs.get_word_pos());
    }
}

#[test]
fn draws_below_a_bound_are_those_of_the_stream() {
    let mut ours = SimRng::seed_from_u64(7);
    let mut theirs = ChaCha12Rng::seed_from_u64(7);
    for _ in 0..300 {
        assert_eq!(ours.below(6), theirs.gen_range(0..6u8));
        assert_eq!(ours.next_u32(), theirs.next_u32());
        assert_eq!(ours.get_word_pos(), theirs.get_word_pos());
    }
}

#[test]
fn a_saved_generator_goes_on_where_it_was() {
    let mut a = SimRng::seed_from_u64(1);
    for _ in 0..100 {
        a.next_u32();
    }
    let mut b = SimRng::restore(a.get_seed(), a.get_word_pos());
    let mut c = a.clone();
    for _ in 0..100 {
        let word = a.next_u32();
        assert_eq!(word, b.next_u32());
        assert_eq!(word, c.next_u32());
    }
    let far = SimRng::restore([1; 32], u128::MAX);
    assert_eq!(far.get_word_pos(), u128::MAX % (1 << 68));
}
