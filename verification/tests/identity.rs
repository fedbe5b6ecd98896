use iced_futures::hasher::{Hasher, MULTIPLIER, MULTIPLIER_INVERSE, SEED};
use iced_futures::subscription::{from_recipe, identity, Recipe, Subscription};
use iced_futures::time::{every, Duration, Every, EVERY_TAG};

fn digest(words: &[u64]) -> u64 {
    let mut hasher = Hasher::new();
    for word in words {
        hasher.write_u64(*word);
    }
    hasher.finish()
}

#[test]
fn empty_hasher_finishes_with_the_seed() {
    assert_eq!(Hasher::new().finish(), SEED);
    assert_eq!(Hasher::new().finish(), 0xcbf2_9ce4_8422_2325);
}

#[test]
fn digest_of_one_word() {
    assert_eq!(digest(&[1]), 0xeca5_c2a0_5f95_6318);
}

#[test]
fn digest_of_three_words() {
    assert_eq!(digest(&[1, 2, 3]), 0xe1c0_7bed_e452_9f2c);
}

#[test]
fn digest_follows_the_mixing_step() {
    let state = SEED;
    let word = 0xdead_beef_u64;
    let expected = (state.rotate_left(5) ^ word).wrapping_mul(MULTIPLIER);
    assert_eq!(digest(&[word]), expected);
}

#[test]
fn digest_depends_on_the_order_of_the_words() {
    assert_ne!(digest(&[1, 2]), digest(&[2, 1]));
}

#[test]
fn multiplier_and_inverse_cancel() {
    assert_eq!(MULTIPLIER.wrapping_mul(MULTIPLIER_INVERSE), 1);
    assert_eq!(MULTIPLIER % 2, 1);
}

#[test]
fn digests_differ_when_one_word_differs() {
    let base = [7u64, 11, 13, 17];
    for at in 0..base.len() {
        for other in [0u64, 1, 12, u64::MAX] {
            if other != base[at] {
                let mut changed = base;
                changed[at] = other;
                assert_ne!(digest(&base), digest(&changed));
            }
        }
    }
}

#[test]
fn identity_of_every_is_the_digest_of_tag_and_duration() {
    let recipe = Every(Duration::from_millis(250));
    assert_eq!(identity(&recipe), digest(&[EVERY_TAG, 0, 250_000_000]));
    assert_eq!(identity(&recipe), 0x1cfe_81d6_8391_73de);
}

#[test]
fn identity_of_every_with_a_long_duration() {
    let recipe = Every(Duration { nanos: (1u128 << 64) + 250_000_000 });
    assert_eq!(identity(&recipe), digest(&[EVERY_TAG, 1, 250_000_000]));
    assert_eq!(identity(&recipe), 0x599e_da24_fc43_c8cf);
}

#[test]
fn same_configuration_same_identity() {
    let first = Every(Duration::from_millis(250));
    let again = Every(Duration { nanos: 250_000_000 });
    assert_eq!(identity(&first), identity(&again));
}

#[test]
fn different_durations_different_identities() {
    let durations = [1u128, 2, 250_000_000, 500_000_000, 1_000_000_000, u64::MAX as u128];
    for a in durations {
        for b in durations {
            let left = identity(&Every(Duration { nanos: a }));
            let right = identity(&Every(Duration { nanos: b }));
            assert_eq!(a == b, left == right);
        }
    }
}

#[test]
fn different_kinds_different_identities() {
    // What a recipe of another kind with the same duration would write.
    let other_kind = [0x4f6e_6365u64, 0, 1_000_000_000];
    assert_ne!(identity(&Every(Duration::from_secs(1))), digest(&other_kind));
    for tag in [0u64, 1, EVERY_TAG - 1, EVERY_TAG + 1, u64::MAX] {
        assert_ne!(digest(&[EVERY_TAG, 0, 5]), digest(&[tag, 0, 5]));
    }
}

#[test]
fn hashing_appends_to_what_was_written() {
    let mut hasher = Hasher::new();
    hasher.write_u64(9);
    Every(Duration::from_secs(2)).hash(&mut hasher);
    assert_eq!(hasher.finish(), digest(&[9, EVERY_TAG, 0, 2_000_000_000]));
}

#[test]
fn from_recipe_holds_the_recipe() {
    let recipes = from_recipe(Every(Duration::from_secs(3))).into_recipes();
    assert_eq!(recipes, vec![Every(Duration::from_secs(3))]);
}

#[test]
fn every_holds_one_recipe_of_that_duration() {
    let recipes = every(Duration::from_millis(250)).into_recipes();
    assert_eq!(recipes, vec![Every(Duration { nanos: 250_000_000 })]);
}

#[test]
fn none_holds_nothing() {
    assert!(Subscription::<Every>::none().into_recipes().is_empty());
}

#[test]
fn batch_concatenates_in_order() {
    let batch = Subscription::batch(vec![
        every(Duration::from_secs(1)),
        Subscription::none(),
        Subscription::batch(vec![every(Duration::from_secs(2)), every(Duration::from_secs(1))]),
        every(Duration::from_secs(3)),
    ]);
    assert_eq!(
        batch.into_recipes(),
        vec![
            Every(Duration::from_secs(1)),
            Every(Duration::from_secs(2)),
            Every(Duration::from_secs(1)),
            Every(Duration::from_secs(3)),
        ]
    );
}

#[test]
fn batch_of_nothing_is_none() {
    assert!(Subscription::<Every>::batch(Vec::new()).into_recipes().is_empty());
}
