//! Recipes, their identities, and the subscriptions that collect them.

use crate::hasher::{digest, lemma_digest_separates_one_word, Hasher};
use vstd::prelude::*;

verus! {

/// What a recipe of kind `tag` with configuration `config` writes into a
/// hasher: the tag first, then the configuration.
pub open spec fn words(tag: u64, config: Seq<u64>) -> Seq<u64> {
    seq![tag] + config
}

/// A blueprint for one background data source.
///
/// A recipe is described by the kind it belongs to and by the configuration
/// that decides what it produces. Nothing else may enter its hash: two recipes
/// that agree on both are the same source, however often they are rebuilt.
pub trait Recipe: Sized {
    /// The word that tells this kind of recipe from every other kind.
    spec fn tag(&self) -> u64;

    /// The configuration of the recipe, word by word.
    spec fn config(&self) -> Seq<u64>;

    /// Writes the tag of the recipe and then its configuration into `state`.
    fn hash(&self, state: &mut Hasher)
        ensures
            final(state)@ == old(state)@ + words(self.tag(), self.config()),
    ;
}

/// The identity of a recipe: the digest of what it writes into a fresh hasher.
pub open spec fn identity_of<R: Recipe>(recipe: R) -> u64 {
    digest(words(recipe.tag(), recipe.config()))
}

/// The identities of a sequence of recipes, in order.
pub open spec fn identities<R: Recipe>(recipes: Seq<R>) -> Seq<u64> {
    Seq::new(recipes.len(), |i: int| identity_of(recipes[i]))
}

/// Computes the identity of `recipe`.
pub fn identity<R: Recipe>(recipe: &R) -> (id: u64)
    ensures
        id == identity_of(*recipe),
{
    let mut state = Hasher::new();
    recipe.hash(&mut state);
    state.finish()
}

/// Recipes of the same kind with the same configuration have the same
/// identity.
pub proof fn lemma_identity_deterministic<A: Recipe, B: Recipe>(a: A, b: B)
    requires
        a.tag() == b.tag(),
        a.config() == b.config(),
    ensures
        identity_of(a) == identity_of(b),
{
}

/// Recipes that differ in kind or in configuration write different words.
pub proof fn lemma_words_injective(tag_a: u64, config_a: Seq<u64>, tag_b: u64, config_b: Seq<u64>)
    requires
        tag_a != tag_b || config_a != config_b,
    ensures
        words(tag_a, config_a) != words(tag_b, config_b),
{
    let a = words(tag_a, config_a);
    let b = words(tag_b, config_b);
    if a == b {
        assert(a[0] == tag_a && b[0] == tag_b);
        assert(a.subrange(1, a.len() as int) =~= config_a);
        assert(b.subrange(1, b.len() as int) =~= config_b);
    }
}

/// Recipes of different kinds that carry the same configuration have
/// different identities.
pub proof fn lemma_identity_separates_kinds<A: Recipe, B: Recipe>(a: A, b: B)
    requires
        a.tag() != b.tag(),
        a.config() == b.config(),
    ensures
        identity_of(a) != identity_of(b),
{
    lemma_digest_separates_one_word(
        words(a.tag(), a.config()),
        words(b.tag(), b.config()),
        0,
    );
}

/// Recipes of the same kind whose configurations have the same length and
/// differ in exactly one word, the one at `at`, have different identities.
pub proof fn lemma_identity_separates_configurations<A: Recipe, B: Recipe>(a: A, b: B, at: int)
    requires
        a.tag() == b.tag(),
        a.config().len() == b.config().len(),
        0 <= at < a.config().len(),
        a.config()[at] != b.config()[at],
        forall|i: int| 0 <= i < a.config().len() && i != at ==> a.config()[i] == b.config()[i],
    ensures
        identity_of(a) != identity_of(b),
{
    lemma_digest_separates_one_word(
        words(a.tag(), a.config()),
        words(b.tag(), b.config()),
        at + 1,
    );
}

/// Everything an application currently wants running, in the order in which
/// it was declared.
pub struct Subscription<R> {
    recipes: Vec<R>,
}

impl<R> View for Subscription<R> {
    type V = Seq<R>;

    /// The recipes of the subscription, in order.
    closed spec fn view(&self) -> Seq<R> {
        self.recipes@
    }
}

/// The recipes of each subscription, in the order of the subscriptions.
pub open spec fn views<R>(subscriptions: Seq<Subscription<R>>) -> Seq<Seq<R>> {
    Seq::new(subscriptions.len(), |i: int| subscriptions[i]@)
}

impl<R> Subscription<R> {
    /// The subscription that wants nothing.
    pub fn none() -> (subscription: Self)
        ensures
            subscription@ == Seq::<R>::empty(),
    {
        Subscription { recipes: Vec::new() }
    }

    /// The subscription that wants everything the given ones want: their
    /// recipes one after another, in the order given.
    pub fn batch(subscriptions: Vec<Subscription<R>>) -> (subscription: Self)
        ensures
            subscription@ == views(subscriptions@).flatten(),
    {
        let mut subscriptions = subscriptions;
        let ghost all = views(subscriptions@);
        let mut recipes: Vec<R> = Vec::new();
        while subscriptions.len() > 0
            invariant
                views(subscriptions@).flatten() + recipes@ == all.flatten(),
            decreases subscriptions.len(),
        {
            let ghost before = views(subscriptions@);
            let last = subscriptions.pop().unwrap();
            proof {
                assert(views(subscriptions@).push(last@) =~= before);
                views(subscriptions@).lemma_flatten_push(last@);
                assert((views(subscriptions@).flatten() + last@) + recipes@ =~= views(
                    subscriptions@,
                ).flatten() + (last@ + recipes@));
            }
            let mut head = last.recipes;
            head.append(&mut recipes);
            recipes = head;
        }
        Subscription { recipes }
    }

    /// Hands out the recipes, in order.
    pub fn into_recipes(self) -> (recipes: Vec<R>)
        ensures
            recipes@ == self@,
    {
        self.recipes
    }
}

/// The subscription that wants exactly `recipe`.
pub fn from_recipe<R: Recipe>(recipe: R) -> (subscription: Subscription<R>)
    ensures
        subscription@ == seq![recipe],
{
    let mut recipes: Vec<R> = Vec::new();
    recipes.push(recipe);
    Subscription { recipes }
}

} // verus!
