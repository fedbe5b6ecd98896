//! Reconciliation: which sources keep running, which are started and which
//! are cancelled when the application declares what it wants now.
//!
//! A source is known by the identity of its recipe alone. The tracker holds
//! one record for every identity that is running, and none for any other. An
//! identity goes round these states:
//!
//! - Absent to starting: a cycle finds it wanted and without a record. It
//!   gets its record, and its recipe is handed out in [`Update::started`] for
//!   the application to spawn. From then on it counts as running.
//! - Running, unchanged: a cycle finds it wanted and with a record. It is
//!   left alone, neither started again nor cancelled, however the rest of the
//!   subscription has changed.
//! - Running to cancelled: a cycle finds it no longer wanted. Its record is
//!   dropped, and it is handed out in [`Update::cancelled`] for the
//!   application to abort. It is absent afterwards.
//! - Running to completed: its stream ends by itself, and the application
//!   says so with [`Tracker::complete`]. Its record is dropped, and it is
//!   absent afterwards. If it is still wanted, the next cycle starts it anew.
//!
//! Identities can collide. Where two recipes of one subscription have the
//! same identity, the first one is started and the later one is dropped; a
//! recipe whose identity is already running is dropped in favour of the
//! running source.

use crate::subscription::{identities, identity, identity_of, Recipe, Subscription};
use vstd::prelude::*;
use vstd::seq_lib::{
    lemma_no_dup_in_concat, lemma_seq_concat_contains_all_elements, lemma_seq_contains_after_push,
};

verus! {

/// The running identities that stay running: those that are still desired,
/// in the order in which they were started.
pub open spec fn kept(running: Seq<u64>, desired: Seq<u64>) -> Seq<u64> {
    running.filter(|id: u64| desired.contains(id))
}

/// The running identities that are cancelled: those that are no longer
/// desired, in the order in which they were started.
pub open spec fn cancelled(running: Seq<u64>, desired: Seq<u64>) -> Seq<u64> {
    running.filter(|id: u64| !desired.contains(id))
}

/// Whether the desired identity at position `at` belongs to a source that has
/// to be started: it is not running, and no earlier position desires it.
pub open spec fn is_new(running: Seq<u64>, desired: Seq<u64>, at: int) -> bool {
    !running.contains(desired[at]) && !desired.take(at).contains(desired[at])
}

/// The recipes that are started, each with its identity: those at the
/// positions that are new, in the order of the subscription.
pub open spec fn started<R: Recipe>(running: Seq<u64>, recipes: Seq<R>) -> Seq<(u64, R)>
    decreases recipes.len(),
{
    if recipes.len() == 0 {
        Seq::empty()
    } else {
        let before = started(running, recipes.drop_last());
        if is_new(running, identities(recipes), recipes.len() - 1) {
            before.push((identity_of(recipes.last()), recipes.last()))
        } else {
            before
        }
    }
}

/// The identities of the recipes that are started, in order.
pub open spec fn started_identities<R: Recipe>(running: Seq<u64>, recipes: Seq<R>) -> Seq<u64> {
    started(running, recipes).map_values(|start: (u64, R)| start.0)
}

/// The identities that are running after a cycle: those kept, then those
/// started.
pub open spec fn reconciled<R: Recipe>(running: Seq<u64>, recipes: Seq<R>) -> Seq<u64> {
    kept(running, identities(recipes)) + started_identities(running, recipes)
}

/// The test that every identity but `id` passes.
pub open spec fn differs_from(id: u64) -> spec_fn(u64) -> bool {
    |other: u64| other != id
}

/// The running identities without `id`, in the same order.
pub open spec fn without(running: Seq<u64>, id: u64) -> Seq<u64> {
    running.filter(differs_from(id))
}

/// What the application has to do after a cycle.
pub struct Update<R> {
    /// The recipes whose streams are to be spawned, each with its identity.
    pub started: Vec<(u64, R)>,
    /// The identities whose streams are to be aborted.
    pub cancelled: Vec<u64>,
}

/// The record of what is running.
pub struct Tracker {
    running: Vec<u64>,
}

impl View for Tracker {
    type V = Seq<u64>;

    /// The identities of the running sources, in the order in which they were
    /// started.
    closed spec fn view(&self) -> Seq<u64> {
        self.running@
    }
}

fn contains(list: &Vec<u64>, id: u64) -> (found: bool)
    ensures
        found == list@.contains(id),
{
    let mut i: usize = 0;
    while i < list.len()
        invariant
            i <= list.len(),
            forall|j: int| 0 <= j < i ==> list@[j] != id,
        decreases list.len() - i,
    {
        if list[i] == id {
            return true;
        }
        i += 1;
    }
    false
}

/// A sequence without duplicates stays so when something it does not hold
/// is added at its end.
proof fn lemma_push_distinct(list: Seq<u64>, id: u64)
    requires
        list.no_duplicates(),
        !list.contains(id),
    ensures
        list.push(id).no_duplicates(),
{
    assert forall|i: int, j: int|
        0 <= i < list.len() + 1 && 0 <= j < list.len() + 1 && i != j implies list.push(id)[i]
        != list.push(id)[j] by {}
}

/// A filter keeps a sequence free of duplicates, and holds exactly the
/// elements of the sequence that pass it.
proof fn lemma_filter_distinct(list: Seq<u64>, pred: spec_fn(u64) -> bool)
    requires
        list.no_duplicates(),
    ensures
        list.filter(pred).no_duplicates(),
        forall|id: u64| #[trigger] list.filter(pred).contains(id) <==> list.contains(id) && pred(id),
    decreases list.len(),
{
    if list.len() > 0 {
        let front = list.drop_last();
        let last = list.last();
        assert(list =~= front.push(last));
        lemma_filter_distinct(front, pred);
        front.lemma_filter_push(last, pred);
        assert forall|id: u64| #[trigger]
            list.filter(pred).contains(id) <==> list.contains(id) && pred(id) by {
            lemma_seq_contains_after_push(front.filter(pred), last, id);
        }
        if pred(last) {
            lemma_push_distinct(front.filter(pred), last);
        }
    }
}

/// Leaving an identity out keeps a sequence free of duplicates, drops that
/// identity and keeps every other one.
proof fn lemma_without(list: Seq<u64>, id: u64)
    requires
        list.no_duplicates(),
    ensures
        without(list, id).no_duplicates(),
        forall|other: u64| #[trigger]
            without(list, id).contains(other) <==> list.contains(other) && other != id,
{
    lemma_filter_distinct(list, differs_from(id));
}

proof fn lemma_without_push(list: Seq<u64>, last: u64, id: u64)
    ensures
        without(list.push(last), id) == if last != id {
            without(list, id).push(last)
        } else {
            without(list, id)
        },
{
    list.lemma_filter_push(last, differs_from(id));
}

/// What is started is new: no identity is started twice, and an identity is
/// started exactly if it is desired and not running. Each started recipe is
/// one of the subscription and comes with its own identity.
pub proof fn lemma_started_is_new<R: Recipe>(running: Seq<u64>, recipes: Seq<R>)
    ensures
        started_identities(running, recipes).no_duplicates(),
        forall|id: u64| #[trigger]
            started_identities(running, recipes).contains(id) <==> identities(recipes).contains(id)
                && !running.contains(id),
        forall|i: int|
            0 <= i < started(running, recipes).len() ==> (#[trigger] started(running, recipes)[i]).0
                == identity_of(started(running, recipes)[i].1) && recipes.contains(
                started(running, recipes)[i].1,
            ),
    decreases recipes.len(),
{
    let ids = started_identities(running, recipes);
    let desired = identities(recipes);
    if recipes.len() > 0 {
        let front = recipes.drop_last();
        let last = identity_of(recipes.last());
        let front_ids = started_identities(running, front);
        lemma_started_is_new(running, front);
        assert(desired =~= identities(front).push(last));
        assert(desired.take(recipes.len() - 1) =~= identities(front));
        if is_new(running, desired, recipes.len() - 1) {
            assert(ids =~= front_ids.push(last));
            lemma_push_distinct(front_ids, last);
        }
        assert forall|id: u64| #[trigger]
            ids.contains(id) <==> desired.contains(id) && !running.contains(id) by {
            lemma_seq_contains_after_push(front_ids, last, id);
            assert(front_ids.contains(id) <==> identities(front).contains(id) && !running.contains(
                id,
            ));
        }
        assert forall|i: int| 0 <= i < started(running, recipes).len() implies (#[trigger] started(
            running,
            recipes,
        )[i]).0 == identity_of(started(running, recipes)[i].1) && recipes.contains(
            started(running, recipes)[i].1,
        ) by {}
    }
}

/// After a cycle exactly the desired identities are running, each once.
pub proof fn lemma_reconciled_is_desired<R: Recipe>(running: Seq<u64>, recipes: Seq<R>)
    requires
        running.no_duplicates(),
    ensures
        reconciled(running, recipes).no_duplicates(),
        forall|id: u64| #[trigger]
            reconciled(running, recipes).contains(id) <==> identities(recipes).contains(id),
{
    let desired = identities(recipes);
    let stay = kept(running, desired);
    let fresh = started_identities(running, recipes);
    lemma_filter_distinct(running, |id: u64| desired.contains(id));
    lemma_started_is_new(running, recipes);
    assert forall|i: int, j: int| 0 <= i < stay.len() && 0 <= j < fresh.len() implies stay[i]
        != fresh[j] by {
        assert(stay.contains(stay[i]));
        assert(fresh.contains(fresh[j]));
    }
    lemma_no_dup_in_concat(stay, fresh);
    assert forall|id: u64| #[trigger] (stay + fresh).contains(id) <==> desired.contains(id) by {
        lemma_seq_concat_contains_all_elements(stay, fresh, id);
    }
}

/// A recipe of a subscription has its identity among the desired ones.
proof fn lemma_identity_is_desired<R: Recipe>(recipes: Seq<R>, recipe: R)
    requires
        recipes.contains(recipe),
    ensures
        identities(recipes).contains(identity_of(recipe)),
{
    let at = choose|at: int| 0 <= at < recipes.len() && recipes[at] == recipe;
    assert(identities(recipes)[at] == identity_of(recipe));
}

/// A source keeps running while it stays desired. Let a recipe be desired in
/// one cycle and a recipe of the same kind and configuration, built anew, in
/// the next. Then its source runs after the first cycle, and the second cycle
/// neither starts nor cancels it: the same source runs on, whatever else the
/// two subscriptions hold.
pub proof fn lemma_unchanged_recipe_keeps_running<A: Recipe, B: Recipe>(
    running: Seq<u64>,
    first: Seq<A>,
    second: Seq<B>,
    recipe: A,
    again: B,
)
    requires
        running.no_duplicates(),
        first.contains(recipe),
        second.contains(again),
        recipe.tag() == again.tag(),
        recipe.config() == again.config(),
    ensures
        identity_of(again) == identity_of(recipe),
        reconciled(running, first).contains(identity_of(recipe)),
        !started_identities(reconciled(running, first), second).contains(identity_of(recipe)),
        !cancelled(reconciled(running, first), identities(second)).contains(identity_of(recipe)),
        reconciled(reconciled(running, first), second).contains(identity_of(recipe)),
{
    let id = identity_of(recipe);
    let between = reconciled(running, first);
    let desired = identities(second);
    lemma_identity_is_desired(first, recipe);
    lemma_identity_is_desired(second, again);
    lemma_reconciled_is_desired(running, first);
    lemma_reconciled_is_desired(between, second);
    lemma_started_is_new(between, second);
}

/// A source that is no longer desired is cancelled. Let an identity be
/// desired in one cycle and not in the next. Then its source runs after the
/// first cycle; the second cycle cancels it, once, and it is not running
/// afterwards.
pub proof fn lemma_removed_recipe_is_cancelled<A: Recipe, B: Recipe>(
    running: Seq<u64>,
    first: Seq<A>,
    second: Seq<B>,
    id: u64,
)
    requires
        running.no_duplicates(),
        identities(first).contains(id),
        !identities(second).contains(id),
    ensures
        reconciled(running, first).contains(id),
        cancelled(reconciled(running, first), identities(second)).contains(id),
        cancelled(reconciled(running, first), identities(second)).no_duplicates(),
        !reconciled(reconciled(running, first), second).contains(id),
{
    let between = reconciled(running, first);
    let desired = identities(second);
    lemma_reconciled_is_desired(running, first);
    lemma_reconciled_is_desired(between, second);
    lemma_filter_distinct(between, |id: u64| !desired.contains(id));
}

/// What a cycle does with one identity. Absent and desired, it is started
/// and runs. Running and desired, it runs on, neither started nor cancelled.
/// Running and not desired, it is cancelled and absent. Absent and not
/// desired, it stays absent and nothing is done.
pub proof fn lemma_cycle_moves<R: Recipe>(running: Seq<u64>, recipes: Seq<R>, id: u64)
    requires
        running.no_duplicates(),
    ensures
        started_identities(running, recipes).contains(id) <==> !running.contains(id) && identities(
            recipes,
        ).contains(id),
        kept(running, identities(recipes)).contains(id) <==> running.contains(id) && identities(
            recipes,
        ).contains(id),
        cancelled(running, identities(recipes)).contains(id) <==> running.contains(id)
            && !identities(recipes).contains(id),
        reconciled(running, recipes).contains(id) <==> identities(recipes).contains(id),
{
    let desired = identities(recipes);
    lemma_started_is_new(running, recipes);
    lemma_reconciled_is_desired(running, recipes);
    lemma_filter_distinct(running, |id: u64| desired.contains(id));
    lemma_filter_distinct(running, |id: u64| !desired.contains(id));
}

/// The order in which recipes are desired decides nothing about what runs.
/// Two subscriptions that desire the same identities start the same sources,
/// cancel the same sources and leave the same sources running.
pub proof fn lemma_order_does_not_matter<A: Recipe, B: Recipe>(
    running: Seq<u64>,
    one: Seq<A>,
    other: Seq<B>,
    id: u64,
)
    requires
        running.no_duplicates(),
        forall|id: u64| identities(one).contains(id) <==> identities(other).contains(id),
    ensures
        started_identities(running, one).contains(id) <==> started_identities(
            running,
            other,
        ).contains(id),
        cancelled(running, identities(one)).contains(id) <==> cancelled(
            running,
            identities(other),
        ).contains(id),
        reconciled(running, one).contains(id) <==> reconciled(running, other).contains(id),
{
    lemma_cycle_moves(running, one, id);
    lemma_cycle_moves(running, other, id);
}

/// A source whose stream has ended by itself is started anew by the next
/// cycle that desires it.
pub proof fn lemma_completed_recipe_starts_anew<R: Recipe>(
    running: Seq<u64>,
    recipes: Seq<R>,
    id: u64,
)
    requires
        running.no_duplicates(),
        identities(recipes).contains(id),
    ensures
        !without(running, id).contains(id),
        started_identities(without(running, id), recipes).contains(id),
{
    lemma_started_is_new(without(running, id), recipes);
}

impl Tracker {
    #[verifier::type_invariant]
    spec fn inv(self) -> bool {
        self.running@.no_duplicates()
    }

    /// A tracker with nothing running.
    pub fn new() -> (tracker: Tracker)
        ensures
            tracker@ == Seq::<u64>::empty(),
    {
        Tracker { running: Vec::new() }
    }

    /// Runs one cycle: takes what the application wants now, and decides
    /// what is started and what is cancelled. Sources that are running and
    /// still wanted are left alone.
    pub fn update<R: Recipe>(&mut self, subscription: Subscription<R>) -> (update: Update<R>)
        ensures
            update.started@ == started(old(self)@, subscription@),
            update.cancelled@ == cancelled(old(self)@, identities(subscription@)),
            final(self)@ == reconciled(old(self)@, subscription@),
            final(self)@.no_duplicates(),
            forall|id: u64| #[trigger]
                final(self)@.contains(id) <==> identities(subscription@).contains(id),
    {
        proof {
            use_type_invariant(&*self);
        }
        let ghost running = self@;
        let ghost wanted = subscription@;
        let recipes = subscription.into_recipes();
        let mut desired: Vec<u64> = Vec::new();
        let mut to_start: Vec<(u64, R)> = Vec::new();
        for recipe in it: recipes.into_iter()
            invariant
                it.seq() == wanted,
                self.running@ == running,
                desired@ == identities(wanted.take(it.index())),
                to_start@ == started(running, wanted.take(it.index())),
        {
            let ghost at = it.index();
            let id = identity(&recipe);
            let fresh = !contains(&self.running, id) && !contains(&desired, id);
            proof {
                let now = wanted.take(at + 1);
                assert(now.drop_last() =~= wanted.take(at));
                assert(identities(now).take(at) =~= desired@);
            }
            desired.push(id);
            if fresh {
                to_start.push((id, recipe));
            }
        }
        proof {
            assert(wanted.take(wanted.len() as int) =~= wanted);
            assert(running.take(0).filter(|id: u64| desired@.contains(id)) =~= Seq::<u64>::empty());
            assert(running.take(0).filter(|id: u64| !desired@.contains(id)) =~= Seq::<u64>::empty());
        }
        let mut stay: Vec<u64> = Vec::new();
        let mut stop: Vec<u64> = Vec::new();
        let mut i: usize = 0;
        while i < self.running.len()
            invariant
                i <= running.len(),
                self.running@ == running,
                stay@ == kept(running.take(i as int), desired@),
                stop@ == cancelled(running.take(i as int), desired@),
            decreases running.len() - i,
        {
            let id = self.running[i];
            proof {
                let seen = running.take(i as int);
                assert(running.take(i + 1) =~= seen.push(id));
                seen.lemma_filter_push(id, |id: u64| desired@.contains(id));
                seen.lemma_filter_push(id, |id: u64| !desired@.contains(id));
            }
            if contains(&desired, id) {
                stay.push(id);
            } else {
                stop.push(id);
            }
            i += 1;
        }
        proof {
            assert(running.take(running.len() as int) =~= running);
        }
        let ghost fresh = started_identities(running, wanted);
        let mut k: usize = 0;
        while k < to_start.len()
            invariant
                k <= to_start.len(),
                to_start@ == started(running, wanted),
                fresh == started_identities(running, wanted),
                stay@ == kept(running, desired@) + fresh.take(k as int),
            decreases to_start.len() - k,
        {
            let id = to_start[k].0;
            stay.push(id);
            k += 1;
        }
        proof {
            assert(fresh.take(fresh.len() as int) =~= fresh);
            lemma_reconciled_is_desired(running, wanted);
        }
        self.running = stay;
        Update { started: to_start, cancelled: stop }
    }

    /// Takes note that the stream of the source with identity `id` has ended
    /// by itself, and returns whether that source was running.
    pub fn complete(&mut self, id: u64) -> (was_running: bool)
        ensures
            was_running == old(self)@.contains(id),
            final(self)@ == without(old(self)@, id),
            final(self)@.no_duplicates(),
            !final(self)@.contains(id),
    {
        proof {
            use_type_invariant(&*self);
        }
        let ghost running = self@;
        let was_running = contains(&self.running, id);
        let mut rest: Vec<u64> = Vec::new();
        let mut i: usize = 0;
        proof {
            assert(without(running.take(0), id) =~= Seq::<u64>::empty());
        }
        while i < self.running.len()
            invariant
                i <= running.len(),
                self.running@ == running,
                rest@ == without(running.take(i as int), id),
            decreases running.len() - i,
        {
            let other = self.running[i];
            proof {
                assert(running.take(i + 1) =~= running.take(i as int).push(other));
                lemma_without_push(running.take(i as int), other, id);
            }
            if other != id {
                rest.push(other);
            }
            i += 1;
        }
        proof {
            assert(running.take(running.len() as int) =~= running);
            lemma_without(running, id);
        }
        self.running = rest;
        was_running
    }

    /// Whether the source with identity `id` is running.
    pub fn is_running(&self, id: u64) -> (running: bool)
        ensures
            running == self@.contains(id),
    {
        contains(&self.running, id)
    }
}

} // verus!
