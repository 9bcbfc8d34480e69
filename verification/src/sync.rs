//! The synchronisation planner: one call that takes everything observed
//! upstream and the target collection's current contents, and produces the
//! canonical view, the batched mutations that converge the target toward
//! it, and a report of what the run did.
//!
//! The caller performs the remote reads beforehand and issues the planned
//! batches afterwards; a batch that fails remotely is counted in the report
//! and must not stop the remaining batches.

use vstd::prelude::*;

use crate::apply::MutationBatch;
use crate::apply::batch_keys;
use crate::apply::chunked_for;
use crate::apply::keys_of;
use crate::apply::plan_additions;
use crate::apply::plan_removals;
use crate::canonical::canonicalize;
use crate::canonical::is_canonical_of;
use crate::diff::diff;
use crate::diff::lemma_missing_from_eligible;
use crate::diff::spec_to_add;
use crate::diff::spec_to_remove;
use crate::model::PlayableOccurrence;
use crate::model::key_set;

verus! {

/// What one synchronisation run did: how much was seen, how much was
/// planned, and what failed along the way. The planner fills every count;
/// whoever issues the batches adds each remote write failure to
/// `batches_failed` as it happens.
#[derive(Clone, Copy, Debug, PartialEq, Eq, Structural)]
pub struct SyncReport {
    /// Occurrences gathered across every source collection, duplicates
    /// and identity-less items included.
    pub tracks_aggregated: usize,
    /// Entries of the canonical view: distinct tracks kept, at most the
    /// configured bound.
    pub unique_tracks: usize,
    /// Tracks the plan adds to the target collection.
    pub tracks_to_add: usize,
    /// Tracks the plan removes from the target collection.
    pub tracks_to_remove: usize,
    /// Source collections skipped because their read failed.
    pub collections_failed: usize,
    /// Mutation batches whose remote call failed; the run continues past
    /// each.
    pub batches_failed: usize,
}

/// A full plan for one run: the batched additions and removals to issue
/// against the target collection, and the report so far.
pub struct SyncPlan {
    pub addition_batches: Vec<MutationBatch>,
    pub removal_batches: Vec<MutationBatch>,
    pub report: SyncReport,
}

/// Plans one synchronisation run. The aggregated occurrences are
/// canonicalized to the `top_n` most recent distinct tracks; the diff
/// against the target's current contents yields the tracks to add and
/// remove; both lists are chunked into batches of at most `max_batch` keys
/// against `target_id`. Some canonical view of the aggregate decides every
/// count and every batch, and an already-synced target yields empty plans.
pub fn plan_sync(
    target_id: &str,
    aggregated: Vec<PlayableOccurrence>,
    current_target: Vec<PlayableOccurrence>,
    top_n: usize,
    max_batch: usize,
    collections_failed: usize,
) -> (r: SyncPlan)
    requires
        max_batch >= 1,
    ensures
        r.report.tracks_aggregated as int == aggregated@.len(),
        r.report.collections_failed == collections_failed,
        r.report.batches_failed == 0,
        chunked_for(r.addition_batches@, target_id@, max_batch as int),
        chunked_for(r.removal_batches@, target_id@, max_batch as int),
        exists|c: Seq<PlayableOccurrence>|
            {
                &&& #[trigger] is_canonical_of(c, aggregated@, top_n as int)
                &&& r.report.unique_tracks as int == c.len()
                &&& batch_keys(r.addition_batches@) == keys_of(spec_to_add(c, current_target@))
                &&& batch_keys(r.removal_batches@) == keys_of(spec_to_remove(c, current_target@))
                &&& r.report.tracks_to_add as int == spec_to_add(c, current_target@).len()
                &&& r.report.tracks_to_remove as int == spec_to_remove(c, current_target@).len()
            },
{
    let tracks_aggregated = aggregated.len();
    let canonical = canonicalize(aggregated, top_n);
    let unique_tracks = canonical.len();
    let ghost c = canonical@;
    let ghost cur = current_target@;
    let (to_add, to_remove) = diff(canonical, current_target);
    proof {
        lemma_missing_from_eligible(c, key_set(cur));
        lemma_missing_from_eligible(cur, key_set(c));
    }
    let tracks_to_add = to_add.len();
    let tracks_to_remove = to_remove.len();
    let addition_batches = plan_additions(target_id, &to_add, max_batch);
    let removal_batches = plan_removals(target_id, &to_remove, max_batch);
    let plan = SyncPlan {
        addition_batches,
        removal_batches,
        report: SyncReport {
            tracks_aggregated,
            unique_tracks,
            tracks_to_add,
            tracks_to_remove,
            collections_failed,
            batches_failed: 0,
        },
    };
    proof {
        assert(is_canonical_of(c, aggregated@, top_n as int));
    }
    plan
}

} // verus!
