//! The cross-collection aggregator: merges the occurrence streams of every
//! source collection into one flat sequence, in collection order, then page
//! order, then item order. A collection whose read failed is skipped and
//! counted; it never aborts the aggregation of the rest.

use vstd::prelude::*;

use crate::model::PlayableOccurrence;

verus! {

/// What traversing one source collection produced: its occurrences, or the
/// fact that reading it failed and it was skipped.
pub enum CollectionOutcome {
    /// The collection was traversed; these are its occurrences, in page
    /// order then item order.
    Collected(Vec<PlayableOccurrence>),
    /// Reading the collection failed; it contributes nothing.
    ReadFailed,
}

/// The flat concatenation of every collected stream, in order; failed
/// collections contribute nothing.
pub open spec fn flatten_collected(s: Seq<CollectionOutcome>) -> Seq<PlayableOccurrence>
    decreases s.len(),
{
    if s.len() == 0 {
        Seq::empty()
    } else {
        flatten_collected(s.drop_last()) + match s.last() {
            CollectionOutcome::Collected(v) => v@,
            CollectionOutcome::ReadFailed => Seq::empty(),
        }
    }
}

/// How many collections failed to read.
pub open spec fn failed_count(s: Seq<CollectionOutcome>) -> int
    decreases s.len(),
{
    if s.len() == 0 {
        0
    } else {
        failed_count(s.drop_last()) + match s.last() {
            CollectionOutcome::Collected(_) => 0int,
            CollectionOutcome::ReadFailed => 1int,
        }
    }
}

/// Merges the per-collection outcomes into one flat occurrence sequence,
/// in collection order then item order, and counts the collections whose
/// read failed. The flat order is not recency order and carries no meaning
/// beyond feeding the canonicalizer.
pub fn aggregate_outcomes(outcomes: Vec<CollectionOutcome>) -> (r: (
    Vec<PlayableOccurrence>,
    usize,
))
    ensures
        r.0@ == flatten_collected(outcomes@),
        r.1 as int == failed_count(outcomes@),
{
    let ghost all = outcomes@;
    let total = outcomes.len();
    let mut rest = outcomes;
    let mut merged: Vec<PlayableOccurrence> = Vec::new();
    let mut failed: usize = 0;
    let ghost mut i: int = 0;
    proof {
        assert(rest@ =~= all.skip(0));
        assert(all.take(0) =~= Seq::<CollectionOutcome>::empty());
    }
    while rest.len() > 0
        invariant
            total == all.len(),
            0 <= i <= all.len(),
            rest@ == all.skip(i),
            merged@ == flatten_collected(all.take(i)),
            failed as int == failed_count(all.take(i)),
            0 <= failed <= i,
        decreases rest@.len(),
    {
        let oc = rest.remove(0);
        proof {
            assert(oc == all[i]);
            assert(rest@ =~= all.skip(i + 1));
            assert(all.take(i + 1).drop_last() =~= all.take(i));
            assert(all.take(i + 1).last() == all[i]);
        }
        match oc {
            CollectionOutcome::Collected(mut v) => {
                merged.append(&mut v);
                proof {
                    assert(merged@ =~= flatten_collected(all.take(i + 1)));
                }
            },
            CollectionOutcome::ReadFailed => {
                failed = failed + 1;
                proof {
                    assert(merged@ =~= flatten_collected(all.take(i + 1)));
                }
            },
        }
        proof {
            i = i + 1;
        }
    }
    proof {
        assert(i == all.len());
        assert(all.take(i) =~= all);
    }
    (merged, failed)
}

} // verus!
