//! The reconciliation diff engine: given the canonical desired state and the
//! target collection's current contents, computes the disjoint `to_add` and
//! `to_remove` sets by identity-key set difference. Occurrences present on
//! both sides are left untouched, so reconciling an already-synced target
//! plans no mutations.

use vstd::prelude::*;
use vstd::hash_set::StringHashSet;

use crate::model::PlayableOccurrence;
use crate::model::eligible;
use crate::model::key_of;
use crate::model::key_set;
use crate::model::lemma_key_set_contains;
use crate::model::lemma_key_set_push;

verus! {

/// The eligible occurrences of `s` whose identity key lies outside `keys`,
/// in the order `s` gives them.
pub open spec fn missing_from(s: Seq<PlayableOccurrence>, keys: Set<Seq<char>>) -> Seq<
    PlayableOccurrence,
>
    decreases s.len(),
{
    if s.len() == 0 {
        Seq::empty()
    } else {
        let rest = missing_from(s.drop_last(), keys);
        let o = s.last();
        if eligible(o) && !keys.contains(key_of(o)) {
            rest.push(o)
        } else {
            rest
        }
    }
}

/// The occurrences to add: those of `desired` whose key the target lacks.
pub open spec fn spec_to_add(
    desired: Seq<PlayableOccurrence>,
    current: Seq<PlayableOccurrence>,
) -> Seq<PlayableOccurrence> {
    missing_from(desired, key_set(current))
}

/// The occurrences to remove: those of `current` whose key the desired
/// state lacks.
pub open spec fn spec_to_remove(
    desired: Seq<PlayableOccurrence>,
    current: Seq<PlayableOccurrence>,
) -> Seq<PlayableOccurrence> {
    missing_from(current, key_set(desired))
}

proof fn lemma_missing_from_push(s: Seq<PlayableOccurrence>, keys: Set<Seq<char>>, x: PlayableOccurrence)
    ensures
        missing_from(s.push(x), keys) == if eligible(x) && !keys.contains(key_of(x)) {
            missing_from(s, keys).push(x)
        } else {
            missing_from(s, keys)
        },
{
    assert(s.push(x).drop_last() =~= s);
    assert(s.push(x).last() == x);
}

/// The keys of what is missing from `keys` are exactly the keys of `s`
/// less `keys`.
pub proof fn lemma_missing_from_keys(s: Seq<PlayableOccurrence>, keys: Set<Seq<char>>)
    ensures
        key_set(missing_from(s, keys)) == key_set(s).difference(keys),
    decreases s.len(),
{
    if s.len() == 0 {
        assert(s =~= Seq::<PlayableOccurrence>::empty());
        assert forall|k: Seq<char>| !(#[trigger] key_set(s).contains(k)) by {
            lemma_key_set_contains(s, k);
        }
        assert(key_set(missing_from(s, keys)) =~= key_set(s).difference(keys));
    } else {
        let s0 = s.drop_last();
        let o = s.last();
        lemma_missing_from_keys(s0, keys);
        lemma_key_set_push(s0, o);
        assert(s0.push(o) =~= s);
        if eligible(o) && !keys.contains(key_of(o)) {
            lemma_key_set_push(missing_from(s0, keys), o);
            assert(key_set(missing_from(s, keys)) =~= key_set(s).difference(keys));
        } else {
            assert(key_set(missing_from(s, keys)) =~= key_set(s).difference(keys));
        }
    }
}

/// Everything kept by `missing_from` is an eligible occurrence of `s` whose
/// key lies outside `keys`.
pub proof fn lemma_missing_from_eligible(s: Seq<PlayableOccurrence>, keys: Set<Seq<char>>)
    ensures
        forall|i: int|
            0 <= i < missing_from(s, keys).len() ==> eligible(#[trigger] missing_from(s, keys)[i])
                && !keys.contains(key_of(missing_from(s, keys)[i])) && s.contains(
                missing_from(s, keys)[i],
            ),
    decreases s.len(),
{
    if s.len() > 0 {
        lemma_missing_from_eligible(s.drop_last(), keys);
        assert(s[s.len() - 1] == s.last());
        assert(s.contains(s.last()));
        assert forall|i: int|
            0 <= i < missing_from(s.drop_last(), keys).len() implies s.contains(
            #[trigger] missing_from(s.drop_last(), keys)[i],
        ) by {
            let x = missing_from(s.drop_last(), keys)[i];
            assert(s.drop_last().contains(x));
            let j = choose|j: int| 0 <= j < s.drop_last().len() && s.drop_last()[j] == x;
            assert(s[j] == x);
        }
    }
}

/// Nothing is missing when every eligible occurrence's key is covered.
proof fn lemma_missing_from_covered(s: Seq<PlayableOccurrence>, keys: Set<Seq<char>>)
    requires
        forall|i: int|
            0 <= i < s.len() && eligible(#[trigger] s[i]) ==> keys.contains(key_of(s[i])),
    ensures
        missing_from(s, keys) == Seq::<PlayableOccurrence>::empty(),
    decreases s.len(),
{
    if s.len() > 0 {
        assert(forall|i: int| 0 <= i < s.drop_last().len() ==> s.drop_last()[i] == s[i]);
        lemma_missing_from_covered(s.drop_last(), keys);
        assert(s[s.len() - 1] == s.last());
    }
}

/// Reconciling a state against itself plans no mutations: the diff of a
/// desired set with a target that already holds exactly its keys is a pair
/// of empty batches, so repeated runs on an unchanged upstream are no-ops.
pub proof fn lemma_diff_idempotent(desired: Seq<PlayableOccurrence>)
    ensures
        spec_to_add(desired, desired) == Seq::<PlayableOccurrence>::empty(),
        spec_to_remove(desired, desired) == Seq::<PlayableOccurrence>::empty(),
{
    assert forall|i: int|
        0 <= i < desired.len() && eligible(#[trigger] desired[i]) implies key_set(
        desired,
    ).contains(key_of(desired[i])) by {
        lemma_key_set_contains(desired, key_of(desired[i]));
    }
    lemma_missing_from_covered(desired, key_set(desired));
}

/// The diff partitions correctly: adding `to_add`'s keys to the target and
/// then removing `to_remove`'s keys lands exactly on the desired key set,
/// and the two mutation sets touch disjoint keys, so the order in which
/// they are applied cannot matter.
pub proof fn lemma_diff_complete(desired: Seq<PlayableOccurrence>, current: Seq<PlayableOccurrence>)
    ensures
        key_set(current).union(key_set(spec_to_add(desired, current))).difference(
            key_set(spec_to_remove(desired, current)),
        ) == key_set(desired),
        key_set(spec_to_add(desired, current)).disjoint(
            key_set(spec_to_remove(desired, current)),
        ),
{
    lemma_missing_from_keys(desired, key_set(current));
    lemma_missing_from_keys(current, key_set(desired));
    assert(key_set(current).union(key_set(desired).difference(key_set(current))).difference(
        key_set(current).difference(key_set(desired)),
    ) =~= key_set(desired));
    assert(key_set(desired).difference(key_set(current)).disjoint(
        key_set(current).difference(key_set(desired)),
    ));
}

/// Collects the identity keys of the eligible occurrences of `v` into a
/// hash set, for constant-time membership during the diff.
fn collect_keys(v: &Vec<PlayableOccurrence>) -> (r: StringHashSet)
    ensures
        r@ == key_set(v@),
{
    let mut keys = StringHashSet::new();
    let mut j: usize = 0;
    proof {
        assert(v@.take(0) =~= Seq::<PlayableOccurrence>::empty());
        assert forall|k: Seq<char>| !(#[trigger] key_set(v@.take(0)).contains(k)) by {
            lemma_key_set_contains(v@.take(0), k);
        }
        assert(keys@ =~= key_set(v@.take(0)));
    }
    while j < v.len()
        invariant
            0 <= j <= v@.len(),
            keys@ == key_set(v@.take(j as int)),
        decreases v@.len() - j,
    {
        let o = &v[j];
        proof {
            assert(v@.take(j + 1) =~= v@.take(j as int).push(v@[j as int]));
            lemma_key_set_push(v@.take(j as int), v@[j as int]);
        }
        if o.has_identity() {
            keys.insert(o.identity_key().clone());
        }
        j = j + 1;
    }
    proof {
        assert(v@.take(v@.len() as int) =~= v@);
    }
    keys
}

/// Keeps the eligible occurrences of `v` whose key is not in `keys`,
/// in order, consuming `v`.
fn retain_missing(v: Vec<PlayableOccurrence>, keys: &StringHashSet) -> (r: Vec<PlayableOccurrence>)
    ensures
        r@ == missing_from(v@, keys@),
{
    let mut rest = v;
    let mut out: Vec<PlayableOccurrence> = Vec::new();
    let ghost mut i: int = 0;
    proof {
        assert(rest@ =~= v@.skip(0));
        assert(v@.take(0) =~= Seq::<PlayableOccurrence>::empty());
    }
    while rest.len() > 0
        invariant
            0 <= i <= v@.len(),
            rest@ == v@.skip(i),
            out@ == missing_from(v@.take(i), keys@),
        decreases rest@.len(),
    {
        let x = rest.remove(0);
        proof {
            assert(x == v@[i]);
            assert(rest@ =~= v@.skip(i + 1));
            assert(v@.take(i + 1) =~= v@.take(i).push(v@[i]));
            lemma_missing_from_push(v@.take(i), keys@, v@[i]);
        }
        let keep = x.has_identity() && !keys.contains(x.identity_key().as_str());
        if keep {
            out.push(x);
        }
        proof {
            i = i + 1;
        }
    }
    proof {
        assert(i == v@.len());
        assert(v@.take(i) =~= v@);
    }
    out
}

/// Computes the minimal mutation set that converges the target collection
/// toward the desired state: `to_add` holds the desired occurrences whose
/// key the target lacks, in desired order; `to_remove` holds the target's
/// occurrences whose key the desired state lacks. Occurrences whose key
/// stands on both sides are never re-added or re-removed, and identity-less
/// occurrences never reach either output.
pub fn diff(desired: Vec<PlayableOccurrence>, current: Vec<PlayableOccurrence>) -> (r: (
    Vec<PlayableOccurrence>,
    Vec<PlayableOccurrence>,
))
    ensures
        r.0@ == spec_to_add(desired@, current@),
        r.1@ == spec_to_remove(desired@, current@),
{
    let current_keys = collect_keys(&current);
    let desired_keys = collect_keys(&desired);
    let to_add = retain_missing(desired, &current_keys);
    let to_remove = retain_missing(current, &desired_keys);
    (to_add, to_remove)
}

} // verus!
