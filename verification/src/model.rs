//! The occurrence model: what one appearance of a playable item in some
//! collection looks like, its identity key, and the recency order that the
//! canonicalizer sorts by.

use vstd::prelude::*;

verus! {

/// A resolved catalog track. The `stable_id` is the identifier by which
/// "the same track" is recognised across collections and over time.
#[derive(Clone, Debug)]
pub struct TrackRef {
    pub stable_id: String,
}

/// One appearance of a playable item in some collection.
#[derive(Clone, Debug)]
pub struct PlayableOccurrence {
    /// When the item was added, as seconds on a linear clock. `None` means
    /// unknown recency; such occurrences sort after every timestamped one.
    pub added_at: Option<i64>,
    /// Who added the item. Informational only; never part of the identity key.
    pub contributor: Option<String>,
    /// Local-only items have no resolvable catalog identity.
    pub is_local_only: bool,
    /// The resolved track, present only for remote-catalog tracks. An
    /// occurrence without it is filtered out of every set operation.
    pub track_ref: Option<TrackRef>,
}

/// An occurrence takes part in canonicalization and diffing exactly when it
/// carries a resolved track reference.
pub open spec fn eligible(o: PlayableOccurrence) -> bool {
    o.track_ref is Some
}

/// The identity key of an eligible occurrence.
pub open spec fn key_of(o: PlayableOccurrence) -> Seq<char> {
    o.track_ref->Some_0.stable_id@
}

/// The eligible occurrences of a sequence, in their original order.
pub open spec fn eligible_only(s: Seq<PlayableOccurrence>) -> Seq<PlayableOccurrence> {
    s.filter(|o: PlayableOccurrence| eligible(o))
}

/// The identity keys of the eligible occurrences, in order, one per occurrence.
pub open spec fn key_seq(s: Seq<PlayableOccurrence>) -> Seq<Seq<char>> {
    eligible_only(s).map_values(|o: PlayableOccurrence| key_of(o))
}

/// The set of identity keys present among the eligible occurrences.
pub open spec fn key_set(s: Seq<PlayableOccurrence>) -> Set<Seq<char>> {
    key_seq(s).to_set()
}

/// `a` is at least as recent as `b`. An occurrence without a timestamp
/// counts as older than every timestamped one; two without timestamps rank
/// equal, so their relative order is left to whoever sorts.
pub open spec fn recency_geq(a: PlayableOccurrence, b: PlayableOccurrence) -> bool {
    match (a.added_at, b.added_at) {
        (Some(x), Some(y)) => x >= y,
        (Some(_), None) => true,
        (None, Some(_)) => false,
        (None, None) => true,
    }
}

/// Sorted from most recent to least recent.
pub open spec fn sorted_by_recency(s: Seq<PlayableOccurrence>) -> bool {
    forall|i: int, j: int| 0 <= i <= j < s.len() ==> recency_geq(s[i], s[j])
}

/// No two entries share an identity key.
pub open spec fn unique_keys(s: Seq<PlayableOccurrence>) -> bool {
    forall|i: int, j: int| 0 <= i < j < s.len() ==> key_of(s[i]) != key_of(s[j])
}

/// Filtering a sequence one element at a time: pushing an element onto the
/// end filters to the old result, plus the element when it passes.
pub proof fn lemma_filter_push<A>(s: Seq<A>, pred: spec_fn(A) -> bool, x: A)
    ensures
        s.push(x).filter(pred) == if pred(x) {
            s.filter(pred).push(x)
        } else {
            s.filter(pred)
        },
{
    reveal(Seq::filter);
    assert(s.push(x).drop_last() =~= s);
    assert(s.push(x).last() == x);
}

/// A filter whose predicate holds of every element returns the sequence whole.
pub proof fn lemma_filter_all<A>(s: Seq<A>, pred: spec_fn(A) -> bool)
    requires
        forall|i: int| 0 <= i < s.len() ==> pred(#[trigger] s[i]),
    ensures
        s.filter(pred) == s,
    decreases s.len(),
{
    reveal(Seq::filter);
    if s.len() > 0 {
        lemma_filter_all(s.drop_last(), pred);
        assert(s.drop_last().push(s.last()) =~= s);
    }
}

/// A key is in `key_set(s)` exactly when some eligible occurrence of `s`
/// carries it.
pub proof fn lemma_key_set_contains(s: Seq<PlayableOccurrence>, k: Seq<char>)
    ensures
        key_set(s).contains(k) <==> exists|i: int|
            0 <= i < s.len() && eligible(#[trigger] s[i]) && key_of(s[i]) == k,
{
    broadcast use vstd::seq_lib::group_filter_ensures;

    let pred = |o: PlayableOccurrence| eligible(o);
    let f = eligible_only(s);
    if key_set(s).contains(k) {
        let j = choose|j: int| 0 <= j < f.len() && key_of(f[j]) == k;
        assert(f.contains(f[j]));
        s.lemma_filter_contains_rev(pred, f[j]);
        let i = choose|i: int| 0 <= i < s.len() && s[i] == f[j];
        assert(eligible(s[i]) && key_of(s[i]) == k);
    }
    if exists|i: int| 0 <= i < s.len() && eligible(#[trigger] s[i]) && key_of(s[i]) == k {
        let i = choose|i: int| 0 <= i < s.len() && eligible(#[trigger] s[i]) && key_of(s[i]) == k;
        assert(f.contains(s[i]));
        let j = choose|j: int| 0 <= j < f.len() && f[j] == s[i];
        assert(key_seq(s)[j] == k);
        assert(key_seq(s).contains(k));
    }
}

/// Appending an occurrence adds exactly its key (when eligible) to the key set.
pub proof fn lemma_key_set_push(s: Seq<PlayableOccurrence>, x: PlayableOccurrence)
    ensures
        key_set(s.push(x)) == if eligible(x) {
            key_set(s).insert(key_of(x))
        } else {
            key_set(s)
        },
{
    let t = s.push(x);
    assert forall|k: Seq<char>| #[trigger]
        key_set(t).contains(k) == if eligible(x) {
            key_set(s).insert(key_of(x)).contains(k)
        } else {
            key_set(s).contains(k)
        } by {
        lemma_key_set_contains(s, k);
        lemma_key_set_contains(t, k);
        if key_set(t).contains(k) {
            let i = choose|i: int|
                0 <= i < t.len() && eligible(#[trigger] t[i]) && key_of(t[i]) == k;
            if i < s.len() {
                assert(s[i] == t[i]);
                assert(key_set(s).contains(k));
            } else {
                assert(t[i] == x);
            }
        }
        if key_set(s).contains(k) {
            let i = choose|i: int|
                0 <= i < s.len() && eligible(#[trigger] s[i]) && key_of(s[i]) == k;
            assert(t[i] == s[i]);
            assert(key_set(t).contains(k));
        }
        if eligible(x) && k == key_of(x) {
            assert(t[s.len() as int] == x);
            assert(key_set(t).contains(k));
        }
    }
    if eligible(x) {
        assert(key_set(t) =~= key_set(s).insert(key_of(x)));
    } else {
        assert(key_set(t) =~= key_set(s));
    }
}

/// Two sequences holding the same occurrences (as multisets) carry the same
/// identity keys.
pub proof fn lemma_key_set_from_multiset(a: Seq<PlayableOccurrence>, b: Seq<PlayableOccurrence>)
    requires
        a.to_multiset() == b.to_multiset(),
    ensures
        key_set(a) == key_set(b),
{
    broadcast use vstd::seq_lib::group_to_multiset_ensures;

    assert forall|k: Seq<char>| key_set(a).contains(k) implies key_set(b).contains(k) by {
        lemma_key_set_contains(a, k);
        lemma_key_set_contains(b, k);
        let i = choose|i: int| 0 <= i < a.len() && eligible(#[trigger] a[i]) && key_of(a[i]) == k;
        assert(a.contains(a[i]));
        assert(a.to_multiset().count(a[i]) > 0);
        assert(b.to_multiset().count(a[i]) > 0);
        assert(b.contains(a[i]));
    }
    assert forall|k: Seq<char>| key_set(b).contains(k) implies key_set(a).contains(k) by {
        lemma_key_set_contains(a, k);
        lemma_key_set_contains(b, k);
        let i = choose|i: int| 0 <= i < b.len() && eligible(#[trigger] b[i]) && key_of(b[i]) == k;
        assert(b.contains(b[i]));
        assert(b.to_multiset().count(b[i]) > 0);
        assert(a.to_multiset().count(b[i]) > 0);
        assert(a.contains(b[i]));
    }
    assert(key_set(a) =~= key_set(b));
}

/// Discarding the ineligible occurrences loses no identity key.
pub proof fn lemma_key_set_of_eligible_only(s: Seq<PlayableOccurrence>)
    ensures
        key_set(eligible_only(s)) == key_set(s),
{
    broadcast use vstd::seq_lib::group_filter_ensures;

    let pred = |o: PlayableOccurrence| eligible(o);
    assert(forall|i: int|
        0 <= i < eligible_only(s).len() ==> pred(#[trigger] eligible_only(s)[i]));
    lemma_filter_all(eligible_only(s), pred);
    assert(eligible_only(eligible_only(s)) == eligible_only(s));
}

/// A sequence of eligible occurrences with pairwise-distinct keys has
/// exactly one key per entry.
pub proof fn lemma_unique_keys_count(s: Seq<PlayableOccurrence>)
    requires
        unique_keys(s),
        forall|i: int| 0 <= i < s.len() ==> eligible(#[trigger] s[i]),
    ensures
        key_set(s).len() == s.len(),
{
    let pred = |o: PlayableOccurrence| eligible(o);
    lemma_filter_all(s, pred);
    let ks = key_seq(s);
    assert(ks.len() == s.len());
    assert(ks.no_duplicates()) by {
        assert(forall|i: int, j: int|
            0 <= i < j < s.len() ==> #[trigger] ks[i] != #[trigger] ks[j]);
    }
    ks.unique_seq_to_set();
}

impl PlayableOccurrence {
    /// Whether this occurrence carries a resolvable catalog identity.
    pub fn has_identity(&self) -> (r: bool)
        ensures
            r == eligible(*self),
    {
        self.track_ref.is_some()
    }

    /// The identity key of an eligible occurrence.
    pub fn identity_key(&self) -> (r: &String)
        requires
            eligible(*self),
        ensures
            r@ == key_of(*self),
    {
        &self.track_ref.as_ref().unwrap().stable_id
    }

    /// Whether this occurrence is at least as recent as `other`.
    pub fn at_least_as_recent(&self, other: &PlayableOccurrence) -> (r: bool)
        ensures
            r == recency_geq(*self, *other),
    {
        match (self.added_at, other.added_at) {
            (Some(x), Some(y)) => x >= y,
            (Some(_), None) => true,
            (None, Some(_)) => false,
            (None, None) => true,
        }
    }
}

} // verus!
