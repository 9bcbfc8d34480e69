//! The recency canonicalizer: filter out identity-less occurrences, order
//! the rest from most recent to least recent, keep one occurrence per
//! identity key, and truncate to the configured size.

use vstd::prelude::*;
use vstd::hash_set::StringHashSet;
use vstd::multiset::Multiset;

use crate::model::PlayableOccurrence;
use crate::model::eligible;
use crate::model::eligible_only;
use crate::model::key_of;
use crate::model::key_set;
use crate::model::lemma_filter_push;
use crate::model::lemma_key_set_contains;
use crate::model::lemma_key_set_from_multiset;
use crate::model::lemma_key_set_of_eligible_only;
use crate::model::lemma_key_set_push;
use crate::model::lemma_unique_keys_count;
use crate::model::recency_geq;
use crate::model::sorted_by_recency;
use crate::model::unique_keys;

verus! {

broadcast use vstd::seq_lib::group_to_multiset_ensures;

/// Keeps exactly the occurrences that carry a resolvable catalog identity,
/// in their original order. Identity-less occurrences are dropped, never
/// reported as errors.
pub fn filter_eligible(v: Vec<PlayableOccurrence>) -> (r: Vec<PlayableOccurrence>)
    ensures
        r@ == eligible_only(v@),
{
    let mut rest = v;
    let mut out: Vec<PlayableOccurrence> = Vec::new();
    let ghost mut i: int = 0;
    proof {
        assert(rest@ =~= v@.skip(0));
        assert(v@.take(0) =~= Seq::<PlayableOccurrence>::empty());
        reveal(Seq::filter);
    }
    while rest.len() > 0
        invariant
            0 <= i <= v@.len(),
            rest@ == v@.skip(i),
            out@ == eligible_only(v@.take(i)),
        decreases rest@.len(),
    {
        let x = rest.remove(0);
        proof {
            assert(x == v@[i]);
            assert(rest@ =~= v@.skip(i + 1));
            assert(v@.take(i + 1) =~= v@.take(i).push(v@[i]));
            lemma_filter_push(v@.take(i), |o: PlayableOccurrence| eligible(o), v@[i]);
        }
        if x.has_identity() {
            out.push(x);
        }
        proof {
            i = i + 1;
        }
    }
    proof {
        assert(i == v@.len());
        assert(v@.take(i) =~= v@);
    }
    out
}

/// Orders occurrences from most recent to least recent. Occurrences without
/// a timestamp land after every timestamped one; the relative order of
/// equal-recency occurrences is deterministic but unspecified.
pub fn sort_by_recency(v: Vec<PlayableOccurrence>) -> (r: Vec<PlayableOccurrence>)
    ensures
        r@.to_multiset() == v@.to_multiset(),
        sorted_by_recency(r@),
{
    let mut rest = v;
    let mut out: Vec<PlayableOccurrence> = Vec::new();
    proof {
        assert(out@.to_multiset().add(rest@.to_multiset()) =~= v@.to_multiset());
    }
    while rest.len() > 0
        invariant
            out@.to_multiset().add(rest@.to_multiset()) == v@.to_multiset(),
            sorted_by_recency(out@),
        decreases rest@.len(),
    {
        let ghost old_out = out@;
        let ghost old_rest = rest@;
        let x = rest.remove(0);
        let mut pos: usize = 0;
        while pos < out.len() && out[pos].at_least_as_recent(&x)
            invariant
                0 <= pos <= out@.len(),
                forall|k: int| 0 <= k < pos ==> recency_geq(#[trigger] out@[k], x),
                sorted_by_recency(out@),
                out@ == old_out,
            decreases out@.len() - pos,
        {
            pos = pos + 1;
        }
        out.insert(pos, x);
        proof {
            old_out.insert_ensures(pos as int, x);
            // the new element fits below everything before `pos` and above
            // everything from `pos` on
            assert forall|a: int, b: int| 0 <= a <= b < out@.len() implies recency_geq(
                out@[a],
                out@[b],
            ) by {
                if a == b {
                } else if b < pos {
                    assert(recency_geq(old_out[a], old_out[b]));
                } else if a > pos {
                    assert(recency_geq(old_out[a - 1], old_out[b - 1]));
                } else if a < pos && b == pos {
                    assert(recency_geq(old_out[a], x));
                } else if a == pos && b > pos {
                    // the scan stopped, so `x` is at least as recent as the
                    // element it stopped before, and everything after it
                    assert(!recency_geq(old_out[pos as int], x));
                    assert(recency_geq(x, old_out[pos as int]));
                    assert(recency_geq(old_out[pos as int], old_out[b - 1]));
                } else {
                    assert(a < pos && b > pos);
                    assert(recency_geq(old_out[a], x));
                    assert(!recency_geq(old_out[pos as int], x));
                    assert(recency_geq(x, old_out[pos as int]));
                    assert(recency_geq(old_out[pos as int], old_out[b - 1]));
                }
            }
            // the multiset bookkeeping: one element moved from `rest` to `out`
            assert(old_rest.contains(x));
            assert(old_rest.to_multiset().count(x) > 0);
            assert(out@ == old_out.insert(pos as int, x));
            assert(old_out.insert(pos as int, x).to_multiset() == old_out.to_multiset().insert(x));
            assert(rest@ == old_rest.remove(0));
            assert(old_rest.remove(0).to_multiset() == old_rest.to_multiset().remove(x));
            assert(out@.to_multiset().add(rest@.to_multiset()) =~= old_out.to_multiset().add(
                old_rest.to_multiset(),
            ));
        }
    }
    proof {
        assert(forall|y: PlayableOccurrence| !rest@.contains(y));
        assert(rest@.to_multiset() =~= Multiset::<PlayableOccurrence>::empty());
        assert(out@.to_multiset() =~= v@.to_multiset());
    }
    out
}

/// Keeps one occurrence per identity key: the first of each key in the given
/// order. On a recency-sorted input this is the most recent appearance of
/// each track, so a track added to several collections keeps its newest
/// timestamp.
pub fn dedup_by_key(v: Vec<PlayableOccurrence>) -> (r: Vec<PlayableOccurrence>)
    requires
        sorted_by_recency(v@),
        forall|i: int| 0 <= i < v@.len() ==> eligible(#[trigger] v@[i]),
    ensures
        unique_keys(r@),
        sorted_by_recency(r@),
        forall|i: int| 0 <= i < r@.len() ==> eligible(#[trigger] r@[i]) && v@.contains(r@[i]),
        key_set(r@) == key_set(v@),
        r@.len() == key_set(v@).len(),
        forall|i: int, j: int|
            #![trigger r@[i], v@[j]]
            0 <= i < r@.len() && 0 <= j < v@.len() && key_of(r@[i]) == key_of(v@[j])
                ==> recency_geq(r@[i], v@[j]),
{
    let mut rest = v;
    let mut out: Vec<PlayableOccurrence> = Vec::new();
    let mut seen = StringHashSet::new();
    let ghost mut i: int = 0;
    proof {
        assert(rest@ =~= v@.skip(0));
        assert(v@.take(0) =~= Seq::<PlayableOccurrence>::empty());
        assert forall|k: Seq<char>| !(#[trigger] key_set(v@.take(0)).contains(k)) by {
            lemma_key_set_contains(v@.take(0), k);
        }
        assert(key_set(v@.take(0)) =~= Set::<Seq<char>>::empty());
    }
    while rest.len() > 0
        invariant
            sorted_by_recency(v@),
            forall|j: int| 0 <= j < v@.len() ==> eligible(#[trigger] v@[j]),
            0 <= i <= v@.len(),
            rest@ == v@.skip(i),
            seen@ == key_set(v@.take(i)),
            unique_keys(out@),
            sorted_by_recency(out@),
            forall|k: int| 0 <= k < out@.len() ==> eligible(#[trigger] out@[k]) && v@.contains(out@[k]),
            key_set(out@) == seen@,
            forall|k: int, j: int|
                #![trigger out@[k], v@[j]]
                0 <= k < out@.len() && i <= j < v@.len() ==> recency_geq(out@[k], v@[j]),
            forall|k: int, j: int|
                #![trigger out@[k], v@[j]]
                0 <= k < out@.len() && 0 <= j < v@.len() && key_of(out@[k]) == key_of(v@[j])
                    ==> recency_geq(out@[k], v@[j]),
        decreases rest@.len(),
    {
        let x = rest.remove(0);
        proof {
            assert(x == v@[i]);
            assert(rest@ =~= v@.skip(i + 1));
            assert(v@.take(i + 1) =~= v@.take(i).push(v@[i]));
            lemma_key_set_push(v@.take(i), v@[i]);
        }
        let fresh = {
            let key = x.identity_key();
            if !seen.contains(key.as_str()) {
                seen.insert(key.clone());
                true
            } else {
                false
            }
        };
        if fresh {
            proof {
                let ghost old_out = out@;
                // the key is new, so no earlier position of `v` carries it
                assert forall|j: int| 0 <= j < v@.len() && key_of(v@[j]) == key_of(x)
                    implies recency_geq(x, v@[j]) by {
                    if j < i {
                        assert(v@.take(i)[j] == v@[j]);
                        lemma_key_set_contains(v@.take(i), key_of(x));
                        assert(false);
                    } else {
                        assert(recency_geq(v@[i], v@[j]));
                    }
                }
                // its key is absent from `out`, whose keys all sit in `seen`
                assert forall|k: int| 0 <= k < old_out.len() implies key_of(old_out[k])
                    != key_of(x) by {
                    lemma_key_set_contains(old_out, key_of(old_out[k]));
                    assert(key_set(old_out).contains(key_of(old_out[k])));
                }
                lemma_key_set_push(old_out, x);
            }
            out.push(x);
        }
        proof {
            i = i + 1;
        }
    }
    proof {
        assert(i == v@.len());
        assert(v@.take(i) =~= v@);
        lemma_unique_keys_count(out@);
    }
    out
}

/// Cuts the sequence down to its first `top_n` entries.
pub fn truncate_to(v: Vec<PlayableOccurrence>, top_n: usize) -> (r: Vec<PlayableOccurrence>)
    ensures
        r@ == if top_n as int <= v@.len() {
            v@.take(top_n as int)
        } else {
            v@
        },
{
    let mut r = v;
    r.truncate(top_n);
    r
}

/// What makes `c` a canonical view of the occurrences `occ`, cut to
/// `top_n` entries: no two entries share an identity key; entries run from
/// most recent to least recent; the length is `top_n` or the number of
/// distinct keys, whichever is smaller; every entry is an eligible
/// occurrence of `occ`; each entry is at least as recent as every same-key
/// occurrence of `occ`, so the most recent appearance wins; and every
/// entry is at least as recent as every eligible occurrence whose key was
/// cut, so it is the most recent keys that are kept.
pub open spec fn is_canonical_of(
    c: Seq<PlayableOccurrence>,
    occ: Seq<PlayableOccurrence>,
    top_n: int,
) -> bool {
    &&& unique_keys(c)
    &&& sorted_by_recency(c)
    &&& c.len() == if top_n <= key_set(occ).len() {
        top_n
    } else {
        key_set(occ).len() as int
    }
    &&& forall|i: int| 0 <= i < c.len() ==> eligible(#[trigger] c[i]) && occ.contains(c[i])
    &&& forall|i: int, j: int|
        #![trigger c[i], occ[j]]
        0 <= i < c.len() && 0 <= j < occ.len() && eligible(occ[j]) && key_of(c[i]) == key_of(
            occ[j],
        ) ==> recency_geq(c[i], occ[j])
    &&& forall|i: int, j: int|
        #![trigger c[i], occ[j]]
        0 <= i < c.len() && 0 <= j < occ.len() && eligible(occ[j]) && !key_set(c).contains(
            key_of(occ[j]),
        ) ==> recency_geq(c[i], occ[j])
}

/// Turns the raw aggregate of every observed occurrence into the canonical
/// desired state of the target collection: identity-less occurrences are
/// dropped, the rest are ordered from most recent to least recent, each
/// identity key keeps only its most recent appearance, and the result is cut
/// to the `top_n` most recent entries.
///
/// The output is unique by identity key, sorted by descending recency, and
/// exactly `min(top_n, number of distinct keys)` long.
pub fn canonicalize(occurrences: Vec<PlayableOccurrence>, top_n: usize) -> (r: Vec<
    PlayableOccurrence,
>)
    ensures
        is_canonical_of(r@, occurrences@, top_n as int),
{
    broadcast use vstd::seq_lib::group_filter_ensures;

    let ghost occ = occurrences@;
    let ghost pred = |o: PlayableOccurrence| eligible(o);
    let filtered = filter_eligible(occurrences);
    let ghost f = filtered@;
    let sorted = sort_by_recency(filtered);
    let ghost s = sorted@;
    proof {
        // everything that survived the filter is eligible, sorted or not
        assert forall|k: int| 0 <= k < s.len() implies eligible(#[trigger] s[k]) by {
            assert(s.contains(s[k]));
            assert(s.to_multiset().count(s[k]) > 0);
            assert(f.to_multiset().count(s[k]) > 0);
            assert(f.contains(s[k]));
            let j = choose|j: int| 0 <= j < f.len() && f[j] == s[k];
            assert(pred(f[j]));
        }
    }
    let deduped = dedup_by_key(sorted);
    let ghost d = deduped@;
    proof {
        lemma_key_set_from_multiset(s, f);
        lemma_key_set_of_eligible_only(occ);
        assert(key_set(d) == key_set(occ));
        assert(d.len() == key_set(occ).len());
        // provenance: each kept occurrence appears in the original input
        assert forall|k: int| 0 <= k < d.len() implies occ.contains(#[trigger] d[k]) by {
            assert(s.contains(d[k]));
            assert(s.to_multiset().count(d[k]) > 0);
            assert(f.to_multiset().count(d[k]) > 0);
            assert(f.contains(d[k]));
            occ.lemma_filter_contains_rev(pred, d[k]);
        }
        // most recent appearance wins, stated against the original input
        assert forall|k: int, j: int|
            #![trigger d[k], occ[j]]
            0 <= k < d.len() && 0 <= j < occ.len() && eligible(occ[j]) && key_of(d[k]) == key_of(
                occ[j],
            ) implies recency_geq(d[k], occ[j]) by {
            assert(occ.filter(pred).contains(occ[j]));
            assert(f.contains(occ[j]));
            assert(f.to_multiset().count(occ[j]) > 0);
            assert(s.to_multiset().count(occ[j]) > 0);
            assert(s.contains(occ[j]));
            let j2 = choose|j2: int| 0 <= j2 < s.len() && s[j2] == occ[j];
            assert(recency_geq(d[k], s[j2]));
        }
    }
    let r = truncate_to(deduped, top_n);
    proof {
        if top_n as int <= d.len() {
            assert(r@ == d.take(top_n as int));
        }
        assert(forall|k: int| 0 <= k < r@.len() ==> r@[k] == d[k]);
        // the cut keeps the most recent keys: an eligible occurrence whose
        // key was dropped sits at or past the cut in the deduplicated
        // order, below everything kept
        assert forall|i: int, j: int|
            #![trigger r@[i], occ[j]]
            0 <= i < r@.len() && 0 <= j < occ.len() && eligible(occ[j]) && !key_set(r@).contains(
                key_of(occ[j]),
            ) implies recency_geq(r@[i], occ[j]) by {
            let k = key_of(occ[j]);
            lemma_key_set_contains(occ, k);
            assert(key_set(occ).contains(k));
            assert(key_set(d).contains(k));
            lemma_key_set_contains(d, k);
            let m = choose|m: int|
                0 <= m < d.len() && eligible(#[trigger] d[m]) && key_of(d[m]) == k;
            if m < r@.len() {
                assert(r@[m] == d[m]);
                lemma_key_set_contains(r@, k);
                assert(key_set(r@).contains(k));
            } else {
                assert(recency_geq(d[i], d[m]));
                assert(recency_geq(d[m], occ[j]));
                assert(recency_geq(r@[i], occ[j]));
            }
        }
    }
    r
}

} // verus!
