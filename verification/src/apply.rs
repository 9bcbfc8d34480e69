//! The mutation applier's planning half: turns the diff's occurrence lists
//! into batched add and remove calls against the target collection. The
//! remote service forbids empty-batch calls and caps batch size, so an
//! empty list plans zero calls and a long one is chunked; whoever issues
//! the calls reports a failed batch and carries on with the rest.

use vstd::prelude::*;

use crate::model::PlayableOccurrence;
use crate::model::eligible;
use crate::model::key_of;

verus! {

/// One remote mutation call: the target collection and the identity keys of
/// the tracks the call adds or removes.
#[derive(Clone, Debug)]
pub struct MutationBatch {
    pub collection_id: String,
    pub keys: Vec<String>,
}

/// The identity keys named by a run of batches, in order.
pub open spec fn batch_keys(bs: Seq<MutationBatch>) -> Seq<Seq<char>>
    decreases bs.len(),
{
    if bs.len() == 0 {
        Seq::empty()
    } else {
        batch_keys(bs.drop_last()) + bs.last().keys@.map_values(|k: String| k@)
    }
}

/// The identity keys of a run of occurrences, in order.
pub open spec fn keys_of(s: Seq<PlayableOccurrence>) -> Seq<Seq<char>> {
    s.map_values(|o: PlayableOccurrence| key_of(o))
}

/// A well-formed chunking for `collection_id`: every batch is nonempty,
/// within the size cap, addressed to the collection, and every batch but
/// the last is full.
pub open spec fn chunked_for(bs: Seq<MutationBatch>, collection_id: Seq<char>, max_batch: int) -> bool {
    &&& forall|b: int|
        0 <= b < bs.len() ==> 1 <= (#[trigger] bs[b]).keys@.len() <= max_batch
            && bs[b].collection_id@ == collection_id
    &&& forall|b: int| 0 <= b < bs.len() - 1 ==> (#[trigger] bs[b]).keys@.len() == max_batch
}

proof fn lemma_batch_keys_push(bs: Seq<MutationBatch>, b: MutationBatch)
    ensures
        batch_keys(bs.push(b)) == batch_keys(bs) + b.keys@.map_values(|k: String| k@),
{
    assert(bs.push(b).drop_last() =~= bs);
    assert(bs.push(b).last() == b);
}

/// Chunks the identity keys of `items` into remote-sized batches against
/// `collection_id`: the batches' keys, concatenated, are exactly the items'
/// keys in order; an empty list yields no batch at all, and every batch but
/// the last holds exactly `max_batch` keys.
fn chunk_batches(collection_id: &str, items: &Vec<PlayableOccurrence>, max_batch: usize) -> (r:
    Vec<MutationBatch>)
    requires
        max_batch >= 1,
        forall|i: int| 0 <= i < items@.len() ==> eligible(#[trigger] items@[i]),
    ensures
        batch_keys(r@) == keys_of(items@),
        r@.len() == 0 <==> items@.len() == 0,
        chunked_for(r@, collection_id@, max_batch as int),
{
    let mut out: Vec<MutationBatch> = Vec::new();
    let mut cur: Vec<String> = Vec::new();
    let mut i: usize = 0;
    proof {
        assert(items@.take(0) =~= Seq::<PlayableOccurrence>::empty());
        assert(batch_keys(out@) + cur@.map_values(|k: String| k@) =~= keys_of(items@.take(0)));
    }
    while i < items.len()
        invariant
            max_batch >= 1,
            forall|k: int| 0 <= k < items@.len() ==> eligible(#[trigger] items@[k]),
            0 <= i <= items@.len(),
            batch_keys(out@) + cur@.map_values(|k: String| k@) == keys_of(items@.take(i as int)),
            cur@.len() < max_batch,
            chunked_for(out@, collection_id@, max_batch as int),
            forall|b: int| 0 <= b < out@.len() ==> (#[trigger] out@[b]).keys@.len() == max_batch,
            out@.len() == 0 && cur@.len() == 0 ==> i == 0,
        decreases items@.len() - i,
    {
        let o = &items[i];
        cur.push(o.identity_key().clone());
        proof {
            assert(items@.take(i + 1) =~= items@.take(i as int).push(items@[i as int]));
            assert(keys_of(items@.take(i + 1)) =~= keys_of(items@.take(i as int)).push(
                key_of(items@[i as int]),
            ));
            assert(batch_keys(out@) + cur@.map_values(|k: String| k@) =~= keys_of(
                items@.take(i + 1),
            ));
        }
        if cur.len() == max_batch {
            let full = MutationBatch { collection_id: collection_id.to_owned(), keys: cur };
            cur = Vec::new();
            proof {
                lemma_batch_keys_push(out@, full);
            }
            out.push(full);
            proof {
                assert(batch_keys(out@) + cur@.map_values(|k: String| k@) =~= keys_of(
                    items@.take(i + 1),
                ));
            }
        }
        i = i + 1;
    }
    proof {
        assert(items@.take(items@.len() as int) =~= items@);
    }
    if cur.len() > 0 {
        let last = MutationBatch { collection_id: collection_id.to_owned(), keys: cur };
        proof {
            lemma_batch_keys_push(out@, last);
        }
        out.push(last);
        proof {
            assert(batch_keys(out@) =~= keys_of(items@));
        }
        out
    } else {
        proof {
            assert(cur@.map_values(|k: String| k@) =~= Seq::<Seq<char>>::empty());
            assert(batch_keys(out@) =~= keys_of(items@));
        }
        out
    }
}

/// Plans the remote calls that add `to_add` to the target collection: an
/// empty list plans zero calls (the remote API forbids empty batches), a
/// longer one is chunked to the remote's cap, and the batches carry exactly
/// the identity keys of `to_add`, in order.
pub fn plan_additions(collection_id: &str, to_add: &Vec<PlayableOccurrence>, max_batch: usize) -> (r:
    Vec<MutationBatch>)
    requires
        max_batch >= 1,
        forall|i: int| 0 <= i < to_add@.len() ==> eligible(#[trigger] to_add@[i]),
    ensures
        batch_keys(r@) == keys_of(to_add@),
        r@.len() == 0 <==> to_add@.len() == 0,
        chunked_for(r@, collection_id@, max_batch as int),
{
    chunk_batches(collection_id, to_add, max_batch)
}

/// Plans the remote calls that remove `to_remove` from the target
/// collection, under the same guarantees as `plan_additions`.
pub fn plan_removals(collection_id: &str, to_remove: &Vec<PlayableOccurrence>, max_batch: usize) -> (
    r: Vec<MutationBatch>)
    requires
        max_batch >= 1,
        forall|i: int| 0 <= i < to_remove@.len() ==> eligible(#[trigger] to_remove@[i]),
    ensures
        batch_keys(r@) == keys_of(to_remove@),
        r@.len() == 0 <==> to_remove@.len() == 0,
        chunked_for(r@, collection_id@, max_batch as int),
{
    chunk_batches(collection_id, to_remove, max_batch)
}

} // verus!
