//! Laws of the history model, stated over the functions that the contract
//! of `ClipboardHistory::add_entry` uses.
//!
//! A blob store is modelled as a map from id to content. The blobs handed to
//! an addition are faithful when each one is the stored content of the
//! window id at its position.

use vstd::prelude::*;
use crate::history::{
    added_id, added_next, added_order, first_match, ids_valid, kept_order, lemma_first_match_found,
    window_ids,
};

verus! {

/// Whether `stored` holds, position by position, the blobs of `window`.
pub open spec fn faithful(blobs: Map<usize, Seq<u8>>, window: Seq<usize>, stored: Seq<Seq<u8>>) -> bool {
    &&& stored.len() == window.len()
    &&& forall|i: int| #![auto]
        0 <= i < window.len() ==> blobs.contains_key(window[i]) && stored[i] == blobs[window[i]]
}

/// The blob store after adding `content`: a new item's blob is written under
/// its id; a repeated item leaves the store as it was.
pub open spec fn blobs_after(
    blobs: Map<usize, Seq<u8>>,
    next_id: nat,
    content: Seq<u8>,
    stored: Seq<Seq<u8>>,
) -> Map<usize, Seq<u8>> {
    match first_match(stored, content, 0) {
        Some(_) => blobs,
        None => blobs.insert(next_id as usize, content),
    }
}

/// Round trip: after adding `content`, the id that the addition reports is
/// in the order, and the blob store holds exactly `content` under it.
pub proof fn lemma_round_trip(
    order: Seq<usize>,
    next_id: nat,
    blobs: Map<usize, Seq<u8>>,
    content: Seq<u8>,
    stored: Seq<Seq<u8>>,
    max_items: nat,
    depth: nat,
)
    requires
        ids_valid(order, next_id),
        max_items >= 1,
        faithful(blobs, window_ids(order, max_items, depth), stored),
    ensures
        added_order(order, next_id, content, stored, max_items, depth).contains(
            added_id(order, next_id, content, stored, max_items, depth),
        ),
        blobs_after(blobs, next_id, content, stored).contains_key(
            added_id(order, next_id, content, stored, max_items, depth),
        ),
        blobs_after(blobs, next_id, content, stored)[added_id(
            order,
            next_id,
            content,
            stored,
            max_items,
            depth,
        )] == content,
{
    lemma_first_match_found(stored, content, 0);
    let o = added_order(order, next_id, content, stored, max_items, depth);
    let id = added_id(order, next_id, content, stored, max_items, depth);
    assert(o[o.len() - 1] == id);
    let w = window_ids(order, max_items, depth);
    if let Some(i) = first_match(stored, content, 0) {
        assert(w[i] == id);
    }
}

/// Capacity: after an addition the order holds at most `max_items` ids.
pub proof fn lemma_capacity(
    order: Seq<usize>,
    next_id: nat,
    content: Seq<u8>,
    stored: Seq<Seq<u8>>,
    max_items: nat,
    depth: nat,
)
    requires
        max_items >= 1,
        stored.len() == window_ids(order, max_items, depth).len(),
    ensures
        added_order(order, next_id, content, stored, max_items, depth).len() <= max_items,
{
    lemma_first_match_found(stored, content, 0);
}

/// Repeating an addition: adding the same content twice in a row, with a
/// dedupe window of at least one and room for two items, stores it once.
/// The second addition reports the first one's id, hands out no new id, and
/// changes the order only by the eviction that precedes every addition.
pub proof fn lemma_repeat_merges(
    order: Seq<usize>,
    next_id: nat,
    blobs: Map<usize, Seq<u8>>,
    content: Seq<u8>,
    stored: Seq<Seq<u8>>,
    again: Seq<Seq<u8>>,
    max_items: nat,
    depth: nat,
)
    requires
        ids_valid(order, next_id),
        max_items >= 2,
        depth >= 1,
        faithful(blobs, window_ids(order, max_items, depth), stored),
        faithful(
            blobs_after(blobs, next_id, content, stored),
            window_ids(
                added_order(order, next_id, content, stored, max_items, depth),
                max_items,
                depth,
            ),
            again,
        ),
    ensures
        ({
            let o1 = added_order(order, next_id, content, stored, max_items, depth);
            let n1 = added_next(next_id, content, stored);
            let id1 = added_id(order, next_id, content, stored, max_items, depth);
            &&& added_id(o1, n1, content, again, max_items, depth) == id1
            &&& added_next(n1, content, again) == n1
            &&& added_order(o1, n1, content, again, max_items, depth) == kept_order(o1, max_items)
        }),
{
    lemma_round_trip(order, next_id, blobs, content, stored, max_items, depth);
    lemma_capacity(order, next_id, content, stored, max_items, depth);
    let o1 = added_order(order, next_id, content, stored, max_items, depth);
    let id1 = added_id(order, next_id, content, stored, max_items, depth);
    let b1 = blobs_after(blobs, next_id, content, stored);
    lemma_first_match_found(stored, content, 0);
    assert(o1.len() >= 1 && o1[o1.len() - 1] == id1);
    let kept = kept_order(o1, max_items);
    assert(kept.len() >= 1 && kept[kept.len() - 1] == id1);
    let w = window_ids(o1, max_items, depth);
    assert(w.len() >= 1 && w[0] == id1);
    assert(again[0] == content);
    assert(first_match(again, content, 0) == Some(0int));
    assert(kept.remove(kept.len() - 1).push(kept[kept.len() - 1]) =~= kept);
}

/// Eviction is first in, first out: adding new content to a full history
/// evicts the oldest id and appends the new one.
pub proof fn lemma_eviction_fifo(
    order: Seq<usize>,
    next_id: nat,
    content: Seq<u8>,
    stored: Seq<Seq<u8>>,
    max_items: nat,
    depth: nat,
)
    requires
        ids_valid(order, next_id),
        next_id < usize::MAX,
        max_items >= 1,
        order.len() == max_items,
        stored.len() == window_ids(order, max_items, depth).len(),
        forall|i: int| 0 <= i < stored.len() ==> stored[i] != content,
    ensures
        added_order(order, next_id, content, stored, max_items, depth) == order.subrange(
            1,
            order.len() as int,
        ).push(next_id as usize),
        added_id(order, next_id, content, stored, max_items, depth) == next_id,
{
    lemma_first_match_found(stored, content, 0);
}

/// Deletion is final: an id that was handed out and is no longer in the
/// order stays out of it through any addition.
pub proof fn lemma_deleted_stays_out(
    order: Seq<usize>,
    next_id: nat,
    id: usize,
    content: Seq<u8>,
    stored: Seq<Seq<u8>>,
    max_items: nat,
    depth: nat,
)
    requires
        ids_valid(order, next_id),
        max_items >= 1,
        stored.len() == window_ids(order, max_items, depth).len(),
        !order.contains(id),
        id < next_id,
        next_id < usize::MAX,
    ensures
        !added_order(order, next_id, content, stored, max_items, depth).contains(id),
        id < added_next(next_id, content, stored),
{
    lemma_first_match_found(stored, content, 0);
    let kept = kept_order(order, max_items);
    let o = added_order(order, next_id, content, stored, max_items, depth);
    assert forall|k: int| 0 <= k < kept.len() implies kept[k] != id by {
        let q = k + (order.len() - kept.len());
        assert(kept[k] == order[q]);
    }
    assert forall|k: int| 0 <= k < o.len() implies o[k] != id by {
        if let Some(i) = first_match(stored, content, 0) {
            let p = kept.len() - 1 - i;
            if k < o.len() - 1 {
                let k2 = if k < p { k } else { k + 1 };
                assert(o[k] == kept[k2]);
            }
        } else {
            if k < o.len() - 1 {
                assert(o[k] == kept[k]);
            } else {
                assert(o[k] == next_id as usize);
            }
        }
    }
}

} // verus!
