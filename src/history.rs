//! The history index: recency order of item ids, the entry of each id, and
//! the rules for eviction and duplicate suppression.
//!
//! Blob contents live outside the index. Where a rule needs them (the
//! duplicate scan) the caller reads the blobs that `dedupe_window` names and
//! hands them in; where a rule frees or creates files, the result says which.

use std::collections::HashMap;
use vstd::prelude::*;
use crate::config::Config;
use crate::preview::{is_preview_of, preview_line, Entry};

verus! {

broadcast use vstd::std_specs::hash::group_hash_axioms;

/// Failures that the history reports.
#[derive(Copy, Clone, PartialEq, Eq, Debug, Structural)]
pub enum HistoryError {
    /// No entry has the requested id.
    NotFound,
    /// An id given by a caller is malformed or out of range.
    InvalidIndex,
    /// The history holds too few entries for the request.
    InsufficientHistory,
    /// A persisted history does not describe a consistent index.
    SerializationError,
}

pub struct ClipboardHistory {
    history: Vec<usize>,
    bytes_map: HashMap<usize, Entry>,
    index_counter: usize,
}

/// The abstract state of a history: ids oldest first, the entry of each id,
/// and the id that the next new item gets.
pub struct HistoryView {
    pub order: Seq<usize>,
    pub entries: Map<usize, Entry>,
    pub next_id: nat,
}

impl View for ClipboardHistory {
    type V = HistoryView;

    closed spec fn view(&self) -> HistoryView {
        HistoryView {
            order: self.history@,
            entries: self.bytes_map@,
            next_id: self.index_counter as nat,
        }
    }
}

/// The ids of an order are distinct and were all handed out before `next_id`.
pub open spec fn ids_valid(order: Seq<usize>, next_id: nat) -> bool {
    &&& order.no_duplicates()
    &&& forall|i: int| 0 <= i < order.len() ==> 1 <= #[trigger] order[i] < next_id
}

/// The invariant of a history: `order` and `entries` hold the same ids, with
/// no repeats, each entry names its own blob, and ids lie below `next_id`.
pub open spec fn well_formed(h: HistoryView) -> bool {
    &&& ids_valid(h.order, h.next_id)
    &&& forall|i: int| 0 <= i < h.order.len() ==> h.entries.contains_key(#[trigger] h.order[i])
    &&& forall|id: usize| #[trigger]
        h.entries.contains_key(id) ==> h.order.contains(id) && h.entries[id].file == id
    &&& h.next_id >= 1
}

/// The order left after the eviction that precedes an insertion: the oldest
/// ids go until fewer than `max_items` remain.
pub open spec fn kept_order(order: Seq<usize>, max_items: nat) -> Seq<usize> {
    if order.len() >= max_items {
        order.subrange(order.len() - max_items + 1, order.len() as int)
    } else {
        order
    }
}

/// The ids that the duplicate scan compares, newest first: at most `depth`
/// of them, taken after eviction.
pub open spec fn window_ids(order: Seq<usize>, max_items: nat, depth: nat) -> Seq<usize> {
    let kept = kept_order(order, max_items);
    let d = if kept.len() < depth {
        kept.len()
    } else {
        depth
    };
    Seq::new(d, |i: int| kept[kept.len() - 1 - i])
}

/// The first position at or after `from` whose blob equals `content`.
pub open spec fn first_match(stored: Seq<Seq<u8>>, content: Seq<u8>, from: int) -> Option<int>
    decreases stored.len() - from,
{
    if from < 0 || from >= stored.len() {
        None
    } else if stored[from] == content {
        Some(from)
    } else {
        first_match(stored, content, from + 1)
    }
}

/// The id that adding `content` leaves most recent: the matched one, or
/// `next_id` for a new item. `stored` holds the blobs of the window.
pub open spec fn added_id(
    order: Seq<usize>,
    next_id: nat,
    content: Seq<u8>,
    stored: Seq<Seq<u8>>,
    max_items: nat,
    depth: nat,
) -> usize {
    let kept = kept_order(order, max_items);
    match first_match(stored, content, 0) {
        Some(i) => kept[kept.len() - 1 - i],
        None => next_id as usize,
    }
}

/// The order after adding `content`: eviction, then either the matched id
/// moved to the end or the new id appended.
pub open spec fn added_order(
    order: Seq<usize>,
    next_id: nat,
    content: Seq<u8>,
    stored: Seq<Seq<u8>>,
    max_items: nat,
    depth: nat,
) -> Seq<usize> {
    let kept = kept_order(order, max_items);
    match first_match(stored, content, 0) {
        Some(i) => kept.remove(kept.len() - 1 - i).push(kept[kept.len() - 1 - i]),
        None => kept.push(next_id as usize),
    }
}

/// `next_id` after adding `content`: one more exactly when a new item was
/// stored.
pub open spec fn added_next(
    next_id: nat,
    content: Seq<u8>,
    stored: Seq<Seq<u8>>,
) -> nat {
    match first_match(stored, content, 0) {
        Some(_) => next_id,
        None => next_id + 1,
    }
}

/// The blob contents of a list of byte vectors.
pub open spec fn blob_views(stored: Seq<Vec<u8>>) -> Seq<Seq<u8>> {
    stored.map_values(|v: Vec<u8>| v@)
}

/// What `add_entry` reports: the id now most recent, whether it is a new
/// item (whose blob the caller writes, and whose thumbnail it renders where
/// the preview has one), and the entries evicted to make room (whose files
/// the caller removes).
pub struct Added {
    pub id: usize,
    pub inserted: bool,
    pub evicted: Vec<Entry>,
}

proof fn lemma_remove_keeps(order: Seq<usize>, i: int)
    requires
        order.no_duplicates(),
        0 <= i < order.len(),
    ensures
        order.remove(i).no_duplicates(),
        forall|x: usize| #[trigger]
            order.remove(i).contains(x) <==> (order.contains(x) && x != order[i]),
{
    let r = order.remove(i);
    assert forall|a: int, b: int| 0 <= a < b < r.len() implies r[a] != r[b] by {
        let a2 = if a < i { a } else { a + 1 };
        let b2 = if b < i { b } else { b + 1 };
        assert(r[a] == order[a2] && r[b] == order[b2]);
    }
    assert forall|x: usize| #[trigger] r.contains(x) <==> (order.contains(x) && x != order[i]) by {
        if r.contains(x) {
            let k = choose|k: int| 0 <= k < r.len() && r[k] == x;
            let k2 = if k < i { k } else { k + 1 };
            assert(order[k2] == x);
        }
        if order.contains(x) && x != order[i] {
            let k = choose|k: int| 0 <= k < order.len() && order[k] == x;
            let k2 = if k < i { k } else { k - 1 };
            assert(r[k2] == x);
        }
    }
}

proof fn lemma_move_to_end(order: Seq<usize>, pos: int)
    requires
        order.no_duplicates(),
        0 <= pos < order.len(),
    ensures
        order.remove(pos).push(order[pos]).no_duplicates(),
        order.remove(pos).push(order[pos]).len() == order.len(),
        forall|x: usize| #[trigger]
            order.remove(pos).push(order[pos]).contains(x) <==> order.contains(x),
{
    let r = order.remove(pos);
    lemma_remove_keeps(order, pos);
    let s = r.push(order[pos]);
    assert forall|a: int, b: int| 0 <= a < b < s.len() implies s[a] != s[b] by {
        if b == s.len() - 1 {
            assert(s[a] == r[a]);
            assert(r.contains(r[a]));
        } else {
            assert(s[a] == r[a] && s[b] == r[b]);
        }
    }
    assert forall|x: usize| #[trigger] s.contains(x) <==> order.contains(x) by {
        if s.contains(x) {
            let k = choose|k: int| 0 <= k < s.len() && s[k] == x;
            if k < r.len() {
                assert(r[k] == x);
                assert(r.contains(x));
            }
        }
        if order.contains(x) {
            if x == order[pos] {
                assert(s[s.len() - 1] == x);
            } else {
                assert(r.contains(x));
                let k = choose|k: int| 0 <= k < r.len() && r[k] == x;
                assert(s[k] == x);
            }
        }
    }
}

/// Where `first_match` lands: on an equal blob, or nowhere when none is.
pub proof fn lemma_first_match_found(stored: Seq<Seq<u8>>, content: Seq<u8>, from: int)
    requires
        0 <= from,
    ensures
        first_match(stored, content, from) matches Some(i) ==> from <= i < stored.len()
            && stored[i] == content,
        first_match(stored, content, from) is None ==> forall|j: int|
            from <= j < stored.len() ==> stored[j] != content,
    decreases stored.len() - from,
{
    if from < stored.len() && stored[from] != content {
        lemma_first_match_found(stored, content, from + 1);
    }
}

/// Whether `content` may be stored: input that is empty or a lone line
/// feed is refused, and the history is then left as it is.
pub open spec fn storable(content: Seq<u8>) -> bool {
    !(content.len() == 0 || content == seq![10u8])
}

/// Whether `content` may be stored.
pub fn is_storable(content: &[u8]) -> (r: bool)
    ensures
        r == storable(content@),
{
    if content.len() == 0 {
        return false;
    }
    if content.len() == 1 && content[0] == 10 {
        assert(content@ =~= seq![10u8]);
        return false;
    }
    assert(content@ != seq![10u8]) by {
        if content@ == seq![10u8] {
            assert(content@[0] == 10u8);
        }
    }
    true
}

/// Whether two byte sequences are equal.
pub fn bytes_equal(a: &[u8], b: &[u8]) -> (r: bool)
    ensures
        r == (a@ == b@),
{
    if a.len() != b.len() {
        return false;
    }
    let mut i: usize = 0;
    while i < a.len()
        invariant
            a@.len() == b@.len(),
            i <= a@.len(),
            forall|k: int| 0 <= k < i ==> a@[k] == b@[k],
        decreases a.len() - i,
    {
        if a[i] != b[i] {
            return false;
        }
        i += 1;
    }
    assert(a@ =~= b@);
    true
}

/// The blob file of each entry, in turn.
pub open spec fn files(entries: Seq<Entry>) -> Seq<usize> {
    entries.map_values(|e: Entry| e.file)
}

/// Whether persisted parts describe a history: valid distinct ids in the
/// order, entries with distinct files, and the same ids on both sides.
pub open spec fn parts_consistent(order: Seq<usize>, entries: Seq<Entry>, next_id: nat) -> bool {
    &&& ids_valid(order, next_id)
    &&& next_id >= 1
    &&& files(entries).no_duplicates()
    &&& forall|k: int| 0 <= k < entries.len() ==> order.contains(#[trigger] files(entries)[k])
    &&& forall|i: int| 0 <= i < order.len() ==> files(entries).contains(#[trigger] order[i])
}

/// Whether `x` occurs among the first `n` ids of `v`.
fn contains_id(v: &Vec<usize>, n: usize, x: usize) -> (r: bool)
    requires
        n <= v@.len(),
    ensures
        r == v@.take(n as int).contains(x),
{
    let mut i: usize = 0;
    while i < n
        invariant
            i <= n <= v@.len(),
            forall|k: int| 0 <= k < i ==> v@[k] != x,
        decreases n - i,
    {
        if v[i] == x {
            assert(v@.take(n as int)[i as int] == x);
            return true;
        }
        i += 1;
    }
    assert(!v@.take(n as int).contains(x)) by {
        if v@.take(n as int).contains(x) {
            let k = choose|k: int| 0 <= k < n && v@.take(n as int)[k] == x;
            assert(v@[k] == x);
        }
    }
    false
}

impl ClipboardHistory {
    /// Rebuilds a history from persisted parts: the order, the entries and
    /// the next id. Parts that do not describe a history are refused.
    pub fn from_parts(history: Vec<usize>, entries: Vec<Entry>, index_counter: usize) -> (r: Result<
        ClipboardHistory,
        HistoryError,
    >)
        ensures
            match r {
                Ok(h) => parts_consistent(history@, entries@, index_counter as nat) && well_formed(
                    h@,
                ) && h@.order == history@ && h@.next_id == index_counter && forall|k: int|
                    #![auto]
                    0 <= k < entries@.len() ==> h@.entries.contains_key(entries@[k].file)
                        && h@.entries[entries@[k].file] == entries@[k],
                Err(e) => !parts_consistent(history@, entries@, index_counter as nat) && e
                    == HistoryError::SerializationError,
            },
    {
        let ghost es = entries@;
        let ghost o = history@;
        if index_counter < 1 {
            return Err(HistoryError::SerializationError);
        }
        let n = history.len();
        let mut i: usize = 0;
        while i < n
            invariant
                n == o.len(),
                o == history@,
                i <= n,
                o.take(i as int).no_duplicates(),
                es == entries@,
                forall|k: int| 0 <= k < i ==> 1 <= #[trigger] o[k] < index_counter,
            decreases n - i,
        {
            let id = history[i];
            if id < 1 || id >= index_counter {
                return Err(HistoryError::SerializationError);
            }
            if contains_id(&history, i, id) {
                proof {
                    let k = choose|k: int| 0 <= k < i && o.take(i as int)[k] == id;
                    assert(o[k] == o[i as int]);
                }
                return Err(HistoryError::SerializationError);
            }
            let ghost t = o.take(i + 1);
            assert forall|a: int, b: int| 0 <= a < b < i + 1 implies #[trigger] t[a] != #[trigger] t[b] by {
                if b == i {
                    assert(o.take(i as int)[a] == o[a]);
                } else {
                    assert(o.take(i as int)[a] == o[a] && o.take(i as int)[b] == o[b]);
                }
            }
            i += 1;
        }
        assert(o.take(n as int) =~= o);
        let mut map: HashMap<usize, Entry> = HashMap::new();
        let mut rest = entries;
        while rest.len() > 0
            invariant
                o == history@,
                es == entries@,
                index_counter >= 1,
                n == o.len(),
                ids_valid(o, index_counter as nat),
                rest@ == es.take(rest@.len() as int),
                rest@.len() <= es.len(),
                forall|a: int, b: int|
                    rest@.len() <= a < b < es.len() ==> #[trigger] es[a].file != #[trigger] es[b].file,
                forall|k: int| rest@.len() <= k < es.len() ==> o.contains(#[trigger] es[k].file),
                forall|k: int| #![auto]
                    rest@.len() <= k < es.len() ==> map@.contains_key(es[k].file) && map@[es[k].file]
                        == es[k],
                forall|id: usize| #[trigger]
                    map@.contains_key(id) ==> exists|k: int|
                        rest@.len() <= k < es.len() && #[trigger] es[k].file == id,
                forall|id: usize| #[trigger] map@.contains_key(id) ==> map@[id].file == id,
            decreases rest@.len(),
        {
            let e = rest.pop().unwrap();
            let ghost at = rest@.len() as int;
            assert(es[at] == e);
            let file = e.file;
            if !contains_id(&history, n, file) {
                assert(o.take(n as int) =~= o);
                assert(files(es)[at] == file);
                return Err(HistoryError::SerializationError);
            }
            assert(o.take(n as int) =~= o);
            let ghost before = map@;
            match map.insert(file, e) {
                Some(_) => {
                    proof {
                        let k = choose|k: int| at < k < es.len() && #[trigger] es[k].file == file;
                        assert(es[at].file == es[k].file);
                        assert(files(es)[at] == files(es)[k]);
                    }
                    return Err(HistoryError::SerializationError);
                },
                None => {},
            }
            assert(rest@ =~= es.take(rest@.len() as int));
            assert forall|id: usize| #[trigger] map@.contains_key(id) implies exists|k: int|
                rest@.len() <= k < es.len() && #[trigger] es[k].file == id by {
                if id == file {
                    assert(es[at].file == id);
                } else {
                    assert(before.contains_key(id));
                }
            }
        }
        assert(rest@.len() == 0);
        assert forall|id: usize| #[trigger]
            map@.contains_key(id) implies o.contains(id) && map@[id].file == id by {
            let k = choose|k: int| 0 <= k < es.len() && #[trigger] es[k].file == id;
        }
        let mut j: usize = 0;
        while j < n
            invariant
                o == history@,
                n == o.len(),
                j <= n,
                es == entries@,
                forall|k: int| 0 <= k < j ==> map@.contains_key(#[trigger] o[k]),
                ids_valid(o, index_counter as nat),
                index_counter >= 1,
                forall|a: int, b: int|
                    0 <= a < b < es.len() ==> #[trigger] es[a].file != #[trigger] es[b].file,
                forall|k: int| 0 <= k < es.len() ==> o.contains(#[trigger] es[k].file),
                forall|k: int| #![auto]
                    0 <= k < es.len() ==> map@.contains_key(es[k].file) && map@[es[k].file]
                        == es[k],
                forall|id: usize| #[trigger]
                    map@.contains_key(id) ==> exists|k: int|
                        0 <= k < es.len() && #[trigger] es[k].file == id,
                forall|id: usize| #[trigger]
                    map@.contains_key(id) ==> o.contains(id) && map@[id].file == id,
            decreases n - j,
        {
            if !map.contains_key(&history[j]) {
                proof {
                    if exists|k: int| 0 <= k < es.len() && #[trigger] es[k].file == o[j as int] {
                        let k = choose|k: int| 0 <= k < es.len() && #[trigger] es[k].file == o[j as int];
                        assert(map@.contains_key(es[k].file));
                    }
                }
                return Err(HistoryError::SerializationError);
            }
            j += 1;
        }
        assert forall|i2: int| 0 <= i2 < o.len() implies exists|k: int|
            0 <= k < es.len() && #[trigger] es[k].file == #[trigger] o[i2] by {
            let id = o[i2];
            assert(map@.contains_key(id));
            let k = choose|k: int| 0 <= k < es.len() && #[trigger] es[k].file == id;
            assert(es[k].file == o[i2]);
        }

        let h = ClipboardHistory { history, bytes_map: map, index_counter };
        proof {
            let f = files(es);
            assert forall|a: int, b: int| 0 <= a < b < f.len() implies f[a] != f[b] by {
                assert(f[a] == es[a].file && f[b] == es[b].file);
            }
            assert forall|k: int| 0 <= k < es.len() implies o.contains(#[trigger] f[k]) by {
                assert(f[k] == es[k].file);
            }
            assert forall|i2: int| 0 <= i2 < o.len() implies f.contains(#[trigger] o[i2]) by {
                let k = choose|k: int| 0 <= k < es.len() && #[trigger] es[k].file == o[i2];
                assert(f[k] == o[i2]);
            }
        }
        assert(parts_consistent(o, es, index_counter as nat));
        assert(well_formed(h@));
        Ok(h)
    }

    /// An empty history whose first item gets id 1.
    pub fn new() -> (r: ClipboardHistory)
        ensures
            well_formed(r@),
            r@.order.len() == 0,
            r@.entries.len() == 0,
            r@.next_id == 1,
    {
        ClipboardHistory { history: Vec::new(), bytes_map: HashMap::new(), index_counter: 1 }
    }

    /// The ids, oldest first.
    pub fn order(&self) -> (r: &Vec<usize>)
        ensures
            r@ == self@.order,
    {
        &self.history
    }

    /// The id that the next new item gets.
    pub fn next_id(&self) -> (r: usize)
        ensures
            r == self@.next_id,
    {
        self.index_counter
    }

    /// Removes the id at position `i` of the order and its entry, and
    /// returns the entry.
    fn remove_at(&mut self, i: usize) -> (e: Entry)
        requires
            well_formed(old(self)@),
            i < old(self)@.order.len(),
        ensures
            well_formed(final(self)@),
            final(self)@.order == old(self)@.order.remove(i as int),
            final(self)@.entries == old(self)@.entries.remove(old(self)@.order[i as int]),
            final(self)@.next_id == old(self)@.next_id,
            e == old(self)@.entries[old(self)@.order[i as int]],
    {
        let ghost h = self@;
        proof {
            lemma_remove_keeps(h.order, i as int);
        }
        let index = self.history.remove(i);
        assert(h.entries.contains_key(index));
        let e = self.bytes_map.remove(&index).unwrap();
        let ghost n = self@;
        assert(n.entries =~= h.entries.remove(index));
        assert forall|k: int| 0 <= k < n.order.len() implies 1 <= #[trigger] n.order[k]
            < n.next_id by {
            let k2 = if k < i { k } else { k + 1 };
            assert(n.order[k] == h.order[k2]);
        }
        assert forall|k: int| 0 <= k < n.order.len() implies n.entries.contains_key(
            #[trigger] n.order[k],
        ) by {
            assert(n.order.contains(n.order[k]));
            let k2 = if k < i { k } else { k + 1 };
            assert(n.order[k] == h.order[k2]);
        }
        assert forall|id: usize| #[trigger] n.entries.contains_key(id) implies n.order.contains(id)
            && n.entries[id].file == id by {
            assert(h.entries.contains_key(id));
        }
        e
    }

    /// Adds `content` as the most recent item.
    ///
    /// First the oldest entries are evicted until fewer than `max_items`
    /// remain. Then the ids of `dedupe_window` are scanned newest first,
    /// `stored[k]` being the blob of the `k`-th of them: on the first equal
    /// blob that id moves to the end of the order and keeps its entry.
    /// Otherwise a new entry with id `next_id` is appended.
    pub fn add_entry(&mut self, content: Vec<u8>, stored: &Vec<Vec<u8>>, config: &Config) -> (r:
        Added)
        requires
            well_formed(old(self)@),
            config.max_items >= 1,
            old(self)@.next_id < usize::MAX,
            stored@.len() == window_ids(
                old(self)@.order,
                config.max_items as nat,
                config.max_dedupe_depth as nat,
            ).len(),
        ensures
            well_formed(final(self)@),
            final(self)@.order == added_order(
                old(self)@.order,
                old(self)@.next_id,
                content@,
                blob_views(stored@),
                config.max_items as nat,
                config.max_dedupe_depth as nat,
            ),
            r.id == added_id(
                old(self)@.order,
                old(self)@.next_id,
                content@,
                blob_views(stored@),
                config.max_items as nat,
                config.max_dedupe_depth as nat,
            ),
            final(self)@.next_id == added_next(
                old(self)@.next_id,
                content@,
                blob_views(stored@),
            ),
            r.inserted <==> first_match(blob_views(stored@), content@, 0) is None,
            final(self)@.order.len() <= config.max_items,
            final(self)@.order.last() == r.id,
            !r.inserted ==> old(self)@.order.contains(r.id),
            r.inserted ==> r.id == old(self)@.next_id && final(self)@.entries[r.id].file == r.id
                && is_preview_of(final(self)@.entries[r.id].preview, content@, r.id as nat),
            forall|id: usize| #[trigger]
                final(self)@.entries.contains_key(id) && (!r.inserted || id != r.id)
                    ==> old(self)@.entries.contains_key(id) && final(self)@.entries[id]
                    == old(self)@.entries[id],
            r.evicted@.len() == old(self)@.order.len() - kept_order(
                old(self)@.order,
                config.max_items as nat,
            ).len(),
            forall|k: int| #![auto]
                0 <= k < r.evicted@.len() ==> r.evicted@[k] == old(self)@.entries[old(
                    self,
                )@.order[k]],
    {
        let ghost h = self@;
        let ghost sv = blob_views(stored@);
        let ghost kept = kept_order(h.order, config.max_items as nat);
        let mut evicted: Vec<Entry> = Vec::new();
        assert(h.order.subrange(0, h.order.len() as int) =~= h.order);
        while self.history.len() >= config.max_items
            invariant
                well_formed(self@),
                well_formed(h),
                self@.next_id == h.next_id,
                config.max_items >= 1,
                evicted@.len() <= h.order.len(),
                self@.order == h.order.subrange(evicted@.len() as int, h.order.len() as int),
                evicted@.len() == 0 || h.order.len() - evicted@.len() + 1 >= config.max_items,
                forall|k: int| #![auto]
                    0 <= k < evicted@.len() ==> evicted@[k] == h.entries[h.order[k]],
                forall|id: usize| #[trigger]
                    self@.entries.contains_key(id) ==> h.entries.contains_key(id)
                        && self@.entries[id] == h.entries[id],
            decreases self@.order.len(),
        {
            let ghost before = self@;
            let e = self.remove_at(0);
            evicted.push(e);
            assert(self@.order =~= h.order.subrange(evicted@.len() as int, h.order.len() as int));
        }
        assert(self@.order =~= kept);
        assert(kept =~= h.order.subrange(h.order.len() - kept.len(), h.order.len() as int));
        let len = self.history.len();
        let depth = if len < config.max_dedupe_depth {
            len
        } else {
            config.max_dedupe_depth
        };
        let mut i: usize = 0;
        while i < depth
            invariant
                i <= depth,
                depth == stored@.len(),
                depth <= len,
                len == self@.order.len(),
                sv == blob_views(stored@),
                first_match(sv, content@, 0) == first_match(sv, content@, i as int),
                well_formed(self@),
                well_formed(h),
                h == old(self)@,
                self@.order == kept,
                kept.len() < config.max_items,
                kept == kept_order(h.order, config.max_items as nat),
                kept == h.order.subrange(h.order.len() - kept.len(), h.order.len() as int),
                self@.next_id == h.next_id,
                h.next_id < usize::MAX,
                evicted@.len() == h.order.len() - kept.len(),
                forall|k: int| #![auto]
                    0 <= k < evicted@.len() ==> evicted@[k] == h.entries[h.order[k]],
                forall|id: usize| #[trigger]
                    self@.entries.contains_key(id) ==> h.entries.contains_key(id)
                        && self@.entries[id] == h.entries[id],
            decreases depth - i,
        {
            assert(sv[i as int] == stored@[i as int]@);
            if bytes_equal(stored[i].as_slice(), content.as_slice()) {
                let ghost k = self@;
                assert(sv.len() == stored@.len());
                assert(first_match(sv, content@, i as int) == Some(i as int));
                let pos = len - 1 - i;
                proof {
                    lemma_move_to_end(k.order, pos as int);
                }
                let id = self.history.remove(pos);
                self.history.push(id);
                let ghost n = self@;
                assert(n.order =~= k.order.remove(pos as int).push(k.order[pos as int]));
                assert forall|j: int| 0 <= j < n.order.len() implies 1 <= #[trigger] n.order[j]
                    < n.next_id && n.entries.contains_key(n.order[j]) by {
                    assert(n.order.contains(n.order[j]));
                    assert(k.order.contains(n.order[j]));
                }
                assert forall|x: usize| #[trigger]
                    n.entries.contains_key(x) implies n.order.contains(x) by {
                    assert(k.order.contains(x));
                }
                assert(k.order.contains(id)) by {
                    assert(k.order[pos as int] == id);
                }
                assert(h.order.contains(id)) by {
                    let q = (h.order.len() - k.order.len() + pos) as int;
                    assert(h.order[q] == id);
                }
                return Added { id, inserted: false, evicted };
            }
            i += 1;
        }
        proof {
            lemma_first_match_found(sv, content@, 0);
        }
        let ghost k = self@;
        let id = self.index_counter;
        let entry = Entry::from_bytes(content.as_slice(), id);
        assert(!k.order.contains(id)) by {
            if k.order.contains(id) {
                let j = choose|j: int| 0 <= j < k.order.len() && k.order[j] == id;
                assert(1 <= k.order[j] < k.next_id);
            }
        }
        self.history.push(id);
        self.bytes_map.insert(id, entry);
        self.index_counter = id + 1;
        let ghost n = self@;
        assert forall|a: int, b: int| 0 <= a < b < n.order.len() implies n.order[a]
            != n.order[b] by {
            if b == n.order.len() - 1 {
                assert(k.order.contains(n.order[a]));
            }
        }
        assert forall|j: int| 0 <= j < n.order.len() implies 1 <= #[trigger] n.order[j]
            < n.next_id && n.entries.contains_key(n.order[j]) by {
            if j < k.order.len() {
                assert(n.order[j] == k.order[j]);
            }
        }
        assert forall|x: usize| #[trigger] n.entries.contains_key(x) implies n.order.contains(x)
            && n.entries[x].file == x by {
            if x == id {
                assert(n.order[n.order.len() - 1] == id);
            } else {
                assert(k.entries.contains_key(x));
                assert(k.order.contains(x));
                let j = choose|j: int| 0 <= j < k.order.len() && k.order[j] == x;
                assert(n.order[j] == x);
            }
        }
        Added { id, inserted: true, evicted }
    }

    /// The entry of item `index`, whose blob the caller reads.
    pub fn get_entry(&self, index: usize) -> (r: Result<&Entry, HistoryError>)
        ensures
            match r {
                Ok(e) => self@.entries.contains_key(index) && *e == self@.entries[index],
                Err(e) => !self@.entries.contains_key(index) && e == HistoryError::NotFound,
            },
    {
        match self.bytes_map.get(&index) {
            Some(e) => Ok(e),
            None => Err(HistoryError::NotFound),
        }
    }

    /// Removes item `index` from the order and the entries, and returns its
    /// entry, whose files the caller removes. An absent id changes nothing.
    pub fn delete_entry(&mut self, index: usize) -> (r: Option<Entry>)
        requires
            well_formed(old(self)@),
        ensures
            well_formed(final(self)@),
            !final(self)@.order.contains(index),
            !final(self)@.entries.contains_key(index),
            final(self)@.next_id == old(self)@.next_id,
            final(self)@.entries == old(self)@.entries.remove(index),
            match r {
                Some(e) => old(self)@.entries.contains_key(index) && e == old(self)@.entries[index]
                    && (exists|i: int|
                    0 <= i < old(self)@.order.len() && old(self)@.order[i] == index
                        && #[trigger] final(self)@.order == old(self)@.order.remove(i)),
                None => !old(self)@.entries.contains_key(index) && final(self)@ == old(self)@,
            },
    {
        let ghost h = self@;
        let mut i: usize = 0;
        while i < self.history.len()
            invariant
                self@ == h,
                h == old(self)@,
                well_formed(h),
                i <= self@.order.len(),
                forall|k: int| 0 <= k < i ==> self@.order[k] != index,
            decreases self@.order.len() - i,
        {
            if self.history[i] == index {
                proof {
                    lemma_remove_keeps(h.order, i as int);
                }
                let e = self.remove_at(i);
                return Some(e);
            }
            i += 1;
        }
        assert(!h.order.contains(index));
        assert(h.entries.remove(index) =~= h.entries);
        None
    }

    /// The rendered line of the most recent item.
    pub fn last(&self, config: &Config) -> (r: Result<String, HistoryError>)
        requires
            well_formed(self@),
        ensures
            match r {
                Ok(s) => self@.order.len() >= 1 && s@ == preview_line(
                    self@.entries[self@.order.last()].preview,
                    self@.order.last() as nat,
                    *config,
                ),
                Err(e) => self@.order.len() == 0 && e == HistoryError::InsufficientHistory,
            },
    {
        let n = self.history.len();
        if n == 0 {
            return Err(HistoryError::InsufficientHistory);
        }
        let index = self.history[n - 1];
        let entry = self.bytes_map.get(&index).unwrap();
        Ok(entry.preview.to_preview(index, config))
    }

    /// The rendered line of the item before the most recent one.
    pub fn second_last(&self, config: &Config) -> (r: Result<String, HistoryError>)
        requires
            well_formed(self@),
        ensures
            match r {
                Ok(s) => self@.order.len() >= 2 && s@ == preview_line(
                    self@.entries[self@.order[self@.order.len() - 2]].preview,
                    self@.order[self@.order.len() - 2] as nat,
                    *config,
                ),
                Err(e) => self@.order.len() < 2 && e == HistoryError::InsufficientHistory,
            },
    {
        let n = self.history.len();
        if n < 2 {
            return Err(HistoryError::InsufficientHistory);
        }
        let index = self.history[n - 2];
        let entry = self.bytes_map.get(&index).unwrap();
        Ok(entry.preview.to_preview(index, config))
    }

    /// The rendered lines of all items, most recent first.
    pub fn list_entries(&self, config: &Config) -> (r: Vec<String>)
        requires
            well_formed(self@),
        ensures
            r@.len() == self@.order.len(),
            forall|k: int| #![auto]
                0 <= k < r@.len() ==> r@[k]@ == preview_line(
                    self@.entries[self@.order[self@.order.len() - 1 - k]].preview,
                    self@.order[self@.order.len() - 1 - k] as nat,
                    *config,
                ),
    {
        let n = self.history.len();
        let mut r: Vec<String> = Vec::new();
        let mut k: usize = 0;
        while k < n
            invariant
                well_formed(self@),
                n == self@.order.len(),
                k <= n,
                r@.len() == k,
                forall|j: int| #![auto]
                    0 <= j < k ==> r@[j]@ == preview_line(
                        self@.entries[self@.order[n - 1 - j]].preview,
                        self@.order[n - 1 - j] as nat,
                        *config,
                    ),
            decreases n - k,
        {
            let index = self.history[n - 1 - k];
            let entry = self.bytes_map.get(&index).unwrap();
            r.push(entry.preview.to_preview(index, config));
            k += 1;
        }
        r
    }

    /// Removes every item and returns their entries, oldest first, whose
    /// files the caller removes. Ids handed out stay used.
    pub fn clear(&mut self) -> (r: Vec<Entry>)
        requires
            well_formed(old(self)@),
        ensures
            well_formed(final(self)@),
            final(self)@.order.len() == 0,
            final(self)@.entries.len() == 0,
            final(self)@.entries == Map::<usize, Entry>::empty(),
            final(self)@.next_id == old(self)@.next_id,
            r@.len() == old(self)@.order.len(),
            forall|k: int| #![auto]
                0 <= k < r@.len() ==> r@[k] == old(self)@.entries[old(self)@.order[k]],
    {
        let ghost h = self@;
        let mut r: Vec<Entry> = Vec::new();
        while self.history.len() > 0
            invariant
                well_formed(self@),
                well_formed(h),
                self@.next_id == h.next_id,
                r@.len() <= h.order.len(),
                self@.order == h.order.subrange(r@.len() as int, h.order.len() as int),
                forall|k: int| #![auto] 0 <= k < r@.len() ==> r@[k] == h.entries[h.order[k]],
                forall|id: usize| #[trigger]
                    self@.entries.contains_key(id) ==> self@.entries[id] == h.entries[id],
            decreases self@.order.len(),
        {
            let e = self.remove_at(0);
            r.push(e);
            assert(self@.order =~= h.order.subrange(r@.len() as int, h.order.len() as int));
        }
        assert(self@.entries =~= Map::<usize, Entry>::empty()) by {
            assert forall|id: usize| !self@.entries.contains_key(id) by {
                if self@.entries.contains_key(id) {
                    assert(self@.order.contains(id));
                }
            }
        }
        assert(r@.len() == h.order.len());
        r
    }

    /// The ids whose blobs `add_entry` compares with new content, newest
    /// first: the last `max_dedupe_depth` ids left after eviction.
    pub fn dedupe_window(&self, config: &Config) -> (r: Vec<usize>)
        requires
            well_formed(self@),
            config.max_items >= 1,
        ensures
            r@ == window_ids(self@.order, config.max_items as nat, config.max_dedupe_depth as nat),
    {
        let len = self.history.len();
        let start: usize = if len >= config.max_items {
            len - config.max_items + 1
        } else {
            0
        };
        let kept_len = len - start;
        let depth = if kept_len < config.max_dedupe_depth {
            kept_len
        } else {
            config.max_dedupe_depth
        };
        let ghost kept = kept_order(self@.order, config.max_items as nat);
        assert(kept =~= self@.order.subrange(start as int, len as int));
        let mut r: Vec<usize> = Vec::new();
        let mut i: usize = 0;
        while i < depth
            invariant
                i <= depth <= kept_len,
                kept_len == kept.len(),
                kept == self@.order.subrange(start as int, len as int),
                len == self@.order.len(),
                start + kept_len == len,
                r@.len() == i,
                forall|k: int| 0 <= k < i ==> r@[k] == kept[kept.len() - 1 - k],
            decreases depth - i,
        {
            r.push(self.history[len - 1 - i]);
            i += 1;
        }
        assert(r@ =~= window_ids(
            self@.order,
            config.max_items as nat,
            config.max_dedupe_depth as nat,
        ));
        r
    }
}

} // verus!
