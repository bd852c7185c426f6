//! Nodes of a B-link tree, and how much of a page they take.
use vstd::prelude::*;

use crate::betree::scan;
use crate::betree::scan::{Row, RowView};
use crate::bytes;
use crate::page_id::PAGE_SIZE;

verus! {

/// What the header of a page takes.
pub const HEADER_LEN: usize = 24;

/// What a slot takes beside its key and value.
pub const SLOT_LEN: usize = 12;

/// What a reference to a page takes.
pub const LINK_LEN: usize = 8;

/// Room for entries in a leaf, beside its two sibling links.
pub const LEAF_CAPACITY: usize = 65496;

/// Room for separators in an inner node, beside its last child.
pub const INNER_CAPACITY: usize = 65504;

/// A node with more free space than this should be merged.
pub const UNDERFULL_THRESHOLD: usize = 39321;

/// The capacities follow from the size of a page.
pub proof fn capacities_follow_from_the_page_size()
    ensures
        LEAF_CAPACITY == PAGE_SIZE - HEADER_LEN - 2 * LINK_LEN,
        INNER_CAPACITY == PAGE_SIZE - HEADER_LEN - LINK_LEN,
        UNDERFULL_THRESHOLD == PAGE_SIZE * 60 / 100,
{
}

/// Entries in key order, and the neighbours to the left and right; 0 is none.
pub struct Leaf {
    pub rows: Vec<Row>,
    pub left: u64,
    pub right: u64,
}

/// Children, and between each two of them an upper bound of the keys up to there.
pub struct Inner {
    pub separators: Vec<Vec<u8>>,
    pub children: Vec<u64>,
}

pub enum Node {
    Free,
    Leaf(Leaf),
    Inner(Inner),
}

#[verifier::ext_equal]
pub enum NodeView {
    Free,
    Leaf { rows: Seq<RowView>, left: u64, right: u64 },
    Inner { seps: Seq<Seq<u8>>, kids: Seq<u64> },
}

pub open spec fn keys_view(keys: Seq<Vec<u8>>) -> Seq<Seq<u8>> {
    Seq::new(keys.len(), |i: int| keys[i]@)
}

impl View for Node {
    type V = NodeView;

    open spec fn view(&self) -> NodeView {
        match self {
            Node::Free => NodeView::Free,
            Node::Leaf(leaf) => NodeView::Leaf {
                rows: scan::rows_view(leaf.rows@),
                left: leaf.left,
                right: leaf.right,
            },
            Node::Inner(inner) => NodeView::Inner {
                seps: keys_view(inner.separators@),
                kids: inner.children@,
            },
        }
    }
}

pub open spec fn nodes_view(nodes: Seq<Node>) -> Seq<NodeView> {
    Seq::new(nodes.len(), |i: int| nodes[i]@)
}

// ---------------------------------------------------------------------------
// Space.

pub open spec fn row_len(row: RowView) -> int {
    SLOT_LEN + row.key.len() + row.value.len()
}

pub open spec fn rows_len(rows: Seq<RowView>) -> int
    decreases rows.len(),
{
    if rows.len() == 0 {
        0
    } else {
        rows_len(rows.drop_last()) + row_len(rows.last())
    }
}

pub open spec fn sep_len(sep: Seq<u8>) -> int {
    SLOT_LEN + LINK_LEN + sep.len()
}

pub open spec fn seps_len(seps: Seq<Seq<u8>>) -> int
    decreases seps.len(),
{
    if seps.len() == 0 {
        0
    } else {
        seps_len(seps.drop_last()) + sep_len(seps.last())
    }
}

/// The node fits its page.
pub open spec fn fits(n: NodeView) -> bool {
    match n {
        NodeView::Free => true,
        NodeView::Leaf { rows, .. } => rows_len(rows) <= LEAF_CAPACITY,
        NodeView::Inner { seps, .. } => seps_len(seps) <= INNER_CAPACITY,
    }
}

pub proof fn rows_len_nonneg(rows: Seq<RowView>)
    ensures
        rows_len(rows) >= 0,
    decreases rows.len(),
{
    if rows.len() > 0 {
        rows_len_nonneg(rows.drop_last());
    }
}

pub proof fn rows_len_add(a: Seq<RowView>, b: Seq<RowView>)
    ensures
        rows_len(a + b) == rows_len(a) + rows_len(b),
    decreases b.len(),
{
    if b.len() == 0 {
        assert(a + b =~= a);
    } else {
        assert((a + b).drop_last() =~= a + b.drop_last());
        rows_len_add(a, b.drop_last());
    }
}

pub proof fn rows_len_one(row: RowView)
    ensures
        rows_len(seq![row]) == row_len(row),
{
    assert(seq![row].drop_last() =~= Seq::<RowView>::empty());
    assert(rows_len(Seq::<RowView>::empty()) == 0);
}

/// Space taken by a part of the rows.
pub proof fn rows_len_split(rows: Seq<RowView>, i: int)
    requires
        0 <= i <= rows.len(),
    ensures
        rows_len(rows) == rows_len(rows.take(i)) + rows_len(rows.skip(i)),
        0 <= rows_len(rows.take(i)) <= rows_len(rows),
        0 <= rows_len(rows.skip(i)) <= rows_len(rows),
{
    assert(rows =~= rows.take(i) + rows.skip(i));
    rows_len_add(rows.take(i), rows.skip(i));
    rows_len_nonneg(rows.take(i));
    rows_len_nonneg(rows.skip(i));
}

pub proof fn rows_len_insert(rows: Seq<RowView>, i: int, row: RowView)
    requires
        0 <= i <= rows.len(),
    ensures
        rows_len(rows.insert(i, row)) == rows_len(rows) + row_len(row),
{
    rows_len_split(rows, i);
    assert(rows.insert(i, row) =~= rows.take(i) + seq![row] + rows.skip(i));
    rows_len_add(rows.take(i) + seq![row], rows.skip(i));
    rows_len_add(rows.take(i), seq![row]);
    rows_len_one(row);
}

pub proof fn rows_len_remove(rows: Seq<RowView>, i: int)
    requires
        0 <= i < rows.len(),
    ensures
        rows_len(rows.remove(i)) == rows_len(rows) - row_len(rows[i]),
{
    assert(rows.remove(i).insert(i, rows[i]) =~= rows);
    rows_len_insert(rows.remove(i), i, rows[i]);
}

pub proof fn seps_len_nonneg(seps: Seq<Seq<u8>>)
    ensures
        seps_len(seps) >= 0,
    decreases seps.len(),
{
    if seps.len() > 0 {
        seps_len_nonneg(seps.drop_last());
    }
}

pub proof fn seps_len_add(a: Seq<Seq<u8>>, b: Seq<Seq<u8>>)
    ensures
        seps_len(a + b) == seps_len(a) + seps_len(b),
    decreases b.len(),
{
    if b.len() == 0 {
        assert(a + b =~= a);
    } else {
        assert((a + b).drop_last() =~= a + b.drop_last());
        seps_len_add(a, b.drop_last());
    }
}

pub proof fn seps_len_one(sep: Seq<u8>)
    ensures
        seps_len(seq![sep]) == sep_len(sep),
{
    assert(seq![sep].drop_last() =~= Seq::<Seq<u8>>::empty());
    assert(seps_len(Seq::<Seq<u8>>::empty()) == 0);
}

pub proof fn seps_len_split(seps: Seq<Seq<u8>>, i: int)
    requires
        0 <= i <= seps.len(),
    ensures
        seps_len(seps) == seps_len(seps.take(i)) + seps_len(seps.skip(i)),
        0 <= seps_len(seps.take(i)) <= seps_len(seps),
        0 <= seps_len(seps.skip(i)) <= seps_len(seps),
{
    assert(seps =~= seps.take(i) + seps.skip(i));
    seps_len_add(seps.take(i), seps.skip(i));
    seps_len_nonneg(seps.take(i));
    seps_len_nonneg(seps.skip(i));
}

pub proof fn seps_len_insert(seps: Seq<Seq<u8>>, i: int, sep: Seq<u8>)
    requires
        0 <= i <= seps.len(),
    ensures
        seps_len(seps.insert(i, sep)) == seps_len(seps) + sep_len(sep),
{
    seps_len_split(seps, i);
    assert(seps.insert(i, sep) =~= seps.take(i) + seq![sep] + seps.skip(i));
    seps_len_add(seps.take(i) + seq![sep], seps.skip(i));
    seps_len_add(seps.take(i), seq![sep]);
    seps_len_one(sep);
}

pub proof fn seps_len_remove(seps: Seq<Seq<u8>>, i: int)
    requires
        0 <= i < seps.len(),
    ensures
        seps_len(seps.remove(i)) == seps_len(seps) - sep_len(seps[i]),
{
    assert(seps.remove(i).insert(i, seps[i]) =~= seps);
    seps_len_insert(seps.remove(i), i, seps[i]);
}

pub proof fn seps_len_update(seps: Seq<Seq<u8>>, i: int, sep: Seq<u8>)
    requires
        0 <= i < seps.len(),
    ensures
        seps_len(seps.update(i, sep)) == seps_len(seps) - sep_len(seps[i]) + sep_len(sep),
{
    seps_len_remove(seps, i);
    assert(seps.remove(i).insert(i, sep) =~= seps.update(i, sep));
    seps_len_insert(seps.remove(i), i, sep);
}

/// Every separator takes some space.
pub proof fn seps_len_counts(seps: Seq<Seq<u8>>)
    ensures
        seps_len(seps) >= 16 * seps.len(),
    decreases seps.len(),
{
    if seps.len() > 0 {
        seps_len_counts(seps.drop_last());
    }
}

/// Space that the rows of a leaf take.
pub fn rows_space(rows: &[Row]) -> (r: usize)
    requires
        rows_len(scan::rows_view(rows@)) <= LEAF_CAPACITY,
    ensures
        r == rows_len(scan::rows_view(rows@)),
{
    let ghost all = scan::rows_view(rows@);
    let mut total: usize = 0;
    let mut i: usize = 0;
    assert(all.take(0) =~= Seq::<RowView>::empty());
    while i < rows.len()
        invariant
            i <= rows@.len(),
            all == scan::rows_view(rows@),
            rows_len(all) <= LEAF_CAPACITY,
            total == rows_len(all.take(i as int)),
        decreases rows@.len() - i,
    {
        proof {
            assert(all.take(i + 1).drop_last() =~= all.take(i as int));
            rows_len_split(all, i + 1);
            rows_len_nonneg(all.take(i as int));
        }
        total = total + SLOT_LEN + rows[i].key.len() + rows[i].value.len();
        i += 1;
    }
    assert(all.take(i as int) =~= all);
    total
}

/// Space that the separators of an inner node take.
pub fn separators_space(separators: &[Vec<u8>]) -> (r: usize)
    requires
        seps_len(keys_view(separators@)) <= INNER_CAPACITY,
    ensures
        r == seps_len(keys_view(separators@)),
{
    let ghost all = keys_view(separators@);
    let mut total: usize = 0;
    let mut i: usize = 0;
    assert(all.take(0) =~= Seq::<Seq<u8>>::empty());
    while i < separators.len()
        invariant
            i <= separators@.len(),
            all == keys_view(separators@),
            seps_len(all) <= INNER_CAPACITY,
            total == seps_len(all.take(i as int)),
        decreases separators@.len() - i,
    {
        proof {
            assert(all.take(i + 1).drop_last() =~= all.take(i as int));
            seps_len_split(all, i + 1);
            seps_len_nonneg(all.take(i as int));
        }
        total = total + SLOT_LEN + LINK_LEN + separators[i].len();
        i += 1;
    }
    assert(all.take(i as int) =~= all);
    total
}

/// Another entry fits the leaf.
pub open spec fn can_insert(rows: Seq<RowView>, key_len: int, value_len: int) -> bool {
    rows_len(rows) + SLOT_LEN + key_len + value_len <= LEAF_CAPACITY
}

/// Another separator fits the inner node.
pub open spec fn can_insert_separator(seps: Seq<Seq<u8>>, key_len: int) -> bool {
    seps_len(seps) + SLOT_LEN + LINK_LEN + key_len <= INNER_CAPACITY
}

/// `used` bytes and `more` fit into `capacity`.
fn within(used: usize, more: usize, capacity: usize) -> (r: bool)
    requires
        used <= capacity,
    ensures
        r == (used + more <= capacity),
{
    more <= capacity - used
}

impl Leaf {
    pub fn can_insert_entry(&self, key_len: usize, value_len: usize) -> (r: bool)
        requires
            rows_len(scan::rows_view(self.rows@)) <= LEAF_CAPACITY,
        ensures
            r == can_insert(scan::rows_view(self.rows@), key_len as int, value_len as int),
    {
        proof {
            rows_len_nonneg(scan::rows_view(self.rows@));
        }
        let used: usize = rows_space(self.rows.as_slice());
        if key_len > LEAF_CAPACITY || value_len > LEAF_CAPACITY {
            return false;
        }
        within(used, SLOT_LEN + key_len + value_len, LEAF_CAPACITY)
    }

    pub fn free_space_after_compaction(&self) -> (r: usize)
        requires
            rows_len(scan::rows_view(self.rows@)) <= LEAF_CAPACITY,
        ensures
            r == LEAF_CAPACITY - rows_len(scan::rows_view(self.rows@)),
    {
        let used: usize = rows_space(self.rows.as_slice());
        LEAF_CAPACITY - used
    }

    /// Little of the page is in use.
    pub fn is_underfull(&self) -> (r: bool)
        requires
            rows_len(scan::rows_view(self.rows@)) <= LEAF_CAPACITY,
        ensures
            r == (LEAF_CAPACITY - rows_len(scan::rows_view(self.rows@)) > UNDERFULL_THRESHOLD),
    {
        self.free_space_after_compaction() > UNDERFULL_THRESHOLD
    }
}

impl Inner {
    pub fn can_insert_separator(&self, key_len: usize) -> (r: bool)
        requires
            seps_len(keys_view(self.separators@)) <= INNER_CAPACITY,
        ensures
            r == can_insert_separator(keys_view(self.separators@), key_len as int),
    {
        proof {
            seps_len_nonneg(keys_view(self.separators@));
        }
        let used: usize = separators_space(self.separators.as_slice());
        if key_len > INNER_CAPACITY {
            return false;
        }
        within(used, SLOT_LEN + LINK_LEN + key_len, INNER_CAPACITY)
    }

    /// Little of the page is in use.
    pub fn is_underfull(&self) -> (r: bool)
        requires
            seps_len(keys_view(self.separators@)) <= INNER_CAPACITY,
        ensures
            r == (INNER_CAPACITY - seps_len(keys_view(self.separators@)) > UNDERFULL_THRESHOLD),
    {
        let used: usize = separators_space(self.separators.as_slice());
        INNER_CAPACITY - used > UNDERFULL_THRESHOLD
    }
}

// ---------------------------------------------------------------------------
// Searching.

pub open spec fn sorted_rows(rows: Seq<RowView>) -> bool {
    forall|i: int, j: int|
        #![trigger rows[i], rows[j]]
        0 <= i < j < rows.len() ==> bytes::lex_lt(rows[i].key, rows[j].key)
}

/// `pos` is where `key` stands among the rows, or would.
pub open spec fn is_pos(rows: Seq<RowView>, key: Seq<u8>, pos: int) -> bool {
    &&& 0 <= pos <= rows.len()
    &&& forall|i: int| 0 <= i < pos ==> bytes::lex_lt((#[trigger] rows[i]).key, key)
    &&& forall|i: int| pos <= i < rows.len() ==> !bytes::lex_lt((#[trigger] rows[i]).key, key)
}

/// Where `key` stands among the rows, or would, and whether it is there.
pub fn lower_bound(rows: &[Row], key: &[u8]) -> (r: (usize, bool))
    requires
        sorted_rows(scan::rows_view(rows@)),
    ensures
        is_pos(scan::rows_view(rows@), key@, r.0 as int),
        r.1 == (r.0 < rows@.len() && rows@[r.0 as int].key@ == key@),
{
    let ghost all = scan::rows_view(rows@);
    let mut low: usize = 0;
    let mut high: usize = rows.len();
    while low < high
        invariant
            low <= high <= rows@.len(),
            all == scan::rows_view(rows@),
            sorted_rows(all),
            forall|i: int| 0 <= i < low ==> bytes::lex_lt((#[trigger] all[i]).key, key@),
            forall|i: int| high <= i < all.len() ==> !bytes::lex_lt((#[trigger] all[i]).key, key@),
        decreases high - low,
    {
        let mid: usize = low + (high - low) / 2;
        assert(all[mid as int].key == rows@[mid as int].key@);
        if bytes::key_less(rows[mid].key.as_slice(), key) {
            proof {
                assert forall|i: int| 0 <= i < mid + 1 implies bytes::lex_lt(
                    (#[trigger] all[i]).key,
                    key@,
                ) by {
                    if i < mid {
                        bytes::lex_lt_transitive(all[i].key, all[mid as int].key, key@);
                    }
                }
            }
            low = mid + 1;
        } else {
            proof {
                assert forall|i: int| mid <= i < all.len() implies !bytes::lex_lt(
                    (#[trigger] all[i]).key,
                    key@,
                ) by {
                    if i > mid && bytes::lex_lt(all[i].key, key@) {
                        bytes::lex_lt_transitive(all[mid as int].key, all[i].key, key@);
                    }
                }
            }
            high = mid;
        }
    }
    if low < rows.len() {
        (low, bytes::keys_equal(rows[low].key.as_slice(), key))
    } else {
        (low, false)
    }
}

/// How many rows have a key at or below `key`.
pub fn upper_bound(rows: &[Row], key: &[u8]) -> (r: usize)
    requires
        sorted_rows(scan::rows_view(rows@)),
    ensures
        r <= rows@.len(),
        forall|i: int|
            0 <= i < r ==> !bytes::lex_lt(key@, (#[trigger] scan::rows_view(rows@)[i]).key),
        forall|i: int|
            r <= i < rows@.len() ==> bytes::lex_lt(
                key@,
                (#[trigger] scan::rows_view(rows@)[i]).key,
            ),
{
    let ghost all = scan::rows_view(rows@);
    let (pos, exact) = lower_bound(rows, key);
    proof {
        bytes::lex_lt_irreflexive(key@);
        assert forall|i: int| 0 <= i < pos implies !bytes::lex_lt(
            key@,
            (#[trigger] all[i]).key,
        ) by {
            bytes::lex_lt_asymmetric(all[i].key, key@);
        }
        assert forall|i: int| pos <= i < all.len() && !(exact && i == pos) implies bytes::lex_lt(
            key@,
            (#[trigger] all[i]).key,
        ) by {
            bytes::lex_lt_total(key@, all[i].key);
            if all[i].key == key@ {
                if i > pos {
                    assert(bytes::lex_lt(all[pos as int].key, all[i].key));
                }
                assert(all[pos as int].key == rows@[pos as int].key@);
            }
        }
    }
    if exact {
        assert(all[pos as int].key == rows@[pos as int].key@);
        let count: usize = rows.len();
        assert(pos < count);
        pos + 1
    } else {
        pos
    }
}

/// The child to go down to: no separator before it reaches the key, and the one
/// behind it does.
pub open spec fn is_route(seps: Seq<Seq<u8>>, key: Seq<u8>, pos: int) -> bool {
    &&& 0 <= pos <= seps.len()
    &&& pos > 0 ==> bytes::lex_lt(seps[pos - 1], key)
    &&& pos < seps.len() ==> !bytes::lex_lt(seps[pos], key)
}

/// Where the search for `key` among the separators from `low` to `high` ends, which
/// halves them step by step.
pub open spec fn bisected(seps: Seq<Seq<u8>>, key: Seq<u8>, low: int, high: int) -> int
    decreases high - low,
{
    if low >= high {
        low
    } else {
        let mid = low + (high - low) / 2;
        if bytes::lex_lt(seps[mid], key) {
            bisected(seps, key, mid + 1, high)
        } else {
            bisected(seps, key, low, mid)
        }
    }
}

/// The child that `key` is routed to.
pub open spec fn route(seps: Seq<Seq<u8>>, key: Seq<u8>) -> int {
    bisected(seps, key, 0, seps.len() as int)
}

pub fn route_to_child(separators: &[Vec<u8>], key: &[u8]) -> (r: usize)
    ensures
        is_route(keys_view(separators@), key@, r as int),
        r == route(keys_view(separators@), key@),
{
    let ghost seps = keys_view(separators@);
    let mut low: usize = 0;
    let mut high: usize = separators.len();
    while low < high
        invariant
            low <= high <= separators@.len(),
            low > 0 ==> bytes::lex_lt(separators@[low - 1]@, key@),
            high < separators@.len() ==> !bytes::lex_lt(separators@[high as int]@, key@),
            seps == keys_view(separators@),
            bisected(seps, key@, low as int, high as int) == route(seps, key@),
        decreases high - low,
    {
        let mid: usize = low + (high - low) / 2;
        assert(seps[mid as int] == separators@[mid as int]@);
        if bytes::key_less(separators[mid].as_slice(), key) {
            low = mid + 1;
        } else {
            high = mid;
        }
    }
    low
}

/// The position of a child.
pub fn child_position(children: &[u64], child: u64) -> (r: Option<usize>)
    ensures
        match r {
            Some(i) => i < children@.len() && children@[i as int] == child && forall|k: int|
                0 <= k < i ==> children@[k] != child,
            None => !children@.contains(child),
        },
{
    let mut i: usize = 0;
    while i < children.len()
        invariant
            i <= children@.len(),
            forall|k: int| 0 <= k < i ==> children@[k] != child,
        decreases children@.len() - i,
    {
        if children[i] == child {
            return Some(i);
        }
        i += 1;
    }
    None
}

} // verus!
