//! The nodes of a B-link tree as mathematics: which leaves every node covers, and
//! what holds of the tree as a whole.
use vstd::prelude::*;

use crate::betree::scan::RowView;
use crate::btree::node;
use crate::btree::node::NodeView;
use crate::bytes;

verus! {

/// A node covers the leaves from `lo` up to `hi`; leaves are at level 0.
pub struct Span {
    pub lo: int,
    pub hi: int,
    pub level: nat,
}

/// A tree: its nodes, its root, what the nodes in use cover, and its leaves in
/// key order.
#[verifier::ext_equal]
pub struct State {
    pub nodes: Seq<NodeView>,
    pub root: u64,
    pub spans: Map<u64, Span>,
    pub order: Seq<u64>,
}

/// The node is in use.
pub open spec fn live(s: State, p: u64) -> bool {
    s.spans.contains_key(p)
}

pub open spec fn lo(s: State, p: u64) -> int {
    s.spans[p].lo
}

pub open spec fn hi(s: State, p: u64) -> int {
    s.spans[p].hi
}

pub open spec fn level(s: State, p: u64) -> nat {
    s.spans[p].level
}

pub open spec fn height(s: State) -> nat {
    level(s, s.root)
}

pub open spec fn is_inner(s: State, p: u64) -> bool {
    live(s, p) && s.nodes[p as int] is Inner
}

pub open spec fn is_leaf(s: State, p: u64) -> bool {
    live(s, p) && s.nodes[p as int] is Leaf
}

pub open spec fn kids(s: State, p: u64) -> Seq<u64> {
    s.nodes[p as int]->kids
}

pub open spec fn seps(s: State, p: u64) -> Seq<Seq<u8>> {
    s.nodes[p as int]->seps
}

/// The rows of the leaf at index `j`.
pub open spec fn rows_at(s: State, j: int) -> Seq<RowView> {
    s.nodes[s.order[j] as int]->rows
}

/// Child `i` of node `p` stands where its neighbour to the left ends.
pub open spec fn kid_ok(s: State, p: u64, i: int) -> bool {
    let c = kids(s, p)[i];
    &&& live(s, c)
    &&& level(s, c) + 1 == level(s, p)
    &&& lo(s, c) == if i == 0 {
        lo(s, p)
    } else {
        hi(s, kids(s, p)[i - 1])
    }
    &&& i + 1 == kids(s, p).len() ==> hi(s, c) == hi(s, p)
}

pub open spec fn node_ok(s: State, p: u64) -> bool {
    &&& 0 < p < s.nodes.len()
    &&& 0 <= lo(s, p) < hi(s, p) <= s.order.len()
    &&& level(s, p) <= height(s)
    &&& match s.nodes[p as int] {
        NodeView::Free => false,
        NodeView::Leaf { .. } => level(s, p) == 0 && hi(s, p) == lo(s, p) + 1
            && s.order[lo(s, p)] == p,
        NodeView::Inner { seps, kids } => {
            &&& level(s, p) > 0
            &&& kids.len() == seps.len() + 1
            &&& forall|i: int| 0 <= i < kids.len() ==> #[trigger] kid_ok(s, p, i)
        },
    }
}

/// Two nodes cover different leaves.
pub open spec fn apart(s: State, p: u64, q: u64) -> bool {
    hi(s, p) <= lo(s, q) || hi(s, q) <= lo(s, p)
}

/// The nodes form a tree, all of whose leaves have the same depth.
pub open spec fn shape_ok(s: State) -> bool {
    &&& live(s, s.root)
    &&& lo(s, s.root) == 0
    &&& hi(s, s.root) == s.order.len()
    &&& forall|p: u64| #[trigger] live(s, p) ==> node_ok(s, p)
    &&& forall|p: u64|
        #![trigger s.nodes[p as int]]
        p < s.nodes.len() && !(s.nodes[p as int] is Free) ==> live(s, p)
    &&& forall|j: int|
        #![trigger s.order[j]]
        0 <= j < s.order.len() ==> is_leaf(s, s.order[j]) && lo(s, s.order[j]) == j
    &&& forall|p: u64, q: u64| #[trigger]
        live(s, p) && #[trigger] live(s, q) && p != q && level(s, p) == level(s, q) ==> apart(
            s,
            p,
            q,
        )
}

/// Leaves know their neighbours.
pub open spec fn links_ok(s: State) -> bool {
    forall|j: int|
        #![trigger s.order[j]]
        0 <= j < s.order.len() ==> {
            &&& s.nodes[s.order[j] as int]->left == if j > 0 {
                s.order[j - 1]
            } else {
                0
            }
            &&& s.nodes[s.order[j] as int]->right == if j + 1 < s.order.len() {
                s.order[j + 1]
            } else {
                0
            }
        }
}

/// Keys ascend through the leaves.
pub open spec fn keys_ok(s: State) -> bool {
    &&& forall|j: int|
        0 <= j < s.order.len() ==> node::sorted_rows(#[trigger] rows_at(s, j))
    &&& forall|j: int, k: int, a: int, b: int|
        #![trigger rows_at(s, j)[a], rows_at(s, k)[b]]
        0 <= j < k < s.order.len() && 0 <= a < rows_at(s, j).len() && 0 <= b < rows_at(
            s,
            k,
        ).len() ==> bytes::lex_lt(rows_at(s, j)[a].key, rows_at(s, k)[b].key)
}

/// No key up to the end of child `i` of node `p` is above the separator behind it.
pub open spec fn sep_bounds(s: State, p: u64, i: int, sep: Seq<u8>) -> bool {
    forall|j: int, a: int|
        #![trigger rows_at(s, j)[a]]
        0 <= j < hi(s, kids(s, p)[i]) && 0 <= a < rows_at(s, j).len() ==> !bytes::lex_lt(
            sep,
            rows_at(s, j)[a].key,
        )
}

pub open spec fn seps_ok(s: State) -> bool {
    forall|p: u64, i: int|
        #![trigger seps(s, p)[i]]
        is_inner(s, p) && 0 <= i < seps(s, p).len() ==> sep_bounds(s, p, i, seps(s, p)[i])
}

/// Every node fits its page.
pub open spec fn space_ok(s: State) -> bool {
    forall|p: u64| #[trigger] live(s, p) ==> node::fits(s.nodes[p as int])
}

pub open spec fn inv(s: State) -> bool {
    &&& shape_ok(s)
    &&& links_ok(s)
    &&& keys_ok(s)
    &&& seps_ok(s)
    &&& space_ok(s)
}

// ---------------------------------------------------------------------------
// Where nodes stand.

/// Every child of a node covers leaves of the node.
pub proof fn kid_inside(s: State, p: u64, i: int)
    requires
        shape_ok(s),
        is_inner(s, p),
        0 <= i < kids(s, p).len(),
    ensures
        live(s, kids(s, p)[i]),
        lo(s, p) <= lo(s, kids(s, p)[i]),
        hi(s, kids(s, p)[i]) <= hi(s, p),
        i + 1 < kids(s, p).len() ==> hi(s, kids(s, p)[i]) < hi(s, p),
{
    assert(node_ok(s, p));
    kid_lo(s, p, i);
    kid_hi(s, p, i);
}

proof fn kid_lo(s: State, p: u64, i: int)
    requires
        shape_ok(s),
        is_inner(s, p),
        0 <= i < kids(s, p).len(),
    ensures
        live(s, kids(s, p)[i]),
        lo(s, p) <= lo(s, kids(s, p)[i]),
    decreases i,
{
    assert(node_ok(s, p));
    assert(kid_ok(s, p, i));
    if i > 0 {
        kid_lo(s, p, i - 1);
        assert(node_ok(s, kids(s, p)[i - 1]));
    }
}

proof fn kid_hi(s: State, p: u64, i: int)
    requires
        shape_ok(s),
        is_inner(s, p),
        0 <= i < kids(s, p).len(),
    ensures
        hi(s, kids(s, p)[i]) <= hi(s, p),
        i + 1 < kids(s, p).len() ==> hi(s, kids(s, p)[i]) < hi(s, p),
    decreases kids(s, p).len() - i,
{
    assert(node_ok(s, p));
    assert(kid_ok(s, p, i));
    if i + 1 < kids(s, p).len() {
        kid_hi(s, p, i + 1);
        assert(kid_ok(s, p, i + 1));
        assert(node_ok(s, kids(s, p)[i + 1]));
    }
}

/// Children stand in order.
pub proof fn kids_in_order(s: State, p: u64, i: int, k: int)
    requires
        shape_ok(s),
        is_inner(s, p),
        0 <= i < k < kids(s, p).len(),
    ensures
        hi(s, kids(s, p)[i]) <= lo(s, kids(s, p)[k]),
    decreases k - i,
{
    assert(node_ok(s, p));
    assert(kid_ok(s, p, i));
    assert(kid_ok(s, p, k));
    if k > i + 1 {
        kids_in_order(s, p, i, k - 1);
        assert(kid_ok(s, p, k - 1));
        assert(node_ok(s, kids(s, p)[k - 1]));
    }
}

/// The child of a node that covers a leaf.
pub proof fn kid_covering(s: State, p: u64, j: int) -> (i: int)
    requires
        shape_ok(s),
        is_inner(s, p),
        lo(s, p) <= j < hi(s, p),
    ensures
        0 <= i < kids(s, p).len(),
        live(s, kids(s, p)[i]),
        lo(s, kids(s, p)[i]) <= j < hi(s, kids(s, p)[i]),
{
    assert(node_ok(s, p));
    assert(kid_ok(s, p, 0));
    kid_covering_from(s, p, j, 0)
}

proof fn kid_covering_from(s: State, p: u64, j: int, from: int) -> (i: int)
    requires
        shape_ok(s),
        is_inner(s, p),
        0 <= from < kids(s, p).len(),
        lo(s, kids(s, p)[from]) <= j < hi(s, p),
    ensures
        0 <= i < kids(s, p).len(),
        live(s, kids(s, p)[i]),
        lo(s, kids(s, p)[i]) <= j < hi(s, kids(s, p)[i]),
    decreases kids(s, p).len() - from,
{
    assert(node_ok(s, p));
    assert(kid_ok(s, p, from));
    if j < hi(s, kids(s, p)[from]) {
        from
    } else {
        assert(from + 1 < kids(s, p).len());
        assert(kid_ok(s, p, from + 1));
        kid_covering_from(s, p, j, from + 1)
    }
}

/// On every level some node covers a leaf.
pub proof fn covering(s: State, l: nat, j: int) -> (p: u64)
    requires
        shape_ok(s),
        l <= height(s),
        0 <= j < s.order.len(),
    ensures
        live(s, p),
        level(s, p) == l,
        lo(s, p) <= j < hi(s, p),
    decreases height(s) - l,
{
    if l == height(s) {
        s.root
    } else {
        let q = covering(s, l + 1, j);
        assert(node_ok(s, q));
        let i = kid_covering(s, q, j);
        assert(kid_ok(s, q, i));
        kids(s, q)[i]
    }
}

/// Every node but the root is the child of a node.
pub proof fn parent_exists(s: State, p: u64) -> (r: (u64, int))
    requires
        shape_ok(s),
        live(s, p),
        p != s.root,
    ensures
        is_inner(s, r.0),
        0 <= r.1 < kids(s, r.0).len(),
        kids(s, r.0)[r.1] == p,
{
    assert(node_ok(s, p));
    assert(node_ok(s, s.root));
    if level(s, p) == height(s) {
        assert(apart(s, p, s.root));
        assert(false);
    }
    let q = covering(s, level(s, p) + 1, lo(s, p));
    assert(node_ok(s, q));
    let i = kid_covering(s, q, lo(s, p));
    assert(kid_ok(s, q, i));
    let c = kids(s, q)[i];
    assert(node_ok(s, c));
    if c != p {
        assert(apart(s, c, p));
    }
    (q, i)
}

/// A node is the child of one node, in one place.
pub proof fn parent_is_unique(s: State, q: u64, i: int, q2: u64, i2: int)
    requires
        shape_ok(s),
        is_inner(s, q),
        is_inner(s, q2),
        0 <= i < kids(s, q).len(),
        0 <= i2 < kids(s, q2).len(),
        kids(s, q)[i] == kids(s, q2)[i2],
    ensures
        q == q2,
        i == i2,
{
    let c = kids(s, q)[i];
    assert(node_ok(s, q));
    assert(node_ok(s, q2));
    assert(kid_ok(s, q, i));
    assert(kid_ok(s, q2, i2));
    assert(node_ok(s, c));
    kid_inside(s, q, i);
    kid_inside(s, q2, i2);
    if q != q2 {
        assert(apart(s, q, q2));
    }
    if i < i2 {
        kids_in_order(s, q, i, i2);
    } else if i2 < i {
        kids_in_order(s, q, i2, i);
    }
}

/// On level 1 some node starts where a node above starts.
pub proof fn starts_below(s: State, p: u64) -> (r: u64)
    requires
        shape_ok(s),
        is_inner(s, p),
    ensures
        is_inner(s, r),
        level(s, r) == 1,
        lo(s, r) == lo(s, p),
    decreases level(s, p),
{
    assert(node_ok(s, p));
    if level(s, p) == 1 {
        p
    } else {
        assert(kid_ok(s, p, 0));
        let c = kids(s, p)[0];
        assert(node_ok(s, c));
        starts_below(s, c)
    }
}

/// On level 1 some node ends where a node above ends.
pub proof fn ends_below(s: State, p: u64) -> (r: u64)
    requires
        shape_ok(s),
        is_inner(s, p),
    ensures
        is_inner(s, r),
        level(s, r) == 1,
        hi(s, r) == hi(s, p),
    decreases level(s, p),
{
    assert(node_ok(s, p));
    if level(s, p) == 1 {
        p
    } else {
        let last = kids(s, p).len() - 1;
        assert(kid_ok(s, p, last));
        let c = kids(s, p)[last];
        assert(node_ok(s, c));
        ends_below(s, c)
    }
}

/// No node above the leaves begins or ends between two children of a node of
/// level 1.
pub proof fn no_boundary_inside(s: State, q: u64, i: int, p: u64)
    requires
        shape_ok(s),
        is_inner(s, q),
        level(s, q) == 1,
        0 <= i,
        i + 1 < kids(s, q).len(),
        is_inner(s, p),
    ensures
        lo(s, p) != hi(s, kids(s, q)[i]),
        hi(s, p) != hi(s, kids(s, q)[i]),
{
    let b = hi(s, kids(s, q)[i]);
    assert(node_ok(s, q));
    assert(kid_ok(s, q, i));
    assert(node_ok(s, kids(s, q)[i]));
    kid_inside(s, q, i);
    let x = starts_below(s, p);
    let y = ends_below(s, p);
    assert(node_ok(s, x));
    assert(node_ok(s, y));
    if lo(s, p) == b {
        if x != q {
            assert(apart(s, x, q));
        }
    }
    if hi(s, p) == b {
        if y != q {
            assert(apart(s, y, q));
        }
    }
}

} // verus!
