//! Merges of neighbouring leaves of a B-link tree, with the separator between
//! them taken out of the parent.
use vstd::prelude::*;

use crate::btree::node;
use crate::btree::node::NodeView;
use crate::btree::state;
use crate::btree::state::{Span, State};
use crate::bytes;

verus! {

/// What a node covers once the leaf behind the leaf at index `f` is gone.
pub open spec fn moved_down(x: Span, f: int) -> Span {
    Span {
        lo: if x.lo > f {
            x.lo - 1
        } else {
            x.lo
        },
        hi: if x.hi > f + 1 {
            x.hi - 1
        } else {
            x.hi
        },
        level: x.level,
    }
}

/// The separators without the one between children `i` and `i + 1`; the one
/// behind them may be replaced.
pub open spec fn merged_seps(ss: Seq<Seq<u8>>, i: int, new: Option<Seq<u8>>) -> Seq<Seq<u8>> {
    let rest = ss.remove(i);
    match new {
        Some(sep) if i < rest.len() => rest.update(i, sep),
        _ => rest,
    }
}

pub open spec fn merge_leaf_nodes(s: State, f: int, q: u64, i: int, new: Option<Seq<u8>>) -> Seq<
    NodeView,
> {
    let p = s.order[f];
    let r = s.order[f + 1];
    let right = s.nodes[r as int]->right;
    let n1 = s.nodes.update(
        p as int,
        NodeView::Leaf {
            rows: state::rows_at(s, f) + state::rows_at(s, f + 1),
            left: s.nodes[p as int]->left,
            right,
        },
    ).update(r as int, NodeView::Free);
    let n2 = if right != 0 {
        n1.update(
            right as int,
            NodeView::Leaf {
                rows: s.nodes[right as int]->rows,
                left: p,
                right: s.nodes[right as int]->right,
            },
        )
    } else {
        n1
    };
    n2.update(
        q as int,
        NodeView::Inner {
            seps: merged_seps(state::seps(s, q), i, new),
            kids: state::kids(s, q).remove(i + 1),
        },
    )
}

pub open spec fn merge_leaf_spans(s: State, f: int) -> Map<u64, Span> {
    Map::new(
        |p: u64| state::live(s, p) && p != s.order[f + 1],
        |p: u64| moved_down(s.spans[p], f),
    )
}

/// Leaf `f + 1` merged into leaf `f`, which are children `i + 1` and `i` of `q`.
pub open spec fn merge_leaf(s: State, f: int, q: u64, i: int, new: Option<Seq<u8>>) -> State {
    State {
        nodes: merge_leaf_nodes(s, f, q, i, new),
        root: s.root,
        spans: merge_leaf_spans(s, f),
        order: s.order.remove(f + 1),
    }
}

/// The separator is at or above all keys of the leaves up to `f + 1`.
pub open spec fn bounds_merged(s: State, f: int, sep: Seq<u8>) -> bool {
    forall|j: int, a: int|
        #![trigger state::rows_at(s, j)[a]]
        0 <= j <= f + 1 && 0 <= a < state::rows_at(s, j).len() ==> !bytes::lex_lt(
            sep,
            state::rows_at(s, j)[a].key,
        )
}

#[verifier::opaque]
pub open spec fn can_merge_leaf(
    s: State,
    f: int,
    q: u64,
    i: int,
    new: Option<Seq<u8>>,
) -> bool {
    &&& state::inv(s)
    &&& 0 <= f
    &&& f + 1 < s.order.len()
    &&& state::is_inner(s, q)
    &&& 0 <= i
    &&& i + 1 < state::kids(s, q).len()
    &&& state::kids(s, q)[i] == s.order[f]
    &&& state::kids(s, q)[i + 1] == s.order[f + 1]
    &&& node::rows_len(state::rows_at(s, f) + state::rows_at(s, f + 1)) <= node::LEAF_CAPACITY
    &&& new matches Some(sep) ==> bounds_merged(s, f, sep)
    &&& node::seps_len(merged_seps(state::seps(s, q), i, new)) <= node::INNER_CAPACITY
}

pub proof fn apart(s: State, f: int, q: u64, i: int, new: Option<Seq<u8>>)
    requires
        can_merge_leaf(s, f, q, i, new),
    ensures
        0 <= f,
        f + 1 < s.order.len(),
        0 <= i,
        i + 1 < state::kids(s, q).len(),
        state::kids(s, q).len() == state::seps(s, q).len() + 1,
        state::is_inner(s, q),
        state::node_ok(s, q),
        state::level(s, q) == 1,
        state::kids(s, q)[i] == s.order[f],
        state::kids(s, q)[i + 1] == s.order[f + 1],
        state::kid_ok(s, q, i),
        state::kid_ok(s, q, i + 1),
        state::is_leaf(s, s.order[f]),
        state::is_leaf(s, s.order[f + 1]),
        state::node_ok(s, s.order[f]),
        state::node_ok(s, s.order[f + 1]),
        s.spans[s.order[f]] == (Span { lo: f, hi: f + 1, level: 0 }),
        s.spans[s.order[f + 1]] == (Span { lo: f + 1, hi: f + 2, level: 0 }),
        s.order[f] != s.order[f + 1],
        s.order[f] != q,
        s.order[f + 1] != q,
        state::lo(s, q) <= f,
        f + 2 <= state::hi(s, q),
        s.nodes[s.order[f] as int]->right == s.order[f + 1],
        s.nodes[s.order[f + 1] as int]->right == (if f + 2 < s.order.len() {
            s.order[f + 2]
        } else {
            0
        }),
        f + 2 < s.order.len() ==> state::is_leaf(s, s.order[f + 2]) && state::lo(
            s,
            s.order[f + 2],
        ) == f + 2 && s.order[f + 2] != 0 && s.order[f + 2] < s.nodes.len(),
        s.root != s.order[f],
        s.root != s.order[f + 1],
{
    reveal(can_merge_leaf);
    assert(state::node_ok(s, q));
    assert(state::kid_ok(s, q, i));
    assert(state::kid_ok(s, q, i + 1));
    assert(state::is_leaf(s, s.order[f]));
    assert(state::is_leaf(s, s.order[f + 1]));
    assert(state::node_ok(s, s.order[f]));
    assert(state::node_ok(s, s.order[f + 1]));
    state::kid_inside(s, q, i);
    state::kid_inside(s, q, i + 1);
    assert(state::node_ok(s, s.root));
    if f + 2 < s.order.len() {
        assert(state::is_leaf(s, s.order[f + 2]));
        assert(state::node_ok(s, s.order[f + 2]));
    }
}

/// The rows after the merge.
pub proof fn merge_leaf_rows(s: State, f: int, q: u64, i: int, new: Option<Seq<u8>>)
    requires
        can_merge_leaf(s, f, q, i, new),
    ensures
        ({
            let t = merge_leaf(s, f, q, i, new);
            &&& t.order.len() == s.order.len() - 1
            &&& forall|j: int|
                0 <= j < t.order.len() ==> #[trigger] state::rows_at(t, j) == (if j < f {
                    state::rows_at(s, j)
                } else if j == f {
                    state::rows_at(s, f) + state::rows_at(s, f + 1)
                } else {
                    state::rows_at(s, j + 1)
                })
        }),
{
    let t = merge_leaf(s, f, q, i, new);
    apart(s, f, q, i, new);
    reveal(can_merge_leaf);
    assert forall|j: int| 0 <= j < t.order.len() implies #[trigger] state::rows_at(t, j) == (if j
        < f {
        state::rows_at(s, j)
    } else if j == f {
        state::rows_at(s, f) + state::rows_at(s, f + 1)
    } else {
        state::rows_at(s, j + 1)
    }) by {
        if j < f {
            assert(t.order[j] == s.order[j]);
            assert(state::is_leaf(s, s.order[j]));
            assert(state::lo(s, s.order[j]) == j);
        } else if j > f {
            assert(t.order[j] == s.order[j + 1]);
            assert(state::is_leaf(s, s.order[j + 1]));
            assert(state::lo(s, s.order[j + 1]) == j + 1);
        }
    }
}

/// A child of a node other than the two leaves.
proof fn other_kid(s: State, f: int, q: u64, i: int, new: Option<Seq<u8>>, x: u64, k: int)
    requires
        can_merge_leaf(s, f, q, i, new),
        state::is_inner(s, x),
        0 <= k < state::kids(s, x).len(),
        !(x == q && k == i + 1),
    ensures
        state::kid_ok(s, x, k),
        state::live(s, state::kids(s, x)[k]),
        state::kids(s, x)[k] != s.order[f + 1],
        state::live(merge_leaf(s, f, q, i, new), state::kids(s, x)[k]),
        merge_leaf(s, f, q, i, new).spans[state::kids(s, x)[k]] == moved_down(
            s.spans[state::kids(s, x)[k]],
            f,
        ),
        !(x == q && k == i) ==> state::hi(s, state::kids(s, x)[k]) != f + 1,
        state::lo(s, state::kids(s, x)[k]) != f + 1,
{
    reveal(can_merge_leaf);
    apart(s, f, q, i, new);
    assert(state::node_ok(s, x));
    assert(state::kid_ok(s, x, k));
    let c = state::kids(s, x)[k];
    assert(state::node_ok(s, c));
    if c == s.order[f + 1] {
        state::parent_is_unique(s, x, k, q, i + 1);
    }
    if c == s.order[f] {
        state::parent_is_unique(s, x, k, q, i);
    }
    if s.nodes[c as int] is Inner {
        state::no_boundary_inside(s, q, i, c);
    } else {
        let j = state::lo(s, c);
        assert(s.order[j] == c);
    }
}

proof fn parent_ok(s: State, f: int, q: u64, i: int, new: Option<Seq<u8>>)
    requires
        can_merge_leaf(s, f, q, i, new),
    ensures
        state::node_ok(merge_leaf(s, f, q, i, new), q),
{
    let t = merge_leaf(s, f, q, i, new);
    apart(s, f, q, i, new);
    top(s, f, q, i, new);
    let ks = state::kids(s, q);
    let kt = ks.remove(i + 1);
    assert(state::kids(t, q) == kt);
    assert(t.spans[q] == moved_down(s.spans[q], f));
    assert(t.order.len() == s.order.len() - 1);
    assert forall|k: int| 0 <= k < state::kids(t, q).len() implies #[trigger] state::kid_ok(
        t,
        q,
        k,
    ) by {
        if k <= i {
            assert(kt[k] == ks[k]);
            other_kid(s, f, q, i, new, q, k);
            if k > 0 {
                assert(kt[k - 1] == ks[k - 1]);
                other_kid(s, f, q, i, new, q, k - 1);
            }
        } else {
            assert(kt[k] == ks[k + 1]);
            other_kid(s, f, q, i, new, q, k + 1);
            if k == i + 1 {
                assert(kt[k - 1] == s.order[f]);
                other_kid(s, f, q, i, new, q, i);
            } else {
                assert(kt[k - 1] == ks[k]);
                other_kid(s, f, q, i, new, q, k);
            }
        }
    }
}

/// The root keeps covering everything.
proof fn top(s: State, f: int, q: u64, i: int, new: Option<Seq<u8>>)
    requires
        can_merge_leaf(s, f, q, i, new),
    ensures
        ({
            let t = merge_leaf(s, f, q, i, new);
            &&& state::live(t, s.root)
            &&& t.spans[s.root] == Span {
                lo: 0,
                hi: s.order.len() - 1,
                level: state::height(s),
            }
            &&& state::height(t) == state::height(s)
        }),
{
    apart(s, f, q, i, new);
    reveal(can_merge_leaf);
}

proof fn other_ok(s: State, f: int, q: u64, i: int, new: Option<Seq<u8>>, x: u64)
    requires
        can_merge_leaf(s, f, q, i, new),
        state::live(s, x),
        x != s.order[f],
        x != s.order[f + 1],
        x != q,
    ensures
        state::node_ok(merge_leaf(s, f, q, i, new), x),
        state::is_inner(s, x) ==> merge_leaf(s, f, q, i, new).nodes[x as int]
            == s.nodes[x as int],
{
    let t = merge_leaf(s, f, q, i, new);
    apart(s, f, q, i, new);
    top(s, f, q, i, new);
    assert(state::node_ok(s, x)) by {
        reveal(can_merge_leaf);
    }
    assert(t.order.len() == s.order.len() - 1);
    assert(t.spans[x] == moved_down(s.spans[x], f));
    if s.nodes[x as int] is Inner {
        assert(t.nodes[x as int] == s.nodes[x as int]);
        assert(state::lo(s, x) != f + 1 && state::hi(s, x) != f + 1) by {
            reveal(can_merge_leaf);
            state::no_boundary_inside(s, q, i, x);
        }
        assert forall|k: int| 0 <= k < state::kids(t, x).len() implies #[trigger] state::kid_ok(
            t,
            x,
            k,
        ) by {
            other_kid(s, f, q, i, new, x, k);
            if k > 0 {
                other_kid(s, f, q, i, new, x, k - 1);
            }
        }
    } else {
        let j = state::lo(s, x);
        assert(s.order[j] == x);
        if j > f {
            assert(j != f + 1);
            assert(t.order[j - 1] == x);
        } else {
            assert(j != f);
            assert(t.order[j] == x);
        }
    }
}

proof fn shape(s: State, f: int, q: u64, i: int, new: Option<Seq<u8>>)
    requires
        can_merge_leaf(s, f, q, i, new),
    ensures
        state::shape_ok(merge_leaf(s, f, q, i, new)),
{
    let t = merge_leaf(s, f, q, i, new);
    apart(s, f, q, i, new);
    top(s, f, q, i, new);
    assert forall|x: u64| #[trigger] state::live(t, x) implies state::node_ok(t, x) by {
        assert(state::live(s, x));
        if x == q {
            parent_ok(s, f, q, i, new);
        } else if x == s.order[f] {
            assert(t.order[f] == x);
        } else {
            other_ok(s, f, q, i, new, x);
        }
    }
    reveal(can_merge_leaf);
    assert forall|x: u64|
        #![trigger t.nodes[x as int]]
        x < t.nodes.len() && !(t.nodes[x as int] is Free) implies state::live(t, x) by {
        let n = s.nodes[x as int];
    }
    assert forall|j: int|
        #![trigger t.order[j]]
        0 <= j < t.order.len() implies state::is_leaf(t, t.order[j]) && state::lo(t, t.order[j])
        == j by {
        if j <= f {
            assert(t.order[j] == s.order[j]);
            assert(state::is_leaf(s, s.order[j]));
            assert(state::lo(s, s.order[j]) == j);
        } else {
            assert(t.order[j] == s.order[j + 1]);
            assert(state::is_leaf(s, s.order[j + 1]));
            assert(state::lo(s, s.order[j + 1]) == j + 1);
        }
    }
    assert forall|a: u64, b: u64| #[trigger]
        state::live(t, a) && #[trigger] state::live(t, b) && a != b && state::level(t, a)
            == state::level(t, b) implies state::apart(t, a, b) by {
        assert(state::live(s, a) && state::live(s, b));
        assert(state::apart(s, a, b));
        assert(state::node_ok(s, a));
        assert(state::node_ok(s, b));
        not_between(s, f, q, i, new, a);
        not_between(s, f, q, i, new, b);
    }
}

/// Nothing but the two leaves begins or ends between them.
proof fn not_between(s: State, f: int, q: u64, i: int, new: Option<Seq<u8>>, x: u64)
    requires
        can_merge_leaf(s, f, q, i, new),
        state::live(s, x),
        x != s.order[f + 1],
    ensures
        state::lo(s, x) != f + 1,
        x != s.order[f] ==> state::hi(s, x) != f + 1,
{
    apart(s, f, q, i, new);
    reveal(can_merge_leaf);
    assert(state::node_ok(s, x));
    if s.nodes[x as int] is Inner {
        state::no_boundary_inside(s, q, i, x);
    } else {
        let j = state::lo(s, x);
        assert(s.order[j] == x);
    }
}

proof fn links(s: State, f: int, q: u64, i: int, new: Option<Seq<u8>>)
    requires
        can_merge_leaf(s, f, q, i, new),
    ensures
        state::links_ok(merge_leaf(s, f, q, i, new)),
{
    let t = merge_leaf(s, f, q, i, new);
    apart(s, f, q, i, new);
    reveal(can_merge_leaf);
    assert forall|j: int| #![trigger t.order[j]] 0 <= j < t.order.len() implies {
        &&& t.nodes[t.order[j] as int]->left == (if j > 0 {
            t.order[j - 1]
        } else {
            0
        })
        &&& t.nodes[t.order[j] as int]->right == (if j + 1 < t.order.len() {
            t.order[j + 1]
        } else {
            0
        })
    } by {
        if j <= f {
            assert(t.order[j] == s.order[j]);
            assert(state::is_leaf(s, s.order[j]));
            assert(state::lo(s, s.order[j]) == j);
            if j > 0 {
                assert(t.order[j - 1] == s.order[j - 1]);
            }
            if j < f {
                assert(t.order[j + 1] == s.order[j + 1]);
            } else if j + 1 < t.order.len() {
                assert(t.order[j + 1] == s.order[j + 2]);
            }
        } else {
            assert(t.order[j] == s.order[j + 1]);
            assert(state::is_leaf(s, s.order[j + 1]));
            assert(state::lo(s, s.order[j + 1]) == j + 1);
            if j > f + 1 {
                assert(t.order[j - 1] == s.order[j]);
            } else {
                assert(t.order[j - 1] == s.order[f]);
            }
            if j + 1 < t.order.len() {
                assert(t.order[j + 1] == s.order[j + 2]);
            }
        }
    }
}

/// Where a row stood before the merge of leaf `f`, which had `n` rows.
pub open spec fn came_from(f: int, n: int, j: int, a: int) -> (int, int) {
    if j < f {
        (j, a)
    } else if j == f {
        if a < n {
            (f, a)
        } else {
            (f + 1, a - n)
        }
    } else {
        (j + 1, a)
    }
}

proof fn keys(s: State, f: int, q: u64, i: int, new: Option<Seq<u8>>)
    requires
        can_merge_leaf(s, f, q, i, new),
    ensures
        state::keys_ok(merge_leaf(s, f, q, i, new)),
{
    let t = merge_leaf(s, f, q, i, new);
    apart(s, f, q, i, new);
    merge_leaf_rows(s, f, q, i, new);
    assert(state::keys_ok(s)) by {
        reveal(can_merge_leaf);
    }
    let n = state::rows_at(s, f).len() as int;
    assert forall|j: int| 0 <= j < t.order.len() implies node::sorted_rows(
        #[trigger] state::rows_at(t, j),
    ) by {
        let part = state::rows_at(t, j);
        assert forall|a: int, b: int|
            #![trigger part[a], part[b]]
            0 <= a < b < part.len() implies bytes::lex_lt(part[a].key, part[b].key) by {
            let (j0, a0) = came_from(f, n, j, a);
            let (k0, b0) = came_from(f, n, j, b);
            assert(part[a] == state::rows_at(s, j0)[a0]);
            assert(part[b] == state::rows_at(s, k0)[b0]);
            if j0 == k0 {
                assert(node::sorted_rows(state::rows_at(s, j0)));
            }
        }
    }
    assert forall|j: int, k: int, a: int, b: int|
        #![trigger state::rows_at(t, j)[a], state::rows_at(t, k)[b]]
        0 <= j < k < t.order.len() && 0 <= a < state::rows_at(t, j).len() && 0 <= b
            < state::rows_at(t, k).len() implies bytes::lex_lt(
        state::rows_at(t, j)[a].key,
        state::rows_at(t, k)[b].key,
    ) by {
        let (j0, a0) = came_from(f, n, j, a);
        let (k0, b0) = came_from(f, n, k, b);
        assert(state::rows_at(t, j)[a] == state::rows_at(s, j0)[a0]);
        assert(state::rows_at(t, k)[b] == state::rows_at(s, k0)[b0]);
    }
}

/// A separator bounds what it did; the child before it ends one leaf earlier.
proof fn old_sep(
    s: State,
    f: int,
    q: u64,
    i: int,
    new: Option<Seq<u8>>,
    x: u64,
    k: int,
    h: int,
    bound: Seq<u8>,
)
    requires
        can_merge_leaf(s, f, q, i, new),
        0 <= h <= s.order.len(),
        h != f + 1,
        forall|j: int, a: int|
            #![trigger state::rows_at(s, j)[a]]
            0 <= j < h && 0 <= a < state::rows_at(s, j).len() ==> !bytes::lex_lt(
                bound,
                state::rows_at(s, j)[a].key,
            ),
        state::hi(
            merge_leaf(s, f, q, i, new),
            state::kids(merge_leaf(s, f, q, i, new), x)[k],
        ) == if h > f + 1 {
            h - 1
        } else {
            h
        },
    ensures
        state::sep_bounds(merge_leaf(s, f, q, i, new), x, k, bound),
{
    let t = merge_leaf(s, f, q, i, new);
    apart(s, f, q, i, new);
    merge_leaf_rows(s, f, q, i, new);
    let n = state::rows_at(s, f).len() as int;
    assert forall|j: int, a: int|
        #![trigger state::rows_at(t, j)[a]]
        0 <= j < state::hi(t, state::kids(t, x)[k]) && 0 <= a < state::rows_at(
            t,
            j,
        ).len() implies !bytes::lex_lt(bound, state::rows_at(t, j)[a].key) by {
        let (j0, a0) = came_from(f, n, j, a);
        assert(state::rows_at(t, j)[a] == state::rows_at(s, j0)[a0]);
    }
}

proof fn seps(s: State, f: int, q: u64, i: int, new: Option<Seq<u8>>)
    requires
        can_merge_leaf(s, f, q, i, new),
    ensures
        state::seps_ok(merge_leaf(s, f, q, i, new)),
{
    let t = merge_leaf(s, f, q, i, new);
    apart(s, f, q, i, new);
    let ss = state::seps(s, q);
    let ks = state::kids(s, q);
    assert forall|x: u64, k: int|
        #![trigger state::seps(t, x)[k]]
        state::is_inner(t, x) && 0 <= k < state::seps(t, x).len() implies state::sep_bounds(
        t,
        x,
        k,
        state::seps(t, x)[k],
    ) by {
        assert(state::live(s, x));
        if x == q {
            assert(state::seps(t, q) == merged_seps(ss, i, new));
            assert(state::kids(t, q) == ks.remove(i + 1));
            if k < i {
                assert(state::seps(t, q)[k] == ss[k]);
                assert(state::kids(t, q)[k] == ks[k]);
                kept_sep(s, f, q, i, new, q, k, q, k);
            } else if k == i {
                assert(state::kids(t, q)[k] == s.order[f]);
                other_kid(s, f, q, i, new, q, i);
                assert(state::kid_ok(s, q, i + 1));
                let bound = state::seps(t, q)[k];
                assert forall|j: int, a: int|
                    #![trigger state::rows_at(s, j)[a]]
                    0 <= j < f + 2 && 0 <= a < state::rows_at(s, j).len() implies !bytes::lex_lt(
                    bound,
                    state::rows_at(s, j)[a].key,
                ) by {
                    reveal(can_merge_leaf);
                    if new is None {
                        assert(bound == ss[i + 1]);
                        assert(state::sep_bounds(s, q, i + 1, ss[i + 1]));
                    }
                }
                old_sep(s, f, q, i, new, q, k, f + 2, bound);
            } else {
                assert(state::seps(t, q)[k] == ss[k + 1]);
                assert(state::kids(t, q)[k] == ks[k + 1]);
                kept_sep(s, f, q, i, new, q, k, q, k + 1);
            }
        } else {
            if x == s.order[f] || x == s.order[f + 1] {
            } else {
                inner_before(s, f, q, i, new, x);
                other_ok(s, f, q, i, new, x);
                kept_sep(s, f, q, i, new, x, k, x, k);
            }
        }
    }
}

/// An inner node was one before.
proof fn inner_before(s: State, f: int, q: u64, i: int, new: Option<Seq<u8>>, x: u64)
    requires
        can_merge_leaf(s, f, q, i, new),
        state::is_inner(merge_leaf(s, f, q, i, new), x),
        x != s.order[f],
        x != s.order[f + 1],
        x != q,
    ensures
        state::is_inner(s, x),
{
    apart(s, f, q, i, new);
    reveal(can_merge_leaf);
    assert(state::live(s, x));
    assert(state::node_ok(s, x));
}

/// A separator of a child that was not merged.
proof fn kept_sep(
    s: State,
    f: int,
    q: u64,
    i: int,
    new: Option<Seq<u8>>,
    x: u64,
    k: int,
    x0: u64,
    k0: int,
)
    requires
        can_merge_leaf(s, f, q, i, new),
        state::is_inner(s, x0),
        0 <= k0 < state::seps(s, x0).len(),
        !(x0 == q && (k0 == i || k0 == i + 1)),
        state::kids(merge_leaf(s, f, q, i, new), x)[k] == state::kids(s, x0)[k0],
    ensures
        state::sep_bounds(merge_leaf(s, f, q, i, new), x, k, state::seps(s, x0)[k0]),
{
    let c = state::kids(s, x0)[k0];
    assert(state::kids(s, x0).len() == state::seps(s, x0).len() + 1 && state::sep_bounds(
        s,
        x0,
        k0,
        state::seps(s, x0)[k0],
    )) by {
        reveal(can_merge_leaf);
        assert(state::node_ok(s, x0));
    }
    other_kid(s, f, q, i, new, x0, k0);
    assert(0 <= state::hi(s, c) <= s.order.len()) by {
        reveal(can_merge_leaf);
        assert(state::node_ok(s, c));
    }
    old_sep(s, f, q, i, new, x, k, state::hi(s, c), state::seps(s, x0)[k0]);
}

pub proof fn merge_leaf_ok(s: State, f: int, q: u64, i: int, new: Option<Seq<u8>>)
    requires
        can_merge_leaf(s, f, q, i, new),
    ensures
        state::inv(merge_leaf(s, f, q, i, new)),
        state::height(merge_leaf(s, f, q, i, new)) == state::height(s),
{
    let t = merge_leaf(s, f, q, i, new);
    apart(s, f, q, i, new);
    shape(s, f, q, i, new);
    links(s, f, q, i, new);
    keys(s, f, q, i, new);
    seps(s, f, q, i, new);
    top(s, f, q, i, new);
    reveal(can_merge_leaf);
    assert forall|x: u64| #[trigger] state::live(t, x) implies node::fits(t.nodes[x as int]) by {
        assert(state::live(s, x));
        assert(node::fits(s.nodes[x as int]));
    }
}

} // verus!
