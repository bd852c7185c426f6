//! The steps by which a B-link tree changes, and that each of them keeps it a
//! tree.
use vstd::prelude::*;

use crate::betree::scan::RowView;
use crate::btree::node;
use crate::btree::node::NodeView;
use crate::btree::state;
use crate::btree::state::{Span, State};
use crate::bytes;

verus! {

// ---------------------------------------------------------------------------
// New nodes.

/// One more node, not yet in use.
pub open spec fn with_free(s: State) -> State {
    State { nodes: s.nodes.push(NodeView::Free), ..s }
}

pub proof fn with_free_ok(s: State)
    requires
        state::inv(s),
        s.nodes.len() < u64::MAX,
    ensures
        state::inv(with_free(s)),
{
    let t = with_free(s);
    let n = s.nodes.len() as int;
    assert forall|p: u64| #[trigger] state::live(t, p) implies state::node_ok(t, p) by {
        assert(state::live(s, p));
        assert(state::node_ok(s, p));
        same_kids(s, t, p);
    }
    assert forall|p: u64|
        #![trigger t.nodes[p as int]]
        p < t.nodes.len() && !(t.nodes[p as int] is Free) implies state::live(t, p) by {
        if p < n {
            assert(t.nodes[p as int] == s.nodes[p as int]);
        }
    }
    assert forall|j: int|
        #![trigger t.order[j]]
        0 <= j < t.order.len() implies state::is_leaf(t, t.order[j]) && state::lo(t, t.order[j])
        == j by {
        assert(state::is_leaf(s, s.order[j]));
        assert(state::node_ok(s, s.order[j]));
    }
    assert forall|p: u64, q: u64| #[trigger]
        state::live(t, p) && #[trigger] state::live(t, q) && p != q && state::level(t, p)
            == state::level(t, q) implies state::apart(t, p, q) by {
        assert(state::live(s, p) && state::live(s, q));
        assert(state::apart(s, p, q));
    }
    assert forall|j: int| 0 <= j < s.order.len() implies #[trigger] state::rows_at(t, j)
        == state::rows_at(s, j) by {
        assert(state::is_leaf(s, s.order[j]));
        assert(state::node_ok(s, s.order[j]));
    }
    same_keys(s, t);
    assert(state::links_ok(t)) by {
        assert forall|j: int| #![trigger t.order[j]] 0 <= j < t.order.len() implies {
            &&& t.nodes[t.order[j] as int] == s.nodes[s.order[j] as int]
        } by {
            assert(state::is_leaf(s, s.order[j]));
            assert(state::node_ok(s, s.order[j]));
        }
    }
    assert(state::seps_ok(t)) by {
        assert forall|p: u64, i: int|
            #![trigger state::seps(t, p)[i]]
            state::is_inner(t, p) && 0 <= i < state::seps(t, p).len() implies state::sep_bounds(
            t,
            p,
            i,
            state::seps(t, p)[i],
        ) by {
            assert(state::live(s, p));
            assert(state::node_ok(s, p));
            same_bounds(s, t, p, i);
        }
    }
    assert(state::space_ok(t)) by {
        assert forall|p: u64| #[trigger] state::live(t, p) implies node::fits(
            t.nodes[p as int],
        ) by {
            assert(state::live(s, p));
            assert(state::node_ok(s, p));
        }
    }
}

/// A separator that bounds what it did.
proof fn same_bounds(s: State, t: State, p: u64, i: int)
    requires
        state::shape_ok(s),
        state::seps_ok(s),
        state::is_inner(s, p),
        0 <= i < state::seps(s, p).len(),
        t.spans == s.spans,
        t.nodes[p as int] == s.nodes[p as int],
        forall|j: int|
            0 <= j < s.order.len() ==> #[trigger] state::rows_at(t, j) == state::rows_at(s, j),
    ensures
        state::sep_bounds(t, p, i, state::seps(s, p)[i]),
{
    let sep = state::seps(s, p)[i];
    assert(state::sep_bounds(s, p, i, sep));
    assert(state::node_ok(s, p));
    state::kid_inside(s, p, i);
    assert forall|j: int, a: int|
        #![trigger state::rows_at(t, j)[a]]
        0 <= j < state::hi(t, state::kids(t, p)[i]) && 0 <= a < state::rows_at(
            t,
            j,
        ).len() implies !bytes::lex_lt(sep, state::rows_at(t, j)[a].key) by {
        assert(state::rows_at(t, j)[a] == state::rows_at(s, j)[a]);
    }
}

/// A node whose children cover what they did.
proof fn same_kids(s: State, t: State, p: u64)
    requires
        state::live(s, p),
        state::node_ok(s, p),
        p < t.nodes.len(),
        t.nodes[p as int] == s.nodes[p as int],
        t.spans == s.spans,
    ensures
        s.nodes[p as int] is Inner ==> forall|i: int|
            0 <= i < state::kids(s, p).len() ==> #[trigger] state::kid_ok(t, p, i),
{
    if s.nodes[p as int] is Inner {
        assert forall|i: int| 0 <= i < state::kids(s, p).len() implies #[trigger] state::kid_ok(
            t,
            p,
            i,
        ) by {
            assert(state::kid_ok(s, p, i));
        }
    }
}

/// The same rows in the same order.
pub proof fn same_keys(s: State, t: State)
    requires
        state::keys_ok(s),
        t.order.len() == s.order.len(),
        forall|j: int|
            0 <= j < s.order.len() ==> #[trigger] state::rows_at(t, j) == state::rows_at(s, j),
    ensures
        state::keys_ok(t),
{
    assert forall|j: int, k: int, a: int, b: int|
        #![trigger state::rows_at(t, j)[a], state::rows_at(t, k)[b]]
        0 <= j < k < t.order.len() && 0 <= a < state::rows_at(t, j).len() && 0 <= b
            < state::rows_at(t, k).len() implies bytes::lex_lt(
        state::rows_at(t, j)[a].key,
        state::rows_at(t, k)[b].key,
    ) by {
        assert(state::rows_at(t, j)[a] == state::rows_at(s, j)[a]);
        assert(state::rows_at(t, k)[b] == state::rows_at(s, k)[b]);
    }
}

// ---------------------------------------------------------------------------
// Rows of a leaf.

/// The rows of the leaf at index `f` replaced.
pub open spec fn with_rows(s: State, f: int, rows: Seq<RowView>) -> State {
    let p = s.order[f];
    State {
        nodes: s.nodes.update(
            p as int,
            NodeView::Leaf {
                rows,
                left: s.nodes[p as int]->left,
                right: s.nodes[p as int]->right,
            },
        ),
        ..s
    }
}

/// The rows belong into the leaf at index `f`.
pub open spec fn rows_belong(s: State, f: int, rows: Seq<RowView>) -> bool {
    &&& node::sorted_rows(rows)
    &&& forall|j: int, a: int, b: int|
        #![trigger state::rows_at(s, j)[a], rows[b]]
        0 <= j < f && 0 <= a < state::rows_at(s, j).len() && 0 <= b < rows.len() ==> bytes::lex_lt(
            state::rows_at(s, j)[a].key,
            rows[b].key,
        )
    &&& forall|j: int, a: int, b: int|
        #![trigger state::rows_at(s, j)[a], rows[b]]
        f < j < s.order.len() && 0 <= a < state::rows_at(s, j).len() && 0 <= b < rows.len()
            ==> bytes::lex_lt(rows[b].key, state::rows_at(s, j)[a].key)
    &&& forall|p: u64, i: int, b: int|
        #![trigger state::seps(s, p)[i], rows[b]]
        state::is_inner(s, p) && 0 <= i < state::seps(s, p).len() && f < state::hi(
            s,
            state::kids(s, p)[i],
        ) && 0 <= b < rows.len() ==> !bytes::lex_lt(state::seps(s, p)[i], rows[b].key)
}

pub proof fn with_rows_ok(s: State, f: int, rows: Seq<RowView>)
    requires
        state::inv(s),
        0 <= f < s.order.len(),
        rows_belong(s, f, rows),
        node::rows_len(rows) <= node::LEAF_CAPACITY,
    ensures
        state::inv(with_rows(s, f, rows)),
        forall|j: int|
            0 <= j < s.order.len() ==> #[trigger] state::rows_at(with_rows(s, f, rows), j) == (if j
                == f {
                rows
            } else {
                state::rows_at(s, j)
            }),
{
    let t = with_rows(s, f, rows);
    let l = s.order[f];
    assert(state::is_leaf(s, l));
    assert(state::node_ok(s, l));
    assert forall|p: u64| p < s.nodes.len() && p != l implies #[trigger] t.nodes[p as int]
        == s.nodes[p as int] by {}
    assert forall|p: u64| #[trigger] state::live(t, p) implies state::node_ok(t, p) by {
        assert(state::live(s, p));
        assert(state::node_ok(s, p));
        if p != l {
            same_kids(s, t, p);
        }
    }
    assert forall|j: int|
        #![trigger t.order[j]]
        0 <= j < t.order.len() implies state::is_leaf(t, t.order[j]) && state::lo(t, t.order[j])
        == j by {
        assert(state::is_leaf(s, s.order[j]));
        assert(state::node_ok(s, s.order[j]));
    }
    assert forall|p: u64, q: u64| #[trigger]
        state::live(t, p) && #[trigger] state::live(t, q) && p != q && state::level(t, p)
            == state::level(t, q) implies state::apart(t, p, q) by {
        assert(state::live(s, p) && state::live(s, q));
        assert(state::apart(s, p, q));
    }
    assert forall|j: int| 0 <= j < s.order.len() implies #[trigger] state::rows_at(t, j) == (if j
        == f {
        rows
    } else {
        state::rows_at(s, j)
    }) by {
        assert(state::is_leaf(s, s.order[j]));
        assert(state::lo(s, s.order[j]) == j);
    }
    assert(state::links_ok(t)) by {
        assert forall|j: int| #![trigger t.order[j]] 0 <= j < t.order.len() implies {
            &&& t.nodes[t.order[j] as int]->left == s.nodes[s.order[j] as int]->left
            &&& t.nodes[t.order[j] as int]->right == s.nodes[s.order[j] as int]->right
        } by {
            assert(state::is_leaf(s, s.order[j]));
        }
    }
    assert(state::keys_ok(t)) by {
        assert forall|j: int, k: int, a: int, b: int|
            #![trigger state::rows_at(t, j)[a], state::rows_at(t, k)[b]]
            0 <= j < k < t.order.len() && 0 <= a < state::rows_at(t, j).len() && 0 <= b
                < state::rows_at(t, k).len() implies bytes::lex_lt(
            state::rows_at(t, j)[a].key,
            state::rows_at(t, k)[b].key,
        ) by {
            let x = state::rows_at(s, j)[a];
            let y = state::rows_at(s, k)[b];
            let x2 = rows[a];
            let y2 = rows[b];
        }
    }
    assert(state::seps_ok(t)) by {
        assert forall|p: u64, i: int|
            #![trigger state::seps(t, p)[i]]
            state::is_inner(t, p) && 0 <= i < state::seps(t, p).len() implies state::sep_bounds(
            t,
            p,
            i,
            state::seps(t, p)[i],
        ) by {
            assert(p != l);
            assert(state::live(s, p));
            let sep = state::seps(s, p)[i];
            assert(state::sep_bounds(s, p, i, sep));
            assert forall|j: int, a: int|
                #![trigger state::rows_at(t, j)[a]]
                0 <= j < state::hi(t, state::kids(t, p)[i]) && 0 <= a < state::rows_at(
                    t,
                    j,
                ).len() implies !bytes::lex_lt(sep, state::rows_at(t, j)[a].key) by {
                state::kid_inside(s, p, i);
                assert(state::node_ok(s, p));
                if j == f {
                    let y = rows[a];
                } else {
                    let y = state::rows_at(s, j)[a];
                }
            }
        }
    }
    assert(state::space_ok(t)) by {
        assert forall|p: u64| #[trigger] state::live(t, p) implies node::fits(
            t.nodes[p as int],
        ) by {
            assert(state::live(s, p));
        }
    }
}

// ---------------------------------------------------------------------------
// A new root.

/// Node `n` as the root above the root.
pub open spec fn with_root(s: State, n: u64) -> State {
    State {
        nodes: s.nodes.update(
            n as int,
            NodeView::Inner { seps: Seq::empty(), kids: seq![s.root] },
        ),
        root: n,
        spans: s.spans.insert(
            n,
            Span { lo: 0, hi: s.order.len() as int, level: state::height(s) + 1 },
        ),
        ..s
    }
}

pub proof fn with_root_ok(s: State, n: u64)
    requires
        state::inv(s),
        0 < n < s.nodes.len(),
        s.nodes[n as int] is Free,
    ensures
        state::inv(with_root(s, n)),
        state::height(with_root(s, n)) == state::height(s) + 1,
        forall|j: int|
            0 <= j < s.order.len() ==> #[trigger] state::rows_at(with_root(s, n), j)
                == state::rows_at(s, j),
{
    let t = with_root(s, n);
    assert(state::node_ok(s, s.root));
    assert(!state::live(s, n)) by {
        if state::live(s, n) {
            assert(state::node_ok(s, n));
        }
    }
    assert forall|p: u64| state::live(s, p) implies #[trigger] t.nodes[p as int]
        == s.nodes[p as int] && t.spans[p] == s.spans[p] && p != n by {
        assert(state::node_ok(s, p));
    }
    assert forall|p: u64| #[trigger] state::live(t, p) implies state::node_ok(t, p) by {
        if p == n {
            assert(state::kid_ok(t, n, 0));
        } else {
            assert(state::live(s, p));
            assert(state::node_ok(s, p));
            if s.nodes[p as int] is Inner {
                assert forall|i: int| 0 <= i < state::kids(t, p).len() implies
                #[trigger] state::kid_ok(t, p, i) by {
                    assert(state::kid_ok(s, p, i));
                    if i > 0 {
                        assert(state::kid_ok(s, p, i - 1));
                    }
                }
            }
        }
    }
    assert forall|p: u64|
        #![trigger t.nodes[p as int]]
        p < t.nodes.len() && !(t.nodes[p as int] is Free) implies state::live(t, p) by {
        if p != n {
            assert(t.nodes[p as int] == s.nodes[p as int]);
        }
    }
    assert forall|j: int|
        #![trigger t.order[j]]
        0 <= j < t.order.len() implies state::is_leaf(t, t.order[j]) && state::lo(t, t.order[j])
        == j by {
        assert(state::is_leaf(s, s.order[j]));
    }
    assert forall|p: u64, q: u64| #[trigger]
        state::live(t, p) && #[trigger] state::live(t, q) && p != q && state::level(t, p)
            == state::level(t, q) implies state::apart(t, p, q) by {
        if p != n && q != n {
            assert(state::live(s, p) && state::live(s, q));
            assert(state::apart(s, p, q));
        } else if p == n {
            assert(state::live(s, q));
            assert(state::node_ok(s, q));
        } else {
            assert(state::live(s, p));
            assert(state::node_ok(s, p));
        }
    }
    assert forall|j: int| 0 <= j < s.order.len() implies #[trigger] state::rows_at(t, j)
        == state::rows_at(s, j) by {
        assert(state::is_leaf(s, s.order[j]));
    }
    same_keys(s, t);
    assert(state::links_ok(t)) by {
        assert forall|j: int| #![trigger t.order[j]] 0 <= j < t.order.len() implies {
            &&& t.nodes[t.order[j] as int] == s.nodes[s.order[j] as int]
        } by {
            assert(state::is_leaf(s, s.order[j]));
        }
    }
    assert(state::seps_ok(t)) by {
        assert forall|p: u64, i: int|
            #![trigger state::seps(t, p)[i]]
            state::is_inner(t, p) && 0 <= i < state::seps(t, p).len() implies state::sep_bounds(
            t,
            p,
            i,
            state::seps(t, p)[i],
        ) by {
            assert(p != n);
            assert(state::live(s, p));
            assert(state::node_ok(s, p));
            let sep = state::seps(s, p)[i];
            assert(state::sep_bounds(s, p, i, sep));
            state::kid_inside(s, p, i);
            assert forall|j: int, a: int|
                #![trigger state::rows_at(t, j)[a]]
                0 <= j < state::hi(t, state::kids(t, p)[i]) && 0 <= a < state::rows_at(
                    t,
                    j,
                ).len() implies !bytes::lex_lt(sep, state::rows_at(t, j)[a].key) by {
                assert(state::rows_at(t, j)[a] == state::rows_at(s, j)[a]);
            }
        }
    }
    assert(state::space_ok(t)) by {
        assert(node::seps_len(Seq::<Seq<u8>>::empty()) == 0);
        assert forall|p: u64| #[trigger] state::live(t, p) implies node::fits(
            t.nodes[p as int],
        ) by {
            if p != n {
                assert(state::live(s, p));
            }
        }
    }
}

} // verus!
