//! Splits of nodes of a B-link tree, with the new separator in the parent.
use vstd::prelude::*;

use crate::btree::node;
use crate::btree::node::NodeView;
use crate::btree::state;
use crate::btree::state::{Span, State};
use crate::bytes;

verus! {

// ---------------------------------------------------------------------------
// Leaves.

/// What a node covers once there is one more leaf behind the leaf at index `f`.
pub open spec fn moved_up(x: Span, f: int) -> Span {
    Span {
        lo: if x.lo > f {
            x.lo + 1
        } else {
            x.lo
        },
        hi: if x.hi > f {
            x.hi + 1
        } else {
            x.hi
        },
        level: x.level,
    }
}

pub open spec fn split_leaf_spans(s: State, f: int, sib: u64) -> Map<u64, Span> {
    Map::new(
        |p: u64| state::live(s, p) || p == sib,
        |p: u64|
            if p == sib {
                Span { lo: f + 1, hi: f + 2, level: 0 }
            } else if p == s.order[f] {
                s.spans[p]
            } else {
                moved_up(s.spans[p], f)
            },
    )
}

/// The nodes after the leaf at index `f` was cut before row `m`: the rest went
/// to `sib`, and node `q` got `sep` and `sib` behind its child `i`.
pub open spec fn split_leaf_nodes(
    s: State,
    f: int,
    m: int,
    sib: u64,
    q: u64,
    i: int,
    sep: Seq<u8>,
) -> Seq<NodeView> {
    let p = s.order[f];
    let rows = state::rows_at(s, f);
    let left = s.nodes[p as int]->left;
    let right = s.nodes[p as int]->right;
    let n1 = s.nodes.update(
        p as int,
        NodeView::Leaf { rows: rows.take(m), left, right: sib },
    ).update(sib as int, NodeView::Leaf { rows: rows.skip(m), left: p, right });
    let n2 = if right != 0 {
        n1.update(
            right as int,
            NodeView::Leaf {
                rows: s.nodes[right as int]->rows,
                left: sib,
                right: s.nodes[right as int]->right,
            },
        )
    } else {
        n1
    };
    n2.update(
        q as int,
        NodeView::Inner {
            seps: state::seps(s, q).insert(i, sep),
            kids: state::kids(s, q).insert(i + 1, sib),
        },
    )
}

pub open spec fn split_leaf(
    s: State,
    f: int,
    m: int,
    sib: u64,
    q: u64,
    i: int,
    sep: Seq<u8>,
) -> State {
    State {
        nodes: split_leaf_nodes(s, f, m, sib, q, i, sep),
        root: s.root,
        spans: split_leaf_spans(s, f, sib),
        order: s.order.insert(f + 1, sib),
    }
}

/// The separator is at or above all keys that come before it.
pub open spec fn separates(s: State, f: int, m: int, sep: Seq<u8>) -> bool {
    &&& forall|j: int, a: int|
        #![trigger state::rows_at(s, j)[a]]
        0 <= j < f && 0 <= a < state::rows_at(s, j).len() ==> !bytes::lex_lt(
            sep,
            state::rows_at(s, j)[a].key,
        )
    &&& forall|a: int|
        #![trigger state::rows_at(s, f)[a]]
        0 <= a < m ==> !bytes::lex_lt(sep, state::rows_at(s, f)[a].key)
}

#[verifier::opaque]
pub open spec fn can_split_leaf(
    s: State,
    f: int,
    m: int,
    sib: u64,
    q: u64,
    i: int,
    sep: Seq<u8>,
) -> bool {
    &&& state::inv(s)
    &&& 0 <= f < s.order.len()
    &&& 0 <= m <= state::rows_at(s, f).len()
    &&& 0 < sib < s.nodes.len()
    &&& s.nodes[sib as int] is Free
    &&& state::is_inner(s, q)
    &&& 0 <= i < state::kids(s, q).len()
    &&& state::kids(s, q)[i] == s.order[f]
    &&& separates(s, f, m, sep)
    &&& node::can_insert_separator(state::seps(s, q), sep.len() as int)
}

/// The nodes that a split of a leaf touches differ.
pub proof fn split_leaf_apart(s: State, f: int, m: int, sib: u64, q: u64, i: int, sep: Seq<u8>)
    requires
        can_split_leaf(s, f, m, sib, q, i, sep),
    ensures
        !state::live(s, sib),
        s.order[f] != q,
        s.order[f] != sib,
        sib != q,
        state::is_leaf(s, s.order[f]),
        state::node_ok(s, s.order[f]),
        state::lo(s, s.order[f]) == f,
        state::hi(s, s.order[f]) == f + 1,
        state::node_ok(s, q),
        state::level(s, q) == 1,
        s.nodes[s.order[f] as int]->right == (if f + 1 < s.order.len() {
            s.order[f + 1]
        } else {
            0
        }),
        f + 1 < s.order.len() ==> state::is_leaf(s, s.order[f + 1]) && state::lo(
            s,
            s.order[f + 1],
        ) == f + 1 && s.order[f + 1] != s.order[f] && state::node_ok(s, s.order[f + 1]),
{
    reveal(can_split_leaf);
    assert(!state::live(s, sib)) by {
        if state::live(s, sib) {
            assert(state::node_ok(s, sib));
        }
    }
    let p = s.order[f];
    assert(state::is_leaf(s, p));
    assert(state::node_ok(s, p));
    assert(state::node_ok(s, q));
    assert(state::kid_ok(s, q, i));
    if f + 1 < s.order.len() {
        assert(state::is_leaf(s, s.order[f + 1]));
        assert(state::node_ok(s, s.order[f + 1]));
    }
}

/// The rows after a split of a leaf.
pub proof fn split_leaf_rows(s: State, f: int, m: int, sib: u64, q: u64, i: int, sep: Seq<u8>)
    requires
        can_split_leaf(s, f, m, sib, q, i, sep),
    ensures
        ({
            let t = split_leaf(s, f, m, sib, q, i, sep);
            forall|j: int|
                0 <= j < t.order.len() ==> #[trigger] state::rows_at(t, j) == (if j < f {
                    state::rows_at(s, j)
                } else if j == f {
                    state::rows_at(s, f).take(m)
                } else if j == f + 1 {
                    state::rows_at(s, f).skip(m)
                } else {
                    state::rows_at(s, j - 1)
                })
        }),
{
    reveal(can_split_leaf);
    let t = split_leaf(s, f, m, sib, q, i, sep);
    split_leaf_apart(s, f, m, sib, q, i, sep);
    assert forall|j: int| 0 <= j < t.order.len() implies #[trigger] state::rows_at(t, j) == (if j
        < f {
        state::rows_at(s, j)
    } else if j == f {
        state::rows_at(s, f).take(m)
    } else if j == f + 1 {
        state::rows_at(s, f).skip(m)
    } else {
        state::rows_at(s, j - 1)
    }) by {
        if j < f {
            assert(t.order[j] == s.order[j]);
            assert(state::is_leaf(s, s.order[j]));
            assert(state::lo(s, s.order[j]) == j);
        } else if j > f + 1 {
            assert(t.order[j] == s.order[j - 1]);
            assert(state::is_leaf(s, s.order[j - 1]));
            assert(state::lo(s, s.order[j - 1]) == j - 1);
        }
    }
}

proof fn split_leaf_shape(s: State, f: int, m: int, sib: u64, q: u64, i: int, sep: Seq<u8>)
    requires
        can_split_leaf(s, f, m, sib, q, i, sep),
    ensures
        state::shape_ok(split_leaf(s, f, m, sib, q, i, sep)),
{
    reveal(can_split_leaf);
    let t = split_leaf(s, f, m, sib, q, i, sep);
    let l = s.order[f];
    split_leaf_apart(s, f, m, sib, q, i, sep);
    assert(state::node_ok(s, s.root));
    assert forall|p: u64| #[trigger] state::live(t, p) implies state::node_ok(t, p) by {
        if p == sib || p == l {
        } else {
            assert(state::live(s, p));
            assert(state::node_ok(s, p));
            if p == q {
                split_leaf_parent(s, f, m, sib, q, i, sep);
            } else if s.nodes[p as int] is Inner {
                assert(t.nodes[p as int] == s.nodes[p as int]);
                assert forall|k: int| 0 <= k < state::kids(t, p).len() implies
                #[trigger] state::kid_ok(t, p, k) by {
                    assert(state::kid_ok(s, p, k));
                    let c = state::kids(s, p)[k];
                    if c == l {
                        state::parent_is_unique(s, p, k, q, i);
                    }
                    if k > 0 {
                        assert(state::kid_ok(s, p, k - 1));
                        if state::kids(s, p)[k - 1] == l {
                            state::parent_is_unique(s, p, k - 1, q, i);
                        }
                    }
                }
            } else {
                let j = state::lo(s, p);
                assert(s.order[j] == p);
                if j > f {
                    assert(t.order[j + 1] == p);
                } else {
                    assert(t.order[j] == p);
                }
            }
        }
    }
    assert forall|p: u64|
        #![trigger t.nodes[p as int]]
        p < t.nodes.len() && !(t.nodes[p as int] is Free) implies state::live(t, p) by {
        if p != sib && p != l && p != q {
            let n = s.nodes[p as int];
        }
    }
    assert forall|j: int|
        #![trigger t.order[j]]
        0 <= j < t.order.len() implies state::is_leaf(t, t.order[j]) && state::lo(t, t.order[j])
        == j by {
        if j <= f {
            assert(t.order[j] == s.order[j]);
            assert(state::is_leaf(s, s.order[j]));
            assert(state::lo(s, s.order[j]) == j);
        } else if j > f + 1 {
            assert(t.order[j] == s.order[j - 1]);
            assert(state::is_leaf(s, s.order[j - 1]));
            assert(state::lo(s, s.order[j - 1]) == j - 1);
        }
    }
    assert forall|a: u64, b: u64| #[trigger]
        state::live(t, a) && #[trigger] state::live(t, b) && a != b && state::level(t, a)
            == state::level(t, b) implies state::apart(t, a, b) by {
        if a != sib {
            assert(state::live(s, a));
            assert(state::node_ok(s, a));
        }
        if b != sib {
            assert(state::live(s, b));
            assert(state::node_ok(s, b));
        }
        if a != sib && b != sib {
            assert(state::apart(s, a, b));
        } else if a == sib && b != l {
            assert(state::apart(s, l, b));
        } else if b == sib && a != l {
            assert(state::apart(s, a, l));
        }
    }
}

/// The parent of the split leaf.
proof fn split_leaf_parent(s: State, f: int, m: int, sib: u64, q: u64, i: int, sep: Seq<u8>)
    requires
        can_split_leaf(s, f, m, sib, q, i, sep),
    ensures
        state::node_ok(split_leaf(s, f, m, sib, q, i, sep), q),
{
    reveal(can_split_leaf);
    let t = split_leaf(s, f, m, sib, q, i, sep);
    let l = s.order[f];
    split_leaf_apart(s, f, m, sib, q, i, sep);
    state::kid_inside(s, q, i);
    assert(state::node_ok(s, s.root));
    assert(t.nodes[q as int] == NodeView::Inner {
        seps: state::seps(s, q).insert(i, sep),
        kids: state::kids(s, q).insert(i + 1, sib),
    });
    assert forall|k: int| 0 <= k < state::kids(t, q).len() implies #[trigger] state::kid_ok(
        t,
        q,
        k,
    ) by {
        split_leaf_kid(s, f, m, sib, q, i, sep, k);
    }
}

/// Where the children of the parent stand after the split, by their place.
proof fn split_leaf_kid(
    s: State,
    f: int,
    m: int,
    sib: u64,
    q: u64,
    i: int,
    sep: Seq<u8>,
    k: int,
)
    requires
        can_split_leaf(s, f, m, sib, q, i, sep),
        0 <= k <= state::kids(s, q).len(),
    ensures
        state::kid_ok(split_leaf(s, f, m, sib, q, i, sep), q, k),
{
    let t = split_leaf(s, f, m, sib, q, i, sep);
    let ks = state::kids(s, q);
    let kt = ks.insert(i + 1, sib);
    assert(0 <= i < ks.len()) by {
        reveal(can_split_leaf);
    }
    assert(state::kids(t, q) == kt) by {
        reveal(can_split_leaf);
        split_leaf_apart(s, f, m, sib, q, i, sep);
    }
    assert(t.spans[q] == moved_up(s.spans[q], f)) by {
        reveal(can_split_leaf);
        split_leaf_apart(s, f, m, sib, q, i, sep);
    }
    assert(state::hi(s, q) > f && state::lo(s, q) <= f) by {
        reveal(can_split_leaf);
        split_leaf_apart(s, f, m, sib, q, i, sep);
        state::kid_inside(s, q, i);
    }
    if k < i {
        split_leaf_other(s, f, m, sib, q, i, sep, k);
        if k > 0 {
            split_leaf_other(s, f, m, sib, q, i, sep, k - 1);
        }
        kid_stays(s, t, q, k, k, f);
    } else if k == i {
        split_leaf_mid(s, f, m, sib, q, i, sep);
        if k > 0 {
            split_leaf_other(s, f, m, sib, q, i, sep, k - 1);
        }
        assert(kt[k] == ks[k]);
        assert(k > 0 ==> kt[k - 1] == ks[k - 1]);
    } else if k == i + 1 {
        split_leaf_mid(s, f, m, sib, q, i, sep);
        assert(kt[k] == sib);
        assert(kt[k - 1] == s.order[f]);
    } else if k == i + 2 {
        split_leaf_mid(s, f, m, sib, q, i, sep);
        split_leaf_other(s, f, m, sib, q, i, sep, k - 1);
        assert(kt[k] == ks[k - 1]);
        assert(kt[k - 1] == sib);
        assert(ks[k - 2] == s.order[f]);
    } else {
        split_leaf_other(s, f, m, sib, q, i, sep, k - 1);
        split_leaf_other(s, f, m, sib, q, i, sep, k - 2);
        kid_stays(s, t, q, k, k - 1, f);
    }
}

/// A child whose neighbour and parent moved as it did.
proof fn kid_stays(s: State, t: State, q: u64, k: int, k0: int, f: int)
    requires
        state::kid_ok(s, q, k0),
        0 <= k0 < state::kids(s, q).len(),
        0 <= k < state::kids(t, q).len(),
        k0 == 0 <==> k == 0,
        k0 + 1 == state::kids(s, q).len() <==> k + 1 == state::kids(t, q).len(),
        state::kids(t, q)[k] == state::kids(s, q)[k0],
        k > 0 ==> state::kids(t, q)[k - 1] == state::kids(s, q)[k0 - 1],
        state::live(t, state::kids(s, q)[k0]),
        t.spans[q] == moved_up(s.spans[q], f),
        t.spans[state::kids(s, q)[k0]] == moved_up(s.spans[state::kids(s, q)[k0]], f),
        k > 0 ==> t.spans[state::kids(s, q)[k0 - 1]] == moved_up(
            s.spans[state::kids(s, q)[k0 - 1]],
            f,
        ),
    ensures
        state::kid_ok(t, q, k),
{
}

/// Where the two leaves of a split stand.
proof fn split_leaf_mid(s: State, f: int, m: int, sib: u64, q: u64, i: int, sep: Seq<u8>)
    requires
        can_split_leaf(s, f, m, sib, q, i, sep),
    ensures
        state::kid_ok(s, q, i),
        state::kids(s, q)[i] == s.order[f],
        state::lo(s, s.order[f]) == f,
        state::hi(s, s.order[f]) == f + 1,
        state::level(s, s.order[f]) == 0,
        state::level(s, q) == 1,
        ({
            let t = split_leaf(s, f, m, sib, q, i, sep);
            &&& state::live(t, sib)
            &&& state::live(t, s.order[f])
            &&& t.spans[sib] == Span { lo: f + 1, hi: f + 2, level: 0 }
            &&& t.spans[s.order[f]] == s.spans[s.order[f]]
        }),
{
    reveal(can_split_leaf);
    split_leaf_apart(s, f, m, sib, q, i, sep);
    assert(state::kid_ok(s, q, i));
}

/// A child of the parent that was not split.
proof fn split_leaf_other(
    s: State,
    f: int,
    m: int,
    sib: u64,
    q: u64,
    i: int,
    sep: Seq<u8>,
    k: int,
)
    requires
        can_split_leaf(s, f, m, sib, q, i, sep),
        0 <= k < state::kids(s, q).len(),
        k != i,
    ensures
        state::kids(s, q)[k] != s.order[f],
        state::kids(s, q)[k] != sib,
        state::live(s, state::kids(s, q)[k]),
        split_leaf(s, f, m, sib, q, i, sep).spans[state::kids(s, q)[k]] == moved_up(
            s.spans[state::kids(s, q)[k]],
            f,
        ),
        state::live(split_leaf(s, f, m, sib, q, i, sep), state::kids(s, q)[k]),
        state::kid_ok(s, q, k),
{
    reveal(can_split_leaf);
    split_leaf_apart(s, f, m, sib, q, i, sep);
    assert(state::node_ok(s, q));
    assert(state::kid_ok(s, q, k));
    if state::kids(s, q)[k] == s.order[f] {
        state::parent_is_unique(s, q, k, q, i);
    }
}

proof fn split_leaf_links(s: State, f: int, m: int, sib: u64, q: u64, i: int, sep: Seq<u8>)
    requires
        can_split_leaf(s, f, m, sib, q, i, sep),
    ensures
        state::links_ok(split_leaf(s, f, m, sib, q, i, sep)),
{
    reveal(can_split_leaf);
    let t = split_leaf(s, f, m, sib, q, i, sep);
    split_leaf_apart(s, f, m, sib, q, i, sep);
    assert forall|j: int| #![trigger t.order[j]] 0 <= j < t.order.len() implies {
        &&& t.nodes[t.order[j] as int]->left == (if j > 0 {
            t.order[j - 1]
        } else {
            0
        })
        &&& t.nodes[t.order[j] as int]->right == (if j + 1 < t.order.len() {
            t.order[j + 1]
        } else {
            0
        })
    } by {
        if j <= f {
            assert(t.order[j] == s.order[j]);
            assert(state::is_leaf(s, s.order[j]));
            assert(state::lo(s, s.order[j]) == j);
            if j > 0 {
                assert(t.order[j - 1] == s.order[j - 1]);
            }
            if j < f {
                assert(t.order[j + 1] == s.order[j + 1]);
            }
        } else if j > f + 1 {
            assert(t.order[j] == s.order[j - 1]);
            assert(state::is_leaf(s, s.order[j - 1]));
            assert(state::lo(s, s.order[j - 1]) == j - 1);
            if j > f + 2 {
                assert(t.order[j - 1] == s.order[j - 2]);
            }
            if j + 1 < t.order.len() {
                assert(t.order[j + 1] == s.order[j]);
            }
        } else {
            assert(t.order[j] == sib);
            assert(t.order[j - 1] == s.order[f]);
            if j + 1 < t.order.len() {
                assert(t.order[j + 1] == s.order[f + 1]);
            }
        }
    }
}

#[verifier::rlimit(60)]
#[verifier::spinoff_prover]
proof fn split_leaf_keys(s: State, f: int, m: int, sib: u64, q: u64, i: int, sep: Seq<u8>)
    requires
        can_split_leaf(s, f, m, sib, q, i, sep),
    ensures
        state::keys_ok(split_leaf(s, f, m, sib, q, i, sep)),
{
    reveal(can_split_leaf);
    let t = split_leaf(s, f, m, sib, q, i, sep);
    let rows = state::rows_at(s, f);
    split_leaf_rows(s, f, m, sib, q, i, sep);
    assert forall|j: int| 0 <= j < t.order.len() implies node::sorted_rows(
        #[trigger] state::rows_at(t, j),
    ) by {
        if j < f {
            assert(node::sorted_rows(state::rows_at(s, j)));
        } else if j > f + 1 {
            assert(node::sorted_rows(state::rows_at(s, j - 1)));
        } else {
            assert(node::sorted_rows(rows));
            if j == f {
                let part = rows.take(m);
                assert forall|a: int, b: int|
                    #![trigger part[a], part[b]]
                    0 <= a < b < part.len() implies bytes::lex_lt(part[a].key, part[b].key) by {
                    assert(part[a] == rows[a] && part[b] == rows[b]);
                }
            } else {
                let part = rows.skip(m);
                assert forall|a: int, b: int|
                    #![trigger part[a], part[b]]
                    0 <= a < b < part.len() implies bytes::lex_lt(part[a].key, part[b].key) by {
                    assert(part[a] == rows[a + m] && part[b] == rows[b + m]);
                }
            }
        }
    }
    assert forall|j: int, k: int, a: int, b: int|
        #![trigger state::rows_at(t, j)[a], state::rows_at(t, k)[b]]
        0 <= j < k < t.order.len() && 0 <= a < state::rows_at(t, j).len() && 0 <= b
            < state::rows_at(t, k).len() implies bytes::lex_lt(
        state::rows_at(t, j)[a].key,
        state::rows_at(t, k)[b].key,
    ) by {
        let (j0, a0) = came_from(f, m, j, a);
        let (k0, b0) = came_from(f, m, k, b);
        assert(state::rows_at(t, j)[a] == state::rows_at(s, j0)[a0]);
        assert(state::rows_at(t, k)[b] == state::rows_at(s, k0)[b0]);
        if j0 == k0 {
            assert(node::sorted_rows(state::rows_at(s, j0)));
        }
    }
}

/// Where a row stood before a split.
pub open spec fn came_from(f: int, m: int, j: int, a: int) -> (int, int) {
    if j <= f {
        (j, a)
    } else if j == f + 1 {
        (f, a + m)
    } else {
        (j - 1, a)
    }
}

proof fn split_leaf_seps(s: State, f: int, m: int, sib: u64, q: u64, i: int, sep: Seq<u8>)
    requires
        can_split_leaf(s, f, m, sib, q, i, sep),
    ensures
        state::seps_ok(split_leaf(s, f, m, sib, q, i, sep)),
{
    let t = split_leaf(s, f, m, sib, q, i, sep);
    assert forall|p: u64, k: int|
        #![trigger state::seps(t, p)[k]]
        state::is_inner(t, p) && 0 <= k < state::seps(t, p).len() implies state::sep_bounds(
        t,
        p,
        k,
        state::seps(t, p)[k],
    ) by {
        split_leaf_inner(s, f, m, sib, q, i, sep, p);
        if p == q && k == i {
            split_leaf_new_sep(s, f, m, sib, q, i, sep);
        } else {
            let k0 = if p == q && k > i {
                k - 1
            } else {
                k
            };
            split_leaf_old_sep(s, f, m, sib, q, i, sep, p, k, k0);
        }
    }
}

/// The inner nodes after the split.
proof fn split_leaf_inner(
    s: State,
    f: int,
    m: int,
    sib: u64,
    q: u64,
    i: int,
    sep: Seq<u8>,
    p: u64,
)
    requires
        can_split_leaf(s, f, m, sib, q, i, sep),
        state::is_inner(split_leaf(s, f, m, sib, q, i, sep), p),
    ensures
        state::is_inner(s, p),
        p != q ==> split_leaf(s, f, m, sib, q, i, sep).nodes[p as int] == s.nodes[p as int],
        p == q ==> split_leaf(s, f, m, sib, q, i, sep).nodes[p as int] == (NodeView::Inner {
            seps: state::seps(s, q).insert(i, sep),
            kids: state::kids(s, q).insert(i + 1, sib),
        }),
        state::kids(s, p).len() == state::seps(s, p).len() + 1,
        0 <= i < state::kids(s, q).len(),
{
    reveal(can_split_leaf);
    split_leaf_apart(s, f, m, sib, q, i, sep);
    assert(state::live(s, p));
    assert(state::node_ok(s, p));
}

proof fn split_leaf_new_sep(s: State, f: int, m: int, sib: u64, q: u64, i: int, sep: Seq<u8>)
    requires
        can_split_leaf(s, f, m, sib, q, i, sep),
    ensures
        state::sep_bounds(split_leaf(s, f, m, sib, q, i, sep), q, i, sep),
{
    reveal(can_split_leaf);
    let t = split_leaf(s, f, m, sib, q, i, sep);
    split_leaf_apart(s, f, m, sib, q, i, sep);
    split_leaf_rows(s, f, m, sib, q, i, sep);
    assert(state::kids(t, q)[i] == s.order[f]);
    assert forall|j: int, a: int|
        #![trigger state::rows_at(t, j)[a]]
        0 <= j < state::hi(t, state::kids(t, q)[i]) && 0 <= a < state::rows_at(
            t,
            j,
        ).len() implies !bytes::lex_lt(sep, state::rows_at(t, j)[a].key) by {
        assert(state::rows_at(t, j)[a] == state::rows_at(s, j)[a]);
    }
}

/// Where a child with a separator behind it ends after the split.
proof fn split_leaf_end(
    s: State,
    f: int,
    m: int,
    sib: u64,
    q: u64,
    i: int,
    sep: Seq<u8>,
    p: u64,
    k: int,
    k0: int,
)
    requires
        can_split_leaf(s, f, m, sib, q, i, sep),
        state::is_inner(s, p),
        0 <= k0 < state::seps(s, p).len(),
        k == if p == q && k0 >= i {
            k0 + 1
        } else {
            k0
        },
    ensures
        ({
            let t = split_leaf(s, f, m, sib, q, i, sep);
            let h = state::hi(s, state::kids(s, p)[k0]);
            &&& 0 <= h < s.order.len()
            &&& state::hi(t, state::kids(t, p)[k]) == if h > f {
                h + 1
            } else {
                h
            }
        }),
{
    let t = split_leaf(s, f, m, sib, q, i, sep);
    let l = s.order[f];
    let c0 = state::kids(s, p)[k0];
    split_leaf_apart(s, f, m, sib, q, i, sep);
    assert(state::live(s, c0) && 0 <= state::hi(s, c0) < s.order.len() && 0 <= i < state::kids(
        s,
        q,
    ).len() && k0 < state::kids(s, p).len()) by {
        reveal(can_split_leaf);
        assert(state::node_ok(s, p));
        assert(state::kid_ok(s, p, k0));
        state::kid_inside(s, p, k0);
        assert(state::node_ok(s, c0));
    }
    assert(c0 == l ==> p == q && k0 == i) by {
        if c0 == l {
            reveal(can_split_leaf);
            assert(state::node_ok(s, p));
            state::parent_is_unique(s, p, k0, q, i);
        }
    }
    assert(p != q ==> t.nodes[p as int] == s.nodes[p as int]) by {
        reveal(can_split_leaf);
        assert(state::node_ok(s, p));
    }
    assert(p == q ==> state::kids(t, p) == state::kids(s, q).insert(i + 1, sib)) by {
        reveal(can_split_leaf);
    }
    if c0 == l {
        assert(state::kids(t, p)[k] == sib);
    } else {
        assert(p == q && k0 == i ==> false) by {
            reveal(can_split_leaf);
        }
        assert(state::kids(t, p)[k] == c0);
    }
}

proof fn split_leaf_old_sep(
    s: State,
    f: int,
    m: int,
    sib: u64,
    q: u64,
    i: int,
    sep: Seq<u8>,
    p: u64,
    k: int,
    k0: int,
)
    requires
        can_split_leaf(s, f, m, sib, q, i, sep),
        state::is_inner(s, p),
        0 <= k0 < state::seps(s, p).len(),
        k == if p == q && k0 >= i {
            k0 + 1
        } else {
            k0
        },
    ensures
        state::sep_bounds(
            split_leaf(s, f, m, sib, q, i, sep),
            p,
            k,
            state::seps(s, p)[k0],
        ),
{
    let t = split_leaf(s, f, m, sib, q, i, sep);
    let bound = state::seps(s, p)[k0];
    split_leaf_end(s, f, m, sib, q, i, sep, p, k, k0);
    split_leaf_rows(s, f, m, sib, q, i, sep);
    assert(state::sep_bounds(s, p, k0, bound)) by {
        reveal(can_split_leaf);
    }
    assert(0 <= f && 0 <= m <= state::rows_at(s, f).len() && t.order.len() == s.order.len()
        + 1) by {
        reveal(can_split_leaf);
    }
    assert forall|j: int, a: int|
        #![trigger state::rows_at(t, j)[a]]
        0 <= j < state::hi(t, state::kids(t, p)[k]) && 0 <= a < state::rows_at(
            t,
            j,
        ).len() implies !bytes::lex_lt(bound, state::rows_at(t, j)[a].key) by {
        let (j0, a0) = came_from(f, m, j, a);
        assert(state::rows_at(t, j)[a] == state::rows_at(s, j0)[a0]);
    }
}

pub proof fn split_leaf_ok(s: State, f: int, m: int, sib: u64, q: u64, i: int, sep: Seq<u8>)
    requires
        can_split_leaf(s, f, m, sib, q, i, sep),
    ensures
        state::inv(split_leaf(s, f, m, sib, q, i, sep)),
        state::height(split_leaf(s, f, m, sib, q, i, sep)) == state::height(s),
{
    reveal(can_split_leaf);
    let t = split_leaf(s, f, m, sib, q, i, sep);
    split_leaf_apart(s, f, m, sib, q, i, sep);
    split_leaf_shape(s, f, m, sib, q, i, sep);
    split_leaf_links(s, f, m, sib, q, i, sep);
    split_leaf_keys(s, f, m, sib, q, i, sep);
    split_leaf_seps(s, f, m, sib, q, i, sep);
    assert forall|p: u64| #[trigger] state::live(t, p) implies node::fits(t.nodes[p as int]) by {
        node::rows_len_split(state::rows_at(s, f), m);
        assert(node::fits(s.nodes[s.order[f] as int]));
        if p == q {
            node::seps_len_insert(state::seps(s, q), i, sep);
        } else if p != sib && p != s.order[f] {
            assert(state::live(s, p));
            assert(node::fits(s.nodes[p as int]));
        }
    }
    if s.root == s.order[f] {
        assert(state::node_ok(s, q));
    }
}

} // verus!
