//! Splits of inner nodes of a B-link tree: the middle separator goes up.
use vstd::prelude::*;

use crate::btree::change;
use crate::btree::node;
use crate::btree::node::NodeView;
use crate::btree::state;
use crate::btree::state::{Span, State};

verus! {

/// Node `p` cut at separator `m`: what is behind it went to `sib`, and node `q`
/// got the separator and `sib` behind its child `i`.
pub open spec fn split_inner(s: State, p: u64, m: int, sib: u64, q: u64, i: int) -> State {
    let ss = state::seps(s, p);
    let ks = state::kids(s, p);
    let cut = state::hi(s, ks[m]);
    State {
        nodes: s.nodes.update(
            p as int,
            NodeView::Inner { seps: ss.take(m), kids: ks.take(m + 1) },
        ).update(
            sib as int,
            NodeView::Inner { seps: ss.skip(m + 1), kids: ks.skip(m + 1) },
        ).update(
            q as int,
            NodeView::Inner {
                seps: state::seps(s, q).insert(i, ss[m]),
                kids: state::kids(s, q).insert(i + 1, sib),
            },
        ),
        spans: s.spans.insert(
            sib,
            Span { lo: cut, hi: state::hi(s, p), level: state::level(s, p) },
        ).insert(p, Span { lo: state::lo(s, p), hi: cut, level: state::level(s, p) }),
        ..s
    }
}

#[verifier::opaque]
pub open spec fn can_split_inner(s: State, p: u64, m: int, sib: u64, q: u64, i: int) -> bool {
    &&& state::inv(s)
    &&& state::is_inner(s, p)
    &&& 0 <= m < state::seps(s, p).len()
    &&& 0 < sib < s.nodes.len()
    &&& s.nodes[sib as int] is Free
    &&& state::is_inner(s, q)
    &&& 0 <= i < state::kids(s, q).len()
    &&& state::kids(s, q)[i] == p
    &&& node::can_insert_separator(state::seps(s, q), state::seps(s, p)[m].len() as int)
}

/// What is known of the nodes that a split touches.
pub proof fn split_apart(s: State, p: u64, m: int, sib: u64, q: u64, i: int)
    requires
        can_split_inner(s, p, m, sib, q, i),
    ensures
        !state::live(s, sib),
        0 < sib < s.nodes.len(),
        state::is_inner(s, p),
        state::is_inner(s, q),
        p != q,
        p != sib,
        sib != q,
        state::node_ok(s, p),
        state::node_ok(s, q),
        state::level(s, q) == state::level(s, p) + 1,
        state::kid_ok(s, q, i),
        state::kids(s, q)[i] == p,
        0 <= i < state::kids(s, q).len(),
        0 <= m < state::seps(s, p).len(),
        state::kids(s, p).len() == state::seps(s, p).len() + 1,
        state::lo(s, p) < state::hi(s, state::kids(s, p)[m]) < state::hi(s, p),
{
    reveal(can_split_inner);
    assert(!state::live(s, sib)) by {
        if state::live(s, sib) {
            assert(state::node_ok(s, sib));
        }
    }
    assert(state::node_ok(s, p));
    assert(state::node_ok(s, q));
    assert(state::kid_ok(s, q, i));
    assert(state::kid_ok(s, p, m));
    state::kid_inside(s, p, m);
    assert(state::node_ok(s, state::kids(s, p)[m]));
}

/// A child of any node keeps what it covers, unless it is the node that was cut.
proof fn kid_kept(s: State, p: u64, m: int, sib: u64, q: u64, i: int, x: u64, k: int)
    requires
        can_split_inner(s, p, m, sib, q, i),
        state::is_inner(s, x),
        0 <= k < state::kids(s, x).len(),
        !(x == q && k == i),
    ensures
        state::kid_ok(s, x, k),
        state::live(s, state::kids(s, x)[k]),
        state::kids(s, x)[k] != p,
        state::kids(s, x)[k] != sib,
        state::live(split_inner(s, p, m, sib, q, i), state::kids(s, x)[k]),
        split_inner(s, p, m, sib, q, i).spans[state::kids(s, x)[k]] == s.spans[state::kids(
            s,
            x,
        )[k]],
{
    reveal(can_split_inner);
    split_apart(s, p, m, sib, q, i);
    assert(state::node_ok(s, x));
    assert(state::kid_ok(s, x, k));
    if state::kids(s, x)[k] == p {
        state::parent_is_unique(s, x, k, q, i);
    }
}

proof fn left_half_ok(s: State, p: u64, m: int, sib: u64, q: u64, i: int)
    requires
        can_split_inner(s, p, m, sib, q, i),
    ensures
        state::node_ok(split_inner(s, p, m, sib, q, i), p),
{
    let t = split_inner(s, p, m, sib, q, i);
    split_apart(s, p, m, sib, q, i);
    assert(state::is_inner(s, p)) by {
        reveal(can_split_inner);
    }
    top_stays(s, p, m, sib, q, i);
    let ks = state::kids(s, p);
    assert(t.nodes[p as int] == NodeView::Inner {
        seps: state::seps(s, p).take(m),
        kids: ks.take(m + 1),
    });
    assert forall|k: int| 0 <= k < state::kids(t, p).len() implies #[trigger] state::kid_ok(
        t,
        p,
        k,
    ) by {
        kid_kept(s, p, m, sib, q, i, p, k);
        assert(ks.take(m + 1)[k] == ks[k]);
        if k > 0 {
            kid_kept(s, p, m, sib, q, i, p, k - 1);
            assert(ks.take(m + 1)[k - 1] == ks[k - 1]);
        }
    }
}

proof fn right_half_ok(s: State, p: u64, m: int, sib: u64, q: u64, i: int)
    requires
        can_split_inner(s, p, m, sib, q, i),
    ensures
        state::node_ok(split_inner(s, p, m, sib, q, i), sib),
{
    let t = split_inner(s, p, m, sib, q, i);
    split_apart(s, p, m, sib, q, i);
    assert(state::is_inner(s, p) && 0 < sib < s.nodes.len()) by {
        reveal(can_split_inner);
    }
    top_stays(s, p, m, sib, q, i);
    let ks = state::kids(s, p);
    assert(t.nodes[sib as int] == NodeView::Inner {
        seps: state::seps(s, p).skip(m + 1),
        kids: ks.skip(m + 1),
    });
    assert forall|k: int| 0 <= k < state::kids(t, sib).len() implies #[trigger] state::kid_ok(
        t,
        sib,
        k,
    ) by {
        kid_kept(s, p, m, sib, q, i, p, k + m + 1);
        assert(ks.skip(m + 1)[k] == ks[k + m + 1]);
        kid_kept(s, p, m, sib, q, i, p, k + m);
        if k > 0 {
            assert(ks.skip(m + 1)[k - 1] == ks[k + m]);
        }
    }
}

/// The root keeps its place.
proof fn top_stays(s: State, p: u64, m: int, sib: u64, q: u64, i: int)
    requires
        can_split_inner(s, p, m, sib, q, i),
    ensures
        split_inner(s, p, m, sib, q, i).spans[s.root] == s.spans[s.root],
        state::live(split_inner(s, p, m, sib, q, i), s.root),
        state::height(split_inner(s, p, m, sib, q, i)) == state::height(s),
        s.root != p,
{
    reveal(can_split_inner);
    split_apart(s, p, m, sib, q, i);
    assert(state::node_ok(s, s.root));
}

proof fn parent_ok(s: State, p: u64, m: int, sib: u64, q: u64, i: int)
    requires
        can_split_inner(s, p, m, sib, q, i),
    ensures
        state::node_ok(split_inner(s, p, m, sib, q, i), q),
{
    let t = split_inner(s, p, m, sib, q, i);
    split_apart(s, p, m, sib, q, i);
    assert(state::is_inner(s, q)) by {
        reveal(can_split_inner);
    }
    top_stays(s, p, m, sib, q, i);
    let ks = state::kids(s, q);
    let kt = ks.insert(i + 1, sib);
    assert(state::kids(t, q) == kt);
    assert forall|k: int| 0 <= k < state::kids(t, q).len() implies #[trigger] state::kid_ok(
        t,
        q,
        k,
    ) by {
        if k < i {
            kid_kept(s, p, m, sib, q, i, q, k);
            assert(kt[k] == ks[k]);
            if k > 0 {
                kid_kept(s, p, m, sib, q, i, q, k - 1);
                assert(kt[k - 1] == ks[k - 1]);
            }
        } else if k == i {
            assert(kt[k] == p);
            if k > 0 {
                kid_kept(s, p, m, sib, q, i, q, k - 1);
                assert(kt[k - 1] == ks[k - 1]);
            }
        } else if k == i + 1 {
            assert(kt[k] == sib);
            assert(kt[k - 1] == p);
        } else {
            kid_kept(s, p, m, sib, q, i, q, k - 1);
            assert(kt[k] == ks[k - 1]);
            if k == i + 2 {
                assert(kt[k - 1] == sib);
            } else {
                kid_kept(s, p, m, sib, q, i, q, k - 2);
                assert(kt[k - 1] == ks[k - 2]);
            }
        }
    }
}

proof fn other_ok(s: State, p: u64, m: int, sib: u64, q: u64, i: int, x: u64)
    requires
        can_split_inner(s, p, m, sib, q, i),
        state::live(s, x),
        x != p,
        x != q,
        x != sib,
    ensures
        state::node_ok(split_inner(s, p, m, sib, q, i), x),
        split_inner(s, p, m, sib, q, i).nodes[x as int] == s.nodes[x as int],
        split_inner(s, p, m, sib, q, i).spans[x] == s.spans[x],
{
    let t = split_inner(s, p, m, sib, q, i);
    split_apart(s, p, m, sib, q, i);
    top_stays(s, p, m, sib, q, i);
    assert(state::node_ok(s, x)) by {
        reveal(can_split_inner);
    }
    assert(t.nodes[x as int] == s.nodes[x as int]);
    if s.nodes[x as int] is Inner {
        assert forall|k: int| 0 <= k < state::kids(t, x).len() implies #[trigger] state::kid_ok(
            t,
            x,
            k,
        ) by {
            kid_kept(s, p, m, sib, q, i, x, k);
            if k > 0 {
                kid_kept(s, p, m, sib, q, i, x, k - 1);
            }
        }
    }
}

proof fn split_shape(s: State, p: u64, m: int, sib: u64, q: u64, i: int)
    requires
        can_split_inner(s, p, m, sib, q, i),
    ensures
        state::shape_ok(split_inner(s, p, m, sib, q, i)),
        forall|j: int|
            0 <= j < s.order.len() ==> #[trigger] state::rows_at(
                split_inner(s, p, m, sib, q, i),
                j,
            ) == state::rows_at(s, j),
        forall|j: int|
            #![trigger s.order[j]]
            0 <= j < s.order.len() ==> split_inner(s, p, m, sib, q, i).nodes[s.order[j] as int]
                == s.nodes[s.order[j] as int],
{
    let t = split_inner(s, p, m, sib, q, i);
    split_apart(s, p, m, sib, q, i);
    top_stays(s, p, m, sib, q, i);
    assert forall|x: u64| #[trigger] state::live(t, x) implies state::node_ok(t, x) by {
        if x == p {
            left_half_ok(s, p, m, sib, q, i);
        } else if x == sib {
            right_half_ok(s, p, m, sib, q, i);
        } else if x == q {
            parent_ok(s, p, m, sib, q, i);
        } else {
            other_ok(s, p, m, sib, q, i, x);
        }
    }
    reveal(can_split_inner);
    assert forall|x: u64|
        #![trigger t.nodes[x as int]]
        x < t.nodes.len() && !(t.nodes[x as int] is Free) implies state::live(t, x) by {
        if x != sib && x != p && x != q {
            let n = s.nodes[x as int];
        }
    }
    assert forall|j: int|
        #![trigger s.order[j]]
        0 <= j < t.order.len() implies state::is_leaf(t, s.order[j]) && state::lo(t, s.order[j])
        == j && t.nodes[s.order[j] as int] == s.nodes[s.order[j] as int] by {
        assert(state::is_leaf(s, s.order[j]));
        other_ok(s, p, m, sib, q, i, s.order[j]);
    }
    assert forall|a: u64, b: u64| #[trigger]
        state::live(t, a) && #[trigger] state::live(t, b) && a != b && state::level(t, a)
            == state::level(t, b) implies state::apart(t, a, b) by {
        let a0 = if a == sib {
            p
        } else {
            a
        };
        let b0 = if b == sib {
            p
        } else {
            b
        };
        assert(state::live(s, a0) && state::live(s, b0));
        if a0 != b0 {
            assert(state::apart(s, a0, b0));
        }
    }
}

/// The separators after the split.
proof fn split_seps(s: State, p: u64, m: int, sib: u64, q: u64, i: int)
    requires
        can_split_inner(s, p, m, sib, q, i),
    ensures
        state::seps_ok(split_inner(s, p, m, sib, q, i)),
{
    let t = split_inner(s, p, m, sib, q, i);
    split_apart(s, p, m, sib, q, i);
    split_shape(s, p, m, sib, q, i);
    assert forall|x: u64, k: int|
        #![trigger state::seps(t, x)[k]]
        state::is_inner(t, x) && 0 <= k < state::seps(t, x).len() implies state::sep_bounds(
        t,
        x,
        k,
        state::seps(t, x)[k],
    ) by {
        if x == p {
            assert(state::seps(t, x)[k] == state::seps(s, p)[k]);
            assert(state::kids(t, x)[k] == state::kids(s, p)[k]);
            old_sep(s, p, m, sib, q, i, x, k, p, k);
        } else if x == sib {
            assert(state::seps(t, x)[k] == state::seps(s, p)[k + m + 1]);
            assert(state::kids(t, x)[k] == state::kids(s, p)[k + m + 1]);
            old_sep(s, p, m, sib, q, i, x, k, p, k + m + 1);
        } else if x == q {
            if k < i {
                assert(state::seps(t, x)[k] == state::seps(s, q)[k]);
                assert(state::kids(t, x)[k] == state::kids(s, q)[k]);
                old_sep(s, p, m, sib, q, i, x, k, q, k);
            } else if k == i {
                assert(state::seps(t, x)[k] == state::seps(s, p)[m]);
                assert(state::kids(t, x)[k] == p);
                old_sep(s, p, m, sib, q, i, x, k, p, m);
            } else {
                assert(state::seps(t, x)[k] == state::seps(s, q)[k - 1]);
                if k == i + 1 {
                    assert(state::kids(t, x)[k] == sib);
                } else {
                    assert(state::kids(t, x)[k] == state::kids(s, q)[k - 1]);
                }
                old_sep(s, p, m, sib, q, i, x, k, q, k - 1);
            }
        } else {
            other_ok(s, p, m, sib, q, i, x);
            old_sep(s, p, m, sib, q, i, x, k, x, k);
        }
    }
}

/// A separator bounds what it did, wherever it stands now.
proof fn old_sep(
    s: State,
    p: u64,
    m: int,
    sib: u64,
    q: u64,
    i: int,
    x: u64,
    k: int,
    x0: u64,
    k0: int,
)
    requires
        can_split_inner(s, p, m, sib, q, i),
        state::is_inner(s, x0),
        0 <= k0 < state::seps(s, x0).len(),
        ({
            let t = split_inner(s, p, m, sib, q, i);
            let c = state::kids(t, x)[k];
            let c0 = state::kids(s, x0)[k0];
            ||| c == c0 && !(x0 == q && k0 == i)
            ||| c == p && x0 == p && k0 == m
            ||| c == sib && x0 == q && k0 == i
        }),
        forall|j: int|
            0 <= j < s.order.len() ==> #[trigger] state::rows_at(
                split_inner(s, p, m, sib, q, i),
                j,
            ) == state::rows_at(s, j),
    ensures
        state::sep_bounds(split_inner(s, p, m, sib, q, i), x, k, state::seps(s, x0)[k0]),
{
    let t = split_inner(s, p, m, sib, q, i);
    let c = state::kids(t, x)[k];
    let c0 = state::kids(s, x0)[k0];
    split_apart(s, p, m, sib, q, i);
    assert(state::kids(s, x0).len() == state::seps(s, x0).len() + 1) by {
        reveal(can_split_inner);
        assert(state::node_ok(s, x0));
    }
    assert(state::hi(t, c) == state::hi(s, c0)) by {
        if c == p || c == sib {
            if c == c0 && !(x0 == q && k0 == i) {
                kid_kept(s, p, m, sib, q, i, x0, k0);
            }
        } else {
            kid_kept(s, p, m, sib, q, i, x0, k0);
        }
    }
    assert(state::hi(s, c0) <= s.order.len()) by {
        reveal(can_split_inner);
        assert(state::node_ok(s, x0));
        assert(state::kid_ok(s, x0, k0));
        assert(state::node_ok(s, c0));
    }
    let bound = state::seps(s, x0)[k0];
    assert(state::sep_bounds(s, x0, k0, bound)) by {
        reveal(can_split_inner);
    }
    assert forall|j: int, a: int|
        #![trigger state::rows_at(t, j)[a]]
        0 <= j < state::hi(t, state::kids(t, x)[k]) && 0 <= a < state::rows_at(
            t,
            j,
        ).len() implies !crate::bytes::lex_lt(bound, state::rows_at(t, j)[a].key) by {
        assert(state::rows_at(t, j)[a] == state::rows_at(s, j)[a]);
    }
}

pub proof fn split_inner_ok(s: State, p: u64, m: int, sib: u64, q: u64, i: int)
    requires
        can_split_inner(s, p, m, sib, q, i),
    ensures
        state::inv(split_inner(s, p, m, sib, q, i)),
        state::height(split_inner(s, p, m, sib, q, i)) == state::height(s),
        forall|j: int|
            0 <= j < s.order.len() ==> #[trigger] state::rows_at(
                split_inner(s, p, m, sib, q, i),
                j,
            ) == state::rows_at(s, j),
{
    let t = split_inner(s, p, m, sib, q, i);
    split_shape(s, p, m, sib, q, i);
    split_seps(s, p, m, sib, q, i);
    top_stays(s, p, m, sib, q, i);
    split_apart(s, p, m, sib, q, i);
    reveal(can_split_inner);
    change::same_keys(s, t);
    assert forall|x: u64| #[trigger] state::live(t, x) implies node::fits(t.nodes[x as int]) by {
        assert(node::fits(s.nodes[p as int]));
        node::seps_len_split(state::seps(s, p), m);
        node::seps_len_split(state::seps(s, p), m + 1);
        if x == q {
            assert(node::fits(s.nodes[q as int]));
            node::seps_len_insert(state::seps(s, q), i, state::seps(s, p)[m]);
        } else if x != p && x != sib {
            assert(state::live(s, x));
        }
    }
}

} // verus!
