//! Merges of neighbouring inner nodes of a B-link tree, lowered separators, and
//! a root that is dropped.
use vstd::prelude::*;

use crate::btree::change;
use crate::btree::merge_leaf;
use crate::btree::node;
use crate::btree::node::NodeView;
use crate::btree::state;
use crate::btree::state::{Span, State};
use crate::bytes;

verus! {

// ---------------------------------------------------------------------------
// Merging.

/// Child `i + 1` of `q` merged into child `i`, with the separator between them.
pub open spec fn merge_inner(s: State, q: u64, i: int, new: Option<Seq<u8>>) -> State {
    let p = state::kids(s, q)[i];
    let r = state::kids(s, q)[i + 1];
    State {
        nodes: s.nodes.update(
            p as int,
            NodeView::Inner {
                seps: state::seps(s, p).push(state::seps(s, q)[i]) + state::seps(s, r),
                kids: state::kids(s, p) + state::kids(s, r),
            },
        ).update(r as int, NodeView::Free).update(
            q as int,
            NodeView::Inner {
                seps: merge_leaf::merged_seps(state::seps(s, q), i, new),
                kids: state::kids(s, q).remove(i + 1),
            },
        ),
        spans: s.spans.remove(r).insert(
            p,
            Span { lo: state::lo(s, p), hi: state::hi(s, r), level: state::level(s, p) },
        ),
        ..s
    }
}

#[verifier::opaque]
pub open spec fn can_merge_inner(s: State, q: u64, i: int, new: Option<Seq<u8>>) -> bool {
    &&& state::inv(s)
    &&& state::is_inner(s, q)
    &&& 0 <= i
    &&& i + 1 < state::kids(s, q).len()
    &&& state::is_inner(s, state::kids(s, q)[i])
    &&& state::is_inner(s, state::kids(s, q)[i + 1])
    &&& node::seps_len(
        state::seps(s, state::kids(s, q)[i]).push(state::seps(s, q)[i]) + state::seps(
            s,
            state::kids(s, q)[i + 1],
        ),
    ) <= node::INNER_CAPACITY
    &&& new matches Some(sep) ==> i + 1 < state::seps(s, q).len() ==> state::sep_bounds(
        s,
        q,
        i + 1,
        sep,
    )
    &&& node::seps_len(merge_leaf::merged_seps(state::seps(s, q), i, new))
        <= node::INNER_CAPACITY
}

pub proof fn apart(s: State, q: u64, i: int, new: Option<Seq<u8>>)
    requires
        can_merge_inner(s, q, i, new),
    ensures
        state::is_inner(s, q),
        state::node_ok(s, q),
        0 <= i,
        i + 1 < state::kids(s, q).len(),
        state::kids(s, q).len() == state::seps(s, q).len() + 1,
        state::kid_ok(s, q, i),
        state::kid_ok(s, q, i + 1),
        ({
            let p = state::kids(s, q)[i];
            let r = state::kids(s, q)[i + 1];
            &&& state::is_inner(s, p)
            &&& state::is_inner(s, r)
            &&& state::node_ok(s, p)
            &&& state::node_ok(s, r)
            &&& p != r
            &&& p != q
            &&& r != q
            &&& state::hi(s, p) == state::lo(s, r)
            &&& state::level(s, p) == state::level(s, r)
            &&& state::level(s, p) + 1 == state::level(s, q)
            &&& state::kids(s, p).len() == state::seps(s, p).len() + 1
            &&& state::kids(s, r).len() == state::seps(s, r).len() + 1
            &&& s.root != p
            &&& s.root != r
        }),
{
    reveal(can_merge_inner);
    assert(state::node_ok(s, q));
    assert(state::kid_ok(s, q, i));
    assert(state::kid_ok(s, q, i + 1));
    assert(state::node_ok(s, state::kids(s, q)[i]));
    assert(state::node_ok(s, state::kids(s, q)[i + 1]));
    assert(state::node_ok(s, s.root));
}

/// A child of a node keeps what it covers, unless it was merged.
proof fn kid_kept(s: State, q: u64, i: int, new: Option<Seq<u8>>, x: u64, k: int)
    requires
        can_merge_inner(s, q, i, new),
        state::is_inner(s, x),
        0 <= k < state::kids(s, x).len(),
        !(x == q && (k == i || k == i + 1)),
    ensures
        state::kid_ok(s, x, k),
        state::kids(s, x)[k] != state::kids(s, q)[i],
        state::kids(s, x)[k] != state::kids(s, q)[i + 1],
        state::live(s, state::kids(s, x)[k]),
        state::live(merge_inner(s, q, i, new), state::kids(s, x)[k]),
        merge_inner(s, q, i, new).spans[state::kids(s, x)[k]] == s.spans[state::kids(s, x)[k]],
{
    apart(s, q, i, new);
    reveal(can_merge_inner);
    assert(state::node_ok(s, x));
    assert(state::kid_ok(s, x, k));
    if state::kids(s, x)[k] == state::kids(s, q)[i] {
        state::parent_is_unique(s, x, k, q, i);
    }
    if state::kids(s, x)[k] == state::kids(s, q)[i + 1] {
        state::parent_is_unique(s, x, k, q, i + 1);
    }
}

proof fn top(s: State, q: u64, i: int, new: Option<Seq<u8>>)
    requires
        can_merge_inner(s, q, i, new),
    ensures
        state::live(merge_inner(s, q, i, new), s.root),
        merge_inner(s, q, i, new).spans[s.root] == s.spans[s.root],
        state::height(merge_inner(s, q, i, new)) == state::height(s),
        state::lo(s, s.root) == 0,
        state::hi(s, s.root) == s.order.len(),
{
    apart(s, q, i, new);
    reveal(can_merge_inner);
}

proof fn merged_ok(s: State, q: u64, i: int, new: Option<Seq<u8>>)
    requires
        can_merge_inner(s, q, i, new),
    ensures
        state::node_ok(merge_inner(s, q, i, new), state::kids(s, q)[i]),
{
    let t = merge_inner(s, q, i, new);
    apart(s, q, i, new);
    top(s, q, i, new);
    let p = state::kids(s, q)[i];
    let r = state::kids(s, q)[i + 1];
    let kp = state::kids(s, p);
    let kr = state::kids(s, r);
    let kt = kp + kr;
    assert(state::kids(t, p) == kt);
    assert forall|k: int| 0 <= k < state::kids(t, p).len() implies #[trigger] state::kid_ok(
        t,
        p,
        k,
    ) by {
        if k < kp.len() {
            kid_kept(s, q, i, new, p, k);
            assert(kt[k] == kp[k]);
            if k > 0 {
                kid_kept(s, q, i, new, p, k - 1);
                assert(kt[k - 1] == kp[k - 1]);
            }
        } else {
            let k0 = k - kp.len();
            kid_kept(s, q, i, new, r, k0);
            assert(kt[k] == kr[k0]);
            if k0 > 0 {
                kid_kept(s, q, i, new, r, k0 - 1);
                assert(kt[k - 1] == kr[k0 - 1]);
            } else {
                kid_kept(s, q, i, new, p, kp.len() - 1);
                assert(kt[k - 1] == kp[kp.len() - 1]);
            }
        }
    }
}

proof fn parent_ok(s: State, q: u64, i: int, new: Option<Seq<u8>>)
    requires
        can_merge_inner(s, q, i, new),
    ensures
        state::node_ok(merge_inner(s, q, i, new), q),
{
    let t = merge_inner(s, q, i, new);
    apart(s, q, i, new);
    top(s, q, i, new);
    let ks = state::kids(s, q);
    let kt = ks.remove(i + 1);
    assert(state::kids(t, q) == kt);
    assert forall|k: int| 0 <= k < state::kids(t, q).len() implies #[trigger] state::kid_ok(
        t,
        q,
        k,
    ) by {
        if k < i {
            kid_kept(s, q, i, new, q, k);
            assert(kt[k] == ks[k]);
            if k > 0 {
                kid_kept(s, q, i, new, q, k - 1);
                assert(kt[k - 1] == ks[k - 1]);
            }
        } else if k == i {
            assert(kt[k] == ks[i]);
            if k > 0 {
                kid_kept(s, q, i, new, q, k - 1);
                assert(kt[k - 1] == ks[k - 1]);
            }
        } else {
            kid_kept(s, q, i, new, q, k + 1);
            assert(kt[k] == ks[k + 1]);
            if k == i + 1 {
                assert(kt[k - 1] == ks[i]);
            } else {
                kid_kept(s, q, i, new, q, k);
                assert(kt[k - 1] == ks[k]);
            }
        }
    }
}

proof fn other_ok(s: State, q: u64, i: int, new: Option<Seq<u8>>, x: u64)
    requires
        can_merge_inner(s, q, i, new),
        state::live(s, x),
        x != q,
        x != state::kids(s, q)[i],
        x != state::kids(s, q)[i + 1],
    ensures
        state::node_ok(merge_inner(s, q, i, new), x),
        merge_inner(s, q, i, new).nodes[x as int] == s.nodes[x as int],
        merge_inner(s, q, i, new).spans[x] == s.spans[x],
        state::live(merge_inner(s, q, i, new), x),
{
    let t = merge_inner(s, q, i, new);
    apart(s, q, i, new);
    top(s, q, i, new);
    assert(state::node_ok(s, x)) by {
        reveal(can_merge_inner);
    }
    assert(t.nodes[x as int] == s.nodes[x as int]);
    if s.nodes[x as int] is Inner {
        assert forall|k: int| 0 <= k < state::kids(t, x).len() implies #[trigger] state::kid_ok(
            t,
            x,
            k,
        ) by {
            kid_kept(s, q, i, new, x, k);
            if k > 0 {
                kid_kept(s, q, i, new, x, k - 1);
            }
        }
    }
}

proof fn shape(s: State, q: u64, i: int, new: Option<Seq<u8>>)
    requires
        can_merge_inner(s, q, i, new),
    ensures
        state::shape_ok(merge_inner(s, q, i, new)),
        forall|j: int|
            0 <= j < s.order.len() ==> #[trigger] state::rows_at(merge_inner(s, q, i, new), j)
                == state::rows_at(s, j),
        forall|j: int|
            #![trigger s.order[j]]
            0 <= j < s.order.len() ==> merge_inner(s, q, i, new).nodes[s.order[j] as int]
                == s.nodes[s.order[j] as int],
{
    let t = merge_inner(s, q, i, new);
    apart(s, q, i, new);
    top(s, q, i, new);
    let p = state::kids(s, q)[i];
    let r = state::kids(s, q)[i + 1];
    assert forall|x: u64| #[trigger] state::live(t, x) implies state::node_ok(t, x) by {
        if x == p {
            merged_ok(s, q, i, new);
        } else if x == q {
            parent_ok(s, q, i, new);
        } else {
            assert(state::live(s, x));
            other_ok(s, q, i, new, x);
        }
    }
    reveal(can_merge_inner);
    assert forall|x: u64|
        #![trigger t.nodes[x as int]]
        x < t.nodes.len() && !(t.nodes[x as int] is Free) implies state::live(t, x) by {
        let n = s.nodes[x as int];
    }
    assert forall|j: int|
        #![trigger s.order[j]]
        0 <= j < t.order.len() implies state::is_leaf(t, s.order[j]) && state::lo(t, s.order[j])
        == j && t.nodes[s.order[j] as int] == s.nodes[s.order[j] as int] by {
        assert(state::is_leaf(s, s.order[j]));
        other_ok(s, q, i, new, s.order[j]);
    }
    assert forall|a: u64, b: u64| #[trigger]
        state::live(t, a) && #[trigger] state::live(t, b) && a != b && state::level(t, a)
            == state::level(t, b) implies state::apart(t, a, b) by {
        assert(state::live(s, a) && state::live(s, b));
        assert(state::apart(s, a, b));
        if a == p {
            assert(state::apart(s, r, b));
            assert(state::node_ok(s, b));
        } else if b == p {
            assert(state::apart(s, a, r));
            assert(state::node_ok(s, a));
        }
    }
}

/// A separator bounds what it did, wherever it stands now.
proof fn old_sep(
    s: State,
    q: u64,
    i: int,
    new: Option<Seq<u8>>,
    x: u64,
    k: int,
    h: int,
    bound: Seq<u8>,
)
    requires
        can_merge_inner(s, q, i, new),
        h <= s.order.len(),
        forall|j: int, a: int|
            #![trigger state::rows_at(s, j)[a]]
            0 <= j < h && 0 <= a < state::rows_at(s, j).len() ==> !bytes::lex_lt(
                bound,
                state::rows_at(s, j)[a].key,
            ),
        state::hi(
            merge_inner(s, q, i, new),
            state::kids(merge_inner(s, q, i, new), x)[k],
        ) == h,
        forall|j: int|
            0 <= j < s.order.len() ==> #[trigger] state::rows_at(merge_inner(s, q, i, new), j)
                == state::rows_at(s, j),
    ensures
        state::sep_bounds(merge_inner(s, q, i, new), x, k, bound),
{
    let t = merge_inner(s, q, i, new);
    assert forall|j: int, a: int|
        #![trigger state::rows_at(t, j)[a]]
        0 <= j < state::hi(t, state::kids(t, x)[k]) && 0 <= a < state::rows_at(
            t,
            j,
        ).len() implies !bytes::lex_lt(bound, state::rows_at(t, j)[a].key) by {
        assert(state::rows_at(t, j)[a] == state::rows_at(s, j)[a]);
    }
}

/// What separator `k0` of `x0` bounds.
proof fn bound_of(s: State, q: u64, i: int, new: Option<Seq<u8>>, x0: u64, k0: int)
    requires
        can_merge_inner(s, q, i, new),
        state::is_inner(s, x0),
        0 <= k0 < state::seps(s, x0).len(),
    ensures
        state::sep_bounds(s, x0, k0, state::seps(s, x0)[k0]),
        state::hi(s, state::kids(s, x0)[k0]) <= s.order.len(),
        state::kids(s, x0).len() == state::seps(s, x0).len() + 1,
{
    reveal(can_merge_inner);
    assert(state::node_ok(s, x0));
    assert(state::kid_ok(s, x0, k0));
    assert(state::node_ok(s, state::kids(s, x0)[k0]));
}

/// A separator whose child was not merged.
proof fn kept_sep(
    s: State,
    q: u64,
    i: int,
    new: Option<Seq<u8>>,
    x: u64,
    k: int,
    x0: u64,
    k0: int,
)
    requires
        can_merge_inner(s, q, i, new),
        state::is_inner(s, x0),
        0 <= k0 < state::seps(s, x0).len(),
        !(x0 == q && (k0 == i || k0 == i + 1)),
        state::kids(merge_inner(s, q, i, new), x)[k] == state::kids(s, x0)[k0],
    ensures
        state::sep_bounds(merge_inner(s, q, i, new), x, k, state::seps(s, x0)[k0]),
{
    shape(s, q, i, new);
    bound_of(s, q, i, new, x0, k0);
    kid_kept(s, q, i, new, x0, k0);
    old_sep(
        s,
        q,
        i,
        new,
        x,
        k,
        state::hi(s, state::kids(s, x0)[k0]),
        state::seps(s, x0)[k0],
    );
}

proof fn merged_seps_ok(s: State, q: u64, i: int, new: Option<Seq<u8>>, k: int)
    requires
        can_merge_inner(s, q, i, new),
        0 <= k < state::seps(merge_inner(s, q, i, new), state::kids(s, q)[i]).len(),
    ensures
        ({
            let t = merge_inner(s, q, i, new);
            let p = state::kids(s, q)[i];
            state::sep_bounds(t, p, k, state::seps(t, p)[k])
        }),
{
    let t = merge_inner(s, q, i, new);
    let p = state::kids(s, q)[i];
    let r = state::kids(s, q)[i + 1];
    apart(s, q, i, new);
    let sp = state::seps(s, p);
    let sr = state::seps(s, r);
    let kp = state::kids(s, p);
    let kr = state::kids(s, r);
    let st = sp.push(state::seps(s, q)[i]) + sr;
    let kt = kp + kr;
    assert(state::seps(t, p) == st && state::kids(t, p) == kt);
    if k < sp.len() {
        assert(st[k] == sp[k]);
        assert(kt[k] == kp[k]);
        kept_sep(s, q, i, new, p, k, p, k);
    } else if k == sp.len() {
        assert(st[k] == state::seps(s, q)[i]);
        assert(kt[k] == kp[k]);
        shape(s, q, i, new);
        bound_of(s, q, i, new, q, i);
        kid_kept(s, q, i, new, p, k);
        old_sep(s, q, i, new, p, k, state::hi(s, p), state::seps(s, q)[i]);
    } else {
        let k0 = k - sp.len() - 1;
        assert(st[k] == sr[k0]);
        assert(kt[k] == kr[k0]);
        kept_sep(s, q, i, new, p, k, r, k0);
    }
}

proof fn parent_seps_ok(s: State, q: u64, i: int, new: Option<Seq<u8>>, k: int)
    requires
        can_merge_inner(s, q, i, new),
        0 <= k < state::seps(merge_inner(s, q, i, new), q).len(),
    ensures
        ({
            let t = merge_inner(s, q, i, new);
            state::sep_bounds(t, q, k, state::seps(t, q)[k])
        }),
{
    let t = merge_inner(s, q, i, new);
    apart(s, q, i, new);
    let ss = state::seps(s, q);
    let ks = state::kids(s, q);
    let st = merge_leaf::merged_seps(ss, i, new);
    let kt = ks.remove(i + 1);
    assert(state::seps(t, q) == st && state::kids(t, q) == kt);
    if k < i {
        assert(st[k] == ss[k]);
        assert(kt[k] == ks[k]);
        kept_sep(s, q, i, new, q, k, q, k);
    } else if k == i {
        assert(kt[k] == ks[i]);
        shape(s, q, i, new);
        bound_of(s, q, i, new, q, i + 1);
        if new is None {
            assert(st[k] == ss[i + 1]);
        } else {
            assert(state::sep_bounds(s, q, i + 1, st[k])) by {
                reveal(can_merge_inner);
            }
        }
        old_sep(s, q, i, new, q, k, state::hi(s, ks[i + 1]), st[k]);
    } else {
        assert(st[k] == ss[k + 1]);
        assert(kt[k] == ks[k + 1]);
        kept_sep(s, q, i, new, q, k, q, k + 1);
    }
}

pub proof fn merge_inner_ok(s: State, q: u64, i: int, new: Option<Seq<u8>>)
    requires
        can_merge_inner(s, q, i, new),
    ensures
        state::inv(merge_inner(s, q, i, new)),
        state::height(merge_inner(s, q, i, new)) == state::height(s),
        forall|j: int|
            0 <= j < s.order.len() ==> #[trigger] state::rows_at(merge_inner(s, q, i, new), j)
                == state::rows_at(s, j),
{
    let t = merge_inner(s, q, i, new);
    let p = state::kids(s, q)[i];
    let r = state::kids(s, q)[i + 1];
    apart(s, q, i, new);
    shape(s, q, i, new);
    top(s, q, i, new);
    assert(state::seps_ok(t)) by {
        assert forall|x: u64, k: int|
            #![trigger state::seps(t, x)[k]]
            state::is_inner(t, x) && 0 <= k < state::seps(t, x).len() implies state::sep_bounds(
            t,
            x,
            k,
            state::seps(t, x)[k],
        ) by {
            if x == p {
                merged_seps_ok(s, q, i, new, k);
            } else if x == q {
                parent_seps_ok(s, q, i, new, k);
            } else {
                assert(state::live(s, x));
                other_ok(s, q, i, new, x);
                kept_sep(s, q, i, new, x, k, x, k);
            }
        }
    }
    reveal(can_merge_inner);
    change::same_keys(s, t);
    assert forall|x: u64| #[trigger] state::live(t, x) implies node::fits(t.nodes[x as int]) by {
        assert(state::live(s, x));
        assert(node::fits(s.nodes[x as int]));
    }
}

// ---------------------------------------------------------------------------
// A lower separator.

pub open spec fn with_sep(s: State, q: u64, i: int, sep: Seq<u8>) -> State {
    State {
        nodes: s.nodes.update(
            q as int,
            NodeView::Inner { seps: state::seps(s, q).update(i, sep), kids: state::kids(s, q) },
        ),
        ..s
    }
}

pub proof fn with_sep_ok(s: State, q: u64, i: int, sep: Seq<u8>)
    requires
        state::inv(s),
        state::is_inner(s, q),
        0 <= i < state::seps(s, q).len(),
        state::sep_bounds(s, q, i, sep),
        node::seps_len(state::seps(s, q).update(i, sep)) <= node::INNER_CAPACITY,
    ensures
        state::inv(with_sep(s, q, i, sep)),
        state::height(with_sep(s, q, i, sep)) == state::height(s),
        forall|j: int|
            0 <= j < s.order.len() ==> #[trigger] state::rows_at(with_sep(s, q, i, sep), j)
                == state::rows_at(s, j),
{
    let t = with_sep(s, q, i, sep);
    assert(state::node_ok(s, q));
    assert forall|p: u64| p < s.nodes.len() && p != q implies #[trigger] t.nodes[p as int]
        == s.nodes[p as int] by {}
    assert(state::kids(t, q) == state::kids(s, q));
    assert forall|p: u64| #[trigger] state::live(t, p) implies state::node_ok(t, p) by {
        assert(state::live(s, p));
        assert(state::node_ok(s, p));
        if s.nodes[p as int] is Inner {
            assert forall|k: int| 0 <= k < state::kids(t, p).len() implies
            #[trigger] state::kid_ok(t, p, k) by {
                assert(state::kid_ok(s, p, k));
            }
        }
    }
    assert forall|j: int|
        #![trigger s.order[j]]
        0 <= j < t.order.len() implies state::is_leaf(t, s.order[j]) && state::lo(t, s.order[j])
        == j && t.nodes[s.order[j] as int] == s.nodes[s.order[j] as int] by {
        assert(state::is_leaf(s, s.order[j]));
        assert(state::node_ok(s, s.order[j]));
    }
    assert forall|p: u64, r: u64| #[trigger]
        state::live(t, p) && #[trigger] state::live(t, r) && p != r && state::level(t, p)
            == state::level(t, r) implies state::apart(t, p, r) by {
        assert(state::live(s, p) && state::live(s, r));
        assert(state::apart(s, p, r));
    }
    change::same_keys(s, t);
    assert(state::seps_ok(t)) by {
        assert forall|p: u64, k: int|
            #![trigger state::seps(t, p)[k]]
            state::is_inner(t, p) && 0 <= k < state::seps(t, p).len() implies state::sep_bounds(
            t,
            p,
            k,
            state::seps(t, p)[k],
        ) by {
            assert(state::live(s, p));
            assert(state::node_ok(s, p));
            let bound = state::seps(t, p)[k];
            if !(p == q && k == i) {
                assert(bound == state::seps(s, p)[k]);
            }
            assert(state::sep_bounds(s, p, k, bound));
            assert(state::kid_ok(s, p, k));
            assert(state::node_ok(s, state::kids(s, p)[k]));
            assert forall|j: int, a: int|
                #![trigger state::rows_at(t, j)[a]]
                0 <= j < state::hi(t, state::kids(t, p)[k]) && 0 <= a < state::rows_at(
                    t,
                    j,
                ).len() implies !bytes::lex_lt(bound, state::rows_at(t, j)[a].key) by {
                assert(state::rows_at(t, j)[a] == state::rows_at(s, j)[a]);
            }
        }
    }
    assert forall|p: u64| #[trigger] state::live(t, p) implies node::fits(t.nodes[p as int]) by {
        assert(state::live(s, p));
    }
}

// ---------------------------------------------------------------------------
// A root with one child.

pub open spec fn without_root(s: State) -> State {
    State {
        nodes: s.nodes.update(s.root as int, NodeView::Free),
        root: state::kids(s, s.root)[0],
        spans: s.spans.remove(s.root),
        ..s
    }
}

pub proof fn without_root_ok(s: State)
    requires
        state::inv(s),
        state::is_inner(s, s.root),
        state::kids(s, s.root).len() == 1,
    ensures
        state::inv(without_root(s)),
        state::height(without_root(s)) == state::height(s) - 1,
        forall|j: int|
            0 <= j < s.order.len() ==> #[trigger] state::rows_at(without_root(s), j)
                == state::rows_at(s, j),
{
    let t = without_root(s);
    let q = s.root;
    let c = state::kids(s, q)[0];
    assert(state::node_ok(s, q));
    assert(state::kid_ok(s, q, 0));
    assert(state::node_ok(s, c));
    assert forall|p: u64| state::live(s, p) && p != q implies #[trigger] t.nodes[p as int]
        == s.nodes[p as int] && state::level(s, p) < state::level(s, q) by {
        assert(state::node_ok(s, p));
        if state::level(s, p) == state::level(s, q) {
            assert(state::apart(s, p, q));
        }
    }
    assert forall|p: u64| #[trigger] state::live(t, p) implies state::node_ok(t, p) by {
        assert(state::live(s, p));
        assert(state::node_ok(s, p));
        let n = t.nodes[p as int];
        if s.nodes[p as int] is Inner {
            assert forall|k: int| 0 <= k < state::kids(t, p).len() implies
            #[trigger] state::kid_ok(t, p, k) by {
                assert(state::kid_ok(s, p, k));
                if k > 0 {
                    assert(state::kid_ok(s, p, k - 1));
                }
            }
        }
    }
    assert forall|p: u64|
        #![trigger t.nodes[p as int]]
        p < t.nodes.len() && !(t.nodes[p as int] is Free) implies state::live(t, p) by {
        let n = s.nodes[p as int];
    }
    assert forall|j: int|
        #![trigger s.order[j]]
        0 <= j < t.order.len() implies state::is_leaf(t, s.order[j]) && state::lo(t, s.order[j])
        == j && t.nodes[s.order[j] as int] == s.nodes[s.order[j] as int] by {
        assert(state::is_leaf(s, s.order[j]));
        assert(state::node_ok(s, s.order[j]));
    }
    assert forall|p: u64, r: u64| #[trigger]
        state::live(t, p) && #[trigger] state::live(t, r) && p != r && state::level(t, p)
            == state::level(t, r) implies state::apart(t, p, r) by {
        assert(state::live(s, p) && state::live(s, r));
        assert(state::apart(s, p, r));
    }
    change::same_keys(s, t);
    assert(state::seps_ok(t)) by {
        assert forall|p: u64, k: int|
            #![trigger state::seps(t, p)[k]]
            state::is_inner(t, p) && 0 <= k < state::seps(t, p).len() implies state::sep_bounds(
            t,
            p,
            k,
            state::seps(t, p)[k],
        ) by {
            assert(state::live(s, p));
            assert(state::node_ok(s, p));
            let n = t.nodes[p as int];
            let bound = state::seps(s, p)[k];
            assert(state::sep_bounds(s, p, k, bound));
            assert(state::kid_ok(s, p, k));
            assert(state::node_ok(s, state::kids(s, p)[k]));
            assert forall|j: int, a: int|
                #![trigger state::rows_at(t, j)[a]]
                0 <= j < state::hi(t, state::kids(t, p)[k]) && 0 <= a < state::rows_at(
                    t,
                    j,
                ).len() implies !bytes::lex_lt(bound, state::rows_at(t, j)[a].key) by {
                assert(state::rows_at(t, j)[a] == state::rows_at(s, j)[a]);
            }
        }
    }
    assert forall|p: u64| #[trigger] state::live(t, p) implies node::fits(t.nodes[p as int]) by {
        assert(state::live(s, p));
        let n = t.nodes[p as int];
    }
}

} // verus!
