//! Reclaiming versions a few leaves at a time gets on: a pass that used up its leaves
//! leaves the cursor behind where it was.
use vstd::prelude::*;

use crate::betree::config::CowBeTreeConfig;
use crate::betree::course;
use crate::betree::gc::CowBeTreeGcResult;
use crate::betree::node;
use crate::betree::node::{CowBeTreeError, FenceView};
use crate::betree::pool::PoolView;
use crate::betree::reclaim;
use crate::betree::reclaim::{Sweep, Swept};
use crate::betree::shape;
use crate::betree::shape::TreeView;
use crate::betree::tree::CowBeTree;
use crate::bytes;

verus! {

/// The range of the fence is not empty.
spec fn is_open(fence: FenceView) -> bool {
    fence.upper matches Some(u) ==> bytes::lex_lt(fence.lower, u)
}

/// Every tree covers the range between the separators around it, and nothing waits.
spec fn fenced(t: TreeView) -> bool
    decreases t,
{
    is_open(shape::fence_of(t)) && match t {
        TreeView::Leaf { .. } => true,
        TreeView::Node { fence, separators, buffer, kids, .. } => {
            &&& kids.len() == separators.len() + 1
            &&& buffer.len() == 0
            &&& node::sorted_keys(separators)
            &&& shape::separators_inside(fence, separators)
            &&& forall|i: int|
                0 <= i < kids.len() ==> fenced(#[trigger] kids[i]) && shape::fence_of(kids[i])
                    == shape::child_fence(fence, separators, i)
        },
    }
}

proof fn bare_is_fenced(t: TreeView, h: nat)
    requires
        shape::wf(t, h),
        shape::unbuffered(t),
        is_open(shape::fence_of(t)),
    ensures
        fenced(course::bare(t)),
        shape::fence_of(course::bare(t)) == shape::fence_of(t),
    decreases t,
{
    course::bare_node(t);
    if t is Node {
        let (fence, separators, kids) = (t->Node_fence, t->separators, t->kids);
        shape::wf_node(t, h);
        let k2 = course::bare_all(kids);
        assert forall|i: int| 0 <= i < k2.len() implies fenced(#[trigger] k2[i]) && shape::fence_of(
            k2[i],
        ) == shape::child_fence(fence, separators, i) by {
            assert(shape::wf(kids[i], (h - 1) as nat));
            assert(shape::unbuffered(kids[i]));
            assert(shape::fence_of(kids[i]) == shape::child_fence(fence, separators, i));
            if i > 0 && i < separators.len() {
                assert(bytes::lex_lt(separators[i - 1], separators[i]));
            } else if i > 0 {
                let sep = separators[i - 1];
            } else if i < separators.len() {
                let sep = separators[i];
            }
            bare_is_fenced(kids[i], (h - 1) as nat);
        }
    }
}

/// A pass under a fence, from `low` on, got on if it came to a leaf: where it stands then
/// is behind the lower end of the fence and behind `low`, or there is nothing behind.
spec fn got_on(fence: FenceView, low: Option<Seq<u8>>, s: Sweep, p: Sweep) -> bool {
    &&& p.remaining <= s.remaining
    &&& p.remaining == s.remaining ==> p.next == s.next
    &&& p.remaining < s.remaining ==> match p.next {
        None => p.end,
        Some(n) => bytes::lex_lt(fence.lower, n) && (low matches Some(l) ==> bytes::lex_lt(l, n)),
    }
}

#[verifier::rlimit(40)]
#[verifier::spinoff_prover]
proof fn pass_gets_on(
    config: CowBeTreeConfig,
    t: TreeView,
    h: nat,
    watermark: u64,
    low: Option<Seq<u8>>,
    s: Sweep,
)
    requires
        fenced(t),
        reclaim::swept(config, t, h, watermark, low, s) is Ok,
    ensures
        got_on(
            shape::fence_of(t),
            low,
            s,
            reclaim::swept(config, t, h, watermark, low, s)->Ok_0.sweep,
        ),
    decreases h, 0nat, 0int,
{
    let p = reclaim::swept(config, t, h, watermark, low, s)->Ok_0;
    if s.remaining == 0 || s.end {
    } else {
        match t {
            TreeView::Leaf { .. } => {
                assert(p == reclaim::leaf_swept(t, watermark, low, s));
            },
            TreeView::Node { fence, separators, kids, .. } => {
                let start = match low {
                    Some(l) => node::route(separators, l) as int,
                    None => 0,
                };
                if let Some(l) = low {
                    node::route_splits(separators, l);
                }
                let first = Swept {
                    out: course::Out { separators, kids },
                    sweep: s,
                    changed: false,
                };
                let r = reclaim::each_swept(config, first, start, low, (h - 1) as nat, watermark);
                assert(r is Ok);
                each_gets_on(config, t, first, start, 0, low, low, (h - 1) as nat, watermark, s);
                assert(p.sweep == r->Ok_0.sweep);
            },
        }
    }
}

/// A pass over the children of `t` from the one at `i` on, which are as far behind in
/// the forest as it has grown.
#[verifier::rlimit(40)]
#[verifier::spinoff_prover]
proof fn each_gets_on(
    config: CowBeTreeConfig,
    t: TreeView,
    p: Swept,
    i: int,
    grown: int,
    low: Option<Seq<u8>>,
    from: Option<Seq<u8>>,
    h: nat,
    watermark: u64,
    s: Sweep,
)
    requires
        fenced(t),
        t is Node,
        p.out.kids.len() == t->kids.len() + grown,
        0 <= i - grown,
        forall|j: int|
            i <= j < p.out.kids.len() ==> #[trigger] p.out.kids[j] == t->kids[j - grown],
        got_on(t->Node_fence, from, s, p.sweep),
        low is Some ==> low == from && node::route(t->separators, low->0) <= i - grown,
        low is None && from is Some ==> {
            let r = node::route(t->separators, from->0);
            r < i - grown && (r < t->separators.len() ==> bytes::lex_lt(
                from->0,
                t->separators[r as int],
            ))
        },
        reclaim::each_swept(config, p, i, low, h, watermark) is Ok,
    ensures
        got_on(
            t->Node_fence,
            from,
            s,
            reclaim::each_swept(config, p, i, low, h, watermark)->Ok_0.sweep,
        ),
    decreases h, 1nat, p.out.kids.len() - i,
{
    broadcast use bytes::group_lex;

    if !(0 <= i < p.out.kids.len()) || p.sweep.remaining == 0 || p.sweep.end {
    } else {
        let (fence, separators) = (t->Node_fence, t->separators);
        let c = i - grown;
        let kid = p.out.kids[i];
        assert(kid == t->kids[c]);
        assert(fenced(t->kids[c]));
        assert(shape::fence_of(kid) == shape::child_fence(fence, separators, c));
        let r = reclaim::swept(config, kid, h, watermark, low, p.sweep);
        assert(r is Ok);
        let q = r->Ok_0;
        pass_gets_on(config, kid, h, watermark, low, p.sweep);
        let next = Swept {
            out: course::spliced(p.out.separators, p.out.kids, i, q.out),
            sweep: q.sweep,
            changed: p.changed || q.changed,
        };
        assert(got_on(fence, from, s, q.sweep)) by {
            if q.sweep.remaining < p.sweep.remaining && q.sweep.next is Some {
                let n = q.sweep.next->0;
                if c > 0 {
                    assert(bytes::lex_lt(fence.lower, separators[c - 1]));
                    bytes::lex_lt_transitive(fence.lower, separators[c - 1], n);
                }
                if low is None && from is Some {
                    let l = from->0;
                    let at = node::route(separators, l) as int;
                    if at < c - 1 {
                        assert(bytes::lex_lt(separators[at], separators[c - 1]));
                        bytes::lex_lt_transitive(l, separators[at], separators[c - 1]);
                    }
                    bytes::lex_lt_transitive(l, separators[c - 1], n);
                }
            }
        }
        let len = q.out.kids.len() as int;
        if let Some(l) = from {
            node::route_splits(separators, l);
        }
        each_gets_on(config, t, next, i + len, grown + len - 1, None, from, h, watermark, s);
    }
}

/// A pass over a tree in which nothing waits that used up its leaves, at least one,
/// leaves the cursor at a key, and at one behind that where it was: so passes come to
/// the end of the tree.
pub proof fn pass_moves_the_cursor(
    pre: CowBeTree,
    s1: PoolView,
    watermark: u64,
    low: Option<Seq<u8>>,
    max_leaf_pages: usize,
    whole: TreeView,
    result: CowBeTreeGcResult,
    next: Option<Seq<u8>>,
)
    requires
        pre.stands(s1),
        shape::unbuffered(pre.tree()),
        max_leaf_pages > 0,
        reclaim::passed_over(
            pre.options(),
            course::bare(pre.tree()),
            pre.depth(),
            watermark,
            low,
            max_leaf_pages,
        ) == Ok::<_, CowBeTreeError>((whole, result, next)),
        result.budget_exhausted,
        !result.cursor_wrapped,
    ensures
        next is Some,
        low matches Some(l) ==> bytes::lex_lt(l, next->0),
{
    let b = course::bare(pre.tree());
    let s = Sweep {
        remaining: max_leaf_pages as int,
        result: crate::betree::gc::no_result(),
        next: low,
        end: false,
    };
    bare_is_fenced(pre.tree(), pre.depth());
    pass_gets_on(pre.options(), b, pre.depth(), watermark, low, s);
}

} // verus!
