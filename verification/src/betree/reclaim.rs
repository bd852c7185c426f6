//! The course of reclaiming versions in a tree, page ids aside.
use vstd::prelude::*;

use crate::betree::compact;
use crate::betree::config::CowBeTreeConfig;
use crate::betree::course;
use crate::betree::course::Out;
use crate::betree::drain;
use crate::betree::gc;
use crate::betree::gc::CowBeTreeGcResult;
use crate::betree::gc_tree;
use crate::betree::gc_tree::IncrementalGcState;
use crate::betree::leaf_work::Rewrite;
use crate::betree::node;
use crate::betree::node::CowBeTreeError;
use crate::betree::root;
use crate::betree::shape;
use crate::betree::shape::TreeView;

verus! {

/// What pruning came to: the trees then, the counts, and whether anything changed.
pub struct Pruned {
    pub out: Out,
    pub result: CowBeTreeGcResult,
    pub changed: bool,
}

/// All leaves of a tree of height `h` are pruned and what has become small is
/// merged; a node with messages in its buffer is flushed instead. The counts are
/// added to `r`.
pub open spec fn pruned(
    config: CowBeTreeConfig,
    t: TreeView,
    h: nat,
    watermark: u64,
    r: CowBeTreeGcResult,
) -> Result<Pruned, CowBeTreeError>
    decreases h, 0nat, 0int,
{
    match t {
        TreeView::Leaf { fence, entries, .. } => {
            let count = gc_tree::leaf_result(entries, watermark);
            let changed = count.versions_pruned != 0;
            let es = gc::pruned_entries(entries, watermark);
            Ok(
                Pruned {
                    out: course::one(
                        if changed {
                            course::leaf(fence, es)
                        } else {
                            t
                        },
                    ),
                    result: gc::sum_results(r, count),
                    changed,
                },
            )
        },
        TreeView::Node { fence, separators, buffer, kids, .. } => if h == 0 {
            Err(CowBeTreeError::EmptyInternalPage)
        } else if buffer.len() > 0 {
            match course::flushed(config, fence, separators, buffer, kids, (h - 1) as nat) {
                Err(e) => Err(e),
                Ok(out) => Ok(Pruned { out, result: r, changed: true }),
            }
        } else {
            let start = Pruned { out: Out { separators, kids }, result: r, changed: false };
            match each_pruned(config, start, 0, (h - 1) as nat, watermark) {
                Err(e) => Err(e),
                Ok(p) => if p.changed {
                    let m = compact::merges(config, p.out.kids, p.out.separators, 0);
                    match course::inner_rewritten(
                        config,
                        fence,
                        m.1,
                        Seq::empty(),
                        course::bare_all(m.0),
                    ) {
                        Err(e) => Err(e),
                        Ok(out) => Ok(Pruned { out, ..p }),
                    }
                } else {
                    Ok(Pruned { out: course::one(t), ..p })
                },
            }
        },
    }
}

/// The trees of a forest from `i` on are pruned.
pub open spec fn each_pruned(
    config: CowBeTreeConfig,
    p: Pruned,
    i: int,
    h: nat,
    watermark: u64,
) -> Result<Pruned, CowBeTreeError>
    decreases h, 1nat, p.out.kids.len() - i,
{
    if !(0 <= i < p.out.kids.len()) {
        Ok(p)
    } else {
        match pruned(config, p.out.kids[i], h, watermark, p.result) {
            Err(e) => Err(e),
            Ok(q) => {
                let out = course::spliced(p.out.separators, p.out.kids, i, q.out);
                each_pruned(
                    config,
                    Pruned { out, result: q.result, changed: p.changed || q.changed },
                    i + q.out.kids.len(),
                    h,
                    watermark,
                )
            },
        }
    }
}

/// Where pruning stands with a forest.
pub open spec fn stand(
    separators: Seq<Seq<u8>>,
    kids: Seq<TreeView>,
    result: CowBeTreeGcResult,
    changed: bool,
) -> Pruned {
    Pruned { out: Out { separators, kids: course::bare_all(kids) }, result, changed }
}

/// Pruning came out as it should.
pub open spec fn came_out(
    r: Result<(Rewrite, bool), CowBeTreeError>,
    result: CowBeTreeGcResult,
    p: Result<Pruned, CowBeTreeError>,
) -> bool {
    match r {
        Ok((rw, changed)) => p == Ok::<_, CowBeTreeError>(
            Pruned { out: course::out_of(rw), result, changed },
        ),
        Err(e) => p == Err::<Pruned, CowBeTreeError>(e),
    }
}

/// What reclaiming makes of a whole tree, and the counts: if there was something
/// to drop, a root with one child gives way to it.
pub open spec fn cleared(config: CowBeTreeConfig, t: TreeView, h: nat, watermark: u64) -> Result<
    (TreeView, CowBeTreeGcResult),
    CowBeTreeError,
> {
    match pruned(config, t, h, watermark, gc::no_result()) {
        Err(e) => Err(e),
        Ok(p) => match course::rooted(Ok(p.out)) {
            Err(e) => Err(e),
            Ok(whole) => Ok(
                (
                    if p.result.versions_pruned > 0 {
                        root::collapsed(whole)
                    } else {
                        whole
                    },
                    p.result,
                ),
            ),
        },
    }
}

pub open spec fn ends_after(
    config: CowBeTreeConfig,
    t: TreeView,
    h: nat,
    watermark: u64,
    n: nat,
    end: Result<(TreeView, CowBeTreeGcResult), CowBeTreeError>,
) -> bool {
    match drain::last_round(config, t, h, n) {
        None => false,
        Some(Err(e)) => end == Err::<(TreeView, CowBeTreeGcResult), CowBeTreeError>(e),
        Some(Ok(u)) => end == cleared(config, u, h + n, watermark),
    }
}

/// The tree of height `h`, flushed and then pruned, ends with a tree and counts,
/// or where something has no place on its page.
pub open spec fn ends(
    config: CowBeTreeConfig,
    t: TreeView,
    h: nat,
    watermark: u64,
    end: Result<(TreeView, CowBeTreeGcResult), CowBeTreeError>,
) -> bool {
    exists|n: nat| #[trigger] ends_after(config, t, h, watermark, n, end)
}

/// Reclaiming versions has one end.
pub proof fn reclaiming_has_one_end(
    config: CowBeTreeConfig,
    t: TreeView,
    h: nat,
    watermark: u64,
    a: Result<(TreeView, CowBeTreeGcResult), CowBeTreeError>,
    b: Result<(TreeView, CowBeTreeGcResult), CowBeTreeError>,
)
    requires
        ends(config, t, h, watermark, a),
        ends(config, t, h, watermark, b),
    ensures
        a == b,
{
    let n = choose|n: nat| #[trigger] ends_after(config, t, h, watermark, n, a);
    let m = choose|m: nat| #[trigger] ends_after(config, t, h, watermark, m, b);
    let x = drain::last_round(config, t, h, n)->0;
    let y = drain::last_round(config, t, h, m)->0;
    assert(drain::ends_after(config, t, h, n, x));
    assert(drain::ends_after(config, t, h, m, y));
    if m > n {
        drain::no_round_after(config, t, h, n, x, m);
    }
    if n > m {
        drain::no_round_after(config, t, h, m, y, n);
    }
}

// ---------------------------------------------------------------------------
// A few leaves at a time.

/// Where a pass over leaves stands: how many it may still visit, what it came to,
/// where the next pass goes on, and whether there is nothing behind.
pub struct Sweep {
    pub remaining: int,
    pub result: CowBeTreeGcResult,
    pub next: Option<Seq<u8>>,
    pub end: bool,
}

/// What a pass came to in a tree: the trees then, where the pass stands, and
/// whether anything changed.
pub struct Swept {
    pub out: Out,
    pub sweep: Sweep,
    pub changed: bool,
}

pub open spec fn sweep_of(state: IncrementalGcState) -> Sweep {
    Sweep {
        remaining: state.remaining_leaf_pages as int,
        result: state.result,
        next: gc_tree::opt_key(state.next_key),
        end: state.reached_end,
    }
}

/// A pass from `low` on comes to a leaf.
pub open spec fn leaf_swept(t: TreeView, watermark: u64, low: Option<Seq<u8>>, s: Sweep) -> Swept {
    let fence = shape::fence_of(t);
    let es = t->entries;
    let end = s.end || fence.upper is None;
    if gc_tree::may_hold(fence, es, low) {
        let count = gc::entries_result(es, watermark);
        let visited = Sweep {
            remaining: s.remaining - 1,
            result: CowBeTreeGcResult {
                leaf_pages_visited: (s.result.leaf_pages_visited + 1) as usize,
                ..s.result
            },
            next: fence.upper,
            end,
        };
        if count.versions_pruned == 0 {
            Swept { out: course::one(t), sweep: visited, changed: false }
        } else {
            Swept {
                out: course::one(course::leaf(fence, gc::pruned_entries(es, watermark))),
                sweep: Sweep {
                    result: gc::sum_results(
                        visited.result,
                        CowBeTreeGcResult { leaf_pages_rewritten: 1, ..count },
                    ),
                    ..visited
                },
                changed: true,
            }
        }
    } else {
        Swept { out: course::one(t), sweep: Sweep { end, ..s }, changed: false }
    }
}

/// A pass from `low` on comes to a tree of height `h`. A node with messages in its
/// buffer is flushed instead.
pub open spec fn swept(
    config: CowBeTreeConfig,
    t: TreeView,
    h: nat,
    watermark: u64,
    low: Option<Seq<u8>>,
    s: Sweep,
) -> Result<Swept, CowBeTreeError>
    decreases h, 0nat, 0int,
{
    if s.remaining == 0 || s.end {
        Ok(Swept { out: course::one(t), sweep: s, changed: false })
    } else {
        match t {
            TreeView::Leaf { .. } => Ok(leaf_swept(t, watermark, low, s)),
            TreeView::Node { fence, separators, buffer, kids, .. } => if h == 0 {
                Err(CowBeTreeError::EmptyInternalPage)
            } else if buffer.len() > 0 {
                match course::flushed(config, fence, separators, buffer, kids, (h - 1) as nat) {
                    Err(e) => Err(e),
                    Ok(out) => Ok(Swept { out, sweep: s, changed: true }),
                }
            } else {
                let start = match low {
                    Some(l) => node::route(separators, l) as int,
                    None => 0,
                };
                let first = Swept { out: Out { separators, kids }, sweep: s, changed: false };
                match each_swept(config, first, start, low, (h - 1) as nat, watermark) {
                    Err(e) => Err(e),
                    Ok(p) => if p.changed {
                        match course::inner_rewritten(
                            config,
                            fence,
                            p.out.separators,
                            Seq::empty(),
                            p.out.kids,
                        ) {
                            Err(e) => Err(e),
                            Ok(out) => Ok(Swept { out, ..p }),
                        }
                    } else {
                        Ok(Swept { out: course::one(t), ..p })
                    },
                }
            },
        }
    }
}

/// A pass comes to the trees of a forest from `i` on; in the first of them it
/// begins at `low`.
pub open spec fn each_swept(
    config: CowBeTreeConfig,
    p: Swept,
    i: int,
    low: Option<Seq<u8>>,
    h: nat,
    watermark: u64,
) -> Result<Swept, CowBeTreeError>
    decreases h, 1nat, p.out.kids.len() - i,
{
    if !(0 <= i < p.out.kids.len()) || p.sweep.remaining == 0 || p.sweep.end {
        Ok(p)
    } else {
        match swept(config, p.out.kids[i], h, watermark, low, p.sweep) {
            Err(e) => Err(e),
            Ok(q) => each_swept(
                config,
                Swept {
                    out: course::spliced(p.out.separators, p.out.kids, i, q.out),
                    sweep: q.sweep,
                    changed: p.changed || q.changed,
                },
                i + q.out.kids.len(),
                None,
                h,
                watermark,
            ),
        }
    }
}

/// Where a pass stands with a forest.
pub open spec fn swept_so_far(
    separators: Seq<Seq<u8>>,
    kids: Seq<TreeView>,
    state: IncrementalGcState,
    changed: bool,
) -> Swept {
    Swept {
        out: Out { separators, kids: course::bare_all(kids) },
        sweep: sweep_of(state),
        changed,
    }
}

/// A pass came out as it should.
pub open spec fn pass_came_out(
    r: Result<(Rewrite, bool), CowBeTreeError>,
    state: IncrementalGcState,
    p: Result<Swept, CowBeTreeError>,
) -> bool {
    match r {
        Ok((rw, changed)) => p == Ok::<_, CowBeTreeError>(
            Swept { out: course::out_of(rw), sweep: sweep_of(state), changed },
        ),
        Err(e) => p == Err::<Swept, CowBeTreeError>(e),
    }
}

/// What a pass over at most `max_leaf_pages` leaves from `low` on makes of a whole
/// tree of height `h`: the tree, the counts, and where the next pass begins.
pub open spec fn passed_over(
    config: CowBeTreeConfig,
    t: TreeView,
    h: nat,
    watermark: u64,
    low: Option<Seq<u8>>,
    max_leaf_pages: usize,
) -> Result<(TreeView, CowBeTreeGcResult, Option<Seq<u8>>), CowBeTreeError> {
    let s = Sweep {
        remaining: max_leaf_pages as int,
        result: gc::no_result(),
        next: low,
        end: false,
    };
    match swept(config, t, h, watermark, low, s) {
        Err(e) => Err(e),
        Ok(p) => match course::rooted(Ok(p.out)) {
            Err(e) => Err(e),
            Ok(whole) => if p.sweep.end {
                Ok((whole, CowBeTreeGcResult { cursor_wrapped: true, ..p.sweep.result }, None))
            } else {
                let budget_exhausted = p.sweep.remaining == 0;
                Ok(
                    (whole, CowBeTreeGcResult { budget_exhausted, ..p.sweep.result }, p.sweep.next),
                )
            },
        },
    }
}

} // verus!
