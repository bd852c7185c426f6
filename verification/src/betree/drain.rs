//! The course of a flush of a whole tree, page ids aside.
use vstd::prelude::*;

use crate::betree::compact;
use crate::betree::config::CowBeTreeConfig;
use crate::betree::course;
use crate::betree::course::Out;
use crate::betree::node::CowBeTreeError;
use crate::betree::pool;
use crate::betree::pool::PoolView;
use crate::betree::root;
use crate::betree::shape;
use crate::betree::shape::TreeView;
use crate::betree::takes;

verus! {

/// The buffer of a node of height `h` is flushed until nothing is in it, or until
/// the node is split.
pub open spec fn drained(config: CowBeTreeConfig, t: TreeView, h: nat) -> Result<Out, CowBeTreeError>
    decreases t->buffer.len(),
{
    match course::flushed(
        config,
        shape::fence_of(t),
        t->separators,
        t->buffer,
        t->kids,
        (h - 1) as nat,
    ) {
        Err(e) => Err(e),
        Ok(o) => {
            let n = o.kids[0];
            if o.kids.len() == 1 && n is Node && 0 < n->buffer.len() < t->buffer.len() {
                drained(config, n, h)
            } else {
                Ok(o)
            }
        },
    }
}

/// A tree of height `h` is flushed from the root down: first the root, and, if
/// that is not split, the trees under it. Then the root is written again.
pub open spec fn all_flushed(config: CowBeTreeConfig, t: TreeView, h: nat) -> Result<Out, CowBeTreeError>
    decreases h, 0nat, 0int,
{
    if t is Leaf || h == 0 {
        Ok(course::one(t))
    } else {
        match drained(config, t, h) {
            Err(e) => Err(e),
            Ok(o) => if o.kids.len() != 1 {
                Ok(o)
            } else {
                match each_flushed(
                    config,
                    o.kids[0]->separators,
                    o.kids[0]->kids,
                    0,
                    (h - 1) as nat,
                ) {
                    Err(e) => Err(e),
                    Ok(f) => course::inner_rewritten(
                        config,
                        shape::fence_of(t),
                        f.separators,
                        Seq::empty(),
                        f.kids,
                    ),
                }
            },
        }
    }
}

/// The trees of a forest from `i` on are flushed.
pub open spec fn each_flushed(
    config: CowBeTreeConfig,
    separators: Seq<Seq<u8>>,
    kids: Seq<TreeView>,
    i: int,
    h: nat,
) -> Result<Out, CowBeTreeError>
    decreases h, 1nat, kids.len() - i,
{
    if !(0 <= i < kids.len()) {
        Ok(Out { separators, kids })
    } else {
        match all_flushed(config, kids[i], h) {
            Err(e) => Err(e),
            Ok(o) => {
                let f = course::spliced(separators, kids, i, o);
                each_flushed(config, f.separators, f.kids, i + o.kids.len(), h)
            },
        }
    }
}

/// A tree is flushed and has a root again; whether it was not split, so that the
/// flush is done.
pub open spec fn round(config: CowBeTreeConfig, t: TreeView, h: nat) -> Result<
    (TreeView, bool),
    CowBeTreeError,
> {
    match all_flushed(config, t, h) {
        Err(e) => Err(e),
        Ok(o) => match course::rooted(Ok(o)) {
            Err(e) => Err(e),
            Ok(whole) => Ok((whole, o.kids.len() == 1)),
        },
    }
}

/// The tree after `n` rounds in each of which the root was split.
pub open spec fn after_rounds(config: CowBeTreeConfig, t: TreeView, h: nat, n: nat) -> Option<
    TreeView,
>
    decreases n,
{
    if n == 0 {
        Some(t)
    } else {
        match after_rounds(config, t, h, (n - 1) as nat) {
            None => None,
            Some(u) => match round(config, u, (h + n - 1) as nat) {
                Ok((whole, false)) => Some(whole),
                _ => None,
            },
        }
    }
}

/// What the flush of a tree of height `h` ends with, if it ends in the round after
/// the first `n`: a tree, or why something has no place on its page.
pub open spec fn last_round(config: CowBeTreeConfig, t: TreeView, h: nat, n: nat) -> Option<
    Result<TreeView, CowBeTreeError>,
> {
    match after_rounds(config, t, h, n) {
        None => None,
        Some(u) => match round(config, u, h + n) {
            Err(e) => Some(Err(e)),
            Ok((whole, done)) => if done {
                Some(Ok(whole))
            } else {
                None
            },
        },
    }
}

pub open spec fn ends_after(
    config: CowBeTreeConfig,
    t: TreeView,
    h: nat,
    n: nat,
    end: Result<TreeView, CowBeTreeError>,
) -> bool {
    last_round(config, t, h, n) == Some(end)
}

/// The flush of a tree of height `h` ends with a tree, or where something has no
/// place on its page.
pub open spec fn ends(
    config: CowBeTreeConfig,
    t: TreeView,
    h: nat,
    end: Result<TreeView, CowBeTreeError>,
) -> bool {
    exists|n: nat| #[trigger] ends_after(config, t, h, n, end)
}

/// After the last round there is none.
pub proof fn no_round_after(
    config: CowBeTreeConfig,
    t: TreeView,
    h: nat,
    n: nat,
    end: Result<TreeView, CowBeTreeError>,
    m: nat,
)
    requires
        ends_after(config, t, h, n, end),
        m > n,
    ensures
        after_rounds(config, t, h, m) is None,
    decreases m,
{
    if m > n + 1 {
        no_round_after(config, t, h, n, end, (m - 1) as nat);
    }
}

/// The flush of a tree has one end.
pub proof fn flush_has_one_end(
    config: CowBeTreeConfig,
    t: TreeView,
    h: nat,
    a: Result<TreeView, CowBeTreeError>,
    b: Result<TreeView, CowBeTreeError>,
)
    requires
        ends(config, t, h, a),
        ends(config, t, h, b),
    ensures
        a == b,
{
    let n = choose|n: nat| #[trigger] ends_after(config, t, h, n, a);
    let m = choose|m: nat| #[trigger] ends_after(config, t, h, m, b);
    if m > n {
        no_round_after(config, t, h, n, a, m);
    }
    if n > m {
        no_round_after(config, t, h, m, b, n);
    }
}

// ---------------------------------------------------------------------------
// Compacting.

/// Small trees of a tree of height `h` are merged, from the leaves up; a node with
/// messages in its buffer is flushed instead.
pub open spec fn packed(config: CowBeTreeConfig, t: TreeView, h: nat) -> Result<Out, CowBeTreeError>
    decreases h, 0nat, 0int,
{
    if t is Leaf || h == 0 {
        Ok(course::one(t))
    } else if t->buffer.len() > 0 {
        course::flushed(
            config,
            shape::fence_of(t),
            t->separators,
            t->buffer,
            t->kids,
            (h - 1) as nat,
        )
    } else {
        match each_packed(config, t->separators, t->kids, 0, (h - 1) as nat) {
            Err(e) => Err(e),
            Ok(f) => {
                let m = compact::merges(config, f.kids, f.separators, 0);
                course::inner_rewritten(
                    config,
                    shape::fence_of(t),
                    m.1,
                    Seq::empty(),
                    course::bare_all(m.0),
                )
            },
        }
    }
}

/// Small trees are merged in the trees of a forest from `i` on.
pub open spec fn each_packed(
    config: CowBeTreeConfig,
    separators: Seq<Seq<u8>>,
    kids: Seq<TreeView>,
    i: int,
    h: nat,
) -> Result<Out, CowBeTreeError>
    decreases h, 1nat, kids.len() - i,
{
    if !(0 <= i < kids.len()) {
        Ok(Out { separators, kids })
    } else {
        match packed(config, kids[i], h) {
            Err(e) => Err(e),
            Ok(o) => {
                let f = course::spliced(separators, kids, i, o);
                each_packed(config, f.separators, f.kids, i + o.kids.len(), h)
            },
        }
    }
}

/// What merging makes of a whole tree: a root with one child gives way to it.
pub open spec fn shrunk(config: CowBeTreeConfig, t: TreeView, h: nat) -> Result<
    TreeView,
    CowBeTreeError,
> {
    match course::rooted(packed(config, t, h)) {
        Err(e) => Err(e),
        Ok(whole) => Ok(root::collapsed(whole)),
    }
}

pub open spec fn compact_ends_after(
    config: CowBeTreeConfig,
    t: TreeView,
    h: nat,
    n: nat,
    end: Result<TreeView, CowBeTreeError>,
) -> bool {
    match last_round(config, t, h, n) {
        None => false,
        Some(Err(e)) => end == Err::<TreeView, CowBeTreeError>(e),
        Some(Ok(u)) => end == shrunk(config, u, h + n),
    }
}

/// The tree of height `h`, flushed and then merged, ends with a tree, or where
/// something has no place on its page.
pub open spec fn compact_ends(
    config: CowBeTreeConfig,
    t: TreeView,
    h: nat,
    end: Result<TreeView, CowBeTreeError>,
) -> bool {
    exists|n: nat| #[trigger] compact_ends_after(config, t, h, n, end)
}

/// Compacting a tree has one end.
pub proof fn compaction_has_one_end(
    config: CowBeTreeConfig,
    t: TreeView,
    h: nat,
    a: Result<TreeView, CowBeTreeError>,
    b: Result<TreeView, CowBeTreeError>,
)
    requires
        compact_ends(config, t, h, a),
        compact_ends(config, t, h, b),
    ensures
        a == b,
{
    let n = choose|n: nat| #[trigger] compact_ends_after(config, t, h, n, a);
    let m = choose|m: nat| #[trigger] compact_ends_after(config, t, h, m, b);
    let x = last_round(config, t, h, n)->0;
    let y = last_round(config, t, h, m)->0;
    assert(ends_after(config, t, h, n, x));
    assert(ends_after(config, t, h, m, y));
    if m > n {
        no_round_after(config, t, h, n, x, m);
    }
    if n > m {
        no_round_after(config, t, h, m, y, n);
    }
}

// ---------------------------------------------------------------------------
// Page ids make no difference.

/// Trees that differ at most in their pages are the same without page ids.
pub proof fn alike_is_bare(a: TreeView, b: TreeView)
    requires
        shape::alike(a, b),
    ensures
        course::bare(a) == course::bare(b),
    decreases a,
{
    course::bare_node(a);
    course::bare_node(b);
    if a is Node {
        assert forall|i: int| 0 <= i < a->kids.len() implies course::bare(#[trigger] a->kids[i])
            == course::bare(b->kids[i]) by {
            alike_is_bare(a->kids[i], b->kids[i]);
        }
        assert(course::bare_all(a->kids) =~= course::bare_all(b->kids));
    }
}

/// A tree is like itself without page ids.
pub proof fn bare_is_alike(t: TreeView)
    ensures
        shape::alike(t, course::bare(t)),
    decreases t,
{
    course::bare_node(t);
    if t is Node {
        let k = course::bare_all(t->kids);
        assert forall|i: int|
            #![trigger t->kids[i]]
            #![trigger k[i]]
            0 <= i < t->kids.len() implies shape::alike(t->kids[i], k[i]) by {
            bare_is_alike(t->kids[i]);
        }
    }
}

/// Merging a forest is the same without page ids.
pub proof fn bare_merges(
    config: CowBeTreeConfig,
    kids: Seq<TreeView>,
    separators: Seq<Seq<u8>>,
    kids2: Seq<TreeView>,
)
    requires
        shape::all_alike(kids2, compact::merges(config, kids, separators, 0).0),
    ensures
        ({
            let m = compact::merges(config, course::bare_all(kids), separators, 0);
            &&& m.1 == compact::merges(config, kids, separators, 0).1
            &&& course::bare_all(m.0) == course::bare_all(kids2)
        }),
{
    let k = course::bare_all(kids);
    assert forall|i: int|
        #![trigger kids[i]]
        #![trigger k[i]]
        0 <= i < kids.len() implies shape::alike(kids[i], k[i]) by {
        bare_is_alike(kids[i]);
    }
    compact::alike_merges(config, kids, k, separators, 0);
    let m = compact::merges(config, kids, separators, 0).0;
    let n = compact::merges(config, k, separators, 0).0;
    assert forall|i: int| 0 <= i < n.len() implies course::bare(#[trigger] n[i]) == course::bare(
        kids2[i],
    ) by {
        assert(shape::alike(m[i], n[i]));
        assert(shape::alike(kids2[i], m[i]));
        alike_is_bare(m[i], n[i]);
        alike_is_bare(kids2[i], m[i]);
    }
    assert(course::bare_all(n) =~= course::bare_all(kids2));
}

/// A root gives way to its only child, page ids aside.
pub proof fn bare_collapsed(t: TreeView)
    ensures
        course::bare(root::collapsed(t)) == root::collapsed(course::bare(t)),
{
    course::bare_node(t);
    if t is Node && t->kids.len() == 1 && t->buffer.len() == 0 {
        let c = t->kids[0];
        course::bare_with_pid(c, shape::pid_of(t));
        course::bare_node(c);
        assert(course::bare_all(t->kids)[0] == course::bare(c));
    }
}

/// The format holds the messages in a buffer on a page.
pub proof fn buffer_is_sized(s: PoolView, t: TreeView)
    requires
        pool::pool_ok(s),
        shape::rep(s.pages, t),
        t is Node,
    ensures
        course::all_sized(t->buffer),
{
    assert forall|i: int| 0 <= i < t->buffer.len() implies takes::is_sized(
        #[trigger] t->buffer[i],
    ) by {
        takes::records_are_short(s, t, t->buffer[i]);
    }
}

} // verus!
