//! What a tree carries on when messages are put into it: a record is lost only to
//! another of the same key and timestamp that waits in a buffer.
use vstd::prelude::*;

use crate::betree::batch;
use crate::betree::config::CowBeTreeConfig;
use crate::betree::course;
use crate::betree::course::Out;
use crate::betree::leaf_append;
use crate::betree::leaf_append::LeafLayoutView;
use crate::betree::local;
use crate::betree::local::LocalWrite;
use crate::betree::lookup;
use crate::betree::message;
use crate::betree::message::{MessageView, VersionView};
use crate::betree::node;
use crate::betree::node::{CowBeTreeError, EntryView, FenceView};
use crate::betree::read;
use crate::betree::shape;
use crate::betree::shape::TreeView;
use crate::bytes;

verus! {

/// The message waits in a buffer of the tree.
pub open spec fn waits(t: TreeView, x: MessageView) -> bool
    decreases t,
{
    match t {
        TreeView::Leaf { .. } => false,
        TreeView::Node { buffer, kids, .. } => buffer.contains(x) || exists|i: int|
            0 <= i < kids.len() && waits(#[trigger] kids[i], x),
    }
}

/// Two messages give a key a version with the same timestamp.
pub open spec fn same_slot(a: MessageView, b: MessageView) -> bool {
    a.key == b.key && a.version.commit_ts == b.version.commit_ts
}

/// Of the messages none but `x` itself gives its key a version with its timestamp.
pub open spec fn unrivalled(w: Set<MessageView>, x: MessageView) -> bool {
    forall|y: MessageView| #[trigger] w.contains(y) && same_slot(y, x) ==> y == x
}

pub open spec fn all_in(w: Set<MessageView>, ms: Seq<MessageView>) -> bool {
    forall|i: int| 0 <= i < ms.len() ==> w.contains(#[trigger] ms[i])
}

/// What waits in the buffers of a tree is among the messages, and its nodes have one
/// separator less than children.
spec fn fine(w: Set<MessageView>, t: TreeView) -> bool
    decreases t,
{
    match t {
        TreeView::Leaf { .. } => true,
        TreeView::Node { separators, buffer, kids, .. } => {
            &&& kids.len() == separators.len() + 1
            &&& all_in(w, buffer)
            &&& forall|i: int| 0 <= i < kids.len() ==> fine(w, #[trigger] kids[i])
        },
    }
}

spec fn all_fine(w: Set<MessageView>, o: Out) -> bool {
    &&& o.kids.len() == o.separators.len() + 1
    &&& forall|i: int| 0 <= i < o.kids.len() ==> fine(w, #[trigger] o.kids[i])
}

// ---------------------------------------------------------------------------
// Leaves.

pub(crate) proof fn applied_keeps(es: Seq<EntryView>, m: MessageView, x: MessageView)
    requires
        same_slot(m, x) ==> m == x,
    ensures
        node::entries_have(es, x.key, x.version) || m == x ==> node::entries_have(
            node::apply_message(es, m),
            x.key,
            x.version,
        ),
{
    let p = node::lower_bound(es, m.key) as int;
    let r = node::apply_message(es, m);
    node::lower_bound_splits(es, m.key);
    let hit = p < es.len() && es[p].key == m.key;
    if hit {
        node::with_version_contains(es[p].versions, m.version);
    }
    if m == x {
        assert(r[p].key == m.key);
        if !hit {
            assert(seq![m.version][0] == m.version);
        }
        assert(r[p].versions.contains(m.version));
    } else if node::entries_have(es, x.key, x.version) {
        let j = choose|j: int|
            #![trigger es[j]]
            0 <= j < es.len() && es[j].key == x.key && es[j].versions.contains(x.version);
        if hit {
            assert(r[j].key == x.key && r[j].versions.contains(x.version));
        } else if j < p {
            assert(r[j] == es[j]);
        } else {
            assert(r[j + 1] == es[j]);
        }
    }
}

pub(crate) proof fn all_applied_keep(es: Seq<EntryView>, ms: Seq<MessageView>, w: Set<MessageView>, x: MessageView)
    requires
        all_in(w, ms),
        unrivalled(w, x),
        node::entries_have(es, x.key, x.version) || ms.contains(x),
    ensures
        node::entries_have(node::apply_messages(es, ms), x.key, x.version),
    decreases ms.len(),
{
    if ms.len() > 0 {
        let front = ms.drop_last();
        assert(w.contains(ms[ms.len() - 1]));
        assert forall|i: int| 0 <= i < front.len() implies w.contains(#[trigger] front[i]) by {
            assert(front[i] == ms[i]);
        }
        if ms.last() != x {
            if ms.contains(x) {
                let i = choose|i: int| 0 <= i < ms.len() && ms[i] == x;
                assert(front[i] == x);
            }
            all_applied_keep(es, front, w, x);
        }
        applied_keeps(node::apply_messages(es, front), ms.last(), x);
    }
}

proof fn leaf_written_keeps(
    config: CowBeTreeConfig,
    fence: FenceView,
    es: Seq<EntryView>,
    w: Set<MessageView>,
    x: MessageView,
)
    requires
        course::leaf_written(config, fence, es) is Ok,
    ensures
        ({
            let o = course::leaf_written(config, fence, es)->Ok_0;
            &&& all_fine(w, o)
            &&& node::entries_have(es, x.key, x.version) ==> shape::some_has_rec(o.kids, x)
        }),
{
    let o = course::leaf_written(config, fence, es)->Ok_0;
    if node::entries_have(es, x.key, x.version) {
        let j = choose|j: int|
            #![trigger es[j]]
            0 <= j < es.len() && es[j].key == x.key && es[j].versions.contains(x.version);
        if o.kids.len() == 1 {
            assert(shape::has_rec(o.kids[0], x));
        } else {
            let mid = es.len() as int / 2;
            if j < mid {
                assert(es.take(mid)[j] == es[j]);
                assert(shape::has_rec(o.kids[0], x));
            } else {
                assert(es.skip(mid)[j - mid] == es[j]);
                assert(shape::has_rec(o.kids[1], x));
            }
        }
    }
}

// ---------------------------------------------------------------------------
// Nodes.

pub(crate) proof fn filtered<A>(s: Seq<A>, p: spec_fn(A) -> bool)
    ensures
        forall|x: A| #[trigger] s.filter(p).contains(x) <==> s.contains(x) && p(x),
    decreases s.len(),
{
    reveal(Seq::filter);
    let r = s.filter(p);
    if s.len() > 0 {
        let front = s.drop_last();
        filtered(front, p);
        let rf = front.filter(p);
        assert(r == if p(s.last()) { rf.push(s.last()) } else { rf });
        assert forall|x: A| #[trigger] r.contains(x) <==> s.contains(x) && p(x) by {
            if r.contains(x) {
                let k = choose|k: int| 0 <= k < r.len() && r[k] == x;
                if k < rf.len() {
                    assert(rf[k] == x && rf.contains(x));
                    let q = choose|q: int| 0 <= q < front.len() && front[q] == x;
                    assert(s[q] == x);
                } else {
                    assert(s[s.len() - 1] == x);
                }
            }
            if s.contains(x) && p(x) {
                let q = choose|q: int| 0 <= q < s.len() && s[q] == x;
                if q < front.len() {
                    assert(front[q] == x);
                    assert(front.contains(x));
                    assert(front.filter(p).contains(x));
                    let k = choose|k: int| 0 <= k < rf.len() && rf[k] == x;
                    assert(r[k] == x);
                } else {
                    assert(r[rf.len() as int] == x);
                }
            }
        }
    } else {
        assert(r =~= Seq::<A>::empty());
    }
}

proof fn part_in(w: Set<MessageView>, ms: Seq<MessageView>, part: Seq<MessageView>)
    requires
        all_in(w, ms),
        forall|x: MessageView| #[trigger] part.contains(x) ==> ms.contains(x),
    ensures
        all_in(w, part),
{
    assert forall|i: int| 0 <= i < part.len() implies w.contains(#[trigger] part[i]) by {
        assert(part.contains(part[i]));
        let j = choose|j: int| 0 <= j < ms.len() && ms[j] == part[i];
        assert(w.contains(ms[j]));
    }
}

/// A node that is written, or split, holds what it held.
#[verifier::rlimit(40)]
#[verifier::spinoff_prover]
proof fn inner_keeps(
    config: CowBeTreeConfig,
    fence: FenceView,
    separators: Seq<Seq<u8>>,
    buffer: Seq<MessageView>,
    kids: Seq<TreeView>,
    w: Set<MessageView>,
    x: MessageView,
    r: Result<Out, CowBeTreeError>,
)
    requires
        all_fine(w, Out { separators, kids }),
        all_in(w, buffer),
        r == course::inner_written(fence, separators, buffer, kids) || r == course::inner_split(
            fence,
            separators,
            buffer,
            kids,
        ),
        r is Ok,
    ensures
        all_fine(w, r->Ok_0),
        buffer.contains(x) || shape::some_has_rec(kids, x) ==> shape::some_has_rec(
            r->Ok_0.kids,
            x,
        ),
{
    let o = r->Ok_0;
    let all = Out { separators, kids };
    assert forall|i: int| 0 <= i < kids.len() implies fine(w, #[trigger] kids[i]) by {
        assert(fine(w, all.kids[i]));
    }
    if r == course::inner_written(fence, separators, buffer, kids) {
        let n = course::inner(fence, separators, buffer, kids);
        assert(o.kids[0] == n);
        assert(fine(w, n));
        if buffer.contains(x) || shape::some_has_rec(kids, x) {
            assert(shape::has_rec(o.kids[0], x));
        }
    } else {
        let n = kids.len() as int;
        let mid = n / 2;
        let sep = separators[mid - 1];
        let below = |m: MessageView| bytes::lex_lt(m.key, sep);
        let above = |m: MessageView| !bytes::lex_lt(m.key, sep);
        let lk = kids.subrange(0, mid);
        let rk = kids.subrange(mid, n);
        filtered(buffer, below);
        filtered(buffer, above);
        part_in(w, buffer, buffer.filter(below));
        part_in(w, buffer, buffer.filter(above));
        let (l, r2) = (o.kids[0], o.kids[1]);
        assert(l->kids == lk && r2->kids == rk);
        assert(l->buffer == buffer.filter(below) && r2->buffer == buffer.filter(above));
        assert forall|i: int| 0 <= i < lk.len() implies fine(w, #[trigger] lk[i]) by {
            assert(lk[i] == kids[i]);
        }
        assert forall|i: int| 0 <= i < rk.len() implies fine(w, #[trigger] rk[i]) by {
            assert(rk[i] == kids[mid + i]);
        }
        assert(fine(w, l) && fine(w, r2));
        if buffer.contains(x) {
            if below(x) {
                assert(buffer.filter(below).contains(x));
                assert(shape::has_rec(o.kids[0], x));
            } else {
                assert(above(x));
                assert(buffer.filter(above).contains(x));
                assert(shape::has_rec(o.kids[1], x));
            }
        } else if shape::some_has_rec(kids, x) {
            let j = choose|j: int| 0 <= j < kids.len() && shape::has_rec(#[trigger] kids[j], x);
            if j < mid {
                assert(shape::has_rec(lk[j], x));
                assert(shape::has_rec(o.kids[0], x));
            } else {
                assert(shape::has_rec(rk[j - mid], x));
                assert(shape::has_rec(o.kids[1], x));
            }
        }
    }
}

/// A forest in which a tree became others holds what it held, if they hold what the
/// tree did.
proof fn spliced_keeps(
    separators: Seq<Seq<u8>>,
    kids: Seq<TreeView>,
    i: int,
    o: Out,
    w: Set<MessageView>,
    x: MessageView,
)
    requires
        all_fine(w, Out { separators, kids }),
        all_fine(w, o),
        0 <= i < kids.len(),
        shape::has_rec(kids[i], x) ==> shape::some_has_rec(o.kids, x),
    ensures
        all_fine(w, course::spliced(separators, kids, i, o)),
        shape::some_has_rec(kids, x) || shape::some_has_rec(o.kids, x) ==> shape::some_has_rec(
            course::spliced(separators, kids, i, o).kids,
            x,
        ),
{
    let all = Out { separators, kids };
    let f = course::spliced(separators, kids, i, o);
    let n = o.kids.len();
    assert(f.kids.len() == kids.len() - 1 + n);
    assert(f.separators.len() == separators.len() + o.separators.len());
    assert forall|j: int| 0 <= j < f.kids.len() implies fine(w, #[trigger] f.kids[j]) by {
        if j < i {
            assert(fine(w, all.kids[j]));
        } else if j < i + n {
            assert(fine(w, o.kids[j - i]));
        } else {
            assert(fine(w, all.kids[j - n + 1]));
            assert(f.kids[j] == kids[j - n + 1]);
        }
    }
    if shape::some_has_rec(o.kids, x) {
        let j = choose|j: int| 0 <= j < o.kids.len() && shape::has_rec(#[trigger] o.kids[j], x);
        assert(f.kids[i + j] == o.kids[j]);
    } else if shape::some_has_rec(kids, x) {
        let j = choose|j: int| 0 <= j < kids.len() && shape::has_rec(#[trigger] kids[j], x);
        if j < i {
            assert(f.kids[j] == kids[j]);
        } else {
            assert(f.kids[j - 1 + n] == kids[j]);
        }
    }
}

// ---------------------------------------------------------------------------
// The child that a flush goes to.

proof fn some_comes_first(separators: Seq<Seq<u8>>, ms: Seq<MessageView>, n: int) -> (b: int)
    requires
        n > 0,
    ensures
        0 <= b < n,
        forall|j: int|
            0 <= j < n && j != b ==> #[trigger] batch::flushed_before(separators, ms, b, j),
    decreases n,
{
    if n == 1 {
        0
    } else {
        let a = some_comes_first(separators, ms, n - 1);
        if batch::flushed_before(separators, ms, a, n - 1) {
            a
        } else {
            assert forall|j: int|
                0 <= j < n && j != n - 1 implies #[trigger] batch::flushed_before(
                separators,
                ms,
                n - 1,
                j,
            ) by {
                if j != a {
                    assert(batch::flushed_before(separators, ms, a, j));
                }
            }
            n - 1
        }
    }
}

pub(crate) proof fn flush_child_stands(separators: Seq<Seq<u8>>, ms: Seq<MessageView>, n: int)
    requires
        ms.len() > 0,
        n == separators.len() + 1,
    ensures
        0 <= course::flush_child(separators, ms, n) < n,
        batch::is_flush_child(separators, ms, n, course::flush_child(separators, ms, n)),
{
    let b = some_comes_first(separators, ms, n);
    let r = node::route(separators, ms[0].key) as int;
    node::route_splits(separators, ms[0].key);
    let p = |m: MessageView| node::route(separators, m.key) == r;
    filtered(ms, p);
    assert(batch::routed_to(separators, ms, r) == ms.filter(p));
    assert(ms.contains(ms[0]));
    assert(ms.filter(p).contains(ms[0]));
    if b != r {
        assert(batch::flushed_before(separators, ms, b, r));
    }
    assert(batch::is_flush_child(separators, ms, n, b));
}

// ---------------------------------------------------------------------------
// Putting messages into a tree.

pub(crate) proof fn front_is_part(
    page_len: int,
    l: LeafLayoutView,
    upper: Option<Seq<u8>>,
    ms: Seq<MessageView>,
    i: int,
    acc: int,
    max: int,
)
    requires
        0 <= i <= ms.len(),
    ensures
        leaf_append::prefix_count(page_len, l, upper, ms, i, acc, max) matches Ok(k) ==> i <= k
            <= ms.len(),
    decreases ms.len() - i,
{
    if i < ms.len() {
        front_is_part(
            page_len,
            l,
            upper,
            ms,
            i + 1,
            acc + message::clamp_usize(leaf_append::single_len(ms[i])),
            max,
        );
    }
}

#[verifier::rlimit(40)]
#[verifier::spinoff_prover]
proof fn direct_keeps(
    config: CowBeTreeConfig,
    t: TreeView,
    ms: Seq<MessageView>,
    w: Set<MessageView>,
    x: MessageView,
)
    requires
        fine(w, t),
        all_in(w, ms),
        unrivalled(w, x),
        course::direct(config, t, ms) matches Ok(Some(_)),
    ensures
        ({
            let o = course::direct(config, t, ms)->Ok_0->0;
            &&& all_fine(w, o)
            &&& shape::has_rec(t, x) || ms.contains(x) ==> shape::some_has_rec(o.kids, x)
        }),
    decreases t,
{
    let o = course::direct(config, t, ms)->Ok_0->0;
    if ms.len() == 0 {
        assert(o.kids[0] == t);
    } else {
        match t {
            TreeView::Leaf { fence, entries, .. } => {
                let es = node::apply_messages(entries, ms);
                leaf_written_keeps(config, fence, es, w, x);
                if shape::has_rec(t, x) || ms.contains(x) {
                    all_applied_keep(entries, ms, w, x);
                }
            },
            TreeView::Node { fence, separators, buffer, kids, .. } => {
                let i = node::route(separators, ms[0].key) as int;
                direct_keeps(config, kids[i], ms, w, x);
                let c = course::direct(config, kids[i], ms)->Ok_0->0;
                let all = Out { separators, kids };
                assert forall|j: int| 0 <= j < all.kids.len() implies fine(
                    w,
                    #[trigger] all.kids[j],
                ) by {
                    assert(fine(w, kids[j]));
                }
                spliced_keeps(separators, kids, i, c, w, x);
                let f = course::spliced(separators, kids, i, c);
                assert(f == (Out { separators: f.separators, kids: f.kids }));
                let r = course::inner_rewritten(config, fence, f.separators, buffer, f.kids);
                inner_keeps(config, fence, f.separators, buffer, f.kids, w, x, r);
                if shape::has_rec(t, x) && !buffer.contains(x) {
                    assert(shape::some_has_rec(kids, x));
                }
            },
        }
    }
}

#[verifier::rlimit(60)]
#[verifier::spinoff_prover]
proof fn put_keeps(
    config: CowBeTreeConfig,
    t: TreeView,
    ms: Seq<MessageView>,
    h: nat,
    w: Set<MessageView>,
    x: MessageView,
)
    requires
        fine(w, t),
        all_in(w, ms),
        unrivalled(w, x),
        course::put(config, t, ms, h) is Ok,
    ensures
        ({
            let o = course::put(config, t, ms, h)->Ok_0;
            &&& all_fine(w, o)
            &&& shape::has_rec(t, x) || ms.contains(x) ==> shape::some_has_rec(o.kids, x)
        }),
    decreases h, 2nat, 0nat,
{
    match t {
        TreeView::Leaf { fence, entries, .. } => {
            leaf_written_keeps(config, fence, node::apply_messages(entries, ms), w, x);
            if shape::has_rec(t, x) || ms.contains(x) {
                all_applied_keep(entries, ms, w, x);
            }
        },
        TreeView::Node { fence, separators, buffer, kids, .. } => {
            let all = buffer + ms;
            let forest = Out { separators, kids };
            assert forall|i: int| 0 <= i < all.len() implies w.contains(#[trigger] all[i]) by {
                if i < buffer.len() {
                    assert(w.contains(buffer[i]));
                } else {
                    assert(w.contains(ms[i - buffer.len()]));
                }
            }
            assert forall|j: int| 0 <= j < forest.kids.len() implies fine(
                w,
                #[trigger] forest.kids[j],
            ) by {
                assert(fine(w, kids[j]));
            }
            if buffer.contains(x) {
                let j = choose|j: int| 0 <= j < buffer.len() && buffer[j] == x;
                assert(all[j] == x);
            }
            if ms.contains(x) {
                let j = choose|j: int| 0 <= j < ms.len() && ms[j] == x;
                assert(all[buffer.len() + j] == x);
            }
            if shape::has_rec(t, x) && !buffer.contains(x) {
                assert(shape::some_has_rec(kids, x));
            }
            let flushes = crate::betree::rewrite::buffer_flushes(config, all)
                || course::inner_splits(config, fence, separators, all, kids);
            if h > 0 && flushes {
                flushed_keeps(config, fence, separators, all, kids, (h - 1) as nat, w, x);
            } else if h > 0 {
                inner_keeps(
                    config,
                    fence,
                    separators,
                    all,
                    kids,
                    w,
                    x,
                    course::inner_written(fence, separators, all, kids),
                );
            }
        },
    }
}

#[verifier::rlimit(60)]
#[verifier::spinoff_prover]
proof fn each_put_keeps(
    config: CowBeTreeConfig,
    separators: Seq<Seq<u8>>,
    kids: Seq<TreeView>,
    ms: Seq<MessageView>,
    next: int,
    asked: bool,
    h: nat,
    w: Set<MessageView>,
    x: MessageView,
)
    requires
        all_fine(w, Out { separators, kids }),
        all_in(w, ms),
        unrivalled(w, x),
        0 <= next <= ms.len(),
        course::each_put(config, separators, kids, ms, next, asked, h) is Ok,
    ensures
        ({
            let o = course::each_put(config, separators, kids, ms, next, asked, h)->Ok_0;
            &&& all_fine(w, o)
            &&& shape::some_has_rec(kids, x) || ms.skip(next).contains(x)
                ==> shape::some_has_rec(o.kids, x)
        }),
    decreases h, 3nat, ms.len() - next,
{
    if next < ms.len() {
        let m = ms[next];
        let i = node::route(separators, m.key) as int;
        node::route_splits(separators, m.key);
        let all = Out { separators, kids };
        assert(fine(w, all.kids[i]));
        assert(w.contains(ms[next]));
        let batch1 = seq![m];
        assert forall|j: int| 0 <= j < batch1.len() implies w.contains(#[trigger] batch1[j]) by {
            assert(batch1[j] == m);
        }
        let first = course::put_or_refused(config, kids[i], batch1, asked, h);
        assert(batch1 =~= seq![ms[next]]);
        assert(first is Ok);
        assert(first == course::put(config, kids[i], batch1, h));
        put_keeps(config, kids[i], batch1, h, w, x);
        let c = course::put(config, kids[i], batch1, h)->Ok_0;
        spliced_keeps(separators, kids, i, c, w, x);
        let f = course::spliced(separators, kids, i, c);
        assert(f == (Out { separators: f.separators, kids: f.kids }));
        each_put_keeps(config, f.separators, f.kids, ms, next + 1, true, h, w, x);
        if ms.skip(next).contains(x) {
            if m == x {
                assert(batch1[0] == x);
                assert(batch1.contains(x));
            } else {
                let j = choose|j: int| 0 <= j < ms.skip(next).len() && ms.skip(next)[j] == x;
                assert(ms.skip(next + 1)[j - 1] == x);
            }
        }
    } else {
        assert(ms.skip(next) =~= Seq::<MessageView>::empty());
    }
}

#[verifier::rlimit(60)]
#[verifier::spinoff_prover]
proof fn child_put_keeps(
    config: CowBeTreeConfig,
    separators: Seq<Seq<u8>>,
    kids: Seq<TreeView>,
    i: int,
    ms: Seq<MessageView>,
    h: nat,
    w: Set<MessageView>,
    x: MessageView,
)
    requires
        all_fine(w, Out { separators, kids }),
        all_in(w, ms),
        unrivalled(w, x),
        0 <= i < kids.len(),
        course::child_put(config, separators, kids, i, ms, h) is Ok,
    ensures
        ({
            let o = course::child_put(config, separators, kids, i, ms, h)->Ok_0;
            &&& all_fine(w, o)
            &&& shape::some_has_rec(kids, x) || ms.contains(x) ==> shape::some_has_rec(o.kids, x)
        }),
    decreases h, 4nat, 0nat,
{
    let all = Out { separators, kids };
    let max = config.max_leaf_entries as int;
    let k = course::front_len(kids[i], ms, max)->Ok_0;
    assert(0 <= k <= ms.len()) by {
        if kids[i] is Leaf {
            front_is_part(
                crate::page_id::PAGE_SIZE as int,
                leaf_append::node_layout(kids[i]->Leaf_fence, kids[i]->entries),
                kids[i]->Leaf_fence.upper,
                ms,
                0,
                0,
                max,
            );
        }
    }
    let front = ms.take(k);
    let t = if k > 0 {
        course::with_front(kids[i], front)
    } else {
        kids[i]
    };
    let kids2 = kids.update(i, t);
    let all2 = Out { separators, kids: kids2 };
    let rest = ms.skip(k);
    assert(fine(w, all.kids[i]));
    assert(fine(w, t));
    assert forall|j: int| 0 <= j < all2.kids.len() implies fine(w, #[trigger] all2.kids[j]) by {
        if j != i {
            assert(fine(w, all.kids[j]));
        }
    }
    assert forall|j: int| 0 <= j < rest.len() implies w.contains(#[trigger] rest[j]) by {
        assert(w.contains(ms[k + j]));
    }
    if k > 0 {
        let es = kids[i]->entries;
        let es2 = es + leaf_append::single_entries(front);
        if shape::has_rec(kids[i], x) {
            let j = choose|j: int|
                #![trigger es[j]]
                0 <= j < es.len() && es[j].key == x.key && es[j].versions.contains(x.version);
            assert(es2[j] == es[j]);
            assert(shape::has_rec(t, x));
        }
        if front.contains(x) {
            let j = choose|j: int| 0 <= j < front.len() && front[j] == x;
            assert(es2[es.len() + j] == leaf_append::single_entry(x));
            assert(seq![x.version][0] == x.version);
            assert(es2[es.len() + j].versions.contains(x.version));
            assert(shape::has_rec(t, x));
        }
    }
    assert(shape::some_has_rec(kids, x) || front.contains(x) ==> shape::some_has_rec(kids2, x)) by {
        if front.contains(x) {
            assert(shape::has_rec(kids2[i], x));
        } else if shape::some_has_rec(kids, x) {
            let j = choose|j: int| 0 <= j < kids.len() && shape::has_rec(#[trigger] kids[j], x);
            assert(shape::has_rec(kids2[j], x));
        }
    }
    if ms.contains(x) {
        let j = choose|j: int| 0 <= j < ms.len() && ms[j] == x;
        if j < k {
            assert(front[j] == x);
        } else {
            assert(rest[j - k] == x);
        }
    }
    if k == ms.len() {
        assert(rest =~= Seq::<MessageView>::empty());
    } else {
        let d = course::direct(config, t, rest);
        if rest.len() > 1 && d matches Ok(Some(_)) {
            direct_keeps(config, t, rest, w, x);
            assert(kids2[i] == t);
            spliced_keeps(separators, kids2, i, d->Ok_0->0, w, x);
        } else {
            each_put_keeps(config, separators, kids2, ms, k, false, h, w, x);
        }
    }
}

#[verifier::rlimit(60)]
#[verifier::spinoff_prover]
proof fn flushed_keeps(
    config: CowBeTreeConfig,
    fence: FenceView,
    separators: Seq<Seq<u8>>,
    buffer: Seq<MessageView>,
    kids: Seq<TreeView>,
    h: nat,
    w: Set<MessageView>,
    x: MessageView,
)
    requires
        all_fine(w, Out { separators, kids }),
        all_in(w, buffer),
        unrivalled(w, x),
        course::flushed(config, fence, separators, buffer, kids, h) is Ok,
    ensures
        ({
            let o = course::flushed(config, fence, separators, buffer, kids, h)->Ok_0;
            &&& all_fine(w, o)
            &&& shape::some_has_rec(kids, x) || buffer.contains(x) ==> shape::some_has_rec(
                o.kids,
                x,
            )
        }),
    decreases h, 5nat, buffer.len(),
{
    if buffer.len() == 0 {
        let r = course::inner_rewritten(config, fence, separators, buffer, kids);
        inner_keeps(config, fence, separators, buffer, kids, w, x, r);
    } else {
        let n = kids.len() as int;
        let i = course::flush_child(separators, buffer, n);
        flush_child_stands(separators, buffer, n);
        let here = |m: MessageView| node::route(separators, m.key) == i;
        let elsewhere = |m: MessageView| node::route(separators, m.key) != i;
        let picked = batch::routed_to(separators, buffer, i);
        let ms = message::in_buffer_order(picked);
        let rest = batch::routed_elsewhere(separators, buffer, i);
        filtered(buffer, here);
        filtered(buffer, elsewhere);
        assert(picked == buffer.filter(here));
        assert(rest == buffer.filter(elsewhere));
        message::in_buffer_order_sorts(picked);
        assert forall|y: MessageView| #[trigger] ms.contains(y) implies buffer.contains(y) by {
            assert(picked.contains(y));
        }
        part_in(w, buffer, ms);
        part_in(w, buffer, rest);
        child_put_keeps(config, separators, kids, i, ms, h, w, x);
        let f = course::child_put(config, separators, kids, i, ms, h)->Ok_0;
        assert(f == (Out { separators: f.separators, kids: f.kids }));
        if buffer.contains(x) {
            if here(x) {
                assert(picked.contains(x));
                assert(ms.contains(x));
            } else {
                assert(elsewhere(x));
                assert(rest.contains(x));
            }
        }
        let split = course::inner_split(fence, f.separators, rest, f.kids);
        let plain = course::inner_written(fence, f.separators, rest, f.kids);
        if f.kids.len() > config.max_internal_children {
            inner_keeps(config, fence, f.separators, rest, f.kids, w, x, split);
        } else if course::inner_fits(fence, f.separators, rest, f.kids) || rest.len()
            >= buffer.len() {
            inner_keeps(config, fence, f.separators, rest, f.kids, w, x, plain);
        } else {
            flushed_keeps(config, fence, f.separators, rest, f.kids, h, w, x);
        }
    }
}

// ---------------------------------------------------------------------------
// Whole trees.

pub proof fn bare_carries(t: TreeView, x: MessageView)
    ensures
        shape::has_rec(course::bare(t), x) == shape::has_rec(t, x),
        waits(course::bare(t), x) == waits(t, x),
    decreases t,
{
    course::bare_node(t);
    if t is Node {
        let kids = t->kids;
        let b = course::bare(t);
        let k2 = course::bare_all(kids);
        assert(b->kids == k2);
        assert forall|i: int| 0 <= i < kids.len() implies shape::has_rec(#[trigger] k2[i], x)
            == shape::has_rec(kids[i], x) && waits(k2[i], x) == waits(kids[i], x) by {
            bare_carries(kids[i], x);
        }
        assert(shape::some_has_rec(k2, x) == shape::some_has_rec(kids, x)) by {
            if shape::some_has_rec(kids, x) {
                let i = choose|i: int| 0 <= i < kids.len() && shape::has_rec(#[trigger] kids[i], x);
                assert(shape::has_rec(k2[i], x));
            }
            if shape::some_has_rec(k2, x) {
                let i = choose|i: int| 0 <= i < k2.len() && shape::has_rec(#[trigger] k2[i], x);
                assert(shape::has_rec(kids[i], x));
            }
        }
        if waits(t, x) && !t->buffer.contains(x) {
            let i = choose|i: int| 0 <= i < kids.len() && waits(#[trigger] kids[i], x);
            assert(waits(k2[i], x));
        }
        if waits(b, x) && !t->buffer.contains(x) {
            let i = choose|i: int| 0 <= i < k2.len() && waits(#[trigger] k2[i], x);
            assert(waits(kids[i], x));
        }
    }
}

proof fn tree_is_fine(w: Set<MessageView>, t: TreeView, h: nat)
    requires
        shape::wf(t, h),
        forall|y: MessageView| #[trigger] waits(t, y) ==> w.contains(y),
    ensures
        fine(w, course::bare(t)),
    decreases t,
{
    course::bare_node(t);
    if t is Node {
        let kids = t->kids;
        let k2 = course::bare_all(kids);
        assert forall|i: int| 0 <= i < t->buffer.len() implies w.contains(
            #[trigger] t->buffer[i],
        ) by {
            assert(t->buffer.contains(t->buffer[i]));
            assert(waits(t, t->buffer[i]));
        }
        assert forall|i: int| 0 <= i < k2.len() implies fine(w, #[trigger] k2[i]) by {
            assert(shape::wf(kids[i], (h - 1) as nat));
            assert forall|y: MessageView| #[trigger] waits(kids[i], y) implies w.contains(y) by {
                assert(waits(t, y));
            }
            tree_is_fine(w, kids[i], (h - 1) as nat);
        }
    }
}

proof fn fine_waits(w: Set<MessageView>, t: TreeView, y: MessageView)
    requires
        fine(w, t),
        waits(t, y),
    ensures
        w.contains(y),
    decreases t,
{
    let kids = t->kids;
    if t->buffer.contains(y) {
        let i = choose|i: int| 0 <= i < t->buffer.len() && t->buffer[i] == y;
        assert(w.contains(t->buffer[i]));
    } else {
        let i = choose|i: int| 0 <= i < kids.len() && waits(#[trigger] kids[i], y);
        fine_waits(w, kids[i], y);
    }
}

/// What waits in a tree, and a message.
pub open spec fn waiting_with(t: TreeView, m: MessageView) -> Set<MessageView> {
    Set::new(|y: MessageView| waits(t, y) || y == m)
}

/// A message that is put into the root of a tree is in the tree, if no other waits
/// that gives its key a version with its timestamp; and nothing waits that did not.
#[verifier::rlimit(60)]
#[verifier::spinoff_prover]
pub proof fn root_put_carries(
    config: CowBeTreeConfig,
    t: TreeView,
    h: nat,
    m: MessageView,
    whole: TreeView,
)
    requires
        shape::wf(t, h),
        unrivalled(waiting_with(t, m), m),
        course::rooted(course::root_put(config, course::bare(t), m, h)) == Ok::<
            _,
            CowBeTreeError,
        >(whole),
    ensures
        shape::has_rec(whole, m),
        forall|y: MessageView| #[trigger] waits(whole, y) ==> waits(t, y) || y == m,
{
    let w = waiting_with(t, m);
    let b = course::bare(t);
    tree_is_fine(w, t, h);
    let ms = seq![m];
    assert(ms[0] == m && ms.contains(m));
    assert(all_in(w, ms));
    put_keeps(config, b, ms, h, w, m);
    let o = course::put(config, b, ms, h)->Ok_0;
    assert(fine(w, o.kids[0]));
    let j = choose|j: int| 0 <= j < o.kids.len() && shape::has_rec(#[trigger] o.kids[j], m);
    if o.kids.len() == 1 {
        assert(whole == o.kids[0]);
    } else {
        assert(whole->kids == o.kids);
        assert(shape::has_rec(whole->kids[j], m));
        assert(fine(w, whole)) by {
            assert(all_in(w, Seq::<MessageView>::empty()));
        }
    }
    assert forall|y: MessageView| #[trigger] waits(whole, y) implies waits(t, y) || y == m by {
        fine_waits(w, whole, y);
    }
}

/// The same of a message that a page of the tree takes, whatever waits.
pub proof fn taken_carries(t: TreeView, p: u64, m: MessageView)
    requires
        shape::has_pid(t, p),
    ensures
        shape::has_rec(local::taken_at(t, p, m), m),
        forall|y: MessageView| #[trigger]
            waits(local::taken_at(t, p, m), y) ==> waits(t, y) || y == m,
    decreases t,
{
    let t2 = local::taken_at(t, p, m);
    if shape::pid_of(t) == p {
        match t {
            TreeView::Leaf { entries, .. } => {
                applied_keeps(entries, m, m);
            },
            TreeView::Node { buffer, .. } => {
                assert(t2->buffer[buffer.len() as int] == m);
                assert(t2->buffer.contains(m));
                assert forall|y: MessageView| #[trigger] waits(t2, y) implies waits(t, y) || y
                    == m by {
                    if t2->buffer.contains(y) && y != m {
                        let i = choose|i: int| 0 <= i < t2->buffer.len() && t2->buffer[i] == y;
                        assert(buffer[i] == y);
                    }
                }
            },
        }
    } else {
        let kids = t->kids;
        let i = choose|i: int| 0 <= i < kids.len() && shape::has_pid(#[trigger] kids[i], p);
        taken_carries(kids[i], p, m);
        assert(t2->kids[i] == local::taken_at(kids[i], p, m));
        assert(shape::has_rec(t2->kids[i], m));
        assert forall|y: MessageView| #[trigger] waits(t2, y) implies waits(t, y) || y == m by {
            if !t->buffer.contains(y) {
                let j = choose|j: int| 0 <= j < t2->kids.len() && waits(#[trigger] t2->kids[j], y);
                assert(t2->kids[j] == local::taken_at(kids[j], p, m));
                if shape::has_pid(kids[j], p) {
                    taken_carries(kids[j], p, m);
                } else {
                    local::not_taken(kids[j], p, m);
                }
                if y != m {
                    assert(waits(kids[j], y));
                }
            }
        }
    }
}

/// A write that lands on a page lands on one of the tree.
pub proof fn landing_is_in_tree(
    pages: Seq<Seq<u8>>,
    t: TreeView,
    m: MessageView,
    config: CowBeTreeConfig,
    way: LocalWrite,
)
    ensures
        local::landing(pages, t, m, config, way) matches Ok(Some(p)) ==> shape::has_pid(t, p),
    decreases t,
{
    if t is Node {
        let i = node::route(t->separators, m.key) as int;
        let kids = t->kids;
        if 0 <= i < kids.len() {
            landing_is_in_tree(pages, kids[i], m, config, way);
            if local::landing(pages, t, m, config, way) matches Ok(Some(_)) {
                let p = local::landing(pages, t, m, config, way)->Ok_0->0;
                assert(shape::has_pid(kids[i], p));
            }
        }
    }
}

// ---------------------------------------------------------------------------
// Reading.

/// A leaf holds one version of a key with a timestamp.
pub(crate) proof fn leaf_slot(t: TreeView, a: MessageView, b: MessageView)
    requires
        t is Leaf,
        shape::wf(t, 0),
        shape::has_rec(t, a),
        shape::has_rec(t, b),
        same_slot(a, b),
    ensures
        a == b,
{
    broadcast use bytes::group_lex;

    let es = t->entries;
    let i = choose|i: int|
        #![trigger es[i]]
        0 <= i < es.len() && es[i].key == a.key && es[i].versions.contains(a.version);
    let j = choose|j: int|
        #![trigger es[j]]
        0 <= j < es.len() && es[j].key == b.key && es[j].versions.contains(b.version);
    if i < j {
        assert(bytes::lex_lt(es[i].key, es[j].key));
    }
    if j < i {
        assert(bytes::lex_lt(es[j].key, es[i].key));
    }
    let vs = es[i].versions;
    let p = choose|p: int| 0 <= p < vs.len() && vs[p] == a.version;
    let q = choose|q: int| 0 <= q < vs.len() && vs[q] == b.version;
    assert(node::sorted_versions(vs));
    if p < q {
        assert(vs[p].commit_ts > vs[q].commit_ts);
    }
    if q < p {
        assert(vs[q].commit_ts > vs[p].commit_ts);
    }
}

/// Of the messages with the key and the timestamp of `x`, that at `j` comes first and
/// is `x`.
pub open spec fn leads(ms: Seq<MessageView>, x: MessageView, j: int) -> bool {
    &&& 0 <= j < ms.len()
    &&& ms[j] == x
    &&& forall|k: int| 0 <= k < j ==> !same_slot(#[trigger] ms[k], x)
}

/// On the way from the root to the leaf of its key, `x` is the first record with its
/// key and its timestamp.
pub open spec fn comes_first(t: TreeView, x: MessageView) -> bool
    decreases t,
{
    match t {
        TreeView::Leaf { .. } => shape::has_rec(t, x),
        TreeView::Node { separators, buffer, kids, .. } => {
            let i = node::route(separators, x.key) as int;
            ||| exists|j: int| #[trigger] leads(buffer, x, j)
            ||| (forall|k: int| 0 <= k < buffer.len() ==> !same_slot(#[trigger] buffer[k], x)) && 0
                <= i < kids.len() && comes_first(kids[i], x)
        },
    }
}

/// No record of the key that a reader at `ts` may see is newer than `x`.
pub open spec fn none_newer(t: TreeView, x: MessageView, ts: u64) -> bool {
    forall|y: MessageView| #[trigger]
        shape::has_rec(t, y) && y.key == x.key && y.version.commit_ts <= ts
            ==> y.version.commit_ts <= x.version.commit_ts
}

/// In a buffer the first of the newest messages of a key is seen.
pub proof fn leader_is_newest(ms: Seq<MessageView>, x: MessageView, j: int, ts: u64)
    requires
        leads(ms, x, j),
        x.version.commit_ts <= ts,
        forall|k: int|
            0 <= k < ms.len() && (#[trigger] ms[k]).key == x.key && ms[k].version.commit_ts <= ts
                ==> ms[k].version.commit_ts <= x.version.commit_ts,
    ensures
        lookup::newest_message(ms, x.key, ts) == Some(x.version),
    decreases ms.len(),
{
    let front = ms.drop_last();
    assert forall|k: int|
        0 <= k < front.len() && (#[trigger] front[k]).key == x.key && front[k].version.commit_ts
            <= ts implies front[k].version.commit_ts <= x.version.commit_ts by {
        assert(front[k] == ms[k]);
    }
    let last = ms[ms.len() - 1];
    assert(last == ms.last());
    if j < front.len() {
        assert(leads(front, x, j)) by {
            assert forall|k: int| 0 <= k < j implies !same_slot(#[trigger] front[k], x) by {
                assert(!same_slot(ms[k], x));
            }
        }
        leader_is_newest(front, x, j, ts);
    } else {
        lookup::newest_message_is_newest(front, x.key, ts);
        let v = lookup::newest_message(front, x.key, ts);
        if v is Some {
            let m = MessageView { key: x.key, version: v->0 };
            let k = choose|k: int| 0 <= k < front.len() && front[k] == m;
            assert(ms[k] == m);
            assert(!same_slot(ms[k], x));
        }
    }
}

/// Of two candidates the newer is taken, and the first where both are as new.
pub proof fn first_candidate_wins_ties(a: VersionView, b: VersionView)
    ensures
        read::newer(Some(a), Some(b)) == Some(
            if b.commit_ts > a.commit_ts {
                b
            } else {
                a
            },
        ),
        lookup::newer_of(Some(a), b) == read::newer(Some(a), Some(b)),
        read::newer(None, Some(b)) == Some(b),
        read::newer(Some(a), None) == Some(a),
        lookup::newer_of(None, b) == Some(b),
{
}

/// Of versions the newest that a reader at `ts` may see is taken, and the first of those
/// that are as new.
pub proof fn first_of_the_newest_is_taken(vs: Seq<VersionView>, ts: u64, i: int)
    requires
        0 <= i < vs.len(),
        vs[i].commit_ts <= ts,
        forall|j: int| 0 <= j < vs.len() && (#[trigger] vs[j]).commit_ts <= ts ==> vs[j].commit_ts
            <= vs[i].commit_ts,
        forall|j: int| 0 <= j < i ==> (#[trigger] vs[j]).commit_ts != vs[i].commit_ts,
    ensures
        lookup::newest(vs, ts) == Some(vs[i]),
    decreases vs.len(),
{
    let front = vs.drop_last();
    assert(vs.last() == vs[vs.len() - 1]);
    assert forall|j: int| 0 <= j < front.len() implies #[trigger] front[j] == vs[j] by {}
    if i < front.len() {
        first_of_the_newest_is_taken(front, ts, i);
    } else {
        lookup::newest_is_newest(front, ts);
        let v = lookup::newest(front, ts);
        if v is Some {
            let j = choose|j: int| 0 <= j < front.len() && front[j] == v->0;
            assert(vs[j] == v->0);
        }
    }
}

/// A reader sees the first record on the way to the leaf of its key, of those with
/// the newest timestamp that the reader may see: what waits nearer to the root comes
/// before what waits below it and before what the leaf holds, and in a buffer what
/// came earlier comes first.
#[verifier::rlimit(40)]
#[verifier::spinoff_prover]
pub proof fn first_on_the_way_is_seen(t: TreeView, h: nat, x: MessageView, ts: u64)
    requires
        shape::wf(t, h),
        node::in_fence(shape::fence_of(t), x.key),
        comes_first(t, x),
        x.version.commit_ts <= ts,
        none_newer(t, x, ts),
    ensures
        read::tree_lookup(t, x.key, ts) == Some(x.version),
    decreases t,
{
    let key = x.key;
    match t {
        TreeView::Leaf { .. } => {
            let v = read::tree_lookup(t, key, ts);
            read::lookup_finds_newest(t, h, key, ts);
            assert(shape::tree_recs(t).contains(x));
            let seen = MessageView { key, version: v->0 };
            assert(shape::has_rec(t, seen));
            leaf_slot(t, seen, x);
        },
        TreeView::Node { fence, separators, buffer, kids, .. } => {
            let i = node::route(separators, key) as int;
            shape::route_to_child(fence, separators, key);
            shape::wf_node(t, h);
            let hk = (h - 1) as nat;
            assert(shape::fence_of(kids[i]) == shape::child_fence(fence, separators, i));
            assert(shape::wf(kids[i], hk));
            let b = lookup::newest_message(buffer, key, ts);
            let c = read::tree_lookup(kids[i], key, ts);
            assert forall|k: int|
                0 <= k < buffer.len() && (#[trigger] buffer[k]).key == x.key
                    && buffer[k].version.commit_ts <= ts implies buffer[k].version.commit_ts
                <= x.version.commit_ts by {
                assert(buffer.contains(buffer[k]));
                assert(shape::has_rec(t, buffer[k]));
            }
            assert(none_newer(kids[i], x, ts)) by {
                assert forall|y: MessageView| #[trigger]
                    shape::has_rec(kids[i], y) && y.key == x.key && y.version.commit_ts
                        <= ts implies y.version.commit_ts <= x.version.commit_ts by {
                    assert(shape::has_rec(t, y));
                }
            }
            if exists|j: int| #[trigger] leads(buffer, x, j) {
                let j = choose|j: int| #[trigger] leads(buffer, x, j);
                leader_is_newest(buffer, x, j, ts);
                read::lookup_finds_newest(kids[i], hk, key, ts);
                if c is Some {
                    let y = MessageView { key, version: c->0 };
                    assert(shape::tree_recs(kids[i]).contains(y));
                    assert(shape::has_rec(kids[i], y));
                }
            } else {
                first_on_the_way_is_seen(kids[i], hk, x, ts);
                lookup::newest_message_is_newest(buffer, key, ts);
                if b is Some {
                    let y = MessageView { key, version: b->0 };
                    let k = choose|k: int| 0 <= k < buffer.len() && buffer[k] == y;
                    assert(!same_slot(buffer[k], x));
                }
            }
        },
    }
}

proof fn some_leads(ms: Seq<MessageView>, x: MessageView)
    requires
        ms.contains(x),
        forall|k: int| 0 <= k < ms.len() && same_slot(#[trigger] ms[k], x) ==> ms[k] == x,
    ensures
        exists|j: int| #[trigger] leads(ms, x, j),
    decreases ms.len(),
{
    let front = ms.drop_last();
    if front.contains(x) {
        assert forall|k: int| 0 <= k < front.len() && same_slot(#[trigger] front[k], x) implies
            front[k] == x by {
            assert(front[k] == ms[k]);
        }
        some_leads(front, x);
        let j = choose|j: int| #[trigger] leads(front, x, j);
        assert(leads(ms, x, j)) by {
            assert forall|k: int| 0 <= k < j implies !same_slot(#[trigger] ms[k], x) by {
                assert(!same_slot(front[k], x));
            }
        }
    } else {
        let j = ms.len() - 1;
        let q = choose|q: int| 0 <= q < ms.len() && ms[q] == x;
        if q < j {
            assert(front[q] == x);
        }
        assert(leads(ms, x, j)) by {
            assert forall|k: int| 0 <= k < j implies !same_slot(#[trigger] ms[k], x) by {
                assert(front[k] == ms[k]);
            }
        }
    }
}

/// A record comes first if no other waits with its key and its timestamp.
#[verifier::rlimit(40)]
#[verifier::spinoff_prover]
pub proof fn unrivalled_comes_first(t: TreeView, h: nat, x: MessageView)
    requires
        shape::wf(t, h),
        node::in_fence(shape::fence_of(t), x.key),
        shape::has_rec(t, x),
        forall|y: MessageView| #[trigger] waits(t, y) && same_slot(y, x) ==> y == x,
    ensures
        comes_first(t, x),
    decreases t,
{
    if t is Node {
        let (fence, separators, buffer, kids) = (t->Node_fence, t->separators, t->buffer, t->kids);
        let i = node::route(separators, x.key) as int;
        shape::route_to_child(fence, separators, x.key);
        shape::wf_node(t, h);
        let hk = (h - 1) as nat;
        assert(shape::fence_of(kids[i]) == shape::child_fence(fence, separators, i));
        assert(shape::wf(kids[i], hk));
        assert forall|k: int| 0 <= k < buffer.len() && same_slot(#[trigger] buffer[k], x) implies
            buffer[k] == x by {
            assert(buffer.contains(buffer[k]));
            assert(waits(t, buffer[k]));
        }
        if buffer.contains(x) {
            some_leads(buffer, x);
        } else {
            assert(shape::some_has_rec(kids, x));
            shape::recs_are_routed(fence, separators, kids, hk, x);
            assert forall|y: MessageView| #[trigger]
                waits(kids[i], y) && same_slot(y, x) implies y == x by {
                assert(waits(t, y));
            }
            unrivalled_comes_first(kids[i], hk, x);
            assert forall|k: int| 0 <= k < buffer.len() implies !same_slot(
                #[trigger] buffer[k],
                x,
            ) by {
                if same_slot(buffer[k], x) {
                    assert(buffer.contains(buffer[k]));
                }
            }
        }
    }
}

} // verus!
