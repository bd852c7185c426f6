//! Buffers are flushed when they are full: what waits in a buffer stays below the number
//! of messages at which it is flushed.
use vstd::prelude::*;

use crate::betree::batch;
use crate::betree::carry;
use crate::betree::config::CowBeTreeConfig;
use crate::betree::course;
use crate::betree::course::Out;
use crate::betree::leaf_append;
use crate::betree::message;
use crate::betree::message::MessageView;
use crate::betree::node;
use crate::betree::node::{CowBeTreeError, EntryView, FenceView};
use crate::betree::rewrite;
use crate::betree::shape::TreeView;
use crate::bytes;

verus! {

/// Fewer than `n` messages wait in every buffer of the tree, and its nodes have one
/// separator less than children.
pub open spec fn calm(n: int, t: TreeView) -> bool
    decreases t,
{
    match t {
        TreeView::Leaf { .. } => true,
        TreeView::Node { separators, buffer, kids, .. } => {
            &&& kids.len() == separators.len() + 1
            &&& buffer.len() < n
            &&& forall|i: int| 0 <= i < kids.len() ==> calm(n, #[trigger] kids[i])
        },
    }
}

spec fn all_calm(n: int, o: Out) -> bool {
    &&& o.kids.len() == o.separators.len() + 1
    &&& forall|i: int| 0 <= i < o.kids.len() ==> calm(n, #[trigger] o.kids[i])
}

proof fn parts_add_up<A>(s: Seq<A>, p: spec_fn(A) -> bool, q: spec_fn(A) -> bool)
    requires
        forall|x: A| #[trigger] p(x) == !q(x),
    ensures
        s.filter(p).len() + s.filter(q).len() == s.len(),
    decreases s.len(),
{
    reveal(Seq::filter);
    if s.len() > 0 {
        parts_add_up(s.drop_last(), p, q);
        assert(p(s.last()) == !q(s.last()));
    }
}

proof fn leaf_written_calm(config: CowBeTreeConfig, fence: FenceView, es: Seq<EntryView>, n: int)
    requires
        course::leaf_written(config, fence, es) is Ok,
    ensures
        all_calm(n, course::leaf_written(config, fence, es)->Ok_0),
{
}

/// A node that is written, or split, has no more in its buffer than it had.
#[verifier::rlimit(40)]
#[verifier::spinoff_prover]
proof fn inner_calm(
    fence: FenceView,
    separators: Seq<Seq<u8>>,
    buffer: Seq<MessageView>,
    kids: Seq<TreeView>,
    n: int,
    r: Result<Out, CowBeTreeError>,
)
    requires
        all_calm(n, Out { separators, kids }),
        buffer.len() < n,
        r == course::inner_written(fence, separators, buffer, kids) || r == course::inner_split(
            fence,
            separators,
            buffer,
            kids,
        ),
        r is Ok,
    ensures
        all_calm(n, r->Ok_0),
{
    let o = r->Ok_0;
    let all = Out { separators, kids };
    assert forall|i: int| 0 <= i < kids.len() implies calm(n, #[trigger] kids[i]) by {
        assert(calm(n, all.kids[i]));
    }
    if r == course::inner_written(fence, separators, buffer, kids) {
        assert(o.kids[0] == course::inner(fence, separators, buffer, kids));
        assert(calm(n, o.kids[0]));
    } else {
        let len = kids.len() as int;
        let mid = len / 2;
        let sep = separators[mid - 1];
        let below = |m: MessageView| bytes::lex_lt(m.key, sep);
        let above = |m: MessageView| !bytes::lex_lt(m.key, sep);
        let lk = kids.subrange(0, mid);
        let rk = kids.subrange(mid, len);
        parts_add_up(buffer, below, above);
        let (l, r2) = (o.kids[0], o.kids[1]);
        assert(l->kids == lk && r2->kids == rk);
        assert(l->buffer == buffer.filter(below) && r2->buffer == buffer.filter(above));
        assert forall|i: int| 0 <= i < lk.len() implies calm(n, #[trigger] lk[i]) by {
            assert(lk[i] == kids[i]);
        }
        assert forall|i: int| 0 <= i < rk.len() implies calm(n, #[trigger] rk[i]) by {
            assert(rk[i] == kids[mid + i]);
        }
        assert(calm(n, l) && calm(n, r2));
    }
}

proof fn spliced_calm(separators: Seq<Seq<u8>>, kids: Seq<TreeView>, i: int, o: Out, n: int)
    requires
        all_calm(n, Out { separators, kids }),
        all_calm(n, o),
        0 <= i < kids.len(),
    ensures
        all_calm(n, course::spliced(separators, kids, i, o)),
{
    let all = Out { separators, kids };
    let f = course::spliced(separators, kids, i, o);
    let len = o.kids.len();
    assert(f.kids.len() == kids.len() - 1 + len);
    assert(f.separators.len() == separators.len() + o.separators.len());
    assert forall|j: int| 0 <= j < f.kids.len() implies calm(n, #[trigger] f.kids[j]) by {
        if j < i {
            assert(calm(n, all.kids[j]));
        } else if j < i + len {
            assert(calm(n, o.kids[j - i]));
        } else {
            assert(calm(n, all.kids[j - len + 1]));
            assert(f.kids[j] == kids[j - len + 1]);
        }
    }
}

#[verifier::rlimit(40)]
#[verifier::spinoff_prover]
proof fn direct_calm(config: CowBeTreeConfig, t: TreeView, ms: Seq<MessageView>, n: int)
    requires
        calm(n, t),
        course::direct(config, t, ms) matches Ok(Some(_)),
    ensures
        all_calm(n, course::direct(config, t, ms)->Ok_0->0),
    decreases t,
{
    let o = course::direct(config, t, ms)->Ok_0->0;
    if ms.len() == 0 {
        assert(o.kids[0] == t);
    } else {
        match t {
            TreeView::Leaf { fence, entries, .. } => {
                leaf_written_calm(config, fence, node::apply_messages(entries, ms), n);
            },
            TreeView::Node { fence, separators, buffer, kids, .. } => {
                let i = node::route(separators, ms[0].key) as int;
                direct_calm(config, kids[i], ms, n);
                let c = course::direct(config, kids[i], ms)->Ok_0->0;
                let all = Out { separators, kids };
                assert forall|j: int| 0 <= j < all.kids.len() implies calm(
                    n,
                    #[trigger] all.kids[j],
                ) by {
                    assert(calm(n, kids[j]));
                }
                spliced_calm(separators, kids, i, c, n);
                let f = course::spliced(separators, kids, i, c);
                assert(f == (Out { separators: f.separators, kids: f.kids }));
                let r = course::inner_rewritten(config, fence, f.separators, buffer, f.kids);
                inner_calm(fence, f.separators, buffer, f.kids, n, r);
            },
        }
    }
}

#[verifier::rlimit(60)]
#[verifier::spinoff_prover]
proof fn put_calm(config: CowBeTreeConfig, t: TreeView, ms: Seq<MessageView>, h: nat)
    requires
        calm(config.flush_threshold_messages as int, t),
        ms.len() <= 1,
        course::put(config, t, ms, h) is Ok,
    ensures
        all_calm(config.flush_threshold_messages as int, course::put(config, t, ms, h)->Ok_0),
    decreases h, 2nat, 0nat,
{
    let n = config.flush_threshold_messages as int;
    match t {
        TreeView::Leaf { fence, entries, .. } => {
            leaf_written_calm(config, fence, node::apply_messages(entries, ms), n);
        },
        TreeView::Node { fence, separators, buffer, kids, .. } => {
            let all = buffer + ms;
            let forest = Out { separators, kids };
            assert forall|j: int| 0 <= j < forest.kids.len() implies calm(
                n,
                #[trigger] forest.kids[j],
            ) by {
                assert(calm(n, kids[j]));
            }
            let flushes = rewrite::buffer_flushes(config, all) || course::inner_splits(
                config,
                fence,
                separators,
                all,
                kids,
            );
            if h > 0 && flushes {
                flushed_calm(config, fence, separators, all, kids, (h - 1) as nat);
            } else if h > 0 {
                inner_calm(
                    fence,
                    separators,
                    all,
                    kids,
                    n,
                    course::inner_written(fence, separators, all, kids),
                );
            }
        },
    }
}

#[verifier::rlimit(60)]
#[verifier::spinoff_prover]
proof fn each_put_calm(
    config: CowBeTreeConfig,
    separators: Seq<Seq<u8>>,
    kids: Seq<TreeView>,
    ms: Seq<MessageView>,
    next: int,
    asked: bool,
    h: nat,
)
    requires
        all_calm(config.flush_threshold_messages as int, Out { separators, kids }),
        0 <= next <= ms.len(),
        course::each_put(config, separators, kids, ms, next, asked, h) is Ok,
    ensures
        all_calm(
            config.flush_threshold_messages as int,
            course::each_put(config, separators, kids, ms, next, asked, h)->Ok_0,
        ),
    decreases h, 3nat, ms.len() - next,
{
    let n = config.flush_threshold_messages as int;
    if next < ms.len() {
        let i = node::route(separators, ms[next].key) as int;
        node::route_splits(separators, ms[next].key);
        let all = Out { separators, kids };
        assert(calm(n, all.kids[i]));
        let one = seq![ms[next]];
        let first = course::put_or_refused(config, kids[i], one, asked, h);
        assert(first is Ok);
        assert(first == course::put(config, kids[i], one, h));
        put_calm(config, kids[i], one, h);
        let c = course::put(config, kids[i], one, h)->Ok_0;
        spliced_calm(separators, kids, i, c, n);
        let f = course::spliced(separators, kids, i, c);
        assert(f == (Out { separators: f.separators, kids: f.kids }));
        each_put_calm(config, f.separators, f.kids, ms, next + 1, true, h);
    }
}

#[verifier::rlimit(60)]
#[verifier::spinoff_prover]
proof fn child_put_calm(
    config: CowBeTreeConfig,
    separators: Seq<Seq<u8>>,
    kids: Seq<TreeView>,
    i: int,
    ms: Seq<MessageView>,
    h: nat,
)
    requires
        all_calm(config.flush_threshold_messages as int, Out { separators, kids }),
        0 <= i < kids.len(),
        course::child_put(config, separators, kids, i, ms, h) is Ok,
    ensures
        all_calm(
            config.flush_threshold_messages as int,
            course::child_put(config, separators, kids, i, ms, h)->Ok_0,
        ),
    decreases h, 4nat, 0nat,
{
    let n = config.flush_threshold_messages as int;
    let all = Out { separators, kids };
    let max = config.max_leaf_entries as int;
    let k = course::front_len(kids[i], ms, max)->Ok_0;
    assert(0 <= k <= ms.len()) by {
        if kids[i] is Leaf {
            carry::front_is_part(
                crate::page_id::PAGE_SIZE as int,
                leaf_append::node_layout(kids[i]->Leaf_fence, kids[i]->entries),
                kids[i]->Leaf_fence.upper,
                ms,
                0,
                0,
                max,
            );
        }
    }
    let t = if k > 0 {
        course::with_front(kids[i], ms.take(k))
    } else {
        kids[i]
    };
    let kids2 = kids.update(i, t);
    let all2 = Out { separators, kids: kids2 };
    let rest = ms.skip(k);
    assert(calm(n, all.kids[i]));
    assert(calm(n, t));
    assert forall|j: int| 0 <= j < all2.kids.len() implies calm(n, #[trigger] all2.kids[j]) by {
        if j != i {
            assert(calm(n, all.kids[j]));
        }
    }
    if k < ms.len() {
        let d = course::direct(config, t, rest);
        if rest.len() > 1 && d matches Ok(Some(_)) {
            direct_calm(config, t, rest, n);
            spliced_calm(separators, kids2, i, d->Ok_0->0, n);
        } else {
            each_put_calm(config, separators, kids2, ms, k, false, h);
        }
    }
}

#[verifier::rlimit(60)]
#[verifier::spinoff_prover]
proof fn flushed_calm(
    config: CowBeTreeConfig,
    fence: FenceView,
    separators: Seq<Seq<u8>>,
    buffer: Seq<MessageView>,
    kids: Seq<TreeView>,
    h: nat,
)
    requires
        all_calm(config.flush_threshold_messages as int, Out { separators, kids }),
        1 <= config.flush_threshold_messages,
        buffer.len() <= config.flush_threshold_messages,
        course::flushed(config, fence, separators, buffer, kids, h) is Ok,
    ensures
        all_calm(
            config.flush_threshold_messages as int,
            course::flushed(config, fence, separators, buffer, kids, h)->Ok_0,
        ),
    decreases h, 5nat, buffer.len(),
{
    let n = config.flush_threshold_messages as int;
    if buffer.len() == 0 {
        let r = course::inner_rewritten(config, fence, separators, buffer, kids);
        inner_calm(fence, separators, buffer, kids, n, r);
    } else {
        let len = kids.len() as int;
        let i = course::flush_child(separators, buffer, len);
        carry::flush_child_stands(separators, buffer, len);
        let here = |m: MessageView| node::route(separators, m.key) == i;
        let elsewhere = |m: MessageView| node::route(separators, m.key) != i;
        let picked = batch::routed_to(separators, buffer, i);
        let ms = message::in_buffer_order(picked);
        let rest = batch::routed_elsewhere(separators, buffer, i);
        assert(picked == buffer.filter(here));
        assert(rest == buffer.filter(elsewhere));
        parts_add_up(buffer, here, elsewhere);
        assert(rest.len() < buffer.len());
        child_put_calm(config, separators, kids, i, ms, h);
        let f = course::child_put(config, separators, kids, i, ms, h)->Ok_0;
        assert(f == (Out { separators: f.separators, kids: f.kids }));
        let split = course::inner_split(fence, f.separators, rest, f.kids);
        let plain = course::inner_written(fence, f.separators, rest, f.kids);
        if f.kids.len() > config.max_internal_children {
            inner_calm(fence, f.separators, rest, f.kids, n, split);
        } else if course::inner_fits(fence, f.separators, rest, f.kids) {
            inner_calm(fence, f.separators, rest, f.kids, n, plain);
        } else {
            flushed_calm(config, fence, f.separators, rest, f.kids, h);
        }
    }
}

proof fn bare_is_calm(n: int, t: TreeView)
    ensures
        calm(n, course::bare(t)) == calm(n, t),
    decreases t,
{
    course::bare_node(t);
    if t is Node {
        let kids = t->kids;
        let k2 = course::bare_all(kids);
        assert(course::bare(t)->kids == k2);
        assert forall|i: int| 0 <= i < kids.len() implies calm(n, #[trigger] k2[i]) == calm(
            n,
            kids[i],
        ) by {
            bare_is_calm(n, kids[i]);
        }
        if calm(n, t) {
            assert forall|i: int| 0 <= i < k2.len() implies calm(n, #[trigger] k2[i]) by {
                assert(calm(n, kids[i]));
            }
        }
        if calm(n, course::bare(t)) {
            assert forall|i: int| 0 <= i < kids.len() implies calm(n, #[trigger] kids[i]) by {
                assert(calm(n, k2[i]));
            }
        }
    }
}

/// A write at the root leaves fewer messages in every buffer than it takes to flush
/// one, if it was so before.
pub proof fn root_put_is_calm(
    config: CowBeTreeConfig,
    t: TreeView,
    h: nat,
    m: MessageView,
    after: TreeView,
)
    requires
        calm(config.flush_threshold_messages as int, t),
        course::rooted(course::root_put(config, course::bare(t), m, h)) == Ok::<
            _,
            CowBeTreeError,
        >(course::bare(after)),
        t is Node,
    ensures
        calm(config.flush_threshold_messages as int, after),
{
    let n = config.flush_threshold_messages as int;
    bare_is_calm(n, t);
    bare_is_calm(n, after);
    put_calm(config, course::bare(t), seq![m], h);
    let o = course::put(config, course::bare(t), seq![m], h)->Ok_0;
    assert(calm(n, o.kids[0]));
    if o.kids.len() != 1 {
        let whole = course::bare(after);
        assert(whole->kids == o.kids);
        assert(whole->buffer.len() == 0);
    }
}

} // verus!
