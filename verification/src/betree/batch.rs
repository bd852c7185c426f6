//! Choosing what to flush: the messages of the child that has most of them.
use vstd::prelude::*;

use crate::betree::message;
use crate::betree::message::{BufferedMessage, MessageView};
use crate::betree::node;
use crate::betree::node::CowBeTreeError;
use crate::betree::shape;
use crate::bytes;

verus! {

/// What a filter lets through.
pub proof fn filter_has<A>(s: Seq<A>, p: spec_fn(A) -> bool)
    ensures
        forall|x: A| #[trigger] s.filter(p).contains(x) <==> s.contains(x) && p(x),
        s.filter(p).len() + s.filter(|x: A| !p(x)).len() == s.len(),
        forall|i: int| 0 <= i < s.filter(p).len() ==> p(#[trigger] s.filter(p)[i]),
    decreases s.len(),
{
    reveal(Seq::filter);
    let q = |x: A| !p(x);
    let r = s.filter(p);
    if s.len() > 0 {
        let front = s.drop_last();
        filter_has(front, p);
        let rf = front.filter(p);
        assert(r == if p(s.last()) { rf.push(s.last()) } else { rf });
        assert forall|x: A| #[trigger] r.contains(x) <==> s.contains(x) && p(x) by {
            if r.contains(x) {
                let k = choose|k: int| 0 <= k < r.len() && r[k] == x;
                if k < rf.len() {
                    assert(rf[k] == x);
                    assert(rf.contains(x));
                    let j = choose|j: int| 0 <= j < front.len() && front[j] == x;
                    assert(s[j] == x);
                } else {
                    assert(s[s.len() - 1] == x);
                }
            }
            if s.contains(x) && p(x) {
                let j = choose|j: int| 0 <= j < s.len() && s[j] == x;
                if j < front.len() {
                    assert(front[j] == x);
                    assert(rf.contains(x));
                    let k = choose|k: int| 0 <= k < rf.len() && rf[k] == x;
                    assert(r[k] == x);
                } else {
                    assert(r[rf.len() as int] == x);
                }
            }
        }
        assert forall|i: int| 0 <= i < r.len() implies p(#[trigger] r[i]) by {
            if i < rf.len() {
                assert(rf[i] == r[i]);
            }
        }
    }
}

/// The messages that are routed to child `i`.
pub open spec fn routed_to(
    separators: Seq<Seq<u8>>,
    ms: Seq<MessageView>,
    i: int,
) -> Seq<MessageView> {
    ms.filter(|m: MessageView| node::route(separators, m.key) == i)
}

/// The messages that are routed elsewhere.
pub open spec fn routed_elsewhere(
    separators: Seq<Seq<u8>>,
    ms: Seq<MessageView>,
    i: int,
) -> Seq<MessageView> {
    ms.filter(|m: MessageView| node::route(separators, m.key) != i)
}

pub open spec fn routed_bytes(separators: Seq<Seq<u8>>, ms: Seq<MessageView>, i: int) -> usize {
    message::clamp_usize(message::messages_len(routed_to(separators, ms, i)))
}

/// Child `b` comes before child `j` for a flush: it has more messages, or as
/// many and more bytes of them, or as many bytes too and stands before it.
pub open spec fn flushed_before(
    separators: Seq<Seq<u8>>,
    ms: Seq<MessageView>,
    b: int,
    j: int,
) -> bool {
    let cb = routed_to(separators, ms, b).len();
    let cj = routed_to(separators, ms, j).len();
    let bb = routed_bytes(separators, ms, b);
    let bj = routed_bytes(separators, ms, j);
    cb > cj || (cb == cj && bb > bj) || (cb == cj && bb == bj && b < j)
}

/// Child `b` of `n` is the one to flush to.
pub open spec fn is_flush_child(
    separators: Seq<Seq<u8>>,
    ms: Seq<MessageView>,
    n: int,
    b: int,
) -> bool {
    &&& 0 <= b < n
    &&& routed_to(separators, ms, b).len() > 0
    &&& forall|j: int|
        0 <= j < n && j != b ==> #[trigger] flushed_before(separators, ms, b, j)
}

pub open spec fn some_routed_outside(
    separators: Seq<Seq<u8>>,
    ms: Seq<MessageView>,
    n: int,
) -> bool {
    exists|i: int| 0 <= i < ms.len() && node::route(separators, (#[trigger] ms[i]).key) >= n
}

pub proof fn messages_len_nonneg(ms: Seq<MessageView>)
    ensures
        message::messages_len(ms) >= 0,
    decreases ms.len(),
{
    if ms.len() > 0 {
        messages_len_nonneg(ms.drop_last());
    }
}

proof fn routed_step(separators: Seq<Seq<u8>>, ms: Seq<MessageView>, i: int, k: int)
    requires
        0 <= i < ms.len(),
    ensures
        routed_to(separators, ms.take(i + 1), k) == if node::route(separators, ms[i].key) == k {
            routed_to(separators, ms.take(i), k).push(ms[i])
        } else {
            routed_to(separators, ms.take(i), k)
        },
        routed_bytes(separators, ms.take(i + 1), k) == if node::route(separators, ms[i].key)
            == k {
            message::clamp_usize(
                routed_bytes(separators, ms.take(i), k) + message::clamp_usize(
                    message::message_len(ms[i]),
                ),
            )
        } else {
            routed_bytes(separators, ms.take(i), k)
        },
{
    reveal(Seq::filter);
    let t = ms.take(i + 1);
    assert(t.drop_last() =~= ms.take(i));
    assert(t.last() == ms[i]);
    let before = routed_to(separators, ms.take(i), k);
    messages_len_nonneg(before);
    if node::route(separators, ms[i].key) == k {
        assert(before.push(ms[i]).drop_last() =~= before);
    }
}

/// Split the messages at a child: those routed to it, and the others.
fn pick_batch(separators: &[Vec<u8>], buffer: &[BufferedMessage], child: usize) -> (r: (
    Vec<BufferedMessage>,
    Vec<BufferedMessage>,
))
    ensures
        message::messages_view(r.0@) == routed_to(
            node::keys_view(separators@),
            message::messages_view(buffer@),
            child as int,
        ),
        message::messages_view(r.1@) == routed_elsewhere(
            node::keys_view(separators@),
            message::messages_view(buffer@),
            child as int,
        ),
{
    let ghost seps = node::keys_view(separators@);
    let ghost ms = message::messages_view(buffer@);
    let ghost p = |m: MessageView| node::route(seps, m.key) == child as int;
    let ghost q = |m: MessageView| node::route(seps, m.key) != child as int;
    let mut batch: Vec<BufferedMessage> = Vec::new();
    let mut remaining: Vec<BufferedMessage> = Vec::new();
    let mut i: usize = 0;
    proof {
        reveal(Seq::filter);
        assert(message::messages_view(batch@) =~= ms.take(0).filter(p));
        assert(message::messages_view(remaining@) =~= ms.take(0).filter(q));
    }
    while i < buffer.len()
        invariant
            i <= buffer@.len(),
            seps == node::keys_view(separators@),
            ms == message::messages_view(buffer@),
            p == (|m: MessageView| node::route(seps, m.key) == child as int),
            q == (|m: MessageView| node::route(seps, m.key) != child as int),
            message::messages_view(batch@) == ms.take(i as int).filter(p),
            message::messages_view(remaining@) == ms.take(i as int).filter(q),
        decreases buffer@.len() - i,
    {
        let ghost b0 = message::messages_view(batch@);
        let ghost r0 = message::messages_view(remaining@);
        proof {
            reveal(Seq::filter);
            let t = ms.take(i + 1);
            assert(t.drop_last() =~= ms.take(i as int));
            assert(t.last() == ms[i as int]);
        }
        let idx: usize = node::route_child(separators, buffer[i].key.as_slice());
        let m = buffer[i].duplicate();
        if idx == child {
            batch.push(m);
            assert(message::messages_view(batch@) =~= b0.push(m@));
        } else {
            remaining.push(m);
            assert(message::messages_view(remaining@) =~= r0.push(m@));
        }
        i += 1;
    }
    assert(ms.take(i as int) =~= ms);
    (batch, remaining)
}

/// The child with most messages, its messages in buffer order, and the other
/// messages as they stood.
pub fn largest_child_batch(
    children: &[u64],
    separators: &[Vec<u8>],
    buffer: &[BufferedMessage],
) -> (r: Result<(usize, Vec<BufferedMessage>, Vec<BufferedMessage>), CowBeTreeError>)
    ensures
        ({
            let seps = node::keys_view(separators@);
            let ms = message::messages_view(buffer@);
            let n = children@.len() as int;
            if ms.len() == 0 {
                r is Err && r->Err_0 == CowBeTreeError::CorruptPage("empty child flush batch")
            } else if some_routed_outside(seps, ms, n) {
                r is Err && r->Err_0 == CowBeTreeError::CorruptPage(
                    "buffer message routed outside child array",
                )
            } else {
                &&& r is Ok
                &&& is_flush_child(seps, ms, n, r->Ok_0.0 as int)
                &&& message::messages_view(r->Ok_0.1@) == message::in_buffer_order(
                    routed_to(seps, ms, r->Ok_0.0 as int),
                )
                &&& message::messages_view(r->Ok_0.2@) == routed_elsewhere(
                    seps,
                    ms,
                    r->Ok_0.0 as int,
                )
            }
        }),
{
    let ghost seps = node::keys_view(separators@);
    let ghost ms = message::messages_view(buffer@);
    let ghost n = children@.len() as int;
    if buffer.len() == 0 {
        return Err(CowBeTreeError::CorruptPage("empty child flush batch"));
    }
    let count: usize = children.len();
    let mut counts: Vec<(usize, usize)> = Vec::new();
    let mut c: usize = 0;
    proof {
        reveal(Seq::filter);
    }
    while c < count
        invariant
            c <= count,
            counts@.len() == c,
            forall|k: int| 0 <= k < c ==> #[trigger] counts@[k] == (0usize, 0usize),
        decreases count - c,
    {
        counts.push((0, 0));
        c += 1;
    }
    let mut i: usize = 0;
    proof {
        assert forall|k: int| 0 <= k < n implies (#[trigger] counts@[k]).0 == routed_to(
            seps,
            ms.take(0),
            k,
        ).len() && counts@[k].1 == routed_bytes(seps, ms.take(0), k) by {
            assert(ms.take(0) =~= Seq::<MessageView>::empty());
            assert(routed_to(seps, ms.take(0), k) =~= Seq::<MessageView>::empty());
        }
    }
    while i < buffer.len()
        invariant
            i <= buffer@.len(),
            n == children@.len(),
            count == n,
            seps == node::keys_view(separators@),
            ms == message::messages_view(buffer@),
            counts@.len() == n,
            forall|k: int|
                0 <= k < n ==> (#[trigger] counts@[k]).0 == routed_to(
                    seps,
                    ms.take(i as int),
                    k,
                ).len() && counts@[k].1 == routed_bytes(seps, ms.take(i as int), k),
            forall|k: int| 0 <= k < i ==> node::route(seps, (#[trigger] ms[k]).key) < n,
        decreases buffer@.len() - i,
    {
        assert(ms[i as int] == buffer@[i as int]@);
        let idx: usize = node::route_child(separators, buffer[i].key.as_slice());
        if idx >= count {
            assert(node::route(seps, ms[i as int].key) >= n);
            return Err(CowBeTreeError::CorruptPage("buffer message routed outside child array"));
        }
        let (c0, b0) = counts[idx];
        let ghost before = counts@;
        proof {
            routed_step(seps, ms, i as int, idx as int);
            filter_has(ms.take(i as int), |m: MessageView| node::route(seps, m.key) == idx as int);
        }
        counts.set(idx, (c0 + 1, b0.saturating_add(buffer[i].encoded_len())));
        proof {
            assert forall|k: int| 0 <= k < n implies (#[trigger] counts@[k]).0 == routed_to(
                seps,
                ms.take(i + 1),
                k,
            ).len() && counts@[k].1 == routed_bytes(seps, ms.take(i + 1), k) by {
                routed_step(seps, ms, i as int, k);
                assert(before[k].0 == routed_to(seps, ms.take(i as int), k).len());
            }
        }
        i += 1;
    }
    assert(ms.take(i as int) =~= ms);
    let mut best: Option<(usize, usize, usize)> = None;
    let mut j: usize = 0;
    while j < count
        invariant
            j <= count,
            count == n,
            counts@.len() == n,
            forall|k: int|
                0 <= k < n ==> (#[trigger] counts@[k]).0 == routed_to(seps, ms, k).len()
                    && counts@[k].1 == routed_bytes(seps, ms, k),
            match best {
                None => forall|k: int| 0 <= k < j ==> (#[trigger] counts@[k]).0 == 0,
                Some((b, bc, bb)) => {
                    &&& b < j
                    &&& bc == counts@[b as int].0
                    &&& bc > 0
                    &&& bb == counts@[b as int].1
                    &&& forall|k: int|
                        0 <= k < j && k != b ==> (#[trigger] counts@[k]).0 < bc || (counts@[k].0
                            == bc && counts@[k].1 < bb) || (counts@[k].0 == bc && counts@[k].1 == bb
                            && b < k)
                },
            },
        decreases count - j,
    {
        let (jc, jb) = counts[j];
        if jc > 0 {
            let replace = match best {
                None => true,
                Some((_, bc, bb)) => jc > bc || (jc == bc && jb > bb),
            };
            if replace {
                best = Some((j, jc, jb));
            }
        }
        j += 1;
    }
    let child: usize = match best {
        Some((b, _, _)) => b,
        None => {
            proof {
                let k = node::route(seps, ms[0].key) as int;
                assert(counts@[k].0 == 0);
                let p = |m: MessageView| node::route(seps, m.key) == k;
                filter_has(ms, p);
                assert(ms.contains(ms[0]));
                assert(routed_to(seps, ms, k).contains(ms[0]));
                assert(false);
            }
            return Err(CowBeTreeError::CorruptPage("empty child flush batch"));
        },
    };
    proof {
        assert forall|k: int| 0 <= k < n && k != child implies #[trigger] flushed_before(
            seps,
            ms,
            child as int,
            k,
        ) by {
            assert(counts@[k].0 == routed_to(seps, ms, k).len());
            assert(counts@[child as int].0 == routed_to(seps, ms, child as int).len());
        }
    }
    let (mut batch, remaining) = pick_batch(separators, buffer, child);
    message::sort_buffer_messages(&mut batch);
    Ok((child, batch, remaining))
}

/// A batch and what remains hold the messages of the buffer; the batch is
/// routed to its child, and what remains is less than the buffer.
pub proof fn batch_parts(separators: Seq<Seq<u8>>, ms: Seq<MessageView>, i: int)
    ensures
        ({
            let batch = message::in_buffer_order(routed_to(separators, ms, i));
            let remaining = routed_elsewhere(separators, ms, i);
            &&& shape::message_recs(batch).union(shape::message_recs(remaining))
                == shape::message_recs(ms)
            &&& batch.len() + remaining.len() == ms.len()
            &&& forall|k: int|
                0 <= k < batch.len() ==> node::route(separators, (#[trigger] batch[k]).key) == i
                    && ms.contains(batch[k])
            &&& forall|k: int| 0 <= k < remaining.len() ==> ms.contains(#[trigger] remaining[k])
        }),
{
    let p = |m: MessageView| node::route(separators, m.key) == i;
    let q = |m: MessageView| node::route(separators, m.key) != i;
    let nq = |m: MessageView| !p(m);
    let picked = routed_to(separators, ms, i);
    let batch = message::in_buffer_order(picked);
    let remaining = routed_elsewhere(separators, ms, i);
    filter_has(ms, p);
    filter_has(ms, q);
    assert(nq =~= q);
    message::in_buffer_order_sorts(picked);
    assert forall|k: int| 0 <= k < batch.len() implies node::route(
        separators,
        (#[trigger] batch[k]).key,
    ) == i && ms.contains(batch[k]) by {
        assert(batch.contains(batch[k]));
        assert(picked.contains(batch[k]));
    }
    assert forall|k: int| 0 <= k < remaining.len() implies ms.contains(#[trigger] remaining[k]) by {
        assert(remaining.contains(remaining[k]));
    }
    assert forall|m: MessageView| #[trigger] shape::message_recs(ms).contains(m) <==> (
    shape::message_recs(batch).union(shape::message_recs(remaining))).contains(m) by {
        assert(batch.contains(m) <==> picked.contains(m));
        assert(picked.contains(m) <==> ms.contains(m) && p(m));
        assert(remaining.contains(m) <==> ms.contains(m) && q(m));
    }
    assert(shape::message_recs(batch).union(shape::message_recs(remaining)) =~= shape::message_recs(
        ms,
    ));
}

/// Split messages at a separator: those below it, and the others.
pub fn partition_messages(buffer: &[BufferedMessage], separator: &[u8]) -> (r: (
    Vec<BufferedMessage>,
    Vec<BufferedMessage>,
))
    ensures
        message::messages_view(r.0@) == message::messages_view(buffer@).filter(
            |m: MessageView| bytes::lex_lt(m.key, separator@),
        ),
        message::messages_view(r.1@) == message::messages_view(buffer@).filter(
            |m: MessageView| !bytes::lex_lt(m.key, separator@),
        ),
{
    let ghost ms = message::messages_view(buffer@);
    let ghost p = |m: MessageView| bytes::lex_lt(m.key, separator@);
    let ghost q = |m: MessageView| !bytes::lex_lt(m.key, separator@);
    let mut left: Vec<BufferedMessage> = Vec::new();
    let mut right: Vec<BufferedMessage> = Vec::new();
    let mut i: usize = 0;
    proof {
        reveal(Seq::filter);
        assert(message::messages_view(left@) =~= ms.take(0).filter(p));
        assert(message::messages_view(right@) =~= ms.take(0).filter(q));
    }
    while i < buffer.len()
        invariant
            i <= buffer@.len(),
            ms == message::messages_view(buffer@),
            p == (|m: MessageView| bytes::lex_lt(m.key, separator@)),
            q == (|m: MessageView| !bytes::lex_lt(m.key, separator@)),
            message::messages_view(left@) == ms.take(i as int).filter(p),
            message::messages_view(right@) == ms.take(i as int).filter(q),
        decreases buffer@.len() - i,
    {
        let ghost l0 = message::messages_view(left@);
        let ghost r0 = message::messages_view(right@);
        proof {
            reveal(Seq::filter);
            let t = ms.take(i + 1);
            assert(t.drop_last() =~= ms.take(i as int));
            assert(t.last() == ms[i as int]);
        }
        let m = buffer[i].duplicate();
        if bytes::key_less(m.key.as_slice(), separator) {
            left.push(m);
            assert(message::messages_view(left@) =~= l0.push(m@));
        } else {
            right.push(m);
            assert(message::messages_view(right@) =~= r0.push(m@));
        }
        i += 1;
    }
    assert(ms.take(i as int) =~= ms);
    (left, right)
}

} // verus!
