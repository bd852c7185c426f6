//! Versioned messages: what a write puts into the tree, in a node's buffer or
//! in a leaf.
use vstd::prelude::*;

use crate::bytes;

verus! {

pub type Timestamp = u64;

/// A write against the tree, as callers phrase it.
#[derive(Clone, Debug, PartialEq, Eq)]
pub enum CowBeTreeMessage {
    PutVersion { pk: Vec<u8>, commit_ts: Timestamp, row: Vec<u8> },
    DeleteVersion { pk: Vec<u8>, commit_ts: Timestamp },
    Put { key: Vec<u8>, value: Vec<u8>, commit_ts: Timestamp },
    Delete { key: Vec<u8>, commit_ts: Timestamp },
}

/// A message as it lies in a node buffer.
#[derive(Debug, PartialEq, Eq)]
pub struct BufferedMessage {
    pub key: Vec<u8>,
    pub version: VersionRecord,
}

/// One version of a key. A deletion is a version too.
#[derive(Debug, PartialEq, Eq)]
pub struct VersionRecord {
    pub commit_ts: Timestamp,
    pub value: Vec<u8>,
    pub deleted: bool,
}

/// What a version record says.
#[verifier::ext_equal]
pub struct VersionView {
    pub commit_ts: u64,
    pub value: Seq<u8>,
    pub deleted: bool,
}

/// What a buffered message says.
#[verifier::ext_equal]
pub struct MessageView {
    pub key: Seq<u8>,
    pub version: VersionView,
}

impl View for VersionRecord {
    type V = VersionView;

    open spec fn view(&self) -> VersionView {
        VersionView { commit_ts: self.commit_ts, value: self.value@, deleted: self.deleted }
    }
}

impl View for BufferedMessage {
    type V = MessageView;

    open spec fn view(&self) -> MessageView {
        MessageView { key: self.key@, version: self.version@ }
    }
}

/// What a list of versions says.
pub open spec fn versions_view(versions: Seq<VersionRecord>) -> Seq<VersionView> {
    Seq::new(versions.len(), |i: int| versions[i]@)
}

/// What a list of messages says.
pub open spec fn messages_view(messages: Seq<BufferedMessage>) -> Seq<MessageView> {
    Seq::new(messages.len(), |i: int| messages[i]@)
}

pub open spec fn put_view(key: Seq<u8>, commit_ts: u64, value: Seq<u8>) -> MessageView {
    MessageView { key, version: VersionView { commit_ts, value, deleted: false } }
}

pub open spec fn delete_view(key: Seq<u8>, commit_ts: u64) -> MessageView {
    MessageView { key, version: VersionView { commit_ts, value: Seq::empty(), deleted: true } }
}

/// The message that a write stands for.
pub open spec fn message_of(m: CowBeTreeMessage) -> MessageView {
    match m {
        CowBeTreeMessage::PutVersion { pk, commit_ts, row } => put_view(pk@, commit_ts, row@),
        CowBeTreeMessage::DeleteVersion { pk, commit_ts } => delete_view(pk@, commit_ts),
        CowBeTreeMessage::Put { key, value, commit_ts } => put_view(key@, commit_ts, value@),
        CowBeTreeMessage::Delete { key, commit_ts } => delete_view(key@, commit_ts),
    }
}

impl CowBeTreeMessage {
    pub fn put_version(pk: Vec<u8>, commit_ts: Timestamp, row: Vec<u8>) -> (r: Self)
        ensures
            r == (CowBeTreeMessage::PutVersion { pk, commit_ts, row }),
            message_of(r) == put_view(pk@, commit_ts, row@),
    {
        Self::PutVersion { pk, commit_ts, row }
    }

    pub fn delete_version(pk: Vec<u8>, commit_ts: Timestamp) -> (r: Self)
        ensures
            r == (CowBeTreeMessage::DeleteVersion { pk, commit_ts }),
            message_of(r) == delete_view(pk@, commit_ts),
    {
        Self::DeleteVersion { pk, commit_ts }
    }

    pub fn put(key: Vec<u8>, value: Vec<u8>, commit_ts: Timestamp) -> (r: Self)
        ensures
            r == (CowBeTreeMessage::Put { key, value, commit_ts }),
            message_of(r) == put_view(key@, commit_ts, value@),
    {
        Self::Put { key, value, commit_ts }
    }

    pub fn delete(key: Vec<u8>, commit_ts: Timestamp) -> (r: Self)
        ensures
            r == (CowBeTreeMessage::Delete { key, commit_ts }),
            message_of(r) == delete_view(key@, commit_ts),
    {
        Self::Delete { key, commit_ts }
    }

    /// The message in the form in which buffers hold it.
    pub fn into_buffered(self) -> (r: BufferedMessage)
        ensures
            r@ == message_of(self),
    {
        match self {
            Self::PutVersion { pk, commit_ts, row } => BufferedMessage {
                key: pk,
                version: VersionRecord { commit_ts, value: row, deleted: false },
            },
            Self::DeleteVersion { pk, commit_ts } => BufferedMessage {
                key: pk,
                version: VersionRecord { commit_ts, value: Vec::new(), deleted: true },
            },
            Self::Put { key, value, commit_ts } => BufferedMessage {
                key,
                version: VersionRecord { commit_ts, value, deleted: false },
            },
            Self::Delete { key, commit_ts } => BufferedMessage {
                key,
                version: VersionRecord { commit_ts, value: Vec::new(), deleted: true },
            },
        }
    }
}

/// An integer as a `usize`, the largest one where it does not fit.
pub open spec fn clamp_usize(n: int) -> usize {
    if n > usize::MAX {
        usize::MAX
    } else {
        n as usize
    }
}

/// Bytes that a message takes up in a node buffer: key length, key, timestamp,
/// deletion flag, value length, value.
pub open spec fn message_len(m: MessageView) -> int {
    (15 + m.key.len() + m.version.value.len()) as int
}

/// Bytes that a list of messages takes up in a node buffer.
pub open spec fn messages_len(ms: Seq<MessageView>) -> int
    decreases ms.len(),
{
    if ms.len() == 0 {
        0
    } else {
        messages_len(ms.drop_last()) + message_len(ms.last())
    }
}

/// Buffer order: by key, and newest first within a key.
pub open spec fn buffer_before(a: MessageView, b: MessageView) -> bool {
    bytes::lex_lt(a.key, b.key) || (a.key == b.key && a.version.commit_ts > b.version.commit_ts)
}

impl VersionRecord {
    pub fn duplicate(&self) -> (r: Self)
        ensures
            r@ == self@,
    {
        VersionRecord {
            commit_ts: self.commit_ts,
            value: bytes::copy_bytes(self.value.as_slice()),
            deleted: self.deleted,
        }
    }
}

impl Clone for VersionRecord {
    fn clone(&self) -> (r: Self)
        ensures
            r@ == self@,
    {
        self.duplicate()
    }
}

impl Clone for BufferedMessage {
    fn clone(&self) -> (r: Self)
        ensures
            r@ == self@,
    {
        self.duplicate()
    }
}

impl BufferedMessage {
    pub fn put(key: &[u8], commit_ts: Timestamp, value: &[u8]) -> (r: Self)
        ensures
            r@ == put_view(key@, commit_ts, value@),
    {
        Self {
            key: bytes::copy_bytes(key),
            version: VersionRecord { commit_ts, value: bytes::copy_bytes(value), deleted: false },
        }
    }

    pub fn delete(key: &[u8], commit_ts: Timestamp) -> (r: Self)
        ensures
            r@ == delete_view(key@, commit_ts),
    {
        Self {
            key: bytes::copy_bytes(key),
            version: VersionRecord { commit_ts, value: Vec::new(), deleted: true },
        }
    }

    pub fn duplicate(&self) -> (r: Self)
        ensures
            r@ == self@,
    {
        BufferedMessage {
            key: bytes::copy_bytes(self.key.as_slice()),
            version: self.version.duplicate(),
        }
    }

    /// Bytes that the message takes up in a node buffer.
    pub fn encoded_len(&self) -> (r: usize)
        ensures
            r == clamp_usize(message_len(self@)),
    {
        let fixed: usize = 1 + 8 + 2 + 4;
        fixed.saturating_add(self.key.len()).saturating_add(self.version.value.len())
    }

    /// Whether `self` stands strictly before `other` in buffer order.
    pub fn precedes(&self, other: &Self) -> (r: bool)
        ensures
            r == buffer_before(self@, other@),
    {
        match bytes::compare_keys(self.key.as_slice(), other.key.as_slice()) {
            bytes::KeyOrder::Less => true,
            bytes::KeyOrder::Equal => self.version.commit_ts > other.version.commit_ts,
            bytes::KeyOrder::Greater => {
                proof {
                    bytes::lex_lt_asymmetric(other.key@, self.key@);
                }
                false
            },
        }
    }
}

/// Copies of the messages from `from` on, up to `to`.
pub fn copy_messages(messages: &[BufferedMessage], from: usize, to: usize) -> (r: Vec<
    BufferedMessage,
>)
    requires
        from <= to <= messages@.len(),
    ensures
        messages_view(r@) == messages_view(messages@).subrange(from as int, to as int),
{
    let mut r: Vec<BufferedMessage> = Vec::new();
    let mut i: usize = from;
    while i < to
        invariant
            from <= i <= to <= messages@.len(),
            messages_view(r@) =~= messages_view(messages@).subrange(from as int, i as int),
        decreases to - i,
    {
        let ghost before = r@;
        let m = messages[i].duplicate();
        r.push(m);
        assert(r@ =~= before.push(m));
        assert(messages_view(r@) =~= messages_view(before).push(m@));
        i += 1;
    }
    r
}

/// `m` put into `sorted` behind every message that it does not precede.
pub open spec fn insert_in_order(sorted: Seq<MessageView>, m: MessageView) -> Seq<MessageView>
    decreases sorted.len(),
{
    if sorted.len() > 0 && buffer_before(m, sorted.last()) {
        insert_in_order(sorted.drop_last(), m).push(sorted.last())
    } else {
        sorted.push(m)
    }
}

/// The messages in buffer order; messages with the same key and timestamp keep
/// the order they had.
pub open spec fn in_buffer_order(ms: Seq<MessageView>) -> Seq<MessageView>
    decreases ms.len(),
{
    if ms.len() == 0 {
        ms
    } else {
        insert_in_order(in_buffer_order(ms.drop_last()), ms.last())
    }
}

/// No message stands behind one that it precedes.
pub open spec fn is_in_buffer_order(ms: Seq<MessageView>) -> bool {
    forall|i: int, j: int| 0 <= i < j < ms.len() ==> !buffer_before(#[trigger] ms[j], #[trigger] ms[i])
}

pub proof fn buffer_before_transitive(a: MessageView, b: MessageView, c: MessageView)
    ensures
        buffer_before(a, b) && buffer_before(b, c) ==> buffer_before(a, c),
        buffer_before(a, b) && !buffer_before(c, b) ==> buffer_before(a, c),
        buffer_before(a, b) ==> !buffer_before(b, a),
{
    broadcast use bytes::group_lex;

}

proof fn insert_in_order_sorts(sorted: Seq<MessageView>, m: MessageView)
    requires
        is_in_buffer_order(sorted),
    ensures
        is_in_buffer_order(insert_in_order(sorted, m)),
        insert_in_order(sorted, m).len() == sorted.len() + 1,
        forall|x: MessageView| #[trigger]
            insert_in_order(sorted, m).contains(x) <==> sorted.contains(x) || x == m,
        insert_in_order(sorted, m).to_multiset() == sorted.to_multiset().insert(m),
    decreases sorted.len(),
{
    broadcast use vstd::seq_lib::group_to_multiset_ensures;

    let r = insert_in_order(sorted, m);
    if sorted.len() > 0 && buffer_before(m, sorted.last()) {
        let front = sorted.drop_last();
        insert_in_order_sorts(front, m);
        let rf = insert_in_order(front, m);
        assert(sorted =~= front.push(sorted.last()));
        assert forall|i: int, j: int| 0 <= i < j < r.len() implies !buffer_before(
            #[trigger] r[j],
            #[trigger] r[i],
        ) by {
            if j == r.len() - 1 {
                assert(rf.contains(rf[i]));
                if rf[i] == m {
                    buffer_before_transitive(m, sorted.last(), m);
                } else {
                    assert(front.contains(rf[i]));
                    let k = choose|k: int| 0 <= k < front.len() && front[k] == rf[i];
                    assert(sorted[k] == rf[i]);
                    assert(!buffer_before(sorted[sorted.len() - 1], sorted[k]));
                }
            }
        }
        assert forall|x: MessageView| #[trigger] r.contains(x) <==> sorted.contains(x) || x == m by {
            if r.contains(x) {
                let k = choose|k: int| 0 <= k < r.len() && r[k] == x;
                if k < r.len() - 1 {
                    assert(rf[k] == x);
                    assert(rf.contains(x));
                    if x != m {
                        assert(front.contains(x));
                        let q = choose|q: int| 0 <= q < front.len() && front[q] == x;
                        assert(sorted[q] == x);
                    }
                } else {
                    assert(sorted[sorted.len() - 1] == x);
                }
            }
            if sorted.contains(x) {
                let q = choose|q: int| 0 <= q < sorted.len() && sorted[q] == x;
                if q < front.len() {
                    assert(front[q] == x);
                    assert(rf.contains(x));
                    let k = choose|k: int| 0 <= k < rf.len() && rf[k] == x;
                    assert(r[k] == x);
                } else {
                    assert(r[r.len() - 1] == x);
                }
            }
            if x == m {
                assert(rf.contains(x));
                let k = choose|k: int| 0 <= k < rf.len() && rf[k] == x;
                assert(r[k] == x);
            }
        }
        assert(r.to_multiset() =~= sorted.to_multiset().insert(m));
    } else {
        assert forall|i: int, j: int| 0 <= i < j < r.len() implies !buffer_before(
            #[trigger] r[j],
            #[trigger] r[i],
        ) by {
            if j == r.len() - 1 && i < r.len() - 1 {
                if buffer_before(m, sorted[i]) {
                    buffer_before_transitive(m, sorted[i], sorted.last());
                    if i < sorted.len() - 1 {
                        assert(!buffer_before(sorted[sorted.len() - 1], sorted[i]));
                    }
                }
            }
        }
        assert forall|x: MessageView| #[trigger] r.contains(x) <==> sorted.contains(x) || x == m by {
            if sorted.contains(x) {
                let q = choose|q: int| 0 <= q < sorted.len() && sorted[q] == x;
                assert(r[q] == x);
            }
            assert(r[r.len() - 1] == m);
        }
    }
}

/// Sorting a buffer gives the same messages, in buffer order.
pub proof fn in_buffer_order_sorts(ms: Seq<MessageView>)
    ensures
        is_in_buffer_order(in_buffer_order(ms)),
        in_buffer_order(ms).len() == ms.len(),
        forall|x: MessageView| #[trigger] in_buffer_order(ms).contains(x) <==> ms.contains(x),
        in_buffer_order(ms).to_multiset() == ms.to_multiset(),
    decreases ms.len(),
{
    broadcast use vstd::seq_lib::group_to_multiset_ensures;

    if ms.len() > 0 {
        let front = ms.drop_last();
        in_buffer_order_sorts(front);
        insert_in_order_sorts(in_buffer_order(front), ms.last());
        assert(ms =~= front.push(ms.last()));
        assert forall|x: MessageView| #[trigger] in_buffer_order(ms).contains(x) <==> ms.contains(
            x,
        ) by {
            if ms.contains(x) {
                let q = choose|q: int| 0 <= q < ms.len() && ms[q] == x;
                if q < front.len() {
                    assert(front[q] == x);
                }
            }
            if front.contains(x) {
                let q = choose|q: int| 0 <= q < front.len() && front[q] == x;
                assert(ms[q] == x);
            }
            assert(ms[ms.len() - 1] == ms.last());
        }
    }
}

/// Sort messages into buffer order, keeping the order of equal ones.
pub fn sort_buffer_messages(buffer: &mut Vec<BufferedMessage>)
    ensures
        messages_view(final(buffer)@) == in_buffer_order(messages_view(old(buffer)@)),
        is_in_buffer_order(messages_view(final(buffer)@)),
{
    let mut sorted: Vec<BufferedMessage> = Vec::new();
    let ghost all = messages_view(buffer@);
    let mut i: usize = 0;
    while i < buffer.len()
        invariant
            i <= buffer@.len(),
            all == messages_view(buffer@),
            messages_view(sorted@) == in_buffer_order(all.take(i as int)),
        decreases buffer@.len() - i,
    {
        let m = buffer[i].duplicate();
        insert_sorted(&mut sorted, m);
        proof {
            assert(all.take(i + 1).drop_last() =~= all.take(i as int));
            assert(all.take(i + 1).last() == all[i as int]);
        }
        i += 1;
    }
    proof {
        assert(all.take(i as int) =~= all);
        in_buffer_order_sorts(all);
    }
    *buffer = sorted;
}

fn insert_sorted(sorted: &mut Vec<BufferedMessage>, m: BufferedMessage)
    ensures
        messages_view(final(sorted)@) == insert_in_order(messages_view(old(sorted)@), m@),
{
    let ghost before = messages_view(sorted@);
    let ghost mut tail: Seq<MessageView> = Seq::empty();
    let mut pos: usize = sorted.len();
    assert(before.take(pos as int) =~= before);
    while pos > 0 && m.precedes(&sorted[pos - 1])
        invariant
            pos <= sorted@.len(),
            before == messages_view(sorted@),
            tail == before.skip(pos as int),
            insert_in_order(before, m@) == insert_in_order(before.take(pos as int), m@) + tail,
        decreases pos,
    {
        proof {
            let cur = before.take(pos as int);
            assert(cur.last() == sorted@[pos - 1]@);
            assert(cur.drop_last() =~= before.take(pos - 1));
            tail = before.skip(pos - 1);
            assert(insert_in_order(cur, m@) == insert_in_order(before.take(pos - 1), m@).push(
                cur.last(),
            ));
            assert(insert_in_order(before.take(pos - 1), m@).push(cur.last()) + before.skip(
                pos as int,
            ) =~= insert_in_order(before.take(pos - 1), m@) + tail);
        }
        pos -= 1;
    }
    proof {
        let cur = before.take(pos as int);
        if pos > 0 {
            assert(cur.last() == sorted@[pos - 1]@);
        }
        assert(insert_in_order(cur, m@) == cur.push(m@));
    }
    sorted.insert(pos, m);
    assert(messages_view(sorted@) =~= before.take(pos as int).push(m@) + before.skip(pos as int));
}

} // verus!
