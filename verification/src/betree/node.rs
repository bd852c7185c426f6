//! Tree nodes in memory: fences, leaf entries, and how a message changes a leaf
//! or is routed to a child.
use vstd::prelude::*;

use crate::betree::message;
use crate::betree::message::{BufferedMessage, MessageView, VersionRecord, VersionView};
use crate::bytes;

verus! {

/// Why a page could not be read or written.
#[derive(Debug, Clone, Copy, PartialEq, Eq)]
pub enum CowBeTreeError {
    CorruptPage(&'static str),
    EmptyInternalPage,
    PageOverflow { kind: &'static str, needed: usize, capacity: usize },
}

#[derive(Debug, Clone, Copy, PartialEq, Eq, Structural)]
pub enum PageKindDebug {
    Leaf,
    Internal,
}

#[derive(Debug, Clone, Copy, PartialEq, Eq, Structural)]
pub enum PageKind {
    Leaf,
    Internal,
}

pub open spec fn kind_byte(kind: PageKind) -> u8 {
    match kind {
        PageKind::Leaf => 1,
        PageKind::Internal => 2,
    }
}

pub open spec fn kind_of_byte(value: u8) -> Option<PageKind> {
    if value == 1 {
        Some(PageKind::Leaf)
    } else if value == 2 {
        Some(PageKind::Internal)
    } else {
        None
    }
}

pub open spec fn kind_name(kind: PageKind) -> &'static str {
    match kind {
        PageKind::Leaf => "leaf",
        PageKind::Internal => "internal",
    }
}

impl PageKind {
    pub fn from_byte(value: u8) -> (r: Option<Self>)
        ensures
            r == kind_of_byte(value),
    {
        if value == 1 {
            Some(Self::Leaf)
        } else if value == 2 {
            Some(Self::Internal)
        } else {
            None
        }
    }

    pub fn byte(self) -> (r: u8)
        ensures
            r == kind_byte(self),
    {
        match self {
            Self::Leaf => 1,
            Self::Internal => 2,
        }
    }

    pub fn name(self) -> (r: &'static str)
        ensures
            r == kind_name(self),
    {
        match self {
            Self::Leaf => "leaf",
            Self::Internal => "internal",
        }
    }

    pub fn debug(self) -> (r: PageKindDebug)
        ensures
            r == (match self {
                PageKind::Leaf => PageKindDebug::Leaf,
                PageKind::Internal => PageKindDebug::Internal,
            }),
    {
        match self {
            Self::Leaf => PageKindDebug::Leaf,
            Self::Internal => PageKindDebug::Internal,
        }
    }
}

/// The key range `[lower, upper)` that a node is responsible for.
#[derive(Debug, PartialEq, Eq)]
pub struct Fence {
    pub lower: Vec<u8>,
    pub upper: Option<Vec<u8>>,
}

#[verifier::ext_equal]
pub struct FenceView {
    pub lower: Seq<u8>,
    pub upper: Option<Seq<u8>>,
}

impl View for Fence {
    type V = FenceView;

    open spec fn view(&self) -> FenceView {
        FenceView {
            lower: self.lower@,
            upper: match self.upper {
                Some(u) => Some(u@),
                None => None,
            },
        }
    }
}

/// The fence that admits every key.
pub open spec fn root_fence() -> FenceView {
    FenceView { lower: Seq::empty(), upper: None }
}

/// `key` lies in the range of the fence.
pub open spec fn in_fence(fence: FenceView, key: Seq<u8>) -> bool {
    &&& !bytes::lex_lt(key, fence.lower)
    &&& fence.upper matches Some(u) ==> bytes::lex_lt(key, u)
}

fn copy_upper(upper: &Option<Vec<u8>>) -> (r: Option<Vec<u8>>)
    ensures
        (match r {
            Some(u) => Some(u@),
            None => None,
        }) == (match *upper {
            Some(u) => Some(u@),
            None => None,
        }),
{
    match upper {
        Some(u) => Some(bytes::copy_bytes(u.as_slice())),
        None => None,
    }
}

impl Fence {
    pub fn root() -> (r: Self)
        ensures
            r@ == root_fence(),
    {
        Self { lower: Vec::new(), upper: None }
    }

    pub fn left_of(&self, upper: Vec<u8>) -> (r: Self)
        ensures
            r@ == (FenceView { lower: self@.lower, upper: Some(upper@) }),
    {
        Self { lower: bytes::copy_bytes(self.lower.as_slice()), upper: Some(upper) }
    }

    pub fn right_of(&self, lower: Vec<u8>) -> (r: Self)
        ensures
            r@ == (FenceView { lower: lower@, upper: self@.upper }),
    {
        Self { lower, upper: copy_upper(&self.upper) }
    }

    pub fn span(left: &Fence, right: &Fence) -> (r: Self)
        ensures
            r@ == (FenceView { lower: left@.lower, upper: right@.upper }),
    {
        Self { lower: bytes::copy_bytes(left.lower.as_slice()), upper: copy_upper(&right.upper) }
    }

    pub fn duplicate(&self) -> (r: Self)
        ensures
            r@ == self@,
    {
        Self { lower: bytes::copy_bytes(self.lower.as_slice()), upper: copy_upper(&self.upper) }
    }
}

impl Clone for Fence {
    fn clone(&self) -> (r: Self)
        ensures
            r@ == self@,
    {
        self.duplicate()
    }
}

/// A key of a leaf with its retained versions, newest first.
#[derive(Debug, PartialEq, Eq)]
pub struct LeafEntry {
    pub key: Vec<u8>,
    pub versions: Vec<VersionRecord>,
}

#[verifier::ext_equal]
pub struct EntryView {
    pub key: Seq<u8>,
    pub versions: Seq<VersionView>,
}

impl View for LeafEntry {
    type V = EntryView;

    open spec fn view(&self) -> EntryView {
        EntryView { key: self.key@, versions: message::versions_view(self.versions@) }
    }
}

pub open spec fn entries_view(entries: Seq<LeafEntry>) -> Seq<EntryView> {
    Seq::new(entries.len(), |i: int| entries[i]@)
}

pub open spec fn keys_view(keys: Seq<Vec<u8>>) -> Seq<Seq<u8>> {
    Seq::new(keys.len(), |i: int| keys[i]@)
}

/// A decoded page.
#[derive(Debug, PartialEq, Eq)]
pub enum NodePage {
    Leaf { fence: Fence, entries: Vec<LeafEntry> },
    Internal {
        fence: Fence,
        children: Vec<u64>,
        separators: Vec<Vec<u8>>,
        buffer: Vec<BufferedMessage>,
    },
}

#[verifier::ext_equal]
pub enum NodeView {
    Leaf { fence: FenceView, entries: Seq<EntryView> },
    Internal {
        fence: FenceView,
        children: Seq<u64>,
        separators: Seq<Seq<u8>>,
        buffer: Seq<MessageView>,
    },
}

impl View for NodePage {
    type V = NodeView;

    open spec fn view(&self) -> NodeView {
        match self {
            NodePage::Leaf { fence, entries } => NodeView::Leaf {
                fence: fence@,
                entries: entries_view(entries@),
            },
            NodePage::Internal { fence, children, separators, buffer } => NodeView::Internal {
                fence: fence@,
                children: children@,
                separators: keys_view(separators@),
                buffer: message::messages_view(buffer@),
            },
        }
    }
}

impl NodePage {
    pub fn kind(&self) -> (r: PageKind)
        ensures
            r == (match self@ {
                NodeView::Leaf { .. } => PageKind::Leaf,
                NodeView::Internal { .. } => PageKind::Internal,
            }),
    {
        match self {
            Self::Leaf { .. } => PageKind::Leaf,
            Self::Internal { .. } => PageKind::Internal,
        }
    }
}

/// The keys of the entries are strictly ascending.
pub open spec fn sorted_entries(entries: Seq<EntryView>) -> bool {
    forall|i: int, j: int|
        #![trigger entries[i], entries[j]]
        0 <= i < j < entries.len() ==> bytes::lex_lt(entries[i].key, entries[j].key)
}

/// The separators are strictly ascending.
pub open spec fn sorted_keys(keys: Seq<Seq<u8>>) -> bool {
    forall|i: int, j: int|
        #![trigger keys[i], keys[j]]
        0 <= i < j < keys.len() ==> bytes::lex_lt(keys[i], keys[j])
}

/// The versions are strictly newest first.
pub open spec fn sorted_versions(versions: Seq<VersionView>) -> bool {
    forall|i: int, j: int|
        #![trigger versions[i], versions[j]]
        0 <= i < j < versions.len() ==> versions[i].commit_ts > versions[j].commit_ts
}

/// The versions that were not committed at `ts`.
pub open spec fn without_ts(versions: Seq<VersionView>, ts: u64) -> Seq<VersionView> {
    versions.filter(|v: VersionView| v.commit_ts != ts)
}

/// How many versions at the front were committed after `ts`.
pub open spec fn newer_prefix(versions: Seq<VersionView>, ts: u64) -> nat
    decreases versions.len(),
{
    if versions.len() == 0 || versions[0].commit_ts <= ts {
        0
    } else {
        1 + newer_prefix(versions.skip(1), ts)
    }
}

/// The versions with `v` put in its place; a version of the same timestamp
/// gives way.
pub open spec fn with_version(versions: Seq<VersionView>, v: VersionView) -> Seq<VersionView> {
    let kept = without_ts(versions, v.commit_ts);
    kept.insert(newer_prefix(kept, v.commit_ts) as int, v)
}

proof fn lemma_newer_prefix(versions: Seq<VersionView>, ts: u64)
    ensures
        newer_prefix(versions, ts) <= versions.len(),
        forall|i: int| 0 <= i < newer_prefix(versions, ts) ==> versions[i].commit_ts > ts,
        newer_prefix(versions, ts) < versions.len() ==> versions[newer_prefix(
            versions,
            ts,
        ) as int].commit_ts <= ts,
    decreases versions.len(),
{
    if versions.len() > 0 && versions[0].commit_ts > ts {
        let rest = versions.skip(1);
        lemma_newer_prefix(rest, ts);
        assert forall|i: int| 0 <= i < newer_prefix(versions, ts) implies versions[i].commit_ts
            > ts by {
            if i > 0 {
                assert(rest[i - 1] == versions[i]);
            }
        }
    }
}

proof fn lemma_without_ts(versions: Seq<VersionView>, ts: u64)
    ensures
        forall|v: VersionView| #[trigger]
            without_ts(versions, ts).contains(v) <==> versions.contains(v) && v.commit_ts != ts,
        sorted_versions(versions) ==> sorted_versions(without_ts(versions, ts)),
        without_ts(versions, ts).len() <= versions.len(),
    decreases versions.len(),
{
    reveal(Seq::filter);
    let pred = |v: VersionView| v.commit_ts != ts;
    let r = without_ts(versions, ts);
    if versions.len() > 0 {
        let front = versions.drop_last();
        lemma_without_ts(front, ts);
        let rf = without_ts(front, ts);
        assert(r == if pred(versions.last()) { rf.push(versions.last()) } else { rf });
        assert forall|v: VersionView| #[trigger]
            r.contains(v) <==> versions.contains(v) && v.commit_ts != ts by {
            if r.contains(v) {
                let k = choose|k: int| 0 <= k < r.len() && r[k] == v;
                if k < rf.len() {
                    assert(rf[k] == v);
                    assert(rf.contains(v));
                    let q = choose|q: int| 0 <= q < front.len() && front[q] == v;
                    assert(versions[q] == v);
                } else {
                    assert(versions[versions.len() - 1] == v);
                }
            }
            if versions.contains(v) && v.commit_ts != ts {
                let q = choose|q: int| 0 <= q < versions.len() && versions[q] == v;
                if q < front.len() {
                    assert(front[q] == v);
                    assert(rf.contains(v));
                    let k = choose|k: int| 0 <= k < rf.len() && rf[k] == v;
                    assert(r[k] == v);
                } else {
                    assert(r[rf.len() as int] == v);
                }
            }
        }
        if sorted_versions(versions) {
            assert(sorted_versions(front)) by {
                assert forall|i: int, j: int|
                    #![trigger front[i], front[j]]
                    0 <= i < j < front.len() implies front[i].commit_ts > front[j].commit_ts by {
                    assert(versions[i].commit_ts > versions[j].commit_ts);
                }
            }
            assert forall|i: int, j: int|
                #![trigger r[i], r[j]]
                0 <= i < j < r.len() implies r[i].commit_ts > r[j].commit_ts by {
                if j < rf.len() {
                    assert(rf[i].commit_ts > rf[j].commit_ts);
                } else {
                    assert(rf[i] == r[i]);
                    assert(rf.contains(rf[i]));
                    let q = choose|q: int| 0 <= q < front.len() && front[q] == rf[i];
                    assert(versions[q].commit_ts > versions[versions.len() - 1].commit_ts);
                }
            }
        }
    } else {
        assert(r =~= Seq::<VersionView>::empty());
    }
}

/// Putting a version in: the result holds `v` and, of the old versions, exactly
/// those of another timestamp; and newest-first order is kept.
pub proof fn with_version_contains(versions: Seq<VersionView>, v: VersionView)
    ensures
        forall|x: VersionView| #[trigger]
            with_version(versions, v).contains(x) <==> x == v || (versions.contains(x)
                && x.commit_ts != v.commit_ts),
        sorted_versions(versions) ==> sorted_versions(with_version(versions, v)),
{
    let kept = without_ts(versions, v.commit_ts);
    let p = newer_prefix(kept, v.commit_ts) as int;
    let r = with_version(versions, v);
    lemma_without_ts(versions, v.commit_ts);
    lemma_newer_prefix(kept, v.commit_ts);
    assert forall|x: VersionView| #[trigger]
        r.contains(x) <==> x == v || (versions.contains(x) && x.commit_ts != v.commit_ts) by {
        if r.contains(x) {
            let k = choose|k: int| 0 <= k < r.len() && r[k] == x;
            if k < p {
                assert(kept[k] == x);
                assert(kept.contains(x));
            } else if k > p {
                assert(kept[k - 1] == x);
                assert(kept.contains(x));
            }
        }
        if x == v {
            assert(r[p] == x);
        }
        if versions.contains(x) && x.commit_ts != v.commit_ts {
            assert(kept.contains(x));
            let k = choose|k: int| 0 <= k < kept.len() && kept[k] == x;
            if k < p {
                assert(r[k] == x);
            } else {
                assert(r[k + 1] == x);
            }
        }
    }
    if sorted_versions(versions) {
        assert forall|i: int, j: int|
            #![trigger r[i], r[j]]
            0 <= i < j < r.len() implies r[i].commit_ts > r[j].commit_ts by {
            let oi = if i < p { i } else { i - 1 };
            let oj = if j < p { j } else { j - 1 };
            if i != p && j != p {
                assert(kept[oi].commit_ts > kept[oj].commit_ts);
            } else if i == p {
                assert(r[j] == kept[j - 1]);
                assert(kept.contains(kept[j - 1]));
                if j - 1 > p {
                    assert(kept[p].commit_ts > kept[j - 1].commit_ts);
                }
            } else {
                assert(r[i] == kept[i]);
            }
        }
    }
}

/// Drop the versions committed at `ts`, keeping the order of the others.
fn drop_version_at(versions: &mut Vec<VersionRecord>, ts: u64)
    ensures
        message::versions_view(final(versions)@) == without_ts(
            message::versions_view(old(versions)@),
            ts,
        ),
{
    let ghost all = message::versions_view(versions@);
    let ghost pred = |v: VersionView| v.commit_ts != ts;
    let ghost mut seen: int = 0;
    let mut i: usize = 0;
    proof {
        reveal(Seq::filter);
        assert(all.take(0).filter(pred) =~= Seq::empty());
    }
    while i < versions.len()
        invariant
            0 <= seen <= all.len(),
            i <= versions@.len(),
            versions@.len() - i == all.len() - seen,
            pred == (|v: VersionView| v.commit_ts != ts),
            message::versions_view(versions@).take(i as int) =~= all.take(seen).filter(pred),
            forall|k: int|
                i <= k < versions@.len() ==> (#[trigger] versions@[k])@ == all[seen + k - i],
        decreases versions@.len() - i,
    {
        let ghost cur = versions@;
        proof {
            reveal(Seq::filter);
            assert(all.take(seen + 1).drop_last() =~= all.take(seen));
            assert(all.take(seen + 1).last() == all[seen]);
            assert(cur[i as int]@ == all[seen]);
        }
        if versions[i].commit_ts == ts {
            let _dropped = versions.remove(i);
            proof {
                assert(message::versions_view(versions@).take(i as int) =~= message::versions_view(
                    cur,
                ).take(i as int));
                assert forall|k: int| i <= k < versions@.len() implies (
                #[trigger] versions@[k])@ == all[seen + 1 + k - i] by {
                    assert(versions@[k] == cur[k + 1]);
                }
            }
        } else {
            proof {
                assert(message::versions_view(versions@).take(i + 1) =~= message::versions_view(
                    cur,
                ).take(i as int).push(all[seen]));
            }
            i += 1;
        }
        proof {
            seen = seen + 1;
        }
    }
    proof {
        assert(all.take(seen) =~= all);
        assert(message::versions_view(versions@).take(i as int) =~= message::versions_view(
            versions@,
        ));
    }
}

/// Put `version` in its place among `versions`.
pub fn insert_version(versions: &mut Vec<VersionRecord>, version: VersionRecord)
    ensures
        message::versions_view(final(versions)@) == with_version(
            message::versions_view(old(versions)@),
            version@,
        ),
{
    drop_version_at(versions, version.commit_ts);
    let ghost kept = message::versions_view(versions@);
    let mut pos: usize = 0;
    assert(kept.skip(0) =~= kept);
    while pos < versions.len() && versions[pos].commit_ts > version.commit_ts
        invariant
            pos <= versions@.len(),
            kept == message::versions_view(versions@),
            newer_prefix(kept, version.commit_ts) == pos + newer_prefix(
                kept.skip(pos as int),
                version.commit_ts,
            ),
        decreases versions@.len() - pos,
    {
        proof {
            assert(kept.skip(pos as int)[0] == versions@[pos as int]@);
            assert(kept.skip(pos as int).skip(1) =~= kept.skip(pos + 1));
        }
        pos += 1;
    }
    proof {
        if pos < versions@.len() {
            assert(kept.skip(pos as int)[0] == versions@[pos as int]@);
        }
    }
    versions.insert(pos, version);
    assert(message::versions_view(versions@) =~= kept.insert(pos as int, version@));
}

impl LeafEntry {
    pub fn insert_version(&mut self, version: VersionRecord)
        ensures
            final(self)@ == (EntryView {
                key: old(self)@.key,
                versions: with_version(old(self)@.versions, version@),
            }),
    {
        insert_version(&mut self.versions, version);
    }

    pub fn duplicate(&self) -> (r: Self)
        ensures
            r@ == self@,
    {
        LeafEntry {
            key: bytes::copy_bytes(self.key.as_slice()),
            versions: copy_versions(self.versions.as_slice()),
        }
    }
}

impl Clone for LeafEntry {
    fn clone(&self) -> (r: Self)
        ensures
            r@ == self@,
    {
        self.duplicate()
    }
}

/// Copies of a list of versions.
pub fn copy_versions(versions: &[VersionRecord]) -> (r: Vec<VersionRecord>)
    ensures
        message::versions_view(r@) == message::versions_view(versions@),
{
    let mut r: Vec<VersionRecord> = Vec::new();
    let mut i: usize = 0;
    while i < versions.len()
        invariant
            i <= versions@.len(),
            message::versions_view(r@) =~= message::versions_view(versions@).take(i as int),
        decreases versions@.len() - i,
    {
        let ghost before = r@;
        let v = versions[i].duplicate();
        r.push(v);
        assert(message::versions_view(r@) =~= message::versions_view(before).push(v@));
        i += 1;
    }
    r
}

/// Copies of the entries from `from` on, up to `to`.
pub fn copy_entries(entries: &[LeafEntry], from: usize, to: usize) -> (r: Vec<LeafEntry>)
    requires
        from <= to <= entries@.len(),
    ensures
        entries_view(r@) == entries_view(entries@).subrange(from as int, to as int),
{
    let mut r: Vec<LeafEntry> = Vec::new();
    let mut i: usize = from;
    while i < to
        invariant
            from <= i <= to <= entries@.len(),
            entries_view(r@) =~= entries_view(entries@).subrange(from as int, i as int),
        decreases to - i,
    {
        let ghost before = r@;
        let e = entries[i].duplicate();
        r.push(e);
        assert(entries_view(r@) =~= entries_view(before).push(e@));
        i += 1;
    }
    r
}

/// Copies of the keys from `from` on, up to `to`.
pub fn copy_keys(keys: &[Vec<u8>], from: usize, to: usize) -> (r: Vec<Vec<u8>>)
    requires
        from <= to <= keys@.len(),
    ensures
        keys_view(r@) == keys_view(keys@).subrange(from as int, to as int),
{
    let mut r: Vec<Vec<u8>> = Vec::new();
    let mut i: usize = from;
    while i < to
        invariant
            from <= i <= to <= keys@.len(),
            keys_view(r@) =~= keys_view(keys@).subrange(from as int, i as int),
        decreases to - i,
    {
        let ghost before = r@;
        let k = bytes::copy_bytes(keys[i].as_slice());
        r.push(k);
        assert(keys_view(r@) =~= keys_view(before).push(k@));
        i += 1;
    }
    r
}

/// How many entries at the front have a key below `key`.
pub open spec fn lower_bound(entries: Seq<EntryView>, key: Seq<u8>) -> nat
    decreases entries.len(),
{
    if entries.len() == 0 || !bytes::lex_lt(entries[0].key, key) {
        0
    } else {
        1 + lower_bound(entries.skip(1), key)
    }
}

/// In sorted entries the keys below `key` are those before its lower bound.
pub proof fn lower_bound_splits(entries: Seq<EntryView>, key: Seq<u8>)
    ensures
        lower_bound(entries, key) <= entries.len(),
        forall|i: int|
            0 <= i < lower_bound(entries, key) ==> bytes::lex_lt(#[trigger] entries[i].key, key),
        lower_bound(entries, key) < entries.len() ==> !bytes::lex_lt(
            entries[lower_bound(entries, key) as int].key,
            key,
        ),
        sorted_entries(entries) ==> forall|i: int|
            lower_bound(entries, key) <= i < entries.len() ==> !bytes::lex_lt(
                #[trigger] entries[i].key,
                key,
            ),
    decreases entries.len(),
{
    broadcast use bytes::group_lex;

    if entries.len() > 0 && bytes::lex_lt(entries[0].key, key) {
        let rest = entries.skip(1);
        lower_bound_splits(rest, key);
        assert forall|i: int| 0 <= i < lower_bound(entries, key) implies bytes::lex_lt(
            #[trigger] entries[i].key,
            key,
        ) by {
            if i > 0 {
                assert(rest[i - 1] == entries[i]);
            }
        }
        if sorted_entries(entries) {
            assert forall|i: int, j: int|
                #![trigger rest[i], rest[j]]
                0 <= i < j < rest.len() implies bytes::lex_lt(rest[i].key, rest[j].key) by {
                assert(bytes::lex_lt(entries[i + 1].key, entries[j + 1].key));
            }
            assert forall|i: int|
                lower_bound(entries, key) <= i < entries.len() implies !bytes::lex_lt(
                #[trigger] entries[i].key,
                key,
            ) by {
                assert(rest[i - 1] == entries[i]);
            }
        }
    } else if entries.len() > 0 && sorted_entries(entries) {
        assert forall|i: int|
            lower_bound(entries, key) <= i < entries.len() implies !bytes::lex_lt(
            #[trigger] entries[i].key,
            key,
        ) by {
            if i > 0 {
                assert(bytes::lex_lt(entries[0].key, entries[i].key));
            }
        }
    }
}

/// A position that splits the entries at `key` is the lower bound.
pub proof fn lower_bound_is(entries: Seq<EntryView>, key: Seq<u8>, pos: int)
    requires
        0 <= pos <= entries.len(),
        forall|i: int| 0 <= i < pos ==> bytes::lex_lt(#[trigger] entries[i].key, key),
        pos < entries.len() ==> !bytes::lex_lt(entries[pos].key, key),
    ensures
        lower_bound(entries, key) == pos,
{
    lower_bound_splits(entries, key);
    let lb = lower_bound(entries, key) as int;
    if lb < pos {
        assert(bytes::lex_lt(entries[lb].key, key));
    } else if pos < lb {
        assert(bytes::lex_lt(entries[pos].key, key));
    }
}

/// The position of the first entry whose key is not below `key`.
pub fn lower_bound_entries(entries: &[LeafEntry], key: &[u8]) -> (r: usize)
    requires
        sorted_entries(entries_view(entries@)),
    ensures
        r == lower_bound(entries_view(entries@), key@),
        r <= entries@.len(),
{
    let ghost es = entries_view(entries@);
    let mut low: usize = 0;
    let mut high: usize = entries.len();
    while low < high
        invariant
            0 <= low <= high <= entries@.len(),
            es == entries_view(entries@),
            sorted_entries(es),
            forall|i: int| 0 <= i < low ==> bytes::lex_lt(#[trigger] es[i].key, key@),
            forall|i: int|
                high <= i < entries@.len() ==> !bytes::lex_lt(#[trigger] es[i].key, key@),
        decreases high - low,
    {
        let mid: usize = low + (high - low) / 2;
        let below = bytes::key_less(entries[mid].key.as_slice(), key);
        assert(es[mid as int].key == entries@[mid as int].key@);
        if below {
            assert forall|i: int| 0 <= i < mid + 1 implies bytes::lex_lt(
                #[trigger] es[i].key,
                key@,
            ) by {
                if i < mid {
                    bytes::lex_lt_transitive(es[i].key, es[mid as int].key, key@);
                }
            }
            low = mid + 1;
        } else {
            assert forall|i: int| mid <= i < entries@.len() implies !bytes::lex_lt(
                #[trigger] es[i].key,
                key@,
            ) by {
                if i > mid && bytes::lex_lt(es[i].key, key@) {
                    bytes::lex_lt_transitive(es[mid as int].key, es[i].key, key@);
                }
            }
            high = mid;
        }
    }
    proof {
        lower_bound_is(es, key@, low as int);
    }
    low
}

/// A leaf's entries after `m` was applied to them.
pub open spec fn apply_message(entries: Seq<EntryView>, m: MessageView) -> Seq<EntryView> {
    let p = lower_bound(entries, m.key) as int;
    if p < entries.len() && entries[p].key == m.key {
        entries.update(
            p,
            EntryView { key: m.key, versions: with_version(entries[p].versions, m.version) },
        )
    } else {
        entries.insert(p, EntryView { key: m.key, versions: seq![m.version] })
    }
}

/// A leaf's entries after the messages were applied in turn.
pub open spec fn apply_messages(entries: Seq<EntryView>, ms: Seq<MessageView>) -> Seq<EntryView>
    decreases ms.len(),
{
    if ms.len() == 0 {
        entries
    } else {
        apply_message(apply_messages(entries, ms.drop_last()), ms.last())
    }
}

/// `v` is a retained version of `key` in the entries.
pub open spec fn entries_have(entries: Seq<EntryView>, key: Seq<u8>, v: VersionView) -> bool {
    exists|i: int|
        #![trigger entries[i]]
        0 <= i < entries.len() && entries[i].key == key && entries[i].versions.contains(v)
}

/// Every entry's versions are newest first.
pub open spec fn entries_newest_first(entries: Seq<EntryView>) -> bool {
    forall|i: int| 0 <= i < entries.len() ==> sorted_versions((#[trigger] entries[i]).versions)
}

/// Applying a message keeps leaf order and newest-first order, and adds the
/// message's version in place of one with the same key and timestamp.
pub proof fn apply_message_keeps_order(entries: Seq<EntryView>, m: MessageView)
    requires
        sorted_entries(entries),
    ensures
        sorted_entries(apply_message(entries, m)),
        entries_newest_first(entries) ==> entries_newest_first(apply_message(entries, m)),
        forall|key: Seq<u8>, v: VersionView| #[trigger]
            entries_have(apply_message(entries, m), key, v) <==> (key == m.key && v == m.version)
                || (entries_have(entries, key, v) && !(key == m.key && v.commit_ts
                == m.version.commit_ts)),
        forall|i: int|
            0 <= i < apply_message(entries, m).len() ==> (#[trigger] apply_message(
                entries,
                m,
            )[i]).key == m.key || exists|j: int|
                0 <= j < entries.len() && entries[j].key == apply_message(entries, m)[i].key,
{
    broadcast use bytes::group_lex;

    let p = lower_bound(entries, m.key) as int;
    let r = apply_message(entries, m);
    lower_bound_splits(entries, m.key);
    let hit = p < entries.len() && entries[p].key == m.key;
    let old_versions = if hit {
        entries[p].versions
    } else {
        Seq::empty()
    };
    if hit {
        with_version_contains(entries[p].versions, m.version);
    }
    assert forall|i: int, j: int|
        #![trigger r[i], r[j]]
        0 <= i < j < r.len() implies bytes::lex_lt(r[i].key, r[j].key) by {
        if hit {
            assert(r[i].key == entries[i].key && r[j].key == entries[j].key);
        } else {
            if i < p && j < p {
                assert(bytes::lex_lt(entries[i].key, entries[j].key));
            } else if i < p && j > p {
                assert(bytes::lex_lt(entries[i].key, entries[j - 1].key));
            } else if i > p {
                assert(bytes::lex_lt(entries[i - 1].key, entries[j - 1].key));
            } else if j == p {
                assert(bytes::lex_lt(entries[i].key, m.key));
            } else {
                assert(!bytes::lex_lt(entries[j - 1].key, m.key));
                if entries[j - 1].key == m.key {
                    if j - 1 > p {
                        assert(bytes::lex_lt(entries[p].key, entries[j - 1].key));
                        assert(!bytes::lex_lt(entries[p].key, m.key));
                    }
                }
            }
        }
    }
    if entries_newest_first(entries) {
        assert forall|i: int| 0 <= i < r.len() implies sorted_versions(
            (#[trigger] r[i]).versions,
        ) by {
            if hit {
                assert(sorted_versions(entries[i].versions));
            } else if i < p {
                assert(sorted_versions(entries[i].versions));
            } else if i > p {
                assert(sorted_versions(entries[i - 1].versions));
            }
        }
    }
    assert forall|key: Seq<u8>, v: VersionView| #[trigger]
        entries_have(r, key, v) <==> (key == m.key && v == m.version) || (entries_have(
            entries,
            key,
            v,
        ) && !(key == m.key && v.commit_ts == m.version.commit_ts)) by {
        if entries_have(r, key, v) {
            let i = choose|i: int|
                #![trigger r[i]]
                0 <= i < r.len() && r[i].key == key && r[i].versions.contains(v);
            if hit {
                if i == p {
                    assert(v == m.version || (entries[p].versions.contains(v) && v.commit_ts
                        != m.version.commit_ts));
                } else {
                    assert(r[i] == entries[i]);
                    if key == m.key {
                        if i < p {
                            assert(bytes::lex_lt(entries[i].key, entries[p].key));
                        } else {
                            assert(bytes::lex_lt(entries[p].key, entries[i].key));
                        }
                    }
                }
            } else {
                if i == p {
                    assert(seq![m.version].contains(v));
                } else {
                    let q = if i < p { i } else { i - 1 };
                    assert(r[i] == entries[q]);
                    if key == m.key {
                        if q > p {
                            assert(bytes::lex_lt(entries[p].key, entries[q].key));
                        }
                    }
                }
            }
        }
        if key == m.key && v == m.version {
            assert(r[p].key == key);
            if !hit {
                assert(seq![m.version][0] == v);
                assert(r[p].versions.contains(v));
            } else {
                assert(with_version(entries[p].versions, m.version).contains(v));
            }
        }
        if entries_have(entries, key, v) && !(key == m.key && v.commit_ts == m.version.commit_ts) {
            let i = choose|i: int|
                #![trigger entries[i]]
                0 <= i < entries.len() && entries[i].key == key && entries[i].versions.contains(v);
            if hit {
                if i == p {
                    assert(with_version(entries[p].versions, m.version).contains(v));
                    assert(r[p].versions.contains(v));
                } else {
                    assert(r[i] == entries[i]);
                }
            } else {
                if i < p {
                    assert(r[i] == entries[i]);
                } else {
                    assert(r[i + 1] == entries[i]);
                }
            }
        }
    }
    assert forall|i: int| 0 <= i < r.len() implies (#[trigger] r[i]).key == m.key || exists|
        j: int,
    | 0 <= j < entries.len() && entries[j].key == r[i].key by {
        if hit {
            assert(entries[i].key == r[i].key);
        } else if i < p {
            assert(entries[i].key == r[i].key);
        } else if i > p {
            assert(entries[i - 1].key == r[i].key);
        }
    }
}

/// Apply a message to a leaf's entries.
pub fn apply_message_to_entries(entries: &mut Vec<LeafEntry>, m: &BufferedMessage)
    requires
        sorted_entries(entries_view(old(entries)@)),
    ensures
        entries_view(final(entries)@) == apply_message(entries_view(old(entries)@), m@),
        sorted_entries(entries_view(final(entries)@)),
{
    let ghost es = entries_view(entries@);
    proof {
        apply_message_keeps_order(es, m@);
    }
    let pos: usize = lower_bound_entries(entries.as_slice(), m.key.as_slice());
    if pos < entries.len() && bytes::keys_equal(
        entries[pos].key.as_slice(),
        m.key.as_slice(),
    ) {
        let mut entry = entries.remove(pos);
        assert(entry@ == es[pos as int]);
        entry.insert_version(m.version.duplicate());
        entries.insert(pos, entry);
        assert(entries_view(entries@) =~= es.update(pos as int, entry@));
        return;
    }
    let mut versions: Vec<VersionRecord> = Vec::new();
    let v = m.version.duplicate();
    versions.push(v);
    let entry = LeafEntry { key: bytes::copy_bytes(m.key.as_slice()), versions };
    assert(entry@.versions =~= seq![m@.version]);
    entries.insert(pos, entry);
    assert(entries_view(entries@) =~= es.insert(pos as int, entry@));
}

/// The child that `key` belongs to: one more than the separators at the front
/// that are not above it.
pub open spec fn route(separators: Seq<Seq<u8>>, key: Seq<u8>) -> nat
    decreases separators.len(),
{
    if separators.len() == 0 || bytes::lex_lt(key, separators[0]) {
        0
    } else {
        1 + route(separators.skip(1), key)
    }
}

/// Routing places `key` between the separators around its child.
pub proof fn route_splits(separators: Seq<Seq<u8>>, key: Seq<u8>)
    ensures
        route(separators, key) <= separators.len(),
        forall|i: int|
            0 <= i < route(separators, key) ==> !bytes::lex_lt(key, #[trigger] separators[i]),
        route(separators, key) < separators.len() ==> bytes::lex_lt(
            key,
            separators[route(separators, key) as int],
        ),
        sorted_keys(separators) ==> forall|i: int|
            route(separators, key) <= i < separators.len() ==> bytes::lex_lt(
                key,
                #[trigger] separators[i],
            ),
    decreases separators.len(),
{
    broadcast use bytes::group_lex;

    if separators.len() > 0 && !bytes::lex_lt(key, separators[0]) {
        let rest = separators.skip(1);
        route_splits(rest, key);
        assert forall|i: int| 0 <= i < route(separators, key) implies !bytes::lex_lt(
            key,
            #[trigger] separators[i],
        ) by {
            if i > 0 {
                assert(rest[i - 1] == separators[i]);
            }
        }
        if sorted_keys(separators) {
            assert forall|i: int, j: int|
                #![trigger rest[i], rest[j]]
                0 <= i < j < rest.len() implies bytes::lex_lt(rest[i], rest[j]) by {
                assert(bytes::lex_lt(separators[i + 1], separators[j + 1]));
            }
            assert forall|i: int|
                route(separators, key) <= i < separators.len() implies bytes::lex_lt(
                key,
                #[trigger] separators[i],
            ) by {
                assert(rest[i - 1] == separators[i]);
            }
        }
    } else if separators.len() > 0 && sorted_keys(separators) {
        assert forall|i: int| route(separators, key) <= i < separators.len() implies bytes::lex_lt(
            key,
            #[trigger] separators[i],
        ) by {
            if i > 0 {
                assert(bytes::lex_lt(separators[0], separators[i]));
            }
        }
    }
}

/// A position that splits the separators at `key` is where `key` is routed.
pub proof fn route_is(separators: Seq<Seq<u8>>, key: Seq<u8>, pos: int)
    requires
        0 <= pos <= separators.len(),
        forall|i: int| 0 <= i < pos ==> !bytes::lex_lt(key, #[trigger] separators[i]),
        pos < separators.len() ==> bytes::lex_lt(key, separators[pos]),
    ensures
        route(separators, key) == pos,
{
    route_splits(separators, key);
    let r = route(separators, key) as int;
    if r < pos {
        assert(!bytes::lex_lt(key, separators[r]));
    } else if pos < r {
        assert(!bytes::lex_lt(key, separators[pos]));
    }
}

/// The child that `key` belongs to.
pub fn route_child(separators: &[Vec<u8>], key: &[u8]) -> (r: usize)
    ensures
        r == route(keys_view(separators@), key@),
        r <= separators@.len(),
{
    let ghost ss = keys_view(separators@);
    let mut pos: usize = 0;
    while pos < separators.len() && !bytes::key_less(key, separators[pos].as_slice())
        invariant
            pos <= separators@.len(),
            ss == keys_view(separators@),
            forall|i: int| 0 <= i < pos ==> !bytes::lex_lt(key@, #[trigger] ss[i]),
        decreases separators@.len() - pos,
    {
        pos += 1;
    }
    proof {
        route_is(ss, key@, pos as int);
    }
    pos
}

/// Bytes that the messages take up in a node buffer.
pub fn buffer_encoded_len(buffer: &[BufferedMessage]) -> (r: usize)
    ensures
        r == message::clamp_usize(message::messages_len(message::messages_view(buffer@))),
{
    let ghost ms = message::messages_view(buffer@);
    let mut total: usize = 0;
    let mut i: usize = 0;
    while i < buffer.len()
        invariant
            i <= buffer@.len(),
            ms == message::messages_view(buffer@),
            total == message::clamp_usize(message::messages_len(ms.take(i as int))),
            message::messages_len(ms.take(i as int)) >= 0,
        decreases buffer@.len() - i,
    {
        proof {
            assert(ms.take(i + 1).drop_last() =~= ms.take(i as int));
            assert(ms.take(i + 1).last() == ms[i as int]);
        }
        total = total.saturating_add(buffer[i].encoded_len());
        i += 1;
    }
    assert(ms.take(i as int) =~= ms);
    total
}

} // verus!
