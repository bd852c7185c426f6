//! Reclaiming versions that no reader at or above a watermark can see.
use vstd::prelude::*;

use crate::betree::flush;
use crate::betree::leaf_work;
use crate::betree::leaf_work::Rewrite;
use crate::betree::message;
use crate::betree::message::{MessageView, VersionRecord, VersionView};
use crate::betree::node;
use crate::betree::node::{EntryView, FenceView, LeafEntry};
use crate::betree::pool;
use crate::betree::pool::PoolView;
use crate::betree::rewrite;
use crate::betree::shape;
use crate::betree::shape::TreeView;
use crate::betree::work;
use crate::bytes;

verus! {

// ---------------------------------------------------------------------------
// What a reader can still need.

/// The records that a reader at or above the watermark can see: those above it,
/// and of every key the newest at or below it.
pub open spec fn needed(recs: Set<MessageView>, watermark: u64) -> Set<MessageView> {
    Set::new(
        |m: MessageView|
            recs.contains(m) && (m.version.commit_ts > watermark || forall|x: MessageView| #[trigger]
                recs.contains(x) && x.key == m.key && x.version.commit_ts <= watermark
                    ==> x.version.commit_ts <= m.version.commit_ts),
    )
}

/// `n` is what is left of `o`: nothing new, and all that is needed, up to records
/// with the same key and timestamp.
pub open spec fn keeps_needed(
    n: Set<MessageView>,
    o: Set<MessageView>,
    watermark: u64,
) -> bool {
    &&& forall|m: MessageView| #[trigger] n.contains(m) ==> o.contains(m)
    &&& forall|m: MessageView| #[trigger]
        needed(o, watermark).contains(m) ==> shape::has_slot(n, m.key, m.version.commit_ts)
}

pub proof fn keeps_needed_same(s: Set<MessageView>, watermark: u64)
    ensures
        keeps_needed(s, s, watermark),
{
}

pub proof fn keeps_needed_trans(
    a: Set<MessageView>,
    b: Set<MessageView>,
    c: Set<MessageView>,
    watermark: u64,
)
    requires
        keeps_needed(a, b, watermark),
        keeps_needed(b, c, watermark),
    ensures
        keeps_needed(a, c, watermark),
{
    assert forall|m: MessageView| #[trigger]
        needed(c, watermark).contains(m) implies shape::has_slot(
        a,
        m.key,
        m.version.commit_ts,
    ) by {
        let x = choose|x: MessageView| #[trigger]
            b.contains(x) && x.key == m.key && x.version.commit_ts == m.version.commit_ts;
        assert(needed(b, watermark).contains(x));
    }
}

/// Dropping one of several records with the same key and timestamp loses nothing
/// that is needed.
pub proof fn refine_keeps_needed(
    n: Set<MessageView>,
    m: Set<MessageView>,
    o: Set<MessageView>,
    watermark: u64,
)
    requires
        shape::refine(n, m),
        keeps_needed(m, o, watermark),
    ensures
        keeps_needed(n, o, watermark),
{
    assert forall|r: MessageView| #[trigger]
        needed(o, watermark).contains(r) implies shape::has_slot(
        n,
        r.key,
        r.version.commit_ts,
    ) by {
        let x = choose|x: MessageView| #[trigger]
            m.contains(x) && x.key == r.key && x.version.commit_ts == r.version.commit_ts;
        assert(shape::has_slot(n, x.key, x.version.commit_ts));
    }
}

pub proof fn keeps_needed_union(
    n1: Set<MessageView>,
    o1: Set<MessageView>,
    others: Set<MessageView>,
    watermark: u64,
)
    requires
        keeps_needed(n1, o1, watermark),
    ensures
        keeps_needed(n1.union(others), o1.union(others), watermark),
{
    let n = n1.union(others);
    let o = o1.union(others);
    assert forall|m: MessageView| #[trigger]
        needed(o, watermark).contains(m) implies shape::has_slot(
        n,
        m.key,
        m.version.commit_ts,
    ) by {
        if others.contains(m) {
            assert(n.contains(m));
        } else {
            assert(needed(o1, watermark).contains(m)) by {
                assert forall|x: MessageView| #[trigger]
                    o1.contains(x) && x.key == m.key && x.version.commit_ts
                        <= watermark && m.version.commit_ts <= watermark implies
                    x.version.commit_ts <= m.version.commit_ts by {
                    assert(o.contains(x));
                }
            }
            let x = choose|x: MessageView| #[trigger]
                n1.contains(x) && x.key == m.key && x.version.commit_ts == m.version.commit_ts;
            assert(n.contains(x));
        }
    }
}

/// What is needed of records that stand for others is needed of those.
pub proof fn needed_of_refined(n: Set<MessageView>, o: Set<MessageView>, watermark: u64)
    requires
        shape::refine(n, o),
    ensures
        needed(n, watermark).subset_of(needed(o, watermark)),
{
    assert forall|m: MessageView| #[trigger] needed(n, watermark).contains(m) implies needed(
        o,
        watermark,
    ).contains(m) by {
        assert forall|x: MessageView| #[trigger]
            o.contains(x) && x.key == m.key && x.version.commit_ts <= watermark
                && m.version.commit_ts <= watermark implies x.version.commit_ts
            <= m.version.commit_ts by {
            let y = choose|y: MessageView| #[trigger]
                n.contains(y) && y.key == x.key && y.version.commit_ts == x.version.commit_ts;
            assert(shape::has_slot(n, x.key, x.version.commit_ts));
            assert(n.contains(y));
        }
    }
}

// ---------------------------------------------------------------------------
// Counting.

#[derive(Clone, Copy, Debug, PartialEq, Eq, Structural)]
pub struct CowBeTreeGcResult {
    pub versions_pruned: usize,
    pub leaf_pages_visited: usize,
    pub leaf_pages_rewritten: usize,
    pub version_bytes_pruned: usize,
    pub cursor_wrapped: bool,
    pub budget_exhausted: bool,
}

impl Default for CowBeTreeGcResult {
    fn default() -> (r: Self)
        ensures
            r == no_result(),
    {
        CowBeTreeGcResult {
            versions_pruned: 0,
            leaf_pages_visited: 0,
            leaf_pages_rewritten: 0,
            version_bytes_pruned: 0,
            cursor_wrapped: false,
            budget_exhausted: false,
        }
    }
}

pub open spec fn no_result() -> CowBeTreeGcResult {
    CowBeTreeGcResult {
        versions_pruned: 0,
        leaf_pages_visited: 0,
        leaf_pages_rewritten: 0,
        version_bytes_pruned: 0,
        cursor_wrapped: false,
        budget_exhausted: false,
    }
}

/// Two results together; counters stop at their maximum.
pub open spec fn sum_results(a: CowBeTreeGcResult, b: CowBeTreeGcResult) -> CowBeTreeGcResult {
    CowBeTreeGcResult {
        versions_pruned: message::clamp_usize(a.versions_pruned + b.versions_pruned),
        leaf_pages_visited: message::clamp_usize(a.leaf_pages_visited + b.leaf_pages_visited),
        leaf_pages_rewritten: message::clamp_usize(
            a.leaf_pages_rewritten + b.leaf_pages_rewritten,
        ),
        version_bytes_pruned: message::clamp_usize(
            a.version_bytes_pruned + b.version_bytes_pruned,
        ),
        cursor_wrapped: a.cursor_wrapped || b.cursor_wrapped,
        budget_exhausted: a.budget_exhausted || b.budget_exhausted,
    }
}

impl CowBeTreeGcResult {
    pub fn add_assign(&mut self, other: Self)
        ensures
            *final(self) == sum_results(*old(self), other),
    {
        self.versions_pruned = self.versions_pruned.saturating_add(other.versions_pruned);
        self.leaf_pages_visited = self.leaf_pages_visited.saturating_add(other.leaf_pages_visited);
        self.leaf_pages_rewritten = self.leaf_pages_rewritten.saturating_add(
            other.leaf_pages_rewritten,
        );
        self.version_bytes_pruned = self.version_bytes_pruned.saturating_add(
            other.version_bytes_pruned,
        );
        self.cursor_wrapped = self.cursor_wrapped || other.cursor_wrapped;
        self.budget_exhausted = self.budget_exhausted || other.budget_exhausted;
    }
}

// ---------------------------------------------------------------------------
// Pruning the versions of one key.

/// One of the versions is at or below the watermark.
pub open spec fn has_floor(vs: Seq<VersionView>, watermark: u64) -> bool {
    exists|i: int| 0 <= i < vs.len() && (#[trigger] vs[i]).commit_ts <= watermark
}

/// The versions above the watermark, and the first at or below it.
pub open spec fn pruned(vs: Seq<VersionView>, watermark: u64) -> Seq<VersionView>
    decreases vs.len(),
{
    if vs.len() == 0 {
        Seq::empty()
    } else {
        let front = pruned(vs.drop_last(), watermark);
        if vs.last().commit_ts > watermark || !has_floor(vs.drop_last(), watermark) {
            front.push(vs.last())
        } else {
            front
        }
    }
}

/// Bytes of the versions that are pruned.
pub open spec fn pruned_bytes(vs: Seq<VersionView>, watermark: u64) -> int
    decreases vs.len(),
{
    if vs.len() == 0 {
        0
    } else {
        let front = pruned_bytes(vs.drop_last(), watermark);
        if vs.last().commit_ts > watermark || !has_floor(vs.drop_last(), watermark) {
            front
        } else {
            front + version_len(vs.last())
        }
    }
}

/// Bytes of a version: timestamp, flag, length and value.
pub open spec fn version_len(v: VersionView) -> int {
    13int + v.value.len()
}

pub fn version_record_encoded_len(version: &VersionRecord) -> (r: usize)
    ensures
        r == message::clamp_usize(version_len(version@)),
{
    version.value.len().saturating_add(13)
}

pub proof fn pruned_len(vs: Seq<VersionView>, watermark: u64)
    ensures
        pruned(vs, watermark).len() <= vs.len(),
        pruned_bytes(vs, watermark) >= 0,
        pruned(vs, watermark).len() == vs.len() ==> pruned(vs, watermark) == vs,
    decreases vs.len(),
{
    if vs.len() > 0 {
        pruned_len(vs.drop_last(), watermark);
        if pruned(vs, watermark).len() == vs.len() {
            assert(pruned(vs, watermark) =~= vs);
        }
    }
}

/// Drop the versions below the first one that is at or below the watermark.
pub fn prune_version_records(versions: &mut Vec<VersionRecord>, watermark: u64) -> (r:
    CowBeTreeGcResult)
    ensures
        message::versions_view(final(versions)@) == pruned(
            message::versions_view(old(versions)@),
            watermark,
        ),
        r == (CowBeTreeGcResult {
            versions_pruned: (old(versions)@.len() - pruned(
                message::versions_view(old(versions)@),
                watermark,
            ).len()) as usize,
            version_bytes_pruned: message::clamp_usize(
                pruned_bytes(message::versions_view(old(versions)@), watermark),
            ),
            ..no_result()
        }),
{
    let ghost vs = message::versions_view(versions@);
    let count: usize = versions.len();
    let mut kept: Vec<VersionRecord> = Vec::new();
    let mut kept_watermark_floor = false;
    let mut result = CowBeTreeGcResult::default();
    let mut i: usize = 0;
    proof {
        assert(vs.take(0) =~= Seq::<VersionView>::empty());
        assert(message::versions_view(kept@) =~= pruned(vs.take(0), watermark));
    }
    while i < count
        invariant
            i <= count == versions@.len(),
            vs == message::versions_view(versions@),
            message::versions_view(kept@) == pruned(vs.take(i as int), watermark),
            kept_watermark_floor == has_floor(vs.take(i as int), watermark),
            result == (CowBeTreeGcResult {
                versions_pruned: (i - kept@.len()) as usize,
                version_bytes_pruned: message::clamp_usize(
                    pruned_bytes(vs.take(i as int), watermark),
                ),
                ..no_result()
            }),
            kept@.len() <= i,
        decreases count - i,
    {
        let version = &versions[i];
        let ghost k0 = message::versions_view(kept@);
        proof {
            let t = vs.take(i + 1);
            assert(t.drop_last() =~= vs.take(i as int));
            assert(t.last() == vs[i as int]);
            assert(vs[i as int] == version@);
            pruned_len(vs.take(i as int), watermark);
            floor_grows(vs, i as int, watermark);
        }
        if version.commit_ts > watermark {
            kept.push(version.duplicate());
            assert(message::versions_view(kept@) =~= k0.push(vs[i as int]));
        } else if !kept_watermark_floor {
            kept_watermark_floor = true;
            kept.push(version.duplicate());
            assert(message::versions_view(kept@) =~= k0.push(vs[i as int]));
        } else {
            result.versions_pruned = result.versions_pruned + 1;
            result.version_bytes_pruned = result.version_bytes_pruned.saturating_add(
                version_record_encoded_len(version),
            );
        }
        i += 1;
    }
    assert(vs.take(i as int) =~= vs);
    *versions = kept;
    result
}

proof fn floor_grows(vs: Seq<VersionView>, i: int, watermark: u64)
    requires
        0 <= i < vs.len(),
    ensures
        has_floor(vs.take(i + 1), watermark) <==> has_floor(vs.take(i), watermark)
            || vs[i].commit_ts <= watermark,
{
    let a = vs.take(i);
    let b = vs.take(i + 1);
    if has_floor(b, watermark) {
        let j = choose|j: int| 0 <= j < b.len() && (#[trigger] b[j]).commit_ts <= watermark;
        if j < i {
            assert(a[j].commit_ts <= watermark);
        }
    }
    if has_floor(a, watermark) {
        let j = choose|j: int| 0 <= j < a.len() && (#[trigger] a[j]).commit_ts <= watermark;
        assert(b[j].commit_ts <= watermark);
    }
    if vs[i].commit_ts <= watermark {
        assert(b[i].commit_ts <= watermark);
    }
}

/// No version at or below the watermark is newer than `v`.
pub open spec fn is_floor(vs: Seq<VersionView>, watermark: u64, v: VersionView) -> bool {
    forall|x: VersionView| #[trigger]
        vs.contains(x) && x.commit_ts <= watermark ==> x.commit_ts <= v.commit_ts
}

/// Of versions, newest first, what is pruned and what stays.
pub proof fn pruned_keeps(vs: Seq<VersionView>, watermark: u64)
    requires
        node::sorted_versions(vs),
    ensures
        node::sorted_versions(pruned(vs, watermark)),
        forall|v: VersionView| #[trigger]
            pruned(vs, watermark).contains(v) <==> vs.contains(v) && (v.commit_ts > watermark
                || is_floor(vs, watermark, v)),
    decreases vs.len(),
{
    let p = pruned(vs, watermark);
    if vs.len() > 0 {
        let front = vs.drop_last();
        let last = vs.last();
        assert(node::sorted_versions(front)) by {
            assert forall|i: int, j: int|
                #![trigger front[i], front[j]]
                0 <= i < j < front.len() implies front[i].commit_ts > front[j].commit_ts by {
                assert(vs[i].commit_ts > vs[j].commit_ts);
            }
        }
        pruned_keeps(front, watermark);
        let pf = pruned(front, watermark);
        assert forall|v: VersionView| #[trigger] pf.contains(v) implies v.commit_ts
            > last.commit_ts by {
            let i = choose|i: int| 0 <= i < front.len() && front[i] == v;
            assert(vs[i].commit_ts > vs[vs.len() - 1].commit_ts);
        }
        assert(node::sorted_versions(p)) by {
            assert forall|i: int, j: int|
                #![trigger p[i], p[j]]
                0 <= i < j < p.len() implies p[i].commit_ts > p[j].commit_ts by {
                if j < pf.len() {
                    assert(pf[i].commit_ts > pf[j].commit_ts);
                } else {
                    assert(pf.contains(pf[i]));
                }
            }
        }
        assert forall|v: VersionView| #[trigger] p.contains(v) <==> vs.contains(v) && (v.commit_ts
            > watermark || is_floor(vs, watermark, v)) by {
            pruned_member(vs, watermark, v);
        }
    } else {
        assert(p =~= Seq::<VersionView>::empty());
    }
}

proof fn pruned_member(vs: Seq<VersionView>, watermark: u64, v: VersionView)
    requires
        vs.len() > 0,
        node::sorted_versions(vs),
        forall|v: VersionView| #[trigger]
            pruned(vs.drop_last(), watermark).contains(v) <==> vs.drop_last().contains(v) && (
            v.commit_ts > watermark || is_floor(vs.drop_last(), watermark, v)),
    ensures
        pruned(vs, watermark).contains(v) <==> vs.contains(v) && (v.commit_ts > watermark
            || is_floor(vs, watermark, v)),
{
    let p = pruned(vs, watermark);
    let front = vs.drop_last();
    let pf = pruned(front, watermark);
    let last = vs.last();
    let n = vs.len() - 1;
    assert(vs.contains(last)) by {
        assert(vs[n] == last);
    }
    assert forall|x: VersionView| #[trigger] vs.contains(x) <==> front.contains(x) || x == last by {
        if vs.contains(x) {
            let i = choose|i: int| 0 <= i < vs.len() && vs[i] == x;
            if i < n {
                assert(front[i] == x);
            }
        }
        if front.contains(x) {
            let i = choose|i: int| 0 <= i < front.len() && front[i] == x;
            assert(vs[i] == x);
        }
    }
    assert forall|x: VersionView| #[trigger] front.contains(x) implies x.commit_ts
        > last.commit_ts by {
        let i = choose|i: int| 0 <= i < front.len() && front[i] == x;
        assert(vs[i].commit_ts > vs[n].commit_ts);
    }
    assert(p.contains(v) <==> pf.contains(v) || (v == last && p.len() == pf.len() + 1)) by {
        if p.contains(v) {
            let i = choose|i: int| 0 <= i < p.len() && p[i] == v;
            if i < pf.len() {
                assert(pf[i] == v);
            }
        }
        if pf.contains(v) {
            let i = choose|i: int| 0 <= i < pf.len() && pf[i] == v;
            assert(p[i] == v);
        }
        if p.len() == pf.len() + 1 {
            assert(p[pf.len() as int] == last);
        }
    }
    if has_floor(front, watermark) {
        let i = choose|i: int| 0 <= i < front.len() && (#[trigger] front[i]).commit_ts <= watermark;
        assert(front.contains(front[i]));
    } else {
        assert forall|x: VersionView| #[trigger] front.contains(x) implies x.commit_ts
            > watermark by {
            let i = choose|i: int| 0 <= i < front.len() && front[i] == x;
            assert(!(front[i].commit_ts <= watermark));
        }
    }
    if front.contains(v) {
        assert(last.commit_ts <= v.commit_ts);
        assert(is_floor(front, watermark, v) ==> is_floor(vs, watermark, v));
        assert(is_floor(vs, watermark, v) ==> is_floor(front, watermark, v)) by {
            if is_floor(vs, watermark, v) {
                assert forall|x: VersionView| #[trigger]
                    front.contains(x) && x.commit_ts <= watermark implies x.commit_ts
                    <= v.commit_ts by {
                    assert(vs.contains(x));
                }
            }
        }
    } else if v == last {
        if has_floor(front, watermark) {
            let i = choose|i: int|
                0 <= i < front.len() && (#[trigger] front[i]).commit_ts <= watermark;
            assert(vs.contains(front[i]));
            assert(front[i].commit_ts > last.commit_ts);
        } else {
            assert(is_floor(vs, watermark, v));
        }
    }
}

// ---------------------------------------------------------------------------
// Pruning a leaf.

/// The entries with their versions pruned.
pub open spec fn pruned_entries(es: Seq<EntryView>, watermark: u64) -> Seq<EntryView> {
    Seq::new(
        es.len(),
        |i: int| EntryView { key: es[i].key, versions: pruned(es[i].versions, watermark) },
    )
}

/// What pruning the entries comes to.
pub open spec fn entries_result(es: Seq<EntryView>, watermark: u64) -> CowBeTreeGcResult
    decreases es.len(),
{
    if es.len() == 0 {
        no_result()
    } else {
        let vs = es.last().versions;
        sum_results(
            entries_result(es.drop_last(), watermark),
            CowBeTreeGcResult {
                versions_pruned: (vs.len() - pruned(vs, watermark).len()) as usize,
                version_bytes_pruned: message::clamp_usize(pruned_bytes(vs, watermark)),
                ..no_result()
            },
        )
    }
}

/// Prune the versions of all entries.
pub fn prune_entries(entries: &mut Vec<LeafEntry>, watermark: u64) -> (r: CowBeTreeGcResult)
    ensures
        node::entries_view(final(entries)@) == pruned_entries(
            node::entries_view(old(entries)@),
            watermark,
        ),
        r == entries_result(node::entries_view(old(entries)@), watermark),
        r.versions_pruned == 0 ==> node::entries_view(final(entries)@) == node::entries_view(
            old(entries)@,
        ),
        r.leaf_pages_visited == 0,
        r.leaf_pages_rewritten == 0,
        !r.cursor_wrapped,
        !r.budget_exhausted,
{
    let ghost es = node::entries_view(entries@);
    let count: usize = entries.len();
    let mut result = CowBeTreeGcResult::default();
    let mut i: usize = 0;
    proof {
        assert(es.take(0) =~= Seq::<EntryView>::empty());
    }
    while i < count
        invariant
            i <= count == entries@.len(),
            count == es.len(),
            forall|k: int|
                0 <= k < i ==> #[trigger] entries@[k]@ == (EntryView {
                    key: es[k].key,
                    versions: pruned(es[k].versions, watermark),
                }),
            forall|k: int| i <= k < count ==> #[trigger] entries@[k]@ == es[k],
            result == entries_result(es.take(i as int), watermark),
            result.versions_pruned == 0 ==> forall|k: int|
                0 <= k < i ==> #[trigger] entries@[k]@ == es[k],
            result.leaf_pages_visited == 0,
            result.leaf_pages_rewritten == 0,
            !result.cursor_wrapped,
            !result.budget_exhausted,
        decreases count - i,
    {
        let ghost before = entries@;
        assert(entries@[i as int]@ == es[i as int]);
        let mut entry = entries[i].duplicate();
        let ghost vs = message::versions_view(entry.versions@);
        let version_count: usize = entry.versions.len();
        assert(vs.len() == version_count);
        let page_result = prune_version_records(&mut entry.versions, watermark);
        proof {
            assert(entry@ == (EntryView {
                key: es[i as int].key,
                versions: pruned(es[i as int].versions, watermark),
            }));
            pruned_len(vs, watermark);
            let t = es.take(i + 1);
            assert(t.drop_last() =~= es.take(i as int));
            assert(t.last() == es[i as int]);
        }
        let ghost before_result = result;
        let ghost pruned_entry = entry@;
        entries.set(i, entry);
        result.add_assign(page_result);
        proof {
            assert forall|k: int| 0 <= k < i + 1 implies #[trigger] entries@[k]@ == (EntryView {
                key: es[k].key,
                versions: pruned(es[k].versions, watermark),
            }) by {
                if k < i {
                    assert(entries@[k] == before[k]);
                }
            }
            assert forall|k: int| i + 1 <= k < count implies #[trigger] entries@[k]@ == es[k] by {
                assert(entries@[k] == before[k]);
            }
            if result.versions_pruned == 0 {
                assert(before_result.versions_pruned == 0);
                assert(page_result.versions_pruned == 0);
                assert(pruned(vs, watermark) == vs);
                assert(pruned_entry == es[i as int]);
                assert forall|k: int| 0 <= k < i + 1 implies #[trigger] entries@[k]@ == es[k] by {
                    if k < i {
                        assert(before[k]@ == es[k]);
                        assert(entries@[k] == before[k]);
                    }
                }
            }
        }
        i += 1;
    }
    proof {
        assert(es.take(i as int) =~= es);
        assert(node::entries_view(entries@) =~= pruned_entries(es, watermark));
        if result.versions_pruned == 0 {
            assert(node::entries_view(entries@) =~= es);
        }
    }
    result
}

/// A pruned leaf holds exactly what is needed.
pub proof fn pruned_leaf(es: Seq<EntryView>, fence: FenceView, watermark: u64)
    requires
        node::sorted_entries(es),
        node::entries_newest_first(es),
        shape::entries_inside(fence, es),
    ensures
        ({
            let p = pruned_entries(es, watermark);
            &&& node::sorted_entries(p)
            &&& node::entries_newest_first(p)
            &&& shape::entries_inside(fence, p)
            &&& shape::entry_recs(p) == needed(shape::entry_recs(es), watermark)
            &&& keeps_needed(shape::entry_recs(p), shape::entry_recs(es), watermark)
        }),
{
    let p = pruned_entries(es, watermark);
    let recs = shape::entry_recs(es);
    assert forall|i: int, j: int|
        #![trigger p[i], p[j]]
        0 <= i < j < p.len() implies bytes::lex_lt(p[i].key, p[j].key) by {
        assert(bytes::lex_lt(es[i].key, es[j].key));
    }
    assert forall|i: int| 0 <= i < p.len() implies node::sorted_versions(
        (#[trigger] p[i]).versions,
    ) by {
        assert(node::sorted_versions(es[i].versions));
        pruned_keeps(es[i].versions, watermark);
    }
    assert forall|i: int| 0 <= i < p.len() implies node::in_fence(
        fence,
        (#[trigger] p[i]).key,
    ) by {
        assert(node::in_fence(fence, es[i].key));
    }
    assert forall|m: MessageView| #[trigger] shape::entry_recs(p).contains(m) <==> needed(
        recs,
        watermark,
    ).contains(m) by {
        pruned_leaf_member(es, watermark, m);
    }
    assert(shape::entry_recs(p) =~= needed(recs, watermark));
    assert forall|m: MessageView| #[trigger]
        needed(recs, watermark).contains(m) implies shape::has_slot(
        shape::entry_recs(p),
        m.key,
        m.version.commit_ts,
    ) by {
        assert(shape::entry_recs(p).contains(m));
    }
    assert forall|m: MessageView| #[trigger] shape::entry_recs(p).contains(m) implies recs.contains(
        m,
    ) by {
        assert(needed(recs, watermark).contains(m));
    }
}

proof fn pruned_leaf_member(es: Seq<EntryView>, watermark: u64, m: MessageView)
    requires
        node::sorted_entries(es),
        node::entries_newest_first(es),
    ensures
        shape::entry_recs(pruned_entries(es, watermark)).contains(m) <==> needed(
            shape::entry_recs(es),
            watermark,
        ).contains(m),
{
    let p = pruned_entries(es, watermark);
    let recs = shape::entry_recs(es);
    if node::entries_have(p, m.key, m.version) {
        let i = choose|i: int|
            #![trigger p[i]]
            0 <= i < p.len() && p[i].key == m.key && p[i].versions.contains(m.version);
        assert(node::sorted_versions(es[i].versions));
        pruned_keeps(es[i].versions, watermark);
        assert(recs.contains(m));
        if m.version.commit_ts <= watermark {
            assert(is_floor(es[i].versions, watermark, m.version));
            assert forall|x: MessageView| #[trigger]
                recs.contains(x) && x.key == m.key && x.version.commit_ts <= watermark implies
                x.version.commit_ts <= m.version.commit_ts by {
                let j = choose|j: int|
                    #![trigger es[j]]
                    0 <= j < es.len() && es[j].key == x.key && es[j].versions.contains(x.version);
                same_entry(es, i, j);
                assert(es[i].versions.contains(x.version));
            }
        }
    }
    if needed(recs, watermark).contains(m) {
        assert(node::entries_have(es, m.key, m.version));
        let i = choose|i: int|
            #![trigger es[i]]
            0 <= i < es.len() && es[i].key == m.key && es[i].versions.contains(m.version);
        assert(node::sorted_versions(es[i].versions));
        pruned_keeps(es[i].versions, watermark);
        if m.version.commit_ts <= watermark {
            assert forall|x: VersionView| #[trigger]
                es[i].versions.contains(x) && x.commit_ts <= watermark implies x.commit_ts
                <= m.version.commit_ts by {
                let y = MessageView { key: m.key, version: x };
                assert(node::entries_have(es, y.key, y.version));
                assert(recs.contains(y));
            }
            assert(is_floor(es[i].versions, watermark, m.version));
        }
        assert(p[i].versions.contains(m.version));
        assert(node::entries_have(p, m.key, m.version));
    }
}

proof fn same_entry(es: Seq<EntryView>, i: int, j: int)
    requires
        node::sorted_entries(es),
        0 <= i < es.len(),
        0 <= j < es.len(),
        es[i].key == es[j].key,
    ensures
        i == j,
{
    bytes::lex_lt_irreflexive(es[i].key);
    if i < j {
        assert(bytes::lex_lt(es[i].key, es[j].key));
    }
    if j < i {
        assert(bytes::lex_lt(es[j].key, es[i].key));
    }
}

// ---------------------------------------------------------------------------
// Pruning the children of a node.

/// Pruning the trees `kids1` of a forest came to the trees `kids2`.
pub open spec fn forest_pruned(
    s1: PoolView,
    s2: PoolView,
    fence: FenceView,
    h: nat,
    kids1: Seq<TreeView>,
    seps2: Seq<Seq<u8>>,
    kids2: Seq<TreeView>,
    watermark: u64,
) -> bool {
    &&& shape::forest(fence, seps2, kids2, h)
    &&& shape::rep_all(s2.pages, kids2)
    &&& pool::step(s1, s2, shape::forest_pids(kids1), shape::forest_pids(kids2))
    &&& keeps_needed(shape::forest_recs(kids2), shape::forest_recs(kids1), watermark)
}

/// Pruning a tree came to what `rw` says.
pub open spec fn tree_pruned(
    s1: PoolView,
    s2: PoolView,
    rw: Rewrite,
    t: TreeView,
    h: nat,
    watermark: u64,
) -> bool {
    &&& leaf_work::shaped(s1, s2, rw, shape::fence_of(t), h, shape::tree_pids(t))
    &&& keeps_needed(
        shape::forest_recs(leaf_work::kids_of(rw)),
        shape::tree_recs(t),
        watermark,
    )
}

/// One more tree of a forest was pruned.
#[verifier::rlimit(40)]
#[verifier::spinoff_prover]
pub proof fn forest_pruned_more(
    s0: PoolView,
    s1: PoolView,
    s2: PoolView,
    fence: FenceView,
    h: nat,
    kids0: Seq<TreeView>,
    separators: Seq<Seq<u8>>,
    kids: Seq<TreeView>,
    i: int,
    rw: Rewrite,
    watermark: u64,
)
    requires
        forest_pruned(s0, s1, fence, h, kids0, separators, kids, watermark),
        0 <= i < kids.len(),
        tree_pruned(s1, s2, rw, kids[i], h, watermark),
    ensures
        ({
            let seps2 = shape::spliced_separators(
                separators,
                i,
                i + 1,
                leaf_work::separators_of(rw),
            );
            let k2 = leaf_work::kids_of(rw);
            let kids2 = shape::spliced_kids(kids, i, i + 1, k2);
            &&& forest_pruned(s0, s2, fence, h, kids0, seps2, kids2, watermark)
            &&& shape::pids_of(kids2) == shape::pids_of(kids).take(i) + flush::rewrite_pids(rw)
                + shape::pids_of(kids).skip(i + 1)
            &&& (shape::refine(shape::forest_recs(k2), shape::tree_recs(kids[i])) && shape::refine(
                shape::forest_recs(kids),
                shape::forest_recs(kids0),
            ) ==> shape::refine(shape::forest_recs(kids2), shape::forest_recs(kids0)))
            &&& kids2.take(i + k2.len()) == kids.take(i) + k2
            &&& kids2.skip(i + k2.len()) == kids.skip(i + 1)
            &&& shape::forest_recs(kids2.take(i + k2.len())) == shape::forest_recs(
                kids.take(i),
            ).union(shape::forest_recs(k2))
        }),
{
    let k2 = leaf_work::kids_of(rw);
    let kids2 = shape::spliced_kids(kids, i, i + 1, k2);
    leaf_work::replace_child_shape(s1, s2, fence, separators, kids, h, i, rw);
    pool::step_trans(
        s0,
        s1,
        s2,
        shape::forest_pids(kids0),
        shape::forest_pids(kids),
        shape::forest_pids(kids2),
    );
    let others = shape::forest_recs(kids.take(i)).union(shape::forest_recs(kids.skip(i + 1)));
    keeps_needed_union(shape::forest_recs(k2), shape::tree_recs(kids[i]), others, watermark);
    keeps_needed_trans(
        shape::forest_recs(kids2),
        shape::forest_recs(kids),
        shape::forest_recs(kids0),
        watermark,
    );
    if shape::refine(shape::forest_recs(k2), shape::tree_recs(kids[i])) && shape::refine(
        shape::forest_recs(kids),
        shape::forest_recs(kids0),
    ) {
        shape::refine_refl(others);
        shape::refine_union(shape::forest_recs(k2), shape::tree_recs(kids[i]), others, others);
        shape::refine_trans(
            shape::forest_recs(kids2),
            shape::forest_recs(kids),
            shape::forest_recs(kids0),
        );
    }
    assert(shape::pids_of(kids2) =~= shape::pids_of(kids).take(i) + flush::rewrite_pids(rw)
        + shape::pids_of(kids).skip(i + 1));
    assert(kids2.take(i + k2.len()) =~= kids.take(i) + k2);
    assert(kids2.skip(i + k2.len()) =~= kids.skip(i + 1));
    shape::forest_parts(kids.take(i), k2);
}

/// Pruning one more tree of a forest failed.
pub proof fn forest_pruned_fails(
    s0: PoolView,
    s1: PoolView,
    s2: PoolView,
    pid: u64,
    fence: FenceView,
    h: nat,
    kids0: Seq<TreeView>,
    separators: Seq<Seq<u8>>,
    kids: Seq<TreeView>,
    i: int,
    watermark: u64,
)
    requires
        forest_pruned(s0, s1, fence, h, kids0, separators, kids, watermark),
        0 <= i < kids.len(),
        rewrite::failed(s1, s2, shape::tree_pids(kids[i])),
    ensures
        rewrite::failed(s0, s2, rewrite::node_pids(pid, kids0)),
{
    shape::refine_refl(shape::forest_recs(kids));
    flush::forest_fails(
        s0,
        s1,
        s2,
        fence,
        h,
        kids0,
        separators,
        kids,
        shape::forest_recs(kids),
        i,
    );
    flush::failed_child_fails_node(s0, s2, pid, kids0);
}

/// What a tree of a forest needs, the forest needs.
pub proof fn needed_of_kid(
    fence: FenceView,
    separators: Seq<Seq<u8>>,
    kids: Seq<TreeView>,
    h: nat,
    j: int,
    m: MessageView,
    watermark: u64,
)
    requires
        shape::forest(fence, separators, kids, h),
        0 <= j < kids.len(),
        needed(shape::tree_recs(kids[j]), watermark).contains(m),
    ensures
        needed(shape::forest_recs(kids), watermark).contains(m),
{
    let all = shape::forest_recs(kids);
    assert(shape::has_rec(kids[j], m));
    assert(all.contains(m));
    shape::recs_in_fence(kids[j], h, m);
    shape::child_is_routed(fence, separators, m.key, j);
    assert forall|x: MessageView| #[trigger]
        all.contains(x) && x.key == m.key && x.version.commit_ts <= watermark
            && m.version.commit_ts <= watermark implies x.version.commit_ts
        <= m.version.commit_ts by {
        shape::recs_are_routed(fence, separators, kids, h, x);
        assert(shape::tree_recs(kids[j]).contains(x));
    }
}

/// A tree that was left as it is.
pub proof fn pruned_same(s: PoolView, rw: Rewrite, h: nat, watermark: u64)
    requires
        pool::pool_ok(s),
        rw is One,
        rw->pid == shape::pid_of(rw->tree@),
        shape::wf(rw->tree@, h),
        shape::rep(s.pages, rw->tree@),
    ensures
        tree_pruned(s, s, rw, rw->tree@, h, watermark),
        shape::forest_recs(leaf_work::kids_of(rw)) == shape::tree_recs(rw->tree@),
        shape::refine(
            shape::forest_recs(leaf_work::kids_of(rw)),
            shape::tree_recs(rw->tree@),
        ),
{
    flush::outcome_same(s, rw, h);
    shape::forest_of_one(rw->tree@);
    keeps_needed_same(shape::tree_recs(rw->tree@), watermark);
}

/// A tree that came out of work with the records it had.
pub proof fn pruned_by_work(
    s1: PoolView,
    s2: PoolView,
    rw: Rewrite,
    t: TreeView,
    h: nat,
    watermark: u64,
)
    requires
        leaf_work::outcome(
            s1,
            s2,
            rw,
            shape::fence_of(t),
            h,
            shape::tree_pids(t),
            shape::tree_recs(t),
        ),
    ensures
        tree_pruned(s1, s2, rw, t, h, watermark),
{
    keeps_needed_same(shape::tree_recs(t), watermark);
    refine_keeps_needed(
        shape::forest_recs(leaf_work::kids_of(rw)),
        shape::tree_recs(t),
        shape::tree_recs(t),
        watermark,
    );
}

/// A leaf was pruned on a page of one's own.
pub proof fn leaf_was_pruned(
    s1: PoolView,
    s2: PoolView,
    s3: PoolView,
    t: TreeView,
    own: u64,
    rw: Rewrite,
    watermark: u64,
)
    requires
        pool::pool_ok(s2),
        t is Leaf,
        shape::wf(t, 0),
        shape::rep(s2.pages, work::with_pid(t, own)),
        pool::step(s1, s2, shape::tree_pids(t), shape::tree_pids(work::with_pid(t, own))),
        work::own_root(s2, work::with_pid(t, own)),
        ({
            let es = pruned_entries(t->entries, watermark);
            let n = node::NodeView::Leaf { fence: shape::fence_of(t), entries: es };
            &&& work::fits_page(n)
            &&& s3 == work::written(s2, own, n)
            &&& rw is One
            &&& rw->pid == own
            &&& rw->tree@ == (TreeView::Leaf { pid: own, fence: shape::fence_of(t), entries: es })
        }),
    ensures
        tree_pruned(s1, s3, rw, t, 0, watermark),
        shape::forest_recs(leaf_work::kids_of(rw)) == needed(shape::tree_recs(t), watermark),
{
    let es = pruned_entries(t->entries, watermark);
    let fence = shape::fence_of(t);
    pruned_leaf(t->entries, fence, watermark);
    shape::tree_parts(t);
    shape::tree_parts(work::with_pid(t, own));
    work::leaf_written(s2, own, fence, es);
    pool::step_trans(s1, s2, s3, shape::tree_pids(t), work::one(own), work::one(own));
    shape::refine_refl(shape::entry_recs(es));
    leaf_work::outcome_one(s1, s3, rw, 0, shape::tree_pids(t), shape::entry_recs(es));
    shape::forest_of_one(rw->tree@);
}

/// A node was rewritten over its pruned children.
pub proof fn node_was_pruned(
    s1: PoolView,
    s2: PoolView,
    s3: PoolView,
    rw: Rewrite,
    t: TreeView,
    h: nat,
    mid: Set<u64>,
    kids2: Seq<TreeView>,
    watermark: u64,
)
    requires
        t is Node,
        t->buffer.len() == 0,
        pool::step(s1, s2, shape::tree_pids(t), mid),
        leaf_work::outcome(
            s2,
            s3,
            rw,
            shape::fence_of(t),
            h,
            mid,
            shape::forest_recs(kids2),
        ),
        keeps_needed(shape::forest_recs(kids2), shape::forest_recs(t->kids), watermark),
    ensures
        tree_pruned(s1, s3, rw, t, h, watermark),
        shape::refine(shape::forest_recs(kids2), shape::tree_recs(t)) ==> shape::refine(
            shape::forest_recs(leaf_work::kids_of(rw)),
            shape::tree_recs(t),
        ),
        shape::tree_recs(t) == shape::forest_recs(t->kids),
        shape::forest_recs(leaf_work::kids_of(rw)).subset_of(shape::forest_recs(kids2)),
{
    let after = shape::forest_recs(leaf_work::kids_of(rw));
    flush::node_is_tree(t);
    assert(shape::message_recs(t->buffer) =~= Set::<MessageView>::empty());
    assert(shape::tree_recs(t) =~= shape::forest_recs(t->kids));
    pool::step_trans(
        s1,
        s2,
        s3,
        shape::tree_pids(t),
        mid,
        shape::forest_pids(leaf_work::kids_of(rw)),
    );
    refine_keeps_needed(after, shape::forest_recs(kids2), shape::tree_recs(t), watermark);
    if shape::refine(shape::forest_recs(kids2), shape::tree_recs(t)) {
        shape::refine_trans(after, shape::forest_recs(kids2), shape::tree_recs(t));
    }
}

} // verus!
