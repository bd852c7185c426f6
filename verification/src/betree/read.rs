//! Reading a tree: lookups, scans, and walks.
use vstd::prelude::*;

use crate::betree::lookup;
use crate::betree::lookup::LookupStep;
use crate::betree::message;
use crate::betree::message::{BufferedMessage, MessageView, VersionRecord, VersionView};
use crate::betree::node;
use crate::betree::node::{CowBeTreeError, EntryView, LeafEntry, NodePage};
use crate::betree::pool;
use crate::betree::pool::PagePool;
use crate::betree::reader::RawVisibleVersion;
use crate::betree::rewrite;
use crate::betree::shape;
use crate::betree::shape::TreeView;
use crate::bytes;

verus! {

// ---------------------------------------------------------------------------
// What a reader sees.

/// The version that a reader sees, deletions among them.
#[derive(Debug, PartialEq, Eq)]
pub struct CowBeTreeVisibleVersion {
    pub commit_ts: u64,
    pub deleted: bool,
    pub value: Vec<u8>,
}

impl View for CowBeTreeVisibleVersion {
    type V = VersionView;

    open spec fn view(&self) -> VersionView {
        VersionView { commit_ts: self.commit_ts, value: self.value@, deleted: self.deleted }
    }
}

impl Clone for CowBeTreeVisibleVersion {
    fn clone(&self) -> (r: Self)
        ensures
            r@ == self@,
    {
        CowBeTreeVisibleVersion {
            commit_ts: self.commit_ts,
            deleted: self.deleted,
            value: bytes::copy_bytes(self.value.as_slice()),
        }
    }
}

pub open spec fn opt_version(v: Option<CowBeTreeVisibleVersion>) -> Option<VersionView> {
    match v {
        Some(v) => Some(v@),
        None => None,
    }
}

/// Of two versions the newer; the first of two as old.
pub open spec fn newer(a: Option<VersionView>, b: Option<VersionView>) -> Option<VersionView> {
    match b {
        None => a,
        Some(v) => lookup::newer_of(a, v),
    }
}

/// What a reader at `ts` sees of `key` in a tree: the newest version on the path
/// to the leaf, of several as old the one nearest to the root.
pub open spec fn tree_lookup(t: TreeView, key: Seq<u8>, ts: u64) -> Option<VersionView>
    decreases t,
{
    match t {
        TreeView::Leaf { entries, .. } => lookup::leaf_visible(entries, key, ts),
        TreeView::Node { separators, buffer, kids, .. } => {
            let i = node::route(separators, key) as int;
            newer(
                lookup::newest_message(buffer, key, ts),
                if 0 <= i < kids.len() {
                    tree_lookup(kids[i], key, ts)
                } else {
                    None
                },
            )
        },
    }
}

/// `v` is the newest version of `key` among the records, at `ts` or before; it
/// is missing only where there are none.
pub open spec fn is_newest(
    recs: Set<MessageView>,
    key: Seq<u8>,
    ts: u64,
    v: Option<VersionView>,
) -> bool {
    match v {
        Some(v) => {
            &&& recs.contains(MessageView { key, version: v })
            &&& v.commit_ts <= ts
            &&& forall|m: MessageView| #[trigger]
                recs.contains(m) && m.key == key && m.version.commit_ts <= ts
                    ==> m.version.commit_ts <= v.commit_ts
        },
        None => forall|m: MessageView| #[trigger]
            recs.contains(m) && m.key == key ==> m.version.commit_ts > ts,
    }
}

/// A lookup finds the newest version that the tree holds, wherever it stands.
pub proof fn lookup_finds_newest(t: TreeView, h: nat, key: Seq<u8>, ts: u64)
    requires
        shape::wf(t, h),
        node::in_fence(shape::fence_of(t), key),
    ensures
        is_newest(shape::tree_recs(t), key, ts, tree_lookup(t, key, ts)),
    decreases t,
{
    let recs = shape::tree_recs(t);
    let v = tree_lookup(t, key, ts);
    match t {
        TreeView::Leaf { entries, .. } => {
            leaf_lookup_finds_newest(t, key, ts);
        },
        TreeView::Node { fence, separators, buffer, kids, .. } => {
            let i = node::route(separators, key) as int;
            shape::route_to_child(fence, separators, key);
            shape::wf_node(t, h);
            assert(shape::fence_of(kids[i]) == shape::child_fence(fence, separators, i));
            lookup_finds_newest(kids[i], (h - 1) as nat, key, ts);
            lookup::newest_message_is_newest(buffer, key, ts);
            let b = lookup::newest_message(buffer, key, ts);
            let c = tree_lookup(kids[i], key, ts);
            let crecs = shape::tree_recs(kids[i]);
            assert forall|m: MessageView| #[trigger] recs.contains(m) && m.key == key implies (
            buffer.contains(m) || crecs.contains(m)) by {
                if !buffer.contains(m) {
                    assert(shape::some_has_rec(kids, m));
                    shape::recs_are_routed(fence, separators, kids, (h - 1) as nat, m);
                }
            }
            assert forall|m: MessageView| #[trigger] crecs.contains(m) implies recs.contains(m) by {
                assert(shape::has_rec(kids[i], m));
            }
            if v is Some {
                let m = MessageView { key, version: v->0 };
                if c is Some && v == c {
                    assert(crecs.contains(m));
                } else {
                    assert(buffer.contains(m));
                }
            }
        },
    }
}

proof fn leaf_lookup_finds_newest(t: TreeView, key: Seq<u8>, ts: u64)
    requires
        t is Leaf,
        shape::wf(t, 0),
    ensures
        is_newest(shape::tree_recs(t), key, ts, lookup::leaf_visible(t->entries, key, ts)),
{
    broadcast use bytes::group_lex;

    let es = t->entries;
    let recs = shape::tree_recs(t);
    let p = node::lower_bound(es, key) as int;
    node::lower_bound_splits(es, key);
    let v = lookup::leaf_visible(es, key, ts);
    assert forall|m: MessageView| #[trigger] recs.contains(m) && m.key == key implies p < es.len()
        && es[p].key == key && es[p].versions.contains(m.version) by {
        let i = choose|i: int|
            #![trigger es[i]]
            0 <= i < es.len() && es[i].key == m.key && es[i].versions.contains(m.version);
        if i < p {
            assert(bytes::lex_lt(es[i].key, key));
        } else if i > p {
            assert(!bytes::lex_lt(es[p].key, key));
            assert(bytes::lex_lt(es[p].key, es[i].key));
        }
    }
    if p < es.len() && es[p].key == key {
        lookup::newest_is_newest(es[p].versions, ts);
        if v is Some {
            let m = MessageView { key, version: v->0 };
            assert(node::entries_have(es, m.key, m.version));
        }
    }
}

/// What a page of a tree says to a lookup.
pub proof fn page_of_tree(pages: Seq<Seq<u8>>, t: TreeView, h: nat, key: Seq<u8>, ts: u64)
    requires
        shape::rep(pages, t),
        shape::wf(t, h),
    ensures
        lookup::page_lookup(pages[shape::pid_of(t) as int], key, ts) == Ok::<_, CowBeTreeError>(
            lookup::node_lookup(shape::node_of(t), key, ts),
        ),
        t is Node ==> {
            let i = node::route(t->separators, key) as int;
            &&& 0 <= i < t->kids.len()
            &&& shape::rep(pages, t->kids[i])
            &&& h > 0
            &&& shape::wf(t->kids[i], (h - 1) as nat)
            &&& shape::pids_of(t->kids)[i] == shape::pid_of(t->kids[i])
        },
{
    lookup::page_lookup_is_node_lookup(pages[shape::pid_of(t) as int], key, ts);
    if t is Node {
        node::route_splits(t->separators, key);
        let i = node::route(t->separators, key) as int;
        assert(shape::rep(pages, t->kids[i]));
    }
}

fn own_visible_candidate(v: RawVisibleVersion<'_>) -> (r: CowBeTreeVisibleVersion)
    ensures
        r@ == v@,
{
    CowBeTreeVisibleVersion {
        commit_ts: v.commit_ts,
        deleted: v.deleted,
        value: bytes::copy_bytes(v.value),
    }
}

/// Keep the newer of two versions.
pub fn merge_owned_visible_candidate(
    visible: &mut Option<CowBeTreeVisibleVersion>,
    candidate: CowBeTreeVisibleVersion,
)
    ensures
        opt_version(*final(visible)) == lookup::newer_of(opt_version(*old(visible)), candidate@),
{
    let replace = match visible.as_ref() {
        None => true,
        Some(existing) => candidate.commit_ts > existing.commit_ts,
    };
    if replace {
        *visible = Some(candidate);
    }
}

/// Look a key up along the path from the root page to its leaf.
pub fn lookup_path(
    pool: &PagePool,
    root: u64,
    key: &[u8],
    read_ts: u64,
    Ghost(t): Ghost<TreeView>,
    Ghost(h): Ghost<nat>,
) -> (r: Option<CowBeTreeVisibleVersion>)
    requires
        pool.wf(),
        shape::rep(pool.view().pages, t),
        shape::wf(t, h),
        root == shape::pid_of(t),
    ensures
        opt_version(r) == tree_lookup(t, key@, read_ts),
{
    let ghost pages = pool.view().pages;
    let mut page_id: u64 = root;
    let mut visible: Option<CowBeTreeVisibleVersion> = None;
    let ghost mut cur = t;
    let ghost mut ch = h;
    loop
        invariant
            pool.wf(),
            pages == pool.view().pages,
            shape::rep(pages, cur),
            shape::wf(cur, ch),
            page_id == shape::pid_of(cur),
            newer(opt_version(visible), tree_lookup(cur, key@, read_ts)) == tree_lookup(
                t,
                key@,
                read_ts,
            ),
            shape::rep(pages, t),
            shape::wf(t, h),
            root == shape::pid_of(t),
        decreases ch,
    {
        proof {
            page_of_tree(pages, cur, ch, key@, read_ts);
        }
        match lookup::lookup_step(pool.page(page_id), key, read_ts) {
            Err(_) => {
                return lookup_visible_candidate_owned(
                    pool,
                    root,
                    key,
                    read_ts,
                    Ghost(t),
                    Ghost(h),
                );
            },
            Ok(LookupStep::Leaf { visible: leaf }) => {
                if let Some(leaf) = leaf {
                    merge_owned_visible_candidate(&mut visible, own_visible_candidate(leaf));
                }
                return visible;
            },
            Ok(LookupStep::Internal { child_swip, child_slot: _, visible_buffer, buffer_count: _ }) => {
                if let Some(buffered) = visible_buffer {
                    merge_owned_visible_candidate(&mut visible, own_visible_candidate(buffered));
                }
                page_id = child_swip;
                proof {
                    let i = node::route(cur->separators, key@) as int;
                    cur = cur->kids[i];
                    ch = (ch - 1) as nat;
                }
            },
        }
    }
}

/// The first of the versions at `read_ts` or before.
pub fn visible_candidate_from_versions(versions: &[VersionRecord], read_ts: u64) -> (r: Option<
    CowBeTreeVisibleVersion,
>)
    ensures
        match r {
            Some(v) => exists|i: int|
                0 <= i < versions@.len() && (#[trigger] versions@[i])@ == v@ && v.commit_ts
                    <= read_ts && forall|j: int|
                    0 <= j < i ==> (#[trigger] versions@[j]).commit_ts > read_ts,
            None => forall|j: int|
                0 <= j < versions@.len() ==> (#[trigger] versions@[j]).commit_ts > read_ts,
        },
{
    let mut i: usize = 0;
    while i < versions.len()
        invariant
            i <= versions@.len(),
            forall|j: int| 0 <= j < i ==> (#[trigger] versions@[j]).commit_ts > read_ts,
        decreases versions@.len() - i,
    {
        let version = &versions[i];
        if version.commit_ts <= read_ts {
            return Some(
                CowBeTreeVisibleVersion {
                    commit_ts: version.commit_ts,
                    deleted: version.deleted,
                    value: bytes::copy_bytes(version.value.as_slice()),
                },
            );
        }
        i += 1;
    }
    None
}

/// The records of one key.
pub open spec fn of_key(recs: Set<MessageView>, key: Seq<u8>) -> Set<MessageView> {
    Set::new(|m: MessageView| recs.contains(m) && m.key == key)
}

/// The messages of one key among others, in their order.
pub open spec fn only_of(ms: Seq<MessageView>, key: Seq<u8>) -> Seq<MessageView> {
    ms.filter(|m: MessageView| m.key == key)
}

/// What waits on the way from the root to the leaf of a key, from the root down.
pub open spec fn on_way(t: TreeView, key: Seq<u8>) -> Seq<MessageView>
    decreases t,
{
    match t {
        TreeView::Leaf { .. } => Seq::empty(),
        TreeView::Node { separators, buffer, kids, .. } => {
            let i = node::route(separators, key) as int;
            if 0 <= i < kids.len() {
                buffer + on_way(kids[i], key)
            } else {
                buffer
            }
        },
    }
}

/// The entry of a key in its leaf, if it has one.
pub open spec fn own_entry(t: TreeView, key: Seq<u8>) -> Seq<EntryView>
    decreases t,
{
    match t {
        TreeView::Leaf { entries, .. } => {
            let p = node::lower_bound(entries, key) as int;
            if p < entries.len() && entries[p].key == key {
                seq![entries[p]]
            } else {
                Seq::empty()
            }
        },
        TreeView::Node { separators, kids, .. } => {
            let i = node::route(separators, key) as int;
            if 0 <= i < kids.len() {
                own_entry(kids[i], key)
            } else {
                Seq::empty()
            }
        },
    }
}

/// The entry of a key with what waits for it on the way written to it, from the root
/// down: of two versions with the same timestamp the later one.
pub open spec fn whole_entry(t: TreeView, key: Seq<u8>) -> Seq<EntryView> {
    node::apply_messages(own_entry(t, key), only_of(on_way(t, key), key))
}

/// The messages of one key.
fn messages_of(ms: &[BufferedMessage], key: &[u8]) -> (r: Vec<BufferedMessage>)
    ensures
        message::messages_view(r@) == only_of(message::messages_view(ms@), key@),
        shape::message_recs(message::messages_view(r@)) == of_key(
            shape::message_recs(message::messages_view(ms@)),
            key@,
        ),
        forall|i: int| 0 <= i < r@.len() ==> (#[trigger] r@[i]).key@ == key@,
{
    let ghost all = message::messages_view(ms@);
    let ghost mine = |m: MessageView| m.key == key@;
    let mut r: Vec<BufferedMessage> = Vec::new();
    let mut i: usize = 0;
    proof {
        reveal(Seq::filter);
        assert(message::messages_view(r@) =~= all.take(0).filter(mine));
        assert(shape::message_recs(message::messages_view(r@)) =~= of_key(
            shape::message_recs(all.take(0)),
            key@,
        ));
    }
    while i < ms.len()
        invariant
            i <= ms@.len(),
            all == message::messages_view(ms@),
            mine == (|m: MessageView| m.key == key@),
            message::messages_view(r@) == all.take(i as int).filter(mine),
            shape::message_recs(message::messages_view(r@)) == of_key(
                shape::message_recs(all.take(i as int)),
                key@,
            ),
            forall|k: int| 0 <= k < r@.len() ==> (#[trigger] r@[k]).key@ == key@,
        decreases ms@.len() - i,
    {
        let ghost before = message::messages_view(r@);
        let ghost m = all[i as int];
        proof {
            assert(all.take(i + 1) =~= all.take(i as int) + seq![m]);
            shape::message_recs_add(all.take(i as int), seq![m]);
            one_message(m);
        }
        if bytes::keys_equal(ms[i].key.as_slice(), key) {
            r.push(ms[i].duplicate());
            proof {
                assert(message::messages_view(r@) =~= before + seq![m]);
                shape::message_recs_add(before, seq![m]);
            }
        }
        proof {
            reveal(Seq::filter);
            let next = all.take(i + 1);
            assert(next.drop_last() =~= all.take(i as int));
            assert(next.last() == m);
            assert(message::messages_view(r@) =~= next.filter(mine));
            assert(shape::message_recs(message::messages_view(r@)) =~= of_key(
                shape::message_recs(all.take(i + 1)),
                key@,
            ));
        }
        i += 1;
    }
    assert(all.take(i as int) =~= all);
    r
}

proof fn one_message(m: MessageView)
    ensures
        forall|x: MessageView| #[trigger] shape::message_recs(seq![m]).contains(x) <==> x == m,
{
    assert forall|x: MessageView| #[trigger] shape::message_recs(seq![m]).contains(x) <==> x
        == m by {
        assert(seq![m][0] == m);
    }
}

/// The newest version depends on the records of the key alone, up to records
/// with the same timestamp.
pub proof fn newest_of_refined(
    n: Set<MessageView>,
    o: Set<MessageView>,
    key: Seq<u8>,
    ts: u64,
    v: Option<VersionView>,
)
    requires
        shape::refine(n, o),
        is_newest(n, key, ts, v),
    ensures
        is_newest(o, key, ts, v),
{
    assert forall|m: MessageView| #[trigger]
        o.contains(m) && m.key == key && m.version.commit_ts <= ts implies v is Some
        && m.version.commit_ts <= v->0.commit_ts by {
        let x = choose|x: MessageView| #[trigger]
            n.contains(x) && x.key == m.key && x.version.commit_ts == m.version.commit_ts;
        assert(n.contains(x));
    }
}

/// Sorted versions of one entry, and what the first visible of them is.
proof fn first_visible_is_newest(es: Seq<EntryView>, key: Seq<u8>, ts: u64, v: Option<VersionView>)
    requires
        node::sorted_entries(es),
        node::entries_newest_first(es),
        forall|i: int| 0 <= i < es.len() ==> (#[trigger] es[i]).key == key,
        es.len() == 0 ==> v is None,
        es.len() > 0 ==> match v {
            Some(v) => exists|i: int|
                0 <= i < es[0].versions.len() && #[trigger] es[0].versions[i] == v && v.commit_ts
                    <= ts && forall|j: int|
                    0 <= j < i ==> (#[trigger] es[0].versions[j]).commit_ts > ts,
            None => forall|j: int|
                0 <= j < es[0].versions.len() ==> (#[trigger] es[0].versions[j]).commit_ts > ts,
        },
    ensures
        is_newest(shape::entry_recs(es), key, ts, v),
        es.len() > 0 ==> v == lookup::newest(es[0].versions, ts),
{
    let recs = shape::entry_recs(es);
    bytes::lex_lt_irreflexive(key);
    if es.len() > 1 {
        assert(bytes::lex_lt(es[0].key, es[1].key));
    }
    if es.len() == 0 {
        assert(recs =~= Set::<MessageView>::empty());
    } else {
        let vs = es[0].versions;
        assert(node::sorted_versions(vs));
        assert forall|m: MessageView| #[trigger] recs.contains(m) implies vs.contains(
            m.version,
        ) by {
            let i = choose|i: int|
                #![trigger es[i]]
                0 <= i < es.len() && es[i].key == m.key && es[i].versions.contains(m.version);
            assert(i == 0);
        }
        lookup::newest_is_newest(vs, ts);
        if v is Some {
            let i = choose|i: int|
                0 <= i < vs.len() && #[trigger] vs[i] == v->0 && v->0.commit_ts <= ts && forall|
                    j: int,
                |
                    0 <= j < i ==> (#[trigger] vs[j]).commit_ts > ts;
            lookup::newest_of_sorted(vs, ts, i);
            assert(node::entries_have(es, key, v->0));
        } else {
            assert forall|m: MessageView| #[trigger]
                recs.contains(m) && m.key == key implies m.version.commit_ts > ts by {
                let j = choose|j: int| 0 <= j < vs.len() && vs[j] == m.version;
                assert(vs[j].commit_ts > ts);
            }
        }
    }
}

/// Look a key up by putting the messages on its path into its entry.
pub fn lookup_visible_candidate_owned(
    pool: &PagePool,
    root: u64,
    key: &[u8],
    read_ts: u64,
    Ghost(t): Ghost<TreeView>,
    Ghost(h): Ghost<nat>,
) -> (r: Option<CowBeTreeVisibleVersion>)
    requires
        pool.wf(),
        shape::rep(pool.view().pages, t),
        shape::wf(t, h),
        root == shape::pid_of(t),
        node::in_fence(shape::fence_of(t), key@),
    ensures
        is_newest(shape::tree_recs(t), key@, read_ts, opt_version(r)),
        opt_version(r) == (if whole_entry(t, key@).len() > 0 {
            lookup::newest(whole_entry(t, key@)[0].versions, read_ts)
        } else {
            None
        }),
{
    let ghost pages = pool.view().pages;
    let mut page_id: u64 = root;
    let mut path_messages: Vec<BufferedMessage> = Vec::new();
    let ghost mut cur = t;
    let ghost mut ch = h;
    proof {
        assert(shape::message_recs(message::messages_view(path_messages@)) =~= Set::<
            MessageView,
        >::empty());
        assert(of_key(shape::tree_recs(t), key@) =~= of_key(
            shape::message_recs(message::messages_view(path_messages@)).union(
                shape::tree_recs(cur),
            ),
            key@,
        ));
        assert(message::messages_view(path_messages@) + on_way(cur, key@) =~= on_way(t, key@));
    }
    loop
        invariant
            pool.wf(),
            pages == pool.view().pages,
            shape::rep(pages, cur),
            shape::wf(cur, ch),
            page_id == shape::pid_of(cur),
            node::in_fence(shape::fence_of(cur), key@),
            of_key(shape::tree_recs(t), key@) == of_key(
                shape::message_recs(message::messages_view(path_messages@)).union(
                    shape::tree_recs(cur),
                ),
                key@,
            ),
            message::messages_view(path_messages@) + on_way(cur, key@) == on_way(t, key@),
            own_entry(cur, key@) == own_entry(t, key@),
        decreases ch,
    {
        let ghost path = message::messages_view(path_messages@);
        match pool.read_node(page_id) {
            Err(_) => {
                proof {
                    assert(false);
                }
                return None;
            },
            Ok(NodePage::Leaf { fence: _, entries }) => {
                let mut rows: Vec<LeafEntry> = Vec::new();
                let pos: usize = node::lower_bound_entries(entries.as_slice(), key);
                if pos < entries.len() && bytes::keys_equal(entries[pos].key.as_slice(), key) {
                    rows.push(entries[pos].duplicate());
                }
                let ghost start = node::entries_view(rows@);
                proof {
                    let es = cur->entries;
                    assert(es == node::entries_view(entries@));
                    if pos < entries@.len() {
                        assert(es[pos as int] == entries@[pos as int]@);
                    }
                    if pos < es.len() && es[pos as int].key == key@ {
                        assert(start =~= seq![es[pos as int]]);
                    } else {
                        assert(start =~= Seq::<EntryView>::empty());
                    }
                }
                let mine = messages_of(path_messages.as_slice(), key);
                let ghost ms = message::messages_view(mine@);
                proof {
                    leaf_entry_of(cur, key@, start);
                    inside_root_fence(start, ms);
                    shape::apply_messages_refine(start, ms, node::root_fence());
                    same_key_stays(start, ms, key@);
                }
                rewrite::apply_all(&mut rows, mine.as_slice());
                let ghost es = node::entries_view(rows@);
                let r = if rows.len() > 0 {
                    visible_candidate_from_versions(rows[0].versions.as_slice(), read_ts)
                } else {
                    None
                };
                proof {
                    if rows@.len() > 0 {
                        first_version_view(rows@[0], r, read_ts);
                        assert(es[0] == rows@[0]@);
                    }
                    assert(path + on_way(cur, key@) =~= path);
                    assert(start == own_entry(t, key@));
                    assert(es == whole_entry(t, key@));
                    first_visible_is_newest(es, key@, read_ts, opt_version(r));
                    let o = shape::entry_recs(start).union(shape::message_recs(ms));
                    newest_of_refined(shape::entry_recs(es), o, key@, read_ts, opt_version(r));
                    assert(o =~= of_key(shape::tree_recs(t), key@)) by {
                        assert(shape::entry_recs(start) =~= of_key(shape::tree_recs(cur), key@));
                        assert(of_key(shape::tree_recs(t), key@) =~= of_key(
                            shape::message_recs(path),
                            key@,
                        ).union(of_key(shape::tree_recs(cur), key@)));
                    }
                    newest_of_key(shape::tree_recs(t), key@, read_ts, opt_version(r));
                }
                return r;
            },
            Ok(NodePage::Internal { fence: _, children, separators, buffer }) => {
                let ghost buf = message::messages_view(buffer@);
                let idx: usize = node::route_child(separators.as_slice(), key);
                let mut buffer = buffer;
                let ghost buffer0 = buffer@;
                let ghost path0 = path_messages@;
                path_messages.append(&mut buffer);
                proof {
                    shape::route_to_child(shape::fence_of(cur), cur->separators, key@);
                    assert(message::messages_view(path_messages@) =~= path + buf);
                    let below = on_way(cur->kids[idx as int], key@);
                    assert(path + (buf + below) =~= path + buf + below);
                    shape::message_recs_add(path, buf);
                    next_child(cur, ch, key@, path);
                }
                if idx >= children.len() {
                    return None;
                }
                page_id = children[idx];
                proof {
                    let i = idx as int;
                    assert(shape::rep(pages, cur->kids[i]));
                    assert(shape::fence_of(cur->kids[i]) == shape::child_fence(
                        shape::fence_of(cur),
                        cur->separators,
                        i,
                    ));
                    cur = cur->kids[i];
                    ch = (ch - 1) as nat;
                }
            },
        }
    }
}

proof fn newest_of_key(recs: Set<MessageView>, key: Seq<u8>, ts: u64, v: Option<VersionView>)
    requires
        is_newest(of_key(recs, key), key, ts, v),
    ensures
        is_newest(recs, key, ts, v),
{
    assert forall|m: MessageView| #[trigger] recs.contains(m) && m.key == key implies of_key(
        recs,
        key,
    ).contains(m) by {}
}

/// Going down one level, the buffer passed is on the path.
proof fn next_child(t: TreeView, h: nat, key: Seq<u8>, path: Seq<MessageView>)
    requires
        shape::wf(t, h),
        t is Node,
        node::in_fence(shape::fence_of(t), key),
    ensures
        ({
            let i = node::route(t->separators, key) as int;
            &&& 0 <= i < t->kids.len()
            &&& of_key(shape::message_recs(path).union(shape::tree_recs(t)), key) == of_key(
                shape::message_recs(path).union(shape::message_recs(t->buffer)).union(
                    shape::tree_recs(t->kids[i]),
                ),
                key,
            )
        }),
{
    let i = node::route(t->separators, key) as int;
    shape::route_to_child(shape::fence_of(t), t->separators, key);
    shape::wf_node(t, h);
    shape::tree_parts(t);
    let a = of_key(shape::message_recs(path).union(shape::tree_recs(t)), key);
    let b = of_key(
        shape::message_recs(path).union(shape::message_recs(t->buffer)).union(
            shape::tree_recs(t->kids[i]),
        ),
        key,
    );
    assert forall|m: MessageView| #[trigger] a.contains(m) <==> b.contains(m) by {
        if m.key == key {
            if shape::some_has_rec(t->kids, m) {
                shape::recs_are_routed(
                    shape::fence_of(t),
                    t->separators,
                    t->kids,
                    (h - 1) as nat,
                    m,
                );
            }
            if shape::has_rec(t->kids[i], m) {
                assert(shape::some_has_rec(t->kids, m));
            }
        }
    }
    assert(a =~= b);
}

/// The entry of a key in a leaf holds the records of the key.
proof fn leaf_entry_of(t: TreeView, key: Seq<u8>, start: Seq<EntryView>)
    requires
        t is Leaf,
        shape::wf(t, 0),
        ({
            let es = t->entries;
            let p = node::lower_bound(es, key) as int;
            if p < es.len() && es[p].key == key {
                start == seq![es[p]]
            } else {
                start == Seq::<EntryView>::empty()
            }
        }),
    ensures
        shape::entry_recs(start) == of_key(shape::tree_recs(t), key),
        node::sorted_entries(start),
        node::entries_newest_first(start),
        forall|i: int| 0 <= i < start.len() ==> (#[trigger] start[i]).key == key,
{
    broadcast use bytes::group_lex;

    let es = t->entries;
    let p = node::lower_bound(es, key) as int;
    node::lower_bound_splits(es, key);
    assert forall|m: MessageView| #[trigger] shape::entry_recs(start).contains(m) <==> of_key(
        shape::tree_recs(t),
        key,
    ).contains(m) by {
        if of_key(shape::tree_recs(t), key).contains(m) {
            let i = choose|i: int|
                #![trigger es[i]]
                0 <= i < es.len() && es[i].key == m.key && es[i].versions.contains(m.version);
            if i < p {
                assert(bytes::lex_lt(es[i].key, key));
            } else if i > p {
                assert(!bytes::lex_lt(es[p].key, key));
                assert(bytes::lex_lt(es[p].key, es[i].key));
            }
            assert(start[0] == es[i]);
        }
        if node::entries_have(start, m.key, m.version) {
            let i = choose|i: int|
                #![trigger start[i]]
                0 <= i < start.len() && start[i].key == m.key && start[i].versions.contains(
                    m.version,
                );
            assert(start[i] == es[p]);
        }
    }
    assert(shape::entry_recs(start) =~= of_key(shape::tree_recs(t), key));
    if start.len() > 0 {
        assert(node::sorted_versions(es[p].versions));
    }
}

pub proof fn inside_root_fence(es: Seq<EntryView>, ms: Seq<MessageView>)
    ensures
        shape::entries_inside(node::root_fence(), es),
        shape::messages_inside(node::root_fence(), ms),
{
    assert forall|k: Seq<u8>| #[trigger] node::in_fence(node::root_fence(), k) by {
        nothing_below_empty(k);
    }
}

pub proof fn nothing_below_empty(k: Seq<u8>)
    ensures
        !bytes::lex_lt(k, Seq::empty()),
        node::in_fence(node::root_fence(), k),
{
}

/// Messages of one key put into entries of that key leave entries of that key.
pub proof fn same_key_stays(es: Seq<EntryView>, ms: Seq<MessageView>, key: Seq<u8>)
    requires
        node::sorted_entries(es),
        node::entries_newest_first(es),
        forall|i: int| 0 <= i < es.len() ==> (#[trigger] es[i]).key == key,
        forall|i: int| 0 <= i < ms.len() ==> (#[trigger] ms[i]).key == key,
    ensures
        forall|i: int|
            0 <= i < node::apply_messages(es, ms).len() ==> (#[trigger] node::apply_messages(
                es,
                ms,
            )[i]).key == key,
    decreases ms.len(),
{
    if ms.len() > 0 {
        let front = ms.drop_last();
        assert forall|i: int| 0 <= i < front.len() implies (#[trigger] front[i]).key == key by {
            assert(ms[i].key == key);
        }
        same_key_stays(es, front, key);
        inside_root_fence(es, front);
        shape::apply_messages_refine(es, front, node::root_fence());
        let mid = node::apply_messages(es, front);
        assert(ms[ms.len() - 1].key == key);
        node::apply_message_keeps_order(mid, ms.last());
        node::lower_bound_splits(mid, ms.last().key);
        let r = node::apply_message(mid, ms.last());
        assert(node::apply_messages(es, ms) == r);
        assert forall|i: int| 0 <= i < r.len() implies (#[trigger] r[i]).key == key by {
            if r[i].key != ms.last().key {
                let j = choose|j: int| 0 <= j < mid.len() && mid[j].key == r[i].key;
                assert(mid[j].key == key);
            }
        }
    }
}

proof fn first_version_view(e: LeafEntry, r: Option<CowBeTreeVisibleVersion>, ts: u64)
    requires
        match r {
            Some(v) => exists|i: int|
                0 <= i < e.versions@.len() && (#[trigger] e.versions@[i])@ == v@ && v.commit_ts
                    <= ts && forall|j: int|
                    0 <= j < i ==> (#[trigger] e.versions@[j]).commit_ts > ts,
            None => forall|j: int|
                0 <= j < e.versions@.len() ==> (#[trigger] e.versions@[j]).commit_ts > ts,
        },
    ensures
        ({
            let vs = e@.versions;
            match opt_version(r) {
                Some(v) => exists|i: int|
                    0 <= i < vs.len() && #[trigger] vs[i] == v && v.commit_ts <= ts && forall|
                        j: int,
                    |
                        0 <= j < i ==> (#[trigger] vs[j]).commit_ts > ts,
                None => forall|j: int| 0 <= j < vs.len() ==> (#[trigger] vs[j]).commit_ts > ts,
            }
        }),
{
    let vs = e@.versions;
    assert forall|j: int| 0 <= j < vs.len() implies #[trigger] vs[j] == e.versions@[j]@ by {}
    if r is Some {
        let i = choose|i: int|
            0 <= i < e.versions@.len() && (#[trigger] e.versions@[i])@ == r->0@ && r->0.commit_ts
                <= ts && forall|j: int|
                0 <= j < i ==> (#[trigger] e.versions@[j]).commit_ts > ts;
        assert(vs[i] == r->0@);
        assert forall|j: int| 0 <= j < i implies (#[trigger] vs[j]).commit_ts > ts by {
            assert(e.versions@[j].commit_ts > ts);
        }
    } else {
        assert forall|j: int| 0 <= j < vs.len() implies (#[trigger] vs[j]).commit_ts > ts by {
            assert(e.versions@[j].commit_ts > ts);
        }
    }
}

} // verus!
