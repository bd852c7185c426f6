//! The pages of a family of trees: their images by page id, and how many trees
//! share each page.
use std::collections::HashMap;

use vstd::prelude::*;

use crate::betree::layout;
use crate::betree::node::{CowBeTreeError, NodePage};
use crate::betree::reader;
use crate::page_id::{Lsn, PAGE_SIZE};

verus! {

/// Which pages several trees of a family share.
pub struct ForkRegistry {
    active_roots: usize,
    shared_pages: HashMap<u64, usize>,
}

/// A page that was written, and the sequence number of the log record of the
/// write, if it has one.
#[derive(Clone, Copy, Debug, PartialEq, Eq, Structural)]
pub struct DirtyPage {
    pub pid: u64,
    pub lsn: Option<Lsn>,
}

/// Page images by page id, and which pages were written. Page 0 is reserved.
pub struct PagePool {
    pages: Vec<Vec<u8>>,
    forks: ForkRegistry,
    dirty: Vec<DirtyPage>,
    lsn: Option<Lsn>,
}

/// What a pool holds: the images, how many trees share each page, how many trees
/// there are, which pages were written, and the sequence number for writes.
#[verifier::ext_equal]
pub struct PoolView {
    pub pages: Seq<Seq<u8>>,
    pub shared: Map<u64, usize>,
    pub active_roots: int,
    pub dirty: Seq<DirtyPage>,
    pub lsn: Option<Lsn>,
}

/// How many trees own page `p`, as far as the registry knows.
pub open spec fn owners(s: PoolView, p: u64) -> int {
    if s.shared.contains_key(p) {
        s.shared[p] as int
    } else {
        1
    }
}

/// Page `p` must not be changed by one tree alone.
pub open spec fn is_shared(s: PoolView, p: u64) -> bool {
    s.active_roots > 1 && owners(s, p) > 1
}

/// All pages have the one size, only pages are shared, and no page by more trees
/// than there are.
pub open spec fn pool_ok(s: PoolView) -> bool {
    &&& s.pages.len() >= 1
    &&& s.pages.len() <= u64::MAX
    &&& forall|i: int| 0 <= i < s.pages.len() ==> (#[trigger] s.pages[i]).len() == PAGE_SIZE
    &&& forall|p: u64| #[trigger]
        s.shared.contains_key(p) ==> p < s.pages.len() && 1 <= s.shared[p] <= s.active_roots
    &&& 1 <= s.active_roots <= usize::MAX
}

/// Page `p` is listed as written, with the sequence number `lsn`.
pub open spec fn is_listed(s: PoolView, p: u64, lsn: Option<Lsn>) -> bool {
    s.dirty.contains(DirtyPage { pid: p, lsn })
}

/// Page `p` is new in `s2`, or has another image than in `s1`.
pub open spec fn differs(s1: PoolView, s2: PoolView, p: u64) -> bool {
    p < s2.pages.len() && (p >= s1.pages.len() || s2.pages[p as int] != s1.pages[p as int])
}

/// What was listed as written is still listed, and so is every page that is new
/// or changed.
pub open spec fn listed(s1: PoolView, s2: PoolView) -> bool {
    &&& forall|p: u64, lsn: Option<Lsn>| #[trigger]
        is_listed(s1, p, lsn) ==> is_listed(s2, p, lsn)
    &&& forall|p: u64| #[trigger] differs(s1, s2, p) ==> is_listed(s2, p, s1.lsn)
}

/// A pool after work on a tree whose pages were `before` and then are `after`:
/// no other page changed, no shared page changed, new pages belong to the tree
/// alone, a page that the tree gave up lost at most one owner, and every page
/// that is new or changed is listed as written.
pub open spec fn step(s1: PoolView, s2: PoolView, before: Set<u64>, after: Set<u64>) -> bool {
    &&& pool_ok(s2)
    &&& s1.pages.len() <= s2.pages.len()
    &&& s1.active_roots == s2.active_roots
    &&& s1.lsn == s2.lsn
    &&& listed(s1, s2)
    &&& forall|p: u64|
        #![trigger s2.pages[p as int]]
        p < s1.pages.len() && (!before.contains(p) || is_shared(s1, p)) ==> s2.pages[p as int]
            == s1.pages[p as int]
    &&& forall|p: u64|
        #![trigger owners(s2, p)]
        p < s1.pages.len() && (!before.contains(p) || after.contains(p)) ==> owners(s2, p)
            == owners(s1, p)
    &&& forall|p: u64|
        #![trigger owners(s2, p)]
        p < s1.pages.len() && before.contains(p) && !after.contains(p) ==> owners(s1, p) - 1
            <= owners(s2, p) <= owners(s1, p)
    &&& forall|p: u64| #![trigger owners(s2, p)] p >= s1.pages.len() ==> owners(s2, p) == 1
    &&& forall|p: u64| #[trigger]
        after.contains(p) ==> before.contains(p) || s1.pages.len() <= p < s2.pages.len()
}

pub proof fn step_refl(s: PoolView, pids: Set<u64>)
    requires
        pool_ok(s),
    ensures
        step(s, s, pids, pids),
{
}

pub proof fn step_trans(
    s1: PoolView,
    s2: PoolView,
    s3: PoolView,
    a: Set<u64>,
    b: Set<u64>,
    c: Set<u64>,
)
    requires
        step(s1, s2, a, b),
        step(s2, s3, b, c),
    ensures
        step(s1, s3, a, c),
{
    assert(listed(s1, s3)) by {
        assert forall|p: u64| #[trigger] differs(s1, s3, p) implies is_listed(s3, p, s1.lsn) by {
            assert(differs(s1, s2, p) || differs(s2, s3, p));
            if differs(s1, s2, p) {
                assert(is_listed(s2, p, s1.lsn));
            }
        }
        assert forall|p: u64, lsn: Option<Lsn>| #[trigger] is_listed(s1, p, lsn) implies is_listed(
            s3,
            p,
            lsn,
        ) by {
            assert(is_listed(s2, p, lsn));
        }
    }
    assert forall|p: u64|
        #![trigger s3.pages[p as int]]
        p < s1.pages.len() && (!a.contains(p) || is_shared(s1, p)) implies s3.pages[p as int]
        == s1.pages[p as int] by {
        assert(s2.pages[p as int] == s1.pages[p as int]);
        assert(owners(s2, p) == owners(s2, p));
    }
    assert forall|p: u64|
        #![trigger owners(s3, p)]
        p < s1.pages.len() && (!a.contains(p) || c.contains(p)) implies owners(s3, p) == owners(
        s1,
        p,
    ) by {
        assert(owners(s2, p) == owners(s2, p));
    }
    assert forall|p: u64|
        #![trigger owners(s3, p)]
        p < s1.pages.len() && a.contains(p) && !c.contains(p) implies owners(s1, p) - 1 <= owners(
        s3,
        p,
    ) <= owners(s1, p) by {
        assert(owners(s2, p) == owners(s2, p));
    }
    assert forall|p: u64| #![trigger owners(s3, p)] p >= s1.pages.len() implies owners(s3, p)
        == 1 by {
        assert(owners(s2, p) == 1);
        if p < s2.pages.len() {
            assert(owners(s3, p) <= owners(s2, p));
            if s3.shared.contains_key(p) {
                assert(1 <= s3.shared[p]);
            }
        }
    }
}

/// Work on a part of a tree is work on the tree.
pub proof fn step_widen(s1: PoolView, s2: PoolView, a: Set<u64>, b: Set<u64>, rest: Set<u64>)
    requires
        step(s1, s2, a, b),
        a.disjoint(rest),
    ensures
        step(s1, s2, a.union(rest), b.union(rest)),
{
    let a2 = a.union(rest);
    let b2 = b.union(rest);
    assert forall|p: u64|
        #![trigger owners(s2, p)]
        p < s1.pages.len() && (!a2.contains(p) || b2.contains(p)) implies owners(s2, p) == owners(
        s1,
        p,
    ) by {
        if a.contains(p) && rest.contains(p) {
            assert(false);
        }
    }
}

/// Work may also count as work on more, if what is more was left alone.
pub proof fn step_drop(s1: PoolView, s2: PoolView, a: Set<u64>, b: Set<u64>, gone: Set<u64>)
    requires
        step(s1, s2, a, b),
    ensures
        step(s1, s2, a.union(gone), b.difference(gone)),
        step(s1, s2, a, b.difference(gone)),
{
}

impl PagePool {
    pub closed spec fn view(&self) -> PoolView {
        PoolView {
            pages: Seq::new(self.pages@.len(), |i: int| self.pages@[i]@),
            shared: self.forks.shared_pages@,
            active_roots: self.forks.active_roots as int,
            dirty: self.dirty@,
            lsn: self.lsn,
        }
    }

    pub open spec fn wf(&self) -> bool {
        pool_ok(self.view())
    }

    /// A pool without pages, for one tree.
    pub fn new() -> (r: Self)
        ensures
            r.wf(),
            r.view().pages.len() == 1,
            r.view().active_roots == 1,
            r.view().shared == Map::<u64, usize>::empty(),
            r.view().dirty == Seq::<DirtyPage>::empty(),
            r.view().lsn is None,
    {
        broadcast use vstd::std_specs::hash::group_hash_axioms;

        let mut pages: Vec<Vec<u8>> = Vec::new();
        let reserved: Vec<u8> = blank_page();
        pages.push(reserved);
        let r = PagePool {
            pages,
            forks: ForkRegistry { active_roots: 1, shared_pages: HashMap::new() },
            dirty: Vec::new(),
            lsn: None,
        };
        assert(r.view().shared =~= Map::<u64, usize>::empty());
        r
    }

    /// How many trees the family has.
    pub fn active_roots(&self) -> (r: usize)
        ensures
            r == self.view().active_roots,
    {
        self.forks.active_roots
    }

    /// The image of a page.
    pub fn page(&self, pid: u64) -> (r: &[u8])
        requires
            pid < self.view().pages.len(),
        ensures
            r@ == self.view().pages[pid as int],
    {
        let count: usize = self.pages.len();
        self.pages[pid as usize].as_slice()
    }

    /// The node on a page.
    pub fn read_node(&self, pid: u64) -> (r: Result<NodePage, CowBeTreeError>)
        requires
            pid < self.view().pages.len(),
        ensures
            match layout::parse_page(self.view().pages[pid as int]) {
                Ok(n) => r is Ok && r->Ok_0@ == n,
                Err(e) => r is Err && r->Err_0 == e,
            },
    {
        reader::decode_page(self.page(pid))
    }

    /// A new page with the given image.
    pub fn allocate(&mut self, image: Vec<u8>) -> (r: u64)
        requires
            old(self).wf(),
            image@.len() == PAGE_SIZE,
        ensures
            final(self).wf(),
            r == old(self).view().pages.len(),
            final(self).view().pages == old(self).view().pages.push(image@),
            final(self).view().shared == old(self).view().shared,
            final(self).view().active_roots == old(self).view().active_roots,
            final(self).view().lsn == old(self).view().lsn,
            final(self).view().dirty == old(self).view().dirty.push(
                DirtyPage { pid: r, lsn: old(self).view().lsn },
            ),
    {
        let pid: u64 = self.pages.len() as u64;
        let ghost before = self.view();
        self.dirty.push(DirtyPage { pid, lsn: self.lsn });
        self.pages.push(image);
        let count: usize = self.pages.len();
        proof {
            assert(self.view().pages =~= before.pages.push(image@));
            let after = self.view();
            assert forall|i: int| 0 <= i < after.pages.len() implies (
            #[trigger] after.pages[i]).len() == PAGE_SIZE by {
                if i < before.pages.len() {
                    assert(after.pages[i] == before.pages[i]);
                }
            }
            assert forall|p: u64| #[trigger] after.shared.contains_key(p) implies p
                < after.pages.len() && 1 <= after.shared[p] <= after.active_roots by {
                assert(before.shared.contains_key(p));
            }
        }
        pid
    }

    /// Replace the image of a page.
    pub fn write(&mut self, pid: u64, image: Vec<u8>)
        requires
            old(self).wf(),
            pid < old(self).view().pages.len(),
            image@.len() == PAGE_SIZE,
        ensures
            final(self).wf(),
            final(self).view().pages == old(self).view().pages.update(pid as int, image@),
            final(self).view().shared == old(self).view().shared,
            final(self).view().active_roots == old(self).view().active_roots,
            final(self).view().lsn == old(self).view().lsn,
            final(self).view().dirty == old(self).view().dirty.push(
                DirtyPage { pid, lsn: old(self).view().lsn },
            ),
    {
        let ghost before = self.view();
        let count: usize = self.pages.len();
        self.dirty.push(DirtyPage { pid, lsn: self.lsn });
        self.pages.set(pid as usize, image);
        proof {
            assert(self.view().pages =~= before.pages.update(pid as int, image@));
            let after = self.view();
            assert forall|i: int| 0 <= i < after.pages.len() implies (
            #[trigger] after.pages[i]).len() == PAGE_SIZE by {
                if i != pid {
                    assert(after.pages[i] == before.pages[i]);
                }
            }
            assert forall|p: u64| #[trigger] after.shared.contains_key(p) implies p
                < after.pages.len() && 1 <= after.shared[p] <= after.active_roots by {
                assert(before.shared.contains_key(p));
            }
        }
    }

    /// Set the sequence number that writes are listed with.
    pub fn set_lsn(&mut self, lsn: Option<Lsn>)
        ensures
            final(self).view() == (PoolView { lsn, ..old(self).view() }),
            old(self).wf() ==> final(self).wf(),
    {
        let ghost before = self.view();
        self.lsn = lsn;
        assert(self.view() =~= PoolView { lsn, ..before });
    }

    /// Hand out the list of pages written, and start a new one.
    pub fn take_dirty(&mut self) -> (r: Vec<DirtyPage>)
        ensures
            r@ == old(self).view().dirty,
            final(self).view() == (PoolView { dirty: Seq::empty(), ..old(self).view() }),
            old(self).wf() ==> final(self).wf(),
    {
        let ghost before = self.view();
        let mut out: Vec<DirtyPage> = Vec::new();
        std::mem::swap(&mut out, &mut self.dirty);
        assert(self.view() =~= PoolView { dirty: Seq::empty(), ..before });
        out
    }

    /// A copy of the image of a page.
    pub fn copy_page(&self, pid: u64) -> (r: Vec<u8>)
        requires
            pid < self.view().pages.len(),
        ensures
            r@ == self.view().pages[pid as int],
    {
        crate::bytes::copy_bytes(self.page(pid))
    }

    /// Whether a page is shared, and so must be copied before it is changed. A
    /// page that the registry still lists with its last owner is taken off the
    /// list.
    pub fn claim(&mut self, pid: u64) -> (r: bool)
        requires
            old(self).wf(),
            pid < old(self).view().pages.len(),
        ensures
            final(self).wf(),
            r == is_shared(old(self).view(), pid),
            old(self).view().active_roots <= 1 ==> final(self).view() == old(self).view(),
            final(self).view().pages == old(self).view().pages,
            final(self).view().active_roots == old(self).view().active_roots,
            final(self).view().lsn == old(self).view().lsn,
            final(self).view().dirty == old(self).view().dirty,
            forall|p: u64|
                #![trigger owners(final(self).view(), p)]
                owners(final(self).view(), p) == owners(old(self).view(), p),
    {
        broadcast use vstd::std_specs::hash::group_hash_axioms;

        if self.forks.active_roots <= 1 {
            return false;
        }
        let count: usize = match self.forks.shared_pages.get(&pid) {
            Some(count) => *count,
            None => {
                return false;
            },
        };
        let ghost before = self.view();
        if count <= 1 {
            let _listed = self.forks.shared_pages.remove(&pid);
            proof {
                let after = self.view();
                assert(after.pages =~= before.pages);
                assert forall|p: u64| #[trigger] after.shared.contains_key(p) implies p
                    < after.pages.len() && 1 <= after.shared[p] <= after.active_roots by {
                    assert(before.shared.contains_key(p));
                }
            }
            return false;
        }
        true
    }

    /// One tree gave up a shared page.
    pub fn release(&mut self, pid: u64)
        requires
            old(self).wf(),
            is_shared(old(self).view(), pid),
        ensures
            final(self).wf(),
            final(self).view().pages == old(self).view().pages,
            final(self).view().active_roots == old(self).view().active_roots,
            final(self).view().lsn == old(self).view().lsn,
            final(self).view().dirty == old(self).view().dirty,
            owners(final(self).view(), pid) == owners(old(self).view(), pid) - 1,
            forall|p: u64|
                #![trigger owners(final(self).view(), p)]
                p != pid ==> owners(final(self).view(), p) == owners(old(self).view(), p),
    {
        broadcast use vstd::std_specs::hash::group_hash_axioms;

        let count: usize = match self.forks.shared_pages.get(&pid) {
            Some(count) => *count,
            None => {
                return ;
            },
        };
        if count == 2 {
            let _listed = self.forks.shared_pages.remove(&pid);
        } else {
            self.forks.shared_pages.insert(pid, count - 1);
        }
    }

    /// One more tree shares the page.
    fn share(&mut self, pid: u64)
        requires
            pool_ok(old(self).view()),
            pid < old(self).view().pages.len(),
            owners(old(self).view(), pid) < old(self).view().active_roots,
        ensures
            pool_ok(final(self).view()),
            final(self).view().pages == old(self).view().pages,
            final(self).view().active_roots == old(self).view().active_roots,
            final(self).view().lsn == old(self).view().lsn,
            final(self).view().dirty == old(self).view().dirty,
            owners(final(self).view(), pid) == owners(old(self).view(), pid) + 1,
            forall|p: u64|
                #![trigger owners(final(self).view(), p)]
                p != pid ==> owners(final(self).view(), p) == owners(old(self).view(), p),
    {
        broadcast use vstd::std_specs::hash::group_hash_axioms;

        let count: usize = match self.forks.shared_pages.get(&pid) {
            Some(count) => *count,
            None => 1,
        };
        self.forks.shared_pages.insert(pid, count + 1);
    }

    /// One more tree shares each of the pages.
    pub fn share_all(&mut self, pids: &Vec<u64>)
        requires
            old(self).wf(),
            old(self).view().active_roots < usize::MAX,
            forall|i: int| 0 <= i < pids@.len() ==> #[trigger] pids@[i] < old(self).view().pages.len(),
            forall|i: int, j: int|
                #![trigger pids@[i], pids@[j]]
                0 <= i < j < pids@.len() ==> pids@[i] != pids@[j],
        ensures
            final(self).wf(),
            final(self).view().pages == old(self).view().pages,
            final(self).view().active_roots == old(self).view().active_roots + 1,
            final(self).view().lsn == old(self).view().lsn,
            final(self).view().dirty == old(self).view().dirty,
            forall|p: u64|
                #![trigger owners(final(self).view(), p)]
                owners(final(self).view(), p) == owners(old(self).view(), p) + (if pids@.contains(
                    p,
                ) {
                    1int
                } else {
                    0
                }),
    {
        let ghost s0 = self.view();
        self.forks.active_roots = self.forks.active_roots + 1;
        proof {
            let s1 = self.view();
            assert(s1.pages =~= s0.pages);
            assert forall|p: u64| #[trigger] s1.shared.contains_key(p) implies p < s1.pages.len()
                && 1 <= s1.shared[p] <= s1.active_roots by {
                assert(s0.shared.contains_key(p));
            }
            assert(pids@.take(0) =~= Seq::<u64>::empty());
        }
        let mut i: usize = 0;
        while i < pids.len()
            invariant
                i <= pids@.len(),
                pool_ok(self.view()),
                pool_ok(s0),
                self.view().pages == s0.pages,
                self.view().active_roots == s0.active_roots + 1,
                self.view().lsn == s0.lsn,
                self.view().dirty == s0.dirty,
                forall|k: int| 0 <= k < pids@.len() ==> #[trigger] pids@[k] < s0.pages.len(),
                forall|a: int, b: int|
                    #![trigger pids@[a], pids@[b]]
                    0 <= a < b < pids@.len() ==> pids@[a] != pids@[b],
                forall|p: u64|
                    #![trigger owners(self.view(), p)]
                    owners(self.view(), p) == owners(s0, p) + (if pids@.take(i as int).contains(p) {
                        1int
                    } else {
                        0
                    }),
            decreases pids@.len() - i,
        {
            let ghost s1 = self.view();
            let pid: u64 = pids[i];
            proof {
                assert(owners(s1, pid) == owners(s0, pid)) by {
                    assert(!pids@.take(i as int).contains(pid)) by {
                        if pids@.take(i as int).contains(pid) {
                            let k = choose|k: int|
                                0 <= k < pids@.take(i as int).len() && pids@.take(i as int)[k]
                                    == pid;
                            assert(pids@[k] != pids@[i as int]);
                        }
                    }
                }
            }
            self.share(pid);
            proof {
                assert forall|p: u64|
                    #![trigger owners(self.view(), p)]
                    owners(self.view(), p) == owners(s0, p) + (if pids@.take(i + 1).contains(p) {
                        1int
                    } else {
                        0
                    }) by {
                    let t0 = pids@.take(i as int);
                    let t1 = pids@.take(i + 1);
                    assert(owners(s1, p) == owners(s0, p) + (if t0.contains(p) {
                        1int
                    } else {
                        0
                    }));
                    assert(t1.contains(p) <==> t0.contains(p) || p == pid) by {
                        if t1.contains(p) {
                            let k = choose|k: int| 0 <= k < t1.len() && t1[k] == p;
                            if k < i {
                                assert(t0[k] == p);
                            }
                        }
                        if t0.contains(p) {
                            let k = choose|k: int| 0 <= k < t0.len() && t0[k] == p;
                            assert(t1[k] == p);
                        }
                        assert(t1[i as int] == pid);
                    }
                }
            }
            i += 1;
        }
        assert(pids@.take(i as int) =~= pids@);
    }
}

/// A page of zeros.
pub fn blank_page() -> (r: Vec<u8>)
    ensures
        r@.len() == PAGE_SIZE,
        r@ == layout::zeros(PAGE_SIZE as nat),
{
    let r: Vec<u8> = vec![0u8; PAGE_SIZE];
    assert(r@ =~= layout::zeros(PAGE_SIZE as nat));
    r
}

} // verus!
