//! Where callers waited for a latch, and how long.
use vstd::prelude::*;
use vstd::string::*;

use crate::bytes::{compare_keys, keys_equal, lex_lt, KeyOrder};

verus! {

broadcast use {crate::bytes::lex_lt_transitive_auto, crate::bytes::lex_lt_exclusive_auto};

/// The kind of acquisition that waited.
#[derive(Clone, Copy, Debug, Eq, Hash, PartialEq, Structural)]
pub enum LatchWaitMode {
    Shared,
    Exclusive,
    UpgradeShared,
    UpgradeExclusive,
}

/// What the waits at one call site came to.
#[derive(Clone, Debug)]
pub struct LatchWaitSite {
    pub mode: LatchWaitMode,
    pub file: &'static str,
    pub line: u32,
    pub column: u32,
    pub contended_acquires: u64,
    pub total_wait_ns: u64,
    pub max_wait_ns: u64,
}

/// A call site: the kind of acquisition, the bytes of the file's name, the line
/// and the column.
#[verifier::ext_equal]
pub struct SiteKey {
    pub mode: LatchWaitMode,
    pub file: Seq<u8>,
    pub line: u32,
    pub column: u32,
}

/// How often a site waited, how long in all, and how long at most.
pub struct SiteStats {
    pub contended_acquires: u64,
    pub total_wait_ns: u64,
    pub max_wait_ns: u64,
}

pub open spec fn saturating(x: int) -> u64 {
    if x > u64::MAX {
        u64::MAX
    } else {
        x as u64
    }
}

/// The statistics after one more wait.
pub open spec fn one_more_wait(stats: SiteStats, wait_ns: u64) -> SiteStats {
    SiteStats {
        contended_acquires: saturating(stats.contended_acquires + 1),
        total_wait_ns: saturating(stats.total_wait_ns + wait_ns),
        max_wait_ns: if wait_ns > stats.max_wait_ns {
            wait_ns
        } else {
            stats.max_wait_ns
        },
    }
}

pub open spec fn no_waits() -> SiteStats {
    SiteStats { contended_acquires: 0, total_wait_ns: 0, max_wait_ns: 0 }
}

impl LatchWaitSite {
    pub open spec fn key(&self) -> SiteKey {
        SiteKey {
            mode: self.mode,
            file: self.file.spec_bytes(),
            line: self.line,
            column: self.column,
        }
    }

    pub open spec fn stats(&self) -> SiteStats {
        SiteStats {
            contended_acquires: self.contended_acquires,
            total_wait_ns: self.total_wait_ns,
            max_wait_ns: self.max_wait_ns,
        }
    }

    /// The site comes before `other` in a ranking: by the longer total wait, then
    /// by the more waits, then by file, line and column.
    pub open spec fn ranks_before(&self, other: &Self) -> bool {
        ||| self.total_wait_ns > other.total_wait_ns
        ||| {
            &&& self.total_wait_ns == other.total_wait_ns
            &&& {
                ||| self.contended_acquires > other.contended_acquires
                ||| {
                    &&& self.contended_acquires == other.contended_acquires
                    &&& {
                        ||| lex_lt(self.file.spec_bytes(), other.file.spec_bytes())
                        ||| {
                            &&& self.file.spec_bytes() == other.file.spec_bytes()
                            &&& {
                                ||| self.line < other.line
                                ||| self.line == other.line && self.column < other.column
                            }
                        }
                    }
                }
            }
        }
    }

    fn is_before(&self, other: &Self) -> (r: bool)
        ensures
            r == self.ranks_before(other),
    {
        if self.total_wait_ns != other.total_wait_ns {
            return self.total_wait_ns > other.total_wait_ns;
        }
        if self.contended_acquires != other.contended_acquires {
            return self.contended_acquires > other.contended_acquires;
        }
        match compare_keys(self.file.as_bytes(), other.file.as_bytes()) {
            KeyOrder::Less => true,
            KeyOrder::Greater => false,
            KeyOrder::Equal => {
                if self.line != other.line {
                    self.line < other.line
                } else {
                    self.column < other.column
                }
            },
        }
    }

    fn is_at(&self, mode: LatchWaitMode, file: &'static str, line: u32, column: u32) -> (r: bool)
        ensures
            r == (self.key() == (SiteKey { mode, file: file.spec_bytes(), line, column })),
    {
        self.mode == mode && self.line == line && self.column == column && keys_equal(
            self.file.as_bytes(),
            file.as_bytes(),
        )
    }

    fn copied(&self) -> (r: Self)
        ensures
            r == *self,
    {
        LatchWaitSite {
            mode: self.mode,
            file: self.file,
            line: self.line,
            column: self.column,
            contended_acquires: self.contended_acquires,
            total_wait_ns: self.total_wait_ns,
            max_wait_ns: self.max_wait_ns,
        }
    }
}

/// No two entries are of the same site.
pub open spec fn distinct_sites(sites: Seq<LatchWaitSite>) -> bool {
    forall|i: int, j: int|
        0 <= i < j < sites.len() ==> (#[trigger] sites[i]).key() != (#[trigger] sites[j]).key()
}

/// What the entries say of each site that has one.
pub open spec fn by_site(sites: Seq<LatchWaitSite>) -> Map<SiteKey, SiteStats> {
    Map::new(
        |k: SiteKey| exists|i: int| 0 <= i < sites.len() && (#[trigger] sites[i]).key() == k,
        |k: SiteKey| site_of(sites, k).stats(),
    )
}

/// The entry of a site.
pub open spec fn site_of(sites: Seq<LatchWaitSite>, k: SiteKey) -> LatchWaitSite {
    sites[choose|i: int| 0 <= i < sites.len() && (#[trigger] sites[i]).key() == k]
}

/// Later entries never rank before earlier ones.
pub open spec fn is_ranked(sites: Seq<LatchWaitSite>) -> bool {
    forall|i: int, j: int|
        #![trigger sites[i], sites[j]]
        0 <= i < j < sites.len() ==> !sites[j].ranks_before(&sites[i])
}

/// The waits of each call site.
pub struct LatchWaitRegistry {
    sites: Vec<LatchWaitSite>,
}

impl View for LatchWaitRegistry {
    type V = Map<SiteKey, SiteStats>;

    closed spec fn view(&self) -> Map<SiteKey, SiteStats> {
        by_site(self.sites@)
    }
}

proof fn lemma_site_of(sites: Seq<LatchWaitSite>, i: int)
    requires
        distinct_sites(sites),
        0 <= i < sites.len(),
    ensures
        by_site(sites).contains_key(sites[i].key()),
        by_site(sites)[sites[i].key()] == sites[i].stats(),
{
    let k = sites[i].key();
    let j = choose|j: int| 0 <= j < sites.len() && (#[trigger] sites[j]).key() == k;
    assert(sites[i].key() == k);
    assert(i == j);
}

proof fn lemma_change(a: Seq<LatchWaitSite>, i: int, site: LatchWaitSite)
    requires
        distinct_sites(a),
        0 <= i < a.len(),
        site.key() == a[i].key(),
    ensures
        distinct_sites(a.update(i, site)),
        by_site(a.update(i, site)) == by_site(a).insert(site.key(), site.stats()),
{
    let b = a.update(i, site);
    assert forall|k: SiteKey| by_site(b).contains_key(k) <==> by_site(a).insert(
        site.key(),
        site.stats(),
    ).contains_key(k) by {
        if by_site(b).contains_key(k) {
            let j = choose|j: int| 0 <= j < b.len() && (#[trigger] b[j]).key() == k;
            assert(a[j].key() == k);
        }
        if by_site(a).contains_key(k) {
            let j = choose|j: int| 0 <= j < a.len() && (#[trigger] a[j]).key() == k;
            assert(b[j].key() == k);
        }
        assert(b[i].key() == site.key());
    }
    assert forall|k: SiteKey| by_site(b).contains_key(k) implies by_site(b)[k] == by_site(a).insert(
        site.key(),
        site.stats(),
    )[k] by {
        let j = choose|j: int| 0 <= j < b.len() && (#[trigger] b[j]).key() == k;
        lemma_site_of(b, j);
        lemma_site_of(a, j);
        assert(a[j].key() == k);
        if k == site.key() {
            assert(j == i);
        }
    }
    assert(by_site(b) =~= by_site(a).insert(site.key(), site.stats()));
}

proof fn lemma_push(a: Seq<LatchWaitSite>, site: LatchWaitSite)
    requires
        distinct_sites(a),
        forall|i: int| 0 <= i < a.len() ==> (#[trigger] a[i]).key() != site.key(),
    ensures
        distinct_sites(a.push(site)),
        !by_site(a).contains_key(site.key()),
        by_site(a.push(site)) == by_site(a).insert(site.key(), site.stats()),
{
    let b = a.push(site);
    assert(distinct_sites(b));
    assert forall|k: SiteKey| by_site(b).contains_key(k) <==> by_site(a).insert(
        site.key(),
        site.stats(),
    ).contains_key(k) by {
        if by_site(b).contains_key(k) {
            let j = choose|j: int| 0 <= j < b.len() && (#[trigger] b[j]).key() == k;
            if j < a.len() {
                assert(a[j].key() == k);
            }
        }
        if by_site(a).contains_key(k) {
            let j = choose|j: int| 0 <= j < a.len() && (#[trigger] a[j]).key() == k;
            assert(b[j].key() == k);
        }
        assert(b[a.len() as int].key() == site.key());
    }
    assert forall|k: SiteKey| by_site(b).contains_key(k) implies by_site(b)[k] == by_site(a).insert(
        site.key(),
        site.stats(),
    )[k] by {
        let j = choose|j: int| 0 <= j < b.len() && (#[trigger] b[j]).key() == k;
        lemma_site_of(b, j);
        if j < a.len() {
            lemma_site_of(a, j);
            assert(a[j].key() == k);
        }
    }
    assert(by_site(b) =~= by_site(a).insert(site.key(), site.stats()));
}

impl Default for LatchWaitRegistry {
    fn default() -> (r: Self)
        ensures
            r@ == Map::<SiteKey, SiteStats>::empty(),
    {
        Self::new()
    }
}

impl LatchWaitRegistry {
    #[verifier::type_invariant]
    spec fn sites_are_distinct(self) -> bool {
        distinct_sites(self.sites@)
    }

    /// A registry that knows of no wait.
    pub fn new() -> (r: Self)
        ensures
            r@ == Map::<SiteKey, SiteStats>::empty(),
    {
        let r = LatchWaitRegistry { sites: Vec::new() };
        assert(r@ =~= Map::<SiteKey, SiteStats>::empty());
        r
    }

    /// Takes one more wait into account.
    pub fn record_latch_wait_site(
        &mut self,
        mode: LatchWaitMode,
        file: &'static str,
        line: u32,
        column: u32,
        wait_ns: u64,
    )
        ensures
            ({
                let key = SiteKey { mode, file: file.spec_bytes(), line, column };
                let before = if old(self)@.contains_key(key) {
                    old(self)@[key]
                } else {
                    no_waits()
                };
                final(self)@ == old(self)@.insert(key, one_more_wait(before, wait_ns))
            }),
    {
        proof {
            use_type_invariant(&*self);
        }
        let ghost key = SiteKey { mode, file: file.spec_bytes(), line, column };
        let count: usize = self.sites.len();
        let mut i: usize = 0;
        while i < count && !self.sites[i].is_at(mode, file, line, column)
            invariant
                i <= count,
                count == self.sites@.len(),
                *self == *old(self),
                key == (SiteKey { mode, file: file.spec_bytes(), line, column }),
                forall|j: int| 0 <= j < i ==> (#[trigger] self.sites@[j]).key() != key,
            decreases count - i,
        {
            i = i + 1;
        }
        let mut site = if i < count {
            self.sites[i].copied()
        } else {
            LatchWaitSite {
                mode,
                file,
                line,
                column,
                contended_acquires: 0,
                total_wait_ns: 0,
                max_wait_ns: 0,
            }
        };
        let ghost before = site.stats();
        site.contended_acquires = site.contended_acquires.saturating_add(1);
        site.total_wait_ns = site.total_wait_ns.saturating_add(wait_ns);
        if wait_ns > site.max_wait_ns {
            site.max_wait_ns = wait_ns;
        }
        assert(site.stats() == one_more_wait(before, wait_ns));
        let mut sites: Vec<LatchWaitSite> = Vec::new();
        std::mem::swap(&mut sites, &mut self.sites);
        if i < count {
            proof {
                lemma_site_of(sites@, i as int);
                lemma_change(sites@, i as int, site);
            }
            sites.set(i, site);
        } else {
            proof {
                lemma_push(sites@, site);
            }
            sites.push(site);
        }
        self.sites = sites;
    }

    /// The `limit` sites that rank first, in that order; all of them where there
    /// are no more.
    pub fn top_latch_wait_sites(&self, limit: usize) -> (r: Vec<LatchWaitSite>)
        ensures
            is_ranked(r@),
            distinct_sites(r@),
            self@.dom().finite(),
            r@.len() == if self@.dom().len() < limit {
                self@.dom().len()
            } else {
                limit as nat
            },
            forall|i: int|
                0 <= i < r@.len() ==> self@.contains_key((#[trigger] r@[i]).key())
                    && self@[r@[i].key()] == r@[i].stats(),
            r@.len() < limit ==> forall|k: SiteKey| #[trigger]
                self@.contains_key(k) ==> by_site(r@).contains_key(k),
            forall|s: LatchWaitSite, i: int|
                self@.contains_key(s.key()) && self@[s.key()] == s.stats() && !by_site(
                    r@,
                ).contains_key(s.key()) && 0 <= i < r@.len()
                    ==> !(#[trigger] s.ranks_before(&r@[i])),
    {
        proof {
            use_type_invariant(self);
        }
        let mut ranked = self.ranked();
        let ghost all = ranked@;
        proof {
            lemma_count(all);
        }
        if limit < ranked.len() {
            ranked.truncate(limit);
        }
        proof {
            assert(ranked@ =~= all.take(ranked@.len() as int));
            lemma_top(self.sites@, all, ranked@);
        }
        ranked
    }

    /// Every site, in rank order.
    fn ranked(&self) -> (r: Vec<LatchWaitSite>)
        ensures
            is_ranked(r@),
            distinct_sites(r@),
            by_site(r@) == self@,
    {
        proof {
            use_type_invariant(self);
        }
        let mut r: Vec<LatchWaitSite> = Vec::new();
        let count: usize = self.sites.len();
        let mut n: usize = 0;
        assert(by_site(r@) =~= by_site(self.sites@.take(0)));
        while n < count
            invariant
                n <= count,
                count == self.sites@.len(),
                distinct_sites(self.sites@),
                is_ranked(r@),
                distinct_sites(r@),
                by_site(r@) == by_site(self.sites@.take(n as int)),
            decreases count - n,
        {
            let site = self.sites[n].copied();
            let ghost a = self.sites@.take(n as int);
            assert(self.sites@.take(n + 1) =~= a.push(site));
            proof {
                lemma_push(a, site);
                lemma_absent(r@, site.key());
            }
            let mut pos: usize = r.len();
            while pos > 0 && site.is_before(&r[pos - 1])
                invariant
                    pos <= r@.len(),
                    forall|j: int| pos <= j < r@.len() ==> #[trigger] site.ranks_before(&r@[j]),
                decreases pos,
            {
                pos = pos - 1;
            }
            proof {
                lemma_insert(r@, pos as int, site);
            }
            r.insert(pos, site);
            n = n + 1;
        }
        assert(self.sites@.take(count as int) =~= self.sites@);
        r
    }
}

proof fn lemma_absent(a: Seq<LatchWaitSite>, k: SiteKey)
    requires
        !by_site(a).contains_key(k),
    ensures
        forall|i: int| 0 <= i < a.len() ==> (#[trigger] a[i]).key() != k,
{
    assert forall|i: int| 0 <= i < a.len() implies (#[trigger] a[i]).key() != k by {
        if a[i].key() == k {
            assert(by_site(a).contains_key(k));
        }
    }
}

/// Ranking is transitive, also through ties.
proof fn lemma_rank(a: LatchWaitSite, b: LatchWaitSite, c: LatchWaitSite)
    ensures
        a.ranks_before(&b) ==> !b.ranks_before(&a),
        a.ranks_before(&b) && !c.ranks_before(&b) ==> !c.ranks_before(&a),
        !a.ranks_before(&b) && !b.ranks_before(&c) ==> !a.ranks_before(&c),
{
    crate::bytes::lex_lt_total(a.file.spec_bytes(), b.file.spec_bytes());
    crate::bytes::lex_lt_total(b.file.spec_bytes(), c.file.spec_bytes());
    crate::bytes::lex_lt_total(a.file.spec_bytes(), c.file.spec_bytes());
}

#[verifier::rlimit(60)]
#[verifier::spinoff_prover]
proof fn lemma_insert(a: Seq<LatchWaitSite>, pos: int, site: LatchWaitSite)
    requires
        is_ranked(a),
        distinct_sites(a),
        0 <= pos <= a.len(),
        forall|j: int| pos <= j < a.len() ==> #[trigger] site.ranks_before(&a[j]),
        pos > 0 ==> !site.ranks_before(&a[pos - 1]),
        forall|i: int| 0 <= i < a.len() ==> (#[trigger] a[i]).key() != site.key(),
    ensures
        is_ranked(a.insert(pos, site)),
        distinct_sites(a.insert(pos, site)),
        by_site(a.insert(pos, site)) == by_site(a).insert(site.key(), site.stats()),
{
    let b = a.insert(pos, site);
    assert forall|i: int, j: int|
        #![trigger b[i], b[j]]
        0 <= i < j < b.len() implies !b[j].ranks_before(&b[i]) by {
        if j == pos {
            if i < pos - 1 {
                assert(!a[pos - 1].ranks_before(&a[i]));
                lemma_rank(site, a[pos - 1], a[i]);
            }
        } else if i == pos {
            lemma_rank(site, a[j - 1], a[j - 1]);
        }
    }
    assert forall|i: int, j: int| 0 <= i < j < b.len() implies (#[trigger] b[i]).key() != (
    #[trigger] b[j]).key() by {
        let ai = if i < pos { i } else { i - 1 };
        let aj = if j < pos { j } else { j - 1 };
        if i != pos {
            assert(b[i] == a[ai]);
        }
        if j != pos {
            assert(b[j] == a[aj]);
        }
    }
    let p = a.push(site);
    lemma_push(a, site);
    assert forall|k: SiteKey| by_site(b).contains_key(k) <==> by_site(p).contains_key(k) by {
        if by_site(b).contains_key(k) {
            let j = choose|j: int| 0 <= j < b.len() && (#[trigger] b[j]).key() == k;
            let m = if j < pos { j } else if j == pos { a.len() as int } else { j - 1 };
            assert(p[m].key() == k);
        }
        if by_site(p).contains_key(k) {
            let j = choose|j: int| 0 <= j < p.len() && (#[trigger] p[j]).key() == k;
            let m = if j == a.len() { pos } else if j < pos { j } else { j + 1 };
            assert(b[m].key() == k);
        }
    }
    assert forall|k: SiteKey| by_site(b).contains_key(k) implies by_site(b)[k]
        == by_site(p)[k] by {
        let j = choose|j: int| 0 <= j < b.len() && (#[trigger] b[j]).key() == k;
        let m = if j < pos { j } else if j == pos { a.len() as int } else { j - 1 };
        assert(p[m] == b[j]);
        lemma_site_of(b, j);
        lemma_site_of(p, m);
    }
    assert(by_site(b) =~= by_site(p));
}

/// There are as many sites as entries.
proof fn lemma_count(a: Seq<LatchWaitSite>)
    requires
        distinct_sites(a),
    ensures
        by_site(a).dom().finite(),
        by_site(a).dom().len() == a.len(),
    decreases a.len(),
{
    if a.len() == 0 {
        assert(by_site(a).dom() =~= Set::<SiteKey>::empty());
    } else {
        let rest = a.drop_last();
        let site = a.last();
        lemma_count(rest);
        assert(rest.push(site) =~= a);
        assert forall|i: int| 0 <= i < rest.len() implies (#[trigger] rest[i]).key()
            != site.key() by {
            assert(a[i].key() != a[a.len() - 1].key());
        }
        lemma_push(rest, site);
        assert(by_site(a).dom() =~= by_site(rest).dom().insert(site.key()));
    }
}

proof fn lemma_top(sites: Seq<LatchWaitSite>, all: Seq<LatchWaitSite>, top: Seq<LatchWaitSite>)
    requires
        is_ranked(all),
        distinct_sites(all),
        by_site(all) == by_site(sites),
        top.len() <= all.len(),
        top == all.take(top.len() as int),
    ensures
        is_ranked(top),
        distinct_sites(top),
        forall|i: int|
            0 <= i < top.len() ==> by_site(sites).contains_key((#[trigger] top[i]).key())
                && by_site(sites)[top[i].key()] == top[i].stats(),
        top.len() == all.len() ==> by_site(top) == by_site(sites),
        forall|s: LatchWaitSite, i: int|
            by_site(sites).contains_key(s.key()) && by_site(sites)[s.key()] == s.stats()
                && !by_site(top).contains_key(s.key()) && 0 <= i < top.len()
                ==> !(#[trigger] s.ranks_before(&top[i])),
{
    assert forall|i: int| 0 <= i < top.len() implies by_site(sites).contains_key(
        (#[trigger] top[i]).key(),
    ) && by_site(sites)[top[i].key()] == top[i].stats() by {
        lemma_site_of(all, i);
        assert(top[i] == all[i]);
    }
    if top.len() == all.len() {
        assert(top =~= all);
    }
    assert forall|s: LatchWaitSite, i: int|
        by_site(sites).contains_key(s.key()) && by_site(sites)[s.key()] == s.stats() && !by_site(
            top,
        ).contains_key(s.key()) && 0 <= i < top.len() implies !(#[trigger] s.ranks_before(
        &top[i],
    )) by {
        let k = s.key();
        assert(by_site(all).contains_key(k));
        let j = choose|j: int| 0 <= j < all.len() && (#[trigger] all[j]).key() == k;
        lemma_site_of(all, j);
        if j < top.len() {
            assert(top[j].key() == k);
            assert(by_site(top).contains_key(k));
        }
        assert(!all[j].ranks_before(&all[i]));
        assert(all[i] == top[i]);
        assert(s.file.spec_bytes() == all[j].file.spec_bytes());
    }
}

/// The sites to show for a registry: those that rank first where waits are
/// traced, none where they are not.
pub fn top_latch_wait_sites(registry: &LatchWaitRegistry, traced: bool, limit: usize) -> (r: Vec<
    LatchWaitSite,
>)
    ensures
        !traced ==> r@.len() == 0,
        traced ==> {
            &&& is_ranked(r@)
            &&& distinct_sites(r@)
            &&& registry@.dom().finite()
            &&& r@.len() == if registry@.dom().len() < limit {
                registry@.dom().len()
            } else {
                limit as nat
            }
            &&& forall|i: int|
                0 <= i < r@.len() ==> registry@.contains_key((#[trigger] r@[i]).key())
                    && registry@[r@[i].key()] == r@[i].stats()
            &&& r@.len() < limit ==> forall|k: SiteKey| #[trigger]
                registry@.contains_key(k) ==> by_site(r@).contains_key(k)
            &&& forall|s: LatchWaitSite, i: int|
                registry@.contains_key(s.key()) && registry@[s.key()] == s.stats() && !by_site(
                    r@,
                ).contains_key(s.key()) && 0 <= i < r@.len()
                    ==> !(#[trigger] s.ranks_before(&r@[i]))
        },
{
    if traced {
        registry.top_latch_wait_sites(limit)
    } else {
        Vec::new()
    }
}

/// Whether a setting switches the tracing of waits on.
pub fn trace_latch_waits_enabled(setting: Option<&str>) -> (r: bool)
    ensures
        r == (setting matches Some(s) && {
            ||| s.spec_bytes() == "1".spec_bytes()
            ||| s.spec_bytes() == "true".spec_bytes()
            ||| s.spec_bytes() == "TRUE".spec_bytes()
            ||| s.spec_bytes() == "yes".spec_bytes()
            ||| s.spec_bytes() == "YES".spec_bytes()
        }),
{
    match setting {
        Some(s) => {
            let b = s.as_bytes();
            keys_equal(b, "1".as_bytes()) || keys_equal(b, "true".as_bytes()) || keys_equal(
                b,
                "TRUE".as_bytes(),
            ) || keys_equal(b, "yes".as_bytes()) || keys_equal(b, "YES".as_bytes())
        },
        None => false,
    }
}

/// The upper bounds, in nanoseconds, of the classes into which waits are counted.
pub fn latch_wait_latency_bounds_ns() -> (r: [u64; 13])
    ensures
        r@ == seq![
            100u64,
            500,
            1_000,
            5_000,
            10_000,
            50_000,
            100_000,
            500_000,
            1_000_000,
            5_000_000,
            10_000_000,
            50_000_000,
            100_000_000,
        ],
{
    [
        100,
        500,
        1_000,
        5_000,
        10_000,
        50_000,
        100_000,
        500_000,
        1_000_000,
        5_000_000,
        10_000_000,
        50_000_000,
        100_000_000,
    ]
}

} // verus!
