//! The search for the edge of a page whose frame is to be given up.
//!
//! The parent of the page is not known, so the inner nodes are searched from the
//! root down, under snapshots and without waiting. The search decides here which
//! frame to look at next, when to begin again, and when to give up; the frames
//! and latches belong to the caller.
use vstd::prelude::*;

use super::stats::BTreeEvent;
use super::swip::{resident_pids, Swip, SwizzledNode};

verus! {

/// A search looks at no more nodes than this.
pub const MAX_EVICTION_UNSWIZZLE_VISITS: u32 = 262_144;

/// A search begins again no more often than this.
pub const MAX_EVICTION_UNSWIZZLE_RESTARTS: u32 = 64;

/// What is to be done for a page when the tree's root is at `root`.
#[derive(Clone, Copy, Debug, PartialEq, Eq, Structural)]
pub enum EvictionStart {
    /// The root is not in use in a frame: nothing can be done.
    NotFound,
    /// The page is the root: the tree's own swip gets its id.
    IsRoot,
    /// Hold the root and search.
    Search,
}

pub fn eviction_start(root: Swip, child: u64) -> (r: EvictionStart)
    ensures
        r == (if !(root is Hot) {
            EvictionStart::NotFound
        } else if root.pid() == child {
            EvictionStart::IsRoot
        } else {
            EvictionStart::Search
        }),
{
    if !root.is_hot() {
        EvictionStart::NotFound
    } else if root.swip_page_id() == child {
        EvictionStart::IsRoot
    } else {
        EvictionStart::Search
    }
}

/// What a look at an inner node shows.
pub struct EvictionLook {
    /// The page hangs here.
    pub hit: bool,
    /// An edge holds the id of the page.
    pub evicted_edge: bool,
    /// The node could be read.
    pub routes_ok: bool,
    /// The children that stand in frames.
    pub children: Vec<u64>,
}

impl SwizzledNode {
    /// What a look at the node shows in a search for `child`; `None` for a leaf.
    pub fn look_for(&self, child: u64) -> (r: Option<EvictionLook>)
        ensures
            match *self {
                SwizzledNode::Leaf(_) => r is None,
                SwizzledNode::Inner(inner) => r matches Some(look) && look.routes_ok
                    == inner.is_whole() && (look.hit <==> inner.is_whole() && exists|k: int|
                    0 <= k < inner.children@.len() && (#[trigger] inner.children@[k]).pid()
                        == child) && look.evicted_edge == inner.children@.contains(
                    Swip::Evicted(child),
                ) && look.children@ == resident_pids(inner.children@),
            },
    {
        match self {
            SwizzledNode::Leaf(_) => None,
            SwizzledNode::Inner(inner) => {
                let routes_ok = match inner.upper_child() {
                    Some(_) => true,
                    None => false,
                };
                let hit = match inner.child_edge_for(child) {
                    Some(edge) => {
                        proof {
                            let pos = super::edge::edge_pos(edge, inner.separators@.len() as u16);
                            assert(inner.children@[pos as int].pid() == child);
                        }
                        true
                    },
                    None => false,
                };
                Some(
                    EvictionLook {
                        hit,
                        evicted_edge: inner.has_evicted_edge(child),
                        routes_ok,
                        children: inner.resident_children(),
                    },
                )
            },
        }
    }
}

/// How far a search has come.
#[derive(Clone, Copy, Debug, PartialEq, Eq, Structural)]
pub enum EvictionStage {
    /// Hold the root, to begin.
    PinRoot,
    /// Take a snapshot of the node and look at it, if it stands in its frame.
    Visit(u64),
    /// Validate the snapshot of a node that the page hangs on.
    CheckEdge(u64),
    /// Make that node's latch exclusive and take the page off its edge.
    TakeEdge(u64),
    /// Validate the snapshot of a node whose children were noted.
    CheckRoutes(u64),
    /// The search has ended, with the page off its edge or not.
    Done(bool),
}

/// A search, with the frames that are still to be visited.
pub struct EvictionWalk {
    pub stage: EvictionStage,
    pub visited: u32,
    pub restarts: u32,
    pub stack: Vec<u64>,
}

/// A search as the rules see it.
#[verifier::ext_equal]
pub struct EvictionView {
    pub stage: EvictionStage,
    pub visited: u32,
    pub restarts: u32,
    pub stack: Seq<u64>,
}

impl View for EvictionWalk {
    type V = EvictionView;

    open spec fn view(&self) -> EvictionView {
        EvictionView {
            stage: self.stage,
            visited: self.visited,
            restarts: self.restarts,
            stack: self.stack@,
        }
    }
}

/// The counts are within the limits as far as the search goes on.
pub open spec fn within_limits(w: EvictionView) -> bool {
    &&& w.visited <= MAX_EVICTION_UNSWIZZLE_VISITS + 1
    &&& w.restarts <= MAX_EVICTION_UNSWIZZLE_RESTARTS + 1
    &&& !(w.stage is Done) ==> w.visited <= MAX_EVICTION_UNSWIZZLE_VISITS
    &&& !(w.stage is Done) && !(w.stage is PinRoot) ==> w.restarts
        <= MAX_EVICTION_UNSWIZZLE_RESTARTS
}

/// On to the frame noted last, or to the end where there is none or a limit is
/// passed.
pub open spec fn visit_next(w: EvictionView) -> EvictionView {
    if w.stack.len() == 0 {
        EvictionView { stage: EvictionStage::Done(false), ..w }
    } else {
        let visited = (w.visited + 1) as u32;
        EvictionView {
            stage: if visited > MAX_EVICTION_UNSWIZZLE_VISITS || w.restarts
                > MAX_EVICTION_UNSWIZZLE_RESTARTS {
                EvictionStage::Done(false)
            } else {
                EvictionStage::Visit(w.stack.last())
            },
            visited,
            restarts: w.restarts,
            stack: w.stack.drop_last(),
        }
    }
}

/// Begin again from the root.
pub open spec fn begin_again(w: EvictionView) -> EvictionView {
    EvictionView {
        stage: EvictionStage::PinRoot,
        visited: w.visited,
        restarts: (w.restarts + 1) as u32,
        stack: Seq::empty(),
    }
}

pub open spec fn at(w: EvictionView, stage: EvictionStage) -> EvictionView {
    EvictionView { stage, ..w }
}

impl EvictionWalk {
    pub fn start() -> (r: Self)
        ensures
            r@ == (EvictionView {
                stage: EvictionStage::PinRoot,
                visited: 0,
                restarts: 0,
                stack: Seq::empty(),
            }),
            within_limits(r@),
    {
        EvictionWalk { stage: EvictionStage::PinRoot, visited: 0, restarts: 0, stack: Vec::new() }
    }

    fn next(&mut self)
        requires
            old(self).visited <= MAX_EVICTION_UNSWIZZLE_VISITS,
        ensures
            final(self)@ == visit_next(old(self)@),
    {
        match self.stack.pop() {
            None => {
                self.stage = EvictionStage::Done(false);
            },
            Some(frame) => {
                self.visited = self.visited + 1;
                if self.visited > MAX_EVICTION_UNSWIZZLE_VISITS || self.restarts
                    > MAX_EVICTION_UNSWIZZLE_RESTARTS {
                    self.stage = EvictionStage::Done(false);
                } else {
                    self.stage = EvictionStage::Visit(frame);
                }
            },
        }
    }

    fn restart(&mut self)
        requires
            old(self).restarts <= MAX_EVICTION_UNSWIZZLE_RESTARTS,
        ensures
            final(self)@ == begin_again(old(self)@),
    {
        self.restarts = self.restarts + 1;
        self.stack = Vec::new();
        self.stage = EvictionStage::PinRoot;
    }

    /// After the root was held, or could not be.
    pub fn root_pinned(&mut self, root: Option<u64>)
        requires
            old(self).stage is PinRoot,
            within_limits(old(self)@),
        ensures
            within_limits(final(self)@),
            final(self)@ == (match root {
                Some(frame) => visit_next(
                    EvictionView { stack: old(self)@.stack.push(frame), ..old(self)@ },
                ),
                None => at(old(self)@, EvictionStage::Done(false)),
            }),
    {
        match root {
            Some(frame) => {
                self.stack.push(frame);
                self.next();
            },
            None => {
                self.stage = EvictionStage::Done(false);
            },
        }
    }

    /// After a frame was found to hold a leaf, to have been given up, or to be
    /// written to: it is left out.
    pub fn skipped(&mut self)
        requires
            old(self).stage is Visit,
            within_limits(old(self)@),
        ensures
            within_limits(final(self)@),
            final(self)@ == visit_next(old(self)@),
    {
        self.next();
    }

    /// After a look at an inner node, with the children that could be held. A
    /// node that the page hangs on is checked; one that cannot be read makes the
    /// search begin again; any other adds its children to the frames to visit.
    pub fn looked(&mut self, look: EvictionLook) -> (r: Option<BTreeEvent>)
        requires
            old(self).stage is Visit,
            within_limits(old(self)@),
        ensures
            within_limits(final(self)@),
            ({
                let w = old(self)@;
                let node = w.stage->Visit_0;
                let noted = EvictionView { stack: w.stack + look.children@, ..w };
                final(self)@ == (if look.hit {
                    at(w, EvictionStage::CheckEdge(node))
                } else if look.evicted_edge {
                    at(noted, EvictionStage::CheckEdge(node))
                } else if !look.routes_ok {
                    begin_again(w)
                } else {
                    at(noted, EvictionStage::CheckRoutes(node))
                })
            }),
            r == (if look.hit {
                Some(BTreeEvent::EvictionUnswizzleParentHits)
            } else if !look.evicted_edge && !look.routes_ok {
                Some(BTreeEvent::EvictionUnswizzleRestarts)
            } else {
                None
            }),
    {
        let node: u64 = match self.stage {
            EvictionStage::Visit(node) => node,
            _ => 0,
        };
        if look.hit {
            self.stage = EvictionStage::CheckEdge(node);
            return Some(BTreeEvent::EvictionUnswizzleParentHits);
        }
        if !look.evicted_edge && !look.routes_ok {
            self.restart();
            return Some(BTreeEvent::EvictionUnswizzleRestarts);
        }
        let mut children = look.children;
        self.stack.append(&mut children);
        if look.evicted_edge {
            self.stage = EvictionStage::CheckEdge(node);
        } else {
            self.stage = EvictionStage::CheckRoutes(node);
        }
        None
    }

    /// After the snapshot was validated, or found to be stale: then the search
    /// begins again.
    pub fn validated(&mut self, valid: bool) -> (r: Option<BTreeEvent>)
        requires
            old(self).stage is CheckEdge || old(self).stage is CheckRoutes,
            within_limits(old(self)@),
        ensures
            within_limits(final(self)@),
            final(self)@ == (if !valid {
                begin_again(old(self)@)
            } else {
                match old(self)@.stage {
                    EvictionStage::CheckEdge(node) => at(
                        old(self)@,
                        EvictionStage::TakeEdge(node),
                    ),
                    _ => visit_next(old(self)@),
                }
            }),
            r == (if valid {
                None
            } else {
                Some(BTreeEvent::EvictionUnswizzleRestarts)
            }),
    {
        if !valid {
            self.restart();
            return Some(BTreeEvent::EvictionUnswizzleRestarts);
        }
        match self.stage {
            EvictionStage::CheckEdge(node) => {
                self.stage = EvictionStage::TakeEdge(node);
            },
            _ => {
                self.next();
            },
        }
        None
    }

    /// After the node's latch was made exclusive, or could not be at once: then
    /// the search is given up.
    pub fn upgraded(&mut self, exclusive: bool) -> (r: Option<BTreeEvent>)
        requires
            old(self).stage is TakeEdge,
            within_limits(old(self)@),
        ensures
            within_limits(final(self)@),
            final(self)@ == at(old(self)@, EvictionStage::Done(exclusive)),
            r == (if exclusive {
                None
            } else {
                Some(BTreeEvent::EvictionUnswizzleUpgradeFailures)
            }),
    {
        self.stage = EvictionStage::Done(exclusive);
        if exclusive {
            None
        } else {
            Some(BTreeEvent::EvictionUnswizzleUpgradeFailures)
        }
    }
}

/// The frame that was noted last is visited first, and counts as one visit; while no
/// limit is passed, a search goes on as long as a frame is noted, and it never ends
/// here with the page off its edge.
pub proof fn last_noted_is_visited_first(w: EvictionView)
    requires
        within_limits(w),
        !(w.stage is Done),
    ensures
        ({
            let n = visit_next(w);
            &&& n.stage matches EvictionStage::Visit(frame) ==> w.stack == n.stack.push(frame)
                && n.visited == w.visited + 1
            &&& n.restarts == w.restarts
            &&& n.stage is Visit <==> w.stack.len() > 0 && w.visited
                < MAX_EVICTION_UNSWIZZLE_VISITS && w.restarts <= MAX_EVICTION_UNSWIZZLE_RESTARTS
            &&& n.stage is Visit || n.stage == EvictionStage::Done(false)
        }),
{
    if w.stack.len() > 0 {
        assert(w.stack =~= w.stack.drop_last().push(w.stack.last()));
    }
}

/// A search that begins again holds the root anew, with nothing noted; the visits that
/// it made still count.
pub proof fn new_beginning_notes_nothing(w: EvictionView)
    requires
        within_limits(w),
        !(w.stage is Done) && !(w.stage is PinRoot),
    ensures
        ({
            let n = begin_again(w);
            &&& n.stage is PinRoot
            &&& n.stack.len() == 0
            &&& n.restarts == w.restarts + 1
            &&& n.visited == w.visited
        }),
{
}

/// The work that is left to a search: it shrinks with every visit and with every
/// new beginning, so that a search ends.
pub open spec fn work_left(w: EvictionView) -> int {
    let visits = MAX_EVICTION_UNSWIZZLE_VISITS + 1 - w.visited;
    let restarts = MAX_EVICTION_UNSWIZZLE_RESTARTS + 1 - w.restarts;
    4 * (visits + restarts) + match w.stage {
        EvictionStage::PinRoot => 3int,
        EvictionStage::Visit(_) => 3,
        EvictionStage::CheckEdge(_) => 2,
        EvictionStage::CheckRoutes(_) => 2,
        EvictionStage::TakeEdge(_) => 1,
        EvictionStage::Done(_) => 0,
    }
}

/// Every step of a search that has not ended leaves less work: to a next visit,
/// to a new beginning, or to a further stage at the same node.
pub proof fn search_ends(w: EvictionView, node: u64)
    requires
        within_limits(w),
        !(w.stage is Done),
    ensures
        0 <= work_left(w),
        work_left(visit_next(w)) < work_left(w),
        !(w.stage is PinRoot) ==> work_left(begin_again(w)) < work_left(w),
        w.stage is Visit ==> work_left(at(w, EvictionStage::CheckEdge(node))) < work_left(w),
        w.stage is Visit ==> work_left(at(w, EvictionStage::CheckRoutes(node))) < work_left(w),
        w.stage is CheckEdge ==> work_left(at(w, EvictionStage::TakeEdge(node))) < work_left(w),
        work_left(at(w, EvictionStage::Done(true))) < work_left(w),
        work_left(at(w, EvictionStage::Done(false))) < work_left(w),
{
}

} // verus!
