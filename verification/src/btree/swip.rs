//! Pages as they stand in frames: children are reached through swips.
use vstd::prelude::*;

use super::edge::{edge_at, edge_pos, ParentEdge};
use super::node::{is_route, keys_view, route_to_child, Leaf};

verus! {

/// A reference to a page: its frame, which is in use or about to be evicted, or
/// only its id.
#[derive(Clone, Copy, Debug, PartialEq, Eq, Structural)]
pub enum Swip {
    Hot(u64),
    Cool(u64),
    Evicted(u64),
}

impl Swip {
    /// The page that is referred to.
    pub open spec fn pid(&self) -> u64 {
        match *self {
            Swip::Hot(pid) => pid,
            Swip::Cool(pid) => pid,
            Swip::Evicted(pid) => pid,
        }
    }

    pub fn is_hot(&self) -> (r: bool)
        ensures
            r == (*self is Hot),
    {
        matches!(self, Swip::Hot(_))
    }

    pub fn is_evicted(&self) -> (r: bool)
        ensures
            r == (*self is Evicted),
    {
        matches!(self, Swip::Evicted(_))
    }

    /// The page that is referred to, whether it stands in a frame or not.
    pub fn swip_page_id(&self) -> (r: u64)
        ensures
            r == self.pid(),
    {
        match self {
            Swip::Hot(pid) => *pid,
            Swip::Cool(pid) => *pid,
            Swip::Evicted(pid) => *pid,
        }
    }
}

/// A child, and the edge on which it hangs.
#[derive(Clone, Copy, Debug, PartialEq, Eq, Structural)]
pub struct RoutedChild {
    pub swip: Swip,
    pub edge: ParentEdge,
}

/// An inner node in a frame.
pub struct SwizzledInner {
    pub separators: Vec<Vec<u8>>,
    pub children: Vec<Swip>,
}

/// A node in a frame.
pub enum SwizzledNode {
    Leaf(Leaf),
    Inner(SwizzledInner),
}

/// The edge at a position among `count` separators.
pub open spec fn edge_of(pos: int, count: int) -> ParentEdge {
    edge_at(pos as u16, count as u16)
}

/// The page ids, other than 0, of the children that stand in no frame.
pub open spec fn evicted_pids(children: Seq<Swip>) -> Seq<u64>
    decreases children.len(),
{
    if children.len() == 0 {
        Seq::empty()
    } else {
        let rest = evicted_pids(children.drop_last());
        let last = children.last();
        if last is Evicted && last.pid() != 0 {
            rest.push(last.pid())
        } else {
            rest
        }
    }
}

/// The page ids of the children that stand in a frame.
pub open spec fn resident_pids(children: Seq<Swip>) -> Seq<u64>
    decreases children.len(),
{
    if children.len() == 0 {
        Seq::empty()
    } else {
        let rest = resident_pids(children.drop_last());
        if children.last() is Evicted {
            rest
        } else {
            rest.push(children.last().pid())
        }
    }
}

impl SwizzledInner {
    /// The node can be read: there is one child more than separators, and slots
    /// are numbered with 16 bits. What is read while a writer is at work may not
    /// be.
    pub open spec fn is_whole(&self) -> bool {
        self.children@.len() == self.separators@.len() + 1 && self.separators@.len() < u16::MAX
    }

    fn whole(&self) -> (r: bool)
        ensures
            r == self.is_whole(),
    {
        let children: usize = self.children.len();
        let separators: usize = self.separators.len();
        separators < 65535 && children == separators + 1
    }

    /// The child to go to for `key`; `None` where the node cannot be read.
    pub fn try_route_to_child(&self, key: &[u8]) -> (r: Option<RoutedChild>)
        ensures
            r is Some <==> self.is_whole(),
            r matches Some(routed) ==> exists|pos: int|
                #![trigger self.children@[pos]]
                is_route(keys_view(self.separators@), key@, pos) && routed.swip
                    == self.children@[pos] && routed.edge == edge_of(
                    pos,
                    self.separators@.len() as int,
                ),
    {
        if !self.whole() {
            return None;
        }
        let pos: usize = route_to_child(self.separators.as_slice(), key);
        let count: usize = self.separators.len();
        let swip = self.children[pos];
        Some(RoutedChild { swip, edge: ParentEdge::from_pos(pos as u16, count as u16) })
    }

    /// The last child; `None` where the node cannot be read.
    pub fn upper_child(&self) -> (r: Option<RoutedChild>)
        ensures
            r == (if self.is_whole() {
                Some(RoutedChild { swip: self.children@.last(), edge: ParentEdge::Upper })
            } else {
                None
            }),
    {
        if !self.whole() {
            return None;
        }
        let count: usize = self.separators.len();
        Some(RoutedChild { swip: self.children[count], edge: ParentEdge::Upper })
    }

    /// The first edge on which the page hangs; `None` where there is none, or
    /// where the node cannot be read.
    pub fn child_edge_for(&self, child: u64) -> (r: Option<ParentEdge>)
        ensures
            match r {
                Some(edge) => self.is_whole() && {
                    let pos = edge_pos(edge, self.separators@.len() as u16);
                    &&& pos <= self.separators@.len()
                    &&& edge == edge_of(pos as int, self.separators@.len() as int)
                    &&& self.children@[pos as int].pid() == child
                    &&& forall|k: int| 0 <= k < pos ==> (#[trigger] self.children@[k]).pid() != child
                },
                None => self.is_whole() ==> forall|k: int|
                    0 <= k < self.children@.len() ==> (#[trigger] self.children@[k]).pid() != child,
            },
    {
        if !self.whole() {
            return None;
        }
        let count: usize = self.separators.len();
        let mut pos: usize = 0;
        while pos <= count
            invariant
                self.is_whole(),
                count == self.separators@.len(),
                pos <= count + 1,
                forall|k: int| 0 <= k < pos ==> (#[trigger] self.children@[k]).pid() != child,
            decreases count + 1 - pos,
        {
            if self.children[pos].swip_page_id() == child {
                return Some(ParentEdge::from_pos(pos as u16, count as u16));
            }
            pos = pos + 1;
        }
        None
    }

    /// Puts another swip on an edge.
    pub fn set_child_edge_swip(&mut self, edge: ParentEdge, swip: Swip)
        requires
            old(self).is_whole(),
            edge_pos(edge, old(self).separators@.len() as u16) <= old(self).separators@.len(),
        ensures
            final(self).separators == old(self).separators,
            final(self).children@ == old(self).children@.update(
                edge_pos(edge, old(self).separators@.len() as u16) as int,
                swip,
            ),
    {
        let count: usize = self.separators.len();
        let pos: u16 = edge.pos(count as u16);
        self.children.set(pos as usize, swip);
    }

    /// Takes the page out of its frame as far as this node goes: its edge now
    /// holds only the id. Nothing changes, and `false` is returned, where the
    /// page does not hang here.
    pub fn unswizzle(&mut self, child: u64) -> (r: bool)
        ensures
            final(self).separators == old(self).separators,
            r ==> old(self).is_whole() && exists|pos: int|
                #![trigger old(self).children@[pos]]
                0 <= pos < old(self).children@.len() && old(self).children@[pos].pid() == child && (
                forall|k: int| 0 <= k < pos ==> (#[trigger] old(self).children@[k]).pid() != child)
                    && final(self).children@ == old(self).children@.update(
                    pos,
                    Swip::Evicted(child),
                ),
            !r ==> *final(self) == *old(self),
            r <==> old(self).is_whole() && exists|k: int|
                0 <= k < old(self).children@.len() && (#[trigger] old(self).children@[k]).pid()
                    == child,
    {
        match self.child_edge_for(child) {
            Some(edge) => {
                let ghost pos = edge_pos(edge, self.separators@.len() as u16) as int;
                assert(self.children@[pos].pid() == child);
                self.set_child_edge_swip(edge, Swip::Evicted(child));
                true
            },
            None => false,
        }
    }

    /// The children that stand in a frame, in order.
    pub fn resident_children(&self) -> (r: Vec<u64>)
        ensures
            r@ == resident_pids(self.children@),
    {
        let mut pids: Vec<u64> = Vec::new();
        let count: usize = self.children.len();
        let mut i: usize = 0;
        while i < count
            invariant
                i <= count,
                count == self.children@.len(),
                pids@ == resident_pids(self.children@.take(i as int)),
            decreases count - i,
        {
            proof {
                let next = self.children@.take(i + 1);
                assert(next.drop_last() =~= self.children@.take(i as int));
                assert(next.last() == self.children@[i as int]);
            }
            let swip = self.children[i];
            if !swip.is_evicted() {
                pids.push(swip.swip_page_id());
            }
            i = i + 1;
        }
        assert(self.children@.take(count as int) =~= self.children@);
        pids
    }

    /// An edge leads to the page, which stands in no frame.
    pub fn has_evicted_edge(&self, child: u64) -> (r: bool)
        ensures
            r == self.children@.contains(Swip::Evicted(child)),
    {
        let count: usize = self.children.len();
        let mut i: usize = 0;
        while i < count
            invariant
                i <= count,
                count == self.children@.len(),
                forall|k: int|
                    0 <= k < i ==> #[trigger] self.children@[k] != Swip::Evicted(child),
            decreases count - i,
        {
            let swip = self.children[i];
            if swip.is_evicted() && swip.swip_page_id() == child {
                assert(self.children@[i as int] == Swip::Evicted(child));
                return true;
            }
            i = i + 1;
        }
        false
    }
}

impl SwizzledNode {
    /// The children to load ahead of a traversal: those that stand in no frame,
    /// in order. Page 0 is none.
    pub fn collect_evicted_child_pids(&self) -> (r: Vec<u64>)
        ensures
            r@ == (match *self {
                SwizzledNode::Leaf(_) => Seq::empty(),
                SwizzledNode::Inner(inner) => evicted_pids(inner.children@),
            }),
    {
        let mut pids: Vec<u64> = Vec::new();
        match self {
            SwizzledNode::Leaf(_) => {},
            SwizzledNode::Inner(inner) => {
                let count: usize = inner.children.len();
                let mut i: usize = 0;
                while i < count
                    invariant
                        i <= count,
                        count == inner.children@.len(),
                        pids@ == evicted_pids(inner.children@.take(i as int)),
                    decreases count - i,
                {
                    proof {
                        let next = inner.children@.take(i + 1);
                        assert(next.drop_last() =~= inner.children@.take(i as int));
                        assert(next.last() == inner.children@[i as int]);
                    }
                    let swip = inner.children[i];
                    let pid: u64 = swip.swip_page_id();
                    if swip.is_evicted() && pid != 0 {
                        pids.push(pid);
                    }
                    i = i + 1;
                }
                assert(inner.children@.take(count as int) =~= inner.children@);
            },
        }
        pids
    }
}

/// Every page that is listed for loading hangs evicted on the node, and every
/// such page but 0 is listed.
pub proof fn listed_pages_are_evicted(children: Seq<Swip>, pid: u64)
    ensures
        evicted_pids(children).contains(pid) <==> pid != 0 && children.contains(
            Swip::Evicted(pid),
        ),
    decreases children.len(),
{
    if children.len() > 0 {
        let rest = children.drop_last();
        let last = children.last();
        listed_pages_are_evicted(rest, pid);
        assert(children =~= rest.push(last));
        if children.contains(Swip::Evicted(pid)) {
            let i = choose|i: int| 0 <= i < children.len() && children[i] == Swip::Evicted(pid);
            if i < rest.len() {
                assert(rest[i] == Swip::Evicted(pid));
            }
        }
        if rest.contains(Swip::Evicted(pid)) {
            let i = choose|i: int| 0 <= i < rest.len() && rest[i] == Swip::Evicted(pid);
            assert(children[i] == Swip::Evicted(pid));
        }
        let out = evicted_pids(rest);
        if last is Evicted && last.pid() != 0 {
            let all = out.push(last.pid());
            assert(all[out.len() as int] == last.pid());
            if all.contains(pid) {
                let i = choose|i: int| 0 <= i < all.len() && all[i] == pid;
                if i < out.len() {
                    assert(out[i] == pid);
                } else {
                    assert(children[rest.len() as int] == Swip::Evicted(pid));
                }
            }
            if out.contains(pid) {
                let i = choose|i: int| 0 <= i < out.len() && out[i] == pid;
                assert(all[i] == pid);
            }
        }
    }
}

} // verus!
