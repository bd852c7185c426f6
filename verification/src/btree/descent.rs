//! How a traversal goes down to a leaf while others change the tree.
//!
//! A traversal latches one node at a time, or takes a snapshot of its version,
//! looks at it, and goes on to a child or to the right neighbour. What to do
//! after each look, check and fetch is decided here; the latches, the frames and
//! the loading of pages belong to the caller, who carries out what
//! [`Descent::action`] asks for and reports what came of it to
//! [`Descent::step`].
use vstd::prelude::*;

use super::edge::ParentEdge;
use super::node::{is_route, keys_view};
use super::stats::BTreeEvent;
use super::swip::{edge_of, RoutedChild, Swip, SwizzledNode};
use crate::bytes;

verus! {

/// A snapshot traversal looks at fewer nodes than this.
pub const MAX_OPTIMISTIC_STEPS: u32 = 256;

/// The ways of going down.
#[derive(Clone, Copy, Debug, PartialEq, Eq, Structural)]
pub enum Descent {
    /// By snapshots, to read the leaf.
    Optimistic,
    /// By snapshots, to change the leaf.
    Exclusive,
    /// Like `Exclusive`, with the root held in its frame from the start.
    ExclusiveFromFixedRoot,
    /// By snapshots, to change the leaf and the inner nodes above it.
    ExclusiveWithPath,
    /// Under shared latches, to change the leaf.
    ExclusiveFallback,
    /// Under shared latches, to change the leaf and the inner nodes above it.
    ExclusiveWithPathFallback,
    /// Under shared latches, to read the leaf.
    SharedFallback,
    /// Under shared latches, to read the leaf, without waiting for a page.
    SharedNonblocking,
}

/// How the leaf is taken.
#[derive(Clone, Copy, Debug, PartialEq, Eq, Structural)]
pub enum LeafMode {
    /// As it is.
    Read,
    /// By turning the snapshot into an exclusive latch.
    Upgrade,
    /// By giving up the shared latch and taking an exclusive one.
    Relatch,
}

/// What tells one way of going down from another.
#[derive(Clone, Copy, Debug, PartialEq, Eq, Structural)]
pub struct Policy {
    /// Nodes are read under snapshots, which are validated; otherwise under
    /// shared latches.
    pub optimistic: bool,
    /// A root in a frame is read where it is, before it is held there.
    pub root_shortcut: bool,
    /// A key beyond the leaf leads to the right; otherwise only an empty leaf
    /// will do, and any other is a reason to start over.
    pub follows_right: bool,
    /// Whether to wait for the right neighbour.
    pub waits_for_right: bool,
    /// Whether to wait for a child in a frame.
    pub waits_for_resident: bool,
    /// Whether to wait for a child to be loaded.
    pub waits_for_evicted: bool,
    /// The same below a root that is read where it is.
    pub waits_for_resident_at_root: bool,
    pub waits_for_evicted_at_root: bool,
    pub leaf: LeafMode,
    /// The inner nodes on the way are kept.
    pub keeps_path: bool,
    /// Only so many looks are made.
    pub limited: bool,
    /// What a start over counts as.
    pub guard_event: Option<BTreeEvent>,
    pub restart_event: Option<BTreeEvent>,
    pub upgrade_event: Option<BTreeEvent>,
}

pub open spec fn policy_of(descent: Descent) -> Policy {
    let by_snapshots = Policy {
        optimistic: true,
        root_shortcut: false,
        follows_right: true,
        waits_for_right: true,
        waits_for_resident: true,
        waits_for_evicted: true,
        waits_for_resident_at_root: true,
        waits_for_evicted_at_root: true,
        leaf: LeafMode::Upgrade,
        keeps_path: false,
        limited: false,
        guard_event: None,
        restart_event: Some(BTreeEvent::LeafDescentRestarts),
        upgrade_event: Some(BTreeEvent::LeafUpgradeRestarts),
    };
    let under_latches = Policy {
        optimistic: false,
        waits_for_resident: false,
        waits_for_evicted: false,
        leaf: LeafMode::Read,
        restart_event: None,
        upgrade_event: None,
        ..by_snapshots
    };
    match descent {
        Descent::Optimistic => Policy {
            root_shortcut: true,
            waits_for_right: false,
            waits_for_resident: false,
            waits_for_evicted: false,
            leaf: LeafMode::Read,
            limited: true,
            restart_event: None,
            upgrade_event: None,
            ..by_snapshots
        },
        Descent::Exclusive => Policy {
            root_shortcut: true,
            waits_for_resident_at_root: false,
            ..by_snapshots
        },
        Descent::ExclusiveFromFixedRoot => by_snapshots,
        Descent::ExclusiveWithPath => Policy {
            follows_right: false,
            keeps_path: true,
            guard_event: Some(BTreeEvent::SplitPathRestarts),
            restart_event: Some(BTreeEvent::SplitPathRestarts),
            upgrade_event: Some(BTreeEvent::SplitPathRestarts),
            ..by_snapshots
        },
        Descent::ExclusiveFallback => Policy { leaf: LeafMode::Relatch, ..under_latches },
        Descent::ExclusiveWithPathFallback => Policy {
            leaf: LeafMode::Relatch,
            keeps_path: true,
            ..under_latches
        },
        Descent::SharedFallback => Policy { waits_for_evicted: true, ..under_latches },
        Descent::SharedNonblocking => Policy { waits_for_right: false, ..under_latches },
    }
}

/// What a look at a node shows.
#[derive(Clone, Copy, Debug, PartialEq, Eq, Structural)]
pub enum Seen {
    /// A leaf: whether the key is beyond it, whether it is empty, and its right
    /// neighbour.
    Leaf { chase: bool, empty: bool, right: u64 },
    /// An inner node, and the child to go to; `None` where the node cannot be
    /// read.
    Inner { route: Option<RoutedChild> },
}

/// What happened to what the caller was asked to do.
#[derive(Clone, Copy, Debug, PartialEq, Eq, Structural)]
pub enum Event {
    /// The root is held in its frame.
    RootFixed,
    /// A writer is at work: no snapshot.
    Busy,
    /// The node was read.
    Saw(Seen),
    /// The snapshot still holds, or does not.
    Validated(bool),
    /// The page is held in its frame, or could not be without waiting.
    Fetched(bool),
    /// The leaf's latch is exclusive, or could not be made so.
    Upgraded(bool),
    /// The leaf's latch is exclusive; the leaf was looked at again.
    Relatched { chase: bool, right: u64 },
}

/// What the caller is asked to do.
#[derive(Clone, Copy, Debug, PartialEq, Eq, Structural)]
pub enum Action {
    /// Read the root where it is, under a snapshot.
    SnapshotRoot,
    /// Hold the root in its frame, waiting for it.
    FixRoot,
    /// Read the node under a snapshot.
    Snapshot,
    /// Read the node under a shared latch.
    LatchShared,
    /// Validate the snapshot.
    Validate,
    /// Hold a page that stands in a frame.
    Pin { pid: u64, wait: bool },
    /// Load a page and hold it.
    Load { pid: u64, wait: bool },
    /// Turn the snapshot into an exclusive latch.
    Upgrade,
    /// Trade the shared latch for an exclusive one and look again.
    Relatch,
    /// The leaf is found.
    Stop,
    /// Start over.
    StartOver,
}

/// How far a traversal has come.
#[derive(Clone, Copy, Debug, PartialEq, Eq, Structural)]
pub enum Stage {
    LookAtRoot,
    FixRoot,
    Look,
    CheckLeaf { empty: bool, right: u64 },
    FetchRight { right: u64 },
    CheckInner { child: RoutedChild, at_root: bool },
    FetchChild { child: RoutedChild, at_root: bool },
    CheckChild { child: RoutedChild, at_root: bool },
    TakeLeaf,
    Found,
    Restart,
}

/// Where the traversal goes with a step.
#[derive(Clone, Copy, Debug, PartialEq, Eq, Structural)]
pub enum Effect {
    Stay,
    /// To the right neighbour.
    GoRight,
    /// To the child. The node that is left is added to the path if `keep_path`
    /// is set; the child's edge gets a hot swip, if the latch on the parent can
    /// be made exclusive, where `swizzle` is set; the child learns its parent at
    /// once, or where `relink` is set only if the key is still routed to it.
    GoChild { child: RoutedChild, keep_path: bool, swizzle: bool, relink: bool },
}

#[derive(Clone, Copy, Debug, PartialEq, Eq, Structural)]
pub struct State {
    pub stage: Stage,
    pub steps: u32,
}

#[derive(Clone, Copy, Debug, PartialEq, Eq, Structural)]
pub struct Step {
    pub state: State,
    pub effect: Effect,
    pub event: Option<BTreeEvent>,
}

pub open spec fn stay(steps: u32, stage: Stage) -> Step {
    Step { state: State { stage, steps }, effect: Effect::Stay, event: None }
}

pub open spec fn restart(steps: u32, event: Option<BTreeEvent>) -> Step {
    Step { state: State { stage: Stage::Restart, steps }, effect: Effect::Stay, event }
}

/// On to the next look, unless there have been too many.
pub open spec fn look_next(p: Policy, steps: u32, effect: Effect) -> Step {
    if p.limited && steps + 1 >= MAX_OPTIMISTIC_STEPS {
        Step {
            state: State { stage: Stage::Restart, steps },
            effect,
            event: Some(BTreeEvent::LeafDescentRestarts),
        }
    } else {
        Step {
            state: State {
                stage: Stage::Look,
                steps: if p.limited {
                    (steps + 1) as u32
                } else {
                    steps
                },
            },
            effect,
            event: None,
        }
    }
}

/// On to the right neighbour, if there is one.
pub open spec fn to_right(steps: u32, right: u64) -> Step {
    if right == 0 {
        restart(steps, None)
    } else {
        stay(steps, Stage::FetchRight { right })
    }
}

pub open spec fn to_child(p: Policy, steps: u32, child: RoutedChild, at_root: bool) -> Step {
    Step {
        state: State { stage: Stage::FetchChild { child, at_root }, steps },
        effect: Effect::Stay,
        event: if p.optimistic && child.swip is Evicted {
            Some(BTreeEvent::ResolveCold)
        } else {
            None
        },
    }
}

pub open spec fn into_child(p: Policy, steps: u32, child: RoutedChild) -> Step {
    look_next(
        p,
        steps,
        Effect::GoChild {
            child,
            keep_path: p.keeps_path,
            swizzle: p.optimistic && child.swip is Evicted,
            relink: !p.optimistic && p.waits_for_evicted && child.swip is Evicted,
        },
    )
}

pub open spec fn counts(p: Policy, at_root: bool) -> Option<BTreeEvent> {
    if at_root {
        None
    } else {
        p.restart_event
    }
}

/// After a look at a node that is held.
pub open spec fn after_look(p: Policy, steps: u32, seen: Seen) -> Step {
    match seen {
        Seen::Leaf { chase: false, .. } => match p.leaf {
            LeafMode::Read => stay(steps, Stage::Found),
            _ => stay(steps, Stage::TakeLeaf),
        },
        Seen::Leaf { chase: true, empty, right } => if p.optimistic {
            Step {
                state: State { stage: Stage::CheckLeaf { empty, right }, steps },
                effect: Effect::Stay,
                event: Some(BTreeEvent::LeftChases),
            }
        } else {
            to_right(steps, right)
        },
        Seen::Inner { route: None } => restart(steps, p.restart_event),
        Seen::Inner { route: Some(child) } => if p.optimistic {
            stay(steps, Stage::CheckInner { child, at_root: false })
        } else {
            to_child(p, steps, child, false)
        },
    }
}

/// What follows from an event. An event that answers another question than the
/// one that was asked leads to a start over.
pub open spec fn next(p: Policy, s: State, event: Event) -> Step {
    let n = s.steps;
    match (s.stage, event) {
        (Stage::LookAtRoot, Event::Saw(Seen::Leaf { .. })) => stay(n, Stage::FixRoot),
        (Stage::LookAtRoot, Event::Saw(Seen::Inner { route: Some(child) })) => stay(
            n,
            Stage::CheckInner { child, at_root: true },
        ),
        (Stage::FixRoot, Event::RootFixed) => look_next(p, n, Effect::Stay),
        (Stage::Look, Event::Busy) => restart(n, p.guard_event),
        (Stage::Look, Event::Saw(seen)) => after_look(p, n, seen),
        (Stage::CheckLeaf { empty, right }, Event::Validated(valid)) => if !valid || (
        !p.follows_right && !empty) {
            restart(n, p.restart_event)
        } else if p.follows_right {
            to_right(n, right)
        } else {
            stay(n, Stage::TakeLeaf)
        },
        (Stage::FetchRight { .. }, Event::Fetched(true)) => look_next(p, n, Effect::GoRight),
        (Stage::CheckInner { child, at_root }, Event::Validated(valid)) => if valid {
            to_child(p, n, child, at_root)
        } else {
            restart(n, counts(p, at_root))
        },
        (Stage::FetchChild { child, at_root }, Event::Fetched(fetched)) => if !fetched {
            restart(n, counts(p, at_root))
        } else if p.optimistic {
            stay(n, Stage::CheckChild { child, at_root })
        } else {
            into_child(p, n, child)
        },
        (Stage::CheckChild { child, at_root }, Event::Validated(valid)) => if valid {
            into_child(p, n, child)
        } else {
            restart(n, counts(p, at_root))
        },
        (Stage::TakeLeaf, Event::Upgraded(upgraded)) => if upgraded {
            stay(n, Stage::Found)
        } else {
            restart(n, p.upgrade_event)
        },
        (Stage::TakeLeaf, Event::Relatched { chase, right }) => if chase {
            to_right(n, right)
        } else {
            stay(n, Stage::Found)
        },
        (Stage::Found, _) => stay(n, Stage::Found),
        _ => restart(n, None),
    }
}

pub open spec fn action_of(p: Policy, s: State) -> Action {
    match s.stage {
        Stage::LookAtRoot => Action::SnapshotRoot,
        Stage::FixRoot => Action::FixRoot,
        Stage::Look => if p.optimistic {
            Action::Snapshot
        } else {
            Action::LatchShared
        },
        Stage::CheckLeaf { .. } => Action::Validate,
        Stage::CheckInner { .. } => Action::Validate,
        Stage::CheckChild { .. } => Action::Validate,
        Stage::FetchRight { right } => Action::Load { pid: right, wait: p.waits_for_right },
        Stage::FetchChild { child, at_root } => match child.swip {
            Swip::Evicted(pid) => Action::Load {
                pid,
                wait: if at_root {
                    p.waits_for_evicted_at_root
                } else {
                    p.waits_for_evicted
                },
            },
            resident => Action::Pin {
                pid: resident.pid(),
                wait: if at_root {
                    p.waits_for_resident_at_root
                } else {
                    p.waits_for_resident
                },
            },
        },
        Stage::TakeLeaf => match p.leaf {
            LeafMode::Relatch => Action::Relatch,
            _ => Action::Upgrade,
        },
        Stage::Found => Action::Stop,
        Stage::Restart => Action::StartOver,
    }
}

fn go(steps: u32, stage: Stage) -> (r: Step)
    ensures
        r == stay(steps, stage),
{
    Step { state: State { stage, steps }, effect: Effect::Stay, event: None }
}

fn give_up(steps: u32, event: Option<BTreeEvent>) -> (r: Step)
    ensures
        r == restart(steps, event),
{
    Step { state: State { stage: Stage::Restart, steps }, effect: Effect::Stay, event }
}

fn go_right(steps: u32, right: u64) -> (r: Step)
    ensures
        r == to_right(steps, right),
{
    if right == 0 {
        give_up(steps, None)
    } else {
        go(steps, Stage::FetchRight { right })
    }
}

impl Policy {
    /// The state before the first step, when the tree's root is at `root`.
    pub fn start(&self, root: Swip) -> (r: State)
        ensures
            r.steps == 0,
            r.stage == (if self.root_shortcut && !(root is Evicted) {
                Stage::LookAtRoot
            } else {
                Stage::FixRoot
            }),
    {
        if self.root_shortcut && !root.is_evicted() {
            State { stage: Stage::LookAtRoot, steps: 0 }
        } else {
            State { stage: Stage::FixRoot, steps: 0 }
        }
    }

    fn go_on(&self, steps: u32, effect: Effect) -> (r: Step)
        requires
            self.limited ==> steps < MAX_OPTIMISTIC_STEPS,
        ensures
            r == look_next(*self, steps, effect),
    {
        if self.limited {
            if steps + 1 >= MAX_OPTIMISTIC_STEPS {
                Step {
                    state: State { stage: Stage::Restart, steps },
                    effect,
                    event: Some(BTreeEvent::LeafDescentRestarts),
                }
            } else {
                Step { state: State { stage: Stage::Look, steps: steps + 1 }, effect, event: None }
            }
        } else {
            Step { state: State { stage: Stage::Look, steps }, effect, event: None }
        }
    }

    fn fetch_child(&self, steps: u32, child: RoutedChild, at_root: bool) -> (r: Step)
        ensures
            r == to_child(*self, steps, child, at_root),
    {
        let event = if self.optimistic && child.swip.is_evicted() {
            Some(BTreeEvent::ResolveCold)
        } else {
            None
        };
        Step {
            state: State { stage: Stage::FetchChild { child, at_root }, steps },
            effect: Effect::Stay,
            event,
        }
    }

    fn enter_child(&self, steps: u32, child: RoutedChild) -> (r: Step)
        requires
            self.limited ==> steps < MAX_OPTIMISTIC_STEPS,
        ensures
            r == into_child(*self, steps, child),
    {
        let evicted = child.swip.is_evicted();
        self.go_on(
            steps,
            Effect::GoChild {
                child,
                keep_path: self.keeps_path,
                swizzle: self.optimistic && evicted,
                relink: !self.optimistic && self.waits_for_evicted && evicted,
            },
        )
    }

    fn counted_as(&self, at_root: bool) -> (r: Option<BTreeEvent>)
        ensures
            r == counts(*self, at_root),
    {
        if at_root {
            None
        } else {
            self.restart_event
        }
    }

    fn looked(&self, steps: u32, seen: Seen) -> (r: Step)
        ensures
            r == after_look(*self, steps, seen),
    {
        match seen {
            Seen::Leaf { chase, empty, right } => {
                if !chase {
                    return match self.leaf {
                        LeafMode::Read => go(steps, Stage::Found),
                        _ => go(steps, Stage::TakeLeaf),
                    };
                }
                if self.optimistic {
                    Step {
                        state: State { stage: Stage::CheckLeaf { empty, right }, steps },
                        effect: Effect::Stay,
                        event: Some(BTreeEvent::LeftChases),
                    }
                } else {
                    go_right(steps, right)
                }
            },
            Seen::Inner { route } => match route {
                None => give_up(steps, self.restart_event),
                Some(child) => if self.optimistic {
                    go(steps, Stage::CheckInner { child, at_root: false })
                } else {
                    self.fetch_child(steps, child, false)
                },
            },
        }
    }

    /// What the caller is to do in this state.
    pub fn action(&self, s: State) -> (r: Action)
        ensures
            r == action_of(*self, s),
    {
        match s.stage {
            Stage::LookAtRoot => Action::SnapshotRoot,
            Stage::FixRoot => Action::FixRoot,
            Stage::Look => if self.optimistic {
                Action::Snapshot
            } else {
                Action::LatchShared
            },
            Stage::CheckLeaf { .. } => Action::Validate,
            Stage::CheckInner { .. } => Action::Validate,
            Stage::CheckChild { .. } => Action::Validate,
            Stage::FetchRight { right } => Action::Load { pid: right, wait: self.waits_for_right },
            Stage::FetchChild { child, at_root } => match child.swip {
                Swip::Evicted(pid) => Action::Load {
                    pid,
                    wait: if at_root {
                        self.waits_for_evicted_at_root
                    } else {
                        self.waits_for_evicted
                    },
                },
                resident => Action::Pin {
                    pid: resident.swip_page_id(),
                    wait: if at_root {
                        self.waits_for_resident_at_root
                    } else {
                        self.waits_for_resident
                    },
                },
            },
            Stage::TakeLeaf => match self.leaf {
                LeafMode::Relatch => Action::Relatch,
                _ => Action::Upgrade,
            },
            Stage::Found => Action::Stop,
            Stage::Restart => Action::StartOver,
        }
    }

    /// What follows from what the caller reports.
    pub fn step(&self, s: State, event: Event) -> (r: Step)
        requires
            within_limit(*self, s),
        ensures
            r == next(*self, s, event),
            within_limit(*self, r.state),
    {
        let n: u32 = s.steps;
        match (s.stage, event) {
            (Stage::LookAtRoot, Event::Saw(Seen::Leaf { .. })) => go(n, Stage::FixRoot),
            (Stage::LookAtRoot, Event::Saw(Seen::Inner { route: Some(child) })) => go(
                n,
                Stage::CheckInner { child, at_root: true },
            ),
            (Stage::FixRoot, Event::RootFixed) => self.go_on(n, Effect::Stay),
            (Stage::Look, Event::Busy) => give_up(n, self.guard_event),
            (Stage::Look, Event::Saw(seen)) => self.looked(n, seen),
            (Stage::CheckLeaf { empty, right }, Event::Validated(valid)) => if !valid || (
            !self.follows_right && !empty) {
                give_up(n, self.restart_event)
            } else if self.follows_right {
                go_right(n, right)
            } else {
                go(n, Stage::TakeLeaf)
            },
            (Stage::FetchRight { .. }, Event::Fetched(true)) => self.go_on(n, Effect::GoRight),
            (Stage::CheckInner { child, at_root }, Event::Validated(valid)) => if valid {
                self.fetch_child(n, child, at_root)
            } else {
                give_up(n, self.counted_as(at_root))
            },
            (Stage::FetchChild { child, at_root }, Event::Fetched(fetched)) => if !fetched {
                give_up(n, self.counted_as(at_root))
            } else if self.optimistic {
                go(n, Stage::CheckChild { child, at_root })
            } else {
                self.enter_child(n, child)
            },
            (Stage::CheckChild { child, at_root }, Event::Validated(valid)) => if valid {
                self.enter_child(n, child)
            } else {
                give_up(n, self.counted_as(at_root))
            },
            (Stage::TakeLeaf, Event::Upgraded(upgraded)) => if upgraded {
                go(n, Stage::Found)
            } else {
                give_up(n, self.upgrade_event)
            },
            (Stage::TakeLeaf, Event::Relatched { chase, right }) => if chase {
                go_right(n, right)
            } else {
                go(n, Stage::Found)
            },
            (Stage::Found, _) => go(n, Stage::Found),
            _ => give_up(n, None),
        }
    }
}

impl Descent {
    pub fn policy(&self) -> (r: Policy)
        ensures
            r == policy_of(*self),
    {
        let by_snapshots = Policy {
            optimistic: true,
            root_shortcut: false,
            follows_right: true,
            waits_for_right: true,
            waits_for_resident: true,
            waits_for_evicted: true,
            waits_for_resident_at_root: true,
            waits_for_evicted_at_root: true,
            leaf: LeafMode::Upgrade,
            keeps_path: false,
            limited: false,
            guard_event: None,
            restart_event: Some(BTreeEvent::LeafDescentRestarts),
            upgrade_event: Some(BTreeEvent::LeafUpgradeRestarts),
        };
        let under_latches = Policy {
            optimistic: false,
            waits_for_resident: false,
            waits_for_evicted: false,
            leaf: LeafMode::Read,
            restart_event: None,
            upgrade_event: None,
            ..by_snapshots
        };
        match self {
            Descent::Optimistic => Policy {
                root_shortcut: true,
                waits_for_right: false,
                waits_for_resident: false,
                waits_for_evicted: false,
                leaf: LeafMode::Read,
                limited: true,
                restart_event: None,
                upgrade_event: None,
                ..by_snapshots
            },
            Descent::Exclusive => Policy {
                root_shortcut: true,
                waits_for_resident_at_root: false,
                ..by_snapshots
            },
            Descent::ExclusiveFromFixedRoot => by_snapshots,
            Descent::ExclusiveWithPath => Policy {
                follows_right: false,
                keeps_path: true,
                guard_event: Some(BTreeEvent::SplitPathRestarts),
                restart_event: Some(BTreeEvent::SplitPathRestarts),
                upgrade_event: Some(BTreeEvent::SplitPathRestarts),
                ..by_snapshots
            },
            Descent::ExclusiveFallback => Policy { leaf: LeafMode::Relatch, ..under_latches },
            Descent::ExclusiveWithPathFallback => Policy {
                leaf: LeafMode::Relatch,
                keeps_path: true,
                ..under_latches
            },
            Descent::SharedFallback => Policy { waits_for_evicted: true, ..under_latches },
            Descent::SharedNonblocking => Policy { waits_for_right: false, ..under_latches },
        }
    }
}

impl SwizzledNode {
    /// What a look at the node shows on the way to `key`.
    pub fn look(&self, key: &[u8]) -> (r: Seen)
        ensures
            match *self {
                SwizzledNode::Leaf(leaf) => r == (Seen::Leaf {
                    chase: leaf.right != 0 && (leaf.rows@.len() == 0 || bytes::lex_lt(
                        leaf.rows@.last().key@,
                        key@,
                    )),
                    empty: leaf.rows@.len() == 0,
                    right: leaf.right,
                }),
                SwizzledNode::Inner(inner) => r matches Seen::Inner { route } && (route is Some
                    <==> inner.is_whole()) && (route matches Some(routed) ==> exists|pos: int|
                    #![trigger inner.children@[pos]]
                    is_route(keys_view(inner.separators@), key@, pos) && routed.swip
                        == inner.children@[pos] && routed.edge == edge_of(
                        pos,
                        inner.separators@.len() as int,
                    )),
            },
    {
        match self {
            SwizzledNode::Leaf(leaf) => Seen::Leaf {
                chase: leaf.should_chase_right(key),
                empty: leaf.rows.len() == 0,
                right: leaf.right,
            },
            SwizzledNode::Inner(inner) => Seen::Inner { route: inner.try_route_to_child(key) },
        }
    }

    /// What a look at the node shows on the way to the last leaf.
    pub fn look_rightmost(&self) -> (r: Seen)
        ensures
            r == (match *self {
                SwizzledNode::Leaf(leaf) => Seen::Leaf {
                    chase: false,
                    empty: leaf.rows@.len() == 0,
                    right: leaf.right,
                },
                SwizzledNode::Inner(inner) => Seen::Inner {
                    route: if inner.is_whole() {
                        Some(
                            RoutedChild { swip: inner.children@.last(), edge: ParentEdge::Upper },
                        )
                    } else {
                        None
                    },
                },
            }),
    {
        match self {
            SwizzledNode::Leaf(leaf) => Seen::Leaf {
                chase: false,
                empty: leaf.rows.len() == 0,
                right: leaf.right,
            },
            SwizzledNode::Inner(inner) => Seen::Inner { route: inner.upper_child() },
        }
    }
}

/// The edge to give a child that was loaded while its parent was not latched:
/// the one it hangs on now, if the key is still routed to it.
pub fn relinked_edge(route: Option<RoutedChild>, child: u64) -> (r: Option<ParentEdge>)
    ensures
        r == (match route {
            Some(routed) => if routed.swip.pid() == child {
                Some(routed.edge)
            } else {
                None
            },
            None => None,
        }),
{
    match route {
        Some(routed) => if routed.swip.swip_page_id() == child {
            Some(routed.edge)
        } else {
            None
        },
        None => None,
    }
}

/// A limited traversal has looked at fewer nodes than the limit.
pub open spec fn within_limit(p: Policy, s: State) -> bool {
    p.limited ==> s.steps < MAX_OPTIMISTIC_STEPS
}

/// Under snapshots a child is entered only after the parent's snapshot was
/// validated with the child already held: the child cannot have been replaced
/// between the routing and the hold.
pub proof fn child_is_entered_after_validation(p: Policy, s: State, event: Event)
    requires
        p.optimistic,
        next(p, s, event).effect is GoChild,
    ensures
        s.stage is CheckChild,
        event == Event::Validated(true),
        next(p, s, event).effect->GoChild_child == s.stage->CheckChild_child,
{
}

/// Before that check the parent was validated once more, between the routing and
/// the fetch; and the child that is fetched is the one that was routed to.
pub proof fn child_is_fetched_after_validation(p: Policy, s: State, event: Event)
    requires
        p.optimistic,
        next(p, s, event).state.stage is FetchChild,
    ensures
        s.stage is CheckInner,
        event == Event::Validated(true),
        next(p, s, event).state.stage->FetchChild_child == s.stage->CheckInner_child,
{
}

/// A leaf is found only where the last look at it showed that the key is not
/// beyond it; the one exception is an empty leaf on a traversal that keeps its
/// path, after a validation.
pub proof fn found_leaf_covers_the_key(p: Policy, s: State, event: Event)
    requires
        !(s.stage is Found),
        next(p, s, event).state.stage is Found || next(p, s, event).state.stage is TakeLeaf,
    ensures
        ({
            ||| event matches Event::Saw(Seen::Leaf { chase, .. }) && !chase
            ||| event == Event::Upgraded(true) && s.stage is TakeLeaf
            ||| event matches Event::Relatched { chase, .. } && !chase
            ||| !p.follows_right && event == Event::Validated(true) && (
            s.stage matches Stage::CheckLeaf { empty, .. } && empty)
        }),
{
}

/// A traversal ends: after `Found` or `Restart` nothing happens.
pub proof fn ended_traversal_stays_ended(p: Policy, s: State, event: Event)
    requires
        s.stage is Found || s.stage is Restart,
    ensures
        next(p, s, event).state == s,
        next(p, s, event).effect is Stay,
{
}

/// The traversal that must not wait asks for no page to be waited for; and no
/// traversal waits for a page while it holds a shared latch on an inner node,
/// but for the one that gives the latch up first and relinks the child.
pub proof fn waiting_is_announced(descent: Descent, s: State)
    requires
        policy_of(descent).root_shortcut || match s.stage {
            Stage::FetchChild { at_root, .. } => !at_root,
            _ => true,
        },
    ensures
        descent is SharedNonblocking ==> match action_of(policy_of(descent), s) {
            Action::Pin { wait, .. } => !wait,
            Action::Load { wait, .. } => !wait,
            _ => true,
        },
        !policy_of(descent).optimistic && s.stage is FetchChild ==> match action_of(
            policy_of(descent),
            s,
        ) {
            Action::Pin { wait, .. } => !wait,
            Action::Load { wait, .. } => wait ==> descent is SharedFallback,
            _ => false,
        },
{
}

/// Every look of a limited traversal brings it nearer to the limit: it makes
/// fewer than [`MAX_OPTIMISTIC_STEPS`] of them.
pub proof fn looks_are_limited(p: Policy, s: State, event: Event)
    requires
        p.limited,
        within_limit(p, s),
    ensures
        within_limit(p, next(p, s, event).state),
        s.steps <= next(p, s, event).state.steps,
        next(p, s, event).state.stage is Look ==> next(p, s, event).state.steps == s.steps + 1,
{
}

} // verus!
