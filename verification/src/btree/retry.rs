//! When an operation that has to start over tries another way, pauses or gives
//! up, and how a point read goes down once snapshots have failed it.
use vstd::prelude::*;

use super::descent::{Descent, Effect, Seen};
use super::stats::BTreeEvent;
use super::swip::RoutedChild;

verus! {

/// Writers hold the root in its frame from this attempt on, and pause after
/// every so many.
pub const WRITE_FIXED_ROOT_THRESHOLD: u32 = 4;

/// Writers go down under latches from this attempt on.
pub const WRITE_BLOCKING_FALLBACK_THRESHOLD: u32 = 16;

/// Point reads try snapshots so often.
pub const LOOKUP_OPTIMISTIC_RESTART_LIMIT: u32 = 64;

/// Point reads pause after every so many attempts.
pub const LOOKUP_OPTIMISTIC_YIELD_INTERVAL: u32 = 4;

/// Scans go down under latches from this attempt on.
pub const SCAN_SHARED_THRESHOLD: u32 = 16;

/// Scans wait for pages from this attempt on.
pub const SCAN_BLOCKING_THRESHOLD: u32 = 64;

/// A split is offered to the parent so often.
pub const PUBLISH_RETRY_BUDGET: u32 = 100_000;

/// A split pauses after every so many offers.
pub const PUBLISH_YIELD_INTERVAL: u32 = 64;

/// How a writer goes down to the leaf after `attempts` failures.
pub fn write_descent(attempts: u32) -> (r: Descent)
    ensures
        r == (if attempts >= WRITE_BLOCKING_FALLBACK_THRESHOLD {
            Descent::ExclusiveFallback
        } else if attempts >= WRITE_FIXED_ROOT_THRESHOLD {
            Descent::ExclusiveFromFixedRoot
        } else {
            Descent::Exclusive
        }),
{
    if attempts >= WRITE_BLOCKING_FALLBACK_THRESHOLD {
        Descent::ExclusiveFallback
    } else if attempts >= WRITE_FIXED_ROOT_THRESHOLD {
        Descent::ExclusiveFromFixedRoot
    } else {
        Descent::Exclusive
    }
}

/// How a writer that may change inner nodes goes down after `attempts` failures.
pub fn path_descent(attempts: u32) -> (r: Descent)
    ensures
        r == (if attempts >= WRITE_BLOCKING_FALLBACK_THRESHOLD {
            Descent::ExclusiveWithPathFallback
        } else {
            Descent::ExclusiveWithPath
        }),
{
    if attempts >= WRITE_BLOCKING_FALLBACK_THRESHOLD {
        Descent::ExclusiveWithPathFallback
    } else {
        Descent::ExclusiveWithPath
    }
}

/// Whether a writer pauses when the attempt after `attempts` failures has failed
/// too.
pub fn write_pauses(attempts: u32) -> (r: bool)
    ensures
        r == (attempts >= WRITE_BLOCKING_FALLBACK_THRESHOLD || (attempts + 1)
            % WRITE_FIXED_ROOT_THRESHOLD as int == 0),
{
    if attempts >= WRITE_BLOCKING_FALLBACK_THRESHOLD {
        true
    } else {
        (attempts + 1) % WRITE_FIXED_ROOT_THRESHOLD == 0
    }
}

/// How a scan goes down to the next leaf after `attempts` failures.
pub fn scan_descent(attempts: u32) -> (r: Descent)
    ensures
        r == (if attempts >= SCAN_BLOCKING_THRESHOLD {
            Descent::SharedFallback
        } else if attempts >= SCAN_SHARED_THRESHOLD {
            Descent::SharedNonblocking
        } else {
            Descent::Optimistic
        }),
{
    if attempts >= SCAN_BLOCKING_THRESHOLD {
        Descent::SharedFallback
    } else if attempts >= SCAN_SHARED_THRESHOLD {
        Descent::SharedNonblocking
    } else {
        Descent::Optimistic
    }
}

/// Whether a scan pauses when the attempt after `attempts` failures has failed
/// too.
pub fn scan_pauses(attempts: u32) -> (r: bool)
    ensures
        r == (attempts >= SCAN_SHARED_THRESHOLD),
{
    attempts >= SCAN_SHARED_THRESHOLD
}

/// What a failed attempt means for the one who made it.
#[derive(Clone, Copy, Debug, PartialEq, Eq, Structural)]
pub enum Retry {
    /// Try again, after a pause if `pause` is set.
    Again { pause: bool },
    /// Try no more.
    GiveUp,
}

/// Takes the failure of a point read by snapshots into account.
pub fn retry_optimistic_lookup(attempts: &mut u32) -> (r: Retry)
    requires
        *old(attempts) < u32::MAX,
    ensures
        *final(attempts) == *old(attempts) + 1,
        r == (if *final(attempts) >= LOOKUP_OPTIMISTIC_RESTART_LIMIT {
            Retry::GiveUp
        } else {
            Retry::Again { pause: *final(attempts) % LOOKUP_OPTIMISTIC_YIELD_INTERVAL == 0 }
        }),
{
    *attempts = *attempts + 1;
    if *attempts >= LOOKUP_OPTIMISTIC_RESTART_LIMIT {
        Retry::GiveUp
    } else {
        Retry::Again { pause: *attempts % LOOKUP_OPTIMISTIC_YIELD_INTERVAL == 0 }
    }
}

/// What the `attempts`th refusal of a split by the tree means.
pub fn retry_publish(attempts: u32) -> (r: Retry)
    ensures
        r == (if attempts >= PUBLISH_RETRY_BUDGET {
            Retry::GiveUp
        } else {
            Retry::Again { pause: attempts % PUBLISH_YIELD_INTERVAL == 0 }
        }),
{
    if attempts >= PUBLISH_RETRY_BUDGET {
        Retry::GiveUp
    } else {
        Retry::Again { pause: attempts % PUBLISH_YIELD_INTERVAL == 0 }
    }
}

/// To whom a split is offered: to the last inner node on the way to the leaf, to
/// the root, or to whichever inner node a search of the whole tree finds.
#[derive(Clone, Copy, Debug, PartialEq, Eq, Structural)]
pub enum Offer {
    Path,
    Root,
    Search,
}

/// How far the publishing of a split has come.
#[derive(Clone, Copy, Debug, PartialEq, Eq, Structural)]
pub enum PublishStage {
    /// Offer the split.
    Offered(Offer),
    /// A node has taken it.
    Taken,
    /// It was refused too often.
    Refused,
}

/// The publishing of a split, in its `attempts`th round of offers.
#[derive(Clone, Copy, Debug, PartialEq, Eq, Structural)]
pub struct Publish {
    pub stage: PublishStage,
    pub attempts: u32,
}

/// What the answer to an offer leads to: the next offer, what is counted, and
/// whether there is a pause before the offer.
pub struct PublishStep {
    pub next: Publish,
    pub event: Option<BTreeEvent>,
    pub pause: bool,
}

/// The path is asked once, and in every round the root and then a search. A round
/// without success is counted; after the last one the split is refused.
pub open spec fn published(p: Publish, taken: bool) -> PublishStep {
    let quiet = |stage: PublishStage|
        PublishStep { next: Publish { stage, ..p }, event: None, pause: false };
    if taken {
        quiet(PublishStage::Taken)
    } else {
        match p.stage {
            PublishStage::Offered(Offer::Path) => quiet(PublishStage::Offered(Offer::Root)),
            PublishStage::Offered(Offer::Root) => quiet(PublishStage::Offered(Offer::Search)),
            _ => {
                let last = p.attempts >= PUBLISH_RETRY_BUDGET;
                PublishStep {
                    next: if last {
                        Publish { stage: PublishStage::Refused, ..p }
                    } else {
                        Publish {
                            stage: PublishStage::Offered(Offer::Root),
                            attempts: (p.attempts + 1) as u32,
                        }
                    },
                    event: Some(BTreeEvent::ParentPublishRestarts),
                    pause: !last && p.attempts % PUBLISH_YIELD_INTERVAL == 0,
                }
            },
        }
    }
}

/// A split that nobody takes is refused after as many rounds as are granted and no
/// more: the rounds are counted, none is skipped, and every one asks the root and then
/// searches.
pub proof fn split_is_offered_in_rounds(p: Publish)
    requires
        p.stage is Offered,
        1 <= p.attempts <= PUBLISH_RETRY_BUDGET,
    ensures
        ({
            let n = published(p, false).next;
            &&& published(p, true).next.stage is Taken
            &&& n.stage is Offered || n.stage is Refused
            &&& n.stage is Refused <==> p.stage == PublishStage::Offered(Offer::Search)
                && p.attempts == PUBLISH_RETRY_BUDGET
            &&& n.attempts <= PUBLISH_RETRY_BUDGET
            &&& n.attempts > p.attempts ==> n.attempts == p.attempts + 1 && n.stage
                == PublishStage::Offered(Offer::Root)
            &&& n.stage == PublishStage::Offered(Offer::Search) <==> p.stage
                == PublishStage::Offered(Offer::Root)
            &&& n.stage != PublishStage::Offered(Offer::Path)
            &&& published(p, false).event is Some <==> n.attempts > p.attempts || n.stage is Refused
        }),
{
}

impl Publish {
    /// The first offer goes to the path.
    pub fn start() -> (r: Self)
        ensures
            r == (Publish { stage: PublishStage::Offered(Offer::Path), attempts: 1 }),
    {
        Publish { stage: PublishStage::Offered(Offer::Path), attempts: 1 }
    }

    /// After an offer was answered.
    pub fn answered(&self, taken: bool) -> (r: PublishStep)
        requires
            self.stage is Offered,
        ensures
            r == published(*self, taken),
    {
        let attempts: u32 = self.attempts;
        if taken {
            return PublishStep {
                next: Publish { stage: PublishStage::Taken, attempts },
                event: None,
                pause: false,
            };
        }
        let offer = match self.stage {
            PublishStage::Offered(Offer::Path) => Offer::Root,
            PublishStage::Offered(Offer::Root) => Offer::Search,
            _ => {
                return match retry_publish(attempts) {
                    Retry::GiveUp => PublishStep {
                        next: Publish { stage: PublishStage::Refused, attempts },
                        event: Some(BTreeEvent::ParentPublishRestarts),
                        pause: false,
                    },
                    Retry::Again { pause } => PublishStep {
                        next: Publish {
                            stage: PublishStage::Offered(Offer::Root),
                            attempts: attempts + 1,
                        },
                        event: Some(BTreeEvent::ParentPublishRestarts),
                        pause,
                    },
                };
            },
        };
        PublishStep {
            next: Publish { stage: PublishStage::Offered(offer), attempts },
            event: None,
            pause: false,
        }
    }
}

/// How far a point read under shared latches has come.
#[derive(Clone, Copy, Debug, PartialEq, Eq, Structural)]
pub enum LookupStage {
    /// Hold the root in its frame, waiting for it.
    FixRoot,
    /// Latch the node and look at it.
    Look,
    /// Hold the right neighbour, waiting for it if `wait` is set.
    FetchRight { right: u64, wait: bool },
    /// Hold the child, waiting for it if `wait` is set; the latch is given up
    /// before a wait.
    FetchChild { child: RoutedChild, wait: bool },
    /// The leaf is held: read it.
    Read,
    /// There is nothing to read.
    Absent,
}

#[derive(Clone, Copy, Debug, PartialEq, Eq, Structural)]
pub struct LookupWalk {
    pub stage: LookupStage,
    pub attempts: u32,
}

pub open spec fn more_attempts(attempts: u32) -> u32 {
    if attempts == u32::MAX {
        attempts
    } else {
        (attempts + 1) as u32
    }
}

impl LookupWalk {
    pub fn start() -> (r: Self)
        ensures
            r == (LookupWalk { stage: LookupStage::FixRoot, attempts: 0 }),
    {
        LookupWalk { stage: LookupStage::FixRoot, attempts: 0 }
    }

    /// After the root is held.
    pub fn root_fixed(&self) -> (r: Self)
        ensures
            r == (LookupWalk { stage: LookupStage::Look, attempts: self.attempts }),
    {
        LookupWalk { stage: LookupStage::Look, attempts: self.attempts }
    }

    /// After a look: a key beyond the leaf leads to the right, if there is
    /// anything; another leaf is read; an inner node leads to a child, if it can
    /// be read.
    pub fn looked(&self, seen: Seen) -> (r: Self)
        ensures
            r.attempts == self.attempts,
            r.stage == (match seen {
                Seen::Leaf { chase, right, .. } => if !chase {
                    LookupStage::Read
                } else if right == 0 {
                    LookupStage::Absent
                } else {
                    LookupStage::FetchRight { right, wait: false }
                },
                Seen::Inner { route: Some(child) } => LookupStage::FetchChild {
                    child,
                    wait: false,
                },
                Seen::Inner { route: None } => LookupStage::Absent,
            }),
    {
        let stage = match seen {
            Seen::Leaf { chase, right, .. } => if !chase {
                LookupStage::Read
            } else if right == 0 {
                LookupStage::Absent
            } else {
                LookupStage::FetchRight { right, wait: false }
            },
            Seen::Inner { route } => match route {
                Some(child) => LookupStage::FetchChild { child, wait: false },
                None => LookupStage::Absent,
            },
        };
        LookupWalk { stage, attempts: self.attempts }
    }

    /// After a page was held, or could not be without waiting. A page that is to
    /// be loaded is then waited for; a child that stands in a frame is looked for
    /// again from the root, until there have been too many attempts.
    pub fn fetched(&self, held: bool) -> (r: (Self, Effect))
        requires
            self.stage is FetchRight || self.stage is FetchChild,
        ensures
            r == (match self.stage {
                LookupStage::FetchRight { right, wait } => if held {
                    (LookupWalk { stage: LookupStage::Look, ..*self }, Effect::GoRight)
                } else {
                    (
                        LookupWalk {
                            stage: LookupStage::FetchRight { right, wait: true },
                            attempts: more_attempts(self.attempts),
                        },
                        Effect::Stay,
                    )
                },
                LookupStage::FetchChild { child, wait } => if held {
                    (
                        LookupWalk { stage: LookupStage::Look, ..*self },
                        Effect::GoChild { child, keep_path: false, swizzle: false, relink: wait },
                    )
                } else if child.swip is Evicted {
                    (
                        LookupWalk {
                            stage: LookupStage::FetchChild { child, wait: true },
                            ..*self
                        },
                        Effect::Stay,
                    )
                } else {
                    (
                        LookupWalk {
                            stage: if more_attempts(self.attempts)
                                >= LOOKUP_OPTIMISTIC_RESTART_LIMIT {
                                LookupStage::Absent
                            } else {
                                LookupStage::FixRoot
                            },
                            attempts: more_attempts(self.attempts),
                        },
                        Effect::Stay,
                    )
                },
                _ => (*self, Effect::Stay),
            }),
    {
        match self.stage {
            LookupStage::FetchRight { right, .. } => {
                if held {
                    (
                        LookupWalk { stage: LookupStage::Look, attempts: self.attempts },
                        Effect::GoRight,
                    )
                } else {
                    (
                        LookupWalk {
                            stage: LookupStage::FetchRight { right, wait: true },
                            attempts: self.attempts.saturating_add(1),
                        },
                        Effect::Stay,
                    )
                }
            },
            LookupStage::FetchChild { child, wait } => {
                if held {
                    (
                        LookupWalk { stage: LookupStage::Look, attempts: self.attempts },
                        Effect::GoChild { child, keep_path: false, swizzle: false, relink: wait },
                    )
                } else if child.swip.is_evicted() {
                    (
                        LookupWalk {
                            stage: LookupStage::FetchChild { child, wait: true },
                            attempts: self.attempts,
                        },
                        Effect::Stay,
                    )
                } else {
                    let attempts: u32 = self.attempts.saturating_add(1);
                    let stage = if attempts >= LOOKUP_OPTIMISTIC_RESTART_LIMIT {
                        LookupStage::Absent
                    } else {
                        LookupStage::FixRoot
                    };
                    (LookupWalk { stage, attempts }, Effect::Stay)
                }
            },
            _ => (*self, Effect::Stay),
        }
    }
}

} // verus!
