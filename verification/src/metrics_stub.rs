//! Counters that count nothing, for builds without telemetry.
use std::marker::PhantomData;

use vstd::prelude::*;

verus! {

/// One who would be shown the metrics.
pub trait MetricVisitor {

}

/// A counter that forgets.
#[derive(Clone, Copy, Debug, PartialEq, Eq, Structural)]
pub struct Counter;

impl Counter {
    pub fn new(_shards: usize) -> (r: Self)
        ensures
            r == Counter,
    {
        Counter
    }

    pub fn inc(&self) {
    }

    pub fn add(&self, _value: isize) {
    }
}

/// A counter for each label that forgets.
pub struct LabeledCounter<L>(PhantomData<L>);

impl<L> LabeledCounter<L> {
    pub fn new(_shards: usize) -> Self {
        LabeledCounter(PhantomData)
    }

    pub fn inc(&self, _label: L) {
    }

    pub fn add(&self, _label: L, _value: isize) {
    }
}

} // verus!
