//! The sizes that steer a tree: when buffers are flushed, when nodes are split
//! and merged.
use vstd::prelude::*;

use crate::page_id::PAGE_SIZE;

verus! {

#[derive(Clone, Copy, Debug)]
pub struct CowBeTreeConfig {
    pub flush_threshold_messages: usize,
    pub flush_threshold_bytes: usize,
    pub max_leaf_entries: usize,
    pub max_internal_children: usize,
    pub merge_leaf_entries: usize,
    pub merge_internal_children: usize,
}

impl Default for CowBeTreeConfig {
    fn default() -> (r: Self)
        ensures
            r == (CowBeTreeConfig {
                flush_threshold_messages: 256,
                flush_threshold_bytes: 16384,
                max_leaf_entries: usize::MAX,
                max_internal_children: 8,
                merge_leaf_entries: usize::MAX,
                merge_internal_children: 16,
            }),
    {
        proof {
            assert(is_sqrt(65536, 256));
            sqrt_unique(65536);
        }
        let flush_threshold_bytes: usize = default_flush_threshold_bytes(PAGE_SIZE);
        let children: usize = default_internal_children(PAGE_SIZE);
        Self {
            flush_threshold_messages: default_flush_threshold_messages(flush_threshold_bytes),
            flush_threshold_bytes,
            max_leaf_entries: usize::MAX,
            max_internal_children: children,
            merge_leaf_entries: usize::MAX,
            merge_internal_children: children * 2,
        }
    }
}

/// `value` moved into the range from `low` to `high`.
pub open spec fn clamped(value: int, low: int, high: int) -> int {
    if value < low {
        low
    } else if value > high {
        high
    } else {
        value
    }
}

/// `root` is the integer square root of `value`.
pub open spec fn is_sqrt(value: int, root: int) -> bool {
    0 <= root && root * root <= value < (root + 1) * (root + 1)
}

/// A number has one integer square root.
pub proof fn sqrt_unique(value: int)
    ensures
        forall|a: int, b: int| #[trigger] is_sqrt(value, a) && #[trigger] is_sqrt(value, b) ==> a == b,
{
    assert forall|a: int, b: int| #[trigger] is_sqrt(value, a) && #[trigger] is_sqrt(
        value,
        b,
    ) implies a == b by {
        if a < b {
            assert((a + 1) * (a + 1) <= b * b) by (nonlinear_arith)
                requires
                    0 <= a,
                    a + 1 <= b,
            ;
        }
        if b < a {
            assert((b + 1) * (b + 1) <= a * a) by (nonlinear_arith)
                requires
                    0 <= b,
                    b + 1 <= a,
            ;
        }
    }
}

fn clamp(value: usize, low: usize, high: usize) -> (r: usize)
    requires
        low <= high,
    ensures
        r == clamped(value as int, low as int, high as int),
{
    if value < low {
        low
    } else if value > high {
        high
    } else {
        value
    }
}

/// How many children a node has at most: one for every 32 of the square root of
/// the page size, which counts as 128 at least; from 4 to 64.
pub fn default_internal_children(page_size: usize) -> (r: usize)
    ensures
        forall|root: int| #[trigger]
            is_sqrt(page_size as int, root) ==> r == clamped(
                (if root < 128 {
                    128
                } else {
                    root
                }) / 32,
                4,
                64,
            ),
        4 <= r <= 64,
{
    let root: usize = integer_sqrt(page_size);
    proof {
        sqrt_unique(page_size as int);
    }
    let pivot_budget: usize = if root < 128 {
        128
    } else {
        root
    };
    clamp(pivot_budget / 32, 4, 64)
}

/// How many bytes of messages a buffer holds before it is flushed.
pub fn default_flush_threshold_bytes(page_size: usize) -> (r: usize)
    ensures
        r == clamped(page_size as int / 4, 1024, 262144),
{
    clamp(page_size / 4, 1024, 256 * 1024)
}

/// How many messages a buffer holds before it is flushed.
pub fn default_flush_threshold_messages(flush_threshold_bytes: usize) -> (r: usize)
    ensures
        r == clamped(flush_threshold_bytes as int / 64, 8, 4096),
{
    clamp(flush_threshold_bytes / 64, 8, 4096)
}

/// The integer square root.
pub fn integer_sqrt(value: usize) -> (r: usize)
    ensures
        is_sqrt(value as int, r as int),
{
    if value <= 1 {
        proof {
            assert(is_sqrt(0, 0)) by (nonlinear_arith);
            assert(is_sqrt(1, 1)) by (nonlinear_arith);
        }
        return value;
    }
    let mut low: usize = 1;
    let mut high: usize = value;
    assert(value < value * value) by (nonlinear_arith)
        requires
            value >= 2,
    ;
    while low + 1 < high
        invariant
            1 <= low < high <= value,
            low * low <= value < high * high,
        decreases high - low,
    {
        let mid: usize = low + (high - low) / 2;
        let q: usize = value / mid;
        assert(q * mid <= value < (q + 1) * mid) by (nonlinear_arith)
            requires
                mid > 0,
                q == value as int / mid as int,
        ;
        if mid <= value / mid {
            assert(mid * mid <= value) by (nonlinear_arith)
                requires
                    mid <= q,
                    q * mid <= value,
            ;
            low = mid;
        } else {
            assert(value < mid * mid) by (nonlinear_arith)
                requires
                    q + 1 <= mid,
                    value < (q + 1) * mid,
            ;
            high = mid;
        }
    }
    low
}

} // verus!
