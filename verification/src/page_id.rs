//! Page identifiers and the fixed page size.
use vstd::prelude::*;

verus! {

/// Size in bytes of every page. A power of two, at least the hardware page
/// size of 4096.
pub const PAGE_SIZE: usize = 64 * 1024;

pub type PageId = u64;

pub type Lsn = u64;

/// Where a page hangs under its parent inner page.
#[derive(Clone, Copy, Debug, PartialEq, Eq, Structural)]
pub struct InnerParentLink {
    pub parent_pid: PageId,
    pub slot_index: u16,
    pub is_upper: bool,
    pub dt_id: u16,
}

/// Page 0 is reserved for the page-store header; every other id names a page.
pub open spec fn is_page_id(pid: PageId) -> bool {
    pid != 0
}

/// Validate that `pid` refers to a real page (nonzero).
pub fn decode_page_id(pid: PageId) -> (r: Option<((), u64)>)
    ensures
        r == (if is_page_id(pid) { Some(((), pid)) } else { None }),
{
    if pid == 0 {
        return None;
    }
    Some(((), pid))
}

/// The physical page number is the page id itself.
pub fn physical_page_number(pid: PageId) -> (r: u64)
    ensures
        r == pid,
{
    pid
}

/// The decoded page number is the page id itself; id 0 has none.
pub fn decoded_page_number(pid: PageId) -> (r: u64)
    requires
        is_page_id(pid),
    ensures
        r == pid,
{
    pid
}

/// One page is one base page.
pub fn page_base_span(_pid: PageId) -> (r: usize)
    ensures
        r == 1,
{
    1
}

/// All pages are `PAGE_SIZE` bytes.
pub fn page_size(_pid: PageId) -> (r: usize)
    ensures
        r == PAGE_SIZE,
{
    PAGE_SIZE
}

/// The last base page covered by this id.
pub fn page_end_base_page(pid: PageId) -> (r: u64)
    ensures
        r == pid,
{
    pid
}

} // verus!
