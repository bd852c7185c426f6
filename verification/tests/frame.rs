use std::sync::atomic::Ordering;

use pagebox::frame::{
    exchanged_states, is_valid_frame_state_tag, AtomicFrameState, FrameCoreHeader, FrameState,
    PaddedAtomicU32,
};
use pagebox::page_id::{
    decode_page_id, decoded_page_number, page_base_span, page_end_base_page, page_size,
    physical_page_number, PageId, PAGE_SIZE,
};

#[test]
fn page_id_basic_properties() {
    let pid: PageId = 42;
    assert_eq!(decode_page_id(pid), Some(((), 42)));
    assert_eq!(physical_page_number(pid), 42);
    assert_eq!(page_size(pid), PAGE_SIZE);
    assert_eq!(page_base_span(pid), 1);
    assert_eq!(page_end_base_page(pid), 42);
}

#[test]
fn decode_page_id_rejects_zero() {
    assert_eq!(decode_page_id(0), None);
}

#[test]
fn all_pages_are_same_size() {
    for pid in 1..1000 {
        assert_eq!(page_size(pid), PAGE_SIZE);
        assert_eq!(page_base_span(pid), 1);
        assert_eq!(page_end_base_page(pid), pid);
    }
}

#[test]
fn decoded_page_number_is_the_page_id() {
    assert_eq!(decoded_page_number(7), 7);
    assert_eq!(PAGE_SIZE, 65_536);
}

#[test]
fn frame_state_tags_round_trip() {
    let states = [
        FrameState::Free,
        FrameState::Loading,
        FrameState::Resident,
        FrameState::Evicting,
    ];
    for (tag, state) in states.iter().enumerate() {
        assert_eq!(state.tag(), tag as u8);
        assert_eq!(FrameState::from_u8(tag as u8), *state);
        assert!(is_valid_frame_state_tag(tag as u8));
    }
    assert!(!is_valid_frame_state_tag(4));
    assert!(!is_valid_frame_state_tag(255));
}

#[test]
fn atomic_frame_state_moves_between_states() {
    let cell = AtomicFrameState::new(FrameState::Free);
    assert_eq!(cell.load(Ordering::Acquire), FrameState::Free);
    cell.store(FrameState::Loading, Ordering::Release);
    assert_eq!(cell.load(Ordering::Acquire), FrameState::Loading);
    assert_eq!(
        cell.compare_exchange(
            FrameState::Loading,
            FrameState::Resident,
            Ordering::AcqRel,
            Ordering::Acquire
        ),
        Ok(FrameState::Loading)
    );
    assert_eq!(
        cell.compare_exchange(
            FrameState::Loading,
            FrameState::Evicting,
            Ordering::AcqRel,
            Ordering::Acquire
        ),
        Err(FrameState::Resident)
    );
}

#[test]
fn exchanged_states_name_the_tags() {
    assert_eq!(exchanged_states(Ok(3)), Ok(FrameState::Evicting));
    assert_eq!(exchanged_states(Err(0)), Err(FrameState::Free));
}

#[test]
fn padded_counter_counts() {
    let count = PaddedAtomicU32::new(5);
    assert_eq!(count.fetch_add(2, Ordering::AcqRel), 5);
    assert_eq!(count.fetch_sub(3, Ordering::AcqRel), 7);
    assert_eq!(count.load(Ordering::Acquire), 4);
    count.store(1, Ordering::Release);
    assert_eq!(count.load(Ordering::Acquire), 1);
}

#[test]
fn free_header_is_clean() {
    let header = FrameCoreHeader::new_free();
    assert_eq!(header.pid, 0);
    assert_eq!(header.pin_count.load(Ordering::Relaxed), 0);
    assert_eq!(header.state.load(Ordering::Relaxed), FrameState::Free);
    assert!(!header.dirty.load(Ordering::Relaxed));
    assert!(!header.referenced.load(Ordering::Relaxed));
    assert_eq!(header.page_lsn.load(Ordering::Relaxed), 0);
    assert_eq!(header.wal_buffer_epoch.load(Ordering::Relaxed), 0);
}
