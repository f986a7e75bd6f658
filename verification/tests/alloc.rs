use walnut_mm::addr::VirtAddr;
use walnut_mm::allocator::{AllocError, MaqAllocator};
use walnut_mm::page::{PageState, PageStateList};

const HEAP_START: u64 = 0x8000_0000;
const PAGE: u64 = 4096;

/// A 64-page heap; its descriptor array occupies the first 64 bytes of the
/// heap, so the usable region starts one page in.
fn heap64() -> MaqAllocator {
    MaqAllocator::new(HEAP_START, 64 * PAGE)
}

#[test]
fn new_allocator_is_empty_and_page_aligned() {
    let a = heap64();
    assert_eq!(a.descriptors.capacity(), 64);
    assert_eq!(a.descriptors.base.as_u64(), HEAP_START + PAGE);
    assert_eq!(a.descriptors.pages_in_use(), 0);
    for i in 0..64 {
        assert!(a.descriptors.state_at(i).is_empty());
        assert!(!a.descriptors.state_at(i).is_last());
    }
}

#[test]
fn sixty_four_page_scenario() {
    let mut a = heap64();
    // three pages come from the first-fit run at frame 0
    let p = a.alloc_pages(3).unwrap();
    assert_eq!(p, HEAP_START + PAGE);
    assert!(a.descriptors.state_at(0).is_taken());
    assert!(!a.descriptors.state_at(0).is_last());
    assert!(a.descriptors.state_at(1).is_taken());
    assert!(!a.descriptors.state_at(1).is_last());
    assert!(a.descriptors.state_at(2).is_taken());
    assert!(a.descriptors.state_at(2).is_last());
    assert!(a.descriptors.state_at(3).is_empty());
    // releasing the run restores all three descriptors
    assert_eq!(a.free(p), Ok(()));
    for i in 0..64 {
        assert!(a.descriptors.state_at(i).is_empty());
    }
    // the whole heap can then be taken in one run
    let whole = a.alloc_pages(64).unwrap();
    assert_eq!(whole, HEAP_START + PAGE);
    assert_eq!(a.descriptors.pages_in_use(), 64);
    assert!(a.descriptors.state_at(63).is_last());
}

#[test]
fn alloc_is_first_fit_and_runs_are_disjoint() {
    let mut a = heap64();
    let p0 = a.alloc_pages(1).unwrap();
    let p1 = a.alloc_pages(2).unwrap();
    assert_eq!(p0, HEAP_START + PAGE);
    assert_eq!(p1, HEAP_START + PAGE + PAGE);
    // the hole at frame 0 is reused first
    assert_eq!(a.free(p0), Ok(()));
    let p2 = a.alloc_pages(1).unwrap();
    assert_eq!(p2, p0);
    // a two-page run no longer fits before the live run
    let p3 = a.alloc_pages(2).unwrap();
    assert_eq!(p3, HEAP_START + 4 * PAGE);
    assert_eq!(a.descriptors.pages_in_use(), 5);
}

#[test]
fn free_clears_exactly_its_run() {
    let mut a = heap64();
    let p_a = a.alloc_pages(2).unwrap();
    let p_b = a.alloc_pages(3).unwrap();
    assert_eq!(a.free(p_a), Ok(()));
    assert!(a.descriptors.state_at(0).is_empty());
    assert!(a.descriptors.state_at(1).is_empty());
    assert!(a.descriptors.state_at(2).is_taken());
    assert!(a.descriptors.state_at(3).is_taken());
    assert!(a.descriptors.state_at(4).is_taken());
    assert!(a.descriptors.state_at(4).is_last());
    assert_eq!(a.descriptors.pages_in_use(), 3);
    assert_eq!(a.free(p_b), Ok(()));
    assert_eq!(a.descriptors.pages_in_use(), 0);
}

#[test]
fn exhaustion_is_an_absent_result() {
    let mut a = heap64();
    assert_eq!(a.alloc_pages(65), None);
    let p = a.alloc_pages(60).unwrap();
    assert_eq!(a.alloc_pages(5), None);
    assert_eq!(a.alloc_pages(4).unwrap(), HEAP_START + 61 * PAGE);
    let _ = p;
}

#[test]
fn double_free_is_refused_without_corruption() {
    let mut a = heap64();
    let p = a.alloc_pages(2).unwrap();
    let q = a.alloc_pages(1).unwrap();
    assert_eq!(a.free(p), Ok(()));
    // the run is gone: the walk meets a free descriptor first
    assert_eq!(a.free(p), Err(AllocError::DoubleFree));
    // the neighbouring live run is untouched
    assert!(a.descriptors.state_at(2).is_taken());
    assert!(a.descriptors.state_at(2).is_last());
    assert_eq!(a.descriptors.pages_in_use(), 1);
    assert_eq!(a.free(q), Ok(()));
}

#[test]
fn free_of_foreign_pointer_is_out_of_range() {
    let mut a = heap64();
    assert_eq!(a.free(0x1000), Err(AllocError::OutOfRange));
    assert_eq!(a.free(HEAP_START + 65 * PAGE), Err(AllocError::OutOfRange));
    assert_eq!(a.descriptors.pages_in_use(), 0);
}

#[test]
fn zalloc_returns_all_zero_memory() {
    let mut a = heap64();
    // dirty the first frame, then release it
    let p = a.alloc_pages(2).unwrap();
    a.write_word(p, 0xdead_beef_dead_beef);
    a.write_word(p + 4096 + 8, 0x55aa_55aa_55aa_55aa);
    assert_eq!(a.read_word(p), 0xdead_beef_dead_beef);
    assert_eq!(a.free(p), Ok(()));
    // the same first-fit run comes back zero-filled end to end
    let q = a.zalloc(2).unwrap();
    assert_eq!(q, p);
    for frame in 0..2 {
        let page = a.read_page(frame);
        assert_eq!(page.words.len(), 512);
        for w in page.words.iter() {
            assert_eq!(*w, 0);
        }
    }
    // a plain alloc_pages would have kept the stale word
    assert_eq!(a.read_word(p + 4096 + 8), 0);
}

#[test]
fn allocation_runs_reports_live_runs_in_order() {
    let mut a = heap64();
    assert_eq!(a.allocation_runs(), vec![]);
    let p0 = a.alloc_pages(2).unwrap();
    let _p1 = a.alloc_pages(1).unwrap();
    let _p2 = a.alloc_pages(3).unwrap();
    assert_eq!(a.allocation_runs(), vec![(0, 2), (2, 1), (3, 3)]);
    assert_eq!(a.free(p0), Ok(()));
    assert_eq!(a.allocation_runs(), vec![(2, 1), (3, 3)]);
}

#[test]
fn page_by_idx_mut_maps_frames_to_addresses() {
    let a = heap64();
    assert_eq!(a.page_by_idx_mut(0), Some(HEAP_START + PAGE));
    assert_eq!(a.page_by_idx_mut(63), Some(HEAP_START + 64 * PAGE));
    assert_eq!(a.page_by_idx_mut(64), None);
}

#[test]
fn page_state_marks() {
    let mut s = PageState::new();
    assert!(s.is_empty());
    assert!(!s.is_taken());
    assert!(!s.is_last());
    s.set_taken(true);
    assert!(s.is_taken());
    assert!(!s.is_last());
    s.set_last(true);
    assert!(s.is_taken());
    assert!(s.is_last());
    s.set_taken(false);
    assert!(s.is_empty());
    assert!(s.is_last());
    s.set_last(false);
    assert_eq!(s, PageState::new());
}

#[test]
fn page_state_list_ranges() {
    let mut l = PageStateList::new(8, VirtAddr::new(0x4000));
    assert_eq!(l.capacity(), 8);
    assert_eq!(l.pages_in_use(), 0);
    l.take_range(2..5);
    assert_eq!(l.pages_in_use(), 3);
    assert!(l.state_at(1).is_empty());
    assert!(l.state_at(2).is_taken());
    assert!(l.state_at(4).is_taken());
    assert!(l.state_at(5).is_empty());
    assert_eq!(l.has_contig_free_space(4), None);
    assert_eq!(l.has_contig_free_space(3), Some(5));
    assert_eq!(l.has_contig_free_space(2), Some(0));
    l.free_range(2..4);
    assert_eq!(l.pages_in_use(), 1);
    assert_eq!(l.has_contig_free_space(4), Some(0));
    l.clear_all();
    assert_eq!(l.pages_in_use(), 0);
    assert_eq!(l.has_contig_free_space(8), Some(0));
}

#[test]
fn index_from_ptr_recovers_frame_indices() {
    let l = PageStateList::new(16, VirtAddr::new(0x8000_1000));
    assert_eq!(l.index_from_ptr(0x8000_1000), 0);
    assert_eq!(l.index_from_ptr(0x8000_1000 + 5 * 4096), 5);
    assert_eq!(l.index_from_ptr(0x8000_1000 + 15 * 4096), 15);
}
