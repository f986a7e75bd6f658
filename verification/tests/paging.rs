use walnut_mm::addr::{PhysAddr, VirtAddr};
use walnut_mm::allocator::{AllocError, MaqAllocator};
use walnut_mm::init::{initialize, BootInfo, UART_BASE};
use walnut_mm::table::{
    PageTable, PageTableEntry, PTE_EXECUTE, PTE_READ, PTE_VALID, PTE_WRITE,
};

const HEAP_START: u64 = 0x8800_0000;
const PAGE: u64 = 4096;

fn setup() -> (MaqAllocator, PageTable) {
    let mut a = MaqAllocator::new(HEAP_START, 64 * PAGE);
    let pt = PageTable::new(&mut a).unwrap();
    (a, pt)
}

fn translate(pt: &PageTable, a: &MaqAllocator, va: u64) -> Option<u64> {
    pt.virt_to_phys(a, VirtAddr::new(va)).map(|p| p.as_u64())
}

#[test]
fn fresh_tree_translates_nothing() {
    let (a, pt) = setup();
    assert_eq!(translate(&pt, &a, 0), None);
    assert_eq!(translate(&pt, &a, 0x8000_0000), None);
    assert_eq!(translate(&pt, &a, HEAP_START), None);
}

#[test]
fn map_then_translate_identity() {
    let (mut a, mut pt) = setup();
    let rw = PageTableEntry::from_bits(PTE_READ | PTE_WRITE);
    let r = pt.map_range(
        &mut a,
        VirtAddr::new(0x8000_0000),
        PhysAddr::new(0x8000_0000),
        rw,
        0,
    );
    assert_eq!(r, Ok(()));
    assert_eq!(translate(&pt, &a, 0x8000_0000), Some(0x8000_0000));
    // the untranslated page offset rides along
    assert_eq!(translate(&pt, &a, 0x8000_0abc), Some(0x8000_0abc));
    // a page that was never mapped does not translate
    assert_eq!(translate(&pt, &a, 0x8000_1000), None);
    assert_eq!(translate(&pt, &a, 0x4000_0000), None);
}

#[test]
fn map_to_distinct_physical_page() {
    let (mut a, mut pt) = setup();
    let rw = PageTableEntry::from_bits(PTE_READ | PTE_WRITE);
    let r = pt.map_range(
        &mut a,
        VirtAddr::new(0x4000_2000),
        PhysAddr::new(0x8000_5000),
        rw,
        0,
    );
    assert_eq!(r, Ok(()));
    assert_eq!(translate(&pt, &a, 0x4000_2000), Some(0x8000_5000));
    assert_eq!(translate(&pt, &a, 0x4000_2123), Some(0x8000_5123));
    assert_eq!(translate(&pt, &a, 0x8000_5000), None);
}

#[test]
fn invalid_leaf_flags_are_refused_before_any_mutation() {
    let (mut a, mut pt) = setup();
    let in_use = a.descriptors.pages_in_use();
    let none = PageTableEntry::from_bits(0);
    let valid_only = PageTableEntry::from_bits(PTE_VALID);
    let r1 = pt.map_range(
        &mut a,
        VirtAddr::new(0x8000_0000),
        PhysAddr::new(0x8000_0000),
        none,
        0,
    );
    assert_eq!(r1, Err(AllocError::InvalidLeafFlags));
    let r2 = pt.map_range(
        &mut a,
        VirtAddr::new(0x8000_0000),
        PhysAddr::new(0x8000_0000),
        valid_only,
        0,
    );
    assert_eq!(r2, Err(AllocError::InvalidLeafFlags));
    // nothing was allocated and nothing was written
    assert_eq!(a.descriptors.pages_in_use(), in_use);
    assert_eq!(translate(&pt, &a, 0x8000_0000), None);
}

#[test]
fn id_map_range_gives_identity_for_every_page() {
    let (mut a, mut pt) = setup();
    let rw = PageTableEntry::from_bits(PTE_READ | PTE_WRITE);
    let r = pt.id_map_range(&mut a, VirtAddr::new(0x8000_0000), VirtAddr::new(0x8000_3000), rw);
    assert_eq!(r, Ok(()));
    let mut va = 0x8000_0000u64;
    while va < 0x8000_3000 {
        assert_eq!(translate(&pt, &a, va), Some(va));
        va += PAGE;
    }
    // one page before and one page past the range stay unmapped
    assert_eq!(translate(&pt, &a, 0x7FFF_F000), None);
    assert_eq!(translate(&pt, &a, 0x8000_3000), None);
}

#[test]
fn id_map_range_rounds_to_page_boundaries() {
    let (mut a, mut pt) = setup();
    let rw = PageTableEntry::from_bits(PTE_READ | PTE_WRITE);
    let r = pt.id_map_range(&mut a, VirtAddr::new(0x8000_0800), VirtAddr::new(0x8000_1800), rw);
    assert_eq!(r, Ok(()));
    assert_eq!(translate(&pt, &a, 0x8000_0000), Some(0x8000_0000));
    assert_eq!(translate(&pt, &a, 0x8000_1000), Some(0x8000_1000));
    assert_eq!(translate(&pt, &a, 0x8000_2000), None);
}

#[test]
fn map_at_level_one_makes_a_superpage() {
    let (mut a, mut pt) = setup();
    let rw = PageTableEntry::from_bits(PTE_READ | PTE_WRITE);
    let r = pt.map_range(
        &mut a,
        VirtAddr::new(0x4000_0000),
        PhysAddr::new(0x4000_0000),
        rw,
        1,
    );
    assert_eq!(r, Ok(()));
    // the low 21 bits ride along untranslated
    assert_eq!(translate(&pt, &a, 0x4000_0000), Some(0x4000_0000));
    assert_eq!(translate(&pt, &a, 0x4001_2345), Some(0x4001_2345));
    assert_eq!(translate(&pt, &a, 0x401F_FFFF), Some(0x401F_FFFF));
    assert_eq!(translate(&pt, &a, 0x4020_0000), None);
}

#[test]
fn unmap_returns_table_frames_to_the_allocator() {
    let (mut a, mut pt) = setup();
    let rw = PageTableEntry::from_bits(PTE_READ | PTE_WRITE);
    // two distant ranges force several intermediate tables
    assert_eq!(
        pt.id_map_range(&mut a, VirtAddr::new(0x8000_0000), VirtAddr::new(0x8000_2000), rw),
        Ok(()),
    );
    assert_eq!(
        pt.id_map_range(&mut a, VirtAddr::new(0x1000_0000), VirtAddr::new(0x1000_1000), rw),
        Ok(()),
    );
    assert!(a.descriptors.pages_in_use() > 1);
    pt.unmap(&mut a);
    // only the caller-owned root frame stays live
    assert_eq!(a.descriptors.pages_in_use(), 1);
    assert!(a.descriptors.state_at(0).is_taken());
}

#[test]
fn initialize_maps_all_boot_regions_identity() {
    let boot = BootInfo {
        heap_start: HEAP_START,
        heap_size: 64 * PAGE,
        text_start: 0x8000_0000,
        text_end: 0x8000_2000,
        rodata_start: 0x8000_2000,
        rodata_end: 0x8000_3000,
        data_start: 0x8000_3000,
        data_end: 0x8000_5000,
        bss_start: 0x8000_5000,
        bss_end: 0x8000_6000,
        stack_start: 0x8700_0000,
        stack_end: 0x8700_4000,
    };
    let km = initialize(boot).unwrap();
    let ident = [
        0x8000_0000u64,
        0x8000_1000,
        0x8000_2000,
        0x8000_4abc,
        0x8000_5000,
        0x8700_0000,
        0x8700_3000,
        HEAP_START,
        HEAP_START + PAGE,
        UART_BASE,
    ];
    for va in ident.iter() {
        assert_eq!(
            km.root.virt_to_phys(&km.allocator, VirtAddr::new(*va)).map(|p| p.as_u64()),
            Some(*va),
        );
    }
    // addresses outside every region stay unmapped
    for va in [0x8000_6000u64, 0x7FFF_F000, 0x2000_0000, 0x8701_0000].iter() {
        assert_eq!(km.root.virt_to_phys(&km.allocator, VirtAddr::new(*va)), None);
    }
}

#[test]
fn initialize_reports_exhaustion() {
    // a two-frame heap cannot hold the root and the intermediate tables
    let boot = BootInfo {
        heap_start: HEAP_START,
        heap_size: 2 * PAGE,
        text_start: 0x8000_0000,
        text_end: 0x8000_2000,
        rodata_start: 0x8000_2000,
        rodata_end: 0x8000_3000,
        data_start: 0x8000_3000,
        data_end: 0x8000_5000,
        bss_start: 0x8000_5000,
        bss_end: 0x8000_6000,
        stack_start: 0x8700_0000,
        stack_end: 0x8700_4000,
    };
    match initialize(boot) {
        Err(AllocError::ExhaustedMemory) => {},
        _ => panic!("a two-frame heap must run out while mapping"),
    }
}

#[test]
fn two_free_frames_always_suffice_for_one_mapping() {
    let (mut a, mut pt) = setup();
    let rw = PageTableEntry::from_bits(PTE_READ | PTE_WRITE);
    // leave exactly two free frames
    let _bulk = a.alloc_pages(61).unwrap();
    assert_eq!(a.descriptors.pages_in_use(), 62);
    let r = pt.map_range(
        &mut a,
        VirtAddr::new(0x4000_0000),
        PhysAddr::new(0x4000_0000),
        rw,
        0,
    );
    assert_eq!(r, Ok(()));
    assert_eq!(translate(&pt, &a, 0x4000_0000), Some(0x4000_0000));
    assert_eq!(a.descriptors.pages_in_use(), 64);
    // a second mapping on an untouched path finds no frame left
    let r2 = pt.map_range(
        &mut a,
        VirtAddr::new(0x10_0000_0000),
        PhysAddr::new(0x10_0000_0000),
        rw,
        0,
    );
    assert_eq!(r2, Err(AllocError::ExhaustedMemory));
    // mapping under the existing intermediate tables still works
    let r3 = pt.map_range(
        &mut a,
        VirtAddr::new(0x4000_1000),
        PhysAddr::new(0x4000_1000),
        rw,
        0,
    );
    assert_eq!(r3, Ok(()));
    assert_eq!(translate(&pt, &a, 0x4000_1000), Some(0x4000_1000));
}

#[test]
fn page_table_entry_classification() {
    // classification is by the access bits alone: an entry without them is
    // a branch, even before it is made valid
    let mut e = PageTableEntry::from_bits(0);
    assert!(e.is_invalid());
    assert!(!e.is_valid());
    assert!(!e.is_leaf());
    assert!(e.is_branch());
    e.set_bits(PTE_VALID);
    assert!(e.is_valid());
    assert!(!e.is_leaf());
    assert!(e.is_branch());
    // an invalid entry with an access bit set still classifies as a leaf
    e.set_bits(PTE_READ);
    assert!(e.is_invalid());
    assert!(e.is_leaf());
    assert!(!e.is_branch());
    e.set_bits(PTE_VALID | PTE_READ | PTE_EXECUTE);
    assert!(e.is_valid());
    assert!(e.is_leaf());
    assert!(!e.is_branch());
    assert_eq!(e.into_inner(), PTE_VALID | PTE_READ | PTE_EXECUTE);
}

#[test]
fn table_allocation_fails_on_full_heap() {
    let mut a = MaqAllocator::new(HEAP_START, 2 * PAGE);
    let _first = a.alloc_pages(2).unwrap();
    assert!(PageTable::new(&mut a).is_none());
}
