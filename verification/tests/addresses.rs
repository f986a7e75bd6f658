use walnut_mm::addr::{PhysAddr, VirtAddr};
use walnut_mm::allocator::MaqAllocator;
use walnut_mm::page::PageRange;

#[test]
fn virt_addr_field_decomposition() {
    let va = VirtAddr::new(0x8020_1234);
    let vpn = va.vpn();
    assert_eq!(vpn[0], 0x001);
    assert_eq!(vpn[1], 0x001);
    assert_eq!(vpn[2], 0x002);
    assert_eq!(va.as_u64(), 0x8020_1234);
    assert_eq!(va.as_usize(), 0x8020_1234usize);
}

#[test]
fn virt_addr_vpn_fields_are_nine_bits() {
    // all ones in the 27 vpn bits
    let va = VirtAddr::new(0x7F_FFFF_FFFF);
    let vpn = va.vpn();
    assert_eq!(vpn[0], 0x1FF);
    assert_eq!(vpn[1], 0x1FF);
    assert_eq!(vpn[2], 0x1FF);
}

#[test]
fn phys_addr_field_decomposition() {
    let pa = PhysAddr::new(0x8020_1234);
    let ppn = pa.ppn();
    assert_eq!(ppn[0], 0x001);
    assert_eq!(ppn[1], 0x001);
    assert_eq!(ppn[2], 0x002);
    assert_eq!(pa.as_u64(), 0x8020_1234);
    assert_eq!(pa.as_usize(), 0x8020_1234usize);
}

#[test]
fn phys_addr_ppn2_is_twenty_six_bits() {
    let pa = PhysAddr::new(0xFF_FFFF_FFFF_FFFF);
    let ppn = pa.ppn();
    assert_eq!(ppn[2], 0x3FF_FFFF);
}

#[test]
fn address_arithmetic() {
    let mut va = VirtAddr::new(0x1000);
    va.add(0x234);
    assert_eq!(va.as_u64(), 0x1234);
    va.sub(0x34);
    assert_eq!(va.as_u64(), 0x1200);
    let other = va.at_offset(0x100);
    assert_eq!(other.as_u64(), 0x1300);
    assert_eq!(va.as_u64(), 0x1200);

    let mut pa = PhysAddr::new(0x2000);
    pa.add(8);
    assert_eq!(pa.as_u64(), 0x2008);
    pa.sub(0x8);
    assert_eq!(pa.as_u64(), 0x2000);
    assert_eq!(pa.at_offset(4096).as_u64(), 0x3000);
}

#[test]
fn addresses_order_by_raw_pattern() {
    assert!(VirtAddr::new(0x1000) < VirtAddr::new(0x1001));
    assert!(VirtAddr::new(0x1000) <= VirtAddr::new(0x1000));
    assert!(VirtAddr::new(0xFFFF_FFFF_FFFF_FFFF) > VirtAddr::new(0));
    assert!(PhysAddr::new(0x2000) < PhysAddr::new(0x8000_0000));
    assert!(PhysAddr::new(0x2000) >= PhysAddr::new(0x2000));
}

#[test]
fn page_range_spans_offset() {
    let r = PageRange::new(0x8000_0000, 0x3000);
    assert_eq!(r.0.as_u64(), 0x8000_0000);
    assert_eq!(r.1.as_u64(), 0x8000_3000);
}

#[test]
fn align_val_rounds_up_to_power_of_two() {
    assert_eq!(MaqAllocator::align_val(0, 12), 0);
    assert_eq!(MaqAllocator::align_val(1, 12), 4096);
    assert_eq!(MaqAllocator::align_val(4096, 12), 4096);
    assert_eq!(MaqAllocator::align_val(4097, 12), 8192);
    assert_eq!(MaqAllocator::align_val(5, 3), 8);
    assert_eq!(MaqAllocator::align_val(8, 3), 8);
}
