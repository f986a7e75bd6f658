//! The boot-time construction of the memory-management state: build the
//! allocator over the heap region, draw the root table from it, and
//! identity-map every region the kernel touches — its sections, the heap
//! descriptors, the kernel stack, the heap itself, and the serial device's
//! page — with read-write or read-execute rights as appropriate.

use vstd::prelude::*;

use crate::addr::VirtAddr;
use crate::allocator::{spec_align_val, AllocError, MaqAllocator};
use crate::page::lemma_count_free_all;
use crate::table::{
    lemma_table_span_nonneg, spec_table_span, translate_from, PageTable, PageTableEntry,
    PTE_EXECUTE, PTE_READ, PTE_WRITE,
};
use crate::PAGE_SIZE;

verus! {

/// Physical address of the memory-mapped serial port's page.
pub const UART_BASE: u64 = 0x1000_0000;

/// The region boundaries the bring-up layer resolves at link time, handed
/// in as plain addresses.
#[derive(Clone, Copy, Debug, PartialEq, Eq, Structural)]
pub struct BootInfo {
    /// Start of the heap region.
    pub heap_start: u64,
    /// Size of the heap region in bytes.
    pub heap_size: u64,
    /// Start of the kernel's executable section.
    pub text_start: u64,
    /// End of the kernel's executable section.
    pub text_end: u64,
    /// Start of the read-only data section.
    pub rodata_start: u64,
    /// End of the read-only data section.
    pub rodata_end: u64,
    /// Start of the data section.
    pub data_start: u64,
    /// End of the data section.
    pub data_end: u64,
    /// Start of the zero-initialized section.
    pub bss_start: u64,
    /// End of the zero-initialized section.
    pub bss_end: u64,
    /// Start of the kernel stack.
    pub stack_start: u64,
    /// End of the kernel stack.
    pub stack_end: u64,
}

/// The memory-management state that `initialize` hands to the kernel: the
/// physical allocator and the root page table drawn from it.
pub struct KernelMemory {
    /// The physical page allocator over the boot heap.
    pub allocator: MaqAllocator,
    /// The root of the kernel's identity-mapped page-table tree.
    pub root: PageTable,
}

/// `va`'s page bits fall inside `[lo, hi)` rounded out to page bounds.
pub open spec fn region_covers(lo: u64, hi: u64, va: u64) -> bool {
    lo as int / 4096 * 4096 <= (va & 0x7f_ffff_f000u64) < (hi + 4095) as int / 4096 * 4096
}

/// The addresses that `initialize` maps: the kernel's sections, the heap
/// descriptor area, the kernel stack, the heap's usable frames and the
/// serial device's page.
pub open spec fn boot_mapped(boot: BootInfo, usable_base: u64, n_frames: int, va: u64) -> bool {
    ||| region_covers(boot.text_start, boot.text_end, va)
    ||| region_covers(boot.rodata_start, boot.rodata_end, va)
    ||| region_covers(boot.data_start, boot.data_end, va)
    ||| region_covers(boot.bss_start, boot.bss_end, va)
    ||| region_covers(boot.heap_start, (boot.heap_start + boot.heap_size / 4096) as u64, va)
    ||| region_covers(boot.stack_start, boot.stack_end, va)
    ||| region_covers(usable_base, (usable_base + n_frames * 4096) as u64, va)
    ||| region_covers(UART_BASE, (UART_BASE + 4096) as u64, va)
}

/// An upper bound on the page-table frames `initialize` can draw: the sum
/// of each mapped region's table span. The bound grows with boundary
/// crossings, not with page counts, so a heap far smaller than its own
/// page count still suffices.
pub open spec fn boot_table_span(boot: BootInfo) -> int {
    let n = boot.heap_size as int / 4096;
    let usable = spec_align_val((boot.heap_start + n) as u64, 12);
    spec_table_span(boot.text_start, boot.text_end) + spec_table_span(
        boot.rodata_start,
        boot.rodata_end,
    ) + spec_table_span(boot.data_start, boot.data_end) + spec_table_span(
        boot.bss_start,
        boot.bss_end,
    ) + spec_table_span(boot.heap_start, (boot.heap_start + n) as u64) + spec_table_span(
        boot.stack_start,
        boot.stack_end,
    ) + spec_table_span(usable, (usable + n * 4096) as u64) + spec_table_span(
        UART_BASE,
        (UART_BASE + PAGE_SIZE) as u64,
    )
}

/// The regions of `boot` are ordered and lie inside the 39-bit space.
pub open spec fn boot_wf(boot: BootInfo) -> bool {
    &&& boot.heap_start % 4096 == 0
    &&& boot.heap_start + boot.heap_size + boot.heap_size as int / 4096 + 4096 < 0x80_0000_0000
    &&& boot.text_start <= boot.text_end <= 0x80_0000_0000
    &&& boot.rodata_start <= boot.rodata_end <= 0x80_0000_0000
    &&& boot.data_start <= boot.data_end <= 0x80_0000_0000
    &&& boot.bss_start <= boot.bss_end <= 0x80_0000_0000
    &&& boot.stack_start <= boot.stack_end <= 0x80_0000_0000
}

/// Builds the allocator over the boot heap, draws the root table, and
/// identity-maps every known region: the executable section with read and
/// execute rights, read-only data with read, and the data and zero
/// sections, the heap descriptors, the kernel stack, the usable heap and
/// the serial page with read and write. Afterwards exactly the covered
/// addresses translate, each to itself. Running out of frames surfaces as
/// `ExhaustedMemory`, and only when the heap really was too small: fewer
/// frames than the root table plus the regions' table spans.
#[verifier::rlimit(100)]
pub fn initialize(boot: BootInfo) -> (r: Result<KernelMemory, AllocError>)
    requires
        boot_wf(boot),
        0x80_0000_0000 <= usize::MAX,
    ensures
        match r {
            Ok(km) => {
                &&& km.root.wf(km.allocator)
                &&& km.root.only_level0_leaves(km.allocator)
                &&& km.allocator.heap_base == boot.heap_start
                &&& km.allocator.n_frames() == boot.heap_size as int / 4096
                &&& forall|va: u64|
                    translate_from(km.allocator, km.root.root, va, 2) == (if boot_mapped(
                        boot,
                        km.allocator.usable_base(),
                        km.allocator.n_frames(),
                        va,
                    ) {
                        Some((va & 0x7f_ffff_ffffu64) as u64)
                    } else {
                        None::<u64>
                    })
            },
            Err(AllocError::ExhaustedMemory) => boot.heap_size as int / 4096 < 2
                + boot_table_span(boot),
            Err(_) => false,
        },
{
    proof {
        assert((PTE_READ | PTE_WRITE) & 0x3ffu64 == (PTE_READ | PTE_WRITE) && (PTE_READ
            | PTE_EXECUTE) & 0x3ffu64 == (PTE_READ | PTE_EXECUTE) && PTE_READ & 0x3ffu64
            == PTE_READ && (PTE_READ | PTE_WRITE) & 0xeu64 != 0 && (PTE_READ | PTE_EXECUTE)
            & 0xeu64 != 0 && PTE_READ & 0xeu64 != 0) by (bit_vector);
    }
    let rw = PageTableEntry::from_bits(PTE_READ | PTE_WRITE);
    let rx = PageTableEntry::from_bits(PTE_READ | PTE_EXECUTE);
    let ro = PageTableEntry::from_bits(PTE_READ);
    let mut allocator = MaqAllocator::new(boot.heap_start, boot.heap_size);
    let usable = allocator.descriptors.base.bits;
    let n = allocator.descriptors.capacity();
    let desc_end = boot.heap_start + boot.heap_size / PAGE_SIZE;
    let usable_end = usable + (n as u64) * PAGE_SIZE;
    proof {
        lemma_count_free_all(allocator.states());
    }
    proof {
        // the mapped regions line up with the terms of `boot_table_span`,
        // and none of them spans a negative table count
        assert(usable == spec_align_val((boot.heap_start + n as int) as u64, 12));
        assert(usable_end as int == usable + n as int * 4096);
        lemma_table_span_nonneg(boot.text_start, boot.text_end);
        lemma_table_span_nonneg(boot.rodata_start, boot.rodata_end);
        lemma_table_span_nonneg(boot.data_start, boot.data_end);
        lemma_table_span_nonneg(boot.bss_start, boot.bss_end);
        lemma_table_span_nonneg(boot.heap_start, desc_end);
        lemma_table_span_nonneg(boot.stack_start, boot.stack_end);
        lemma_table_span_nonneg(usable, usable_end);
        lemma_table_span_nonneg(UART_BASE, (UART_BASE + PAGE_SIZE) as u64);
    }
    let mut root = match PageTable::new(&mut allocator) {
        Some(pt) => pt,
        None => {
            return Err(AllocError::ExhaustedMemory);
        },
    };
    root.id_map_range(
        &mut allocator,
        VirtAddr::new(boot.text_start),
        VirtAddr::new(boot.text_end),
        rx,
    )?;
    root.id_map_range(
        &mut allocator,
        VirtAddr::new(boot.rodata_start),
        VirtAddr::new(boot.rodata_end),
        ro,
    )?;
    root.id_map_range(
        &mut allocator,
        VirtAddr::new(boot.data_start),
        VirtAddr::new(boot.data_end),
        rw,
    )?;
    root.id_map_range(
        &mut allocator,
        VirtAddr::new(boot.bss_start),
        VirtAddr::new(boot.bss_end),
        rw,
    )?;
    root.id_map_range(
        &mut allocator,
        VirtAddr::new(boot.heap_start),
        VirtAddr::new(desc_end),
        rw,
    )?;
    root.id_map_range(
        &mut allocator,
        VirtAddr::new(boot.stack_start),
        VirtAddr::new(boot.stack_end),
        rw,
    )?;
    root.id_map_range(&mut allocator, VirtAddr::new(usable), VirtAddr::new(usable_end), rw)?;
    root.id_map_range(
        &mut allocator,
        VirtAddr::new(UART_BASE),
        VirtAddr::new(UART_BASE + PAGE_SIZE),
        rw,
    )?;
    Ok(KernelMemory { allocator, root })
}

} // verus!
