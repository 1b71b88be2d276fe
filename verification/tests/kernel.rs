use riscv_kernel::vm::arch::Arch;
use riscv_kernel::vm::entry::{pte_get_flag, pte_to_phy, PTE_VALID};
use riscv_kernel::vm::kernel::{
    kernel_regions, kpage_init, MemoryLayout, Region, KERNEL_RO, KERNEL_RW, KERNEL_RX,
};
use riscv_kernel::vm::pool::{PagePool, VmError};
use riscv_kernel::vm::ptable::PageTable;
use riscv_kernel::vm::walk::{walk, walk_lookup};

/// RAM at 0x8000_0000, a kernel image of three pages (code, constants and
/// data), two harts, a page of uninitialised data and a heap up to 1 MiB.
fn layout() -> MemoryLayout {
    MemoryLayout {
        uart_base: 0x1000_0000,
        dram_base: 0x8000_0000,
        text_end: 0x8000_1000,
        rodata_end: 0x8000_2000,
        data_end: 0x8000_3000,
        stacks_start: 0x8000_3000,
        intstacks_start: 0x8000_9000,
        bss_start: 0x8001_1000,
        bss_end: 0x8001_2000,
        memory_end: 0x8010_0000,
        nhart: 2,
    }
}

/// Physical address and flag bits that `va` translates to, if any.
fn translate(pool: &PagePool, root: PageTable, va: u64) -> Option<(u64, u64)> {
    match walk_lookup(pool, root, va) {
        Ok(slot) => {
            let entry = pool.read_pte(slot);
            if pte_get_flag(entry, PTE_VALID) {
                Some((pte_to_phy(entry) + va % 4096, entry & 0x3ff))
            } else {
                None
            }
        }
        Err(_) => None,
    }
}

#[test]
fn kernel_permissions() {
    assert_eq!(KERNEL_RW, 0x06);
    assert_eq!(KERNEL_RX, 0x0a);
    assert_eq!(KERNEL_RO, 0x02);
}

#[test]
fn kernel_regions_come_in_the_fixed_order() {
    let regions = kernel_regions(&layout());
    let expect: [(u64, u64, u64); 12] = [
        (0x1000_0000, 0x1000, KERNEL_RW),
        (0x8000_0000, 0x1000, KERNEL_RX),
        (0x8000_1000, 0x1000, KERNEL_RO),
        (0x8000_2000, 0x1000, KERNEL_RW),
        (0x8000_4000, 0x2000, KERNEL_RW),
        (0x8000_7000, 0x2000, KERNEL_RW),
        (0x8000_a000, 0x1000, KERNEL_RW),
        (0x8000_c000, 0x1000, KERNEL_RW),
        (0x8000_e000, 0x1000, KERNEL_RW),
        (0x8001_0000, 0x1000, KERNEL_RW),
        (0x8001_1000, 0x1000, KERNEL_RW),
        (0x8001_2000, 0x000e_e000, KERNEL_RW),
    ];
    assert_eq!(regions.len(), expect.len());
    for (region, (start, size, flags)) in regions.iter().zip(expect) {
        assert_eq!((region.start, region.size, region.flags), (start, size, flags));
    }
}

#[test]
fn kernel_regions_without_harts() {
    let mut l = layout();
    l.nhart = 0;
    let regions = kernel_regions(&l);
    assert_eq!(regions.len(), 6);
    assert_eq!(regions[4].start, 0x8001_1000);
    assert_eq!(regions[5].start, 0x8001_2000);
}

#[test]
fn kpage_init_maps_every_region_onto_itself() {
    let mut pool = PagePool::new(Arch::Sv39, 0x8020_0000, 16).unwrap();
    let l = layout();
    let root = kpage_init(&mut pool, &l).unwrap();
    assert_eq!(root.base(), 0x8020_0000);
    // root, a middle and a leaf table for the UART, a middle and a leaf table for RAM
    assert_eq!(pool.allocated(), 5);
    for region in kernel_regions(&l) {
        let mut addr = region.start;
        while addr < region.start + region.size {
            assert_eq!(translate(&pool, root, addr), Some((addr, region.flags | PTE_VALID)));
            addr += 0x101;
        }
        let last = region.start + region.size - 1;
        assert_eq!(translate(&pool, root, last), Some((last, region.flags | PTE_VALID)));
    }
}

#[test]
fn kpage_init_leaves_the_gaps_unmapped() {
    let mut pool = PagePool::new(Arch::Sv39, 0x8020_0000, 16).unwrap();
    let l = layout();
    let root = kpage_init(&mut pool, &l).unwrap();
    // the guard page below each kernel stack
    assert_eq!(translate(&pool, root, 0x8000_3000), None);
    assert_eq!(translate(&pool, root, 0x8000_3fff), None);
    assert_eq!(translate(&pool, root, 0x8000_6000), None);
    // the guard pages below each interrupt stack
    for guard in [0x8000_9000u64, 0x8000_b000, 0x8000_d000, 0x8000_f000] {
        assert_eq!(translate(&pool, root, guard), None);
        assert_eq!(translate(&pool, root, guard + 0xfff), None);
    }
    // next to the UART, below RAM, above RAM, and the tables themselves
    assert_eq!(translate(&pool, root, 0x0fff_ffff), None);
    assert_eq!(translate(&pool, root, 0x1000_1000), None);
    assert_eq!(translate(&pool, root, 0x7fff_ffff), None);
    assert_eq!(translate(&pool, root, 0x8010_0000), None);
    assert_eq!(translate(&pool, root, 0x8020_0000), None);
    assert_eq!(translate(&pool, root, 0), None);
    // where no table was made the lookup faults
    assert_eq!(walk(&mut pool, root, 0x4000_0000, false), Err(VmError::PageFault));
    assert_eq!(walk(&mut pool, root, 0x8020_0000, false), Err(VmError::PageFault));
    assert_eq!(pool.allocated(), 5);
}

#[test]
fn kpage_init_reports_a_used_up_pool() {
    let l = layout();
    let mut pool = PagePool::new(Arch::Sv39, 0x8020_0000, 0).unwrap();
    assert_eq!(kpage_init(&mut pool, &l), Err(VmError::OutOfMemory));
    assert_eq!(pool.allocated(), 0);
    let mut pool = PagePool::new(Arch::Sv39, 0x8020_0000, 4).unwrap();
    assert_eq!(kpage_init(&mut pool, &l), Err(VmError::OutOfMemory));
    assert_eq!(pool.allocated(), 4);
    // the UART was mapped before the pool ran out
    let root = PageTable::from(riscv_kernel::vm::entry::phy_to_pte(0x8020_0000));
    assert_eq!(translate(&pool, root, 0x1000_0000), Some((0x1000_0000, KERNEL_RW | PTE_VALID)));
    assert_eq!(translate(&pool, root, 0x8000_0000), None);
}

#[test]
fn kpage_init_reports_regions_that_share_a_page() {
    let mut l = layout();
    // the code ends in the middle of a page, which the constants share
    l.text_end = 0x8000_0800;
    let mut pool = PagePool::new(Arch::Sv39, 0x8020_0000, 16).unwrap();
    assert_eq!(kpage_init(&mut pool, &l), Err(VmError::AlreadyMapped));
}

#[test]
fn kpage_init_reports_memory_above_the_range() {
    let mut l = layout();
    l.bss_start = (1 << 39) - 0x2000;
    l.bss_end = (1 << 39) - 0x1000;
    l.memory_end = (1 << 39) + 0x1000;
    let mut pool = PagePool::new(Arch::Sv39, 0x8020_0000, 16).unwrap();
    assert_eq!(kpage_init(&mut pool, &l), Err(VmError::InvalidAddress));
    // the last page below the range was mapped before the failure
    let root = PageTable::from(riscv_kernel::vm::entry::phy_to_pte(0x8020_0000));
    let top = (1u64 << 39) - 0x1000;
    assert_eq!(translate(&pool, root, top), Some((top, KERNEL_RW | PTE_VALID)));
}

#[test]
fn kpage_init_on_sv32() {
    let mut pool = PagePool::new(Arch::Sv32, 0x8020_0000, 16).unwrap();
    let l = layout();
    let root = kpage_init(&mut pool, &l).unwrap();
    // root, a leaf table for the UART and one for RAM
    assert_eq!(pool.allocated(), 3);
    for region in kernel_regions(&l) {
        let mut addr = region.start;
        while addr < region.start + region.size {
            assert_eq!(translate(&pool, root, addr), Some((addr, region.flags | PTE_VALID)));
            addr += 0x1000;
        }
    }
    assert_eq!(translate(&pool, root, 0x8000_3000), None);
    assert_eq!(translate(&pool, root, 0x8010_0000), None);
}

#[test]
fn a_region_is_mappable_when_page_map_accepts_it() {
    let region = Region { start: 0x8000_0000, size: 0x1000, flags: KERNEL_RW };
    assert!(region.is_mappable(Arch::Sv39));
    assert!(region.is_mappable(Arch::Sv32));
    // empty
    assert!(!Region { size: 0, ..region }.is_mappable(Arch::Sv39));
    // no access granted
    assert!(!Region { flags: PTE_VALID, ..region }.is_mappable(Arch::Sv39));
    assert!(!Region { flags: 0, ..region }.is_mappable(Arch::Sv39));
    // past the end of the address space
    assert!(!Region { start: u64::MAX, size: 2, flags: KERNEL_RW }.is_mappable(Arch::Sv39));
    assert!(Region { start: u64::MAX, size: 1, flags: KERNEL_RW }.is_mappable(Arch::Sv39));
    // past the words of a 32-bit hart
    assert!(Region { start: 0xffff_f000, size: 0x1000, flags: KERNEL_RW }.is_mappable(Arch::Sv32));
    assert!(!Region { start: 0xffff_f000, size: 0x1001, flags: KERNEL_RW }.is_mappable(Arch::Sv32));
    assert!(!Region { start: 0x1_0000_0000, size: 1, flags: KERNEL_RW }.is_mappable(Arch::Sv32));
    assert!(!Region { start: 0x8000_0000, size: 1, flags: 0x1_0000_0002 }.is_mappable(Arch::Sv32));
    // an unaligned region that ends with the last word
    assert!(Region { start: 0xffff_efff, size: 0x1001, flags: KERNEL_RW }.is_mappable(Arch::Sv32));
    assert!(!Region { start: 0xffff_efff, size: 0x1002, flags: KERNEL_RW }.is_mappable(Arch::Sv32));
}

#[test]
fn a_layout_is_checked_before_it_is_mapped() {
    let l = layout();
    assert!(l.is_ordered());
    assert!(l.is_wf(Arch::Sv39));
    assert!(l.is_wf(Arch::Sv32));
    // an empty region
    assert!(!MemoryLayout { text_end: l.dram_base, ..l }.is_ordered());
    assert!(!MemoryLayout { rodata_end: l.text_end, ..l }.is_wf(Arch::Sv39));
    assert!(!MemoryLayout { data_end: l.rodata_end - 1, ..l }.is_ordered());
    assert!(!MemoryLayout { bss_end: l.bss_start, ..l }.is_ordered());
    assert!(!MemoryLayout { memory_end: l.bss_end, ..l }.is_ordered());
    // stacks that run past the end of the address space
    assert!(!MemoryLayout { nhart: u64::MAX, ..l }.is_ordered());
    assert!(!MemoryLayout { stacks_start: u64::MAX - 0x5fff, ..l }.is_ordered());
    assert!(MemoryLayout { stacks_start: u64::MAX - 0x6000, ..l }.is_ordered());
    assert!(!MemoryLayout { intstacks_start: u64::MAX - 0x7fff, ..l }.is_ordered());
    assert!(!MemoryLayout { uart_base: u64::MAX - 0xfff, ..l }.is_ordered());
    // ordered, but not within the words of a 32-bit hart
    let high = MemoryLayout {
        bss_start: 0xffff_e000,
        bss_end: 0xffff_f000,
        memory_end: 0x1_0000_1000,
        ..l
    };
    assert!(high.is_ordered());
    assert!(high.is_wf(Arch::Sv39));
    assert!(!high.is_wf(Arch::Sv32));
}
