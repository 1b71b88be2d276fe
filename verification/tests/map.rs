use riscv_kernel::vm::arch::Arch;
use riscv_kernel::vm::entry::{
    phy_to_pte, pte_get_flag, pte_to_phy, user_process_flags, PTE_EXEC, PTE_GLOBAL, PTE_READ,
    PTE_USER, PTE_VALID, PTE_WRITE,
};
use riscv_kernel::vm::map::page_map;
use riscv_kernel::vm::pool::{PagePool, VmError};
use riscv_kernel::vm::ptable::PageTable;
use riscv_kernel::vm::walk::{walk, walk_lookup};

const POOL: u64 = 0x8800_0000;

/// The valid leaf entry of `va`, if a lookup finds one.
fn leaf(pool: &PagePool, root: PageTable, va: u64) -> Option<u64> {
    match walk_lookup(pool, root, va) {
        Ok(slot) => {
            let entry = pool.read_pte(slot);
            if pte_get_flag(entry, PTE_VALID) {
                Some(entry)
            } else {
                None
            }
        }
        Err(_) => None,
    }
}

fn fresh(arch: Arch, limit: usize) -> (PagePool, PageTable) {
    let mut pool = PagePool::new(arch, POOL, limit).unwrap();
    let root = PageTable::create(&mut pool).unwrap();
    (pool, root)
}

#[test]
fn page_map_maps_one_page() {
    let (mut pool, root) = fresh(Arch::Sv39, 8);
    assert_eq!(
        page_map(&mut pool, root, 0x1000_0000, 0x1000_0000, 4096, PTE_READ | PTE_WRITE),
        Ok(()),
    );
    assert_eq!(pool.allocated(), 3);
    let entry = leaf(&pool, root, 0x1000_0000).unwrap();
    assert_eq!(entry, phy_to_pte(0x1000_0000) | PTE_READ | PTE_WRITE | PTE_VALID);
    assert_eq!(entry, 0x0400_0007);
    assert_eq!(leaf(&pool, root, 0x1000_0fff), Some(entry));
    assert_eq!(leaf(&pool, root, 0x1000_1000), None);
    assert_eq!(leaf(&pool, root, 0x0fff_ffff), None);
}

#[test]
fn after_page_map_every_page_of_the_range_translates() {
    let (mut pool, root) = fresh(Arch::Sv39, 16);
    let va = 0x4000_3000u64;
    let pa = 0x9000_5000u64;
    let size = 7 * 4096u64;
    let flags = PTE_READ | PTE_EXEC | PTE_GLOBAL;
    assert_eq!(page_map(&mut pool, root, va, pa, size, flags), Ok(()));
    let mut addr = va;
    while addr < va + size {
        let slot = walk(&mut pool, root, addr, false).unwrap();
        let entry = pool.read_pte(slot);
        assert!(pte_get_flag(entry, PTE_VALID));
        assert_eq!(pte_to_phy(entry), pa + (addr - addr % 4096 - va));
        assert_eq!(entry & 0x3ff, flags | PTE_VALID);
        assert_eq!(pte_to_phy(entry) + addr % 4096, pa + (addr - va));
        addr += 0x333;
    }
    assert_eq!(leaf(&pool, root, va - 1), None);
    assert_eq!(leaf(&pool, root, va + size), None);
}

#[test]
fn page_map_rounds_the_range_to_pages() {
    let (mut pool, root) = fresh(Arch::Sv39, 8);
    // two bytes across a page boundary: two pages
    assert_eq!(page_map(&mut pool, root, 0x4000_0fff, 0x9000_0000, 2, PTE_READ), Ok(()));
    assert_eq!(
        leaf(&pool, root, 0x4000_0000),
        Some(phy_to_pte(0x9000_0000) | PTE_READ | PTE_VALID),
    );
    assert_eq!(
        leaf(&pool, root, 0x4000_1fff),
        Some(phy_to_pte(0x9000_1000) | PTE_READ | PTE_VALID),
    );
    assert_eq!(leaf(&pool, root, 0x4000_2000), None);
    // one byte: one page
    assert_eq!(page_map(&mut pool, root, 0x4000_5123, 0x9000_5000, 1, PTE_READ), Ok(()));
    assert!(leaf(&pool, root, 0x4000_5000).is_some());
    assert_eq!(leaf(&pool, root, 0x4000_4fff), None);
    assert_eq!(leaf(&pool, root, 0x4000_6000), None);
    // a whole page and one byte more: two pages
    assert_eq!(page_map(&mut pool, root, 0x4000_8000, 0x9000_8000, 4097, PTE_READ), Ok(()));
    assert!(leaf(&pool, root, 0x4000_9000).is_some());
    assert_eq!(leaf(&pool, root, 0x4000_a000), None);
}

#[test]
fn page_map_stores_only_the_frame_of_an_unaligned_pa() {
    let (mut pool, root) = fresh(Arch::Sv39, 8);
    assert_eq!(page_map(&mut pool, root, 0x4000_0000, 0x9000_0abc, 8192, PTE_READ), Ok(()));
    assert_eq!(pte_to_phy(leaf(&pool, root, 0x4000_0000).unwrap()), 0x9000_0000);
    assert_eq!(pte_to_phy(leaf(&pool, root, 0x4000_1000).unwrap()), 0x9000_1000);
}

#[test]
fn page_map_twice_over_overlapping_ranges_fails_the_second() {
    let (mut pool, root) = fresh(Arch::Sv39, 16);
    let flags = PTE_READ | PTE_WRITE;
    assert_eq!(page_map(&mut pool, root, 0x4000_2000, 0x9000_2000, 3 * 4096, flags), Ok(()));
    let first: Vec<Option<u64>> =
        (0..3).map(|i| leaf(&pool, root, 0x4000_2000 + i * 4096)).collect();
    // the second range starts two pages before the first and runs into it
    assert_eq!(
        page_map(&mut pool, root, 0x4000_0000, 0xa000_0000, 4 * 4096, PTE_READ),
        Err(VmError::AlreadyMapped)
    );
    for i in 0..3 {
        assert_eq!(leaf(&pool, root, 0x4000_2000 + i * 4096), first[i as usize]);
        assert_eq!(
            first[i as usize],
            Some(phy_to_pte(0x9000_2000 + i * 4096) | flags | PTE_VALID)
        );
    }
    // the pages before the shared one were mapped and stay so
    assert_eq!(
        leaf(&pool, root, 0x4000_0000),
        Some(phy_to_pte(0xa000_0000) | PTE_READ | PTE_VALID),
    );
    assert_eq!(
        leaf(&pool, root, 0x4000_1000),
        Some(phy_to_pte(0xa000_1000) | PTE_READ | PTE_VALID),
    );
    assert_eq!(leaf(&pool, root, 0x4000_5000), None);
    // the very same range again
    assert_eq!(
        page_map(&mut pool, root, 0x4000_2000, 0x9000_2000, 3 * 4096, flags),
        Err(VmError::AlreadyMapped)
    );
}

#[test]
fn page_map_past_the_range_maps_up_to_it_and_fails() {
    let (mut pool, root) = fresh(Arch::Sv39, 8);
    let top = (1u64 << 39) - 4096;
    assert_eq!(
        page_map(&mut pool, root, top, 0x9000_0000, 2 * 4096, PTE_READ),
        Err(VmError::InvalidAddress)
    );
    assert_eq!(leaf(&pool, root, top), Some(phy_to_pte(0x9000_0000) | PTE_READ | PTE_VALID));
    let before = pool.allocated();
    assert_eq!(
        page_map(&mut pool, root, 1 << 39, 0x9000_0000, 4096, PTE_READ),
        Err(VmError::InvalidAddress)
    );
    assert_eq!(pool.allocated(), before);
}

#[test]
fn page_map_runs_out_of_frames_and_keeps_what_it_mapped() {
    // root, one middle table and one leaf table: the second leaf table is one too many
    let (mut pool, root) = fresh(Arch::Sv39, 3);
    let va = 0x4020_0000 - 2 * 4096;
    assert_eq!(
        page_map(&mut pool, root, va, 0x9000_0000, 4 * 4096, PTE_READ),
        Err(VmError::OutOfMemory)
    );
    assert_eq!(pool.allocated(), 3);
    assert_eq!(leaf(&pool, root, va), Some(phy_to_pte(0x9000_0000) | PTE_READ | PTE_VALID));
    assert_eq!(leaf(&pool, root, va + 4096), Some(phy_to_pte(0x9000_1000) | PTE_READ | PTE_VALID));
    assert_eq!(leaf(&pool, root, va + 2 * 4096), None);
    assert_eq!(walk_lookup(&pool, root, va + 2 * 4096), Err(VmError::PageFault));
}

#[test]
fn page_map_across_leaf_tables_takes_a_table_for_each() {
    let (mut pool, root) = fresh(Arch::Sv39, 8);
    let va = 0x4020_0000 - 4096;
    assert_eq!(page_map(&mut pool, root, va, 0x9000_0000, 2 * 4096, PTE_READ | PTE_WRITE), Ok(()));
    assert_eq!(pool.allocated(), 1 + 1 + 2);
    assert!(leaf(&pool, root, va).is_some());
    assert!(leaf(&pool, root, va + 4096).is_some());
}

#[test]
fn page_map_on_sv32() {
    let (mut pool, root) = fresh(Arch::Sv32, 8);
    let flags = user_process_flags(true, true, false);
    assert_eq!(page_map(&mut pool, root, 0x0040_0000, 0x8010_0000, 3 * 4096, flags), Ok(()));
    assert_eq!(pool.allocated(), 2);
    for i in 0..3u64 {
        let entry = leaf(&pool, root, 0x0040_0000 + i * 4096 + 0x10).unwrap();
        assert_eq!(pte_to_phy(entry), 0x8010_0000 + i * 4096);
        assert_eq!(entry & 0x3ff, PTE_USER | PTE_READ | PTE_WRITE | PTE_VALID);
        assert!(entry <= 0xffff_ffff);
    }
    assert_eq!(
        page_map(&mut pool, root, 0x0040_2000, 0x8020_0000, 4096, flags),
        Err(VmError::AlreadyMapped)
    );
    assert_eq!(
        page_map(&mut pool, root, 0xffff_f000, 0x8020_0000, 2 * 4096, flags),
        Err(VmError::InvalidAddress)
    );
}

#[test]
fn two_roots_in_one_pool_map_apart() {
    let mut pool = PagePool::new(Arch::Sv39, POOL, 16).unwrap();
    let one = PageTable::create(&mut pool).unwrap();
    let two = PageTable::create(&mut pool).unwrap();
    assert_eq!(page_map(&mut pool, one, 0x4000_0000, 0x9000_0000, 4096, PTE_READ), Ok(()));
    assert_eq!(
        page_map(&mut pool, two, 0x4000_0000, 0xa000_0000, 4096, PTE_WRITE | PTE_READ),
        Ok(()),
    );
    assert_eq!(leaf(&pool, one, 0x4000_0000), Some(phy_to_pte(0x9000_0000) | PTE_READ | PTE_VALID));
    assert_eq!(
        leaf(&pool, two, 0x4000_0000),
        Some(phy_to_pte(0xa000_0000) | PTE_READ | PTE_WRITE | PTE_VALID)
    );
}

#[test]
fn an_overlapping_page_map_may_run_out_of_frames_first() {
    // root, middle table and leaf table for the first mapping use up the pool
    let (mut pool, root) = fresh(Arch::Sv39, 3);
    assert_eq!(page_map(&mut pool, root, 0x4020_0000, 0x9000_0000, 4096, PTE_READ), Ok(()));
    assert_eq!(pool.allocated(), 3);
    let first = leaf(&pool, root, 0x4020_0000);
    // the page before the shared one needs a leaf table of its own
    assert_eq!(
        page_map(&mut pool, root, 0x401f_f000, 0xa000_0000, 2 * 4096, PTE_READ),
        Err(VmError::OutOfMemory)
    );
    assert_eq!(leaf(&pool, root, 0x4020_0000), first);
    assert_eq!(leaf(&pool, root, 0x401f_f000), None);
}

#[test]
fn a_lookup_next_to_a_mapped_page_finds_an_empty_leaf_entry() {
    let (mut pool, root) = fresh(Arch::Sv39, 8);
    assert_eq!(page_map(&mut pool, root, 0x4000_0000, 0x9000_0000, 4096, PTE_READ), Ok(()));
    let before = pool.allocated();
    let mapped = walk(&mut pool, root, 0x4000_0000, false).unwrap();
    let next = walk(&mut pool, root, 0x4000_1000, false).unwrap();
    assert_eq!(next, mapped + 8);
    assert_eq!(pool.read_pte(next), 0);
    assert_eq!(pool.allocated(), before);
    // beyond the leaf table the lookup faults
    assert_eq!(walk(&mut pool, root, 0x4020_0000, false), Err(VmError::PageFault));
}
