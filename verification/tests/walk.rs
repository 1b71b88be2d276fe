use riscv_kernel::vm::arch::Arch;
use riscv_kernel::vm::entry::{phy_to_pte, PTE_VALID};
use riscv_kernel::vm::pool::{PagePool, VmError};
use riscv_kernel::vm::ptable::{get_phy_offset, MmuOp, PageTable};
use riscv_kernel::vm::walk::{walk, walk_alloc, walk_lookup};

const POOL: u64 = 0x8040_0000;

#[test]
fn create_takes_one_frame_for_the_root() {
    let mut pool = PagePool::new(Arch::Sv39, POOL, 4).unwrap();
    let root = PageTable::create(&mut pool).unwrap();
    assert_eq!(root.base(), POOL);
    assert_eq!(pool.allocated(), 1);
    let second = PageTable::create(&mut pool).unwrap();
    assert_eq!(second.base(), POOL + 0x1000);
}

#[test]
fn create_fails_on_a_used_up_pool() {
    let mut pool = PagePool::new(Arch::Sv39, POOL, 0).unwrap();
    assert_eq!(PageTable::create(&mut pool), Err(VmError::OutOfMemory));
}

#[test]
fn a_table_is_decoded_from_an_entry() {
    let table = PageTable::from(phy_to_pte(0x8040_3000) | PTE_VALID);
    assert_eq!(table.base(), 0x8040_3000);
}

#[test]
fn index_mut_addresses_the_entries() {
    let mut pool = PagePool::new(Arch::Sv39, POOL, 1).unwrap();
    let root = PageTable::create(&mut pool).unwrap();
    assert_eq!(root.index_mut(Arch::Sv39, 0), POOL);
    assert_eq!(root.index_mut(Arch::Sv39, 1), POOL + 8);
    assert_eq!(root.index_mut(Arch::Sv39, 511), POOL + 0xff8);
    assert_eq!(root.index_mut(Arch::Sv32, 1), POOL + 4);
    assert_eq!(root.index_mut(Arch::Sv32, 1023), POOL + 0xffc);
    assert_eq!(get_phy_offset(Arch::Sv39, 0x1000, 3), 0x1018);
    assert_eq!(get_phy_offset(Arch::Sv32, 0x1000, 3), 0x100c);
}

#[test]
fn write_satp_flushes_before_and_after_the_store() {
    let mut pool = PagePool::new(Arch::Sv39, POOL, 1).unwrap();
    let root = PageTable::create(&mut pool).unwrap();
    let ops = root.write_satp(Arch::Sv39);
    assert_eq!(
        ops,
        [MmuOp::FlushTlb, MmuOp::SetSatp(0x8000_0000_0008_0400), MmuOp::FlushTlb]
    );
    let ops = root.write_satp(Arch::Sv32);
    assert_eq!(ops, [MmuOp::FlushTlb, MmuOp::SetSatp(0x8008_0400), MmuOp::FlushTlb]);
}

#[test]
fn lookup_on_a_fresh_root_faults_and_allocates_nothing() {
    let mut pool = PagePool::new(Arch::Sv39, POOL, 8).unwrap();
    let root = PageTable::create(&mut pool).unwrap();
    for va in [0u64, 0x1000, 0x8000_0000, 0x7f_ffff_ffff] {
        assert_eq!(walk(&mut pool, root, va, false), Err(VmError::PageFault));
        assert_eq!(walk_lookup(&pool, root, va), Err(VmError::PageFault));
    }
    assert_eq!(pool.allocated(), 1);
    for idx in 0..512u64 {
        assert_eq!(pool.read_pte(POOL + idx * 8), 0);
    }
}

#[test]
fn walk_refuses_addresses_above_the_range() {
    let mut pool = PagePool::new(Arch::Sv39, POOL, 8).unwrap();
    let root = PageTable::create(&mut pool).unwrap();
    assert_eq!(walk(&mut pool, root, 1 << 39, true), Err(VmError::InvalidAddress));
    assert_eq!(walk(&mut pool, root, 1 << 39, false), Err(VmError::InvalidAddress));
    assert_eq!(walk(&mut pool, root, u64::MAX, true), Err(VmError::InvalidAddress));
    assert_eq!(pool.allocated(), 1);
    assert!(walk(&mut pool, root, (1 << 39) - 1, true).is_ok());

    let mut pool = PagePool::new(Arch::Sv32, POOL, 8).unwrap();
    let root = PageTable::create(&mut pool).unwrap();
    assert_eq!(walk(&mut pool, root, 1 << 32, true), Err(VmError::InvalidAddress));
    assert!(walk(&mut pool, root, (1 << 32) - 1, true).is_ok());
}

#[test]
fn first_walk_makes_the_tables_and_the_second_none() {
    let mut pool = PagePool::new(Arch::Sv39, POOL, 8).unwrap();
    let root = PageTable::create(&mut pool).unwrap();
    // page number 0x80203: indices 2, 1, 3 from the root down
    let leaf = walk(&mut pool, root, 0x8020_3abc, true).unwrap();
    assert_eq!(pool.allocated(), 1 + 2);
    assert_eq!(leaf, POOL + 0x2000 + 3 * 8);
    assert_eq!(pool.read_pte(POOL + 2 * 8), phy_to_pte(POOL + 0x1000) | PTE_VALID);
    assert_eq!(pool.read_pte(POOL + 0x1000 + 8), phy_to_pte(POOL + 0x2000) | PTE_VALID);
    assert_eq!(pool.read_pte(leaf), 0);

    assert_eq!(walk(&mut pool, root, 0x8020_3abc, true), Ok(leaf));
    assert_eq!(walk(&mut pool, root, 0x8020_3000, true), Ok(leaf));
    assert_eq!(walk(&mut pool, root, 0x8020_4000, true), Ok(leaf + 8));
    assert_eq!(pool.allocated(), 3);
    assert_eq!(walk(&mut pool, root, 0x8020_3abc, false), Ok(leaf));
    assert_eq!(walk_lookup(&pool, root, 0x8020_3fff), Ok(leaf));
}

#[test]
fn a_walk_shares_the_tables_that_exist() {
    let mut pool = PagePool::new(Arch::Sv39, POOL, 8).unwrap();
    let root = PageTable::create(&mut pool).unwrap();
    walk_alloc(&mut pool, root, 0x8020_3000).unwrap();
    assert_eq!(pool.allocated(), 3);
    // same top index, another middle index: one new leaf table
    let leaf = walk_alloc(&mut pool, root, 0x8040_0000).unwrap();
    assert_eq!(pool.allocated(), 4);
    assert_eq!(leaf, POOL + 0x3000);
    // another top index: a middle table and a leaf table
    let leaf = walk_alloc(&mut pool, root, 0x1000_0000).unwrap();
    assert_eq!(pool.allocated(), 6);
    assert_eq!(leaf, POOL + 0x5000);
    // a lookup next to what exists finds the leaf table or faults
    assert_eq!(walk_lookup(&pool, root, 0x8020_0000), Ok(POOL + 0x2000));
    assert_eq!(walk_lookup(&pool, root, 0x8060_0000), Err(VmError::PageFault));
    assert_eq!(walk_lookup(&pool, root, 0x4000_0000), Err(VmError::PageFault));
}

#[test]
fn sv32_walk_makes_one_table() {
    let mut pool = PagePool::new(Arch::Sv32, POOL, 4).unwrap();
    let root = PageTable::create(&mut pool).unwrap();
    assert_eq!(walk_lookup(&pool, root, 0x8020_3abc), Err(VmError::PageFault));
    // page number 0x80203: indices 0x200, 0x203
    let leaf = walk(&mut pool, root, 0x8020_3abc, true).unwrap();
    assert_eq!(pool.allocated(), 1 + 1);
    assert_eq!(leaf, POOL + 0x1000 + 0x203 * 4);
    assert_eq!(pool.read_pte(POOL + 0x200 * 4), phy_to_pte(POOL + 0x1000) | PTE_VALID);
    assert_eq!(walk(&mut pool, root, 0x8020_3abc, true), Ok(leaf));
    assert_eq!(pool.allocated(), 2);
}

#[test]
fn walk_reports_a_used_up_pool_and_keeps_what_it_made() {
    let mut pool = PagePool::new(Arch::Sv39, POOL, 2).unwrap();
    let root = PageTable::create(&mut pool).unwrap();
    assert_eq!(walk(&mut pool, root, 0x8020_3000, true), Err(VmError::OutOfMemory));
    assert_eq!(pool.allocated(), 2);
    // the middle table was made and hung in; it is empty
    assert_eq!(pool.read_pte(POOL + 2 * 8), phy_to_pte(POOL + 0x1000) | PTE_VALID);
    assert_eq!(pool.read_pte(POOL + 0x1000 + 8), 0);
    assert_eq!(walk(&mut pool, root, 0x8020_3000, false), Err(VmError::PageFault));
    assert_eq!(walk(&mut pool, root, 0x8020_3000, true), Err(VmError::OutOfMemory));
    assert_eq!(pool.allocated(), 2);
}

#[test]
fn walk_with_a_full_pool_changes_nothing() {
    let mut pool = PagePool::new(Arch::Sv39, POOL, 1).unwrap();
    let root = PageTable::create(&mut pool).unwrap();
    assert_eq!(walk(&mut pool, root, 0x8020_3000, true), Err(VmError::OutOfMemory));
    for idx in 0..512u64 {
        assert_eq!(pool.read_pte(POOL + idx * 8), 0);
    }
}
