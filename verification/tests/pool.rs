use riscv_kernel::vm::arch::Arch;
use riscv_kernel::vm::pool::{PagePool, VmError};

#[test]
fn pool_refuses_an_unaligned_base() {
    assert!(PagePool::new(Arch::Sv39, 0x8000_0001, 4).is_none());
    assert!(PagePool::new(Arch::Sv39, 0x8000_0800, 0).is_none());
}

#[test]
fn pool_refuses_frames_beyond_the_last_word() {
    assert!(PagePool::new(Arch::Sv32, 0xffff_f000, 1).is_some());
    assert!(PagePool::new(Arch::Sv32, 0xffff_f000, 2).is_none());
    assert!(PagePool::new(Arch::Sv32, 0x1_0000_0000, 0).is_none());
    assert!(PagePool::new(Arch::Sv39, 0xffff_ffff_ffff_f000, 1).is_some());
    assert!(PagePool::new(Arch::Sv39, 0xffff_ffff_ffff_f000, 2).is_none());
    assert!(PagePool::new(Arch::Sv39, 0, usize::MAX).is_none());
}

#[test]
fn pool_reports_what_it_was_made_with() {
    let pool = PagePool::new(Arch::Sv32, 0x8040_0000, 7).unwrap();
    assert_eq!(pool.arch(), Arch::Sv32);
    assert_eq!(pool.base(), 0x8040_0000);
    assert_eq!(pool.limit(), 7);
    assert_eq!(pool.allocated(), 0);
}

#[test]
fn palloc_hands_out_consecutive_zeroed_frames() {
    let mut pool = PagePool::new(Arch::Sv39, 0x8040_0000, 3).unwrap();
    assert_eq!(pool.palloc(), Ok(0x8040_0000));
    assert_eq!(pool.palloc(), Ok(0x8040_1000));
    assert_eq!(pool.allocated(), 2);
    for idx in 0..512u64 {
        assert_eq!(pool.read_pte(0x8040_0000 + idx * 8), 0);
        assert_eq!(pool.read_pte(0x8040_1000 + idx * 8), 0);
    }
}

#[test]
fn palloc_fails_when_the_pool_is_used_up() {
    let mut pool = PagePool::new(Arch::Sv39, 0x8040_0000, 2).unwrap();
    assert!(pool.palloc().is_ok());
    assert!(pool.palloc().is_ok());
    assert_eq!(pool.palloc(), Err(VmError::OutOfMemory));
    assert_eq!(pool.palloc(), Err(VmError::OutOfMemory));
    assert_eq!(pool.allocated(), 2);
}

#[test]
fn an_empty_pool_gives_nothing() {
    let mut pool = PagePool::new(Arch::Sv32, 0, 0).unwrap();
    assert_eq!(pool.palloc(), Err(VmError::OutOfMemory));
    assert_eq!(pool.allocated(), 0);
}

#[test]
fn set_pte_changes_one_entry() {
    let mut pool = PagePool::new(Arch::Sv39, 0x8040_0000, 2).unwrap();
    pool.palloc().unwrap();
    pool.palloc().unwrap();
    pool.set_pte(0x8040_0008, 0x1234_5678_9abc_def0);
    pool.set_pte(0x8040_1ff8, 7);
    assert_eq!(pool.read_pte(0x8040_0008), 0x1234_5678_9abc_def0);
    assert_eq!(pool.read_pte(0x8040_1ff8), 7);
    assert_eq!(pool.read_pte(0x8040_0000), 0);
    assert_eq!(pool.read_pte(0x8040_0010), 0);
    assert_eq!(pool.read_pte(0x8040_1000), 0);
    pool.set_pte(0x8040_0008, 0);
    assert_eq!(pool.read_pte(0x8040_0008), 0);
    assert_eq!(pool.read_pte(0x8040_1ff8), 7);
}

#[test]
fn sv32_entries_are_four_bytes_apart() {
    let mut pool = PagePool::new(Arch::Sv32, 0x8040_0000, 1).unwrap();
    pool.palloc().unwrap();
    pool.set_pte(0x8040_0004, 0xffff_ffff);
    pool.set_pte(0x8040_0ffc, 0x8000_0001);
    assert_eq!(pool.read_pte(0x8040_0000), 0);
    assert_eq!(pool.read_pte(0x8040_0004), 0xffff_ffff);
    assert_eq!(pool.read_pte(0x8040_0008), 0);
    assert_eq!(pool.read_pte(0x8040_0ffc), 0x8000_0001);
}
