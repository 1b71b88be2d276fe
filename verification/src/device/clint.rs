//! Core local interruptor (timer interrupts).

use vstd::prelude::*;

verus! {

/// Offset of the timer register, one for all harts, from the base of the
/// interruptor.
pub const MTIME_OFFSET: u64 = 0xbff8;

/// Offset of the first hart's timer-compare register from the base of the
/// interruptor; each hart's register lies eight bytes after the one
/// before.
pub const MTIMECMP_OFFSET: u64 = 0x4000;

/// One store to a device register.
#[derive(Clone, Copy, Debug, PartialEq, Eq, Structural)]
pub struct RegisterStore {
    pub addr: u64,
    pub value: u64,
}

/// Address of the timer register of the interruptor at `base`.
pub fn mtime_addr(base: u64) -> (addr: u64)
    requires
        base + MTIME_OFFSET <= u64::MAX,
    ensures
        addr == base + MTIME_OFFSET,
{
    base + MTIME_OFFSET
}

/// The store that has the timer of hart `hartid` go off `interval` ticks
/// after `mtime`, the time read from the timer register: a machine-mode
/// interrupt is raised once the timer reaches the value stored.
pub fn timer_store(base: u64, hartid: u64, mtime: u64, interval: u64) -> (store: RegisterStore)
    requires
        base + MTIMECMP_OFFSET + 8 * hartid <= u64::MAX,
        mtime + interval <= u64::MAX,
    ensures
        store.addr == base + MTIMECMP_OFFSET + 8 * hartid,
        store.value == mtime + interval,
{
    RegisterStore { addr: base + (MTIMECMP_OFFSET + 8 * hartid), value: mtime + interval }
}

} // verus!
