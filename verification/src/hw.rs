//! Bringing a hart up: the values that the boot code stores in the
//! control and status registers, computed from what it has read there.
//! The stores themselves are the caller's.

pub mod riscv;

use vstd::prelude::*;
use crate::hw::riscv::{
    MIE_MTIE,
    MSTATUS_MIE,
    MSTATUS_MPP_MASK,
    MSTATUS_MPP_S,
    SIE_SEIE,
    SIE_SSIE,
    SIE_STIE,
};

verus! {

/// Ticks of the machine timer between two timer interrupts.
pub const INTERVAL: u64 = 10_000_000;

/// Every exception and interrupt that can be handed down to supervisor
/// mode.
pub const DELEGATE_ALL: u64 = 0xffff;

/// The one physical-memory-protection region that covers all of memory.
pub const PMP_ALL_MEMORY: u64 = 0x3f_ffff_ffff_ffff;

/// Read, write and execute for that region, matched top-of-range.
pub const PMP_RWX_TOR: u64 = 0xf;

/// What `timerinit` has the caller store.
#[derive(Clone, Copy, Debug, PartialEq, Eq, Structural)]
pub struct TimerSetup {
    /// Distance of the first timer interrupt from now.
    pub interval: u64,
    /// The machine trap vector.
    pub mtvec: u64,
    pub mstatus: u64,
    pub mie: u64,
}

/// What `start` has the caller store before it leaves machine mode.
#[derive(Clone, Copy, Debug, PartialEq, Eq, Structural)]
pub struct BootSetup {
    pub mstatus: u64,
    /// Where `mret` continues, in supervisor mode.
    pub mepc: u64,
    pub satp: u64,
    pub medeleg: u64,
    pub mideleg: u64,
    pub sie: u64,
    pub pmpaddr0: u64,
    pub pmpcfg0: u64,
    /// The thread pointer, by which the hart knows itself later.
    pub tp: u64,
}

/// Set up and enable the core local interrupt controller on a hart: the
/// first timer interrupt is due after `INTERVAL` ticks, the machine trap
/// vector holds `mtrapvec`, and machine-mode interrupts and the machine
/// timer interrupt are enabled on top of what `mstatus` and `mie` hold.
pub fn timerinit(mtrapvec: u64, mstatus: u64, mie: u64) -> (setup: TimerSetup)
    ensures
        setup.interval == INTERVAL,
        setup.mtvec == mtrapvec,
        setup.mstatus == mstatus | MSTATUS_MIE,
        setup.mie == mie | MIE_MTIE,
        setup.mstatus & MSTATUS_MIE != 0,
        setup.mstatus & !MSTATUS_MIE == mstatus & !MSTATUS_MIE,
        setup.mie & MIE_MTIE != 0,
        setup.mie & !MIE_MTIE == mie & !MIE_MTIE,
{
    assert((mstatus | 0x8) & 0x8 != 0 && (mstatus | 0x8) & !0x8u64 == mstatus & !0x8u64)
        by (bit_vector);
    assert((mie | 0x80) & 0x80 != 0 && (mie | 0x80) & !0x80u64 == mie & !0x80u64)
        by (bit_vector);
    TimerSetup {
        interval: INTERVAL,
        mtvec: mtrapvec,
        mstatus: mstatus | MSTATUS_MIE,
        mie: mie | MIE_MTIE,
    }
}

/// The configuration that lets the kernel run in supervisor mode: the
/// previous privilege mode is supervisor, so that `mret` enters it at
/// `entry`; paging is off; all traps are delegated to supervisor mode; the
/// supervisor's external, timer and software interrupts are enabled on top
/// of what `sie` holds; supervisor mode may access all of physical memory;
/// and the thread pointer holds the hart's number.
pub fn start(entry: u64, hartid: u64, mstatus: u64, sie: u64) -> (setup: BootSetup)
    ensures
        setup.mstatus & MSTATUS_MPP_MASK == MSTATUS_MPP_S,
        setup.mstatus & !MSTATUS_MPP_MASK == mstatus & !MSTATUS_MPP_MASK,
        setup.mepc == entry,
        setup.satp == 0,
        setup.medeleg == DELEGATE_ALL,
        setup.mideleg == DELEGATE_ALL,
        setup.sie == sie | SIE_SEIE | SIE_STIE | SIE_SSIE,
        setup.sie & !(SIE_SEIE | SIE_STIE | SIE_SSIE) == sie & !(SIE_SEIE | SIE_STIE | SIE_SSIE),
        setup.pmpaddr0 == PMP_ALL_MEMORY,
        setup.pmpcfg0 == PMP_RWX_TOR,
        setup.tp == hartid,
{
    let status = mstatus & !(1 << 12) | (1 << 11);
    let enabled = sie | SIE_SEIE | SIE_STIE | SIE_SSIE;
    assert(status & 0x1800 == 0x0800 && status & !0x1800u64 == mstatus & !0x1800u64)
        by (bit_vector)
        requires
            status == mstatus & !(1u64 << 12) | (1u64 << 11),
    ;
    assert(enabled & !(0x200u64 | 0x20 | 0x2) == sie & !(0x200u64 | 0x20 | 0x2)) by (bit_vector)
        requires
            enabled == sie | 0x200 | 0x20 | 0x2,
    ;
    BootSetup {
        mstatus: status,
        mepc: entry,
        satp: 0,
        medeleg: DELEGATE_ALL,
        mideleg: DELEGATE_ALL,
        sie: enabled,
        pmpaddr0: PMP_ALL_MEMORY,
        pmpcfg0: PMP_RWX_TOR,
        tp: hartid,
    }
}

} // verus!
