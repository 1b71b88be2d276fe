//! Bits of the RISC-V control and status registers.

use vstd::prelude::*;

verus! {

/// Machine previous privilege mode: the two bits of the field.
pub const MSTATUS_MPP_MASK: u64 = 0x1800;

/// Previous mode machine.
pub const MSTATUS_MPP_M: u64 = 0x1800;

/// Previous mode supervisor.
pub const MSTATUS_MPP_S: u64 = 0x0800;

/// Previous mode user.
pub const MSTATUS_MPP_U: u64 = 0x0000;

/// Machine-mode interrupt enable.
pub const MSTATUS_MIE: u64 = 0x8;

/// `mcause` of the machine-mode timer interrupt on a 64-bit hart: the
/// interrupt bit and cause 7.
pub const MSTATUS_TIMER: u64 = 0x8000_0000_0000_0007;

/// Previous mode, 1 = supervisor, 0 = user.
pub const SSTATUS_SPP: u64 = 0x100;

/// Supervisor previous interrupt enable.
pub const SSTATUS_SPIE: u64 = 0x20;

/// User previous interrupt enable.
pub const SSTATUS_UPIE: u64 = 0x10;

/// Supervisor interrupt enable.
pub const SSTATUS_SIE: u64 = 0x2;

/// User interrupt enable.
pub const SSTATUS_UIE: u64 = 0x1;

/// Machine external interrupt enable.
pub const MIE_MEIE: u64 = 0x800;

/// Machine timer interrupt enable.
pub const MIE_MTIE: u64 = 0x80;

/// Machine software interrupt enable.
pub const MIE_MSIE: u64 = 0x8;

/// Supervisor external interrupt enable.
pub const SIE_SEIE: u64 = 0x200;

/// Supervisor timer interrupt enable.
pub const SIE_STIE: u64 = 0x20;

/// Supervisor software interrupt enable.
pub const SIE_SSIE: u64 = 0x2;

} // verus!
