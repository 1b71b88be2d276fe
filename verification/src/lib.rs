//! Verified core of a small RISC-V kernel: the virtual-memory subsystem
//! (page-table entries, the translation walk, range mapping and the
//! construction of the kernel's identity-mapped address space), the values
//! with which a hart is brought up, and what is done about a trap.

pub mod device;
pub mod hw;
pub mod trap;
pub mod vm;
