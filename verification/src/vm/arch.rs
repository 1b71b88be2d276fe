//! The two translation schemes and their geometry.

use vstd::prelude::*;

verus! {

/// Bytes in a page, in a physical frame and in one page table.
pub const PAGE_SIZE: u64 = 4096;

/// A translation scheme of the RISC-V privileged architecture.
///
/// `Sv32` is the two-level scheme of 32-bit harts, `Sv39` the three-level
/// scheme of 64-bit harts. Every quantity that differs between the two
/// widths is a method of this type, so that one walk and one mapper serve
/// both.
#[derive(Clone, Copy, Debug, PartialEq, Eq, Structural)]
pub enum Arch {
    Sv32,
    Sv39,
}

impl Arch {
    /// Depth of the translation tree.
    pub open spec fn spec_levels(self) -> u32 {
        match self {
            Arch::Sv32 => 2,
            Arch::Sv39 => 3,
        }
    }

    /// Bytes in one page-table entry.
    pub open spec fn spec_entry_size(self) -> u64 {
        match self {
            Arch::Sv32 => 4,
            Arch::Sv39 => 8,
        }
    }

    /// Entries in one table: a table fills exactly one page.
    pub open spec fn spec_entries(self) -> u64 {
        match self {
            Arch::Sv32 => 1024,
            Arch::Sv39 => 512,
        }
    }

    /// Largest virtual address that the scheme translates.
    pub open spec fn spec_va_max(self) -> u64 {
        match self {
            Arch::Sv32 => 0xffff_ffff,
            Arch::Sv39 => 0x7f_ffff_ffff,
        }
    }

    /// Largest value of a machine word of the hart, which is also the
    /// largest value that a page-table entry can hold.
    pub open spec fn spec_word_max(self) -> u64 {
        match self {
            Arch::Sv32 => 0xffff_ffff,
            Arch::Sv39 => 0xffff_ffff_ffff_ffff,
        }
    }

    /// Mode tag of the translation-root register.
    pub open spec fn spec_root_tag(self) -> u64 {
        match self {
            Arch::Sv32 => 0x8000_0000,
            Arch::Sv39 => 0x8000_0000_0000_0000,
        }
    }

    #[verifier::when_used_as_spec(spec_levels)]
    pub fn levels(self) -> (n: u32)
        ensures
            n == self.spec_levels(),
    {
        match self {
            Arch::Sv32 => 2,
            Arch::Sv39 => 3,
        }
    }

    #[verifier::when_used_as_spec(spec_entry_size)]
    pub fn entry_size(self) -> (n: u64)
        ensures
            n == self.spec_entry_size(),
    {
        match self {
            Arch::Sv32 => 4,
            Arch::Sv39 => 8,
        }
    }

    #[verifier::when_used_as_spec(spec_entries)]
    pub fn entries(self) -> (n: u64)
        ensures
            n == self.spec_entries(),
            n * self.spec_entry_size() == PAGE_SIZE,
    {
        match self {
            Arch::Sv32 => 1024,
            Arch::Sv39 => 512,
        }
    }

    #[verifier::when_used_as_spec(spec_va_max)]
    pub fn va_max(self) -> (a: u64)
        ensures
            a == self.spec_va_max(),
    {
        match self {
            Arch::Sv32 => 0xffff_ffff,
            Arch::Sv39 => 0x7f_ffff_ffff,
        }
    }

    #[verifier::when_used_as_spec(spec_word_max)]
    pub fn word_max(self) -> (a: u64)
        ensures
            a == self.spec_word_max(),
    {
        match self {
            Arch::Sv32 => 0xffff_ffff,
            Arch::Sv39 => 0xffff_ffff_ffff_ffff,
        }
    }

    #[verifier::when_used_as_spec(spec_root_tag)]
    pub fn root_tag(self) -> (t: u64)
        ensures
            t == self.spec_root_tag(),
    {
        match self {
            Arch::Sv32 => 0x8000_0000,
            Arch::Sv39 => 0x8000_0000_0000_0000,
        }
    }
}

} // verus!
