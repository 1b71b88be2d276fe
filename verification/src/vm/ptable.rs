//! Page tables: the handle to one table, the walk from a root to the leaf
//! entry of a virtual address, and the mapping of a range of pages.

use vstd::prelude::*;
use vstd::std_specs::convert::FromSpecImpl;
use crate::vm::arch::Arch;
use crate::vm::entry::{phy_to_satp, pte_to_phy, spec_phy_to_satp, spec_pte_to_phy};
use crate::vm::pool::{PagePool, VmError};
use crate::vm::tree::{entry_addr, lemma_fresh_root, tree_wf};

verus! {

/// One step of switching the hart to a translation root.
#[derive(Clone, Copy, Debug, PartialEq, Eq, Structural)]
pub enum MmuOp {
    /// Drop every cached translation, of every address space.
    FlushTlb,
    /// Store the value in the translation-root register.
    SetSatp(u64),
}

/// Abstraction of a page table at a physical address: one page, read as an
/// array of entries.
#[derive(Clone, Copy, Debug, PartialEq, Eq, Structural)]
pub struct PageTable {
    base: u64,
}

impl FromSpecImpl<u64> for PageTable {
    open spec fn obeys_from_spec() -> bool {
        true
    }

    open spec fn from_spec(pte: u64) -> PageTable {
        PageTable::at(spec_pte_to_phy(pte))
    }
}

impl From<u64> for PageTable {
    /// The table that a valid entry without permissions points to.
    fn from(pte: u64) -> (table: PageTable) {
        PageTable { base: pte_to_phy(pte) }
    }
}

/// Address of entry `index` of the table at `phy`.
pub fn get_phy_offset(arch: Arch, phy: u64, index: u64) -> (addr: u64)
    requires
        entry_addr(arch, phy as int, index as int) <= u64::MAX,
    ensures
        addr == entry_addr(arch, phy as int, index as int),
{
    assert(index * arch.spec_entry_size() <= u64::MAX) by (nonlinear_arith)
        requires
            phy + index * arch.spec_entry_size() <= u64::MAX,
            0 <= phy,
    ;
    phy + index * arch.entry_size()
}

impl PageTable {
    /// The handle to the table at physical address `base`.
    pub closed spec fn at(base: u64) -> PageTable {
        PageTable { base }
    }

    /// Physical address of the table.
    pub closed spec fn spec_base(&self) -> u64 {
        self.base
    }

    #[verifier::when_used_as_spec(spec_base)]
    pub fn base(&self) -> (base: u64)
        ensures
            base == self.spec_base(),
            *self == PageTable::at(base),
    {
        self.base
    }

    /// A handle knows nothing but its address.
    pub proof fn lemma_at_base(base: u64)
        ensures
            PageTable::at(base).spec_base() == base,
    {
    }

    /// A new, empty table in a frame taken from the pool: the root of a
    /// tree that maps nothing yet.
    pub fn create(pool: &mut PagePool) -> (table: Result<PageTable, VmError>)
        requires
            old(pool).wf(),
        ensures
            final(pool).wf(),
            old(pool)@.full() ==> table == Err::<PageTable, VmError>(VmError::OutOfMemory)
                && final(pool)@ == old(pool)@,
            !old(pool)@.full() ==> table == Ok::<PageTable, VmError>(
                PageTable::at(old(pool)@.next_frame() as u64),
            ) && final(pool)@ == old(pool)@.grow() && tree_wf(
                final(pool)@,
                old(pool)@.next_frame(),
            ),
    {
        match pool.palloc() {
            Ok(frame) => {
                proof {
                    old(pool).lemma_wf_view();
                    pool.lemma_wf_view();
                    lemma_fresh_root(old(pool)@);
                }
                Ok(PageTable { base: frame })
            },
            Err(e) => Err(e),
        }
    }

    /// Address of entry `idx` of the table.
    pub fn index_mut(&self, arch: Arch, idx: u64) -> (addr: u64)
        requires
            idx < arch.spec_entries(),
            self.spec_base() + 4096 <= u64::MAX + 1,
        ensures
            addr == entry_addr(arch, self.spec_base() as int, idx as int),
    {
        get_phy_offset(arch, self.base, idx)
    }

    /// The steps that make this table the hart's translation root, in
    /// order: the cached translations are dropped both before and after
    /// the register is written, so that no stale one outlives the switch.
    pub fn write_satp(&self, arch: Arch) -> (ops: [MmuOp; 3])
        ensures
            ops@ == seq![
                MmuOp::FlushTlb,
                MmuOp::SetSatp(spec_phy_to_satp(arch, self.spec_base())),
                MmuOp::FlushTlb,
            ],
    {
        let ops = [MmuOp::FlushTlb, MmuOp::SetSatp(phy_to_satp(arch, self.base)), MmuOp::FlushTlb];
        assert(ops@ =~= seq![
            MmuOp::FlushTlb,
            MmuOp::SetSatp(spec_phy_to_satp(arch, self.spec_base())),
            MmuOp::FlushTlb,
        ]);
        ops
    }
}

} // verus!
