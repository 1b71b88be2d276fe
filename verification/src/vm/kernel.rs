//! The kernel's own address space: every region of the machine that the
//! kernel touches, mapped onto itself.

use vstd::prelude::*;
use crate::vm::arch::{Arch, PAGE_SIZE};
use crate::vm::entry::{
    lemma_frame_with_flags,
    spec_page_align_down,
    spec_pte_to_phy,
    PTE_EXEC,
    PTE_FLAG_MASK,
    PTE_READ,
    PTE_VALID,
    PTE_WRITE,
};
use crate::vm::map::{
    entry_for,
    in_pages,
    leaf_entry,
    lemma_leaf_entry_fits,
    lemma_map_pages_succeeds,
    lemma_page_map_keeps,
    lemma_range_pages,
    page_map,
    page_map_spec,
    page_span,
};
use crate::vm::pool::{PagePool, PoolState, VmError};
use crate::vm::ptable::PageTable;
use crate::vm::tree::{
    lemma_table_is_frame,
    lemma_frame_within,
    lemma_fresh_root,
    lemma_translation_is_leaf,
    translation,
    tree_wf,
};
use crate::vm::walk::{lemma_walk_step, walk_lookup_spec};

verus! {

/// Permissions of memory that the kernel reads and writes.
pub const KERNEL_RW: u64 = PTE_READ | PTE_WRITE;

/// Permissions of the kernel's code.
pub const KERNEL_RX: u64 = PTE_READ | PTE_EXEC;

/// Permissions of the kernel's constants.
pub const KERNEL_RO: u64 = PTE_READ;

/// Where the linker and the board have put things: the addresses that
/// bound the regions of the kernel's address space.
#[derive(Clone, Copy, Debug)]
pub struct MemoryLayout {
    /// The page of the UART's registers.
    pub uart_base: u64,
    /// Start of RAM and of the kernel's code.
    pub dram_base: u64,
    /// End of the code and start of the constants.
    pub text_end: u64,
    /// End of the constants and start of the initialised data.
    pub rodata_end: u64,
    /// End of the initialised data.
    pub data_end: u64,
    /// Start of the harts' kernel stacks: three pages for each hart, a
    /// guard page and two pages of stack.
    pub stacks_start: u64,
    /// Start of the harts' interrupt stacks: four pages for each hart, a
    /// guard page, the machine-mode stack, a guard page and the
    /// supervisor-mode stack.
    pub intstacks_start: u64,
    /// Start of the uninitialised data.
    pub bss_start: u64,
    /// End of the uninitialised data and start of the heap.
    pub bss_end: u64,
    /// End of usable RAM.
    pub memory_end: u64,
    /// Number of harts.
    pub nhart: u64,
}

/// A stretch of addresses to be mapped onto itself.
#[derive(Clone, Copy, Debug)]
pub struct Region {
    pub start: u64,
    pub size: u64,
    pub flags: u64,
}

impl Region {
    /// `page_map` accepts the region under the scheme `arch`: it is not
    /// empty, its bytes have addresses that are machine words, and its
    /// flags are a machine word that grants some access.
    pub open spec fn mappable(self, arch: Arch) -> bool {
        &&& self.size > 0
        &&& self.start + (self.size - 1) <= arch.spec_word_max()
        &&& self.flags <= arch.spec_word_max()
        &&& self.flags & (PTE_READ | PTE_WRITE | PTE_EXEC) != 0
    }

    /// A region of machine words has the frames of its pages at machine
    /// words, so that it can be mapped onto itself.
    pub proof fn lemma_mappable(self, arch: Arch)
        requires
            self.mappable(arch),
        ensures
            self.start + (self.size - 1) <= u64::MAX,
            self.start + page_span(self.start, self.size) <= arch.spec_word_max(),
    {
        let last = (self.start + self.size - 1) as u64;
        assert((arch.spec_word_max() + 1) % 4096 == 0);
        assert(spec_page_align_down(last) + 4096 <= arch.spec_word_max() + 1);
    }

    /// Whether `page_map` accepts the region under the scheme `arch`.
    pub fn is_mappable(&self, arch: Arch) -> (ok: bool)
        ensures
            ok == self.mappable(arch),
    {
        if self.size == 0 {
            return false;
        }
        match self.start.checked_add(self.size - 1) {
            Some(last) => last <= arch.word_max() && self.flags <= arch.word_max() && self.flags
                & (PTE_READ | PTE_WRITE | PTE_EXEC) != 0,
            None => false,
        }
    }
}

impl MemoryLayout {
    pub open spec fn uart(self) -> Region {
        Region { start: self.uart_base, size: PAGE_SIZE, flags: KERNEL_RW }
    }

    pub open spec fn text(self) -> Region {
        Region {
            start: self.dram_base,
            size: (self.text_end - self.dram_base) as u64,
            flags: KERNEL_RX,
        }
    }

    pub open spec fn rodata(self) -> Region {
        Region {
            start: self.text_end,
            size: (self.rodata_end - self.text_end) as u64,
            flags: KERNEL_RO,
        }
    }

    pub open spec fn data(self) -> Region {
        Region {
            start: self.rodata_end,
            size: (self.data_end - self.rodata_end) as u64,
            flags: KERNEL_RW,
        }
    }

    /// The two stack pages of hart `hart`, above its guard page.
    pub open spec fn stack(self, hart: int) -> Region {
        Region {
            start: (self.stacks_start + PAGE_SIZE * (1 + hart * 3)) as u64,
            size: (PAGE_SIZE * 2) as u64,
            flags: KERNEL_RW,
        }
    }

    /// An interrupt stack of hart `hart`: the machine-mode one above the
    /// hart's first guard page, or the supervisor-mode one two pages on.
    pub open spec fn intstack(self, hart: int, supervisor: bool) -> Region {
        Region {
            start: (self.intstacks_start + PAGE_SIZE * (1 + hart * 4) + (if supervisor {
                PAGE_SIZE * 2
            } else {
                0
            })) as u64,
            size: PAGE_SIZE,
            flags: KERNEL_RW,
        }
    }

    pub open spec fn bss(self) -> Region {
        Region {
            start: self.bss_start,
            size: (self.bss_end - self.bss_start) as u64,
            flags: KERNEL_RW,
        }
    }

    /// All of RAM above the kernel's image: the kernel's heap.
    pub open spec fn heap(self) -> Region {
        Region {
            start: self.bss_end,
            size: (self.memory_end - self.bss_end) as u64,
            flags: KERNEL_RW,
        }
    }

    /// The addresses are in order, so that no region is empty, and the
    /// stacks of all harts lie below the end of the address space.
    pub open spec fn ordered(self) -> bool {
        &&& self.uart_base + PAGE_SIZE <= u64::MAX
        &&& self.dram_base < self.text_end < self.rodata_end < self.data_end
        &&& self.bss_start < self.bss_end < self.memory_end
        &&& self.stacks_start + PAGE_SIZE * 3 * self.nhart <= u64::MAX
        &&& self.intstacks_start + PAGE_SIZE * 4 * self.nhart <= u64::MAX
    }

    /// The layout can be mapped under the scheme `arch`: it is ordered and
    /// `page_map` accepts each of its regions.
    pub open spec fn wf(self, arch: Arch) -> bool {
        &&& self.ordered()
        &&& forall|i: int|
            0 <= i < kernel_regions_spec(self).len() ==> (#[trigger] kernel_regions_spec(
                self,
            )[i]).mappable(arch)
    }

    /// Whether the addresses are in order and the stacks of all harts lie
    /// below the end of the address space.
    pub fn is_ordered(&self) -> (ok: bool)
        ensures
            ok == self.ordered(),
    {
        let stacks = match self.nhart.checked_mul(3 * PAGE_SIZE) {
            Some(bytes) => bytes <= u64::MAX - self.stacks_start,
            None => false,
        };
        let intstacks = match self.nhart.checked_mul(4 * PAGE_SIZE) {
            Some(bytes) => bytes <= u64::MAX - self.intstacks_start,
            None => false,
        };
        assert(PAGE_SIZE * 3 * self.nhart == self.nhart * (3 * PAGE_SIZE) && PAGE_SIZE * 4
            * self.nhart == self.nhart * (4 * PAGE_SIZE)) by (nonlinear_arith);
        self.uart_base <= u64::MAX - PAGE_SIZE && self.dram_base < self.text_end && self.text_end
            < self.rodata_end && self.rodata_end < self.data_end && self.bss_start < self.bss_end
            && self.bss_end < self.memory_end && stacks && intstacks
    }

    /// Whether `kpage_init` accepts the layout under the scheme `arch`.
    pub fn is_wf(&self, arch: Arch) -> (ok: bool)
        ensures
            ok == self.wf(arch),
    {
        if !self.is_ordered() {
            return false;
        }
        let regions = kernel_regions(self);
        let mut i: usize = 0;
        while i < regions.len()
            invariant
                regions@ == kernel_regions_spec(*self),
                i <= regions.len(),
                forall|k: int| 0 <= k < i ==> (#[trigger] regions@[k]).mappable(arch),
            decreases regions.len() - i,
        {
            if !regions[i].is_mappable(arch) {
                return false;
            }
            i = i + 1;
        }
        true
    }
}

/// The regions of the kernel's address space, in the order in which they
/// are mapped: the UART, the code, the constants, the initialised data,
/// the kernel stack of each hart, the two interrupt stacks of each hart,
/// the uninitialised data, and the heap.
pub open spec fn kernel_regions_spec(layout: MemoryLayout) -> Seq<Region> {
    seq![layout.uart(), layout.text(), layout.rodata(), layout.data()] + Seq::new(
        layout.nhart as nat,
        |hart: int| layout.stack(hart),
    ) + Seq::new(
        (2 * layout.nhart) as nat,
        |k: int| layout.intstack(k / 2, k % 2 == 1),
    ) + seq![layout.bss(), layout.heap()]
}

/// The regions of the kernel's address space, in the order in which they
/// are mapped.
pub fn kernel_regions(layout: &MemoryLayout) -> (regions: Vec<Region>)
    requires
        layout.ordered(),
    ensures
        regions@ == kernel_regions_spec(*layout),
{
    let mut regions: Vec<Region> = Vec::new();
    regions.push(Region { start: layout.uart_base, size: PAGE_SIZE, flags: KERNEL_RW });
    regions.push(
        Region {
            start: layout.dram_base,
            size: layout.text_end - layout.dram_base,
            flags: KERNEL_RX,
        },
    );
    regions.push(
        Region {
            start: layout.text_end,
            size: layout.rodata_end - layout.text_end,
            flags: KERNEL_RO,
        },
    );
    regions.push(
        Region {
            start: layout.rodata_end,
            size: layout.data_end - layout.rodata_end,
            flags: KERNEL_RW,
        },
    );
    let ghost fixed = seq![layout.uart(), layout.text(), layout.rodata(), layout.data()];
    assert(regions@ =~= fixed);
    let mut hart: u64 = 0;
    while hart < layout.nhart
        invariant
            layout.ordered(),
            hart <= layout.nhart,
            regions@ == fixed + Seq::new(hart as nat, |h: int| layout.stack(h)),
        decreases layout.nhart - hart,
    {
        assert(PAGE_SIZE * (1 + hart * 3) + 2 * PAGE_SIZE <= PAGE_SIZE * 3 * layout.nhart)
            by (nonlinear_arith)
            requires
                hart < layout.nhart,
        ;
        let stack = layout.stacks_start + PAGE_SIZE * (1 + hart * 3);
        regions.push(Region { start: stack, size: PAGE_SIZE * 2, flags: KERNEL_RW });
        hart = hart + 1;
        assert(regions@ =~= fixed + Seq::new(hart as nat, |h: int| layout.stack(h)));
    }
    let ghost stacks = fixed + Seq::new(layout.nhart as nat, |h: int| layout.stack(h));
    let mut hart: u64 = 0;
    assert(regions@ =~= stacks + Seq::new(0, |k: int| layout.intstack(k / 2, k % 2 == 1)));
    while hart < layout.nhart
        invariant
            layout.ordered(),
            hart <= layout.nhart,
            regions@ == stacks + Seq::new(
                (2 * hart) as nat,
                |k: int| layout.intstack(k / 2, k % 2 == 1),
            ),
        decreases layout.nhart - hart,
    {
        assert(PAGE_SIZE * (1 + hart * 4) + 3 * PAGE_SIZE <= PAGE_SIZE * 4 * layout.nhart)
            by (nonlinear_arith)
            requires
                hart < layout.nhart,
        ;
        let m_intstack = layout.intstacks_start + PAGE_SIZE * (1 + hart * 4);
        regions.push(Region { start: m_intstack, size: PAGE_SIZE, flags: KERNEL_RW });
        let s_intstack = m_intstack + PAGE_SIZE * 2;
        regions.push(Region { start: s_intstack, size: PAGE_SIZE, flags: KERNEL_RW });
        hart = hart + 1;
        assert(regions@ =~= stacks + Seq::new(
            (2 * hart) as nat,
            |k: int| layout.intstack(k / 2, k % 2 == 1),
        ));
    }
    regions.push(
        Region {
            start: layout.bss_start,
            size: layout.bss_end - layout.bss_start,
            flags: KERNEL_RW,
        },
    );
    regions.push(
        Region {
            start: layout.bss_end,
            size: layout.memory_end - layout.bss_end,
            flags: KERNEL_RW,
        },
    );
    assert(regions@ =~= kernel_regions_spec(*layout));
    regions
}

/// `addr` lies in one of the pages that hold the region.
pub open spec fn in_region_pages(region: Region, addr: int) -> bool {
    in_pages(
        addr,
        spec_page_align_down(region.start) as int,
        spec_page_align_down((region.start + region.size - 1) as u64) as int,
    )
}

/// Every region from number `from` on is one that `page_map` accepts.
pub open spec fn all_mappable(regions: Seq<Region>, from: nat, arch: Arch) -> bool {
    forall|k: int| from <= k < regions.len() ==> (#[trigger] regions[k]).mappable(arch)
}

/// No address lies in the pages of two of the regions from number `from`
/// on.
pub open spec fn regions_apart(regions: Seq<Region>, from: nat) -> bool {
    forall|i: int, j: int, addr: int|
        from <= i < j < regions.len() ==> !(#[trigger] in_region_pages(regions[i], addr)
            && #[trigger] in_region_pages(regions[j], addr))
}

/// Number of the pages that hold the regions from number `from` on.
pub open spec fn region_pages(regions: Seq<Region>, from: nat) -> int
    decreases regions.len() - from,
{
    if from >= regions.len() {
        0
    } else {
        page_span(regions[from as int].start, regions[from as int].size) / 4096 + 1 + region_pages(
            regions,
            from + 1,
        )
    }
}

/// Under `root` the regions of the layout are mapped onto themselves and
/// nothing else is mapped: every address of every region translates by
/// the leaf entry that holds the address's own frame and the region's
/// flags, and every address that translates at all lies in a page of one
/// of the regions.
pub open spec fn kernel_mapped(s: PoolState, root: int, layout: MemoryLayout) -> bool {
    &&& forall|which: int, addr: u64|
        #![trigger kernel_regions_spec(layout)[which], translation(s, root, addr as int)]
        0 <= which < kernel_regions_spec(layout).len() && kernel_regions_spec(layout)[which].start
            <= addr < kernel_regions_spec(layout)[which].start + kernel_regions_spec(
            layout,
        )[which].size ==> translation(s, root, addr as int) == Some(
            leaf_entry(addr, kernel_regions_spec(layout)[which].flags),
        )
    &&& forall|addr: u64|
        (#[trigger] translation(s, root, addr as int)).is_some() ==> exists|which: int|
            0 <= which < kernel_regions_spec(layout).len() && in_region_pages(
                #[trigger] kernel_regions_spec(layout)[which],
                addr as int,
            )
}

/// Mapping the regions from number `from` on, each onto itself and one
/// after the other: the pool that this leaves behind, and how it ended.
/// The first region that cannot be mapped whole ends it.
#[verifier::opaque]
pub open spec fn map_regions(s: PoolState, root: int, regions: Seq<Region>, from: nat) -> (
    PoolState,
    Result<(), VmError>,
)
    decreases regions.len() - from,
{
    if from >= regions.len() {
        (s, Ok(()))
    } else {
        let region = regions[from as int];
        let (mapped, done) = page_map_spec(
            s,
            root,
            region.start,
            region.start,
            region.size,
            region.flags,
        );
        match done {
            Err(e) => (mapped, Err(e)),
            Ok(_) => map_regions(mapped, root, regions, from + 1),
        }
    }
}

/// What `kpage_init` leaves behind and returns: a root table in the next
/// frame of the pool, and under it the regions of the layout.
pub open spec fn kpage_init_spec(s: PoolState, layout: MemoryLayout) -> (
    PoolState,
    Result<PageTable, VmError>,
) {
    if s.full() {
        (s, Err(VmError::OutOfMemory))
    } else {
        let (mapped, done) = map_regions(
            s.grow(),
            s.next_frame(),
            kernel_regions_spec(layout),
            0,
        );
        (
            mapped,
            match done {
                Ok(_) => Ok(PageTable::at(s.next_frame() as u64)),
                Err(e) => Err(e),
            },
        )
    }
}

/// Create the kernel page table with 1:1 mappings to physical memory.
///
/// First a frame is taken for the root table. Then the memory-mapped
/// devices are mapped, then the kernel's code, constants and initialised
/// data, a stack for each hart above its guard page, the interrupt stacks
/// of each hart, the uninitialised data, and last the rest of physical
/// memory as the kernel's heap. The first region that cannot be mapped
/// ends the construction with its error; what was mapped until then
/// stays.
#[verifier::loop_isolation(false)]
pub fn kpage_init(pool: &mut PagePool, layout: &MemoryLayout) -> (table: Result<
    PageTable,
    VmError,
>)
    requires
        old(pool).wf(),
        layout.wf(old(pool)@.arch),
    ensures
        final(pool).wf(),
        (final(pool)@, table) == kpage_init_spec(old(pool)@, *layout),
        table matches Ok(pt) ==> {
            &&& tree_wf(final(pool)@, pt.spec_base() as int)
            &&& pt.spec_base() == old(pool)@.next_frame()
            &&& kernel_mapped(final(pool)@, pt.spec_base() as int, *layout)
        },
        table matches Err(e) ==> e != VmError::PageFault,
{
    proof {
        old(pool).lemma_wf_view();
        lemma_kpage_init_effect(old(pool)@, *layout);
    }
    let kpage_table = match PageTable::create(pool) {
        Ok(table) => table,
        Err(e) => {
            return Err(e);
        },
    };
    let ghost fresh = pool@;
    let ghost root = old(pool)@.next_frame();
    proof {
        PageTable::lemma_at_base(root as u64);
        old(pool).lemma_wf_view();
    }
    let regions = kernel_regions(layout);
    let mut i: usize = 0;
    while i < regions.len()
        invariant
            pool.wf(),
            tree_wf(pool@, root),
            root == kpage_table.spec_base(),
            root == old(pool)@.next_frame(),
            fresh == old(pool)@.grow(),
            !old(pool)@.full(),
            pool@.arch == old(pool)@.arch,
            layout.wf(pool@.arch),
            regions@ == kernel_regions_spec(*layout),
            i <= regions.len(),
            map_regions(pool@, root, regions@, i as nat) == map_regions(fresh, root, regions@, 0),
        decreases regions.len() - i,
    {
        let region = regions[i];
        proof {
            reveal(map_regions);
            assert(kernel_regions_spec(*layout)[i as int].mappable(pool@.arch));
            region.lemma_mappable(pool@.arch);
            pool.lemma_wf_view();
            lemma_page_map_keeps(
                pool@,
                root,
                region.start,
                region.start,
                region.size,
                region.flags,
                0,
            );
        }
        match page_map(pool, kpage_table, region.start, region.start, region.size, region.flags) {
            Ok(()) => {},
            Err(e) => {
                return Err(e);
            },
        }
        i = i + 1;
    }
    proof {
        reveal(map_regions);
    }
    Ok(kpage_table)
}

/// In the table that `kpage_init` has built, every address of every
/// region of the layout translates to itself: a lookup finds a valid leaf
/// entry whose frame, with the address's offset in its page, gives the
/// address back, and whose flags are those of the region.
pub proof fn lemma_kernel_identity(s: PoolState, layout: MemoryLayout, which: int, addr: u64)
    requires
        s.wf(),
        layout.wf(s.arch),
        kpage_init_spec(s, layout).1.is_ok(),
        0 <= which < kernel_regions_spec(layout).len(),
        kernel_regions_spec(layout)[which].start <= addr < kernel_regions_spec(layout)[which].start
            + kernel_regions_spec(layout)[which].size,
    ensures
        ({
            let after = kpage_init_spec(s, layout).0;
            let root = kpage_init_spec(s, layout).1.unwrap().spec_base() as int;
            let region = kernel_regions_spec(layout)[which];
            let entry = leaf_entry(addr, region.flags);
            &&& addr <= s.arch.spec_va_max()
            &&& translation(after, root, addr as int) == Some(entry)
            &&& walk_lookup_spec(after, root, addr) matches Ok(slot) && after.mem[slot as int]
                == entry
            &&& entry & PTE_VALID != 0
            &&& spec_pte_to_phy(entry) + addr % 4096 == addr
            &&& entry & PTE_FLAG_MASK == region.flags | PTE_VALID
        }),
{
    let regions = kernel_regions_spec(layout);
    let region = regions[which];
    let root = s.next_frame();
    let after = kpage_init_spec(s, layout).0;
    let entry = leaf_entry(addr, region.flags);
    lemma_fresh_root(s);
    PageTable::lemma_at_base(root as u64);
    assert(root <= u64::MAX) by {
        lemma_frame_within(s.grow(), root);
    }
    assert(region.mappable(s.arch));
    region.lemma_mappable(s.arch);
    lemma_range_pages(region.start, region.size, addr);
    lemma_region_translatable(s.grow(), root, regions, 0, which);
    lemma_map_regions_inside(s.grow(), root, regions, 0, which, addr as int);
    lemma_map_regions_keeps(s.grow(), root, regions, 0, addr as int);
    assert(walk_lookup_spec(after, root, addr) matches Ok(slot) && after.mem[slot as int]
        == entry) by {
        lemma_translation_is_leaf(after, root, addr as int);
        lemma_walk_step(after, root, addr as int, 0);
    }
    lemma_kernel_region_flags(layout, which);
    lemma_leaf_entry_fits(s.arch, addr, region.flags);
    let flags = region.flags;
    assert(flags | PTE_VALID <= PTE_FLAG_MASK) by (bit_vector)
        requires
            flags <= 0x0a,
    ;
    lemma_frame_with_flags(addr, flags | PTE_VALID);
}

/// In the table that `kpage_init` has built, an address that lies in no
/// page of any region of the layout has no translation.
pub proof fn lemma_kernel_nothing_else(s: PoolState, layout: MemoryLayout, addr: u64)
    requires
        s.wf(),
        layout.wf(s.arch),
        kpage_init_spec(s, layout).1.is_ok(),
        forall|k: int|
            0 <= k < kernel_regions_spec(layout).len() ==> !in_region_pages(
                #[trigger] kernel_regions_spec(layout)[k],
                addr as int,
            ),
    ensures
        translation(
            kpage_init_spec(s, layout).0,
            kpage_init_spec(s, layout).1.unwrap().spec_base() as int,
            addr as int,
        ).is_none(),
{
    let regions = kernel_regions_spec(layout);
    let root = s.next_frame();
    lemma_fresh_root(s);
    PageTable::lemma_at_base(root as u64);
    assert(root <= u64::MAX) by {
        lemma_frame_within(s.grow(), root);
    }
    if addr <= s.arch.spec_va_max() {
        lemma_map_regions_outside(s.grow(), root, regions, 0, addr as int);
    } else {
        lemma_map_regions_keeps(s.grow(), root, regions, 0, 0);
        lemma_translation_is_leaf(kpage_init_spec(s, layout).0, root, addr as int);
    }
}

/// `kpage_init` succeeds where every region of the layout lies within
/// what the scheme translates, no two regions share a page, and the pool
/// has a frame left for the root and, for each page, one for every level
/// below the root.
pub proof fn lemma_kpage_init_succeeds(s: PoolState, layout: MemoryLayout)
    requires
        s.wf(),
        layout.wf(s.arch),
        regions_apart(kernel_regions_spec(layout), 0),
        forall|k: int|
            0 <= k < kernel_regions_spec(layout).len() ==> (#[trigger] kernel_regions_spec(
                layout,
            )[k]).start + kernel_regions_spec(layout)[k].size - 1 <= s.arch.spec_va_max(),
        s.frames + 1 + region_pages(kernel_regions_spec(layout), 0) * (s.arch.spec_levels() - 1)
            <= s.limit,
    ensures
        kpage_init_spec(s, layout).1.is_ok(),
{
    let regions = kernel_regions_spec(layout);
    lemma_region_pages_count(regions, 0, s.arch);
    assert(region_pages(regions, 0) * (s.arch.spec_levels() - 1) >= 0) by (nonlinear_arith)
        requires
            region_pages(regions, 0) >= 0,
            s.arch.spec_levels() - 1 >= 0,
    ;
    lemma_fresh_root(s);
    lemma_map_regions_succeeds(s.grow(), s.next_frame(), regions, 0);
}

/// The kernel's permissions are flags of an entry, and each of them
/// grants some access.
pub proof fn lemma_kernel_flags()
    ensures
        KERNEL_RW == 0x06,
        KERNEL_RX == 0x0a,
        KERNEL_RO == 0x02,
        KERNEL_RW & (PTE_READ | PTE_WRITE | PTE_EXEC) != 0,
        KERNEL_RX & (PTE_READ | PTE_WRITE | PTE_EXEC) != 0,
        KERNEL_RO & (PTE_READ | PTE_WRITE | PTE_EXEC) != 0,
{
    assert(0x02u64 | 0x04u64 == 0x06u64 && 0x02u64 | 0x08u64 == 0x0au64) by (bit_vector);
    assert(0x06u64 & (0x02u64 | 0x04u64 | 0x08u64) != 0 && 0x0au64 & (0x02u64 | 0x04u64
        | 0x08u64) != 0 && 0x02u64 & (0x02u64 | 0x04u64 | 0x08u64) != 0) by (bit_vector);
}

/// Mapping regions keeps the tree well-formed and takes no translation
/// away nor changes one, however it ends.
pub proof fn lemma_map_regions_keeps(
    s: PoolState,
    root: int,
    regions: Seq<Region>,
    from: nat,
    other: int,
)
    requires
        tree_wf(s, root),
        all_mappable(regions, from, s.arch),
        0 <= other <= s.arch.spec_va_max(),
    ensures
        tree_wf(map_regions(s, root, regions, from).0, root),
        map_regions(s, root, regions, from).0.arch == s.arch,
        translation(s, root, other) matches Some(entry) ==> translation(
            map_regions(s, root, regions, from).0,
            root,
            other,
        ) == Some(entry),
    decreases regions.len() - from,
{
    reveal(map_regions);
    if from < regions.len() {
        let region = regions[from as int];
        assert(region.mappable(s.arch));
        region.lemma_mappable(s.arch);
        lemma_page_map_keeps(
            s,
            root,
            region.start,
            region.start,
            region.size,
            region.flags,
            other as u64,
        );
        let (mapped, done) = page_map_spec(
            s,
            root,
            region.start,
            region.start,
            region.size,
            region.flags,
        );
        if done.is_ok() {
            lemma_map_regions_keeps(mapped, root, regions, from + 1, other);
        }
    }
}

/// Where mapping regions has succeeded, an address in the pages of one of
/// them had no translation before and has got the entry that translates
/// its page to the frame of the same address, with the region's flags.
pub proof fn lemma_map_regions_inside(
    s: PoolState,
    root: int,
    regions: Seq<Region>,
    from: nat,
    which: int,
    other: int,
)
    requires
        tree_wf(s, root),
        all_mappable(regions, from, s.arch),
        0 <= other <= s.arch.spec_va_max(),
        map_regions(s, root, regions, from).1.is_ok(),
        from <= which < regions.len(),
        in_region_pages(regions[which], other),
    ensures
        translation(s, root, other).is_none(),
        translation(map_regions(s, root, regions, from).0, root, other) == Some(
            leaf_entry(other as u64, regions[which].flags),
        ),
    decreases regions.len() - from,
{
    reveal(map_regions);
    let region = regions[from as int];
    assert(region.mappable(s.arch));
    region.lemma_mappable(s.arch);
    lemma_page_map_keeps(
        s,
        root,
        region.start,
        region.start,
        region.size,
        region.flags,
        other as u64,
    );
    let (mapped, done) = page_map_spec(
        s,
        root,
        region.start,
        region.start,
        region.size,
        region.flags,
    );
    if which == from {
        lemma_map_regions_keeps(mapped, root, regions, from + 1, other);
        lemma_identity_entry(region, other);
    } else {
        lemma_map_regions_inside(mapped, root, regions, from + 1, which, other);
    }
}

/// Mapping regions changes no translation outside their pages.
pub proof fn lemma_map_regions_outside(
    s: PoolState,
    root: int,
    regions: Seq<Region>,
    from: nat,
    other: int,
)
    requires
        tree_wf(s, root),
        all_mappable(regions, from, s.arch),
        0 <= other <= s.arch.spec_va_max(),
        forall|k: int| from <= k < regions.len() ==> !in_region_pages(#[trigger] regions[k], other),
    ensures
        translation(map_regions(s, root, regions, from).0, root, other) == translation(
            s,
            root,
            other,
        ),
    decreases regions.len() - from,
{
    reveal(map_regions);
    if from < regions.len() {
        let region = regions[from as int];
        assert(region.mappable(s.arch));
        region.lemma_mappable(s.arch);
        assert(!in_region_pages(region, other));
        lemma_page_map_keeps(
            s,
            root,
            region.start,
            region.start,
            region.size,
            region.flags,
            other as u64,
        );
        let (mapped, done) = page_map_spec(
            s,
            root,
            region.start,
            region.start,
            region.size,
            region.flags,
        );
        if done.is_ok() {
            lemma_map_regions_outside(mapped, root, regions, from + 1, other);
        }
    }
}

/// Mapping regions succeeds where each lies within what the scheme
/// translates, no two share a page, no page of any has a translation yet,
/// and the pool has, for each page, a frame left for every level below the
/// root.
pub proof fn lemma_map_regions_succeeds(s: PoolState, root: int, regions: Seq<Region>, from: nat)
    requires
        tree_wf(s, root),
        all_mappable(regions, from, s.arch),
        regions_apart(regions, from),
        forall|k: int|
            from <= k < regions.len() ==> (#[trigger] regions[k]).start + regions[k].size - 1
                <= s.arch.spec_va_max(),
        forall|k: int, addr: int|
            from <= k < regions.len() && #[trigger] in_region_pages(regions[k], addr) ==> (
            #[trigger] translation(s, root, addr)).is_none(),
        s.frames + region_pages(regions, from) * (s.arch.spec_levels() - 1) <= s.limit,
    ensures
        map_regions(s, root, regions, from).1.is_ok(),
    decreases regions.len() - from,
{
    reveal(map_regions);
    if from < regions.len() {
        let region = regions[from as int];
        let below = s.arch.spec_levels() - 1;
        let first = spec_page_align_down(region.start) as int;
        let last = spec_page_align_down((region.start + region.size - 1) as u64) as int;
        let here = page_span(region.start, region.size) / 4096 + 1;
        let rest = region_pages(regions, from + 1);
        assert(region.mappable(s.arch));
        region.lemma_mappable(s.arch);
        lemma_range_pages(region.start, region.size, region.start);
        lemma_region_pages_count(regions, from + 1, s.arch);
        assert((here + rest) * below == here * below + rest * below) by (nonlinear_arith);
        assert(rest * below >= 0) by (nonlinear_arith)
            requires
                rest >= 0,
                below >= 0,
        ;
        assert forall|addr: int| first <= addr <= last implies (#[trigger] translation(
            s,
            root,
            addr,
        )).is_none() by {
            assert(in_region_pages(regions[from as int], addr));
        }
        lemma_map_pages_succeeds(s, root, first, region.start as int, last, region.flags);
        let mapped = page_map_spec(
            s,
            root,
            region.start,
            region.start,
            region.size,
            region.flags,
        ).0;
        lemma_page_map_keeps(s, root, region.start, region.start, region.size, region.flags, 0);
        assert forall|k: int, addr: int|
            from + 1 <= k < regions.len() && #[trigger] in_region_pages(
                regions[k],
                addr,
            ) implies (#[trigger] translation(mapped, root, addr)).is_none() by {
            assert(translation(s, root, addr).is_none());
            assert(!(in_region_pages(regions[from as int], addr) && in_region_pages(
                regions[k],
                addr,
            )));
            if 0 <= addr <= s.arch.spec_va_max() {
                lemma_page_map_keeps(
                    s,
                    root,
                    region.start,
                    region.start,
                    region.size,
                    region.flags,
                    addr as u64,
                );
            } else {
                lemma_translation_is_leaf(mapped, root, addr);
            }
        }
        lemma_map_regions_succeeds(mapped, root, regions, from + 1);
    }
}

/// Mapping regions never ends with `PageFault`.
proof fn lemma_map_regions_result(s: PoolState, root: int, regions: Seq<Region>, from: nat)
    requires
        tree_wf(s, root),
        all_mappable(regions, from, s.arch),
    ensures
        map_regions(s, root, regions, from).1 != Err::<(), VmError>(VmError::PageFault),
    decreases regions.len() - from,
{
    reveal(map_regions);
    lemma_table_is_frame(s, root, 0, (s.arch.spec_levels() - 1) as nat);
    if from < regions.len() {
        let region = regions[from as int];
        assert(region.mappable(s.arch));
        region.lemma_mappable(s.arch);
        lemma_page_map_keeps(s, root, region.start, region.start, region.size, region.flags, 0);
        let (mapped, done) = page_map_spec(
            s,
            root,
            region.start,
            region.start,
            region.size,
            region.flags,
        );
        if done.is_ok() {
            lemma_map_regions_result(mapped, root, regions, from + 1);
        }
    }
}

/// Where mapping regions has succeeded, every region lies within the
/// addresses that the scheme translates.
proof fn lemma_region_translatable(
    s: PoolState,
    root: int,
    regions: Seq<Region>,
    from: nat,
    which: int,
)
    requires
        tree_wf(s, root),
        all_mappable(regions, from, s.arch),
        map_regions(s, root, regions, from).1.is_ok(),
        from <= which < regions.len(),
    ensures
        regions[which].start + regions[which].size - 1 <= s.arch.spec_va_max(),
    decreases regions.len() - from,
{
    reveal(map_regions);
    let region = regions[from as int];
    assert(region.mappable(s.arch));
    region.lemma_mappable(s.arch);
    lemma_page_map_keeps(s, root, region.start, region.start, region.size, region.flags, 0);
    let (mapped, done) = page_map_spec(
        s,
        root,
        region.start,
        region.start,
        region.size,
        region.flags,
    );
    if which == from {
        lemma_range_pages(region.start, region.size, region.start);
    } else {
        lemma_region_translatable(mapped, root, regions, from + 1, which);
    }
}

/// Regions that can be mapped have no negative number of pages.
proof fn lemma_region_pages_count(regions: Seq<Region>, from: nat, arch: Arch)
    requires
        all_mappable(regions, from, arch),
    ensures
        region_pages(regions, from) >= 0,
    decreases regions.len() - from,
{
    if from < regions.len() {
        let region = regions[from as int];
        assert(region.mappable(arch));
        lemma_region_pages_count(regions, from + 1, arch);
        lemma_range_pages(region.start, region.size, region.start);
    }
}

/// Where a region is mapped onto itself, the entry for the page of an
/// address holds the frame of that address.
proof fn lemma_identity_entry(region: Region, other: int)
    requires
        region.size > 0,
        region.start + (region.size - 1) <= u64::MAX,
        in_region_pages(region, other),
    ensures
        entry_for(
            other,
            spec_page_align_down(region.start) as int,
            region.start as int,
            region.flags,
        ) == leaf_entry(other as u64, region.flags),
{
    let first = spec_page_align_down(region.start) as int;
    let phys = (region.start + (other - other % 4096 - first)) as u64;
    assert(phys / 4096 == (other as u64) / 4096);
}

/// Every region of a layout carries one of the kernel's permissions.
proof fn lemma_kernel_region_flags(layout: MemoryLayout, which: int)
    requires
        0 <= which < kernel_regions_spec(layout).len(),
    ensures
        kernel_regions_spec(layout)[which].flags <= 0x0a,
{
    lemma_kernel_flags();
}

/// What `kpage_init` does to the translations, gathered for its contract.
proof fn lemma_kpage_init_effect(s: PoolState, layout: MemoryLayout)
    requires
        s.wf(),
        layout.wf(s.arch),
    ensures
        kpage_init_spec(s, layout).1 matches Ok(pt) ==> {
            &&& pt.spec_base() == s.next_frame()
            &&& kernel_mapped(kpage_init_spec(s, layout).0, pt.spec_base() as int, layout)
        },
        kpage_init_spec(s, layout).1 matches Err(e) ==> e != VmError::PageFault,
{
    let regions = kernel_regions_spec(layout);
    let after = kpage_init_spec(s, layout).0;
    if !s.full() {
        let root = s.next_frame();
        lemma_fresh_root(s);
        PageTable::lemma_at_base(root as u64);
        assert(0 <= root <= u64::MAX) by {
            lemma_frame_within(s.grow(), root);
        }
        lemma_map_regions_result(s.grow(), root, regions, 0);
        if kpage_init_spec(s, layout).1.is_ok() {
            assert forall|which: int, addr: u64|
                0 <= which < regions.len() && regions[which].start <= addr < regions[which].start
                    + regions[which].size implies translation(after, root, addr as int) == Some(
                leaf_entry(addr, regions[which].flags),
            ) by {
                lemma_kernel_identity(s, layout, which, addr);
            }
            assert forall|addr: u64|
                (#[trigger] translation(after, root, addr as int)).is_some() implies exists|
                which: int,
            |
                0 <= which < regions.len() && in_region_pages(
                    #[trigger] regions[which],
                    addr as int,
                ) by {
                if forall|k: int|
                    0 <= k < regions.len() ==> !in_region_pages(
                        #[trigger] regions[k],
                        addr as int,
                    ) {
                    lemma_kernel_nothing_else(s, layout, addr);
                }
            }
        }
    }
}

} // verus!
