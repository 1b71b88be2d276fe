//! Mapping a range of virtual pages onto a range of physical frames.

use vstd::prelude::*;
use crate::vm::arch::{Arch, PAGE_SIZE};
use crate::vm::entry::{
    lemma_frame_with_flags,
    page_align_down,
    phy_to_pte,
    pte_get_flag,
    pte_set_flag,
    spec_page_align_down,
    spec_phy_to_pte,
    spec_pte_to_phy,
    PTE_EXEC,
    PTE_FLAG_MASK,
    PTE_READ,
    PTE_VALID,
    PTE_WRITE,
};
use crate::vm::pool::{PagePool, PoolState, VmError};
use crate::vm::ptable::PageTable;
use crate::vm::tree::{
    lemma_table_is_frame,
    lemma_translation_is_leaf,
    lemma_leaf_store_keeps_tree,
    lemma_leaf_store_lookup,
    lemma_same_page_translation,
    translation,
    tree_wf,
};
use crate::vm::walk::{
    lemma_missing_at_most,
    lemma_walk_alloc,
    lemma_walk_alloc_keeps,
    lemma_walk_step,
    walk,
    walk_alloc_spec,
    walk_lookup_spec,
};

verus! {

/// The leaf entry that translates a page to the frame of `pa` with the
/// permissions `flags`.
pub open spec fn leaf_entry(pa: u64, flags: u64) -> u64 {
    spec_phy_to_pte(pa) | (flags | PTE_VALID)
}

/// Distance from the first page to the last page of the `size` bytes that
/// start at `va`.
pub open spec fn page_span(va: u64, size: u64) -> int {
    spec_page_align_down((va + size - 1) as u64) - spec_page_align_down(va)
}

/// Number of the pages from `page` to `last`, `last` included.
pub open spec fn page_count(page: int, last: int) -> int {
    if page <= last {
        (last - page) / 4096 + 1
    } else {
        0
    }
}

/// `other` lies in one of the pages from `page` to `last`.
pub open spec fn in_pages(other: int, page: int, last: int) -> bool {
    page <= other < last + 4096
}

/// The leaf entry that mapping the pages from `page` on, onto the frames
/// from `pa` on, stores for the page of `other`.
pub open spec fn entry_for(other: int, page: int, pa: int, flags: u64) -> u64 {
    leaf_entry((pa + (other - other % 4096 - page)) as u64, flags)
}

/// Mapping the pages from `page` to `last`, both page-aligned and `last`
/// included, onto the frames from `pa` on, one page after the other: the
/// pool that this leaves behind, and how it ended. It stops at the first
/// page whose walk fails, and at the first page that has a translation
/// already; the pages before that one stay mapped.
#[verifier::opaque]
pub open spec fn map_pages(
    s: PoolState,
    root: int,
    page: int,
    pa: int,
    last: int,
    flags: u64,
) -> (PoolState, Result<(), VmError>)
    decreases last - page + 4096,
{
    if page > last {
        (s, Ok(()))
    } else {
        let (walked, found) = walk_alloc_spec(s, root, page as u64);
        match found {
            Err(e) => (walked, Err(e)),
            Ok(slot) => if walked.mem[slot as int] & PTE_VALID != 0 {
                (walked, Err(VmError::AlreadyMapped))
            } else {
                map_pages(
                    walked.write(slot as int, leaf_entry(pa as u64, flags)),
                    root,
                    page + 4096,
                    pa + 4096,
                    last,
                    flags,
                )
            },
        }
    }
}

/// What `page_map` leaves behind and returns.
pub open spec fn page_map_spec(
    s: PoolState,
    root: int,
    va: u64,
    pa: u64,
    size: u64,
    flags: u64,
) -> (PoolState, Result<(), VmError>) {
    map_pages(
        s,
        root,
        spec_page_align_down(va) as int,
        pa as int,
        spec_page_align_down((va + size - 1) as u64) as int,
        flags,
    )
}

/// The arguments of a call of `page_map` are such as the call accepts.
pub open spec fn page_map_accepts(
    s: PoolState,
    root: int,
    va: u64,
    pa: u64,
    size: u64,
    flags: u64,
) -> bool {
    &&& tree_wf(s, root)
    &&& size > 0
    &&& va + (size - 1) <= u64::MAX
    &&& pa + page_span(va, size) <= s.arch.spec_word_max()
    &&& flags <= s.arch.spec_word_max()
}

/// Maps the pages that hold the `size` bytes from `va` on to the frames
/// from `pa` on, with the permissions `flags`, in the tree under `pt`.
///
/// `va` is rounded down to its page; `pa` is taken as it is and should be
/// page-aligned, as only its frame is stored. The pages are mapped in
/// rising order. The first page that has a translation already ends the
/// call with `AlreadyMapped`, the first page above the scheme's range with
/// `InvalidAddress`, the first one for which the pool cannot give a table
/// with `OutOfMemory`; the pages before that one stay mapped.
#[verifier::loop_isolation(false)]
pub fn page_map(
    pool: &mut PagePool,
    pt: PageTable,
    va: u64,
    pa: u64,
    size: u64,
    flags: u64,
) -> (done: Result<(), VmError>)
    requires
        old(pool).wf(),
        tree_wf(old(pool)@, pt.spec_base() as int),
        size > 0,
        flags & (PTE_READ | PTE_WRITE | PTE_EXEC) != 0,
        va + (size - 1) <= u64::MAX,
        pa + page_span(va, size) <= old(pool)@.arch.spec_word_max(),
        flags <= old(pool)@.arch.spec_word_max(),
    ensures
        final(pool).wf(),
        tree_wf(final(pool)@, pt.spec_base() as int),
        (final(pool)@, done) == page_map_spec(
            old(pool)@,
            pt.spec_base() as int,
            va,
            pa,
            size,
            flags,
        ),
        done.is_ok() ==> forall|addr: u64|
            va <= addr < va + size ==> #[trigger] translation(
                final(pool)@,
                pt.spec_base() as int,
                addr as int,
            ) == Some(entry_for(addr as int, spec_page_align_down(va) as int, pa as int, flags)),
        forall|addr: int|
            (#[trigger] translation(old(pool)@, pt.spec_base() as int, addr)).is_some()
                ==> translation(final(pool)@, pt.spec_base() as int, addr) == translation(
                old(pool)@,
                pt.spec_base() as int,
                addr,
            ),
        done == Err::<(), VmError>(VmError::OutOfMemory) ==> final(pool)@.full(),
        done == Err::<(), VmError>(VmError::InvalidAddress) ==> va + (size - 1)
            > old(pool)@.arch.spec_va_max(),
        done != Err::<(), VmError>(VmError::PageFault),
        done == Err::<(), VmError>(VmError::AlreadyMapped) ==> exists|taken: u64|
            spec_page_align_down(va) <= taken <= va + (size - 1) && (#[trigger] translation(
                old(pool)@,
                pt.spec_base() as int,
                taken as int,
            )).is_some(),
{
    proof {
        pool.lemma_wf_view();
        lemma_page_map_effect(pool@, pt.spec_base() as int, va, pa, size, flags);
    }
    let arch = pool.arch();
    let ghost root = pt.spec_base() as int;
    // Round down to page aligned boundary (multiple of pg size).
    let first = page_align_down(va);
    let last = page_align_down(va + (size - 1));
    let mut start = first;
    while start <= last
        invariant
            pool.wf(),
            tree_wf(pool@, root),
            root == pt.spec_base(),
            arch == pool@.arch,
            arch == old(pool)@.arch,
            first == spec_page_align_down(va),
            last == spec_page_align_down((va + size - 1) as u64),
            first % 4096 == 0,
            last % 4096 == 0,
            first <= start <= last + 4096,
            start % 4096 == 0,
            pa + (last - first) <= arch.spec_word_max(),
            flags <= arch.spec_word_max(),
            map_pages(pool@, root, start as int, pa + (start - first), last as int, flags)
                == map_pages(old(pool)@, root, first as int, pa as int, last as int, flags),
        decreases last + 4096 - start,
    {
        let ghost before = pool@;
        proof {
            reveal(map_pages);
        }
        match walk(pool, pt, start, true) {
            Err(e) => {
                return Err(e);
            },
            Ok(pte_addr) => {
                proof {
                    lemma_walk_alloc(before, root, start);
                    lemma_walk_step(pool@, root, start as int, 0);
                }
                if pte_get_flag(pool.read_pte(pte_addr), PTE_VALID) {
                    return Err(VmError::AlreadyMapped);
                }
                let phys = pa + (start - first);
                proof {
                    lemma_leaf_entry_fits(arch, phys, flags);
                    lemma_leaf_store_keeps_tree(pool@, root, start as int, leaf_entry(phys, flags));
                }
                pool.set_pte(pte_addr, pte_set_flag(phy_to_pte(phys), flags | PTE_VALID));
                start = start + PAGE_SIZE;
            },
        }
    }
    proof {
        reveal(map_pages);
    }
    Ok(())
}

/// What `page_map` does to the translations, gathered for its contract.
proof fn lemma_page_map_effect(s: PoolState, root: int, va: u64, pa: u64, size: u64, flags: u64)
    requires
        page_map_accepts(s, root, va, pa, size, flags),
    ensures
        page_map_spec(s, root, va, pa, size, flags).1.is_ok() ==> forall|addr: u64|
            va <= addr < va + size ==> #[trigger] translation(
                page_map_spec(s, root, va, pa, size, flags).0,
                root,
                addr as int,
            ) == Some(entry_for(addr as int, spec_page_align_down(va) as int, pa as int, flags)),
        forall|addr: int|
            (#[trigger] translation(s, root, addr)).is_some() ==> translation(
                page_map_spec(s, root, va, pa, size, flags).0,
                root,
                addr,
            ) == translation(s, root, addr),
        page_map_spec(s, root, va, pa, size, flags).1 == Err::<(), VmError>(
            VmError::OutOfMemory,
        ) ==> page_map_spec(s, root, va, pa, size, flags).0.full(),
        page_map_spec(s, root, va, pa, size, flags).1 == Err::<(), VmError>(
            VmError::InvalidAddress,
        ) ==> va + (size - 1) > s.arch.spec_va_max(),
        page_map_spec(s, root, va, pa, size, flags).1 != Err::<(), VmError>(VmError::PageFault),
        page_map_spec(s, root, va, pa, size, flags).1 == Err::<(), VmError>(
            VmError::AlreadyMapped,
        ) ==> exists|taken: u64|
            spec_page_align_down(va) <= taken <= va + (size - 1) && (#[trigger] translation(
                s,
                root,
                taken as int,
            )).is_some(),
{
    let after = page_map_spec(s, root, va, pa, size, flags).0;
    if page_map_spec(s, root, va, pa, size, flags).1 == Err::<(), VmError>(
        VmError::AlreadyMapped,
    ) {
        let first = spec_page_align_down(va) as int;
        let last = spec_page_align_down((va + size - 1) as u64) as int;
        lemma_range_pages(va, size, va);
        lemma_already_mapped(s, root, first, pa as int, last, flags);
        let taken = choose|taken: int|
            first <= taken <= last && taken % 4096 == 0 && (#[trigger] translation(
                s,
                root,
                taken,
            )).is_some();
        assert(translation(s, root, (taken as u64) as int).is_some());
    }
    if page_map_spec(s, root, va, pa, size, flags).1.is_ok() {
        assert forall|addr: u64| va <= addr < va + size implies #[trigger] translation(
            after,
            root,
            addr as int,
        ) == Some(
            entry_for(addr as int, spec_page_align_down(va) as int, pa as int, flags),
        ) by {
            lemma_page_map_translates(s, root, va, pa, size, flags, addr);
        }
    }
    assert forall|addr: int| (#[trigger] translation(s, root, addr)).is_some() implies translation(
        after,
        root,
        addr,
    ) == translation(s, root, addr) by {
        lemma_translation_is_leaf(s, root, addr);
        lemma_page_map_keeps(s, root, va, pa, size, flags, addr as u64);
    }
    lemma_table_is_frame(s, root, 0, (s.arch.spec_levels() - 1) as nat);
    lemma_page_map_keeps(s, root, va, pa, size, flags, 0);
    lemma_range_pages(va, size, va);
}

/// The pages of a range of bytes: both ends are page-aligned, the first
/// is not above the last, and every byte of the range lies in one of them.
pub proof fn lemma_range_pages(va: u64, size: u64, addr: u64)
    requires
        size > 0,
        va + (size - 1) <= u64::MAX,
        va <= addr < va + size,
    ensures
        0 <= spec_page_align_down(va) <= spec_page_align_down((va + size - 1) as u64),
        spec_page_align_down(va) % 4096 == 0,
        spec_page_align_down((va + size - 1) as u64) % 4096 == 0,
        in_pages(
            addr as int,
            spec_page_align_down(va) as int,
            spec_page_align_down((va + size - 1) as u64) as int,
        ),
        page_span(va, size) >= 0,
        0 <= spec_page_align_down(addr) - spec_page_align_down(va) <= page_span(va, size),
        spec_page_align_down(addr) == addr - addr % 4096,
{
}

/// A leaf entry made of machine words is valid and fits an entry.
pub proof fn lemma_leaf_entry_fits(arch: Arch, pa: u64, flags: u64)
    requires
        pa <= arch.spec_word_max(),
        flags <= arch.spec_word_max(),
    ensures
        leaf_entry(pa, flags) <= arch.spec_word_max(),
        leaf_entry(pa, flags) & PTE_VALID != 0,
{
    let bits = spec_phy_to_pte(pa);
    assert((bits | (flags | 1)) & 1 != 0) by (bit_vector);
    assert(pa <= 0xffff_ffff && flags <= 0xffff_ffff ==> (((pa / 4096) * 1024) as u64 | (flags
        | 1)) <= 0xffff_ffff) by (bit_vector);
}

/// What mapping a range of pages does to the translation of one address,
/// however the mapping ends.
pub open spec fn mapped_as_stated(
    s: PoolState,
    after: PoolState,
    done: Result<(), VmError>,
    root: int,
    page: int,
    pa: int,
    last: int,
    flags: u64,
    other: int,
) -> bool {
    &&& tree_wf(after, root)
    &&& after.arch == s.arch
    &&& after.base == s.base
    &&& after.limit == s.limit
    &&& after.frames >= s.frames
    &&& translation(s, root, other) matches Some(entry) ==> translation(after, root, other)
        == Some(entry)
    &&& !in_pages(other, page, last) ==> translation(after, root, other) == translation(
        s,
        root,
        other,
    )
    &&& in_pages(other, page, last) ==> translation(after, root, other) == translation(
        s,
        root,
        other,
    ) || (translation(s, root, other).is_none() && translation(after, root, other) == Some(
        entry_for(other, page, pa, flags),
    ))
    &&& done.is_ok() && in_pages(other, page, last) ==> translation(s, root, other).is_none()
        && translation(after, root, other) == Some(entry_for(other, page, pa, flags))
    &&& in_pages(other, page, last) && translation(s, root, other).is_some() ==> done == Err::<
        (),
        VmError,
    >(VmError::AlreadyMapped) || done == Err::<(), VmError>(VmError::OutOfMemory)
    &&& done == Err::<(), VmError>(VmError::InvalidAddress) ==> last > s.arch.spec_va_max()
    &&& done.is_ok() && page <= last ==> last <= s.arch.spec_va_max()
    &&& done == Err::<(), VmError>(VmError::OutOfMemory) ==> after.full()
    &&& done != Err::<(), VmError>(VmError::PageFault)
}

/// Mapping a range of pages does to every translatable address what
/// `mapped_as_stated` says.
pub proof fn lemma_map_pages(
    s: PoolState,
    root: int,
    page: int,
    pa: int,
    last: int,
    flags: u64,
    other: int,
)
    requires
        tree_wf(s, root),
        0 <= page <= last + 4096,
        page % 4096 == 0,
        last % 4096 == 0,
        last <= u64::MAX,
        0 <= pa,
        page <= last ==> pa + (last - page) <= s.arch.spec_word_max(),
        flags <= s.arch.spec_word_max(),
        0 <= other <= s.arch.spec_va_max(),
    ensures
        mapped_as_stated(
            s,
            map_pages(s, root, page, pa, last, flags).0,
            map_pages(s, root, page, pa, last, flags).1,
            root,
            page,
            pa,
            last,
            flags,
            other,
        ),
    decreases last - page + 4096,
{
    reveal(map_pages);
    lemma_table_is_frame(s, root, 0, (s.arch.spec_levels() - 1) as nat);
    if page <= last {
        let (walked, found) = walk_alloc_spec(s, root, page as u64);
        lemma_walk_alloc(s, root, page as u64);
        lemma_walk_alloc_keeps(s, root, page as u64, other);
        lemma_walk_alloc_keeps(s, root, page as u64, page);
        if let Ok(slot) = found {
            lemma_translation_is_leaf(walked, root, page);
            if in_pages(other, page, page) {
                lemma_same_page_translation(s, root, page, other);
                lemma_same_page_translation(walked, root, page, other);
            }
            if walked.mem[slot as int] & PTE_VALID != 0 {
            } else {
                let entry = leaf_entry(pa as u64, flags);
                let stored = walked.write(slot as int, entry);
                lemma_leaf_entry_fits(s.arch, pa as u64, flags);
                lemma_leaf_store_keeps_tree(walked, root, page, entry);
                lemma_leaf_store_lookup(walked, root, page, entry, other);
                lemma_map_pages(stored, root, page + 4096, pa + 4096, last, flags, other);
                assert(in_pages(other, page, page) <==> other / 4096 == page / 4096);
                if in_pages(other, page, page) {
                    assert(other - other % 4096 == page);
                }
            }
        }
    }
}

/// `page_map` never takes a translation away nor changes one: whatever an
/// address translated to before the call, it translates to after it,
/// however the call ended. Outside the pages of the range nothing
/// changes at all, and a page of the range either is as it was or has got
/// the entry that the call was to give it.
pub proof fn lemma_page_map_keeps(
    s: PoolState,
    root: int,
    va: u64,
    pa: u64,
    size: u64,
    flags: u64,
    other: u64,
)
    requires
        page_map_accepts(s, root, va, pa, size, flags),
        other <= s.arch.spec_va_max(),
    ensures
        mapped_as_stated(
            s,
            page_map_spec(s, root, va, pa, size, flags).0,
            page_map_spec(s, root, va, pa, size, flags).1,
            root,
            spec_page_align_down(va) as int,
            pa as int,
            spec_page_align_down((va + size - 1) as u64) as int,
            flags,
            other as int,
        ),
{
    lemma_map_pages(
        s,
        root,
        spec_page_align_down(va) as int,
        pa as int,
        spec_page_align_down((va + size - 1) as u64) as int,
        flags,
        other as int,
    );
}

/// The leaf entry for the page of `addr` decodes to the frame that stands
/// as far above the first frame as the page stands above the first page,
/// and to the flags that it was made of.
proof fn lemma_entry_decodes(arch: Arch, va: u64, pa: u64, size: u64, flags: u64, addr: u64)
    requires
        size > 0,
        va + (size - 1) <= u64::MAX,
        pa + page_span(va, size) <= arch.spec_word_max(),
        flags <= arch.spec_word_max(),
        va <= addr < va + size,
    ensures
        entry_for(addr as int, spec_page_align_down(va) as int, pa as int, flags) & PTE_VALID
            != 0,
        flags <= PTE_FLAG_MASK ==> {
            let entry = entry_for(addr as int, spec_page_align_down(va) as int, pa as int, flags);
            let frame = pa - pa % 4096 + (spec_page_align_down(addr) - spec_page_align_down(va));
            &&& entry & PTE_FLAG_MASK == flags | PTE_VALID
            &&& spec_pte_to_phy(entry) == frame
        },
{
    lemma_range_pages(va, size, addr);
    let ahead = spec_page_align_down(addr) - spec_page_align_down(va);
    let phys = (pa + ahead) as u64;
    assert(ahead % 4096 == 0);
    assert(phys - phys % 4096 == pa - pa % 4096 + ahead);
    lemma_leaf_entry_fits(arch, phys, flags);
    if flags <= PTE_FLAG_MASK {
        assert(flags | PTE_VALID <= PTE_FLAG_MASK) by (bit_vector)
            requires
                flags <= PTE_FLAG_MASK,
        ;
        lemma_frame_with_flags(phys, flags | PTE_VALID);
    }
}

/// After `page_map` has succeeded, a lookup for any address of the range
/// finds a leaf entry, and that entry is valid and is the one made of the
/// frame that belongs to the address's page and of the flags asked for.
/// Where the flags lie within the flag bits of an entry, the entry decodes
/// to exactly that frame and those flags.
pub proof fn lemma_page_map_translates(
    s: PoolState,
    root: int,
    va: u64,
    pa: u64,
    size: u64,
    flags: u64,
    addr: u64,
)
    requires
        page_map_accepts(s, root, va, pa, size, flags),
        page_map_spec(s, root, va, pa, size, flags).1.is_ok(),
        va <= addr < va + size,
    ensures
        addr <= s.arch.spec_va_max(),
        translation(s, root, addr as int).is_none(),
        translation(page_map_spec(s, root, va, pa, size, flags).0, root, addr as int) == Some(
            entry_for(addr as int, spec_page_align_down(va) as int, pa as int, flags),
        ),
        walk_lookup_spec(page_map_spec(s, root, va, pa, size, flags).0, root, addr) matches Ok(
            slot,
        ) && page_map_spec(s, root, va, pa, size, flags).0.mem[slot as int] == entry_for(
            addr as int,
            spec_page_align_down(va) as int,
            pa as int,
            flags,
        ),
        entry_for(addr as int, spec_page_align_down(va) as int, pa as int, flags) & PTE_VALID
            != 0,
        flags <= PTE_FLAG_MASK ==> {
            let entry = entry_for(addr as int, spec_page_align_down(va) as int, pa as int, flags);
            let frame = pa - pa % 4096 + (spec_page_align_down(addr) - spec_page_align_down(va));
            &&& entry & PTE_FLAG_MASK == flags | PTE_VALID
            &&& spec_pte_to_phy(entry) == frame
        },
{
    let first = spec_page_align_down(va) as int;
    let last = spec_page_align_down((va + size - 1) as u64) as int;
    let after = page_map_spec(s, root, va, pa, size, flags).0;
    let done = page_map_spec(s, root, va, pa, size, flags).1;
    lemma_range_pages(va, size, addr);
    lemma_table_is_frame(s, root, 0, (s.arch.spec_levels() - 1) as nat);
    assert(last <= s.arch.spec_va_max()) by {
        lemma_map_pages(s, root, first, pa as int, last, flags, 0);
    }
    assert(translation(s, root, addr as int).is_none() && translation(after, root, addr as int)
        == Some(entry_for(addr as int, first, pa as int, flags)) && tree_wf(after, root)) by {
        lemma_map_pages(s, root, first, pa as int, last, flags, addr as int);
    }
    assert(walk_lookup_spec(after, root, addr) matches Ok(slot) && after.mem[slot as int]
        == entry_for(addr as int, first, pa as int, flags)) by {
        lemma_translation_is_leaf(after, root, addr as int);
        lemma_walk_step(after, root, addr as int, 0);
    }
    lemma_entry_decodes(s.arch, va, pa, size, flags, addr);
}

/// A second `page_map` on a range that shares a page with a range that a
/// first one has mapped fails: with `AlreadyMapped`, unless the pool runs
/// out of frames for the pages that come before the shared one, when it
/// fails with `OutOfMemory`. Either way every address of the first range
/// translates as it did after the first call.
pub proof fn lemma_page_map_overlap(
    s: PoolState,
    root: int,
    va: u64,
    pa: u64,
    size: u64,
    flags: u64,
    va2: u64,
    pa2: u64,
    size2: u64,
    flags2: u64,
    shared: u64,
    addr: u64,
)
    requires
        page_map_accepts(s, root, va, pa, size, flags),
        page_map_spec(s, root, va, pa, size, flags).1.is_ok(),
        page_map_accepts(
            page_map_spec(s, root, va, pa, size, flags).0,
            root,
            va2,
            pa2,
            size2,
            flags2,
        ),
        in_pages(
            shared as int,
            spec_page_align_down(va) as int,
            spec_page_align_down((va + size - 1) as u64) as int,
        ),
        in_pages(
            shared as int,
            spec_page_align_down(va2) as int,
            spec_page_align_down((va2 + size2 - 1) as u64) as int,
        ),
        va <= addr < va + size,
    ensures
        ({
            let first = page_map_spec(s, root, va, pa, size, flags).0;
            let second = page_map_spec(first, root, va2, pa2, size2, flags2);
            &&& second.1 == Err::<(), VmError>(VmError::AlreadyMapped) || (second.1 == Err::<
                (),
                VmError,
            >(VmError::OutOfMemory) && second.0.full())
            &&& translation(first, root, addr as int).is_some()
            &&& translation(second.0, root, addr as int) == translation(first, root, addr as int)
        }),
{
    let first = page_map_spec(s, root, va, pa, size, flags).0;
    let lo = spec_page_align_down(va) as int;
    let hi = spec_page_align_down((va + size - 1) as u64) as int;
    let lo2 = spec_page_align_down(va2) as int;
    let hi2 = spec_page_align_down((va2 + size2 - 1) as u64) as int;
    let done = page_map_spec(s, root, va, pa, size, flags).1;
    let second = page_map_spec(first, root, va2, pa2, size2, flags2);
    lemma_range_pages(va, size, addr);
    lemma_range_pages(va2, size2, va2);
    lemma_table_is_frame(s, root, 0, (s.arch.spec_levels() - 1) as nat);
    assert(mapped_as_stated(s, first, done, root, lo, pa as int, hi, flags, 0)) by {
        lemma_map_pages(s, root, lo, pa as int, hi, flags, 0);
    }
    assert(shared <= s.arch.spec_va_max());
    assert(mapped_as_stated(s, first, done, root, lo, pa as int, hi, flags, shared as int)) by {
        lemma_map_pages(s, root, lo, pa as int, hi, flags, shared as int);
    }
    assert(translation(first, root, shared as int).is_some());
    lemma_page_map_translates(s, root, va, pa, size, flags, addr);
    assert(mapped_as_stated(
        first,
        second.0,
        second.1,
        root,
        lo2,
        pa2 as int,
        hi2,
        flags2,
        shared as int,
    )) by {
        lemma_map_pages(first, root, lo2, pa2 as int, hi2, flags2, shared as int);
    }
    assert(mapped_as_stated(
        first,
        second.0,
        second.1,
        root,
        lo2,
        pa2 as int,
        hi2,
        flags2,
        addr as int,
    )) by {
        lemma_map_pages(first, root, lo2, pa2 as int, hi2, flags2, addr as int);
    }
}

/// Mapping a range of pages maps them in rising order: where a page of
/// the range has got its translation, however the mapping ended, every
/// page of the range below it has got its own.
pub proof fn lemma_map_pages_in_order(
    s: PoolState,
    root: int,
    page: int,
    pa: int,
    last: int,
    flags: u64,
    early: int,
    late: int,
)
    requires
        tree_wf(s, root),
        0 <= page <= last + 4096,
        page % 4096 == 0,
        last % 4096 == 0,
        last <= u64::MAX,
        0 <= pa,
        page <= last ==> pa + (last - page) <= s.arch.spec_word_max(),
        flags <= s.arch.spec_word_max(),
        page <= early <= late < last + 4096,
        late <= s.arch.spec_va_max(),
        translation(s, root, late).is_none(),
        translation(map_pages(s, root, page, pa, last, flags).0, root, late).is_some(),
    ensures
        translation(s, root, early).is_none(),
        translation(map_pages(s, root, page, pa, last, flags).0, root, early) == Some(
            entry_for(early, page, pa, flags),
        ),
    decreases last - page + 4096,
{
    reveal(map_pages);
    let (walked, found) = walk_alloc_spec(s, root, page as u64);
    lemma_walk_alloc(s, root, page as u64);
    lemma_walk_alloc_keeps(s, root, page as u64, late);
    lemma_walk_alloc_keeps(s, root, page as u64, early);
    lemma_walk_alloc_keeps(s, root, page as u64, page);
    let slot = found.unwrap();
    lemma_translation_is_leaf(walked, root, page);
    if in_pages(late, page, page) {
        lemma_same_page_translation(walked, root, page, late);
    }
    if in_pages(early, page, page) {
        lemma_same_page_translation(walked, root, page, early);
    }
    let entry = leaf_entry(pa as u64, flags);
    let stored = walked.write(slot as int, entry);
    lemma_leaf_entry_fits(s.arch, pa as u64, flags);
    lemma_leaf_store_keeps_tree(walked, root, page, entry);
    lemma_leaf_store_lookup(walked, root, page, entry, late);
    lemma_leaf_store_lookup(walked, root, page, entry, early);
    assert(in_pages(early, page, page) <==> early / 4096 == page / 4096);
    assert(in_pages(late, page, page) <==> late / 4096 == page / 4096);
    if in_pages(early, page, page) {
        assert(early - early % 4096 == page);
        lemma_map_pages(stored, root, page + 4096, pa + 4096, last, flags, early);
    } else {
        lemma_map_pages_in_order(stored, root, page + 4096, pa + 4096, last, flags, early, late);
    }
}

/// `page_map` maps the pages of its range in rising order: where an
/// address of the range has got its translation, however the call ended,
/// every address of the range below it has got its own.
pub proof fn lemma_page_map_in_order(
    s: PoolState,
    root: int,
    va: u64,
    pa: u64,
    size: u64,
    flags: u64,
    early: u64,
    late: u64,
)
    requires
        page_map_accepts(s, root, va, pa, size, flags),
        va <= early <= late < va + size,
        translation(s, root, late as int).is_none(),
        translation(page_map_spec(s, root, va, pa, size, flags).0, root, late as int).is_some(),
    ensures
        translation(s, root, early as int).is_none(),
        translation(page_map_spec(s, root, va, pa, size, flags).0, root, early as int) == Some(
            entry_for(early as int, spec_page_align_down(va) as int, pa as int, flags),
        ),
{
    lemma_range_pages(va, size, early);
    lemma_range_pages(va, size, late);
    lemma_translation_is_leaf(page_map_spec(s, root, va, pa, size, flags).0, root, late as int);
    lemma_page_map_keeps(s, root, va, pa, size, flags, 0);
    lemma_map_pages_in_order(
        s,
        root,
        spec_page_align_down(va) as int,
        pa as int,
        spec_page_align_down((va + size - 1) as u64) as int,
        flags,
        early as int,
        late as int,
    );
}

/// Mapping a range of pages ends with `AlreadyMapped` only where one of
/// its pages had a translation before.
pub proof fn lemma_already_mapped(
    s: PoolState,
    root: int,
    page: int,
    pa: int,
    last: int,
    flags: u64,
)
    requires
        tree_wf(s, root),
        0 <= page <= last + 4096,
        page % 4096 == 0,
        last % 4096 == 0,
        last <= u64::MAX,
        0 <= pa,
        page <= last ==> pa + (last - page) <= s.arch.spec_word_max(),
        flags <= s.arch.spec_word_max(),
        map_pages(s, root, page, pa, last, flags).1 == Err::<(), VmError>(VmError::AlreadyMapped),
    ensures
        exists|taken: int|
            page <= taken <= last && taken % 4096 == 0 && (#[trigger] translation(
                s,
                root,
                taken,
            )).is_some(),
    decreases last - page + 4096,
{
    reveal(map_pages);
    let (walked, found) = walk_alloc_spec(s, root, page as u64);
    lemma_walk_alloc(s, root, page as u64);
    lemma_walk_alloc_keeps(s, root, page as u64, page);
    let slot = found.unwrap();
    lemma_translation_is_leaf(walked, root, page);
    if walked.mem[slot as int] & PTE_VALID != 0 {
        assert(translation(s, root, page).is_some());
    } else {
        let entry = leaf_entry(pa as u64, flags);
        let stored = walked.write(slot as int, entry);
        lemma_leaf_entry_fits(s.arch, pa as u64, flags);
        lemma_leaf_store_keeps_tree(walked, root, page, entry);
        lemma_already_mapped(stored, root, page + 4096, pa + 4096, last, flags);
        let taken = choose|taken: int|
            page + 4096 <= taken <= last && taken % 4096 == 0 && (#[trigger] translation(
                stored,
                root,
                taken,
            )).is_some();
        lemma_translation_is_leaf(stored, root, taken);
        lemma_leaf_store_lookup(walked, root, page, entry, taken);
        lemma_walk_alloc_keeps(s, root, page as u64, taken);
        assert(translation(s, root, taken).is_some());
    }
}

/// Mapping a range of pages succeeds where every page lies within the
/// scheme's range, none has a translation yet, and the pool has, for each
/// page, a frame left for every level below the root. It takes no more
/// frames than that.
pub proof fn lemma_map_pages_succeeds(
    s: PoolState,
    root: int,
    page: int,
    pa: int,
    last: int,
    flags: u64,
)
    requires
        tree_wf(s, root),
        0 <= page <= last + 4096,
        page % 4096 == 0,
        last % 4096 == 0,
        last <= s.arch.spec_va_max(),
        0 <= pa,
        page <= last ==> pa + (last - page) <= s.arch.spec_word_max(),
        flags <= s.arch.spec_word_max(),
        forall|addr: int|
            page <= addr <= last ==> (#[trigger] translation(s, root, addr)).is_none(),
        s.frames + page_count(page, last) * (s.arch.spec_levels() - 1) <= s.limit,
    ensures
        map_pages(s, root, page, pa, last, flags).1.is_ok(),
        map_pages(s, root, page, pa, last, flags).0.frames <= s.frames + page_count(page, last) * (
        s.arch.spec_levels() - 1),
    decreases last - page + 4096,
{
    reveal(map_pages);
    if page <= last {
        let below = s.arch.spec_levels() - 1;
        let rest = page_count(page + 4096, last);
        assert(page_count(page, last) == rest + 1) by {
            if page + 4096 <= last {
                assert((last - page) / 4096 == (last - page - 4096) / 4096 + 1);
            }
        }
        assert(page_count(page, last) * below == rest * below + below) by (nonlinear_arith)
            requires
                page_count(page, last) == rest + 1,
        ;
        assert(rest * below >= 0) by (nonlinear_arith)
            requires
                rest >= 0,
                below >= 0,
        ;
        let (walked, found) = walk_alloc_spec(s, root, page as u64);
        lemma_walk_alloc(s, root, page as u64);
        lemma_missing_at_most(s, root, page, below as nat);
        lemma_walk_alloc_keeps(s, root, page as u64, page);
        let slot = found.unwrap();
        lemma_translation_is_leaf(walked, root, page);
        assert(translation(s, root, page).is_none());
        let entry = leaf_entry(pa as u64, flags);
        let stored = walked.write(slot as int, entry);
        lemma_leaf_entry_fits(s.arch, pa as u64, flags);
        lemma_leaf_store_keeps_tree(walked, root, page, entry);
        assert forall|addr: int| page + 4096 <= addr <= last implies (#[trigger] translation(
            stored,
            root,
            addr,
        )).is_none() by {
            assert(translation(s, root, addr).is_none());
            lemma_walk_alloc_keeps(s, root, page as u64, addr);
            lemma_leaf_store_lookup(walked, root, page, entry, addr);
        }
        lemma_map_pages_succeeds(stored, root, page + 4096, pa + 4096, last, flags);
    }
}

/// `page_map` succeeds where the range lies within what the scheme
/// translates, none of its pages has a translation yet, and the pool has,
/// for each page, a frame left for every level below the root.
pub proof fn lemma_page_map_succeeds(
    s: PoolState,
    root: int,
    va: u64,
    pa: u64,
    size: u64,
    flags: u64,
)
    requires
        page_map_accepts(s, root, va, pa, size, flags),
        va + (size - 1) <= s.arch.spec_va_max(),
        forall|addr: int|
            spec_page_align_down(va) <= addr <= va + (size - 1) ==> (#[trigger] translation(
                s,
                root,
                addr,
            )).is_none(),
        s.frames + (page_span(va, size) / 4096 + 1) * (s.arch.spec_levels() - 1) <= s.limit,
    ensures
        page_map_spec(s, root, va, pa, size, flags).1.is_ok(),
{
    lemma_range_pages(va, size, va);
    lemma_map_pages_succeeds(
        s,
        root,
        spec_page_align_down(va) as int,
        pa as int,
        spec_page_align_down((va + size - 1) as u64) as int,
        flags,
    );
}

} // verus!
