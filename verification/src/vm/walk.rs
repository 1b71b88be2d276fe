//! The walk from a root to the leaf entry of a virtual address, in its
//! two modes: one that only looks, and one that makes the tables it
//! misses.

use vstd::prelude::*;
use crate::vm::entry::{
    lemma_vpn_in_range,
    phy_to_pte,
    pte_get_flag,
    pte_set_flag,
    spec_pte_to_phy,
    vpn,
    vpn_of,
    PTE_VALID,
};
use crate::vm::pool::{PagePool, PoolState, VmError};
use crate::vm::ptable::PageTable;
use crate::vm::tree::{
    entry_addr,
    leaf_slot,
    lemma_entry_in_pool,
    lemma_fresh_root,
    lemma_link_entry,
    lemma_link_keeps_leaves,
    lemma_link_keeps_tree,
    lemma_link_paths,
    lemma_same_path_equiv,
    lemma_same_path_same_table,
    lemma_table_is_frame,
    link,
    next_table,
    same_path,
    table_at,
    translation,
    tree_wf,
};

verus! {

/// What a walk that only looks returns: the address of the leaf entry for
/// `va`, whatever that entry holds, or why there is none.
pub open spec fn walk_lookup_spec(s: PoolState, root: int, va: u64) -> Result<u64, VmError> {
    if va > s.arch.spec_va_max() {
        Err(VmError::InvalidAddress)
    } else {
        match leaf_slot(s, root, va as int) {
            Some(slot) => Ok(slot as u64),
            None => Err(VmError::PageFault),
        }
    }
}

/// The rest of a walk that makes the tables it misses, from the table of
/// depth `level` that it has reached: the pool that it leaves behind, and
/// the address of the leaf entry or the failure of the pool.
#[verifier::opaque]
pub open spec fn descend(s: PoolState, root: int, va: int, level: nat) -> (
    PoolState,
    Result<u64, VmError>,
)
    decreases level,
{
    if level == 0 {
        (s, Ok(leaf_slot(s, root, va).unwrap() as u64))
    } else if table_at(s, root, va, (level - 1) as nat).is_some() {
        descend(s, root, va, (level - 1) as nat)
    } else if s.full() {
        (s, Err(VmError::OutOfMemory))
    } else {
        descend(link(s, root, va, level), root, va, (level - 1) as nat)
    }
}

/// What a walk that makes the tables it misses leaves behind and returns.
pub open spec fn walk_alloc_spec(s: PoolState, root: int, va: u64) -> (
    PoolState,
    Result<u64, VmError>,
) {
    if va > s.arch.spec_va_max() {
        (s, Err(VmError::InvalidAddress))
    } else {
        descend(s, root, va as int, (s.arch.spec_levels() - 1) as nat)
    }
}

/// What a walk leaves behind and returns, in either mode.
pub open spec fn walk_spec(s: PoolState, root: int, va: u64, alloc_new: bool) -> (
    PoolState,
    Result<u64, VmError>,
) {
    if alloc_new {
        walk_alloc_spec(s, root, va)
    } else {
        (s, walk_lookup_spec(s, root, va))
    }
}

/// The depth at which a walk for `va` that has reached depth `level`
/// comes to a stop for want of a table: the number of tables that are
/// missing between there and the leaf.
pub open spec fn depth_reached(s: PoolState, root: int, va: int, level: nat) -> nat
    decreases level,
{
    if level == 0 || table_at(s, root, va, (level - 1) as nat).is_none() {
        level
    } else {
        depth_reached(s, root, va, (level - 1) as nat)
    }
}

/// The number of tables that are missing on the way from `root` to the
/// leaf entry of `va`.
pub open spec fn missing_tables(s: PoolState, root: int, va: int) -> nat {
    depth_reached(s, root, va, (s.arch.spec_levels() - 1) as nat)
}

/// Get the address of the leaf entry for `va` in the tree under `pt`,
/// without changing anything: where a table is missing on the way, the
/// walk fails with `PageFault`. Whether the leaf entry holds a translation
/// is for the caller to see.
pub fn walk_lookup(pool: &PagePool, pt: PageTable, va: u64) -> (found: Result<u64, VmError>)
    requires
        pool.wf(),
        tree_wf(pool@, pt.spec_base() as int),
    ensures
        found == walk_lookup_spec(pool@, pt.spec_base() as int, va),
{
    let arch = pool.arch();
    if va > arch.va_max() {
        return Err(VmError::InvalidAddress);
    }
    let ghost root = pt.spec_base() as int;
    let mut table = pt;
    let mut level: u32 = arch.levels() - 1;
    while level > 0
        invariant
            pool.wf(),
            tree_wf(pool@, root),
            root == pt.spec_base(),
            va <= arch.spec_va_max(),
            arch == pool@.arch,
            level < arch.spec_levels(),
            table_at(pool@, root, va as int, level as nat) == Some(table.spec_base() as int),
        decreases level,
    {
        let idx = vpn(arch, va, level);
        proof {
            lemma_walk_step(pool@, root, va as int, level as nat);
        }
        let next = table.index_mut(arch, idx);
        let entry = pool.read_pte(next);
        if pte_get_flag(entry, PTE_VALID) {
            table = PageTable::from(entry);
            proof {
                PageTable::lemma_at_base(spec_pte_to_phy(entry));
            }
        } else {
            proof {
                lemma_none_below(pool@, root, va as int, (level - 1) as nat, 0);
            }
            return Err(VmError::PageFault);
        }
        level = level - 1;
    }
    let idx = vpn(arch, va, 0);
    proof {
        lemma_walk_step(pool@, root, va as int, 0);
    }
    Ok(table.index_mut(arch, idx))
}

/// Get the address of the leaf entry for `va` in the tree under `pt`,
/// making every table that is missing on the way from a frame of the
/// pool. When the pool runs out the walk fails with `OutOfMemory`; the
/// tables made before that stay, empty, and no translation has changed.
#[verifier::loop_isolation(false)]
pub fn walk_alloc(pool: &mut PagePool, pt: PageTable, va: u64) -> (found: Result<u64, VmError>)
    requires
        old(pool).wf(),
        tree_wf(old(pool)@, pt.spec_base() as int),
    ensures
        final(pool).wf(),
        tree_wf(final(pool)@, pt.spec_base() as int),
        (final(pool)@, found) == walk_alloc_spec(old(pool)@, pt.spec_base() as int, va),
        found.is_ok() <==> va <= old(pool)@.arch.spec_va_max() && old(pool)@.frames
            + missing_tables(old(pool)@, pt.spec_base() as int, va as int) <= old(pool)@.limit,
        found matches Ok(slot) ==> {
            &&& leaf_slot(final(pool)@, pt.spec_base() as int, va as int) == Some(slot as int)
            &&& final(pool)@.frames == old(pool)@.frames + missing_tables(
                old(pool)@,
                pt.spec_base() as int,
                va as int,
            )
        },
        found matches Err(e) ==> (e == VmError::InvalidAddress && final(pool)@ == old(pool)@)
            || (e == VmError::OutOfMemory && final(pool)@.full()),
{
    proof {
        lemma_walk_alloc(old(pool)@, pt.spec_base() as int, va);
    }
    let arch = pool.arch();
    if va > arch.va_max() {
        return Err(VmError::InvalidAddress);
    }
    let ghost root = pt.spec_base() as int;
    let mut table = pt;
    let mut level: u32 = arch.levels() - 1;
    while level > 0
        invariant
            pool.wf(),
            tree_wf(pool@, root),
            root == pt.spec_base(),
            va <= arch.spec_va_max(),
            arch == pool@.arch,
            level < arch.spec_levels(),
            table_at(pool@, root, va as int, level as nat) == Some(table.spec_base() as int),
            arch == old(pool)@.arch,
            descend(pool@, root, va as int, level as nat) == descend(
                old(pool)@,
                root,
                va as int,
                (arch.spec_levels() - 1) as nat,
            ),
        decreases level,
    {
        let idx = vpn(arch, va, level);
        proof {
            reveal(descend);
            lemma_walk_step(pool@, root, va as int, level as nat);
        }
        let next = table.index_mut(arch, idx);
        let entry = pool.read_pte(next);
        if pte_get_flag(entry, PTE_VALID) {
            table = PageTable::from(entry);
            proof {
                PageTable::lemma_at_base(spec_pte_to_phy(entry));
            }
        } else {
            let ghost before = pool@;
            match pool.palloc() {
                Ok(frame) => {
                    proof {
                        lemma_link_entry(before);
                        lemma_link_keeps_tree(before, root, va as int, level as nat);
                    }
                    pool.set_pte(next, pte_set_flag(phy_to_pte(frame), PTE_VALID));
                    table = PageTable::from(phy_to_pte(frame));
                    proof {
                        PageTable::lemma_at_base(frame);
                    }
                },
                Err(e) => {
                    return Err(e);
                },
            }
        }
        level = level - 1;
    }
    let idx = vpn(arch, va, 0);
    proof {
        reveal(descend);
        lemma_walk_step(pool@, root, va as int, 0);
    }
    Ok(table.index_mut(arch, idx))
}

/// Get the address of the leaf entry for `va` in the tree under `pt`. With
/// `alloc_new` the tables that are missing on the way are made; without
/// it the pool is left as it is.
pub fn walk(pool: &mut PagePool, pt: PageTable, va: u64, alloc_new: bool) -> (found: Result<
    u64,
    VmError,
>)
    requires
        old(pool).wf(),
        tree_wf(old(pool)@, pt.spec_base() as int),
    ensures
        final(pool).wf(),
        tree_wf(final(pool)@, pt.spec_base() as int),
        (final(pool)@, found) == walk_spec(old(pool)@, pt.spec_base() as int, va, alloc_new),
{
    if alloc_new {
        walk_alloc(pool, pt, va)
    } else {
        walk_lookup(pool, pt, va)
    }
}

/// A walk that only looks leaves the pool as it is, and so takes no frame
/// from it. It refuses an address above the scheme's range, fails with
/// `PageFault` exactly when some table is missing on the way of an address
/// within the range, and otherwise returns the leaf entry, also where that
/// entry holds no translation.
pub proof fn lemma_walk_lookup(s: PoolState, root: int, va: u64)
    ensures
        walk_spec(s, root, va, false).0 == s,
        walk_spec(s, root, va, false).1 == walk_lookup_spec(s, root, va),
        walk_lookup_spec(s, root, va) == Err::<u64, VmError>(VmError::InvalidAddress) <==> va
            > s.arch.spec_va_max(),
        walk_lookup_spec(s, root, va) == Err::<u64, VmError>(VmError::PageFault) <==> va
            <= s.arch.spec_va_max() && missing_tables(s, root, va as int) > 0,
        walk_lookup_spec(s, root, va).is_ok() <==> va <= s.arch.spec_va_max() && missing_tables(
            s,
            root,
            va as int,
        ) == 0,
        walk_lookup_spec(s, root, va) != Err::<u64, VmError>(VmError::OutOfMemory),
        walk_lookup_spec(s, root, va) != Err::<u64, VmError>(VmError::AlreadyMapped),
{
    let top = (s.arch.spec_levels() - 1) as nat;
    if table_at(s, root, va as int, 0).is_some() {
        lemma_reached_leaf(s, root, va as int, top);
    } else {
        if depth_reached(s, root, va as int, top) == 0 {
            lemma_descend_unchanged_reaches(s, root, va as int, top);
        }
    }
}

/// Of a walk that makes tables: an address above the scheme's range is
/// refused and nothing changes. Any other walk keeps the tree well-formed,
/// succeeds exactly when the pool has a frame left for each table that is
/// missing on its way, takes exactly those frames, and returns the leaf
/// entry that a lookup finds afterwards. When it fails the pool is used up.
pub proof fn lemma_walk_alloc(s: PoolState, root: int, va: u64)
    requires
        tree_wf(s, root),
    ensures
        tree_wf(walk_alloc_spec(s, root, va).0, root),
        walk_alloc_spec(s, root, va).0.arch == s.arch,
        walk_alloc_spec(s, root, va).0.base == s.base,
        walk_alloc_spec(s, root, va).0.limit == s.limit,
        va > s.arch.spec_va_max() ==> walk_alloc_spec(s, root, va) == (
            s,
            Err::<u64, VmError>(VmError::InvalidAddress),
        ),
        va <= s.arch.spec_va_max() ==> (walk_alloc_spec(s, root, va).1.is_ok() <==> s.frames
            + missing_tables(s, root, va as int) <= s.limit),
        walk_alloc_spec(s, root, va).1 matches Ok(slot) ==> {
            &&& walk_lookup_spec(walk_alloc_spec(s, root, va).0, root, va) == Ok::<u64, VmError>(
                slot,
            )
            &&& leaf_slot(walk_alloc_spec(s, root, va).0, root, va as int) == Some(slot as int)
            &&& walk_alloc_spec(s, root, va).0.frames == s.frames + missing_tables(
                s,
                root,
                va as int,
            )
            &&& missing_tables(walk_alloc_spec(s, root, va).0, root, va as int) == 0
        },
        walk_alloc_spec(s, root, va).1 matches Err(e) ==> (e == VmError::InvalidAddress && va
            > s.arch.spec_va_max()) || (e == VmError::OutOfMemory && va <= s.arch.spec_va_max()
            && walk_alloc_spec(s, root, va).0.full()),
        s.frames <= walk_alloc_spec(s, root, va).0.frames <= s.limit,
{
    lemma_table_is_frame(s, root, 0, (s.arch.spec_levels() - 1) as nat);
    if va <= s.arch.spec_va_max() {
        let top = (s.arch.spec_levels() - 1) as nat;
        lemma_descend_result(s, root, va as int, top);
        let s2 = descend(s, root, va as int, top).0;
        if descend(s, root, va as int, top).1.is_ok() {
            lemma_walk_step(s2, root, va as int, 0);
            lemma_reached_leaf(s2, root, va as int, top);
        }
    }
}

/// A walk that makes tables changes nothing that another walk could see:
/// every leaf entry that a lookup found holds what it held, and every
/// address translates as it did.
pub proof fn lemma_walk_alloc_keeps(s: PoolState, root: int, va: u64, other: int)
    requires
        tree_wf(s, root),
    ensures
        leaf_slot(s, root, other) matches Some(slot) ==> leaf_slot(
            walk_alloc_spec(s, root, va).0,
            root,
            other,
        ) == Some(slot) && walk_alloc_spec(s, root, va).0.mem[slot] == s.mem[slot],
        translation(walk_alloc_spec(s, root, va).0, root, other) == translation(s, root, other),
{
    if va <= s.arch.spec_va_max() {
        lemma_descend_keeps(s, root, va as int, (s.arch.spec_levels() - 1) as nat, other, 0);
    }
}

/// On a root fresh from the pool, the first walk that makes tables for an
/// address makes every table below the root, one for each level but the
/// root's own, if the pool has that many frames left.
pub proof fn lemma_first_walk(s: PoolState, va: u64)
    requires
        s.wf(),
        !s.full(),
        va <= s.arch.spec_va_max(),
    ensures
        missing_tables(s.grow(), s.next_frame(), va as int) == s.arch.spec_levels() - 1,
        s.frames + s.arch.spec_levels() <= s.limit ==> {
            &&& walk_alloc_spec(s.grow(), s.next_frame(), va).1.is_ok()
            &&& walk_alloc_spec(s.grow(), s.next_frame(), va).0.frames == s.grow().frames
                + s.arch.spec_levels() - 1
        },
        walk_lookup_spec(s.grow(), s.next_frame(), va) == Err::<u64, VmError>(VmError::PageFault),
{
    lemma_fresh_root(s);
    lemma_walk_alloc(s.grow(), s.next_frame(), va);
    assert(table_at(s.grow(), s.next_frame(), va as int, 0) == None::<int>);
    if s.arch.spec_levels() == 3 {
        assert(table_at(s.grow(), s.next_frame(), va as int, 1) == None::<int>);
    }
}

/// After a walk that made the tables for `va`, a second one for any
/// address on the same way down, as every address of the same page is,
/// makes none: it returns its leaf entry and leaves the pool as it is.
pub proof fn lemma_second_walk(s: PoolState, root: int, va: u64, again: u64)
    requires
        tree_wf(s, root),
        walk_alloc_spec(s, root, va).1.is_ok(),
        again <= s.arch.spec_va_max(),
        same_path(s.arch, va as int, again as int, 0),
    ensures
        walk_alloc_spec(walk_alloc_spec(s, root, va).0, root, again).1.is_ok(),
        walk_alloc_spec(walk_alloc_spec(s, root, va).0, root, again).0 == walk_alloc_spec(
            s,
            root,
            va,
        ).0,
{
    let s2 = walk_alloc_spec(s, root, va).0;
    let top = (s.arch.spec_levels() - 1) as nat;
    lemma_walk_alloc(s, root, va);
    lemma_same_path_same_table(s2, root, va as int, again as int, 0);
    lemma_reached_leaf(s2, root, again as int, top);
    lemma_descend_unchanged(s2, root, again as int, top);
}

/// The entry that a walk reads in a table that it has reached lies in the
/// pool, within the machine's addresses.
pub proof fn lemma_walk_step(s: PoolState, root: int, va: int, level: nat)
    requires
        tree_wf(s, root),
        level < s.arch.spec_levels(),
        table_at(s, root, va, level).is_some(),
    ensures
        s.wf(),
        0 <= vpn_of(s.arch, va, level) < s.arch.spec_entries(),
        0 <= table_at(s, root, va, level).unwrap(),
        table_at(s, root, va, level).unwrap() + 4096 <= u64::MAX + 1,
        s.has_entry(
            entry_addr(s.arch, table_at(s, root, va, level).unwrap(), vpn_of(s.arch, va, level)),
        ),
        level > 0 ==> table_at(s, root, va, (level - 1) as nat) == next_table(
            s,
            table_at(s, root, va, level).unwrap(),
            vpn_of(s.arch, va, level),
        ),
{
    let table = table_at(s, root, va, level).unwrap();
    lemma_table_is_frame(s, root, va, level);
    lemma_vpn_in_range(s.arch, va, level);
    lemma_entry_in_pool(s, table, vpn_of(s.arch, va, level));
    assert(s.end() % 4096 == 0);
    assert(s.end() <= s.base + s.limit * 4096) by (nonlinear_arith)
        requires
            s.end() == s.base + s.frames * 4096,
            s.frames <= s.limit,
    ;
}

/// Where a walk finds no table, it finds none further down.
pub proof fn lemma_none_below(s: PoolState, root: int, va: int, level: nat, depth: nat)
    requires
        depth <= level,
        table_at(s, root, va, level).is_none(),
    ensures
        table_at(s, root, va, depth).is_none(),
    decreases level - depth,
{
    if depth < level {
        lemma_none_below(s, root, va, level, depth + 1);
    }
}

/// The rest of a walk that makes tables keeps the tree well-formed and
/// takes one frame for each table that is missing. It succeeds exactly
/// when the pool has that many frames left, and then the leaf entry that
/// it returns is the one that a lookup finds afterwards.
pub proof fn lemma_descend_result(s: PoolState, root: int, va: int, level: nat)
    requires
        tree_wf(s, root),
        level < s.arch.spec_levels(),
        table_at(s, root, va, level).is_some(),
    ensures
        tree_wf(descend(s, root, va, level).0, root),
        descend(s, root, va, level).0.arch == s.arch,
        descend(s, root, va, level).0.base == s.base,
        descend(s, root, va, level).0.limit == s.limit,
        descend(s, root, va, level).1.is_ok() <==> s.frames + depth_reached(s, root, va, level)
            <= s.limit,
        descend(s, root, va, level).1 matches Ok(slot) ==> {
            &&& leaf_slot(descend(s, root, va, level).0, root, va) == Some(slot as int)
            &&& descend(s, root, va, level).0.frames == s.frames + depth_reached(
                s,
                root,
                va,
                level,
            )
        },
        descend(s, root, va, level).1 matches Err(e) ==> {
            &&& e == VmError::OutOfMemory
            &&& descend(s, root, va, level).0.frames == s.limit
        },
        s.frames <= descend(s, root, va, level).0.frames,
    decreases level,
{
    reveal(descend);
    lemma_table_is_frame(s, root, va, level);
    if level == 0 {
        lemma_walk_step(s, root, va, 0);
    } else if table_at(s, root, va, (level - 1) as nat).is_some() {
        lemma_descend_result(s, root, va, (level - 1) as nat);
    } else if s.full() {
    } else {
        let s1 = link(s, root, va, level);
        lemma_link_keeps_tree(s, root, va, level);
        lemma_descend_result(s1, root, va, (level - 1) as nat);
        if level >= 2 {
            lemma_same_path_equiv(s.arch, va, va, va, level);
            lemma_link_paths(s, root, va, level, va, (level - 2) as nat);
        }
        assert(depth_reached(s1, root, va, (level - 1) as nat) == level - 1);
    }
}

/// The rest of a walk that makes tables changes nothing that another walk
/// could see: every table that was reached is reached still, every leaf
/// entry holds what it held, and every address translates as it did.
pub proof fn lemma_descend_keeps(
    s: PoolState,
    root: int,
    va: int,
    level: nat,
    other: int,
    depth: nat,
)
    requires
        tree_wf(s, root),
        level < s.arch.spec_levels(),
        table_at(s, root, va, level).is_some(),
        depth < s.arch.spec_levels(),
    ensures
        table_at(s, root, other, depth).is_some() ==> table_at(
            descend(s, root, va, level).0,
            root,
            other,
            depth,
        ) == table_at(s, root, other, depth),
        leaf_slot(s, root, other) matches Some(slot) ==> leaf_slot(
            descend(s, root, va, level).0,
            root,
            other,
        ) == Some(slot) && descend(s, root, va, level).0.mem[slot] == s.mem[slot],
        translation(descend(s, root, va, level).0, root, other) == translation(s, root, other),
    decreases level,
{
    reveal(descend);
    if level == 0 {
    } else if table_at(s, root, va, (level - 1) as nat).is_some() {
        lemma_descend_keeps(s, root, va, (level - 1) as nat, other, depth);
    } else if s.full() {
    } else {
        let s1 = link(s, root, va, level);
        lemma_link_keeps_tree(s, root, va, level);
        lemma_link_keeps_leaves(s, root, va, level, other);
        lemma_descend_keeps(s1, root, va, (level - 1) as nat, other, depth);
    }
}

/// Where no table is missing, the rest of a walk changes nothing.
pub proof fn lemma_descend_unchanged(s: PoolState, root: int, va: int, level: nat)
    requires
        depth_reached(s, root, va, level) == 0,
    ensures
        descend(s, root, va, level).0 == s,
        descend(s, root, va, level).1.is_ok(),
    decreases level,
{
    reveal(descend);
    if level > 0 {
        lemma_descend_unchanged(s, root, va, (level - 1) as nat);
    }
}

/// Where the leaf table of `va` exists, no table is missing on its way.
pub proof fn lemma_reached_leaf(s: PoolState, root: int, va: int, level: nat)
    requires
        table_at(s, root, va, 0).is_some(),
    ensures
        depth_reached(s, root, va, level) == 0,
    decreases level,
{
    if level > 0 {
        if table_at(s, root, va, (level - 1) as nat).is_none() {
            lemma_none_below(s, root, va, (level - 1) as nat, 0);
        }
        lemma_reached_leaf(s, root, va, (level - 1) as nat);
    }
}

/// No more tables are missing than there are levels below the one
/// reached.
pub proof fn lemma_missing_at_most(s: PoolState, root: int, va: int, level: nat)
    ensures
        depth_reached(s, root, va, level) <= level,
    decreases level,
{
    if level > 0 {
        lemma_missing_at_most(s, root, va, (level - 1) as nat);
    }
}

/// A walk that has come to a stop above the leaf has not reached it.
pub proof fn lemma_stopped_above_leaf(s: PoolState, root: int, va: int, level: nat)
    requires
        depth_reached(s, root, va, level) > 0,
    ensures
        table_at(s, root, va, 0).is_none(),
    decreases level,
{
    if level > 0 {
        if table_at(s, root, va, (level - 1) as nat).is_none() {
            lemma_none_below(s, root, va, (level - 1) as nat, 0);
        } else {
            lemma_stopped_above_leaf(s, root, va, (level - 1) as nat);
        }
    }
}

/// A walk that does not stop on its way from a table that is there reaches
/// the leaf table.
proof fn lemma_descend_unchanged_reaches(s: PoolState, root: int, va: int, level: nat)
    requires
        depth_reached(s, root, va, level) == 0,
        table_at(s, root, va, level).is_some(),
    ensures
        table_at(s, root, va, 0).is_some(),
    decreases level,
{
    if level > 0 {
        lemma_descend_unchanged_reaches(s, root, va, (level - 1) as nat);
    }
}

} // verus!
