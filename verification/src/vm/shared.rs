//! Several trees in one pool: what a tree owns, and why work on one tree,
//! or on frames that belong to no tree, leaves the others as they are.

use vstd::prelude::*;
use crate::vm::entry::{lemma_vpn_in_range, spec_page_align_down, vpn_of, PTE_VALID};
use crate::vm::map::{
    leaf_entry,
    lemma_leaf_entry_fits,
    lemma_range_pages,
    map_pages,
    page_map_accepts,
    page_map_spec,
};
use crate::vm::pool::PoolState;
use crate::vm::tree::{
    can_link,
    entry_addr,
    leaf_slot,
    lemma_entry_in_pool,
    lemma_fresh_root,
    lemma_leaf_store_keeps_tree,
    lemma_link_keeps_tree,
    lemma_link_paths,
    lemma_table_is_frame,
    link,
    table_at,
    translation,
    tree_wf,
};
use crate::vm::walk::{descend, lemma_walk_alloc, walk_alloc_spec};

verus! {

/// Base of the frame that holds `addr`.
pub open spec fn frame_of(addr: int) -> int {
    addr - addr % 4096
}

/// `frame` is one of the tables of the tree under `root`.
pub open spec fn is_table(s: PoolState, root: int, frame: int) -> bool {
    exists|va: int, level: nat|
        level < s.arch.spec_levels() && #[trigger] table_at(s, root, va, level) == Some(frame)
}

/// The trees under `one` and `other` have no table in common.
pub open spec fn apart(s: PoolState, one: int, other: int) -> bool {
    forall|frame: int| !(#[trigger] is_table(s, one, frame) && is_table(s, other, frame))
}

/// `after` is a well-formed pool that has the frames of `before`, and
/// perhaps more, and holds in every entry of every table of the tree
/// under `root` what `before` holds there.
pub open spec fn keeps_tables(before: PoolState, after: PoolState, root: int) -> bool {
    &&& after.wf()
    &&& after.arch == before.arch
    &&& after.base == before.base
    &&& after.frames >= before.frames
    &&& forall|addr: int|
        #![trigger after.mem[addr]]
        before.has_entry(addr) && is_table(before, root, frame_of(addr)) ==> after.mem[addr]
            == before.mem[addr]
}

/// `after` came from `before` by work on the tree under `root` alone: it
/// has the frames of `before`, and perhaps more, every entry of `before`
/// outside the tables of that tree holds what it held, and whatever table
/// the tree has got is a frame that `before` had not handed out.
pub open spec fn grown_from(before: PoolState, after: PoolState, root: int) -> bool {
    &&& after.wf()
    &&& after.arch == before.arch
    &&& after.base == before.base
    &&& after.frames >= before.frames
    &&& forall|addr: int|
        #![trigger after.mem[addr]]
        before.has_entry(addr) && !is_table(before, root, frame_of(addr)) ==> after.mem[addr]
            == before.mem[addr]
    &&& forall|frame: int| #[trigger]
        is_table(after, root, frame) ==> is_table(before, root, frame) || !before.is_frame(frame)
}

/// An entry of a table lies in the frame of the table.
proof fn lemma_entry_frame(s: PoolState, table: int, idx: int)
    requires
        s.wf(),
        s.is_frame(table),
        0 <= idx < s.arch.spec_entries(),
    ensures
        frame_of(entry_addr(s.arch, table, idx)) == table,
        s.has_entry(entry_addr(s.arch, table, idx)),
{
    lemma_entry_in_pool(s, table, idx);
    let slot = entry_addr(s.arch, table, idx);
    assert(table <= slot < table + 4096);
    assert(slot / 4096 == table / 4096);
}

/// An entry of the pool lies in a frame of the pool.
proof fn lemma_frame_of_entry(s: PoolState, addr: int)
    requires
        s.wf(),
        s.has_entry(addr),
    ensures
        s.is_frame(frame_of(addr)),
{
}

/// Where the tables of a tree hold what they held, every walk reaches
/// what it reached.
pub proof fn lemma_tables_kept(before: PoolState, after: PoolState, root: int, va: int, level: nat)
    requires
        tree_wf(before, root),
        keeps_tables(before, after, root),
        level < before.arch.spec_levels(),
    ensures
        table_at(after, root, va, level) == table_at(before, root, va, level),
    decreases before.arch.spec_levels() - level,
{
    if level + 1 < before.arch.spec_levels() {
        lemma_tables_kept(before, after, root, va, level + 1);
        if let Some(parent) = table_at(before, root, va, level + 1) {
            let idx = vpn_of(before.arch, va, level + 1);
            lemma_table_is_frame(before, root, va, level + 1);
            lemma_vpn_in_range(before.arch, va, level + 1);
            lemma_entry_frame(before, parent, idx);
            assert(is_table(before, root, parent));
        }
    }
}

/// Where the tables of a tree hold what they held, the tree is
/// well-formed as before, has the same tables, and translates every
/// address as before.
pub proof fn lemma_tree_kept(before: PoolState, after: PoolState, root: int)
    requires
        tree_wf(before, root),
        keeps_tables(before, after, root),
    ensures
        tree_wf(after, root),
        forall|frame: int| #[trigger]
            is_table(after, root, frame) <==> is_table(before, root, frame),
        forall|va: int| #[trigger] translation(after, root, va) == translation(before, root, va),
{
    let arch = before.arch;
    lemma_table_is_frame(before, root, 0, (arch.spec_levels() - 1) as nat);
    assert forall|va: int, level: nat| level < arch.spec_levels() implies #[trigger] table_at(
        after,
        root,
        va,
        level,
    ) == table_at(before, root, va, level) by {
        lemma_tables_kept(before, after, root, va, level);
    }
    assert forall|frame: int| #[trigger] is_table(after, root, frame) <==> is_table(
        before,
        root,
        frame,
    ) by {
        if is_table(after, root, frame) {
            let (va, level) = choose|va: int, level: nat|
                level < arch.spec_levels() && #[trigger] table_at(after, root, va, level) == Some(
                    frame,
                );
            assert(table_at(before, root, va, level) == Some(frame));
        }
        if is_table(before, root, frame) {
            let (va, level) = choose|va: int, level: nat|
                level < arch.spec_levels() && #[trigger] table_at(before, root, va, level)
                    == Some(frame);
            assert(table_at(after, root, va, level) == Some(frame));
        }
    }
    assert(tree_wf(after, root)) by {
        reveal(tree_wf);
        assert forall|va: int, level: nat| level < arch.spec_levels() implies (
        #[trigger] table_at(after, root, va, level) matches Some(table) ==> after.is_frame(
            table,
        )) by {
            if table_at(before, root, va, level).is_some() {
                lemma_table_is_frame(before, root, va, level);
            }
        }
    }
    assert forall|va: int| #[trigger]
        translation(after, root, va) == translation(before, root, va) by {
        reveal(translation);
        if let Some(table) = table_at(before, root, va, 0) {
            lemma_table_is_frame(before, root, va, 0);
            lemma_vpn_in_range(arch, va, 0);
            lemma_entry_frame(before, table, vpn_of(arch, va, 0));
            assert(is_table(before, root, table));
        }
    }
}

/// Handing out a frame keeps every tree.
pub proof fn lemma_grow_keeps_tree(s: PoolState, root: int)
    requires
        tree_wf(s, root),
        !s.full(),
    ensures
        keeps_tables(s, s.grow(), root),
        tree_wf(s.grow(), root),
        !is_table(s.grow(), root, s.next_frame()),
{
    lemma_table_is_frame(s, root, 0, (s.arch.spec_levels() - 1) as nat);
    lemma_fresh_root(s);
    lemma_tree_kept(s, s.grow(), root);
    if is_table(s, root, s.next_frame()) {
        let (va, level) = choose|va: int, level: nat|
            level < s.arch.spec_levels() && #[trigger] table_at(s, root, va, level) == Some(
                s.next_frame(),
            );
        lemma_table_is_frame(s, root, va, level);
    }
}

/// A store into a frame that is no table of a tree keeps the tree.
pub proof fn lemma_store_outside_keeps_tree(s: PoolState, root: int, addr: int, value: u64)
    requires
        tree_wf(s, root),
        s.has_entry(addr),
        !is_table(s, root, frame_of(addr)),
        value <= s.arch.spec_word_max(),
    ensures
        keeps_tables(s, s.write(addr, value), root),
        tree_wf(s.write(addr, value), root),
{
    let after = s.write(addr, value);
    lemma_table_is_frame(s, root, 0, (s.arch.spec_levels() - 1) as nat);
    assert(after.wf()) by {
        assert forall|a: int| #[trigger] after.mem.dom().contains(a) <==> after.has_entry(a) by {
            assert(after.has_entry(a) == s.has_entry(a));
        }
    }
    lemma_tree_kept(s, after, root);
}

/// Work on a tree, done twice, is work on that tree.
pub proof fn lemma_grown_twice(s1: PoolState, s2: PoolState, s3: PoolState, root: int)
    requires
        s1.wf(),
        grown_from(s1, s2, root),
        grown_from(s2, s3, root),
    ensures
        grown_from(s1, s3, root),
{
    assert forall|addr: int|
        #![trigger s3.mem[addr]]
        s1.has_entry(addr) && !is_table(s1, root, frame_of(addr)) implies s3.mem[addr]
        == s1.mem[addr] by {
        lemma_frame_of_entry(s1, addr);
        assert(s2.has_entry(addr));
        assert(s2.mem[addr] == s1.mem[addr]);
        assert(!is_table(s2, root, frame_of(addr)));
    }
    assert forall|frame: int| #[trigger] is_table(s3, root, frame) implies is_table(
        s1,
        root,
        frame,
    ) || !s1.is_frame(frame) by {
        if is_table(s2, root, frame) {
        }
    }
}

/// Hanging a new table into a tree is work on that tree.
pub proof fn lemma_link_grown(s: PoolState, root: int, va: int, level: nat)
    requires
        can_link(s, root, va, level),
    ensures
        grown_from(s, link(s, root, va, level), root),
{
    let arch = s.arch;
    let table = table_at(s, root, va, level).unwrap();
    let idx = vpn_of(arch, va, level);
    let after = link(s, root, va, level);
    lemma_table_is_frame(s, root, va, level);
    lemma_vpn_in_range(arch, va, level);
    lemma_entry_frame(s, table, idx);
    lemma_link_keeps_tree(s, root, va, level);
    lemma_table_is_frame(after, root, 0, (arch.spec_levels() - 1) as nat);
    assert(is_table(s, root, table));
    assert forall|addr: int|
        #![trigger after.mem[addr]]
        s.has_entry(addr) && !is_table(s, root, frame_of(addr)) implies after.mem[addr]
        == s.mem[addr] by {
        assert(s.mem.dom().contains(addr));
    }
    assert forall|frame: int| #[trigger] is_table(after, root, frame) implies is_table(
        s,
        root,
        frame,
    ) || !s.is_frame(frame) by {
        let (other, depth) = choose|other: int, depth: nat|
            depth < arch.spec_levels() && #[trigger] table_at(after, root, other, depth) == Some(
                frame,
            );
        lemma_link_paths(s, root, va, level, other, depth);
        if frame != s.next_frame() {
            assert(table_at(s, root, other, depth) == Some(frame));
        }
    }
}

/// A store into a leaf entry of a tree is work on that tree.
pub proof fn lemma_leaf_store_grown(s: PoolState, root: int, va: int, value: u64)
    requires
        tree_wf(s, root),
        leaf_slot(s, root, va).is_some(),
        value <= s.arch.spec_word_max(),
    ensures
        grown_from(s, s.write(leaf_slot(s, root, va).unwrap(), value), root),
{
    let arch = s.arch;
    let table = table_at(s, root, va, 0).unwrap();
    let after = s.write(leaf_slot(s, root, va).unwrap(), value);
    lemma_table_is_frame(s, root, va, 0);
    lemma_vpn_in_range(arch, va, 0);
    lemma_entry_frame(s, table, vpn_of(arch, va, 0));
    lemma_leaf_store_keeps_tree(s, root, va, value);
    lemma_table_is_frame(after, root, 0, (arch.spec_levels() - 1) as nat);
    assert(is_table(s, root, table));
    assert forall|frame: int| #[trigger] is_table(after, root, frame) implies is_table(
        s,
        root,
        frame,
    ) || !s.is_frame(frame) by {
        let (other, depth) = choose|other: int, depth: nat|
            depth < arch.spec_levels() && #[trigger] table_at(after, root, other, depth) == Some(
                frame,
            );
        assert(table_at(s, root, other, depth) == Some(frame));
    }
}

/// The rest of a walk that makes tables is work on its tree.
pub proof fn lemma_descend_grown(s: PoolState, root: int, va: int, level: nat)
    requires
        tree_wf(s, root),
        level < s.arch.spec_levels(),
        table_at(s, root, va, level).is_some(),
    ensures
        grown_from(s, descend(s, root, va, level).0, root),
    decreases level,
{
    reveal(descend);
    lemma_table_is_frame(s, root, va, level);
    if level == 0 {
    } else if table_at(s, root, va, (level - 1) as nat).is_some() {
        lemma_descend_grown(s, root, va, (level - 1) as nat);
    } else if s.full() {
    } else {
        let linked = link(s, root, va, level);
        lemma_link_keeps_tree(s, root, va, level);
        lemma_link_grown(s, root, va, level);
        lemma_descend_grown(linked, root, va, (level - 1) as nat);
        lemma_grown_twice(s, linked, descend(linked, root, va, (level - 1) as nat).0, root);
    }
}

/// Mapping a range of pages is work on its tree.
pub proof fn lemma_map_pages_grown(
    s: PoolState,
    root: int,
    page: int,
    pa: int,
    last: int,
    flags: u64,
)
    requires
        tree_wf(s, root),
        0 <= page <= last + 4096,
        page % 4096 == 0,
        last % 4096 == 0,
        last <= u64::MAX,
        0 <= pa,
        page <= last ==> pa + (last - page) <= s.arch.spec_word_max(),
        flags <= s.arch.spec_word_max(),
    ensures
        grown_from(s, map_pages(s, root, page, pa, last, flags).0, root),
    decreases last - page + 4096,
{
    reveal(map_pages);
    lemma_table_is_frame(s, root, 0, (s.arch.spec_levels() - 1) as nat);
    if page <= last {
        let (walked, found) = walk_alloc_spec(s, root, page as u64);
        lemma_walk_alloc(s, root, page as u64);
        if page <= s.arch.spec_va_max() {
            lemma_descend_grown(s, root, page, (s.arch.spec_levels() - 1) as nat);
        }
        if let Ok(slot) = found {
            if walked.mem[slot as int] & PTE_VALID != 0 {
            } else {
                let entry = leaf_entry(pa as u64, flags);
                let stored = walked.write(slot as int, entry);
                lemma_leaf_entry_fits(s.arch, pa as u64, flags);
                lemma_leaf_store_keeps_tree(walked, root, page, entry);
                lemma_leaf_store_grown(walked, root, page, entry);
                lemma_grown_twice(s, walked, stored, root);
                lemma_map_pages_grown(stored, root, page + 4096, pa + 4096, last, flags);
                lemma_grown_twice(
                    s,
                    stored,
                    map_pages(stored, root, page + 4096, pa + 4096, last, flags).0,
                    root,
                );
            }
        }
    }
}

/// Work on one tree keeps every tree that is apart from it, and keeps the
/// two apart.
pub proof fn lemma_grown_keeps_other(before: PoolState, after: PoolState, mine: int, other: int)
    requires
        tree_wf(before, mine),
        tree_wf(before, other),
        apart(before, mine, other),
        grown_from(before, after, mine),
    ensures
        keeps_tables(before, after, other),
        tree_wf(after, other),
        apart(after, mine, other),
        forall|va: int| #[trigger] translation(after, other, va) == translation(before, other, va),
{
    assert forall|addr: int|
        #![trigger after.mem[addr]]
        before.has_entry(addr) && is_table(before, other, frame_of(addr)) implies after.mem[addr]
        == before.mem[addr] by {
        assert(!(is_table(before, mine, frame_of(addr)) && is_table(
            before,
            other,
            frame_of(addr),
        )));
    }
    lemma_tree_kept(before, after, other);
    assert forall|frame: int| !(#[trigger] is_table(after, mine, frame) && is_table(
        after,
        other,
        frame,
    )) by {
        if is_table(after, mine, frame) && is_table(after, other, frame) {
            assert(is_table(before, other, frame));
            let (va, level) = choose|va: int, level: nat|
                level < before.arch.spec_levels() && #[trigger] table_at(before, other, va, level)
                    == Some(frame);
            lemma_table_is_frame(before, other, va, level);
            assert(!(is_table(before, mine, frame) && is_table(before, other, frame)));
        }
    }
}

/// `page_map` on one tree, however it ends, keeps every tree that is apart
/// from it: the other tree is well-formed as before and translates every
/// address as before, and the two are still apart.
pub proof fn lemma_page_map_keeps_other(
    s: PoolState,
    mine: int,
    other: int,
    va: u64,
    pa: u64,
    size: u64,
    flags: u64,
)
    requires
        page_map_accepts(s, mine, va, pa, size, flags),
        tree_wf(s, other),
        apart(s, mine, other),
    ensures
        tree_wf(page_map_spec(s, mine, va, pa, size, flags).0, other),
        apart(page_map_spec(s, mine, va, pa, size, flags).0, mine, other),
        forall|addr: int| #[trigger]
            translation(page_map_spec(s, mine, va, pa, size, flags).0, other, addr)
                == translation(s, other, addr),
{
    lemma_range_pages(va, size, va);
    lemma_map_pages_grown(
        s,
        mine,
        spec_page_align_down(va) as int,
        pa as int,
        spec_page_align_down((va + size - 1) as u64) as int,
        flags,
    );
    lemma_grown_keeps_other(s, page_map_spec(s, mine, va, pa, size, flags).0, mine, other);
}

/// A root fresh from the pool is apart from every tree that was there.
pub proof fn lemma_fresh_root_apart(s: PoolState, other: int)
    requires
        tree_wf(s, other),
        !s.full(),
    ensures
        tree_wf(s.grow(), s.next_frame()),
        tree_wf(s.grow(), other),
        apart(s.grow(), s.next_frame(), other),
        forall|va: int| #[trigger] translation(s.grow(), other, va) == translation(s, other, va),
{
    let grown = s.grow();
    let root = s.next_frame();
    lemma_table_is_frame(s, other, 0, (s.arch.spec_levels() - 1) as nat);
    lemma_fresh_root(s);
    lemma_grow_keeps_tree(s, other);
    lemma_tree_kept(s, grown, other);
    assert forall|frame: int| !(#[trigger] is_table(grown, root, frame) && is_table(
        grown,
        other,
        frame,
    )) by {
        if is_table(grown, root, frame) && is_table(grown, other, frame) {
            let (va, level) = choose|va: int, level: nat|
                level < s.arch.spec_levels() && #[trigger] table_at(grown, root, va, level)
                    == Some(frame);
            assert(level + 1 >= s.arch.spec_levels());
            assert(frame == root);
        }
    }
}

} // verus!
