//! The translation tree as mathematics: which table a virtual address
//! reaches at each depth, what it means for the tables under a root to
//! form a tree, and how a single store changes what is reachable.

use vstd::prelude::*;
use vstd::arithmetic::div_mod::{lemma_fundamental_div_mod, lemma_mod_multiples_basic};
use crate::vm::arch::Arch;
use crate::vm::entry::{
    lemma_frame_with_flags,
    lemma_vpn_in_range,
    lemma_vpn_recombine,
    spec_phy_to_pte,
    spec_pte_to_phy,
    vpn_of,
    vpn_sum,
    PTE_VALID,
};
use crate::vm::pool::PoolState;

verus! {

/// Physical address of entry `idx` of the table at `table`.
pub open spec fn entry_addr(arch: Arch, table: int, idx: int) -> int {
    table + idx * arch.spec_entry_size()
}

/// The table that entry `idx` of `table` points to, if the entry is valid.
pub open spec fn next_table(s: PoolState, table: int, idx: int) -> Option<int> {
    let entry = s.mem[entry_addr(s.arch, table, idx)];
    if entry & PTE_VALID != 0 {
        Some(spec_pte_to_phy(entry) as int)
    } else {
        None
    }
}

/// The table of depth `level` that the walk for `va` reaches from `root`,
/// if every entry on the way down to it is valid. The root has depth
/// `levels - 1`, a leaf table depth 0.
pub open spec fn table_at(s: PoolState, root: int, va: int, level: nat) -> Option<int>
    decreases s.arch.spec_levels() - level,
{
    if level + 1 >= s.arch.spec_levels() {
        Some(root)
    } else {
        match table_at(s, root, va, level + 1) {
            Some(table) => next_table(s, table, vpn_of(s.arch, va, level + 1)),
            None => None,
        }
    }
}

/// Address of the leaf entry for `va`, if the walk reaches a leaf table.
pub open spec fn leaf_slot(s: PoolState, root: int, va: int) -> Option<int> {
    match table_at(s, root, va, 0) {
        Some(table) => Some(entry_addr(s.arch, table, vpn_of(s.arch, va, 0))),
        None => None,
    }
}

/// The valid leaf entry that translates `va`, if there is one.
#[verifier::opaque]
pub open spec fn translation(s: PoolState, root: int, va: int) -> Option<u64> {
    if 0 <= va <= s.arch.spec_va_max() {
        match leaf_slot(s, root, va) {
            Some(slot) => if s.mem[slot] & PTE_VALID != 0 {
                Some(s.mem[slot])
            } else {
                None
            },
            None => None,
        }
    } else {
        None
    }
}

/// `a` and `b` select the same entry at every depth above `level`, so
/// their walks take the same way down to depth `level`.
pub open spec fn same_path(arch: Arch, a: int, b: int, level: nat) -> bool
    decreases arch.spec_levels() - level,
{
    level + 1 >= arch.spec_levels() || (vpn_of(arch, a, level + 1) == vpn_of(arch, b, level + 1)
        && same_path(arch, a, b, level + 1))
}

/// The tables under `root` form a tree within the pool: every table that a
/// walk reaches is a frame of the pool, and no frame is reached at two
/// depths or by two ways.
#[verifier::opaque]
pub open spec fn tree_wf(s: PoolState, root: int) -> bool {
    &&& s.wf()
    &&& s.is_frame(root)
    &&& forall|va: int, level: nat|
        level < s.arch.spec_levels() ==> (#[trigger] table_at(s, root, va, level) matches Some(
            table,
        ) ==> s.is_frame(table))
    &&& forall|a: int, la: nat, b: int, lb: nat|
        la < s.arch.spec_levels() && lb < s.arch.spec_levels() && table_at(
            s,
            root,
            a,
            la,
        ).is_some() && #[trigger] table_at(s, root, a, la) == #[trigger] table_at(s, root, b, lb)
            ==> la == lb && same_path(s.arch, a, b, la)
}

/// What a well-formed tree gives for one table.
pub proof fn lemma_table_is_frame(s: PoolState, root: int, va: int, level: nat)
    requires
        tree_wf(s, root),
        level < s.arch.spec_levels(),
        table_at(s, root, va, level).is_some(),
    ensures
        s.wf(),
        s.is_frame(root),
        s.is_frame(table_at(s, root, va, level).unwrap()),
{
    reveal(tree_wf);
}

/// What a well-formed tree gives for two walks that meet.
pub proof fn lemma_tables_meet(s: PoolState, root: int, a: int, la: nat, b: int, lb: nat)
    requires
        tree_wf(s, root),
        la < s.arch.spec_levels(),
        lb < s.arch.spec_levels(),
        table_at(s, root, a, la).is_some(),
        table_at(s, root, a, la) == table_at(s, root, b, lb),
    ensures
        la == lb,
        same_path(s.arch, a, b, la),
{
    reveal(tree_wf);
}

/// Walks that take the same way reach the same table.
pub proof fn lemma_same_path_same_table(s: PoolState, root: int, a: int, b: int, level: nat)
    requires
        same_path(s.arch, a, b, level),
    ensures
        table_at(s, root, a, level) == table_at(s, root, b, level),
    decreases s.arch.spec_levels() - level,
{
    if level + 1 < s.arch.spec_levels() {
        lemma_same_path_same_table(s, root, a, b, level + 1);
    }
}

/// Taking the same way is symmetric and transitive.
pub proof fn lemma_same_path_equiv(arch: Arch, a: int, b: int, c: int, level: nat)
    ensures
        same_path(arch, a, a, level),
        same_path(arch, a, b, level) ==> same_path(arch, b, a, level),
        same_path(arch, a, b, level) && same_path(arch, b, c, level) ==> same_path(
            arch,
            a,
            c,
            level,
        ),
    decreases arch.spec_levels() - level,
{
    if level + 1 < arch.spec_levels() {
        lemma_same_path_equiv(arch, a, b, c, level + 1);
    }
}

/// An entry belongs to one table and has one index in it.
pub proof fn lemma_entry_addr_distinct(arch: Arch, ta: int, ia: int, tb: int, ib: int)
    requires
        ta % 4096 == 0,
        tb % 4096 == 0,
        0 <= ia < arch.spec_entries(),
        0 <= ib < arch.spec_entries(),
        entry_addr(arch, ta, ia) == entry_addr(arch, tb, ib),
    ensures
        ta == tb,
        ia == ib,
{
    match arch {
        Arch::Sv32 => {
            assert(ta / 4096 == (ta + ia * 4) / 4096);
            assert(tb / 4096 == (tb + ib * 4) / 4096);
        },
        Arch::Sv39 => {
            assert(ta / 4096 == (ta + ia * 8) / 4096);
            assert(tb / 4096 == (tb + ib * 8) / 4096);
        },
    }
}

/// A frame of the pool lies whole within the frames handed out.
pub proof fn lemma_frame_within(s: PoolState, table: int)
    requires
        s.wf(),
        s.is_frame(table),
    ensures
        s.base <= table,
        table + 4096 <= s.end(),
        s.end() <= s.base + s.limit * 4096,
        s.end() <= s.arch.spec_word_max() + 1,
{
    let k = (table - s.base) / 4096;
    assert(table - s.base == 4096 * k) by {
        lemma_fundamental_div_mod(table - s.base, 4096);
        lemma_fundamental_div_mod(table, 4096);
        lemma_fundamental_div_mod(s.base, 4096);
    }
    assert(k < s.frames);
    assert(s.frames * 4096 <= s.limit * 4096);
}

/// Every entry of a frame of the pool is an entry of the pool.
pub proof fn lemma_entry_in_pool(s: PoolState, table: int, idx: int)
    requires
        s.wf(),
        s.is_frame(table),
        0 <= idx < s.arch.spec_entries(),
    ensures
        s.has_entry(entry_addr(s.arch, table, idx)),
        s.mem.dom().contains(entry_addr(s.arch, table, idx)),
{
    let slot = entry_addr(s.arch, table, idx);
    let size = s.arch.spec_entry_size() as int;
    lemma_frame_within(s, table);
    assert(table <= slot < table + 4096 && slot == table + idx * size && (size == 4 || size == 8)
        && 4096 == size * s.arch.spec_entries());
    assert(slot % size == 0) by {
        let t = table / 4096;
        lemma_fundamental_div_mod(table, 4096);
        assert(table == 4096 * t);
        assert(slot == size * (s.arch.spec_entries() * t + idx)) by (nonlinear_arith)
            requires
                slot == table + idx * size,
                table == 4096 * t,
                4096 == size * s.arch.spec_entries(),
        ;
        lemma_mod_multiples_basic(s.arch.spec_entries() * t + idx, size);
        assert((s.arch.spec_entries() * t + idx) * size == size * (s.arch.spec_entries() * t
            + idx)) by (nonlinear_arith);
    }
    assert(s.has_entry(slot));
}

/// `after` holds in every entry of `before`, except perhaps the one at
/// `slot`, what `before` holds there. It may have more frames.
pub open spec fn same_but(before: PoolState, after: PoolState, slot: int) -> bool {
    &&& after.arch == before.arch
    &&& forall|a: int|
        #![trigger after.mem[a]]
        before.has_entry(a) && a != slot ==> after.mem[a] == before.mem[a]
}

/// The walk for `other` passes through the entry that the walk for `va`
/// reads at depth `level`.
pub open spec fn through(arch: Arch, va: int, other: int, level: nat) -> bool {
    same_path(arch, va, other, level) && vpn_of(arch, va, level) == vpn_of(arch, other, level)
}

/// A store into the entry that the walk for `va` reads at depth `level`
/// leaves alone what every walk reaches at that depth and above, and what
/// a walk reaches below it unless it passes through that entry.
pub proof fn lemma_store_keeps_other_paths(
    s1: PoolState,
    s2: PoolState,
    root: int,
    va: int,
    level: nat,
    other: int,
    depth: nat,
)
    requires
        tree_wf(s1, root),
        level < s1.arch.spec_levels(),
        depth < s1.arch.spec_levels(),
        table_at(s1, root, va, level).is_some(),
        same_but(
            s1,
            s2,
            entry_addr(
                s1.arch,
                table_at(s1, root, va, level).unwrap(),
                vpn_of(s1.arch, va, level),
            ),
        ),
        depth >= level || !through(s1.arch, va, other, level),
    ensures
        table_at(s2, root, other, depth) == table_at(s1, root, other, depth),
    decreases s1.arch.spec_levels() - depth,
{
    let arch = s1.arch;
    if depth + 1 < arch.spec_levels() {
        lemma_store_keeps_other_paths(s1, s2, root, va, level, other, depth + 1);
        if let Some(parent) = table_at(s1, root, other, depth + 1) {
            let idx = vpn_of(arch, other, depth + 1);
            let table = table_at(s1, root, va, level).unwrap();
            let slot = entry_addr(arch, table, vpn_of(arch, va, level));
            lemma_table_is_frame(s1, root, other, depth + 1);
            lemma_table_is_frame(s1, root, va, level);
            lemma_vpn_in_range(arch, other, depth + 1);
            lemma_vpn_in_range(arch, va, level);
            lemma_entry_in_pool(s1, parent, idx);
            if entry_addr(arch, parent, idx) == slot {
                lemma_entry_addr_distinct(arch, parent, idx, table, vpn_of(arch, va, level));
                lemma_tables_meet(s1, root, va, level, other, depth + 1);
                assert(false);
            }
            assert(s2.mem[entry_addr(arch, parent, idx)] == s1.mem[entry_addr(arch, parent, idx)]);
        }
    }
}

/// Two translatable addresses whose walks take the same way and end in
/// the same leaf entry lie in the same page.
pub proof fn lemma_same_leaf_same_page(arch: Arch, a: int, b: int)
    requires
        0 <= a <= arch.spec_va_max(),
        0 <= b <= arch.spec_va_max(),
        same_path(arch, a, b, 0),
        vpn_of(arch, a, 0) == vpn_of(arch, b, 0),
    ensures
        a / 4096 == b / 4096,
{
    reveal_with_fuel(same_path, 4);
    reveal_with_fuel(vpn_sum, 4);
    lemma_vpn_recombine(arch, a);
    lemma_vpn_recombine(arch, b);
}

/// Addresses in one page take the same way down to the same leaf entry.
pub proof fn lemma_same_page_same_leaf(arch: Arch, a: int, b: int, level: nat)
    requires
        a / 4096 == b / 4096,
    ensures
        same_path(arch, a, b, level),
        vpn_of(arch, a, level) == vpn_of(arch, b, level),
    decreases arch.spec_levels() - level,
{
    if level + 1 < arch.spec_levels() {
        lemma_same_page_same_leaf(arch, a, b, level + 1);
    }
}

/// In a well-formed tree two translatable addresses have the same leaf
/// entry only when they lie in the same page.
pub proof fn lemma_leaf_slots_meet(s: PoolState, root: int, a: int, b: int)
    requires
        tree_wf(s, root),
        0 <= a <= s.arch.spec_va_max(),
        0 <= b <= s.arch.spec_va_max(),
        leaf_slot(s, root, a).is_some(),
        leaf_slot(s, root, a) == leaf_slot(s, root, b),
    ensures
        a / 4096 == b / 4096,
{
    let arch = s.arch;
    lemma_table_is_frame(s, root, a, 0);
    lemma_table_is_frame(s, root, b, 0);
    lemma_vpn_in_range(arch, a, 0);
    lemma_vpn_in_range(arch, b, 0);
    lemma_entry_addr_distinct(
        arch,
        table_at(s, root, a, 0).unwrap(),
        vpn_of(arch, a, 0),
        table_at(s, root, b, 0).unwrap(),
        vpn_of(arch, b, 0),
    );
    lemma_tables_meet(s, root, a, 0, b, 0);
    lemma_same_leaf_same_page(arch, a, b);
}

/// A store into a leaf entry changes no table that any walk reaches, and
/// so keeps the tree well-formed.
pub proof fn lemma_leaf_store_keeps_tree(s: PoolState, root: int, va: int, value: u64)
    requires
        tree_wf(s, root),
        leaf_slot(s, root, va).is_some(),
        value <= s.arch.spec_word_max(),
    ensures
        tree_wf(s.write(leaf_slot(s, root, va).unwrap(), value), root),
        forall|other: int, depth: nat|
            depth < s.arch.spec_levels() ==> #[trigger] table_at(
                s.write(leaf_slot(s, root, va).unwrap(), value),
                root,
                other,
                depth,
            ) == table_at(s, root, other, depth),
{
    let slot = leaf_slot(s, root, va).unwrap();
    let s2 = s.write(slot, value);
    lemma_table_is_frame(s, root, va, 0);
    lemma_vpn_in_range(s.arch, va, 0);
    lemma_entry_in_pool(s, table_at(s, root, va, 0).unwrap(), vpn_of(s.arch, va, 0));
    assert(same_but(s, s2, slot));
    assert forall|other: int, depth: nat| depth < s.arch.spec_levels() implies #[trigger] table_at(
        s2,
        root,
        other,
        depth,
    ) == table_at(s, root, other, depth) by {
        lemma_store_keeps_other_paths(s, s2, root, va, 0, other, depth);
    }
    assert(s2.wf()) by {
        assert forall|a: int| #[trigger] s2.mem.dom().contains(a) <==> s2.has_entry(a) by {
            assert(s2.has_entry(a) == s.has_entry(a));
        }
    }
    assert(tree_wf(s2, root)) by {
        reveal(tree_wf);
        assert forall|a: int, la: nat, b: int, lb: nat|
            la < s2.arch.spec_levels() && lb < s2.arch.spec_levels() && table_at(
                s2,
                root,
                a,
                la,
            ).is_some() && #[trigger] table_at(s2, root, a, la) == #[trigger] table_at(
                s2,
                root,
                b,
                lb,
            ) implies la == lb && same_path(s2.arch, a, b, la) by {
            lemma_tables_meet(s, root, a, la, b, lb);
        }
    }
}

/// After a store into the leaf entry of `va`, every translatable address
/// has the leaf entry that it had, which holds the new value for the
/// addresses in the page of `va` and the old one for all others.
pub proof fn lemma_leaf_store_lookup(s: PoolState, root: int, va: int, value: u64, other: int)
    requires
        tree_wf(s, root),
        0 <= va <= s.arch.spec_va_max(),
        0 <= other <= s.arch.spec_va_max(),
        leaf_slot(s, root, va).is_some(),
        value <= s.arch.spec_word_max(),
    ensures
        leaf_slot(s.write(leaf_slot(s, root, va).unwrap(), value), root, other) == leaf_slot(
            s,
            root,
            other,
        ),
        leaf_slot(s, root, other) matches Some(slot) ==> s.write(
            leaf_slot(s, root, va).unwrap(),
            value,
        ).mem[slot] == (if other / 4096 == va / 4096 {
            value
        } else {
            s.mem[slot]
        }),
        translation(s.write(leaf_slot(s, root, va).unwrap(), value), root, other) == (if other
            / 4096 == va / 4096 {
            if value & PTE_VALID != 0 {
                Some(value)
            } else {
                None
            }
        } else {
            translation(s, root, other)
        }),
{
    reveal(translation);
    lemma_leaf_store_keeps_tree(s, root, va, value);
    if other / 4096 == va / 4096 {
        lemma_same_page_same_leaf(s.arch, va, other, 0);
        lemma_same_path_same_table(s, root, va, other, 0);
    }
    if leaf_slot(s, root, other).is_some() {
        if leaf_slot(s, root, other) == leaf_slot(s, root, va) {
            lemma_leaf_slots_meet(s, root, va, other);
        }
    }
}

/// The entry that points to the table at `frame` and carries no
/// permission, which marks it as a pointer and not a translation.
pub open spec fn link_entry(frame: int) -> u64 {
    spec_phy_to_pte(frame as u64) | PTE_VALID
}

/// The pool after the next frame was handed out and hung, as a new and
/// empty table, into the entry that the walk for `va` reads at `level`.
pub open spec fn link(s: PoolState, root: int, va: int, level: nat) -> PoolState {
    s.grow().write(
        entry_addr(s.arch, table_at(s, root, va, level).unwrap(), vpn_of(s.arch, va, level)),
        link_entry(s.next_frame()),
    )
}

/// The walk for `va` ends at depth `level` for want of a table below, and
/// the pool has a frame left to make one.
pub open spec fn can_link(s: PoolState, root: int, va: int, level: nat) -> bool {
    &&& tree_wf(s, root)
    &&& 1 <= level < s.arch.spec_levels()
    &&& table_at(s, root, va, level).is_some()
    &&& table_at(s, root, va, (level - 1) as nat).is_none()
    &&& !s.full()
}

/// A pointer to a frame of the pool is a valid entry that decodes to the
/// frame and fits an entry of the scheme.
pub proof fn lemma_link_entry(s: PoolState)
    requires
        s.wf(),
        !s.full(),
    ensures
        0 <= s.next_frame() <= s.arch.spec_word_max(),
        s.next_frame() % 4096 == 0,
        link_entry(s.next_frame()) & PTE_VALID != 0,
        spec_pte_to_phy(link_entry(s.next_frame())) == s.next_frame(),
        link_entry(s.next_frame()) <= s.arch.spec_word_max(),
{
    let frame = s.next_frame() as u64;
    lemma_frame_with_flags(frame, PTE_VALID);
    let bits = spec_phy_to_pte(frame);
    assert((bits | 1) & 1 != 0) by (bit_vector);
    assert(frame <= 0xffff_ffff ==> (((frame / 4096) * 1024) as u64 | 1) <= 0xffff_ffff)
        by (bit_vector);
}

/// What every walk reaches after a table was hung in: the new table, one
/// depth down, for the walks that pass through the entry; nothing below
/// it, as the new table is empty; and what it reached before for every
/// other walk and depth.
pub proof fn lemma_link_paths(
    s: PoolState,
    root: int,
    va: int,
    level: nat,
    other: int,
    depth: nat,
)
    requires
        can_link(s, root, va, level),
        depth < s.arch.spec_levels(),
    ensures
        through(s.arch, va, other, level) && depth < level ==> table_at(s, root, other, depth)
            == None::<int> && table_at(link(s, root, va, level), root, other, depth) == (if depth
            + 1 == level {
            Some(s.next_frame())
        } else {
            None
        }),
        !(through(s.arch, va, other, level) && depth < level) ==> table_at(
            link(s, root, va, level),
            root,
            other,
            depth,
        ) == table_at(s, root, other, depth),
    decreases s.arch.spec_levels() - depth,
{
    let arch = s.arch;
    let table = table_at(s, root, va, level).unwrap();
    let idx = vpn_of(arch, va, level);
    let slot = entry_addr(arch, table, idx);
    let s2 = link(s, root, va, level);
    lemma_table_is_frame(s, root, va, level);
    lemma_vpn_in_range(arch, va, level);
    lemma_entry_in_pool(s, table, idx);
    lemma_link_entry(s);
    assert(same_but(s, s2, slot));
    if through(arch, va, other, level) && depth < level {
        lemma_same_path_same_table(s, root, va, other, level);
        lemma_store_keeps_other_paths(s, s2, root, va, level, other, level);
        if depth + 1 == level {
            assert(s2.mem[slot] == link_entry(s.next_frame()));
        } else {
            lemma_link_paths(s, root, va, level, other, depth + 1);
            if depth + 2 == level {
                let fresh = entry_addr(arch, s.next_frame(), vpn_of(arch, other, depth + 1));
                lemma_vpn_in_range(arch, other, depth + 1);
                assert(fresh >= s.end());
                assert(!s.has_entry(fresh));
                assert(s.grow().has_entry(fresh)) by {
                    lemma_entry_in_pool(s.grow(), s.next_frame(), vpn_of(arch, other, depth + 1));
                }
                assert(s2.mem[fresh] == 0);
                assert(0u64 & PTE_VALID == 0) by (bit_vector);
            }
        }
    } else {
        lemma_store_keeps_other_paths(s, s2, root, va, level, other, depth);
    }
}

/// Hanging a new table in keeps the pool well-formed.
proof fn lemma_link_keeps_pool(s: PoolState, root: int, va: int, level: nat)
    requires
        can_link(s, root, va, level),
    ensures
        link(s, root, va, level).wf(),
        link(s, root, va, level).frames == s.frames + 1,
        link(s, root, va, level).arch == s.arch,
        link(s, root, va, level).limit == s.limit,
        link(s, root, va, level).base == s.base,
        forall|a: int| s.is_frame(a) ==> link(s, root, va, level).is_frame(a),
        link(s, root, va, level).is_frame(s.next_frame()),
        !s.is_frame(s.next_frame()),
{
    let arch = s.arch;
    let table = table_at(s, root, va, level).unwrap();
    let idx = vpn_of(arch, va, level);
    let slot = entry_addr(arch, table, idx);
    let s2 = link(s, root, va, level);
    lemma_table_is_frame(s, root, va, level);
    lemma_vpn_in_range(arch, va, level);
    lemma_entry_in_pool(s, table, idx);
    lemma_link_entry(s);
    assert(s2.end() == s.end() + 4096);
    assert forall|a: int| #[trigger] s2.mem.dom().contains(a) <==> s2.has_entry(a) by {
        assert(s.has_entry(slot));
    }
    assert forall|a: int| #![trigger s2.mem[a]] s2.has_entry(a) implies s2.mem[a]
        <= s2.arch.spec_word_max() by {
        if a != slot && s.mem.dom().contains(a) {
            assert(s.has_entry(a));
            assert(s2.mem[a] == s.mem[a]);
        }
    }
}

/// Hanging a new table in keeps the tree well-formed, takes one frame,
/// lets the walk for `va` go one depth further, and changes neither a
/// table that a walk reached before nor any translation.
pub proof fn lemma_link_keeps_tree(s: PoolState, root: int, va: int, level: nat)
    requires
        can_link(s, root, va, level),
    ensures
        tree_wf(link(s, root, va, level), root),
        link(s, root, va, level).frames == s.frames + 1,
        link(s, root, va, level).arch == s.arch,
        link(s, root, va, level).limit == s.limit,
        link(s, root, va, level).base == s.base,
        table_at(link(s, root, va, level), root, va, (level - 1) as nat) == Some(s.next_frame()),
        forall|other: int, depth: nat|
            depth < s.arch.spec_levels() && table_at(s, root, other, depth).is_some()
                ==> #[trigger] table_at(link(s, root, va, level), root, other, depth) == table_at(
                s,
                root,
                other,
                depth,
            ),
{
    let arch = s.arch;
    let s2 = link(s, root, va, level);
    lemma_link_keeps_pool(s, root, va, level);
    lemma_same_path_equiv(arch, va, va, va, level);
    lemma_link_paths(s, root, va, level, va, (level - 1) as nat);
    assert forall|other: int, depth: nat|
        depth < arch.spec_levels() && table_at(s, root, other, depth).is_some()
            implies #[trigger] table_at(s2, root, other, depth) == table_at(
        s,
        root,
        other,
        depth,
    ) by {
        lemma_link_paths(s, root, va, level, other, depth);
    }
    assert(tree_wf(s2, root)) by {
        reveal(tree_wf);
        assert forall|other: int, depth: nat| depth < s2.arch.spec_levels() implies (
        #[trigger] table_at(s2, root, other, depth) matches Some(table) ==> s2.is_frame(table)) by {
            lemma_link_paths(s, root, va, level, other, depth);
        }
        assert forall|a: int, la: nat, b: int, lb: nat|
            la < s2.arch.spec_levels() && lb < s2.arch.spec_levels() && table_at(
                s2,
                root,
                a,
                la,
            ).is_some() && #[trigger] table_at(s2, root, a, la) == #[trigger] table_at(
                s2,
                root,
                b,
                lb,
            ) implies la == lb && same_path(s2.arch, a, b, la) by {
            lemma_link_paths(s, root, va, level, a, la);
            lemma_link_paths(s, root, va, level, b, lb);
            if table_at(s2, root, a, la) == Some(s.next_frame()) {
                assert(through(arch, va, a, level) && la + 1 == level);
                assert(through(arch, va, b, level) && lb + 1 == level);
                lemma_same_path_equiv(arch, va, a, b, level);
                lemma_same_path_equiv(arch, a, va, b, level);
            } else {
                lemma_tables_meet(s, root, a, la, b, lb);
            }
        }
    }
}

/// Hanging a new table in changes no leaf entry that a walk reached
/// before, and no translation.
pub proof fn lemma_link_keeps_leaves(s: PoolState, root: int, va: int, level: nat, other: int)
    requires
        can_link(s, root, va, level),
    ensures
        leaf_slot(s, root, other) matches Some(slot) ==> leaf_slot(
            link(s, root, va, level),
            root,
            other,
        ) == Some(slot) && link(s, root, va, level).mem[slot] == s.mem[slot],
        translation(link(s, root, va, level), root, other) == translation(s, root, other),
{
    reveal(translation);
    let arch = s.arch;
    let table = table_at(s, root, va, level).unwrap();
    let idx = vpn_of(arch, va, level);
    let slot = entry_addr(arch, table, idx);
    let s2 = link(s, root, va, level);
    lemma_link_keeps_pool(s, root, va, level);
    lemma_link_paths(s, root, va, level, other, 0);
    lemma_table_is_frame(s, root, va, level);
    lemma_vpn_in_range(arch, va, level);
    lemma_vpn_in_range(arch, other, 0);
    lemma_entry_in_pool(s, table, idx);
    if let Some(leaf_table) = table_at(s, root, other, 0) {
        let leaf = entry_addr(arch, leaf_table, vpn_of(arch, other, 0));
        lemma_table_is_frame(s, root, other, 0);
        lemma_entry_in_pool(s, leaf_table, vpn_of(arch, other, 0));
        if leaf == slot {
            lemma_entry_addr_distinct(arch, leaf_table, vpn_of(arch, other, 0), table, idx);
            lemma_tables_meet(s, root, va, level, other, 0);
        }
        assert(s2.mem[leaf] == s.mem[leaf]);
    } else {
        if table_at(s2, root, other, 0).is_some() {
            let fresh = entry_addr(arch, s.next_frame(), vpn_of(arch, other, 0));
            assert(fresh >= s.end());
            assert(!s.has_entry(fresh));
            assert(s.grow().has_entry(fresh)) by {
                lemma_entry_in_pool(s.grow(), s.next_frame(), vpn_of(arch, other, 0));
            }
            assert(s2.mem[fresh] == 0);
            assert(0u64 & PTE_VALID == 0) by (bit_vector);
        }
    }
}

/// A frame fresh from the pool is the root of a well-formed tree in which
/// no walk gets below the root.
pub proof fn lemma_fresh_root(s: PoolState)
    requires
        s.wf(),
        !s.full(),
    ensures
        tree_wf(s.grow(), s.next_frame()),
        forall|va: int, level: nat|
            level + 1 < s.arch.spec_levels() ==> #[trigger] table_at(
                s.grow(),
                s.next_frame(),
                va,
                level,
            ) == None::<int>,
        forall|va: int| #[trigger] translation(s.grow(), s.next_frame(), va) == None::<u64>,
        s.grow().wf(),
{
    reveal(translation);
    let g = s.grow();
    let root = s.next_frame();
    assert(g.is_frame(root));
    assert forall|va: int, level: nat| level + 1 < s.arch.spec_levels() implies #[trigger] table_at(
        g,
        root,
        va,
        level,
    ) == None::<int> by {
        lemma_fresh_root_paths(s, va, level);
    }
    assert(tree_wf(g, root)) by {
        reveal(tree_wf);
        assert forall|a: int, la: nat, b: int, lb: nat|
            la < g.arch.spec_levels() && lb < g.arch.spec_levels() && table_at(
                g,
                root,
                a,
                la,
            ).is_some() && #[trigger] table_at(g, root, a, la) == #[trigger] table_at(
                g,
                root,
                b,
                lb,
            ) implies la == lb && same_path(g.arch, a, b, la) by {
            if la + 1 < g.arch.spec_levels() {
                lemma_fresh_root_paths(s, a, la);
            }
            if lb + 1 < g.arch.spec_levels() {
                lemma_fresh_root_paths(s, b, lb);
            }
        }
    }
}

/// Below a root that is fresh from the pool there is no table.
proof fn lemma_fresh_root_paths(s: PoolState, va: int, level: nat)
    requires
        s.wf(),
        !s.full(),
        level + 1 < s.arch.spec_levels(),
    ensures
        s.grow().wf(),
        table_at(s.grow(), s.next_frame(), va, level) == None::<int>,
    decreases s.arch.spec_levels() - level,
{
    let g = s.grow();
    let root = s.next_frame();
    assert(g.wf()) by {
        assert forall|a: int| #[trigger] g.mem.dom().contains(a) <==> g.has_entry(a) by {}
    }
    if level + 2 < s.arch.spec_levels() {
        lemma_fresh_root_paths(s, va, level + 1);
    } else {
        reveal_with_fuel(table_at, 2);
        let idx = vpn_of(s.arch, va, level + 1);
        lemma_vpn_in_range(s.arch, va, level + 1);
        assert(g.is_frame(root));
        lemma_entry_in_pool(g, root, idx);
        assert(!s.has_entry(entry_addr(s.arch, root, idx)));
        assert(g.mem[entry_addr(s.arch, root, idx)] == 0);
        assert(0u64 & PTE_VALID == 0) by (bit_vector);
    }
}

/// Addresses in one page have one leaf entry and one translation.
pub proof fn lemma_same_page_translation(s: PoolState, root: int, a: int, b: int)
    requires
        a / 4096 == b / 4096,
        0 <= a <= s.arch.spec_va_max(),
        0 <= b <= s.arch.spec_va_max(),
    ensures
        leaf_slot(s, root, a) == leaf_slot(s, root, b),
        translation(s, root, a) == translation(s, root, b),
{
    reveal(translation);
    lemma_same_page_same_leaf(s.arch, a, b, 0);
    lemma_same_path_same_table(s, root, a, b, 0);
}

/// An address has a translation exactly when it is translatable, its walk
/// reaches a leaf entry, and that entry is valid; the translation is that
/// entry.
pub proof fn lemma_translation_is_leaf(s: PoolState, root: int, va: int)
    ensures
        translation(s, root, va).is_some() <==> 0 <= va <= s.arch.spec_va_max() && leaf_slot(
            s,
            root,
            va,
        ).is_some() && s.mem[leaf_slot(s, root, va).unwrap()] & PTE_VALID != 0,
        translation(s, root, va) matches Some(entry) ==> entry == s.mem[leaf_slot(
            s,
            root,
            va,
        ).unwrap()],
{
    reveal(translation);
}

} // verus!
