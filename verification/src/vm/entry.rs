//! Page-table entries and addresses: the packed frame field, the flag
//! byte, the per-level index of a virtual address and the value of the
//! translation-root register.

use vstd::prelude::*;
use vstd::arithmetic::div_mod::{
    lemma_basic_div,
    lemma_div_denominator,
    lemma_fundamental_div_mod,
    lemma_mod_bound,
    lemma_mod_pos_bound,
};
use vstd::arithmetic::power::{lemma_pow0, lemma_pow_increases, lemma_pow_positive, pow};
use crate::vm::arch::{Arch, PAGE_SIZE};

verus! {

/// The entry holds a translation or points to the next table.
pub const PTE_VALID: u64 = 0x01;

/// The page may be read.
pub const PTE_READ: u64 = 0x02;

/// The page may be written.
pub const PTE_WRITE: u64 = 0x04;

/// Instructions may be fetched from the page.
pub const PTE_EXEC: u64 = 0x08;

/// The page is accessible in user mode.
pub const PTE_USER: u64 = 0x10;

/// The mapping exists in every address space.
pub const PTE_GLOBAL: u64 = 0x20;

/// The page has been accessed since the bit was last cleared.
pub const PTE_ACCESSED: u64 = 0x40;

/// The page has been written since the bit was last cleared.
pub const PTE_DIRTY: u64 = 0x80;

/// Mask of the ten low bits of an entry, which lie below the frame field:
/// the eight flags and two bits left to software.
pub const PTE_FLAG_MASK: u64 = 0x3ff;

/// Whether any bit of `flag` is set in `pte`.
pub open spec fn spec_pte_get_flag(pte: u64, flag: u64) -> bool {
    pte & flag != 0
}

/// Physical address that the frame field of `pte` stands for: the field
/// times the page size, cut to 64 bits.
pub open spec fn spec_pte_to_phy(pte: u64) -> u64 {
    (((pte / 1024) * 4096) % 0x1_0000_0000_0000_0000) as u64
}

/// Entry bits that hold the frame of `addr` and no flag.
pub open spec fn spec_phy_to_pte(addr: u64) -> u64 {
    ((addr / 4096) * 1024) as u64
}

/// Value of the translation-root register that selects the table at `addr`.
pub open spec fn spec_phy_to_satp(arch: Arch, addr: u64) -> u64 {
    arch.spec_root_tag() | (addr / 4096)
}

/// `addr` rounded down to a page boundary.
pub open spec fn spec_page_align_down(addr: u64) -> u64 {
    (addr - addr % 4096) as u64
}

/// Index into the table of depth `level` that `addr` selects; level 0 is
/// the leaf table.
pub open spec fn vpn_of(arch: Arch, addr: int, level: nat) -> int {
    (addr / 4096 / pow(arch.spec_entries() as int, level)) % (arch.spec_entries() as int)
}

/// The indices of the `n` lowest levels, each weighted by its place.
pub open spec fn vpn_sum(arch: Arch, addr: int, n: nat) -> int
    decreases n,
{
    if n == 0 {
        0
    } else {
        vpn_sum(arch, addr, (n - 1) as nat) + vpn_of(arch, addr, (n - 1) as nat) * pow(
            arch.spec_entries() as int,
            (n - 1) as nat,
        )
    }
}

/// Flag bits of a user page with the given permissions.
pub open spec fn spec_user_process_flags(r: bool, w: bool, e: bool) -> u64 {
    (PTE_USER + (if r { PTE_READ } else { 0 }) + (if w { PTE_WRITE } else { 0 }) + (if e {
        PTE_EXEC
    } else {
        0
    })) as u64
}

#[verifier::when_used_as_spec(spec_pte_get_flag)]
pub fn pte_get_flag(pte: u64, flag: u64) -> (set: bool)
    ensures
        set == spec_pte_get_flag(pte, flag),
{
    pte & flag != 0
}

/// `pte` with the bits of `flag` set as well.
pub fn pte_set_flag(pte: u64, flag: u64) -> (out: u64)
    ensures
        out == pte | flag,
{
    pte | flag
}

/// Decodes the frame field of an entry. Total: an entry whose field is too
/// large for a 64-bit address gives the product cut to 64 bits, so read
/// the result only of an entry that is valid.
#[verifier::when_used_as_spec(spec_pte_to_phy)]
pub fn pte_to_phy(pte: u64) -> (addr: u64)
    ensures
        addr == spec_pte_to_phy(pte),
        addr % 4096 == 0,
        pte < 0x4000_0000_0000_0000 ==> addr == (pte / 1024) * 4096,
{
    let addr = (pte >> 10) << 12;
    assert(addr == (((pte / 1024) * 4096) % 0x1_0000_0000_0000_0000) as u64 && addr % 4096 == 0
        && (pte < 0x4000_0000_0000_0000 ==> addr == (pte / 1024) * 4096)) by (bit_vector)
        requires
            addr == (pte >> 10) << 12,
    ;
    addr
}

/// Packs the frame of `addr` into the frame field. The offset of `addr`
/// within its page is dropped, so only a page-aligned address is got back
/// by `pte_to_phy`.
#[verifier::when_used_as_spec(spec_phy_to_pte)]
pub fn phy_to_pte(addr: u64) -> (pte: u64)
    ensures
        pte == spec_phy_to_pte(addr),
        pte & PTE_FLAG_MASK == 0,
        spec_pte_to_phy(pte) == addr - addr % 4096,
{
    let pte = (addr / PAGE_SIZE) << 10;
    assert(pte == ((addr / 4096) * 1024) as u64 && pte & 0x3ff == 0) by (bit_vector)
        requires
            pte == (addr / 4096) << 10,
    ;
    pte
}

#[verifier::when_used_as_spec(spec_phy_to_satp)]
pub fn phy_to_satp(arch: Arch, addr: u64) -> (satp: u64)
    ensures
        satp == spec_phy_to_satp(arch, addr),
        arch == Arch::Sv39 ==> satp >> 60 == 0b1000 && satp & 0x0fff_ffff_ffff_ffff == addr
            / 4096,
        arch == Arch::Sv32 && addr <= 0xffff_ffff ==> satp >> 31 == 1 && satp & 0x7fff_ffff
            == addr / 4096,
{
    let frame = addr / PAGE_SIZE;
    let satp = arch.root_tag() | frame;
    assert(frame < 0x10_0000_0000_0000 ==> (0x8000_0000_0000_0000u64 | frame) >> 60 == 0b1000 && (
    0x8000_0000_0000_0000u64 | frame) & 0x0fff_ffff_ffff_ffff == frame) by (bit_vector);
    assert(frame < 0x10_0000 ==> (0x8000_0000u64 | frame) >> 31 == 1 && (0x8000_0000u64 | frame)
        & 0x7fff_ffff == frame) by (bit_vector);
    satp
}

#[verifier::when_used_as_spec(spec_page_align_down)]
pub fn page_align_down(addr: u64) -> (page: u64)
    ensures
        page == spec_page_align_down(addr),
        page % 4096 == 0,
        page <= addr < page + 4096,
{
    let page = addr & !(PAGE_SIZE - 1);
    assert(page == (addr - addr % 4096) as u64) by (bit_vector)
        requires
            page == addr & !4095u64,
    ;
    page
}

/// Index of `addr` at the given depth. Total: above the root of either
/// scheme every index is that of address zero.
pub fn vpn(arch: Arch, addr: u64, level: u32) -> (idx: u64)
    ensures
        idx == vpn_of(arch, addr as int, level as nat),
        idx < arch.spec_entries(),
{
    let n = arch.entries();
    let mut rest = addr / PAGE_SIZE;
    let mut below: u32 = 0;
    proof {
        lemma_pow0(n as int);
    }
    while below < level && rest > 0
        invariant
            n == arch.spec_entries(),
            below <= level,
            rest == (addr / 4096) as int / pow(n as int, below as nat),
        decreases level - below,
    {
        proof {
            lemma_pow_positive(n as int, below as nat);
            lemma_div_denominator((addr / 4096) as int, pow(n as int, below as nat), n as int);
            reveal_with_fuel(pow, 2);
            assert(pow(n as int, (below + 1) as nat) == n * pow(n as int, below as nat));
            assert(pow(n as int, below as nat) * n == n * pow(n as int, below as nat))
                by (nonlinear_arith);
        }
        rest = rest / n;
        below = below + 1;
    }
    proof {
        lemma_vpn_past_top(addr as int / 4096, n as int, below as nat, level as nat);
    }
    rest % n
}

/// Helper for making flags for `page_map` for unprivileged processes.
#[verifier::when_used_as_spec(spec_user_process_flags)]
pub fn user_process_flags(r: bool, w: bool, e: bool) -> (flags: u64)
    ensures
        flags == spec_user_process_flags(r, w, e),
        flags & PTE_USER != 0,
        (flags & PTE_READ != 0) == r,
        (flags & PTE_WRITE != 0) == w,
        (flags & PTE_EXEC != 0) == e,
        flags & !(PTE_USER | PTE_READ | PTE_WRITE | PTE_EXEC) == 0,
{
    let fr: u64 = if r { PTE_READ } else { 0 };
    let fw: u64 = if w { PTE_WRITE } else { 0 };
    let fe: u64 = if e { PTE_EXEC } else { 0 };
    let flags = PTE_USER | fr | fw | fe;
    assert((fr == 0 || fr == 2) && (fw == 0 || fw == 4) && (fe == 0 || fe == 8) ==> {
        let f = 0x10u64 | fr | fw | fe;
        &&& f == 0x10 + fr + fw + fe
        &&& f & 0x10 != 0
        &&& (f & 0x02 != 0) == (fr == 2)
        &&& (f & 0x04 != 0) == (fw == 4)
        &&& (f & 0x08 != 0) == (fe == 8)
        &&& f & !(0x10u64 | 0x02 | 0x04 | 0x08) == 0
    }) by (bit_vector);
    flags
}

/// Packing a page-aligned address into the frame field and decoding that
/// field gives the address back.
pub proof fn lemma_frame_round_trip(addr: u64)
    requires
        addr % 4096 == 0,
    ensures
        spec_pte_to_phy(spec_phy_to_pte(addr)) == addr,
{
}

/// The frame field survives whatever is set in the ten bits below it, and
/// those bits read back as they were set.
pub proof fn lemma_frame_with_flags(addr: u64, flags: u64)
    requires
        flags <= PTE_FLAG_MASK,
    ensures
        spec_pte_to_phy(spec_phy_to_pte(addr) | flags) == addr - addr % 4096,
        (spec_phy_to_pte(addr) | flags) & PTE_FLAG_MASK == flags,
{
    let frame = addr / 4096;
    let pte = spec_phy_to_pte(addr);
    assert(pte == frame << 10 && frame < 0x10_0000_0000_0000) by (bit_vector)
        requires
            frame == addr / 4096,
            pte == ((addr / 4096) * 1024) as u64,
    ;
    assert(flags <= 0x3ff && frame < 0x10_0000_0000_0000 ==> ((frame << 10) | flags) / 1024
        == frame && ((frame << 10) | flags) & 0x3ff == flags) by (bit_vector);
}

/// Every index lies within a table.
pub proof fn lemma_vpn_in_range(arch: Arch, addr: int, level: nat)
    ensures
        0 <= vpn_of(arch, addr, level) < arch.spec_entries(),
{
    let entries = arch.spec_entries() as int;
    lemma_mod_bound(addr / 4096 / pow(entries, level), entries);
}

/// The indices of a translatable address, each weighted by its place, add
/// up to the number of its page: recombined they give the address rounded
/// down to a page boundary.
pub proof fn lemma_vpn_recombine(arch: Arch, addr: int)
    requires
        0 <= addr <= arch.spec_va_max(),
    ensures
        vpn_sum(arch, addr, arch.spec_levels() as nat) == addr / 4096,
        vpn_sum(arch, addr, arch.spec_levels() as nat) * 4096 == addr - addr % 4096,
{
    reveal_with_fuel(vpn_sum, 4);
    lemma_vpn_levels(arch, addr);
    lemma_place_values(arch);
    let n = arch.spec_entries() as int;
    let i0 = vpn_of(arch, addr, 0);
    let i1 = vpn_of(arch, addr, 1);
    let i2 = vpn_of(arch, addr, 2);
    assert(i0 * pow(n, 0) == i0);
    assert(i1 * pow(n, 1) == i1 * n);
    assert(i2 * pow(n, 2) == i2 * (n * n));
    assert(vpn_sum(arch, addr, 0) == 0);
    assert(vpn_sum(arch, addr, 1) == i0);
    assert(vpn_sum(arch, addr, 2) == i0 + i1 * n);
    assert(vpn_sum(arch, addr, 3) == i0 + i1 * n + i2 * (n * n));
    let page = addr / 4096;
    match arch {
        Arch::Sv32 => {
            assert(page < 1024 * 1024);
            assert(page == page % 1024 + (page / 1024) * 1024);
            assert(i0 == page % 1024);
            assert(i1 == (page / 1024) % 1024);
            assert(i1 * n == i1 * 1024);
            assert(i1 == page / 1024);
        },
        Arch::Sv39 => {
            assert(page < 512 * 512 * 512);
            let upper = page / 512;
            assert(upper / 512 == page / 262144) by {
                lemma_div_denominator(page, 512, 512);
            }
            assert(page == page % 512 + upper * 512);
            assert(upper == upper % 512 + (upper / 512) * 512);
            assert(i0 == page % 512);
            assert(i1 == upper % 512);
            assert(i2 == upper / 512);
            assert(i1 * n == i1 * 512);
            assert(i2 * (n * n) == i2 * 262144);
        },
    }
}

/// The weight of each level that either scheme has.
pub proof fn lemma_place_values(arch: Arch)
    ensures
        pow(arch.spec_entries() as int, 0) == 1,
        pow(arch.spec_entries() as int, 1) == arch.spec_entries(),
        pow(arch.spec_entries() as int, 2) == arch.spec_entries() * arch.spec_entries(),
{
    reveal_with_fuel(pow, 3);
}

/// The index at each level that either scheme has, without powers.
pub proof fn lemma_vpn_levels(arch: Arch, addr: int)
    ensures
        vpn_of(arch, addr, 0) == (addr / 4096) % (arch.spec_entries() as int),
        vpn_of(arch, addr, 1) == (addr / 4096 / (arch.spec_entries() as int)) % (
        arch.spec_entries() as int),
        vpn_of(arch, addr, 2) == (addr / 4096 / (arch.spec_entries() * arch.spec_entries())) % (
        arch.spec_entries() as int),
{
    lemma_place_values(arch);
}

/// Once the quotient by a power vanishes, so does that by every higher one.
proof fn lemma_vpn_past_top(x: int, n: int, below: nat, level: nat)
    requires
        0 <= x,
        1 < n,
        below <= level,
        below < level ==> x / pow(n, below) == 0,
    ensures
        x / pow(n, level) == x / pow(n, below),
{
    if below < level {
        lemma_pow_positive(n, below);
        lemma_pow_positive(n, level);
        lemma_pow_increases(n as nat, below, level);
        lemma_fundamental_div_mod(x, pow(n, below));
        lemma_mod_pos_bound(x, pow(n, below));
        assert(x < pow(n, below));
        lemma_basic_div(x, pow(n, level));
    }
}

} // verus!
