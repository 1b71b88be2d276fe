use riscv_kernel::vm::arch::Arch;
use riscv_kernel::vm::entry::{
    page_align_down, phy_to_pte, phy_to_satp, pte_get_flag, pte_set_flag, pte_to_phy,
    user_process_flags, vpn, PTE_EXEC, PTE_READ, PTE_USER, PTE_VALID, PTE_WRITE,
};

#[test]
fn frame_field_round_trips_aligned_addresses() {
    for addr in [0u64, 0x1000, 0x8000_0000, 0x8020_3000, 0xffff_ffff_ffff_f000] {
        assert_eq!(pte_to_phy(phy_to_pte(addr)), addr);
    }
}

#[test]
fn frame_field_drops_the_page_offset() {
    assert_eq!(phy_to_pte(0x8000_0123), 0x2000_0000);
    assert_eq!(pte_to_phy(phy_to_pte(0x8000_0123)), 0x8000_0000);
}

#[test]
fn pte_to_phy_ignores_the_flag_bits() {
    assert_eq!(pte_to_phy(0x2000_0000 | 0x3ff), 0x8000_0000);
    assert_eq!(pte_to_phy(0x3ff), 0);
}

#[test]
fn pte_to_phy_of_an_oversized_field_is_cut_to_64_bits() {
    assert_eq!(pte_to_phy(u64::MAX), 0xffff_ffff_ffff_f000);
    assert_eq!(pte_to_phy(1 << 62), 0);
}

#[test]
fn satp_of_sv39_has_mode_eight_and_the_frame_number() {
    let satp = phy_to_satp(Arch::Sv39, 0x8020_3000);
    assert_eq!(satp >> 60, 0b1000);
    assert_eq!(satp & 0x0fff_ffff_ffff_ffff, 0x8020_3000 / 4096);
    assert_eq!(satp, 0x8000_0000_0008_0203);
}

#[test]
fn satp_of_sv32_has_bit_31_and_the_frame_number() {
    let satp = phy_to_satp(Arch::Sv32, 0x8020_3000);
    assert_eq!(satp, 0x8008_0203);
}

#[test]
fn vpn_splits_an_sv39_address() {
    // 0x8020_3000: page number 0x80203 = 2 * 512 * 512 + 1 * 512 + 3
    let va = 0x8020_3abc;
    assert_eq!(vpn(Arch::Sv39, va, 0), 3);
    assert_eq!(vpn(Arch::Sv39, va, 1), 1);
    assert_eq!(vpn(Arch::Sv39, va, 2), 2);
    assert_eq!(vpn(Arch::Sv39, va, 3), 0);
}

#[test]
fn vpn_splits_an_sv32_address() {
    let va = 0x8020_3abc;
    assert_eq!(vpn(Arch::Sv32, va, 0), 0x203);
    assert_eq!(vpn(Arch::Sv32, va, 1), 0x200);
    assert_eq!(vpn(Arch::Sv32, va, 2), 0);
}

#[test]
fn vpn_is_total_in_the_level() {
    assert_eq!(vpn(Arch::Sv39, u64::MAX, 5), 0x7f);
    assert_eq!(vpn(Arch::Sv39, u64::MAX, 6), 0);
    assert_eq!(vpn(Arch::Sv39, u64::MAX, u32::MAX), 0);
    assert_eq!(vpn(Arch::Sv32, u64::MAX, 1_000_000), 0);
}

#[test]
fn vpn_indices_recombine_to_the_page_number() {
    for va in [0u64, 0xfff, 0x1000, 0x8020_3abc, 0x7f_ffff_ffff] {
        let mut sum = 0u64;
        let mut place = 1u64;
        for level in 0..Arch::Sv39.levels() {
            let idx = vpn(Arch::Sv39, va, level);
            assert!(idx < Arch::Sv39.entries());
            sum += idx * place;
            place *= Arch::Sv39.entries();
        }
        assert_eq!(sum, va / 4096);
        assert_eq!(sum * 4096, page_align_down(va));
    }
    for va in [0u64, 0xfff, 0x8020_3abc, 0xffff_ffff] {
        let mut sum = 0u64;
        let mut place = 1u64;
        for level in 0..Arch::Sv32.levels() {
            let idx = vpn(Arch::Sv32, va, level);
            assert!(idx < Arch::Sv32.entries());
            sum += idx * place;
            place *= Arch::Sv32.entries();
        }
        assert_eq!(sum, va / 4096);
    }
}

#[test]
fn page_align_down_rounds_to_the_page() {
    assert_eq!(page_align_down(0), 0);
    assert_eq!(page_align_down(0xfff), 0);
    assert_eq!(page_align_down(0x1000), 0x1000);
    assert_eq!(page_align_down(0x8020_3abc), 0x8020_3000);
    assert_eq!(page_align_down(u64::MAX), 0xffff_ffff_ffff_f000);
}

#[test]
fn user_flags_carry_user_and_what_was_asked() {
    assert_eq!(user_process_flags(false, false, false), PTE_USER);
    assert_eq!(user_process_flags(true, false, false), PTE_USER | PTE_READ);
    assert_eq!(user_process_flags(false, true, false), PTE_USER | PTE_WRITE);
    assert_eq!(user_process_flags(false, false, true), PTE_USER | PTE_EXEC);
    assert_eq!(user_process_flags(true, true, true), 0x1e);
}

#[test]
fn flags_are_set_and_read() {
    let pte = pte_set_flag(phy_to_pte(0x8000_0000), PTE_VALID | PTE_READ);
    assert_eq!(pte, 0x2000_0003);
    assert!(pte_get_flag(pte, PTE_VALID));
    assert!(pte_get_flag(pte, PTE_READ));
    assert!(!pte_get_flag(pte, PTE_WRITE));
    assert!(!pte_get_flag(0, PTE_VALID));
}

#[test]
fn geometry_of_the_two_schemes() {
    assert_eq!(Arch::Sv32.levels(), 2);
    assert_eq!(Arch::Sv39.levels(), 3);
    assert_eq!(Arch::Sv32.entries() * Arch::Sv32.entry_size(), 4096);
    assert_eq!(Arch::Sv39.entries() * Arch::Sv39.entry_size(), 4096);
    assert_eq!(Arch::Sv32.va_max(), (1u64 << 32) - 1);
    assert_eq!(Arch::Sv39.va_max(), (1u64 << 39) - 1);
    assert_eq!(Arch::Sv32.root_tag(), 1 << 31);
    assert_eq!(Arch::Sv39.root_tag(), 8 << 60);
}
