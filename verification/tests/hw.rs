use riscv_kernel::device::clint::{mtime_addr, timer_store, RegisterStore};
use riscv_kernel::hw::riscv::{MIE_MTIE, MSTATUS_MIE, MSTATUS_MPP_MASK, MSTATUS_MPP_S};
use riscv_kernel::hw::{start, timerinit, INTERVAL};
use riscv_kernel::trap::{is_interrupt, m_handler, TrapAction};

#[test]
fn timerinit_enables_the_machine_timer() {
    let setup = timerinit(0x8000_0040, 0, 0);
    assert_eq!(setup.interval, 10_000_000);
    assert_eq!(setup.interval, INTERVAL);
    assert_eq!(setup.mtvec, 0x8000_0040);
    assert_eq!(setup.mstatus, MSTATUS_MIE);
    assert_eq!(setup.mie, MIE_MTIE);
}

#[test]
fn timerinit_keeps_the_other_bits() {
    let setup = timerinit(0x8000_0040, 0x0000_000a_0000_1800, 0x222);
    assert_eq!(setup.mstatus, 0x0000_000a_0000_1808);
    assert_eq!(setup.mie, 0x2a2);
    let again = timerinit(0x8000_0040, setup.mstatus, setup.mie);
    assert_eq!(again, setup);
}

#[test]
fn start_sets_the_previous_mode_to_supervisor() {
    for mstatus in [0u64, 0x1800, 0x1000, 0x0800, 0xffff_ffff_ffff_ffff] {
        let setup = start(0x8000_1234, 3, mstatus, 0);
        assert_eq!(setup.mstatus & MSTATUS_MPP_MASK, MSTATUS_MPP_S);
        assert_eq!(setup.mstatus & !MSTATUS_MPP_MASK, mstatus & !MSTATUS_MPP_MASK);
    }
}

#[test]
fn start_gives_the_boot_values() {
    let setup = start(0x8000_1234, 3, 0x1808, 0x100);
    assert_eq!(setup.mstatus, 0x0808);
    assert_eq!(setup.mepc, 0x8000_1234);
    assert_eq!(setup.satp, 0);
    assert_eq!(setup.medeleg, 0xffff);
    assert_eq!(setup.mideleg, 0xffff);
    assert_eq!(setup.sie, 0x322);
    assert_eq!(setup.pmpaddr0, 0x3f_ffff_ffff_ffff);
    assert_eq!(setup.pmpcfg0, 0xf);
    assert_eq!(setup.tp, 3);
}

#[test]
fn clint_registers() {
    assert_eq!(mtime_addr(0x0200_0000), 0x0200_bff8);
    assert_eq!(
        timer_store(0x0200_0000, 0, 1_000, 10_000_000),
        RegisterStore { addr: 0x0200_4000, value: 10_001_000 }
    );
    assert_eq!(
        timer_store(0x0200_0000, 3, 0, 1),
        RegisterStore { addr: 0x0200_4018, value: 1 }
    );
}

#[test]
fn interrupts_have_the_top_bit_of_the_cause() {
    assert!(is_interrupt(0x8000_0000_0000_0007));
    assert!(is_interrupt(0x8000_0000_0000_0000));
    assert!(is_interrupt(u64::MAX));
    assert!(!is_interrupt(7));
    assert!(!is_interrupt(0x7fff_ffff_ffff_ffff));
}

#[test]
fn machine_traps_are_decided_by_the_whole_cause_register() {
    assert_eq!(m_handler(7), TrapAction::Uncaught { cause: 7 });
    assert_eq!(m_handler(0), TrapAction::Uncaught { cause: 0 });
    assert_eq!(
        m_handler(0x8000_0000_0000_0007),
        TrapAction::Uncaught { cause: 0x8000_0000_0000_0007 }
    );
    assert_eq!(
        m_handler(0x8000_0000_0000_000b),
        TrapAction::Uncaught { cause: 0x8000_0000_0000_000b }
    );
}
