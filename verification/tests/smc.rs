use fsp_kernel::console::FspConsole;
use fsp_kernel::entrypoints::pool_bounds;
use fsp_kernel::qemu_constants::{
    BL32_MEM_BASE, BL32_MEM_SIZE, CONSOLE_FLAG_BOOT, CONSOLE_FLAG_RUNTIME, PLATFORM_CORE_COUNT,
};
use fsp_kernel::smc::{
    common_int_handler_wrapper, handle_preemption, update_sync_sel1_intr_stats_wrapper,
    write_sp_arg, FspArgs, FspVectors, SmcArgsTable, FSP_ABORT_DONE, FSP_ARG0, FSP_ARG1,
    FSP_ARG2, FSP_ARG3, FSP_ARG4, FSP_ARG5, FSP_ARG6, FSP_ARG7, FSP_ARGS_END, FSP_OFF_DONE,
    FSP_ON_DONE, FSP_PREEMPTED, FSP_RESUME_DONE, FSP_SUSPEND_DONE, FSP_SYSTEM_OFF_DONE,
    FSP_SYSTEM_RESET_DONE,
};

#[test]
fn completion_identifiers() {
    assert_eq!(FSP_ON_DONE, 0xf2000001);
    assert_eq!(FSP_OFF_DONE, 0xf2000002);
    assert_eq!(FSP_SUSPEND_DONE, 0xf2000003);
    assert_eq!(FSP_RESUME_DONE, 0xf2000004);
    assert_eq!(FSP_PREEMPTED, 0xf2000005);
    assert_eq!(FSP_ABORT_DONE, 0xf2000007);
    assert_eq!(FSP_SYSTEM_OFF_DONE, 0xf2000008);
    assert_eq!(FSP_SYSTEM_RESET_DONE, 0xf2000009);
}

#[test]
fn register_offsets() {
    let offsets = [FSP_ARG0, FSP_ARG1, FSP_ARG2, FSP_ARG3, FSP_ARG4, FSP_ARG5, FSP_ARG6, FSP_ARG7];
    assert_eq!(offsets, [0, 8, 16, 24, 32, 40, 48, 56]);
    assert_eq!(FSP_ARGS_END, 64);
    assert_eq!(PLATFORM_CORE_COUNT, 8);
}

#[test]
fn set_smc_args_fills_the_block_of_the_core() {
    let mut t = SmcArgsTable::new();
    for k in 0..PLATFORM_CORE_COUNT as u32 {
        let base = 100 * (k as u64 + 1);
        let r = t.set_smc_args(
            k, base, base + 1, base + 2, base + 3, base + 4, base + 5, base + 6, base + 7,
        );
        assert_eq!(r, k as usize);
    }
    for k in 0..PLATFORM_CORE_COUNT as u32 {
        let block = t.args_of(k);
        for x in 0..8usize {
            assert_eq!(block.read_sp_arg(x * 8), 100 * (k as u64 + 1) + x as u64);
        }
    }
    // Writing one core leaves the others.
    t.set_smc_args(3, u64::MAX, 0, u64::MAX, 0, 1, 2, 3, 4);
    assert_eq!(t.args_of(3).regs, [u64::MAX, 0, u64::MAX, 0, 1, 2, 3, 4]);
    assert_eq!(t.args_of(2).regs, [300, 301, 302, 303, 304, 305, 306, 307]);
    assert_eq!(t.args_of(4).regs, [500, 501, 502, 503, 504, 505, 506, 507]);
}

#[test]
fn write_sp_arg_stores_at_the_byte_offset() {
    let mut a = FspArgs::new();
    assert_eq!(a.regs, [0; 8]);
    write_sp_arg(&mut a, FSP_ARG3, 33);
    write_sp_arg(&mut a, FSP_ARG7, 77);
    assert_eq!(a.regs, [0, 0, 0, 33, 0, 0, 0, 77]);
    assert_eq!(a.read_sp_arg(0x18), 33);
    assert_eq!(a.read_sp_arg(0x38), 77);
}

#[test]
fn cpu_on_reports_completion_on_core_zero() {
    let mut t = SmcArgsTable::new();
    t.set_smc_args(0, 9, 9, 9, 9, 9, 9, 9, 9);
    let r = t.cpu_on_main_wrapper(0);
    assert_eq!(r, 0);
    let block = t.args_of(0);
    assert_eq!(block.read_sp_arg(0), 0xf2000001);
    for x in 1..8usize {
        assert_eq!(block.read_sp_arg(8 * x), 0);
    }
}

#[test]
fn every_handler_reports_its_identifier() {
    let mut t = SmcArgsTable::new();
    assert_eq!(t.cpu_off_main_wrapper(1, 1, 2, 3, 4, 5, 6, 7, 8), 1);
    assert_eq!(t.args_of(1).regs, [FSP_OFF_DONE, 0, 0, 0, 0, 0, 0, 0]);
    assert_eq!(t.cpu_suspend_main_wrapper(2, 1, 2, 3, 4, 5, 6, 7, 8), 2);
    assert_eq!(t.args_of(2).regs, [FSP_SUSPEND_DONE, 0, 0, 0, 0, 0, 0, 0]);
    assert_eq!(t.cpu_resume_main_wrapper(3, 1, 2, 3, 4, 5, 6, 7, 8), 3);
    assert_eq!(t.args_of(3).regs, [FSP_RESUME_DONE, 0, 0, 0, 0, 0, 0, 0]);
    assert_eq!(t.system_off_main_wrapper(4, 1, 2, 3, 4, 5, 6, 7, 8), 4);
    assert_eq!(t.args_of(4).regs, [FSP_SYSTEM_OFF_DONE, 0, 0, 0, 0, 0, 0, 0]);
    assert_eq!(t.system_reset_main_wrapper(5, 1, 2, 3, 4, 5, 6, 7, 8), 5);
    assert_eq!(t.args_of(5).regs, [FSP_SYSTEM_RESET_DONE, 0, 0, 0, 0, 0, 0, 0]);
    assert_eq!(t.abort_smc_handler_wrapper(6, 1, 2, 3, 4, 5, 6, 7, 8), 6);
    assert_eq!(t.args_of(6).regs, [FSP_ABORT_DONE, 0, 0, 0, 0, 0, 0, 0]);
    assert_eq!(t.smc_handler_wrapper(7, 0x1234, 11, 22, 33, 44, 55, 66, 77), 7);
    assert_eq!(t.args_of(7).regs, [0x1234, 0, 11, 22, 0, 0, 0, 0]);
    assert_eq!(t.args_of(0).regs, [0; 8]);
}

#[test]
fn interrupt_handlers() {
    assert_eq!(handle_preemption(), 0xf2000005u32 as i32);
    assert_eq!(common_int_handler_wrapper(), 0);
    update_sync_sel1_intr_stats_wrapper(1, 2);
}

#[test]
fn vector_table_order() {
    let v = FspVectors {
        yield_smc_entry: 10,
        fast_smc_entry: 11,
        cpu_on_entry: 12,
        cpu_off_entry: 13,
        cpu_resume_entry: 14,
        cpu_suspend_entry: 15,
        sel1_intr_entry: 16,
        system_off_entry: 17,
        system_reset_entry: 18,
        abort_yield_smc_entry: 19,
    };
    for i in 0..10usize {
        assert_eq!(v.slot(4 * i), 10 + i as u32);
    }
}

#[test]
fn console_scope() {
    let mut c = FspConsole::new();
    assert!(!c.is_registered());
    assert_eq!(c.scope_flags(), 0);
    c.init(0x0900_0000, 0);
    assert!(c.is_registered());
    assert_eq!(c.scope_flags(), CONSOLE_FLAG_BOOT | CONSOLE_FLAG_RUNTIME);
    c.console_set_scope(CONSOLE_FLAG_RUNTIME);
    assert_eq!(c.scope_flags(), 2);
}

#[test]
fn console_scope_keeps_the_other_flags() {
    let mut c = FspConsole::new();
    // The driver left a flag outside the scope bits, and a scope of its own.
    c.init(0x0900_0000, 0x100 | 4);
    assert_eq!(c.scope_flags(), 0x100 | CONSOLE_FLAG_BOOT | CONSOLE_FLAG_RUNTIME);
    c.console_set_scope(4);
    assert_eq!(c.scope_flags(), 0x100 | 4);
    c.console_set_scope(0);
    assert_eq!(c.scope_flags(), 0x100);
}

#[test]
fn pool_lies_above_the_image() {
    assert_eq!(pool_bounds(0), (BL32_MEM_BASE, BL32_MEM_SIZE));
    assert_eq!(pool_bounds(BL32_MEM_BASE), (BL32_MEM_BASE, BL32_MEM_SIZE));
    assert_eq!(pool_bounds(BL32_MEM_BASE + 0x4000), (BL32_MEM_BASE + 0x4000, BL32_MEM_SIZE - 0x4000));
    assert_eq!(pool_bounds(BL32_MEM_BASE + BL32_MEM_SIZE), (BL32_MEM_BASE + BL32_MEM_SIZE, 0));
    assert_eq!(pool_bounds(usize::MAX), (usize::MAX, 0));
}
