//! The interface to the EL3 monitor: the register block in which each
//! core hands its results back, the identifiers that signal completion,
//! and the handlers that the monitor enters through the vector table.

use crate::qemu_constants::PLATFORM_CORE_COUNT;
use vstd::prelude::*;

verus! {

/// The payload has turned this core on.
pub const FSP_ON_DONE: u64 = 0xf200_0001;

/// The payload is ready for this core to be turned off.
pub const FSP_OFF_DONE: u64 = 0xf200_0002;

/// The payload is ready for this core to be suspended.
pub const FSP_SUSPEND_DONE: u64 = 0xf200_0003;

/// The payload has resumed on this core.
pub const FSP_RESUME_DONE: u64 = 0xf200_0004;

/// The payload was preempted by an interrupt that is not its own.
pub const FSP_PREEMPTED: u64 = 0xf200_0005;

/// The payload has aborted a preempted yielding call.
pub const FSP_ABORT_DONE: u64 = 0xf200_0007;

/// The payload is ready for the system to be switched off.
pub const FSP_SYSTEM_OFF_DONE: u64 = 0xf200_0008;

/// The payload is ready for the system to be reset.
pub const FSP_SYSTEM_RESET_DONE: u64 = 0xf200_0009;

/// Byte offset of register 0 in a register block.
pub const FSP_ARG0: usize = 0x0;

/// Byte offset of register 1 in a register block.
pub const FSP_ARG1: usize = 0x8;

/// Byte offset of register 2 in a register block.
pub const FSP_ARG2: usize = 0x10;

/// Byte offset of register 3 in a register block.
pub const FSP_ARG3: usize = 0x18;

/// Byte offset of register 4 in a register block.
pub const FSP_ARG4: usize = 0x20;

/// Byte offset of register 5 in a register block.
pub const FSP_ARG5: usize = 0x28;

/// Byte offset of register 6 in a register block.
pub const FSP_ARG6: usize = 0x30;

/// Byte offset of register 7 in a register block.
pub const FSP_ARG7: usize = 0x38;

/// Size of a register block in bytes.
pub const FSP_ARGS_END: usize = 0x40;

/// The entry points that the monitor jumps to, one 32-bit slot each, in
/// the order in which the assembly reads them.
#[derive(Clone, Copy, Debug, PartialEq, Eq)]
pub struct FspVectors {
    pub yield_smc_entry: u32,
    pub fast_smc_entry: u32,
    pub cpu_on_entry: u32,
    pub cpu_off_entry: u32,
    pub cpu_resume_entry: u32,
    pub cpu_suspend_entry: u32,
    pub sel1_intr_entry: u32,
    pub system_off_entry: u32,
    pub system_reset_entry: u32,
    pub abort_yield_smc_entry: u32,
}

impl FspVectors {
    /// The slots in the order of the table.
    pub open spec fn view(&self) -> Seq<u32> {
        seq![
            self.yield_smc_entry,
            self.fast_smc_entry,
            self.cpu_on_entry,
            self.cpu_off_entry,
            self.cpu_resume_entry,
            self.cpu_suspend_entry,
            self.sel1_intr_entry,
            self.system_off_entry,
            self.system_reset_entry,
            self.abort_yield_smc_entry,
        ]
    }

    /// The slot at byte offset `offset` of the table.
    pub fn slot(&self, offset: usize) -> (r: u32)
        requires
            offset % 4 == 0,
            offset < 40,
        ensures
            r == self@[offset as int / 4],
    {
        let i: usize = offset / 4;
        if i == 0 {
            self.yield_smc_entry
        } else if i == 1 {
            self.fast_smc_entry
        } else if i == 2 {
            self.cpu_on_entry
        } else if i == 3 {
            self.cpu_off_entry
        } else if i == 4 {
            self.cpu_resume_entry
        } else if i == 5 {
            self.cpu_suspend_entry
        } else if i == 6 {
            self.sel1_intr_entry
        } else if i == 7 {
            self.system_off_entry
        } else if i == 8 {
            self.system_reset_entry
        } else {
            self.abort_yield_smc_entry
        }
    }
}

/// The register block of one core: the values that the assembly loads
/// into x0 to x7 when the core returns to the monitor.
#[derive(Clone, Copy, Debug, PartialEq, Eq)]
pub struct FspArgs {
    pub regs: [u64; 8],
}

impl FspArgs {
    /// The eight registers in order.
    pub open spec fn view(&self) -> Seq<u64> {
        self.regs@
    }

    /// A register block of zeros.
    pub fn new() -> (r: FspArgs)
        ensures
            r@ == Seq::new(8, |i: int| 0u64),
    {
        let r = FspArgs { regs: [0; 8] };
        assert(r@ =~= Seq::new(8, |i: int| 0u64));
        r
    }

    /// The register at byte offset `offset`.
    pub fn read_sp_arg(&self, offset: usize) -> (r: u64)
        requires
            offset < FSP_ARGS_END,
        ensures
            r == self@[offset as int / 8],
    {
        self.regs[offset / 8]
    }
}

/// Stores `val` in the register at byte offset `offset` of `args`.
pub fn write_sp_arg(args: &mut FspArgs, offset: usize, val: u64)
    requires
        offset < FSP_ARGS_END,
    ensures
        final(args)@ == old(args)@.update(offset as int / 8, val),
{
    args.regs[offset / 8] = val;
}

/// The register blocks of all cores, one per core, found by the linear
/// index of the core.
pub struct SmcArgsTable {
    pub cores: [FspArgs; 8],
}

impl SmcArgsTable {
    /// The register block of each core in order.
    pub open spec fn view(&self) -> Seq<Seq<u64>> {
        Seq::new(PLATFORM_CORE_COUNT as nat, |k: int| self.cores@[k]@)
    }

    /// Register blocks of zeros for all cores.
    pub fn new() -> (r: SmcArgsTable)
        ensures
            forall|k: int|
                0 <= k < PLATFORM_CORE_COUNT ==> #[trigger] r@[k] == Seq::new(8, |i: int| 0u64),
    {
        let r = SmcArgsTable { cores: [FspArgs::new();8] };
        r
    }

    /// The register block of core `linear_id`.
    pub fn args_of(&self, linear_id: u32) -> (r: FspArgs)
        requires
            linear_id < PLATFORM_CORE_COUNT,
        ensures
            r@ == self@[linear_id as int],
    {
        self.cores[linear_id as usize]
    }

    /// Stores the eight arguments in the register block of core
    /// `linear_id` and returns the index of that block in the table.
    /// The blocks of the other cores stay as they are.
    pub fn set_smc_args(
        &mut self,
        linear_id: u32,
        arg0: u64,
        arg1: u64,
        arg2: u64,
        arg3: u64,
        arg4: u64,
        arg5: u64,
        arg6: u64,
        arg7: u64,
    ) -> (r: usize)
        requires
            linear_id < PLATFORM_CORE_COUNT,
        ensures
            r == linear_id,
            final(self)@ == old(self)@.update(
                linear_id as int,
                seq![arg0, arg1, arg2, arg3, arg4, arg5, arg6, arg7],
            ),
    {
        let mut pcpu_smc_args: FspArgs = self.cores[linear_id as usize];
        write_sp_arg(&mut pcpu_smc_args, FSP_ARG0, arg0);
        write_sp_arg(&mut pcpu_smc_args, FSP_ARG1, arg1);
        write_sp_arg(&mut pcpu_smc_args, FSP_ARG2, arg2);
        write_sp_arg(&mut pcpu_smc_args, FSP_ARG3, arg3);
        write_sp_arg(&mut pcpu_smc_args, FSP_ARG4, arg4);
        write_sp_arg(&mut pcpu_smc_args, FSP_ARG5, arg5);
        write_sp_arg(&mut pcpu_smc_args, FSP_ARG6, arg6);
        write_sp_arg(&mut pcpu_smc_args, FSP_ARG7, arg7);
        assert(pcpu_smc_args@ =~= seq![arg0, arg1, arg2, arg3, arg4, arg5, arg6, arg7]);
        self.cores[linear_id as usize] = pcpu_smc_args;
        assert(self@ =~= old(self)@.update(
            linear_id as int,
            seq![arg0, arg1, arg2, arg3, arg4, arg5, arg6, arg7],
        ));
        linear_id as usize
    }
}

/// The register block that reports `id` to the monitor: `id` in
/// register 0, zero in the others.
pub open spec fn done(id: u64) -> Seq<u64> {
    seq![id, 0u64, 0u64, 0u64, 0u64, 0u64, 0u64, 0u64]
}

impl SmcArgsTable {
    /// Reports `id` to the monitor from core `linear_id`.
    fn signal(&mut self, linear_id: u32, id: u64) -> (r: usize)
        requires
            linear_id < PLATFORM_CORE_COUNT,
        ensures
            r == linear_id,
            final(self)@ == old(self)@.update(linear_id as int, done(id)),
    {
        self.set_smc_args(linear_id, id, 0, 0, 0, 0, 0, 0, 0)
    }

    /// Called after core `linear_id` was turned on: reports that the
    /// payload has turned itself on.
    pub fn cpu_on_main_wrapper(&mut self, linear_id: u32) -> (r: usize)
        requires
            linear_id < PLATFORM_CORE_COUNT,
        ensures
            r == linear_id,
            final(self)@ == old(self)@.update(linear_id as int, done(FSP_ON_DONE)),
    {
        self.signal(linear_id, FSP_ON_DONE)
    }

    /// Called before core `linear_id` is turned off: reports that the
    /// payload is ready.
    pub fn cpu_off_main_wrapper(
        &mut self,
        linear_id: u32,
        _arg0: u64,
        _arg1: u64,
        _arg2: u64,
        _arg3: u64,
        _arg4: u64,
        _arg5: u64,
        _arg6: u64,
        _arg7: u64,
    ) -> (r: usize)
        requires
            linear_id < PLATFORM_CORE_COUNT,
        ensures
            r == linear_id,
            final(self)@ == old(self)@.update(linear_id as int, done(FSP_OFF_DONE)),
    {
        self.signal(linear_id, FSP_OFF_DONE)
    }

    /// Called before the state of core `linear_id` is saved for a
    /// suspend: reports that the payload is ready.
    pub fn cpu_suspend_main_wrapper(
        &mut self,
        linear_id: u32,
        _arg0: u64,
        _arg1: u64,
        _arg2: u64,
        _arg3: u64,
        _arg4: u64,
        _arg5: u64,
        _arg6: u64,
        _arg7: u64,
    ) -> (r: usize)
        requires
            linear_id < PLATFORM_CORE_COUNT,
        ensures
            r == linear_id,
            final(self)@ == old(self)@.update(linear_id as int, done(FSP_SUSPEND_DONE)),
    {
        self.signal(linear_id, FSP_SUSPEND_DONE)
    }

    /// Called after the state of core `linear_id` was restored from a
    /// suspend: reports that the payload has resumed.
    pub fn cpu_resume_main_wrapper(
        &mut self,
        linear_id: u32,
        _max_off_pwrlvl: u64,
        _arg1: u64,
        _arg2: u64,
        _arg3: u64,
        _arg4: u64,
        _arg5: u64,
        _arg6: u64,
        _arg7: u64,
    ) -> (r: usize)
        requires
            linear_id < PLATFORM_CORE_COUNT,
        ensures
            r == linear_id,
            final(self)@ == old(self)@.update(linear_id as int, done(FSP_RESUME_DONE)),
    {
        self.signal(linear_id, FSP_RESUME_DONE)
    }

    /// Called before the system is switched off: reports that the
    /// payload is ready.
    pub fn system_off_main_wrapper(
        &mut self,
        linear_id: u32,
        _arg0: u64,
        _arg1: u64,
        _arg2: u64,
        _arg3: u64,
        _arg4: u64,
        _arg5: u64,
        _arg6: u64,
        _arg7: u64,
    ) -> (r: usize)
        requires
            linear_id < PLATFORM_CORE_COUNT,
        ensures
            r == linear_id,
            final(self)@ == old(self)@.update(linear_id as int, done(FSP_SYSTEM_OFF_DONE)),
    {
        self.signal(linear_id, FSP_SYSTEM_OFF_DONE)
    }

    /// Called before the system is reset: reports that the payload is
    /// ready.
    pub fn system_reset_main_wrapper(
        &mut self,
        linear_id: u32,
        _arg0: u64,
        _arg1: u64,
        _arg2: u64,
        _arg3: u64,
        _arg4: u64,
        _arg5: u64,
        _arg6: u64,
        _arg7: u64,
    ) -> (r: usize)
        requires
            linear_id < PLATFORM_CORE_COUNT,
        ensures
            r == linear_id,
            final(self)@ == old(self)@.update(linear_id as int, done(FSP_SYSTEM_RESET_DONE)),
    {
        self.signal(linear_id, FSP_SYSTEM_RESET_DONE)
    }

    /// The fast call handler: hands the function identifier back in
    /// register 0 and the first two arguments in registers 2 and 3.
    pub fn smc_handler_wrapper(
        &mut self,
        linear_id: u32,
        func: u64,
        arg1: u64,
        arg2: u64,
        _arg3: u64,
        _arg4: u64,
        _arg5: u64,
        _arg6: u64,
        _arg7: u64,
    ) -> (r: usize)
        requires
            linear_id < PLATFORM_CORE_COUNT,
        ensures
            r == linear_id,
            final(self)@ == old(self)@.update(
                linear_id as int,
                seq![func, 0u64, arg1, arg2, 0u64, 0u64, 0u64, 0u64],
            ),
    {
        self.set_smc_args(linear_id, func, 0, arg1, arg2, 0, 0, 0, 0)
    }

    /// Called to abort a preempted yielding call: reports that the
    /// payload has aborted it.
    pub fn abort_smc_handler_wrapper(
        &mut self,
        linear_id: u32,
        _func: u64,
        _arg1: u64,
        _arg2: u64,
        _arg3: u64,
        _arg4: u64,
        _arg5: u64,
        _arg6: u64,
        _arg7: u64,
    ) -> (r: usize)
        requires
            linear_id < PLATFORM_CORE_COUNT,
        ensures
            r == linear_id,
            final(self)@ == old(self)@.update(linear_id as int, done(FSP_ABORT_DONE)),
    {
        self.signal(linear_id, FSP_ABORT_DONE)
    }
}

/// Keeps the statistics of the S-EL1 interrupts that were handled at
/// the request of the dispatcher; none are kept yet.
pub fn update_sync_sel1_intr_stats_wrapper(_t: u32, _elr_el3: u64) {
}

/// Called when an interrupt that is not for the payload preempts it:
/// the value that hands control to the monitor, the low 32 bits of the
/// preemption identifier as a signed number.
pub fn handle_preemption() -> (r: i32)
    ensures
        r == FSP_PREEMPTED as int - 0x1_0000_0000,
{
    -0x0dff_fffb
}

/// Handles the interrupts of the payload. Returns zero: the interrupt
/// was handled.
pub fn common_int_handler_wrapper() -> (r: i32)
    ensures
        r == 0,
{
    0
}

/// After `set_smc_args` on core `k` every register of the block of that
/// core holds its argument, and reading the block at byte offset `8 * x`
/// yields argument `x`.
pub proof fn lemma_smc_layout(before: Seq<Seq<u64>>, k: int, args: Seq<u64>, x: int)
    requires
        0 <= k < before.len(),
        0 <= x < args.len(),
    ensures
        before.update(k, args)[k][(8 * x) / 8] == args[x],
{
}

} // verus!
