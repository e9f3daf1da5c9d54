//! The state of the boot console: whether the UART driver registered it,
//! and the scope flags that say when it is in use.

use crate::qemu_constants::{CONSOLE_FLAG_BOOT, CONSOLE_FLAG_RUNTIME, CONSOLE_FLAG_SCOPE_MASK};
use vstd::prelude::*;

verus! {

/// The console record that the UART driver fills in and links into its
/// list of consoles.
pub struct Console {
    /// Scope and state flags.
    pub flags: u32,
}

/// A PL011 console: the console record and the base of its registers.
pub struct ConsolePl011 {
    /// The console record.
    pub console: Console,
    /// Base address of the UART registers.
    pub base: usize,
}

/// The console of the payload.
pub struct FspConsole {
    console: ConsolePl011,
    registered: bool,
}

impl FspConsole {
    /// The flags of the console record.
    pub closed spec fn flags(&self) -> u32 {
        self.console.console.flags
    }

    /// Whether the console was registered with the UART driver.
    pub closed spec fn registered(&self) -> bool {
        self.registered
    }

    /// Base address of the registers of the UART behind the console.
    pub closed spec fn uart_base(&self) -> usize {
        self.console.base
    }

    /// A console that is not registered, with no flag set.
    pub fn new() -> (r: FspConsole)
        ensures
            !r.registered(),
            r.flags() == 0,
            r.uart_base() == 0,
    {
        FspConsole {
            console: ConsolePl011 { console: Console { flags: 0 }, base: 0 },
            registered: false,
        }
    }

    /// Records that the UART driver registered the console at `base` and
    /// left `flags` in the console record, and puts the console in use
    /// during boot and at run time: the scope bits are replaced, every
    /// other bit that the driver set stays.
    pub fn init(&mut self, base: usize, flags: u32)
        ensures
            final(self).registered(),
            final(self).uart_base() == base,
            final(self).flags() == (flags & !CONSOLE_FLAG_SCOPE_MASK) | (CONSOLE_FLAG_BOOT
                | CONSOLE_FLAG_RUNTIME),
    {
        self.console.base = base;
        self.console.console.flags = flags;
        self.registered = true;
        self.console_set_scope(CONSOLE_FLAG_BOOT | CONSOLE_FLAG_RUNTIME);
    }

    /// Replaces the scope bits of the flags by `scope`.
    pub fn console_set_scope(&mut self, scope: u32)
        requires
            old(self).registered(),
        ensures
            final(self).registered(),
            final(self).uart_base() == old(self).uart_base(),
            final(self).flags() == (old(self).flags() & !CONSOLE_FLAG_SCOPE_MASK) | scope,
    {
        self.console.console.flags = (self.console.console.flags & !CONSOLE_FLAG_SCOPE_MASK)
            | scope;
    }

    /// Whether the console was registered with the UART driver.
    pub fn is_registered(&self) -> (r: bool)
        ensures
            r == self.registered(),
    {
        self.registered
    }

    /// The flags of the console record.
    pub fn scope_flags(&self) -> (r: u32)
        ensures
            r == self.flags(),
    {
        self.console.console.flags
    }
}

} // verus!
