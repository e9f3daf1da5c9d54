//! Constants of the QEMU virt platform.

use vstd::prelude::*;

verus! {

/// First address of the Secure DRAM given to the payload.
pub const BL32_MEM_BASE: usize = 0x0e10_0000;

/// Size of the Secure DRAM given to the payload: 15 MiB.
pub const BL32_MEM_SIZE: usize = 0x00f0_0000;

/// Base address of the first PL011 UART.
pub const UART0_BASE: usize = 0x0900_0000;

/// Input clock of the first PL011 UART.
pub const UART0_CLK_IN_HZ: u32 = 1;

/// Base address of the boot console UART.
pub const PLAT_QEMU_BOOT_UART_BASE: usize = UART0_BASE;

/// Input clock of the boot console UART.
pub const PLAT_QEMU_BOOT_UART_CLK_IN_HZ: u32 = UART0_CLK_IN_HZ;

/// Baud rate of the console.
pub const PLAT_QEMU_CONSOLE_BAUDRATE: u32 = 115200;

/// The console is in use during boot.
pub const CONSOLE_FLAG_BOOT: u32 = 1;

/// The console is in use at run time.
pub const CONSOLE_FLAG_RUNTIME: u32 = 2;

/// The flag bits that hold the scope of a console.
pub const CONSOLE_FLAG_SCOPE_MASK: u32 = 0xff;

/// Cores in one cluster at most.
pub const PLATFORM_MAX_CPUS_PER_CLUSTER: usize = 4;

/// Cores in the first cluster.
pub const PLATFORM_CLUSTER0_CORE_COUNT: usize = PLATFORM_MAX_CPUS_PER_CLUSTER;

/// Cores in the second cluster.
pub const PLATFORM_CLUSTER1_CORE_COUNT: usize = PLATFORM_MAX_CPUS_PER_CLUSTER;

/// Cores of the platform.
pub const PLATFORM_CORE_COUNT: usize = 8;

} // verus!
