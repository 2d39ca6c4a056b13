//! The core of a small x86_64 kernel: the parts that decide, parse and compute.
//!
//! Nothing here touches a port, a device register or raw memory. Where the
//! kernel has to, the library hands out a request (read this sector, write
//! this port) and is given the answer; the kernel binary around it performs
//! the request.

pub mod ata;
pub mod bytes;
pub mod clock;
pub mod elf;
pub mod fat;
pub mod interrupts;
pub mod memory;
pub mod port;
pub mod process;
pub mod rtc;
pub mod task;
pub mod text;
pub mod threads;
pub mod time;
pub mod usermode;
pub mod vga_buffer;
