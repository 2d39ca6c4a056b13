//! Tasks that run on the kernel's cooperative executor.

pub mod keyboard;
pub mod shell;
