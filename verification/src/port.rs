//! Accesses to I/O ports, as values.

use vstd::prelude::*;

verus! {

/// One access to an I/O port.
#[derive(Debug, Clone, Copy, PartialEq, Eq, Structural)]
pub enum PortOp {
    Write8 { port: u16, value: u8 },
    Read8 { port: u16 },
    Read16 { port: u16 },
}

} // verus!
