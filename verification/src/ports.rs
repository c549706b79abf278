//! Bytes on their way to I/O ports.
use vstd::prelude::*;

verus! {

/// A byte to write to a port.
#[derive(Clone, Copy, PartialEq, Eq, Structural)]
pub struct PortWrite {
    pub port: u16,
    pub value: u8,
}

} // verus!
