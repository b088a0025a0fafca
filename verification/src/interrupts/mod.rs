//! Interrupt descriptors and the interrupt numbers of external devices.
use vstd::prelude::*;

pub mod idt;

verus! {

/// Vector of the first interrupt of the primary interrupt controller.
pub const PIC_1_OFFSET: u8 = 32;

/// Vector of the first interrupt of the secondary interrupt controller.
pub const PIC_2_OFFSET: u8 = 40;

/// Interrupts that need explicit mapping in the interrupt descriptor table.
#[derive(Clone, Debug, Copy, PartialEq, Eq, Structural)]
pub enum InterruptIndex {
    Timer,
    Keyboard,
}

impl InterruptIndex {
    /// Interrupt vector: the timer is the first line of the primary
    /// controller, the keyboard the next one.
    pub fn as_u8(self) -> (v: u8)
        ensures
            v == match self {
                InterruptIndex::Timer => PIC_1_OFFSET,
                InterruptIndex::Keyboard => (PIC_1_OFFSET + 1) as u8,
            },
    {
        match self {
            InterruptIndex::Timer => PIC_1_OFFSET,
            InterruptIndex::Keyboard => PIC_1_OFFSET + 1,
        }
    }

    /// Interrupt vector as an index.
    pub fn as_usize(self) -> (v: usize)
        ensures
            v == match self {
                InterruptIndex::Timer => PIC_1_OFFSET as usize,
                InterruptIndex::Keyboard => (PIC_1_OFFSET + 1) as usize,
            },
    {
        self.as_u8() as usize
    }
}

} // verus!
