//! Hardware interrupt numbering.
//!
//! The 8259 controllers are remapped so that their lines start above the CPU
//! exception vectors. Loading the descriptor table and programming the
//! controllers is hardware setup and lives outside this library; the vector
//! arithmetic is defined here.

use vstd::prelude::*;

verus! {

/// First vector of the primary interrupt controller after remapping.
pub const PIC_1_OFFSET: u8 = 32;

/// First vector of the secondary interrupt controller after remapping.
pub const PIC_2_OFFSET: u8 = PIC_1_OFFSET + 8;

/// Interrupt lines this kernel services, in controller order: the timer on
/// the first line of the primary controller, the keyboard on the second.
#[derive(Debug, Clone, Copy, PartialEq, Eq, Structural)]
pub enum InterruptIndex {
    Timer,
    Keyboard,
}

impl InterruptIndex {
    /// Interrupt vector number of this line.
    pub open spec fn spec_vector(self) -> u8 {
        match self {
            InterruptIndex::Timer => PIC_1_OFFSET,
            InterruptIndex::Keyboard => (PIC_1_OFFSET + 1) as u8,
        }
    }

    /// The vector number as sent to the interrupt controller.
    pub fn as_u8(self) -> (r: u8)
        ensures
            r == self.spec_vector(),
    {
        match self {
            InterruptIndex::Timer => PIC_1_OFFSET,
            InterruptIndex::Keyboard => PIC_1_OFFSET + 1,
        }
    }

    /// The vector number as an index into the interrupt descriptor table.
    pub fn as_usize(self) -> (r: usize)
        ensures
            r == self.spec_vector() as usize,
    {
        self.as_u8() as usize
    }
}

} // verus!
