//! Interrupt vector numbering for the two programmable interrupt controllers.
//! The controllers' default vectors collide with the processor's exception
//! numbers, so they are remapped past the 32 exception vectors. Loading the
//! interrupt descriptor table and talking to the controllers is hardware I/O
//! and lives outside the library.
use vstd::prelude::*;

verus! {

/// First vector number of the primary interrupt controller: right after the
/// 32 processor exception vectors.
pub const PIC_1_OFFSET: u8 = 32;

/// First vector number of the secondary controller, whose eight lines follow
/// the primary's.
pub const PIC_2_OFFSET: u8 = PIC_1_OFFSET + 8;

/// The hardware interrupts the kernel handles. The timer sits on the primary
/// controller's first line, the keyboard on its second.
#[derive(Debug, Clone, Copy)]
pub enum InterruptIndex {
    Timer,
    Keyboard,
}

impl InterruptIndex {
    /// The interrupt's vector number.
    pub fn as_u8(self) -> (r: u8)
        ensures
            self is Timer ==> r == PIC_1_OFFSET,
            self is Keyboard ==> r == PIC_1_OFFSET + 1,
    {
        match self {
            InterruptIndex::Timer => PIC_1_OFFSET,
            InterruptIndex::Keyboard => PIC_1_OFFSET + 1,
        }
    }

    /// The vector number as an index into the interrupt descriptor table.
    pub fn as_usize(self) -> (r: usize)
        ensures
            self is Timer ==> r == PIC_1_OFFSET,
            self is Keyboard ==> r == PIC_1_OFFSET + 1,
    {
        let v = self.as_u8();
        v as usize
    }
}

} // verus!
