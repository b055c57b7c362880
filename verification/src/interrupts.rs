use vstd::prelude::*;

verus! {

/// First interrupt number of the primary interrupt controller after
/// remapping: the controllers' lines are moved past the 32 CPU exceptions.
pub const PIC_1_OFFSET: u8 = 32;

/// First interrupt number of the secondary controller: eight lines above the
/// primary one.
pub const PIC_2_OFFSET: u8 = PIC_1_OFFSET + 8;

/// Names for the remapped hardware interrupt lines this kernel handles.
#[derive(Debug, Copy, Clone)]
pub enum InterruptIndex {
    Timer,
    Keyboard,
}

impl InterruptIndex {
    /// The interrupt number of each line: the timer sits on the primary
    /// controller's first line, the keyboard on the one after it.
    pub open spec fn spec_value(self) -> u8 {
        match self {
            InterruptIndex::Timer => PIC_1_OFFSET,
            InterruptIndex::Keyboard => (PIC_1_OFFSET + 1) as u8,
        }
    }

    pub fn as_u8(self) -> (r: u8)
        ensures
            r == self.spec_value(),
    {
        match self {
            InterruptIndex::Timer => PIC_1_OFFSET,
            InterruptIndex::Keyboard => PIC_1_OFFSET + 1,
        }
    }

    pub fn as_usize(self) -> (r: usize)
        ensures
            r == self.spec_value(),
    {
        let v = self.as_u8();
        v as usize
    }
}

} // verus!
