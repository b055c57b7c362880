use vstd::prelude::*;

pub mod allocator;
pub mod interrupts;
pub mod memory;
pub mod task;
pub mod vga_buffer;

verus! {

/// Exit status reported to the emulator when the kernel shuts down.
#[derive(Debug, Clone, Copy, PartialEq, Eq, Structural)]
pub enum QemuExitCode {
    Success,
    Failed,
}

impl QemuExitCode {
    /// The raw value written to the emulator's exit device; the emulator
    /// reports `(value << 1) | 1` as its own exit status.
    pub fn as_u32(self) -> (r: u32)
        ensures
            r == (if self == QemuExitCode::Success { 0x10u32 } else { 0x11u32 }),
    {
        match self {
            QemuExitCode::Success => 0x10,
            QemuExitCode::Failed => 0x11,
        }
    }
}

} // verus!
