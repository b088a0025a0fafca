//! Exit codes the kernel reports to the emulator when its tests end.
use vstd::prelude::*;

verus! {

/// How a test run ended.
#[derive(Copy, Clone, Debug, PartialEq, Eq, Structural)]
pub enum QemuExitCode {
    Success,
    Failed,
}

impl QemuExitCode {
    /// The value written to the emulator's exit port.
    pub fn code(self) -> (c: u32)
        ensures
            c == match self {
                QemuExitCode::Success => 0x10u32,
                QemuExitCode::Failed => 0x11u32,
            },
    {
        match self {
            QemuExitCode::Success => 0x10,
            QemuExitCode::Failed => 0x11,
        }
    }
}

} // verus!
