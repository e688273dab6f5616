//! Exit codes understood by the hardware exit-signaling device used for test
//! automation. Writing the code to the device's port is I/O and lives outside
//! this library; the codes themselves and their wire values are defined here.

use vstd::prelude::*;

verus! {

/// Status reported to the exit-signaling device when the kernel shuts down
/// under test automation.
#[derive(Debug, Clone, Copy, PartialEq, Eq, Structural)]
pub enum QEMUExitCode {
    Success,
    Failed,
}

impl QEMUExitCode {
    /// The 32-bit value written to the exit device's port for this code.
    pub fn as_u32(self) -> (r: u32)
        ensures
            r == self.spec_value(),
    {
        match self {
            QEMUExitCode::Success => 0x10,
            QEMUExitCode::Failed => 0x11,
        }
    }

    /// Wire value of each exit code.
    pub open spec fn spec_value(self) -> u32 {
        match self {
            QEMUExitCode::Success => 0x10,
            QEMUExitCode::Failed => 0x11,
        }
    }
}

} // verus!
