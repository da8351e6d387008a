//! Exit codes handed to the platform shutdown collaborator.

use vstd::prelude::*;

verus! {

/// The outcome reported when the kernel asks the platform to power off.
#[derive(PartialEq, Eq, Structural, Clone, Copy, Debug)]
pub enum ShutdownExitCode {
    Success,
    Failed,
}

impl ShutdownExitCode {
    /// Returns the value written to the platform's exit port.
    pub fn code(&self) -> (r: u32)
        ensures
            r == (match self {
                ShutdownExitCode::Success => 0x10u32,
                ShutdownExitCode::Failed => 0x11u32,
            }),
    {
        match self {
            ShutdownExitCode::Success => 0x10,
            ShutdownExitCode::Failed => 0x11,
        }
    }
}

} // verus!
