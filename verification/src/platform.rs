use vstd::prelude::*;

verus! {

/// The operating system family that hook commands are written for.
#[derive(Clone, Copy, Debug, PartialEq, Eq, Structural)]
pub enum Platform {
    /// Any system that is not Windows: hooks run through `bash`.
    Unix,
    /// Windows: hooks run through PowerShell.
    Windows,
}

} // verus!
