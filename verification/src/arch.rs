//! Architecture selection. The kernel is built for one architecture at a
//! time; this crate's logic is specific to the amd64 boot path.

use vstd::prelude::*;

verus! {

/// The CPU architectures the kernel knows about.
#[derive(Clone, Copy, PartialEq, Eq, Structural, Debug)]
pub enum ArchType {
    X86_64,
    AArch64,
}

/// The architecture this build targets.
pub fn get_arch() -> (r: ArchType)
    ensures
        r == ArchType::X86_64,
{
    ArchType::X86_64
}

} // verus!
