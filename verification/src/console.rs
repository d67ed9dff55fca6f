//! The kernel console interface. Concrete consoles (the serial console
//! among them) implement [`Console`] next to the devices they drive; the
//! interface itself carries no state.

use vstd::prelude::*;

verus! {

/// The console subsystem needs no setup of its own.
pub fn init() {
}

/// A sink for kernel console output.
pub trait Console {
    /// Write raw bytes.
    fn putb(&mut self, bin: &[u8]);

    /// Write a string.
    fn puts(&mut self, s: &str);
}

} // verus!
