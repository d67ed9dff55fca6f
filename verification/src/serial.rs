//! Serial port bookkeeping: which COM id maps to which I/O port, and when
//! a handle may be handed out. The port table itself lives with the device
//! driver outside the library, as does every actual port write; the
//! decisions about ids and availability are made here.

use vstd::prelude::*;

verus! {

/// Number of COM ports the kernel tracks.
pub const SERIAL_PORT_COUNT: usize = 8;

/// The common I/O port of COM 1.
pub const COMMON_COM1: u16 = 0x3F8;

/// Why a serial connection could not be had.
#[derive(Clone, Copy, PartialEq, Eq, Structural, Debug)]
pub enum SerialError {
    /// The COM id lies outside the tracked range.
    InvalidComId,
    /// No connection lives on that COM id.
    UnavailableHandle,
}

/// An acquired serial connection: the I/O port it lives on. Writing bytes
/// through it is the port driver's work, outside the library.
#[derive(Clone, Copy, PartialEq, Eq, Structural, Debug)]
pub struct SerialHandle {
    pub ioport: u16,
}

/// Record an already existing serial connection (for instance the debug
/// console the bootloader set up) under a COM id. Ids count from 1; an id
/// outside `1..=8` is refused. An existing entry is overwritten.
pub fn inherit(ports: &mut Vec<Option<u16>>, comid: usize, ioport: u16) -> (r: Result<
    (),
    SerialError,
>)
    requires
        old(ports)@.len() == SERIAL_PORT_COUNT,
    ensures
        final(ports)@.len() == SERIAL_PORT_COUNT,
        if 1 <= comid < 9 {
            r is Ok && final(ports)@ == old(ports)@.update(comid - 1, Some(ioport))
        } else {
            r == Err::<(), SerialError>(SerialError::InvalidComId) && final(ports)@ == old(
                ports,
            )@
        },
{
    if comid > 0 && comid < 9 {
        ports.set(comid - 1, Some(ioport));
        return Ok(());
    }
    Err(SerialError::InvalidComId)
}

/// Acquire the connection registered under a COM id: the id must be
/// tracked, and a port must live there. Ids count from 1.
pub fn access(ports: &Vec<Option<u16>>, comid: usize) -> (r: Result<SerialHandle, SerialError>)
    requires
        comid >= 1,
    ensures
        if comid - 1 >= ports@.len() {
            r == Err::<SerialHandle, SerialError>(SerialError::InvalidComId)
        } else {
            match ports@[comid - 1] {
                Some(p) => r == Ok::<SerialHandle, SerialError>(SerialHandle { ioport: p }),
                None => r == Err::<SerialHandle, SerialError>(SerialError::UnavailableHandle),
            }
        },
{
    if comid - 1 >= ports.len() {
        return Err(SerialError::InvalidComId);
    }
    match ports[comid - 1] {
        Some(p) => Ok(SerialHandle { ioport: p }),
        None => Err(SerialError::UnavailableHandle),
    }
}

} // verus!
