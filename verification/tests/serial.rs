//! Tests of the serial port bookkeeping.

use rezos::serial::{access, inherit, SerialError, SerialHandle, COMMON_COM1};

fn fresh_table() -> Vec<Option<u16>> {
    vec![None; 8]
}

#[test]
fn inherit_registers_a_port() {
    let mut ports = fresh_table();
    assert!(inherit(&mut ports, 1, COMMON_COM1).is_ok());
    assert_eq!(ports[0], Some(0x3F8));
    assert!(ports[1..].iter().all(|p| p.is_none()));
}

#[test]
fn inherit_rejects_out_of_range_ids() {
    let mut ports = fresh_table();
    assert!(matches!(inherit(&mut ports, 0, 0x2F8), Err(SerialError::InvalidComId)));
    assert!(matches!(inherit(&mut ports, 9, 0x2F8), Err(SerialError::InvalidComId)));
    assert!(ports.iter().all(|p| p.is_none()));
}

#[test]
fn access_finds_an_inherited_port() {
    let mut ports = fresh_table();
    inherit(&mut ports, 3, 0x3E8).unwrap();
    assert_eq!(access(&ports, 3), Ok(SerialHandle { ioport: 0x3E8 }));
}

#[test]
fn access_errors() {
    let mut ports = fresh_table();
    inherit(&mut ports, 1, COMMON_COM1).unwrap();
    // Tracked id with nothing registered.
    assert_eq!(access(&ports, 2), Err(SerialError::UnavailableHandle));
    // Untracked id.
    assert_eq!(access(&ports, 9), Err(SerialError::InvalidComId));
}
