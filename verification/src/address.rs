//! Validation of the bind address for a local-only deployment: a gateway
//! serving only local clients must bind a loopback address, and a
//! non-loopback address is rejected before any socket could be opened.

use vstd::prelude::*;

verus! {

/// A bind address as this layer reads it: the four octets of a version 4
/// address, or the 128 bits of a version 6 address.
#[derive(Clone, Copy)]
pub enum BindIp {
    V4 { a: u8, b: u8, c: u8, d: u8 },
    V6 { bits: u128 },
}

/// Where the gateway is asked to listen.
#[derive(Clone, Copy)]
pub struct BindAddress {
    pub ip: BindIp,
    pub port: u16,
}

/// Why a bind address was rejected.
#[derive(Clone, Copy, PartialEq, Eq, Debug)]
pub enum AddressError {
    /// The address does not resolve to the local host.
    NotLoopback,
}

/// Whether an address names the local host: any version 4 address whose
/// first octet is 127, or exactly the version 6 address whose bits are 1.
pub open spec fn is_loopback(ip: BindIp) -> bool {
    match ip {
        BindIp::V4 { a, .. } => a == 127,
        BindIp::V6 { bits } => bits == 1,
    }
}

/// Accepts exactly the loopback bind addresses; anything else is rejected
/// before any socket is opened.
pub fn validate_local_bind(addr: &BindAddress) -> (r: Result<(), AddressError>)
    ensures
        r is Ok <==> is_loopback(addr.ip),
        r is Err ==> r == Err::<(), AddressError>(AddressError::NotLoopback),
{
    match addr.ip {
        BindIp::V4 { a, .. } => {
            if a == 127 {
                Ok(())
            } else {
                Err(AddressError::NotLoopback)
            }
        },
        BindIp::V6 { bits } => {
            if bits == 1 {
                Ok(())
            } else {
                Err(AddressError::NotLoopback)
            }
        },
    }
}

} // verus!
