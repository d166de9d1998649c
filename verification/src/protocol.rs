//! Protocol-level descriptions of interfaces and objects

use vstd::prelude::*;

use crate::wire::MessageDesc;

verus! {

/// Description of a protocol interface
#[derive(Debug)]
pub struct Interface {
    /// Name of the interface
    pub name: &'static str,
    /// Highest version of the interface that is described
    pub version: u32,
    /// Descriptions of its requests, indexed by opcode
    pub requests: &'static [MessageDesc],
    /// Descriptions of its events, indexed by opcode
    pub events: &'static [MessageDesc],
}

/// Description of the protocol-level information of an object
#[derive(Clone, Copy, Debug)]
pub struct ObjectInfo {
    /// The protocol ID
    pub id: u32,
    /// The interface
    pub interface: &'static str,
    /// The version
    pub version: u32,
}

} // verus!
