//! Port identity helpers of the Ethernet device layer.
//!
//! The device layer proper — probing, configuration, packet bursts — is
//! I/O against the host's network stack and lives outside this library.
//! What stands here is the pure part: port handles, port enumeration
//! given a device count, and the decoding of a raw link-status word.

use vstd::prelude::*;

verus! {

/// A port identifier.
pub type PortId = u8;

/// A queue identifier.
pub type QueueId = u16;

/// Link-level information of an Ethernet port.
pub struct EthLink {
    /// Link speed in Mbps.
    pub speed: u32,
    /// Full duplex when true, half duplex when false.
    pub duplex: bool,
    /// Autonegotiation enabled.
    pub autoneg: bool,
    /// Link is up.
    pub up: bool,
}

/// A handle on one Ethernet port.
#[derive(Clone, Copy, Debug, PartialEq, Eq, Structural)]
pub struct EthDevice(PortId);

/// The device handle for a port identifier.
pub fn dev(portid: PortId) -> (d: EthDevice)
    ensures
        d.spec_portid() == portid,
{
    EthDevice(portid)
}

/// The port identifiers of the first `count` devices, in order.
pub fn ports(count: PortId) -> (r: Vec<PortId>)
    ensures
        r@.len() == count,
        forall|i: int| 0 <= i < count ==> r@[i] == i,
{
    let mut r: Vec<PortId> = Vec::new();
    let mut p: u8 = 0;
    while p < count
        invariant
            p <= count,
            r@.len() == p,
            forall|i: int| 0 <= i < p ==> r@[i] == i,
        decreases count - p,
    {
        r.push(p);
        p = p + 1;
    }
    r
}

/// The device handles of the first `count` devices, in order.
pub fn devices(count: PortId) -> (r: Vec<EthDevice>)
    ensures
        r@.len() == count,
        forall|i: int| 0 <= i < count ==> r@[i].spec_portid() == i,
{
    let mut r: Vec<EthDevice> = Vec::new();
    let mut p: u8 = 0;
    while p < count
        invariant
            p <= count,
            r@.len() == p,
            forall|i: int| 0 <= i < p ==> r@[i].spec_portid() == i,
        decreases count - p,
    {
        r.push(EthDevice(p));
        p = p + 1;
    }
    r
}

/// Decode the packed link-status word a device reports: the low 32 bits
/// carry the speed in Mbps, and bits 32, 33 and 34 carry the duplex,
/// autonegotiation and link-up flags.
pub fn link_from_raw(raw: u64) -> (l: EthLink)
    ensures
        l.speed == (raw & 0xffff_ffff) as u32,
        l.duplex == ((raw >> 32) & 1 == 1),
        l.autoneg == ((raw >> 33) & 1 == 1),
        l.up == ((raw >> 34) & 1 == 1),
{
    EthLink {
        speed: (raw & 0xffff_ffff) as u32,
        duplex: (raw >> 32) & 1 == 1,
        autoneg: (raw >> 33) & 1 == 1,
        up: (raw >> 34) & 1 == 1,
    }
}

impl EthDevice {
    /// The port identifier this handle stands for.
    pub closed spec fn spec_portid(&self) -> PortId {
        self.0
    }

    /// The port identifier this handle stands for.
    pub fn portid(&self) -> (r: PortId)
        ensures
            r == self.spec_portid(),
    {
        self.0
    }

    /// Whether the given link state reports the port as up.
    pub fn is_up(&self, link: &EthLink) -> (r: bool)
        ensures
            r == link.up,
    {
        link.up
    }
}

} // verus!
