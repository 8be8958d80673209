//! A multicast DNS service discovery (mDNS/DNS-SD) client core.
//!
//! The crate holds the wire-format codec for DNS-SD query and response
//! messages (including the name-compression scheme with forward-pointer and
//! loop protection), the registry of wanted service names and time-stamped
//! response sets, the per-packet matching rules that attribute records to
//! wanted names, and a hex-dump renderer used for debugging. Socket setup,
//! the background sender and receiver threads, and the command line sit in a
//! thin unverified shell around this crate.

use vstd::prelude::*;

pub mod discovery_handler;
pub mod dns;
pub mod dnssd_error;
pub mod hex;
pub mod receiver;
pub mod roundtrip;
pub mod text;

verus! {

/// The IP family a discovery session is configured for. It decides both the
/// multicast group queries are sent to and the address-record family that
/// resolution surfaces.
#[derive(Copy, Clone, Debug, PartialEq, Eq, Structural)]
pub enum IpType {
    V4,
    V6,
}

/// A resolved host address: four octets for IPv4, eight 16-bit groups for
/// IPv6, both in wire order.
#[derive(Copy, Clone, Debug)]
pub enum IpAddress {
    V4([u8; 4]),
    V6([u16; 8]),
}

/// The specification-level shape of a resolved address.
pub enum IpAddressModel {
    V4(Seq<u8>),
    V6(Seq<u16>),
}

impl View for IpAddress {
    type V = IpAddressModel;

    open spec fn view(&self) -> IpAddressModel {
        match self {
            IpAddress::V4(a) => IpAddressModel::V4(a@),
            IpAddress::V6(a) => IpAddressModel::V6(a@),
        }
    }
}

} // verus!
