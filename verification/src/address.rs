//! Addresses of peers on the network.
use vstd::prelude::*;

verus! {

/// The IP address of a peer: four bytes for IPv4 or sixteen for IPv6, each read as one
/// big-endian number.
#[derive(Clone, Copy, Debug, PartialEq, Eq, Hash, Structural)]
pub enum PeerAddr {
    V4(u32),
    V6(u128),
}

} // verus!
