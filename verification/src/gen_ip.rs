//! Sampling a peer address from a network: the random host bits are
//! folded into the network's address.  Addresses are handled as plain
//! integers here; the caller converts from and to its socket types.

use vstd::prelude::*;

verus! {

/// An address, either kind, as its integer bits.
#[derive(Clone, Copy, Debug, PartialEq, Eq, Structural)]
pub enum IpBits {
    V4(u32),
    V6(u128),
}

/// A network, either kind: the network part of its address together
/// with the mask of its host bits.
#[derive(Clone, Copy, Debug, PartialEq, Eq, Structural)]
pub enum IpNetBits {
    V4 { network: u32, hostmask: u32 },
    V6 { network: u128, hostmask: u128 },
}

/// An address from the given network, with the host part taken from
/// the random word.
pub fn gen_ipv4(random: u32, network: u32, hostmask: u32) -> (a: u32)
    ensures
        a == network | (random & hostmask),
{
    network | (random & hostmask)
}

/// An address from the given network, with the host part taken from
/// the random word.
pub fn gen_ipv6(random: u128, network: u128, hostmask: u128) -> (a: u128)
    ensures
        a == network | (random & hostmask),
{
    network | (random & hostmask)
}

/// An address from the given network, of the network's kind.
pub fn gen_ip(random: u128, network: IpNetBits) -> (a: IpBits)
    ensures
        a == (match network {
            IpNetBits::V4 { network, hostmask } => IpBits::V4(
                network | ((random as u32) & hostmask),
            ),
            IpNetBits::V6 { network, hostmask } => IpBits::V6(network | (random & hostmask)),
        }),
{
    match network {
        IpNetBits::V4 { network, hostmask } => {
            #[verifier::truncate]
            let r = random as u32;
            IpBits::V4(gen_ipv4(r, network, hostmask))
        },
        IpNetBits::V6 { network, hostmask } => IpBits::V6(gen_ipv6(random, network, hostmask)),
    }
}

} // verus!
