//! Peer addresses.
use vstd::prelude::*;

verus! {

/// An IP address, its octets read as one big-endian number.
#[derive(Debug, Clone, Copy, PartialEq, Eq, Hash, Structural)]
pub enum PeerIp {
    /// IPv4.
    V4(u32),
    /// IPv6.
    V6(u128),
}

/// An IP address and a port.
#[derive(Debug, Clone, Copy, PartialEq, Eq, Hash, Structural)]
pub struct PeerAddr {
    /// Address.
    pub ip: PeerIp,
    /// Port.
    pub port: u16,
}

impl PeerIp {
    /// `0.0.0.0` or `::`.
    pub open spec fn unspecified(self) -> bool {
        match self {
            PeerIp::V4(a) => a == 0,
            PeerIp::V6(a) => a == 0,
        }
    }

    /// `224.0.0.0/4` or `ff00::/8`.
    pub open spec fn multicast(self) -> bool {
        match self {
            PeerIp::V4(a) => 0xe000_0000 <= a <= 0xefff_ffff,
            PeerIp::V6(a) => a >= 0xff00_0000_0000_0000_0000_0000_0000_0000u128,
        }
    }

    /// `127.0.0.0/8` or `::1`.
    pub open spec fn loopback(self) -> bool {
        match self {
            PeerIp::V4(a) => 0x7f00_0000 <= a <= 0x7fff_ffff,
            PeerIp::V6(a) => a == 1,
        }
    }

    /// `169.254.0.0/16` or `fe80::/10`.
    pub open spec fn link_local(self) -> bool {
        match self {
            PeerIp::V4(a) => 0xa9fe_0000 <= a <= 0xa9fe_ffff,
            PeerIp::V6(a) => 0xfe80_0000_0000_0000_0000_0000_0000_0000u128 <= a
                <= 0xfebf_ffff_ffff_ffff_ffff_ffff_ffff_ffffu128,
        }
    }

    /// `255.255.255.255`.
    pub open spec fn broadcast_address(self) -> bool {
        self == PeerIp::V4(0xffff_ffff)
    }

    /// `10.0.0.0/8`, `172.16.0.0/12`, `192.168.0.0/16` or `fc00::/7`.
    pub open spec fn private(self) -> bool {
        match self {
            PeerIp::V4(a) => {
                ||| 0x0a00_0000 <= a <= 0x0aff_ffff
                ||| 0xac10_0000 <= a <= 0xac1f_ffff
                ||| 0xc0a8_0000 <= a <= 0xc0a8_ffff
            },
            PeerIp::V6(a) => 0xfc00_0000_0000_0000_0000_0000_0000_0000u128 <= a
                <= 0xfdff_ffff_ffff_ffff_ffff_ffff_ffff_ffffu128,
        }
    }
}

} // verus!
