//! Which peer addresses to connect to.
//!
//! A tracker may hand out addresses of this very host or of its network. A
//! filter decides which of them are worth a connection.
use crate::net::{PeerAddr, PeerIp};
use vstd::prelude::*;

verus! {

/// Decides whether to attempt a connection to an address.
pub trait PeerFilter: Send + Sync {
    /// `true` if `addr` is acceptable as a peer to connect to.
    fn allow(&self, addr: PeerAddr) -> bool;
}

/// Rejects addresses that are misconfigured or point back at this network.
#[derive(Debug, Clone, Copy)]
pub struct DefaultPeerFilter {
    /// Whether private and unique-local addresses pass.
    pub allow_private: bool,
    /// Whether loopback addresses pass.
    pub allow_loopback: bool,
}

impl DefaultPeerFilter {
    /// The addresses that pass: a port, an address of a single host, and
    /// loopback or private only where that is allowed.
    pub open spec fn allows(self, addr: PeerAddr) -> bool {
        &&& addr.port != 0
        &&& !addr.ip.unspecified()
        &&& !addr.ip.multicast()
        &&& !addr.ip.link_local()
        &&& !addr.ip.broadcast_address()
        &&& addr.ip.loopback() ==> self.allow_loopback
        &&& addr.ip.private() ==> self.allow_private
    }

    /// Denies loopback and private addresses.
    pub fn strict() -> (r: DefaultPeerFilter)
        ensures
            r == (DefaultPeerFilter { allow_private: false, allow_loopback: false }),
    {
        DefaultPeerFilter { allow_private: false, allow_loopback: false }
    }

    /// Allows loopback and private addresses.
    pub fn permissive_for_tests() -> (r: DefaultPeerFilter)
        ensures
            r == (DefaultPeerFilter { allow_private: true, allow_loopback: true }),
    {
        DefaultPeerFilter { allow_private: true, allow_loopback: true }
    }
}

impl Default for DefaultPeerFilter {
    fn default() -> (r: Self)
        ensures
            r == (DefaultPeerFilter { allow_private: true, allow_loopback: false }),
    {
        DefaultPeerFilter { allow_private: true, allow_loopback: false }
    }
}

impl PeerFilter for DefaultPeerFilter {
    fn allow(&self, addr: PeerAddr) -> (r: bool)
        ensures
            r == self.allows(addr),
    {
        if addr.port == 0 {
            return false;
        }
        match addr.ip {
            PeerIp::V4(a) => {
                if a == 0 || (0xe000_0000 <= a && a <= 0xefff_ffff) {
                    return false;
                }
                if !self.allow_loopback && 0x7f00_0000 <= a && a <= 0x7fff_ffff {
                    return false;
                }
                if (0xa9fe_0000 <= a && a <= 0xa9fe_ffff) || a == 0xffff_ffff {
                    return false;
                }
                let private: bool = (0x0a00_0000 <= a && a <= 0x0aff_ffff) || (0xac10_0000 <= a && a
                    <= 0xac1f_ffff) || (0xc0a8_0000 <= a && a <= 0xc0a8_ffff);
                self.allow_private || !private
            },
            PeerIp::V6(a) => {
                if a == 0 || a >= 0xff00_0000_0000_0000_0000_0000_0000_0000u128 {
                    return false;
                }
                if !self.allow_loopback && a == 1 {
                    return false;
                }
                if 0xfe80_0000_0000_0000_0000_0000_0000_0000u128 <= a && a
                    <= 0xfebf_ffff_ffff_ffff_ffff_ffff_ffff_ffffu128 {
                    return false;
                }
                let private: bool = 0xfc00_0000_0000_0000_0000_0000_0000_0000u128 <= a && a
                    <= 0xfdff_ffff_ffff_ffff_ffff_ffff_ffff_ffffu128;
                self.allow_private || !private
            },
        }
    }
}

/// What the strict filter lets through, every other one does too.
pub proof fn law_strict_is_strictest(f: DefaultPeerFilter, addr: PeerAddr)
    requires
        (DefaultPeerFilter { allow_private: false, allow_loopback: false }).allows(addr),
    ensures
        f.allows(addr),
{
}

/// Which IPv4 addresses pass, by their octets: not the unspecified address, not
/// multicast (224 to 239), not link-local (169.254), not broadcast; loopback (127)
/// and private ones (10, 172.16 to 172.31, 192.168) only where that is allowed;
/// every other, with a port.
pub proof fn law_which_v4_addresses_pass(f: DefaultPeerFilter, a: u32, port: u16)
    ensures
        ({
            let first = a as int / 0x100_0000;
            let second = a as int / 0x1_0000 % 0x100;
            let loopback = first == 127;
            let private = first == 10 || (first == 172 && 16 <= second <= 31) || (first == 192
                && second == 168);
            let never = port == 0 || a == 0 || 224 <= first <= 239 || (first == 169 && second
                == 254) || a == u32::MAX;
            f.allows(PeerAddr { ip: PeerIp::V4(a), port }) <==> !never && (loopback
                ==> f.allow_loopback) && (private ==> f.allow_private)
        }),
{
}

/// Which IPv6 addresses pass, by their first bits: neither the unspecified address
/// nor multicast (`ff00::/8`) nor link-local (`fe80::/10`); loopback and
/// unique-local ones (`fc00::/7`) only where that is allowed; every other, with a
/// port.
pub proof fn law_which_v6_addresses_pass(f: DefaultPeerFilter, a: u128, port: u16)
    ensures
        ({
            let first = a as int / 0x1_0000_0000_0000_0000_0000_0000_0000;
            let never = port == 0 || a == 0 || first / 0x100 == 0xff || first / 0x40 == 1018;
            f.allows(PeerAddr { ip: PeerIp::V6(a), port }) <==> !never && (a == 1
                ==> f.allow_loopback) && (first / 0x200 == 126 ==> f.allow_private)
        }),
{
}

} // verus!
