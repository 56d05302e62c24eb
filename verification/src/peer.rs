//! Peer entities and their compact wire encodings: 4 address bytes plus 2
//! port bytes for IPv4, 16 plus 2 for IPv6, both in network byte order.
use vstd::prelude::*;

verus! {

/// An IP address held as its network-order bytes.
#[derive(Clone, Copy)]
pub enum IpAddress {
    V4([u8; 4]),
    V6([u8; 16]),
}

impl IpAddress {
    pub open spec fn addr_bytes(self) -> Seq<u8> {
        match self {
            IpAddress::V4(a) => a@,
            IpAddress::V6(a) => a@,
        }
    }

    pub open spec fn is_v4(self) -> bool {
        self is V4
    }
}

/// The two network-order bytes of a port number.
pub open spec fn port_bytes(port: u16) -> Seq<u8> {
    seq![(port / 256) as u8, (port % 256) as u8]
}

/// Compact form of an IPv4 peer: address bytes then port bytes.
pub open spec fn compact_v4(ip: Seq<u8>, port: u16) -> Seq<u8> {
    ip + port_bytes(port)
}

/// Compact form of an IPv6 peer: address bytes then port bytes.
pub open spec fn compact_v6(ip: Seq<u8>, port: u16) -> Seq<u8> {
    ip + port_bytes(port)
}

/// An IPv4 peer as it appears in an announce response.
pub struct Peerv4 {
    pub peer_id: Vec<u8>,
    pub ip: [u8; 4],
    pub port: u16,
}

/// An IPv6 peer as it appears in an announce response.
pub struct Peerv6 {
    pub peer_id: Vec<u8>,
    pub ip: [u8; 16],
    pub port: u16,
}

/// The spec-level image of a response peer: id, address bytes, port.
pub struct PeerEntry {
    pub peer_id: Seq<u8>,
    pub ip: Seq<u8>,
    pub port: u16,
}

impl View for Peerv4 {
    type V = PeerEntry;

    open spec fn view(&self) -> PeerEntry {
        PeerEntry { peer_id: self.peer_id@, ip: self.ip@, port: self.port }
    }
}

impl View for Peerv6 {
    type V = PeerEntry;

    open spec fn view(&self) -> PeerEntry {
        PeerEntry { peer_id: self.peer_id@, ip: self.ip@, port: self.port }
    }
}

impl Peerv4 {
    /// The 6-byte compact encoding of this peer.
    pub fn compact(&self) -> (r: Vec<u8>)
        ensures
            r@ == compact_v4(self.ip@, self.port),
            r@.len() == 6,
    {
        let mut out: Vec<u8> = Vec::new();
        out.push(self.ip[0]);
        out.push(self.ip[1]);
        out.push(self.ip[2]);
        out.push(self.ip[3]);
        out.push((self.port / 256) as u8);
        out.push((self.port % 256) as u8);
        proof {
            assert(out@ =~= compact_v4(self.ip@, self.port));
        }
        out
    }
}

impl Peerv6 {
    /// The 18-byte compact encoding of this peer.
    pub fn compact(&self) -> (r: Vec<u8>)
        ensures
            r@ == compact_v6(self.ip@, self.port),
            r@.len() == 18,
    {
        let mut out: Vec<u8> = Vec::new();
        let mut i: usize = 0;
        while i < 16
            invariant
                0 <= i <= 16,
                out@ =~= self.ip@.take(i as int),
            decreases 16 - i,
        {
            out.push(self.ip[i]);
            proof {
                assert(out@ =~= self.ip@.take(i + 1));
            }
            i = i + 1;
        }
        out.push((self.port / 256) as u8);
        out.push((self.port % 256) as u8);
        proof {
            assert(self.ip@.take(16) =~= self.ip@);
            assert(out@ =~= compact_v6(self.ip@, self.port));
        }
        out
    }
}

/// A peer as the store holds it: identity, address, and the client's last
/// reported figures.
pub struct Peer {
    pub peer_id: Vec<u8>,
    pub addr: IpAddress,
    pub port: u16,
    pub last_announced: u64,
    pub uploaded: u64,
    pub downloaded: u64,
    pub left: u64,
}

/// The spec-level image of a stored peer.
pub struct PeerData {
    pub peer_id: Seq<u8>,
    pub addr: IpAddress,
    pub port: u16,
    pub last_announced: u64,
    pub uploaded: u64,
    pub downloaded: u64,
    pub left: u64,
}

impl View for Peer {
    type V = PeerData;

    open spec fn view(&self) -> PeerData {
        PeerData {
            peer_id: self.peer_id@,
            addr: self.addr,
            port: self.port,
            last_announced: self.last_announced,
            uploaded: self.uploaded,
            downloaded: self.downloaded,
            left: self.left,
        }
    }
}

impl Peer {
    /// A by-value copy of this peer.
    pub fn duplicate(&self) -> (r: Peer)
        ensures
            r@ == self@,
    {
        let peer_id = clone_id(&self.peer_id);
        Peer {
            peer_id,
            addr: self.addr,
            port: self.port,
            last_announced: self.last_announced,
            uploaded: self.uploaded,
            downloaded: self.downloaded,
            left: self.left,
        }
    }
}

/// A by-value copy of an identifier byte string.
pub fn clone_id(v: &Vec<u8>) -> (r: Vec<u8>)
    ensures
        r@ == v@,
{
    let r = v.clone();
    proof {
        assert(r@ =~= v@);
    }
    r
}

} // verus!
