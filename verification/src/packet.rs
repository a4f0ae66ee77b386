//! What the reassembly logic reads of an IP packet.

use vstd::prelude::*;

verus! {

/// Length of the IPv4 header without options.
pub const IPV4_MIN_HDR_LEN: usize = 20;

/// Length of the longest IPv4 header: its length field counts words of four
/// bytes in four bits.
pub const IPV4_MAX_HDR_LEN: usize = 60;

/// Length of the fixed IPv6 header.
pub const IPV6_FIXED_HDR_LEN: usize = 40;

/// Largest IPv4 packet: its total length field has 16 bits.
pub const IPV4_MAX_PACKET_LEN: usize = 65535;

/// Largest IPv6 packet that is no jumbogram: the fixed header and a payload
/// whose length field has 16 bits.
pub const IPV6_MAX_PACKET_LEN: usize = 65575;

/// The two versions of IP.
#[derive(Clone, Copy, Debug, PartialEq, Eq, Structural)]
pub enum IpVersion {
    V4,
    V6,
}

/// An IP address, as the number that its bytes spell in network order.
#[derive(Clone, Copy, Debug, Hash, PartialEq, Eq, Structural)]
pub enum IpAddr {
    V4(u32),
    V6(u128),
}

impl IpAddr {
    pub open spec fn spec_version(&self) -> IpVersion {
        match self {
            IpAddr::V4(_) => IpVersion::V4,
            IpAddr::V6(_) => IpVersion::V6,
        }
    }

    /// The version of IP that the address belongs to.
    #[verifier::when_used_as_spec(spec_version)]
    pub fn version(&self) -> (version: IpVersion)
        ensures
            version == self.spec_version(),
    {
        match self {
            IpAddr::V4(_) => IpVersion::V4,
            IpAddr::V6(_) => IpVersion::V6,
        }
    }
}

/// What tells the fragments of one packet from those of all others: the
/// packet's source address, its destination address and its fragment
/// identification.
#[derive(Copy, Clone, Debug, Hash, PartialEq, Eq, Structural)]
pub struct FragmentCacheKey(pub IpAddr, pub IpAddr, pub u32);

impl FragmentCacheKey {
    /// The key of the packet from `src_ip` to `dst_ip` with identification
    /// `fragment_id`.
    pub fn new(src_ip: IpAddr, dst_ip: IpAddr, fragment_id: u32) -> (key: FragmentCacheKey)
        ensures
            key == FragmentCacheKey(src_ip, dst_ip, fragment_id),
    {
        FragmentCacheKey(src_ip, dst_ip, fragment_id)
    }

    /// The version of IP of the key's packet.
    pub open spec fn version(self) -> IpVersion {
        self.0.version()
    }

    /// Both addresses are of one version.
    pub open spec fn wf(self) -> bool {
        self.1.version() == self.0.version()
    }
}

/// Length of the part of the header that every packet of a version has.
pub open spec fn fixed_hdr_len(version: IpVersion) -> nat {
    match version {
        IpVersion::V4 => IPV4_MIN_HDR_LEN as nat,
        IpVersion::V6 => IPV6_FIXED_HDR_LEN as nat,
    }
}

/// Length of the longest header of a version.
pub open spec fn max_hdr_len(version: IpVersion) -> nat {
    match version {
        IpVersion::V4 => IPV4_MAX_HDR_LEN as nat,
        IpVersion::V6 => IPV6_MAX_PACKET_LEN as nat,
    }
}

/// Length of the largest packet of a version.
pub open spec fn max_packet_len(version: IpVersion) -> nat {
    match version {
        IpVersion::V4 => IPV4_MAX_PACKET_LEN as nat,
        IpVersion::V6 => IPV6_MAX_PACKET_LEN as nat,
    }
}

/// A packet as the reassembly logic sees it.
pub struct PacketView {
    pub src_ip: IpAddr,
    pub dst_ip: IpAddr,
    pub fragment_id: u32,
    pub fragment_offset: u16,
    pub more_fragments: bool,
    pub header: Seq<u8>,
    pub body: Seq<u8>,
}

impl PacketView {
    pub open spec fn version(self) -> IpVersion {
        self.src_ip.version()
    }

    /// The key under which the fragments of the packet are collected.
    pub open spec fn key(self) -> FragmentCacheKey {
        FragmentCacheKey(self.src_ip, self.dst_ip, self.fragment_id)
    }

    /// Both addresses are of one version, the header has the length of a
    /// header of that version, and header and body together are no longer
    /// than a packet of that version can be.
    pub open spec fn wf(self) -> bool {
        &&& self.dst_ip.version() == self.src_ip.version()
        &&& fixed_hdr_len(self.version()) <= self.header.len() <= max_hdr_len(self.version())
        &&& self.header.len() + self.body.len() <= max_packet_len(self.version())
    }
}

/// A packet that may be a fragment of a larger one.
///
/// `header` holds the bytes that the reassembled packet starts with if this
/// is the fragment with offset 0: the packet's header without what marks it
/// as a fragment. `body` holds what follows the headers.
#[derive(Debug)]
pub struct FragmentablePacket {
    src_ip: IpAddr,
    dst_ip: IpAddr,
    fragment_id: u32,
    fragment_offset: u16,
    more_fragments: bool,
    header: Vec<u8>,
    body: Vec<u8>,
}

impl View for FragmentablePacket {
    type V = PacketView;

    closed spec fn view(&self) -> PacketView {
        PacketView {
            src_ip: self.src_ip,
            dst_ip: self.dst_ip,
            fragment_id: self.fragment_id,
            fragment_offset: self.fragment_offset,
            more_fragments: self.more_fragments,
            header: self.header@,
            body: self.body@,
        }
    }
}

impl FragmentablePacket {
    /// Every packet is well formed.
    #[verifier::type_invariant]
    pub open spec fn inv(&self) -> bool {
        self@.wf()
    }

    /// Makes a packet of its parts, if they can be the parts of one packet:
    /// see [`PacketView::wf`].
    pub fn new(
        src_ip: IpAddr,
        dst_ip: IpAddr,
        fragment_id: u32,
        fragment_offset: u16,
        more_fragments: bool,
        header: Vec<u8>,
        body: Vec<u8>,
    ) -> (packet: Option<FragmentablePacket>)
        ensures
            packet is Some <==> (PacketView {
                src_ip,
                dst_ip,
                fragment_id,
                fragment_offset,
                more_fragments,
                header: header@,
                body: body@,
            }).wf(),
            packet matches Some(p) ==> p@ == (PacketView {
                src_ip,
                dst_ip,
                fragment_id,
                fragment_offset,
                more_fragments,
                header: header@,
                body: body@,
            }),
    {
        let (min_hdr, max_hdr, max) = match src_ip.version() {
            IpVersion::V4 => (IPV4_MIN_HDR_LEN, IPV4_MAX_HDR_LEN, IPV4_MAX_PACKET_LEN),
            IpVersion::V6 => (IPV6_FIXED_HDR_LEN, IPV6_MAX_PACKET_LEN, IPV6_MAX_PACKET_LEN),
        };
        if dst_ip.version() != src_ip.version() || header.len() < min_hdr || header.len()
            > max_hdr || body.len() > max - header.len() {
            return None;
        }
        Some(
            FragmentablePacket {
                src_ip,
                dst_ip,
                fragment_id,
                fragment_offset,
                more_fragments,
                header,
                body,
            },
        )
    }

    /// The packet's source address.
    pub fn src_ip(&self) -> (addr: IpAddr)
        ensures
            addr == self@.src_ip,
    {
        self.src_ip
    }

    /// The packet's destination address.
    pub fn dst_ip(&self) -> (addr: IpAddr)
        ensures
            addr == self@.dst_ip,
    {
        self.dst_ip
    }

    /// The fragment identification, the fragment offset in blocks and the
    /// flag that says that more fragments follow.
    pub fn fragment_data(&self) -> (data: (u32, u16, bool))
        ensures
            data == (self@.fragment_id, self@.fragment_offset, self@.more_fragments),
    {
        (self.fragment_id, self.fragment_offset, self.more_fragments)
    }

    /// The packet's body.
    pub fn body(&self) -> (body: &Vec<u8>)
        ensures
            body@ == self@.body,
    {
        &self.body
    }

    /// The header bytes that a packet reassembled from this fragment would
    /// start with.
    pub fn header(&self) -> (header: &Vec<u8>)
        ensures
            header@ == self@.header,
    {
        &self.header
    }

    /// Gives up the packet for its body.
    pub fn into_body(self) -> (body: Vec<u8>)
        ensures
            body@ == self@.body,
    {
        self.body
    }
}

} // verus!
