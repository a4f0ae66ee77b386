//! What is kept of one packet while its fragments arrive.

use crate::fragments::{
    bodies_of, insert_body, lemma_payload_from_empty, lemma_payload_from_len_insert, offset_space,
    payload, payload_from, sorted_by_offset, stands_at, PacketBodyFragment,
};
use crate::gaps::{
    containing_gap, filled, gaps_wf, is_missing, lemma_containing_gap, lemma_filled_missing,
    lemma_filled_wf, MAX_FRAGMENT_BLOCKS,
};
use crate::packet::{fixed_hdr_len, max_hdr_len, max_packet_len, IpVersion, PacketView};
use vstd::prelude::*;

verus! {

/// Number of bytes per fragment block, for IPv4 and for IPv6: offsets count
/// units of 8 bytes.
pub const FRAGMENT_BLOCK_SIZE: u8 = 8;

/// A packet in reassembly.
pub struct Reassembly {
    /// The blocks that have not arrived, as a list of gaps.
    pub missing_blocks: Seq<(u16, u16)>,
    /// The bodies that have arrived, each under its offset.
    pub bodies: Map<u16, Seq<u8>>,
    /// The header of the fragment with offset 0, once it has arrived.
    pub header: Option<Seq<u8>>,
    /// Number of bytes that have arrived, header and bodies.
    pub total_size: nat,
}

impl Reassembly {
    /// A packet of which nothing has arrived: one gap holds every block.
    pub open spec fn fresh() -> Reassembly {
        Reassembly {
            missing_blocks: seq![(0u16, MAX_FRAGMENT_BLOCKS)],
            bodies: Map::empty(),
            header: None,
            total_size: 0,
        }
    }

    /// No block is missing any more.
    pub open spec fn is_complete(self) -> bool {
        self.missing_blocks.len() == 0
    }

    /// Length of the header, 0 while it has not arrived.
    pub open spec fn header_len(self) -> nat {
        match self.header {
            Some(header) => header.len(),
            None => 0,
        }
    }

    /// The state of a packet of IP version `version` is well formed:
    /// - the gaps are well formed;
    /// - the header is there exactly if block 0 is not missing;
    /// - a body stands only at an offset that a fragment can have and that is
    ///   not missing, and is no longer than a packet;
    /// - the header has the length of a header;
    /// - `total_size` counts the bytes of the header and of all bodies.
    pub open spec fn wf(self, version: IpVersion) -> bool {
        &&& gaps_wf(self.missing_blocks)
        &&& (self.header is Some <==> !is_missing(self.missing_blocks, 0))
        &&& forall|offset: u16| #[trigger]
            self.bodies.contains_key(offset) ==> {
                &&& !is_missing(self.missing_blocks, offset as int)
                &&& offset <= MAX_FRAGMENT_BLOCKS
                &&& self.bodies[offset].len() <= max_packet_len(version)
            }
        &&& (self.header matches Some(header) ==> fixed_hdr_len(version) <= header.len()
            <= max_hdr_len(version))
        &&& self.total_size == self.header_len() + payload(self.bodies).len()
    }

    /// The state after the fragment `packet`, whose blocks `range` lie in
    /// `gap`, has been taken in.
    pub open spec fn accept(
        self,
        packet: PacketView,
        range: (u16, u16),
        gap: (u16, u16),
    ) -> Reassembly {
        Reassembly {
            missing_blocks: filled(self.missing_blocks, range, gap, packet.more_fragments),
            bodies: self.bodies.insert(packet.fragment_offset, packet.body),
            header: if packet.fragment_offset == 0 {
                Some(packet.header)
            } else {
                self.header
            },
            total_size: self.total_size + (if packet.fragment_offset == 0 {
                packet.header.len()
            } else {
                0
            }) + packet.body.len(),
        }
    }
}

/// A fresh state is well formed.
pub proof fn lemma_fresh_wf(version: IpVersion)
    ensures
        Reassembly::fresh().wf(version),
{
    let fresh = Reassembly::fresh();
    assert(fresh.missing_blocks[0] == (0u16, MAX_FRAGMENT_BLOCKS));
    assert(is_missing(fresh.missing_blocks, 0));
    lemma_payload_from_empty(fresh.bodies, 0);
}

/// No body of a well-formed state stands at an offset above those that a
/// fragment can have, so the payload is bounded.
pub proof fn lemma_payload_bound(state: Reassembly, version: IpVersion, from: int)
    requires
        state.wf(version),
        0 <= from,
    ensures
        payload_from(state.bodies, from).len() <= (if from <= MAX_FRAGMENT_BLOCKS {
            (MAX_FRAGMENT_BLOCKS + 1 - from) * max_packet_len(version)
        } else {
            0
        }),
    decreases offset_space() - from,
{
    if from < offset_space() {
        lemma_payload_bound(state, version, from + 1);
        if from <= MAX_FRAGMENT_BLOCKS {
            assert((MAX_FRAGMENT_BLOCKS + 1 - from) * max_packet_len(version) == (
            MAX_FRAGMENT_BLOCKS - from) * max_packet_len(version) + max_packet_len(version))
                by (nonlinear_arith);
        }
    }
}

/// The bytes kept of a packet can be counted in 30 bits.
pub proof fn lemma_total_size_bound(state: Reassembly, version: IpVersion)
    requires
        state.wf(version),
    ensures
        state.total_size <= 0x4000_0000,
{
    lemma_payload_bound(state, version, 0);
    let max = max_packet_len(version);
    assert(max <= 65575);
    assert((MAX_FRAGMENT_BLOCKS + 1 - 0) * max <= 8192 * 65575) by (nonlinear_arith)
        requires
            max <= 65575,
            MAX_FRAGMENT_BLOCKS == 8191,
    ;
}

/// Taking in a fragment that fits into a gap keeps the state well formed.
pub proof fn lemma_accept_wf(
    state: Reassembly,
    version: IpVersion,
    packet: PacketView,
    range: (u16, u16),
    gap: (u16, u16),
)
    requires
        state.wf(version),
        packet.wf(),
        packet.version() == version,
        range.0 == packet.fragment_offset,
        range.0 <= range.1 <= MAX_FRAGMENT_BLOCKS,
        containing_gap(state.missing_blocks, range) == Some(gap),
    ensures
        state.accept(packet, range, gap).wf(version),
        !state.bodies.contains_key(packet.fragment_offset),
        packet.fragment_offset == 0 ==> state.header is None,
{
    let next = state.accept(packet, range, gap);
    lemma_containing_gap(state.missing_blocks, range);
    lemma_filled_wf(state.missing_blocks, range, gap, packet.more_fragments);
    assert(is_missing(state.missing_blocks, range.0 as int));
    lemma_filled_missing(state.missing_blocks, range, gap, packet.more_fragments, 0);
    assert forall|offset: u16| #[trigger] next.bodies.contains_key(offset) implies {
        &&& !is_missing(next.missing_blocks, offset as int)
        &&& offset <= MAX_FRAGMENT_BLOCKS
        &&& next.bodies[offset].len() <= max_packet_len(version)
    } by {
        lemma_filled_missing(
            state.missing_blocks,
            range,
            gap,
            packet.more_fragments,
            offset as int,
        );
        if offset != packet.fragment_offset {
            assert(state.bodies.contains_key(offset));
        }
    }
    lemma_payload_from_len_insert(state.bodies, packet.fragment_offset, packet.body, 0);
}

/// What is kept of one packet while its fragments arrive.
#[derive(Debug)]
pub struct FragmentCacheData {
    /// The blocks that have not arrived, as gaps in increasing order. At first
    /// one gap holds every block.
    pub missing_blocks: Vec<(u16, u16)>,
    /// The bodies that have arrived, in increasing order of their offsets.
    pub body_fragments: Vec<PacketBodyFragment>,
    /// The header of the fragment with offset 0.
    pub header: Option<Vec<u8>>,
    /// Number of bytes that have arrived, header and bodies: the length of
    /// the packet once it is complete.
    pub total_size: usize,
}

impl View for FragmentCacheData {
    type V = Reassembly;

    open spec fn view(&self) -> Reassembly {
        Reassembly {
            missing_blocks: self.missing_blocks@,
            bodies: bodies_of(self.body_fragments@),
            header: match self.header {
                Some(header) => Some(header@),
                None => None,
            },
            total_size: self.total_size as nat,
        }
    }
}

impl FragmentCacheData {
    /// The state is well formed, and the bodies stand in the order of their
    /// offsets.
    pub open spec fn wf(&self, version: IpVersion) -> bool {
        &&& self@.wf(version)
        &&& sorted_by_offset(self.body_fragments@)
    }

    /// The state of a packet of which nothing has arrived.
    pub fn new() -> (data: FragmentCacheData)
        ensures
            data@ == Reassembly::fresh(),
            forall|version: IpVersion| data.wf(version),
    {
        let mut ret = FragmentCacheData {
            missing_blocks: Vec::new(),
            body_fragments: Vec::new(),
            header: None,
            total_size: 0,
        };
        ret.missing_blocks.push((0, MAX_FRAGMENT_BLOCKS));
        proof {
            assert(ret.missing_blocks@ =~= seq![(0u16, MAX_FRAGMENT_BLOCKS)]);
            assert forall|offset: u16| !bodies_of(ret.body_fragments@).contains_key(offset) by {
                if bodies_of(ret.body_fragments@).contains_key(offset) {
                    let i = choose|i: int| stands_at(ret.body_fragments@, offset, i);
                }
            }
            assert(bodies_of(ret.body_fragments@) =~= Map::<u16, Seq<u8>>::empty());
            assert forall|version: IpVersion| ret.wf(version) by {
                lemma_fresh_wf(version);
            }
        }
        ret
    }

    /// Keeps the header of the fragment with offset 0. A packet has one such
    /// fragment.
    pub fn record_header(&mut self, header: Vec<u8>)
        requires
            old(self).header is None,
            old(self).total_size + header.len() <= usize::MAX,
        ensures
            final(self).header == Some(header),
            final(self).total_size == old(self).total_size + header.len(),
            final(self).missing_blocks == old(self).missing_blocks,
            final(self).body_fragments == old(self).body_fragments,
    {
        self.total_size += header.len();
        self.header = Some(header);
    }

    /// Keeps the body of a fragment under its offset.
    pub fn record_body(&mut self, offset: u16, body: Vec<u8>)
        requires
            sorted_by_offset(old(self).body_fragments@),
            !old(self)@.bodies.contains_key(offset),
            old(self).total_size + body.len() <= usize::MAX,
        ensures
            sorted_by_offset(final(self).body_fragments@),
            final(self)@.bodies == old(self)@.bodies.insert(offset, body@),
            final(self).total_size == old(self).total_size + body.len(),
            final(self).missing_blocks == old(self).missing_blocks,
            final(self).header == old(self).header,
    {
        self.total_size += body.len();
        insert_body(&mut self.body_fragments, PacketBodyFragment::new(offset, body));
    }
}

} // verus!
