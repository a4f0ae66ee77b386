//! Writing a complete packet into the caller's buffer.

use crate::cache::{IpLayerFragmentCache, TimerAction};
use crate::fragments::{concat_bodies, lemma_concat_is_payload, payload, PacketBodyFragment};
use crate::packet::{
    fixed_hdr_len, max_hdr_len, FragmentCacheKey, IpVersion, IPV4_MIN_HDR_LEN,
    IPV6_FIXED_HDR_LEN,
};
use crate::state::Reassembly;
use crate::wire::{
    be_bytes_u16, be_bytes_u32, copy_bytes, overwritten, rfc1071_checksum, write_u16, write_u32,
};
use vstd::prelude::*;

verus! {

/// Why a packet could not be reassembled.
#[derive(Copy, Clone, Debug, PartialEq, Eq, Structural)]
pub enum FragmentReassemblyError {
    /// Blocks of the packet are still missing.
    MissingFragments,
    /// No packet with this key is in reassembly: none of its fragments has
    /// arrived, or it was reassembled already, or it was given up when its
    /// timer fired.
    InvalidKey,
    /// The fragments do not make a packet: it would be longer than its length
    /// field can say.
    PacketParsingError,
}

/// Where the total length of an IPv4 packet stands in its header: two bytes.
pub const IPV4_TOTAL_LENGTH_OFFSET: usize = 2;

/// Where identification, flags and fragment offset of an IPv4 packet stand in
/// its header: four bytes.
pub const IPV4_FRAGMENT_DATA_OFFSET: usize = 4;

/// Where the checksum of an IPv4 header stands in it: two bytes.
pub const IPV4_CHECKSUM_OFFSET: usize = 10;

/// Where the payload length of an IPv6 packet stands in its header: two bytes.
pub const IPV6_PAYLOAD_LEN_OFFSET: usize = 4;

/// The bytes of an IPv4 header that its checksum is computed over: all but the
/// checksum itself.
pub open spec fn ipv4_checksum_input(bytes: Seq<u8>, header_len: int) -> Seq<u8> {
    bytes.subrange(0, IPV4_CHECKSUM_OFFSET as int) + bytes.subrange(
        IPV4_CHECKSUM_OFFSET + 2,
        header_len,
    )
}

/// An IPv4 packet of `packet_len` bytes with a header of `header_len` bytes,
/// made whole: the total length is `packet_len`; identification, flags and
/// fragment offset are zero; the checksum is that of the header as it then
/// stands.
pub open spec fn ipv4_made_whole(bytes: Seq<u8>, header_len: int, packet_len: u16) -> Seq<u8> {
    let sized = overwritten(bytes, IPV4_TOTAL_LENGTH_OFFSET as int, be_bytes_u16(packet_len));
    let unmarked = overwritten(sized, IPV4_FRAGMENT_DATA_OFFSET as int, be_bytes_u32(0));
    overwritten(
        unmarked,
        IPV4_CHECKSUM_OFFSET as int,
        rfc1071_checksum(ipv4_checksum_input(unmarked, header_len))@,
    )
}

/// An IPv6 packet made whole: the payload length is `payload_len`.
pub open spec fn ipv6_made_whole(bytes: Seq<u8>, payload_len: u16) -> Seq<u8> {
    overwritten(bytes, IPV6_PAYLOAD_LEN_OFFSET as int, be_bytes_u16(payload_len))
}

/// What the length field of a packet of `packet_len` bytes has to say: for
/// IPv4 the length of the packet, for IPv6 the length of what follows the
/// fixed header. `None` where 16 bits cannot say it.
pub open spec fn length_field(version: IpVersion, packet_len: int) -> Option<u16> {
    let value = match version {
        IpVersion::V4 => packet_len,
        IpVersion::V6 => packet_len - IPV6_FIXED_HDR_LEN,
    };
    if 0 <= value <= u16::MAX {
        Some(value as u16)
    } else {
        None
    }
}

/// A buffer after header and bodies were written to its front, and what is
/// returned with it: the packet made whole and its length, or the bytes as
/// they were written and an error where the length field cannot hold the
/// length.
pub open spec fn finished(
    version: IpVersion,
    buffer: Seq<u8>,
    header_len: int,
    packet_len: int,
) -> (Seq<u8>, Result<usize, FragmentReassemblyError>) {
    match length_field(version, packet_len) {
        None => (buffer, Err(FragmentReassemblyError::PacketParsingError)),
        Some(value) => (
            match version {
                IpVersion::V4 => ipv4_made_whole(buffer, header_len, value),
                IpVersion::V6 => ipv6_made_whole(buffer, value),
            },
            Ok(packet_len as usize),
        ),
    }
}

/// A cache and a buffer after [`reassemble_packet`], with what the caller is
/// told.
pub struct Reassembled {
    pub cache: Map<FragmentCacheKey, Reassembly>,
    pub buffer: Seq<u8>,
    pub result: Result<usize, FragmentReassemblyError>,
    pub timer: Option<TimerAction>,
}

/// The bytes of a complete packet as they arrived: the header, then the
/// bodies in increasing order of their offsets.
pub open spec fn assembled(state: Reassembly) -> Seq<u8> {
    state.header.unwrap() + payload(state.bodies)
}

/// What [`reassemble_packet`] does for `key` on a cache and a buffer.
///
/// - Without a packet under `key` the key is invalid, and with a packet of
///   which blocks are missing fragments are missing: cache and buffer stay as
///   they are.
/// - A complete packet leaves the cache, and its timer is to be stopped. Header
///   and bodies are written to the front of the buffer and the packet is made
///   whole, see [`finished`].
pub open spec fn reassembled(
    cache: Map<FragmentCacheKey, Reassembly>,
    key: FragmentCacheKey,
    buffer: Seq<u8>,
) -> Reassembled {
    if !cache.contains_key(key) {
        Reassembled {
            cache,
            buffer,
            result: Err(FragmentReassemblyError::InvalidKey),
            timer: None,
        }
    } else if !cache[key].is_complete() {
        Reassembled {
            cache,
            buffer,
            result: Err(FragmentReassemblyError::MissingFragments),
            timer: None,
        }
    } else {
        let bytes = assembled(cache[key]);
        let done = finished(
            key.version(),
            overwritten(buffer, 0, bytes),
            cache[key].header.unwrap().len() as int,
            bytes.len() as int,
        );
        Reassembled {
            cache: cache.remove(key),
            buffer: done.0,
            result: done.1,
            timer: Some(TimerAction::Cancel { key }),
        }
    }
}

/// The bodies of the first fragments of a list are no longer than those of
/// all, and one body more makes them longer by its length.
pub proof fn lemma_concat_prefix(fragments: Seq<PacketBodyFragment>, i: int)
    requires
        0 <= i <= fragments.len(),
    ensures
        concat_bodies(fragments.take(i)).len() <= concat_bodies(fragments).len(),
        i < fragments.len() ==> concat_bodies(fragments.take(i + 1)) == concat_bodies(
            fragments.take(i),
        ) + fragments[i].data@,
    decreases fragments.len() - i,
{
    if i < fragments.len() {
        assert(fragments.take(i + 1).drop_last() =~= fragments.take(i));
        lemma_concat_prefix(fragments, i + 1);
    } else {
        assert(fragments.take(i) =~= fragments);
    }
}

/// The bytes of an IPv4 header that its checksum is computed over.
pub fn ipv4_checksum_bytes(bytes: &Vec<u8>, header_len: usize) -> (covered: Vec<u8>)
    requires
        IPV4_MIN_HDR_LEN <= header_len <= bytes.len(),
    ensures
        covered@ == ipv4_checksum_input(bytes@, header_len as int),
{
    let mut covered: Vec<u8> = Vec::new();
    let mut i: usize = 0;
    while i < IPV4_CHECKSUM_OFFSET
        invariant
            i <= IPV4_CHECKSUM_OFFSET <= bytes.len(),
            covered@ == bytes@.subrange(0, i as int),
        decreases IPV4_CHECKSUM_OFFSET - i,
    {
        covered.push(bytes[i]);
        i += 1;
        assert(covered@ =~= bytes@.subrange(0, i as int));
    }
    i = IPV4_CHECKSUM_OFFSET + 2;
    while i < header_len
        invariant
            IPV4_CHECKSUM_OFFSET + 2 <= i <= header_len <= bytes.len(),
            covered@ == bytes@.subrange(0, IPV4_CHECKSUM_OFFSET as int) + bytes@.subrange(
                IPV4_CHECKSUM_OFFSET + 2,
                i as int,
            ),
        decreases header_len - i,
    {
        covered.push(bytes[i]);
        i += 1;
        assert(covered@ =~= bytes@.subrange(0, IPV4_CHECKSUM_OFFSET as int) + bytes@.subrange(
            IPV4_CHECKSUM_OFFSET + 2,
            i as int,
        ));
    }
    covered
}

/// Writes a checksum into the header of an IPv4 packet.
pub fn store_ipv4_checksum(bytes: &mut Vec<u8>, checksum: [u8; 2])
    requires
        IPV4_MIN_HDR_LEN <= old(bytes).len(),
    ensures
        final(bytes)@ == overwritten(old(bytes)@, IPV4_CHECKSUM_OFFSET as int, checksum@),
{
    bytes.set(IPV4_CHECKSUM_OFFSET, checksum[0]);
    bytes.set(IPV4_CHECKSUM_OFFSET + 1, checksum[1]);
    assert(bytes@ =~= overwritten(old(bytes)@, IPV4_CHECKSUM_OFFSET as int, checksum@));
}

/// Writes a packet into `buffer`: the header, then the bodies in the order in
/// which they stand, and makes it whole. Returns the packet's length.
///
/// For IPv4 the total length is set, what marked the packet as a fragment is
/// cleared and the header checksum is computed anew. For IPv6 the payload
/// length is set. Where the length field cannot hold the length, header and
/// bodies stand in the buffer as they arrived and the packet is refused.
pub fn reassemble_packet_helper(
    buffer: &mut Vec<u8>,
    version: IpVersion,
    header: Vec<u8>,
    body_fragments: Vec<PacketBodyFragment>,
) -> (result: Result<usize, FragmentReassemblyError>)
    requires
        fixed_hdr_len(version) <= header.len() <= max_hdr_len(version),
        header.len() + concat_bodies(body_fragments@).len() <= old(buffer).len(),
    ensures
        (final(buffer)@, result) == finished(
            version,
            overwritten(old(buffer)@, 0, header@ + concat_bodies(body_fragments@)),
            header.len() as int,
            header.len() + concat_bodies(body_fragments@).len(),
        ),
{
    // First the header.
    copy_bytes(buffer, 0, &header);
    let mut byte_count: usize = header.len();
    assert(concat_bodies(body_fragments@.take(0)) =~= Seq::<u8>::empty());
    assert(header@ + Seq::<u8>::empty() =~= header@);

    // Then the bodies, in increasing order of their offsets.
    let mut i: usize = 0;
    while i < body_fragments.len()
        invariant
            i <= body_fragments.len(),
            byte_count == header.len() + concat_bodies(body_fragments@.take(i as int)).len(),
            header.len() + concat_bodies(body_fragments@).len() <= old(buffer).len(),
            buffer@ == overwritten(
                old(buffer)@,
                0,
                header@ + concat_bodies(body_fragments@.take(i as int)),
            ),
        decreases body_fragments.len() - i,
    {
        proof {
            lemma_concat_prefix(body_fragments@, i as int);
            lemma_concat_prefix(body_fragments@, i + 1);
        }
        let ghost so_far = header@ + concat_bodies(body_fragments@.take(i as int));
        copy_bytes(buffer, byte_count, &body_fragments[i].data);
        byte_count += body_fragments[i].data.len();
        assert(buffer@ =~= overwritten(old(buffer)@, 0, so_far + body_fragments@[i as int].data@));
        assert(so_far + body_fragments@[i as int].data@ =~= header@ + concat_bodies(
            body_fragments@.take(i + 1),
        ));
        i += 1;
    }
    assert(body_fragments@.take(i as int) =~= body_fragments@);

    match version {
        IpVersion::V4 => {
            // The packet must not be longer than its total length can say.
            if byte_count > (u16::MAX as usize) {
                return Err(FragmentReassemblyError::PacketParsingError);
            }
            write_u16(buffer, IPV4_TOTAL_LENGTH_OFFSET, byte_count as u16);
            // The packet is whole: it is no fragment any more.
            write_u32(buffer, IPV4_FRAGMENT_DATA_OFFSET, 0);
            // The header has changed, and so has its checksum.
            let covered = ipv4_checksum_bytes(buffer, header.len());
            let checksum = internet_checksum::checksum(covered.as_slice());
            store_ipv4_checksum(buffer, checksum);
        },
        IpVersion::V6 => {
            // The header as it was kept holds the fixed header and the
            // extension headers; what follows the fixed header is payload.
            let payload_length = byte_count - IPV6_FIXED_HDR_LEN;
            if payload_length > (u16::MAX as usize) {
                return Err(FragmentReassemblyError::PacketParsingError);
            }
            write_u16(buffer, IPV6_PAYLOAD_LEN_OFFSET, payload_length as u16);
        },
    }
    Ok(byte_count)
}

/// Reassembles the packet with this key into `buffer`: see [`reassembled`].
///
/// `buffer` has room for the packet: [`process_fragment`] gave its length when
/// it said that the packet was ready. On success the packet stands at the
/// front of the buffer and its length is returned.
///
/// [`process_fragment`]: crate::process::process_fragment
pub fn reassemble_packet(
    cache: &mut IpLayerFragmentCache,
    key: &FragmentCacheKey,
    buffer: &mut Vec<u8>,
) -> (outcome: (Result<usize, FragmentReassemblyError>, Option<TimerAction>))
    requires
        old(cache).wf(),
        old(cache)@.contains_key(*key) && old(cache)@[*key].is_complete() ==> old(
            cache,
        )@[*key].total_size <= old(buffer).len(),
    ensures
        final(cache).wf(),
        final(cache)@ == reassembled(old(cache)@, *key, old(buffer)@).cache,
        final(buffer)@ == reassembled(old(cache)@, *key, old(buffer)@).buffer,
        outcome.0 == reassembled(old(cache)@, *key, old(buffer)@).result,
        outcome.1 == reassembled(old(cache)@, *key, old(buffer)@).timer,
{
    let fragment_data = match cache.get(key) {
        // No fragment with this key has arrived, or the packet is gone.
        None => {
            return (Err(FragmentReassemblyError::InvalidKey), None);
        },
        Some(data) => data,
    };
    if !fragment_data.missing_blocks.is_empty() {
        return (Err(FragmentReassemblyError::MissingFragments), None);
    }
    proof {
        old(cache).lemma_wf();
    }
    // The packet is complete: it leaves the cache, and its timer is stopped.
    let data = cache.remove(key).unwrap();
    proof {
        lemma_concat_is_payload(data.body_fragments@);
    }
    // Block 0 is not missing, so the header has arrived.
    let header = data.header.unwrap();
    let result = reassemble_packet_helper(buffer, key.0.version(), header, data.body_fragments);
    (result, Some(TimerAction::Cancel { key: *key }))
}

} // verus!
