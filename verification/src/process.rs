//! Taking in the fragments as they arrive.

use crate::cache::{entry_or_fresh, IpLayerFragmentCache, TimerAction, REASSEMBLY_TIMEOUT_SECONDS};
use crate::gaps::{
    containing_gap, ends_consistently, fill_gap, find_gap, first_overlap, lemma_containing_gap,
    lemma_first_overlap_unique, MAX_FRAGMENT_BLOCKS,
};
use crate::packet::{FragmentCacheKey, FragmentablePacket, PacketView};
use crate::state::{
    lemma_accept_wf, lemma_total_size_bound, Reassembly, FRAGMENT_BLOCK_SIZE,
};
use vstd::prelude::*;

verus! {

/// What became of a packet that was handed to [`process_fragment`].
#[derive(Debug)]
pub enum FragmentProcessingState {
    /// The packet is no fragment, so there is nothing to reassemble. It comes
    /// back as it was.
    NotNeeded(FragmentablePacket),
    /// The packet is a fragment and cannot be used:
    /// - more fragments are to follow it, and its body is no multiple of
    ///   [`FRAGMENT_BLOCK_SIZE`];
    /// - or its last block lies above [`MAX_FRAGMENT_BLOCKS`];
    /// - or one of its blocks is not missing. What had arrived of its packet
    ///   is then dropped with it.
    InvalidFragment,
    /// The fragment was taken in, and blocks of its packet are still missing.
    NeedMoreFragments,
    /// The fragment was taken in and its packet is complete. A buffer of
    /// `packet_len` bytes and `key` are what
    /// [`reassemble_packet`](crate::reassemble::reassemble_packet) asks for.
    Ready { key: FragmentCacheKey, packet_len: usize },
}

/// A packet is a fragment unless it starts at offset 0 and nothing follows it.
pub open spec fn is_fragment(packet: PacketView) -> bool {
    packet.fragment_offset != 0 || packet.more_fragments
}

/// Only the last fragment of a packet may have a body that is no multiple of
/// the block size.
pub open spec fn is_aligned(packet: PacketView) -> bool {
    packet.more_fragments ==> packet.body.len() % (FRAGMENT_BLOCK_SIZE as nat) == 0
}

/// Number of blocks that a body of `body_len` bytes takes: the last block may
/// be a partial one.
pub open spec fn num_blocks(body_len: nat) -> int {
    (body_len + FRAGMENT_BLOCK_SIZE - 1) / (FRAGMENT_BLOCK_SIZE as int)
}

/// The blocks that a fragment with a body brings, first and last, unless its
/// last block lies above [`MAX_FRAGMENT_BLOCKS`].
pub open spec fn fragment_blocks(packet: PacketView) -> Option<(u16, u16)> {
    let last = packet.fragment_offset + num_blocks(packet.body.len()) - 1;
    if last <= MAX_FRAGMENT_BLOCKS {
        Some((packet.fragment_offset, last as u16))
    } else {
        None
    }
}

/// The blocks of a packet that [`process_fragment`] looks up in the cache:
/// those of a fragment with a body that is aligned and lies within the blocks
/// that a fragment can bring.
pub open spec fn usable_blocks(packet: PacketView) -> Option<(u16, u16)> {
    if is_fragment(packet) && packet.body.len() > 0 && is_aligned(packet) {
        fragment_blocks(packet)
    } else {
        None
    }
}

/// The cache can take `packet` in: if it is a last fragment that fits into a
/// gap and ends before the gap does, the gap is the open-ended one. In a
/// cache that only ever saw fragments cut from whole packets this holds of
/// every such fragment.
pub open spec fn admits(cache: Map<FragmentCacheKey, Reassembly>, packet: PacketView) -> bool {
    match usable_blocks(packet) {
        Some(range) => match containing_gap(
            entry_or_fresh(cache, packet.key()).missing_blocks,
            range,
        ) {
            Some(gap) => ends_consistently(gap, range, packet.more_fragments),
            None => true,
        },
        None => true,
    }
}

/// A cache after a packet was processed, with what the caller is told.
pub struct Processed {
    pub cache: Map<FragmentCacheKey, Reassembly>,
    pub state: FragmentProcessingState,
    pub timer: Option<TimerAction>,
}

/// What [`process_fragment`] does with `packet` on a cache.
///
/// - A packet that is no fragment comes back, and the cache stays as it is.
/// - A fragment without a body is passed over: more fragments are needed, and
///   the cache stays as it is.
/// - A fragment that is not aligned, or whose last block lies too high, is
///   invalid, and the cache stays as it is.
/// - Any other fragment belongs to the packet with its key, which is put into
///   the cache if it is not there, and its timer started. If a gap holds the
///   fragment's blocks, the fragment is taken in, and the packet is ready once
///   no block is missing. If none does, the fragment is invalid, its packet is
///   dropped from the cache and the packet's timer is to be stopped.
pub open spec fn processed(
    cache: Map<FragmentCacheKey, Reassembly>,
    packet: FragmentablePacket,
) -> Processed {
    let p = packet@;
    let key = p.key();
    if !is_fragment(p) {
        Processed { cache, state: FragmentProcessingState::NotNeeded(packet), timer: None }
    } else if p.body.len() == 0 {
        Processed { cache, state: FragmentProcessingState::NeedMoreFragments, timer: None }
    } else {
        match usable_blocks(p) {
            None => Processed {
                cache,
                state: FragmentProcessingState::InvalidFragment,
                timer: None,
            },
            Some(range) => match containing_gap(entry_or_fresh(cache, key).missing_blocks, range) {
                None => Processed {
                    cache: cache.remove(key),
                    state: FragmentProcessingState::InvalidFragment,
                    timer: Some(TimerAction::Cancel { key }),
                },
                Some(gap) => {
                    let next = entry_or_fresh(cache, key).accept(p, range, gap);
                    Processed {
                        cache: cache.insert(key, next),
                        state: if next.is_complete() {
                            FragmentProcessingState::Ready {
                                key,
                                packet_len: next.total_size as usize,
                            }
                        } else {
                            FragmentProcessingState::NeedMoreFragments
                        },
                        timer: if cache.contains_key(key) {
                            None
                        } else {
                            Some(
                                TimerAction::Schedule {
                                    key,
                                    seconds: REASSEMBLY_TIMEOUT_SECONDS,
                                },
                            )
                        },
                    }
                },
            },
        }
    }
}

/// The gap of a packet of which nothing has arrived holds every range of
/// blocks that a fragment can bring.
pub proof fn lemma_fresh_holds_all(range: (u16, u16))
    requires
        range.0 <= range.1 <= MAX_FRAGMENT_BLOCKS,
    ensures
        containing_gap(Reassembly::fresh().missing_blocks, range) == Some(
            (0u16, MAX_FRAGMENT_BLOCKS),
        ),
{
    let gaps = Reassembly::fresh().missing_blocks;
    assert(gaps[0] == (0u16, MAX_FRAGMENT_BLOCKS));
    assert(first_overlap(gaps, range, 0));
    let i = choose|i: int| first_overlap(gaps, range, i);
    lemma_first_overlap_unique(gaps, range, i, 0);
}

/// The header bytes that the reassembled packet gets from the fragment with
/// offset 0.
pub fn get_header(packet: &FragmentablePacket) -> (header: Vec<u8>)
    ensures
        header@ == packet@.header,
{
    let header = packet.header().clone();
    assert(header@ =~= packet@.header);
    header
}

/// The blocks that a body of `body_len` bytes at block `offset` takes, unless
/// the last of them lies above [`MAX_FRAGMENT_BLOCKS`].
fn fragment_blocks_range(offset: u16, body_len: usize) -> (range: Option<(u16, u16)>)
    requires
        0 < body_len <= usize::MAX - 0x10000,
    ensures
        range == (if offset + num_blocks(body_len as nat) - 1 <= MAX_FRAGMENT_BLOCKS {
            Some((offset, (offset + num_blocks(body_len as nat) - 1) as u16))
        } else {
            None
        }),
        range matches Some(r) ==> r.0 <= r.1,
{
    // A last fragment may end in a partial block, so the quotient is rounded
    // up. The body is not empty.
    let num_fragment_blocks = 1 + ((body_len - 1) / (FRAGMENT_BLOCK_SIZE as usize));
    assert(num_fragment_blocks == num_blocks(body_len as nat));
    let offset_end = (offset as usize) + num_fragment_blocks - 1;
    if offset_end <= MAX_FRAGMENT_BLOCKS as usize {
        Some((offset, offset_end as u16))
    } else {
        None
    }
}

/// Can `packet` be handed to [`process_fragment`]? See [`admits`].
pub fn admits_fragment(cache: &IpLayerFragmentCache, packet: &FragmentablePacket) -> (ok: bool)
    requires
        cache.wf(),
    ensures
        ok == admits(cache@, packet@),
{
    proof {
        use_type_invariant(packet);
    }
    let (id, offset, m_flag) = packet.fragment_data();
    let body_len = packet.body().len();
    if (offset == 0 && !m_flag) || body_len == 0 || (m_flag && (body_len % (
    FRAGMENT_BLOCK_SIZE as usize) != 0)) {
        return true;
    }
    let range = match fragment_blocks_range(offset, body_len) {
        None => {
            return true;
        },
        Some(range) => range,
    };
    let key = FragmentCacheKey::new(packet.src_ip(), packet.dst_ip(), id);
    let found = match cache.get(&key) {
        Some(data) => find_gap(&data.missing_blocks, range),
        None => {
            proof {
                lemma_fresh_holds_all(range);
            }
            return true;
        },
    };
    match found {
        Some(gap) => !(range.1 < gap.1 && !m_flag) || gap.1 == MAX_FRAGMENT_BLOCKS,
        None => true,
    }
}

/// Takes in a packet that may be a fragment: see [`processed`].
///
/// The packet's expiry timer is to be started when its first fragment is taken
/// in, and stopped when the packet is dropped. A packet that is ready stays in
/// the cache, timer running, until it is reassembled.
pub fn process_fragment(cache: &mut IpLayerFragmentCache, packet: FragmentablePacket) -> (outcome: (
    FragmentProcessingState,
    Option<TimerAction>,
))
    requires
        old(cache).wf(),
        admits(old(cache)@, packet@),
    ensures
        final(cache).wf(),
        final(cache)@ == processed(old(cache)@, packet).cache,
        outcome.0 == processed(old(cache)@, packet).state,
        outcome.1 == processed(old(cache)@, packet).timer,
{
    proof {
        use_type_invariant(&packet);
    }
    let (id, offset, m_flag) = packet.fragment_data();

    // A packet that starts at offset 0 and that nothing follows is whole.
    if offset == 0 && !m_flag {
        return (FragmentProcessingState::NotNeeded(packet), None);
    }
    // The packet is a fragment. One without a body brings nothing.
    let body_len = packet.body().len();
    if body_len == 0 {
        return (FragmentProcessingState::NeedMoreFragments, None);
    }
    // Only the last fragment may end in a partial block.
    if m_flag && (body_len % (FRAGMENT_BLOCK_SIZE as usize) != 0) {
        return (FragmentProcessingState::InvalidFragment, None);
    }
    let fragment_blocks_range = match fragment_blocks_range(offset, body_len) {
        None => {
            return (FragmentProcessingState::InvalidFragment, None);
        },
        Some(range) => range,
    };

    let key = FragmentCacheKey::new(packet.src_ip(), packet.dst_ip(), id);
    let ghost before = entry_or_fresh(old(cache)@, key);
    let (fragment_data, timer) = cache.get_or_create(&key);

    let found_gap = match find_gap(&fragment_data.missing_blocks, fragment_blocks_range) {
        None => {
            // A block of the fragment is not missing: the fragment overlaps
            // what has arrived. The whole packet is given up.
            let _ = cache.remove(&key);
            assert(cache@ =~= old(cache)@.remove(key));
            return (FragmentProcessingState::InvalidFragment, Some(TimerAction::Cancel { key }));
        },
        Some(gap) => gap,
    };
    proof {
        lemma_containing_gap(before.missing_blocks, fragment_blocks_range);
        lemma_accept_wf(before, key.version(), packet@, fragment_blocks_range, found_gap);
        lemma_total_size_bound(before, key.version());
    }
    fill_gap(&mut fragment_data.missing_blocks, fragment_blocks_range, found_gap, m_flag);

    // The fragment with offset 0 brings the header of the packet.
    if offset == 0 {
        fragment_data.record_header(get_header(&packet));
    }
    fragment_data.record_body(offset, packet.into_body());

    let state = if fragment_data.missing_blocks.is_empty() {
        FragmentProcessingState::Ready { key, packet_len: fragment_data.total_size }
    } else {
        FragmentProcessingState::NeedMoreFragments
    };
    assert(fragment_data@ == before.accept(packet@, fragment_blocks_range, found_gap));
    (state, timer)
}

/// Takes in a packet if the cache can take it in, see [`admits`], and hands
/// it back if not, with the cache as it was.
pub fn try_process_fragment(
    cache: &mut IpLayerFragmentCache,
    packet: FragmentablePacket,
) -> (outcome: Result<(FragmentProcessingState, Option<TimerAction>), FragmentablePacket>)
    requires
        old(cache).wf(),
    ensures
        final(cache).wf(),
        match outcome {
            Ok(done) => {
                &&& admits(old(cache)@, packet@)
                &&& final(cache)@ == processed(old(cache)@, packet).cache
                &&& done.0 == processed(old(cache)@, packet).state
                &&& done.1 == processed(old(cache)@, packet).timer
            },
            Err(back) => {
                &&& !admits(old(cache)@, packet@)
                &&& final(cache)@ == old(cache)@
                &&& back == packet
            },
        },
{
    if admits_fragment(cache, &packet) {
        Ok(process_fragment(cache, packet))
    } else {
        Err(packet)
    }
}

} // verus!
