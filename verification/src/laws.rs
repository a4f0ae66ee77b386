//! What holds of the cache whatever fragments arrive.

use crate::cache::{cache_wf, entry_or_fresh, TimerAction, REASSEMBLY_TIMEOUT_SECONDS};
use crate::gaps::{containing_gap, lemma_containing_gap, lemma_filled_missing};
use crate::packet::{FragmentCacheKey, FragmentablePacket};
use crate::process::{
    is_aligned, lemma_fresh_holds_all, processed, usable_blocks, FragmentProcessingState,
};
use crate::reassemble::{reassembled, FragmentReassemblyError};
use crate::state::{lemma_accept_wf, lemma_fresh_wf, Reassembly};
use vstd::prelude::*;

verus! {

/// The timers that run after the caller has done what it was told.
pub open spec fn timers_after(
    running: Set<FragmentCacheKey>,
    action: Option<TimerAction>,
) -> Set<FragmentCacheKey> {
    match action {
        None => running,
        Some(TimerAction::Schedule { key, seconds }) => running.insert(key),
        Some(TimerAction::Cancel { key }) => running.remove(key),
    }
}

/// `range` and `other` have a block in common.
pub open spec fn ranges_overlap(range: (u16, u16), other: (u16, u16)) -> bool {
    range.0 <= other.1 && other.0 <= range.1
}

/// A fragment was taken into the cache: its packet holds its body now.
pub open spec fn taken_in(
    cache: Map<FragmentCacheKey, Reassembly>,
    packet: FragmentablePacket,
) -> bool {
    usable_blocks(packet@) matches Some(range) && containing_gap(
        entry_or_fresh(cache, packet@.key()).missing_blocks,
        range,
    ) is Some
}

/// Processing a packet keeps the packets of the cache well formed.
pub proof fn law_processing_keeps_cache_wf(
    cache: Map<FragmentCacheKey, Reassembly>,
    packet: FragmentablePacket,
)
    requires
        cache_wf(cache),
        packet@.wf(),
    ensures
        cache_wf(processed(cache, packet).cache),
{
    let p = packet@;
    let key = p.key();
    if let Some(range) = usable_blocks(p) {
        let entry = entry_or_fresh(cache, key);
        lemma_fresh_wf(key.version());
        if let Some(gap) = containing_gap(entry.missing_blocks, range) {
            lemma_accept_wf(entry, key.version(), p, range, gap);
        }
    }
}

/// A timer runs for exactly the packets in the cache: where this holds before
/// a packet is processed or a key is reassembled, it holds after the caller
/// has done with the timers what it was told. A timer that is started runs for
/// [`REASSEMBLY_TIMEOUT_SECONDS`] seconds.
pub proof fn law_timers_follow_cache(
    cache: Map<FragmentCacheKey, Reassembly>,
    packet: FragmentablePacket,
    key: FragmentCacheKey,
    buffer: Seq<u8>,
)
    ensures
        timers_after(cache.dom(), processed(cache, packet).timer) == processed(
            cache,
            packet,
        ).cache.dom(),
        timers_after(cache.dom(), reassembled(cache, key, buffer).timer) == reassembled(
            cache,
            key,
            buffer,
        ).cache.dom(),
        processed(cache, packet).timer matches Some(TimerAction::Schedule { key, seconds })
            ==> seconds == REASSEMBLY_TIMEOUT_SECONDS && key == packet@.key(),
{
    let p = packet@;
    let done = processed(cache, packet);
    if let Some(range) = usable_blocks(p) {
        if !cache.contains_key(p.key()) {
            lemma_fresh_holds_all(range);
        }
        if cache.contains_key(p.key()) && containing_gap(
            entry_or_fresh(cache, p.key()).missing_blocks,
            range,
        ) is Some {
            assert(done.cache.dom() =~= cache.dom());
        }
    }
    assert(timers_after(cache.dom(), done.timer) =~= done.cache.dom());
    assert(timers_after(cache.dom(), reassembled(cache, key, buffer).timer) =~= reassembled(
        cache,
        key,
        buffer,
    ).cache.dom());
}

/// A fragment that overlaps one that was taken in is invalid, and nothing is
/// left of its packet: a fragment that comes twice ends its packet.
///
/// The second fragment is one that reaches the cache: it has a body, is
/// aligned and does not lie too high.
pub proof fn law_overlap_drops_packet(
    cache: Map<FragmentCacheKey, Reassembly>,
    first: FragmentablePacket,
    second: FragmentablePacket,
)
    requires
        cache_wf(cache),
        first@.wf(),
        taken_in(cache, first),
        second@.key() == first@.key(),
        usable_blocks(second@) matches Some(range) && ranges_overlap(
            range,
            usable_blocks(first@).unwrap(),
        ),
    ensures
        processed(processed(cache, first).cache, second).state
            == FragmentProcessingState::InvalidFragment,
        !processed(processed(cache, first).cache, second).cache.contains_key(first@.key()),
        processed(processed(cache, first).cache, second).timer == Some(
            TimerAction::Cancel { key: first@.key() },
        ),
{
    let p = first@;
    let key = p.key();
    let range = usable_blocks(p).unwrap();
    let other = usable_blocks(second@).unwrap();
    let entry = entry_or_fresh(cache, key);
    let gap = containing_gap(entry.missing_blocks, range).unwrap();
    lemma_fresh_wf(key.version());
    lemma_accept_wf(entry, key.version(), p, range, gap);
    lemma_containing_gap(entry.missing_blocks, range);
    let next = entry.accept(p, range, gap);
    let block: int = if range.0 <= other.0 {
        other.0 as int
    } else {
        range.0 as int
    };
    lemma_filled_missing(entry.missing_blocks, range, gap, p.more_fragments, block);
    lemma_containing_gap(next.missing_blocks, other);
    assert(processed(cache, first).cache[key] == next);
}

/// A fragment whose body is no multiple of the block size is taken in only if
/// it is the last of its packet. One that more fragments are to follow is
/// invalid, and the cache stays as it is.
pub proof fn law_only_last_fragment_unaligned(
    cache: Map<FragmentCacheKey, Reassembly>,
    packet: FragmentablePacket,
)
    requires
        !is_aligned(packet@),
    ensures
        packet@.more_fragments,
        processed(cache, packet).state == FragmentProcessingState::InvalidFragment,
        processed(cache, packet).cache == cache,
        processed(cache, packet).timer is None,
        !taken_in(cache, packet),
{
}

/// Once the timer of a packet has fired and the packet was given up, nothing
/// is left of it: its key is invalid, and cache and buffer stay as they are.
pub proof fn law_expired_key_is_invalid(
    cache: Map<FragmentCacheKey, Reassembly>,
    key: FragmentCacheKey,
    buffer: Seq<u8>,
)
    ensures
        !cache.remove(key).contains_key(key),
        reassembled(cache.remove(key), key, buffer).result == Err::<
            usize,
            FragmentReassemblyError,
        >(FragmentReassemblyError::InvalidKey),
        reassembled(cache.remove(key), key, buffer).cache == cache.remove(key),
        reassembled(cache.remove(key), key, buffer).buffer == buffer,
        reassembled(cache.remove(key), key, buffer).timer is None,
{
}

/// Packets with different keys do not touch each other. What is done with a
/// packet, and what is said of it, is the same whether or not a packet with
/// another key was processed before; and the cache is the same whichever of
/// the two came first.
pub proof fn law_keys_are_independent(
    cache: Map<FragmentCacheKey, Reassembly>,
    packet: FragmentablePacket,
    other: FragmentablePacket,
)
    requires
        packet@.key() != other@.key(),
    ensures
        processed(processed(cache, other).cache, packet).state == processed(cache, packet).state,
        processed(processed(cache, other).cache, packet).timer == processed(cache, packet).timer,
        processed(processed(cache, other).cache, packet).cache == processed(
            processed(cache, packet).cache,
            other,
        ).cache,
        entry_or_fresh(processed(cache, other).cache, packet@.key()) == entry_or_fresh(
            cache,
            packet@.key(),
        ),
        processed(cache, other).cache.contains_key(packet@.key()) == cache.contains_key(
            packet@.key(),
        ),
{
    let after_other = processed(cache, other).cache;
    let after_packet = processed(cache, packet).cache;
    assert(entry_or_fresh(after_other, packet@.key()) == entry_or_fresh(cache, packet@.key()));
    assert(entry_or_fresh(after_packet, other@.key()) == entry_or_fresh(cache, other@.key()));
    assert(processed(after_other, packet).cache =~= processed(after_packet, other).cache);
}

/// Reassembling one packet does not touch a packet with another key: what is
/// written, and what is said, is the same whether or not a fragment of another
/// packet was processed before.
pub proof fn law_reassembly_is_independent(
    cache: Map<FragmentCacheKey, Reassembly>,
    key: FragmentCacheKey,
    buffer: Seq<u8>,
    other: FragmentablePacket,
)
    requires
        other@.key() != key,
    ensures
        reassembled(processed(cache, other).cache, key, buffer).result == reassembled(
            cache,
            key,
            buffer,
        ).result,
        reassembled(processed(cache, other).cache, key, buffer).buffer == reassembled(
            cache,
            key,
            buffer,
        ).buffer,
        reassembled(processed(cache, other).cache, key, buffer).timer == reassembled(
            cache,
            key,
            buffer,
        ).timer,
        reassembled(processed(cache, other).cache, key, buffer).cache == processed(
            reassembled(cache, key, buffer).cache,
            other,
        ).cache,
{
    let after_other = processed(cache, other).cache;
    let after_key = reassembled(cache, key, buffer).cache;
    assert(after_other.contains_key(key) == cache.contains_key(key));
    if cache.contains_key(key) {
        assert(after_other[key] == cache[key]);
    }
    assert(entry_or_fresh(after_key, other@.key()) == entry_or_fresh(cache, other@.key()));
    assert(reassembled(after_other, key, buffer).cache =~= processed(after_key, other).cache);
}

} // verus!
