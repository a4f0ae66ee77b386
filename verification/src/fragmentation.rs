//! A packet cut into fragments comes out whole, in whatever order the
//! fragments arrive.

use crate::cache::{entry_or_fresh, TimerAction, REASSEMBLY_TIMEOUT_SECONDS};
use crate::fragments::{lemma_payload_from_empty, payload, payload_from};
use crate::gaps::{
    containing_gap, is_missing, lemma_containing_gap, lemma_filled_missing, lemma_open_ended,
    MAX_FRAGMENT_BLOCKS,
};
use crate::packet::{
    fixed_hdr_len, FragmentCacheKey, FragmentablePacket, IpVersion, PacketView,
};
use crate::process::{
    admits, is_fragment, num_blocks, processed, usable_blocks, FragmentProcessingState,
};
use crate::reassemble::{finished, reassembled};
use crate::state::{lemma_accept_wf, lemma_fresh_wf, Reassembly, FRAGMENT_BLOCK_SIZE};
use crate::wire::overwritten;
use vstd::prelude::*;

verus! {

/// The cache after the packets of a list were processed, one after the other.
pub open spec fn processed_all(
    cache: Map<FragmentCacheKey, Reassembly>,
    packets: Seq<FragmentablePacket>,
) -> Map<FragmentCacheKey, Reassembly>
    decreases packets.len(),
{
    if packets.len() == 0 {
        cache
    } else {
        processed(processed_all(cache, packets.drop_last()), packets.last()).cache
    }
}

/// The lengths of the bodies of a list of packets, added up.
pub open spec fn sum_body_len(packets: Seq<FragmentablePacket>) -> nat
    decreases packets.len(),
{
    if packets.len() == 0 {
        0
    } else {
        sum_body_len(packets.drop_last()) + packets.last()@.body.len()
    }
}

/// The last block that a fragment brings.
pub open spec fn last_block(packet: PacketView) -> int {
    packet.fragment_offset + num_blocks(packet.body.len()) - 1
}

/// The fragment brings block `block`.
pub open spec fn covers(packet: PacketView, block: int) -> bool {
    packet.fragment_offset <= block <= last_block(packet)
}

/// Where the body of a fragment ends in the body of its packet.
pub open spec fn byte_end(packet: PacketView) -> int {
    packet.fragment_offset * FRAGMENT_BLOCK_SIZE + packet.body.len()
}

/// `packet` is a piece of the packet with key `key`, header `header` and body
/// `body`: its body is the part of `body` that starts at its offset, more
/// fragments follow it exactly if it ends before `body` does, it is aligned
/// unless it is the last, and if it starts at offset 0 it brings `header`.
pub open spec fn is_piece(
    packet: PacketView,
    key: FragmentCacheKey,
    header: Seq<u8>,
    body: Seq<u8>,
) -> bool {
    &&& packet.wf()
    &&& packet.key() == key
    &&& packet.body.len() > 0
    &&& byte_end(packet) <= body.len()
    &&& packet.body == body.subrange(packet.fragment_offset * FRAGMENT_BLOCK_SIZE, byte_end(packet))
    &&& packet.more_fragments == (byte_end(packet) < body.len())
    &&& packet.more_fragments ==> packet.body.len() % (FRAGMENT_BLOCK_SIZE as nat) == 0
    &&& packet.fragment_offset == 0 ==> packet.header == header
}

/// One of the packets brings block `block`.
pub open spec fn covered(packets: Seq<FragmentablePacket>, block: int) -> bool {
    exists|i: int| 0 <= i < packets.len() && covers(#[trigger] packets[i]@, block)
}

/// The packets of the list, in the order in which they arrive, are the
/// fragments of one packet with key `key`, header `header` and body `body`:
/// there are at least two, each is a piece of the packet, and every block of
/// the packet is brought by exactly one of them.
pub open spec fn is_fragmentation(
    packets: Seq<FragmentablePacket>,
    key: FragmentCacheKey,
    header: Seq<u8>,
    body: Seq<u8>,
) -> bool {
    &&& packets.len() >= 2
    &&& num_blocks(body.len()) <= MAX_FRAGMENT_BLOCKS + 1
    &&& forall|i: int|
        0 <= i < packets.len() ==> is_piece(#[trigger] packets[i]@, key, header, body)
    &&& forall|block: int|
        0 <= block < num_blocks(body.len()) ==> #[trigger] covered(packets, block)
    &&& forall|i: int, j: int, block: int|
        0 <= i < j < packets.len() ==> !(#[trigger] covers(packets[i]@, block) && #[trigger] covers(
            packets[j]@,
            block,
        ))
}

spec fn arrived(packets: Seq<FragmentablePacket>, k: int, block: int) -> bool {
    exists|i: int| 0 <= i < k && covers(#[trigger] packets[i]@, block)
}

spec fn ended(packets: Seq<FragmentablePacket>, k: int) -> bool {
    exists|i: int| 0 <= i < k && !(#[trigger] packets[i])@.more_fragments
}

spec fn started(packets: Seq<FragmentablePacket>, k: int) -> bool {
    exists|i: int| 0 <= i < k && (#[trigger] packets[i])@.fragment_offset == 0
}

spec fn has_body_at(packets: Seq<FragmentablePacket>, k: int, offset: u16) -> bool {
    exists|i: int| 0 <= i < k && (#[trigger] packets[i])@.fragment_offset == offset
}

/// What is kept of the packet after its first `k` fragments have arrived.
spec fn progress(
    cache0: Map<FragmentCacheKey, Reassembly>,
    packets: Seq<FragmentablePacket>,
    key: FragmentCacheKey,
    header: Seq<u8>,
    body: Seq<u8>,
    k: int,
) -> bool {
    let cache = processed_all(cache0, packets.take(k));
    let state = entry_or_fresh(cache, key);
    &&& cache.remove(key) == cache0
    &&& (k > 0 ==> cache.contains_key(key))
    &&& state.wf(key.version())
    &&& forall|block: int|
        0 <= block <= MAX_FRAGMENT_BLOCKS ==> (#[trigger] is_missing(
            state.missing_blocks,
            block,
        ) <==> !arrived(packets, k, block) && (block < num_blocks(body.len()) || !ended(
            packets,
            k,
        )))
    &&& state.header == (if started(packets, k) {
        Some(header)
    } else {
        None
    })
    &&& forall|offset: u16| #[trigger]
        state.bodies.contains_key(offset) <==> has_body_at(packets, k, offset)
    &&& forall|i: int|
        0 <= i < k ==> state.bodies[(#[trigger] packets[i])@.fragment_offset] == packets[i]@.body
    &&& state.total_size == state.header_len() + sum_body_len(packets.take(k))
}

/// Where the blocks of a piece lie among those of its packet.
proof fn lemma_piece_blocks(
    packet: PacketView,
    key: FragmentCacheKey,
    header: Seq<u8>,
    body: Seq<u8>,
)
    requires
        is_piece(packet, key, header, body),
    ensures
        packet.fragment_offset <= last_block(packet) < num_blocks(body.len()),
        !packet.more_fragments <==> last_block(packet) == num_blocks(body.len()) - 1,
        packet.more_fragments ==> byte_end(packet) == FRAGMENT_BLOCK_SIZE * (last_block(packet)
            + 1),
        !packet.more_fragments ==> byte_end(packet) == body.len(),
        key.wf(),
        packet.version() == key.version(),
{
}

/// Two fragments of a fragmentation that bring the same block are one.
proof fn lemma_one_piece_per_block(
    packets: Seq<FragmentablePacket>,
    key: FragmentCacheKey,
    header: Seq<u8>,
    body: Seq<u8>,
    i: int,
    j: int,
    block: int,
)
    requires
        is_fragmentation(packets, key, header, body),
        0 <= i < packets.len(),
        0 <= j < packets.len(),
        covers(packets[i]@, block),
        covers(packets[j]@, block),
    ensures
        i == j,
{
    if i < j {
        assert(!(covers(packets[i]@, block) && covers(packets[j]@, block)));
    } else if j < i {
        assert(!(covers(packets[j]@, block) && covers(packets[i]@, block)));
    }
}

/// One fragment more has arrived.
proof fn lemma_one_more(packets: Seq<FragmentablePacket>, k: int, block: int, offset: u16)
    requires
        0 <= k < packets.len(),
    ensures
        arrived(packets, k + 1, block) <==> arrived(packets, k, block) || covers(
            packets[k]@,
            block,
        ),
        ended(packets, k + 1) <==> ended(packets, k) || !packets[k]@.more_fragments,
        started(packets, k + 1) <==> started(packets, k) || packets[k]@.fragment_offset == 0,
        has_body_at(packets, k + 1, offset) <==> has_body_at(packets, k, offset)
            || packets[k]@.fragment_offset == offset,
{
    if arrived(packets, k, block) {
        let i = choose|i: int| 0 <= i < k && covers(#[trigger] packets[i]@, block);
        assert(covers(packets[i]@, block));
    }
    if covers(packets[k]@, block) {
        assert(arrived(packets, k + 1, block));
    }
    if ended(packets, k) {
        let i = choose|i: int| 0 <= i < k && !(#[trigger] packets[i])@.more_fragments;
        assert(!packets[i]@.more_fragments);
    }
    if !packets[k]@.more_fragments {
        assert(ended(packets, k + 1));
    }
    if started(packets, k) {
        let i = choose|i: int| 0 <= i < k && (#[trigger] packets[i])@.fragment_offset == 0;
        assert(packets[i]@.fragment_offset == 0);
    }
    if packets[k]@.fragment_offset == 0 {
        assert(started(packets, k + 1));
    }
    if has_body_at(packets, k, offset) {
        let i = choose|i: int| 0 <= i < k && (#[trigger] packets[i])@.fragment_offset == offset;
        assert(packets[i]@.fragment_offset == offset);
    }
    if packets[k]@.fragment_offset == offset {
        assert(has_body_at(packets, k + 1, offset));
    }
}

/// Before any fragment has arrived nothing is kept of the packet.
proof fn lemma_progress_start(
    cache0: Map<FragmentCacheKey, Reassembly>,
    packets: Seq<FragmentablePacket>,
    key: FragmentCacheKey,
    header: Seq<u8>,
    body: Seq<u8>,
)
    requires
        !cache0.contains_key(key),
        is_fragmentation(packets, key, header, body),
    ensures
        progress(cache0, packets, key, header, body, 0),
{
    let state = Reassembly::fresh();
    assert(packets.take(0) =~= Seq::<FragmentablePacket>::empty());
    assert(cache0.remove(key) =~= cache0);
    lemma_fresh_wf(key.version());
    assert(state.missing_blocks[0] == (0u16, MAX_FRAGMENT_BLOCKS));
    assert forall|block: int| 0 <= block <= MAX_FRAGMENT_BLOCKS implies #[trigger] is_missing(
        state.missing_blocks,
        block,
    ) by {
        assert(state.missing_blocks[0].0 <= block <= state.missing_blocks[0].1);
    }
    lemma_payload_from_empty(state.bodies, 0);
}

/// What the next fragment of a fragmentation does to the cache.
proof fn lemma_progress_step(
    cache0: Map<FragmentCacheKey, Reassembly>,
    packets: Seq<FragmentablePacket>,
    key: FragmentCacheKey,
    header: Seq<u8>,
    body: Seq<u8>,
    k: int,
)
    requires
        !cache0.contains_key(key),
        is_fragmentation(packets, key, header, body),
        0 <= k < packets.len(),
        progress(cache0, packets, key, header, body, k),
    ensures
        progress(cache0, packets, key, header, body, k + 1),
        admits(processed_all(cache0, packets.take(k)), packets[k]@),
        processed(processed_all(cache0, packets.take(k)), packets[k]).timer == (if k == 0 {
            Some(TimerAction::Schedule { key, seconds: REASSEMBLY_TIMEOUT_SECONDS })
        } else {
            None
        }),
        processed(processed_all(cache0, packets.take(k)), packets[k]).state == (if k + 1
            < packets.len() {
            FragmentProcessingState::NeedMoreFragments
        } else {
            FragmentProcessingState::Ready {
                key,
                packet_len: entry_or_fresh(
                    processed_all(cache0, packets.take(k + 1)),
                    key,
                ).total_size as usize,
            }
        }),
        k + 1 == packets.len() ==> entry_or_fresh(
            processed_all(cache0, packets.take(k + 1)),
            key,
        ).is_complete(),
{
    let blocks = num_blocks(body.len());
    let cache = processed_all(cache0, packets.take(k));
    let state = entry_or_fresh(cache, key);
    let packet = packets[k];
    let p = packet@;
    assert(is_piece(p, key, header, body));
    lemma_piece_blocks(p, key, header, body);

    // The fragment is a part of the packet, not all of it.
    assert(is_fragment(p)) by {
        if !is_fragment(p) {
            let j = if k == 0 {
                1int
            } else {
                0int
            };
            assert(is_piece(packets[j]@, key, header, body));
            lemma_piece_blocks(packets[j]@, key, header, body);
            let block = packets[j]@.fragment_offset as int;
            lemma_one_piece_per_block(packets, key, header, body, j, k, block);
        }
    }
    let range = (p.fragment_offset, last_block(p) as u16);
    assert(usable_blocks(p) == Some(range));

    // None of its blocks has arrived yet.
    assert forall|block: int| range.0 <= block <= range.1 implies is_missing(
        state.missing_blocks,
        block,
    ) by {
        if arrived(packets, k, block) {
            let i = choose|i: int| 0 <= i < k && covers(#[trigger] packets[i]@, block);
            lemma_one_piece_per_block(packets, key, header, body, i, k, block);
        }
    }
    lemma_containing_gap(state.missing_blocks, range);
    let gap = containing_gap(state.missing_blocks, range).unwrap();

    // Behind the last fragment nothing has arrived.
    if !p.more_fragments {
        assert(!ended(packets, k)) by {
            if ended(packets, k) {
                let i = choose|i: int| 0 <= i < k && !(#[trigger] packets[i])@.more_fragments;
                assert(is_piece(packets[i]@, key, header, body));
                lemma_piece_blocks(packets[i]@, key, header, body);
                lemma_one_piece_per_block(packets, key, header, body, i, k, blocks - 1);
            }
        }
        assert forall|block: int| range.1 <= block <= MAX_FRAGMENT_BLOCKS implies is_missing(
            state.missing_blocks,
            block,
        ) by {
            if arrived(packets, k, block) {
                let i = choose|i: int| 0 <= i < k && covers(#[trigger] packets[i]@, block);
                assert(is_piece(packets[i]@, key, header, body));
                lemma_piece_blocks(packets[i]@, key, header, body);
                lemma_one_piece_per_block(packets, key, header, body, i, k, block);
            }
        }
        lemma_open_ended(state.missing_blocks, range, gap);
    }
    lemma_accept_wf(state, key.version(), p, range, gap);
    let next = state.accept(p, range, gap);
    let cache1 = processed_all(cache0, packets.take(k + 1));
    assert(packets.take(k + 1).drop_last() =~= packets.take(k));
    assert(packets.take(k + 1).last() == packet);
    assert(cache1 == cache.insert(key, next));
    assert(cache1.remove(key) =~= cache.remove(key));
    assert(entry_or_fresh(cache1, key) == next);
    if k == 0 {
        assert(packets.take(0) =~= Seq::<FragmentablePacket>::empty());
    }

    assert forall|block: int| 0 <= block <= MAX_FRAGMENT_BLOCKS implies (#[trigger] is_missing(
        next.missing_blocks,
        block,
    ) <==> !arrived(packets, k + 1, block) && (block < blocks || !ended(packets, k + 1))) by {
        lemma_filled_missing(state.missing_blocks, range, gap, p.more_fragments, block);
        lemma_one_more(packets, k, block, 0);
    }
    lemma_one_more(packets, k, 0, 0);
    assert forall|offset: u16| #[trigger]
        next.bodies.contains_key(offset) <==> has_body_at(packets, k + 1, offset) by {
        lemma_one_more(packets, k, 0, offset);
    }
    assert forall|i: int| 0 <= i < k + 1 implies next.bodies[(
    #[trigger] packets[i])@.fragment_offset] == packets[i]@.body by {
        if i < k {
            assert(is_piece(packets[i]@, key, header, body));
            lemma_piece_blocks(packets[i]@, key, header, body);
            if packets[i]@.fragment_offset == p.fragment_offset {
                lemma_one_piece_per_block(
                    packets,
                    key,
                    header,
                    body,
                    i,
                    k,
                    p.fragment_offset as int,
                );
            }
        }
    }
    if p.fragment_offset == 0 {
        assert(!started(packets, k));
    }

    if k + 1 < packets.len() {
        // A fragment is still to come, and its blocks are missing.
        let later = packets[k + 1]@;
        assert(is_piece(later, key, header, body));
        lemma_piece_blocks(later, key, header, body);
        let block = later.fragment_offset as int;
        assert(!arrived(packets, k + 1, block)) by {
            if arrived(packets, k + 1, block) {
                let i = choose|i: int| 0 <= i < k + 1 && covers(#[trigger] packets[i]@, block);
                lemma_one_piece_per_block(packets, key, header, body, i, k + 1, block);
            }
        }
        assert(is_missing(next.missing_blocks, block));
    } else {
        // All fragments have arrived: no block is missing.
        if next.missing_blocks.len() > 0 {
            let block = next.missing_blocks[0].0 as int;
            assert(next.missing_blocks[0].0 <= block <= next.missing_blocks[0].1);
            assert(is_missing(next.missing_blocks, block));
            if block < blocks {
                assert(covered(packets, block));
                let i = choose|i: int|
                    0 <= i < packets.len() && covers(#[trigger] packets[i]@, block);
                assert(arrived(packets, k + 1, block));
            } else {
                assert(covered(packets, blocks - 1));
                let i = choose|i: int|
                    0 <= i < packets.len() && covers(#[trigger] packets[i]@, blocks - 1);
                assert(is_piece(packets[i]@, key, header, body));
                lemma_piece_blocks(packets[i]@, key, header, body);
                assert(ended(packets, k + 1));
            }
        }
    }
}

/// What is kept of the packet after its first `k` fragments have arrived, and
/// what was said of each of them.
proof fn lemma_progress_to(
    cache0: Map<FragmentCacheKey, Reassembly>,
    packets: Seq<FragmentablePacket>,
    key: FragmentCacheKey,
    header: Seq<u8>,
    body: Seq<u8>,
    k: int,
)
    requires
        !cache0.contains_key(key),
        is_fragmentation(packets, key, header, body),
        0 <= k <= packets.len(),
    ensures
        progress(cache0, packets, key, header, body, k),
    decreases k,
{
    if k == 0 {
        lemma_progress_start(cache0, packets, key, header, body);
    } else {
        lemma_progress_to(cache0, packets, key, header, body, k - 1);
        lemma_progress_step(cache0, packets, key, header, body, k - 1);
    }
}

/// The fragment of a fragmentation that brings a block.
spec fn piece_at(packets: Seq<FragmentablePacket>, block: int) -> int {
    choose|i: int| 0 <= i < packets.len() && covers(#[trigger] packets[i]@, block)
}

/// Where in the body of the packet the bodies at block `block` and above
/// begin: at the block itself if a fragment starts there, else where the
/// fragment that brings the block ends.
spec fn rest_from(packets: Seq<FragmentablePacket>, body: Seq<u8>, block: int) -> int {
    if block >= num_blocks(body.len()) {
        body.len() as int
    } else if packets[piece_at(packets, block)]@.fragment_offset == block {
        FRAGMENT_BLOCK_SIZE * block
    } else {
        byte_end(packets[piece_at(packets, block)]@)
    }
}

/// Behind a block the rest begins where the fragment that brings it ends.
proof fn lemma_rest_next(
    packets: Seq<FragmentablePacket>,
    key: FragmentCacheKey,
    header: Seq<u8>,
    body: Seq<u8>,
    block: int,
    i: int,
)
    requires
        is_fragmentation(packets, key, header, body),
        0 <= block < num_blocks(body.len()),
        0 <= i < packets.len(),
        covers(packets[i]@, block),
    ensures
        piece_at(packets, block) == i,
        rest_from(packets, body, block + 1) == byte_end(packets[i]@),
{
    let blocks = num_blocks(body.len());
    assert(is_piece(packets[i]@, key, header, body));
    lemma_piece_blocks(packets[i]@, key, header, body);
    lemma_one_piece_per_block(packets, key, header, body, piece_at(packets, block), i, block);
    if block + 1 < blocks {
        assert(covered(packets, block + 1));
        let j = piece_at(packets, block + 1);
        assert(is_piece(packets[j]@, key, header, body));
        lemma_piece_blocks(packets[j]@, key, header, body);
        if covers(packets[i]@, block + 1) {
            lemma_one_piece_per_block(packets, key, header, body, j, i, block + 1);
        } else if packets[j]@.fragment_offset != block + 1 {
            lemma_one_piece_per_block(packets, key, header, body, j, i, block);
        }
    }
}

/// The bodies at block `block` and above, one after the other, are the rest
/// of the packet's body.
proof fn lemma_payload_tiled(
    bodies: Map<u16, Seq<u8>>,
    packets: Seq<FragmentablePacket>,
    key: FragmentCacheKey,
    header: Seq<u8>,
    body: Seq<u8>,
    block: int,
)
    requires
        is_fragmentation(packets, key, header, body),
        forall|offset: u16| #[trigger]
            bodies.contains_key(offset) <==> has_body_at(packets, packets.len() as int, offset),
        forall|i: int|
            0 <= i < packets.len() ==> bodies[(#[trigger] packets[i])@.fragment_offset]
                == packets[i]@.body,
        0 <= block <= num_blocks(body.len()),
    ensures
        payload_from(bodies, block) == body.subrange(
            rest_from(packets, body, block),
            body.len() as int,
        ),
    decreases num_blocks(body.len()) - block,
{
    let blocks = num_blocks(body.len());
    if block == blocks {
        assert forall|offset: u16| bodies.contains_key(offset) implies offset < block by {
            let i = choose|i: int|
                0 <= i < packets.len() && (#[trigger] packets[i])@.fragment_offset == offset;
            assert(is_piece(packets[i]@, key, header, body));
            lemma_piece_blocks(packets[i]@, key, header, body);
        }
        lemma_payload_from_empty(bodies, block);
        assert(body.subrange(body.len() as int, body.len() as int) =~= Seq::<u8>::empty());
    } else {
        assert(covered(packets, block));
        let i = piece_at(packets, block);
        assert(is_piece(packets[i]@, key, header, body));
        lemma_piece_blocks(packets[i]@, key, header, body);
        lemma_rest_next(packets, key, header, body, block, i);
        lemma_payload_tiled(bodies, packets, key, header, body, block + 1);
        let end = byte_end(packets[i]@);
        if packets[i]@.fragment_offset == block {
            assert(has_body_at(packets, packets.len() as int, block as u16));
            assert(body.subrange(FRAGMENT_BLOCK_SIZE * block, end) + body.subrange(
                end,
                body.len() as int,
            ) =~= body.subrange(FRAGMENT_BLOCK_SIZE * block, body.len() as int));
        } else {
            if bodies.contains_key(block as u16) {
                let j = choose|j: int|
                    0 <= j < packets.len() && (#[trigger] packets[j])@.fragment_offset
                        == block as u16;
                assert(is_piece(packets[j]@, key, header, body));
                lemma_piece_blocks(packets[j]@, key, header, body);
                lemma_one_piece_per_block(packets, key, header, body, j, i, block);
            }
        }
    }
}

/// What is kept of the packet once all its fragments have arrived.
proof fn lemma_complete(
    cache0: Map<FragmentCacheKey, Reassembly>,
    packets: Seq<FragmentablePacket>,
    key: FragmentCacheKey,
    header: Seq<u8>,
    body: Seq<u8>,
)
    requires
        !cache0.contains_key(key),
        is_fragmentation(packets, key, header, body),
    ensures
        processed_all(cache0, packets).contains_key(key),
        processed_all(cache0, packets).remove(key) == cache0,
        processed_all(cache0, packets)[key].is_complete(),
        processed_all(cache0, packets)[key].header == Some(header),
        payload(processed_all(cache0, packets)[key].bodies) == body,
        processed_all(cache0, packets)[key].total_size == header.len() + body.len(),
        sum_body_len(packets) == body.len(),
        fixed_hdr_len(key.version()) <= header.len(),
        processed(processed_all(cache0, packets.drop_last()), packets.last()).state == (
        FragmentProcessingState::Ready { key, packet_len: (header.len() + body.len()) as usize }),
{
    let n = packets.len() as int;
    lemma_progress_to(cache0, packets, key, header, body, n - 1);
    lemma_progress_step(cache0, packets, key, header, body, n - 1);
    assert(packets.take(n) =~= packets);
    assert(packets.take(n - 1) =~= packets.drop_last());
    let cache = processed_all(cache0, packets);
    let state = cache[key];

    // The header has arrived with the fragment that brings block 0.
    assert(covered(packets, 0));
    let first = piece_at(packets, 0);
    assert(is_piece(packets[first]@, key, header, body));
    lemma_piece_blocks(packets[first]@, key, header, body);
    assert(started(packets, n));
    lemma_rest_next(packets, key, header, body, 0, first);
    assert(rest_from(packets, body, 0) == 0);

    // The bodies are the packet's body.
    lemma_payload_tiled(state.bodies, packets, key, header, body, 0);
    assert(body.subrange(0, body.len() as int) =~= body);
}

/// Making a packet whole changes bytes of its header only.
pub proof fn lemma_finished_keeps_body(
    version: IpVersion,
    buffer: Seq<u8>,
    header_len: int,
    packet_len: int,
)
    requires
        fixed_hdr_len(version) <= header_len <= packet_len <= buffer.len(),
    ensures
        finished(version, buffer, header_len, packet_len).0.len() == buffer.len(),
        finished(version, buffer, header_len, packet_len).0.subrange(header_len, packet_len)
            == buffer.subrange(header_len, packet_len),
{
    let done = finished(version, buffer, header_len, packet_len).0;
    assert(done.len() == buffer.len());
    assert forall|i: int| header_len <= i < packet_len implies done[i] == buffer[i] by {}
    assert(done.subrange(header_len, packet_len) =~= buffer.subrange(header_len, packet_len));
}

/// The fragments of a packet, in whatever order they arrive, make the packet.
///
/// Let the packets of a list be the fragments of one packet, see
/// [`is_fragmentation`], and let them be processed in the order of the list
/// on a cache that holds nothing of the packet. Then:
/// - the cache can take each of them in;
/// - the first starts the packet's timer, and no other touches it;
/// - of each but the last more fragments are said to be needed;
/// - with the last the packet is ready, and its length is that of the header
///   and of all bodies, which together are as long as the packet's body;
/// - reassembling it then writes the header and the packet's body to the
///   front of the buffer and makes the packet whole, see [`finished`]: the
///   body stands behind the header as it was before the packet was cut;
/// - and the cache is then as it was before the first fragment arrived.
///
/// Nothing of this depends on the order of the list.
pub proof fn law_fragments_make_packet(
    cache0: Map<FragmentCacheKey, Reassembly>,
    packets: Seq<FragmentablePacket>,
    key: FragmentCacheKey,
    header: Seq<u8>,
    body: Seq<u8>,
    buffer: Seq<u8>,
)
    requires
        !cache0.contains_key(key),
        is_fragmentation(packets, key, header, body),
        header.len() + body.len() <= buffer.len(),
    ensures
        forall|k: int|
            0 <= k < packets.len() ==> admits(
                #[trigger] processed_all(cache0, packets.take(k)),
                packets[k]@,
            ),
        forall|k: int|
            0 <= k < packets.len() ==> processed(
                #[trigger] processed_all(cache0, packets.take(k)),
                packets[k],
            ).timer == (if k == 0 {
                Some(TimerAction::Schedule { key, seconds: REASSEMBLY_TIMEOUT_SECONDS })
            } else {
                None
            }),
        forall|k: int|
            0 <= k < packets.len() - 1 ==> processed(
                #[trigger] processed_all(cache0, packets.take(k)),
                packets[k],
            ).state == FragmentProcessingState::NeedMoreFragments,
        processed(
            processed_all(cache0, packets.drop_last()),
            packets.last(),
        ).state == (FragmentProcessingState::Ready {
            key,
            packet_len: (header.len() + body.len()) as usize,
        }),
        sum_body_len(packets) == body.len(),
        reassembled(processed_all(cache0, packets), key, buffer).cache == cache0,
        (
            reassembled(processed_all(cache0, packets), key, buffer).buffer,
            reassembled(processed_all(cache0, packets), key, buffer).result,
        ) == finished(
            key.version(),
            overwritten(buffer, 0, header + body),
            header.len() as int,
            (header.len() + body.len()) as int,
        ),
        reassembled(processed_all(cache0, packets), key, buffer).result is Ok ==> reassembled(
            processed_all(cache0, packets),
            key,
            buffer,
        ).buffer.subrange(header.len() as int, (header.len() + body.len()) as int) == body,
{
    let n = packets.len() as int;
    assert forall|k: int| 0 <= k < n implies {
        &&& admits(#[trigger] processed_all(cache0, packets.take(k)), packets[k]@)
        &&& processed(processed_all(cache0, packets.take(k)), packets[k]).timer == (if k == 0 {
            Some(TimerAction::Schedule { key, seconds: REASSEMBLY_TIMEOUT_SECONDS })
        } else {
            None
        })
        &&& k < n - 1 ==> processed(processed_all(cache0, packets.take(k)), packets[k]).state
            == FragmentProcessingState::NeedMoreFragments
    } by {
        lemma_progress_to(cache0, packets, key, header, body, k);
        lemma_progress_step(cache0, packets, key, header, body, k);
    }
    lemma_complete(cache0, packets, key, header, body);
    let written = overwritten(buffer, 0, header + body);
    lemma_finished_keeps_body(
        key.version(),
        written,
        header.len() as int,
        (header.len() + body.len()) as int,
    );
    assert(written.subrange(header.len() as int, (header.len() + body.len()) as int) =~= body);
}

/// Two lists of fragments of one packet, processed each on a cache of its
/// own, come to the same: the packet that is written, and what is said of it,
/// do not depend on how the packet was cut nor on the order in which the
/// fragments arrive.
pub proof fn law_order_does_not_matter(
    cache_a: Map<FragmentCacheKey, Reassembly>,
    packets_a: Seq<FragmentablePacket>,
    cache_b: Map<FragmentCacheKey, Reassembly>,
    packets_b: Seq<FragmentablePacket>,
    key: FragmentCacheKey,
    header: Seq<u8>,
    body: Seq<u8>,
    buffer: Seq<u8>,
)
    requires
        !cache_a.contains_key(key),
        !cache_b.contains_key(key),
        is_fragmentation(packets_a, key, header, body),
        is_fragmentation(packets_b, key, header, body),
        header.len() + body.len() <= buffer.len(),
    ensures
        processed(processed_all(cache_a, packets_a.drop_last()), packets_a.last()).state
            == processed(processed_all(cache_b, packets_b.drop_last()), packets_b.last()).state,
        reassembled(processed_all(cache_a, packets_a), key, buffer).buffer == reassembled(
            processed_all(cache_b, packets_b),
            key,
            buffer,
        ).buffer,
        reassembled(processed_all(cache_a, packets_a), key, buffer).result == reassembled(
            processed_all(cache_b, packets_b),
            key,
            buffer,
        ).result,
{
    law_fragments_make_packet(cache_a, packets_a, key, header, body, buffer);
    law_fragments_make_packet(cache_b, packets_b, key, header, body, buffer);
}

} // verus!
