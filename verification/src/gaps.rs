//! The blocks of a packet that have not arrived yet, kept as a list of gaps.
//!
//! A gap is an inclusive range `(first, last)` of 8-byte blocks. A list of gaps
//! is kept in increasing order, and two neighbouring gaps are separated by at
//! least one block that is not missing.

use vstd::prelude::*;

verus! {

/// The highest block that a fragment can bring: the offset field of both
/// versions of IP has 13 bits. The gap of a packet of which nothing has
/// arrived ends here, and a gap that ends here is open-ended: where the
/// packet ends is not known yet.
pub const MAX_FRAGMENT_BLOCKS: u16 = 8191;

/// `range` and `gap` share no block.
pub open spec fn range_disjoint(gap: (u16, u16), range: (u16, u16)) -> bool {
    range.1 < gap.0 || range.0 > gap.1
}

/// Every block of `range` lies in `gap`.
pub open spec fn range_within(gap: (u16, u16), range: (u16, u16)) -> bool {
    gap.0 <= range.0 && range.1 <= gap.1
}

/// `gaps[i]` is the first gap of the list that shares a block with `range`.
pub open spec fn first_overlap(gaps: Seq<(u16, u16)>, range: (u16, u16), i: int) -> bool {
    &&& 0 <= i < gaps.len()
    &&& !range_disjoint(gaps[i], range)
    &&& forall|j: int| 0 <= j < i ==> range_disjoint(#[trigger] gaps[j], range)
}

/// The gap that `range` fits into: the first gap that shares a block with
/// `range`, provided that it holds all of `range`. `None` where no gap touches
/// `range`, and where the first one that does holds only a part of it.
pub open spec fn containing_gap(gaps: Seq<(u16, u16)>, range: (u16, u16)) -> Option<(u16, u16)> {
    if exists|i: int| first_overlap(gaps, range, i) {
        let i = choose|i: int| first_overlap(gaps, range, i);
        if range_within(gaps[i], range) {
            Some(gaps[i])
        } else {
            None
        }
    } else {
        None
    }
}

/// At most one gap is the first to overlap `range`.
pub proof fn lemma_first_overlap_unique(gaps: Seq<(u16, u16)>, range: (u16, u16), i: int, j: int)
    requires
        first_overlap(gaps, range, i),
        first_overlap(gaps, range, j),
    ensures
        i == j,
{
    if i < j {
        assert(range_disjoint(gaps[i], range));
    } else if j < i {
        assert(range_disjoint(gaps[j], range));
    }
}

/// Finds the gap that `fragment_blocks_range` fits into.
///
/// The gaps are scanned front to back. Gaps that share no block with the range
/// are passed over. The first gap that does share a block is the answer if it
/// holds the whole range; if it holds only a part of it, the range overlaps
/// blocks that are not missing and there is no answer.
pub fn find_gap(missing_blocks: &Vec<(u16, u16)>, fragment_blocks_range: (u16, u16)) -> (found:
    Option<(u16, u16)>)
    ensures
        found == containing_gap(missing_blocks@, fragment_blocks_range),
{
    let mut i: usize = 0;
    while i < missing_blocks.len()
        invariant
            i <= missing_blocks.len(),
            forall|j: int|
                0 <= j < i ==> range_disjoint(#[trigger] missing_blocks@[j], fragment_blocks_range),
        decreases missing_blocks.len() - i,
    {
        let potential_gap = missing_blocks[i];
        if fragment_blocks_range.1 < potential_gap.0 || fragment_blocks_range.0 > potential_gap.1 {
            i += 1;
            continue;
        }
        proof {
            assert(first_overlap(missing_blocks@, fragment_blocks_range, i as int));
            let k = choose|k: int| first_overlap(missing_blocks@, fragment_blocks_range, k);
            lemma_first_overlap_unique(missing_blocks@, fragment_blocks_range, i as int, k);
        }
        if fragment_blocks_range.0 < potential_gap.0 || fragment_blocks_range.1 > potential_gap.1 {
            return None;
        }
        return Some(potential_gap);
    }
    None
}

/// A list of gaps is well formed: no gap is empty or ends above the highest
/// block, the gaps come in increasing order, and between two neighbours lies
/// at least one block that is not missing.
pub open spec fn gaps_wf(gaps: Seq<(u16, u16)>) -> bool {
    &&& forall|i: int|
        0 <= i < gaps.len() ==> (#[trigger] gaps[i]).0 <= gaps[i].1 <= MAX_FRAGMENT_BLOCKS
    &&& forall|i: int, j: int|
        0 <= i < j < gaps.len() ==> (#[trigger] gaps[i]).1 + 1 < (#[trigger] gaps[j]).0
}

/// Block `block` is missing: some gap of the list holds it.
pub open spec fn is_missing(gaps: Seq<(u16, u16)>, block: int) -> bool {
    exists|i: int| 0 <= i < gaps.len() && (#[trigger] gaps[i]).0 <= block <= gaps[i].1
}

/// A fragment that is the last of its packet and ends before the end of its
/// gap can only stand in the gap that is still open-ended: behind a last
/// fragment no block can have arrived.
pub open spec fn ends_consistently(gap: (u16, u16), range: (u16, u16), more: bool) -> bool {
    range.1 < gap.1 && !more ==> gap.1 == MAX_FRAGMENT_BLOCKS
}

/// What is left of `gap` before `range`.
pub open spec fn remainder_before(gap: (u16, u16), range: (u16, u16)) -> Seq<(u16, u16)> {
    if gap.0 < range.0 {
        seq![(gap.0, (range.0 - 1) as u16)]
    } else {
        Seq::empty()
    }
}

/// What is left of `gap` behind `range`. Behind the last fragment of a packet
/// nothing is expected any more.
pub open spec fn remainder_after(gap: (u16, u16), range: (u16, u16), more: bool) -> Seq<
    (u16, u16),
> {
    if range.1 < gap.1 && more {
        seq![((range.1 + 1) as u16, gap.1)]
    } else {
        Seq::empty()
    }
}

/// The list of gaps after a fragment with blocks `range` has arrived in `gap`:
/// `gap` leaves the list, and what is left of it before and behind `range`
/// takes its place.
pub open spec fn filled(
    gaps: Seq<(u16, u16)>,
    range: (u16, u16),
    gap: (u16, u16),
    more: bool,
) -> Seq<(u16, u16)> {
    let i = gaps.index_of(gap);
    gaps.subrange(0, i) + remainder_before(gap, range) + remainder_after(gap, range, more)
        + gaps.subrange(i + 1, gaps.len() as int)
}

/// In a well-formed list a gap stands at one index only.
pub proof fn lemma_gap_index(gaps: Seq<(u16, u16)>, i: int)
    requires
        gaps_wf(gaps),
        0 <= i < gaps.len(),
    ensures
        gaps.index_of(gaps[i]) == i,
{
    let k = gaps.index_of(gaps[i]);
    assert(0 <= k < gaps.len() && gaps[k] == gaps[i]);
    if k < i {
        assert(gaps[k].1 + 1 < gaps[i].0);
    } else if i < k {
        assert(gaps[i].1 + 1 < gaps[k].0);
    }
}

/// Filling a gap keeps the list well formed.
pub proof fn lemma_filled_wf(gaps: Seq<(u16, u16)>, range: (u16, u16), gap: (u16, u16), more: bool)
    requires
        gaps_wf(gaps),
        gaps.contains(gap),
        range.0 <= range.1,
        range_within(gap, range),
    ensures
        gaps_wf(filled(gaps, range, gap, more)),
{
    let i = gaps.index_of(gap);
    let before = remainder_before(gap, range);
    let after = remainder_after(gap, range, more);
    let out = filled(gaps, range, gap, more);
    let mid = before + after;
    assert(out =~= gaps.subrange(0, i) + mid + gaps.subrange(i + 1, gaps.len() as int));
    assert forall|k: int| 0 <= k < mid.len() implies gap.0 <= (#[trigger] mid[k]).0 && mid[k].0
        <= mid[k].1 && mid[k].1 <= gap.1 by {}
    assert forall|a: int, b: int| 0 <= a < b < mid.len() implies (#[trigger] mid[a]).1 + 1 < (
    #[trigger] mid[b]).0 by {}
    let shift = mid.len() - 1;
    assert forall|k: int| 0 <= k < out.len() implies (#[trigger] out[k]).0 <= out[k].1
        <= MAX_FRAGMENT_BLOCKS by {
        if k < i {
            assert(out[k] == gaps[k]);
        } else if k < i + mid.len() {
            assert(out[k] == mid[k - i]);
        } else {
            assert(out[k] == gaps[k - shift]);
        }
    }
    assert forall|a: int, b: int| 0 <= a < b < out.len() implies (#[trigger] out[a]).1 + 1 < (
    #[trigger] out[b]).0 by {
        if a < i {
            assert(out[a] == gaps[a]);
            assert(gaps[a].1 + 1 < gaps[i].0);
        } else if a < i + mid.len() {
            assert(out[a] == mid[a - i]);
        } else {
            assert(out[a] == gaps[a - shift]);
        }
        if b < i {
            assert(out[b] == gaps[b]);
        } else if b < i + mid.len() {
            assert(out[b] == mid[b - i]);
        } else {
            assert(out[b] == gaps[b - shift]);
            assert(gaps[i].1 + 1 < gaps[b - shift].0);
        }
    }
}

/// Two missing blocks that follow each other lie in the same gap.
pub proof fn lemma_next_block_same_gap(gaps: Seq<(u16, u16)>, i: int, block: int)
    requires
        gaps_wf(gaps),
        0 <= i < gaps.len(),
        gaps[i].0 <= block <= gaps[i].1,
        is_missing(gaps, block + 1),
    ensures
        block + 1 <= gaps[i].1,
{
    let k = choose|k: int| 0 <= k < gaps.len() && (#[trigger] gaps[k]).0 <= block + 1 <= gaps[k].1;
    if k < i {
        assert(gaps[k].1 + 1 < gaps[i].0);
    } else if i < k {
        assert(gaps[i].1 + 1 < gaps[k].0);
    }
}

/// A range fits into a gap exactly if every block of it is missing, and the gap
/// found is then a gap of the list that holds the range.
pub proof fn lemma_containing_gap(gaps: Seq<(u16, u16)>, range: (u16, u16))
    requires
        gaps_wf(gaps),
        range.0 <= range.1,
    ensures
        containing_gap(gaps, range) is Some <==> (forall|b: int|
            range.0 <= b <= range.1 ==> is_missing(gaps, b)),
        containing_gap(gaps, range) matches Some(gap) ==> gaps.contains(gap) && range_within(
            gap,
            range,
        ),
{
    if containing_gap(gaps, range) is Some {
        let i = choose|i: int| first_overlap(gaps, range, i);
        assert forall|b: int| range.0 <= b <= range.1 implies is_missing(gaps, b) by {
            assert(gaps[i].0 <= b <= gaps[i].1);
        }
    }
    if forall|b: int| range.0 <= b <= range.1 ==> is_missing(gaps, b) {
        assert(is_missing(gaps, range.0 as int));
        let i = choose|i: int|
            0 <= i < gaps.len() && (#[trigger] gaps[i]).0 <= range.0 <= gaps[i].1;
        assert forall|j: int| 0 <= j < i implies range_disjoint(#[trigger] gaps[j], range) by {
            assert(gaps[j].1 + 1 < gaps[i].0);
        }
        assert(first_overlap(gaps, range, i));
        let k = choose|k: int| first_overlap(gaps, range, k);
        lemma_first_overlap_unique(gaps, range, i, k);
        lemma_run_in_one_gap(gaps, i, range.0 as int, range.1 as int);
    }
}

/// A run of missing blocks that starts in a gap ends in the same gap.
pub proof fn lemma_run_in_one_gap(gaps: Seq<(u16, u16)>, i: int, first: int, last: int)
    requires
        gaps_wf(gaps),
        0 <= i < gaps.len(),
        gaps[i].0 <= first <= gaps[i].1,
        first <= last,
        forall|b: int| first <= b <= last ==> is_missing(gaps, b),
    ensures
        last <= gaps[i].1,
    decreases last - first,
{
    if first < last {
        lemma_next_block_same_gap(gaps, i, first);
        lemma_run_in_one_gap(gaps, i, first + 1, last);
    }
}

/// Which blocks are missing after a gap was filled: those that were missing
/// before, but for the blocks of the fragment and, behind a last fragment, the
/// rest of its gap.
pub proof fn lemma_filled_missing(
    gaps: Seq<(u16, u16)>,
    range: (u16, u16),
    gap: (u16, u16),
    more: bool,
    block: int,
)
    requires
        gaps_wf(gaps),
        gaps.contains(gap),
        range.0 <= range.1,
        range_within(gap, range),
    ensures
        is_missing(filled(gaps, range, gap, more), block) <==> is_missing(gaps, block) && !(range.0
            <= block <= (if more {
            range.1
        } else {
            gap.1
        })),
{
    let i = gaps.index_of(gap);
    let before = remainder_before(gap, range);
    let after = remainder_after(gap, range, more);
    let mid = before + after;
    let out = filled(gaps, range, gap, more);
    let shift = mid.len() - 1;
    assert(out =~= gaps.subrange(0, i) + mid + gaps.subrange(i + 1, gaps.len() as int));
    if is_missing(out, block) {
        let k = choose|k: int| 0 <= k < out.len() && (#[trigger] out[k]).0 <= block <= out[k].1;
        if k < i {
            assert(out[k] == gaps[k]);
            assert(gaps[k].1 + 1 < gaps[i].0);
        } else if k < i + mid.len() {
            assert(out[k] == mid[k - i]);
            assert(gaps[i].0 <= block <= gaps[i].1);
        } else {
            assert(out[k] == gaps[k - shift]);
            assert(gaps[i].1 + 1 < gaps[k - shift].0);
        }
    }
    if is_missing(gaps, block) && !(range.0 <= block <= (if more {
        range.1
    } else {
        gap.1
    })) {
        let j = choose|j: int| 0 <= j < gaps.len() && (#[trigger] gaps[j]).0 <= block <= gaps[j].1;
        if j < i {
            assert(out[j] == gaps[j]);
        } else if j > i {
            assert(out[j + shift] == gaps[j]);
        } else if block < range.0 {
            assert(out[i] == mid[0]);
        } else {
            assert(out[i + before.len()] == mid[before.len() as int]);
        }
    }
}

/// Where every block from the end of a range onwards is missing, the gap that
/// holds the range is the open-ended one.
pub proof fn lemma_open_ended(gaps: Seq<(u16, u16)>, range: (u16, u16), gap: (u16, u16))
    requires
        gaps_wf(gaps),
        gaps.contains(gap),
        range_within(gap, range),
        range.0 <= range.1,
        forall|b: int| range.1 <= b <= MAX_FRAGMENT_BLOCKS ==> is_missing(gaps, b),
    ensures
        gap.1 == MAX_FRAGMENT_BLOCKS,
{
    let i = gaps.index_of(gap);
    lemma_run_in_one_gap(gaps, i, range.1 as int, MAX_FRAGMENT_BLOCKS as int);
}

/// Removes from the missing blocks those that a fragment brings.
///
/// `gap` is the gap that holds `fragment_blocks_range`. It leaves the list.
/// The blocks of `gap` before the range stay missing. Those behind the range
/// stay missing only if `more_fragments` is set: a last fragment ends the
/// packet.
pub fn fill_gap(
    missing_blocks: &mut Vec<(u16, u16)>,
    fragment_blocks_range: (u16, u16),
    gap: (u16, u16),
    more_fragments: bool,
)
    requires
        gaps_wf(old(missing_blocks)@),
        old(missing_blocks)@.contains(gap),
        fragment_blocks_range.0 <= fragment_blocks_range.1,
        range_within(gap, fragment_blocks_range),
        ends_consistently(gap, fragment_blocks_range, more_fragments),
    ensures
        final(missing_blocks)@ == filled(
            old(missing_blocks)@,
            fragment_blocks_range,
            gap,
            more_fragments,
        ),
        gaps_wf(final(missing_blocks)@),
{
    let ghost gaps = missing_blocks@;
    let mut at: usize = 0;
    while missing_blocks[at].0 != gap.0 || missing_blocks[at].1 != gap.1
        invariant
            at < missing_blocks.len(),
            missing_blocks@ == gaps,
            gaps.contains(gap),
            forall|j: int| 0 <= j < at ==> #[trigger] gaps[j] != gap,
        decreases missing_blocks.len() - at,
    {
        at += 1;
    }
    proof {
        lemma_gap_index(gaps, at as int);
        lemma_filled_wf(gaps, fragment_blocks_range, gap, more_fragments);
    }
    missing_blocks.remove(at);
    if gap.0 < fragment_blocks_range.0 {
        missing_blocks.insert(at, (gap.0, fragment_blocks_range.0 - 1));
        at += 1;
    }
    if fragment_blocks_range.1 < gap.1 && more_fragments {
        missing_blocks.insert(at, (fragment_blocks_range.1 + 1, gap.1));
    }
    assert(missing_blocks@ =~= filled(gaps, fragment_blocks_range, gap, more_fragments));
}

} // verus!
