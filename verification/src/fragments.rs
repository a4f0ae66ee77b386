//! The bodies of the fragments received so far, kept in the order of their
//! offsets.

use vstd::prelude::*;

verus! {

/// Number of block offsets that a 16-bit offset can name.
pub open spec fn offset_space() -> int {
    0x10000
}

/// The body of one fragment and the offset, in blocks, at which it belongs.
#[derive(Debug)]
pub struct PacketBodyFragment {
    pub offset: u16,
    pub data: Vec<u8>,
}

impl PacketBodyFragment {
    /// A body fragment that belongs at block `offset`.
    pub fn new(offset: u16, data: Vec<u8>) -> (fragment: PacketBodyFragment)
        ensures
            fragment.offset == offset,
            fragment.data == data,
    {
        PacketBodyFragment { offset, data }
    }
}

/// The fragments stand in strictly increasing order of their offsets.
pub open spec fn sorted_by_offset(fragments: Seq<PacketBodyFragment>) -> bool {
    forall|i: int, j: int|
        0 <= i < j < fragments.len() ==> (#[trigger] fragments[i]).offset < (
        #[trigger] fragments[j]).offset
}

/// `fragments[i]` belongs at block `offset`.
pub open spec fn stands_at(fragments: Seq<PacketBodyFragment>, offset: u16, i: int) -> bool {
    0 <= i < fragments.len() && fragments[i].offset == offset
}

/// The bodies held, each under the offset at which it belongs.
pub open spec fn bodies_of(fragments: Seq<PacketBodyFragment>) -> Map<u16, Seq<u8>> {
    Map::new(
        |offset: u16| exists|i: int| stands_at(fragments, offset, i),
        |offset: u16| fragments[choose|i: int| stands_at(fragments, offset, i)].data@,
    )
}

/// The bodies one after the other, in the order in which they stand.
pub open spec fn concat_bodies(fragments: Seq<PacketBodyFragment>) -> Seq<u8>
    decreases fragments.len(),
{
    if fragments.len() == 0 {
        Seq::empty()
    } else {
        concat_bodies(fragments.drop_last()) + fragments.last().data@
    }
}

/// The bodies at offsets `from` and above, one after the other in increasing
/// order of their offsets.
pub open spec fn payload_from(bodies: Map<u16, Seq<u8>>, from: int) -> Seq<u8>
    decreases offset_space() - from,
{
    if from < 0 || from >= offset_space() {
        Seq::empty()
    } else if bodies.contains_key(from as u16) {
        bodies[from as u16] + payload_from(bodies, from + 1)
    } else {
        payload_from(bodies, from + 1)
    }
}

/// All bodies, one after the other in increasing order of their offsets: the
/// body of the reassembled packet.
pub open spec fn payload(bodies: Map<u16, Seq<u8>>) -> Seq<u8> {
    payload_from(bodies, 0)
}

/// Where no body stands at `from` or above, nothing is left to concatenate.
pub proof fn lemma_payload_from_empty(bodies: Map<u16, Seq<u8>>, from: int)
    requires
        forall|offset: u16| bodies.contains_key(offset) ==> offset < from,
    ensures
        payload_from(bodies, from) == Seq::<u8>::empty(),
    decreases offset_space() - from,
{
    if 0 <= from < offset_space() {
        lemma_payload_from_empty(bodies, from + 1);
    }
}

/// A body added behind all others comes last in the payload.
pub proof fn lemma_payload_from_append(
    bodies: Map<u16, Seq<u8>>,
    offset: u16,
    data: Seq<u8>,
    from: int,
)
    requires
        forall|other: u16| bodies.contains_key(other) ==> other < offset,
        0 <= from <= offset,
    ensures
        payload_from(bodies.insert(offset, data), from) == payload_from(bodies, from) + data,
    decreases offset - from,
{
    let more = bodies.insert(offset, data);
    if from < offset {
        lemma_payload_from_append(bodies, offset, data, from + 1);
        if bodies.contains_key(from as u16) {
            assert(more[from as u16] == bodies[from as u16]);
            assert(bodies[from as u16] + (payload_from(bodies, from + 1) + data) =~= (
            bodies[from as u16] + payload_from(bodies, from + 1)) + data);
        }
    } else {
        lemma_payload_from_empty(bodies, from + 1);
        lemma_payload_from_empty(more, from + 1);
        lemma_payload_from_empty(bodies, from);
        assert(data + Seq::<u8>::empty() =~= Seq::<u8>::empty() + data);
    }
}

/// A body added at a free offset makes the payload longer by its length.
pub proof fn lemma_payload_from_len_insert(
    bodies: Map<u16, Seq<u8>>,
    offset: u16,
    data: Seq<u8>,
    from: int,
)
    requires
        !bodies.contains_key(offset),
        0 <= from,
    ensures
        payload_from(bodies.insert(offset, data), from).len() == payload_from(bodies, from).len()
            + (if from <= offset {
            data.len()
        } else {
            0
        }),
    decreases offset_space() - from,
{
    if from < offset_space() {
        lemma_payload_from_len_insert(bodies, offset, data, from + 1);
    }
}

/// The map of the bodies with one fragment more.
pub proof fn lemma_bodies_of_insert(
    fragments: Seq<PacketBodyFragment>,
    at: int,
    fragment: PacketBodyFragment,
)
    requires
        sorted_by_offset(fragments),
        0 <= at <= fragments.len(),
        forall|i: int| 0 <= i < at ==> (#[trigger] fragments[i]).offset < fragment.offset,
        forall|i: int|
            at <= i < fragments.len() ==> fragment.offset < (#[trigger] fragments[i]).offset,
    ensures
        sorted_by_offset(fragments.insert(at, fragment)),
        bodies_of(fragments.insert(at, fragment)) == bodies_of(fragments).insert(
            fragment.offset,
            fragment.data@,
        ),
{
    let more = fragments.insert(at, fragment);
    assert forall|offset: u16| #[trigger]
        bodies_of(more).contains_key(offset) <==> bodies_of(fragments).insert(
            fragment.offset,
            fragment.data@,
        ).contains_key(offset) by {
        if bodies_of(more).contains_key(offset) {
            let i = choose|i: int| stands_at(more, offset, i);
            if i < at {
                assert(stands_at(fragments, offset, i));
            } else if i > at {
                assert(stands_at(fragments, offset, i - 1));
            }
        }
        if offset == fragment.offset {
            assert(stands_at(more, offset, at));
        } else if bodies_of(fragments).contains_key(offset) {
            let i = choose|i: int| stands_at(fragments, offset, i);
            if i < at {
                assert(stands_at(more, offset, i));
            } else {
                assert(stands_at(more, offset, i + 1));
            }
        }
    }
    assert forall|offset: u16| #[trigger] bodies_of(more).contains_key(offset) implies bodies_of(
        more,
    )[offset] == bodies_of(fragments).insert(fragment.offset, fragment.data@)[offset] by {
        let i = choose|i: int| stands_at(more, offset, i);
        if offset == fragment.offset {
            if i < at {
                assert(more[i] == fragments[i]);
            } else if i > at {
                assert(more[i] == fragments[i - 1]);
            }
        } else {
            let k = choose|k: int| stands_at(fragments, offset, k);
            if i < at {
                assert(stands_at(fragments, offset, i));
            } else if i > at {
                assert(stands_at(fragments, offset, i - 1));
            }
            let old_i = if i < at {
                i
            } else {
                i - 1
            };
            assert(stands_at(fragments, offset, k));
            if k < old_i {
                assert(fragments[k].offset < fragments[old_i].offset);
            } else if old_i < k {
                assert(fragments[old_i].offset < fragments[k].offset);
            }
        }
    }
    assert(bodies_of(more) =~= bodies_of(fragments).insert(fragment.offset, fragment.data@));
}

/// Bodies that stand in the order of their offsets, taken one after the
/// other, are the payload.
pub proof fn lemma_concat_is_payload(fragments: Seq<PacketBodyFragment>)
    requires
        sorted_by_offset(fragments),
    ensures
        concat_bodies(fragments) == payload(bodies_of(fragments)),
    decreases fragments.len(),
{
    if fragments.len() == 0 {
        assert forall|offset: u16| !bodies_of(fragments).contains_key(offset) by {
            if bodies_of(fragments).contains_key(offset) {
                let i = choose|i: int| stands_at(fragments, offset, i);
            }
        }
        lemma_payload_from_empty(bodies_of(fragments), 0);
    } else {
        let init = fragments.drop_last();
        let last = fragments.last();
        lemma_concat_is_payload(init);
        assert(init.insert(init.len() as int, last) =~= fragments);
        assert forall|i: int| 0 <= i < init.len() implies (#[trigger] init[i]).offset
            < last.offset by {
            assert(init[i] == fragments[i]);
        }
        lemma_bodies_of_insert(init, init.len() as int, last);
        assert forall|other: u16| bodies_of(init).contains_key(other) implies other
            < last.offset by {
            let i = choose|i: int| stands_at(init, other, i);
            assert(stands_at(init, other, i));
        }
        lemma_payload_from_append(bodies_of(init), last.offset, last.data@, 0);
    }
}

/// Puts a body fragment into the list at the place that its offset gives it.
pub fn insert_body(fragments: &mut Vec<PacketBodyFragment>, fragment: PacketBodyFragment)
    requires
        sorted_by_offset(old(fragments)@),
        !bodies_of(old(fragments)@).contains_key(fragment.offset),
    ensures
        sorted_by_offset(final(fragments)@),
        bodies_of(final(fragments)@) == bodies_of(old(fragments)@).insert(
            fragment.offset,
            fragment.data@,
        ),
        exists|at: int|
            0 <= at <= old(fragments)@.len() && final(fragments)@ == #[trigger] old(
                fragments,
            )@.insert(at, fragment),
{
    let mut at: usize = 0;
    while at < fragments.len() && fragments[at].offset < fragment.offset
        invariant
            at <= fragments.len(),
            fragments@ == old(fragments)@,
            forall|i: int| 0 <= i < at ==> (#[trigger] fragments@[i]).offset < fragment.offset,
        decreases fragments.len() - at,
    {
        at += 1;
    }
    proof {
        assert forall|i: int| at <= i < fragments.len() implies fragment.offset < (
        #[trigger] fragments@[i]).offset by {
            assert(stands_at(fragments@, fragments@[i].offset, i));
            if at < i {
                assert(fragments@[at as int].offset < fragments@[i].offset);
            }
        }
        lemma_bodies_of_insert(fragments@, at as int, fragment);
    }
    fragments.insert(at, fragment);
    assert(fragments@ == old(fragments)@.insert(at as int, fragment));
}

} // verus!
