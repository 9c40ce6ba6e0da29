//! The tables of a framer, one at a time: what each operation on a table does to its
//! view.

use crate::client::framer::{fragments_view, frame_map_view, holdback_view};
use crate::client::model::{fragments_complete, join_payloads, FramerState};
use crate::frame::{Frame, FrameView};
use std::collections::{HashMap, HashSet};
use vstd::prelude::*;

verus! {

broadcast use vstd::std_specs::hash::group_hash_axioms;

/// A table of frames with one entry more has one view more.
pub(super) proof fn lemma_frame_map_insert(frames: Map<u32, Frame>, index: u32, frame: Frame)
    ensures
        frame_map_view(frames.insert(index, frame)) == frame_map_view(frames).insert(index, frame@),
{
    assert(frame_map_view(frames.insert(index, frame)) =~= frame_map_view(frames).insert(
        index,
        frame@,
    ));
}

/// A table of frames with one entry less has one view less.
pub(super) proof fn lemma_frame_map_remove(frames: Map<u32, Frame>, index: u32)
    ensures
        frame_map_view(frames.remove(index)) == frame_map_view(frames).remove(index),
{
    assert(frame_map_view(frames.remove(index)) =~= frame_map_view(frames).remove(index));
}

/// Takes the frame with the given index out of the table of channel `c`.
pub(super) fn take_held(queue: &mut Vec<HashMap<u32, Frame>>, c: usize, index: u32) -> (frame: Option<Frame>)
    requires
        c < old(queue)@.len(),
    ensures
        holdback_view(final(queue)@) == holdback_view(old(queue)@).update(
            c as int,
            holdback_view(old(queue)@)[c as int].remove(index),
        ),
        match frame {
            Some(held) => holdback_view(old(queue)@)[c as int].contains_key(index) && held@
                == holdback_view(old(queue)@)[c as int][index],
            None => !holdback_view(old(queue)@)[c as int].contains_key(index),
        },
{
    let ghost before = queue@;
    let mut table: HashMap<u32, Frame> = HashMap::new();
    queue.set_and_swap(c, &mut table);
    let ghost held = table@;
    let frame = table.remove(&index);
    proof {
        lemma_frame_map_remove(held, index);
    }
    queue.set(c, table);
    proof {
        assert(holdback_view(queue@) =~= holdback_view(before).update(
            c as int,
            holdback_view(before)[c as int].remove(index),
        ));
    }
    frame
}

/// Puts the frame under the given index into the table of channel `c`.
pub(super) fn hold_back(queue: &mut Vec<HashMap<u32, Frame>>, c: usize, index: u32, frame: Frame)
    requires
        c < old(queue)@.len(),
    ensures
        holdback_view(final(queue)@) == holdback_view(old(queue)@).update(
            c as int,
            holdback_view(old(queue)@)[c as int].insert(index, frame@),
        ),
{
    let ghost before = queue@;
    let mut table: HashMap<u32, Frame> = HashMap::new();
    queue.set_and_swap(c, &mut table);
    let ghost held = table@;
    let _ = table.insert(index, frame);
    proof {
        lemma_frame_map_insert(held, index, frame);
    }
    queue.set(c, table);
    proof {
        assert(holdback_view(queue@) =~= holdback_view(before).update(
            c as int,
            holdback_view(before)[c as int].insert(index, frame@),
        ));
    }
}

/// Takes the fragments of split `id` out of the table; none where there are none.
pub(super) fn take_fragments(table: &mut HashMap<u16, HashMap<u32, Frame>>, id: u16) -> (fragments: HashMap<
    u32,
    Frame,
>)
    ensures
        fragments_view(final(table)@) == fragments_view(old(table)@).remove(id),
        frame_map_view(fragments@) == (if fragments_view(old(table)@).contains_key(id) {
            fragments_view(old(table)@)[id]
        } else {
            Map::<u32, FrameView>::empty()
        }),
{
    let ghost before = table@;
    let found = table.remove(&id);
    proof {
        assert(fragments_view(table@) =~= fragments_view(before).remove(id));
    }
    match found {
        Some(fragments) => fragments,
        None => {
            let fragments: HashMap<u32, Frame> = HashMap::new();
            proof {
                assert(frame_map_view(fragments@) =~= Map::<u32, FrameView>::empty());
            }
            fragments
        },
    }
}

/// Puts the fragments of split `id` into the table.
pub(super) fn put_fragments(
    table: &mut HashMap<u16, HashMap<u32, Frame>>,
    id: u16,
    fragments: HashMap<u32, Frame>,
)
    ensures
        fragments_view(final(table)@) == fragments_view(old(table)@).insert(
            id,
            frame_map_view(fragments@),
        ),
{
    let ghost before = table@;
    let _ = table.insert(id, fragments);
    proof {
        assert(fragments_view(table@) =~= fragments_view(before).insert(
            id,
            frame_map_view(fragments@),
        ));
    }
}

/// Whether the fragments are exactly those with the indices `0` to `count - 1`.
pub(super) fn all_fragments_there(fragments: &HashMap<u32, Frame>, count: u32) -> (complete: bool)
    ensures
        complete == fragments_complete(frame_map_view(fragments@), count),
{
    proof {
        assert(frame_map_view(fragments@).dom() =~= fragments@.dom());
    }
    if fragments.len() != count as usize {
        return false;
    }
    let mut i: u32 = 0;
    while i < count
        invariant
            i <= count,
            forall|k: u32| 0 <= k < i ==> frame_map_view(fragments@).contains_key(k),
        decreases count - i,
    {
        if !fragments.contains_key(&i) {
            assert(!frame_map_view(fragments@).contains_key(i));
            return false;
        }
        i += 1;
    }
    true
}

/// The frame that complete fragments make.
pub(super) fn reassemble(fragments: &HashMap<u32, Frame>, count: u32) -> (frame: Frame)
    requires
        count > 0,
        fragments_complete(frame_map_view(fragments@), count),
    ensures
        frame@ == FramerState::reassemble(frame_map_view(fragments@), count),
{
    let ghost views = frame_map_view(fragments@);
    let mut payload: Vec<u8> = Vec::new();
    let mut i: u32 = 0;
    while i < count
        invariant
            i <= count,
            views == frame_map_view(fragments@),
            fragments_complete(views, count),
            payload@ == join_payloads(views, i as nat),
        decreases count - i,
    {
        assert(views.contains_key(i));
        match fragments.get(&i) {
            Some(fragment) => {
                let mut bytes = fragment.payload.clone();
                payload.append(&mut bytes);
                assert(fragment@ == views[i]);
            },
            None => {
                assert(false);
            },
        }
        i += 1;
    }
    assert(views.contains_key(0u32));
    match fragments.get(&0) {
        Some(first) => Frame {
            reliable_frame_index: first.reliable_frame_index,
            sequence_frame_index: first.sequence_frame_index,
            ordered_frame_index: first.ordered_frame_index,
            order_channel: first.order_channel,
            reliability: first.reliability,
            payload,
            split_frame_index: None,
            split_id: None,
            split_size: None,
        },
        None => {
            assert(false);
            Frame::new()
        },
    }
}

/// The numbers of a set as a list, in whatever order the set hands them out.
pub(super) fn listed(set: &HashSet<u32>) -> (list: Vec<u32>)
    ensures
        list@.to_set() == set@,
        list@.no_duplicates(),
{
    let mut list: Vec<u32> = Vec::new();
    for number in walk: set.iter()
        invariant
            list@.len() == walk.index(),
            forall|k: int| 0 <= k < list@.len() ==> list@[k] == *walk.seq()[k],
    {
        list.push(*number);
    }
    proof {
        let all = vstd::std_specs::iter::IteratorSpec::remaining(&set.iter());
        assert(list@ =~= all.unref());
    }
    list
}

/// Notes as missing every number from `from` up to `upto` that was not received.
pub(super) fn note_missing(
    lost: &mut HashSet<u32>,
    received: &HashSet<u32>,
    from: u32,
    upto: u32,
)
    ensures
        final(lost)@ == old(lost)@.union(
            Set::new(|g: u32| from <= g < upto && !received@.contains(g)),
        ),
{
    let ghost before = lost@;
    let mut next: u32 = from;
    proof {
        assert(lost@ =~= before.union(
            Set::new(|g: u32| from <= g < next && !received@.contains(g)),
        ));
    }
    while next < upto
        invariant
            from <= next,
            from >= upto ==> next == from,
            from < upto ==> next <= upto,
            lost@ == before.union(Set::new(|g: u32| from <= g < next && !received@.contains(g))),
        decreases upto - next,
    {
        let ghost so_far = lost@;
        if !received.contains(&next) {
            let _ = lost.insert(next);
        }
        proof {
            assert(lost@ =~= before.union(
                Set::new(|g: u32| from <= g < next + 1 && !received@.contains(g)),
            ));
        }
        next += 1;
    }
    proof {
        assert(Set::new(|g: u32| from <= g < next && !received@.contains(g)) =~= Set::new(
            |g: u32| from <= g < upto && !received@.contains(g),
        ));
    }
}

} // verus!
