//! Master tags that are given out whole: what reading on does does not
//! depend on what is ready already, nor on whether the tags that have ended
//! were closed before.
use vstd::prelude::*;
use crate::reader_laws::lemma_closed_known_keeps;
use crate::reader_laws::lemma_closed_unknown_keeps;
use crate::reader_laws::lemma_first_ended_bound;
use crate::reader_laws::lemma_first_stop_bound;
use crate::reader_laws::lemma_unwound_all_keeps;
use crate::reader_state::closing;
use crate::reader_state::end_of;
use crate::reader_state::first_ended;
use crate::reader_state::first_stop;
use crate::reader_state::invalid_id;
use crate::reader_state::lemma_read_one_moves;
use crate::reader_state::start_of;
use crate::reader_state::tags_between;
use crate::reader_state::unwound;
use crate::reader_state::holds_read;
use crate::reader_state::is_assumed;
use crate::reader_state::Emission;
use crate::reader_state::OpenTag;
use crate::reader_state::ReaderState;
use crate::spec_util::spec_is_ended_by;
use crate::specs::EbmlSpecification;
use crate::tag_iterator_util::EBMLSize;

verus! {

/// The state with `front` put before what is ready, and with `place` as the
/// place of the last tag that was given out.
pub open spec fn shifted(s: ReaderState, front: Seq<Emission>, place: usize) -> ReaderState {
    ReaderState { queue: front + s.queue, last_emitted_tag_offset: place, ..s }
}

/// The place of the first stop does not depend on what stands before the
/// place from which it is looked for.
pub proof fn lemma_first_stop_shifted(queue: Seq<Emission>, front: Seq<Emission>, id: u64, from: nat)
    ensures
        first_stop(front + queue, id, front.len() + from) == (match first_stop(queue, id, from) {
            Some(stop) => Some(front.len() + stop),
            None => None,
        }),
    decreases queue.len() - from,
{
    if from < queue.len() {
        assert((front + queue)[(front.len() + from) as int] == queue[from as int]);
        lemma_first_stop_shifted(queue, front, id, from + 1);
    }
}

/// What the search for the end of a master tag makes ready does not depend
/// on what was ready before the search.
pub proof fn lemma_collected_shifted<T: EbmlSpecification>(
    s: ReaderState,
    front: Seq<Emission>,
    place: usize,
    id: u64,
    tag_start: usize,
    before: nat,
    stop: nat,
)
    requires
        before <= stop < s.queue.len(),
    ensures
        shifted(s, front, place).collected::<T>(id, tag_start, front.len() + before, front.len() + stop)
            == shifted(s.collected::<T>(id, tag_start, before, stop), front, place),
{
    let moved = shifted(s, front, place);
    assert(moved.queue[(front.len() + stop) as int] == s.queue[stop as int]);
    assert(tags_between(moved.queue, front.len() + before, front.len() + stop) =~= tags_between(
        s.queue,
        before,
        stop,
    )) by {
        assert forall|k: int| 0 <= k < stop - before implies tags_between(
            moved.queue,
            front.len() + before,
            front.len() + stop,
        )[k] == tags_between(s.queue, before, stop)[k] by {
            assert(moved.queue[front.len() + before + k] == s.queue[before + k]);
        }
    }
    assert(moved.queue.subrange(0, (front.len() + before) as int) =~= front + s.queue.subrange(
        0,
        before as int,
    ));
    assert(moved.queue.subrange((front.len() + stop + 1) as int, moved.queue.len() as int)
        =~= s.queue.subrange(stop as int + 1, s.queue.len() as int));
    let a = moved.collected::<T>(id, tag_start, front.len() + before, front.len() + stop);
    let b = shifted(s.collected::<T>(id, tag_start, before, stop), front, place);
    assert(a.queue =~= b.queue);
}

/// Closing an open tag that was read makes something ready.
pub proof fn lemma_unwound_some(stack: Seq<OpenTag>, keep: nat, i: int)
    requires
        keep <= i < stack.len(),
        !is_assumed(stack[i]),
    ensures
        unwound(stack, keep).len() > 0,
    decreases stack.len(),
{
    if i < stack.len() - 1 {
        assert(stack.drop_last()[i] == stack[i]);
        lemma_unwound_some(stack.drop_last(), keep, i);
    }
}

/// Reading the next tag adds to what is ready, and never takes from it or
/// moves the place back: see [`ReaderState::advances_on`]. It makes
/// something ready unless the document has ended and no open tag was read.
pub proof fn lemma_advanced_advances<T: EbmlSpecification>(s: ReaderState)
    requires
        s.wf(),
    ensures
        s.advanced::<T>().advances_on(s),
        s.offset < s.data.len() || holds_read(s.stack) ==> s.advanced::<T>().queue.len()
            > s.queue.len(),
    decreases s.remaining(), s.stack.len(), 0nat,
{
    lemma_closed_known_keeps(s);
    let settled = s.closed_known();
    if settled.offset >= settled.data.len() {
        lemma_unwound_all_keeps(settled);
        let last = settled.unwound_all();
        if holds_read(s.stack) {
            let i = choose|i: int| 0 <= i < s.stack.len() && !is_assumed(#[trigger] s.stack[i]);
            if i < settled.stack.len() {
                assert(settled.stack[i] == s.stack[i]);
                lemma_unwound_some(settled.stack, 0, i);
            } else {
                lemma_unwound_some(s.stack, settled.stack.len(), i);
                assert(settled.queue.len() > s.queue.len()) by {
                    crate::reader_laws::lemma_first_ended_bound(s.stack, s.offset, 0);
                }
            }
        }
        assert(last.queue.subrange(0, s.queue.len() as int) =~= last.queue.subrange(
            0,
            settled.queue.len() as int,
        ).subrange(0, s.queue.len() as int));
        assert(last.advances_on(s));
    } else {
        lemma_read_one_moves::<T>(settled);
        let (read, outcome) = settled.read_one::<T>();
        match outcome {
            Err(fault) => {
                let last = read.enqueue(Err(fault));
                assert(last.queue.subrange(0, s.queue.len() as int) =~= settled.queue.subrange(
                    0,
                    s.queue.len() as int,
                ));
                assert(last.queue.last() is Err);
                assert(last.advances_on(s));
            },
            Ok(found) => {
                let id = found.tag.id;
                lemma_closed_unknown_keeps::<T>(read, id);
                let cleared = read.closed_unknown::<T>(id);
                assert(cleared.queue.subrange(0, s.queue.len() as int) =~= cleared.queue.subrange(
                    0,
                    settled.queue.len() as int,
                ).subrange(0, s.queue.len() as int));
                if found.tag == start_of(id) {
                    if !T::spec_makes(end_of(id)) {
                        let last = cleared.enqueue(Err(invalid_id(id, found.tag_start)));
                        assert(last.queue.subrange(0, s.queue.len() as int)
                            =~= cleared.queue.subrange(0, s.queue.len() as int));
                        assert(last.advances_on(s));
                    } else {
                        let opened = ReaderState {
                            stack: cleared.stack.push(
                                OpenTag {
                                    tag: end_of(id),
                                    size: found.size,
                                    tag_start: found.tag_start,
                                    data_start: found.data_start,
                                },
                            ),
                            ..cleared
                        };
                        if s.buffered_ids.contains(id) {
                            lemma_buffered_follows::<T>(
                                opened,
                                id,
                                found.tag_start,
                                opened.queue.len(),
                                opened.queue.len(),
                            );
                            let last = opened.buffered::<T>(
                                id,
                                found.tag_start,
                                opened.queue.len(),
                                opened.queue.len(),
                            );
                            assert(last.queue.len() > opened.queue.len());
                            assert(opened.queue.len() >= s.queue.len());
                            assert(last.queue.subrange(0, opened.queue.len() as int)
                                == opened.queue.subrange(0, opened.queue.len() as int));
                            assert(opened.queue.subrange(0, opened.queue.len() as int)
                                =~= opened.queue);
                            assert(last.queue.subrange(0, s.queue.len() as int)
                                =~= last.queue.subrange(0, opened.queue.len() as int).subrange(
                                0,
                                s.queue.len() as int,
                            ));
                            assert(last.advances_on(s));
                        } else {
                            let last = opened.enqueue(Ok((found.tag, found.tag_start)));
                            assert(last.queue.subrange(0, s.queue.len() as int)
                                =~= cleared.queue.subrange(0, s.queue.len() as int));
                            assert(last.advances_on(s));
                        }
                    }
                } else {
                    let last = cleared.enqueue(Ok((found.tag, found.tag_start)));
                    assert(last.queue.subrange(0, s.queue.len() as int) =~= cleared.queue.subrange(
                        0,
                        s.queue.len() as int,
                    ));
                    assert(last.advances_on(s));
                }
            },
        }
    }
}

/// Reading a master tag to its end adds to what was ready before the search
/// for its end, and never moves the place back.
pub proof fn lemma_buffered_follows<T: EbmlSpecification>(
    s: ReaderState,
    id: u64,
    tag_start: usize,
    before: nat,
    from: nat,
)
    requires
        s.wf(),
        before <= from,
        before <= s.queue.len(),
    ensures
        s.buffered::<T>(id, tag_start, before, from).follows(
            ReaderState { queue: s.queue.subrange(0, before as int), ..s },
        ),
        s.buffered::<T>(id, tag_start, before, from).queue.len() > before,
    decreases s.remaining(), s.stack.len(), 1nat,
{
    lemma_advanced_advances::<T>(s);
    let next = s.advanced::<T>();
    let front = s.queue.subrange(0, before as int);
    assert(front.subrange(0, before as int) =~= front);
    assert(next.queue.subrange(0, before as int) =~= next.queue.subrange(
        0,
        s.queue.len() as int,
    ).subrange(0, before as int));
    if from >= next.queue.len() {
        let last = next.enqueue(
            Err(
                crate::error::ReadFault::UnexpectedEOF {
                    tag_start,
                    tag_id: Some(id),
                    tag_size: None,
                    partial_data: None,
                },
            ),
        );
        assert(last.queue.subrange(0, before as int) =~= next.queue.subrange(0, before as int));
    } else {
        match first_stop(next.queue, id, from) {
            Some(stop) => {
                lemma_first_stop_bound(next.queue, id, from);
                crate::reader_laws::lemma_collected_keeps::<T>(next, id, tag_start, before, stop);
            },
            None => {
                if next.smaller_than(s) {
                    lemma_buffered_follows::<T>(next, id, tag_start, before, next.queue.len());
                    assert(next.queue.subrange(0, before as int).subrange(0, before as int)
                        =~= next.queue.subrange(0, before as int));
                }
            },
        }
    }
}

/// The closing tags of the open tags from the `low`-th on are those of the
/// tags from the `high`-th on and then those of the tags between.
pub proof fn lemma_unwound_split(stack: Seq<OpenTag>, low: nat, high: nat)
    requires
        low <= high <= stack.len(),
    ensures
        unwound(stack, low) == unwound(stack, high) + unwound(stack.subrange(0, high as int), low),
    decreases stack.len(),
{
    if stack.len() <= high {
        assert(stack.subrange(0, high as int) =~= stack);
        assert(unwound(stack, high) + unwound(stack, low) =~= unwound(stack, low));
    } else {
        lemma_unwound_split(stack.drop_last(), low, high);
        assert(stack.drop_last().subrange(0, high as int) =~= stack.subrange(0, high as int));
        assert(seq![closing(stack.last())] + (unwound(stack.drop_last(), high) + unwound(
            stack.subrange(0, high as int),
            low,
        )) =~= (seq![closing(stack.last())] + unwound(stack.drop_last(), high)) + unwound(
            stack.subrange(0, high as int),
            low,
        ));
    }
}

/// The first open tag that has ended is looked for among the outer tags
/// alone, where one of them has ended.
pub proof fn lemma_first_ended_prefix(stack: Seq<OpenTag>, offset: usize, keep: nat, from: nat)
    requires
        from <= keep <= stack.len(),
    ensures
        first_ended(stack.subrange(0, keep as int), offset, from) matches Some(i) ==> first_ended(
            stack,
            offset,
            from,
        ) == Some(i),
        first_ended(stack.subrange(0, keep as int), offset, from) is None ==> first_ended(
            stack,
            offset,
            from,
        ) == first_ended(stack, offset, keep),
    decreases keep - from,
{
    if from < keep {
        assert(stack.subrange(0, keep as int)[from as int] == stack[from as int]);
        lemma_first_ended_prefix(stack, offset, keep, from + 1);
    }
}

/// Whether the open tag has a known size and ends at `offset`.
pub open spec fn has_ended_at(e: OpenTag, offset: int) -> bool {
    e.size matches EBMLSize::Known(n) && e.data_start + n == offset
}

/// The state after the open tags from the `keep`-th on were closed.
pub open spec fn closed_from(s: ReaderState, keep: nat) -> ReaderState {
    ReaderState {
        stack: s.stack.subrange(0, keep as int),
        queue: s.queue + unwound(s.stack, keep),
        ..s
    }
}

/// Closing the tags that have ended gives the same, whether or not the
/// innermost of them were closed before.
pub proof fn lemma_closed_known_after_closing(s: ReaderState, keep: nat)
    requires
        s.wf(),
        keep <= s.stack.len(),
        forall|i: int| keep <= i < s.stack.len() ==> has_ended_at(#[trigger] s.stack[i], s.offset as int),
    ensures
        s.closed_known() == closed_from(s, keep).closed_known(),
{
    let other = closed_from(s, keep);
    lemma_first_ended_prefix(s.stack, s.offset, keep, 0);
    lemma_first_ended_bound(s.stack, s.offset, 0);
    lemma_first_ended_bound(other.stack, s.offset, 0);
    match first_ended(other.stack, s.offset, 0) {
        Some(low) => {
            lemma_unwound_split(s.stack, low, keep);
            assert(other.stack.subrange(0, low as int) =~= s.stack.subrange(0, low as int));
            assert(s.queue + unwound(s.stack, low) =~= (s.queue + unwound(s.stack, keep))
                + unwound(other.stack, low));
        },
        None => {
            if keep < s.stack.len() {
                assert(has_ended_at(s.stack[keep as int], s.offset as int));
                assert(first_ended(s.stack, s.offset, keep) == Some(keep));
            } else {
                lemma_first_ended_none(s.stack, s.offset, keep);
                assert(other.stack =~= s.stack);
                assert(unwound(s.stack, keep) =~= Seq::<Emission>::empty());
                assert(other.queue =~= s.queue);
            }
        },
    }
}

/// No tag has ended where none is looked at.
pub proof fn lemma_first_ended_none(stack: Seq<OpenTag>, offset: usize, from: nat)
    requires
        from >= stack.len(),
    ensures
        first_ended(stack, offset, from) is None,
{
}

/// Reading on gives the same, whether or not the innermost open tags that
/// have ended were closed before.
pub proof fn lemma_advanced_after_closing<T: EbmlSpecification>(s: ReaderState, keep: nat)
    requires
        s.wf(),
        keep <= s.stack.len(),
        forall|i: int| keep <= i < s.stack.len() ==> has_ended_at(#[trigger] s.stack[i], s.offset as int),
    ensures
        s.advanced::<T>() == closed_from(s, keep).advanced::<T>(),
{
    lemma_closed_known_after_closing(s, keep);
}

/// Closing the tags that have ended does not depend on what is ready.
pub proof fn lemma_closed_known_shifted(s: ReaderState, front: Seq<Emission>, place: usize)
    ensures
        shifted(s, front, place).closed_known() == shifted(s.closed_known(), front, place),
{
    let a = shifted(s, front, place).closed_known();
    let b = shifted(s.closed_known(), front, place);
    assert(a.queue =~= b.queue);
}

/// Closing open tags of unknown size does not depend on what is ready.
pub proof fn lemma_closed_unknown_shifted<T: EbmlSpecification>(
    s: ReaderState,
    front: Seq<Emission>,
    place: usize,
    id: u64,
)
    ensures
        shifted(s, front, place).closed_unknown::<T>(id) == shifted(s.closed_unknown::<T>(id), front, place),
    decreases s.stack.len(),
{
    if s.stack.len() > 0 && s.stack.last().size is Unknown && spec_is_ended_by::<T>(
        s.stack.last().tag.id,
        id,
    ) {
        let next = s.closed_one();
        lemma_closed_unknown_shifted::<T>(next, front, place, id);
        let moved = shifted(s, front, place).closed_one();
        assert(moved.queue =~= front + next.queue);
        assert(moved == shifted(next, front, place));
    }
}

/// Reading a tag does not depend on what is ready.
pub proof fn lemma_read_one_shifted<T: EbmlSpecification>(s: ReaderState, front: Seq<Emission>, place: usize)
    ensures
        shifted(s, front, place).read_one::<T>() == (
            shifted(s.read_one::<T>().0, front, place),
            s.read_one::<T>().1,
        ),
{
    let moved = shifted(s, front, place);
    assert(moved.rest() == s.rest());
    assert(moved.stack_path() == s.stack_path());
    let (looked, header) = s.peeked::<T>();
    assert(moved.peeked::<T>() == (shifted(looked, front, place), header)) by {
        assert forall|total: int| moved.exceeds_a_parent(total) == s.exceeds_a_parent(total) by {}
        let bytes = s.rest();
        match crate::reader_state::spec_peek_tag_id(bytes) {
            Some((id, id_len)) => {
                let (placed, fault) = s.placed::<T>(id);
                assert(moved.placed::<T>(id) == (shifted(placed, front, place), fault));
                assert(shifted(placed, front, place).stack_path() == placed.stack_path());
                assert forall|header: crate::reader_state::TagHeader|
                    shifted(placed, front, place).sized(header) == placed.sized(header) by {
                    assert forall|total: int|
                        shifted(placed, front, place).exceeds_a_parent(total) == placed.exceeds_a_parent(
                            total,
                        ) by {}
                }
                assert forall|header: crate::reader_state::TagHeader|
                    moved.sized(header) == s.sized(header) by {}
            },
            None => {},
        }
    }
}

/// Reading on does not depend on what is ready: what is ready before stays
/// before what is made ready.
pub proof fn lemma_advanced_shifted<T: EbmlSpecification>(s: ReaderState, front: Seq<Emission>, place: usize)
    requires
        s.wf(),
    ensures
        shifted(s, front, place).advanced::<T>() == shifted(s.advanced::<T>(), front, place),
    decreases s.remaining(), s.stack.len(), 0nat,
{
    let moved = shifted(s, front, place);
    lemma_closed_known_shifted(s, front, place);
    lemma_closed_known_keeps(s);
    let settled = s.closed_known();
    if settled.offset >= settled.data.len() {
        let a = shifted(settled, front, place).unwound_all();
        let b = shifted(settled.unwound_all(), front, place);
        assert(a.queue =~= b.queue);
    } else {
        lemma_read_one_shifted::<T>(settled, front, place);
        lemma_read_one_moves::<T>(settled);
        let (read, outcome) = settled.read_one::<T>();
        match outcome {
            Err(fault) => {
                let a = shifted(read, front, place).enqueue(Err(fault));
                let b = shifted(read.enqueue(Err(fault)), front, place);
                assert(a.queue =~= b.queue);
            },
            Ok(found) => {
                let id = found.tag.id;
                lemma_closed_unknown_shifted::<T>(read, front, place, id);
                lemma_closed_unknown_keeps::<T>(read, id);
                let cleared = read.closed_unknown::<T>(id);
                if found.tag == start_of(id) {
                    if !T::spec_makes(end_of(id)) {
                        let e: Emission = Err(invalid_id(id, found.tag_start));
                        let a = shifted(cleared, front, place).enqueue(e);
                        let b = shifted(cleared.enqueue(e), front, place);
                        assert(a.queue =~= b.queue);
                    } else {
                        let entry = OpenTag {
                            tag: end_of(id),
                            size: found.size,
                            tag_start: found.tag_start,
                            data_start: found.data_start,
                        };
                        let opened = ReaderState { stack: cleared.stack.push(entry), ..cleared };
                        let opened_moved = ReaderState {
                            stack: cleared.stack.push(entry),
                            ..shifted(cleared, front, place)
                        };
                        assert(opened_moved == shifted(opened, front, place));
                        if s.buffered_ids.contains(id) {
                            lemma_buffered_shifted::<T>(
                                opened,
                                front, place,
                                id,
                                found.tag_start,
                                opened.queue.len(),
                                opened.queue.len(),
                            );
                        } else {
                            let e: Emission = Ok((found.tag, found.tag_start));
                            let a = opened_moved.enqueue(e);
                            let b = shifted(opened.enqueue(e), front, place);
                            assert(a.queue =~= b.queue);
                        }
                    }
                } else {
                    let e: Emission = Ok((found.tag, found.tag_start));
                    let a = shifted(cleared, front, place).enqueue(e);
                    let b = shifted(cleared.enqueue(e), front, place);
                    assert(a.queue =~= b.queue);
                }
            },
        }
    }
}

/// Reading a master tag to its end does not depend on what was ready
/// before.
pub proof fn lemma_buffered_shifted<T: EbmlSpecification>(
    s: ReaderState,
    front: Seq<Emission>,
    place: usize,
    id: u64,
    tag_start: usize,
    before: nat,
    from: nat,
)
    requires
        s.wf(),
        before <= from,
        before <= s.queue.len(),
    ensures
        shifted(s, front, place).buffered::<T>(id, tag_start, front.len() + before, front.len() + from)
            == shifted(s.buffered::<T>(id, tag_start, before, from), front, place),
    decreases s.remaining(), s.stack.len(), 1nat,
{
    lemma_advanced_shifted::<T>(s, front, place);
    lemma_advanced_advances::<T>(s);
    let next = s.advanced::<T>();
    let next_moved = shifted(next, front, place);
    if from >= next.queue.len() {
        let e: Emission = Err(
            crate::error::ReadFault::UnexpectedEOF {
                tag_start,
                tag_id: Some(id),
                tag_size: None,
                partial_data: None,
            },
        );
        let a = next_moved.enqueue(e);
        let b = shifted(next.enqueue(e), front, place);
        assert(a.queue =~= b.queue);
    } else {
        lemma_first_stop_shifted(next.queue, front, id, from);
        match first_stop(next.queue, id, from) {
            Some(stop) => {
                lemma_first_stop_bound(next.queue, id, from);
                lemma_collected_shifted::<T>(next, front, place, id, tag_start, before, stop);
            },
            None => {
                assert(next_moved.smaller_than(shifted(s, front, place)) == next.smaller_than(s));
                if next.smaller_than(s) {
                    lemma_buffered_shifted::<T>(next, front, place, id, tag_start, before, next.queue.len());
                }
            },
        }
    }
}

} // verus!
