//! What holds of every tag iterator, whatever the document.
use vstd::prelude::*;
use crate::reader_state::closing;
use crate::reader_state::first_ended;
use crate::reader_state::first_stop;
use crate::reader_state::is_assumed;
use crate::reader_state::lemma_peeked_keeps_place;
use crate::reader_state::lemma_read_one_moves;
use crate::reader_state::spec_peek_tag_id;
use crate::reader_state::unwound;
use crate::reader_state::Emission;
use crate::reader_state::OpenTag;
use crate::reader_state::ReaderState;
use crate::spec_util::spec_is_ended_by;
use crate::specs::DataModel;
use crate::specs::EbmlSpecification;
use crate::specs::MasterModel;
use crate::tag_iterator_util::EBMLSize;

verus! {

/// Whether the id `id` stands at `place` in `data`.
pub open spec fn id_at(data: Seq<u8>, place: usize, id: u64) -> bool {
    place <= data.len() && (spec_peek_tag_id(data.subrange(place as int, data.len() as int)) matches Some(
        (found, _),
    ) && found == id)
}

/// Whether the tag of `e`, if it is one, has its id at its place in `data`.
pub open spec fn is_placed(data: Seq<u8>, e: Emission) -> bool {
    e matches Ok((tag, place)) ==> id_at(data, place, tag.id)
}

/// Whether the body of `inner`, where its size is known, ends within the
/// body of `outer`, where the size of that is known.
pub open spec fn ends_within(inner: OpenTag, outer: OpenTag) -> bool {
    inner.size matches EBMLSize::Known(n) ==> (outer.size matches EBMLSize::Known(m)
        ==> inner.data_start + n <= outer.data_start + m)
}

impl ReaderState {
    /// Every open tag that was read, and every tag that is ready, has its id
    /// at the place that is kept with it.
    pub open spec fn places_hold(self) -> bool {
        &&& forall|i: int|
            0 <= i < self.stack.len() ==> stands_at(self.data, #[trigger] self.stack[i])
        &&& forall|k: int| 0 <= k < self.queue.len() ==> is_placed(self.data, #[trigger] self.queue[k])
    }

    /// Whether the path of a tag was looked at before, or is never looked at.
    pub open spec fn is_settled(self) -> bool {
        self.has_determined_doc_path || self.allow_hierarchy_problems
    }

    /// The iterator is in order, and the places hold.
    pub open spec fn grounded(self) -> bool {
        &&& self.wf()
        &&& self.places_hold()
    }

    /// Every open tag of known size ends within every open tag of known size
    /// around it.
    pub open spec fn contained(self) -> bool {
        forall|i: int, j: int|
            0 <= i < j < self.stack.len() ==> ends_within(
                #[trigger] self.stack[j],
                #[trigger] self.stack[i],
            )
    }

    /// The iterator is in order, makes the check of sizes against the open
    /// tags, and its open tags are contained in each other.
    pub open spec fn nested(self) -> bool {
        &&& self.wf()
        &&& !self.allow_oversized_tags
        &&& self.contained()
    }
}

/// Whether the open tag, if it was read, has its id at its place in `data`.
pub open spec fn stands_at(data: Seq<u8>, open: OpenTag) -> bool {
    is_assumed(open) || id_at(data, open.tag_start, open.tag.id)
}

/// The closing tags of open tags whose ids are at their places have their
/// ids at their places.
pub proof fn lemma_unwound_placed(data: Seq<u8>, stack: Seq<OpenTag>, keep: nat)
    requires
        forall|i: int| 0 <= i < stack.len() ==> stands_at(data, #[trigger] stack[i]),
    ensures
        forall|k: int|
            0 <= k < unwound(stack, keep).len() ==> is_placed(data, #[trigger] unwound(stack, keep)[k]),
        unwound(stack, keep).len() <= (if stack.len() >= keep {
            stack.len() - keep
        } else {
            0
        }),
    decreases stack.len(),
{
    if stack.len() > keep {
        let rest = stack.drop_last();
        assert forall|i: int| 0 <= i < rest.len() implies stands_at(data, #[trigger] rest[i]) by {
            assert(rest[i] == stack[i]);
        }
        lemma_unwound_placed(data, rest, keep);
        assert(stands_at(data, stack[stack.len() - 1]));
        let all = unwound(stack, keep);
        assert forall|k: int| 0 <= k < all.len() implies is_placed(data, #[trigger] all[k]) by {
            if is_assumed(stack.last()) {
                assert(all[k] == unwound(rest, keep)[k]);
            } else if k > 0 {
                assert(all[k] == unwound(rest, keep)[k - 1]);
            } else {
                assert(all[0] == closing(stack.last()));
            }
        }
    }
}

/// Where the outermost ended tag is, it is an open tag.
pub proof fn lemma_first_ended_bound(stack: Seq<OpenTag>, offset: usize, from: nat)
    ensures
        first_ended(stack, offset, from) matches Some(i) ==> from <= i < stack.len(),
    decreases stack.len() - from,
{
    if from < stack.len() {
        lemma_first_ended_bound(stack, offset, from + 1);
    }
}

/// Closing the open tags whose bodies have ended keeps the places and the
/// containment.
pub proof fn lemma_closed_known_keeps(s: ReaderState)
    requires
        s.wf(),
    ensures
        s.closed_known().follows(s),
        s.closed_known().offset == s.offset,
        s.closed_known().has_determined_doc_path == s.has_determined_doc_path,
        s.closed_known().stack.len() + s.closed_known().queue.len() <= s.stack.len()
            + s.queue.len(),
        s.closed_known().stack == s.stack.subrange(0, s.closed_known().stack.len() as int),
        s.places_hold() ==> s.closed_known().places_hold(),
        s.contained() ==> s.closed_known().contained(),
{
    lemma_first_ended_bound(s.stack, s.offset, 0);
    let next = s.closed_known();
    assert(s.queue.subrange(0, s.queue.len() as int) =~= s.queue);
    match first_ended(s.stack, s.offset, 0) {
        None => {
            assert(s.stack.subrange(0, s.stack.len() as int) =~= s.stack);
        },
        Some(keep) => {
            assert(next.queue.subrange(0, s.queue.len() as int) =~= s.queue);
            if s.places_hold() {
                lemma_unwound_placed(s.data, s.stack, keep);
            } else {
                lemma_unwound_len(s.stack, keep);
            }
        },
    }
}

/// The number of the closing tags of the open tags from the `keep`-th on.
pub proof fn lemma_unwound_len(stack: Seq<OpenTag>, keep: nat)
    ensures
        unwound(stack, keep).len() <= (if stack.len() >= keep {
            stack.len() - keep
        } else {
            0
        }),
    decreases stack.len(),
{
    if stack.len() > keep {
        lemma_unwound_len(stack.drop_last(), keep);
    }
}

/// Closing all open tags keeps the places and the containment.
pub proof fn lemma_unwound_all_keeps(s: ReaderState)
    requires
        s.wf(),
    ensures
        s.unwound_all().follows(s),
        s.unwound_all().offset == s.offset,
        s.unwound_all().has_determined_doc_path == s.has_determined_doc_path,
        s.unwound_all().stack.len() == 0,
        s.unwound_all().queue.len() <= s.stack.len() + s.queue.len(),
        s.places_hold() ==> s.unwound_all().places_hold(),
        s.unwound_all().contained(),
{
    let next = s.unwound_all();
    assert(next.queue.subrange(0, s.queue.len() as int) =~= s.queue);
    if s.places_hold() {
        lemma_unwound_placed(s.data, s.stack, 0);
    } else {
        lemma_unwound_len(s.stack, 0);
    }
}

/// Closing open tags of unknown size keeps the places and the containment.
pub proof fn lemma_closed_unknown_keeps<T: EbmlSpecification>(s: ReaderState, id: u64)
    requires
        s.wf(),
    ensures
        s.closed_unknown::<T>(id).follows(s),
        s.closed_unknown::<T>(id).offset == s.offset,
        s.closed_unknown::<T>(id).has_determined_doc_path == s.has_determined_doc_path,
        s.closed_unknown::<T>(id).stack == s.stack.subrange(
            0,
            s.closed_unknown::<T>(id).stack.len() as int,
        ),
        s.closed_unknown::<T>(id).stack.len() <= s.stack.len(),
        s.places_hold() ==> s.closed_unknown::<T>(id).places_hold(),
        s.contained() ==> s.closed_unknown::<T>(id).contained(),
    decreases s.stack.len(),
{
    assert(s.queue.subrange(0, s.queue.len() as int) =~= s.queue);
    if s.stack.len() > 0 && s.stack.last().size is Unknown && spec_is_ended_by::<T>(
        s.stack.last().tag.id,
        id,
    ) {
        let next = s.closed_one();
        lemma_closed_unknown_keeps::<T>(next, id);
        let last = next.closed_unknown::<T>(id);
        assert(last.queue.subrange(0, s.queue.len() as int) =~= last.queue.subrange(
            0,
            next.queue.len() as int,
        ).subrange(0, s.queue.len() as int));
        assert(next.queue.subrange(0, s.queue.len() as int) =~= s.queue);
        assert(last.stack =~= s.stack.subrange(0, last.stack.len() as int));
        if s.places_hold() {
            assert(stands_at(s.data, s.stack[s.stack.len() - 1]));
            assert forall|i: int| 0 <= i < next.stack.len() implies stands_at(
                s.data,
                #[trigger] next.stack[i],
            ) by {
                assert(next.stack[i] == s.stack[i]);
            }
            assert forall|k: int| 0 <= k < next.queue.len() implies is_placed(
                s.data,
                #[trigger] next.queue[k],
            ) by {
                if k < s.queue.len() {
                    assert(next.queue[k] == s.queue[k]);
                } else {
                    assert(next.queue[k] == closing(s.stack.last()));
                }
            }
            assert(next.places_hold());
        }
    } else {
        assert(s.stack.subrange(0, s.stack.len() as int) =~= s.stack);
    }
}

/// Whether `after` holds the open tags `before`, and around them ancestors
/// that are taken as open, each of unknown size.
pub open spec fn is_planted_on(after: Seq<OpenTag>, before: Seq<OpenTag>) -> bool {
    &&& after.len() >= before.len()
    &&& after.subrange(after.len() - before.len(), after.len() as int) == before
    &&& forall|i: int|
        0 <= i < after.len() - before.len() ==> is_assumed(#[trigger] after[i]) && after[i].size is Unknown
}

/// The tag that is read stands at the place from which it was read: where
/// the iterator stood, the id of the tag begins. A look at a header leaves
/// the open tags as they are, but for the ancestors that it takes as open
/// around them, which it does once at most.
pub proof fn lemma_read_one_placed<T: EbmlSpecification>(s: ReaderState)
    requires
        s.wf(),
    ensures
        s.read_one::<T>().1 matches Ok(found) ==> found.tag_start == s.offset && id_at(
            s.data,
            found.tag_start,
            found.tag.id,
        ),
        is_planted_on(s.read_one::<T>().0.stack, s.stack),
        s.has_determined_doc_path ==> s.read_one::<T>().0.stack == s.stack,
        s.places_hold() ==> s.read_one::<T>().0.places_hold(),
        s.is_settled() ==> s.read_one::<T>().0.is_settled(),
{
    lemma_peeked_keeps_place::<T>(s);
    lemma_read_one_moves::<T>(s);
    let (looked, header) = s.peeked::<T>();
    let read = s.read_one::<T>().0;
    assert(read.stack == looked.stack);
    assert(s.stack.subrange(0, s.stack.len() as int) =~= s.stack);
    if looked.stack != s.stack {
        let seen = spec_peek_tag_id(s.rest())->0;
        let id = seen.0;
        let path = T::spec_path_by_id(id);
        let front = crate::reader_state::planted_stack(path);
        assert(looked.stack == front + s.stack);
        assert(looked.stack.subrange(looked.stack.len() - s.stack.len(), looked.stack.len() as int)
            =~= s.stack);
        assert forall|i: int| 0 <= i < looked.stack.len() - s.stack.len() implies is_assumed(
            #[trigger] looked.stack[i],
        ) && looked.stack[i].size is Unknown by {
            assert(looked.stack[i] == front[i]);
        }
    }
    if s.places_hold() {
        assert forall|i: int| 0 <= i < read.stack.len() implies stands_at(
            s.data,
            #[trigger] read.stack[i],
        ) by {
            let shift = read.stack.len() - s.stack.len();
            if i >= shift {
                assert(read.stack[i] == read.stack.subrange(shift, read.stack.len() as int)[i
                    - shift]);
                assert(stands_at(s.data, s.stack[i - shift]));
            }
        }
    }
}

/// A look at a header leaves the open tags as they are, but for the
/// ancestors that it takes as open around them, which it does once at most.
pub proof fn lemma_peeked_stack<T: EbmlSpecification>(s: ReaderState)
    requires
        s.wf(),
    ensures
        is_planted_on(s.peeked::<T>().0.stack, s.stack),
        s.peeked::<T>().0.stack != s.stack ==> s.peeked::<T>().0.has_determined_doc_path,
        s.has_determined_doc_path ==> s.peeked::<T>().0 == s,
{
    lemma_peeked_keeps_place::<T>(s);
    lemma_read_one_placed::<T>(s);
    lemma_read_one_moves::<T>(s);
    let looked = s.peeked::<T>().0;
    assert(s.read_one::<T>().0.stack == looked.stack);
}

/// Where a header is in order, a second look at it finds it in order, and
/// changes nothing.
pub proof fn lemma_peeked_again<T: EbmlSpecification>(s: ReaderState)
    requires
        s.wf(),
        s.peeked::<T>().1 is Ok,
    ensures
        s.peeked::<T>().0.peeked::<T>() == s.peeked::<T>(),
{
    lemma_peeked_keeps_place::<T>(s);
    let looked = s.peeked::<T>().0;
    assert(looked.rest() == s.rest());
    let seen = spec_peek_tag_id(s.rest())->0;
    let id = seen.0;
    if !s.allow_hierarchy_problems && T::spec_tag_data_type(id) is Some {
        let placed = s.placed::<T>(id).0;
        assert(looked == placed);
        assert(placed.placed::<T>(id) == (placed, None::<crate::error::ReadFault>));
        assert(placed.stack_path() == looked.stack_path());
    } else {
        assert(looked == s);
    }
}

/// What passing over bytes up to a header that is in order leaves: the
/// bytes, what is ready and the open tags stay as they are, but for the
/// ancestors that a look at a header takes as open; where a header was
/// found, the place has moved on, and the header there is in order.
pub proof fn lemma_skipped_keeps<T: EbmlSpecification>(s: ReaderState)
    requires
        s.wf(),
    ensures
        s.skipped::<T>().0.wf(),
        s.skipped::<T>().0.data == s.data,
        s.skipped::<T>().0.queue == s.queue,
        s.skipped::<T>().0.offset >= s.offset,
        is_planted_on(s.skipped::<T>().0.stack, s.stack),
        s.has_determined_doc_path ==> s.skipped::<T>().0.stack == s.stack,
        s.skipped::<T>().1 is None ==> s.skipped::<T>().0.offset > s.offset && s.skipped::<
            T,
        >().0.peeked::<T>() == (s.skipped::<T>().0, s.skipped::<T>().0.peeked::<T>().1) && s.skipped::<
            T,
        >().0.peeked::<T>().1 is Ok,
    decreases s.data.len() - s.offset,
{
    assert(s.stack.subrange(0, s.stack.len() as int) =~= s.stack);
    if s.offset < s.data.len() {
        let moved = ReaderState { offset: (s.offset + 1) as usize, ..s };
        lemma_peeked_keeps_place::<T>(moved);
        lemma_peeked_stack::<T>(moved);
        let (looked, header) = moved.peeked::<T>();
        if header is Ok {
            lemma_peeked_again::<T>(moved);
        } else {
            lemma_skipped_keeps::<T>(looked);
        }
    }
}

/// Whether open tags agree with a path depends on their ids and on which
/// of them have a known size, not on the sizes.
pub proof fn lemma_path_agrees_sizes<T: EbmlSpecification>(
    tag_id: u64,
    path: crate::specs::PathModel,
    a: Seq<crate::spec_util::DocNode>,
    b: Seq<crate::spec_util::DocNode>,
    at: nat,
    path_marker: nat,
    global_counter: nat,
)
    requires
        a.len() == b.len(),
        forall|i: int|
            0 <= i < a.len() ==> (#[trigger] a[i]).0 == b[i].0 && (a[i].1 is Known) == (b[i].1 is Known),
    ensures
        crate::spec_util::path_agrees::<T>(tag_id, path, a, at, path_marker, global_counter)
            == crate::spec_util::path_agrees::<T>(tag_id, path, b, at, path_marker, global_counter),
    decreases a.len() - at,
{
    if at < a.len() {
        assert(a[at as int].0 == b[at as int].0 && (a[at as int].1 is Known) == (b[at as int].1 is Known));
        lemma_path_agrees_sizes::<T>(tag_id, path, a, b, at + 1, path_marker + 1, global_counter);
        lemma_path_agrees_sizes::<T>(tag_id, path, a, b, at + 1, path_marker + 2, 0);
        lemma_path_agrees_sizes::<T>(tag_id, path, a, b, at + 1, path_marker, global_counter + 1);
    }
}

/// A header that is in order stays in order where the open tags of known
/// size are made longer.
pub proof fn lemma_peeked_stretched<T: EbmlSpecification>(s: ReaderState, by: nat)
    requires
        s.wf(),
        s.peeked::<T>() == (s, s.peeked::<T>().1),
        s.peeked::<T>().1 is Ok,
    ensures
        (ReaderState { stack: ReaderState::stretched(s.stack, by as int), ..s }).peeked::<T>().1
            == s.peeked::<T>().1,
{
    let r = ReaderState { stack: ReaderState::stretched(s.stack, by as int), ..s };
    lemma_peeked_keeps_place::<T>(s);
    assert(r.rest() == s.rest());
    let seen = spec_peek_tag_id(s.rest())->0;
    let id = seen.0;
    let h = s.peeked::<T>().1->Ok_0;
    assert forall|total: int| r.exceeds_a_parent(total) implies s.exceeds_a_parent(total) by {
        let i = choose|i: int|
            0 <= i < r.stack.len() && ((#[trigger] r.stack[i]).size matches EBMLSize::Known(size)
                && r.stack[i].data_start + size < r.offset + total);
        assert(s.stack[i].size is Known);
    }
    assert(r.sized(h) == s.sized(h));
    if !s.allow_hierarchy_problems && T::spec_tag_data_type(id) is Some {
        assert(s.placed::<T>(id) == (s, None::<crate::error::ReadFault>));
        assert(r.placed::<T>(id) == (r, None::<crate::error::ReadFault>)) by {
            if !s.has_determined_doc_path && crate::spec_util::is_plain_path(
                T::spec_path_by_id(id),
            ) {
                assert(s.placed::<T>(id).0.has_determined_doc_path);
            }
        }
        lemma_path_agrees_sizes::<T>(
            id,
            T::spec_path_by_id(id),
            r.stack_path(),
            s.stack_path(),
            0,
            0,
            0,
        );
    }
}

/// What recovery leaves where it finds a header: the place has moved on by
/// a byte at least and stands at a header that is in order, nothing
/// was made ready, and the open tags are those that were open, around them
/// the ancestors that a look at a header may take as open; each open tag of
/// known size is longer by the number of bytes that were passed over, and
/// each other open tag is as it was.
pub proof fn lemma_recovered_keeps<T: EbmlSpecification>(s: ReaderState)
    requires
        s.wf(),
        s.recovered::<T>().1 is None,
    ensures
        s.recovered::<T>().0.offset > s.offset,
        s.recovered::<T>().0.data == s.data,
        s.recovered::<T>().0.queue == s.queue,
        s.skipped::<T>().0.offset == s.recovered::<T>().0.offset,
        s.recovered::<T>().0.peeked::<T>().1 is Ok,
        is_planted_on(s.skipped::<T>().0.stack, s.stack),
        s.recovered::<T>().0.stack == ReaderState::stretched(
            s.skipped::<T>().0.stack,
            s.recovered::<T>().0.offset - s.offset,
        ),
        s.recovered::<T>().0.stack.len() == s.skipped::<T>().0.stack.len(),
        forall|i: int|
            0 <= i < s.recovered::<T>().0.stack.len() ==> (#[trigger] s.recovered::<T>().0.stack[i]).tag
                == s.skipped::<T>().0.stack[i].tag && (match s.skipped::<T>().0.stack[i].size {
                EBMLSize::Known(size) => s.recovered::<T>().0.stack[i].size == EBMLSize::Known(
                    if size + (s.recovered::<T>().0.offset - s.offset) > usize::MAX {
                        usize::MAX
                    } else {
                        (size + (s.recovered::<T>().0.offset - s.offset)) as usize
                    },
                ),
                EBMLSize::Unknown => s.recovered::<T>().0.stack[i] == s.skipped::<T>().0.stack[i],
            }),
{
    lemma_skipped_keeps::<T>(s);
    let found = s.skipped::<T>().0;
    lemma_peeked_stretched::<T>(found, (found.offset - s.offset) as nat);
}

/// With the check of sizes against the open tags, a header of known size is
/// in order only where the tag ends within every open tag of known size. A
/// header that passed the checks before this one and reaches beyond such an
/// open tag is refused as an oversized child, with the place of its id, its
/// id and its size. Either way the place stays where it is.
pub proof fn lemma_header_is_contained<T: EbmlSpecification>(s: ReaderState, header: crate::reader_state::TagHeader)
    requires
        s.wf(),
        !s.allow_oversized_tags,
    ensures
        s.peeked::<T>().0.offset == s.offset,
        s.peeked::<T>().1 matches Ok(h) ==> (h.size matches EBMLSize::Known(n) ==> forall|i: int|
            0 <= i < s.peeked::<T>().0.stack.len() ==> ((#[trigger] s.peeked::<T>().0.stack[i]).size
                matches EBMLSize::Known(m) ==> s.offset + h.header_len + n
                <= s.peeked::<T>().0.stack[i].data_start + m)),
        header.size is Known && s.exceeds_a_parent(header.header_len + header.size->Known_0)
            ==> s.sized(header) == Err::<crate::reader_state::TagHeader, crate::error::ReadFault>(
            crate::error::ReadFault::CorruptedFileData(
                crate::error::CorruptedFileError::OversizedChildElement {
                    position: s.offset,
                    tag_id: header.id,
                    size: header.size->Known_0,
                },
            ),
        ),
{
    lemma_peeked_keeps_place::<T>(s);
    let (looked, outcome) = s.peeked::<T>();
    match outcome {
        Ok(h) => {
            match h.size {
                EBMLSize::Known(n) => {
                    assert(!looked.exceeds_a_parent(h.header_len + n));
                },
                EBMLSize::Unknown => {},
            }
        },
        Err(_) => {},
    }
}

/// With the check of sizes against the open tags, a tag that is read ends
/// within every open tag of known size.
pub proof fn lemma_read_one_contained<T: EbmlSpecification>(s: ReaderState)
    requires
        s.wf(),
        !s.allow_oversized_tags,
    ensures
        s.read_one::<T>().1 matches Ok(found) ==> forall|i: int|
            0 <= i < s.read_one::<T>().0.stack.len() ==> ends_within(
                found,
                #[trigger] s.read_one::<T>().0.stack[i],
            ),
        s.contained() ==> s.read_one::<T>().0.contained(),
        !s.read_one::<T>().0.allow_oversized_tags,
{
    lemma_peeked_keeps_place::<T>(s);
    lemma_read_one_moves::<T>(s);
    let (looked, header) = s.peeked::<T>();
    let (read, outcome) = s.read_one::<T>();
    assert(read.stack == looked.stack);
    lemma_read_one_placed::<T>(s);
    let shift = read.stack.len() - s.stack.len();
    assert forall|i: int| shift <= i < read.stack.len() implies #[trigger] read.stack[i]
        == s.stack[i - shift] by {
        assert(read.stack[i] == read.stack.subrange(shift, read.stack.len() as int)[i - shift]);
    }
    if s.contained() {
        assert forall|i: int, j: int| 0 <= i < j < read.stack.len() implies ends_within(
            #[trigger] read.stack[j],
            #[trigger] read.stack[i],
        ) by {
            if i >= shift {
                assert(ends_within(s.stack[j - shift], s.stack[i - shift]));
            }
        }
    }
    match outcome {
        Ok(found) => {
            match found.size {
                EBMLSize::Known(n) => {
                    assert(!looked.exceeds_a_parent(header->Ok_0.header_len + n));
                    assert forall|i: int| 0 <= i < read.stack.len() implies ends_within(
                        found,
                        #[trigger] read.stack[i],
                    ) by {
                        if read.stack[i].size is Known {
                            assert(0 <= i < looked.stack.len() && looked.stack[i].size is Known);
                        }
                    }
                },
                EBMLSize::Unknown => {},
            }
        },
        Err(_) => {},
    }
}

/// What the search for the end of a master tag makes ready has its id at its
/// place.
pub proof fn lemma_collected_keeps<T: EbmlSpecification>(
    s: ReaderState,
    id: u64,
    tag_start: usize,
    before: nat,
    stop: nat,
)
    requires
        s.wf(),
        before <= stop < s.queue.len(),
    ensures
        s.collected::<T>(id, tag_start, before, stop).wf(),
        s.collected::<T>(id, tag_start, before, stop).stack == s.stack,
        s.collected::<T>(id, tag_start, before, stop).offset == s.offset,
        s.collected::<T>(id, tag_start, before, stop).has_determined_doc_path
            == s.has_determined_doc_path,
        s.collected::<T>(id, tag_start, before, stop).follows(
            ReaderState { queue: s.queue.subrange(0, before as int), ..s },
        ),
        s.collected::<T>(id, tag_start, before, stop).queue.len() > before,
        s.places_hold() && id_at(s.data, tag_start, id) ==> s.collected::<T>(
            id,
            tag_start,
            before,
            stop,
        ).places_hold(),
{
    let next = s.collected::<T>(id, tag_start, before, stop);
    let front = s.queue.subrange(0, before as int);
    assert(front.subrange(0, before as int) =~= front);
    assert(next.queue.subrange(0, before as int) =~= front);
    if s.places_hold() && id_at(s.data, tag_start, id) {
        assert forall|k: int| 0 <= k < next.queue.len() implies is_placed(
            s.data,
            #[trigger] next.queue[k],
        ) by {
            if k < before {
                assert(next.queue[k] == s.queue[k]);
            } else if k == before {
            } else {
                assert(s.queue[stop as int] is Ok);
                assert(next.queue[k] == s.queue[stop + k - before]);
            }
        }
    }
}

/// Reading the next tag keeps the places. The place that is given out with a
/// tag is where the id of the tag begins in the document.
#[verifier::rlimit(60)]
pub proof fn lemma_advanced_keeps_places<T: EbmlSpecification>(s: ReaderState)
    requires
        s.grounded(),
    ensures
        s.advanced::<T>().wf(),
        s.advanced::<T>().places_hold(),
        s.advanced::<T>().advances_on(s),
    decreases s.remaining(), s.stack.len(), 0nat,
{
    lemma_closed_known_keeps(s);
    let settled = s.closed_known();
    if settled.offset >= settled.data.len() {
        lemma_unwound_all_keeps(settled);
        let last = settled.unwound_all();
        assert(last.queue.subrange(0, s.queue.len() as int) =~= last.queue.subrange(
            0,
            settled.queue.len() as int,
        ).subrange(0, s.queue.len() as int));
        assert(last.advances_on(s));
    } else {
        lemma_read_one_placed::<T>(settled);
        lemma_read_one_moves::<T>(settled);
        let (read, outcome) = settled.read_one::<T>();
        match outcome {
            Err(fault) => {
                let last = read.enqueue(Err(fault));
                assert(last.queue.subrange(0, s.queue.len() as int) =~= settled.queue.subrange(
                    0,
                    s.queue.len() as int,
                ));
                assert(last.queue.last() is Err);
                assert(last.advances_on(s));
            },
            Ok(found) => {
                let id = found.tag.id;
                lemma_closed_unknown_keeps::<T>(read, id);
                let cleared = read.closed_unknown::<T>(id);
                assert(cleared.queue.subrange(0, s.queue.len() as int) =~= cleared.queue.subrange(
                    0,
                    settled.queue.len() as int,
                ).subrange(0, s.queue.len() as int));
                if found.tag == crate::reader_state::start_of(id) {
                    if !T::spec_makes(crate::reader_state::end_of(id)) {
                        let last = cleared.enqueue(
                            Err(crate::reader_state::invalid_id(id, found.tag_start)),
                        );
                        assert(last.queue.subrange(0, s.queue.len() as int)
                            =~= cleared.queue.subrange(0, s.queue.len() as int));
                        assert(last.advances_on(s));
                    } else {
                        let opened = ReaderState {
                            stack: cleared.stack.push(
                                OpenTag {
                                    tag: crate::reader_state::end_of(id),
                                    size: found.size,
                                    tag_start: found.tag_start,
                                    data_start: found.data_start,
                                },
                            ),
                            ..cleared
                        };
                        assert(opened.places_hold());
                        if s.buffered_ids.contains(id) {
                            lemma_buffered_keeps_places::<T>(
                                opened,
                                id,
                                found.tag_start,
                                opened.queue.len(),
                                opened.queue.len(),
                            );
                            let last = opened.buffered::<T>(
                                id,
                                found.tag_start,
                                opened.queue.len(),
                                opened.queue.len(),
                            );
                            assert(last.queue.len() > opened.queue.len());
                            assert(opened.queue.len() >= s.queue.len());
                            assert(last.queue.subrange(0, opened.queue.len() as int)
                                == opened.queue.subrange(0, opened.queue.len() as int));
                            assert(opened.queue.subrange(0, opened.queue.len() as int)
                                =~= opened.queue);
                            assert(last.queue.subrange(0, s.queue.len() as int)
                                =~= last.queue.subrange(0, opened.queue.len() as int).subrange(
                                0,
                                s.queue.len() as int,
                            ));
                            assert(last.advances_on(s));
                        } else {
                            let last = opened.enqueue(Ok((found.tag, found.tag_start)));
                            assert(last.queue.subrange(0, s.queue.len() as int)
                                =~= cleared.queue.subrange(0, s.queue.len() as int));
                            assert(last.advances_on(s));
                        }
                    }
                } else {
                    let last = cleared.enqueue(Ok((found.tag, found.tag_start)));
                    assert(last.queue.subrange(0, s.queue.len() as int) =~= cleared.queue.subrange(
                        0,
                        s.queue.len() as int,
                    ));
                    assert(last.advances_on(s));
                }
            },
        }
    }
}

/// Reading a master tag to its end keeps the places: the whole tag is given
/// out with the place where its id begins.
pub proof fn lemma_buffered_keeps_places<T: EbmlSpecification>(
    s: ReaderState,
    id: u64,
    tag_start: usize,
    before: nat,
    from: nat,
)
    requires
        s.wf(),
        s.places_hold(),
        id_at(s.data, tag_start, id),
        before <= from,
        before <= s.queue.len(),
    ensures
        s.buffered::<T>(id, tag_start, before, from).wf(),
        s.buffered::<T>(id, tag_start, before, from).places_hold(),
        s.buffered::<T>(id, tag_start, before, from).follows(
            ReaderState { queue: s.queue.subrange(0, before as int), ..s },
        ),
        s.buffered::<T>(id, tag_start, before, from).queue.len() > before,
    decreases s.remaining(), s.stack.len(), 1nat,
{
    lemma_advanced_keeps_places::<T>(s);
    let next = s.advanced::<T>();
    let front = s.queue.subrange(0, before as int);
    assert(front.subrange(0, before as int) =~= front);
    assert(next.queue.subrange(0, before as int) =~= next.queue.subrange(
        0,
        s.queue.len() as int,
    ).subrange(0, before as int));
    if from >= next.queue.len() {
        let last = next.enqueue(
            Err(
                crate::error::ReadFault::UnexpectedEOF {
                    tag_start,
                    tag_id: Some(id),
                    tag_size: None,
                    partial_data: None,
                },
            ),
        );
        assert(last.queue.subrange(0, before as int) =~= next.queue.subrange(0, before as int));
    } else {
        match first_stop(next.queue, id, from) {
            Some(stop) => {
                lemma_first_stop_bound(next.queue, id, from);
                lemma_collected_keeps::<T>(next, id, tag_start, before, stop);
            },
            None => {
                if next.smaller_than(s) {
                    lemma_buffered_keeps_places::<T>(next, id, tag_start, before, next.queue.len());
                    let last = next.buffered::<T>(id, tag_start, before, next.queue.len());
                    assert(next.queue.subrange(0, before as int).subrange(0, before as int)
                        =~= next.queue.subrange(0, before as int));
                }
            },
        }
    }
}

/// Where the search stops, there is something ready.
pub proof fn lemma_first_stop_bound(queue: Seq<Emission>, id: u64, from: nat)
    ensures
        first_stop(queue, id, from) matches Some(stop) ==> from <= stop < queue.len(),
    decreases queue.len() - from,
{
    if from < queue.len() {
        lemma_first_stop_bound(queue, id, from + 1);
    }
}

/// Asking for the next tag keeps the places: the place that is kept as the
/// place of the last tag is where the id of the tag that was given out
/// begins in the document.
pub proof fn lemma_stepped_is_placed<T: EbmlSpecification>(s: ReaderState)
    requires
        s.grounded(),
    ensures
        s.stepped::<T>().0.wf(),
        s.stepped::<T>().0.places_hold(),
        s.stepped::<T>().1 matches Some(Ok((tag, place))) ==> id_at(s.data, place, tag.id)
            && s.stepped::<T>().0.last_emitted_tag_offset == place,
{
    let filled = if s.queue.len() == 0 {
        s.advanced::<T>()
    } else {
        s
    };
    if s.queue.len() == 0 {
        lemma_advanced_keeps_places::<T>(s);
    }
    if filled.queue.len() > 0 {
        assert(is_placed(filled.data, filled.queue[0]));
        let next = s.stepped::<T>().0;
        assert forall|k: int| 0 <= k < next.queue.len() implies is_placed(
            next.data,
            #[trigger] next.queue[k],
        ) by {
            assert(next.queue[k] == filled.queue[k + 1]);
        }
    }
}

/// Reading the next tag keeps the containment: with the check of sizes
/// against the open tags, no tag is taken as open that ends beyond the end of
/// an open tag of known size around it.
pub proof fn lemma_advanced_keeps_contained<T: EbmlSpecification>(s: ReaderState)
    requires
        s.nested(),
    ensures
        s.advanced::<T>().nested(),
        s.advanced::<T>().follows(s),
    decreases s.remaining(), s.stack.len(), 0nat,
{
    lemma_closed_known_keeps(s);
    let settled = s.closed_known();
    if settled.offset >= settled.data.len() {
        lemma_unwound_all_keeps(settled);
        let last = settled.unwound_all();
        assert(last.queue.subrange(0, s.queue.len() as int) =~= last.queue.subrange(
            0,
            settled.queue.len() as int,
        ).subrange(0, s.queue.len() as int));
    } else {
        lemma_read_one_contained::<T>(settled);
        lemma_read_one_moves::<T>(settled);
        let (read, outcome) = settled.read_one::<T>();
        match outcome {
            Err(fault) => {
                let last = read.enqueue(Err(fault));
                assert(last.queue.subrange(0, s.queue.len() as int) =~= settled.queue.subrange(
                    0,
                    s.queue.len() as int,
                ));
                assert(last.follows(s));
            },
            Ok(found) => {
                let id = found.tag.id;
                lemma_closed_unknown_keeps::<T>(read, id);
                let cleared = read.closed_unknown::<T>(id);
                assert(cleared.queue.subrange(0, s.queue.len() as int) =~= cleared.queue.subrange(
                    0,
                    settled.queue.len() as int,
                ).subrange(0, s.queue.len() as int));
                if found.tag == crate::reader_state::start_of(id) {
                    if !T::spec_makes(crate::reader_state::end_of(id)) {
                        let last = cleared.enqueue(
                            Err(crate::reader_state::invalid_id(id, found.tag_start)),
                        );
                        assert(last.queue.subrange(0, s.queue.len() as int)
                            =~= cleared.queue.subrange(0, s.queue.len() as int));
                        assert(last.follows(s));
                    } else {
                        let entry = OpenTag {
                            tag: crate::reader_state::end_of(id),
                            size: found.size,
                            tag_start: found.tag_start,
                            data_start: found.data_start,
                        };
                        let opened = ReaderState { stack: cleared.stack.push(entry), ..cleared };
                        assert forall|i: int, j: int|
                            0 <= i < j < opened.stack.len() implies ends_within(
                            #[trigger] opened.stack[j],
                            #[trigger] opened.stack[i],
                        ) by {
                            assert(opened.stack[i] == read.stack[i]);
                            if j < cleared.stack.len() {
                                assert(opened.stack[j] == cleared.stack[j]);
                                assert(ends_within(cleared.stack[j], cleared.stack[i]));
                            } else {
                                assert(ends_within(found, read.stack[i]));
                            }
                        }
                        if s.buffered_ids.contains(id) {
                            lemma_buffered_keeps_contained::<T>(
                                opened,
                                id,
                                found.tag_start,
                                opened.queue.len(),
                                opened.queue.len(),
                            );
                            let last = opened.buffered::<T>(
                                id,
                                found.tag_start,
                                opened.queue.len(),
                                opened.queue.len(),
                            );
                            assert(last.queue.len() > opened.queue.len());
                            assert(opened.queue.len() >= s.queue.len());
                            assert(last.queue.subrange(0, opened.queue.len() as int)
                                == opened.queue.subrange(0, opened.queue.len() as int));
                            assert(opened.queue.subrange(0, opened.queue.len() as int)
                                =~= opened.queue);
                            assert(last.queue.subrange(0, s.queue.len() as int)
                                =~= last.queue.subrange(0, opened.queue.len() as int).subrange(
                                0,
                                s.queue.len() as int,
                            ));
                            assert(last.follows(s));
                        } else {
                            let last = opened.enqueue(Ok((found.tag, found.tag_start)));
                            assert(last.queue.subrange(0, s.queue.len() as int)
                                =~= cleared.queue.subrange(0, s.queue.len() as int));
                            assert(last.follows(s));
                        }
                    }
                } else {
                    let last = cleared.enqueue(Ok((found.tag, found.tag_start)));
                    assert(last.queue.subrange(0, s.queue.len() as int) =~= cleared.queue.subrange(
                        0,
                        s.queue.len() as int,
                    ));
                    assert(last.follows(s));
                }
            },
        }
    }
}

/// Reading a master tag to its end keeps the containment.
pub proof fn lemma_buffered_keeps_contained<T: EbmlSpecification>(
    s: ReaderState,
    id: u64,
    tag_start: usize,
    before: nat,
    from: nat,
)
    requires
        s.nested(),
        before <= from,
        before <= s.queue.len(),
    ensures
        s.buffered::<T>(id, tag_start, before, from).nested(),
        s.buffered::<T>(id, tag_start, before, from).follows(
            ReaderState { queue: s.queue.subrange(0, before as int), ..s },
        ),
        s.buffered::<T>(id, tag_start, before, from).queue.len() > before,
    decreases s.remaining(), s.stack.len(), 1nat,
{
    lemma_advanced_keeps_contained::<T>(s);
    let next = s.advanced::<T>();
    let front = s.queue.subrange(0, before as int);
    assert(front.subrange(0, before as int) =~= front);
    assert(next.queue.subrange(0, before as int) =~= next.queue.subrange(
        0,
        s.queue.len() as int,
    ).subrange(0, before as int));
    if from >= next.queue.len() {
        let last = next.enqueue(
            Err(
                crate::error::ReadFault::UnexpectedEOF {
                    tag_start,
                    tag_id: Some(id),
                    tag_size: None,
                    partial_data: None,
                },
            ),
        );
        assert(last.queue.subrange(0, before as int) =~= next.queue.subrange(0, before as int));
    } else {
        match first_stop(next.queue, id, from) {
            Some(stop) => {
                lemma_first_stop_bound(next.queue, id, from);
                lemma_collected_keeps::<T>(next, id, tag_start, before, stop);
            },
            None => {
                if next.smaller_than(s) {
                    lemma_buffered_keeps_contained::<T>(
                        next,
                        id,
                        tag_start,
                        before,
                        next.queue.len(),
                    );
                    assert(next.queue.subrange(0, before as int).subrange(0, before as int)
                        =~= next.queue.subrange(0, before as int));
                }
            },
        }
    }
}

/// Asking for the next tag keeps the containment.
pub proof fn lemma_stepped_keeps_contained<T: EbmlSpecification>(s: ReaderState)
    requires
        s.nested(),
    ensures
        s.stepped::<T>().0.nested(),
{
    if s.queue.len() == 0 {
        lemma_advanced_keeps_contained::<T>(s);
    }
}

/// The ids of the open tags that were read, outermost first: the master
/// tags whose start was made ready and whose end is to come.
pub open spec fn open_ids(stack: Seq<OpenTag>) -> Seq<u64>
    decreases stack.len(),
{
    if stack.len() == 0 {
        Seq::empty()
    } else if is_assumed(stack.last()) {
        open_ids(stack.drop_last())
    } else {
        open_ids(stack.drop_last()).push(stack.last().tag.id)
    }
}

/// The ids of the open tags after one more tag was opened.
pub proof fn lemma_open_ids_push(stack: Seq<OpenTag>, open: OpenTag)
    ensures
        open_ids(stack.push(open)) == (if is_assumed(open) {
            open_ids(stack)
        } else {
            open_ids(stack).push(open.tag.id)
        }),
{
    assert(stack.push(open).drop_last() =~= stack);
}

/// Ancestors that are taken as open add no ids to those of the open tags
/// that were read.
pub proof fn lemma_planted_ids(after: Seq<OpenTag>, before: Seq<OpenTag>)
    requires
        is_planted_on(after, before),
    ensures
        open_ids(after) == open_ids(before),
    decreases after.len(),
{
    if after.len() > 0 {
        let shift = after.len() - before.len();
        if before.len() == 0 {
            assert(is_assumed(after[after.len() - 1]));
            assert(after.drop_last().subrange(after.len() - 1, after.len() - 1) =~= before);
            lemma_planted_ids(after.drop_last(), before);
        } else {
            assert(after.last() == after.subrange(shift, after.len() as int)[before.len() - 1]);
            assert(after.drop_last().subrange(shift, after.len() - 1) =~= before.drop_last());
            lemma_planted_ids(after.drop_last(), before.drop_last());
        }
    }
}

/// The master tags that are open after `e` was given out, where `open` were
/// open before it, or nothing where `e` is an end that does not close the
/// innermost open tag.
pub open spec fn nesting_step(open: Seq<u64>, e: Emission) -> Option<Seq<u64>> {
    match e {
        Ok((tag, _)) => if tag.data == DataModel::Master(MasterModel::Start) {
            Some(open.push(tag.id))
        } else if tag.data == DataModel::Master(MasterModel::End) {
            if open.len() > 0 && open.last() == tag.id {
                Some(open.drop_last())
            } else {
                None
            }
        } else {
            Some(open)
        },
        Err(_) => Some(open),
    }
}

/// The master tags that are open after `events` were given out, where `open`
/// were open before them, or nothing where an end among the events comes
/// without the start that it closes: each start opens a tag, and each end
/// closes the innermost open tag, which must have its id.
pub open spec fn nesting_after(open: Seq<u64>, events: Seq<Emission>) -> Option<Seq<u64>>
    decreases events.len(),
{
    if events.len() == 0 {
        Some(open)
    } else {
        match nesting_after(open, events.drop_last()) {
            None => None,
            Some(inner) => nesting_step(inner, events.last()),
        }
    }
}

/// The nesting after two runs of events is the nesting after the second run
/// from the nesting after the first.
pub proof fn lemma_nesting_concat(open: Seq<u64>, a: Seq<Emission>, b: Seq<Emission>)
    ensures
        nesting_after(open, a + b) == (match nesting_after(open, a) {
            None => None,
            Some(inner) => nesting_after(inner, b),
        }),
    decreases b.len(),
{
    if b.len() == 0 {
        assert(a + b =~= a);
    } else {
        lemma_nesting_concat(open, a, b.drop_last());
        assert((a + b).drop_last() =~= a + b.drop_last());
        assert((a + b).last() == b.last());
    }
}

/// Whether the open tag is an ancestor that was taken as open, or closes
/// with the end of a master tag.
pub open spec fn closes_with_end(open: OpenTag) -> bool {
    is_assumed(open) || open.tag.data == DataModel::Master(MasterModel::End)
}

impl ReaderState {
    /// Every open tag that was read closes with the end of a master tag.
    pub open spec fn closes_with_ends(self) -> bool {
        forall|i: int| 0 <= i < self.stack.len() ==> closes_with_end(#[trigger] self.stack[i])
    }

    /// The iterator is in order and closes every open tag that was read
    /// with an end.
    pub open spec fn paired<T: EbmlSpecification>(self) -> bool {
        &&& self.wf()
        &&& self.closes_with_ends()
    }

    /// Whether the next tag that is read is the start of a master tag that
    /// is given out whole.
    pub open spec fn opens_whole<T: EbmlSpecification>(self) -> bool {
        let settled = self.closed_known();
        &&& settled.offset < settled.data.len()
        &&& settled.read_one::<T>().1 matches Ok(found) && found.tag == crate::reader_state::start_of(
            found.tag.id,
        ) && T::spec_makes(crate::reader_state::end_of(found.tag.id))
            && self.buffered_ids.contains(found.tag.id)
    }

    /// What is ready now and was not ready in `before`.
    pub open spec fn newly_ready(self, before: ReaderState) -> Seq<Emission> {
        self.queue.subrange(before.queue.len() as int, self.queue.len() as int)
    }
}

/// The closing tags of the open tags from the `keep`-th on close just these
/// tags.
pub proof fn lemma_unwound_nesting(stack: Seq<OpenTag>, keep: nat)
    requires
        keep <= stack.len(),
        forall|i: int| 0 <= i < stack.len() ==> closes_with_end(#[trigger] stack[i]),
    ensures
        nesting_after(open_ids(stack), unwound(stack, keep)) == Some(
            open_ids(stack.subrange(0, keep as int)),
        ),
    decreases stack.len(),
{
    if stack.len() <= keep {
        assert(stack.subrange(0, keep as int) =~= stack);
    } else {
        let below = stack.drop_last();
        assert forall|i: int| 0 <= i < below.len() implies closes_with_end(#[trigger] below[i]) by {
            assert(below[i] == stack[i]);
        }
        assert(closes_with_end(stack[stack.len() - 1]));
        let rest = unwound(below, keep);
        lemma_unwound_nesting(below, keep);
        assert(below.subrange(0, keep as int) =~= stack.subrange(0, keep as int));
        if is_assumed(stack.last()) {
            assert(unwound(stack, keep) =~= rest);
        } else {
            let first = seq![closing(stack.last())];
            lemma_nesting_concat(open_ids(stack), first, rest);
            assert(first.drop_last() =~= Seq::<Emission>::empty());
            assert(nesting_after(open_ids(stack), first.drop_last()) == Some(open_ids(stack)));
            assert(first.last() == closing(stack.last()));
            assert(open_ids(stack).last() == stack.last().tag.id);
            assert(open_ids(stack).drop_last() =~= open_ids(below));
            assert(nesting_after(open_ids(stack), first) == Some(open_ids(below)));
        }
    }
}

/// Closing open tags of unknown size closes just these tags.
pub proof fn lemma_closed_unknown_nesting<T: EbmlSpecification>(s: ReaderState, id: u64)
    requires
        s.wf(),
        s.closes_with_ends(),
    ensures
        s.closed_unknown::<T>(id).closes_with_ends(),
        nesting_after(open_ids(s.stack), s.closed_unknown::<T>(id).newly_ready(s)) == Some(
            open_ids(s.closed_unknown::<T>(id).stack),
        ),
    decreases s.stack.len(),
{
    lemma_closed_unknown_keeps::<T>(s, id);
    if s.stack.len() > 0 && s.stack.last().size is Unknown && spec_is_ended_by::<T>(
        s.stack.last().tag.id,
        id,
    ) {
        let next = s.closed_one();
        assert forall|i: int| 0 <= i < next.stack.len() implies closes_with_end(
            #[trigger] next.stack[i],
        ) by {
            assert(next.stack[i] == s.stack[i]);
        }
        assert(closes_with_end(s.stack[s.stack.len() - 1]));
        lemma_closed_unknown_nesting::<T>(next, id);
        lemma_closed_unknown_keeps::<T>(next, id);
        let last = next.closed_unknown::<T>(id);
        let first = crate::reader_state::closings(s.stack.last());
        assert(next.queue.subrange(0, s.queue.len() as int) =~= s.queue);
        assert(next.follows(s));
        lemma_newly_ready_chain(s, next, last);
        assert(next.newly_ready(s) =~= first);
        lemma_nesting_concat(open_ids(s.stack), first, last.newly_ready(next));
        if is_assumed(s.stack.last()) {
            assert(nesting_after(open_ids(s.stack), first) == Some(open_ids(s.stack)));
        } else {
            assert(first.drop_last() =~= Seq::<Emission>::empty());
            assert(nesting_after(open_ids(s.stack), first.drop_last()) == Some(open_ids(s.stack)));
            assert(open_ids(s.stack).drop_last() =~= open_ids(next.stack));
        }
    } else {
        assert(s.newly_ready(s) =~= Seq::<Emission>::empty());
    }
}

/// Closing the open tags whose bodies have ended closes just these tags.
pub proof fn lemma_closed_known_nesting(s: ReaderState)
    requires
        s.wf(),
        s.closes_with_ends(),
    ensures
        s.closed_known().closes_with_ends(),
        nesting_after(open_ids(s.stack), s.closed_known().newly_ready(s)) == Some(
            open_ids(s.closed_known().stack),
        ),
        first_ended(s.stack, s.offset, 0) is None ==> s.closed_known() == s,
{
    lemma_closed_known_keeps(s);
    lemma_first_ended_bound(s.stack, s.offset, 0);
    let settled = s.closed_known();
    let closings = settled.newly_ready(s);
    match first_ended(s.stack, s.offset, 0) {
        None => {
            assert(closings =~= Seq::<Emission>::empty());
        },
        Some(keep) => {
            lemma_unwound_nesting(s.stack, keep);
            assert(closings =~= unwound(s.stack, keep));
        },
    }
    assert forall|i: int| 0 <= i < settled.stack.len() implies closes_with_end(
        #[trigger] settled.stack[i],
    ) by {
        assert(settled.stack[i] == s.stack[i]);
    }
}

/// Closing all open tags closes just these tags.
pub proof fn lemma_unwound_all_nesting(s: ReaderState)
    requires
        s.wf(),
        s.closes_with_ends(),
    ensures
        s.unwound_all().closes_with_ends(),
        nesting_after(open_ids(s.stack), s.unwound_all().newly_ready(s)) == Some(
            open_ids(s.unwound_all().stack),
        ),
{
    lemma_unwound_all_keeps(s);
    lemma_unwound_nesting(s.stack, 0);
    let last = s.unwound_all();
    assert(last.newly_ready(s) =~= unwound(s.stack, 0));
    assert(s.stack.subrange(0, 0) =~= last.stack);
}

/// What one more entry adds to the nesting.
pub proof fn lemma_nesting_push(open: Seq<u64>, events: Seq<Emission>, e: Emission)
    ensures
        nesting_after(open, events.push(e)) == (match nesting_after(open, events) {
            None => None,
            Some(inner) => nesting_step(inner, e),
        }),
{
    assert(events.push(e).drop_last() =~= events);
}

/// What is newly ready after two moves is what was newly ready after the
/// first and then what is newly ready after the second.
pub proof fn lemma_newly_ready_chain(first: ReaderState, second: ReaderState, third: ReaderState)
    requires
        second.follows(first),
        third.follows(second),
    ensures
        third.follows(first),
        third.newly_ready(first) == second.newly_ready(first) + third.newly_ready(second),
{
    assert(third.queue.subrange(0, first.queue.len() as int) =~= third.queue.subrange(
        0,
        second.queue.len() as int,
    ).subrange(0, first.queue.len() as int));
    assert forall|k: int| 0 <= k < second.newly_ready(first).len() implies third.newly_ready(
        first,
    )[k] == second.newly_ready(first)[k] by {
        assert(third.queue[first.queue.len() + k] == third.queue.subrange(
            0,
            second.queue.len() as int,
        )[first.queue.len() + k]);
    }
    assert(third.newly_ready(first) =~= second.newly_ready(first) + third.newly_ready(second));
}

/// The state after a tag was read and the open tags of unknown size that it
/// ends were closed, in an iterator that gives no master tag out whole.
pub open spec fn taken_in<T: EbmlSpecification>(cleared: ReaderState, found: OpenTag) -> ReaderState {
    let id = found.tag.id;
    if found.tag == crate::reader_state::start_of(id) {
        if !T::spec_makes(crate::reader_state::end_of(id)) {
            cleared.enqueue(Err(crate::reader_state::invalid_id(id, found.tag_start)))
        } else {
            (ReaderState {
                stack: cleared.stack.push(
                    OpenTag {
                        tag: crate::reader_state::end_of(id),
                        size: found.size,
                        tag_start: found.tag_start,
                        data_start: found.data_start,
                    },
                ),
                ..cleared
            }).enqueue(Ok((found.tag, found.tag_start)))
        }
    } else {
        cleared.enqueue(Ok((found.tag, found.tag_start)))
    }
}

/// A tag that is made ready opens a master tag where it is a start, and else
/// leaves the open tags as they are.
pub proof fn lemma_taken_in_nesting<T: EbmlSpecification>(cleared: ReaderState, found: OpenTag)
    requires
        cleared.wf(),
        cleared.closes_with_ends(),
        found.tag.data != DataModel::Master(MasterModel::End),
    ensures
        taken_in::<T>(cleared, found).closes_with_ends(),
        taken_in::<T>(cleared, found).follows(cleared),
        nesting_after(open_ids(cleared.stack), taken_in::<T>(cleared, found).newly_ready(cleared))
            == Some(open_ids(taken_in::<T>(cleared, found).stack)),
{
    let last = taken_in::<T>(cleared, found);
    let id = found.tag.id;
    let entry: Emission = if found.tag == crate::reader_state::start_of(id) && !T::spec_makes(
        crate::reader_state::end_of(id),
    ) {
        Err(crate::reader_state::invalid_id(id, found.tag_start))
    } else {
        Ok((found.tag, found.tag_start))
    };
    assert(last.queue == cleared.queue.push(entry));
    assert(last.queue.subrange(0, cleared.queue.len() as int) =~= cleared.queue);
    assert(last.newly_ready(cleared) =~= Seq::<Emission>::empty().push(entry));
    lemma_nesting_push(open_ids(cleared.stack), Seq::<Emission>::empty(), entry);
    if found.tag == crate::reader_state::start_of(id) && T::spec_makes(
        crate::reader_state::end_of(id),
    ) {
        let opened = OpenTag {
            tag: crate::reader_state::end_of(id),
            size: found.size,
            tag_start: found.tag_start,
            data_start: found.data_start,
        };
        lemma_open_ids_push(cleared.stack, opened);
        assert forall|i: int| 0 <= i < last.stack.len() implies closes_with_end(
            #[trigger] last.stack[i],
        ) by {
            if i < cleared.stack.len() {
                assert(last.stack[i] == cleared.stack[i]);
            }
        }
    } else {
        assert(last.stack == cleared.stack);
    }
}

/// A look at a header keeps the open tags that were read, and every open
/// tag that was read still closes with an end.
pub proof fn lemma_read_one_paired<T: EbmlSpecification>(s: ReaderState)
    requires
        s.wf(),
        s.closes_with_ends(),
    ensures
        s.read_one::<T>().0.closes_with_ends(),
        open_ids(s.read_one::<T>().0.stack) == open_ids(s.stack),
{
    lemma_read_one_placed::<T>(s);
    let read = s.read_one::<T>().0;
    lemma_planted_ids(read.stack, s.stack);
    let shift = read.stack.len() - s.stack.len();
    assert forall|i: int| 0 <= i < read.stack.len() implies closes_with_end(
        #[trigger] read.stack[i],
    ) by {
        if i >= shift {
            assert(read.stack[i] == read.stack.subrange(shift, read.stack.len() as int)[i - shift]);
            assert(closes_with_end(s.stack[i - shift]));
        }
    }
}

/// Every end that is made ready closes the master tag that was opened last
/// and is still open, and has its id; every start that is made ready opens a
/// tag: what is newly ready after the next tag was read leads from the tags
/// that were open to the tags that are open. At the end of the document no
/// tag stays open. This is said of the reading of a tag that is not the
/// start of a master tag that is given out whole.
pub proof fn lemma_plain_step_is_paired<T: EbmlSpecification>(s: ReaderState)
    requires
        s.paired::<T>(),
        !s.opens_whole::<T>(),
    ensures
        s.advanced::<T>().wf(),
        s.advanced::<T>().buffered_ids == s.buffered_ids,
        s.advanced::<T>().closes_with_ends(),
        s.is_settled() ==> s.advanced::<T>().is_settled(),
        s.advanced::<T>().follows(s),
        nesting_after(open_ids(s.stack), s.advanced::<T>().newly_ready(s)) == Some(
            open_ids(s.advanced::<T>().stack),
        ),
        s.offset >= s.data.len() ==> s.advanced::<T>().stack.len() == 0,
{
    lemma_closed_known_keeps(s);
    lemma_closed_known_nesting(s);
    let settled = s.closed_known();
    let closings = settled.newly_ready(s);
    if settled.offset >= settled.data.len() {
        lemma_unwound_all_keeps(settled);
        lemma_unwound_all_nesting(settled);
        let last = settled.unwound_all();
        lemma_newly_ready_chain(s, settled, last);
        lemma_nesting_concat(open_ids(s.stack), closings, last.newly_ready(settled));
    } else {
        lemma_read_one_placed::<T>(settled);
        lemma_read_one_paired::<T>(settled);
        lemma_read_one_moves::<T>(settled);
        let (read, outcome) = settled.read_one::<T>();
        assert(read.newly_ready(settled) =~= Seq::<Emission>::empty());
        match outcome {
            Err(fault) => {
                let last = read.enqueue(Err(fault));
                assert(last.queue.subrange(0, read.queue.len() as int) =~= read.queue);
                assert(last.follows(read));
                lemma_newly_ready_chain(settled, read, last);
                lemma_newly_ready_chain(s, settled, last);
                assert(last.newly_ready(read) =~= Seq::<Emission>::empty().push(
                    Err::<(crate::specs::TagModel, usize), crate::error::ReadFault>(fault),
                ));
                lemma_nesting_push(
                    open_ids(settled.stack),
                    Seq::<Emission>::empty(),
                    Err::<(crate::specs::TagModel, usize), crate::error::ReadFault>(fault),
                );
                lemma_nesting_concat(open_ids(s.stack), closings, last.newly_ready(settled));
            },
            Ok(found) => {
                let id = found.tag.id;
                lemma_closed_unknown_keeps::<T>(read, id);
                lemma_closed_unknown_nesting::<T>(read, id);
                let cleared = read.closed_unknown::<T>(id);
                lemma_taken_in_nesting::<T>(cleared, found);
                let last = taken_in::<T>(cleared, found);
                assert(s.advanced::<T>() == last);
                lemma_newly_ready_chain(read, cleared, last);
                lemma_nesting_concat(
                    open_ids(read.stack),
                    cleared.newly_ready(read),
                    last.newly_ready(cleared),
                );
                lemma_newly_ready_chain(settled, read, last);
                lemma_newly_ready_chain(s, settled, last);
                lemma_nesting_concat(open_ids(s.stack), closings, last.newly_ready(settled));
            },
        }
    }
}

/// An iterator that holds no open tag and has nothing ready keeps every
/// place, is contained, and closes every open tag with an end: so does every
/// new iterator.
pub proof fn lemma_fresh_is_sound(s: ReaderState)
    requires
        s.stack.len() == 0,
        s.queue.len() == 0,
    ensures
        s.places_hold(),
        s.contained(),
        s.closes_with_ends(),
{
}

} // verus!
