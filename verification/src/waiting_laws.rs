//! Reading a document that comes in parts: where the iterator need not wait
//! for more bytes, what it gives out does not depend on the bytes that come
//! later.
use vstd::prelude::*;
use crate::reader_state::lemma_peeked_keeps_place;
use crate::reader_state::spec_peek_tag_id;
use crate::reader_state::ReaderState;
use crate::spec_util::spec_is_ended_by;
use crate::specs::EbmlSpecification;
use crate::specs::TagDataType;
use crate::tag_iterator_util::EBMLSize;
use crate::tools::decode_unsigned;

verus! {

/// The state of the iterator `s` after the bytes `more` were added to the
/// document.
pub open spec fn with_more(s: ReaderState, more: Seq<u8>) -> ReaderState {
    ReaderState { data: s.data + more, ..s }
}

/// An id that is whole is read the same, whatever follows it.
pub proof fn lemma_peek_id_with_more(bytes: Seq<u8>, more: Seq<u8>)
    requires
        spec_peek_tag_id(bytes) is Some,
    ensures
        spec_peek_tag_id(bytes + more) == spec_peek_tag_id(bytes),
{
    assert((bytes + more)[0] == bytes[0]);
    if bytes[0] != 0 {
        let width = crate::tools::vint_width(bytes[0]);
        assert((bytes + more).subrange(0, width as int) =~= bytes.subrange(0, width as int));
    }
}

/// A vint that is whole is read the same, whatever follows it.
pub proof fn lemma_decode_with_more(bytes: Seq<u8>, more: Seq<u8>)
    requires
        decode_unsigned(bytes) != Ok::<Option<(u64, usize)>, crate::error::ToolError>(None),
    ensures
        decode_unsigned(bytes + more) == decode_unsigned(bytes),
{
    assert((bytes + more)[0] == bytes[0]);
    if bytes[0] != 0 {
        let width = crate::tools::vint_width(bytes[0]);
        assert((bytes + more).subrange(0, width as int) =~= bytes.subrange(0, width as int));
    }
}

/// Whether the header at the place is whole.
pub open spec fn holds_header(s: ReaderState) -> bool {
    spec_peek_tag_id(s.rest()) matches Some((_, id_len)) && decode_unsigned(
        s.rest().subrange(id_len as int, s.rest().len() as int),
    ) != Ok::<Option<(u64, usize)>, crate::error::ToolError>(None)
}

/// A look at a header that is whole does not depend on what follows it.
pub proof fn lemma_peeked_with_more<T: EbmlSpecification>(s: ReaderState, more: Seq<u8>)
    requires
        s.wf(),
        s.data.len() + more.len() <= usize::MAX,
        holds_header(s),
    ensures
        with_more(s, more).peeked::<T>() == (with_more(s.peeked::<T>().0, more), s.peeked::<T>().1),
{
    let t = with_more(s, more);
    let bytes = s.rest();
    assert(t.rest() =~= bytes + more);
    lemma_peek_id_with_more(bytes, more);
    let seen = spec_peek_tag_id(bytes)->0;
    let id = seen.0;
    let id_len = seen.1;
    let after = bytes.subrange(id_len as int, bytes.len() as int);
    lemma_decode_with_more(after, more);
    assert((bytes + more).subrange(id_len as int, (bytes + more).len() as int) =~= after + more);
    assert forall|total: int| t.exceeds_a_parent(total) == s.exceeds_a_parent(total) by {}
    if !s.allow_hierarchy_problems && T::spec_tag_data_type(id) is Some {
        let placed = s.placed::<T>(id).0;
        assert(t.placed::<T>(id) == (with_more(placed, more), s.placed::<T>(id).1));
        assert(with_more(placed, more).stack_path() == placed.stack_path());
        assert(with_more(placed, more).innermost_id() == placed.innermost_id());
        assert forall|total: int|
            with_more(placed, more).exceeds_a_parent(total) == placed.exceeds_a_parent(total) by {}
        assert forall|header: crate::reader_state::TagHeader|
            with_more(placed, more).sized(header) == placed.sized(header) by {}
    }
    assert forall|header: crate::reader_state::TagHeader| t.sized(header) == s.sized(header) by {}
}

/// A tag that the bytes hold whole is read the same, whatever follows it.
pub proof fn lemma_read_one_with_more<T: EbmlSpecification>(s: ReaderState, more: Seq<u8>)
    requires
        s.wf(),
        s.data.len() + more.len() <= usize::MAX,
        s.holds_next::<T>(),
    ensures
        with_more(s, more).read_one::<T>() == (
            with_more(s.read_one::<T>().0, more),
            s.read_one::<T>().1,
        ),
{
    lemma_peeked_with_more::<T>(s, more);
    lemma_peeked_keeps_place::<T>(s);
    let (looked, header) = s.peeked::<T>();
    match header {
        Ok(h) => {
            if h.data_type != Some(TagDataType::Master) {
                match h.size {
                    EBMLSize::Known(size) => {
                        let data_start = (s.offset + h.header_len) as usize;
                        assert(s.rest().len() == s.data.len() - s.offset);
                        assert(data_start + size <= s.data.len());
                        assert((s.data + more).subrange(data_start as int, data_start + size)
                            =~= s.data.subrange(data_start as int, data_start + size));
                    },
                    EBMLSize::Unknown => {},
                }
            }
        },
        Err(_) => {},
    }
}

/// Closing the open tags does not depend on the bytes.
pub proof fn lemma_closed_unknown_with_more<T: EbmlSpecification>(
    s: ReaderState,
    more: Seq<u8>,
    id: u64,
)
    ensures
        with_more(s, more).closed_unknown::<T>(id) == with_more(s.closed_unknown::<T>(id), more),
    decreases s.stack.len(),
{
    if s.stack.len() > 0 && s.stack.last().size is Unknown && spec_is_ended_by::<T>(
        s.stack.last().tag.id,
        id,
    ) {
        lemma_closed_unknown_with_more::<T>(s.closed_one(), more, id);
        assert(with_more(s, more).closed_one() == with_more(s.closed_one(), more));
    }
}

/// Where the bytes hold all that the next tag is read from, reading on does
/// not depend on the bytes that come later.
pub proof fn lemma_advanced_with_more<T: EbmlSpecification>(s: ReaderState, more: Seq<u8>)
    requires
        s.wf(),
        s.data.len() + more.len() <= usize::MAX,
        s.holds_next::<T>(),
    ensures
        with_more(s, more).advanced::<T>() == with_more(s.advanced::<T>(), more),
{
    let t = with_more(s, more);
    let settled = s.closed_known();
    crate::reader_laws::lemma_closed_known_keeps(s);
    assert(t.closed_known() == with_more(settled, more));
    assert(settled.rest() == s.rest());
    assert(settled.holds_next::<T>());
    assert(s.rest().len() == s.data.len() - s.offset);
    lemma_read_one_with_more::<T>(settled, more);
    crate::reader_state::lemma_read_one_moves::<T>(settled);
    let (read, outcome) = settled.read_one::<T>();
    match outcome {
        Ok(found) => {
            lemma_closed_unknown_with_more::<T>(read, more, found.tag.id);
            crate::reader_state::lemma_closed_unknown_keeps_place::<T>(read, found.tag.id);
            lemma_peeked_keeps_place::<T>(settled);
        },
        Err(_) => {},
    }
}

/// Where the iterator need not wait for more bytes, what it gives out does
/// not depend on the bytes that come later: asked for the next tag, it
/// gives the same and is left in the same state, whether or not more bytes
/// were added to the document before.
pub proof fn lemma_stepped_with_more<T: EbmlSpecification>(s: ReaderState, more: Seq<u8>)
    requires
        s.wf(),
        s.data.len() + more.len() <= usize::MAX,
        !s.awaits::<T>(),
    ensures
        with_more(s, more).stepped::<T>() == (
            with_more(s.stepped::<T>().0, more),
            s.stepped::<T>().1,
        ),
{
    if s.queue.len() == 0 {
        lemma_advanced_with_more::<T>(s, more);
    }
}

} // verus!
