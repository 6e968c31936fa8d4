//! Asking for tags one by one: what a tag iterator gives out when it is
//! asked for the next tag again and again, told from what reading on makes
//! ready.
use vstd::prelude::*;
use crate::buffered_laws::lemma_advanced_advances;
use crate::buffered_laws::lemma_advanced_shifted;
use crate::buffered_laws::lemma_first_ended_none;
use crate::buffered_laws::shifted;
use crate::document_laws::ran;
use crate::reader_state::first_ended;
use crate::reader_state::holds_read;
use crate::reader_state::is_assumed;
use crate::reader_state::unwound;
use crate::reader_state::Emission;
use crate::reader_state::OpenTag;
use crate::reader_state::ReaderState;
use crate::specs::EbmlSpecification;

verus! {

/// What the iterator gives out when it is asked for the next tag `times`
/// times, in the order in which it is given out, up to the first time at
/// which it gives nothing.
pub open spec fn asked<T: EbmlSpecification>(s: ReaderState, times: nat) -> Seq<Emission>
    decreases times,
{
    if times == 0 {
        Seq::empty()
    } else {
        match s.stepped::<T>().1 {
            Some(e) => seq![e] + asked::<T>(s.stepped::<T>().0, (times - 1) as nat),
            None => Seq::empty(),
        }
    }
}

/// Whether the iterator is at the end of the document, with no tag open
/// that was read.
pub open spec fn is_done(s: ReaderState) -> bool {
    s.offset >= s.data.len() && !holds_read(s.stack)
}

/// At the end of the document, with no tag open that was read, reading on
/// makes nothing ready.
pub proof fn lemma_done_stays<T: EbmlSpecification>(s: ReaderState)
    requires
        s.wf(),
        is_done(s),
    ensures
        s.advanced::<T>().queue == s.queue,
        s.advanced::<T>().wf(),
        is_done(s.advanced::<T>()),
{
    crate::reader_laws::lemma_closed_known_keeps(s);
    let settled = s.closed_known();
    assert(!holds_read(settled.stack)) by {
        if holds_read(settled.stack) {
            let i = choose|i: int|
                0 <= i < settled.stack.len() && !is_assumed(#[trigger] settled.stack[i]);
            assert(settled.stack[i] == s.stack[i]);
        }
    }
    lemma_unwound_none(s.stack, settled.stack.len());
    lemma_unwound_none(settled.stack, 0);
    match first_ended(s.stack, s.offset, 0) {
        None => {},
        Some(keep) => {
            assert(settled.queue =~= s.queue);
        },
    }
    assert(settled.queue + Seq::<Emission>::empty() =~= settled.queue);
}

/// Closing open tags of which none was read makes nothing ready.
pub proof fn lemma_unwound_none(stack: Seq<OpenTag>, keep: nat)
    requires
        !holds_read(stack),
    ensures
        unwound(stack, keep) == Seq::<Emission>::empty(),
    decreases stack.len(),
{
    if stack.len() > keep {
        assert(is_assumed(stack[stack.len() - 1]));
        let rest = stack.drop_last();
        assert(!holds_read(rest)) by {
            if holds_read(rest) {
                let i = choose|i: int| 0 <= i < rest.len() && !is_assumed(#[trigger] rest[i]);
                assert(rest[i] == stack[i]);
            }
        }
        lemma_unwound_none(rest, keep);
        assert(unwound(stack, keep) =~= Seq::<Emission>::empty());
    }
}

/// At the end of the document, with no tag open that was read, reading on
/// again and again makes nothing ready.
pub proof fn lemma_done_ran<T: EbmlSpecification>(s: ReaderState, times: nat)
    requires
        s.wf(),
        is_done(s),
    ensures
        ran::<T>(s, times).queue == s.queue,
    decreases times,
{
    if times > 0 {
        lemma_done_stays::<T>(s);
        lemma_done_ran::<T>(s.advanced::<T>(), (times - 1) as nat);
    }
}

/// Reading on several times does not depend on what is ready, nor on the
/// place of the last tag that was given out.
pub proof fn lemma_ran_shifted<T: EbmlSpecification>(
    s: ReaderState,
    front: Seq<Emission>,
    place: usize,
    times: nat,
)
    requires
        s.wf(),
    ensures
        ran::<T>(shifted(s, front, place), times) == shifted(ran::<T>(s, times), front, place),
        ran::<T>(s, times).wf(),
    decreases times,
{
    if times > 0 {
        lemma_advanced_shifted::<T>(s, front, place);
        lemma_advanced_advances::<T>(s);
        lemma_ran_shifted::<T>(s.advanced::<T>(), front, place, (times - 1) as nat);
    }
}

/// Reading on keeps what is ready.
pub proof fn lemma_ran_keeps<T: EbmlSpecification>(s: ReaderState, times: nat)
    requires
        s.wf(),
    ensures
        ran::<T>(s, times).queue.len() >= s.queue.len(),
    decreases times,
{
    if times > 0 {
        lemma_advanced_advances::<T>(s);
        lemma_ran_keeps::<T>(s.advanced::<T>(), (times - 1) as nat);
    }
}

/// An iterator gives out, one by one and in its order, what reading on
/// makes ready: where reading on `times` times leaves `asks` tags and faults
/// ready, asking as many times gives out just these. Where the iterator is
/// then at the end of the document, with no tag open, asking more often
/// gives no more.
pub proof fn lemma_asked_is_ran<T: EbmlSpecification>(s: ReaderState, times: nat, asks: nat)
    requires
        s.wf(),
        asks == ran::<T>(s, times).queue.len() || (asks >= ran::<T>(s, times).queue.len()
            && is_done(ran::<T>(s, times))),
    ensures
        asked::<T>(s, asks) == ran::<T>(s, times).queue,
    decreases times, s.queue.len(),
{
    let all = ran::<T>(s, times).queue;
    if s.queue.len() > 0 {
        let first = s.queue[0];
        let (next, out) = s.stepped::<T>();
        assert(out == Some(first));
        let place = s.last_emitted_tag_offset;
        assert(seq![first] + next.queue =~= s.queue);
        let bare = ReaderState { last_emitted_tag_offset: place, ..next };
        assert(s == shifted(bare, seq![first], place));
        assert(next == shifted(bare, Seq::empty(), next.last_emitted_tag_offset)) by {
            assert(Seq::<Emission>::empty() + bare.queue =~= bare.queue);
        }
        lemma_ran_shifted::<T>(bare, seq![first], place, times);
        lemma_ran_shifted::<T>(bare, Seq::empty(), next.last_emitted_tag_offset, times);
        let later = ran::<T>(next, times).queue;
        assert(later =~= ran::<T>(bare, times).queue);
        assert(all =~= seq![first] + later);
        lemma_asked_is_ran::<T>(next, times, (asks - 1) as nat);
    } else if times == 0 {
        assert(all =~= Seq::<Emission>::empty());
        if asks > 0 {
            lemma_done_stays::<T>(s);
        }
    } else {
        let read = s.advanced::<T>();
        lemma_advanced_advances::<T>(s);
        if read.queue.len() == 0 {
            lemma_done_ran::<T>(s, times);
        } else {
            lemma_ran_keeps::<T>(read, (times - 1) as nat);
            assert(s.stepped::<T>() == read.stepped::<T>());
            lemma_asked_is_ran::<T>(read, (times - 1) as nat, asks);
        }
    }
}

/// Where the iterator gives nothing, the document has ended and no tag
/// that was read is open: every start that was given out has had its end.
/// Then no tag is open at all, and the iterator gives nothing again,
/// however often it is asked.
pub proof fn lemma_nothing_is_left<T: EbmlSpecification>(s: ReaderState)
    requires
        s.wf(),
        s.stepped::<T>().1 is None,
    ensures
        s.offset >= s.data.len(),
        !holds_read(s.stack),
        s.stepped::<T>().0.wf(),
        s.stepped::<T>().0.stack.len() == 0,
        s.stepped::<T>().0.queue.len() == 0,
        s.stepped::<T>().0.stepped::<T>() == (s.stepped::<T>().0, None::<Emission>),
{
    lemma_advanced_advances::<T>(s);
    crate::reader_laws::lemma_closed_known_keeps(s);
    crate::reader_laws::lemma_unwound_all_keeps(s.closed_known());
    let last = s.stepped::<T>().0;
    assert(last == s.advanced::<T>());
    assert(last.stack =~= Seq::<OpenTag>::empty());
    assert(!holds_read(last.stack));
    lemma_first_ended_none(last.stack, last.offset, 0);
    assert(unwound(last.stack, 0) =~= Seq::<Emission>::empty());
    assert(last.queue + Seq::<Emission>::empty() =~= last.queue);
    assert(last.advanced::<T>() == last);
}

} // verus!
