//! Starts and ends come in pairs: what a tag iterator makes ready leads from
//! the master tags that were open to the master tags that are open,
//! whichever master tags it gives out whole.
use vstd::prelude::*;
use crate::asked_laws::asked;
use crate::buffered_laws::lemma_advanced_advances;
use crate::buffered_laws::lemma_buffered_follows;
use crate::document_laws::ran;
use crate::reader_laws::lemma_closed_known_keeps;
use crate::reader_laws::lemma_closed_known_nesting;
use crate::reader_laws::lemma_closed_unknown_keeps;
use crate::reader_laws::lemma_closed_unknown_nesting;
use crate::reader_laws::lemma_nesting_concat;
use crate::reader_laws::lemma_newly_ready_chain;
use crate::reader_laws::lemma_plain_step_is_paired;
use crate::reader_laws::lemma_read_one_placed;
use crate::reader_laws::lemma_unwound_all_keeps;
use crate::reader_laws::nesting_after;
use crate::reader_laws::nesting_step;
use crate::reader_laws::closes_with_end;
use crate::reader_laws::lemma_open_ids_push;
use crate::reader_laws::lemma_read_one_paired;
use crate::reader_laws::open_ids;
use crate::reader_state::is_assumed;
use crate::reader_state::closing;
use crate::reader_state::end_of;
use crate::reader_state::first_ended;
use crate::reader_state::first_stop;
use crate::reader_state::is_stop;
use crate::reader_state::lemma_read_one_moves;
use crate::reader_state::start_of;
use crate::reader_state::unwound;
use crate::reader_state::Emission;
use crate::reader_state::OpenTag;
use crate::reader_state::ReaderState;
use crate::spec_util::spec_is_ended_by;
use crate::specs::DataModel;
use crate::specs::EbmlSpecification;
use crate::specs::MasterModel;
use crate::whole_laws::holds_no_stop;

verus! {

/// Whether none of `events` is a fault.
pub open spec fn is_faultless(events: Seq<Emission>) -> bool {
    forall|k: int| 0 <= k < events.len() ==> (#[trigger] events[k]) is Ok
}

/// Whether `e` is the start of a master tag with an id of `whole`.
pub open spec fn is_start_of_whole(e: Emission, whole: Set<u64>) -> bool {
    e matches Ok((tag, _)) && tag.data == DataModel::Master(MasterModel::Start) && whole.contains(
        tag.id,
    )
}

/// Whether none of `events` is the start of a master tag with an id of
/// `whole`.
pub open spec fn opens_none_of(events: Seq<Emission>, whole: Set<u64>) -> bool {
    forall|k: int| 0 <= k < events.len() ==> !is_start_of_whole(#[trigger] events[k], whole)
}

/// Whether `e` is the end of a master tag.
pub open spec fn is_end(e: Emission) -> bool {
    e matches Ok((tag, _)) && tag.data == DataModel::Master(MasterModel::End)
}

/// Whether all of `events` are ends of master tags.
pub open spec fn are_ends(events: Seq<Emission>) -> bool {
    forall|k: int| 0 <= k < events.len() ==> is_end(#[trigger] events[k])
}

/// Whether the master tag `id` is open in `open` just above the tags of
/// `outer`, and no tag with this id is open within it.
pub open spec fn stands_above(open: Seq<u64>, outer: Seq<u64>, id: u64) -> bool {
    &&& open.len() > outer.len()
    &&& open.subrange(0, outer.len() as int) == outer
    &&& open[outer.len() as int] == id
    &&& forall|j: int| outer.len() < j < open.len() ==> open[j] != id
}

/// Ends are no faults and no starts.
pub proof fn lemma_ends_open_none(events: Seq<Emission>, whole: Set<u64>)
    requires
        are_ends(events),
    ensures
        is_faultless(events),
        opens_none_of(events, whole),
{
    assert forall|k: int| 0 <= k < events.len() implies (#[trigger] events[k]) is Ok by {
        assert(is_end(events[k]));
    }
    assert forall|k: int| 0 <= k < events.len() implies !is_start_of_whole(
        #[trigger] events[k],
        whole,
    ) by {
        assert(is_end(events[k]));
    }
}

/// Two runs of which none opens a master tag that is given out whole make
/// one such run.
pub proof fn lemma_opens_none_concat(a: Seq<Emission>, b: Seq<Emission>, whole: Set<u64>)
    requires
        opens_none_of(a, whole),
        opens_none_of(b, whole),
    ensures
        opens_none_of(a + b, whole),
{
    assert forall|k: int| 0 <= k < (a + b).len() implies !is_start_of_whole(
        #[trigger] (a + b)[k],
        whole,
    ) by {
        if k < a.len() {
            assert((a + b)[k] == a[k]);
        } else {
            assert((a + b)[k] == b[k - a.len()]);
        }
    }
}

/// The parts of a run without a fault are without a fault.
pub proof fn lemma_faultless_parts(a: Seq<Emission>, b: Seq<Emission>)
    ensures
        is_faultless(a + b) == (is_faultless(a) && is_faultless(b)),
{
    if is_faultless(a + b) {
        assert forall|k: int| 0 <= k < a.len() implies (#[trigger] a[k]) is Ok by {
            assert((a + b)[k] == a[k]);
        }
        assert forall|k: int| 0 <= k < b.len() implies (#[trigger] b[k]) is Ok by {
            assert((a + b)[a.len() + k] == b[k]);
        }
    }
    if is_faultless(a) && is_faultless(b) {
        assert forall|k: int| 0 <= k < (a + b).len() implies (#[trigger] (a + b)[k]) is Ok by {
            if k < a.len() {
                assert((a + b)[k] == a[k]);
            } else {
                assert((a + b)[k] == b[k - a.len()]);
            }
        }
    }
}

/// The closing tags of open tags that close with ends are ends.
pub proof fn lemma_unwound_are_ends(stack: Seq<OpenTag>, keep: nat)
    requires
        forall|i: int| 0 <= i < stack.len() ==> closes_with_end(#[trigger] stack[i]),
    ensures
        are_ends(unwound(stack, keep)),
    decreases stack.len(),
{
    if stack.len() > keep {
        let rest = stack.drop_last();
        assert forall|i: int| 0 <= i < rest.len() implies closes_with_end(#[trigger] rest[i]) by {
            assert(rest[i] == stack[i]);
        }
        lemma_unwound_are_ends(rest, keep);
        assert(closes_with_end(stack[stack.len() - 1]));
        let all = unwound(stack, keep);
        assert forall|k: int| 0 <= k < all.len() implies is_end(#[trigger] all[k]) by {
            if is_assumed(stack.last()) {
                assert(all[k] == unwound(rest, keep)[k]);
            } else if k == 0 {
                assert(all[0] == closing(stack.last()));
            } else {
                assert(all[k] == unwound(rest, keep)[k - 1]);
            }
        }
    }
}

/// What closing the open tags whose bodies have ended makes ready are ends.
pub proof fn lemma_closed_known_are_ends(s: ReaderState)
    requires
        s.wf(),
        s.closes_with_ends(),
    ensures
        are_ends(s.closed_known().newly_ready(s)),
{
    match first_ended(s.stack, s.offset, 0) {
        None => {},
        Some(keep) => {
            lemma_unwound_are_ends(s.stack, keep);
            assert(s.closed_known().newly_ready(s) =~= unwound(s.stack, keep));
        },
    }
}

/// What closing open tags of unknown size makes ready are ends.
pub proof fn lemma_closed_unknown_are_ends<T: EbmlSpecification>(s: ReaderState, id: u64)
    requires
        s.wf(),
        s.closes_with_ends(),
    ensures
        are_ends(s.closed_unknown::<T>(id).newly_ready(s)),
    decreases s.stack.len(),
{
    lemma_closed_unknown_keeps::<T>(s, id);
    if s.stack.len() > 0 && s.stack.last().size is Unknown && spec_is_ended_by::<T>(
        s.stack.last().tag.id,
        id,
    ) {
        let first = crate::reader_state::closings(s.stack.last());
        let next = s.closed_one();
        assert forall|i: int| 0 <= i < next.stack.len() implies closes_with_end(
            #[trigger] next.stack[i],
        ) by {
            assert(next.stack[i] == s.stack[i]);
        }
        lemma_closed_unknown_are_ends::<T>(next, id);
        lemma_closed_unknown_keeps::<T>(next, id);
        let last = s.closed_unknown::<T>(id);
        assert(next.queue.subrange(0, s.queue.len() as int) =~= s.queue);
        assert(next.follows(s));
        lemma_newly_ready_chain(s, next, last);
        assert(next.newly_ready(s) =~= first);
        assert(closes_with_end(s.stack[s.stack.len() - 1]));
        let all = last.newly_ready(s);
        assert forall|k: int| 0 <= k < all.len() implies is_end(#[trigger] all[k]) by {
            if k >= first.len() {
                assert(all[k] == last.newly_ready(next)[k - first.len()]);
            }
        }
    }
}

/// While neither a start nor an end of the master tag `id` is given out,
/// the tag stays open where it was opened, and no tag with its id is opened
/// within it.
pub proof fn lemma_nesting_within(outer: Seq<u64>, id: u64, events: Seq<Emission>)
    requires
        forall|k: int|
            0 <= k < events.len() ==> (#[trigger] events[k] matches Ok((tag, _)) && tag != end_of(id)
                && tag != start_of(id)),
        nesting_after(outer.push(id), events) is Some,
    ensures
        stands_above(nesting_after(outer.push(id), events)->0, outer, id),
    decreases events.len(),
{
    if events.len() == 0 {
        assert(outer.push(id).subrange(0, outer.len() as int) =~= outer);
    } else {
        let front = events.drop_last();
        assert forall|k: int| 0 <= k < front.len() implies (#[trigger] front[k] matches Ok(
            (tag, _),
        ) && tag != end_of(id) && tag != start_of(id)) by {
            assert(front[k] == events[k]);
        }
        lemma_nesting_within(outer, id, front);
        let inner = nesting_after(outer.push(id), front)->0;
        let last = events.last();
        assert(events[events.len() - 1] == last);
        let after = nesting_step(inner, last)->0;
        let tag = last->Ok_0.0;
        if tag.data == DataModel::Master(MasterModel::Start) {
            assert(tag.id != id) by {
                if tag.id == id {
                    assert(tag == start_of(id));
                }
            }
            assert(after.subrange(0, outer.len() as int) =~= inner.subrange(0, outer.len() as int));
        } else if tag.data == DataModel::Master(MasterModel::End) {
            assert(tag.id != id) by {
                if tag.id == id {
                    assert(tag == end_of(id));
                }
            }
            assert(inner.last() == tag.id);
            assert(inner.len() - 1 != outer.len());
            assert(after.subrange(0, outer.len() as int) =~= inner.subrange(0, outer.len() as int));
        }
    }
}

/// What is given out for the reading of a tag that is not the start of a
/// master tag that is given out whole holds no such start.
pub proof fn lemma_plain_step_opens_none<T: EbmlSpecification>(s: ReaderState)
    requires
        s.paired::<T>(),
        !s.opens_whole::<T>(),
    ensures
        opens_none_of(s.advanced::<T>().newly_ready(s), s.buffered_ids),
{
    let whole = s.buffered_ids;
    lemma_closed_known_keeps(s);
    lemma_closed_known_are_ends(s);
    lemma_closed_known_nesting(s);
    let settled = s.closed_known();
    let closings = settled.newly_ready(s);
    lemma_ends_open_none(closings, whole);
    if settled.offset >= settled.data.len() {
        lemma_unwound_all_keeps(settled);
        let last = settled.unwound_all();
        lemma_unwound_are_ends(settled.stack, 0);
        assert(last.newly_ready(settled) =~= unwound(settled.stack, 0));
        lemma_ends_open_none(last.newly_ready(settled), whole);
        lemma_newly_ready_chain(s, settled, last);
        lemma_opens_none_concat(closings, last.newly_ready(settled), whole);
    } else {
        lemma_read_one_placed::<T>(settled);
        lemma_read_one_moves::<T>(settled);
        let (read, outcome) = settled.read_one::<T>();
        assert(read.newly_ready(settled) =~= Seq::<Emission>::empty());
        let last = s.advanced::<T>();
        match outcome {
            Err(fault) => {
                assert(last.queue.subrange(0, read.queue.len() as int) =~= read.queue);
                assert(last.follows(read));
                lemma_newly_ready_chain(settled, read, last);
                lemma_newly_ready_chain(s, settled, last);
                assert(last.newly_ready(read) =~= seq![
                    Err::<(crate::specs::TagModel, usize), crate::error::ReadFault>(fault),
                ]);
                lemma_opens_none_concat(closings, last.newly_ready(settled), whole);
            },
            Ok(found) => {
                let id = found.tag.id;
                lemma_closed_unknown_keeps::<T>(read, id);
                lemma_closed_unknown_are_ends::<T>(read, id);
                let cleared = read.closed_unknown::<T>(id);
                lemma_ends_open_none(cleared.newly_ready(read), whole);
                assert(last.queue.len() == cleared.queue.len() + 1);
                assert(last.queue.subrange(0, cleared.queue.len() as int) =~= cleared.queue);
                assert(last.follows(cleared));
                let added = last.newly_ready(cleared);
                assert(added.len() == 1);
                assert(!is_start_of_whole(added[0], whole)) by {
                    assert(added[0] == last.queue[cleared.queue.len() as int]);
                    if found.tag.data == DataModel::Master(MasterModel::Start) {
                        assert(found.tag == start_of(id));
                    }
                }
                lemma_newly_ready_chain(read, cleared, last);
                lemma_opens_none_concat(cleared.newly_ready(read), added, whole);
                lemma_newly_ready_chain(settled, read, last);
                lemma_newly_ready_chain(s, settled, last);
                lemma_opens_none_concat(closings, last.newly_ready(settled), whole);
            },
        }
    }
}

/// Where the search finds nothing that stops it, nothing that is ready from
/// the place on stops it.
pub proof fn lemma_no_first_stop(queue: Seq<Emission>, id: u64, from: nat)
    requires
        first_stop(queue, id, from) is None,
    ensures
        forall|k: int| from <= k < queue.len() ==> !is_stop(#[trigger] queue[k], id),
    decreases queue.len() - from,
{
    if from < queue.len() {
        lemma_no_first_stop(queue, id, from + 1);
    }
}

/// Where the search stops, a stop is ready, and none before it.
pub proof fn lemma_first_stop_is_first(queue: Seq<Emission>, id: u64, from: nat)
    requires
        first_stop(queue, id, from) is Some,
    ensures
        from <= first_stop(queue, id, from)->0 < queue.len(),
        is_stop(queue[first_stop(queue, id, from)->0 as int], id),
        forall|k: int|
            from <= k < first_stop(queue, id, from)->0 ==> !is_stop(#[trigger] queue[k], id),
    decreases queue.len() - from,
{
    if from < queue.len() && !is_stop(queue[from as int], id) {
        lemma_first_stop_is_first(queue, id, from + 1);
    }
}

/// The end of a master tag that is given out whole, found behind tags that
/// hold neither a start nor an end of such a tag, closes the tag where it
/// was opened: what was ready behind the end leads from the tags that were
/// open around the tag to the tags that are open.
pub proof fn lemma_whole_is_closed_by_end(
    outer: Seq<u64>,
    id: u64,
    inside: Seq<Emission>,
    after: Seq<Emission>,
    place: usize,
    open: Seq<u64>,
)
    requires
        holds_no_stop(inside, id),
        forall|k: int| 0 <= k < inside.len() ==> #[trigger] inside[k]->Ok_0.0 != start_of(id),
        nesting_after(outer.push(id), inside + seq![Ok((end_of(id), place))] + after) == Some(open),
    ensures
        nesting_after(outer, after) == Some(open),
{
    let end: Emission = Ok((end_of(id), place));
    lemma_nesting_concat(outer.push(id), inside + seq![end], after);
    lemma_nesting_concat(outer.push(id), inside, seq![end]);
    assert forall|k: int| 0 <= k < inside.len() implies (#[trigger] inside[k] matches Ok((tag, _))
        && tag != end_of(id) && tag != start_of(id)) by {
        assert(!is_stop(inside[k], id));
        assert(inside[k]->Ok_0.0 != start_of(id));
    }
    lemma_nesting_within(outer, id, inside);
    let inner = nesting_after(outer.push(id), inside)->0;
    assert(seq![end].drop_last() =~= Seq::<Emission>::empty());
    assert(nesting_after(inner, Seq::<Emission>::empty()) == Some(inner));
    assert(nesting_after(inner, seq![end]) == nesting_step(inner, end));
    assert(inner.last() == id);
    assert(inner.len() - 1 == outer.len());
    assert(inner.drop_last() =~= outer);
}

/// Reading a master tag that is given out whole to its end keeps the pairs:
/// where no fault is made ready, what is ready behind what was ready before
/// the tag leads from the tags that were open around the tag to the tags
/// that are open.
pub proof fn lemma_buffered_is_paired<T: EbmlSpecification>(
    x: ReaderState,
    id: u64,
    tag_start: usize,
    before: nat,
    outer: Seq<u64>,
)
    requires
        x.wf(),
        x.closes_with_ends(),
        x.buffered_ids.contains(id),
        before <= x.queue.len(),
        holds_no_stop(x.queue.subrange(before as int, x.queue.len() as int), id),
        opens_none_of(x.queue.subrange(before as int, x.queue.len() as int), x.buffered_ids),
        nesting_after(outer.push(id), x.queue.subrange(before as int, x.queue.len() as int))
            == Some(open_ids(x.stack)),
    ensures
        ({
            let r = x.buffered::<T>(id, tag_start, before, x.queue.len());
            let out = r.queue.subrange(before as int, r.queue.len() as int);
            &&& r.wf()
            &&& r.closes_with_ends()
            &&& r.buffered_ids == x.buffered_ids
            &&& before < r.queue.len()
            &&& opens_none_of(out, x.buffered_ids)
            &&& is_faultless(out) ==> nesting_after(outer, out) == Some(open_ids(r.stack))
        }),
    decreases x.remaining(), x.stack.len(), 4nat,
{
    let whole = x.buffered_ids;
    let from = x.queue.len();
    let next = x.advanced::<T>();
    lemma_advanced_is_paired::<T>(x);
    lemma_advanced_advances::<T>(x);
    lemma_buffered_follows::<T>(x, id, tag_start, before, from);
    let r = x.buffered::<T>(id, tag_start, before, from);
    let out = r.queue.subrange(before as int, r.queue.len() as int);
    let new = next.newly_ready(x);
    let seg = x.queue.subrange(before as int, from as int);
    let both = next.queue.subrange(before as int, next.queue.len() as int);
    assert(both =~= seg + new) by {
        assert forall|k: int| 0 <= k < seg.len() implies both[k] == seg[k] by {
            assert(next.queue.subrange(0, from as int)[before + k] == x.queue[before + k]);
        }
    }
    lemma_opens_none_concat(seg, new, whole);
    if from >= next.queue.len() {
        assert(out.last() is Err);
        assert(out =~= both.push(r.queue.last()));
        lemma_opens_none_concat(both, seq![r.queue.last()], whole);
        assert(both.push(r.queue.last()) =~= both + seq![r.queue.last()]);
    } else {
        match first_stop(next.queue, id, from) {
            Some(stop) => {
                lemma_first_stop_is_first(next.queue, id, from);
                lemma_whole_is_collected_paired::<T>(x, id, tag_start, before, outer, stop);
            },
            None => {
                lemma_no_first_stop(next.queue, id, from);
                assert(next.smaller_than(x)) by {
                    if next.offset == x.offset {
                        if next.queue.len() > x.queue.len() && next.queue.last() is Err {
                            assert(is_stop(next.queue[next.queue.len() - 1], id));
                        }
                    }
                }
                assert(holds_no_stop(new, id)) by {
                    assert forall|k: int| 0 <= k < new.len() implies !is_stop(
                        #[trigger] new[k],
                        id,
                    ) by {
                        assert(new[k] == next.queue[from + k]);
                    }
                }
                assert(holds_no_stop(both, id)) by {
                    assert forall|k: int| 0 <= k < both.len() implies !is_stop(
                        #[trigger] both[k],
                        id,
                    ) by {
                        if k < seg.len() {
                            assert(both[k] == seg[k]);
                        } else {
                            assert(both[k] == new[k - seg.len()]);
                        }
                    }
                }
                assert(is_faultless(new)) by {
                    assert forall|k: int| 0 <= k < new.len() implies (#[trigger] new[k]) is Ok by {
                        assert(!is_stop(new[k], id));
                    }
                }
                lemma_nesting_concat(outer.push(id), seg, new);
                lemma_buffered_is_paired::<T>(next, id, tag_start, before, outer);
            },
        }
    }
}

/// What the search for the end of a master tag that is given out whole
/// makes of the state in which it stopped keeps the pairs: see
/// [`lemma_buffered_is_paired`].
pub proof fn lemma_whole_is_collected_paired<T: EbmlSpecification>(
    x: ReaderState,
    id: u64,
    tag_start: usize,
    before: nat,
    outer: Seq<u64>,
    stop: nat,
)
    requires
        x.wf(),
        x.closes_with_ends(),
        x.buffered_ids.contains(id),
        before <= x.queue.len(),
        holds_no_stop(x.queue.subrange(before as int, x.queue.len() as int), id),
        opens_none_of(x.queue.subrange(before as int, x.queue.len() as int), x.buffered_ids),
        nesting_after(outer.push(id), x.queue.subrange(before as int, x.queue.len() as int))
            == Some(open_ids(x.stack)),
        x.queue.len() <= stop < x.advanced::<T>().queue.len(),
        is_stop(x.advanced::<T>().queue[stop as int], id),
        forall|k: int|
            x.queue.len() <= k < stop ==> !is_stop(#[trigger] x.advanced::<T>().queue[k], id),
    ensures
        ({
            let r = x.advanced::<T>().collected::<T>(id, tag_start, before, stop);
            let out = r.queue.subrange(before as int, r.queue.len() as int);
            &&& r.wf()
            &&& r.closes_with_ends()
            &&& r.buffered_ids == x.buffered_ids
            &&& before < r.queue.len()
            &&& opens_none_of(out, x.buffered_ids)
            &&& is_faultless(out) ==> nesting_after(outer, out) == Some(open_ids(r.stack))
        }),
    decreases x.remaining(), x.stack.len(), 3nat,
{
    let whole = x.buffered_ids;
    let from = x.queue.len();
    let next = x.advanced::<T>();
    lemma_advanced_is_paired::<T>(x);
    let r = next.collected::<T>(id, tag_start, before, stop);
    let out = r.queue.subrange(before as int, r.queue.len() as int);
    let new = next.newly_ready(x);
    let seg = x.queue.subrange(before as int, from as int);
    assert forall|k: int| 0 <= k < from implies next.queue[k] == x.queue[k] by {
        assert(next.queue.subrange(0, from as int)[k] == x.queue[k]);
    }
    match next.queue[stop as int] {
        Err(fault) => {
            assert(out =~= seq![Err::<(crate::specs::TagModel, usize), crate::error::ReadFault>(fault)]);
            assert(out[0] is Err);
        },
        Ok((tag, place)) => {
            let after = next.queue.subrange(stop as int + 1, next.queue.len() as int);
            let first = r.queue[before as int];
            assert(out =~= seq![first] + after);
            assert(!is_start_of_whole(first, whole));
            assert(opens_none_of(after, whole)) by {
                assert forall|k: int| 0 <= k < after.len() implies !is_start_of_whole(
                    #[trigger] after[k],
                    whole,
                ) by {
                    assert(after[k] == new[stop + 1 + k - from]);
                }
            }
            lemma_opens_none_concat(seq![first], after, whole);
            if is_faultless(out) {
                assert(out[0] is Ok);
                lemma_faultless_parts(seq![first], after);
                let pre = next.queue.subrange(from as int, stop as int);
                let end: Emission = Ok((end_of(id), place));
                assert(next.queue[stop as int] == end);
                assert(new =~= pre + seq![end] + after);
                assert(is_faultless(new)) by {
                    assert forall|k: int| 0 <= k < new.len() implies (#[trigger] new[k]) is Ok by {
                        if k < pre.len() {
                            assert(!is_stop(next.queue[from + k], id));
                        } else if k > pre.len() {
                            assert(new[k] == after[k - pre.len() - 1]);
                        }
                    }
                }
                let inside = seg + pre;
                lemma_nesting_concat(outer.push(id), seg, new);
                assert(seg + new =~= inside + seq![end] + after);
                assert(holds_no_stop(inside, id)) by {
                    assert forall|k: int| 0 <= k < inside.len() implies !is_stop(
                        #[trigger] inside[k],
                        id,
                    ) by {
                        if k < seg.len() {
                            assert(inside[k] == seg[k]);
                        } else {
                            assert(inside[k] == next.queue[from + (k - seg.len())]);
                        }
                    }
                }
                assert forall|k: int| 0 <= k < inside.len() implies #[trigger] inside[k]->Ok_0.0
                    != start_of(id) by {
                    if k < seg.len() {
                        assert(inside[k] == seg[k]);
                        assert(!is_start_of_whole(seg[k], whole));
                    } else {
                        assert(inside[k] == new[k - seg.len()]);
                        assert(!is_start_of_whole(new[k - seg.len()], whole));
                    }
                }
                lemma_whole_is_closed_by_end(outer, id, inside, after, place, open_ids(next.stack));
                lemma_nesting_concat(outer, seq![first], after);
                assert(seq![first].drop_last() =~= Seq::<Emission>::empty());
                assert(nesting_after(outer, Seq::<Emission>::empty()) == Some(outer));
                assert(nesting_after(outer, seq![first]) == Some(outer));
            }
        },
    }
}

/// Where the next tag that is read is the start of a master tag that is
/// given out whole, reading on keeps the pairs: see
/// [`lemma_advanced_is_paired`].
pub proof fn lemma_whole_step_is_paired<T: EbmlSpecification>(s: ReaderState)
    requires
        s.paired::<T>(),
        s.opens_whole::<T>(),
    ensures
        s.advanced::<T>().wf(),
        s.advanced::<T>().buffered_ids == s.buffered_ids,
        s.advanced::<T>().closes_with_ends(),
        s.advanced::<T>().follows(s),
        opens_none_of(s.advanced::<T>().newly_ready(s), s.buffered_ids),
        is_faultless(s.advanced::<T>().newly_ready(s)) ==> nesting_after(
            open_ids(s.stack),
            s.advanced::<T>().newly_ready(s),
        ) == Some(open_ids(s.advanced::<T>().stack)),
    decreases s.remaining(), s.stack.len(), 1nat,
{
    let whole = s.buffered_ids;
    lemma_closed_known_keeps(s);
    lemma_closed_known_nesting(s);
    lemma_closed_known_are_ends(s);
    let settled = s.closed_known();
    let closings = settled.newly_ready(s);
    lemma_ends_open_none(closings, whole);
    lemma_read_one_placed::<T>(settled);
    lemma_read_one_paired::<T>(settled);
    lemma_read_one_moves::<T>(settled);
    let (read, outcome) = settled.read_one::<T>();
    let found = outcome->Ok_0;
    let id = found.tag.id;
    assert(read.newly_ready(settled) =~= Seq::<Emission>::empty());
    lemma_closed_unknown_keeps::<T>(read, id);
    lemma_closed_unknown_nesting::<T>(read, id);
    lemma_closed_unknown_are_ends::<T>(read, id);
    crate::reader_state::lemma_closed_unknown_keeps_place::<T>(read, id);
    let cleared = read.closed_unknown::<T>(id);
    let cleared_new = cleared.newly_ready(read);
    lemma_ends_open_none(cleared_new, whole);
    let entry = OpenTag {
        tag: end_of(id),
        size: found.size,
        tag_start: found.tag_start,
        data_start: found.data_start,
    };
    let opened = ReaderState { stack: cleared.stack.push(entry), ..cleared };
    let outer = open_ids(cleared.stack);
    let before = opened.queue.len();
    lemma_open_ids_push(cleared.stack, entry);
    assert(opened.queue.subrange(before as int, before as int) =~= Seq::<Emission>::empty());
    assert(opened.closes_with_ends()) by {
        assert forall|i: int| 0 <= i < opened.stack.len() implies closes_with_end(
            #[trigger] opened.stack[i],
        ) by {
            if i < cleared.stack.len() {
                assert(opened.stack[i] == cleared.stack[i]);
            }
        }
    }
    lemma_buffered_is_paired::<T>(opened, id, found.tag_start, before, outer);
    lemma_buffered_follows::<T>(opened, id, found.tag_start, before, before);
    let last = s.advanced::<T>();
    assert(last == opened.buffered::<T>(id, found.tag_start, before, before));
    assert(opened.queue.subrange(0, before as int) =~= opened.queue);
    assert(last.follows(cleared));
    let out = last.newly_ready(cleared);
    lemma_newly_ready_chain(read, cleared, last);
    lemma_newly_ready_chain(settled, read, last);
    lemma_newly_ready_chain(s, settled, last);
    let new = last.newly_ready(s);
    assert(new =~= closings + (cleared_new + out));
    lemma_opens_none_concat(cleared_new, out, whole);
    lemma_opens_none_concat(closings, cleared_new + out, whole);
    if is_faultless(new) {
        lemma_faultless_parts(closings, cleared_new + out);
        lemma_faultless_parts(cleared_new, out);
        lemma_nesting_concat(open_ids(read.stack), cleared_new, out);
        lemma_nesting_concat(open_ids(s.stack), closings, cleared_new + out);
    }
}

/// Every end that is made ready closes the master tag that was opened last
/// and is still open, and has its id; every start that is made ready opens a
/// tag: what is newly ready after the next tag was read leads from the tags
/// that were open to the tags that are open, and holds no start of a master
/// tag that is given out whole. At the end of the document no tag stays
/// open. Where the tag that is read is the start of a master tag that is
/// given out whole, this is said of a reading that makes no fault ready.
pub proof fn lemma_advanced_is_paired<T: EbmlSpecification>(s: ReaderState)
    requires
        s.paired::<T>(),
    ensures
        s.advanced::<T>().wf(),
        s.advanced::<T>().buffered_ids == s.buffered_ids,
        s.advanced::<T>().closes_with_ends(),
        s.advanced::<T>().follows(s),
        opens_none_of(s.advanced::<T>().newly_ready(s), s.buffered_ids),
        !s.opens_whole::<T>() || is_faultless(s.advanced::<T>().newly_ready(s)) ==> nesting_after(
            open_ids(s.stack),
            s.advanced::<T>().newly_ready(s),
        ) == Some(open_ids(s.advanced::<T>().stack)),
        s.offset >= s.data.len() ==> s.advanced::<T>().stack.len() == 0,
    decreases s.remaining(), s.stack.len(), 2nat,
{
    if s.opens_whole::<T>() {
        lemma_whole_step_is_paired::<T>(s);
        lemma_closed_known_keeps(s);
    } else {
        lemma_plain_step_is_paired::<T>(s);
        lemma_plain_step_opens_none::<T>(s);
    }
}

/// Asking for the next tag keeps every open tag closing with an end.
pub proof fn lemma_stepped_is_paired<T: EbmlSpecification>(s: ReaderState)
    requires
        s.paired::<T>(),
    ensures
        s.stepped::<T>().0.wf(),
        s.stepped::<T>().0.buffered_ids == s.buffered_ids,
        s.stepped::<T>().0.closes_with_ends(),
{
    if s.queue.len() == 0 {
        lemma_advanced_is_paired::<T>(s);
    }
}

/// Reading on several times keeps what was ready, in its order and first.
pub proof fn lemma_ran_follows<T: EbmlSpecification>(s: ReaderState, times: nat)
    requires
        s.wf(),
    ensures
        ran::<T>(s, times).follows(s),
    decreases times,
{
    if times == 0 {
        assert(s.queue.subrange(0, s.queue.len() as int) =~= s.queue);
    } else {
        let next = s.advanced::<T>();
        lemma_advanced_advances::<T>(s);
        lemma_ran_follows::<T>(next, (times - 1) as nat);
        lemma_newly_ready_chain(s, next, ran::<T>(next, (times - 1) as nat));
    }
}

/// Starts and ends come in pairs, however often the iterator reads on: all
/// that is newly ready leads from the master tags that were open to the
/// master tags that are open. So each end closes the master tag that was
/// opened last and is still open, and no end comes without its start. So
/// it is wherever in a document the iterator starts: for the ancestors that
/// it takes as open nothing is given out. This is said of an iterator that
/// gives no master tag out whole or makes no fault ready.
pub proof fn lemma_ran_is_paired<T: EbmlSpecification>(s: ReaderState, times: nat)
    requires
        s.wf(),
        s.closes_with_ends(),
        s.buffered_ids == Set::<u64>::empty() || is_faultless(ran::<T>(s, times).newly_ready(s)),
    ensures
        ran::<T>(s, times).wf(),
        ran::<T>(s, times).closes_with_ends(),
        ran::<T>(s, times).follows(s),
        nesting_after(open_ids(s.stack), ran::<T>(s, times).newly_ready(s)) == Some(
            open_ids(ran::<T>(s, times).stack),
        ),
    decreases times,
{
    lemma_ran_follows::<T>(s, times);
    if times == 0 {
        assert(s.newly_ready(s) =~= Seq::<Emission>::empty());
    } else {
        let next = s.advanced::<T>();
        let last = ran::<T>(next, (times - 1) as nat);
        lemma_advanced_is_paired::<T>(s);
        lemma_ran_follows::<T>(next, (times - 1) as nat);
        lemma_newly_ready_chain(s, next, last);
        lemma_faultless_parts(next.newly_ready(s), last.newly_ready(next));
        lemma_ran_is_paired::<T>(next, (times - 1) as nat);
        lemma_nesting_concat(open_ids(s.stack), next.newly_ready(s), last.newly_ready(next));
    }
}

/// Where ends close the tags that were opened last in a run of tags, they
/// do so in every beginning of the run: in none of them an end comes
/// without its start.
pub proof fn lemma_nesting_prefix(open: Seq<u64>, front: Seq<Emission>, back: Seq<Emission>)
    requires
        nesting_after(open, front + back) is Some,
    ensures
        nesting_after(open, front) is Some,
{
    lemma_nesting_concat(open, front, back);
}

/// Where no open tag was read, no master tag is open whose start was given
/// out.
pub proof fn lemma_no_read_ids(stack: Seq<OpenTag>)
    requires
        !crate::reader_state::holds_read(stack),
    ensures
        open_ids(stack) == Seq::<u64>::empty(),
    decreases stack.len(),
{
    if stack.len() > 0 {
        assert(is_assumed(stack[stack.len() - 1]));
        let rest = stack.drop_last();
        assert(!crate::reader_state::holds_read(rest)) by {
            if crate::reader_state::holds_read(rest) {
                let i = choose|i: int| 0 <= i < rest.len() && !is_assumed(#[trigger] rest[i]);
                assert(rest[i] == stack[i]);
            }
        }
        lemma_no_read_ids(rest);
    }
}

/// What a new iterator gives out comes in pairs, wherever in a document it
/// starts: where it is asked as often as reading on `times` times has made
/// tags ready, the tags that it gives out lead from no open master tag to
/// the master tags that are open, and so does every beginning of them.
/// Each end closes the master tag whose start was given out last and that
/// is still open, and once the document has ended and no tag that was read
/// is open, every start has had its end. This is said of an iterator that
/// gives no master tag out whole or gives out no fault.
pub proof fn lemma_asked_is_paired<T: EbmlSpecification>(r: ReaderState, times: nat, upto: nat)
    requires
        r.wf(),
        r.stack.len() == 0,
        r.queue.len() == 0,
        r.buffered_ids == Set::<u64>::empty() || is_faultless(ran::<T>(r, times).queue),
        upto <= ran::<T>(r, times).queue.len(),
    ensures
        asked::<T>(r, ran::<T>(r, times).queue.len()) == ran::<T>(r, times).queue,
        nesting_after(Seq::empty(), asked::<T>(r, ran::<T>(r, times).queue.len())) == Some(
            open_ids(ran::<T>(r, times).stack),
        ),
        nesting_after(
            Seq::empty(),
            asked::<T>(r, ran::<T>(r, times).queue.len()).subrange(0, upto as int),
        ) is Some,
        crate::asked_laws::is_done(ran::<T>(r, times)) ==> nesting_after(
            Seq::empty(),
            asked::<T>(r, ran::<T>(r, times).queue.len()),
        ) == Some(Seq::<u64>::empty()),
{
    let last = ran::<T>(r, times);
    let all = last.queue;
    assert(last.newly_ready(r) =~= all);
    assert(open_ids(r.stack) =~= Seq::<u64>::empty());
    lemma_ran_is_paired::<T>(r, times);
    if crate::asked_laws::is_done(last) {
        lemma_no_read_ids(last.stack);
    }
    crate::asked_laws::lemma_asked_is_ran::<T>(r, times, all.len());
    assert(all.subrange(0, upto as int) + all.subrange(upto as int, all.len() as int) =~= all);
    lemma_nesting_prefix(
        Seq::empty(),
        all.subrange(0, upto as int),
        all.subrange(upto as int, all.len() as int),
    );
}

} // verus!
