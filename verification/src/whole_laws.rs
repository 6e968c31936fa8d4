//! What is written is read back: what a tag iterator reads from the bytes of
//! a document, whichever master tags it gives out whole, and that it agrees
//! with what the tag writer wrote.
use vstd::prelude::*;
use crate::asked_laws::asked;
use crate::asked_laws::lemma_asked_is_ran;
use crate::buffered_laws::closed_from;
use crate::buffered_laws::has_ended_at;
use crate::buffered_laws::lemma_advanced_advances;
use crate::buffered_laws::lemma_advanced_after_closing;
use crate::buffered_laws::lemma_advanced_shifted;
use crate::buffered_laws::shifted;
use crate::document_laws::conforms_forest;
use crate::document_laws::conforms_tree;
use crate::document_laws::ends_at;
use crate::document_laws::fits_under;
use crate::document_laws::forest_bytes;
use crate::document_laws::is_plain_forest;
use crate::document_laws::is_plain_tree;
use crate::document_laws::lemma_conforms_same_settings;
use crate::document_laws::lemma_master_is_closed;
use crate::document_laws::lemma_master_step;
use crate::document_laws::lemma_primitive_step;
use crate::document_laws::lemma_rest_behind;
use crate::document_laws::lemma_settled_passes;
use crate::document_laws::lemma_stands_behind;
use crate::document_laws::lemma_tree_bytes_len;
use crate::document_laws::lemma_unwound_carry;
use crate::document_laws::lemma_unwound_concat;
use crate::document_laws::master_header_len;
use crate::document_laws::open_master;
use crate::document_laws::outlasts;
use crate::document_laws::ran;
use crate::document_laws::stands_before;
use crate::document_laws::tree_bytes;
use crate::reader_laws::lemma_nesting_concat;
use crate::reader_laws::nesting_after;
use crate::reader_state::closing;
use crate::reader_state::end_index;
use crate::reader_state::end_of;
use crate::reader_state::first_stop;
use crate::reader_state::holds_read;
use crate::reader_state::is_stop;
use crate::reader_state::rolled;
use crate::reader_state::rolled_children;
use crate::reader_state::start_of;
use crate::reader_state::tags_between;
use crate::reader_state::unwound;
use crate::reader_state::Emission;
use crate::reader_state::OpenTag;
use crate::reader_state::ReaderState;
use crate::specs::DataModel;
use crate::specs::EbmlSpecification;
use crate::specs::MasterModel;
use crate::specs::TagModel;
use crate::tag_iterator_util::EBMLSize;
use crate::tag_writer::WriterState;

verus! {

/// The tag `tag`, which starts at `base`, as it is made ready.
pub open spec fn ready(tag: TagModel, base: nat) -> Emission {
    Ok((tag, base as usize))
}

/// What a tag iterator that gives out whole the master tags with an id of
/// `whole` gives out for the tag `tag` that starts at `base`: the tag
/// itself, or for a full master tag that is not given out whole its start,
/// what is given out for each child, and its end.
pub open spec fn tree_given(whole: Set<u64>, tag: TagModel, base: nat) -> Seq<Emission>
    decreases tag, 0nat,
{
    match tag.data {
        DataModel::Master(MasterModel::Full(children)) => if whole.contains(tag.id) {
            seq![ready(tag, base)]
        } else {
            seq![ready(start_of(tag.id), base)] + forest_given(
                whole,
                children,
                0,
                base + master_header_len(tag),
            ) + seq![ready(end_of(tag.id), base)]
        },
        _ => seq![ready(tag, base)],
    }
}

/// What is given out for the tags of `tags` from the `from`-th on, the first
/// of which starts at `base`.
pub open spec fn forest_given(whole: Set<u64>, tags: Seq<TagModel>, from: nat, base: nat) -> Seq<
    Emission,
>
    decreases tags, tags.len() - from,
{
    if from >= tags.len() {
        Seq::empty()
    } else {
        tree_given(whole, tags[from as int], base) + forest_given(
            whole,
            tags,
            from + 1,
            base + tree_bytes(tags[from as int]).len(),
        )
    }
}

/// The open tags that are left behind the tag `tag` when its last byte was
/// read: none behind a master tag that is given out whole.
pub open spec fn tree_left(whole: Set<u64>, tag: TagModel, base: nat) -> Seq<OpenTag>
    decreases tag, 0nat,
{
    match tag.data {
        DataModel::Master(MasterModel::Full(children)) => if whole.contains(tag.id) {
            Seq::empty()
        } else {
            seq![open_master(tag, base)] + forest_left(
                whole,
                children,
                0,
                base + master_header_len(tag),
                Seq::empty(),
            )
        },
        _ => Seq::empty(),
    }
}

/// The open tags that are left behind the tags of `tags` from the `from`-th
/// on, where `carry` were left before them.
pub open spec fn forest_left(
    whole: Set<u64>,
    tags: Seq<TagModel>,
    from: nat,
    base: nat,
    carry: Seq<OpenTag>,
) -> Seq<OpenTag>
    decreases tags, tags.len() - from,
{
    if from >= tags.len() {
        carry
    } else {
        forest_left(
            whole,
            tags,
            from + 1,
            base + tree_bytes(tags[from as int]).len(),
            tree_left(whole, tags[from as int], base),
        )
    }
}

/// What is made ready for the tag `tag` up to its last byte: all that is
/// given out for it but the ends of the tags that are left open behind it.
pub open spec fn tree_seen(whole: Set<u64>, tag: TagModel, base: nat) -> Seq<Emission>
    decreases tag, 0nat,
{
    match tag.data {
        DataModel::Master(MasterModel::Full(children)) => if whole.contains(tag.id) {
            seq![ready(tag, base)]
        } else {
            seq![ready(start_of(tag.id), base)] + forest_seen(
                whole,
                children,
                0,
                base + master_header_len(tag),
                Seq::empty(),
            )
        },
        _ => seq![ready(tag, base)],
    }
}

/// What is made ready for the tags of `tags` from the `from`-th on up to
/// their last byte, where `carry` were left open before them.
pub open spec fn forest_seen(
    whole: Set<u64>,
    tags: Seq<TagModel>,
    from: nat,
    base: nat,
    carry: Seq<OpenTag>,
) -> Seq<Emission>
    decreases tags, tags.len() - from,
{
    if from >= tags.len() {
        Seq::empty()
    } else {
        unwound(carry, 0) + tree_seen(whole, tags[from as int], base) + forest_seen(
            whole,
            tags,
            from + 1,
            base + tree_bytes(tags[from as int]).len(),
            tree_left(whole, tags[from as int], base),
        )
    }
}

/// The number of times that the iterator reads on for the tag `tag`: once
/// for each tag of the tree that is not within a master tag that is given
/// out whole, and not at all for such a master tag, which is read together
/// with what follows it.
pub open spec fn tree_steps(whole: Set<u64>, tag: TagModel) -> nat
    decreases tag, 0nat,
{
    match tag.data {
        DataModel::Master(MasterModel::Full(children)) => if whole.contains(tag.id) {
            0
        } else {
            1 + forest_steps(whole, children, 0)
        },
        _ => 1,
    }
}

/// The number of times that the iterator reads on for the tags of `tags`
/// from the `from`-th on.
pub open spec fn forest_steps(whole: Set<u64>, tags: Seq<TagModel>, from: nat) -> nat
    decreases tags, tags.len() - from,
{
    if from >= tags.len() {
        0
    } else {
        tree_steps(whole, tags[from as int]) + forest_steps(whole, tags, from + 1)
    }
}

/// Whether the end of a master tag `id` is given out for the tag `tag`.
pub open spec fn tree_ends(whole: Set<u64>, tag: TagModel, id: u64) -> bool
    decreases tag, 0nat,
{
    match tag.data {
        DataModel::Master(MasterModel::Full(children)) => !whole.contains(tag.id) && (tag.id == id
            || forest_ends(whole, children, 0, id)),
        DataModel::Master(MasterModel::End) => tag.id == id,
        _ => false,
    }
}

/// Whether the end of a master tag `id` is given out for one of the tags of
/// `tags` from the `from`-th on.
pub open spec fn forest_ends(whole: Set<u64>, tags: Seq<TagModel>, from: nat, id: u64) -> bool
    decreases tags, tags.len() - from,
{
    from < tags.len() && (tree_ends(whole, tags[from as int], id) || forest_ends(
        whole,
        tags,
        from + 1,
        id,
    ))
}

/// Whether the tag `tag` is made whole again from what is given out for it:
/// where it is a master tag that is given out as its start, its children and
/// its end, the specification makes it as a full tag, its children are made
/// whole again, and no master tag with its id is given out in this way
/// within it.
pub open spec fn tree_rolls<T: EbmlSpecification>(whole: Set<u64>, tag: TagModel) -> bool
    decreases tag, 0nat,
{
    match tag.data {
        DataModel::Master(MasterModel::Full(children)) => whole.contains(tag.id) || (T::spec_makes(
            tag,
        ) && forest_rolls::<T>(whole, children, 0) && !forest_ends(whole, children, 0, tag.id)),
        DataModel::Master(_) => false,
        _ => true,
    }
}

/// Whether the tags of `tags` from the `from`-th on are made whole again.
pub open spec fn forest_rolls<T: EbmlSpecification>(whole: Set<u64>, tags: Seq<TagModel>, from: nat) -> bool
    decreases tags, tags.len() - from,
{
    from >= tags.len() || (tree_rolls::<T>(whole, tags[from as int]) && forest_rolls::<T>(
        whole,
        tags,
        from + 1,
    ))
}

/// Whether every master tag of the tree `tag` that is given out whole is
/// made whole by the specification, from children that are made whole
/// again.
pub open spec fn tree_holds<T: EbmlSpecification>(whole: Set<u64>, tag: TagModel) -> bool
    decreases tag, 0nat,
{
    match tag.data {
        DataModel::Master(MasterModel::Full(children)) => forest_holds::<T>(whole, children, 0) && (
        whole.contains(tag.id) ==> T::spec_makes(tag) && forest_rolls::<T>(whole, children, 0)),
        _ => true,
    }
}

/// Whether the trees of `tags` from the `from`-th on hold.
pub open spec fn forest_holds<T: EbmlSpecification>(whole: Set<u64>, tags: Seq<TagModel>, from: nat) -> bool
    decreases tags, tags.len() - from,
{
    from >= tags.len() || (tree_holds::<T>(whole, tags[from as int]) && forest_holds::<T>(
        whole,
        tags,
        from + 1,
    ))
}

/// The tags of what is ready, all of which are tags.
pub open spec fn tags_of(events: Seq<Emission>) -> Seq<TagModel> {
    Seq::new(events.len(), |i: int| events[i]->Ok_0.0)
}

/// Whether all of `events` are tags, none of which is the end of the master
/// tag `id`.
pub open spec fn holds_no_stop(events: Seq<Emission>, id: u64) -> bool {
    forall|k: int| 0 <= k < events.len() ==> !is_stop(#[trigger] events[k], id)
}

/// The closing tags of open tags that close with ends of other master tags
/// than `id` hold no stop for `id`.
pub proof fn lemma_unwound_no_stop(stack: Seq<OpenTag>, id: u64)
    requires
        forall|i: int| 0 <= i < stack.len() ==> (#[trigger] stack[i]).tag != end_of(id),
    ensures
        holds_no_stop(unwound(stack, 0), id),
    decreases stack.len(),
{
    if stack.len() > 0 {
        lemma_unwound_no_stop(stack.drop_last(), id);
        assert forall|k: int| 0 <= k < unwound(stack, 0).len() implies !is_stop(
            #[trigger] unwound(stack, 0)[k],
            id,
        ) by {
            if crate::reader_state::is_assumed(stack.last()) {
                assert(unwound(stack, 0)[k] == unwound(stack.drop_last(), 0)[k]);
            } else if k > 0 {
                assert(unwound(stack, 0)[k] == unwound(stack.drop_last(), 0)[k - 1]);
            } else {
                assert(stack[stack.len() - 1].tag != end_of(id));
            }
        }
    }
}

/// What is given out for a tree for which no end of a master tag `id` is
/// given out holds no stop for `id`, and the tags that are left open behind
/// it do not close with such an end.
pub proof fn lemma_tree_no_stop(whole: Set<u64>, tag: TagModel, base: nat, id: u64)
    requires
        !tree_ends(whole, tag, id),
    ensures
        holds_no_stop(tree_given(whole, tag, base), id),
        holds_no_stop(tree_seen(whole, tag, base), id),
        forall|i: int|
            0 <= i < tree_left(whole, tag, base).len() ==> (#[trigger] tree_left(
                whole,
                tag,
                base,
            )[i]).tag != end_of(id),
    decreases tag, 0nat,
{
    match tag.data {
        DataModel::Master(MasterModel::Full(children)) => {
            if !whole.contains(tag.id) {
                let inner = base + master_header_len(tag);
                lemma_forest_no_stop(whole, children, 0, inner, Seq::empty(), id);
                let given = tree_given(whole, tag, base);
                let middle = forest_given(whole, children, 0, inner);
                assert forall|k: int| 0 <= k < given.len() implies !is_stop(#[trigger] given[k], id) by {
                    if 0 < k <= middle.len() {
                        assert(given[k] == middle[k - 1]);
                    }
                }
                let seen = tree_seen(whole, tag, base);
                let inner_seen = forest_seen(whole, children, 0, inner, Seq::empty());
                assert forall|k: int| 0 <= k < seen.len() implies !is_stop(#[trigger] seen[k], id) by {
                    if 0 < k {
                        assert(seen[k] == inner_seen[k - 1]);
                    }
                }
                let left = tree_left(whole, tag, base);
                let inner_left = forest_left(whole, children, 0, inner, Seq::empty());
                assert forall|i: int| 0 <= i < left.len() implies (#[trigger] left[i]).tag != end_of(
                    id,
                ) by {
                    if i > 0 {
                        assert(left[i] == inner_left[i - 1]);
                    }
                }
            }
        },
        _ => {},
    }
}

/// What is given out for a run of trees for which no end of a master tag
/// `id` is given out holds no stop for `id`.
pub proof fn lemma_forest_no_stop(
    whole: Set<u64>,
    tags: Seq<TagModel>,
    from: nat,
    base: nat,
    carry: Seq<OpenTag>,
    id: u64,
)
    requires
        !forest_ends(whole, tags, from, id),
        forall|i: int| 0 <= i < carry.len() ==> (#[trigger] carry[i]).tag != end_of(id),
    ensures
        holds_no_stop(forest_given(whole, tags, from, base), id),
        holds_no_stop(forest_seen(whole, tags, from, base, carry), id),
        forall|i: int|
            0 <= i < forest_left(whole, tags, from, base, carry).len() ==> (#[trigger] forest_left(
                whole,
                tags,
                from,
                base,
                carry,
            )[i]).tag != end_of(id),
    decreases tags, tags.len() - from,
{
    if from < tags.len() {
        let first = tags[from as int];
        let next_base = base + tree_bytes(first).len();
        lemma_tree_no_stop(whole, first, base, id);
        lemma_forest_no_stop(whole, tags, from + 1, next_base, tree_left(whole, first, base), id);
        lemma_unwound_no_stop(carry, id);
        let a = tree_given(whole, first, base);
        let b = forest_given(whole, tags, from + 1, next_base);
        assert forall|k: int| 0 <= k < (a + b).len() implies !is_stop(#[trigger] (a + b)[k], id) by {
            if k < a.len() {
                assert((a + b)[k] == a[k]);
            } else {
                assert((a + b)[k] == b[k - a.len()]);
            }
        }
        let c = unwound(carry, 0);
        let d = tree_seen(whole, first, base);
        let e = forest_seen(whole, tags, from + 1, next_base, tree_left(whole, first, base));
        assert forall|k: int| 0 <= k < (c + d + e).len() implies !is_stop(
            #[trigger] (c + d + e)[k],
            id,
        ) by {
            if k < c.len() {
                assert((c + d + e)[k] == c[k]);
            } else if k < c.len() + d.len() {
                assert((c + d + e)[k] == d[k - c.len()]);
            } else {
                assert((c + d + e)[k] == e[k - c.len() - d.len()]);
            }
        }
    }
}

/// The end of a master tag is found behind tags that hold no such end.
pub proof fn lemma_end_index_behind(front: Seq<TagModel>, back: Seq<TagModel>, id: u64, from: nat)
    requires
        from <= front.len(),
        forall|k: int| 0 <= k < front.len() ==> #[trigger] front[k] != end_of(id),
    ensures
        end_index(front + seq![end_of(id)] + back, id, from) == front.len(),
    decreases front.len() - from,
{
    let all = front + seq![end_of(id)] + back;
    if from < front.len() {
        assert(all[from as int] == front[from as int]);
        lemma_end_index_behind(front, back, id, from + 1);
    } else {
        assert(all[from as int] == end_of(id));
    }
}

/// The tags of two runs of what is ready.
pub proof fn lemma_tags_of_concat(a: Seq<Emission>, b: Seq<Emission>)
    ensures
        tags_of(a + b) == tags_of(a) + tags_of(b),
{
    assert(tags_of(a + b) =~= tags_of(a) + tags_of(b));
}

/// A run of trees is made whole again from what is given out for it.
pub proof fn lemma_forest_rolls<T: EbmlSpecification>(
    whole: Set<u64>,
    tags: Seq<TagModel>,
    from: nat,
    base: nat,
)
    requires
        from <= tags.len(),
        forest_rolls::<T>(whole, tags, from),
    ensures
        rolled_children::<T>(tags_of(forest_given(whole, tags, from, base))) == Ok::<
            Seq<TagModel>,
            u64,
        >(tags.subrange(from as int, tags.len() as int)),
    decreases tags, tags.len() - from,
{
    if from >= tags.len() {
        assert(tags_of(forest_given(whole, tags, from, base)) =~= Seq::empty());
        assert(tags.subrange(from as int, tags.len() as int) =~= Seq::empty());
    } else {
        let first = tags[from as int];
        let next_base = base + tree_bytes(first).len();
        let later = forest_given(whole, tags, from + 1, next_base);
        assert(tree_rolls::<T>(whole, first) && forest_rolls::<T>(whole, tags, from + 1));
        lemma_forest_rolls::<T>(whole, tags, from + 1, next_base);
        assert(forest_given(whole, tags, from, base) == tree_given(whole, first, base) + later);
        let done = tags.subrange(from as int + 1, tags.len() as int);
        assert(seq![first] + done =~= tags.subrange(from as int, tags.len() as int));
        let given = tree_given(whole, first, base);
        lemma_tags_of_concat(given, later);
        let all = tags_of(given + later);
        let back = tags_of(later);
        let rest = all.subrange(1, all.len() as int);
        match first.data {
            DataModel::Master(MasterModel::Full(children)) => {
                if !whole.contains(first.id) {
                    let inner_base = base + master_header_len(first);
                    let middle = forest_given(whole, children, 0, inner_base);
                    assert(T::spec_makes(first) && forest_rolls::<T>(whole, children, 0)
                        && !forest_ends(whole, children, 0, first.id));
                    lemma_forest_rolls::<T>(whole, children, 0, inner_base);
                    lemma_forest_no_stop(whole, children, 0, inner_base, Seq::empty(), first.id);
                    let front = tags_of(middle);
                    assert forall|k: int| 0 <= k < front.len() implies #[trigger] front[k]
                        != end_of(first.id) by {
                        assert(!is_stop(middle[k], first.id));
                    }
                    assert(all[0] == start_of(first.id));
                    assert(rest =~= front + seq![end_of(first.id)] + back);
                    lemma_end_index_behind(front, back, first.id, 0);
                    assert(rest.subrange(0, front.len() as int) =~= front);
                    assert(rest.subrange(front.len() as int + 1, rest.len() as int) =~= back);
                    assert(children.subrange(0, children.len() as int) =~= children);
                    assert(first == (TagModel {
                        id: first.id,
                        data: DataModel::Master(MasterModel::Full(children)),
                    }));
                    assert(rolled::<T>(first.id, front) == Ok::<TagModel, u64>(first));
                } else {
                    assert(given =~= seq![ready(first, base)]);
                    assert(all[0] == first);
                    assert(rest =~= back);
                }
            },
            _ => {
                assert(given =~= seq![ready(first, base)]);
                assert(all[0] == first);
                assert(rest =~= back);
            },
        }
    }
}

/// The state of the iterator `s` behind `len` more bytes, with the open tags
/// `stack` and with `queue` ready.
pub open spec fn behind(s: ReaderState, len: nat, stack: Seq<OpenTag>, queue: Seq<Emission>) -> ReaderState {
    ReaderState { offset: (s.offset + len) as usize, stack, queue, ..s }
}

/// What is made ready while a tree is read, and then the ends of the tags
/// that are left open behind it, is what is given out for the tree.
pub proof fn lemma_tree_seen_completes(whole: Set<u64>, tag: TagModel, base: nat)
    ensures
        tree_seen(whole, tag, base) + unwound(tree_left(whole, tag, base), 0) == tree_given(
            whole,
            tag,
            base,
        ),
    decreases tag, 0nat,
{
    assert(unwound(Seq::<OpenTag>::empty(), 0) =~= Seq::<Emission>::empty());
    match tag.data {
        DataModel::Master(MasterModel::Full(children)) => {
            if !whole.contains(tag.id) {
                let inner_base = base + master_header_len(tag);
                let entry = open_master(tag, base);
                let left = forest_left(whole, children, 0, inner_base, Seq::empty());
                lemma_forest_seen_completes(whole, children, 0, inner_base, Seq::empty());
                lemma_unwound_concat(seq![entry], left);
                assert(seq![entry].drop_last() =~= Seq::<OpenTag>::empty());
                assert(unwound(seq![entry], 0) =~= seq![closing(entry)]);
                let start = seq![ready(start_of(tag.id), base)];
                let seen = forest_seen(whole, children, 0, inner_base, Seq::empty());
                assert(seen + unwound(left, 0) == forest_given(whole, children, 0, inner_base)) by {
                    assert(Seq::<Emission>::empty() + forest_given(whole, children, 0, inner_base)
                        =~= forest_given(whole, children, 0, inner_base));
                }
                assert((start + seen) + (unwound(left, 0) + seq![closing(entry)]) =~= start + (seen
                    + unwound(left, 0)) + seq![closing(entry)]);
            } else {
                assert(tree_seen(whole, tag, base) + Seq::<Emission>::empty() =~= tree_seen(
                    whole,
                    tag,
                    base,
                ));
            }
        },
        _ => {
            assert(tree_seen(whole, tag, base) + Seq::<Emission>::empty() =~= tree_seen(
                whole,
                tag,
                base,
            ));
        },
    }
}

/// What is made ready while a run of trees is read, and then the ends of the
/// tags that are left open behind it, is the ends of the tags that were left
/// open before it and what is given out for the trees.
pub proof fn lemma_forest_seen_completes(
    whole: Set<u64>,
    tags: Seq<TagModel>,
    from: nat,
    base: nat,
    carry: Seq<OpenTag>,
)
    ensures
        forest_seen(whole, tags, from, base, carry) + unwound(
            forest_left(whole, tags, from, base, carry),
            0,
        ) == unwound(carry, 0) + forest_given(whole, tags, from, base),
    decreases tags, tags.len() - from,
{
    if from >= tags.len() {
        assert(Seq::<Emission>::empty() + unwound(carry, 0) =~= unwound(carry, 0)
            + Seq::<Emission>::empty());
    } else {
        let first = tags[from as int];
        let next_base = base + tree_bytes(first).len();
        let left = tree_left(whole, first, base);
        lemma_tree_seen_completes(whole, first, base);
        lemma_forest_seen_completes(whole, tags, from + 1, next_base, left);
        let rest_seen = forest_seen(whole, tags, from + 1, next_base, left);
        let rest_left = forest_left(whole, tags, from + 1, next_base, left);
        assert((unwound(carry, 0) + tree_seen(whole, first, base) + rest_seen) + unwound(
            rest_left,
            0,
        ) =~= unwound(carry, 0) + tree_seen(whole, first, base) + (rest_seen + unwound(
            rest_left,
            0,
        )));
        assert(unwound(carry, 0) + tree_seen(whole, first, base) + (unwound(left, 0) + forest_given(
            whole,
            tags,
            from + 1,
            next_base,
        )) =~= unwound(carry, 0) + ((tree_seen(whole, first, base) + unwound(left, 0))
            + forest_given(whole, tags, from + 1, next_base)));
    }
}

/// No end of a master tag that is given out whole is given out for plain
/// trees.
pub proof fn lemma_no_ends_of_whole<T: EbmlSpecification>(
    whole: Set<u64>,
    tags: Seq<TagModel>,
    from: nat,
    id: u64,
)
    requires
        whole.contains(id),
        is_plain_forest::<T>(tags, from),
    ensures
        !forest_ends(whole, tags, from, id),
    decreases tags, tags.len() - from,
{
    if from < tags.len() {
        let first = tags[from as int];
        assert(is_plain_tree::<T>(first) && is_plain_forest::<T>(tags, from + 1));
        lemma_no_ends_of_whole::<T>(whole, tags, from + 1, id);
        match first.data {
            DataModel::Master(MasterModel::Full(children)) => {
                assert(is_plain_forest::<T>(children, 0));
                lemma_no_ends_of_whole::<T>(whole, children, 0, id);
                assert(!tree_ends(whole, first, id));
            },
            DataModel::Master(_) => {
                assert(false);
            },
            _ => {
                assert(!tree_ends(whole, first, id));
            },
        }
        assert(!tree_ends(whole, first, id));
    }
}

/// Where no stop stands from `before` up to `from`, the first stop from
/// `before` on is the first stop from `from` on.
pub proof fn lemma_first_stop_later(queue: Seq<Emission>, id: u64, before: nat, from: nat)
    requires
        before <= from,
        forall|k: int| before <= k < from && k < queue.len() ==> !is_stop(#[trigger] queue[k], id),
    ensures
        first_stop(queue, id, before) == first_stop(queue, id, from),
    decreases from - before,
{
    if before < from {
        if before < queue.len() {
            assert(!is_stop(queue[before as int], id));
        }
        lemma_first_stop_later(queue, id, before + 1, from);
        if before >= queue.len() {
            crate::reader_laws::lemma_first_stop_bound(queue, id, before);
            crate::reader_laws::lemma_first_stop_bound(queue, id, from);
        }
    }
}

/// Whether nothing that is ready from the `before`-th on stops the search
/// for the end of the master tag `id`.
pub open spec fn is_quiet(s: ReaderState, id: u64, before: nat) -> bool {
    forall|k: int| before <= k < s.queue.len() ==> !is_stop(#[trigger] s.queue[k], id)
}

/// Reading a master tag to its end is reading on until its end is ready: where
/// reading on `more` times makes nothing ready that stops the search, and
/// reading on another time makes the first stop ready at `stop`, the state
/// is what the search makes of the state after these times at that stop.
pub proof fn lemma_buffered_runs<T: EbmlSpecification>(
    x: ReaderState,
    id: u64,
    tag_start: usize,
    before: nat,
    more: nat,
    stop: nat,
)
    requires
        x.wf(),
        before <= x.queue.len(),
        is_quiet(x, id, before),
        holds_read(x.stack),
        forall|j: nat|
            1 <= j <= more ==> is_quiet(#[trigger] ran::<T>(x, j), id, before) && holds_read(
                ran::<T>(x, j).stack,
            ),
        first_stop(ran::<T>(x, more + 1).queue, id, before) == Some(stop),
    ensures
        x.buffered::<T>(id, tag_start, before, x.queue.len()) == ran::<T>(
            x,
            more + 1,
        ).collected::<T>(id, tag_start, before, stop),
    decreases more,
{
    let next = x.advanced::<T>();
    lemma_advanced_advances::<T>(x);
    assert(ran::<T>(x, 1) == ran::<T>(next, 0));
    assert forall|k: int| 0 <= k < x.queue.len() implies next.queue[k] == x.queue[k] by {
        assert(next.queue.subrange(0, x.queue.len() as int)[k] == x.queue[k]);
    }
    let from = x.queue.len();
    if more == 0 {
        crate::reader_laws::lemma_first_stop_bound(next.queue, id, before);
        lemma_first_stop_later(next.queue, id, before, from);
    } else {
        assert(is_quiet(ran::<T>(x, 1), id, before) && holds_read(ran::<T>(x, 1).stack));
        lemma_first_stop_later(next.queue, id, before, from);
        lemma_quiet_has_no_stop(next.queue, id, before);
        assert(first_stop(next.queue, id, from) is None);
        assert(next.smaller_than(x)) by {
            if next.offset == x.offset {
                if next.queue.len() > x.queue.len() && next.queue.last() is Err {
                    assert(is_stop(next.queue[next.queue.len() - 1], id));
                }
            }
        }
        assert forall|j: nat| 1 <= j <= more - 1 implies is_quiet(
            #[trigger] ran::<T>(next, j),
            id,
            before,
        ) && holds_read(ran::<T>(next, j).stack) by {
            assert(ran::<T>(x, j + 1) == ran::<T>(next, j));
        }
        assert(ran::<T>(x, more + 1) == ran::<T>(next, more));
        lemma_buffered_runs::<T>(next, id, tag_start, before, (more - 1) as nat, stop);
    }
}

/// Where nothing from `before` on is a stop, no first stop is found.
pub proof fn lemma_quiet_has_no_stop(queue: Seq<Emission>, id: u64, before: nat)
    requires
        forall|k: int| before <= k < queue.len() ==> !is_stop(#[trigger] queue[k], id),
    ensures
        first_stop(queue, id, before) is None,
    decreases queue.len() - before,
{
    if before < queue.len() {
        assert(!is_stop(queue[before as int], id));
        lemma_quiet_has_no_stop(queue, id, before + 1);
    }
}

/// The first stop stands where a stop stands behind what holds none.
pub proof fn lemma_first_stop_at(queue: Seq<Emission>, id: u64, before: nat, stop: nat)
    requires
        before <= stop < queue.len(),
        forall|k: int| before <= k < stop ==> !is_stop(#[trigger] queue[k], id),
        is_stop(queue[stop as int], id),
    ensures
        first_stop(queue, id, before) == Some(stop),
    decreases stop - before,
{
    if before < stop {
        assert(!is_stop(queue[before as int], id));
        lemma_first_stop_at(queue, id, before + 1, stop);
    }
}

/// The state in which the master tag `tag`, which was found at the place
/// of `s`, is open, and the iterator stands at its body.
pub open spec fn opened_at(
    s: ReaderState,
    around: Seq<OpenTag>,
    carry: Seq<OpenTag>,
    tag: TagModel,
) -> ReaderState {
    behind(
        s,
        master_header_len(tag),
        around.push(open_master(tag, s.offset as nat)),
        s.queue + unwound(carry, 0),
    )
}

/// Where a plain full master tag that is given out whole stands at the
/// place, reading on closes the tags that were left open, opens the tag,
/// and reads it to its end.
pub proof fn lemma_whole_master_opens<T: EbmlSpecification>(
    s: ReaderState,
    around: Seq<OpenTag>,
    carry: Seq<OpenTag>,
    tag: TagModel,
    tail: Seq<u8>,
)
    requires
        is_plain_tree::<T>(tag),
        tag.data is Master,
        s.buffered_ids.contains(tag.id),
        fits_under::<T>(s, tag.id, around),
        stands_before(s, around, carry, tree_bytes(tag).len()),
        s.rest() == tree_bytes(tag) + tail,
    ensures
        s.advanced::<T>() == opened_at(s, around, carry, tag).buffered::<T>(
            tag.id,
            s.offset,
            (s.queue + unwound(carry, 0)).len(),
            (s.queue + unwound(carry, 0)).len(),
        ),
        stands_before(
            opened_at(s, around, carry, tag),
            around.push(open_master(tag, s.offset as nat)),
            Seq::empty(),
            forest_bytes(tag.data->Master_0->Full_0, 0).len(),
        ),
        opened_at(s, around, carry, tag).rest() == forest_bytes(tag.data->Master_0->Full_0, 0)
            + tail,
        ends_at(open_master(tag, s.offset as nat), s.offset + tree_bytes(tag).len()),
{
    lemma_tree_bytes_len::<T>(tag);
    let children = tag.data->Master_0->Full_0;
    let body = forest_bytes(children, 0);
    lemma_settled_passes::<T>(s, around, carry, tag.id, tree_bytes(tag).len());
    let settled = s.closed_known();
    assert(settled.rest() == s.rest());
    crate::document_laws::lemma_read_one_of_master::<T>(settled, tag.id, body, tail);
    crate::reader_laws::lemma_closed_known_keeps(s);
    crate::reader_state::lemma_read_one_moves::<T>(settled);
    let read = settled.read_one::<T>().0;
    let found = settled.read_one::<T>().1->Ok_0;
    assert(read.closed_unknown::<T>(tag.id) == read);
    let entry = open_master(tag, s.offset as nat);
    let opened = opened_at(s, around, carry, tag);
    assert(opened == (ReaderState { stack: read.stack.push(entry), ..read }));
    assert(entry == (OpenTag {
        tag: end_of(tag.id),
        size: found.size,
        tag_start: found.tag_start,
        data_start: found.data_start,
    }));
    let inner = around.push(entry);
    let header = crate::tag_writer::id_bytes(tag.id) + crate::tools::encode_unsigned(
        body.len(),
        crate::tag_writer::size_width(body.len()),
    );
    assert(s.rest() =~= header + (body + tail));
    crate::round_trip::lemma_significant_bytes(tag.id);
    crate::tag_writer::lemma_size_width(body.len());
    crate::tools::lemma_encode_unsigned_first(body.len(), crate::tag_writer::size_width(body.len()));
    lemma_rest_behind(s, opened, header, body + tail);
    assert(inner =~= inner + Seq::<OpenTag>::empty());
    assert forall|i: int| 0 <= i < inner.len() implies outlasts(
        #[trigger] inner[i],
        opened.offset + body.len(),
    ) by {
        if i < around.len() {
            assert(inner[i] == around[i]);
            assert(outlasts(around[i], s.offset + tree_bytes(tag).len()));
        }
    }
}

/// What the search for the end of a master tag that is given out whole
/// makes of the state in which its end was made ready: where the iterator
/// stood behind the children of the tag, with what is given out for them
/// ready, and read on, the whole tag stands in the place of its children
/// and its end, before what was made ready behind them.
pub proof fn lemma_whole_master_closes<T: EbmlSpecification>(
    s: ReaderState,
    around: Seq<OpenTag>,
    before: Seq<Emission>,
    entry: OpenTag,
    left: Seq<OpenTag>,
    seen: Seq<Emission>,
    given: Seq<Emission>,
    tag: TagModel,
)
    requires
        s.wf(),
        s.stack == around + (seq![entry] + left),
        s.queue == before + seen,
        ends_at(entry, s.offset as int),
        forall|i: int| 0 <= i < left.len() ==> ends_at(#[trigger] left[i], s.offset as int),
        seen + unwound(left, 0) == given,
        entry.tag == end_of(tag.id),
        holds_no_stop(given, tag.id),
        rolled::<T>(tag.id, tags_of(given)) == Ok::<TagModel, u64>(tag),
    ensures
        first_stop(s.advanced::<T>().queue, tag.id, before.len()) == Some(
            before.len() + given.len(),
        ),
        s.advanced::<T>().collected::<T>(
            tag.id,
            entry.tag_start,
            before.len(),
            before.len() + given.len(),
        ) == (ReaderState {
            stack: around,
            queue: before + seq![Ok::<(TagModel, usize), crate::error::ReadFault>((tag, entry.tag_start))],
            ..s
        }).advanced::<T>(),
{
    let pending = seq![entry] + left;
    let keep = around.len();
    assert forall|i: int| keep <= i < s.stack.len() implies has_ended_at(
        #[trigger] s.stack[i],
        s.offset as int,
    ) by {
        assert(s.stack[i] == pending[i - keep]);
        if i > keep {
            assert(pending[i - keep] == left[i - keep - 1]);
        }
    }
    lemma_advanced_after_closing::<T>(s, keep);
    lemma_unwound_carry(around, pending);
    lemma_unwound_concat(seq![entry], left);
    assert(seq![entry].drop_last() =~= Seq::<OpenTag>::empty());
    assert(unwound(Seq::<OpenTag>::empty(), 0) =~= Seq::<Emission>::empty());
    assert(unwound(seq![entry], 0) =~= seq![closing(entry)]);
    let end = closing(entry);
    let front = before + given + seq![end];
    let bare = ReaderState { stack: around, queue: Seq::empty(), ..s };
    assert(s.stack.subrange(0, keep as int) =~= around);
    assert(closed_from(s, keep).queue =~= front);
    assert(closed_from(s, keep) == shifted(bare, front, s.last_emitted_tag_offset)) by {
        assert(front + Seq::<Emission>::empty() =~= front);
    }
    assert(bare.wf());
    lemma_advanced_shifted::<T>(bare, front, s.last_emitted_tag_offset);
    let more = bare.advanced::<T>();
    let fin = s.advanced::<T>();
    assert(fin == shifted(more, front, s.last_emitted_tag_offset));
    let stop = before.len() + given.len();
    assert(fin.queue[stop as int] == end);
    assert forall|k: int| before.len() <= k < stop implies !is_stop(
        #[trigger] fin.queue[k],
        tag.id,
    ) by {
        assert(fin.queue[k] == given[k - before.len()]);
    }
    lemma_first_stop_at(fin.queue, tag.id, before.len(), stop);
    assert(tags_between(fin.queue, before.len(), stop) =~= tags_of(given)) by {
        assert forall|i: int| 0 <= i < given.len() implies fin.queue[before.len() + i]
            == given[i] by {}
    }
    let full = Ok::<(TagModel, usize), crate::error::ReadFault>((tag, entry.tag_start));
    let short = before + seq![full];
    assert(fin.queue.subrange(0, before.len() as int) =~= before);
    assert(fin.queue.subrange(stop as int + 1, fin.queue.len() as int) =~= more.queue);
    assert(before.push(full) + more.queue =~= short + more.queue);
    lemma_advanced_shifted::<T>(bare, short, s.last_emitted_tag_offset);
    assert(shifted(bare, short, s.last_emitted_tag_offset) == (ReaderState { stack: around, queue: short, ..s })) by {
        assert(short + Seq::<Emission>::empty() =~= short);
    }
}

/// The state of the iterator `s` behind the tree `tag` that stood at its
/// place, under the open tags `around` and with `carry` left open before
/// the tree.
pub open spec fn behind_tree(
    s: ReaderState,
    around: Seq<OpenTag>,
    carry: Seq<OpenTag>,
    tag: TagModel,
) -> ReaderState {
    behind(
        s,
        tree_bytes(tag).len(),
        around + tree_left(s.buffered_ids, tag, s.offset as nat),
        s.queue + unwound(carry, 0) + tree_seen(s.buffered_ids, tag, s.offset as nat),
    )
}

/// The state of the iterator `s` behind the trees of `tags` from the
/// `from`-th on, the first of which stood at its place.
pub open spec fn behind_forest(
    s: ReaderState,
    around: Seq<OpenTag>,
    carry: Seq<OpenTag>,
    tags: Seq<TagModel>,
    from: nat,
) -> ReaderState {
    behind(
        s,
        forest_bytes(tags, from).len(),
        around + forest_left(s.buffered_ids, tags, from, s.offset as nat, carry),
        s.queue + forest_seen(s.buffered_ids, tags, from, s.offset as nat, carry),
    )
}

/// Whether the state `r` is one on the way through trees: the open tags
/// `around` are open, outermost, and what is ready in it is the beginning
/// of `all`.
pub open spec fn is_within(r: ReaderState, around: Seq<OpenTag>, all: Seq<Emission>) -> bool {
    &&& r.wf()
    &&& r.stack.len() >= around.len()
    &&& r.stack.subrange(0, around.len() as int) == around
    &&& r.queue.len() <= all.len()
    &&& r.queue == all.subrange(0, r.queue.len() as int)
}

/// A state within open tags is within the outer ones of them.
pub proof fn lemma_within_outer(r: ReaderState, around: Seq<OpenTag>, entry: OpenTag, all: Seq<Emission>)
    requires
        is_within(r, around.push(entry), all),
    ensures
        is_within(r, around, all),
        r.stack.len() > around.len(),
        r.stack[around.len() as int] == entry,
{
    let inner = around.push(entry);
    assert(r.stack.subrange(0, around.len() as int) =~= r.stack.subrange(
        0,
        inner.len() as int,
    ).subrange(0, around.len() as int));
    assert(inner.subrange(0, around.len() as int) =~= around);
    assert(r.stack[around.len() as int] == r.stack.subrange(0, inner.len() as int)[around.len() as int]);
}

/// A state on the way through trees is on the way through more trees that
/// follow them.
pub proof fn lemma_within_longer(r: ReaderState, around: Seq<OpenTag>, shorter: Seq<Emission>, longer: Seq<Emission>)
    requires
        is_within(r, around, shorter),
        shorter.len() <= longer.len(),
        shorter == longer.subrange(0, shorter.len() as int),
    ensures
        is_within(r, around, longer),
{
    assert(r.queue =~= longer.subrange(0, r.queue.len() as int)) by {
        assert forall|k: int| 0 <= k < r.queue.len() implies r.queue[k] == longer[k] by {
            assert(r.queue[k] == shorter.subrange(0, r.queue.len() as int)[k]);
            assert(shorter[k] == longer.subrange(0, shorter.len() as int)[k]);
        }
    }
}

/// On the way through trees for which no stop is made ready, nothing that
/// is ready behind what was ready before them is a stop.
pub proof fn lemma_within_is_quiet(
    r: ReaderState,
    around: Seq<OpenTag>,
    before: Seq<Emission>,
    seen: Seq<Emission>,
    id: u64,
)
    requires
        is_within(r, around, before + seen),
        holds_no_stop(seen, id),
    ensures
        is_quiet(r, id, before.len()),
{
    assert forall|k: int| before.len() <= k < r.queue.len() implies !is_stop(
        #[trigger] r.queue[k],
        id,
    ) by {
        assert(r.queue[k] == (before + seen).subrange(0, r.queue.len() as int)[k]);
        assert((before + seen)[k] == seen[k - before.len()]);
    }
}

/// The state behind a run of trees is the state behind the trees after the
/// first, read from the state behind the first.
pub proof fn lemma_behind_first(
    s: ReaderState,
    around: Seq<OpenTag>,
    carry: Seq<OpenTag>,
    tags: Seq<TagModel>,
    from: nat,
)
    requires
        from < tags.len(),
        s.offset + forest_bytes(tags, from).len() <= usize::MAX,
    ensures
        behind_forest(
            behind_tree(s, around, carry, tags[from as int]),
            around,
            tree_left(s.buffered_ids, tags[from as int], s.offset as nat),
            tags,
            from + 1,
        ) == behind_forest(s, around, carry, tags, from),
        behind_tree(s, around, carry, tags[from as int]).queue.len() <= behind_forest(
            s,
            around,
            carry,
            tags,
            from,
        ).queue.len(),
        behind_tree(s, around, carry, tags[from as int]).queue == behind_forest(
            s,
            around,
            carry,
            tags,
            from,
        ).queue.subrange(0, behind_tree(s, around, carry, tags[from as int]).queue.len() as int),
{
    let first = tags[from as int];
    let middle = behind_tree(s, around, carry, first);
    let left = tree_left(s.buffered_ids, first, s.offset as nat);
    let last = behind_forest(middle, around, left, tags, from + 1);
    let all = behind_forest(s, around, carry, tags, from);
    assert(forest_bytes(tags, from).len() == tree_bytes(first).len() + forest_bytes(
        tags,
        from + 1,
    ).len());
    assert(middle.offset as nat == s.offset + tree_bytes(first).len());
    assert(last.queue =~= all.queue);
    assert(last.stack == all.stack);
    assert(middle.queue =~= all.queue.subrange(0, middle.queue.len() as int));
}

/// A plain primitive is read from its bytes by reading on once: see
/// [`lemma_tree_is_read`].
pub proof fn lemma_primitive_is_read<T: EbmlSpecification>(
    s: ReaderState,
    around: Seq<OpenTag>,
    carry: Seq<OpenTag>,
    tag: TagModel,
    tail: Seq<u8>,
    more: nat,
    within: nat,
)
    requires
        is_plain_tree::<T>(tag),
        !(tag.data is Master),
        fits_under::<T>(s, tag.id, around),
        stands_before(s, around, carry, tree_bytes(tag).len()),
        s.rest() == tree_bytes(tag) + tail,
        more >= 1,
    ensures
        ran::<T>(s, tree_steps(s.buffered_ids, tag) + more) == ran::<T>(
            behind_tree(s, around, carry, tag),
            more,
        ),
        stands_before(
            behind_tree(s, around, carry, tag),
            around,
            tree_left(s.buffered_ids, tag, s.offset as nat),
            0,
        ),
        within <= tree_steps(s.buffered_ids, tag) ==> is_within(
            ran::<T>(s, within),
            around,
            behind_tree(s, around, carry, tag).queue,
        ),
{
    lemma_primitive_step::<T>(s, around, carry, tag, tail);
    let next = s.advanced::<T>();
    let last = behind_tree(s, around, carry, tag);
    assert(around + Seq::<OpenTag>::empty() =~= around);
    assert((around + carry).subrange(0, around.len() as int) =~= around);
    assert(around.subrange(0, around.len() as int) =~= around);
    assert(next.queue =~= last.queue);
    assert(next == last);
    assert(ran::<T>(s, 1) == ran::<T>(next, 0));
    lemma_stands_behind(s, next, around, Seq::empty(), tree_bytes(tag).len());
    assert(last.queue.subrange(0, s.queue.len() as int) =~= s.queue);
    assert(last.queue.subrange(0, last.queue.len() as int) =~= last.queue);
}

/// An iterator reads a plain tree that passes its checks and holds from the
/// bytes of the tree, whatever follows them. Reading on as many times as
/// the tree has steps, and then `more` times, is reading on `more` times
/// behind the tree, where the tags of the tree are ready in their order,
/// the master tags that are given out whole as full tags, each with the
/// place where it starts, but for the ends of the master tags that end with
/// the tree, which are left open. On the way, after `within` times, what is
/// ready is a beginning of that.
pub proof fn lemma_tree_is_read<T: EbmlSpecification>(
    s: ReaderState,
    around: Seq<OpenTag>,
    carry: Seq<OpenTag>,
    tag: TagModel,
    tail: Seq<u8>,
    more: nat,
    within: nat,
)
    requires
        is_plain_tree::<T>(tag),
        conforms_tree::<T>(s, tag, around, s.offset as nat),
        tree_holds::<T>(s.buffered_ids, tag),
        stands_before(s, around, carry, tree_bytes(tag).len()),
        s.rest() == tree_bytes(tag) + tail,
        more >= 1,
    ensures
        ran::<T>(s, tree_steps(s.buffered_ids, tag) + more) == ran::<T>(
            behind_tree(s, around, carry, tag),
            more,
        ),
        stands_before(
            behind_tree(s, around, carry, tag),
            around,
            tree_left(s.buffered_ids, tag, s.offset as nat),
            0,
        ),
        within <= tree_steps(s.buffered_ids, tag) ==> is_within(
            ran::<T>(s, within),
            around,
            behind_tree(s, around, carry, tag).queue,
        ),
    decreases tag, 2nat,
{
    match tag.data {
        DataModel::Master(MasterModel::Full(children)) => {
            if s.buffered_ids.contains(tag.id) {
                lemma_whole_is_read::<T>(s, around, carry, tag, tail, more, within);
            } else {
                lemma_master_is_read::<T>(s, around, carry, tag, tail, more, within);
            }
        },
        DataModel::Master(_) => {},
        _ => {
            lemma_primitive_is_read::<T>(s, around, carry, tag, tail, more, within);
        },
    }
}

/// Where a plain master tag that is not given out whole stands at the
/// place, the iterator stands before its children after reading on once.
pub proof fn lemma_children_stand<T: EbmlSpecification>(
    s: ReaderState,
    around: Seq<OpenTag>,
    carry: Seq<OpenTag>,
    tag: TagModel,
    tail: Seq<u8>,
)
    requires
        is_plain_tree::<T>(tag),
        tag.data is Master,
        !s.buffered_ids.contains(tag.id),
        conforms_tree::<T>(s, tag, around, s.offset as nat),
        tree_holds::<T>(s.buffered_ids, tag),
        stands_before(s, around, carry, tree_bytes(tag).len()),
        s.rest() == tree_bytes(tag) + tail,
    ensures
        s.advanced::<T>() == opened_at(s, around, carry, tag).enqueue(
            ready(start_of(tag.id), s.offset as nat),
        ),
        s.advanced::<T>().buffered_ids == s.buffered_ids,
        is_plain_forest::<T>(tag.data->Master_0->Full_0, 0),
        forest_holds::<T>(s.buffered_ids, tag.data->Master_0->Full_0, 0),
        conforms_forest::<T>(
            s.advanced::<T>(),
            tag.data->Master_0->Full_0,
            0,
            around.push(open_master(tag, s.offset as nat)),
            s.advanced::<T>().offset as nat,
        ),
        stands_before(
            s.advanced::<T>(),
            around.push(open_master(tag, s.offset as nat)),
            Seq::empty(),
            forest_bytes(tag.data->Master_0->Full_0, 0).len(),
        ),
        s.advanced::<T>().rest() == forest_bytes(tag.data->Master_0->Full_0, 0) + tail,
{
    let children = tag.data->Master_0->Full_0;
    lemma_tree_bytes_len::<T>(tag);
    lemma_master_step::<T>(s, around, carry, tag, tail);
    let next = s.advanced::<T>();
    let inner = around.push(open_master(tag, s.offset as nat));
    let base = (s.offset + master_header_len(tag)) as nat;
    assert(next.offset as nat == base);
    assert(conforms_forest::<T>(s, children, 0, inner, base));
    lemma_conforms_same_settings::<T>(s, next, children, 0, inner, base);
}

/// The state behind the children of a master tag that is not given out
/// whole is the state behind the tag.
pub proof fn lemma_master_is_behind<T: EbmlSpecification>(
    s: ReaderState,
    around: Seq<OpenTag>,
    carry: Seq<OpenTag>,
    tag: TagModel,
    next: ReaderState,
)
    requires
        is_plain_tree::<T>(tag),
        tag.data is Master,
        !s.buffered_ids.contains(tag.id),
        stands_before(s, around, carry, tree_bytes(tag).len()),
        next == opened_at(s, around, carry, tag).enqueue(ready(start_of(tag.id), s.offset as nat)),
        stands_before(
            behind_forest(
                next,
                around.push(open_master(tag, s.offset as nat)),
                Seq::empty(),
                tag.data->Master_0->Full_0,
                0,
            ),
            around.push(open_master(tag, s.offset as nat)),
            forest_left(
                s.buffered_ids,
                tag.data->Master_0->Full_0,
                0,
                next.offset as nat,
                Seq::empty(),
            ),
            0,
        ),
    ensures
        behind_forest(
            next,
            around.push(open_master(tag, s.offset as nat)),
            Seq::empty(),
            tag.data->Master_0->Full_0,
            0,
        ) == behind_tree(s, around, carry, tag),
        stands_before(
            behind_tree(s, around, carry, tag),
            around,
            tree_left(s.buffered_ids, tag, s.offset as nat),
            0,
        ),
        is_within(s, around, behind_tree(s, around, carry, tag).queue),
{
    let whole = s.buffered_ids;
    let children = tag.data->Master_0->Full_0;
    lemma_tree_bytes_len::<T>(tag);
    let entry = open_master(tag, s.offset as nat);
    let inner = around.push(entry);
    let last = behind_forest(next, inner, Seq::empty(), children, 0);
    let left = forest_left(whole, children, 0, next.offset as nat, Seq::empty());
    let seen = forest_seen(whole, children, 0, next.offset as nat, Seq::empty());
    let start = ready(start_of(tag.id), s.offset as nat);
    assert(ends_at(entry, s.offset + tree_bytes(tag).len()));
    lemma_master_is_closed(
        s,
        next,
        last,
        around,
        entry,
        left,
        unwound(carry, 0),
        start,
        seen,
        master_header_len(tag),
        forest_bytes(children, 0).len(),
    );
    assert(last == behind_tree(s, around, carry, tag));
    assert(last.queue.subrange(0, s.queue.len() as int) =~= s.queue);
    assert((around + carry).subrange(0, around.len() as int) =~= around);
}

/// A plain master tag that is not given out whole is read from its bytes:
/// see [`lemma_tree_is_read`].
#[verifier::rlimit(100)]
pub proof fn lemma_master_is_read<T: EbmlSpecification>(
    s: ReaderState,
    around: Seq<OpenTag>,
    carry: Seq<OpenTag>,
    tag: TagModel,
    tail: Seq<u8>,
    more: nat,
    within: nat,
)
    requires
        is_plain_tree::<T>(tag),
        tag.data is Master,
        !s.buffered_ids.contains(tag.id),
        conforms_tree::<T>(s, tag, around, s.offset as nat),
        tree_holds::<T>(s.buffered_ids, tag),
        stands_before(s, around, carry, tree_bytes(tag).len()),
        s.rest() == tree_bytes(tag) + tail,
        more >= 1,
    ensures
        ran::<T>(s, tree_steps(s.buffered_ids, tag) + more) == ran::<T>(
            behind_tree(s, around, carry, tag),
            more,
        ),
        stands_before(
            behind_tree(s, around, carry, tag),
            around,
            tree_left(s.buffered_ids, tag, s.offset as nat),
            0,
        ),
        within <= tree_steps(s.buffered_ids, tag) ==> is_within(
            ran::<T>(s, within),
            around,
            behind_tree(s, around, carry, tag).queue,
        ),
    decreases tag, 1nat,
{
    let children = tag.data->Master_0->Full_0;
    lemma_children_stand::<T>(s, around, carry, tag, tail);
    let next = s.advanced::<T>();
    let inner = around.push(open_master(tag, s.offset as nat));
    let steps = forest_steps(s.buffered_ids, children, 0);
    assert(tree_steps(s.buffered_ids, tag) == 1 + steps);
    let inside: nat = if 1 <= within <= 1 + steps {
        (within - 1) as nat
    } else {
        0
    };
    lemma_forest_is_read::<T>(next, inner, Seq::empty(), children, 0, tail, more, inside);
    lemma_master_is_behind::<T>(s, around, carry, tag, next);
    assert(ran::<T>(s, 1 + steps + more) == ran::<T>(next, steps + more));
    if 1 <= within <= 1 + steps {
        assert(ran::<T>(s, within) == ran::<T>(next, inside));
        lemma_within_outer(
            ran::<T>(next, inside),
            around,
            open_master(tag, s.offset as nat),
            behind_tree(s, around, carry, tag).queue,
        );
    }
}

/// The children of a master tag that is given out whole are made whole
/// again from what is given out for them, which holds no stop of the search
/// for the end of the tag.
pub proof fn lemma_whole_children_roll<T: EbmlSpecification>(
    whole: Set<u64>,
    tag: TagModel,
    base: nat,
)
    requires
        is_plain_tree::<T>(tag),
        tag.data is Master,
        whole.contains(tag.id),
        tree_holds::<T>(whole, tag),
    ensures
        holds_no_stop(forest_given(whole, tag.data->Master_0->Full_0, 0, base), tag.id),
        holds_no_stop(
            forest_seen(whole, tag.data->Master_0->Full_0, 0, base, Seq::empty()),
            tag.id,
        ),
        rolled::<T>(
            tag.id,
            tags_of(forest_given(whole, tag.data->Master_0->Full_0, 0, base)),
        ) == Ok::<TagModel, u64>(tag),
        forest_seen(whole, tag.data->Master_0->Full_0, 0, base, Seq::empty()) + unwound(
            forest_left(whole, tag.data->Master_0->Full_0, 0, base, Seq::empty()),
            0,
        ) == forest_given(whole, tag.data->Master_0->Full_0, 0, base),
{
    let children = tag.data->Master_0->Full_0;
    let given = forest_given(whole, children, 0, base);
    lemma_forest_seen_completes(whole, children, 0, base, Seq::empty());
    assert(unwound(Seq::<OpenTag>::empty(), 0) =~= Seq::<Emission>::empty());
    assert(Seq::<Emission>::empty() + given =~= given);
    lemma_no_ends_of_whole::<T>(whole, children, 0, tag.id);
    lemma_forest_no_stop(whole, children, 0, base, Seq::empty(), tag.id);
    lemma_forest_rolls::<T>(whole, children, 0, base);
    assert(children.subrange(0, children.len() as int) =~= children);
}

/// Reading on at a master tag that is given out whole is reading on behind
/// it, with the full tag ready, where the children of the tag are read as
/// [`lemma_forest_is_read`] says.
#[verifier::rlimit(100)]
pub proof fn lemma_whole_is_collected<T: EbmlSpecification>(
    s: ReaderState,
    around: Seq<OpenTag>,
    carry: Seq<OpenTag>,
    tag: TagModel,
    tail: Seq<u8>,
)
    requires
        is_plain_tree::<T>(tag),
        tag.data is Master,
        s.buffered_ids.contains(tag.id),
        fits_under::<T>(s, tag.id, around),
        tree_holds::<T>(s.buffered_ids, tag),
        stands_before(s, around, carry, tree_bytes(tag).len()),
        s.rest() == tree_bytes(tag) + tail,
        ({
            let opened = opened_at(s, around, carry, tag);
            let inner = around.push(open_master(tag, s.offset as nat));
            let children = tag.data->Master_0->Full_0;
            let last = behind_forest(opened, inner, Seq::empty(), children, 0);
            let steps = forest_steps(s.buffered_ids, children, 0);
            &&& ran::<T>(opened, steps + 1) == ran::<T>(last, 1)
            &&& stands_before(
                last,
                inner,
                forest_left(s.buffered_ids, children, 0, opened.offset as nat, Seq::empty()),
                0,
            )
            &&& forall|j: nat|
                1 <= j <= steps ==> is_within(#[trigger] ran::<T>(opened, j), inner, last.queue)
        }),
    ensures
        s.advanced::<T>() == behind_tree(s, around, carry, tag).advanced::<T>(),
        stands_before(behind_tree(s, around, carry, tag), around, Seq::empty(), 0),
{
    let whole = s.buffered_ids;
    let children = tag.data->Master_0->Full_0;
    lemma_tree_bytes_len::<T>(tag);
    lemma_whole_master_opens::<T>(s, around, carry, tag, tail);
    let opened = opened_at(s, around, carry, tag);
    let entry = open_master(tag, s.offset as nat);
    let inner = around.push(entry);
    let before = s.queue + unwound(carry, 0);
    let base = opened.offset as nat;
    let steps = forest_steps(whole, children, 0);
    let last = behind_forest(opened, inner, Seq::empty(), children, 0);
    let left = forest_left(whole, children, 0, base, Seq::empty());
    let seen = forest_seen(whole, children, 0, base, Seq::empty());
    let given = forest_given(whole, children, 0, base);
    assert(ran::<T>(last, 1) == ran::<T>(last.advanced::<T>(), 0));
    lemma_whole_children_roll::<T>(whole, tag, base);
    assert(inner + left =~= around + (seq![entry] + left));
    lemma_whole_master_closes::<T>(last, around, before, entry, left, seen, given, tag);
    assert(last.queue == before + seen);
    assert forall|j: nat| 1 <= j <= steps implies is_quiet(
        #[trigger] ran::<T>(opened, j),
        tag.id,
        before.len(),
    ) && holds_read(ran::<T>(opened, j).stack) by {
        lemma_within_is_quiet(ran::<T>(opened, j), inner, before, seen, tag.id);
        lemma_within_outer(ran::<T>(opened, j), around, entry, last.queue);
        assert(!crate::reader_state::is_assumed(entry));
    }
    lemma_buffered_runs::<T>(
        opened,
        tag.id,
        s.offset,
        before.len(),
        steps,
        before.len() + given.len(),
    );
    let after = behind_tree(s, around, carry, tag);
    assert(around + Seq::<OpenTag>::empty() =~= around);
    assert(after == (ReaderState {
        stack: around,
        queue: before + seq![
            Ok::<(TagModel, usize), crate::error::ReadFault>((tag, entry.tag_start)),
        ],
        ..last
    }));
    lemma_stands_behind(s, after, around, Seq::empty(), tree_bytes(tag).len());
}

/// A plain master tag that is given out whole is read from its bytes
/// together with what follows it: see [`lemma_tree_is_read`].
#[verifier::rlimit(100)]
pub proof fn lemma_whole_is_read<T: EbmlSpecification>(
    s: ReaderState,
    around: Seq<OpenTag>,
    carry: Seq<OpenTag>,
    tag: TagModel,
    tail: Seq<u8>,
    more: nat,
    within: nat,
)
    requires
        is_plain_tree::<T>(tag),
        tag.data is Master,
        s.buffered_ids.contains(tag.id),
        conforms_tree::<T>(s, tag, around, s.offset as nat),
        tree_holds::<T>(s.buffered_ids, tag),
        stands_before(s, around, carry, tree_bytes(tag).len()),
        s.rest() == tree_bytes(tag) + tail,
        more >= 1,
    ensures
        ran::<T>(s, tree_steps(s.buffered_ids, tag) + more) == ran::<T>(
            behind_tree(s, around, carry, tag),
            more,
        ),
        stands_before(
            behind_tree(s, around, carry, tag),
            around,
            tree_left(s.buffered_ids, tag, s.offset as nat),
            0,
        ),
        within <= tree_steps(s.buffered_ids, tag) ==> is_within(
            ran::<T>(s, within),
            around,
            behind_tree(s, around, carry, tag).queue,
        ),
    decreases tag, 1nat,
{
    let children = tag.data->Master_0->Full_0;
    lemma_tree_bytes_len::<T>(tag);
    lemma_whole_master_opens::<T>(s, around, carry, tag, tail);
    let opened = opened_at(s, around, carry, tag);
    let inner = around.push(open_master(tag, s.offset as nat));
    let base = (s.offset + master_header_len(tag)) as nat;
    assert(opened.offset as nat == base);
    assert(conforms_forest::<T>(s, children, 0, inner, base));
    lemma_conforms_same_settings::<T>(s, opened, children, 0, inner, base);
    assert(forest_holds::<T>(s.buffered_ids, children, 0));
    assert(is_plain_forest::<T>(children, 0));
    let steps = forest_steps(s.buffered_ids, children, 0);
    lemma_forest_is_read::<T>(opened, inner, Seq::empty(), children, 0, tail, 1, 0);
    let last = behind_forest(opened, inner, Seq::empty(), children, 0);
    assert forall|j: nat| 1 <= j <= steps implies is_within(
        #[trigger] ran::<T>(opened, j),
        inner,
        last.queue,
    ) by {
        lemma_forest_is_read::<T>(opened, inner, Seq::empty(), children, 0, tail, 1, j);
    }
    lemma_whole_is_collected::<T>(s, around, carry, tag, tail);
    let after = behind_tree(s, around, carry, tag);
    assert(ran::<T>(s, more) == ran::<T>(s.advanced::<T>(), (more - 1) as nat));
    assert(ran::<T>(after, more) == ran::<T>(after.advanced::<T>(), (more - 1) as nat));
    if within == 0 {
        assert(after.queue.subrange(0, s.queue.len() as int) =~= s.queue);
        assert((around + carry).subrange(0, around.len() as int) =~= around);
    }
}

/// Where a run of plain trees stands at the place, the first of them does.
pub proof fn lemma_first_stands<T: EbmlSpecification>(
    s: ReaderState,
    around: Seq<OpenTag>,
    carry: Seq<OpenTag>,
    tags: Seq<TagModel>,
    from: nat,
    tail: Seq<u8>,
)
    requires
        from < tags.len(),
        is_plain_forest::<T>(tags, from),
        conforms_forest::<T>(s, tags, from, around, s.offset as nat),
        forest_holds::<T>(s.buffered_ids, tags, from),
        stands_before(s, around, carry, forest_bytes(tags, from).len()),
        s.rest() == forest_bytes(tags, from) + tail,
    ensures
        is_plain_tree::<T>(tags[from as int]),
        conforms_tree::<T>(s, tags[from as int], around, s.offset as nat),
        tree_holds::<T>(s.buffered_ids, tags[from as int]),
        stands_before(s, around, carry, tree_bytes(tags[from as int]).len()),
        s.rest() == tree_bytes(tags[from as int]) + (forest_bytes(tags, from + 1) + tail),
{
    let first = tags[from as int];
    let rest_bytes = forest_bytes(tags, from + 1);
    assert(s.rest() =~= tree_bytes(first) + (rest_bytes + tail));
    assert forall|i: int| 0 <= i < around.len() implies outlasts(
        #[trigger] around[i],
        s.offset + tree_bytes(first).len(),
    ) by {
        assert(outlasts(around[i], s.offset + forest_bytes(tags, from).len()));
    }
}

/// Where a run of plain trees stood at the place, the trees after the first
/// stand at the place behind the first.
pub proof fn lemma_rest_stands<T: EbmlSpecification>(
    s: ReaderState,
    around: Seq<OpenTag>,
    carry: Seq<OpenTag>,
    tags: Seq<TagModel>,
    from: nat,
    tail: Seq<u8>,
)
    requires
        from < tags.len(),
        is_plain_forest::<T>(tags, from),
        conforms_forest::<T>(s, tags, from, around, s.offset as nat),
        forest_holds::<T>(s.buffered_ids, tags, from),
        stands_before(s, around, carry, forest_bytes(tags, from).len()),
        s.rest() == forest_bytes(tags, from) + tail,
        stands_before(
            behind_tree(s, around, carry, tags[from as int]),
            around,
            tree_left(s.buffered_ids, tags[from as int], s.offset as nat),
            0,
        ),
    ensures
        is_plain_forest::<T>(tags, from + 1),
        forest_holds::<T>(s.buffered_ids, tags, from + 1),
        conforms_forest::<T>(
            behind_tree(s, around, carry, tags[from as int]),
            tags,
            from + 1,
            around,
            behind_tree(s, around, carry, tags[from as int]).offset as nat,
        ),
        stands_before(
            behind_tree(s, around, carry, tags[from as int]),
            around,
            tree_left(s.buffered_ids, tags[from as int], s.offset as nat),
            forest_bytes(tags, from + 1).len(),
        ),
        behind_tree(s, around, carry, tags[from as int]).rest() == forest_bytes(tags, from + 1)
            + tail,
{
    let first = tags[from as int];
    let rest_bytes = forest_bytes(tags, from + 1);
    let middle = behind_tree(s, around, carry, first);
    assert(s.rest() =~= tree_bytes(first) + (rest_bytes + tail));
    assert(middle.offset as nat == s.offset + tree_bytes(first).len());
    lemma_rest_behind(s, middle, tree_bytes(first), rest_bytes + tail);
    assert forall|i: int| 0 <= i < around.len() implies outlasts(
        #[trigger] around[i],
        middle.offset + rest_bytes.len(),
    ) by {
        assert(outlasts(around[i], s.offset + forest_bytes(tags, from).len()));
    }
    lemma_conforms_same_settings::<T>(
        s,
        middle,
        tags,
        from + 1,
        around,
        (s.offset + tree_bytes(first).len()) as nat,
    );
}

/// An iterator reads a run of plain trees that pass its checks and hold
/// from their bytes, whatever follows them: see [`lemma_tree_is_read`].
#[verifier::rlimit(100)]
pub proof fn lemma_forest_is_read<T: EbmlSpecification>(
    s: ReaderState,
    around: Seq<OpenTag>,
    carry: Seq<OpenTag>,
    tags: Seq<TagModel>,
    from: nat,
    tail: Seq<u8>,
    more: nat,
    within: nat,
)
    requires
        is_plain_forest::<T>(tags, from),
        conforms_forest::<T>(s, tags, from, around, s.offset as nat),
        forest_holds::<T>(s.buffered_ids, tags, from),
        stands_before(s, around, carry, forest_bytes(tags, from).len()),
        s.rest() == forest_bytes(tags, from) + tail,
        more >= 1,
    ensures
        ran::<T>(s, forest_steps(s.buffered_ids, tags, from) + more) == ran::<T>(
            behind_forest(s, around, carry, tags, from),
            more,
        ),
        stands_before(
            behind_forest(s, around, carry, tags, from),
            around,
            forest_left(s.buffered_ids, tags, from, s.offset as nat, carry),
            0,
        ),
        within <= forest_steps(s.buffered_ids, tags, from) ==> is_within(
            ran::<T>(s, within),
            around,
            behind_forest(s, around, carry, tags, from).queue,
        ),
    decreases tags, tags.len() - from,
{
    let whole = s.buffered_ids;
    let all = behind_forest(s, around, carry, tags, from);
    if from >= tags.len() {
        assert(s.queue + Seq::<Emission>::empty() =~= s.queue);
        assert(all == s);
        assert(s.queue.subrange(0, s.queue.len() as int) =~= s.queue);
        assert((around + carry).subrange(0, around.len() as int) =~= around);
    } else {
        let first = tags[from as int];
        let tail_of_first = forest_bytes(tags, from + 1) + tail;
        let first_steps = tree_steps(whole, first);
        let rest_steps = forest_steps(whole, tags, from + 1);
        assert(first_steps + (rest_steps + more) == forest_steps(whole, tags, from) + more);
        lemma_first_stands::<T>(s, around, carry, tags, from, tail);
        lemma_tree_is_read::<T>(s, around, carry, first, tail_of_first, rest_steps + more, within);
        let middle = behind_tree(s, around, carry, first);
        let left = tree_left(whole, first, s.offset as nat);
        lemma_rest_stands::<T>(s, around, carry, tags, from, tail);
        let later: nat = if first_steps < within <= first_steps + rest_steps {
            (within - first_steps) as nat
        } else {
            0
        };
        lemma_forest_is_read::<T>(middle, around, left, tags, from + 1, tail, more, later);
        lemma_behind_first(s, around, carry, tags, from);
        if within <= first_steps + rest_steps {
            if within <= first_steps {
                lemma_within_longer(ran::<T>(s, within), around, middle.queue, all.queue);
            } else {
                lemma_tree_is_read::<T>(s, around, carry, first, tail_of_first, later, 0);
                assert(ran::<T>(s, within) == ran::<T>(middle, later));
            }
        }
    }
}

/// What is given out for a plain tree is well nested: each end that is
/// given out closes the master tag that was opened last and is still open,
/// and the master tags that were open before the tree are open behind it.
pub proof fn lemma_tree_given_is_nested<T: EbmlSpecification>(
    whole: Set<u64>,
    tag: TagModel,
    base: nat,
    open: Seq<u64>,
)
    requires
        is_plain_tree::<T>(tag),
    ensures
        nesting_after(open, tree_given(whole, tag, base)) == Some(open),
    decreases tag, 0nat,
{
    let given = tree_given(whole, tag, base);
    let none = Seq::<Emission>::empty();
    match tag.data {
        DataModel::Master(MasterModel::Full(children)) => {
            if whole.contains(tag.id) {
                assert(given.drop_last() =~= none);
                assert(nesting_after(open, none) == Some(open));
            } else {
                let start = seq![ready(start_of(tag.id), base)];
                let inner = forest_given(whole, children, 0, base + master_header_len(tag));
                let end = seq![ready(end_of(tag.id), base)];
                assert(start.drop_last() =~= none);
                assert(end.drop_last() =~= none);
                assert(nesting_after(open, none) == Some(open));
                assert(nesting_after(open, start) == Some(open.push(tag.id)));
                lemma_forest_given_is_nested::<T>(
                    whole,
                    children,
                    0,
                    base + master_header_len(tag),
                    open.push(tag.id),
                );
                lemma_nesting_concat(open, start, inner);
                lemma_nesting_concat(open, start + inner, end);
                assert(nesting_after(open.push(tag.id), none) == Some(open.push(tag.id)));
                assert(open.push(tag.id).drop_last() =~= open);
            }
        },
        DataModel::Master(_) => {},
        _ => {
            assert(given.drop_last() =~= none);
            assert(nesting_after(open, none) == Some(open));
        },
    }
}

/// What is given out for a run of plain trees is well nested: see
/// [`lemma_tree_given_is_nested`].
pub proof fn lemma_forest_given_is_nested<T: EbmlSpecification>(
    whole: Set<u64>,
    tags: Seq<TagModel>,
    from: nat,
    base: nat,
    open: Seq<u64>,
)
    requires
        is_plain_forest::<T>(tags, from),
    ensures
        nesting_after(open, forest_given(whole, tags, from, base)) == Some(open),
    decreases tags, tags.len() - from,
{
    if from < tags.len() {
        let first = tags[from as int];
        lemma_tree_given_is_nested::<T>(whole, first, base, open);
        lemma_forest_given_is_nested::<T>(
            whole,
            tags,
            from + 1,
            base + tree_bytes(first).len(),
            open,
        );
        lemma_nesting_concat(
            open,
            tree_given(whole, first, base),
            forest_given(whole, tags, from + 1, base + tree_bytes(first).len()),
        );
    }
}

/// The state of the writer after `bytes` were written: they are added to
/// the bytes that wait, which go to the destination unless an open tag
/// still waits for its header.
pub open spec fn put(w: WriterState, bytes: Seq<u8>) -> WriterState {
    w.append(bytes).settled()
}

/// Whether the writer is in order between two writes: no bytes wait unless
/// an open tag waits for its header.
pub open spec fn is_clear(w: WriterState) -> bool {
    w.wf() && (w.has_pending_header() || w.working_buffer.len() == 0)
}

/// Writing bytes in two parts is writing them at once.
pub proof fn lemma_put_twice(w: WriterState, a: Seq<u8>, b: Seq<u8>)
    requires
        is_clear(w),
    ensures
        put(put(w, a), b) == put(w, a + b),
        is_clear(put(w, a)),
        put(w, a).working_buffer.len() <= w.working_buffer.len() + a.len(),
{
    let first = w.append(a);
    assert(first.open_tags == w.open_tags);
    assert forall|i: int| 0 <= i < first.open_tags.len() implies ((
    #[trigger] first.open_tags[i]).1 matches EBMLSize::Known(start) ==> start
        <= first.working_buffer.len()) by {
        assert(first.open_tags[i] == w.open_tags[i]);
    }
    if w.has_pending_header() {
        let witness = choose|i: int|
            0 <= i < w.open_tags.len() && (#[trigger] w.open_tags[i]).1 is Known;
        assert(first.open_tags[witness].1 is Known);
        assert(first.append(b).open_tags[witness].1 is Known);
        assert(w.append(a + b).open_tags[witness].1 is Known);
        assert(first.append(b).working_buffer =~= w.append(a + b).working_buffer);
    } else {
        assert(!first.has_pending_header());
        let mid = first.drained();
        assert(!mid.has_pending_header());
        assert(!mid.append(b).has_pending_header());
        assert(!w.append(a + b).has_pending_header());
        assert(mid.append(b).drained().dest =~= w.append(a + b).drained().dest);
        assert forall|i: int| 0 <= i < mid.open_tags.len() implies !((
        #[trigger] mid.open_tags[i]).1 is Known) by {
            assert(w.open_tags[i] == mid.open_tags[i]);
        }
    }
}

/// Writing tags that stand behind others is writing them alone.
pub proof fn lemma_wrote_all_later<T: EbmlSpecification>(
    w: WriterState,
    a: Seq<TagModel>,
    b: Seq<TagModel>,
    from: nat,
)
    ensures
        w.wrote_all::<T>(a + b, a.len() + from) == w.wrote_all::<T>(b, from),
    decreases b.len() - from,
{
    if from < b.len() {
        assert((a + b)[(a.len() + from) as int] == b[from as int]);
        let (next, fault) = w.wrote::<T>(b[from as int]);
        if fault is None {
            lemma_wrote_all_later::<T>(next, a, b, from + 1);
        }
    }
}

/// Writing two runs of tags is writing the first and then, where that went
/// well, the second.
pub proof fn lemma_wrote_all_concat<T: EbmlSpecification>(
    w: WriterState,
    a: Seq<TagModel>,
    b: Seq<TagModel>,
    from: nat,
)
    requires
        from <= a.len(),
    ensures
        w.wrote_all::<T>(a + b, from) == (if w.wrote_all::<T>(a, from).1 is Some {
            w.wrote_all::<T>(a, from)
        } else {
            w.wrote_all::<T>(a, from).0.wrote_all::<T>(b, 0)
        }),
    decreases a.len() - from,
{
    if from < a.len() {
        assert((a + b)[from as int] == a[from as int]);
        let (next, fault) = w.wrote::<T>(a[from as int]);
        if fault is None {
            lemma_wrote_all_concat::<T>(next, a, b, from + 1);
        }
    } else {
        lemma_wrote_all_later::<T>(w, a, b, 0);
    }
}

/// The end of a plain master tag puts its header before its children.
pub proof fn lemma_master_is_ended<T: EbmlSpecification>(w: WriterState, tag: TagModel)
    requires
        w.wf(),
        w.working_buffer.len() + tree_bytes(tag).len() <= usize::MAX,
        is_plain_tree::<T>(tag),
        tag.data is Master,
    ensures
        w.started(tag.id).wf(),
        w.started(tag.id).has_pending_header(),
        w.started(tag.id).append(forest_bytes(tag.data->Master_0->Full_0, 0)).ended(tag.id) == (
            w.append(tree_bytes(tag)),
            None::<crate::error::WriteFault>,
        ),
{
    let children = tag.data->Master_0->Full_0;
    lemma_tree_bytes_len::<T>(tag);
    let opened = w.started(tag.id);
    let frame = (tag.id, EBMLSize::Known(w.working_buffer.len() as usize));
    assert(opened.open_tags.last() == frame);
    assert(opened.has_pending_header());
    assert forall|i: int| 0 <= i < opened.open_tags.len() implies ((
    #[trigger] opened.open_tags[i]).1 matches EBMLSize::Known(start) ==> start
        <= opened.working_buffer.len()) by {
        if i < w.open_tags.len() {
            assert(opened.open_tags[i] == w.open_tags[i]);
        }
    }
    crate::document_laws::lemma_tree_is_dispatched::<T>(w, tag);
    crate::document_laws::lemma_forest_is_written::<T>(opened, children, 0);
}

/// The writer writes what is given out for a plain tree as the bytes of the
/// tree, whether a master tag comes as a full tag or as its start, what is
/// given out for its children, and its end.
pub proof fn lemma_tree_given_is_written<T: EbmlSpecification>(
    w: WriterState,
    whole: Set<u64>,
    tag: TagModel,
    base: nat,
)
    requires
        is_clear(w),
        w.working_buffer.len() + tree_bytes(tag).len() <= usize::MAX,
        is_plain_tree::<T>(tag),
    ensures
        w.wrote_all::<T>(tags_of(tree_given(whole, tag, base)), 0) == (
            put(w, tree_bytes(tag)),
            None::<crate::error::WriteFault>,
        ),
    decreases tag, 0nat,
{
    let given = tags_of(tree_given(whole, tag, base));
    if tag.data is Master && !whole.contains(tag.id) {
        let children = tag.data->Master_0->Full_0;
        let body = forest_bytes(children, 0);
        let inner_base = base + master_header_len(tag);
        let start = seq![start_of(tag.id)];
        let middle = tags_of(forest_given(whole, children, 0, inner_base));
        let end = seq![end_of(tag.id)];
        lemma_tree_bytes_len::<T>(tag);
        lemma_master_is_ended::<T>(w, tag);
        let opened = w.started(tag.id);
        let filled = opened.append(body);
        assert(given =~= start + middle + end);
        assert(opened.settled() == opened);
        assert(w.wrote_all::<T>(start, 0) == (opened, None::<crate::error::WriteFault>)) by {
            assert(w.wrote::<T>(start[0]).0.wrote_all::<T>(start, 1) == (
                opened,
                None::<crate::error::WriteFault>,
            ));
        }
        lemma_forest_given_is_written::<T>(opened, whole, children, 0, inner_base);
        lemma_put_twice(opened, body, Seq::empty());
        assert(put(opened, body) == filled);
        lemma_wrote_all_concat::<T>(w, start, middle, 0);
        assert(filled.wrote_all::<T>(end, 0) == (
            put(w, tree_bytes(tag)),
            None::<crate::error::WriteFault>,
        )) by {
            assert(filled.wrote::<T>(end[0]).0.wrote_all::<T>(end, 1) == (
                put(w, tree_bytes(tag)),
                None::<crate::error::WriteFault>,
            ));
        }
        lemma_wrote_all_concat::<T>(w, start + middle, end, 0);
    } else {
        assert(given =~= seq![tag]);
        crate::document_laws::lemma_tree_is_dispatched::<T>(w, tag);
        assert(w.wrote::<T>(given[0]).0.wrote_all::<T>(given, 1) == (
            put(w, tree_bytes(tag)),
            None::<crate::error::WriteFault>,
        ));
    }
}

/// The writer writes what is given out for a run of plain trees as the
/// bytes of the trees: see [`lemma_tree_given_is_written`].
pub proof fn lemma_forest_given_is_written<T: EbmlSpecification>(
    w: WriterState,
    whole: Set<u64>,
    tags: Seq<TagModel>,
    from: nat,
    base: nat,
)
    requires
        is_clear(w),
        w.working_buffer.len() + forest_bytes(tags, from).len() <= usize::MAX,
        is_plain_forest::<T>(tags, from),
    ensures
        w.wrote_all::<T>(tags_of(forest_given(whole, tags, from, base)), 0) == (
            put(w, forest_bytes(tags, from)),
            None::<crate::error::WriteFault>,
        ),
    decreases tags, tags.len() - from,
{
    let given = tags_of(forest_given(whole, tags, from, base));
    if from >= tags.len() {
        assert(given =~= Seq::<TagModel>::empty());
        assert(w.working_buffer + Seq::<u8>::empty() =~= w.working_buffer);
        assert(w.append(Seq::empty()) == w);
        if !w.has_pending_header() {
            assert(w.dest + w.working_buffer =~= w.dest);
            assert(w.working_buffer =~= Seq::<u8>::empty());
        }
    } else {
        let first = tags[from as int];
        let next_base = base + tree_bytes(first).len();
        let front = tags_of(tree_given(whole, first, base));
        let back = tags_of(forest_given(whole, tags, from + 1, next_base));
        lemma_tags_of_concat(
            tree_given(whole, first, base),
            forest_given(whole, tags, from + 1, next_base),
        );
        assert(forest_bytes(tags, from).len() == tree_bytes(first).len() + forest_bytes(
            tags,
            from + 1,
        ).len());
        lemma_tree_given_is_written::<T>(w, whole, first, base);
        let next = put(w, tree_bytes(first));
        lemma_put_twice(w, tree_bytes(first), forest_bytes(tags, from + 1));
        lemma_forest_given_is_written::<T>(next, whole, tags, from + 1, next_base);
        lemma_wrote_all_concat::<T>(w, front, back, 0);
    }
}

/// Where no master tag is given out whole, every run of trees holds.
pub proof fn lemma_holds_without_whole<T: EbmlSpecification>(tags: Seq<TagModel>, from: nat)
    ensures
        forest_holds::<T>(Set::empty(), tags, from),
    decreases tags, tags.len() - from,
{
    if from < tags.len() {
        let first = tags[from as int];
        lemma_holds_without_whole::<T>(tags, from + 1);
        match first.data {
            DataModel::Master(MasterModel::Full(children)) => {
                lemma_holds_without_whole::<T>(children, 0);
            },
            _ => {},
        }
        assert(tree_holds::<T>(Set::empty(), first));
    }
}

/// An iterator that holds no open tag, that sets no limit to a body and
/// that has looked at the path of a tag before or leaves the path check
/// out, reads a document made of plain trees that pass its checks and hold
/// to its end: one more time reading on than the trees have steps makes
/// ready all that is given out for the trees, in their order, the master
/// tags that are given out whole as full tags, and leaves no tag open.
pub proof fn lemma_document_is_read<T: EbmlSpecification>(s: ReaderState, tags: Seq<TagModel>)
    requires
        s.wf(),
        s.max_allowed_tag_size is None,
        s.has_determined_doc_path || s.allow_hierarchy_problems,
        s.stack.len() == 0,
        is_plain_forest::<T>(tags, 0),
        conforms_forest::<T>(s, tags, 0, Seq::empty(), s.offset as nat),
        forest_holds::<T>(s.buffered_ids, tags, 0),
        s.rest() == forest_bytes(tags, 0),
    ensures
        ran::<T>(s, forest_steps(s.buffered_ids, tags, 0) + 1) == (ReaderState {
            offset: s.data.len() as usize,
            stack: Seq::empty(),
            queue: s.queue + forest_given(s.buffered_ids, tags, 0, s.offset as nat),
            ..s
        }),
{
    let whole = s.buffered_ids;
    let none = Seq::<OpenTag>::empty();
    assert(s.stack =~= none + none);
    assert(s.rest() =~= forest_bytes(tags, 0) + Seq::<u8>::empty());
    assert(s.rest().len() == s.data.len() - s.offset);
    lemma_forest_is_read::<T>(s, none, none, tags, 0, Seq::empty(), 1, 0);
    let middle = behind_forest(s, none, none, tags, 0);
    let left = forest_left(whole, tags, 0, s.offset as nat, none);
    let seen = forest_seen(whole, tags, 0, s.offset as nat, none);
    let given = forest_given(whole, tags, 0, s.offset as nat);
    assert(ran::<T>(middle, 1) == ran::<T>(middle.advanced::<T>(), 0));
    crate::document_laws::lemma_closed_known_carry(middle, none, left);
    let last = middle.advanced::<T>();
    assert(last == middle.closed_known().unwound_all());
    assert(unwound(none, 0) =~= Seq::<Emission>::empty());
    lemma_forest_seen_completes(whole, tags, 0, s.offset as nat, none);
    assert(last.queue =~= s.queue + given) by {
        assert(last.queue =~= s.queue + (seen + unwound(left, 0)));
        assert(Seq::<Emission>::empty() + given =~= given);
    }
    assert(last.stack =~= Seq::empty());
}

/// An iterator that makes every check reads a document from its start: a
/// new iterator, which has not looked at the path of a tag, reads a document
/// made of plain trees that pass its checks and hold, the first of which is
/// a root, to its end, and makes ready all that is given out for the trees,
/// in their order.
pub proof fn lemma_document_is_read_from_start<T: EbmlSpecification>(
    s: ReaderState,
    tags: Seq<TagModel>,
)
    requires
        s.wf(),
        s.max_allowed_tag_size is None,
        !s.allow_hierarchy_problems,
        s.stack.len() == 0,
        tags.len() > 0,
        T::spec_tag_data_type(tags[0].id) is Some,
        T::spec_path_by_id(tags[0].id).len() == 0,
        is_plain_forest::<T>(tags, 0),
        conforms_forest::<T>(s, tags, 0, Seq::empty(), s.offset as nat),
        forest_holds::<T>(s.buffered_ids, tags, 0),
        s.rest() == forest_bytes(tags, 0),
    ensures
        ran::<T>(s, forest_steps(s.buffered_ids, tags, 0) + 1) == (ReaderState {
            offset: s.data.len() as usize,
            stack: Seq::empty(),
            queue: s.queue + forest_given(s.buffered_ids, tags, 0, s.offset as nat),
            has_determined_doc_path: true,
            ..s
        }),
{
    let other = crate::document_laws::settled(s);
    let steps = forest_steps(s.buffered_ids, tags, 0);
    crate::document_laws::lemma_first_look::<T>(s, tags[0], forest_bytes(tags, 1));
    assert(ran::<T>(s, steps + 1) == ran::<T>(s.advanced::<T>(), steps));
    assert(ran::<T>(other, steps + 1) == ran::<T>(other.advanced::<T>(), steps));
    lemma_conforms_same_settings::<T>(s, other, tags, 0, Seq::empty(), s.offset as nat);
    assert(other.rest() == s.rest());
    lemma_document_is_read::<T>(other, tags);
}

/// What is written is read back, whichever master tags the iterator gives
/// out whole. Where the tags of `tags` are plain trees that hold, a writer
/// that starts with nothing writes them as the document that is their
/// bytes, and writes the same document where it is given what the iterator
/// gives out for them. A lenient iterator reads from this document, to its
/// end, what is given out for the tags: each primitive as it was written,
/// each master tag that is given out whole as the full tag that was
/// written, and each other master tag as its start, its children and its
/// end, in the order in which they were written and with the places where
/// they start. Asked for the next tag again and again, the iterator gives
/// out just these, and then nothing.
pub proof fn lemma_round_trip<T: EbmlSpecification>(tags: Seq<TagModel>, r: ReaderState)
    requires
        is_plain_forest::<T>(tags, 0),
        forest_holds::<T>(r.buffered_ids, tags, 0),
        forest_bytes(tags, 0).len() <= usize::MAX,
        r.data == forest_bytes(tags, 0),
        r.offset == 0,
        r.stack.len() == 0,
        r.queue.len() == 0,
        crate::round_trip::is_lenient(r),
    ensures
        (WriterState {
            dest: Seq::empty(),
            open_tags: Seq::empty(),
            working_buffer: Seq::empty(),
        }).wrote_all::<T>(tags, 0) == (
            WriterState {
                dest: forest_bytes(tags, 0),
                open_tags: Seq::empty(),
                working_buffer: Seq::empty(),
            },
            None::<crate::error::WriteFault>,
        ),
        (WriterState {
            dest: Seq::empty(),
            open_tags: Seq::empty(),
            working_buffer: Seq::empty(),
        }).wrote_all::<T>(tags_of(forest_given(r.buffered_ids, tags, 0, 0)), 0) == (
            WriterState {
                dest: forest_bytes(tags, 0),
                open_tags: Seq::empty(),
                working_buffer: Seq::empty(),
            },
            None::<crate::error::WriteFault>,
        ),
        ran::<T>(r, forest_steps(r.buffered_ids, tags, 0) + 1).queue == forest_given(
            r.buffered_ids,
            tags,
            0,
            0,
        ),
        ran::<T>(r, forest_steps(r.buffered_ids, tags, 0) + 1).stack.len() == 0,
        ran::<T>(r, forest_steps(r.buffered_ids, tags, 0) + 1).offset == r.data.len(),
        forall|asks: nat|
            asks >= forest_given(r.buffered_ids, tags, 0, 0).len() ==> #[trigger] asked::<T>(
                r,
                asks,
            ) == forest_given(r.buffered_ids, tags, 0, 0),
{
    let fresh = WriterState {
        dest: Seq::empty(),
        open_tags: Seq::empty(),
        working_buffer: Seq::empty(),
    };
    crate::document_laws::lemma_document_is_written::<T>(fresh, tags, 0);
    assert(fresh.dest + forest_bytes(tags, 0) =~= forest_bytes(tags, 0));
    lemma_forest_given_is_written::<T>(fresh, r.buffered_ids, tags, 0, 0);
    assert(put(fresh, forest_bytes(tags, 0)) == (WriterState {
        dest: forest_bytes(tags, 0),
        open_tags: Seq::empty(),
        working_buffer: Seq::empty(),
    })) by {
        assert(!fresh.append(forest_bytes(tags, 0)).has_pending_header());
        assert(fresh.dest + (fresh.working_buffer + forest_bytes(tags, 0)) =~= forest_bytes(
            tags,
            0,
        ));
    }
    assert(r.rest() =~= forest_bytes(tags, 0));
    crate::document_laws::lemma_lenient_conforms::<T>(r, tags, 0, Seq::empty(), 0);
    lemma_document_is_read::<T>(r, tags);
    assert(r.queue + forest_given(r.buffered_ids, tags, 0, 0) =~= forest_given(
        r.buffered_ids,
        tags,
        0,
        0,
    ));
    assert forall|asks: nat|
        asks >= forest_given(r.buffered_ids, tags, 0, 0).len() implies #[trigger] asked::<T>(
        r,
        asks,
    ) == forest_given(r.buffered_ids, tags, 0, 0) by {
        lemma_asked_is_ran::<T>(r, forest_steps(r.buffered_ids, tags, 0) + 1, asks);
    }
}

/// What is written is read back by an iterator that makes every check,
/// whichever master tags it gives out whole. Where the tags of `tags` are
/// plain trees that pass the checks of the iterator and hold, the first of
/// which is a root, a writer that starts with nothing writes them, or what
/// the iterator gives out for them, as the document that is their bytes,
/// and a new iterator reads from this document, to its end, what is given
/// out for the tags. Asked for the next tag again and again, it gives out
/// just these, and then nothing.
pub proof fn lemma_round_trip_with_checks<T: EbmlSpecification>(
    tags: Seq<TagModel>,
    r: ReaderState,
)
    requires
        is_plain_forest::<T>(tags, 0),
        forest_holds::<T>(r.buffered_ids, tags, 0),
        forest_bytes(tags, 0).len() <= usize::MAX,
        tags.len() > 0,
        T::spec_tag_data_type(tags[0].id) is Some,
        T::spec_path_by_id(tags[0].id).len() == 0,
        conforms_forest::<T>(r, tags, 0, Seq::empty(), 0),
        r.data == forest_bytes(tags, 0),
        r.offset == 0,
        r.stack.len() == 0,
        r.queue.len() == 0,
        r.max_allowed_tag_size is None,
        !r.allow_hierarchy_problems,
    ensures
        (WriterState {
            dest: Seq::empty(),
            open_tags: Seq::empty(),
            working_buffer: Seq::empty(),
        }).wrote_all::<T>(tags, 0) == (
            WriterState {
                dest: forest_bytes(tags, 0),
                open_tags: Seq::empty(),
                working_buffer: Seq::empty(),
            },
            None::<crate::error::WriteFault>,
        ),
        (WriterState {
            dest: Seq::empty(),
            open_tags: Seq::empty(),
            working_buffer: Seq::empty(),
        }).wrote_all::<T>(tags_of(forest_given(r.buffered_ids, tags, 0, 0)), 0) == (
            WriterState {
                dest: forest_bytes(tags, 0),
                open_tags: Seq::empty(),
                working_buffer: Seq::empty(),
            },
            None::<crate::error::WriteFault>,
        ),
        ran::<T>(r, forest_steps(r.buffered_ids, tags, 0) + 1).queue == forest_given(
            r.buffered_ids,
            tags,
            0,
            0,
        ),
        ran::<T>(r, forest_steps(r.buffered_ids, tags, 0) + 1).stack.len() == 0,
        ran::<T>(r, forest_steps(r.buffered_ids, tags, 0) + 1).offset == r.data.len(),
        forall|asks: nat|
            asks >= forest_given(r.buffered_ids, tags, 0, 0).len() ==> #[trigger] asked::<T>(
                r,
                asks,
            ) == forest_given(r.buffered_ids, tags, 0, 0),
{
    let fresh = WriterState {
        dest: Seq::empty(),
        open_tags: Seq::empty(),
        working_buffer: Seq::empty(),
    };
    crate::document_laws::lemma_document_is_written::<T>(fresh, tags, 0);
    assert(fresh.dest + forest_bytes(tags, 0) =~= forest_bytes(tags, 0));
    lemma_forest_given_is_written::<T>(fresh, r.buffered_ids, tags, 0, 0);
    assert(put(fresh, forest_bytes(tags, 0)) == (WriterState {
        dest: forest_bytes(tags, 0),
        open_tags: Seq::empty(),
        working_buffer: Seq::empty(),
    })) by {
        assert(!fresh.append(forest_bytes(tags, 0)).has_pending_header());
        assert(fresh.dest + (fresh.working_buffer + forest_bytes(tags, 0)) =~= forest_bytes(
            tags,
            0,
        ));
    }
    assert(r.rest() =~= forest_bytes(tags, 0));
    lemma_document_is_read_from_start::<T>(r, tags);
    assert(r.queue + forest_given(r.buffered_ids, tags, 0, 0) =~= forest_given(
        r.buffered_ids,
        tags,
        0,
        0,
    ));
    assert forall|asks: nat|
        asks >= forest_given(r.buffered_ids, tags, 0, 0).len() implies #[trigger] asked::<T>(
        r,
        asks,
    ) == forest_given(r.buffered_ids, tags, 0, 0) by {
        lemma_asked_is_ran::<T>(r, forest_steps(r.buffered_ids, tags, 0) + 1, asks);
    }
}

} // verus!
