//! Whole documents: the bytes of a run of tags, that the tag writer writes
//! them, and what a tag iterator does where it reads one tag of them.
use vstd::prelude::*;
use crate::reader_laws::taken_in;
use crate::reader_state::closing;
use crate::reader_state::end_of;
use crate::reader_state::first_ended;
use crate::reader_state::lemma_read_one_moves;
use crate::reader_state::spec_peek_tag_id;
use crate::reader_state::start_of;
use crate::reader_state::unwound;
use crate::reader_state::Emission;
use crate::reader_state::OpenTag;
use crate::reader_state::ReaderState;
use crate::round_trip::framed;
use crate::round_trip::is_lenient;
use crate::round_trip::is_plain_primitive;
use crate::round_trip::is_plain_size;
use crate::round_trip::is_valid_id;
use crate::round_trip::passes;
use crate::spec_util::spec_validate_tag_path;
use crate::spec_util::DocNode;
use crate::round_trip::lemma_frame_is_read;
use crate::round_trip::lemma_primitive_round_trip;
use crate::round_trip::primitive_body;
use crate::specs::DataModel;
use crate::specs::EbmlSpecification;
use crate::specs::MasterModel;
use crate::specs::TagDataType;
use crate::specs::TagModel;
use crate::tag_iterator_util::EBMLSize;
use crate::tag_writer::id_bytes;
use crate::tag_writer::significant_bytes;
use crate::tag_writer::size_bytes;
use crate::tag_writer::WriterState;
use crate::tag_writer::lemma_size_width;
use crate::tools::lemma_vint_markers;
use crate::tag_writer::size_width;

verus! {

/// The bytes of the tag `tag` as a document holds it: its id, its size and
/// its body. The body of a full master tag is its children, one after the
/// other. The start and the end of a master tag have no bytes of their own.
pub open spec fn tree_bytes(tag: TagModel) -> Seq<u8>
    decreases tag, 0nat,
{
    match tag.data {
        DataModel::Master(MasterModel::Full(children)) => id_bytes(tag.id) + framed(
            forest_bytes(children, 0),
            size_width(forest_bytes(children, 0).len()),
        ),
        DataModel::Master(_) => Seq::empty(),
        _ => id_bytes(tag.id) + primitive_body(tag.data)->0,
    }
}

/// The bytes of the tags of `tags` from the `from`-th on, one after the
/// other.
pub open spec fn forest_bytes(tags: Seq<TagModel>, from: nat) -> Seq<u8>
    decreases tags, tags.len() - from,
{
    if from >= tags.len() {
        Seq::empty()
    } else {
        tree_bytes(tags[from as int]) + forest_bytes(tags, from + 1)
    }
}

/// Whether the tag `tag` is written and read back as it is: it is a plain
/// primitive or a full master tag whose children are such tags, it has a
/// valid id for which the specification declares what it holds, the
/// specification makes it, with its start and its end where it is a master
/// tag, and the size of its body is read back as it is written.
pub open spec fn is_plain_tree<T: EbmlSpecification>(tag: TagModel) -> bool
    decreases tag, 0nat,
{
    match tag.data {
        DataModel::Master(MasterModel::Full(children)) => {
            &&& T::spec_tag_data_type(tag.id) == Some(TagDataType::Master)
            &&& is_valid_id(tag.id)
            &&& T::spec_makes(start_of(tag.id))
            &&& T::spec_makes(end_of(tag.id))
            &&& is_plain_size(forest_bytes(children, 0).len())
            &&& is_plain_forest::<T>(children, 0)
        },
        DataModel::Master(_) => false,
        _ => is_valid_id(tag.id) && is_plain_primitive::<T>(tag) && T::spec_makes(tag),
    }
}

/// Whether the tags of `tags` from the `from`-th on are plain trees.
pub open spec fn is_plain_forest<T: EbmlSpecification>(tags: Seq<TagModel>, from: nat) -> bool
    decreases tags, tags.len() - from,
{
    from >= tags.len() || (is_plain_tree::<T>(tags[from as int]) && is_plain_forest::<T>(
        tags,
        from + 1,
    ))
}

/// The number of bytes that the header of the full master tag `tag` takes.
pub open spec fn master_header_len(tag: TagModel) -> nat {
    significant_bytes(tag.id) + size_width(
        forest_bytes(tag.data->Master_0->Full_0, 0).len(),
    )
}

/// The open tag that stands for the full master tag `tag`, which starts at
/// `base`, while its body is read.
pub open spec fn open_master(tag: TagModel, base: nat) -> OpenTag {
    OpenTag {
        tag: end_of(tag.id),
        size: EBMLSize::Known(forest_bytes(tag.data->Master_0->Full_0, 0).len() as usize),
        tag_start: base as usize,
        data_start: (base + master_header_len(tag)) as usize,
    }
}

/// The state after the next tag was read `times` times.
pub open spec fn ran<T: EbmlSpecification>(s: ReaderState, times: nat) -> ReaderState
    decreases times,
{
    if times == 0 {
        s
    } else {
        ran::<T>(s.advanced::<T>(), (times - 1) as nat)
    }
}

/// Whether the open tag has a known size and ends at `offset`.
pub open spec fn ends_at(e: OpenTag, offset: int) -> bool {
    e.size matches EBMLSize::Known(n) && e.data_start + n == offset
}

/// Whether the open tag has a known size and does not end before `limit`.
pub open spec fn outlasts(e: OpenTag, limit: int) -> bool {
    e.size matches EBMLSize::Known(n) && e.data_start + n >= limit
}

/// The open tags as the path check sees them.
pub open spec fn path_of(stack: Seq<OpenTag>) -> Seq<DocNode> {
    Seq::new(stack.len(), |i: int| (stack[i].tag.id, stack[i].size, 0usize))
}

/// Whether the checks of the id and of the path that the iterator makes of a
/// tag `id` under the open tags `around` are passed or left out.
pub open spec fn fits_under<T: EbmlSpecification>(s: ReaderState, id: u64, around: Seq<OpenTag>) -> bool {
    &&& s.allow_invalid_tag_ids || T::spec_tag_data_type(id) is Some
    &&& s.allow_hierarchy_problems || T::spec_tag_data_type(id) is None || spec_validate_tag_path::<T>(
        id,
        path_of(around),
    )
}

/// Whether the tree `tag`, which starts at `base` under the open tags
/// `around`, passes the checks of the id and of the path that the iterator
/// makes, tag for tag, as far as they are not left out.
pub open spec fn conforms_tree<T: EbmlSpecification>(
    s: ReaderState,
    tag: TagModel,
    around: Seq<OpenTag>,
    base: nat,
) -> bool
    decreases tag, 0nat,
{
    &&& fits_under::<T>(s, tag.id, around)
    &&& tag.data matches DataModel::Master(MasterModel::Full(children)) ==> conforms_forest::<T>(
        s,
        children,
        0,
        around.push(open_master(tag, base)),
        base + master_header_len(tag),
    )
}

/// Whether the trees of `tags` from the `from`-th on, the first of which
/// starts at `base`, pass the checks under the open tags `around`.
pub open spec fn conforms_forest<T: EbmlSpecification>(
    s: ReaderState,
    tags: Seq<TagModel>,
    from: nat,
    around: Seq<OpenTag>,
    base: nat,
) -> bool
    decreases tags, tags.len() - from,
{
    from >= tags.len() || (conforms_tree::<T>(s, tags[from as int], around, base)
        && conforms_forest::<T>(
        s,
        tags,
        from + 1,
        around,
        base + tree_bytes(tags[from as int]).len(),
    ))
}

/// Whether the iterator stands before `len` bytes that lie within all of
/// its open tags `around`, with the open tags `carry` left behind what was
/// read before: it sets no limit to a body, has looked at the path of a tag
/// before or leaves the path check out, and holds `around` and then
/// `carry` as its open tags, where the tags of `carry` end at the place,
/// and the tags of `around` do not end before the end of the bytes.
pub open spec fn stands_before(
    s: ReaderState,
    around: Seq<OpenTag>,
    carry: Seq<OpenTag>,
    len: nat,
) -> bool {
    &&& s.wf()
    &&& s.max_allowed_tag_size is None
    &&& s.has_determined_doc_path || s.allow_hierarchy_problems
    &&& s.stack == around + carry
    &&& forall|i: int| 0 <= i < carry.len() ==> ends_at(#[trigger] carry[i], s.offset as int)
    &&& forall|i: int| 0 <= i < around.len() ==> outlasts(#[trigger] around[i], s.offset + len)
    &&& s.offset + len <= s.data.len()
}

/// A plain tree has two bytes at least.
pub proof fn lemma_tree_bytes_len<T: EbmlSpecification>(tag: TagModel)
    requires
        is_plain_tree::<T>(tag),
    ensures
        tree_bytes(tag).len() >= 2,
        tag.data is Master ==> tree_bytes(tag).len() == master_header_len(tag) + forest_bytes(
            tag.data->Master_0->Full_0,
            0,
        ).len(),
{
    lemma_vint_markers();
    crate::round_trip::lemma_significant_bytes(tag.id);
    match tag.data {
        DataModel::Master(MasterModel::Full(children)) => {
            let body = forest_bytes(children, 0);
            lemma_size_width(body.len());
            crate::tools::lemma_encode_unsigned_first(body.len(), size_width(body.len()));
        },
        DataModel::Master(_) => {},
        DataModel::UnsignedInt(v) => {
            crate::round_trip::lemma_unsigned_int_round_trip(v);
            crate::tools::lemma_encode_unsigned_first(crate::tag_writer::unsigned_int_width(v), 1);
        },
        DataModel::Integer(v) => {
            crate::round_trip::lemma_signed_int_round_trip(v);
            crate::tools::lemma_encode_unsigned_first(crate::tag_writer::signed_int_width(v), 1);
        },
        DataModel::Float(bits) => {
            crate::tools::lemma_encode_unsigned_first(8, 1);
        },
        DataModel::Utf8(text) => {
            let raw = vstd::utf8::encode_utf8(text);
            lemma_size_width(raw.len());
            crate::tools::lemma_encode_unsigned_first(raw.len(), size_width(raw.len()));
        },
        DataModel::Binary(raw) => {
            lemma_size_width(raw.len());
            crate::tools::lemma_encode_unsigned_first(raw.len(), size_width(raw.len()));
        },
    }
}

/// The closing tags of the tags that were left open, where they stand on
/// other open tags.
pub proof fn lemma_unwound_carry(around: Seq<OpenTag>, carry: Seq<OpenTag>)
    ensures
        unwound(around + carry, around.len()) == unwound(carry, 0),
    decreases carry.len(),
{
    if carry.len() == 0 {
        assert(around + carry =~= around);
    } else {
        lemma_unwound_carry(around, carry.drop_last());
        assert((around + carry).drop_last() =~= around + carry.drop_last());
        assert((around + carry).last() == carry.last());
    }
}

/// The closing tags of two runs of open tags come in the turned order of the
/// runs.
pub proof fn lemma_unwound_concat(a: Seq<OpenTag>, b: Seq<OpenTag>)
    ensures
        unwound(a + b, 0) == unwound(b, 0) + unwound(a, 0),
    decreases b.len(),
{
    if b.len() == 0 {
        assert(a + b =~= a);
        assert(unwound(b, 0) + unwound(a, 0) =~= unwound(a, 0));
    } else {
        lemma_unwound_concat(a, b.drop_last());
        assert((a + b).drop_last() =~= a + b.drop_last());
        assert((a + b).last() == b.last());
        assert(seq![closing(b.last())] + (unwound(b.drop_last(), 0) + unwound(a, 0)) =~= (seq![
            closing(b.last()),
        ] + unwound(b.drop_last(), 0)) + unwound(a, 0));
    }
}

/// The first open tag that has ended is the first of those that were left
/// open.
pub proof fn lemma_first_ended_carry(
    around: Seq<OpenTag>,
    carry: Seq<OpenTag>,
    offset: usize,
    from: nat,
)
    requires
        from <= around.len(),
        forall|i: int| 0 <= i < carry.len() ==> ends_at(#[trigger] carry[i], offset as int),
        forall|i: int| 0 <= i < around.len() ==> outlasts(#[trigger] around[i], offset + 1),
    ensures
        first_ended(around + carry, offset, from) == (if carry.len() > 0 {
            Some(around.len())
        } else {
            None
        }),
    decreases around.len() - from,
{
    let stack = around + carry;
    if from < around.len() {
        assert(stack[from as int] == around[from as int]);
        assert(outlasts(around[from as int], offset + 1));
        lemma_first_ended_carry(around, carry, offset, from + 1);
    } else if carry.len() > 0 {
        assert(stack[from as int] == carry[0]);
        assert(ends_at(carry[0], offset as int));
    }
}

/// Where bytes are left to read within all open tags that stand around,
/// reading on first closes just the tags that were left open.
pub proof fn lemma_closed_known_carry(s: ReaderState, around: Seq<OpenTag>, carry: Seq<OpenTag>)
    requires
        s.stack == around + carry,
        forall|i: int| 0 <= i < carry.len() ==> ends_at(#[trigger] carry[i], s.offset as int),
        forall|i: int| 0 <= i < around.len() ==> outlasts(#[trigger] around[i], s.offset + 1),
    ensures
        s.closed_known() == (ReaderState {
            stack: around,
            queue: s.queue + unwound(carry, 0),
            ..s
        }),
{
    lemma_first_ended_carry(around, carry, s.offset, 0);
    lemma_unwound_carry(around, carry);
    if carry.len() > 0 {
        assert(s.stack.subrange(0, around.len() as int) =~= around);
    } else {
        assert(s.stack =~= around);
        assert(s.queue + unwound(carry, 0) =~= s.queue);
    }
}

/// Where a valid id, the size of a body and then the body stand at the
/// place, and the id is that of a master tag that the specification makes,
/// an iterator whose checks are passed reads the start of the tag, and
/// stands at the body.
pub proof fn lemma_read_one_of_master<T: EbmlSpecification>(
    r: ReaderState,
    id: u64,
    body: Seq<u8>,
    tail: Seq<u8>,
)
    requires
        r.wf(),
        passes::<T>(
            r,
            id,
            (significant_bytes(id) + size_width(body.len()) + body.len()) as int,
        ),
        is_valid_id(id),
        is_plain_size(body.len()),
        T::spec_tag_data_type(id) == Some(TagDataType::Master),
        T::spec_makes(start_of(id)),
        r.rest() == id_bytes(id) + framed(body, size_width(body.len())) + tail,
    ensures
        r.read_one::<T>().1 == Ok::<OpenTag, crate::error::ReadFault>(
            OpenTag {
                tag: start_of(id),
                size: EBMLSize::Known(body.len() as usize),
                tag_start: r.offset,
                data_start: (r.offset + significant_bytes(id) + size_width(body.len())) as usize,
            },
        ),
        r.read_one::<T>().0 == (ReaderState {
            offset: (r.offset + significant_bytes(id) + size_width(body.len())) as usize,
            ..r
        }),
        r.offset + significant_bytes(id) + size_width(body.len()) + body.len() <= r.data.len(),
{
    lemma_vint_markers();
    lemma_size_width(body.len());
    lemma_frame_is_read(r, id, body, size_width(body.len()), tail);
    let (looked, header) = r.peeked::<T>();
    assert(looked == r);
    assert(header matches Ok(h) && h.id == id && h.size == EBMLSize::Known(body.len() as usize)
        && h.header_len == significant_bytes(id) + size_width(body.len()) && h.data_type
        == T::spec_tag_data_type(id));
}

/// What reading on gives where a tag is read that is not the start of a
/// master tag that is given out whole, and no open tag of unknown size
/// stands innermost.
pub proof fn lemma_advanced_plainly<T: EbmlSpecification>(s: ReaderState)
    requires
        s.wf(),
        s.closed_known().offset < s.data.len(),
        s.closed_known().read_one::<T>().1 matches Ok(found) && !(found.tag == start_of(
            found.tag.id,
        ) && s.buffered_ids.contains(found.tag.id)),
        s.closed_known().read_one::<T>().0.stack.len() == 0 || s.closed_known().read_one::<T>().0.stack.last().size is Known,
    ensures
        s.advanced::<T>() == taken_in::<T>(
            s.closed_known().read_one::<T>().0,
            s.closed_known().read_one::<T>().1->Ok_0,
        ),
{
    crate::reader_laws::lemma_closed_known_keeps(s);
    lemma_read_one_moves::<T>(s.closed_known());
}

/// What follows in the document behind `skip` bytes from the place.
pub proof fn lemma_rest_behind(s: ReaderState, next: ReaderState, front: Seq<u8>, back: Seq<u8>)
    requires
        s.wf(),
        next.data == s.data,
        s.rest() == front + back,
        next.offset == s.offset + front.len(),
    ensures
        next.rest() == back,
        next.wf(),
{
    assert(s.rest().len() == s.data.len() - s.offset);
    assert(next.rest() =~= back) by {
        assert forall|k: int| 0 <= k < back.len() implies next.rest()[k] == back[k] by {
            assert(next.rest()[k] == s.rest()[front.len() + k]);
        }
    }
}

/// Where the tags that were left open are closed, a tag that lies within all
/// open tags and fits under them passes the checks of the iterator.
pub proof fn lemma_settled_passes<T: EbmlSpecification>(
    s: ReaderState,
    around: Seq<OpenTag>,
    carry: Seq<OpenTag>,
    id: u64,
    len: nat,
)
    requires
        stands_before(s, around, carry, len),
        fits_under::<T>(s, id, around),
        len > 0,
    ensures
        s.closed_known() == (ReaderState {
            stack: around,
            queue: s.queue + unwound(carry, 0),
            ..s
        }),
        passes::<T>(s.closed_known(), id, len as int),
        around.len() > 0 ==> around.last().size is Known,
{
    assert forall|i: int| 0 <= i < around.len() implies outlasts(#[trigger] around[i], s.offset + 1) by {
        assert(outlasts(around[i], s.offset + len));
    }
    lemma_closed_known_carry(s, around, carry);
    let settled = s.closed_known();
    assert(settled.stack_path() =~= path_of(around));
    assert(!settled.exceeds_a_parent(len as int)) by {
        if settled.exceeds_a_parent(len as int) {
            let i = choose|i: int|
                0 <= i < settled.stack.len() && ((#[trigger] settled.stack[i]).size matches EBMLSize::Known(
                    size,
                ) && settled.stack[i].data_start + size < settled.offset + len);
            assert(outlasts(around[i], s.offset + len));
        }
    }
    if around.len() > 0 {
        assert(outlasts(around.last(), s.offset + 1));
    }
}

/// Where a plain primitive stands at the place, reading on closes the tags
/// that were left open and makes the primitive ready.
pub proof fn lemma_primitive_step<T: EbmlSpecification>(
    s: ReaderState,
    around: Seq<OpenTag>,
    carry: Seq<OpenTag>,
    tag: TagModel,
    tail: Seq<u8>,
)
    requires
        is_plain_tree::<T>(tag),
        !(tag.data is Master),
        fits_under::<T>(s, tag.id, around),
        stands_before(s, around, carry, tree_bytes(tag).len()),
        s.rest() == tree_bytes(tag) + tail,
    ensures
        s.advanced::<T>() == (ReaderState {
            offset: (s.offset + tree_bytes(tag).len()) as usize,
            stack: around,
            queue: (s.queue + unwound(carry, 0)).push(
                Ok::<(TagModel, usize), crate::error::ReadFault>((tag, s.offset)),
            ),
            ..s
        }),
{
    lemma_tree_bytes_len::<T>(tag);
    lemma_settled_passes::<T>(s, around, carry, tag.id, tree_bytes(tag).len());
    let settled = s.closed_known();
    assert(settled.rest() == s.rest());
    lemma_primitive_round_trip::<T>(settled, tag, tail);
    lemma_advanced_plainly::<T>(s);
}

/// Where a plain full master tag that is not given out whole stands at the
/// place, reading on closes the tags that were left open, opens the tag and
/// makes its start ready, and leaves the iterator at the body.
pub proof fn lemma_master_step<T: EbmlSpecification>(
    s: ReaderState,
    around: Seq<OpenTag>,
    carry: Seq<OpenTag>,
    tag: TagModel,
    tail: Seq<u8>,
)
    requires
        is_plain_tree::<T>(tag),
        tag.data is Master,
        !s.buffered_ids.contains(tag.id),
        fits_under::<T>(s, tag.id, around),
        stands_before(s, around, carry, tree_bytes(tag).len()),
        s.rest() == tree_bytes(tag) + tail,
    ensures
        s.advanced::<T>() == (ReaderState {
            offset: (s.offset + master_header_len(tag)) as usize,
            stack: around.push(open_master(tag, s.offset as nat)),
            queue: (s.queue + unwound(carry, 0)).push(
                Ok::<(TagModel, usize), crate::error::ReadFault>((start_of(tag.id), s.offset)),
            ),
            ..s
        }),
        stands_before(
            s.advanced::<T>(),
            around.push(open_master(tag, s.offset as nat)),
            Seq::empty(),
            forest_bytes(tag.data->Master_0->Full_0, 0).len(),
        ),
        s.advanced::<T>().rest() == forest_bytes(tag.data->Master_0->Full_0, 0) + tail,
        ends_at(
            open_master(tag, s.offset as nat),
            s.offset + tree_bytes(tag).len(),
        ),
{
    lemma_tree_bytes_len::<T>(tag);
    let children = tag.data->Master_0->Full_0;
    let body = forest_bytes(children, 0);
    lemma_settled_passes::<T>(s, around, carry, tag.id, tree_bytes(tag).len());
    let settled = s.closed_known();
    assert(settled.rest() == s.rest());
    lemma_read_one_of_master::<T>(settled, tag.id, body, tail);
    lemma_advanced_plainly::<T>(s);
    let next = s.advanced::<T>();
    let entry = open_master(tag, s.offset as nat);
    let inner = around.push(entry);
    let header = id_bytes(tag.id) + crate::tools::encode_unsigned(
        body.len(),
        size_width(body.len()),
    );
    assert(s.rest() =~= header + (body + tail));
    crate::round_trip::lemma_significant_bytes(tag.id);
    lemma_size_width(body.len());
    crate::tools::lemma_encode_unsigned_first(body.len(), size_width(body.len()));
    lemma_rest_behind(s, next, header, body + tail);
    assert(inner =~= inner + Seq::<OpenTag>::empty());
    assert forall|i: int| 0 <= i < inner.len() implies outlasts(
        #[trigger] inner[i],
        next.offset + body.len(),
    ) by {
        if i < around.len() {
            assert(inner[i] == around[i]);
            assert(outlasts(around[i], s.offset + tree_bytes(tag).len()));
        }
    }
}

/// The tags that are left open behind a tree end where the tree ends.
pub proof fn lemma_stands_behind(
    s: ReaderState,
    last: ReaderState,
    around: Seq<OpenTag>,
    left: Seq<OpenTag>,
    len: nat,
)
    requires
        s.wf(),
        s.max_allowed_tag_size is None,
        s.has_determined_doc_path || s.allow_hierarchy_problems,
        s.offset + len <= s.data.len(),
        last == (ReaderState {
            offset: (s.offset + len) as usize,
            stack: around + left,
            queue: last.queue,
            ..s
        }),
        forall|i: int| 0 <= i < left.len() ==> ends_at(#[trigger] left[i], s.offset + len),
        forall|i: int| 0 <= i < around.len() ==> outlasts(#[trigger] around[i], s.offset + len),
    ensures
        stands_before(last, around, left, 0),
{
}

/// Whether trees pass the checks depends on the settings of the iterator
/// alone.
pub proof fn lemma_conforms_same_settings<T: EbmlSpecification>(
    a: ReaderState,
    b: ReaderState,
    tags: Seq<TagModel>,
    from: nat,
    around: Seq<OpenTag>,
    base: nat,
)
    requires
        a.allow_invalid_tag_ids == b.allow_invalid_tag_ids,
        a.allow_hierarchy_problems == b.allow_hierarchy_problems,
    ensures
        conforms_forest::<T>(a, tags, from, around, base) == conforms_forest::<T>(
            b,
            tags,
            from,
            around,
            base,
        ),
    decreases tags, tags.len() - from,
{
    if from < tags.len() {
        let first = tags[from as int];
        lemma_conforms_same_settings::<T>(
            a,
            b,
            tags,
            from + 1,
            around,
            base + tree_bytes(first).len(),
        );
        match first.data {
            DataModel::Master(MasterModel::Full(children)) => {
                lemma_conforms_same_settings::<T>(
                    a,
                    b,
                    children,
                    0,
                    around.push(open_master(first, base)),
                    base + master_header_len(first),
                );
            },
            _ => {},
        }
        assert(fits_under::<T>(a, first.id, around) == fits_under::<T>(b, first.id, around));
        assert(conforms_tree::<T>(a, first, around, base) == conforms_tree::<T>(
            b,
            first,
            around,
            base,
        ));
    }
}

/// A lenient iterator leaves out the checks that trees may not pass.
pub proof fn lemma_lenient_conforms<T: EbmlSpecification>(
    s: ReaderState,
    tags: Seq<TagModel>,
    from: nat,
    around: Seq<OpenTag>,
    base: nat,
)
    requires
        is_lenient(s),
    ensures
        conforms_forest::<T>(s, tags, from, around, base),
    decreases tags, tags.len() - from,
{
    if from < tags.len() {
        let first = tags[from as int];
        lemma_lenient_conforms::<T>(s, tags, from + 1, around, base + tree_bytes(first).len());
        match first.data {
            DataModel::Master(MasterModel::Full(children)) => {
                lemma_lenient_conforms::<T>(
                    s,
                    children,
                    0,
                    around.push(open_master(first, base)),
                    base + master_header_len(first),
                );
            },
            _ => {},
        }
        assert(fits_under::<T>(s, first.id, around));
        assert(conforms_tree::<T>(s, first, around, base));
    }
}

/// What the state is behind a master tag, told from the state behind its
/// header and the state behind its children.
pub proof fn lemma_master_is_closed(
    s: ReaderState,
    next: ReaderState,
    last: ReaderState,
    around: Seq<OpenTag>,
    entry: OpenTag,
    left: Seq<OpenTag>,
    first: Seq<Emission>,
    start: Emission,
    reading: Seq<Emission>,
    header_len: nat,
    body_len: nat,
)
    requires
        s.wf(),
        s.max_allowed_tag_size is None,
        s.has_determined_doc_path || s.allow_hierarchy_problems,
        s.offset + header_len + body_len <= s.data.len(),
        next == (ReaderState {
            offset: (s.offset + header_len) as usize,
            stack: around.push(entry),
            queue: (s.queue + first).push(start),
            ..s
        }),
        last == (ReaderState {
            offset: (next.offset + body_len) as usize,
            stack: around.push(entry) + left,
            queue: next.queue + reading,
            ..next
        }),
        ends_at(entry, s.offset + header_len + body_len),
        forall|i: int| 0 <= i < left.len() ==> ends_at(#[trigger] left[i], last.offset as int),
        forall|i: int|
            0 <= i < around.len() ==> outlasts(#[trigger] around[i], s.offset + header_len + body_len),
    ensures
        stands_before(last, around, seq![entry] + left, 0),
        last == (ReaderState {
            offset: (s.offset + (header_len + body_len)) as usize,
            stack: around + (seq![entry] + left),
            queue: s.queue + first + (seq![start] + reading),
            ..s
        }),
{
    let pending = seq![entry] + left;
    assert(around.push(entry) + left =~= around + pending);
    assert((s.queue + first).push(start) + reading =~= s.queue + first + (seq![start] + reading));
    assert forall|i: int| 0 <= i < pending.len() implies ends_at(
        #[trigger] pending[i],
        s.offset + (header_len + body_len),
    ) by {
        if i > 0 {
            assert(pending[i] == left[i - 1]);
        }
    }
    lemma_stands_behind(s, last, around, pending, header_len + body_len);
}

/// The state of an iterator that has looked at the path of a tag.
pub open spec fn settled(s: ReaderState) -> ReaderState {
    ReaderState { has_determined_doc_path: true, ..s }
}

/// An iterator that holds no open tag and looks at the path of a tag for the
/// first time reads on as an iterator that has done so before, where the
/// tag at the place is a plain tree whose id is that of a root.
pub proof fn lemma_first_look<T: EbmlSpecification>(s: ReaderState, tag: TagModel, tail: Seq<u8>)
    requires
        s.wf(),
        s.stack.len() == 0,
        s.max_allowed_tag_size is None,
        !s.allow_hierarchy_problems,
        is_plain_tree::<T>(tag),
        T::spec_tag_data_type(tag.id) is Some,
        T::spec_path_by_id(tag.id).len() == 0,
        s.rest() == tree_bytes(tag) + tail,
    ensures
        s.advanced::<T>() == settled(s).advanced::<T>(),
{
    let id = tag.id;
    let other = settled(s);
    lemma_tree_bytes_len::<T>(tag);
    assert(s.rest().len() == s.data.len() - s.offset);
    assert(s.closed_known() == s);
    assert(other.closed_known() == other);
    assert(other.rest() == s.rest());
    assert(spec_peek_tag_id(s.rest()) matches Some((found, _)) && found == id) by {
        lemma_vint_markers();
        crate::round_trip::lemma_significant_bytes(id);
        match tag.data {
            DataModel::Master(MasterModel::Full(children)) => {
                crate::round_trip::lemma_id_round_trip(
                    id,
                    framed(
                        forest_bytes(children, 0),
                        size_width(forest_bytes(children, 0).len()),
                    ) + tail,
                );
                assert(s.rest() =~= id_bytes(id) + (framed(
                    forest_bytes(children, 0),
                    size_width(forest_bytes(children, 0).len()),
                ) + tail));
            },
            _ => {
                crate::round_trip::lemma_id_round_trip(id, primitive_body(tag.data)->0 + tail);
                assert(s.rest() =~= id_bytes(id) + (primitive_body(tag.data)->0 + tail));
            },
        }
    }
    let path = T::spec_path_by_id(id);
    assert(crate::spec_util::is_plain_path(path));
    assert(crate::reader_state::first_unmade::<T>(path, 0) is None);
    assert(crate::reader_state::planted_stack(path) =~= s.stack);
    assert(s.placed::<T>(id) == (other, None::<crate::error::ReadFault>));
    assert(other.placed::<T>(id) == (other, None::<crate::error::ReadFault>));
    assert(s.peeked::<T>().1 == other.peeked::<T>().1);
    assert(s.peeked::<T>().1 is Ok ==> s.peeked::<T>().0 == other.peeked::<T>().0);
    assert(s.peeked::<T>().1 is Ok) by {
        lemma_first_header_passes::<T>(s, tag, tail);
    }
    assert(s.read_one::<T>() == other.read_one::<T>());
}

/// The header of a plain tree whose id is that of a root passes the checks
/// of an iterator that holds no open tag and sets no limit to a body.
pub proof fn lemma_first_header_passes<T: EbmlSpecification>(
    s: ReaderState,
    tag: TagModel,
    tail: Seq<u8>,
)
    requires
        s.wf(),
        s.stack.len() == 0,
        s.max_allowed_tag_size is None,
        is_plain_tree::<T>(tag),
        T::spec_tag_data_type(tag.id) is Some,
        T::spec_path_by_id(tag.id).len() == 0,
        s.rest() == tree_bytes(tag) + tail,
    ensures
        settled(s).peeked::<T>().1 is Ok,
{
    let other = settled(s);
    let id = tag.id;
    lemma_vint_markers();
    lemma_tree_bytes_len::<T>(tag);
    assert(other.rest() == s.rest());
    assert(other.stack_path() =~= Seq::<DocNode>::empty());
    assert(spec_validate_tag_path::<T>(id, other.stack_path()));
    assert(!other.exceeds_a_parent(tree_bytes(tag).len() as int));
    match tag.data {
        DataModel::Master(MasterModel::Full(children)) => {
            let body = forest_bytes(children, 0);
            lemma_size_width(body.len());
            lemma_frame_is_read(other, id, body, size_width(body.len()), tail);
        },
        DataModel::Master(_) => {},
        DataModel::UnsignedInt(v) => {
            crate::round_trip::lemma_unsigned_int_round_trip(v);
            let raw = crate::tools::be_bytes(v as nat, crate::tag_writer::unsigned_int_width(v));
            lemma_frame_is_read(other, id, raw, 1, tail);
        },
        DataModel::Integer(v) => {
            crate::round_trip::lemma_signed_int_round_trip(v);
            let width = crate::tag_writer::signed_int_width(v);
            let raw = crate::tools::be_bytes(crate::tag_writer::twos_complement(v as int, width), width);
            lemma_frame_is_read(other, id, raw, 1, tail);
        },
        DataModel::Float(bits) => {
            let raw = crate::tools::be_bytes(bits as nat, 8);
            crate::tools::lemma_be_bytes_len(bits as nat, 8);
            lemma_frame_is_read(other, id, raw, 1, tail);
        },
        DataModel::Utf8(text) => {
            let raw = vstd::utf8::encode_utf8(text);
            lemma_size_width(raw.len());
            lemma_frame_is_read(other, id, raw, size_width(raw.len()), tail);
        },
        DataModel::Binary(raw) => {
            lemma_size_width(raw.len());
            lemma_frame_is_read(other, id, raw, size_width(raw.len()), tail);
        },
    }
}

/// The writer writes a plain tree as its bytes: they are added to the bytes
/// that wait, and the open tags stay as they are.
pub proof fn lemma_tree_is_dispatched<T: EbmlSpecification>(w: WriterState, tag: TagModel)
    requires
        w.wf(),
        w.working_buffer.len() + tree_bytes(tag).len() <= usize::MAX,
        is_plain_tree::<T>(tag),
    ensures
        w.dispatched::<T>(tag) == (w.append(tree_bytes(tag)), None::<crate::error::WriteFault>),
        w.append(tree_bytes(tag)).wf(),
    decreases tag, 0nat,
{
    lemma_tree_bytes_len::<T>(tag);
    match tag.data {
        DataModel::Master(MasterModel::Full(children)) => {
            let body = forest_bytes(children, 0);
            let opened = w.started(tag.id);
            let frame = (tag.id, EBMLSize::Known(w.working_buffer.len() as usize));
            assert(opened.open_tags.last() == frame);
            assert(opened.has_pending_header());
            assert(opened.wf()) by {
                assert forall|i: int| 0 <= i < opened.open_tags.len() implies ((
                #[trigger] opened.open_tags[i]).1 matches EBMLSize::Known(start) ==> start
                    <= opened.working_buffer.len()) by {
                    if i < w.open_tags.len() {
                        assert(opened.open_tags[i] == w.open_tags[i]);
                    }
                }
            }
            lemma_forest_is_written::<T>(opened, children, 0);
            let filled = opened.append(body);
            assert(filled.open_tags.drop_last() =~= w.open_tags);
            assert(filled.working_buffer.subrange(
                w.working_buffer.len() as int,
                filled.working_buffer.len() as int,
            ) =~= body);
            assert(filled.working_buffer.subrange(0, w.working_buffer.len() as int)
                =~= w.working_buffer);
            assert(w.working_buffer + id_bytes(tag.id) + size_bytes(body.len()) + body
                =~= w.working_buffer + tree_bytes(tag));
            let (closed, fault) = filled.ended(tag.id);
            assert(fault is None);
            assert(closed.open_tags =~= w.open_tags);
            assert(closed.working_buffer =~= w.working_buffer + tree_bytes(tag));
            assert(closed == w.append(tree_bytes(tag)));
        },
        DataModel::Master(_) => {},
        DataModel::Utf8(text) => {
            let raw = vstd::utf8::encode_utf8(text);
            assert(id_bytes(tag.id) + size_bytes(raw.len()) + raw =~= tree_bytes(tag));
        },
        DataModel::Binary(raw) => {
            assert(id_bytes(tag.id) + size_bytes(raw.len()) + raw =~= tree_bytes(tag));
        },
        _ => {},
    }
    assert(w.append(tree_bytes(tag)).wf()) by {
        let next = w.append(tree_bytes(tag));
        assert forall|i: int| 0 <= i < next.open_tags.len() implies ((
        #[trigger] next.open_tags[i]).1 matches EBMLSize::Known(start) ==> start
            <= next.working_buffer.len()) by {
            assert(next.open_tags[i] == w.open_tags[i]);
        }
    }
}

/// Within an open tag that waits for its header, the writer writes a run of
/// plain trees as their bytes, which are added to the bytes that wait.
pub proof fn lemma_forest_is_written<T: EbmlSpecification>(
    w: WriterState,
    tags: Seq<TagModel>,
    from: nat,
)
    requires
        w.wf(),
        w.has_pending_header(),
        w.working_buffer.len() + forest_bytes(tags, from).len() <= usize::MAX,
        is_plain_forest::<T>(tags, from),
    ensures
        w.wrote_all::<T>(tags, from) == (
            w.append(forest_bytes(tags, from)),
            None::<crate::error::WriteFault>,
        ),
    decreases tags, tags.len() - from,
{
    if from >= tags.len() {
        assert(w.working_buffer + Seq::<u8>::empty() =~= w.working_buffer);
        assert(w.append(forest_bytes(tags, from)) == w);
    } else {
        let first = tags[from as int];
        lemma_tree_bytes_len::<T>(first);
        lemma_tree_is_dispatched::<T>(w, first);
        let next = w.append(tree_bytes(first));
        let witness = choose|i: int| 0 <= i < w.open_tags.len() && (#[trigger] w.open_tags[i]).1 is Known;
        assert(next.open_tags[witness].1 is Known);
        assert(next.has_pending_header());
        assert(next.settled() == next);
        assert(w.wrote::<T>(first) == (next, None::<crate::error::WriteFault>));
        assert(forest_bytes(tags, from).len() == tree_bytes(first).len() + forest_bytes(
            tags,
            from + 1,
        ).len());
        lemma_forest_is_written::<T>(next, tags, from + 1);
        assert(w.wrote_all::<T>(tags, from) == next.wrote_all::<T>(tags, from + 1));
        assert(w.working_buffer + tree_bytes(first) + forest_bytes(tags, from + 1)
            =~= w.working_buffer + forest_bytes(tags, from));
        assert(next.append(forest_bytes(tags, from + 1)) == w.append(forest_bytes(tags, from)));
    }
}

/// Where no tag is open and no bytes wait, the writer writes a run of plain
/// trees as their bytes, which go to the destination.
pub proof fn lemma_document_is_written<T: EbmlSpecification>(
    w: WriterState,
    tags: Seq<TagModel>,
    from: nat,
)
    requires
        w.open_tags.len() == 0,
        w.working_buffer.len() == 0,
        forest_bytes(tags, from).len() <= usize::MAX,
        is_plain_forest::<T>(tags, from),
    ensures
        w.wrote_all::<T>(tags, from) == (
            WriterState {
                dest: w.dest + forest_bytes(tags, from),
                open_tags: Seq::empty(),
                working_buffer: Seq::empty(),
            },
            None::<crate::error::WriteFault>,
        ),
    decreases tags.len() - from,
{
    assert(w.open_tags =~= Seq::empty());
    assert(w.working_buffer =~= Seq::empty());
    let done = WriterState {
        dest: w.dest + forest_bytes(tags, from),
        open_tags: Seq::empty(),
        working_buffer: Seq::empty(),
    };
    if from >= tags.len() {
        assert(w.dest + Seq::<u8>::empty() =~= w.dest);
        assert(done == w);
    } else {
        let first = tags[from as int];
        lemma_tree_bytes_len::<T>(first);
        assert(w.wf());
        lemma_tree_is_dispatched::<T>(w, first);
        let filled = w.append(tree_bytes(first));
        assert(!filled.has_pending_header());
        let next = filled.drained();
        assert(filled.working_buffer =~= tree_bytes(first));
        assert(next.dest =~= w.dest + tree_bytes(first));
        assert(w.wrote::<T>(first) == (next, None::<crate::error::WriteFault>));
        lemma_document_is_written::<T>(next, tags, from + 1);
        assert(w.dest + tree_bytes(first) + forest_bytes(tags, from + 1) =~= w.dest + forest_bytes(
            tags,
            from,
        ));
    }
}

} // verus!
