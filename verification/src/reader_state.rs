//! What a tag iterator does, step by step, told over what it holds: the bytes
//! of the document, the place in them, the master tags that are open, and the
//! tags that are ready to be given out.
use vstd::prelude::*;
use vstd::utf8::decode_utf8;
use vstd::utf8::valid_utf8;
use crate::error::CorruptedFileError;
use crate::error::ReadFault;
use crate::error::ToolFault;
use crate::spec_util::is_plain_path;
use crate::spec_util::spec_is_ended_by;
use crate::spec_util::spec_validate_tag_path;
use crate::spec_util::DocNode;
use crate::specs::DataModel;
use crate::specs::EbmlSpecification;
use crate::specs::MasterModel;
use crate::specs::PathModel;
use crate::specs::TagDataType;
use crate::specs::TagModel;
use crate::tag_iterator_util::EBMLSize;
use crate::tools::be_signed_value;
use crate::tools::be_value;
use crate::tools::decode_unsigned;
use crate::tools::spec_float_bits;
use crate::tools::vint_width;

verus! {

/// A master tag that is open: the tag that will be given out when it closes,
/// the size of its body, where the tag starts and where its body starts. An
/// ancestor that was taken as open without being read holds the start of
/// its master tag: see [`is_assumed`].
pub struct OpenTag {
    pub tag: TagModel,
    pub size: EBMLSize,
    pub tag_start: usize,
    pub data_start: usize,
}

/// What is ready to be given out: a tag with the place where it starts, or a
/// fault.
pub type Emission = Result<(TagModel, usize), ReadFault>;

/// The header of a tag: its id, what the specification declares for the id,
/// the size of the body, and the number of bytes that the header takes.
#[derive(Copy, Clone, Debug)]
pub struct TagHeader {
    pub id: u64,
    pub data_type: Option<TagDataType>,
    pub size: EBMLSize,
    pub header_len: usize,
}

/// The start of the master tag `id`.
pub open spec fn start_of(id: u64) -> TagModel {
    TagModel { id, data: DataModel::Master(MasterModel::Start) }
}

/// The end of the master tag `id`.
pub open spec fn end_of(id: u64) -> TagModel {
    TagModel { id, data: DataModel::Master(MasterModel::End) }
}

/// The fault of an id that the specification does not know or makes no tag
/// for.
pub open spec fn invalid_id(tag_id: u64, position: usize) -> ReadFault {
    ReadFault::CorruptedFileData(CorruptedFileError::InvalidTagId { tag_id, position })
}

/// The fault of a header that cannot be right.
pub open spec fn invalid_data(tag_id: u64, position: usize) -> ReadFault {
    ReadFault::CorruptedFileData(CorruptedFileError::InvalidTagData { tag_id, position })
}

/// The id at the front of `bytes` with the number of bytes that it takes, or
/// nothing where the bytes end within it.
///
/// An id is a vint that is read with its width marker. A first byte of zero
/// is read as the id 0 in one byte.
pub open spec fn spec_peek_tag_id(bytes: Seq<u8>) -> Option<(u64, usize)> {
    if bytes.len() == 0 {
        None
    } else if bytes[0] == 0 {
        Some((0u64, 1usize))
    } else {
        let width = vint_width(bytes[0]);
        if width > bytes.len() {
            None
        } else {
            Some((be_value(bytes.subrange(0, width as int)) as u64, width as usize))
        }
    }
}

/// Whether the data type is one whose body has at most eight bytes.
pub open spec fn is_scalar(data_type: Option<TagDataType>) -> bool {
    data_type == Some(TagDataType::UnsignedInt) || data_type == Some(TagDataType::Integer)
        || data_type == Some(TagDataType::Float)
}

/// The first ancestor of `path`, from the `from`-th on, whose start the
/// specification does not make as a tag.
pub open spec fn first_unmade<T: EbmlSpecification>(path: PathModel, from: nat) -> Option<u64>
    decreases path.len() - from,
{
    if from >= path.len() {
        None
    } else if !T::spec_makes(start_of(path[from as int]->Id_0)) {
        Some(path[from as int]->Id_0)
    } else {
        first_unmade::<T>(path, from + 1)
    }
}

/// The open tags that stand for the ancestors of `path`: each of unknown
/// size, and with no place in the document.
pub open spec fn planted_stack(path: PathModel) -> Seq<OpenTag> {
    Seq::new(
        path.len(),
        |i: int|
            OpenTag {
                tag: start_of(path[i]->Id_0),
                size: EBMLSize::Unknown,
                tag_start: 0,
                data_start: 0,
            },
    )
}

/// What the body `raw` of a tag `id` holds, read as `data_type`; a tag of an
/// id that the specification does not know holds bytes.
pub open spec fn payload<T: EbmlSpecification>(
    id: u64,
    data_type: Option<TagDataType>,
    raw: Seq<u8>,
) -> Result<TagModel, ReadFault> {
    match data_type {
        Some(TagDataType::Master) => Ok(start_of(id)),
        Some(TagDataType::UnsignedInt) => if raw.len() <= 8 {
            Ok(TagModel { id, data: DataModel::UnsignedInt(be_value(raw) as u64) })
        } else {
            Err(ReadFault::CorruptedTagData { tag_id: id, problem: ToolFault::ReadU64Overflow(raw) })
        },
        Some(TagDataType::Integer) => if raw.len() <= 8 {
            Ok(TagModel { id, data: DataModel::Integer(be_signed_value(raw) as i64) })
        } else {
            Err(ReadFault::CorruptedTagData { tag_id: id, problem: ToolFault::ReadI64Overflow(raw) })
        },
        Some(TagDataType::Utf8) => if valid_utf8(raw) {
            Ok(TagModel { id, data: DataModel::Utf8(decode_utf8(raw)) })
        } else {
            Err(ReadFault::CorruptedTagData { tag_id: id, problem: ToolFault::FromUtf8Error(raw) })
        },
        Some(TagDataType::Binary) => Ok(TagModel { id, data: DataModel::Binary(raw) }),
        Some(TagDataType::Float) => match spec_float_bits(raw) {
            Some(bits) => Ok(TagModel { id, data: DataModel::Float(T::spec_widened(bits)) }),
            None => Err(
                ReadFault::CorruptedTagData { tag_id: id, problem: ToolFault::ReadF64Mismatch(raw) },
            ),
        },
        None => Ok(TagModel { id, data: DataModel::Binary(raw) }),
    }
}

/// Whether the open tag is an ancestor that was taken as open from the path
/// of the first tag and never read: it holds the start of its master tag,
/// where a tag that was read holds the end.
pub open spec fn is_assumed(open: OpenTag) -> bool {
    open.tag.data == DataModel::Master(MasterModel::Start)
}

/// The tag with which an open tag that was read is given out when it closes.
pub open spec fn closing(open: OpenTag) -> Emission {
    Ok((open.tag, open.tag_start))
}

/// What closing an open tag makes ready: its closing tag, and nothing for
/// an ancestor that was taken as open, which serves the path check alone.
pub open spec fn closings(open: OpenTag) -> Seq<Emission> {
    if is_assumed(open) {
        Seq::empty()
    } else {
        seq![closing(open)]
    }
}

/// Whether one of the open tags was read: whether closing them all makes
/// something ready.
pub open spec fn holds_read(stack: Seq<OpenTag>) -> bool {
    exists|i: int| 0 <= i < stack.len() && !is_assumed(#[trigger] stack[i])
}

/// What closing the open tags from the `keep`-th on makes ready, innermost
/// first.
pub open spec fn unwound(stack: Seq<OpenTag>, keep: nat) -> Seq<Emission>
    decreases stack.len(),
{
    if stack.len() <= keep {
        Seq::empty()
    } else {
        closings(stack.last()) + unwound(stack.drop_last(), keep)
    }
}

/// The first open tag, from the `from`-th on, whose body of known size ends
/// at or before `offset`.
pub open spec fn first_ended(stack: Seq<OpenTag>, offset: usize, from: nat) -> Option<nat>
    decreases stack.len() - from,
{
    if from >= stack.len() {
        None
    } else if stack[from as int].size matches EBMLSize::Known(size) && offset >= stack[from as int].data_start
        + size {
        Some(from)
    } else {
        first_ended(stack, offset, from + 1)
    }
}

/// Whether what waits at the head of a search for the end of the master tag
/// `id` stops the search: a fault, or that end.
pub open spec fn is_stop(e: Emission, id: u64) -> bool {
    match e {
        Err(_) => true,
        Ok((tag, _)) => tag == end_of(id),
    }
}

/// The place of the first stop in `queue`, from `from` on.
pub open spec fn first_stop(queue: Seq<Emission>, id: u64, from: nat) -> Option<nat>
    decreases queue.len() - from,
{
    if from >= queue.len() {
        None
    } else if is_stop(queue[from as int], id) {
        Some(from)
    } else {
        first_stop(queue, id, from + 1)
    }
}

/// The tags of `queue` from `from` up to, not including, `to`, all of which
/// are tags.
pub open spec fn tags_between(queue: Seq<Emission>, from: nat, to: nat) -> Seq<TagModel> {
    Seq::new((to - from) as nat, |i: int| queue[from + i]->Ok_0.0)
}

/// The place in `tags`, from `from` on, of the first end of the master tag
/// `id`; the length of `tags` where there is none.
pub open spec fn end_index(tags: Seq<TagModel>, id: u64, from: nat) -> nat
    decreases tags.len() - from,
{
    if from >= tags.len() {
        tags.len()
    } else if tags[from as int] == end_of(id) {
        from
    } else {
        end_index(tags, id, from + 1)
    }
}

/// The children of a master tag whose body was read as the tags `children`:
/// each start of a master tag among them is made a full tag with what follows
/// it up to its end, and so on within. Gives the id of the first full tag
/// that the specification does not make.
pub open spec fn rolled_children<T: EbmlSpecification>(children: Seq<TagModel>) -> Result<
    Seq<TagModel>,
    u64,
>
    decreases children.len(), 0nat,
{
    if children.len() == 0 {
        Ok(Seq::empty())
    } else {
        let first = children[0];
        let rest = children.subrange(1, children.len() as int);
        if first.data == DataModel::Master(MasterModel::Start) {
            let end = end_index(rest, first.id, 0);
            proof {
                lemma_end_index_bound(rest, first.id, 0);
            }
            let inner = rest.subrange(0, end as int);
            let after = if end < rest.len() {
                rest.subrange(end as int + 1, rest.len() as int)
            } else {
                Seq::empty()
            };
            match rolled::<T>(first.id, inner) {
                Err(id) => Err(id),
                Ok(full) => match rolled_children::<T>(after) {
                    Err(id) => Err(id),
                    Ok(more) => Ok(seq![full] + more),
                },
            }
        } else {
            match rolled_children::<T>(rest) {
                Err(id) => Err(id),
                Ok(more) => Ok(seq![first] + more),
            }
        }
    }
}

/// The full master tag `id` whose body was read as the tags `children`, or
/// the id of the first full tag, within it or itself, that the specification
/// does not make.
pub open spec fn rolled<T: EbmlSpecification>(id: u64, children: Seq<TagModel>) -> Result<
    TagModel,
    u64,
>
    decreases children.len(), 1nat,
{
    match rolled_children::<T>(children) {
        Err(bad) => Err(bad),
        Ok(list) => {
            let full = TagModel { id, data: DataModel::Master(MasterModel::Full(list)) };
            if T::spec_makes(full) {
                Ok(full)
            } else {
                Err(id)
            }
        },
    }
}

/// What a tag iterator holds.
pub struct ReaderState {
    /// The bytes of the document, as far as the iterator has them.
    pub data: Seq<u8>,
    /// The place of the next byte to read.
    pub offset: usize,
    /// The ids of the master tags that are given out whole.
    pub buffered_ids: Set<u64>,
    /// Whether tags with an unknown id are given out as raw tags.
    pub allow_invalid_tag_ids: bool,
    /// Whether tags are given out where the specification does not allow them.
    pub allow_hierarchy_problems: bool,
    /// Whether tags are given out that reach beyond the end of a parent.
    pub allow_oversized_tags: bool,
    /// The longest body that is accepted, if there is a limit.
    pub max_allowed_tag_size: Option<usize>,
    /// The master tags that are open, outermost first.
    pub stack: Seq<OpenTag>,
    /// What is ready to be given out, in its order.
    pub queue: Seq<Emission>,
    /// Where the tag starts that was given out last.
    pub last_emitted_tag_offset: usize,
    /// Whether the open tags were held against the path of a tag before.
    pub has_determined_doc_path: bool,
}

impl ReaderState {
    /// The place lies within the bytes.
    pub open spec fn wf(self) -> bool {
        self.offset <= self.data.len() <= usize::MAX
    }

    /// The bytes from the place on.
    pub open spec fn rest(self) -> Seq<u8> {
        self.data.subrange(self.offset as int, self.data.len() as int)
    }

    /// The number of bytes from the place on.
    pub open spec fn remaining(self) -> nat {
        (self.data.len() - self.offset) as nat
    }

    /// Whether this state has fewer bytes left than `other`, or as many and
    /// fewer open tags.
    pub open spec fn smaller_than(self, other: ReaderState) -> bool {
        self.remaining() < other.remaining() || (self.remaining() == other.remaining()
            && self.stack.len() < other.stack.len())
    }

    /// Whether this state can follow `before` in the life of an iterator: it
    /// has the same bytes and settings, the place has not moved back, and
    /// what was ready before is still ready, in its order and first.
    pub open spec fn follows(self, before: ReaderState) -> bool {
        &&& self.wf()
        &&& self.data == before.data
        &&& self.buffered_ids == before.buffered_ids
        &&& self.allow_invalid_tag_ids == before.allow_invalid_tag_ids
        &&& self.allow_hierarchy_problems == before.allow_hierarchy_problems
        &&& self.allow_oversized_tags == before.allow_oversized_tags
        &&& self.max_allowed_tag_size == before.max_allowed_tag_size
        &&& self.last_emitted_tag_offset == before.last_emitted_tag_offset
        &&& self.offset >= before.offset
        &&& before.queue.len() <= self.queue.len()
        &&& self.queue.subrange(0, before.queue.len() as int) == before.queue
    }

    /// Whether this state can follow `before` as the state after the next tag
    /// was read: where the place has not moved, either all that is newly
    /// ready are the closing tags of open tags, or the last of it is a fault.
    pub open spec fn advances_on(self, before: ReaderState) -> bool {
        &&& self.follows(before)
        &&& self.offset == before.offset ==> (self.stack.len() + self.queue.len()
            <= before.stack.len() + before.queue.len() || (self.queue.len() > before.queue.len()
            && self.queue.last() is Err))
    }

    /// The state with `e` added to what is ready.
    pub open spec fn enqueue(self, e: Emission) -> ReaderState {
        ReaderState { queue: self.queue.push(e), ..self }
    }

    /// The open tags as the path check sees them.
    pub open spec fn stack_path(self) -> Seq<DocNode> {
        Seq::new(self.stack.len(), |i: int| (self.stack[i].tag.id, self.stack[i].size, 0usize))
    }

    /// The id of the innermost open tag.
    pub open spec fn innermost_id(self) -> Option<u64> {
        if self.stack.len() == 0 {
            None
        } else {
            Some(self.stack.last().tag.id)
        }
    }

    /// Whether a tag of `total` bytes at the place reaches beyond the end of
    /// an open tag of known size.
    pub open spec fn exceeds_a_parent(self, total: int) -> bool {
        exists|i: int|
            0 <= i < self.stack.len() && ((#[trigger] self.stack[i]).size matches EBMLSize::Known(
                size,
            ) && self.stack[i].data_start + size < self.offset + total)
    }

    /// The fault of a document that ends within the tag at the place.
    pub open spec fn eof(self, tag_id: Option<u64>) -> ReadFault {
        ReadFault::UnexpectedEOF {
            tag_start: self.offset,
            tag_id,
            tag_size: None,
            partial_data: None,
        }
    }

    /// The state after the path of the tag `id` was looked at for the first
    /// time, and the fault if there is one.
    ///
    /// The iterator trusts the first tag that it sees, which need not be a
    /// root: where the path of that tag names ids only, its ancestors are
    /// taken as open around all that is open, each with an unknown size.
    /// They serve the path check alone: nothing is given out for them. This
    /// is done once. A path with a global step says nothing of the
    /// ancestors, and the next tag is held to be the first.
    pub open spec fn placed<T: EbmlSpecification>(self, id: u64) -> (ReaderState, Option<ReadFault>) {
        let path = T::spec_path_by_id(id);
        if self.has_determined_doc_path || !is_plain_path(path) {
            (self, None)
        } else {
            match first_unmade::<T>(path, 0) {
                Some(bad) => (self, Some(invalid_id(bad, self.offset))),
                None => (
                    ReaderState {
                        stack: planted_stack(path) + self.stack,
                        has_determined_doc_path: true,
                        ..self
                    },
                    None,
                ),
            }
        }
    }

    /// What a look at the header at the place gives: the header or a fault,
    /// and the state after the look, which leaves the place as it is.
    ///
    /// The checks come in this order: the id and the size are read; an
    /// integer or a float must not claim more than eight bytes; the id must be
    /// known; the tag must be allowed under the open tags; the tag must end
    /// within every open tag of known size; the body must not be longer than
    /// the limit. Each of the last four is left out where the iterator was
    /// told so, and the path check is left out for ids that are not known.
    pub open spec fn peeked<T: EbmlSpecification>(self) -> (
        ReaderState,
        Result<TagHeader, ReadFault>,
    ) {
        let bytes = self.rest();
        match spec_peek_tag_id(bytes) {
            None => (self, Err(self.eof(None))),
            Some((id, id_len)) => {
                let data_type = T::spec_tag_data_type(id);
                match decode_unsigned(bytes.subrange(id_len as int, bytes.len() as int)) {
                    Err(_) => (self, Err(invalid_data(id, self.offset))),
                    Ok(None) => (self, Err(self.eof(Some(id)))),
                    Ok(Some((raw_size, size_len))) => {
                        if is_scalar(data_type) && raw_size > 8 {
                            (self, Err(invalid_data(id, self.offset)))
                        } else if !self.allow_invalid_tag_ids && data_type is None {
                            (self, Err(invalid_id(id, self.offset)))
                        } else {
                            let header = TagHeader {
                                id,
                                data_type,
                                size: EBMLSize::spec_new(raw_size, size_len),
                                header_len: (id_len + size_len) as usize,
                            };
                            if !self.allow_hierarchy_problems && data_type is Some {
                                let (placed, fault) = self.placed::<T>(id);
                                if fault is Some {
                                    (placed, Err(fault->0))
                                } else if placed.has_determined_doc_path
                                    && !spec_validate_tag_path::<T>(id, placed.stack_path()) {
                                    (
                                        placed,
                                        Err(
                                            ReadFault::CorruptedFileData(
                                                CorruptedFileError::HierarchyError {
                                                    found_tag_id: id,
                                                    current_parent_id: placed.innermost_id(),
                                                },
                                            ),
                                        ),
                                    )
                                } else {
                                    (placed, placed.sized(header))
                                }
                            } else {
                                (self, self.sized(header))
                            }
                        }
                    },
                }
            },
        }
    }

    /// The header, where the size that it claims is in order.
    pub open spec fn sized(self, header: TagHeader) -> Result<TagHeader, ReadFault> {
        match header.size {
            EBMLSize::Known(size) => {
                if !self.allow_oversized_tags && self.exceeds_a_parent(header.header_len + size) {
                    Err(
                        ReadFault::CorruptedFileData(
                            CorruptedFileError::OversizedChildElement {
                                position: self.offset,
                                tag_id: header.id,
                                size,
                            },
                        ),
                    )
                } else if self.max_allowed_tag_size matches Some(max) && size > max {
                    Err(
                        ReadFault::CorruptedFileData(
                            CorruptedFileError::InvalidTagSize {
                                position: self.offset,
                                tag_id: header.id,
                                size,
                            },
                        ),
                    )
                } else {
                    Ok(header)
                }
            },
            EBMLSize::Unknown => Ok(header),
        }
    }

    /// What reading the tag at the place gives: the tag as it would stand
    /// among the open tags, or a fault, and the state after it.
    ///
    /// The place moves behind the header as soon as the header is in order,
    /// and behind the body as soon as the body is there. Of a master tag only
    /// the header is read. A body that the document does not hold in full, a
    /// tag that is no master and has an unknown size, a body that cannot be
    /// read as what is declared, and a tag that the specification does not
    /// make are faults.
    pub open spec fn read_one<T: EbmlSpecification>(self) -> (
        ReaderState,
        Result<OpenTag, ReadFault>,
    ) {
        let tag_start = self.offset;
        let (looked, header) = self.peeked::<T>();
        match header {
            Err(fault) => (looked, Err(fault)),
            Ok(header) => {
                let data_start = (self.offset + header.header_len) as usize;
                let at_body = ReaderState { offset: data_start, ..looked };
                if header.data_type == Some(TagDataType::Master) {
                    if T::spec_makes(start_of(header.id)) {
                        (
                            at_body,
                            Ok(
                                OpenTag {
                                    tag: start_of(header.id),
                                    size: header.size,
                                    tag_start,
                                    data_start,
                                },
                            ),
                        )
                    } else {
                        (at_body, Err(invalid_id(header.id, tag_start)))
                    }
                } else {
                    match header.size {
                        EBMLSize::Unknown => (at_body, Err(invalid_data(header.id, tag_start))),
                        EBMLSize::Known(size) => {
                            if data_start + size > self.data.len() {
                                (
                                    at_body,
                                    Err(
                                        ReadFault::UnexpectedEOF {
                                            tag_start,
                                            tag_id: Some(header.id),
                                            tag_size: Some(size),
                                            partial_data: Some(at_body.rest()),
                                        },
                                    ),
                                )
                            } else {
                                let raw = self.data.subrange(data_start as int, data_start + size);
                                let behind = ReaderState {
                                    offset: (data_start + size) as usize,
                                    ..looked
                                };
                                match payload::<T>(header.id, header.data_type, raw) {
                                    Err(fault) => (behind, Err(fault)),
                                    Ok(tag) => if header.data_type is None || T::spec_makes(tag) {
                                        (
                                            behind,
                                            Ok(
                                                OpenTag {
                                                    tag,
                                                    size: header.size,
                                                    tag_start,
                                                    data_start,
                                                },
                                            ),
                                        )
                                    } else {
                                        (behind, Err(invalid_id(header.id, tag_start)))
                                    },
                                }
                            }
                        },
                    }
                }
            },
        }
    }

    /// The state after the open tags were closed whose bodies of known size
    /// have ended: the outermost such tag is closed with all tags within it,
    /// and their closing tags are ready, innermost first.
    pub open spec fn closed_known(self) -> ReaderState {
        match first_ended(self.stack, self.offset, 0) {
            None => self,
            Some(keep) => ReaderState {
                stack: self.stack.subrange(0, keep as int),
                queue: self.queue + unwound(self.stack, keep),
                ..self
            },
        }
    }

    /// The state after the innermost open tag was closed.
    pub open spec fn closed_one(self) -> ReaderState {
        ReaderState {
            stack: self.stack.drop_last(),
            queue: self.queue + closings(self.stack.last()),
            ..self
        }
    }

    /// The state after the innermost open tags of unknown size were closed
    /// that the tag `id` ends, one after the other, up to the first open tag
    /// that has a known size or that `id` does not end.
    pub open spec fn closed_unknown<T: EbmlSpecification>(self, id: u64) -> ReaderState
        decreases self.stack.len(),
    {
        if self.stack.len() > 0 && self.stack.last().size is Unknown && spec_is_ended_by::<T>(
            self.stack.last().tag.id,
            id,
        ) {
            self.closed_one().closed_unknown::<T>(id)
        } else {
            self
        }
    }

    /// The state after all open tags were closed, innermost first.
    pub open spec fn unwound_all(self) -> ReaderState {
        ReaderState { stack: Seq::empty(), queue: self.queue + unwound(self.stack, 0), ..self }
    }

    /// The state after the search for the end of the master tag `id` has
    /// stopped at `stop`, with what was ready before the search in the first
    /// `before` places.
    ///
    /// Where the search stopped at a fault, the fault takes the place of all
    /// that was found. Where it stopped at the end of the tag, the tags that
    /// were found before it become the children of the full tag, which is
    /// ready with the start of the tag as its place; what was found after the
    /// end stays ready behind it.
    pub open spec fn collected<T: EbmlSpecification>(
        self,
        id: u64,
        tag_start: usize,
        before: nat,
        stop: nat,
    ) -> ReaderState {
        match self.queue[stop as int] {
            Err(fault) => ReaderState {
                queue: self.queue.subrange(0, before as int).push(Err(fault)),
                ..self
            },
            Ok(_) => {
                let whole: Emission = match rolled::<T>(id, tags_between(self.queue, before, stop)) {
                    Ok(full) => Ok((full, tag_start)),
                    Err(bad) => Err(invalid_id(bad, tag_start)),
                };
                ReaderState {
                    queue: self.queue.subrange(0, before as int).push(whole) + self.queue.subrange(
                        stop as int + 1,
                        self.queue.len() as int,
                    ),
                    ..self
                }
            },
        }
    }

    /// The state after the master tag `id`, which started at `tag_start` and
    /// was opened last, was read to its end.
    ///
    /// Tags are read, each as `advanced` says, until the end of the tag or a
    /// fault is among what is ready from the place `from` on. Where the
    /// document ends before that, this is a fault.
    pub open spec fn buffered<T: EbmlSpecification>(
        self,
        id: u64,
        tag_start: usize,
        before: nat,
        from: nat,
    ) -> ReaderState
        decreases self.remaining(), self.stack.len(), 1nat,
        when self.wf()
    {
        let next = self.advanced::<T>();
        if from >= next.queue.len() {
            next.enqueue(
                Err(
                    ReadFault::UnexpectedEOF {
                        tag_start,
                        tag_id: Some(id),
                        tag_size: None,
                        partial_data: None,
                    },
                ),
            )
        } else {
            match first_stop(next.queue, id, from) {
                Some(stop) => next.collected::<T>(id, tag_start, before, stop),
                None => if next.smaller_than(self) {
                    next.buffered::<T>(id, tag_start, before, next.queue.len())
                } else {
                    next
                },
            }
        }
    }

    /// The state after the next tag was read.
    ///
    /// First the open tags are closed whose bodies of known size have ended.
    /// At the end of the document all open tags are closed. Else a tag is
    /// read. A fault is made ready as it is. Before a tag is made ready, the
    /// open tags of unknown size that it ends are closed. The start of a
    /// master tag opens the tag; where the tag is to be given out whole, it
    /// is read to its end, and else its start is made ready.
    pub open spec fn advanced<T: EbmlSpecification>(self) -> ReaderState
        decreases self.remaining(), self.stack.len(), 0nat,
        when self.wf()
    {
        let settled = self.closed_known();
        if settled.offset >= settled.data.len() {
            settled.unwound_all()
        } else {
            let (read, outcome) = settled.read_one::<T>();
            match outcome {
                Err(fault) => read.enqueue(Err(fault)),
                Ok(found) => {
                    let id = found.tag.id;
                    let cleared = read.closed_unknown::<T>(id);
                    if found.tag == start_of(id) {
                        if !T::spec_makes(end_of(id)) {
                            cleared.enqueue(Err(invalid_id(id, found.tag_start)))
                        } else {
                            let opened = ReaderState {
                                stack: cleared.stack.push(
                                    OpenTag {
                                        tag: end_of(id),
                                        size: found.size,
                                        tag_start: found.tag_start,
                                        data_start: found.data_start,
                                    },
                                ),
                                ..cleared
                            };
                            if self.buffered_ids.contains(id) {
                                proof {
                                    lemma_read_one_moves::<T>(settled);
                                    lemma_closed_unknown_keeps_place::<T>(read, id);
                                }
                                opened.buffered::<T>(
                                    id,
                                    found.tag_start,
                                    opened.queue.len(),
                                    opened.queue.len(),
                                )
                            } else {
                                opened.enqueue(Ok((found.tag, found.tag_start)))
                            }
                        }
                    } else {
                        cleared.enqueue(Ok((found.tag, found.tag_start)))
                    }
                },
            }
        }
    }

    /// Whether the bytes from the place on hold all that the next tag is
    /// read from: a whole header, and the whole body where the tag is no
    /// master tag. The start of a master tag that is given out whole is read
    /// together with what follows it, so the bytes never hold all of that
    /// as long as more may come.
    pub open spec fn holds_next<T: EbmlSpecification>(self) -> bool {
        let bytes = self.rest();
        match spec_peek_tag_id(bytes) {
            None => false,
            Some((id, id_len)) => match decode_unsigned(
                bytes.subrange(id_len as int, bytes.len() as int),
            ) {
                Err(_) => true,
                Ok(None) => false,
                Ok(Some((raw_size, size_len))) => {
                    if T::spec_tag_data_type(id) == Some(TagDataType::Master) {
                        !self.buffered_ids.contains(id)
                    } else {
                        !(EBMLSize::spec_new(raw_size, size_len) matches EBMLSize::Known(n)
                            && id_len + size_len + n > bytes.len())
                    }
                },
            },
        }
    }

    /// Whether the iterator has to wait for more bytes before the next tag
    /// can be read, as long as more bytes may come: nothing is ready, and
    /// the bytes do not hold all that the next tag is read from. Where it
    /// need not wait, what it gives out does not depend on the bytes that
    /// come later.
    pub open spec fn awaits<T: EbmlSpecification>(self) -> bool {
        self.queue.len() == 0 && !self.holds_next::<T>()
    }

    /// What asking for the next tag gives, and the state after it.
    ///
    /// Where nothing is ready, the next tag is read. Then the first of what
    /// is ready is given out; where that is a tag, its place is kept as the
    /// place of the last tag. Nothing is given out at the end of the document.
    pub open spec fn stepped<T: EbmlSpecification>(self) -> (ReaderState, Option<Emission>) {
        let filled = if self.queue.len() == 0 {
            self.advanced::<T>()
        } else {
            self
        };
        if filled.queue.len() == 0 {
            (filled, None)
        } else {
            let first = filled.queue[0];
            (
                ReaderState {
                    queue: filled.queue.subrange(1, filled.queue.len() as int),
                    last_emitted_tag_offset: match first {
                        Ok((_, place)) => place,
                        Err(_) => filled.last_emitted_tag_offset,
                    },
                    ..filled
                },
                Some(first),
            )
        }
    }

    /// The state after bytes were passed over, one at a time, up to the first
    /// place at which a header is in order, and the fault where the document
    /// ends before such a place.
    pub open spec fn skipped<T: EbmlSpecification>(self) -> (ReaderState, Option<ReadFault>)
        decreases self.data.len() - self.offset,
        when self.wf()
    {
        if self.offset >= self.data.len() {
            (self, Some(self.eof(None)))
        } else {
            let moved = ReaderState { offset: (self.offset + 1) as usize, ..self };
            let (looked, header) = moved.peeked::<T>();
            if header is Ok {
                (looked, None)
            } else {
                proof {
                    lemma_peeked_keeps_place::<T>(moved);
                }
                looked.skipped::<T>()
            }
        }
    }

    /// The open tags, each of known size made longer by `by` bytes, up to the
    /// greatest size that this machine can say.
    pub open spec fn stretched(stack: Seq<OpenTag>, by: int) -> Seq<OpenTag> {
        Seq::new(
            stack.len(),
            |i: int|
                match stack[i].size {
                    EBMLSize::Known(size) => OpenTag {
                        size: EBMLSize::Known(
                            if size + by > usize::MAX {
                                usize::MAX
                            } else {
                                (size + by) as usize
                            },
                        ),
                        ..stack[i]
                    },
                    EBMLSize::Unknown => stack[i],
                },
        )
    }

    /// What recovery gives: bytes are passed over up to the first place at
    /// which a header is in order, and every open tag of known size is made
    /// longer by the number of these bytes, so that it ends where it ended in
    /// the document. Where the document ends first, this is a fault, and the
    /// place stays at the end.
    pub open spec fn recovered<T: EbmlSpecification>(self) -> (ReaderState, Option<ReadFault>) {
        let (found, fault) = self.skipped::<T>();
        if fault is Some {
            (found, fault)
        } else {
            (
                ReaderState {
                    stack: Self::stretched(found.stack, found.offset - self.offset),
                    ..found
                },
                None,
            )
        }
    }
}

/// A look at a header leaves the bytes, the place, what is ready and the
/// settings as they are.
pub proof fn lemma_peeked_keeps_place<T: EbmlSpecification>(s: ReaderState)
    ensures
        s.wf() ==> s.peeked::<T>().0.follows(s),
        s.peeked::<T>().0.data == s.data,
        s.peeked::<T>().0.offset == s.offset,
        s.peeked::<T>().0.queue == s.queue,
        s.peeked::<T>().0.buffered_ids == s.buffered_ids,
        s.peeked::<T>().0.allow_invalid_tag_ids == s.allow_invalid_tag_ids,
        s.peeked::<T>().0.allow_hierarchy_problems == s.allow_hierarchy_problems,
        s.peeked::<T>().0.allow_oversized_tags == s.allow_oversized_tags,
        s.peeked::<T>().0.max_allowed_tag_size == s.max_allowed_tag_size,
        s.peeked::<T>().0.last_emitted_tag_offset == s.last_emitted_tag_offset,
        s.wf() ==> s.peeked::<T>().0.wf(),
        s.wf() ==> (s.peeked::<T>().1 matches Ok(header) ==> 2 <= header.header_len <= 16
            && s.offset + header.header_len <= s.data.len()),
{
    assert(s.queue.subrange(0, s.queue.len() as int) =~= s.queue);
    let bytes = s.rest();
    match spec_peek_tag_id(bytes) {
        None => {},
        Some((id, id_len)) => {
            let after = bytes.subrange(id_len as int, bytes.len() as int);
            match decode_unsigned(after) {
                Ok(Some((raw_size, size_len))) => {
                    if s.wf() {
                        assert(1 <= id_len <= 8 && id_len <= bytes.len());
                        assert(1 <= size_len <= 8 && size_len <= after.len());
                        assert(bytes.len() == s.data.len() - s.offset);
                        assert(after.len() == bytes.len() - id_len);
                    }
                },
                _ => {},
            }
        },
    }
}

/// The end of a master tag is found within the tags or not at all.
pub proof fn lemma_end_index_bound(tags: Seq<TagModel>, id: u64, from: nat)
    requires
        from <= tags.len(),
    ensures
        from <= end_index(tags, id, from) <= tags.len(),
        end_index(tags, id, from) < tags.len() ==> tags[end_index(tags, id, from) as int] == end_of(
            id,
        ),
        forall|k: int| from <= k < end_index(tags, id, from) ==> tags[k] != end_of(id),
    decreases tags.len() - from,
{
    if from < tags.len() && tags[from as int] != end_of(id) {
        lemma_end_index_bound(tags, id, from + 1);
    }
}

/// Reading a tag leaves the bytes and what is ready as they are, and moves
/// the place forward: by two bytes at least where a tag was read.
pub proof fn lemma_read_one_moves<T: EbmlSpecification>(s: ReaderState)
    requires
        s.wf(),
    ensures
        s.read_one::<T>().0.follows(s),
        s.read_one::<T>().0.wf(),
        s.read_one::<T>().0.data == s.data,
        s.read_one::<T>().0.queue == s.queue,
        s.read_one::<T>().0.buffered_ids == s.buffered_ids,
        s.read_one::<T>().0.offset >= s.offset,
        s.read_one::<T>().1 is Ok ==> s.read_one::<T>().0.offset >= s.offset + 2,
        s.read_one::<T>().1 matches Ok(found) ==> found.tag_start == s.offset && found.data_start
            <= s.read_one::<T>().0.offset,
{
    lemma_peeked_keeps_place::<T>(s);
}

/// Closing open tags of unknown size leaves the bytes and the place as they
/// are, takes tags from the open tags, and adds to what is ready.
pub proof fn lemma_closed_unknown_keeps_place<T: EbmlSpecification>(s: ReaderState, id: u64)
    ensures
        s.closed_unknown::<T>(id).data == s.data,
        s.closed_unknown::<T>(id).offset == s.offset,
        s.closed_unknown::<T>(id).buffered_ids == s.buffered_ids,
        s.closed_unknown::<T>(id).stack.len() <= s.stack.len(),
        s.closed_unknown::<T>(id).queue.len() + s.closed_unknown::<T>(id).stack.len()
            <= s.queue.len() + s.stack.len(),
        s.closed_unknown::<T>(id).queue.len() >= s.queue.len(),
        s.closed_unknown::<T>(id).queue.subrange(0, s.queue.len() as int) == s.queue,
    decreases s.stack.len(),
{
    if s.stack.len() > 0 && s.stack.last().size is Unknown && spec_is_ended_by::<T>(
        s.stack.last().tag.id,
        id,
    ) {
        let next = s.closed_one();
        lemma_closed_unknown_keeps_place::<T>(next, id);
        assert(next.queue.len() >= s.queue.len());
        assert(next.closed_unknown::<T>(id).queue.subrange(0, s.queue.len() as int)
            =~= next.closed_unknown::<T>(id).queue.subrange(0, next.queue.len() as int).subrange(
            0,
            s.queue.len() as int,
        ));
        assert(next.queue.subrange(0, s.queue.len() as int) =~= s.queue);
    } else {
        assert(s.queue.subrange(0, s.queue.len() as int) =~= s.queue);
    }
}

} // verus!
