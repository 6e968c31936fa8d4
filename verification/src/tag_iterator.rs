//! The tag iterator: reads the tags of a document from its bytes.
use std::collections::HashSet;
use std::collections::VecDeque;
use vstd::prelude::*;
use vstd::slice::slice_subrange;
use vstd::slice::slice_to_vec;
use vstd::utf8::decode_utf8;
use vstd::utf8::valid_utf8;
use crate::error::CorruptedFileError;
use crate::error::ReadFault;
use crate::error::TagIteratorError;
use crate::error::ToolError;
use crate::reader_state::closing;
use crate::reader_state::end_index;
use crate::reader_state::first_stop;
use crate::reader_state::is_stop;
use crate::reader_state::lemma_end_index_bound;
use crate::reader_state::lemma_read_one_moves;
use crate::reader_state::rolled;
use crate::reader_state::rolled_children;
use crate::reader_state::tags_between;
use crate::reader_state::first_ended;
use crate::reader_state::first_unmade;
use crate::reader_state::invalid_id;
use crate::reader_state::lemma_peeked_keeps_place;
use crate::reader_state::payload;
use crate::reader_state::planted_stack;
use crate::reader_state::spec_peek_tag_id;
use crate::reader_state::start_of;
use crate::reader_state::unwound;
use crate::reader_state::Emission;
use crate::reader_state::OpenTag;
use crate::reader_state::ReaderState;
use crate::reader_state::TagHeader;
use crate::spec_util::is_plain_path;
use crate::spec_util::spec_validate_tag_path;
use crate::spec_util::validate_tag_path;
use crate::spec_util::DocNode;
use crate::specs::EbmlSpecification;
use crate::specs::EbmlTag;
use crate::specs::Master;
use crate::specs::MasterModel;
use crate::specs::tag_models;
use crate::specs::master_model;
use crate::specs::PathPart;
use crate::specs::TagDataType;
use crate::specs::TagModel;
use crate::tag_iterator_util::AllowableErrors;
use crate::tag_iterator_util::EBMLSize;
use crate::tag_iterator_util::ProcessingTag;
use crate::tools::arr_to_float_bits;
use crate::tools::arr_to_i64;
use crate::tools::arr_to_u64;
use crate::tools::be_decode;
use crate::tools::read_vint;
use crate::tools::width_of_first_byte;

verus! {

/// The ids of the first `n` of `tags`.
pub open spec fn ids_of<T: EbmlTag>(tags: Seq<T>, n: nat) -> Set<u64>
    decreases n,
{
    if n == 0 {
        Set::empty()
    } else {
        ids_of(tags, (n - 1) as nat).insert(tags[n - 1].model().id)
    }
}

/// What an open tag of the iterator is.
pub open spec fn open_tag<T: EbmlTag>(p: ProcessingTag<T>) -> OpenTag {
    OpenTag { tag: p.tag.model(), size: p.size, tag_start: p.tag_start, data_start: p.data_start }
}

/// What the open tags of the iterator are.
pub open spec fn open_tags<T: EbmlTag>(stack: Seq<ProcessingTag<T>>) -> Seq<OpenTag> {
    Seq::new(stack.len(), |i: int| open_tag(stack[i]))
}

/// What an entry of the iterator's queue is.
pub open spec fn emission<T: EbmlTag>(e: Result<(T, usize), TagIteratorError>) -> Emission {
    match e {
        Ok((tag, place)) => Ok((tag.model(), place)),
        Err(e) => Err(e.fault()),
    }
}

/// What the entries of the iterator's queue are.
pub open spec fn emissions<T: EbmlTag>(queue: Seq<Result<(T, usize), TagIteratorError>>) -> Seq<
    Emission,
> {
    Seq::new(queue.len(), |i: int| emission(queue[i]))
}

/// Whether `r` is the outcome `expected`: the same value, or an error that
/// says what the fault says.
pub open spec fn read_result<V>(r: Result<V, TagIteratorError>, expected: Result<V, ReadFault>) -> bool {
    match r {
        Ok(v) => expected == Ok::<V, ReadFault>(v),
        Err(e) => expected == Err::<V, ReadFault>(e.fault()),
    }
}

/// Whether `r` is the tag or the fault that `expected` says.
pub open spec fn read_tag_result<T: EbmlTag>(
    r: Result<ProcessingTag<T>, TagIteratorError>,
    expected: Result<OpenTag, ReadFault>,
) -> bool {
    match r {
        Ok(p) => expected == Ok::<OpenTag, ReadFault>(open_tag(p)),
        Err(e) => expected == Err::<OpenTag, ReadFault>(e.fault()),
    }
}

/// `String::from_utf8` of the standard library: gives the text that the bytes
/// spell in UTF-8, and an error where the bytes are not valid UTF-8.
#[verifier::external_body]
fn string_from_utf8(bytes: Vec<u8>) -> (r: Result<String, std::string::FromUtf8Error>)
    ensures
        valid_utf8(bytes@) ==> r is Ok && r->Ok_0@ == decode_utf8(bytes@),
        !valid_utf8(bytes@) ==> r is Err,
{
    String::from_utf8(bytes)
}

/// Reads the id at the front of `bytes`, with the number of bytes that it
/// takes. Gives nothing where the bytes end within the id.
pub fn peek_tag_id(bytes: &[u8]) -> (r: Option<(u64, usize)>)
    ensures
        r == spec_peek_tag_id(bytes@),
        r matches Some((_, len)) ==> 1 <= len <= 8 && len <= bytes@.len(),
{
    if bytes.len() == 0 {
        return None;
    }
    if bytes[0] == 0 {
        return Some((0, 1));
    }
    let length: usize = width_of_first_byte(bytes[0]);
    if length > bytes.len() {
        return None;
    }
    Some((be_decode(bytes, length), length))
}

/// Makes the tag `id` from its body `raw`, read as `data_type`.
fn make_tag<TSpec: EbmlSpecification + EbmlTag + Clone>(
    id: u64,
    data_type: Option<TagDataType>,
    raw: &[u8],
    tag_start: usize,
) -> (r: Result<TSpec, TagIteratorError>)
    requires
        data_type != Some(TagDataType::Master),
    ensures
        match payload::<TSpec>(id, data_type, raw@) {
            Err(fault) => r matches Err(e) && e.fault() == fault,
            Ok(tag) => if data_type is None || TSpec::spec_makes(tag) {
                r matches Ok(t) && t.model() == tag
            } else {
                r matches Err(e) && e.fault() == invalid_id(id, tag_start)
            },
        },
{
    let made: Option<TSpec> = match data_type {
        Some(TagDataType::Master) => None,
        Some(TagDataType::UnsignedInt) => {
            match arr_to_u64(raw) {
                Err(e) => {
                    return Err(TagIteratorError::CorruptedTagData { tag_id: id, problem: e });
                },
                Ok(val) => TSpec::get_unsigned_int_tag(id, val),
            }
        },
        Some(TagDataType::Integer) => {
            match arr_to_i64(raw) {
                Err(e) => {
                    return Err(TagIteratorError::CorruptedTagData { tag_id: id, problem: e });
                },
                Ok(val) => TSpec::get_signed_int_tag(id, val),
            }
        },
        Some(TagDataType::Utf8) => {
            match string_from_utf8(slice_to_vec(raw)) {
                Err(e) => {
                    return Err(
                        TagIteratorError::CorruptedTagData {
                            tag_id: id,
                            problem: ToolError::FromUtf8Error(slice_to_vec(raw), e),
                        },
                    );
                },
                Ok(val) => TSpec::get_utf8_tag(id, val),
            }
        },
        Some(TagDataType::Binary) => TSpec::get_binary_tag(id, raw),
        Some(TagDataType::Float) => {
            match arr_to_float_bits(raw) {
                Err(e) => {
                    return Err(TagIteratorError::CorruptedTagData { tag_id: id, problem: e });
                },
                Ok(val) => TSpec::get_float_tag(id, val),
            }
        },
        None => Some(TSpec::get_raw_tag(id, raw)),
    };
    match made {
        Some(tag) => Ok(tag),
        None => Err(
            TagIteratorError::CorruptedFileData(
                CorruptedFileError::InvalidTagId { tag_id: id, position: tag_start },
            ),
        ),
    }
}

/// Reads the tags of a document from its bytes, one after the other.
///
/// The iterator needs a specification: a tag type that says which ids there
/// are, what each holds and where it may stand. A master tag is given out as
/// its start and, after the tags within it, its end; the iterator can be told
/// to give out chosen master tags whole, each with all of its children.
///
/// The iterator holds the bytes of the document as far as it was given
/// them; `append` gives it more. `next` takes the bytes that it holds for the
/// whole document. Where more bytes may come, `try_next` reads the next tag
/// only if the bytes that are there hold all of it, and else says that it
/// waits for more.
///
/// Every call of `next` can fail. After a fault the iterator goes on where
/// it stands, which is of use only after `try_recover`.
pub struct TagIterator<TSpec> {
    source: Vec<u8>,
    position: usize,
    tag_ids_to_buffer: HashSet<u64>,
    allow_invalid_tag_ids: bool,
    allow_hierarchy_problems: bool,
    allow_oversized_tags: bool,
    max_allowed_tag_size: Option<usize>,
    tag_stack: Vec<ProcessingTag<TSpec>>,
    emission_queue: VecDeque<Result<(TSpec, usize), TagIteratorError>>,
    last_emitted_tag_offset: usize,
    has_determined_doc_path: bool,
}

impl<TSpec: EbmlSpecification + EbmlTag + Clone> View for TagIterator<TSpec> {
    type V = ReaderState;

    closed spec fn view(&self) -> ReaderState {
        ReaderState {
            data: self.source@,
            offset: self.position,
            buffered_ids: self.tag_ids_to_buffer@,
            allow_invalid_tag_ids: self.allow_invalid_tag_ids,
            allow_hierarchy_problems: self.allow_hierarchy_problems,
            allow_oversized_tags: self.allow_oversized_tags,
            max_allowed_tag_size: self.max_allowed_tag_size,
            stack: open_tags(self.tag_stack@),
            queue: emissions(self.emission_queue@),
            last_emitted_tag_offset: self.last_emitted_tag_offset,
            has_determined_doc_path: self.has_determined_doc_path,
        }
    }
}

impl<TSpec: EbmlSpecification + EbmlTag + Clone> TagIterator<TSpec> {
    /// Whether the iterator is in order: see [`ReaderState::wf`].
    pub open spec fn wf(&self) -> bool {
        self@.wf()
    }

    /// An iterator over the tags of the document `source`, which gives out
    /// whole the master tags that have the id of one of `tags_to_buffer`.
    pub fn new(source: Vec<u8>, tags_to_buffer: &[TSpec]) -> (r: Self)
        ensures
            r.wf(),
            r@ == (ReaderState {
                data: source@,
                offset: 0,
                buffered_ids: ids_of(tags_to_buffer@, tags_to_buffer@.len()),
                allow_invalid_tag_ids: false,
                allow_hierarchy_problems: false,
                allow_oversized_tags: false,
                max_allowed_tag_size: None,
                stack: Seq::empty(),
                queue: Seq::empty(),
                last_emitted_tag_offset: 0,
                has_determined_doc_path: false,
            }),
    {
        broadcast use vstd::std_specs::hash::group_hash_axioms;

        let mut ids: HashSet<u64> = HashSet::new();
        let mut i: usize = 0;
        while i < tags_to_buffer.len()
            invariant
                i <= tags_to_buffer@.len(),
                ids@ == ids_of(tags_to_buffer@, i as nat),
            decreases tags_to_buffer@.len() - i,
        {
            ids.insert(tags_to_buffer[i].get_id());
            i += 1;
        }
        let len: usize = source.len();
        let r = TagIterator {
            source,
            position: 0,
            tag_ids_to_buffer: ids,
            allow_invalid_tag_ids: false,
            allow_hierarchy_problems: false,
            allow_oversized_tags: false,
            max_allowed_tag_size: None,
            tag_stack: Vec::new(),
            emission_queue: VecDeque::new(),
            last_emitted_tag_offset: 0,
            has_determined_doc_path: false,
        };
        proof {
            assert(r@.stack =~= Seq::empty());
            assert(r@.queue =~= Seq::empty());
        }
        r
    }

    /// Tells the iterator which checks to leave out: all those of `errors`,
    /// and no others.
    ///
    /// An iterator makes every check unless it is told otherwise. With a
    /// check left out, the iterator believes the sizes that a damaged document
    /// claims, and may ask for very much memory.
    pub fn allow_errors(&mut self, errors: &[AllowableErrors])
        ensures
            final(self)@ == (ReaderState {
                allow_invalid_tag_ids: errors@.contains(AllowableErrors::InvalidTagIds),
                allow_hierarchy_problems: errors@.contains(AllowableErrors::HierarchyProblems),
                allow_oversized_tags: errors@.contains(AllowableErrors::OversizedTags),
                ..old(self)@
            }),
    {
        let mut ids: bool = false;
        let mut hierarchy: bool = false;
        let mut oversized: bool = false;
        let mut i: usize = 0;
        while i < errors.len()
            invariant
                i <= errors@.len(),
                ids == errors@.subrange(0, i as int).contains(AllowableErrors::InvalidTagIds),
                hierarchy == errors@.subrange(0, i as int).contains(
                    AllowableErrors::HierarchyProblems,
                ),
                oversized == errors@.subrange(0, i as int).contains(AllowableErrors::OversizedTags),
            decreases errors@.len() - i,
        {
            proof {
                let before = errors@.subrange(0, i as int);
                let after = errors@.subrange(0, i + 1);
                assert(after =~= before.push(errors@[i as int]));
                assert forall|x: AllowableErrors|
                    after.contains(x) == (before.contains(x) || x == errors@[i as int]) by {
                    if before.contains(x) {
                        let k = choose|k: int| 0 <= k < before.len() && before[k] == x;
                        assert(after[k] == x);
                    }
                    if x == errors@[i as int] {
                        assert(after[i as int] == x);
                    }
                }
            }
            match errors[i] {
                AllowableErrors::InvalidTagIds => {
                    ids = true;
                },
                AllowableErrors::HierarchyProblems => {
                    hierarchy = true;
                },
                AllowableErrors::OversizedTags => {
                    oversized = true;
                },
            }
            i += 1;
        }
        proof {
            assert(errors@.subrange(0, i as int) =~= errors@);
        }
        self.allow_invalid_tag_ids = ids;
        self.allow_hierarchy_problems = hierarchy;
        self.allow_oversized_tags = oversized;
    }

    /// Sets the longest body that the iterator accepts, or lifts the limit.
    pub fn set_max_allowable_tag_size(&mut self, size: Option<usize>)
        ensures
            final(self)@ == (ReaderState { max_allowed_tag_size: size, ..old(self)@ }),
    {
        self.max_allowed_tag_size = size;
    }

    /// Gives up the iterator for the bytes of the document. What was ready to
    /// be given out is lost.
    pub fn into_inner(self) -> (r: Vec<u8>)
        ensures
            r@ == self@.data,
    {
        self.source
    }

    /// The bytes of the document.
    pub fn get_ref(&self) -> (r: &Vec<u8>)
        ensures
            r@ == self@.data,
    {
        &self.source
    }

    /// Adds `bytes` at the end of the document, as long as the document stays
    /// of a length that this machine can say; gives whether it did.
    pub fn append(&mut self, bytes: &[u8]) -> (r: bool)
        requires
            old(self).wf(),
        ensures
            final(self).wf(),
            r == (old(self)@.data.len() + bytes@.len() <= usize::MAX),
            r ==> final(self)@ == (ReaderState { data: old(self)@.data + bytes@, ..old(self)@ }),
            !r ==> final(self)@ == old(self)@,
    {
        if bytes.len() > usize::MAX - self.source.len() {
            return false;
        }
        crate::tag_writer::extend_bytes(&mut self.source, bytes);
        true
    }

    /// Whether the iterator has to wait for more bytes before the next tag
    /// can be read: see [`ReaderState::awaits`].
    pub fn needs_more(&self) -> (r: bool)
        requires
            self.wf(),
        ensures
            r == self@.awaits::<TSpec>(),
    {
        if self.emission_queue.len() > 0 {
            return false;
        }
        let bytes: &[u8] = self.rest();
        let (tag_id, id_len): (u64, usize) = match peek_tag_id(bytes) {
            None => {
                return true;
            },
            Some(found) => found,
        };
        let after_id: &[u8] = slice_subrange(bytes, id_len, bytes.len());
        let (raw_size, size_len): (u64, usize) = match read_vint(after_id) {
            Err(_) => {
                return false;
            },
            Ok(None) => {
                return true;
            },
            Ok(Some(found)) => found,
        };
        proof {
            assert(1 <= size_len <= 8 && size_len <= after_id@.len());
        }
        match TSpec::get_tag_data_type(tag_id) {
            Some(TagDataType::Master) => self.buffers(tag_id),
            _ => match EBMLSize::new(raw_size, size_len) {
                EBMLSize::Known(n) => n > bytes.len() - id_len - size_len,
                EBMLSize::Unknown => false,
            },
        }
    }

    /// Gives out the next tag as `next` does, unless the iterator has to
    /// wait for more bytes: then it gives nothing and stays as it is. This
    /// is for a caller that hands the document over in parts: it adds bytes
    /// with `append` while the iterator waits, and calls `next` once no more
    /// bytes will come.
    pub fn try_next(&mut self) -> (r: Option<Option<Result<TSpec, TagIteratorError>>>)
        requires
            old(self).wf(),
        ensures
            final(self).wf(),
            old(self)@.awaits::<TSpec>() ==> r is None && final(self)@ == old(self)@,
            !old(self)@.awaits::<TSpec>() ==> r is Some && final(self)@ == old(self)@.stepped::<
                TSpec,
            >().0 && (match old(self)@.stepped::<TSpec>().1 {
                None => r->0 is None,
                Some(Ok((tag, _))) => r->0 matches Some(Ok(t)) && t.model() == tag,
                Some(Err(fault)) => r->0 matches Some(Err(e)) && e.fault() == fault,
            }),
    {
        if self.needs_more() {
            return None;
        }
        Some(self.next())
    }

    /// Where the tag starts that was given out last. For the end of a master
    /// tag this is where the tag started, which lies before the places of the
    /// tags within it.
    pub fn last_emitted_tag_offset(&self) -> (r: usize)
        ensures
            r == self@.last_emitted_tag_offset,
    {
        self.last_emitted_tag_offset
    }

    /// The place of the next byte to read.
    pub fn current_offset(&self) -> (r: usize)
        ensures
            r == self@.offset,
    {
        self.position
    }

    /// The bytes from the place on.
    fn rest(&self) -> (r: &[u8])
        requires
            self.wf(),
        ensures
            r@ == self@.rest(),
    {
        slice_subrange(self.source.as_slice(), self.position, self.source.len())
    }

    /// The open tags as the path check sees them.
    fn stack_nodes(&self) -> (r: Vec<DocNode>)
        ensures
            r@ == self@.stack_path(),
    {
        let mut nodes: Vec<DocNode> = Vec::new();
        let mut i: usize = 0;
        while i < self.tag_stack.len()
            invariant
                i <= self.tag_stack@.len(),
                nodes@ == self@.stack_path().subrange(0, i as int),
            decreases self.tag_stack@.len() - i,
        {
            nodes.push((self.tag_stack[i].tag.get_id(), self.tag_stack[i].size, 0));
            proof {
                assert(nodes@ =~= self@.stack_path().subrange(0, i + 1));
            }
            i += 1;
        }
        proof {
            assert(nodes@ =~= self@.stack_path());
        }
        nodes
    }

    fn validate_tag_path(&self, tag_id: u64) -> (r: bool)
        ensures
            r == spec_validate_tag_path::<TSpec>(tag_id, self@.stack_path()),
    {
        let nodes: Vec<DocNode> = self.stack_nodes();
        validate_tag_path::<TSpec>(tag_id, nodes.as_slice())
    }

    /// Whether a tag with a header of `header_len` bytes and a body of `size`
    /// bytes at the place reaches beyond the end of an open tag.
    fn is_invalid_tag_size(&self, header_len: usize, size: usize) -> (r: bool)
        ensures
            r == self@.exceeds_a_parent(header_len + size),
    {
        let mut i: usize = 0;
        while i < self.tag_stack.len()
            invariant
                i <= self.tag_stack@.len(),
                forall|k: int|
                    0 <= k < i ==> !((#[trigger] self@.stack[k]).size matches EBMLSize::Known(s)
                        && self@.stack[k].data_start + s < self@.offset + (header_len + size)),
            decreases self.tag_stack@.len() - i,
        {
            match self.tag_stack[i].size {
                EBMLSize::Known(s) => {
                    let end: u128 = self.tag_stack[i].data_start as u128 + s as u128;
                    let wanted: u128 = self.position as u128 + header_len as u128 + size as u128;
                    if end < wanted {
                        proof {
                            assert(self@.stack[i as int].size == EBMLSize::Known(s));
                        }
                        return true;
                    }
                },
                EBMLSize::Unknown => {},
            }
            i += 1;
        }
        false
    }

    /// The id of the innermost open tag.
    fn innermost_id(&self) -> (r: Option<u64>)
        ensures
            r == self@.innermost_id(),
    {
        if self.tag_stack.len() == 0 {
            None
        } else {
            Some(self.tag_stack[self.tag_stack.len() - 1].tag.get_id())
        }
    }

    /// Takes the ancestors of the tag `tag_id` as open, where this is the
    /// first tag whose path says what they are.
    fn plant_doc_path(&mut self, tag_id: u64) -> (r: Result<(), TagIteratorError>)
        ensures
            final(self)@ == old(self)@.placed::<TSpec>(tag_id).0,
            match old(self)@.placed::<TSpec>(tag_id).1 {
                Some(fault) => r matches Err(e) && e.fault() == fault,
                None => r is Ok,
            },
    {
        if self.has_determined_doc_path {
            return Ok(());
        }
        let path: &[PathPart] = TSpec::get_path_by_id(tag_id);
        let mut i: usize = 0;
        while i < path.len()
            invariant
                i <= path@.len(),
                path@ == TSpec::spec_path_by_id(tag_id),
                !self.has_determined_doc_path,
                forall|k: int| 0 <= k < i ==> (#[trigger] path@[k]) is Id,
            decreases path@.len() - i,
        {
            match path[i] {
                PathPart::Global(_) => {
                    proof {
                        assert(!(path@[i as int] is Id));
                        assert(!is_plain_path(path@));
                    }
                    return Ok(());
                },
                PathPart::Id(_) => {},
            }
            i += 1;
        }
        let mut stack: Vec<ProcessingTag<TSpec>> = Vec::new();
        let mut i: usize = 0;
        while i < path.len()
            invariant
                i <= path@.len(),
                is_plain_path(path@),
                path@ == TSpec::spec_path_by_id(tag_id),
                first_unmade::<TSpec>(path@, 0) == first_unmade::<TSpec>(path@, i as nat),
                stack@.len() == i,
                open_tags(stack@) == planted_stack(path@).subrange(0, i as int),
                self@ == old(self)@,
                !self.has_determined_doc_path,
            decreases path@.len() - i,
        {
            match path[i] {
                PathPart::Global(_) => {
                    proof {
                        assert(path@[i as int] is Id);
                    }
                    return Ok(());
                },
                PathPart::Id(id) => {
                    proof {
                        assert(path@[i as int] == PathPart::Id(id));
                        assert(master_model::<TSpec>(Master::Start) == MasterModel::Start);
                    }
                    match TSpec::get_master_tag(id, Master::Start) {
                        None => {
                            return Err(
                                TagIteratorError::CorruptedFileData(
                                    CorruptedFileError::InvalidTagId {
                                        tag_id: id,
                                        position: self.position,
                                    },
                                ),
                            );
                        },
                        Some(tag) => {
                            let ghost before = stack@;
                            stack.push(
                                ProcessingTag {
                                    tag,
                                    size: EBMLSize::Unknown,
                                    tag_start: 0,
                                    data_start: 0,
                                },
                            );
                            proof {
                                assert(stack@.last().tag.model() == start_of(id));
                                assert(planted_stack(path@)[i as int].tag == start_of(id));
                                assert forall|k: int| 0 <= k < i implies open_tags(stack@)[k]
                                    == planted_stack(path@)[k] by {
                                    assert(open_tags(before)[k] == planted_stack(path@).subrange(
                                        0,
                                        i as int,
                                    )[k]);
                                }
                                assert(open_tags(stack@) =~= planted_stack(path@).subrange(0, i + 1));
                            }
                        },
                    }
                },
            }
            i += 1;
        }
        proof {
            assert(planted_stack(path@).subrange(0, i as int) =~= planted_stack(path@));
        }
        let ghost planted = stack@;
        stack.append(&mut self.tag_stack);
        proof {
            assert(open_tags(stack@) =~= open_tags(planted) + open_tags(old(self).tag_stack@));
        }
        self.tag_stack = stack;
        self.has_determined_doc_path = true;
        Ok(())
    }

    /// Holds the size that `header` claims against the open tags and against
    /// the limit.
    fn check_size(&self, header: TagHeader) -> (r: Result<TagHeader, TagIteratorError>)
        ensures
            read_result(r, self@.sized(header)),
    {
        match header.size {
            EBMLSize::Known(size) => {
                if !self.allow_oversized_tags && self.is_invalid_tag_size(header.header_len, size) {
                    return Err(
                        TagIteratorError::CorruptedFileData(
                            CorruptedFileError::OversizedChildElement {
                                position: self.position,
                                tag_id: header.id,
                                size,
                            },
                        ),
                    );
                }
                match self.max_allowed_tag_size {
                    Some(max) => {
                        if size > max {
                            return Err(
                                TagIteratorError::CorruptedFileData(
                                    CorruptedFileError::InvalidTagSize {
                                        position: self.position,
                                        tag_id: header.id,
                                        size,
                                    },
                                ),
                            );
                        }
                    },
                    None => {},
                }
                Ok(header)
            },
            EBMLSize::Unknown => Ok(header),
        }
    }

    /// Looks at the header of the tag at the place, and leaves the place as it
    /// is.
    fn peek_valid_tag_header(&mut self) -> (r: Result<TagHeader, TagIteratorError>)
        requires
            old(self).wf(),
        ensures
            final(self).wf(),
            final(self)@ == old(self)@.peeked::<TSpec>().0,
            read_result(r, old(self)@.peeked::<TSpec>().1),
    {
        proof {
            lemma_peeked_keeps_place::<TSpec>(self@);
        }
        let offset: usize = self.position;
        let bytes: &[u8] = self.rest();
        let (tag_id, id_len): (u64, usize) = match peek_tag_id(bytes) {
            None => {
                return Err(
                    TagIteratorError::UnexpectedEOF {
                        tag_start: offset,
                        tag_id: None,
                        tag_size: None,
                        partial_data: None,
                    },
                );
            },
            Some(found) => found,
        };
        let spec_tag_type: Option<TagDataType> = TSpec::get_tag_data_type(tag_id);
        let after_id: &[u8] = slice_subrange(bytes, id_len, bytes.len());
        let (raw_size, size_len): (u64, usize) = match read_vint(after_id) {
            Err(_) => {
                return Err(
                    TagIteratorError::CorruptedFileData(
                        CorruptedFileError::InvalidTagData { tag_id, position: offset },
                    ),
                );
            },
            Ok(None) => {
                return Err(
                    TagIteratorError::UnexpectedEOF {
                        tag_start: offset,
                        tag_id: Some(tag_id),
                        tag_size: None,
                        partial_data: None,
                    },
                );
            },
            Ok(Some(found)) => found,
        };
        let scalar: bool = match spec_tag_type {
            Some(TagDataType::UnsignedInt) => true,
            Some(TagDataType::Integer) => true,
            Some(TagDataType::Float) => true,
            _ => false,
        };
        if scalar && raw_size > 8 {
            return Err(
                TagIteratorError::CorruptedFileData(
                    CorruptedFileError::InvalidTagData { tag_id, position: offset },
                ),
            );
        }
        if !self.allow_invalid_tag_ids && spec_tag_type.is_none() {
            return Err(
                TagIteratorError::CorruptedFileData(
                    CorruptedFileError::InvalidTagId { tag_id, position: offset },
                ),
            );
        }
        let header = TagHeader {
            id: tag_id,
            data_type: spec_tag_type,
            size: EBMLSize::new(raw_size, size_len),
            header_len: id_len + size_len,
        };
        if !self.allow_hierarchy_problems && spec_tag_type.is_some() {
            match self.plant_doc_path(tag_id) {
                Err(e) => {
                    return Err(e);
                },
                Ok(_) => {},
            }
            if self.has_determined_doc_path && !self.validate_tag_path(tag_id) {
                return Err(
                    TagIteratorError::CorruptedFileData(
                        CorruptedFileError::HierarchyError {
                            found_tag_id: tag_id,
                            current_parent_id: self.innermost_id(),
                        },
                    ),
                );
            }
        }
        self.check_size(header)
    }

    /// Reads the tag at the place.
    fn read_tag(&mut self) -> (r: Result<ProcessingTag<TSpec>, TagIteratorError>)
        requires
            old(self).wf(),
        ensures
            final(self).wf(),
            final(self)@ == old(self)@.read_one::<TSpec>().0,
            read_tag_result(r, old(self)@.read_one::<TSpec>().1),
    {
        proof {
            lemma_peeked_keeps_place::<TSpec>(self@);
        }
        let tag_start: usize = self.position;
        let header: TagHeader = match self.peek_valid_tag_header() {
            Err(e) => {
                return Err(e);
            },
            Ok(header) => header,
        };
        self.position += header.header_len;
        let data_start: usize = self.position;
        match header.data_type {
            Some(TagDataType::Master) => {
                match TSpec::get_master_tag(header.id, Master::Start) {
                    Some(tag) => Ok(ProcessingTag { tag, size: header.size, tag_start, data_start }),
                    None => Err(
                        TagIteratorError::CorruptedFileData(
                            CorruptedFileError::InvalidTagId {
                                tag_id: header.id,
                                position: tag_start,
                            },
                        ),
                    ),
                }
            },
            _ => {
                match header.size {
                    EBMLSize::Unknown => Err(
                        TagIteratorError::CorruptedFileData(
                            CorruptedFileError::InvalidTagData {
                                tag_id: header.id,
                                position: tag_start,
                            },
                        ),
                    ),
                    EBMLSize::Known(size) => {
                        if size > self.source.len() - self.position {
                            return Err(
                                TagIteratorError::UnexpectedEOF {
                                    tag_start,
                                    tag_id: Some(header.id),
                                    tag_size: Some(size),
                                    partial_data: Some(slice_to_vec(self.rest())),
                                },
                            );
                        }
                        let raw: &[u8] = slice_subrange(
                            self.source.as_slice(),
                            self.position,
                            self.position + size,
                        );
                        let made: Result<TSpec, TagIteratorError> = make_tag::<TSpec>(
                            header.id,
                            header.data_type,
                            raw,
                            tag_start,
                        );
                        self.position += size;
                        match made {
                            Ok(tag) => Ok(
                                ProcessingTag { tag, size: header.size, tag_start, data_start },
                            ),
                            Err(e) => Err(e),
                        }
                    },
                }
            },
        }
    }

    /// Makes `e` ready to be given out.
    fn enqueue(&mut self, e: Result<(TSpec, usize), TagIteratorError>)
        requires
            old(self).wf(),
        ensures
            final(self).wf(),
            final(self)@ == old(self)@.enqueue(emission(e)),
            final(self)@.follows(old(self)@),
    {
        let ghost entry = emission(e);
        self.emission_queue.push_back(e);
        proof {
            assert(emissions(self.emission_queue@) =~= emissions(old(self).emission_queue@).push(
                entry,
            ));
            assert(self@.queue.subrange(0, old(self)@.queue.len() as int) =~= old(self)@.queue);
        }
    }

    /// Takes `p` among the open tags, as the innermost.
    fn push_open(&mut self, p: ProcessingTag<TSpec>)
        requires
            old(self).wf(),
        ensures
            final(self).wf(),
            final(self)@ == (ReaderState { stack: old(self)@.stack.push(open_tag(p)), ..old(self)@ }),
    {
        let ghost entry = open_tag(p);
        self.tag_stack.push(p);
        proof {
            assert(open_tags(self.tag_stack@) =~= open_tags(old(self).tag_stack@).push(entry));
        }
    }

    /// Closes the innermost open tag: its closing tag is ready, unless it is
    /// an ancestor that was taken as open and never read.
    fn pop_to_queue(&mut self)
        requires
            old(self).wf(),
            old(self)@.stack.len() > 0,
        ensures
            final(self).wf(),
            final(self)@ == old(self)@.closed_one(),
            final(self)@.follows(old(self)@),
    {
        match self.tag_stack.pop() {
            Some(t) => {
                proof {
                    assert(open_tags(self.tag_stack@) =~= open_tags(old(self).tag_stack@).drop_last());
                    assert(open_tag(t) == old(self)@.stack.last());
                }
                let assumed: bool = match t.tag.as_master() {
                    Some(Master::Start) => true,
                    _ => false,
                };
                if assumed {
                    proof {
                        assert(self@.queue + Seq::<Emission>::empty() =~= self@.queue);
                        assert(self@.queue.subrange(0, old(self)@.queue.len() as int)
                            =~= old(self)@.queue);
                    }
                } else {
                    let ghost entry = closing(open_tag(t));
                    self.emission_queue.push_back(Ok((t.tag, t.tag_start)));
                    proof {
                        assert(emissions(self.emission_queue@) =~= emissions(
                            old(self).emission_queue@,
                        ) + seq![entry]);
                        assert(self@.queue.subrange(0, old(self)@.queue.len() as int)
                            =~= old(self)@.queue);
                    }
                }
            },
            None => {},
        }
    }

    /// The outermost open tag whose body of known size has ended.
    fn ended_tag_index(&self) -> (r: Option<usize>)
        ensures
            match r {
                Some(i) => first_ended(self@.stack, self@.offset, 0) == Some(i as nat) && i
                    < self@.stack.len(),
                None => first_ended(self@.stack, self@.offset, 0) is None,
            },
    {
        let mut i: usize = 0;
        while i < self.tag_stack.len()
            invariant
                i <= self.tag_stack@.len(),
                first_ended(self@.stack, self@.offset, 0) == first_ended(
                    self@.stack,
                    self@.offset,
                    i as nat,
                ),
            decreases self.tag_stack@.len() - i,
        {
            match self.tag_stack[i].size {
                EBMLSize::Known(size) => {
                    let end: u128 = self.tag_stack[i].data_start as u128 + size as u128;
                    if self.position as u128 >= end {
                        proof {
                            assert(self@.stack[i as int].size == EBMLSize::Known(size));
                        }
                        return Some(i);
                    }
                },
                EBMLSize::Unknown => {},
            }
            proof {
                assert(self@.stack[i as int] == open_tag(self.tag_stack@[i as int]));
            }
            i += 1;
        }
        None
    }

    /// Closes the open tags whose bodies of known size have ended.
    fn close_ended_tags(&mut self)
        requires
            old(self).wf(),
        ensures
            final(self).wf(),
            final(self)@ == old(self)@.closed_known(),
            final(self)@.follows(old(self)@),
            final(self)@.offset == old(self)@.offset,
            final(self)@.stack.len() + final(self)@.queue.len() <= old(self)@.stack.len() + old(
                self,
            )@.queue.len(),
    {
        proof {
            assert(self@.queue.subrange(0, self@.queue.len() as int) =~= self@.queue);
        }
        match self.ended_tag_index() {
            None => {},
            Some(keep) => {
                while self.tag_stack.len() > keep
                    invariant
                        keep <= self.tag_stack@.len() <= old(self).tag_stack@.len(),
                        self.wf(),
                        self@.follows(old(self)@),
                        self@.offset == old(self)@.offset,
                        self@.has_determined_doc_path == old(self)@.has_determined_doc_path,
                        self@.stack == old(self)@.stack.subrange(0, self@.stack.len() as int),
                        self@.queue + unwound(self@.stack, keep as nat) == old(self)@.queue + unwound(
                            old(self)@.stack,
                            keep as nat,
                        ),
                        self@.stack.len() + self@.queue.len() <= old(self)@.stack.len() + old(
                            self,
                        )@.queue.len(),
                    decreases self.tag_stack@.len(),
                {
                    let ghost before = self@;
                    self.pop_to_queue();
                    proof {
                        assert(self@.stack =~= old(self)@.stack.subrange(
                            0,
                            self@.stack.len() as int,
                        ));
                        assert(self@.queue + unwound(self@.stack, keep as nat) =~= before.queue
                            + unwound(before.stack, keep as nat));
                        assert(self@.queue.subrange(0, old(self)@.queue.len() as int)
                            =~= before.queue.subrange(0, old(self)@.queue.len() as int));
                    }
                }
                proof {
                    assert(self@.queue =~= self@.queue + unwound(self@.stack, keep as nat));
                }
            },
        }
    }

    /// Closes all open tags.
    fn close_all_tags(&mut self)
        requires
            old(self).wf(),
        ensures
            final(self).wf(),
            final(self)@ == old(self)@.unwound_all(),
            final(self)@.follows(old(self)@),
            final(self)@.offset == old(self)@.offset,
            final(self)@.stack.len() + final(self)@.queue.len() <= old(self)@.stack.len() + old(
                self,
            )@.queue.len(),
    {
        proof {
            assert(self@.queue.subrange(0, self@.queue.len() as int) =~= self@.queue);
        }
        while self.tag_stack.len() > 0
            invariant
                self.wf(),
                self@.follows(old(self)@),
                self@.offset == old(self)@.offset,
                self@.has_determined_doc_path == old(self)@.has_determined_doc_path,
                self@.queue + unwound(self@.stack, 0) == old(self)@.queue + unwound(
                    old(self)@.stack,
                    0,
                ),
                self@.stack.len() + self@.queue.len() <= old(self)@.stack.len() + old(
                    self,
                )@.queue.len(),
            decreases self.tag_stack@.len(),
        {
            let ghost before = self@;
            self.pop_to_queue();
            proof {
                assert(self@.queue + unwound(self@.stack, 0) =~= before.queue + unwound(
                    before.stack,
                    0,
                ));
                assert(self@.queue.subrange(0, old(self)@.queue.len() as int)
                    =~= before.queue.subrange(0, old(self)@.queue.len() as int));
            }
        }
        proof {
            assert(self@.queue =~= self@.queue + unwound(self@.stack, 0));
            assert(self@.stack =~= Seq::empty());
        }
    }

    /// Closes the innermost open tags of unknown size that the tag `id` ends.
    fn close_unknown_tags(&mut self, id: u64)
        requires
            old(self).wf(),
        ensures
            final(self).wf(),
            final(self)@ == old(self)@.closed_unknown::<TSpec>(id),
            final(self)@.follows(old(self)@),
            final(self)@.offset == old(self)@.offset,
    {
        proof {
            assert(self@.queue.subrange(0, self@.queue.len() as int) =~= self@.queue);
        }
        let mut going: bool = true;
        while going && self.tag_stack.len() > 0
            invariant
                self.wf(),
                self@.follows(old(self)@),
                self@.offset == old(self)@.offset,
                self@.closed_unknown::<TSpec>(id) == old(self)@.closed_unknown::<TSpec>(id),
                !going ==> self@.closed_unknown::<TSpec>(id) == self@,
            decreases self.tag_stack@.len() + (if going { 1nat } else { 0nat }),
        {
            let top: &ProcessingTag<TSpec> = &self.tag_stack[self.tag_stack.len() - 1];
            proof {
                assert(self@.stack.last() == open_tag(*top));
            }
            let ends: bool = !top.size.is_known() && top.is_ended_by(id);
            if ends {
                let ghost before = self@;
                self.pop_to_queue();
                proof {
                    assert(self@.queue.subrange(0, old(self)@.queue.len() as int)
                        =~= before.queue.subrange(0, old(self)@.queue.len() as int));
                }
            } else {
                going = false;
            }
        }
    }

    /// Whether master tags with the id `id` are given out whole.
    fn buffers(&self, id: u64) -> (r: bool)
        ensures
            r == self@.buffered_ids.contains(id),
    {
        broadcast use vstd::std_specs::hash::group_hash_axioms;

        self.tag_ids_to_buffer.contains(&id)
    }

    /// Reads the next tag and makes ready what is to be given out for it.
    fn read_next(&mut self)
        requires
            old(self).wf(),
        ensures
            final(self).wf(),
            final(self)@ == old(self)@.advanced::<TSpec>(),
            final(self)@.advances_on(old(self)@),
        decreases old(self)@.remaining(), old(self)@.stack.len(), 0nat,
    {
        self.close_ended_tags();
        let ghost settled = self@;
        if self.position >= self.source.len() {
            self.close_all_tags();
            proof {
                assert(self@.queue.subrange(0, old(self)@.queue.len() as int)
                    =~= settled.queue.subrange(0, old(self)@.queue.len() as int));
            }
            return ;
        }
        proof {
            lemma_read_one_moves::<TSpec>(settled);
        }
        match self.read_tag() {
            Err(e) => {
                let ghost read = self@;
                self.enqueue(Err(e));
                proof {
                    assert(self@.queue.subrange(0, old(self)@.queue.len() as int)
                        =~= settled.queue.subrange(0, old(self)@.queue.len() as int));
                }
            },
            Ok(next_tag) => {
                let ghost read = self@;
                let ghost found = open_tag(next_tag);
                let tag_id: u64 = next_tag.tag.get_id();
                self.close_unknown_tags(tag_id);
                let ghost cleared = self@;
                proof {
                    assert(cleared.queue.subrange(0, old(self)@.queue.len() as int)
                        =~= settled.queue.subrange(0, old(self)@.queue.len() as int));
                }
                let is_start: bool = match next_tag.tag.as_master() {
                    Some(Master::Start) => true,
                    _ => false,
                };
                if is_start {
                    proof {
                        assert(master_model::<TSpec>(Master::End) == MasterModel::End);
                    }
                    match TSpec::get_master_tag(tag_id, Master::End) {
                        None => {
                            self.enqueue(
                                Err(
                                    TagIteratorError::CorruptedFileData(
                                        CorruptedFileError::InvalidTagId {
                                            tag_id,
                                            position: next_tag.tag_start,
                                        },
                                    ),
                                ),
                            );
                        },
                        Some(end_tag) => {
                            self.push_open(
                                ProcessingTag {
                                    tag: end_tag,
                                    size: next_tag.size,
                                    tag_start: next_tag.tag_start,
                                    data_start: next_tag.data_start,
                                },
                            );
                            if self.buffers(tag_id) {
                                self.buffer_master(tag_id, next_tag.tag_start);
                            } else {
                                self.enqueue(Ok((next_tag.tag, next_tag.tag_start)));
                            }
                        },
                    }
                } else {
                    self.enqueue(Ok((next_tag.tag, next_tag.tag_start)));
                }
                proof {
                    assert(self@.queue.subrange(0, old(self)@.queue.len() as int)
                        =~= cleared.queue.subrange(0, old(self)@.queue.len() as int));
                }
            },
        }
    }

    /// Whether the entry stops the search for the end of the master tag `id`.
    fn stops_search(e: &Result<(TSpec, usize), TagIteratorError>, id: u64) -> (r: bool)
        ensures
            r == is_stop(emission(*e), id),
    {
        match e {
            Err(_) => true,
            Ok((tag, _)) => {
                let is_end: bool = match tag.as_master() {
                    Some(Master::End) => true,
                    _ => false,
                };
                tag.get_id() == id && is_end
            },
        }
    }

    /// Reads the master tag `tag_id`, which started at `tag_start` and was
    /// opened last, to its end, and makes it ready as a whole.
    fn buffer_master(&mut self, tag_id: u64, tag_start: usize)
        requires
            old(self).wf(),
        ensures
            final(self).wf(),
            final(self)@ == old(self)@.buffered::<TSpec>(
                tag_id,
                tag_start,
                old(self)@.queue.len(),
                old(self)@.queue.len(),
            ),
            final(self)@.follows(old(self)@),
        decreases old(self)@.remaining(), old(self)@.stack.len(), 1nat,
    {
        let pre_queue_len: usize = self.emission_queue.len();
        let mut position: usize = pre_queue_len;
        proof {
            assert(self@.queue.subrange(0, self@.queue.len() as int) =~= self@.queue);
        }
        loop
            invariant
                self.wf(),
                self@.follows(old(self)@),
                pre_queue_len == old(self)@.queue.len(),
                position == self@.queue.len(),
                pre_queue_len <= position,
                forall|k: int| pre_queue_len <= k < position ==> !is_stop(self@.queue[k], tag_id),
                self@.remaining() < old(self)@.remaining() || (self@.remaining() == old(
                    self,
                )@.remaining() && self@.stack.len() <= old(self)@.stack.len()),
                self@.buffered::<TSpec>(tag_id, tag_start, pre_queue_len as nat, position as nat)
                    == old(self)@.buffered::<TSpec>(
                    tag_id,
                    tag_start,
                    pre_queue_len as nat,
                    pre_queue_len as nat,
                ),
            decreases self@.remaining(), self@.stack.len(),
        {
            let ghost current = self@;
            self.read_next();
            let ghost next = self@;
            proof {
                assert(next.queue.subrange(0, old(self)@.queue.len() as int)
                    =~= current.queue.subrange(0, old(self)@.queue.len() as int));
                assert forall|k: int| pre_queue_len <= k < position implies !is_stop(
                    next.queue[k],
                    tag_id,
                ) by {
                    assert(next.queue[k] == next.queue.subrange(0, current.queue.len() as int)[k]);
                }
            }
            if position >= self.emission_queue.len() {
                self.enqueue(
                    Err(
                        TagIteratorError::UnexpectedEOF {
                            tag_start,
                            tag_id: Some(tag_id),
                            tag_size: None,
                            partial_data: None,
                        },
                    ),
                );
                proof {
                    assert(self@.queue.subrange(0, old(self)@.queue.len() as int)
                        =~= next.queue.subrange(0, old(self)@.queue.len() as int));
                }
                return ;
            }
            let ghost from = position;
            let mut stop: Option<usize> = None;
            while stop.is_none() && position < self.emission_queue.len()
                invariant
                    self@ == next,
                    from <= position <= self@.queue.len(),
                    pre_queue_len <= from,
                    forall|k: int|
                        pre_queue_len <= k < position && stop is None ==> !is_stop(
                            self@.queue[k],
                            tag_id,
                        ),
                    stop is None ==> first_stop(next.queue, tag_id, from as nat) == first_stop(
                        next.queue,
                        tag_id,
                        position as nat,
                    ),
                    stop matches Some(p) ==> first_stop(next.queue, tag_id, from as nat) == Some(
                        p as nat,
                    ) && p < next.queue.len() && pre_queue_len <= p && (forall|k: int|
                        pre_queue_len <= k < p ==> !is_stop(self@.queue[k], tag_id)),
                decreases self@.queue.len() - position + (if stop is None { 1nat } else { 0nat }),
            {
                proof {
                    assert(self@.queue[position as int] == emission(
                        self.emission_queue@[position as int],
                    ));
                }
                if Self::stops_search(&self.emission_queue[position], tag_id) {
                    stop = Some(position);
                } else {
                    position += 1;
                }
            }
            match stop {
                Some(p) => {
                    proof {
                        assert forall|k: int| pre_queue_len <= k < p implies next.queue[k] is Ok by {
                            assert(!is_stop(next.queue[k], tag_id));
                        }
                    }
                    self.collect(tag_id, tag_start, pre_queue_len, p);
                    proof {
                        assert(self@.queue.subrange(0, old(self)@.queue.len() as int)
                            =~= next.queue.subrange(0, old(self)@.queue.len() as int));
                    }
                    return ;
                },
                None => {
                    proof {
                        lemma_fault_stops(next.queue, tag_id, from as nat);
                        assert(next.smaller_than(current));
                    }
                },
            }
        }
    }

    /// Puts the whole master tag `tag_id` in the place of what the search for
    /// its end has found, which lies from `before` on; the search stopped at
    /// `stop`.
    fn collect(&mut self, tag_id: u64, tag_start: usize, before: usize, stop: usize)
        requires
            old(self).wf(),
            before <= stop < old(self)@.queue.len(),
            forall|k: int| before <= k < stop ==> old(self)@.queue[k] is Ok,
        ensures
            final(self).wf(),
            final(self)@ == old(self)@.collected::<TSpec>(
                tag_id,
                tag_start,
                before as nat,
                stop as nat,
            ),
            final(self)@.queue.len() > before,
            final(self)@.queue.subrange(0, before as int) == old(self)@.queue.subrange(
                0,
                before as int,
            ),
            final(self)@.follows(
                ReaderState { queue: old(self)@.queue.subrange(0, before as int), ..old(self)@ },
            ),
    {
        let ghost whole_queue = self.emission_queue@;
        let ghost entries = self@.queue;
        let mut found: VecDeque<Result<(TSpec, usize), TagIteratorError>> =
            self.emission_queue.split_off(before);
        let mut children: VecDeque<TSpec> = VecDeque::new();
        let mut i: usize = before;
        while i < stop
            invariant
                before <= i <= stop < whole_queue.len(),
                entries == emissions(whole_queue),
                forall|k: int| before <= k < stop ==> entries[k] is Ok,
                found@ == whole_queue.subrange(i as int, whole_queue.len() as int),
                children@.len() == i - before,
                tag_models(children@) == tags_between(entries, before as nat, i as nat),
            decreases stop - i,
        {
            proof {
                assert(entries[i as int] is Ok);
                assert(entries[i as int] == emission(whole_queue[i as int]));
                assert(found@[0] == whole_queue[i as int]);
            }
            let ghost had = children@;
            match found.pop_front() {
                Some(Ok((tag, _))) => {
                    children.push_back(tag);
                    proof {
                        assert(found@ =~= whole_queue.subrange(i + 1, whole_queue.len() as int));
                        assert forall|k: int| 0 <= k < children@.len() implies tag_models(
                            children@,
                        )[k] == tags_between(entries, before as nat, (i + 1) as nat)[k] by {
                            if k < had.len() {
                                assert(tag_models(had)[k] == tags_between(
                                    entries,
                                    before as nat,
                                    i as nat,
                                )[k]);
                            }
                        }
                        assert(tag_models(children@) =~= tags_between(
                            entries,
                            before as nat,
                            (i + 1) as nat,
                        ));
                    }
                },
                Some(Err(_)) => {},
                None => {},
            }
            i += 1;
        }
        proof {
            assert(entries[stop as int] == emission(whole_queue[stop as int]));
            assert(found@[0] == whole_queue[stop as int]);
            assert(emissions(self.emission_queue@) =~= entries.subrange(0, before as int));
        }
        match found.pop_front() {
            Some(Err(e)) => {
                let ghost fault = e.fault();
                self.emission_queue.push_back(Err(e));
                proof {
                    assert(emissions(self.emission_queue@) =~= entries.subrange(
                        0,
                        before as int,
                    ).push(Err(fault)));
                }
            },
            Some(Ok(_)) => {
                let whole: Result<(TSpec, usize), TagIteratorError> = match Self::roll_up_children(
                    tag_id,
                    children,
                ) {
                    Ok(full) => Ok((full, tag_start)),
                    Err(bad) => Err(
                        TagIteratorError::CorruptedFileData(
                            CorruptedFileError::InvalidTagId { tag_id: bad, position: tag_start },
                        ),
                    ),
                };
                let ghost entry = emission(whole);
                let ghost rest = found@;
                proof {
                    assert(rest =~= whole_queue.subrange(stop + 1, whole_queue.len() as int));
                }
                self.emission_queue.push_back(whole);
                self.emission_queue.append(&mut found);
                proof {
                    assert(emissions(self.emission_queue@) =~= entries.subrange(
                        0,
                        before as int,
                    ).push(entry) + entries.subrange(stop + 1, entries.len() as int));
                }
            },
            None => {},
        }
        proof {
            assert(self@.queue.subrange(0, before as int) =~= entries.subrange(0, before as int));
            assert(entries.subrange(0, before as int).subrange(0, before as int)
                =~= entries.subrange(0, before as int));
        }
    }

    /// Makes the full master tag `tag_id` from the tags that were read within
    /// it: a start of a master tag among them takes what follows it, up to
    /// its end, as its children.
    fn roll_up_children(tag_id: u64, children: VecDeque<TSpec>) -> (r: Result<TSpec, u64>)
        ensures
            match rolled::<TSpec>(tag_id, tag_models(children@)) {
                Ok(full) => r matches Ok(t) && t.model() == full,
                Err(bad) => r == Err::<TSpec, u64>(bad),
            },
        decreases children@.len(),
    {
        let ghost all = tag_models(children@);
        let mut rest: VecDeque<TSpec> = children;
        let mut done: Vec<TSpec> = Vec::new();
        proof {
            assert(tag_models(done@) =~= Seq::empty());
            match rolled_children::<TSpec>(all) {
                Ok(more) => {
                    assert(tag_models(done@) + more =~= more);
                },
                Err(_) => {},
            }
        }
        while rest.len() > 0
            invariant
                rest@.len() <= children@.len(),
                all == tag_models(children@),
                rolled_children::<TSpec>(all) == (match rolled_children::<TSpec>(tag_models(rest@)) {
                    Err(bad) => Err::<Seq<TagModel>, u64>(bad),
                    Ok(more) => Ok::<Seq<TagModel>, u64>(tag_models(done@) + more),
                }),
            decreases rest@.len(),
        {
            let ghost before = tag_models(rest@);
            let ghost had = tag_models(done@);
            match rest.pop_front() {
                None => {},
                Some(child) => {
                    let ghost tail = tag_models(rest@);
                    proof {
                        assert(before[0] == child.model());
                        assert(tail =~= before.subrange(1, before.len() as int));
                    }
                    let is_start: bool = match child.as_master() {
                        Some(Master::Start) => true,
                        _ => false,
                    };
                    if is_start {
                        let child_id: u64 = child.get_id();
                        let mut inner: VecDeque<TSpec> = VecDeque::new();
                        let mut ended: bool = false;
                        proof {
                            assert(tag_models(inner@) =~= tail.subrange(0, 0));
                            assert(tag_models(rest@) =~= tail.subrange(0, tail.len() as int));
                        }
                        while !ended && rest.len() > 0
                            invariant
                                inner@.len() + rest@.len() <= tail.len(),
                                tail.len() < children@.len(),
                                tag_models(inner@) == tail.subrange(0, inner@.len() as int),
                                !ended ==> tag_models(rest@) == tail.subrange(
                                    inner@.len() as int,
                                    tail.len() as int,
                                ),
                                !ended ==> end_index(tail, child_id, 0) == end_index(
                                    tail,
                                    child_id,
                                    inner@.len(),
                                ),
                                ended ==> end_index(tail, child_id, 0) == inner@.len() && inner@.len()
                                    < tail.len() && tag_models(rest@) == tail.subrange(
                                    inner@.len() as int + 1,
                                    tail.len() as int,
                                ),
                            decreases rest@.len() + (if ended { 0nat } else { 1nat }),
                        {
                            let ghost inner_had = tag_models(inner@);
                            let ghost rest_had = tag_models(rest@);
                            let ghost rest_seq = rest@;
                            let ghost inner_len = inner@.len() as int;
                            match rest.pop_front() {
                                None => {},
                                Some(c) => {
                                    proof {
                                        assert(rest_had[0] == c.model());
                                        assert(rest_had.len() == tail.subrange(
                                            inner_len,
                                            tail.len() as int,
                                        ).len());
                                        assert(rest_had.len() == rest_seq.len());
                                        assert(rest@.len() == rest_seq.len() - 1);
                                        assert(tag_models(rest@).len() == tail.len() - inner_len - 1);
                                        assert(c.model() == tail[inner_len]);
                                        assert forall|j: int| 0 <= j < rest@.len() implies tag_models(
                                            rest@,
                                        )[j] == tail[inner_len + 1 + j] by {
                                            assert(rest@[j] == rest_seq[j + 1]);
                                            assert(rest_had[j + 1] == rest_seq[j + 1].model());
                                            assert(rest_had[j + 1] == tail.subrange(
                                                inner_len,
                                                tail.len() as int,
                                            )[j + 1]);
                                        }
                                    }
                                    let is_end: bool = match c.as_master() {
                                        Some(Master::End) => true,
                                        _ => false,
                                    };
                                    if c.get_id() == child_id && is_end {
                                        ended = true;
                                        proof {
                                            assert(tag_models(rest@) =~= tail.subrange(
                                                inner@.len() as int + 1,
                                                tail.len() as int,
                                            ));
                                        }
                                    } else {
                                        inner.push_back(c);
                                        proof {
                                            assert(tag_models(inner@) =~= tail.subrange(
                                                0,
                                                inner@.len() as int,
                                            ));
                                            assert(tag_models(rest@) =~= tail.subrange(
                                                inner@.len() as int,
                                                tail.len() as int,
                                            ));
                                        }
                                    }
                                },
                            }
                        }
                        let ghost end = end_index(tail, child_id, 0);
                        let ghost after = tag_models(rest@);
                        proof {
                            lemma_end_index_bound(tail, child_id, 0);
                            assert(tag_models(inner@) =~= tail.subrange(0, end as int));
                            if end < tail.len() {
                                assert(after =~= tail.subrange(end as int + 1, tail.len() as int));
                            } else {
                                assert(after =~= Seq::empty());
                            }
                        }
                        match Self::roll_up_children(child_id, inner) {
                            Err(bad) => {
                                return Err(bad);
                            },
                            Ok(full) => {
                                let ghost full_model = full.model();
                                done.push(full);
                                proof {
                                    assert(tag_models(done@) =~= had.push(full_model));
                                    match rolled_children::<TSpec>(after) {
                                        Ok(more) => {
                                            assert(had + (seq![full_model] + more) =~= tag_models(
                                                done@,
                                            ) + more);
                                        },
                                        Err(_) => {},
                                    }
                                }
                            },
                        }
                    } else {
                        let ghost child_model = child.model();
                        done.push(child);
                        proof {
                            assert(tag_models(done@) =~= had.push(child_model));
                            match rolled_children::<TSpec>(tail) {
                                Ok(more) => {
                                    assert(had + (seq![child_model] + more) =~= tag_models(done@)
                                        + more);
                                },
                                Err(_) => {},
                            }
                        }
                    }
                },
            }
        }
        proof {
            assert(tag_models(rest@) =~= Seq::empty());
            assert(tag_models(done@) + Seq::<TagModel>::empty() =~= tag_models(done@));
        }
        let ghost list = tag_models(done@);
        match TSpec::get_master_tag(tag_id, Master::Full(done)) {
            Some(t) => Ok(t),
            None => Err(tag_id),
        }
    }

    /// Gives out the next tag, or the next fault. Gives nothing at the end of
    /// the document, after all open tags were closed.
    ///
    /// Tags come in the order of the document. A master tag comes as its
    /// start and, after the tags within it, its end, or, where the iterator
    /// was told so, as a whole after all of it was read. Where the document
    /// starts within master tags, nothing is given out for these.
    pub fn next(&mut self) -> (r: Option<Result<TSpec, TagIteratorError>>)
        requires
            old(self).wf(),
        ensures
            final(self).wf(),
            final(self)@ == old(self)@.stepped::<TSpec>().0,
            match old(self)@.stepped::<TSpec>().1 {
                None => r is None,
                Some(Ok((tag, _))) => r matches Some(Ok(t)) && t.model() == tag,
                Some(Err(fault)) => r matches Some(Err(e)) && e.fault() == fault,
            },
    {
        if self.emission_queue.len() == 0 {
            self.read_next();
        }
        let ghost filled = self@;
        proof {
            if self.emission_queue@.len() > 0 {
                assert(filled.queue[0] == emission(self.emission_queue@[0]));
            }
        }
        let first = self.emission_queue.pop_front();
        proof {
            if filled.queue.len() > 0 {
                assert(emissions(self.emission_queue@) =~= filled.queue.subrange(
                    1,
                    filled.queue.len() as int,
                ));
            }
        }
        match first {
            None => None,
            Some(Ok((tag, place))) => {
                self.last_emitted_tag_offset = place;
                Some(Ok(tag))
            },
            Some(Err(e)) => Some(Err(e)),
        }
    }

    /// Passes over damaged bytes: moves the place forward, byte by byte, to
    /// the first place at which the header of a tag is in order, so that
    /// `next` can go on from there.
    ///
    /// Every open tag of known size is made longer by the number of bytes
    /// that were passed over, up to the greatest size that this machine can
    /// say. What was ready stays ready. Where the document ends before a
    /// header is found, this is a fault.
    pub fn try_recover(&mut self) -> (r: Result<(), TagIteratorError>)
        requires
            old(self).wf(),
        ensures
            final(self).wf(),
            final(self)@ == old(self)@.recovered::<TSpec>().0,
            match old(self)@.recovered::<TSpec>().1 {
                Some(fault) => r matches Err(e) && e.fault() == fault,
                None => r is Ok,
            },
    {
        let first_position: usize = self.position;
        let mut found: bool = false;
        while !found
            invariant
                self.wf(),
                self@.offset >= first_position,
                first_position == old(self)@.offset,
                !found ==> self@.skipped::<TSpec>() == old(self)@.skipped::<TSpec>(),
                found ==> old(self)@.skipped::<TSpec>() == (self@, None::<ReadFault>),
            decreases self@.data.len() - self@.offset + (if found { 0nat } else { 1nat }),
        {
            if self.position >= self.source.len() {
                return Err(
                    TagIteratorError::UnexpectedEOF {
                        tag_start: self.position,
                        tag_id: None,
                        tag_size: None,
                        partial_data: None,
                    },
                );
            }
            self.position += 1;
            proof {
                lemma_peeked_keeps_place::<TSpec>(self@);
            }
            let looked: Result<TagHeader, TagIteratorError> = self.peek_valid_tag_header();
            if looked.is_ok() {
                found = true;
            }
        }
        let diff: usize = self.position - first_position;
        let ghost target = ReaderState::stretched(self@.stack, diff as int);
        let ghost skipped = self@;
        let mut turned: Vec<ProcessingTag<TSpec>> = Vec::new();
        while self.tag_stack.len() > 0
            invariant
                self.wf(),
                self@ == (ReaderState { stack: self@.stack, ..skipped }),
                self@.stack == skipped.stack.subrange(0, self@.stack.len() as int),
                turned@.len() + self@.stack.len() == skipped.stack.len(),
                target == ReaderState::stretched(skipped.stack, diff as int),
                forall|k: int|
                    0 <= k < turned@.len() ==> open_tag(#[trigger] turned@[k]) == target[skipped.stack.len()
                        - 1 - k],
            decreases self.tag_stack@.len(),
        {
            let ghost had = self@.stack;
            match self.tag_stack.pop() {
                None => {},
                Some(tag) => {
                    proof {
                        assert(open_tags(self.tag_stack@) =~= had.drop_last());
                        assert(open_tag(tag) == had.last());
                        assert(self@.stack =~= skipped.stack.subrange(0, self@.stack.len() as int));
                    }
                    let size: EBMLSize = match tag.size {
                        EBMLSize::Known(size) => EBMLSize::Known(
                            match size.checked_add(diff) {
                                Some(sum) => sum,
                                None => usize::MAX,
                            },
                        ),
                        EBMLSize::Unknown => EBMLSize::Unknown,
                    };
                    turned.push(
                        ProcessingTag {
                            tag: tag.tag,
                            size,
                            tag_start: tag.tag_start,
                            data_start: tag.data_start,
                        },
                    );
                },
            }
        }
        while turned.len() > 0
            invariant
                self.wf(),
                self@ == (ReaderState { stack: self@.stack, ..skipped }),
                turned@.len() + self@.stack.len() == skipped.stack.len(),
                target.len() == skipped.stack.len(),
                self@.stack == target.subrange(0, self@.stack.len() as int),
                forall|k: int|
                    0 <= k < turned@.len() ==> open_tag(#[trigger] turned@[k]) == target[skipped.stack.len()
                        - 1 - k],
            decreases turned@.len(),
        {
            let ghost had = self@.stack;
            match turned.pop() {
                None => {},
                Some(tag) => {
                    proof {
                        assert(open_tag(tag) == target[had.len() as int]);
                    }
                    self.push_open(tag);
                    proof {
                        assert(self@.stack =~= target.subrange(0, self@.stack.len() as int));
                    }
                },
            }
        }
        proof {
            assert(self@.stack =~= target);
        }
        Ok(())
    }
}

/// A fault among what is ready stops the search for the end of a master tag.
pub proof fn lemma_fault_stops(queue: Seq<Emission>, id: u64, from: nat)
    requires
        first_stop(queue, id, from) is None,
    ensures
        forall|k: int| from <= k < queue.len() ==> !is_stop(#[trigger] queue[k], id),
    decreases queue.len() - from,
{
    if from < queue.len() {
        lemma_fault_stops(queue, id, from + 1);
    }
}

} // verus!
