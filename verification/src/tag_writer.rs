//! The tag writer: turns tags into EBML bytes.
use vstd::prelude::*;
use vstd::string::StringExecFns;
use crate::error::TagWriterError;
use crate::error::ToolError;
use crate::error::WriteFault;
use crate::specs::DataModel;
use crate::specs::EbmlSpecification;
use crate::specs::EbmlTag;
use crate::specs::Master;
use crate::specs::MasterModel;
use crate::specs::TagDataType;
use crate::specs::TagModel;
use crate::tag_iterator_util::EBMLSize;
use crate::tools::be_bytes;
use crate::tools::be_encode;
use crate::tools::encode_unsigned;
use crate::tools::encode_vint_with_length;
use crate::tools::least_vint_width;
use crate::tools::marker_of_width;
use crate::tools::lemma_be_bytes_len;
use crate::tools::lemma_pow256_values;
use crate::tools::lemma_vint_markers;
use crate::tools::min_vint_width;
use crate::tools::pow256;
use crate::tools::pow256_of;
use crate::tools::vint_marker;

verus! {

/// The number of bytes that `value` takes without its leading zero bytes: none
/// for zero.
pub open spec fn significant_bytes(value: u64) -> nat {
    if value == 0 {
        0
    } else if value < 0x100 {
        1
    } else if value < 0x1_0000 {
        2
    } else if value < 0x100_0000 {
        3
    } else if value < 0x1_0000_0000 {
        4
    } else if value < 0x100_0000_0000 {
        5
    } else if value < 0x1_0000_0000_0000 {
        6
    } else if value < 0x100_0000_0000_0000 {
        7
    } else {
        8
    }
}

/// The bytes that stand for a tag id in a document: the id in big-endian
/// order without its leading zero bytes. An id holds its own width marker.
pub open spec fn id_bytes(id: u64) -> Seq<u8> {
    be_bytes(id as nat, significant_bytes(id))
}

/// The number of bytes in which an unsigned integer is stored: the least of 1,
/// 2, 4 and 8 that holds it.
pub open spec fn unsigned_int_width(value: u64) -> nat {
    if value < 0x100 {
        1
    } else if value < 0x1_0000 {
        2
    } else if value < 0x1_0000_0000 {
        4
    } else {
        8
    }
}

/// The number of bytes in which a signed integer is stored: the least of 1, 2,
/// 4 and 8 that holds it in two's complement.
pub open spec fn signed_int_width(value: i64) -> nat {
    if -0x80 <= value < 0x80 {
        1
    } else if -0x8000 <= value < 0x8000 {
        2
    } else if -0x8000_0000 <= value < 0x8000_0000 {
        4
    } else {
        8
    }
}

/// The number that spells `value` in two's complement over `width` bytes.
pub open spec fn twos_complement(value: int, width: nat) -> nat {
    if value < 0 {
        (value + pow256(width)) as nat
    } else {
        value as nat
    }
}

/// The size and the body of a tag that holds the unsigned integer `value`.
pub open spec fn unsigned_int_body(value: u64) -> Seq<u8> {
    let width = unsigned_int_width(value);
    encode_unsigned(width, 1) + be_bytes(value as nat, width)
}

/// The size and the body of a tag that holds the signed integer `value`.
pub open spec fn signed_int_body(value: i64) -> Seq<u8> {
    let width = signed_int_width(value);
    encode_unsigned(width, 1) + be_bytes(twos_complement(value as int, width), width)
}

/// The size and the body of a tag that holds a float with the given bits: a
/// float is stored in double precision.
pub open spec fn float_body(bits: u64) -> Seq<u8> {
    encode_unsigned(8, 1) + be_bytes(bits as nat, 8)
}

/// The width of the size vint of a body of `len` bytes: the least width
/// whose vint can carry `len` with a payload that is not all ones, which
/// would say that the size is unknown; 9 where there is none.
pub open spec fn size_width(len: nat) -> nat {
    let least = min_vint_width(len);
    if least <= 8 && len == vint_marker(least) - 1 {
        least + 1
    } else {
        least
    }
}

/// Whether a body of `len` bytes has a size that a vint can say.
pub open spec fn size_fits(len: nat) -> bool {
    len < vint_marker(8) - 1
}

/// The size of a body of `len` bytes, as a vint of the least width in which
/// it is not taken for an unknown size.
pub open spec fn size_bytes(len: nat) -> Seq<u8> {
    encode_unsigned(len, size_width(len))
}

/// The text that says that a body of `len` bytes is too long for a vint to
/// say.
pub open spec fn size_error_text(len: nat) -> Seq<char> {
    ToolError::WriteVintOverflow(len as u64).message_text()
}

/// A size that fits has a width from 1 to 8, in which a vint carries it
/// with a payload that is not all ones.
pub proof fn lemma_size_width(len: nat)
    requires
        size_fits(len),
    ensures
        1 <= size_width(len) <= 8,
        len < vint_marker(size_width(len)) - 1,
        min_vint_width(len) <= size_width(len) <= min_vint_width(len) + 1,
{
    lemma_vint_markers();
}

/// The size vint that stands for an unknown size: eight bytes, all payload
/// bits set.
pub open spec fn unknown_size_bytes() -> Seq<u8> {
    seq![0x01u8, 0xffu8, 0xffu8, 0xffu8, 0xffu8, 0xffu8, 0xffu8, 0xffu8]
}

/// What a tag writer holds: the bytes that have gone to the destination, the
/// master tags that are open, innermost last, and the bytes that wait for an
/// open tag to be closed.
///
/// An open tag stands with its id and with the place in the waiting bytes
/// where its header has to go; a tag that was opened with an unknown size has
/// its header written already and stands with no place.
pub struct WriterState {
    pub dest: Seq<u8>,
    pub open_tags: Seq<(u64, EBMLSize)>,
    pub working_buffer: Seq<u8>,
}

impl WriterState {
    /// Every place of an open tag lies within the waiting bytes.
    pub open spec fn wf(self) -> bool {
        forall|i: int|
            0 <= i < self.open_tags.len() ==> ((#[trigger] self.open_tags[i]).1 matches EBMLSize::Known(
                start,
            ) ==> start <= self.working_buffer.len())
    }

    /// Whether a tag is open whose header is still to be written.
    pub open spec fn has_pending_header(self) -> bool {
        exists|i: int|
            0 <= i < self.open_tags.len() && (#[trigger] self.open_tags[i]).1 is Known
    }

    /// The state after `bytes` were added to the waiting bytes.
    pub open spec fn append(self, bytes: Seq<u8>) -> WriterState {
        WriterState { working_buffer: self.working_buffer + bytes, ..self }
    }

    /// The state after the waiting bytes have gone to the destination.
    pub open spec fn drained(self) -> WriterState {
        WriterState {
            dest: self.dest + self.working_buffer,
            working_buffer: Seq::empty(),
            ..self
        }
    }

    /// The state after a write: the waiting bytes go to the destination
    /// unless an open tag still waits for its header.
    pub open spec fn settled(self) -> WriterState {
        if self.has_pending_header() {
            self
        } else {
            self.drained()
        }
    }

    /// The state after the master tag `id` was opened.
    pub open spec fn started(self, id: u64) -> WriterState {
        WriterState {
            open_tags: self.open_tags.push((id, EBMLSize::Known(self.working_buffer.len() as usize))),
            ..self
        }
    }

    /// The state after the master tag `id` was opened with an unknown size.
    pub open spec fn started_unknown(self, id: u64) -> WriterState {
        WriterState {
            open_tags: self.open_tags.push((id, EBMLSize::Unknown)),
            working_buffer: self.working_buffer + id_bytes(id) + unknown_size_bytes(),
            ..self
        }
    }

    /// What closing the master tag `id` gives: the state after it, and the
    /// fault if there is one.
    ///
    /// The innermost open tag is taken from the stack, whatever its id. Where
    /// it is the tag `id` and still waits for its header, the header is put
    /// before the bytes that were written since the tag was opened.
    pub open spec fn ended(self, id: u64) -> (WriterState, Option<WriteFault>) {
        if self.open_tags.len() == 0 {
            (self, Some(WriteFault::UnexpectedClosingTag { tag_id: id, expected_id: None }))
        } else {
            let top = self.open_tags.last();
            let popped = WriterState { open_tags: self.open_tags.drop_last(), ..self };
            if top.0 != id {
                (
                    popped,
                    Some(
                        WriteFault::UnexpectedClosingTag { tag_id: id, expected_id: Some(top.0) },
                    ),
                )
            } else {
                match top.1 {
                    EBMLSize::Unknown => (popped, None),
                    EBMLSize::Known(start) => {
                        let body = self.working_buffer.subrange(
                            start as int,
                            self.working_buffer.len() as int,
                        );
                        if size_fits(body.len()) {
                            (
                                WriterState {
                                    working_buffer: self.working_buffer.subrange(0, start as int)
                                        + id_bytes(id) + size_bytes(body.len()) + body,
                                    ..popped
                                },
                                None,
                            )
                        } else {
                            (popped, Some(WriteFault::TagSize(size_error_text(body.len()))))
                        }
                    },
                }
            }
        }
    }

    /// What closing all open tags, innermost first, gives.
    pub open spec fn all_ended(self) -> (WriterState, Option<WriteFault>)
        decreases self.open_tags.len(),
    {
        if self.open_tags.len() == 0 {
            (self, None)
        } else {
            let (next, fault) = self.ended(self.open_tags.last().0);
            if fault is Some {
                (next, fault)
            } else {
                next.all_ended()
            }
        }
    }

    /// What writing a tag with `data` under `id` as bytes gives.
    pub open spec fn wrote_binary(self, id: u64, data: Seq<u8>) -> (WriterState, Option<WriteFault>) {
        if size_fits(data.len()) {
            (self.append(id_bytes(id) + size_bytes(data.len()) + data), None)
        } else {
            (self.append(id_bytes(id)), Some(WriteFault::TagSize(size_error_text(data.len()))))
        }
    }

    /// What writing the tag `tag` gives, before the waiting bytes are
    /// looked after: the state and the fault if there is one.
    ///
    /// The specification `TSpec` says what the tag's id holds. A tag whose id
    /// it does not know is written as bytes. A tag that does not hold what is
    /// declared for its id is refused.
    pub open spec fn dispatched<TSpec: EbmlSpecification>(self, tag: TagModel) -> (
        WriterState,
        Option<WriteFault>,
    )
        decreases tag, 0nat,
    {
        let id = tag.id;
        match (TSpec::spec_tag_data_type(id), tag.data) {
            (Some(TagDataType::UnsignedInt), DataModel::UnsignedInt(v)) => (
                self.append(id_bytes(id) + unsigned_int_body(v)),
                None,
            ),
            (Some(TagDataType::Integer), DataModel::Integer(v)) => (
                self.append(id_bytes(id) + signed_int_body(v)),
                None,
            ),
            (Some(TagDataType::Utf8), DataModel::Utf8(text)) => self.wrote_binary(
                id,
                vstd::utf8::encode_utf8(text),
            ),
            (Some(TagDataType::Binary), DataModel::Binary(bytes)) => self.wrote_binary(id, bytes),
            (None, DataModel::Binary(bytes)) => self.wrote_binary(id, bytes),
            (Some(TagDataType::Float), DataModel::Float(bits)) => (
                self.append(id_bytes(id) + float_body(bits)),
                None,
            ),
            (Some(TagDataType::Master), DataModel::Master(MasterModel::Start)) => (
                self.started(id),
                None,
            ),
            (Some(TagDataType::Master), DataModel::Master(MasterModel::End)) => self.ended(id),
            (Some(TagDataType::Master), DataModel::Master(MasterModel::Full(children))) => {
                let (inner, fault) = self.started(id).wrote_all::<TSpec>(children, 0);
                if fault is Some {
                    (inner, fault)
                } else {
                    inner.ended(id)
                }
            },
            _ => (self, Some(WriteFault::TagId(id))),
        }
    }

    /// What writing the tag `tag` gives: the tag is written, and where that
    /// went well the waiting bytes go to the destination unless an open tag
    /// still waits for its header.
    pub open spec fn wrote<TSpec: EbmlSpecification>(self, tag: TagModel) -> (
        WriterState,
        Option<WriteFault>,
    )
        decreases tag, 1nat,
    {
        let (next, fault) = self.dispatched::<TSpec>(tag);
        if fault is Some {
            (next, fault)
        } else {
            (next.settled(), None)
        }
    }

    /// What writing the tags of `tags` from the `from`-th on gives, each as
    /// `wrote` says, up to the first fault.
    pub open spec fn wrote_all<TSpec: EbmlSpecification>(self, tags: Seq<TagModel>, from: nat) -> (
        WriterState,
        Option<WriteFault>,
    )
        decreases tags, tags.len() - from,
    {
        if from >= tags.len() {
            (self, None)
        } else {
            let (next, fault) = self.wrote::<TSpec>(tags[from as int]);
            if fault is Some {
                (next, fault)
            } else {
                next.wrote_all::<TSpec>(tags, from + 1)
            }
        }
    }
}

/// Whether `r` reports the fault `fault`, or success where there is none.
pub open spec fn reports(r: Result<(), TagWriterError>, fault: Option<WriteFault>) -> bool {
    match r {
        Ok(_) => fault is None,
        Err(e) => fault == Some(e.fault()),
    }
}

/// The number of bytes that `value` takes without its leading zero bytes.
pub fn count_significant_bytes(value: u64) -> (r: usize)
    ensures
        r == significant_bytes(value),
{
    if value == 0 {
        0
    } else if value < 0x100 {
        1
    } else if value < 0x1_0000 {
        2
    } else if value < 0x100_0000 {
        3
    } else if value < 0x1_0000_0000 {
        4
    } else if value < 0x100_0000_0000 {
        5
    } else if value < 0x1_0000_0000_0000 {
        6
    } else if value < 0x100_0000_0000_0000 {
        7
    } else {
        8
    }
}

/// Adds `bytes` at the end of `buffer`.
pub fn extend_bytes(buffer: &mut Vec<u8>, bytes: &[u8])
    ensures
        final(buffer)@ == old(buffer)@ + bytes@,
{
    let mut i: usize = 0;
    while i < bytes.len()
        invariant
            i <= bytes@.len(),
            buffer@ == old(buffer)@ + bytes@.subrange(0, i as int),
        decreases bytes@.len() - i,
    {
        buffer.push(bytes[i]);
        proof {
            assert(bytes@.subrange(0, i + 1) =~= bytes@.subrange(0, i as int).push(bytes@[i as int]));
        }
        i += 1;
    }
    proof {
        assert(bytes@.subrange(0, i as int) =~= bytes@);
    }
}

/// The bytes that stand for a tag id in a document.
pub fn id_to_bytes(id: u64) -> (r: Vec<u8>)
    ensures
        r@ == id_bytes(id),
{
    be_encode(id, count_significant_bytes(id))
}

/// The size and the body of a tag that holds the unsigned integer `value`.
pub fn encode_unsigned_int_body(value: u64) -> (r: Vec<u8>)
    ensures
        r@ == unsigned_int_body(value),
{
    let width: usize = if value < 0x100 {
        1
    } else if value < 0x1_0000 {
        2
    } else if value < 0x1_0000_0000 {
        4
    } else {
        8
    };
    let mut body: Vec<u8> = be_encode(0x80 + width as u64, 1);
    let digits: Vec<u8> = be_encode(value, width);
    proof {
        lemma_vint_markers();
    }
    extend_bytes(&mut body, digits.as_slice());
    body
}

/// The size and the body of a tag that holds the signed integer `value`.
pub fn encode_signed_int_body(value: i64) -> (r: Vec<u8>)
    ensures
        r@ == signed_int_body(value),
{
    let width: usize = if -0x80 <= value && value < 0x80 {
        1
    } else if -0x8000 <= value && value < 0x8000 {
        2
    } else if -0x8000_0000 <= value && value < 0x8000_0000 {
        4
    } else {
        8
    };
    proof {
        lemma_vint_markers();
        lemma_pow256_values();
    }
    let raw: u64 = if value >= 0 {
        value as u64
    } else if width == 8 {
        (value - i64::MIN) as u64 + 0x8000_0000_0000_0000u64
    } else {
        (value + pow256_of(width) as i64) as u64
    };
    let mut body: Vec<u8> = be_encode(0x80 + width as u64, 1);
    let digits: Vec<u8> = be_encode(raw, width);
    extend_bytes(&mut body, digits.as_slice());
    body
}

/// The size and the body of a tag that holds a float with the given bits.
pub fn encode_float_body(bits: u64) -> (r: Vec<u8>)
    ensures
        r@ == float_body(bits),
{
    proof {
        lemma_vint_markers();
    }
    let mut body: Vec<u8> = be_encode(0x88, 1);
    let digits: Vec<u8> = be_encode(bits, 8);
    extend_bytes(&mut body, digits.as_slice());
    body
}

/// The size of a body of `len` bytes as a vint, or nothing for a size that
/// no vint can say: see [`size_bytes`].
pub fn encode_size(len: usize) -> (r: Option<Vec<u8>>)
    ensures
        size_fits(len as nat) ==> r is Some && r.unwrap()@ == size_bytes(len as nat),
        !size_fits(len as nat) ==> r is None,
{
    proof {
        lemma_vint_markers();
    }
    let value: u64 = len as u64;
    if value >= 0x00ff_ffff_ffff_ffff {
        return None;
    }
    let least: usize = least_vint_width(value);
    let width: usize = if value == marker_of_width(least) - 1 {
        least + 1
    } else {
        least
    };
    match encode_vint_with_length(value, width) {
        Ok(bytes) => Some(bytes),
        Err(_) => None,
    }
}

/// The fault of a body of `len` bytes, which is too long for a vint to say.
pub fn size_error(len: usize) -> (r: TagWriterError)
    ensures
        r.fault() == WriteFault::TagSize(size_error_text(len as nat)),
{
    let text: String = ToolError::WriteVintOverflow(len as u64).message();
    TagWriterError::TagSizeError(text)
}

/// Writes tags as EBML bytes to a destination.
///
/// The writer needs no specification for tags that are written by
/// `write_raw`. For `write`, the tag type says what each id holds.
///
/// A master tag can be written whole, or be opened, filled tag by tag, and
/// closed. The header of a master tag holds the size of its body, so the
/// bytes of an open tag wait in the writer until the tag is closed. Bytes
/// go to the destination as soon as no open tag waits for its header.
pub struct TagWriter {
    dest: Vec<u8>,
    open_tags: Vec<(u64, EBMLSize)>,
    working_buffer: Vec<u8>,
}

impl View for TagWriter {
    type V = WriterState;

    closed spec fn view(&self) -> WriterState {
        WriterState {
            dest: self.dest@,
            open_tags: self.open_tags@,
            working_buffer: self.working_buffer@,
        }
    }
}

impl TagWriter {
    /// Whether the writer is in order: see [`WriterState::wf`].
    pub open spec fn wf(&self) -> bool {
        self@.wf()
    }

    /// A writer that adds to `dest`.
    pub fn new(dest: Vec<u8>) -> (r: Self)
        ensures
            r.wf(),
            r@ == (WriterState {
                dest: dest@,
                open_tags: Seq::empty(),
                working_buffer: Seq::empty(),
            }),
    {
        TagWriter { dest, open_tags: Vec::new(), working_buffer: Vec::new() }
    }

    /// The bytes that have gone to the destination.
    pub fn get_ref(&self) -> (r: &Vec<u8>)
        ensures
            r@ == self@.dest,
    {
        &self.dest
    }

    /// Takes the bytes that have gone to the destination out of the writer,
    /// which goes on with an empty destination.
    pub fn take_written(&mut self) -> (r: Vec<u8>)
        requires
            old(self).wf(),
        ensures
            final(self).wf(),
            r@ == old(self)@.dest,
            final(self)@ == (WriterState { dest: Seq::empty(), ..old(self)@ }),
    {
        let mut taken: Vec<u8> = Vec::new();
        taken.append(&mut self.dest);
        taken
    }

    /// Gives up the writer for its destination. Bytes that still wait in the
    /// writer are lost.
    pub fn into_inner(self) -> (r: Vec<u8>)
        ensures
            r@ == self@.dest,
    {
        self.dest
    }

    fn start_tag(&mut self, id: u64)
        requires
            old(self).wf(),
        ensures
            final(self).wf(),
            final(self)@ == old(self)@.started(id),
    {
        self.open_tags.push((id, EBMLSize::Known(self.working_buffer.len())));
    }

    fn end_tag(&mut self, id: u64) -> (r: Result<(), TagWriterError>)
        requires
            old(self).wf(),
        ensures
            final(self).wf(),
            final(self)@ == old(self)@.ended(id).0,
            reports(r, old(self)@.ended(id).1),
    {
        match self.open_tags.pop() {
            Some(open_tag) => {
                if open_tag.0 == id {
                    if let EBMLSize::Known(start) = open_tag.1 {
                        let size: usize = self.working_buffer.len() - start;
                        match encode_size(size) {
                            None => {
                                return Err(size_error(size));
                            },
                            Some(size_vint) => {
                                let id_vec: Vec<u8> = id_to_bytes(id);
                                let mut body: Vec<u8> = self.working_buffer.split_off(start);
                                extend_bytes(&mut self.working_buffer, id_vec.as_slice());
                                extend_bytes(&mut self.working_buffer, size_vint.as_slice());
                                self.working_buffer.append(&mut body);
                                proof {
                                    lemma_be_bytes_len(id as nat, significant_bytes(id));
                                }
                            },
                        }
                    }
                    Ok(())
                } else {
                    Err(
                        TagWriterError::UnexpectedClosingTag {
                            tag_id: id,
                            expected_id: Some(open_tag.0),
                        },
                    )
                }
            },
            None => Err(TagWriterError::UnexpectedClosingTag { tag_id: id, expected_id: None }),
        }
    }

    fn private_flush(&mut self)
        ensures
            final(self)@ == old(self)@.drained(),
    {
        self.dest.append(&mut self.working_buffer);
    }

    /// Whether a tag is open whose header is still to be written.
    fn has_pending_header(&self) -> (r: bool)
        ensures
            r == self@.has_pending_header(),
    {
        let mut i: usize = 0;
        while i < self.open_tags.len()
            invariant
                i <= self.open_tags@.len(),
                forall|k: int| 0 <= k < i ==> !((#[trigger] self.open_tags@[k]).1 is Known),
            decreases self.open_tags@.len() - i,
        {
            if self.open_tags[i].1.is_known() {
                return true;
            }
            i += 1;
        }
        false
    }

    /// Lets the waiting bytes go to the destination unless an open tag still
    /// waits for its header.
    fn settle(&mut self)
        requires
            old(self).wf(),
        ensures
            final(self).wf(),
            final(self)@ == old(self)@.settled(),
    {
        if !self.has_pending_header() {
            self.private_flush();
        }
    }

    fn write_unsigned_int_tag(&mut self, id: u64, data: &u64) -> (r: Result<(), TagWriterError>)
        requires
            old(self).wf(),
        ensures
            final(self).wf(),
            r is Ok,
            final(self)@ == old(self)@.append(id_bytes(id) + unsigned_int_body(*data)),
    {
        let id_vec: Vec<u8> = id_to_bytes(id);
        let body: Vec<u8> = encode_unsigned_int_body(*data);
        extend_bytes(&mut self.working_buffer, id_vec.as_slice());
        extend_bytes(&mut self.working_buffer, body.as_slice());
        proof {
            assert(self.working_buffer@ =~= old(self).working_buffer@ + (id_bytes(id)
                + unsigned_int_body(*data)));
        }
        Ok(())
    }

    fn write_signed_int_tag(&mut self, id: u64, data: &i64) -> (r: Result<(), TagWriterError>)
        requires
            old(self).wf(),
        ensures
            final(self).wf(),
            r is Ok,
            final(self)@ == old(self)@.append(id_bytes(id) + signed_int_body(*data)),
    {
        let id_vec: Vec<u8> = id_to_bytes(id);
        let body: Vec<u8> = encode_signed_int_body(*data);
        extend_bytes(&mut self.working_buffer, id_vec.as_slice());
        extend_bytes(&mut self.working_buffer, body.as_slice());
        proof {
            assert(self.working_buffer@ =~= old(self).working_buffer@ + (id_bytes(id)
                + signed_int_body(*data)));
        }
        Ok(())
    }

    fn write_float_tag(&mut self, id: u64, bits: u64) -> (r: Result<(), TagWriterError>)
        requires
            old(self).wf(),
        ensures
            final(self).wf(),
            r is Ok,
            final(self)@ == old(self)@.append(id_bytes(id) + float_body(bits)),
    {
        let id_vec: Vec<u8> = id_to_bytes(id);
        let body: Vec<u8> = encode_float_body(bits);
        extend_bytes(&mut self.working_buffer, id_vec.as_slice());
        extend_bytes(&mut self.working_buffer, body.as_slice());
        proof {
            assert(self.working_buffer@ =~= old(self).working_buffer@ + (id_bytes(id) + float_body(
                bits,
            )));
        }
        Ok(())
    }

    fn write_utf8_tag(&mut self, id: u64, data: &str) -> (r: Result<(), TagWriterError>)
        requires
            old(self).wf(),
        ensures
            final(self).wf(),
            final(self)@ == old(self)@.wrote_binary(id, vstd::utf8::encode_utf8(data@)).0,
            reports(r, old(self)@.wrote_binary(id, vstd::utf8::encode_utf8(data@)).1),
    {
        self.write_binary_tag(id, data.as_bytes())
    }

    fn write_binary_tag(&mut self, id: u64, data: &[u8]) -> (r: Result<(), TagWriterError>)
        requires
            old(self).wf(),
        ensures
            final(self).wf(),
            final(self)@ == old(self)@.wrote_binary(id, data@).0,
            reports(r, old(self)@.wrote_binary(id, data@).1),
    {
        let id_vec: Vec<u8> = id_to_bytes(id);
        extend_bytes(&mut self.working_buffer, id_vec.as_slice());
        match encode_size(data.len()) {
            None => Err(size_error(data.len())),
            Some(size_vint) => {
                extend_bytes(&mut self.working_buffer, size_vint.as_slice());
                extend_bytes(&mut self.working_buffer, data);
                proof {
                    assert(self.working_buffer@ =~= old(self).working_buffer@ + (id_bytes(id)
                        + size_bytes(data@.len()) + data@));
                }
                Ok(())
            },
        }
    }

    /// Writes `data` as the body of a tag with the id `tag_id`, whatever a
    /// specification may say of that id.
    ///
    /// The waiting bytes then go to the destination unless an open tag still
    /// waits for its header. A body of 2^56 - 1 bytes or more is refused, after
    /// the id was written.
    pub fn write_raw(&mut self, tag_id: u64, data: &[u8]) -> (r: Result<(), TagWriterError>)
        requires
            old(self).wf(),
        ensures
            final(self).wf(),
            size_fits(data@.len()) ==> r is Ok && final(self)@ == old(self)@.append(
                id_bytes(tag_id) + size_bytes(data@.len()) + data@,
            ).settled(),
            !size_fits(data@.len()) ==> reports(
                r,
                Some(WriteFault::TagSize(size_error_text(data@.len()))),
            ) && final(self)@ == old(self)@.append(id_bytes(tag_id)),
    {
        match self.write_binary_tag(tag_id, data) {
            Err(e) => Err(e),
            Ok(_) => {
                self.settle();
                Ok(())
            },
        }
    }

    /// Writes the tag `tag`.
    ///
    /// What is written goes by the data type that the specification declares
    /// for the tag's id. An integer takes the least of 1, 2, 4 and 8 bytes
    /// that hold it, a float takes 8 bytes, text and bytes are written as
    /// they are. A tag whose id the specification does not know is written
    /// with its bytes. The start of a master tag opens it, its end closes it
    /// and puts its header before its body, and a full master tag is
    /// opened, filled with its children and closed.
    ///
    /// The waiting bytes then go to the destination unless an open tag still
    /// waits for its header.
    ///
    /// Refused are a tag that does not hold what is declared for its id, a
    /// body of 2^56 - 1 bytes or more, and the end of a tag that is not the
    /// innermost open one. Writing stops at the first fault.
    pub fn write<TSpec: EbmlSpecification + EbmlTag + Clone>(&mut self, tag: &TSpec) -> (r: Result<
        (),
        TagWriterError,
    >)
        requires
            old(self).wf(),
        ensures
            final(self).wf(),
            final(self)@ == old(self)@.wrote::<TSpec>(tag.model()).0,
            reports(r, old(self)@.wrote::<TSpec>(tag.model()).1),
        decreases tag.model(),
    {
        let tag_id: u64 = tag.get_id();
        let outcome: Result<(), TagWriterError> = match TSpec::get_tag_data_type(tag_id) {
            Some(TagDataType::UnsignedInt) => match tag.as_unsigned_int() {
                Some(val) => self.write_unsigned_int_tag(tag_id, val),
                None => Err(TagWriterError::TagIdError(tag_id)),
            },
            Some(TagDataType::Integer) => match tag.as_signed_int() {
                Some(val) => self.write_signed_int_tag(tag_id, val),
                None => Err(TagWriterError::TagIdError(tag_id)),
            },
            Some(TagDataType::Utf8) => match tag.as_utf8() {
                Some(val) => self.write_utf8_tag(tag_id, val),
                None => Err(TagWriterError::TagIdError(tag_id)),
            },
            Some(TagDataType::Binary) => match tag.as_binary() {
                Some(val) => self.write_binary_tag(tag_id, val),
                None => Err(TagWriterError::TagIdError(tag_id)),
            },
            Some(TagDataType::Float) => match tag.as_float() {
                Some(val) => self.write_float_tag(tag_id, val),
                None => Err(TagWriterError::TagIdError(tag_id)),
            },
            Some(TagDataType::Master) => match tag.as_master() {
                None => Err(TagWriterError::TagIdError(tag_id)),
                Some(Master::Start) => {
                    self.start_tag(tag_id);
                    Ok(())
                },
                Some(Master::End) => self.end_tag(tag_id),
                Some(Master::Full(children)) => {
                    self.start_tag(tag_id);
                    let ghost models: Seq<TagModel> = tag.model().data->Master_0->Full_0;
                    let ghost opened: WriterState = self@;
                    let mut i: usize = 0;
                    while i < children.len()
                        invariant
                            i <= children@.len(),
                            self.wf(),
                            models.len() == children@.len(),
                            forall|k: int|
                                0 <= k < children@.len() ==> models[k] == (
                                #[trigger] children@[k]).model(),
                            tag.model().data == DataModel::Master(MasterModel::Full(models)),
                            self@.wrote_all::<TSpec>(models, i as nat) == opened.wrote_all::<TSpec>(
                                models,
                                0,
                            ),
                            opened == old(self)@.started(tag_id),
                            tag_id == tag.model().id,
                            TSpec::spec_tag_data_type(tag_id) == Some(TagDataType::Master),
                        decreases children@.len() - i,
                    {
                        proof {
                            let ghost whole = tag.model();
                            let ghost data = whole.data;
                            let ghost master = data->Master_0;
                            let ghost list = master->Full_0;
                            assert(decreases_to!(whole => data));
                            assert(decreases_to!(data => master));
                            assert(decreases_to!(master => list));
                            assert(decreases_to!(list => list[i as int]));
                        }
                        match self.write(&children[i]) {
                            Err(e) => {
                                return Err(e);
                            },
                            Ok(_) => {},
                        }
                        i += 1;
                    }
                    self.end_tag(tag_id)
                },
            },
            None => match tag.as_binary() {
                Some(val) => self.write_binary_tag(tag_id, val),
                None => Err(TagWriterError::TagIdError(tag_id)),
            },
        };
        match outcome {
            Err(e) => Err(e),
            Ok(_) => {
                self.settle();
                Ok(())
            },
        }
    }

    /// Opens the master tag `tag` with an unknown size: its id and the size
    /// vint for "unknown" are written at once, and the tag is closed by
    /// writing its end, which adds no bytes. A reader finds the end of such a
    /// tag by what follows it.
    ///
    /// A tag that the specification does not declare as a master is refused.
    pub fn write_unknown_size<TSpec: EbmlSpecification + EbmlTag + Clone>(
        &mut self,
        tag: &TSpec,
    ) -> (r: Result<(), TagWriterError>)
        requires
            old(self).wf(),
        ensures
            final(self).wf(),
            TSpec::spec_tag_data_type(tag.model().id) == Some(TagDataType::Master) ==> r is Ok
                && final(self)@ == old(self)@.started_unknown(tag.model().id),
            TSpec::spec_tag_data_type(tag.model().id) != Some(TagDataType::Master) ==> reports(
                r,
                Some(
                    WriteFault::TagSize(
                        unknown_size_refusal_text(TSpec::spec_tag_data_type(tag.model().id)),
                    ),
                ),
            ) && final(self)@ == old(self)@,
    {
        let tag_id: u64 = tag.get_id();
        let tag_type: Option<TagDataType> = TSpec::get_tag_data_type(tag_id);
        match tag_type {
            Some(TagDataType::Master) => {},
            _ => {
                return Err(TagWriterError::TagSizeError(unknown_size_refusal(tag_type)));
            },
        }
        let id_vec: Vec<u8> = id_to_bytes(tag_id);
        extend_bytes(&mut self.working_buffer, id_vec.as_slice());
        let marker: Vec<u8> = be_encode(0x01ff_ffff_ffff_ffff, 8);
        proof {
            reveal_with_fuel(be_bytes, 9);
            assert(marker@ =~= unknown_size_bytes());
        }
        extend_bytes(&mut self.working_buffer, marker.as_slice());
        self.open_tags.push((tag_id, EBMLSize::Unknown));
        Ok(())
    }

    /// Closes every open tag, innermost first, and lets all bytes go to the
    /// destination. Stops at the first tag whose body is too long for a vint
    /// to say; the bytes then stay in the writer.
    pub fn flush(&mut self) -> (r: Result<(), TagWriterError>)
        requires
            old(self).wf(),
        ensures
            final(self).wf(),
            reports(r, old(self)@.all_ended().1),
            r is Ok ==> final(self)@ == old(self)@.all_ended().0.drained(),
            r is Err ==> final(self)@ == old(self)@.all_ended().0,
    {
        while self.open_tags.len() > 0
            invariant
                self.wf(),
                self@.all_ended() == old(self)@.all_ended(),
            decreases self.open_tags@.len(),
        {
            let id: u64 = self.open_tags[self.open_tags.len() - 1].0;
            match self.end_tag(id) {
                Err(e) => {
                    return Err(e);
                },
                Ok(_) => {},
            }
        }
        self.private_flush();
        Ok(())
    }
}

/// The text with which a tag that is no master is refused an unknown size.
pub open spec fn unknown_size_refusal_text(tag_type: Option<TagDataType>) -> Seq<char> {
    "Cannot write an unknown size for tag of type "@ + (match tag_type {
        Some(TagDataType::Master) => "Master"@,
        Some(TagDataType::UnsignedInt) => "UnsignedInt"@,
        Some(TagDataType::Integer) => "Integer"@,
        Some(TagDataType::Utf8) => "Utf8"@,
        Some(TagDataType::Binary) => "Binary"@,
        Some(TagDataType::Float) => "Float"@,
        None => "None"@,
    })
}

/// The text with which a tag that is no master is refused an unknown size.
pub fn unknown_size_refusal(tag_type: Option<TagDataType>) -> (r: String)
    ensures
        r@ == unknown_size_refusal_text(tag_type),
{
    let kind: &str = match tag_type {
        Some(TagDataType::Master) => "Master",
        Some(TagDataType::UnsignedInt) => "UnsignedInt",
        Some(TagDataType::Integer) => "Integer",
        Some(TagDataType::Utf8) => "Utf8",
        Some(TagDataType::Binary) => "Binary",
        Some(TagDataType::Float) => "Float",
        None => "None",
    };
    String::from_str("Cannot write an unknown size for tag of type ").concat(kind)
}

} // verus!
