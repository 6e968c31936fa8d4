//! What is written is read back: laws that hold of the tag writer and the tag
//! iterator together.
use vstd::prelude::*;
use vstd::utf8::encode_utf8;
use crate::reader_state::spec_peek_tag_id;
use crate::reader_state::ReaderState;
use crate::specs::DataModel;
use crate::specs::EbmlSpecification;
use crate::specs::TagDataType;
use crate::specs::TagModel;
use crate::tag_iterator_util::is_unknown_size_marker;
use crate::tag_iterator_util::EBMLSize;
use crate::tag_writer::float_body;
use crate::tag_writer::id_bytes;
use crate::tag_writer::signed_int_body;
use crate::tag_writer::signed_int_width;
use crate::tag_writer::significant_bytes;
use crate::tag_writer::size_bytes;
use crate::tag_writer::size_fits;
use crate::tag_writer::twos_complement;
use crate::tag_writer::unsigned_int_body;
use crate::tag_writer::unsigned_int_width;
use crate::tag_writer::WriterState;
use crate::tools::be_bytes;
use crate::tools::be_signed_value;
use crate::tools::be_value;
use crate::tools::decode_unsigned;
use crate::tools::encode_unsigned;
use crate::tools::lemma_be_bytes_len;
use crate::tools::lemma_be_value_first;
use crate::tools::lemma_be_value_of_bytes;
use crate::tools::lemma_decode_encode_unsigned;
use crate::tools::lemma_pow256_values;
use crate::tag_writer::lemma_size_width;
use crate::tools::lemma_vint_markers;
use crate::tag_writer::size_width;
use crate::tools::pow256;
use crate::tools::spec_float_bits;
use crate::tools::vint_marker;
use crate::tools::vint_width;
use crate::tools::FloatBits;

verus! {

/// Whether `id` is the id of a tag as a document holds it: a number of one to
/// eight bytes whose first byte announces just that width.
pub open spec fn is_valid_id(id: u64) -> bool {
    id != 0 && vint_width(id_bytes(id)[0]) == significant_bytes(id)
}

/// Whether the size of a body of `len` bytes is read back as it was written:
/// a vint can say it, and this machine can say it.
pub open spec fn is_plain_size(len: nat) -> bool {
    size_fits(len) && len <= usize::MAX
}

/// The bytes of a number that fills `width` bytes spell the number.
pub proof fn lemma_significant_bytes(value: u64)
    ensures
        significant_bytes(value) <= 8,
        value < pow256(significant_bytes(value)),
        be_bytes(value as nat, significant_bytes(value)).len() == significant_bytes(value),
        be_value(be_bytes(value as nat, significant_bytes(value))) == value,
{
    lemma_pow256_values();
    lemma_be_bytes_len(value as nat, significant_bytes(value));
    lemma_be_value_of_bytes(value as nat, significant_bytes(value));
}

/// An id is read back from the bytes that stand for it, whatever follows
/// them.
pub proof fn lemma_id_round_trip(id: u64, rest: Seq<u8>)
    requires
        is_valid_id(id),
    ensures
        spec_peek_tag_id(id_bytes(id) + rest) == Some((id, significant_bytes(id) as usize)),
        1 <= id_bytes(id).len() <= 8,
{
    lemma_significant_bytes(id);
    let bytes = id_bytes(id);
    let width = significant_bytes(id);
    assert((bytes + rest)[0] == bytes[0]);
    assert((bytes + rest).subrange(0, width as int) =~= bytes);
    assert(bytes[0] != 0);
}

/// The size of a body is read back from its vint, whatever follows it.
pub proof fn lemma_size_round_trip(len: nat, rest: Seq<u8>)
    requires
        is_plain_size(len),
    ensures
        decode_unsigned(size_bytes(len) + rest) == Ok::<Option<(u64, usize)>, crate::error::ToolError>(
            Some((len as u64, size_width(len) as usize)),
        ),
        EBMLSize::spec_new(len as u64, size_width(len) as usize) == EBMLSize::Known(len as usize),
        1 <= size_bytes(len).len() == size_width(len) <= 8,
{
    lemma_vint_markers();
    lemma_size_width(len);
    lemma_decode_encode_unsigned(len, size_width(len), rest);
    crate::tools::lemma_encode_unsigned_first(len, size_width(len));
}

/// An unsigned integer is read back from the bytes in which it is stored.
pub proof fn lemma_unsigned_int_round_trip(value: u64)
    ensures
        1 <= unsigned_int_width(value) <= 8,
        be_bytes(value as nat, unsigned_int_width(value)).len() == unsigned_int_width(value),
        be_value(be_bytes(value as nat, unsigned_int_width(value))) == value,
{
    lemma_pow256_values();
    lemma_be_bytes_len(value as nat, unsigned_int_width(value));
    lemma_be_value_of_bytes(value as nat, unsigned_int_width(value));
}

/// A signed integer is read back from the bytes in which it is stored.
pub proof fn lemma_signed_int_round_trip(value: i64)
    ensures
        1 <= signed_int_width(value) <= 8,
        be_bytes(
            twos_complement(value as int, signed_int_width(value)),
            signed_int_width(value),
        ).len() == signed_int_width(value),
        be_signed_value(
            be_bytes(twos_complement(value as int, signed_int_width(value)), signed_int_width(value)),
        ) == value,
{
    lemma_pow256_values();
    let width = signed_int_width(value);
    let raw = twos_complement(value as int, width);
    let bytes = be_bytes(raw, width);
    lemma_be_bytes_len(raw, width);
    assert(raw < pow256(width));
    lemma_be_value_of_bytes(raw, width);
    lemma_be_value_first(bytes);
    let first = bytes[0] as nat;
    let unit = pow256((width - 1) as nat);
    assert(first * unit <= raw < (first + 1) * unit);
    if width == 1 {
        assert(unit == 1);
        assert(first * unit == first && (first + 1) * unit == first + 1) by (nonlinear_arith)
            requires
                unit == 1,
        ;
    } else if width == 2 {
        assert(unit == 0x100);
        assert(first * unit == first * 0x100 && (first + 1) * unit == first * 0x100 + 0x100)
            by (nonlinear_arith)
            requires
                unit == 0x100,
        ;
    } else if width == 4 {
        assert(unit == 0x100_0000);
        assert(first * unit == first * 0x100_0000 && (first + 1) * unit == first * 0x100_0000
            + 0x100_0000) by (nonlinear_arith)
            requires
                unit == 0x100_0000,
        ;
    } else {
        assert(unit == 0x100_0000_0000_0000);
        assert(first * unit == first * 0x100_0000_0000_0000 && (first + 1) * unit == first
            * 0x100_0000_0000_0000 + 0x100_0000_0000_0000) by (nonlinear_arith)
            requires
                unit == 0x100_0000_0000_0000,
        ;
    }
}

/// The size and the body of a tag that is no master, as the writer writes
/// them, or nothing for a master tag.
pub open spec fn primitive_body(data: DataModel) -> Option<Seq<u8>> {
    match data {
        DataModel::UnsignedInt(v) => Some(unsigned_int_body(v)),
        DataModel::Integer(v) => Some(signed_int_body(v)),
        DataModel::Utf8(text) => Some(size_bytes(encode_utf8(text).len()) + encode_utf8(text)),
        DataModel::Binary(bytes) => Some(size_bytes(bytes.len()) + bytes),
        DataModel::Float(bits) => Some(float_body(bits)),
        DataModel::Master(_) => None,
    }
}

/// Whether a tag is no master and holds what the specification declares for
/// its id, with a body whose size is read back as it is written; a tag whose
/// id the specification does not know holds bytes.
pub open spec fn is_plain_primitive<T: EbmlSpecification>(tag: TagModel) -> bool {
    match (T::spec_tag_data_type(tag.id), tag.data) {
        (Some(TagDataType::UnsignedInt), DataModel::UnsignedInt(_)) => true,
        (Some(TagDataType::Integer), DataModel::Integer(_)) => true,
        (Some(TagDataType::Utf8), DataModel::Utf8(text)) => is_plain_size(encode_utf8(text).len()),
        (Some(TagDataType::Binary), DataModel::Binary(bytes)) => is_plain_size(bytes.len()),
        (None, DataModel::Binary(bytes)) => is_plain_size(bytes.len()),
        (Some(TagDataType::Float), DataModel::Float(bits)) => T::spec_widened(FloatBits::Double(bits))
            == bits,
        _ => false,
    }
}

/// What the writer writes for a plain primitive: its id, its size and its
/// body go to the destination at once where no tag is open.
pub proof fn lemma_wrote_primitive<T: EbmlSpecification>(tag: TagModel)
    requires
        is_plain_primitive::<T>(tag),
    ensures
        (WriterState {
            dest: Seq::empty(),
            open_tags: Seq::empty(),
            working_buffer: Seq::empty(),
        }).wrote::<T>(tag) == (
            WriterState {
                dest: id_bytes(tag.id) + primitive_body(tag.data)->0,
                open_tags: Seq::empty(),
                working_buffer: Seq::empty(),
            },
            None::<crate::error::WriteFault>,
        ),
{
    let fresh = WriterState {
        dest: Seq::empty(),
        open_tags: Seq::empty(),
        working_buffer: Seq::empty(),
    };
    let (next, fault) = fresh.dispatched::<T>(tag);
    let bytes = id_bytes(tag.id) + primitive_body(tag.data)->0;
    assert(next.working_buffer =~= bytes);
    assert(!next.has_pending_header());
    assert(next.drained().dest =~= bytes);
}

/// The size vint and the body of a tag, where the size is written in
/// `size_width` bytes.
pub open spec fn framed(raw: Seq<u8>, size_width: nat) -> Seq<u8> {
    encode_unsigned(raw.len(), size_width) + raw
}

/// Whether a body of `len` bytes whose size is written in `size_width` bytes
/// is read with the size that it has.
pub open spec fn is_plain_frame(len: nat, size_width: nat) -> bool {
    &&& 1 <= size_width <= 8
    &&& len < vint_marker(size_width)
    &&& len <= usize::MAX
    &&& !is_unknown_size_marker(len as u64, size_width as usize)
}

/// Where an id, a size and a body of that size stand at the place, the
/// header is read as it was written, and the bytes that are read as the body
/// are that body.
pub proof fn lemma_frame_is_read(r: ReaderState, id: u64, raw: Seq<u8>, size_width: nat, tail: Seq<u8>)
    requires
        r.wf(),
        is_valid_id(id),
        is_plain_frame(raw.len(), size_width),
        r.rest() == id_bytes(id) + framed(raw, size_width) + tail,
    ensures
        spec_peek_tag_id(r.rest()) == Some((id, significant_bytes(id) as usize)),
        decode_unsigned(
            r.rest().subrange(significant_bytes(id) as int, r.rest().len() as int),
        ) == Ok::<Option<(u64, usize)>, crate::error::ToolError>(
            Some((raw.len() as u64, size_width as usize)),
        ),
        EBMLSize::spec_new(raw.len() as u64, size_width as usize) == EBMLSize::Known(
            raw.len() as usize,
        ),
        r.offset + significant_bytes(id) + size_width + raw.len() <= r.data.len(),
        r.data.subrange(
            r.offset + significant_bytes(id) + size_width,
            r.offset + significant_bytes(id) + size_width + raw.len(),
        ) == raw,
        id_bytes(id).len() == significant_bytes(id),
        1 <= significant_bytes(id) <= 8,
        framed(raw, size_width).len() == size_width + raw.len(),
{
    let bytes = r.rest();
    let id_len = significant_bytes(id);
    let size_part = encode_unsigned(raw.len(), size_width);
    lemma_vint_markers();
    lemma_significant_bytes(id);
    crate::tools::lemma_encode_unsigned_first(raw.len(), size_width);
    assert(bytes =~= id_bytes(id) + (size_part + raw + tail));
    lemma_id_round_trip(id, size_part + raw + tail);
    assert(bytes.subrange(id_len as int, bytes.len() as int) =~= size_part + (raw + tail));
    lemma_decode_encode_unsigned(raw.len(), size_width, raw + tail);
    assert(bytes.len() == r.data.len() - r.offset);
    let data_start = r.offset + id_len + size_width;
    assert(r.data.subrange(data_start as int, data_start + raw.len()) =~= raw) by {
        assert forall|k: int| 0 <= k < raw.len() implies r.data[data_start + k] == raw[k] by {
            assert(r.data[data_start + k] == bytes[id_len + size_width + k]);
        }
    }
}

/// Whether the iterator leaves out the checks of the path, of the sizes of
/// the open tags and of the longest body, and takes tags with an unknown id.
pub open spec fn is_lenient(r: ReaderState) -> bool {
    &&& r.allow_invalid_tag_ids
    &&& r.allow_hierarchy_problems
    &&& r.allow_oversized_tags
    &&& r.max_allowed_tag_size is None
}

/// Whether the checks that the iterator makes of a tag `id` of `total` bytes
/// at the place are passed or left out: the iterator sets no limit to the
/// body; it knows the id; it has looked at the path of a tag before, and
/// the tag may stand under the open tags; and the tag ends within every
/// open tag of known size.
pub open spec fn passes<T: EbmlSpecification>(r: ReaderState, id: u64, total: int) -> bool {
    &&& r.max_allowed_tag_size is None
    &&& r.allow_invalid_tag_ids || T::spec_tag_data_type(id) is Some
    &&& r.allow_hierarchy_problems || T::spec_tag_data_type(id) is None || (
    r.has_determined_doc_path && crate::spec_util::spec_validate_tag_path::<T>(id, r.stack_path()))
    &&& r.allow_oversized_tags || !r.exceeds_a_parent(total)
}

/// A lenient iterator leaves out all checks.
pub proof fn lemma_lenient_passes<T: EbmlSpecification>(r: ReaderState, id: u64, total: int)
    requires
        is_lenient(r),
    ensures
        passes::<T>(r, id, total),
{
}

/// Where an id, a size and a body of that size stand at the place, and the
/// id is not that of a master tag, an iterator whose checks are passed
/// reads the tag that the body holds, and stands behind the body.
pub proof fn lemma_read_one_of_frame<T: EbmlSpecification>(
    r: ReaderState,
    id: u64,
    raw: Seq<u8>,
    size_width: nat,
    tail: Seq<u8>,
)
    requires
        r.wf(),
        passes::<T>(r, id, (significant_bytes(id) + size_width + raw.len()) as int),
        is_valid_id(id),
        is_plain_frame(raw.len(), size_width),
        T::spec_tag_data_type(id) != Some(TagDataType::Master),
        crate::reader_state::is_scalar(T::spec_tag_data_type(id)) ==> raw.len() <= 8,
        r.rest() == id_bytes(id) + framed(raw, size_width) + tail,
        crate::reader_state::payload::<T>(id, T::spec_tag_data_type(id), raw) matches Ok(tag) && (
        T::spec_tag_data_type(id) is None || T::spec_makes(tag)),
    ensures
        r.read_one::<T>().1 matches Ok(found) && found.tag_start == r.offset && Ok::<
            TagModel,
            crate::error::ReadFault,
        >(found.tag) == crate::reader_state::payload::<T>(id, T::spec_tag_data_type(id), raw),
        r.read_one::<T>().0 == (ReaderState {
            offset: (r.offset + id_bytes(id).len() + framed(raw, size_width).len()) as usize,
            ..r
        }),
{
    lemma_frame_is_read(r, id, raw, size_width, tail);
    let (looked, header) = r.peeked::<T>();
    assert(looked == r);
    assert(header matches Ok(h) && h.id == id && h.size == EBMLSize::Known(raw.len() as usize)
        && h.header_len == significant_bytes(id) + size_width && h.data_type
        == T::spec_tag_data_type(id));
}

/// A tag that is no master is read back from the bytes that the writer
/// writes for it, whatever follows them: the iterator reads the tag that
/// was written, from the place where it stood, and stands behind it.
///
/// This is said of a plain primitive with a valid id that the specification
/// makes, and of an iterator whose checks are passed.
pub proof fn lemma_primitive_round_trip<T: EbmlSpecification>(
    r: ReaderState,
    tag: TagModel,
    tail: Seq<u8>,
)
    requires
        r.wf(),
        passes::<T>(r, tag.id, (id_bytes(tag.id).len() + primitive_body(tag.data)->0.len()) as int),
        is_valid_id(tag.id),
        is_plain_primitive::<T>(tag),
        T::spec_makes(tag),
        r.rest() == id_bytes(tag.id) + primitive_body(tag.data)->0 + tail,
    ensures
        r.read_one::<T>().1 matches Ok(found) && found.tag == tag && found.tag_start == r.offset,
        r.read_one::<T>().0 == (ReaderState {
            offset: (r.offset + id_bytes(tag.id).len() + primitive_body(tag.data)->0.len()) as usize,
            ..r
        }),
{
    let id = tag.id;
    lemma_vint_markers();
    lemma_pow256_values();
    lemma_significant_bytes(id);
    crate::tools::lemma_encode_unsigned_first(1, 1);
    crate::tools::lemma_encode_unsigned_first(2, 1);
    crate::tools::lemma_encode_unsigned_first(4, 1);
    crate::tools::lemma_encode_unsigned_first(8, 1);
    match tag.data {
        DataModel::UnsignedInt(v) => {
            lemma_unsigned_int_round_trip(v);
            let raw = be_bytes(v as nat, unsigned_int_width(v));
            lemma_read_one_of_frame::<T>(r, id, raw, 1, tail);
        },
        DataModel::Integer(v) => {
            lemma_signed_int_round_trip(v);
            let width = signed_int_width(v);
            let raw = be_bytes(twos_complement(v as int, width), width);
            lemma_read_one_of_frame::<T>(r, id, raw, 1, tail);
        },
        DataModel::Float(bits) => {
            let raw = be_bytes(bits as nat, 8);
            lemma_be_bytes_len(bits as nat, 8);
            lemma_be_value_of_bytes(bits as nat, 8);
            assert(spec_float_bits(raw) == Some(FloatBits::Double(bits)));
            lemma_read_one_of_frame::<T>(r, id, raw, 1, tail);
        },
        DataModel::Utf8(text) => {
            let raw = encode_utf8(text);
            vstd::utf8::encode_utf8_valid_utf8(text);
            vstd::utf8::encode_utf8_decode_utf8(text);
            lemma_size_width(raw.len());
            crate::tools::lemma_encode_unsigned_first(raw.len(), size_width(raw.len()));
            lemma_read_one_of_frame::<T>(r, id, raw, size_width(raw.len()), tail);
        },
        DataModel::Binary(raw) => {
            lemma_size_width(raw.len());
            crate::tools::lemma_encode_unsigned_first(raw.len(), size_width(raw.len()));
            lemma_read_one_of_frame::<T>(r, id, raw, size_width(raw.len()), tail);
        },
        DataModel::Master(_) => {},
    }
}

} // verus!
