use ebml_iterable::error::{CorruptedFileError, TagIteratorError, TagWriterError, ToolError};
use ebml_iterable::iterator::AllowableErrors;
use ebml_iterable::specs::{
    EbmlSpecification, EbmlTag, Master, PathModel, PathPart, TagDataType, TagModel,
};
use ebml_iterable::tools::{FloatBits, Vint};
use ebml_iterable::{TagIterator, TagWriter};

#[derive(Clone, Debug, PartialEq)]
pub enum TestSpec {
    Root(Master<TestSpec>),
    Int(u64),
    String(String),
    Parent(Master<TestSpec>),
    Child(u64),
    Ebml(Master<TestSpec>),
    Segment(Master<TestSpec>),
    TrackType(u64),
    Cluster(Master<TestSpec>),
    CueRefCluster(u64),
    Count(u64),
    Block(Vec<u8>),
    SimpleBlock(Vec<u8>),
    Offset(i64),
    Gain(f64),
    Crc32(Vec<u8>),
    Void(Vec<u8>),
    RawTag(u64, Vec<u8>),
}

const ROOT_PATH: [PathPart; 1] = [PathPart::Id(129)];
const PARENT_PATH: [PathPart; 2] = [PathPart::Id(129), PathPart::Id(16643)];
const SEGMENT_PATH: [PathPart; 1] = [PathPart::Id(408125543)];
const CLUSTER_PATH: [PathPart; 2] = [PathPart::Id(408125543), PathPart::Id(524531317)];
const CRC_PATH: [PathPart; 1] = [PathPart::Global((Some(1), None))];
const VOID_PATH: [PathPart; 1] = [PathPart::Global((None, None))];

impl EbmlSpecification for TestSpec {
    fn spec_tag_data_type(_id: u64) -> Option<TagDataType> {
        unreachable!()
    }

    fn spec_path_by_id(_id: u64) -> PathModel {
        unreachable!()
    }

    fn spec_makes(_tag: TagModel) -> bool {
        unreachable!()
    }

    fn spec_widened(_bits: FloatBits) -> u64 {
        unreachable!()
    }

    fn get_tag_data_type(id: u64) -> Option<TagDataType> {
        match id {
            129 => Some(TagDataType::Master),
            16641 => Some(TagDataType::UnsignedInt),
            16642 => Some(TagDataType::Utf8),
            16643 => Some(TagDataType::Master),
            2163457 => Some(TagDataType::UnsignedInt),
            440786851 => Some(TagDataType::Master),
            408125543 => Some(TagDataType::Master),
            131 => Some(TagDataType::UnsignedInt),
            524531317 => Some(TagDataType::Master),
            151 => Some(TagDataType::UnsignedInt),
            16640 => Some(TagDataType::UnsignedInt),
            161 => Some(TagDataType::Binary),
            163 => Some(TagDataType::Binary),
            0x4110 => Some(TagDataType::Integer),
            0x4111 => Some(TagDataType::Float),
            191 => Some(TagDataType::Binary),
            236 => Some(TagDataType::Binary),
            _ => None,
        }
    }

    fn get_path_by_id(id: u64) -> &'static [PathPart] {
        match id {
            16641 | 16642 | 16643 => &ROOT_PATH,
            2163457 => &PARENT_PATH,
            131 | 524531317 => &SEGMENT_PATH,
            151 | 16640 | 161 | 163 | 0x4110 | 0x4111 => &CLUSTER_PATH,
            191 => &CRC_PATH,
            236 => &VOID_PATH,
            _ => &[],
        }
    }

    fn get_unsigned_int_tag(id: u64, data: u64) -> Option<TestSpec> {
        match id {
            16641 => Some(TestSpec::Int(data)),
            2163457 => Some(TestSpec::Child(data)),
            131 => Some(TestSpec::TrackType(data)),
            151 => Some(TestSpec::CueRefCluster(data)),
            16640 => Some(TestSpec::Count(data)),
            _ => None,
        }
    }

    fn get_signed_int_tag(id: u64, data: i64) -> Option<TestSpec> {
        match id {
            0x4110 => Some(TestSpec::Offset(data)),
            _ => None,
        }
    }

    fn get_utf8_tag(id: u64, data: String) -> Option<TestSpec> {
        match id {
            16642 => Some(TestSpec::String(data)),
            _ => None,
        }
    }

    fn get_binary_tag(id: u64, data: &[u8]) -> Option<TestSpec> {
        match id {
            161 => Some(TestSpec::Block(data.to_vec())),
            163 => Some(TestSpec::SimpleBlock(data.to_vec())),
            191 => Some(TestSpec::Crc32(data.to_vec())),
            236 => Some(TestSpec::Void(data.to_vec())),
            _ => None,
        }
    }

    fn get_float_tag(id: u64, data: FloatBits) -> Option<TestSpec> {
        match id {
            0x4111 => Some(TestSpec::Gain(match data {
                FloatBits::Single(bits) => f32::from_bits(bits) as f64,
                FloatBits::Double(bits) => f64::from_bits(bits),
            })),
            _ => None,
        }
    }

    fn get_master_tag(id: u64, data: Master<TestSpec>) -> Option<TestSpec> {
        match id {
            129 => Some(TestSpec::Root(data)),
            16643 => Some(TestSpec::Parent(data)),
            440786851 => Some(TestSpec::Ebml(data)),
            408125543 => Some(TestSpec::Segment(data)),
            524531317 => Some(TestSpec::Cluster(data)),
            _ => None,
        }
    }

    fn get_raw_tag(id: u64, data: &[u8]) -> TestSpec {
        TestSpec::RawTag(id, data.to_vec())
    }
}

impl EbmlTag for TestSpec {
    fn model(&self) -> TagModel {
        unreachable!()
    }

    fn get_id(&self) -> u64 {
        match self {
            TestSpec::Root(_) => 129,
            TestSpec::Int(_) => 16641,
            TestSpec::String(_) => 16642,
            TestSpec::Parent(_) => 16643,
            TestSpec::Child(_) => 2163457,
            TestSpec::Ebml(_) => 440786851,
            TestSpec::Segment(_) => 408125543,
            TestSpec::TrackType(_) => 131,
            TestSpec::Cluster(_) => 524531317,
            TestSpec::CueRefCluster(_) => 151,
            TestSpec::Count(_) => 16640,
            TestSpec::Block(_) => 161,
            TestSpec::SimpleBlock(_) => 163,
            TestSpec::Offset(_) => 0x4110,
            TestSpec::Gain(_) => 0x4111,
            TestSpec::Crc32(_) => 191,
            TestSpec::Void(_) => 236,
            TestSpec::RawTag(id, _data) => *id,
        }
    }

    fn as_unsigned_int(&self) -> Option<&u64> {
        match self {
            TestSpec::Int(val) => Some(val),
            TestSpec::Child(val) => Some(val),
            TestSpec::TrackType(val) => Some(val),
            TestSpec::CueRefCluster(val) => Some(val),
            TestSpec::Count(val) => Some(val),
            _ => None,
        }
    }

    fn as_signed_int(&self) -> Option<&i64> {
        match self {
            TestSpec::Offset(val) => Some(val),
            _ => None,
        }
    }

    fn as_utf8(&self) -> Option<&str> {
        match self {
            TestSpec::String(val) => Some(val),
            _ => None,
        }
    }

    fn as_binary(&self) -> Option<&[u8]> {
        match self {
            TestSpec::Block(val) => Some(val),
            TestSpec::SimpleBlock(val) => Some(val),
            TestSpec::Crc32(val) => Some(val),
            TestSpec::Void(val) => Some(val),
            TestSpec::RawTag(_id, data) => Some(data),
            _ => None,
        }
    }

    fn as_float(&self) -> Option<u64> {
        match self {
            TestSpec::Gain(val) => Some(val.to_bits()),
            _ => None,
        }
    }

    fn as_master(&self) -> Option<&Master<TestSpec>> {
        match self {
            TestSpec::Root(val) => Some(val),
            TestSpec::Parent(val) => Some(val),
            TestSpec::Ebml(val) => Some(val),
            TestSpec::Segment(val) => Some(val),
            TestSpec::Cluster(val) => Some(val),
            _ => None,
        }
    }
}

fn written(tags: &[TestSpec]) -> Vec<u8> {
    let mut writer = TagWriter::new(Vec::new());
    for tag in tags {
        writer.write(tag).expect("Test shouldn't error");
    }
    writer.into_inner()
}

#[test]
fn write_ebml_tag() {
    let mut writer = TagWriter::new(Vec::new());
    writer.write_raw(0x1a45dfa3, &[]).expect("Error writing tag");

    let zero_size = 0u64.as_vint().expect("Error converting [0] to vint")[0];
    assert_eq!(vec![0x1a, 0x45, 0xdf, 0xa3, zero_size], writer.get_ref().to_vec());
}

#[test]
fn minimal_root_bytes() {
    let dest = written(&[TestSpec::Ebml(Master::Start), TestSpec::Ebml(Master::End)]);
    assert_eq!(dest, vec![0x1A, 0x45, 0xDF, 0xA3, 0x80]);
}

#[test]
fn primitive_inside_master_bytes() {
    let dest = written(&[
        TestSpec::Segment(Master::Start),
        TestSpec::TrackType(0x01),
        TestSpec::Segment(Master::End),
    ]);
    assert_eq!(dest, vec![0x18, 0x53, 0x80, 0x67, 0x83, 0x83, 0x81, 0x01]);
}

#[test]
fn full_master_equals_start_children_end() {
    let streamed = written(&[
        TestSpec::Segment(Master::Start),
        TestSpec::Cluster(Master::Start),
        TestSpec::CueRefCluster(2),
        TestSpec::Block(vec![9, 8, 7]),
        TestSpec::Cluster(Master::End),
        TestSpec::Segment(Master::End),
    ]);
    let whole = written(&[TestSpec::Segment(Master::Full(vec![TestSpec::Cluster(Master::Full(vec![
        TestSpec::CueRefCluster(2),
        TestSpec::Block(vec![9, 8, 7]),
    ]))]))]);
    assert_eq!(streamed, whole);
    assert_eq!(
        whole,
        vec![0x18, 0x53, 0x80, 0x67, 0x8d, 0x1f, 0x43, 0xb6, 0x75, 0x88, 0x97, 0x81, 0x02, 0xa1, 0x83, 9, 8, 7]
    );
}

#[test]
fn bytes_wait_until_the_outermost_tag_closes() {
    let mut writer = TagWriter::new(Vec::new());
    writer.write(&TestSpec::Segment(Master::Start)).unwrap();
    writer.write(&TestSpec::TrackType(1)).unwrap();
    assert!(writer.get_ref().is_empty());
    writer.write(&TestSpec::Segment(Master::End)).unwrap();
    assert_eq!(writer.get_ref().len(), 8);
}

#[test]
fn unsigned_ints_take_the_least_of_1_2_4_8_bytes() {
    assert_eq!(written(&[TestSpec::TrackType(0)]), vec![0x83, 0x81, 0x00]);
    assert_eq!(written(&[TestSpec::TrackType(255)]), vec![0x83, 0x81, 0xff]);
    assert_eq!(written(&[TestSpec::TrackType(256)]), vec![0x83, 0x82, 0x01, 0x00]);
    assert_eq!(written(&[TestSpec::TrackType(65536)]), vec![0x83, 0x84, 0x00, 0x01, 0x00, 0x00]);
    assert_eq!(
        written(&[TestSpec::TrackType(1 << 32)]),
        vec![0x83, 0x88, 0, 0, 0, 1, 0, 0, 0, 0]
    );
}

#[test]
fn signed_ints_take_the_least_of_1_2_4_8_bytes() {
    assert_eq!(written(&[TestSpec::Offset(-1)]), vec![0x41, 0x10, 0x81, 0xff]);
    assert_eq!(written(&[TestSpec::Offset(127)]), vec![0x41, 0x10, 0x81, 0x7f]);
    assert_eq!(written(&[TestSpec::Offset(128)]), vec![0x41, 0x10, 0x82, 0x00, 0x80]);
    assert_eq!(written(&[TestSpec::Offset(-129)]), vec![0x41, 0x10, 0x82, 0xff, 0x7f]);
    assert_eq!(written(&[TestSpec::Offset(-32769)]), vec![0x41, 0x10, 0x84, 0xff, 0xff, 0x7f, 0xff]);
    assert_eq!(
        written(&[TestSpec::Offset(i64::MIN)]),
        vec![0x41, 0x10, 0x88, 0x80, 0, 0, 0, 0, 0, 0, 0]
    );
    assert_eq!(
        written(&[TestSpec::Offset(-(1 << 31) - 1)]),
        vec![0x41, 0x10, 0x88, 0xff, 0xff, 0xff, 0xff, 0x7f, 0xff, 0xff, 0xff]
    );
}

#[test]
fn floats_take_eight_bytes() {
    let mut expected = vec![0x41, 0x11, 0x88];
    expected.extend_from_slice(&1.5f64.to_be_bytes());
    assert_eq!(written(&[TestSpec::Gain(1.5)]), expected);
}

#[test]
fn text_is_written_as_utf8() {
    assert_eq!(
        written(&[TestSpec::String("Hello".to_string())]),
        vec![0x41, 0x02, 0x85, b'H', b'e', b'l', b'l', b'o']
    );
    assert_eq!(written(&[TestSpec::String("é".to_string())]), vec![0x41, 0x02, 0x82, 0xc3, 0xa9]);
}

#[test]
fn raw_tags_are_written_as_bytes() {
    assert_eq!(written(&[TestSpec::RawTag(0xf2, vec![0x01])]), vec![0xf2, 0x81, 0x01]);
}

#[test]
fn long_bodies_get_longer_size_vints() {
    let mut writer = TagWriter::new(Vec::new());
    writer.write_raw(0xa1, &[7u8; 200]).unwrap();
    let dest = writer.into_inner();
    assert_eq!(&dest[..3], &[0xa1, 0x40, 200]);
    assert_eq!(dest.len(), 203);
}

#[test]
fn unknown_size_master_bytes() {
    let mut writer = TagWriter::new(Vec::new());
    writer.write_unknown_size(&TestSpec::Parent(Master::Start)).unwrap();
    writer.write(&TestSpec::Child(1)).unwrap();
    writer.write(&TestSpec::Parent(Master::End)).unwrap();
    assert_eq!(
        writer.into_inner(),
        vec![0x41, 0x03, 0x01, 0xff, 0xff, 0xff, 0xff, 0xff, 0xff, 0xff, 0x21, 0x03, 0x01, 0x81, 0x01]
    );
}

#[test]
fn unknown_size_is_for_masters_only() {
    let mut writer = TagWriter::new(Vec::new());
    let result = writer.write_unknown_size(&TestSpec::Child(1));
    assert!(matches!(result, Err(TagWriterError::TagSizeError(text)) if text == "Cannot write an unknown size for tag of type UnsignedInt"));
    assert!(writer.into_inner().is_empty());
}

#[test]
fn closing_the_wrong_tag_is_refused() {
    let mut writer = TagWriter::new(Vec::new());
    writer.write(&TestSpec::Segment(Master::Start)).unwrap();
    let result = writer.write(&TestSpec::Cluster(Master::End));
    assert!(matches!(
        result,
        Err(TagWriterError::UnexpectedClosingTag { tag_id: 524531317, expected_id: Some(408125543) })
    ));
    let mut writer = TagWriter::new(Vec::new());
    let result = writer.write(&TestSpec::Cluster(Master::End));
    assert!(matches!(
        result,
        Err(TagWriterError::UnexpectedClosingTag { tag_id: 524531317, expected_id: None })
    ));
}

#[test]
fn flush_closes_open_tags() {
    let mut writer = TagWriter::new(Vec::new());
    writer.write(&TestSpec::Segment(Master::Start)).unwrap();
    writer.write(&TestSpec::Cluster(Master::Start)).unwrap();
    writer.write(&TestSpec::Count(1)).unwrap();
    assert!(writer.get_ref().is_empty());
    writer.flush().unwrap();
    assert_eq!(
        writer.into_inner(),
        vec![0x18, 0x53, 0x80, 0x67, 0x89, 0x1f, 0x43, 0xb6, 0x75, 0x84, 0x41, 0x00, 0x81, 0x01]
    );
}

#[test]
fn writer_adds_to_what_the_destination_holds() {
    let mut writer = TagWriter::new(vec![1, 2, 3]);
    writer.write_raw(0xec, &[0, 0]).unwrap();
    assert_eq!(writer.into_inner(), vec![1, 2, 3, 0xec, 0x82, 0, 0]);
}

fn read_all(bytes: Vec<u8>, tags_to_buffer: &[TestSpec]) -> Vec<Result<TestSpec, TagIteratorError>> {
    let mut reader: TagIterator<TestSpec> = TagIterator::new(bytes, tags_to_buffer);
    let mut found = Vec::new();
    while let Some(item) = reader.next() {
        let failed = item.is_err();
        found.push(item);
        if failed {
            break;
        }
    }
    found
}

fn get_data_with_invalid_ids() -> Vec<u8> {
    let tags: Vec<TestSpec> = vec![
        TestSpec::Segment(Master::Start),
        TestSpec::TrackType(0x01),
        TestSpec::RawTag(0xf2, vec![0x01]),
        TestSpec::Segment(Master::End),
    ];

    let dest = written(&tags);
    println!("dest {:x?}", dest);
    dest
}

#[test]
fn error_on_invalid_ids() {
    let cursor = get_data_with_invalid_ids();
    let mut reader: TagIterator<TestSpec> = TagIterator::new(cursor, &[]);
    assert!(reader.next().unwrap().is_ok());
    assert!(reader.next().unwrap().is_ok());
    assert!(matches!(
        reader.next().unwrap(),
        Err(TagIteratorError::CorruptedFileData(CorruptedFileError::InvalidTagId { tag_id: _, position: _ }))
    ));
}

#[test]
fn allow_errors_invalid_ids() {
    let cursor = get_data_with_invalid_ids();
    let mut reader: TagIterator<TestSpec> = TagIterator::new(cursor, &[]);
    reader.allow_errors(&[AllowableErrors::InvalidTagIds]);
    let mut count = 0;
    while let Some(t) = reader.next() {
        assert!(t.is_ok());
        count += 1;
    }
    assert_eq!(count, 4);
}

fn get_data_with_hierarchy_problems() -> Vec<u8> {
    let dest = vec![0x18, 0x53, 0x80, 0x67, 0x84, 0x41, 0x00, 0x81, 0x01];
    println!("dest {:x?}", dest);
    dest
}

#[test]
fn error_on_hierarchy_problems() {
    let cursor = get_data_with_hierarchy_problems();
    let mut reader: TagIterator<TestSpec> = TagIterator::new(cursor, &[]);
    assert!(reader.next().unwrap().is_ok());
    assert!(matches!(
        reader.next().unwrap(),
        Err(TagIteratorError::CorruptedFileData(CorruptedFileError::HierarchyError {
            found_tag_id: _,
            current_parent_id: _
        }))
    ));
}

#[test]
fn allow_errors_hierarchy_problems() {
    let cursor = get_data_with_hierarchy_problems();
    let mut reader: TagIterator<TestSpec> = TagIterator::new(cursor, &[]);
    reader.allow_errors(&[AllowableErrors::HierarchyProblems]);
    let mut count = 0;
    while let Some(t) = reader.next() {
        assert!(t.is_ok());
        count += 1;
    }
    assert_eq!(count, 3);
}

fn get_data_with_oversized_child() -> Vec<u8> {
    let tags: Vec<TestSpec> = vec![
        TestSpec::Segment(Master::Start),
        TestSpec::Cluster(Master::Start),
        TestSpec::Block(vec![0x01, 0x02, 0x03, 0x04]),
        TestSpec::Cluster(Master::End),
        TestSpec::Segment(Master::End),
    ];

    let mut dest = written(&tags);

    // Extend size of block element without resizing parents
    dest[11] = 0x86;
    dest.push(0x0a);
    dest.push(0x0a);

    println!("dest {:x?}", dest);
    dest
}

#[test]
fn error_on_oversized_child() {
    let cursor = get_data_with_oversized_child();
    let mut reader: TagIterator<TestSpec> = TagIterator::new(cursor, &[]);
    assert!(reader.next().unwrap().is_ok());
    assert!(reader.next().unwrap().is_ok());
    assert!(matches!(
        reader.next().unwrap(),
        Err(TagIteratorError::CorruptedFileData(CorruptedFileError::OversizedChildElement {
            position: _,
            tag_id: _,
            size: _
        }))
    ));
}

#[test]
fn allow_errors_oversized_child() {
    let cursor = get_data_with_oversized_child();
    let mut reader: TagIterator<TestSpec> = TagIterator::new(cursor, &[]);
    reader.allow_errors(&[AllowableErrors::OversizedTags]);
    while let Some(t) = reader.next() {
        assert!(t.is_ok());
    }
}

fn get_data_with_6_byte_tag() -> Vec<u8> {
    let tags: Vec<TestSpec> = vec![
        TestSpec::Segment(Master::Start),
        TestSpec::Cluster(Master::Start),
        TestSpec::Block(vec![0x01, 0x02, 0x03, 0x04, 0x05, 0x06]),
        TestSpec::Cluster(Master::End),
        TestSpec::Segment(Master::End),
    ];

    let mut writer = TagWriter::new(Vec::new());

    for tag in tags.iter() {
        if matches!(tag, TestSpec::Segment(Master::Start)) || matches!(tag, TestSpec::Cluster(Master::Start)) {
            writer.write_unknown_size(tag).expect("Test shouldn't error");
        } else {
            writer.write(tag).expect("Test shouldn't error");
        }
    }

    let dest = writer.into_inner();
    println!("dest {:x?}", dest);
    dest
}

#[test]
fn error_on_oversized_tag() {
    let cursor = get_data_with_6_byte_tag();
    let mut reader: TagIterator<TestSpec> = TagIterator::new(cursor, &[]);
    reader.set_max_allowable_tag_size(Some(5));
    assert!(reader.next().unwrap().is_ok());
    assert!(reader.next().unwrap().is_ok());
    assert!(matches!(
        reader.next().unwrap(),
        Err(TagIteratorError::CorruptedFileData(CorruptedFileError::InvalidTagSize { position: 24, tag_id: 0xa1, size: 6 }))
    ));
}

#[test]
fn recover_on_global_element() {
    let tags: Vec<TestSpec> = vec![
        TestSpec::Segment(Master::Start),
        TestSpec::Cluster(Master::Start),
        TestSpec::Crc32(vec![0x01]),
        TestSpec::Count(1),
        TestSpec::Cluster(Master::End),
        TestSpec::Segment(Master::End),
    ];

    let mut dest = written(&tags);

    // Inserting some junk data to skip
    dest.insert(10, 0x0a);
    dest.insert(10, 0x0a);
    dest.insert(10, 0x0a);

    println!("dest {:x?}", dest);

    let mut reader: TagIterator<TestSpec> = TagIterator::new(dest, &[]);
    assert!(matches!(reader.next(), Some(t) if t.is_ok()));
    assert!(matches!(reader.next(), Some(t) if t.is_ok()));
    assert!(matches!(reader.next(), Some(t) if t.is_err()));
    assert!(reader.try_recover().is_ok());
    while let Some(t) = reader.next() {
        if let Err(err) = t {
            println!("{err:?}");
            assert!(false);
        }
    }
}

#[test]
fn simple_read_write() {
    let tags: Vec<TestSpec> = vec![
        TestSpec::Ebml(Master::Start),
        TestSpec::Ebml(Master::End),
        TestSpec::Segment(Master::Start),
        TestSpec::TrackType(0x01),
        TestSpec::Segment(Master::End),
    ];

    let dest = written(&tags);
    println!("dest {:?}", dest);

    let read_tags: Vec<TestSpec> = read_all(dest, &[]).into_iter().map(|t| t.unwrap()).collect();
    println!("tags {:?}", read_tags);

    assert_eq!(read_tags.len(), tags.len());
    for i in 0..read_tags.len() {
        assert_eq!(tags[i], read_tags[i]);
    }
}

#[test]
fn read_write_buffered_tag() {
    let tags: Vec<TestSpec> = vec![
        TestSpec::Segment(Master::Start),
        TestSpec::Cluster(Master::Full(vec![TestSpec::CueRefCluster(0x02)])),
        TestSpec::Segment(Master::End),
    ];

    let dest = written(&tags);
    println!("dest {:?}", dest);

    let read_tags: Vec<TestSpec> =
        read_all(dest, &[TestSpec::Cluster(Master::Start)]).into_iter().map(|t| t.unwrap()).collect();
    println!("tags {:?}", read_tags);

    assert_eq!(read_tags.len(), tags.len());
    for i in 0..read_tags.len() {
        assert_eq!(tags[i], read_tags[i]);
    }
}

#[test]
fn oversized_tag() {
    let mut writer = TagWriter::new(Vec::new());

    writer.write(&TestSpec::Segment(Master::Start)).expect("Error writing tag");
    writer.write(&TestSpec::Cluster(Master::Start)).expect("Error writing tag");
    writer.write_raw(0xa1, &[0x00; 0x10001]).expect("Error writing tag");
    writer.write(&TestSpec::Count(0x00)).expect("Error writing tag");
    writer.write(&TestSpec::Cluster(Master::End)).expect("Error writing tag");
    writer.write(&TestSpec::Segment(Master::End)).expect("Error writing tag");
    let dest = writer.into_inner();

    let tags = read_all(dest, &[]);
    assert_eq!(tags.len(), 4 + 2, "Reading every tag that was written");
}

fn unknown_size_document(with_int: bool) -> Vec<u8> {
    let mut writer = TagWriter::new(Vec::new());
    writer.write(&TestSpec::Root(Master::Start)).unwrap();
    writer.write_unknown_size(&TestSpec::Parent(Master::Start)).unwrap();
    writer.write(&TestSpec::Child(1)).unwrap();
    writer.write(&TestSpec::Child(2)).unwrap();
    writer.write(&TestSpec::Parent(Master::End)).unwrap();
    if with_int {
        writer.write(&TestSpec::Int(2)).unwrap();
    }
    writer.write(&TestSpec::Root(Master::End)).unwrap();
    writer.into_inner()
}

#[test]
fn write_unknown_size() {
    let dest = unknown_size_document(false);
    let tags = read_all(dest, &[]);
    assert_eq!(tags.len(), 6, "Reading every tag that was written");
}

#[test]
fn buffer_unknown_size() {
    let dest = unknown_size_document(false);
    let mut tags = read_all(dest, &[TestSpec::Parent(Master::Start)]);
    assert_eq!(tags.len(), 3, "Buffering 'Parent' into full variant");

    tags.pop();
    let parent = tags.pop().unwrap().unwrap();
    assert!(
        matches!(parent.as_master(), Some(Master::Full(c)) if c.len() == 2),
        "Did not buffer tag as master with 2 children"
    );
}

#[test]
fn unknown_size_write_read() {
    let dest = unknown_size_document(true);
    println!("{dest:x?}");

    let mut iter = TagIterator::<TestSpec>::new(dest, &[]);
    assert!(matches!(iter.next(), Some(Ok(TestSpec::Root(Master::Start)))));
    assert!(matches!(iter.next(), Some(Ok(TestSpec::Parent(Master::Start)))));
    assert!(matches!(iter.next(), Some(Ok(TestSpec::Child(1)))));
    assert!(matches!(iter.next(), Some(Ok(TestSpec::Child(2)))));
    assert!(matches!(iter.next(), Some(Ok(TestSpec::Parent(Master::End)))));
    assert!(matches!(iter.next(), Some(Ok(TestSpec::Int(2)))));
    assert!(matches!(iter.next(), Some(Ok(TestSpec::Root(Master::End)))));
    assert!(matches!(iter.next(), None));
}

fn cluster_document() -> Vec<u8> {
    let tags: Vec<TestSpec> = vec![
        TestSpec::Segment(Master::Start),
        TestSpec::TrackType(0x01),
        TestSpec::Cluster(Master::Start),
        TestSpec::CueRefCluster(3),
        TestSpec::Count(1),
        TestSpec::Block(vec![0, 1, 2, 3, 4, 5, 6, 7, 8]),
        TestSpec::Cluster(Master::End),
        TestSpec::Segment(Master::End),
    ];
    let dest = written(&tags);
    println!("dest {:x?}", dest);
    dest
}

#[test]
fn eof_error_is_helpful() {
    let dest = cluster_document();

    let src = dest[0..26].to_vec();
    let mut iter = read_all(src, &[]).into_iter().skip_while(|x: &Result<TestSpec, TagIteratorError>| x.is_ok());

    let err = iter.next().expect("Shouldn't have reached end of data");

    match err.expect_err("Should be an error") {
        TagIteratorError::UnexpectedEOF { tag_start, tag_id, tag_size, partial_data } => {
            assert_eq!(tag_start, 20);
            assert_eq!(tag_id, Some(TestSpec::Block(vec![]).get_id()));
            assert_eq!(tag_size, Some(9));
            assert_eq!(partial_data, Some(vec![0, 1, 2, 3]));
        }
        other => {
            println!("{other:?}");
            assert!(false);
        }
    }
}

#[test]
fn allow_start_reading_not_at_root() {
    let dest = cluster_document();

    let src = dest[8..].to_vec();
    let mut reader: TagIterator<TestSpec> = TagIterator::new(src, &[]);
    let mut count = 0;
    while let Some(t) = reader.next() {
        assert!(!matches!(t, Ok(TestSpec::Segment(_))));
        assert!(t.is_ok());
        count += 1;
    }
    assert_eq!(count, 5);
}

#[test]
fn minimal_root_reads_back() {
    let found = read_all(vec![0x1A, 0x45, 0xDF, 0xA3, 0x80], &[]);
    assert_eq!(found.len(), 2);
    assert!(matches!(found[0], Ok(TestSpec::Ebml(Master::Start))));
    assert!(matches!(found[1], Ok(TestSpec::Ebml(Master::End))));
}

#[test]
fn primitive_inside_master_reads_back() {
    let found = read_all(vec![0x18, 0x53, 0x80, 0x67, 0x83, 0x83, 0x81, 0x01], &[]);
    assert_eq!(found.len(), 3);
    assert!(matches!(found[0], Ok(TestSpec::Segment(Master::Start))));
    assert!(matches!(found[1], Ok(TestSpec::TrackType(1))));
    assert!(matches!(found[2], Ok(TestSpec::Segment(Master::End))));
}

#[test]
fn subtree_buffering_gives_one_full_tag() {
    let dest = written(&[
        TestSpec::Cluster(Master::Start),
        TestSpec::CueRefCluster(2),
        TestSpec::Cluster(Master::End),
    ]);
    assert_eq!(dest, vec![0x1F, 0x43, 0xB6, 0x75, 0x83, 0x97, 0x81, 0x02]);
    let mut reader: TagIterator<TestSpec> = TagIterator::new(dest, &[TestSpec::Cluster(Master::Start)]);
    let first = reader.next().unwrap().unwrap();
    assert_eq!(first, TestSpec::Cluster(Master::Full(vec![TestSpec::CueRefCluster(2)])));
    assert_eq!(reader.last_emitted_tag_offset(), 0);
    assert!(reader.next().is_none());
}

#[test]
fn nested_masters_roll_up() {
    let tags = vec![TestSpec::Segment(Master::Full(vec![
        TestSpec::TrackType(7),
        TestSpec::Cluster(Master::Full(vec![TestSpec::Count(1), TestSpec::Block(vec![1, 2])])),
        TestSpec::Cluster(Master::Full(vec![])),
    ]))];
    let dest = written(&tags);
    let found = read_all(dest.clone(), &[TestSpec::Segment(Master::Start)]);
    assert_eq!(found.len(), 1);
    assert_eq!(found[0].as_ref().unwrap(), &tags[0]);
    let found = read_all(dest, &[TestSpec::Segment(Master::Start), TestSpec::Cluster(Master::Start)]);
    assert_eq!(found.len(), 1);
    assert_eq!(found[0].as_ref().unwrap(), &tags[0]);
}

#[test]
fn hierarchy_error_names_the_parent() {
    let mut reader: TagIterator<TestSpec> = TagIterator::new(get_data_with_hierarchy_problems(), &[]);
    assert!(matches!(reader.next(), Some(Ok(TestSpec::Segment(Master::Start)))));
    assert!(matches!(
        reader.next(),
        Some(Err(TagIteratorError::CorruptedFileData(CorruptedFileError::HierarchyError {
            found_tag_id: 0x4100,
            current_parent_id: Some(0x18538067)
        })))
    ));
    let mut reader: TagIterator<TestSpec> = TagIterator::new(get_data_with_hierarchy_problems(), &[]);
    reader.allow_errors(&[AllowableErrors::HierarchyProblems]);
    assert!(matches!(reader.next(), Some(Ok(TestSpec::Segment(Master::Start)))));
    assert!(matches!(reader.next(), Some(Ok(TestSpec::Count(1)))));
    assert!(matches!(reader.next(), Some(Ok(TestSpec::Segment(Master::End)))));
    assert!(reader.next().is_none());
}

#[test]
fn offsets_are_where_the_ids_begin() {
    let dest = cluster_document();
    let mut reader: TagIterator<TestSpec> = TagIterator::new(dest.clone(), &[]);
    let mut offsets = Vec::new();
    while let Some(t) = reader.next() {
        let tag = t.unwrap();
        let offset = reader.last_emitted_tag_offset();
        let id = tag.get_id().to_be_bytes();
        let id: Vec<u8> = id.iter().copied().skip_while(|b| *b == 0).collect();
        assert_eq!(&dest[offset..offset + id.len()], &id[..]);
        offsets.push(offset);
    }
    assert_eq!(offsets, vec![0, 5, 8, 13, 16, 20, 8, 0]);
}

#[test]
fn invalid_id_error_says_where() {
    let mut reader: TagIterator<TestSpec> = TagIterator::new(get_data_with_invalid_ids(), &[]);
    reader.next();
    reader.next();
    assert!(matches!(
        reader.next(),
        Some(Err(TagIteratorError::CorruptedFileData(CorruptedFileError::InvalidTagId { tag_id: 0xf2, position: 8 })))
    ));
}

#[test]
fn oversized_child_error_says_what() {
    let mut reader: TagIterator<TestSpec> = TagIterator::new(get_data_with_oversized_child(), &[]);
    reader.next();
    reader.next();
    assert!(matches!(
        reader.next(),
        Some(Err(TagIteratorError::CorruptedFileData(CorruptedFileError::OversizedChildElement {
            position: 10,
            tag_id: 0xa1,
            size: 6
        })))
    ));
}

#[test]
fn scalar_with_more_than_eight_bytes_is_invalid() {
    let mut reader: TagIterator<TestSpec> =
        TagIterator::new(vec![0x83, 0x89, 1, 2, 3, 4, 5, 6, 7, 8, 9], &[]);
    assert!(matches!(
        reader.next(),
        Some(Err(TagIteratorError::CorruptedFileData(CorruptedFileError::InvalidTagData { tag_id: 0x83, position: 0 })))
    ));
}

#[test]
fn primitive_with_unknown_size_is_invalid() {
    let mut reader: TagIterator<TestSpec> = TagIterator::new(vec![0xa1, 0xff, 1, 2], &[]);
    assert!(matches!(
        reader.next(),
        Some(Err(TagIteratorError::CorruptedFileData(CorruptedFileError::InvalidTagData { tag_id: 0xa1, position: 0 })))
    ));
}

#[test]
fn bad_utf8_is_corrupted_tag_data() {
    let mut reader: TagIterator<TestSpec> = TagIterator::new(vec![0x41, 0x02, 0x82, 0xc3, 0x28], &[]);
    match reader.next() {
        Some(Err(TagIteratorError::CorruptedTagData { tag_id, problem: ToolError::FromUtf8Error(bytes, _) })) => {
            assert_eq!(tag_id, 0x4102);
            assert_eq!(bytes, vec![0xc3, 0x28]);
        }
        other => panic!("{other:?}"),
    }
}

#[test]
fn text_reads_back() {
    let dest = written(&[TestSpec::String("Hello".to_string())]);
    let mut reader: TagIterator<TestSpec> = TagIterator::new(dest, &[]);
    assert_eq!(reader.next().unwrap().unwrap(), TestSpec::String("Hello".to_string()));
}

#[test]
fn floats_read_back_in_both_widths() {
    let mut reader: TagIterator<TestSpec> =
        TagIterator::new(vec![0x41, 0x11, 0x84, 0x3f, 0xc0, 0, 0, 0x41, 0x11, 0x83, 1, 2, 3], &[]);
    assert_eq!(reader.next().unwrap().unwrap(), TestSpec::Gain(1.5));
    assert!(matches!(
        reader.next(),
        Some(Err(TagIteratorError::CorruptedTagData { tag_id: 0x4111, problem: ToolError::ReadF64Mismatch(_) }))
    ));
    let dest = written(&[TestSpec::Gain(-0.125)]);
    let mut reader: TagIterator<TestSpec> = TagIterator::new(dest, &[]);
    assert_eq!(reader.next().unwrap().unwrap(), TestSpec::Gain(-0.125));
}

#[test]
fn signed_ints_read_back() {
    for value in [0i64, -1, 127, -128, 128, -129, 40000, -40000, i64::MAX, i64::MIN] {
        let dest = written(&[TestSpec::Offset(value)]);
        let mut reader: TagIterator<TestSpec> = TagIterator::new(dest, &[]);
        assert_eq!(reader.next().unwrap().unwrap(), TestSpec::Offset(value));
    }
}

#[test]
fn recovery_stretches_known_parents() {
    let mut dest = written(&[
        TestSpec::Segment(Master::Start),
        TestSpec::Cluster(Master::Start),
        TestSpec::Block(vec![7]),
        TestSpec::Count(1),
        TestSpec::Cluster(Master::End),
        TestSpec::Segment(Master::End),
    ]);
    dest.insert(10, 0x0a);
    dest.insert(10, 0x0a);
    dest.insert(10, 0x0a);
    let mut reader: TagIterator<TestSpec> = TagIterator::new(dest, &[]);
    assert!(matches!(reader.next(), Some(Ok(TestSpec::Segment(Master::Start)))));
    assert!(matches!(reader.next(), Some(Ok(TestSpec::Cluster(Master::Start)))));
    assert!(matches!(
        reader.next(),
        Some(Err(TagIteratorError::UnexpectedEOF {
            tag_start: 10,
            tag_id: Some(0x0a0a0aa181),
            tag_size: None,
            partial_data: None
        }))
    ));
    assert_eq!(reader.current_offset(), 10);
    assert!(reader.try_recover().is_ok());
    assert_eq!(reader.current_offset(), 13);
    assert!(matches!(reader.next(), Some(Ok(TestSpec::Block(_)))));
    assert_eq!(reader.last_emitted_tag_offset(), 13);
    assert!(matches!(reader.next(), Some(Ok(TestSpec::Count(1)))));
    assert_eq!(reader.last_emitted_tag_offset(), 16);
    assert!(matches!(reader.next(), Some(Ok(TestSpec::Cluster(Master::End)))));
    assert!(matches!(reader.next(), Some(Ok(TestSpec::Segment(Master::End)))));
    assert!(reader.next().is_none());
}

#[test]
fn recovery_fails_at_the_end() {
    let mut reader: TagIterator<TestSpec> = TagIterator::new(vec![0x0a, 0x0a], &[]);
    assert!(matches!(reader.next(), Some(Err(_))));
    assert!(matches!(
        reader.try_recover(),
        Err(TagIteratorError::UnexpectedEOF { tag_start: 2, tag_id: None, tag_size: None, partial_data: None })
    ));
}

#[test]
fn document_that_ends_within_a_header() {
    let found = read_all(vec![0x18, 0x53], &[]);
    assert_eq!(found.len(), 1);
    assert!(matches!(
        found[0],
        Err(TagIteratorError::UnexpectedEOF { tag_start: 0, tag_id: None, tag_size: None, partial_data: None })
    ));
    let mut reader: TagIterator<TestSpec> = TagIterator::new(vec![0x18, 0x53, 0x80, 0x67], &[]);
    assert!(matches!(
        reader.next(),
        Some(Err(TagIteratorError::UnexpectedEOF {
            tag_start: 0,
            tag_id: Some(0x18538067),
            tag_size: None,
            partial_data: None
        }))
    ));
}

#[test]
fn open_tags_close_at_the_end_innermost_first() {
    let mut writer = TagWriter::new(Vec::new());
    writer.write_unknown_size(&TestSpec::Root(Master::Start)).unwrap();
    writer.write_unknown_size(&TestSpec::Parent(Master::Start)).unwrap();
    writer.write(&TestSpec::Child(1)).unwrap();
    let dest = writer.into_inner();
    let found: Vec<TestSpec> = read_all(dest, &[]).into_iter().map(|t| t.unwrap()).collect();
    assert_eq!(
        found,
        vec![
            TestSpec::Root(Master::Start),
            TestSpec::Parent(Master::Start),
            TestSpec::Child(1),
            TestSpec::Parent(Master::End),
            TestSpec::Root(Master::End),
        ]
    );
}

#[test]
fn append_feeds_more_of_the_document() {
    let dest = cluster_document();
    let mut reader: TagIterator<TestSpec> = TagIterator::new(dest[..8].to_vec(), &[]);
    assert!(matches!(reader.next(), Some(Ok(TestSpec::Segment(Master::Start)))));
    assert!(matches!(reader.next(), Some(Ok(TestSpec::TrackType(1)))));
    assert!(reader.append(&dest[8..]));
    assert!(matches!(reader.next(), Some(Ok(TestSpec::Cluster(Master::Start)))));
    assert_eq!(reader.get_ref().len(), dest.len());
    assert_eq!(reader.into_inner(), dest);
}

#[test]
fn a_size_of_all_ones_is_never_written() {
    let dest = written(&[TestSpec::Block(vec![5; 127])]);
    assert_eq!(&dest[..3], &[0xa1, 0x40, 0x7f]);
    let mut reader: TagIterator<TestSpec> = TagIterator::new(dest, &[]);
    assert_eq!(reader.next().unwrap().unwrap(), TestSpec::Block(vec![5; 127]));
    assert!(reader.next().is_none());
    let dest = written(&[TestSpec::Block(vec![5; 126])]);
    assert_eq!(&dest[..2], &[0xa1, 0xfe]);
    let dest = written(&[TestSpec::Block(vec![5; 128])]);
    assert_eq!(&dest[..3], &[0xa1, 0x40, 0x80]);
    let dest = written(&[TestSpec::Block(vec![5; 16383])]);
    assert_eq!(&dest[..4], &[0xa1, 0x20, 0x3f, 0xff]);
    let mut reader: TagIterator<TestSpec> = TagIterator::new(dest, &[]);
    assert_eq!(reader.next().unwrap().unwrap(), TestSpec::Block(vec![5; 16383]));
}

#[test]
fn a_body_of_127_bytes_reads_back_within_its_parents() {
    let tags = vec![
        TestSpec::Segment(Master::Start),
        TestSpec::Cluster(Master::Start),
        TestSpec::Block(vec![0u8; 127]),
        TestSpec::Cluster(Master::End),
        TestSpec::Segment(Master::End),
    ];
    let dest = written(&tags);
    let found: Vec<TestSpec> = read_all(dest, &[]).into_iter().map(|r| r.unwrap()).collect();
    assert_eq!(found, tags);
    let body = written(&[TestSpec::Void(vec![0; 122])]);
    assert_eq!(body.len(), 124);
    let dest = written(&[TestSpec::Segment(Master::Full(vec![
        TestSpec::TrackType(1),
        TestSpec::Void(vec![0; 122]),
    ]))]);
    assert_eq!(&dest[..6], &[0x18, 0x53, 0x80, 0x67, 0x40, 0x7f]);
    let found = read_all(dest, &[TestSpec::Segment(Master::Start)]);
    assert_eq!(found.len(), 1);
    assert!(found[0].is_ok());
}

#[test]
fn nothing_is_given_out_for_ancestors_that_were_not_read() {
    let mut reader: TagIterator<TestSpec> = TagIterator::new(vec![0x97, 0x81, 0x02], &[]);
    assert_eq!(reader.next().unwrap().unwrap(), TestSpec::CueRefCluster(2));
    assert_eq!(reader.last_emitted_tag_offset(), 0);
    assert!(reader.next().is_none());
    assert!(reader.next().is_none());
}

#[test]
fn a_root_may_stand_under_any_open_tags() {
    let open = [(0x18538067u64, ebml_iterable::tag_iterator_util::EBMLSize::Known(100), 0usize)];
    assert!(ebml_iterable::spec_util::validate_tag_path::<TestSpec>(0x1a45dfa3, &open));
    assert!(ebml_iterable::spec_util::validate_tag_path::<TestSpec>(0x1a45dfa3, &[]));
    assert!(!ebml_iterable::spec_util::validate_tag_path::<TestSpec>(0x97, &open));
}

#[test]
fn a_document_is_read_as_it_comes_in_parts() {
    let tags = vec![
        TestSpec::Segment(Master::Start),
        TestSpec::TrackType(7),
        TestSpec::Cluster(Master::Start),
        TestSpec::Block(vec![1, 2, 3]),
        TestSpec::Cluster(Master::End),
        TestSpec::Segment(Master::End),
    ];
    let dest = written(&tags);
    let mut reader: TagIterator<TestSpec> = TagIterator::new(Vec::new(), &[]);
    let mut found = Vec::new();
    assert!(reader.needs_more());
    for byte in dest.iter() {
        assert!(reader.append(&[*byte]));
        while let Some(item) = reader.try_next() {
            found.push(item.unwrap().unwrap());
        }
    }
    assert_eq!(found, tags[..4].to_vec());
    while let Some(item) = reader.next() {
        found.push(item.unwrap());
    }
    assert_eq!(found, tags);
}

#[test]
fn a_whole_master_waits_for_the_end_of_the_bytes() {
    let dest = written(&[TestSpec::Cluster(Master::Full(vec![TestSpec::CueRefCluster(2)]))]);
    let mut reader: TagIterator<TestSpec> = TagIterator::new(dest, &[TestSpec::Cluster(Master::Start)]);
    assert!(reader.needs_more());
    assert!(reader.try_next().is_none());
    assert_eq!(reader.current_offset(), 0);
    assert_eq!(
        reader.next().unwrap().unwrap(),
        TestSpec::Cluster(Master::Full(vec![TestSpec::CueRefCluster(2)]))
    );
    assert!(reader.needs_more());
    assert!(reader.next().is_none());
}

#[test]
fn lenient_reading_gives_back_what_was_written() {
    let tags = vec![
        TestSpec::Ebml(Master::Full(vec![])),
        TestSpec::Segment(Master::Full(vec![
            TestSpec::TrackType(7),
            TestSpec::Cluster(Master::Full(vec![
                TestSpec::Count(300),
                TestSpec::Offset(-70000),
                TestSpec::Gain(0.5),
                TestSpec::Block(vec![1, 2, 3]),
                TestSpec::RawTag(0xf2, vec![9]),
            ])),
            TestSpec::String("a text".to_string()),
        ])),
        TestSpec::Void(vec![0; 4]),
    ];
    let dest = written(&tags);
    let mut reader: TagIterator<TestSpec> = TagIterator::new(dest, &[]);
    reader.allow_errors(&[
        AllowableErrors::InvalidTagIds,
        AllowableErrors::HierarchyProblems,
        AllowableErrors::OversizedTags,
    ]);
    let mut found = Vec::new();
    while let Some(item) = reader.next() {
        found.push(item.unwrap());
    }
    assert_eq!(
        found,
        vec![
            TestSpec::Ebml(Master::Start),
            TestSpec::Ebml(Master::End),
            TestSpec::Segment(Master::Start),
            TestSpec::TrackType(7),
            TestSpec::Cluster(Master::Start),
            TestSpec::Count(300),
            TestSpec::Offset(-70000),
            TestSpec::Gain(0.5),
            TestSpec::Block(vec![1, 2, 3]),
            TestSpec::RawTag(0xf2, vec![9]),
            TestSpec::Cluster(Master::End),
            TestSpec::String("a text".to_string()),
            TestSpec::Segment(Master::End),
            TestSpec::Void(vec![0; 4]),
        ]
    );
    assert_eq!(reader.current_offset(), reader.get_ref().len());
}

#[test]
fn errors_say_what_went_wrong() {
    assert_eq!(ToolError::ReadVintOverflow.message(), "Unrepresentable Vint size encountered.");
    assert_eq!(ToolError::WriteVintOverflow(1 << 56).message(), "Value too large to be written as a vint: 72057594037927936");
    assert_eq!(ToolError::WriteSignedVintOverflow(-5).message(), "Value outside range to be written as a vint: -5");
    assert_eq!(ToolError::WriteSignedVintOverflow(i64::MIN).message(), format!("Value outside range to be written as a vint: {}", i64::MIN));
    assert_eq!(ToolError::ReadU64Overflow(vec![1, 20, 255]).message(), "Could not read unsigned int from array: [1, 20, 255]");
    assert_eq!(ToolError::ReadI64Overflow(vec![]).message(), "Could not read int from array: []");
    assert_eq!(ToolError::ReadF64Mismatch(vec![7]).message(), "Could not read float from array: [7]");
    assert_eq!(
        CorruptedFileError::HierarchyError { found_tag_id: 0x4100, current_parent_id: Some(0x18538067) }.message(),
        "Found child tag [4100] when processing parent [Some(18538067)]"
    );
    assert_eq!(
        CorruptedFileError::HierarchyError { found_tag_id: 0x4100, current_parent_id: None }.message(),
        "Found child tag [4100] when processing parent [None]"
    );
    assert_eq!(
        CorruptedFileError::InvalidTagId { tag_id: 0xf2, position: 8 }.message(),
        "Encountered invalid tag id: f2 at position 8"
    );
    assert_eq!(
        TagIteratorError::UnexpectedEOF { tag_start: 20, tag_id: Some(0xa1), tag_size: Some(9), partial_data: None }.message(),
        "Reached EOF unexpectedly. Partial tag data: {tag offset:20} {id:Some(a1)} {size:Some(9)}"
    );
    assert_eq!(
        TagIteratorError::CorruptedTagData { tag_id: 0x83, problem: ToolError::ReadVintOverflow }.message(),
        "Error reading data for tag id (0x83). Unrepresentable Vint size encountered."
    );
    assert_eq!(TagWriterError::TagIdError(5).message(), "Tag id 5 is not a valid vint");
    assert_eq!(
        TagWriterError::UnexpectedClosingTag { tag_id: 0x1f43b675, expected_id: Some(0x18538067) }.message(),
        "Unexpected closing tag 0x'1f43b675'. Expected 0x'18538067'"
    );
    assert_eq!(
        TagWriterError::UnexpectedClosingTag { tag_id: 0x1f43b675, expected_id: None }.message(),
        "Unexpected closing tag 0x'1f43b675'"
    );
    assert_eq!(TagWriterError::TagSizeError("why".to_string()).message(), "Problem writing data tag size. why");
}

#[test]
fn take_written_empties_the_destination() {
    let mut writer = TagWriter::new(vec![9]);
    writer.write(&TestSpec::TrackType(1)).unwrap();
    assert_eq!(writer.take_written(), vec![9, 0x83, 0x81, 1]);
    writer.write(&TestSpec::TrackType(2)).unwrap();
    assert_eq!(writer.take_written(), vec![0x83, 0x81, 2]);
    assert!(writer.into_inner().is_empty());
}

#[test]
fn whole_masters_read_back_between_their_siblings() {
    let cluster = TestSpec::Cluster(Master::Full(vec![
        TestSpec::Count(300),
        TestSpec::Block(vec![1, 2, 3]),
    ]));
    let empty = TestSpec::Cluster(Master::Full(vec![]));
    let children = vec![TestSpec::TrackType(7), cluster.clone(), TestSpec::TrackType(9), empty.clone()];
    let tags = vec![
        TestSpec::Ebml(Master::Full(vec![])),
        TestSpec::Segment(Master::Full(children.clone())),
    ];
    let dest = written(&tags);
    let mut reader: TagIterator<TestSpec> = TagIterator::new(dest, &[TestSpec::Cluster(Master::Start)]);
    let mut found = Vec::new();
    let mut places = Vec::new();
    while let Some(item) = reader.next() {
        found.push(item.unwrap());
        places.push(reader.last_emitted_tag_offset());
    }
    assert_eq!(
        found,
        vec![
            TestSpec::Ebml(Master::Start),
            TestSpec::Ebml(Master::End),
            TestSpec::Segment(Master::Start),
            TestSpec::TrackType(7),
            cluster,
            TestSpec::TrackType(9),
            empty,
            TestSpec::Segment(Master::End),
        ]
    );
    let segment = written(&tags[0..1]).len();
    let mut expected = vec![0, 0, segment];
    let mut place = segment + 5;
    for child in children.iter() {
        expected.push(place);
        place += written(std::slice::from_ref(child)).len();
    }
    expected.push(segment);
    assert_eq!(places, expected);
    assert_eq!(place, reader.get_ref().len());
    assert_eq!(reader.current_offset(), reader.get_ref().len());
    assert!(reader.next().is_none());
}
