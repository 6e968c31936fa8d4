use ebml_iterable::empty_spec::EmptySpec;
use ebml_iterable::specs::{EbmlSpecification, EbmlTag, Master, TagDataType};
use ebml_iterable::spec_util::{is_ended_by, is_parent, is_sibling, validate_tag_path};
use ebml_iterable::tag_iterator_util::EBMLSize;
use ebml_iterable::TagWriter;

#[test]
fn get_children_gives_the_children_of_a_full_tag() {
    let children = vec![EmptySpec::with_data(0x1253, &[1]), EmptySpec::with_data(0x1234, &[2])];
    let tag = Master::Full(children.clone());
    let retrieved_children = tag.get_children();
    assert_eq!(retrieved_children, children);
}

#[test]
fn empty_spec_tags_hold_children_or_bytes() {
    let data = EmptySpec::with_data(0x18538067, &[0x01]);
    assert_eq!(data.get_id(), 0x18538067);
    assert_eq!(data.as_binary(), Some(&[0x01u8][..]));
    assert!(data.as_master().is_none());
    assert!(data.as_unsigned_int().is_none());
    assert!(data.as_signed_int().is_none());
    assert!(data.as_utf8().is_none());
    assert!(data.as_float().is_none());
    let parent = EmptySpec::with_children(0x1a45dfa3, vec![data.clone()]);
    assert_eq!(parent.get_id(), 0x1a45dfa3);
    assert!(parent.as_binary().is_none());
    assert!(matches!(parent.as_master(), Some(Master::Full(children)) if children == &vec![data.clone()]));
    assert_eq!(parent.clone(), parent);
    assert_eq!(EmptySpec::get_tag_id(&parent), 0x1a45dfa3);
}

#[test]
fn empty_spec_knows_every_id_as_binary_root() {
    assert_eq!(EmptySpec::get_tag_data_type(5), Some(TagDataType::Binary));
    assert!(EmptySpec::get_path_by_id(5).is_empty());
    assert!(EmptySpec::get_unsigned_int_tag(5, 1).is_none());
    assert!(EmptySpec::get_signed_int_tag(5, 1).is_none());
    assert!(EmptySpec::get_utf8_tag(5, String::new()).is_none());
    assert!(EmptySpec::get_binary_tag(5, &[1]).is_some());
    assert!(EmptySpec::get_master_tag(5, Master::Start).is_some());
    assert_eq!(EmptySpec::get_raw_tag(5, &[1]), EmptySpec::with_data(5, &[1]));
    assert!(is_sibling::<EmptySpec>(1, 2));
    assert!(!is_parent::<EmptySpec>(1, 2));
    assert!(is_ended_by::<EmptySpec>(1, 2));
    assert!(validate_tag_path::<EmptySpec>(1, &[]));
    assert!(validate_tag_path::<EmptySpec>(1, &[(2, EBMLSize::Known(4), 0)]));
    assert!(validate_tag_path::<EmptySpec>(1, &[(2, EBMLSize::Unknown, 0)]));
}

#[test]
fn empty_spec_tags_are_written_as_bytes() {
    let mut writer = TagWriter::new(Vec::new());
    writer.write(&EmptySpec::with_data(0x18538067, &[0x01])).unwrap();
    assert_eq!(writer.into_inner(), vec![0x18, 0x53, 0x80, 0x67, 0x81, 0x01]);
}

#[test]
fn sizes_are_known_or_unknown() {
    assert_eq!(EBMLSize::new(0, 1), EBMLSize::Known(0));
    assert_eq!(EBMLSize::new(126, 1), EBMLSize::Known(126));
    assert_eq!(EBMLSize::new(127, 1), EBMLSize::Unknown);
    assert_eq!(EBMLSize::new(127, 2), EBMLSize::Known(127));
    assert_eq!(EBMLSize::new((1 << 14) - 1, 2), EBMLSize::Unknown);
    assert_eq!(EBMLSize::new((1 << 56) - 1, 8), EBMLSize::Unknown);
    assert_eq!(EBMLSize::new((1 << 56) - 1, 9), EBMLSize::Known((1 << 56) - 1));
    assert!(EBMLSize::Known(3).is_known());
    assert!(!EBMLSize::Unknown.is_known());
    assert_eq!(EBMLSize::Known(3).value(), 3);
}
