use ebml_iterable::schema::{PathSegment, Schema, SchemaError, VariantDecl};
use ebml_iterable::schema_text::{
    parse_data_type, parse_doc_path, parse_easy_variant, parse_id, parse_int_literal, parse_variant,
    tokenize, DeclError, Token,
};
use ebml_iterable::specs::{PathPart, TagDataType};

fn attrs(list: &[(&str, &str)]) -> Vec<(Vec<u8>, Vec<u8>)> {
    list.iter().map(|(k, v)| (k.as_bytes().to_vec(), v.as_bytes().to_vec())).collect()
}

fn trial(paths: bool) -> Vec<VariantDecl> {
    let rows: Vec<(&str, &str, &str, Option<&str>)> = vec![
        ("Root", "0x01", "TagDataType::Master", None),
        ("Parent", "0x02", "TagDataType::Master", Some("Root")),
        ("Count", "0x100", "TagDataType::UnsignedInt", Some("Root/Parent")),
        ("Data", "0x200", "TagDataType::Binary", Some("Root/Parent")),
        ("Name", "0x201", "TagDataType::Utf8", Some("Root/Parent")),
        ("Amount", "0x102", "TagDataType::Float", Some("Root/Parent")),
        ("Id", "0x101", "TagDataType::Integer", Some("Root/Parent")),
    ];
    rows.into_iter()
        .map(|(name, id, data_type, path)| {
            let mut list = vec![("id", id), ("data_type", data_type)];
            if paths {
                if let Some(path) = path {
                    list.push(("doc_path", path));
                }
            }
            parse_variant(name.as_bytes(), &attrs(&list)).unwrap()
        })
        .collect()
}

#[test]
fn derive_spec_compile_compile_worked() {
    let schema = Schema::compile(trial(false)).unwrap();
    let data_type = schema.get_tag_data_type(0x01);
    assert_eq!(Some(TagDataType::Master), data_type);

    assert!(schema.makes(0x01, TagDataType::Master));
    assert_eq!(schema.entries()[0].name, b"Root".to_vec());
}

#[test]
fn derive_spec_compile_with_hierarchy_compile_worked() {
    let schema = Schema::compile(trial(true)).unwrap();
    let data_type = schema.get_tag_data_type(0x01);
    assert_eq!(Some(TagDataType::Master), data_type);

    assert!(schema.makes(0x01, TagDataType::Master));
    assert_eq!(schema.entries()[0].name, b"Root".to_vec());
    assert_eq!(schema.get_path_by_id(0x100), &[PathPart::Id(0x01), PathPart::Id(0x02)]);
    assert_eq!(schema.get_path_by_id(0x02), &[PathPart::Id(0x01)]);
    assert!(schema.get_path_by_id(0x01).is_empty());
}

fn easy(lines: &[&str]) -> Vec<VariantDecl> {
    lines.iter().map(|line| parse_easy_variant(line.as_bytes()).unwrap()).collect()
}

const TEST_SPEC: [&str; 13] = [
    "Root             : Master = 0x81",
    "Root/Int         : UnsignedInt = 0x4101",
    "Root/String      : Utf8 = 0x4102",
    "Root/Parent      : Master = 0x4103",
    "Root/Parent/Child: UnsignedInt = 0x210301",
    "Ebml                             : Master = 0x1a45dfa3",
    "Segment                          : Master = 0x18538067",
    "Segment/TrackType                : UnsignedInt = 0x83",
    "Segment/Cluster                  : Master = 0x1F43B675",
    "Segment/Cluster/CueRefCluster    : UnsignedInt = 0x97",
    "Segment/Cluster/Count            : UnsignedInt = 0x4100",
    "Segment/Cluster/Block            : Binary = 0xa1",
    "Segment/Cluster/SimpleBlock      : Binary = 0xa3",
];

#[test]
fn short_notation_compiles_to_the_tables() {
    let schema = Schema::compile(easy(&TEST_SPEC)).unwrap();
    assert_eq!(schema.entries().len(), 15);
    assert_eq!(schema.get_tag_data_type(129), Some(TagDataType::Master));
    assert_eq!(schema.get_tag_data_type(16641), Some(TagDataType::UnsignedInt));
    assert_eq!(schema.get_tag_data_type(16642), Some(TagDataType::Utf8));
    assert_eq!(schema.get_tag_data_type(161), Some(TagDataType::Binary));
    assert_eq!(schema.get_tag_data_type(191), Some(TagDataType::Binary));
    assert_eq!(schema.get_tag_data_type(236), Some(TagDataType::Binary));
    assert_eq!(schema.get_tag_data_type(0xf2), None);
    assert_eq!(schema.get_path_by_id(2163457), &[PathPart::Id(129), PathPart::Id(16643)]);
    assert_eq!(schema.get_path_by_id(151), &[PathPart::Id(408125543), PathPart::Id(524531317)]);
    assert_eq!(schema.get_path_by_id(131), &[PathPart::Id(408125543)]);
    assert_eq!(schema.get_path_by_id(191), &[PathPart::Global((None, None))]);
    assert_eq!(schema.get_path_by_id(236), &[PathPart::Global((None, None))]);
    assert!(schema.get_path_by_id(440786851).is_empty());
    assert!(schema.get_path_by_id(0xf2).is_empty());
    assert!(schema.makes(16642, TagDataType::Utf8));
    assert!(!schema.makes(16642, TagDataType::Binary));
    assert!(!schema.makes(0xf2, TagDataType::Binary));
    assert_eq!(schema.find_id(236), Some(14));
    assert_eq!(schema.entries()[13].name, b"Crc32".to_vec());
    assert_eq!(schema.entries()[14].name, b"Void".to_vec());
}

fn decl(name: &str, id: u64, data_type: TagDataType, path: &[&str]) -> VariantDecl {
    VariantDecl {
        name: name.as_bytes().to_vec(),
        id,
        data_type,
        path: path.iter().map(|n| PathSegment::Name(n.as_bytes().to_vec())).collect(),
    }
}

#[test]
fn duplicate_ids_are_refused() {
    let decls = vec![
        decl("A", 1, TagDataType::Master, &[]),
        decl("B", 2, TagDataType::Binary, &["A"]),
        decl("C", 1, TagDataType::Binary, &["A"]),
    ];
    assert_eq!(Schema::compile(decls).err(), Some(SchemaError::DuplicateId { first: 0, second: 2 }));
    let decls = vec![decl("A", 0xec, TagDataType::Master, &[])];
    assert_eq!(Schema::compile(decls).err(), Some(SchemaError::DuplicateId { first: 0, second: 2 }));
}

#[test]
fn unknown_ancestors_are_refused() {
    let decls = vec![decl("A", 1, TagDataType::Master, &[]), decl("B", 2, TagDataType::Binary, &["A", "X"])];
    assert_eq!(
        Schema::compile(decls).err(),
        Some(SchemaError::UnknownAncestor { variant: 1, segment: 1 })
    );
}

#[test]
fn a_tag_in_its_own_path_is_refused() {
    let decls = vec![decl("A", 1, TagDataType::Master, &["A"])];
    assert_eq!(Schema::compile(decls).err(), Some(SchemaError::SelfInPath { variant: 0, segment: 0 }));
}

#[test]
fn ancestors_that_are_no_masters_are_refused() {
    let decls = vec![decl("A", 1, TagDataType::Binary, &[]), decl("B", 2, TagDataType::Binary, &["A"])];
    assert_eq!(
        Schema::compile(decls).err(),
        Some(SchemaError::AncestorNotMaster { variant: 1, segment: 0 })
    );
}

#[test]
fn cyclic_ancestry_is_refused() {
    let decls = vec![decl("A", 1, TagDataType::Master, &["B"]), decl("B", 2, TagDataType::Master, &["A"])];
    assert_eq!(Schema::compile(decls).err(), Some(SchemaError::CyclicAncestry { variant: 0 }));
}

#[test]
fn paths_that_do_not_extend_the_parent_are_refused() {
    let decls = vec![
        decl("A", 1, TagDataType::Master, &[]),
        decl("X", 9, TagDataType::Master, &[]),
        decl("B", 2, TagDataType::Master, &["A"]),
        decl("C", 3, TagDataType::Binary, &["X", "B"]),
    ];
    assert_eq!(
        Schema::compile(decls).err(),
        Some(SchemaError::PathMisaligned { variant: 3, segment: 0 })
    );
    let decls = vec![
        decl("A", 1, TagDataType::Master, &[]),
        decl("B", 2, TagDataType::Master, &["A"]),
        decl("C", 3, TagDataType::Binary, &["B"]),
    ];
    assert_eq!(
        Schema::compile(decls).err(),
        Some(SchemaError::PathMisaligned { variant: 2, segment: 0 })
    );
}

#[test]
fn numbers_are_read_as_rust_writes_them() {
    assert_eq!(parse_int_literal(b"0"), Some(0));
    assert_eq!(parse_int_literal(b"1234"), Some(1234));
    assert_eq!(parse_int_literal(b"0x1a45dfa3"), Some(0x1a45dfa3));
    assert_eq!(parse_int_literal(b"0x1A45_DFA3"), Some(0x1a45dfa3));
    assert_eq!(parse_int_literal(b"0o17"), Some(15));
    assert_eq!(parse_int_literal(b"0b1010"), Some(10));
    assert_eq!(parse_int_literal(b"1_000u64"), Some(1000));
    assert_eq!(parse_int_literal(b"18446744073709551615"), Some(u64::MAX));
    assert_eq!(parse_int_literal(b"18446744073709551616"), None);
    assert_eq!(parse_int_literal(b"0xffffffffffffffff"), Some(u64::MAX));
    assert_eq!(parse_int_literal(b"0x10000000000000000"), None);
    assert_eq!(parse_int_literal(b"0x"), None);
    assert_eq!(parse_int_literal(b"_"), None);
    assert_eq!(parse_int_literal(b""), None);
    assert_eq!(parse_id(b" 0x83 "), Some(0x83));
    assert_eq!(parse_id(b"0x83 1"), None);
    assert_eq!(parse_id(b"Root"), None);
}

#[test]
fn text_is_split_into_tokens() {
    assert_eq!(
        tokenize(b"Segment / (1-) / Cluster : Binary = 0xa1"),
        Some(vec![
            Token::Name(b"Segment".to_vec()),
            Token::Slash,
            Token::Open,
            Token::Number(1),
            Token::Dash,
            Token::Close,
            Token::Slash,
            Token::Name(b"Cluster".to_vec()),
            Token::Colon,
            Token::Name(b"Binary".to_vec()),
            Token::Equals,
            Token::Number(0xa1),
        ])
    );
    assert_eq!(tokenize(b"  \t\n"), Some(vec![]));
    assert_eq!(tokenize(b"a.b"), None);
    assert_eq!(tokenize(b"99999999999999999999"), None);
}

#[test]
fn paths_are_read() {
    let name = |n: &str| PathSegment::Name(n.as_bytes().to_vec());
    assert_eq!(parse_doc_path(b"Root"), Some(vec![name("Root")]));
    assert_eq!(parse_doc_path(b"Root/Parent"), Some(vec![name("Root"), name("Parent")]));
    assert_eq!(
        parse_doc_path(b"Segment/(1-)/Cluster"),
        Some(vec![name("Segment"), PathSegment::Global((Some(1), None)), name("Cluster")])
    );
    assert_eq!(parse_doc_path(b"(-)"), Some(vec![PathSegment::Global((None, None))]));
    assert_eq!(parse_doc_path(b"( 2 - 0x10 )"), Some(vec![PathSegment::Global((Some(2), Some(16)))]));
    assert_eq!(parse_doc_path(b"(-3)"), Some(vec![PathSegment::Global((None, Some(3)))]));
    assert_eq!(parse_doc_path(b""), None);
    assert_eq!(parse_doc_path(b"Root/"), None);
    assert_eq!(parse_doc_path(b"/Root"), None);
    assert_eq!(parse_doc_path(b"Root Parent"), None);
    assert_eq!(parse_doc_path(b"(1)"), None);
    assert_eq!(parse_doc_path(b"(1-"), None);
}

#[test]
fn data_types_are_read_by_their_last_name() {
    assert_eq!(parse_data_type(b"Master"), Some(TagDataType::Master));
    assert_eq!(parse_data_type(b"TagDataType::UnsignedInt"), Some(TagDataType::UnsignedInt));
    assert_eq!(parse_data_type(b"ebml_iterable :: specs :: TagDataType :: Integer"), Some(TagDataType::Integer));
    assert_eq!(parse_data_type(b"Utf8"), Some(TagDataType::Utf8));
    assert_eq!(parse_data_type(b"Binary"), Some(TagDataType::Binary));
    assert_eq!(parse_data_type(b"Float"), Some(TagDataType::Float));
    assert_eq!(parse_data_type(b"Date"), None);
    assert_eq!(parse_data_type(b"TagDataType::"), None);
    assert_eq!(parse_data_type(b"TagDataType:Master"), None);
    assert_eq!(parse_data_type(b""), None);
}

#[test]
fn declarations_are_read_from_attributes() {
    let found = parse_variant(
        b"Count",
        &attrs(&[("id", "0x100"), ("doc", "a count"), ("data_type", "TagDataType::UnsignedInt"), ("doc_path", "Root/Parent")]),
    )
    .unwrap();
    assert_eq!(found, decl("Count", 0x100, TagDataType::UnsignedInt, &["Root", "Parent"]));
    let found = parse_variant(b"Parent", &attrs(&[("parent", "Root"), ("data_type", "Master"), ("id", "2")])).unwrap();
    assert_eq!(found, decl("Parent", 2, TagDataType::Master, &["Root"]));
    let fault = |list: &[(&str, &str)]| parse_variant(b"X", &attrs(list)).unwrap_err();
    assert_eq!(fault(&[("id", "1"), ("id", "2"), ("data_type", "Master")]), DeclError::DuplicateId);
    assert_eq!(fault(&[("data_type", "Master"), ("data_type", "Master")]), DeclError::DuplicateDataType);
    assert_eq!(fault(&[("doc_path", "A"), ("parent", "A")]), DeclError::DuplicatePath);
    assert_eq!(fault(&[("data_type", "Master")]), DeclError::MissingId);
    assert_eq!(fault(&[("id", "1")]), DeclError::MissingDataType);
    assert_eq!(fault(&[("id", "one"), ("data_type", "Master")]), DeclError::InvalidId);
    assert_eq!(fault(&[("id", "1"), ("data_type", "Date")]), DeclError::UnrecognizedDataType);
    assert_eq!(fault(&[("id", "1"), ("data_type", "Master"), ("doc_path", "A//B")]), DeclError::InvalidPath);
    assert_eq!(fault(&[("id", "1"), ("data_type", "Master"), ("parent", "A/B")]), DeclError::InvalidPath);
    assert_eq!(fault(&[("id", "1"), ("data_type", "Master"), ("parent", "(-)")]), DeclError::InvalidPath);
}

#[test]
fn short_notation_faults() {
    let fault = |line: &str| parse_easy_variant(line.as_bytes()).unwrap_err();
    assert_eq!(fault("Root Master = 1"), DeclError::Malformed);
    assert_eq!(fault("Root : Master 1"), DeclError::Malformed);
    assert_eq!(fault("Root : Master = 1 2"), DeclError::Malformed);
    assert_eq!(fault("Root : Master = one"), DeclError::InvalidId);
    assert_eq!(fault("Root : Date = 1"), DeclError::UnrecognizedDataType);
    assert_eq!(fault(": Master = 1"), DeclError::InvalidPath);
    assert_eq!(fault("Root/ : Master = 1"), DeclError::InvalidPath);
    assert_eq!(fault("(1-) : Binary = 0xbf"), DeclError::NamelessTag);
    assert_eq!(fault("Root ? Master"), DeclError::Malformed);
    let found = parse_easy_variant(b"(1-)/Crc : Binary = 0xbe").unwrap();
    assert_eq!(found.name, b"Crc".to_vec());
    assert_eq!(found.path, vec![PathSegment::Global((Some(1), None))]);
}
