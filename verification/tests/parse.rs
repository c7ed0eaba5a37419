use fastproto::descriptor::{FieldKind, Label, MapValue, ScalarType};
use fastproto::parse::{parse_message, ParseError, LABEL_REPEATED};
use fastproto::wire::{self, WireError, WireType};

fn field_bytes(
    name: &str,
    number: u32,
    type_code: i64,
    label: Option<i64>,
    proto3_optional: bool,
) -> Vec<u8> {
    let mut buf = Vec::new();
    wire::write_tag(&mut buf, 1, WireType::Len);
    wire::write_len_delimited(&mut buf, name.as_bytes());
    wire::write_tag(&mut buf, 3, WireType::Varint);
    wire::write_varint(&mut buf, number as u64);
    if let Some(l) = label {
        wire::write_tag(&mut buf, 4, WireType::Varint);
        wire::write_varint(&mut buf, l as u64);
    }
    wire::write_tag(&mut buf, 5, WireType::Varint);
    wire::write_varint(&mut buf, type_code as u64);
    if proto3_optional {
        wire::write_tag(&mut buf, 17, WireType::Varint);
        wire::write_varint(&mut buf, 1);
    }
    buf
}

fn message_bytes(name: &str, fields: &[Vec<u8>]) -> Vec<u8> {
    let mut buf = Vec::new();
    wire::write_tag(&mut buf, 1, WireType::Len);
    wire::write_len_delimited(&mut buf, name.as_bytes());
    for f in fields {
        wire::write_tag(&mut buf, 2, WireType::Len);
        wire::write_len_delimited(&mut buf, f);
    }
    buf
}

/// A message field that names its type (tag 6).
fn message_field_bytes(name: &str, number: u32, reference: &str, label: i64) -> Vec<u8> {
    let mut buf = field_bytes(name, number, 11, Some(label), false); // type 11 = message
    wire::write_tag(&mut buf, 6, WireType::Len);
    wire::write_len_delimited(&mut buf, reference.as_bytes());
    buf
}

/// A synthetic `map<string, string>` entry `DescriptorProto` (options.map_entry).
fn map_entry_type_bytes(name: &str) -> Vec<u8> {
    let mut buf = Vec::new();
    wire::write_tag(&mut buf, 1, WireType::Len);
    wire::write_len_delimited(&mut buf, name.as_bytes());
    for f in [field_bytes("key", 1, 9, None, false), field_bytes("value", 2, 9, None, false)] {
        wire::write_tag(&mut buf, 2, WireType::Len);
        wire::write_len_delimited(&mut buf, &f);
    }
    let mut opts = Vec::new();
    wire::write_tag(&mut opts, 7, WireType::Varint); // MessageOptions.map_entry
    wire::write_varint(&mut opts, 1);
    wire::write_tag(&mut buf, 7, WireType::Len);
    wire::write_len_delimited(&mut buf, &opts);
    buf
}

#[test]
fn parses_scalar_message() {
    let bytes = message_bytes(
        "Metrics",
        &[
            field_bytes("count", 3, 5, None, false),
            field_bytes("label", 14, 9, None, false),
        ],
    );
    let desc = parse_message(&bytes).unwrap();
    assert_eq!(desc.name, "Metrics");
    assert_eq!(desc.fields[0].kind, FieldKind::Scalar(ScalarType::Int32));
    assert_eq!(desc.fields[0].label, Label::Single);
    assert_eq!(desc.fields[1].kind, FieldKind::Scalar(ScalarType::String));
}

#[test]
fn proto3_optional_becomes_optional_label() {
    let bytes = message_bytes("P", &[field_bytes("nickname", 2, 9, Some(1), true)]);
    let desc = parse_message(&bytes).unwrap();
    assert_eq!(desc.fields[0].label, Label::Optional);
    assert!(desc.fields[0].oneof_index.is_none());
}

#[test]
fn repeated_scalar() {
    let bytes = message_bytes("R", &[field_bytes("tags", 1, 9, Some(LABEL_REPEATED), false)]);
    let desc = parse_message(&bytes).unwrap();
    assert_eq!(desc.fields[0].label, Label::Repeated);
    assert_eq!(desc.fields[0].kind, FieldKind::Scalar(ScalarType::String));
}

#[test]
fn enum_field() {
    // type 14 = enum, named ".demo.Role"
    let mut fb = field_bytes("role", 1, 14, None, false);
    wire::write_tag(&mut fb, 6, WireType::Len);
    wire::write_len_delimited(&mut fb, b".demo.Role");
    let bytes = message_bytes("M", &[fb]);
    let desc = parse_message(&bytes).unwrap();
    assert_eq!(desc.fields[0].kind, FieldKind::Enum);
    assert_eq!(desc.fields[0].qualified_name.as_deref(), Some("demo.Role"));
    assert_eq!(desc.fields[0].label, Label::Single);
}

#[test]
fn message_field_is_optional() {
    let mut fb = field_bytes("addr", 6, 11, None, false);
    wire::write_tag(&mut fb, 6, WireType::Len);
    wire::write_len_delimited(&mut fb, b".demo.Address");
    let bytes = message_bytes("M", &[fb]);
    let desc = parse_message(&bytes).unwrap();
    assert_eq!(desc.fields[0].kind, FieldKind::Message);
    assert_eq!(desc.fields[0].qualified_name.as_deref(), Some("demo.Address"));
    assert_eq!(desc.fields[0].label, Label::Optional);
}

#[test]
fn out_of_range_oneof_index_is_dropped() {
    // A field claiming oneof_index 3 when the message declares no oneof groups
    // must not keep the index (else encode / oneofs() would panic indexing).
    let mut fb = field_bytes("x", 1, 9, Some(1), false);
    wire::write_tag(&mut fb, 9, WireType::Varint);
    wire::write_varint(&mut fb, 3);
    let desc = parse_message(&message_bytes("M", &[fb])).unwrap();
    assert!(desc.oneofs.is_empty());
    assert!(desc.fields[0].oneof_index.is_none());
}

#[test]
fn sibling_sharing_map_entry_short_name_is_message() {
    // `data` is a real map (nested M.DataEntry); `others` references a real
    // sibling `.pkg.DataEntry` that merely shares the entry's short name and
    // must stay a message field, not be swallowed as a map.
    let data = message_field_bytes("data", 1, ".pkg.M.DataEntry", LABEL_REPEATED);
    let others = message_field_bytes("others", 2, ".pkg.DataEntry", LABEL_REPEATED);
    let mut buf = Vec::new();
    wire::write_tag(&mut buf, 1, WireType::Len);
    wire::write_len_delimited(&mut buf, b"M");
    for f in [&data, &others] {
        wire::write_tag(&mut buf, 2, WireType::Len);
        wire::write_len_delimited(&mut buf, f);
    }
    wire::write_tag(&mut buf, 3, WireType::Len);
    wire::write_len_delimited(&mut buf, &map_entry_type_bytes("DataEntry"));

    let desc = parse_message(&buf).unwrap();
    assert!(matches!(desc.fields[0].kind, FieldKind::MapOf { .. }));
    assert_eq!(desc.fields[1].kind, FieldKind::Message);
    assert_eq!(desc.fields[1].qualified_name.as_deref(), Some("pkg.DataEntry"));
}


#[test]
fn parse_message_never_panics() {
    // Arbitrary bytes are either a valid `DescriptorProto` (Ok) or a clean
    // error (Err).
    let mut state: u64 = 1;
    for len in 0..512usize {
        let data: Vec<u8> = (0..len)
            .map(|_| {
                state = state.wrapping_mul(6364136223846793005).wrapping_add(1);
                (state >> 56) as u8
            })
            .collect();
        let _ = parse_message(&data);
    }
}

fn with_oneof(mut field: Vec<u8>, group: u64) -> Vec<u8> {
    wire::write_tag(&mut field, 9, WireType::Varint);
    wire::write_varint(&mut field, group);
    field
}

fn oneof_decl(buf: &mut Vec<u8>, name: &str) {
    let mut decl = Vec::new();
    wire::write_tag(&mut decl, 1, WireType::Len);
    wire::write_len_delimited(&mut decl, name.as_bytes());
    wire::write_tag(buf, 8, WireType::Len);
    wire::write_len_delimited(buf, &decl);
}

#[test]
fn synthetic_oneof_groups_are_left_out() {
    // Group 0 was made for the proto3 `optional`; group 1 was written.
    let mut bytes = message_bytes(
        "M",
        &[
            with_oneof(field_bytes("nick", 1, 9, Some(1), true), 0),
            with_oneof(field_bytes("a", 2, 5, Some(1), false), 1),
            with_oneof(field_bytes("b", 3, 9, Some(1), false), 1),
        ],
    );
    oneof_decl(&mut bytes, "_nick");
    oneof_decl(&mut bytes, "choice");
    let desc = parse_message(&bytes).unwrap();
    assert_eq!(desc.oneofs, vec!["choice".to_string()]);
    assert_eq!(desc.fields[0].oneof_index, None);
    assert_eq!(desc.fields[0].label, Label::Optional);
    assert_eq!(desc.fields[1].oneof_index, Some(0));
    assert_eq!(desc.fields[2].oneof_index, Some(0));
    assert_eq!(desc.fields[2].label, Label::Optional);
}

#[test]
fn well_known_types_surface_natively() {
    let bytes = message_bytes(
        "M",
        &[
            message_field_bytes("at", 1, ".google.protobuf.Timestamp", 1),
            message_field_bytes("span", 2, ".google.protobuf.Duration", 1),
            message_field_bytes("other", 3, ".google.protobuf.Any", 1),
        ],
    );
    let desc = parse_message(&bytes).unwrap();
    assert_eq!(desc.fields[0].kind, FieldKind::Timestamp);
    assert_eq!(desc.fields[0].qualified_name, None);
    assert_eq!(desc.fields[0].label, Label::Optional);
    assert_eq!(desc.fields[1].kind, FieldKind::Duration);
    assert_eq!(desc.fields[2].kind, FieldKind::Message);
    assert_eq!(desc.fields[2].qualified_name.as_deref(), Some("google.protobuf.Any"));
}

#[test]
fn map_field_has_key_and_value_types() {
    let mut buf = message_bytes("M", &[message_field_bytes("data", 4, ".M.DataEntry", 3)]);
    wire::write_tag(&mut buf, 3, WireType::Len);
    wire::write_len_delimited(&mut buf, &map_entry_type_bytes("DataEntry"));
    let desc = parse_message(&buf).unwrap();
    assert_eq!(
        desc.fields[0].kind,
        FieldKind::MapOf {
            key: ScalarType::String,
            value: MapValue::Scalar(ScalarType::String)
        }
    );
    assert_eq!(desc.fields[0].label, Label::Single);
}

#[test]
fn every_scalar_type_code() {
    for (code, scalar) in [
        (1, ScalarType::Double),
        (2, ScalarType::Float),
        (3, ScalarType::Int64),
        (4, ScalarType::UInt64),
        (5, ScalarType::Int32),
        (6, ScalarType::Fixed64),
        (7, ScalarType::Fixed32),
        (8, ScalarType::Bool),
        (9, ScalarType::String),
        (12, ScalarType::Bytes),
        (13, ScalarType::UInt32),
        (15, ScalarType::SFixed32),
        (16, ScalarType::SFixed64),
        (17, ScalarType::SInt32),
        (18, ScalarType::SInt64),
    ] {
        let bytes = message_bytes("M", &[field_bytes("x", 1, code, None, false)]);
        let desc = parse_message(&bytes).unwrap();
        assert_eq!(desc.fields[0].kind, FieldKind::Scalar(scalar));
    }
}

#[test]
fn parse_errors() {
    // A group.
    let bytes = message_bytes("M", &[field_bytes("x", 1, 10, None, false)]);
    assert_eq!(parse_message(&bytes), Err(ParseError::UnsupportedType(10)));
    // No type at all.
    let mut untyped = Vec::new();
    wire::write_tag(&mut untyped, 3, WireType::Varint);
    wire::write_varint(&mut untyped, 1);
    let bytes = message_bytes("M", &[untyped]);
    assert_eq!(parse_message(&bytes), Err(ParseError::MissingType));
    // A name that is not UTF-8.
    let mut bytes = Vec::new();
    wire::write_tag(&mut bytes, 1, WireType::Len);
    wire::write_len_delimited(&mut bytes, &[0xff, 0xfe]);
    assert_eq!(parse_message(&bytes), Err(ParseError::InvalidUtf8));
    // A chunk that is cut off.
    assert_eq!(
        parse_message(&[0x0a, 0x05, b'M']),
        Err(ParseError::Wire(WireError::InvalidLength))
    );
}

#[test]
fn order_of_records_does_not_matter() {
    let field = |name: &str, number: u32| {
        let mut buf = Vec::new();
        wire::write_tag(&mut buf, 2, WireType::Len);
        wire::write_len_delimited(&mut buf, &with_oneof(field_bytes(name, number, 5, None, false), 0));
        buf
    };
    let map_field = {
        let mut buf = Vec::new();
        wire::write_tag(&mut buf, 2, WireType::Len);
        wire::write_len_delimited(&mut buf, &message_field_bytes("data", 3, ".M.DataEntry", 3));
        buf
    };
    let name = |text: &str| {
        let mut buf = Vec::new();
        wire::write_tag(&mut buf, 1, WireType::Len);
        wire::write_len_delimited(&mut buf, text.as_bytes());
        buf
    };
    let nested = {
        let mut buf = Vec::new();
        wire::write_tag(&mut buf, 3, WireType::Len);
        wire::write_len_delimited(&mut buf, &map_entry_type_bytes("DataEntry"));
        buf
    };
    let group = {
        let mut buf = Vec::new();
        oneof_decl(&mut buf, "choice");
        buf
    };
    // A record of another number, and one of a known number that is no chunk.
    let others = [0x5a, 0x01, 0x00, 0x10, 0x07].to_vec();
    let plain = [
        name("Old"),
        name("M"),
        field("a", 1),
        field("b", 2),
        map_field.clone(),
        nested.clone(),
        group.clone(),
    ]
    .concat();
    let mixed = [
        group,
        field("a", 1),
        name("Old"),
        others.clone(),
        field("b", 2),
        map_field,
        others,
        name("M"),
        nested,
    ]
    .concat();
    let desc = parse_message(&plain).unwrap();
    assert_eq!(parse_message(&mixed), Ok(desc.clone()));
    assert_eq!(desc.name, "M");
    let fields: Vec<(&str, u32)> =
        desc.fields.iter().map(|f| (f.name.as_str(), f.number)).collect();
    assert_eq!(fields, vec![("a", 1), ("b", 2), ("data", 3)]);
    assert_eq!(parse_message(&[]).unwrap().name, "");
}
