use fastproto::arrival::{Arrived, Decoded, Event};
use fastproto::decode::{
    construction, decode_message, decode_repeated, decode_scalar, DecodeError, Slot,
};
use fastproto::descriptor::{FieldKind, Label, MapValue, ScalarType, MAX_DEPTH};
use fastproto::encode::{
    encode_map, encode_message, encode_repeated, encode_scalar, encode_scalar_field,
    nested_descriptor, oneof_conflict, EncodeError,
};
use fastproto::message::{
    build_linked_ref, coerce_enum, compile, Descriptor, EnumChoice, LinkError, ENUM_TABLE_SIZE,
};
use fastproto::value::{FieldValue, Message, ScalarValue, Value};
use fastproto::wire::{self, Reader, WireError, WireType};

const OPTIONAL: u64 = 1;
const REPEATED: u64 = 3;

fn text_field(buf: &mut Vec<u8>, number: u32, text: &str) {
    wire::write_tag(buf, number, WireType::Len);
    wire::write_len_delimited(buf, text.as_bytes());
}

fn number_field(buf: &mut Vec<u8>, number: u32, value: u64) {
    wire::write_tag(buf, number, WireType::Varint);
    wire::write_varint(buf, value);
}

fn chunk_field(buf: &mut Vec<u8>, number: u32, chunk: &[u8]) {
    wire::write_tag(buf, number, WireType::Len);
    wire::write_len_delimited(buf, chunk);
}

/// A `FieldDescriptorProto`.
fn field(name: &str, number: u64, code: u64, label: u64) -> Vec<u8> {
    let mut buf = Vec::new();
    text_field(&mut buf, 1, name);
    number_field(&mut buf, 3, number);
    number_field(&mut buf, 4, label);
    number_field(&mut buf, 5, code);
    buf
}

fn named(mut field: Vec<u8>, reference: &str) -> Vec<u8> {
    text_field(&mut field, 6, reference);
    field
}

fn optional(mut field: Vec<u8>) -> Vec<u8> {
    number_field(&mut field, 17, 1);
    field
}

fn member(mut field: Vec<u8>, group: u64) -> Vec<u8> {
    number_field(&mut field, 9, group);
    field
}

/// A `DescriptorProto` with the given fields and oneof groups.
fn message_type(name: &str, fields: &[Vec<u8>], oneofs: &[&str]) -> Vec<u8> {
    let mut buf = Vec::new();
    text_field(&mut buf, 1, name);
    for f in fields {
        chunk_field(&mut buf, 2, f);
    }
    for group in oneofs {
        let mut decl = Vec::new();
        text_field(&mut decl, 1, group);
        chunk_field(&mut buf, 8, &decl);
    }
    buf
}

/// A map entry type, nested in a message.
fn map_entry(name: &str, key: Vec<u8>, value: Vec<u8>) -> Vec<u8> {
    let mut buf = message_type(name, &[key, value], &[]);
    let mut options = Vec::new();
    number_field(&mut options, 7, 1);
    chunk_field(&mut buf, 7, &options);
    buf
}

fn compiled(fields: &[Vec<u8>], oneofs: &[&str]) -> Vec<Descriptor> {
    vec![compile(&message_type("M", fields, oneofs)).unwrap()]
}

fn message(fields: Vec<FieldValue>) -> Message {
    Message { class: 0, own: Some(0), fields, unknown: Vec::new() }
}

fn number(value: i32) -> FieldValue {
    FieldValue::One(Value::Scalar(ScalarValue::I32(value)))
}

fn text(value: &str) -> FieldValue {
    FieldValue::One(Value::Scalar(ScalarValue::Text(value.to_string())))
}

fn encoded(schema: &[Descriptor], message: &Message) -> Result<Vec<u8>, EncodeError> {
    let mut buf = Vec::new();
    encode_message(schema, 0, message, &mut buf, 0)?;
    Ok(buf)
}

/// Carry out the events of a decoded message.
fn assembled(schema: &[Descriptor], decoded: Decoded) -> Result<Message, DecodeError> {
    let desc = &schema[decoded.index];
    let mut fields: Vec<FieldValue> = (0..desc.field_count())
        .map(|i| match (desc.field(i).kind, desc.field(i).label) {
            (FieldKind::MapOf { .. }, _) => FieldValue::Entries(vec![]),
            (_, Label::Repeated) => FieldValue::List(vec![]),
            _ => FieldValue::Absent,
        })
        .collect();
    let mut held = None;
    for event in decoded.events {
        match event {
            Event::Clear { field } => fields[field] = FieldValue::Absent,
            Event::Store { field, value } => {
                fields[field] = FieldValue::One(arrived(schema, value)?);
            }
            Event::Append { field, value } => match &mut fields[field] {
                FieldValue::List(list) => list.push(arrived(schema, value)?),
                _ => return Err(DecodeError::ClearedList),
            },
            Event::Hold { field: _, value } => held = Some(arrived(schema, value)?),
            Event::Put { field, key } => match (&mut fields[field], held.take()) {
                (FieldValue::Entries(entries), Some(value)) => {
                    match entries.iter_mut().find(|entry| entry.0 == key) {
                        Some(entry) => entry.1 = value,
                        None => entries.push((key, value)),
                    }
                }
                other => panic!("{other:?}"),
            },
        }
    }
    match decoded.error {
        Some(error) => Err(error),
        None => Ok(Message {
            class: decoded.class,
            own: Some(decoded.index),
            fields,
            unknown: decoded.unknown,
        }),
    }
}

fn arrived(schema: &[Descriptor], value: Arrived) -> Result<Value, DecodeError> {
    Ok(match value {
        Arrived::Scalar(scalar) => Value::Scalar(scalar),
        Arrived::Enum(number) => Value::Enum(number),
        Arrived::Timestamp { secs, nanos } => Value::Timestamp { secs, nanos },
        Arrived::Duration { secs, nanos } => Value::Duration { secs, nanos },
        Arrived::Message(nested) => Value::Message(assembled(schema, nested)?),
    })
}

fn decoded(schema: &[Descriptor], data: &[u8]) -> Result<Message, DecodeError> {
    assembled(schema, decode_message(schema, 0, 0, data, 0))
}

#[test]
fn int_field_known_bytes() {
    let schema = compiled(&[field("a", 1, 5, OPTIONAL)], &[]);
    let m = message(vec![number(150)]);
    assert_eq!(encoded(&schema, &m), Ok(vec![0x08, 0x96, 0x01]));
    assert_eq!(decoded(&schema, &[0x08, 0x96, 0x01]), Ok(m));
}

#[test]
fn string_field_known_bytes() {
    let schema = compiled(&[field("b", 2, 9, OPTIONAL)], &[]);
    let m = message(vec![text("testing")]);
    let bytes = [&[0x12, 0x07][..], b"testing"].concat();
    assert_eq!(encoded(&schema, &m), Ok(bytes.clone()));
    assert_eq!(decoded(&schema, &bytes), Ok(m));
}

#[test]
fn packed_field_known_bytes() {
    let schema = compiled(&[field("d", 4, 5, REPEATED)], &[]);
    let items = [3, 270, 86942]
        .map(|v| Value::Scalar(ScalarValue::I32(v)))
        .into_iter()
        .collect();
    let m = message(vec![FieldValue::List(items)]);
    let bytes = vec![0x22, 0x06, 0x03, 0x8e, 0x02, 0x9e, 0xa7, 0x05];
    assert_eq!(encoded(&schema, &m), Ok(bytes.clone()));
    assert_eq!(decoded(&schema, &bytes), Ok(m));
}

#[test]
fn unpacked_elements_are_accepted() {
    let schema = compiled(&[field("d", 4, 5, REPEATED)], &[]);
    let packed = decoded(&schema, &[0x22, 0x03, 0x03, 0x8e, 0x02]).unwrap();
    let unpacked = decoded(&schema, &[0x20, 0x03, 0x20, 0x8e, 0x02]).unwrap();
    assert_eq!(packed, unpacked);
}

#[test]
fn empty_repeated_field_writes_nothing() {
    let schema = compiled(&[field("d", 4, 5, REPEATED), field("s", 5, 9, REPEATED)], &[]);
    let m = message(vec![FieldValue::List(vec![]), FieldValue::List(vec![])]);
    assert_eq!(encoded(&schema, &m), Ok(vec![]));
    assert_eq!(decoded(&schema, &[]), Ok(m));
}

#[test]
fn default_of_an_implicit_field_is_not_written() {
    let schema = compiled(
        &[
            field("a", 1, 5, OPTIONAL),
            field("b", 2, 9, OPTIONAL),
            named(field("e", 3, 14, OPTIONAL), ".E"),
            optional(field("o", 4, 5, OPTIONAL)),
        ],
        &[],
    );
    let m = message(vec![number(0), text(""), FieldValue::One(Value::Enum(0)), number(0)]);
    // Only the field with explicit presence is on the wire.
    assert_eq!(encoded(&schema, &m), Ok(vec![0x20, 0x00]));
    let back = decoded(&schema, &[0x20, 0x00]).unwrap();
    assert_eq!(
        back.fields,
        vec![FieldValue::Absent, FieldValue::Absent, FieldValue::Absent, number(0)]
    );
}

#[test]
fn negative_zero_is_no_default() {
    let schema = compiled(&[field("f", 1, 2, OPTIONAL), field("d", 2, 1, OPTIONAL)], &[]);
    let float = |v: f32| FieldValue::One(Value::Scalar(ScalarValue::F32(v.to_bits())));
    let double = |v: f64| FieldValue::One(Value::Scalar(ScalarValue::F64(v.to_bits())));
    assert_eq!(encoded(&schema, &message(vec![float(0.0), double(0.0)])), Ok(vec![]));
    let m = message(vec![float(-0.0), double(-0.0)]);
    let bytes = encoded(&schema, &m).unwrap();
    assert_eq!(
        bytes,
        vec![0x0d, 0, 0, 0, 0x80, 0x11, 0, 0, 0, 0, 0, 0, 0, 0x80]
    );
    assert_eq!(decoded(&schema, &bytes), Ok(m));
}

#[test]
fn every_scalar_type_comes_back() {
    let cases = vec![
        (1, ScalarValue::F64(1.5f64.to_bits())),
        (2, ScalarValue::F32(f32::NAN.to_bits())),
        (3, ScalarValue::I64(i64::MIN)),
        (4, ScalarValue::U64(u64::MAX)),
        (5, ScalarValue::I32(-1)),
        (6, ScalarValue::U64(7)),
        (7, ScalarValue::U32(u32::MAX)),
        (8, ScalarValue::Bool(true)),
        (9, ScalarValue::Text("h\u{e9}llo".to_string())),
        (12, ScalarValue::Bytes(vec![0, 255, 1])),
        (13, ScalarValue::U32(300)),
        (15, ScalarValue::I32(i32::MIN)),
        (16, ScalarValue::I64(-2)),
        (17, ScalarValue::I32(i32::MIN)),
        (18, ScalarValue::I64(i64::MAX)),
    ];
    for (code, value) in cases {
        let schema = compiled(&[field("x", 1, code, OPTIONAL)], &[]);
        let m = message(vec![FieldValue::One(Value::Scalar(value))]);
        let bytes = encoded(&schema, &m).unwrap();
        assert_eq!(decoded(&schema, &bytes), Ok(m));
    }
}

#[test]
fn negative_int32_takes_ten_bytes() {
    let schema = compiled(&[field("a", 1, 5, OPTIONAL)], &[]);
    let bytes = encoded(&schema, &message(vec![number(-1)])).unwrap();
    assert_eq!(bytes.len(), 11);
    assert_eq!(bytes[10], 0x01);
}

/// A message type that refers to itself: `child` = 1, `value` = 2.
fn tree() -> Vec<Descriptor> {
    let mut schema = compiled(
        &[named(field("child", 1, 11, OPTIONAL), ".M"), field("value", 2, 5, OPTIONAL)],
        &[],
    );
    let linked = build_linked_ref(0, Some(0), None);
    schema[0].link(vec![(1, linked)], None).unwrap();
    schema
}

fn chain(levels: usize) -> Message {
    let mut node = message(vec![FieldValue::Absent, number(1)]);
    for _ in 0..levels {
        node = message(vec![FieldValue::One(Value::Message(node)), number(1)]);
    }
    node
}

#[test]
fn nested_message_known_bytes() {
    let schema = tree();
    let m = message(vec![
        FieldValue::One(Value::Message(message(vec![FieldValue::Absent, number(150)]))),
        number(2),
    ]);
    let bytes = vec![0x0a, 0x03, 0x10, 0x96, 0x01, 0x10, 0x02];
    assert_eq!(encoded(&schema, &m), Ok(bytes.clone()));
    assert_eq!(decoded(&schema, &bytes), Ok(m));
}

#[test]
fn nesting_is_bounded() {
    let schema = tree();
    let deepest = chain(MAX_DEPTH);
    let bytes = encoded(&schema, &deepest).unwrap();
    assert_eq!(decoded(&schema, &bytes), Ok(deepest));
    assert_eq!(encoded(&schema, &chain(MAX_DEPTH + 1)), Err(EncodeError::TooDeep));
    // One level more on the wire.
    let mut deeper = Vec::new();
    chunk_field(&mut deeper, 1, &bytes);
    assert_eq!(decoded(&schema, &deeper), Err(DecodeError::TooDeep));
}

#[test]
fn long_nested_message_moves_up() {
    let schema = {
        let mut schema = compiled(
            &[named(field("child", 1, 11, OPTIONAL), ".M"), field("value", 2, 9, OPTIONAL)],
            &[],
        );
        schema[0].link(vec![(1, build_linked_ref(0, Some(0), None))], None).unwrap();
        schema
    };
    let long = "x".repeat(300);
    let m = message(vec![
        FieldValue::One(Value::Message(message(vec![FieldValue::Absent, text(&long)]))),
        FieldValue::One(Value::Scalar(ScalarValue::Text("y".to_string()))),
    ]);
    let bytes = encoded(&schema, &m).unwrap();
    assert_eq!(&bytes[..6], &[0x0a, 0xaf, 0x02, 0x12, 0xac, 0x02]);
    assert_eq!(decoded(&schema, &bytes), Ok(m));
}

#[test]
fn nested_descriptor_prefers_the_linked_class() {
    let linked = build_linked_ref(5, Some(3), None);
    assert_eq!(nested_descriptor(Some(&linked), 5, Some(8)), Some(3));
    assert_eq!(nested_descriptor(Some(&linked), 6, Some(8)), Some(8));
    assert_eq!(nested_descriptor(None, 5, None), None);
    // An unlinked descriptor still encodes: the value's own class decides.
    let schema = compiled(&[named(field("child", 1, 11, OPTIONAL), ".M")], &[]);
    let m = message(vec![FieldValue::One(Value::Message(message(vec![FieldValue::Absent])))]);
    assert_eq!(encoded(&schema, &m), Ok(vec![0x0a, 0x00]));
}

/// `map<string, int32> data = 3`.
fn dictionary() -> Vec<Descriptor> {
    let mut bytes = message_type("M", &[named(field("data", 3, 11, REPEATED), ".M.DataEntry")], &[]);
    chunk_field(
        &mut bytes,
        3,
        &map_entry(
            "DataEntry",
            field("key", 1, 9, OPTIONAL),
            field("value", 2, 5, OPTIONAL),
        ),
    );
    vec![compile(&bytes).unwrap()]
}

fn entry(key: &str, value: i32) -> (ScalarValue, Value) {
    (ScalarValue::Text(key.to_string()), Value::Scalar(ScalarValue::I32(value)))
}

#[test]
fn map_known_bytes() {
    let schema = dictionary();
    let m = message(vec![FieldValue::Entries(vec![entry("a", 1), entry("", 0)])]);
    let bytes = vec![
        0x1a, 0x05, 0x0a, 0x01, b'a', 0x10, 0x01, 0x1a, 0x04, 0x0a, 0x00, 0x10, 0x00,
    ];
    assert_eq!(encoded(&schema, &m), Ok(bytes.clone()));
    assert_eq!(decoded(&schema, &bytes), Ok(m));
}

#[test]
fn omitted_key_and_value_are_defaults() {
    let schema = dictionary();
    let m = decoded(&schema, &[0x1a, 0x00, 0x1a, 0x03, 0x0a, 0x01, b'k']).unwrap();
    assert_eq!(m.fields, vec![FieldValue::Entries(vec![entry("", 0), entry("k", 0)])]);
}

#[test]
fn later_entry_replaces_an_earlier_one() {
    let schema = dictionary();
    let twice = message(vec![FieldValue::Entries(vec![
        entry("a", 1),
        entry("b", 2),
        entry("a", 3),
    ])]);
    let m = decoded(&schema, &encoded(&schema, &twice).unwrap()).unwrap();
    assert_eq!(m.fields, vec![FieldValue::Entries(vec![entry("a", 3), entry("b", 2)])]);
}

#[test]
fn map_entry_fields_of_another_wire_type_are_skipped() {
    let schema = dictionary();
    // Key as a varint, value as a chunk, and a field that is neither.
    let m = decoded(
        &schema,
        &[0x1a, 0x07, 0x08, 0x05, 0x12, 0x01, b'x', 0x18, 0x01],
    )
    .unwrap();
    assert_eq!(m.fields, vec![FieldValue::Entries(vec![entry("", 0)])]);
}

/// `oneof choice { int32 a = 1; string b = 2; }`
fn choice() -> Vec<Descriptor> {
    compiled(
        &[member(field("a", 1, 5, OPTIONAL), 0), member(field("b", 2, 9, OPTIONAL), 0)],
        &["choice"],
    )
}

#[test]
fn two_set_members_are_a_conflict() {
    let schema = choice();
    let m = message(vec![number(1), text("x")]);
    assert_eq!(
        encoded(&schema, &m),
        Err(EncodeError::OneofConflict { index: 0, group: 0, count: 2 })
    );
    assert_eq!(schema[0].oneof_name(0), "choice");
    // What was in the buffer stays in front.
    let mut buf = vec![0xaa, 0xbb];
    assert!(encode_message(&schema, 0, &m, &mut buf, 0).is_err());
    assert_eq!(&buf[..2], &[0xaa, 0xbb]);
}

#[test]
fn last_member_on_the_wire_wins() {
    let schema = choice();
    let m = decoded(&schema, &[0x08, 0x05, 0x12, 0x01, b'x']).unwrap();
    assert_eq!(m.fields, vec![FieldValue::Absent, text("x")]);
    let m = decoded(&schema, &[0x12, 0x01, b'x', 0x08, 0x05]).unwrap();
    assert_eq!(m.fields, vec![number(5), FieldValue::Absent]);
    assert_eq!(encoded(&schema, &m), Ok(vec![0x08, 0x05]));
}

#[test]
fn cleared_list_is_an_error() {
    // A malformed descriptor: a repeated member of a oneof group.
    let schema = compiled(
        &[member(field("r", 1, 5, REPEATED), 0), member(field("b", 2, 9, OPTIONAL), 0)],
        &["choice"],
    );
    let bytes = [0x08, 0x05, 0x12, 0x01, b'x', 0x08, 0x06];
    assert_eq!(
        decode_message(&schema, 0, 0, &bytes, 0).error,
        Some(DecodeError::ClearedList)
    );
}

#[test]
fn unknown_fields_survive() {
    let schema = compiled(&[field("a", 1, 5, OPTIONAL)], &[]);
    // Field 9 is not in the schema; field 1 arrives as a chunk as well.
    let bytes = [0x4a, 0x02, 1, 2, 0x08, 0x07, 0x0a, 0x01, 0x00, 0x4d, 1, 2, 3, 4];
    let m = decoded(&schema, &bytes).unwrap();
    assert_eq!(m.fields, vec![number(7)]);
    assert_eq!(m.unknown, vec![0x4a, 0x02, 1, 2, 0x0a, 0x01, 0x00, 0x4d, 1, 2, 3, 4]);
    let again = encoded(&schema, &m).unwrap();
    assert_eq!(&again[..2], &[0x08, 0x07]);
    assert_eq!(&again[2..], &m.unknown[..]);
    assert_eq!(decoded(&schema, &again), Ok(m));
}

#[test]
fn mismatched_repeated_field_is_kept() {
    let schema = compiled(&[field("s", 1, 9, REPEATED), field("n", 2, 5, REPEATED)], &[]);
    let bytes = [0x08, 0x05, 0x15, 1, 2, 3, 4];
    let m = decoded(&schema, &bytes).unwrap();
    assert_eq!(m.fields, vec![FieldValue::List(vec![]), FieldValue::List(vec![])]);
    assert_eq!(m.unknown, bytes.to_vec());
}

#[test]
fn timestamps_and_durations() {
    let schema = compiled(
        &[
            named(field("at", 1, 11, OPTIONAL), ".google.protobuf.Timestamp"),
            named(field("spans", 2, 11, REPEATED), ".google.protobuf.Duration"),
        ],
        &[],
    );
    let m = message(vec![
        FieldValue::One(Value::Timestamp { secs: -1, nanos: 500 }),
        FieldValue::List(vec![
            Value::Duration { secs: 0, nanos: 0 },
            Value::Duration { secs: 300, nanos: 1 },
        ]),
    ]);
    let bytes = encoded(&schema, &m).unwrap();
    assert_eq!(
        &bytes[16..],
        &[0x12, 0x00, 0x12, 0x05, 0x08, 0xac, 0x02, 0x10, 0x01]
    );
    assert_eq!(decoded(&schema, &bytes), Ok(m));
}

#[test]
fn encode_errors() {
    let schema = compiled(
        &[
            field("a", 1, 5, OPTIONAL),
            field("r", 2, 5, REPEATED),
            named(field("m", 3, 11, OPTIONAL), ".M"),
        ],
        &[],
    );
    let list = || FieldValue::List(vec![]);
    let check = |fields: Vec<FieldValue>, error: EncodeError| {
        assert_eq!(encoded(&schema, &message(fields)), Err(error));
    };
    check(vec![number(1)], EncodeError::MissingField(1));
    check(
        vec![text("1"), list(), FieldValue::Absent],
        EncodeError::TypeMismatch,
    );
    check(
        vec![FieldValue::Absent, list(), FieldValue::Absent],
        EncodeError::TypeMismatch,
    );
    check(vec![number(1), text("abc"), FieldValue::Absent], EncodeError::NotAList);
    check(vec![number(1), list(), number(1)], EncodeError::NotAMessage);
    let homeless = Message { class: 9, own: None, fields: vec![], unknown: vec![] };
    check(
        vec![number(1), list(), FieldValue::One(Value::Message(homeless))],
        EncodeError::NotAMessage,
    );
    assert_eq!(
        encoded(&dictionary(), &message(vec![list()])),
        Err(EncodeError::NotAMap)
    );
}

#[test]
fn decode_errors() {
    let schema = compiled(
        &[field("s", 1, 9, OPTIONAL), named(field("m", 2, 11, OPTIONAL), ".M")],
        &[],
    );
    assert_eq!(decoded(&schema, &[0x0a, 0x01, 0xff]), Err(DecodeError::InvalidUtf8));
    assert_eq!(
        decoded(&schema, &[0x0a, 0x05, b'x']),
        Err(DecodeError::Wire(WireError::InvalidLength))
    );
    assert_eq!(decoded(&schema, &[0x12, 0x00]), Err(DecodeError::NotLinked));
    let mut schema = schema;
    let not_a_message = build_linked_ref(4, None, None);
    schema[0].link(vec![(2, not_a_message)], None).unwrap();
    assert_eq!(decoded(&schema, &[0x12, 0x00]), Err(DecodeError::NotAMessage));
}

#[test]
fn descriptor_accessors() {
    let bytes = message_type(
        "Shape",
        &[
            named(field("kind", 1, 14, OPTIONAL), ".pkg.Kind"),
            member(field("a", 2, 5, OPTIONAL), 0),
            named(member(field("b", 3, 11, OPTIONAL), 0), ".pkg.B"),
            named(field("at", 4, 11, OPTIONAL), ".google.protobuf.Timestamp"),
        ],
        &["choice"],
    );
    let desc = compile(&bytes).unwrap();
    assert_eq!(desc.name(), "Shape");
    assert_eq!(desc.field_names(), vec!["kind", "a", "b", "at"]);
    assert_eq!(
        desc.ref_fields(),
        vec![(1, "pkg.Kind".to_string()), (3, "pkg.B".to_string())]
    );
    assert_eq!(
        desc.oneofs(),
        vec![("choice".to_string(), vec!["a".to_string(), "b".to_string()])]
    );
    assert!(!desc.is_linked());
    assert_eq!(desc.find(3), Some(2));
    assert_eq!(desc.find(9), None);
}

#[test]
fn first_link_wins() {
    let mut desc = compile(&message_type("M", &[field("a", 1, 5, OPTIONAL)], &[])).unwrap();
    assert_eq!(
        desc.link(vec![], Some((1, vec![]))),
        Err(LinkError::DefaultsLength)
    );
    assert!(!desc.is_linked());
    assert!(desc.linked_ref(1).is_none());
    let linked = |class| vec![(1, build_linked_ref(class, None, None))];
    assert_eq!(desc.link(linked(7), Some((7, vec![70]))), Ok(()));
    assert_eq!(desc.link(linked(8), Some((8, vec![80]))), Ok(()));
    assert!(desc.is_linked());
    assert_eq!(desc.linked_ref(1).unwrap().class, 7);
    assert_eq!(desc.fast_init().unwrap().defaults, vec![70]);
}

#[test]
fn enum_members_come_from_the_table() {
    let members = [(0, 10), (2, 12), (63, 73), (64, 74), (-1, 9), (2, 22)];
    let linked = build_linked_ref(1, None, Some(&members));
    assert_eq!(linked.enum_table.as_ref().unwrap().len(), ENUM_TABLE_SIZE);
    assert_eq!(coerce_enum(Some(&linked), 0), EnumChoice::Member(10));
    assert_eq!(coerce_enum(Some(&linked), 1), EnumChoice::Raw);
    assert_eq!(coerce_enum(Some(&linked), 2), EnumChoice::Member(22));
    assert_eq!(coerce_enum(Some(&linked), 63), EnumChoice::Member(73));
    assert_eq!(coerce_enum(Some(&linked), 64), EnumChoice::LookUp);
    assert_eq!(coerce_enum(Some(&linked), -1), EnumChoice::LookUp);
    // A custom hook must stay observable: the class is called.
    let hooked = build_linked_ref(1, None, None);
    assert_eq!(coerce_enum(Some(&hooked), 0), EnumChoice::Call);
    assert_eq!(coerce_enum(None, 0), EnumChoice::Raw);
    // A message class has no table.
    assert!(build_linked_ref(1, Some(0), Some(&members)).enum_table.is_none());
}

#[test]
fn construction_takes_the_fast_path_for_its_class_only() {
    let mut desc = compile(&message_type(
        "M",
        &[field("a", 1, 5, OPTIONAL), field("b", 2, 5, OPTIONAL)],
        &[],
    ))
    .unwrap();
    let given = [true, false];
    let plan = construction(&desc, 0, &given, &[]);
    assert!(!plan.fast && !plan.set_unknown);
    assert_eq!(plan.slots, vec![Slot::Given, Slot::Omitted]);
    desc.link(vec![], Some((0, vec![40, 41]))).unwrap();
    let plan = construction(&desc, 0, &given, &[]);
    assert!(plan.fast && plan.set_unknown);
    assert_eq!(plan.slots, vec![Slot::Given, Slot::Default(41)]);
    let plan = construction(&desc, 5, &given, &[0x18, 0x00]);
    assert!(!plan.fast && plan.set_unknown);
}

#[test]
fn enum_numbers_come_back_open() {
    let schema = compiled(&[named(field("e", 1, 14, REPEATED), ".E")], &[]);
    let m = message(vec![FieldValue::List(vec![Value::Enum(-1), Value::Enum(99)])]);
    let bytes = encoded(&schema, &m).unwrap();
    assert_eq!(&bytes[..2], &[0x0a, 0x0b]);
    assert_eq!(decoded(&schema, &bytes), Ok(m));
}

#[test]
fn bytes_of_two_messages_merge() {
    let schema = compiled(&[field("a", 1, 5, OPTIONAL), field("r", 2, 9, REPEATED)], &[]);
    let list = |items: &[&str]| {
        FieldValue::List(
            items
                .iter()
                .map(|item| Value::Scalar(ScalarValue::Text(item.to_string())))
                .collect(),
        )
    };
    let mut bytes = encoded(&schema, &message(vec![number(1), list(&["x"])])).unwrap();
    bytes.extend(encoded(&schema, &message(vec![number(2), list(&["y", "z"])])).unwrap());
    let merged = decoded(&schema, &bytes).unwrap();
    assert_eq!(merged, message(vec![number(2), list(&["x", "y", "z"])]));
}

#[test]
fn message_values_of_a_map() {
    let mut bytes = message_type("M", &[named(field("data", 1, 11, REPEATED), ".M.DataEntry")], &[]);
    chunk_field(
        &mut bytes,
        3,
        &map_entry(
            "DataEntry",
            field("key", 1, 8, OPTIONAL),
            named(field("value", 2, 11, OPTIONAL), ".M"),
        ),
    );
    let mut schema = vec![compile(&bytes).unwrap()];
    assert_eq!(schema[0].ref_fields(), vec![(1, "M".to_string())]);
    // An omitted value is an empty message, so the class has to be known.
    assert_eq!(decoded(&schema, &[0x0a, 0x00]), Err(DecodeError::NotLinked));
    schema[0].link(vec![(1, build_linked_ref(0, Some(0), None))], None).unwrap();
    let empty = || message(vec![FieldValue::Entries(vec![])]);
    let m = message(vec![FieldValue::Entries(vec![
        (ScalarValue::Bool(false), Value::Message(empty())),
        (ScalarValue::Bool(true), Value::Message(empty())),
    ])]);
    assert_eq!(decoded(&schema, &[0x0a, 0x00, 0x0a, 0x02, 0x08, 0x01]), Ok(m));
}

#[test]
fn arbitrary_bytes_decode_or_fail_cleanly() {
    let schema = tree();
    let mut state: u64 = 3;
    for len in 0..300usize {
        let data: Vec<u8> = (0..len)
            .map(|_| {
                state = state.wrapping_mul(6364136223846793005).wrapping_add(1);
                (state >> 56) as u8
            })
            .collect();
        if let Ok(m) = decoded(&schema, &data) {
            assert_eq!(m.fields.len(), 2);
        }
    }
}

/// A map with keys of the given type code and `int32` values, as field 1.
fn keyed(code: u64) -> Vec<Descriptor> {
    let mut bytes = message_type("M", &[named(field("data", 1, 11, REPEATED), ".M.DataEntry")], &[]);
    chunk_field(
        &mut bytes,
        3,
        &map_entry(
            "DataEntry",
            field("key", 1, code, OPTIONAL),
            field("value", 2, 5, OPTIONAL),
        ),
    );
    vec![compile(&bytes).unwrap()]
}

#[test]
fn entries_are_put_one_by_one() {
    let value = |v: i32| Value::Scalar(ScalarValue::I32(v));
    let double = |v: f64| ScalarValue::F64(v.to_bits());
    let cases: Vec<(u64, Box<dyn Fn(i32) -> ScalarValue>)> = vec![
        (1, Box::new(move |v| if v == 0 { double(-0.0) } else { double(0.0) })),
        (5, Box::new(|v| ScalarValue::I32(-v))),
        (3, Box::new(|v| ScalarValue::I64(i64::MIN + v as i64))),
        (13, Box::new(|v| ScalarValue::U32(v as u32))),
        (4, Box::new(|v| ScalarValue::U64(u64::MAX - v as u64))),
        (8, Box::new(|v| ScalarValue::Bool(v != 0))),
        (9, Box::new(|v| ScalarValue::Text(format!("key {v}")))),
        (12, Box::new(|v| ScalarValue::Bytes(vec![v as u8]))),
    ];
    for (code, key) in cases {
        let schema = keyed(code);
        let twice = message(vec![FieldValue::Entries(vec![
            (key(0), value(1)),
            (key(1), value(2)),
            (key(0), value(3)),
        ])]);
        let bytes = encoded(&schema, &twice).unwrap();
        let hold = |v: i32| Event::Hold { field: 0, value: Arrived::Scalar(ScalarValue::I32(v)) };
        let put = |v: i32| Event::Put { field: 0, key: key(v) };
        assert_eq!(
            decode_message(&schema, 0, 0, &bytes, 0).events,
            vec![hold(1), put(0), hold(2), put(1), hold(3), put(0)]
        );
    }
}

#[test]
fn large_maps_decode() {
    let schema = keyed(5);
    let entries: Vec<(ScalarValue, Value)> = (0..50_000)
        .map(|v| (ScalarValue::I32(v), Value::Scalar(ScalarValue::I32(v))))
        .collect();
    let bytes = encoded(&schema, &message(vec![FieldValue::Entries(entries)])).unwrap();
    let back = decode_message(&schema, 0, 0, &bytes, 0);
    assert_eq!(back.error, None);
    assert_eq!(back.events.len(), 100_000);
    assert_eq!(
        back.events[99_999],
        Event::Put { field: 0, key: ScalarValue::I32(49_999) }
    );
}

#[test]
fn repeated_field_appends_or_leaves_the_buffer_alone() {
    let kind = FieldKind::Scalar(ScalarType::Int32);
    let run = |value: FieldValue| {
        let mut buf = vec![0xaa];
        let result = encode_repeated(&[], &mut buf, 4, kind, &value, None, 0);
        (result, buf)
    };
    let items = [1, 150].map(|v| Value::Scalar(ScalarValue::I32(v))).into_iter().collect();
    assert_eq!(
        run(FieldValue::List(items)),
        (Ok(()), vec![0xaa, 0x22, 0x03, 0x01, 0x96, 0x01])
    );
    assert_eq!(run(FieldValue::List(vec![])), (Ok(()), vec![0xaa]));
    assert_eq!(run(text("abc")), (Err(EncodeError::NotAList), vec![0xaa]));
    let bytes = Value::Scalar(ScalarValue::Bytes(b"abc".to_vec()));
    assert_eq!(run(FieldValue::One(bytes)), (Err(EncodeError::NotAList), vec![0xaa]));
}

#[test]
fn refused_values_leave_the_buffer_alone() {
    let mut buf = vec![0xaa];
    let int32 = ScalarType::Int32;
    let wrong = ScalarValue::Text("1".to_string());
    assert_eq!(encode_scalar(&mut buf, int32, &wrong), Err(EncodeError::TypeMismatch));
    assert_eq!(
        encode_scalar_field(&mut buf, 1, int32, &wrong, false),
        Err(EncodeError::TypeMismatch)
    );
    let value_kind = MapValue::Scalar(int32);
    assert_eq!(
        encode_map(&[], &mut buf, 1, int32, value_kind, &number(1), None, 0),
        Err(EncodeError::NotAMap)
    );
    let schema = tree();
    assert_eq!(
        encode_message(&schema, 0, &chain(0), &mut buf, MAX_DEPTH + 1),
        Err(EncodeError::TooDeep)
    );
    assert_eq!(buf, vec![0xaa]);
}

#[test]
fn written_scalar_reads_back_and_leaves_the_rest() {
    for (scalar, value) in [
        (ScalarType::Int32, ScalarValue::I32(-5)),
        (ScalarType::SInt64, ScalarValue::I64(i64::MIN)),
        (ScalarType::Double, ScalarValue::F64((-0.0f64).to_bits())),
        (ScalarType::String, ScalarValue::Text("\u{1f600}".to_string())),
    ] {
        let mut buf = Vec::new();
        encode_scalar(&mut buf, scalar, &value).unwrap();
        let end = buf.len();
        buf.push(0x7f);
        let mut reader = Reader::new(&buf);
        assert_eq!(decode_scalar(scalar, &mut reader), Ok(value));
        assert_eq!(reader.pos(), end);
    }
    // A chunk that is no text is consumed all the same.
    let mut reader = Reader::new(&[0x01, 0xff, 0x00]);
    assert_eq!(
        decode_scalar(ScalarType::String, &mut reader),
        Err(DecodeError::InvalidUtf8)
    );
    assert_eq!(reader.pos(), 2);
}

#[test]
fn elements_of_another_wire_type_are_left_alone() {
    let data = [0x02, 0x05, 0x06, 0x07];
    let kind = FieldKind::Scalar(ScalarType::UInt32);
    let read = |wire_type: WireType| {
        let mut reader = Reader::new(&data);
        let mut events = vec![Event::Clear { field: 1 }];
        let handled = decode_repeated(&[], kind, None, wire_type, &mut reader, 3, &mut events, 0);
        assert_eq!(events.remove(0), Event::Clear { field: 1 });
        (handled, events, reader.pos())
    };
    let append = |v: u32| Event::Append { field: 3, value: Arrived::Scalar(ScalarValue::U32(v)) };
    assert_eq!(read(WireType::I64), (Ok(false), vec![], 0));
    assert_eq!(read(WireType::I32), (Ok(false), vec![], 0));
    assert_eq!(read(WireType::Varint), (Ok(true), vec![append(2)], 1));
    assert_eq!(read(WireType::Len), (Ok(true), vec![append(5), append(6)], 3));
}

fn store(field: usize, value: Arrived) -> Event {
    Event::Store { field, value }
}

fn integer(value: i32) -> Arrived {
    Arrived::Scalar(ScalarValue::I32(value))
}

#[test]
fn overwritten_values_arrive() {
    let schema = compiled(
        &[named(field("at", 1, 11, OPTIONAL), ".google.protobuf.Timestamp")],
        &[],
    );
    // The first timestamp is out of any calendar; the second one is zero.
    let mut bytes = vec![0x0a, 0x0a, 0x08, 0xff, 0xff, 0xff, 0xff, 0xff, 0xff, 0xff, 0xff, 0x7f];
    bytes.extend([0x0a, 0x00]);
    let back = decode_message(&schema, 0, 0, &bytes, 0);
    assert_eq!(
        back.events,
        vec![
            store(0, Arrived::Timestamp { secs: i64::MAX, nanos: 0 }),
            store(0, Arrived::Timestamp { secs: 0, nanos: 0 }),
        ]
    );
    assert_eq!(back.error, None);
}

#[test]
fn cleared_members_arrive() {
    let schema = choice();
    let back = decode_message(&schema, 0, 0, &[0x08, 0x05, 0x12, 0x01, b'x', 0x08, 0x06], 0);
    assert_eq!(
        back.events,
        vec![
            store(0, integer(5)),
            Event::Clear { field: 0 },
            store(1, Arrived::Scalar(ScalarValue::Text("x".to_string()))),
            Event::Clear { field: 1 },
            store(0, integer(6)),
        ]
    );
}

#[test]
fn every_value_of_a_map_entry_arrives() {
    let schema = dictionary();
    let hold = |v: i32| Event::Hold { field: 0, value: integer(v) };
    let put = |key: &str| Event::Put { field: 0, key: ScalarValue::Text(key.to_string()) };
    let bytes = [0x1a, 0x07, 0x10, 0x01, 0x0a, 0x01, b'a', 0x10, 0x02, 0x1a, 0x00];
    let back = decode_message(&schema, 0, 0, &bytes, 0);
    assert_eq!(back.events, vec![hold(1), hold(2), put("a"), hold(0), put("")]);
}

#[test]
fn values_arrive_ahead_of_an_error() {
    let schema = compiled(&[field("a", 1, 5, OPTIONAL), field("r", 2, 5, REPEATED)], &[]);
    // An unknown field, a number, and a chunk that ends within its second
    // element.
    let bytes = [0x18, 0x01, 0x08, 0x05, 0x12, 0x02, 0x07, 0x80];
    let back = decode_message(&schema, 4, 0, &bytes, 0);
    assert_eq!(
        back,
        Decoded {
            class: 4,
            index: 0,
            events: vec![store(0, integer(5)), Event::Append { field: 1, value: integer(7) }],
            unknown: vec![],
            error: Some(DecodeError::Wire(WireError::UnexpectedEof)),
        }
    );
    let too_deep = decode_message(&schema, 4, 0, &bytes, MAX_DEPTH + 1);
    assert_eq!(too_deep.events, vec![]);
    assert_eq!(too_deep.error, Some(DecodeError::TooDeep));
}

#[test]
fn nested_message_arrives_as_far_as_it_goes() {
    let schema = tree();
    // The child has a number and then a field that is cut off.
    let bytes = [0x10, 0x01, 0x0a, 0x03, 0x10, 0x02, 0x10, 0x10, 0x03];
    let back = decode_message(&schema, 0, 0, &bytes, 0);
    let child = Decoded {
        class: 0,
        index: 0,
        events: vec![store(1, integer(2))],
        unknown: vec![],
        error: Some(DecodeError::Wire(WireError::UnexpectedEof)),
    };
    assert_eq!(back.events, vec![store(1, integer(1)), store(0, Arrived::Message(child))]);
    assert_eq!(back.error, Some(DecodeError::Wire(WireError::UnexpectedEof)));
}

#[test]
fn conflicts_are_found_in_fields_alone() {
    let schema = choice();
    let conflict = EncodeError::OneofConflict { index: 3, group: 0, count: 2 };
    assert_eq!(oneof_conflict(3, &schema[0], &vec![number(0), text("")]), Some(conflict));
    assert_eq!(oneof_conflict(3, &schema[0], &vec![number(0), FieldValue::Absent]), None);
}

#[test]
fn later_bytes_take_no_event_back() {
    let schema = choice();
    let first = [0x08, 0x05, 0x12, 0x01, b'x'];
    let events = decode_message(&schema, 0, 0, &first, 0).events;
    for later in [&[0x08, 0x07][..], &[0x18, 0x00], &[0x12, 0x05], &[0xff]] {
        let bytes = [&first[..], later].concat();
        let all = decode_message(&schema, 0, 0, &bytes, 0).events;
        assert_eq!(all[..events.len()], events[..]);
    }
}
