//! Hand-written parser for the subset of `descriptor.proto` we need.
//!
//! The protoc plugin embeds, for each message, the standard `DescriptorProto`
//! bytes that protoc already produced. Rather than run those through a generic
//! engine (which would create a bootstrap cycle), we parse the handful of
//! fields we care about directly with the wire [`Reader`]: standard descriptor
//! bytes in, our [`MessageDescriptor`] out.
//!
//! Field numbers below come straight from `descriptor.proto`:
//! * `DescriptorProto`: name=1, field=2, nested_type=3, oneof_decl=8, options=7
//! * `FieldDescriptorProto`: name=1, number=3, label=4, type=5, type name=6,
//!   oneof_index=9, proto3_optional=17
//! * `MessageOptions`: map_entry=7
//! * `OneofDescriptorProto`: name=1
use vstd::prelude::*;

use crate::descriptor::{
    fields_view, names_view, text_view, FieldDescriptor, FieldKind, FieldView, Label, MapValue, MessageDescriptor,
    MessageDescriptorView, ScalarType,
};
use crate::text::{
    decode_text, full_name, last_segment, parent_name, parent_segment, short_name, text_of,
    undotted,
};
use crate::wire::{
    self, chunk_in, extended, field_in, lemma_field_used, low32, signed32, signed64, Payload,
    Reader, WireError, WireField, WireType,
};

verus! {

/// Error while parsing a descriptor.
#[derive(Debug, Clone, Copy, PartialEq, Eq, Structural)]
pub enum ParseError {
    Wire(WireError),
    /// A field type we don't understand (e.g. group).
    UnsupportedType(i32),
    /// The `type` field of a `FieldDescriptorProto` was missing.
    MissingType,
    /// A string field was not valid UTF-8.
    InvalidUtf8,
}

impl vstd::std_specs::convert::FromSpecImpl<WireError> for ParseError {
    open spec fn obeys_from_spec() -> bool {
        true
    }

    open spec fn from_spec(err: WireError) -> ParseError {
        ParseError::Wire(err)
    }
}

impl From<WireError> for ParseError {
    fn from(err: WireError) -> (error: ParseError) {
        ParseError::Wire(err)
    }
}

// FieldDescriptorProto.Label
pub const LABEL_REPEATED: i64 = 3;

// FieldDescriptorProto.Type
pub const TYPE_GROUP: i64 = 10;

pub const TYPE_MESSAGE: i64 = 11;

pub const TYPE_ENUM: i64 = 14;

// ---------------------------------------------------------------------------
// What descriptor bytes say
// ---------------------------------------------------------------------------

/// The scalar type with the given `FieldDescriptorProto.Type` number.
pub open spec fn scalar_numbered(type_code: i64) -> Option<ScalarType> {
    if type_code == 1 {
        Some(ScalarType::Double)
    } else if type_code == 2 {
        Some(ScalarType::Float)
    } else if type_code == 3 {
        Some(ScalarType::Int64)
    } else if type_code == 4 {
        Some(ScalarType::UInt64)
    } else if type_code == 5 {
        Some(ScalarType::Int32)
    } else if type_code == 6 {
        Some(ScalarType::Fixed64)
    } else if type_code == 7 {
        Some(ScalarType::Fixed32)
    } else if type_code == 8 {
        Some(ScalarType::Bool)
    } else if type_code == 9 {
        Some(ScalarType::String)
    } else if type_code == 12 {
        Some(ScalarType::Bytes)
    } else if type_code == 13 {
        Some(ScalarType::UInt32)
    } else if type_code == 15 {
        Some(ScalarType::SFixed32)
    } else if type_code == 16 {
        Some(ScalarType::SFixed64)
    } else if type_code == 17 {
        Some(ScalarType::SInt32)
    } else if type_code == 18 {
        Some(ScalarType::SInt64)
    } else {
        None
    }
}

/// The full name of the well-known type that surfaces as a `datetime`.
pub open spec fn is_timestamp(name: Option<Seq<char>>) -> bool {
    name == Some(".google.protobuf.Timestamp"@)
}

/// The full name of the well-known type that surfaces as a `timedelta`.
pub open spec fn is_duration(name: Option<Seq<char>>) -> bool {
    name == Some(".google.protobuf.Duration"@)
}

/// A reference without the leading dot.
pub open spec fn undotted_reference(name: Option<Seq<char>>) -> Option<Seq<char>> {
    match name {
        Some(name) => Some(undotted(name)),
        None => None,
    }
}

/// The error for a type number that stands for nothing we know; its low 32
/// bits are reported.
pub open spec fn unsupported(type_code: i64) -> ParseError {
    ParseError::UnsupportedType(signed32(low32(extended(type_code as int)) as int) as i32)
}

/// What a `FieldDescriptorProto` says, before interpretation.
pub struct RawView {
    pub name: Seq<char>,
    pub number: u32,
    pub label: i64,
    pub type_code: Option<i64>,
    pub reference: Option<Seq<char>>,
    pub oneof_index: Option<u32>,
    pub proto3_optional: bool,
}

/// A `FieldDescriptorProto` without any field.
pub open spec fn raw_empty() -> RawView {
    RawView {
        name: Seq::empty(),
        number: 0,
        label: 0,
        type_code: None,
        reference: None,
        oneof_index: None,
        proto3_optional: false,
    }
}

/// A `FieldDescriptorProto` after one more wire field.
pub open spec fn raw_with(raw: RawView, field: WireField) -> Result<RawView, ParseError> {
    match field.payload {
        Payload::Len(bytes) => if field.number == 1 || field.number == 6 {
            match text_of(bytes) {
                None => Err(ParseError::InvalidUtf8),
                Some(text) => if field.number == 1 {
                    Ok(RawView { name: text, ..raw })
                } else {
                    Ok(RawView { reference: Some(text), ..raw })
                },
            }
        } else {
            Ok(raw)
        },
        Payload::Varint(value) => if field.number == 3 {
            Ok(RawView { number: low32(value), ..raw })
        } else if field.number == 4 {
            Ok(RawView { label: signed64(value as int) as i64, ..raw })
        } else if field.number == 5 {
            Ok(RawView { type_code: Some(signed64(value as int) as i64), ..raw })
        } else if field.number == 9 {
            Ok(RawView { oneof_index: Some(low32(value)), ..raw })
        } else if field.number == 17 {
            Ok(RawView { proto3_optional: value != 0, ..raw })
        } else {
            Ok(raw)
        },
        _ => Ok(raw),
    }
}

/// A `FieldDescriptorProto` after the fields of `s`.
pub open spec fn raw_in(s: Seq<u8>, raw: RawView) -> Result<RawView, ParseError>
    decreases s.len(),
{
    if s.len() == 0 {
        Ok(raw)
    } else {
        proof {
            lemma_field_used(s);
        }
        match field_in(s).result {
            Err(error) => Err(ParseError::Wire(error)),
            Ok(field) => match raw_with(raw, field) {
                Err(error) => Err(error),
                Ok(raw) => raw_in(s.skip(field_in(s).used as int), raw),
            },
        }
    }
}

/// Whether the options `s` mark a map entry, if those before them did as
/// `marked` says.
pub open spec fn map_entry_in(s: Seq<u8>, marked: bool) -> Result<bool, ParseError>
    decreases s.len(),
{
    if s.len() == 0 {
        Ok(marked)
    } else {
        proof {
            lemma_field_used(s);
        }
        match field_in(s).result {
            Err(error) => Err(ParseError::Wire(error)),
            Ok(field) => map_entry_in(
                s.skip(field_in(s).used as int),
                match field.payload {
                    Payload::Varint(value) => if field.number == 7 {
                        value != 0
                    } else {
                        marked
                    },
                    _ => marked,
                },
            ),
        }
    }
}

/// The name of the oneof group that `s` declares.
pub open spec fn oneof_name_in(s: Seq<u8>, name: Seq<char>) -> Result<Seq<char>, ParseError>
    decreases s.len(),
{
    if s.len() == 0 {
        Ok(name)
    } else {
        proof {
            lemma_field_used(s);
        }
        match field_in(s).result {
            Err(error) => Err(ParseError::Wire(error)),
            Ok(field) => match field.payload {
                Payload::Len(bytes) => if field.number == 1 {
                    match text_of(bytes) {
                        None => Err(ParseError::InvalidUtf8),
                        Some(text) => oneof_name_in(s.skip(field_in(s).used as int), text),
                    }
                } else {
                    oneof_name_in(s.skip(field_in(s).used as int), name)
                },
                _ => oneof_name_in(s.skip(field_in(s).used as int), name),
            },
        }
    }
}

/// The value type of a map whose entry's value has the given type.
pub open spec fn map_value_of(type_code: i64, reference: Option<Seq<char>>) -> Result<
    MapValue,
    ParseError,
> {
    if type_code == TYPE_ENUM {
        Ok(MapValue::Enum)
    } else if type_code == TYPE_MESSAGE {
        if is_timestamp(reference) {
            Ok(MapValue::Timestamp)
        } else if is_duration(reference) {
            Ok(MapValue::Duration)
        } else {
            Ok(MapValue::Message)
        }
    } else {
        match scalar_numbered(type_code) {
            Some(scalar) => Ok(MapValue::Scalar(scalar)),
            None => Err(unsupported(type_code)),
        }
    }
}

/// What a map entry type says of the map.
pub struct EntryView {
    pub key: ScalarType,
    pub value: MapValue,
    pub qualified_name: Option<Seq<char>>,
}

/// A nested `DescriptorProto`, as far as it has been read.
pub struct NestedView {
    pub name: Seq<char>,
    pub is_map_entry: bool,
    pub key: Option<ScalarType>,
    pub value: Option<MapValue>,
    pub qualified_name: Option<Seq<char>>,
}

/// A nested `DescriptorProto` without any field.
pub open spec fn nested_empty() -> NestedView {
    NestedView {
        name: Seq::empty(),
        is_map_entry: false,
        key: None,
        value: None,
        qualified_name: None,
    }
}

/// A nested `DescriptorProto` after the declaration of one of its fields: the
/// key has number 1, the value number 2.
pub open spec fn nested_with_field(nested: NestedView, raw: RawView) -> Result<
    NestedView,
    ParseError,
> {
    match raw.type_code {
        None => Err(ParseError::MissingType),
        Some(type_code) => if raw.number == 1 {
            Ok(NestedView { key: scalar_numbered(type_code), ..nested })
        } else if raw.number == 2 {
            match map_value_of(type_code, raw.reference) {
                Err(error) => Err(error),
                Ok(value) => Ok(
                    NestedView {
                        value: Some(value),
                        qualified_name: if value == MapValue::Timestamp || value
                            == MapValue::Duration {
                            None
                        } else {
                            undotted_reference(raw.reference)
                        },
                        ..nested
                    },
                ),
            }
        } else {
            Ok(nested)
        },
    }
}

/// A nested `DescriptorProto` after one more wire field.
pub open spec fn nested_with(nested: NestedView, field: WireField) -> Result<
    NestedView,
    ParseError,
> {
    match field.payload {
        Payload::Len(bytes) => if field.number == 1 {
            match text_of(bytes) {
                None => Err(ParseError::InvalidUtf8),
                Some(name) => Ok(NestedView { name, ..nested }),
            }
        } else if field.number == 2 {
            match raw_in(bytes, raw_empty()) {
                Err(error) => Err(error),
                Ok(raw) => nested_with_field(nested, raw),
            }
        } else if field.number == 7 {
            match map_entry_in(bytes, nested.is_map_entry) {
                Err(error) => Err(error),
                Ok(is_map_entry) => Ok(NestedView { is_map_entry, ..nested }),
            }
        } else {
            Ok(nested)
        },
        _ => Ok(nested),
    }
}

/// A nested `DescriptorProto` after the fields of `s`.
pub open spec fn nested_in(s: Seq<u8>, nested: NestedView) -> Result<NestedView, ParseError>
    decreases s.len(),
{
    if s.len() == 0 {
        Ok(nested)
    } else {
        proof {
            lemma_field_used(s);
        }
        match field_in(s).result {
            Err(error) => Err(ParseError::Wire(error)),
            Ok(field) => match nested_with(nested, field) {
                Err(error) => Err(error),
                Ok(nested) => nested_in(s.skip(field_in(s).used as int), nested),
            },
        }
    }
}

/// The map entry that a nested `DescriptorProto` is, if it is one. Key and value
/// are strings where nothing says otherwise.
pub open spec fn entry_of(nested: NestedView) -> Option<(Seq<char>, EntryView)> {
    if nested.is_map_entry {
        Some(
            (
                nested.name,
                EntryView {
                    key: match nested.key {
                        Some(key) => key,
                        None => ScalarType::String,
                    },
                    value: match nested.value {
                        Some(value) => value,
                        None => MapValue::Scalar(ScalarType::String),
                    },
                    qualified_name: nested.qualified_name,
                },
            ),
        )
    } else {
        None
    }
}

/// A `DescriptorProto`, as far as it has been read.
pub struct DraftView {
    pub name: Seq<char>,
    pub fields: Seq<RawView>,
    pub entries: Seq<(Seq<char>, EntryView)>,
    pub oneofs: Seq<Seq<char>>,
}

/// A `DescriptorProto` without any field.
pub open spec fn draft_empty() -> DraftView {
    DraftView {
        name: Seq::empty(),
        fields: Seq::empty(),
        entries: Seq::empty(),
        oneofs: Seq::empty(),
    }
}

/// A `DescriptorProto` after one more wire field.
pub open spec fn draft_with(draft: DraftView, field: WireField) -> Result<DraftView, ParseError> {
    match field.payload {
        Payload::Len(bytes) => if field.number == 1 {
            match text_of(bytes) {
                None => Err(ParseError::InvalidUtf8),
                Some(name) => Ok(DraftView { name, ..draft }),
            }
        } else if field.number == 2 {
            match raw_in(bytes, raw_empty()) {
                Err(error) => Err(error),
                Ok(raw) => Ok(DraftView { fields: draft.fields.push(raw), ..draft }),
            }
        } else if field.number == 3 {
            match nested_in(bytes, nested_empty()) {
                Err(error) => Err(error),
                Ok(nested) => match entry_of(nested) {
                    Some(entry) => Ok(DraftView { entries: draft.entries.push(entry), ..draft }),
                    None => Ok(draft),
                },
            }
        } else if field.number == 8 {
            match oneof_name_in(bytes, Seq::empty()) {
                Err(error) => Err(error),
                Ok(name) => Ok(DraftView { oneofs: draft.oneofs.push(name), ..draft }),
            }
        } else {
            Ok(draft)
        },
        _ => Ok(draft),
    }
}

/// A `DescriptorProto` after the fields of `s`.
pub open spec fn draft_in(s: Seq<u8>, draft: DraftView) -> Result<DraftView, ParseError>
    decreases s.len(),
{
    if s.len() == 0 {
        Ok(draft)
    } else {
        proof {
            lemma_field_used(s);
        }
        match field_in(s).result {
            Err(error) => Err(ParseError::Wire(error)),
            Ok(field) => match draft_with(draft, field) {
                Err(error) => Err(error),
                Ok(draft) => draft_in(s.skip(field_in(s).used as int), draft),
            },
        }
    }
}

/// The last of the map entries with the given name.
pub open spec fn entry_named(entries: Seq<(Seq<char>, EntryView)>, name: Seq<char>) -> Option<
    EntryView,
>
    decreases entries.len(),
{
    if entries.len() == 0 {
        None
    } else if entries.last().0 == name {
        Some(entries.last().1)
    } else {
        entry_named(entries.drop_last(), name)
    }
}

/// The map entry that a field refers to: a repeated message whose type is a
/// map entry nested in this very message.
pub open spec fn entry_referred(
    raw: RawView,
    type_code: i64,
    entries: Seq<(Seq<char>, EntryView)>,
    message: Seq<char>,
) -> Option<EntryView> {
    match raw.reference {
        Some(reference) => if raw.label == LABEL_REPEATED && type_code == TYPE_MESSAGE
            && parent_segment(reference) == Some(message) {
            entry_named(entries, last_segment(reference))
        } else {
            None
        },
        None => None,
    }
}

/// The kind of a field that is no map.
pub open spec fn kind_of(type_code: i64, reference: Option<Seq<char>>) -> Result<
    FieldKind,
    ParseError,
> {
    if type_code == TYPE_ENUM {
        Ok(FieldKind::Enum)
    } else if type_code == TYPE_MESSAGE {
        if is_timestamp(reference) {
            Ok(FieldKind::Timestamp)
        } else if is_duration(reference) {
            Ok(FieldKind::Duration)
        } else {
            Ok(FieldKind::Message)
        }
    } else {
        match scalar_numbered(type_code) {
            Some(scalar) => Ok(FieldKind::Scalar(scalar)),
            None => Err(unsupported(type_code)),
        }
    }
}

/// The oneof group of a field: a proto3 `optional` is in a synthetic group only.
pub open spec fn real_oneof(raw: RawView) -> Option<u32> {
    if raw.proto3_optional {
        None
    } else {
        raw.oneof_index
    }
}

/// The cardinality of a field that is no map.
pub open spec fn label_of(raw: RawView, kind: FieldKind) -> Label {
    if raw.label == LABEL_REPEATED {
        Label::Repeated
    } else if raw.proto3_optional || kind == FieldKind::Message || kind == FieldKind::Timestamp
        || kind == FieldKind::Duration || real_oneof(raw) is Some {
        Label::Optional
    } else {
        Label::Single
    }
}

/// What a raw field of the given message means.
pub open spec fn interpreted(
    raw: RawView,
    entries: Seq<(Seq<char>, EntryView)>,
    message: Seq<char>,
) -> Result<FieldView, ParseError> {
    match raw.type_code {
        None => Err(ParseError::MissingType),
        Some(type_code) => match entry_referred(raw, type_code, entries, message) {
            Some(entry) => Ok(
                FieldView {
                    number: raw.number,
                    name: raw.name,
                    kind: FieldKind::MapOf { key: entry.key, value: entry.value },
                    label: Label::Single,
                    qualified_name: entry.qualified_name,
                    oneof_index: None,
                },
            ),
            None => match kind_of(type_code, raw.reference) {
                Err(error) => Err(error),
                Ok(kind) => Ok(
                    FieldView {
                        number: raw.number,
                        name: raw.name,
                        kind,
                        label: label_of(raw, kind),
                        qualified_name: if kind == FieldKind::Enum || kind == FieldKind::Message {
                            undotted_reference(raw.reference)
                        } else {
                            None
                        },
                        oneof_index: real_oneof(raw),
                    },
                ),
            },
        },
    }
}

/// What the first `n` fields of a draft mean, or the first error among them.
pub open spec fn interpreted_upto(draft: DraftView, n: nat) -> Result<Seq<FieldView>, ParseError>
    decreases n,
{
    if n == 0 {
        Ok(Seq::empty())
    } else {
        match interpreted_upto(draft, (n - 1) as nat) {
            Err(error) => Err(error),
            Ok(fields) => match interpreted(draft.fields[n - 1], draft.entries, draft.name) {
                Err(error) => Err(error),
                Ok(field) => Ok(fields.push(field)),
            },
        }
    }
}

/// Whether a oneof index is that of the given group.
pub open spec fn in_group(oneof_index: Option<u32>, group: int) -> bool {
    oneof_index matches Some(index) && index == group
}

/// Whether some field is a real member of the oneof group.
pub open spec fn has_member(fields: Seq<FieldView>, group: int) -> bool {
    exists|i: int| 0 <= i < fields.len() && in_group((#[trigger] fields[i]).oneof_index, group)
}

/// Whether some proto3 `optional` names the oneof group as its own.
pub open spec fn has_optional(raws: Seq<RawView>, group: int) -> bool {
    exists|i: int|
        0 <= i < raws.len() && (#[trigger] raws[i]).proto3_optional && in_group(
            raws[i].oneof_index,
            group,
        )
}

/// Whether a oneof group is one that protoc made for a proto3 `optional`: it
/// has that field and no real member.
pub open spec fn is_synthetic(raws: Seq<RawView>, fields: Seq<FieldView>, group: int) -> bool {
    has_optional(raws, group) && !has_member(fields, group)
}

/// The names of the real ones among the first `n` declared oneof groups.
pub open spec fn real_oneofs(
    names: Seq<Seq<char>>,
    raws: Seq<RawView>,
    fields: Seq<FieldView>,
    n: nat,
) -> Seq<Seq<char>>
    decreases n,
{
    if n == 0 {
        Seq::empty()
    } else {
        let before = real_oneofs(names, raws, fields, (n - 1) as nat);
        if is_synthetic(raws, fields, n - 1) {
            before
        } else {
            before.push(names[n - 1])
        }
    }
}

/// A field with its oneof group counted among the real ones. A group that was
/// never declared is dropped.
pub open spec fn settled(
    names: Seq<Seq<char>>,
    raws: Seq<RawView>,
    fields: Seq<FieldView>,
    field: FieldView,
) -> FieldView {
    FieldView {
        oneof_index: match field.oneof_index {
            Some(group) => if group < names.len() {
                Some(real_oneofs(names, raws, fields, group as nat).len() as u32)
            } else {
                None
            },
            None => None,
        },
        ..field
    }
}

/// The descriptor that a draft stands for.
pub open spec fn described(draft: DraftView) -> Result<MessageDescriptorView, ParseError> {
    match interpreted_upto(draft, draft.fields.len()) {
        Err(error) => Err(error),
        Ok(fields) => Ok(
            MessageDescriptorView {
                name: draft.name,
                fields: Seq::new(
                    fields.len(),
                    |i: int| settled(draft.oneofs, draft.fields, fields, fields[i]),
                ),
                oneofs: real_oneofs(draft.oneofs, draft.fields, fields, draft.oneofs.len()),
            },
        ),
    }
}

/// The descriptor that `DescriptorProto` bytes stand for.
pub open spec fn descriptor_in(bytes: Seq<u8>) -> Result<MessageDescriptorView, ParseError> {
    match draft_in(bytes, draft_empty()) {
        Err(error) => Err(error),
        Ok(draft) => described(draft),
    }
}

// ---------------------------------------------------------------------------
// Parsing
// ---------------------------------------------------------------------------

fn scalar_from_proto_type(type_code: i64) -> (scalar: Option<ScalarType>)
    ensures
        scalar == scalar_numbered(type_code),
{
    match type_code {
        1 => Some(ScalarType::Double),
        2 => Some(ScalarType::Float),
        3 => Some(ScalarType::Int64),
        4 => Some(ScalarType::UInt64),
        5 => Some(ScalarType::Int32),
        6 => Some(ScalarType::Fixed64),
        7 => Some(ScalarType::Fixed32),
        8 => Some(ScalarType::Bool),
        9 => Some(ScalarType::String),
        12 => Some(ScalarType::Bytes),
        13 => Some(ScalarType::UInt32),
        15 => Some(ScalarType::SFixed32),
        16 => Some(ScalarType::SFixed64),
        17 => Some(ScalarType::SInt32),
        18 => Some(ScalarType::SInt64),
        _ => None,
    }
}

fn unsupported_type(type_code: i64) -> (error: ParseError)
    ensures
        error == unsupported(type_code),
{
    ParseError::UnsupportedType(wire::bits_to_i32(wire::low_u32(wire::i64_to_bits(type_code))))
}

fn read_tag(reader: &mut Reader<'_>) -> (tag: Result<(u32, WireType), ParseError>)
    ensures
        match wire::tag_in(old(reader).rest()).result {
            Ok(expected) => tag == Ok::<(u32, WireType), ParseError>(expected),
            Err(error) => tag == Err::<(u32, WireType), ParseError>(ParseError::Wire(error)),
        },
        old(reader).advanced(final(reader), wire::tag_in(old(reader).rest()).used),
{
    match reader.read_tag() {
        Ok(tag) => Ok(tag),
        Err(error) => Err(ParseError::from(error)),
    }
}

fn read_varint(reader: &mut Reader<'_>) -> (value: Result<u64, ParseError>)
    ensures
        match wire::varint_in(old(reader).rest()).result {
            Ok(expected) => value == Ok::<u64, ParseError>(expected),
            Err(error) => value == Err::<u64, ParseError>(ParseError::Wire(error)),
        },
        old(reader).advanced(final(reader), wire::varint_in(old(reader).rest()).used),
{
    match reader.read_varint() {
        Ok(value) => Ok(value),
        Err(error) => Err(ParseError::from(error)),
    }
}

fn read_chunk<'a>(reader: &mut Reader<'a>) -> (chunk: Result<&'a [u8], ParseError>)
    ensures
        match chunk_in(old(reader).rest()).result {
            Ok(expected) => chunk matches Ok(data) && data@ == expected,
            Err(error) => chunk matches Err(failure) && failure == ParseError::Wire(error),
        },
        old(reader).advanced(final(reader), chunk_in(old(reader).rest()).used),
{
    match reader.read_len_delimited() {
        Ok(chunk) => Ok(chunk),
        Err(error) => Err(ParseError::from(error)),
    }
}

fn skip(reader: &mut Reader<'_>, wire_type: WireType) -> (skipped: Result<(), ParseError>)
    ensures
        match wire::payload_in(old(reader).rest(), wire_type).result {
            Ok(_) => skipped is Ok,
            Err(error) => skipped == Err::<(), ParseError>(ParseError::Wire(error)),
        },
        old(reader).advanced(final(reader), wire::payload_in(old(reader).rest(), wire_type).used),
{
    match reader.skip(wire_type) {
        Ok(()) => Ok(()),
        Err(error) => Err(ParseError::from(error)),
    }
}

fn read_string(reader: &mut Reader<'_>) -> (text: Result<String, ParseError>)
    ensures
        match chunk_in(old(reader).rest()).result {
            Err(error) => text matches Err(failure) && failure == ParseError::Wire(error),
            Ok(bytes) => match text_of(bytes) {
                None => text matches Err(failure) && failure == ParseError::InvalidUtf8,
                Some(expected) => text matches Ok(text) && text@ == expected,
            },
        },
        old(reader).advanced(final(reader), chunk_in(old(reader).rest()).used),
{
    let bytes = read_chunk(reader)?;
    match decode_text(bytes) {
        Some(text) => Ok(text),
        None => Err(ParseError::InvalidUtf8),
    }
}

/// Raw fields collected from a `FieldDescriptorProto` before interpretation.
struct RawField {
    name: String,
    number: u32,
    label: i64,
    type_code: Option<i64>,
    reference: Option<String>,
    oneof_index: Option<u32>,
    proto3_optional: bool,
}

impl View for RawField {
    type V = RawView;

    closed spec fn view(&self) -> RawView {
        RawView {
            name: self.name@,
            number: self.number,
            label: self.label,
            type_code: self.type_code,
            reference: text_view(self.reference),
            oneof_index: self.oneof_index,
            proto3_optional: self.proto3_optional,
        }
    }
}

#[verifier::rlimit(30)]
fn parse_raw_field(bytes: &[u8]) -> (raw: Result<RawField, ParseError>)
    ensures
        match raw {
            Ok(raw) => raw_in(bytes@, raw_empty()) == Ok::<RawView, ParseError>(raw@),
            Err(error) => raw_in(bytes@, raw_empty()) == Err::<RawView, ParseError>(error),
        },
{
    let mut reader = Reader::new(bytes);
    let mut raw = RawField {
        name: String::new(),
        number: 0,
        label: 0,
        type_code: None,
        reference: None,
        oneof_index: None,
        proto3_optional: false,
    };
    while !reader.is_empty()
        invariant
            raw_in(reader.rest(), raw@) == raw_in(bytes@, raw_empty()),
        decreases reader.rest().len(),
    {
        let ghost start = reader.rest();
        proof {
            lemma_field_used(start);
        }
        let (number, wire_type) = read_tag(&mut reader)?;
        match (number, wire_type) {
            (1, WireType::Len) => {
                raw.name = read_string(&mut reader)?;
            },
            (3, WireType::Varint) => {
                raw.number = wire::low_u32(read_varint(&mut reader)?);
            },
            (4, WireType::Varint) => {
                raw.label = wire::bits_to_i64(read_varint(&mut reader)?);
            },
            (5, WireType::Varint) => {
                raw.type_code = Some(wire::bits_to_i64(read_varint(&mut reader)?));
            },
            (6, WireType::Len) => {
                raw.reference = Some(read_string(&mut reader)?);
            },
            (9, WireType::Varint) => {
                raw.oneof_index = Some(wire::low_u32(read_varint(&mut reader)?));
            },
            (17, WireType::Varint) => {
                raw.proto3_optional = read_varint(&mut reader)? != 0;
            },
            (_, wire_type) => {
                skip(&mut reader, wire_type)?;
            },
        }
        proof {
            assert(reader.rest() =~= start.skip(field_in(start).used as int));
        }
    }
    Ok(raw)
}

/// Whether `MessageOptions` bytes mark a map entry (field 7, bool).
fn parse_map_entry_option(bytes: &[u8], marked: bool) -> (is_map_entry: Result<bool, ParseError>)
    ensures
        is_map_entry == map_entry_in(bytes@, marked),
{
    let mut reader = Reader::new(bytes);
    let mut is_map_entry: bool = marked;
    while !reader.is_empty()
        invariant
            map_entry_in(reader.rest(), is_map_entry) == map_entry_in(bytes@, marked),
        decreases reader.rest().len(),
    {
        let ghost start = reader.rest();
        proof {
            lemma_field_used(start);
        }
        let (number, wire_type) = read_tag(&mut reader)?;
        if number == 7 && wire_type == WireType::Varint {
            is_map_entry = read_varint(&mut reader)? != 0;
        } else {
            skip(&mut reader, wire_type)?;
        }
        proof {
            assert(reader.rest() =~= start.skip(field_in(start).used as int));
        }
    }
    Ok(is_map_entry)
}

/// The name in `OneofDescriptorProto` bytes (field 1).
fn parse_oneof_name(bytes: &[u8]) -> (name: Result<String, ParseError>)
    ensures
        match name {
            Ok(name) => oneof_name_in(bytes@, Seq::empty()) == Ok::<Seq<char>, ParseError>(name@),
            Err(error) => oneof_name_in(bytes@, Seq::empty()) == Err::<Seq<char>, ParseError>(
                error,
            ),
        },
{
    let mut reader = Reader::new(bytes);
    let mut name = String::new();
    while !reader.is_empty()
        invariant
            oneof_name_in(reader.rest(), name@) == oneof_name_in(bytes@, Seq::empty()),
        decreases reader.rest().len(),
    {
        let ghost start = reader.rest();
        proof {
            lemma_field_used(start);
        }
        let (number, wire_type) = read_tag(&mut reader)?;
        if number == 1 && wire_type == WireType::Len {
            name = read_string(&mut reader)?;
        } else {
            skip(&mut reader, wire_type)?;
        }
        proof {
            assert(reader.rest() =~= start.skip(field_in(start).used as int));
        }
    }
    Ok(name)
}

/// Whether a type reference is the given name.
fn refers_to(reference: &Option<String>, name: &str) -> (same: bool)
    ensures
        same == (text_view(*reference) == Some(name@)),
{
    match reference {
        Some(reference) => *reference == name.to_owned(),
        None => false,
    }
}

/// A type reference, without the leading dot.
fn full_reference(reference: &Option<String>) -> (name: Option<String>)
    ensures
        text_view(name) == undotted_reference(text_view(*reference)),
{
    match reference {
        Some(reference) => Some(full_name(reference.as_str())),
        None => None,
    }
}

fn copy_text(text: &Option<String>) -> (copy: Option<String>)
    ensures
        text_view(copy) == text_view(*text),
{
    match text {
        Some(text) => Some(text.clone()),
        None => None,
    }
}

/// A nested `*Entry` type generated for a `map<K, V>` field.
struct MapEntry {
    key: ScalarType,
    value: MapValue,
    /// Full type name of the value when it is a message/enum.
    qualified_name: Option<String>,
}

impl View for MapEntry {
    type V = EntryView;

    closed spec fn view(&self) -> EntryView {
        EntryView {
            key: self.key,
            value: self.value,
            qualified_name: text_view(self.qualified_name),
        }
    }
}

/// The value type of a map whose entry's value is declared by `raw`.
fn map_value_type(type_code: i64, reference: &Option<String>) -> (value: Result<
    MapValue,
    ParseError,
>)
    ensures
        value == map_value_of(type_code, text_view(*reference)),
{
    if type_code == TYPE_ENUM {
        Ok(MapValue::Enum)
    } else if type_code == TYPE_MESSAGE {
        if refers_to(reference, ".google.protobuf.Timestamp") {
            Ok(MapValue::Timestamp)
        } else if refers_to(reference, ".google.protobuf.Duration") {
            Ok(MapValue::Duration)
        } else {
            Ok(MapValue::Message)
        }
    } else {
        match scalar_from_proto_type(type_code) {
            Some(scalar) => Ok(MapValue::Scalar(scalar)),
            None => Err(unsupported_type(type_code)),
        }
    }
}

spec fn nested_view(
    name: String,
    is_map_entry: bool,
    key: Option<ScalarType>,
    value: Option<MapValue>,
    qualified_name: Option<String>,
) -> NestedView {
    NestedView {
        name: name@,
        is_map_entry,
        key,
        value,
        qualified_name: text_view(qualified_name),
    }
}

/// Parse a nested `DescriptorProto`, returning a map entry if it is one.
fn parse_nested_map_entry(bytes: &[u8]) -> (entry: Result<Option<(String, MapEntry)>, ParseError>)
    ensures
        match nested_in(bytes@, nested_empty()) {
            Err(error) => entry matches Err(failure) && failure == error,
            Ok(nested) => match entry_of(nested) {
                None => entry matches Ok(None),
                Some(expected) => entry matches Ok(Some(entry)) && entry.0@ == expected.0
                    && entry.1@ == expected.1,
            },
        },
{
    let mut reader = Reader::new(bytes);
    let mut name = String::new();
    let mut is_map_entry: bool = false;
    let mut key: Option<ScalarType> = None;
    let mut value: Option<MapValue> = None;
    let mut qualified_name: Option<String> = None;

    while !reader.is_empty()
        invariant
            nested_in(
                reader.rest(),
                nested_view(name, is_map_entry, key, value, qualified_name),
            ) == nested_in(bytes@, nested_empty()),
        decreases reader.rest().len(),
    {
        let ghost start = reader.rest();
        proof {
            lemma_field_used(start);
        }
        let (number, wire_type) = read_tag(&mut reader)?;
        match (number, wire_type) {
            (1, WireType::Len) => {
                name = read_string(&mut reader)?;
            },
            (2, WireType::Len) => {
                // A field of the entry: key (number 1) or value (number 2).
                let raw = parse_raw_field(read_chunk(&mut reader)?)?;
                let type_code: i64 = match raw.type_code {
                    Some(type_code) => type_code,
                    None => {
                        return Err(ParseError::MissingType);
                    },
                };
                if raw.number == 1 {
                    key = scalar_from_proto_type(type_code);
                } else if raw.number == 2 {
                    let map_value = map_value_type(type_code, &raw.reference)?;
                    value = Some(map_value);
                    qualified_name =
                    if map_value == MapValue::Timestamp || map_value == MapValue::Duration {
                        None
                    } else {
                        full_reference(&raw.reference)
                    };
                }
            },
            (7, WireType::Len) => {
                is_map_entry = parse_map_entry_option(read_chunk(&mut reader)?, is_map_entry)?;
            },
            (_, wire_type) => {
                skip(&mut reader, wire_type)?;
            },
        }
        proof {
            assert(reader.rest() =~= start.skip(field_in(start).used as int));
        }
    }

    if is_map_entry {
        let key = match key {
            Some(key) => key,
            None => ScalarType::String,
        };
        let value = match value {
            Some(value) => value,
            None => MapValue::Scalar(ScalarType::String),
        };
        Ok(Some((name, MapEntry { key, value, qualified_name })))
    } else {
        Ok(None)
    }
}

/// The map entries of a message, as they were declared.
spec fn entries_view(entries: Seq<(String, MapEntry)>) -> Seq<(Seq<char>, EntryView)> {
    Seq::new(entries.len(), |i: int| (entries[i].0@, entries[i].1@))
}

/// The map entry with the given name; a later declaration replaces an earlier
/// one.
fn find_entry<'a>(entries: &'a Vec<(String, MapEntry)>, name: &String) -> (entry: Option<
    &'a MapEntry,
>)
    ensures
        match entry {
            Some(entry) => entry_named(entries_view(entries@), name@) == Some(entry@),
            None => entry_named(entries_view(entries@), name@) is None,
        },
{
    let mut i: usize = entries.len();
    let ghost all = entries_view(entries@);
    proof {
        assert(all.take(i as int) =~= all);
    }
    while i > 0
        invariant
            i <= entries@.len(),
            all == entries_view(entries@),
            entry_named(all, name@) == entry_named(all.take(i as int), name@),
        decreases i,
    {
        i = i - 1;
        proof {
            assert(all.take(i as int + 1).drop_last() =~= all.take(i as int));
            assert(all.take(i as int + 1).last() == all[i as int]);
        }
        if entries[i].0 == *name {
            return Some(&entries[i].1);
        }
    }
    None
}

/// The kind of a field that is no map.
fn field_kind(type_code: i64, reference: &Option<String>) -> (kind: Result<FieldKind, ParseError>)
    ensures
        kind == kind_of(type_code, text_view(*reference)),
{
    if type_code == TYPE_ENUM {
        Ok(FieldKind::Enum)
    } else if type_code == TYPE_MESSAGE {
        // Native well-known types: no Python class to link.
        if refers_to(reference, ".google.protobuf.Timestamp") {
            Ok(FieldKind::Timestamp)
        } else if refers_to(reference, ".google.protobuf.Duration") {
            Ok(FieldKind::Duration)
        } else {
            Ok(FieldKind::Message)
        }
    } else if type_code == TYPE_GROUP {
        Err(unsupported_type(TYPE_GROUP))
    } else {
        match scalar_from_proto_type(type_code) {
            Some(scalar) => Ok(FieldKind::Scalar(scalar)),
            None => Err(unsupported_type(type_code)),
        }
    }
}

/// Turn a raw field plus the message's map-entry table into a
/// [`FieldDescriptor`].
fn interpret_field(raw: &RawField, entries: &Vec<(String, MapEntry)>, message: &String) -> (field:
    Result<FieldDescriptor, ParseError>)
    ensures
        match field {
            Ok(field) => interpreted(raw@, entries_view(entries@), message@) == Ok::<
                FieldView,
                ParseError,
            >(field@),
            Err(error) => interpreted(raw@, entries_view(entries@), message@) == Err::<
                FieldView,
                ParseError,
            >(error),
        },
{
    let type_code: i64 = match raw.type_code {
        Some(type_code) => type_code,
        None => {
            return Err(ParseError::MissingType);
        },
    };
    let is_repeated: bool = raw.label == LABEL_REPEATED;

    // Detect maps: a repeated message whose type is a nested map entry. The
    // synthetic entry is nested in *this* message, so its full name ends in
    // `.<message>.<EntryName>`. Checking the parent segment guards against a
    // real sibling type that merely shares the entry's short name.
    if is_repeated && type_code == TYPE_MESSAGE {
        if let Some(full) = &raw.reference {
            let parent_is_this: bool = match parent_name(full.as_str()) {
                Some(parent) => parent == *message,
                None => false,
            };
            if parent_is_this {
                if let Some(entry) = find_entry(entries, &short_name(full.as_str())) {
                    return Ok(
                        FieldDescriptor {
                            number: raw.number,
                            name: raw.name.clone(),
                            kind: FieldKind::MapOf { key: entry.key, value: entry.value },
                            label: Label::Single,
                            qualified_name: copy_text(&entry.qualified_name),
                            oneof_index: None,
                        },
                    );
                }
            }
        }
    }
    let kind: FieldKind = field_kind(type_code, &raw.reference)?;
    let qualified_name: Option<String> = if kind == FieldKind::Enum || kind == FieldKind::Message {
        full_reference(&raw.reference)
    } else {
        None
    };

    // A real oneof member has an index and is not a proto3 `optional`
    // (which protoc models with a synthetic single-member oneof).
    let real_oneof: Option<u32> = if raw.proto3_optional {
        None
    } else {
        raw.oneof_index
    };
    let label: Label = if is_repeated {
        Label::Repeated
    } else if raw.proto3_optional || kind == FieldKind::Message || kind == FieldKind::Timestamp
        || kind == FieldKind::Duration || real_oneof.is_some() {
        Label::Optional
    } else {
        Label::Single
    };
    Ok(
        FieldDescriptor {
            number: raw.number,
            name: raw.name.clone(),
            kind,
            label,
            qualified_name,
            oneof_index: real_oneof,
        },
    )
}

/// A `DescriptorProto`, as far as it has been read.
struct Draft {
    name: String,
    fields: Vec<RawField>,
    entries: Vec<(String, MapEntry)>,
    oneofs: Vec<String>,
}

spec fn raws_view(raws: Seq<RawField>) -> Seq<RawView> {
    Seq::new(raws.len(), |i: int| raws[i]@)
}

impl View for Draft {
    type V = DraftView;

    closed spec fn view(&self) -> DraftView {
        DraftView {
            name: self.name@,
            fields: raws_view(self.fields@),
            entries: entries_view(self.entries@),
            oneofs: names_view(self.oneofs@),
        }
    }
}

/// Read the wire fields of a `DescriptorProto`.
fn parse_draft(bytes: &[u8]) -> (draft: Result<Draft, ParseError>)
    ensures
        match draft {
            Ok(draft) => draft_in(bytes@, draft_empty()) == Ok::<DraftView, ParseError>(draft@),
            Err(error) => draft_in(bytes@, draft_empty()) == Err::<DraftView, ParseError>(error),
        },
{
    let mut reader = Reader::new(bytes);
    let mut draft = Draft {
        name: String::new(),
        fields: Vec::new(),
        entries: Vec::new(),
        oneofs: Vec::new(),
    };
    proof {
        assert(draft@.fields =~= Seq::<RawView>::empty());
        assert(draft@.entries =~= Seq::<(Seq<char>, EntryView)>::empty());
        assert(draft@.oneofs =~= Seq::<Seq<char>>::empty());
    }
    while !reader.is_empty()
        invariant
            draft_in(reader.rest(), draft@) == draft_in(bytes@, draft_empty()),
        decreases reader.rest().len(),
    {
        let ghost start = reader.rest();
        let ghost before = draft@;
        proof {
            lemma_field_used(start);
        }
        let (number, wire_type) = read_tag(&mut reader)?;
        match (number, wire_type) {
            (1, WireType::Len) => {
                draft.name = read_string(&mut reader)?;
            },
            (2, WireType::Len) => {
                let raw = parse_raw_field(read_chunk(&mut reader)?)?;
                draft.fields.push(raw);
                proof {
                    assert(draft@.fields =~= before.fields.push(raw@));
                }
            },
            (3, WireType::Len) => {
                let nested = read_chunk(&mut reader)?;
                if let Some(entry) = parse_nested_map_entry(nested)? {
                    let ghost pair = (entry.0@, entry.1@);
                    draft.entries.push(entry);
                    proof {
                        assert(draft@.entries =~= before.entries.push(pair));
                    }
                }
            },
            (8, WireType::Len) => {
                let name = parse_oneof_name(read_chunk(&mut reader)?)?;
                draft.oneofs.push(name);
                proof {
                    assert(draft@.oneofs =~= before.oneofs.push(name@));
                }
            },
            (_, wire_type) => {
                skip(&mut reader, wire_type)?;
            },
        }
        proof {
            assert(reader.rest() =~= start.skip(field_in(start).used as int));
        }
    }
    Ok(draft)
}

/// Interpret every field of a draft.
fn interpret_fields(draft: &Draft) -> (fields: Result<Vec<FieldDescriptor>, ParseError>)
    ensures
        match fields {
            Ok(fields) => interpreted_upto(draft@, draft@.fields.len()) == Ok::<
                Seq<FieldView>,
                ParseError,
            >(fields_view(fields@)),
            Err(error) => interpreted_upto(draft@, draft@.fields.len()) == Err::<
                Seq<FieldView>,
                ParseError,
            >(error),
        },
{
    let mut fields: Vec<FieldDescriptor> = Vec::new();
    let mut i: usize = 0;
    proof {
        assert(fields_view(fields@) =~= Seq::<FieldView>::empty());
    }
    while i < draft.fields.len()
        invariant
            i <= draft.fields@.len(),
            interpreted_upto(draft@, i as nat) == Ok::<Seq<FieldView>, ParseError>(
                fields_view(fields@),
            ),
        decreases draft.fields@.len() - i,
    {
        let ghost before = fields_view(fields@);
        let field = match interpret_field(&draft.fields[i], &draft.entries, &draft.name) {
            Ok(field) => field,
            Err(error) => {
                proof {
                    lemma_interpreted_error(draft@, i as nat + 1, draft@.fields.len());
                }
                return Err(error);
            },
        };
        fields.push(field);
        proof {
            assert(fields_view(fields@) =~= before.push(field@));
        }
        i = i + 1;
    }
    Ok(fields)
}

/// An error in one field is the error of all that follow.
proof fn lemma_interpreted_error(draft: DraftView, n: nat, m: nat)
    requires
        n <= m,
        interpreted_upto(draft, n) is Err,
    ensures
        interpreted_upto(draft, m) == interpreted_upto(draft, n),
    decreases m - n,
{
    if n < m {
        lemma_interpreted_error(draft, n, (m - 1) as nat);
    }
}

/// Whether the declared oneof group was made for a proto3 `optional`.
fn group_is_synthetic(raws: &Vec<RawField>, fields: &Vec<FieldDescriptor>, group: usize) -> (
    synthetic: bool)
    ensures
        synthetic == is_synthetic(raws_view(raws@), fields_view(fields@), group as int),
{
    let ghost raw_views = raws_view(raws@);
    let ghost field_views = fields_view(fields@);
    let mut i: usize = 0;
    while i < fields.len()
        invariant
            i <= fields@.len(),
            field_views == fields_view(fields@),
            forall|j: int| 0 <= j < i ==> !in_group((#[trigger] field_views[j]).oneof_index, group as int),
        decreases fields@.len() - i,
    {
        if let Some(index) = fields[i].oneof_index {
            if index as usize == group {
                proof {
                    assert(in_group(field_views[i as int].oneof_index, group as int));
                }
                return false;
            }
        }
        i = i + 1;
    }
    let mut k: usize = 0;
    while k < raws.len()
        invariant
            k <= raws@.len(),
            raw_views == raws_view(raws@),
            field_views == fields_view(fields@),
            !has_member(field_views, group as int),
            forall|j: int|
                0 <= j < k ==> !((#[trigger] raw_views[j]).proto3_optional && in_group(
                    raw_views[j].oneof_index,
                    group as int,
                )),
        decreases raws@.len() - k,
    {
        if raws[k].proto3_optional {
            if let Some(index) = raws[k].oneof_index {
                if index as usize == group {
                    proof {
                        assert(raw_views[k as int].proto3_optional);
                    }
                    return true;
                }
            }
        }
        k = k + 1;
    }
    false
}

proof fn lemma_real_oneofs_len(
    names: Seq<Seq<char>>,
    raws: Seq<RawView>,
    fields: Seq<FieldView>,
    n: nat,
    m: nat,
)
    requires
        n <= m,
    ensures
        real_oneofs(names, raws, fields, n).len() <= n,
        real_oneofs(names, raws, fields, n).len() <= real_oneofs(names, raws, fields, m).len(),
        n < m && !is_synthetic(raws, fields, n as int) ==> {
            &&& real_oneofs(names, raws, fields, n).len() < real_oneofs(names, raws, fields, m).len()
            &&& real_oneofs(names, raws, fields, m)[real_oneofs(names, raws, fields, n).len() as int]
                == names[n as int]
        },
    decreases m,
{
    if n < m {
        lemma_real_oneofs_len(names, raws, fields, n, (m - 1) as nat);
    } else if n > 0 {
        lemma_real_oneofs_len(names, raws, fields, (n - 1) as nat, (n - 1) as nat);
    }
}

/// Parse a `DescriptorProto` into a [`MessageDescriptor`].
pub fn parse_message(bytes: &[u8]) -> (message: Result<MessageDescriptor, ParseError>)
    ensures
        match message {
            Ok(message) => descriptor_in(bytes@) == Ok::<MessageDescriptorView, ParseError>(
                message@,
            ),
            Err(error) => descriptor_in(bytes@) == Err::<MessageDescriptorView, ParseError>(error),
        },
        message matches Ok(message) ==> forall|i: int|
            0 <= i < message.fields@.len() ==> ((#[trigger] message.fields@[i]).oneof_index matches
                Some(group) ==> group < message.oneofs@.len()),
{
    let draft = parse_draft(bytes)?;
    let mut fields = interpret_fields(&draft)?;
    let ghost raws = raws_view(draft.fields@);
    let ghost names = names_view(draft.oneofs@);
    let ghost views = fields_view(fields@);

    // The groups that protoc made for proto3 `optional` are no groups of the
    // message: count the others, and keep their names.
    let mut oneofs: Vec<String> = Vec::new();
    let mut position: Vec<usize> = Vec::new();
    let mut group: usize = 0;
    proof {
        assert(names_view(oneofs@) =~= Seq::<Seq<char>>::empty());
    }
    while group < draft.oneofs.len()
        invariant
            group <= draft.oneofs@.len(),
            raws == raws_view(draft.fields@),
            names == names_view(draft.oneofs@),
            views == fields_view(fields@),
            names_view(oneofs@) == real_oneofs(names, raws, views, group as nat),
            position@.len() == group,
            forall|g: int|
                0 <= g < group ==> #[trigger] position@[g] == real_oneofs(
                    names,
                    raws,
                    views,
                    g as nat,
                ).len(),
        decreases draft.oneofs@.len() - group,
    {
        let ghost before = names_view(oneofs@);
        position.push(oneofs.len());
        if !group_is_synthetic(&draft.fields, &fields, group) {
            let name = draft.oneofs[group].clone();
            oneofs.push(name);
            proof {
                assert(names_view(oneofs@) =~= before.push(name@));
            }
        }
        group = group + 1;
    }

    // Drop any `oneof_index` that points past the declared groups: a malformed
    // descriptor could otherwise trigger an out-of-bounds access when the
    // encoder or `oneofs()` indexes the group table.
    let mut i: usize = 0;
    while i < fields.len()
        invariant
            i <= fields@.len(),
            fields@.len() == views.len(),
            raws == raws_view(draft.fields@),
            names == names_view(draft.oneofs@),
            names_view(oneofs@) == real_oneofs(names, raws, views, names.len()),
            position@.len() == names.len(),
            forall|g: int|
                0 <= g < names.len() ==> #[trigger] position@[g] == real_oneofs(
                    names,
                    raws,
                    views,
                    g as nat,
                ).len(),
            forall|j: int| i <= j < fields@.len() ==> (#[trigger] fields@[j])@ == views[j],
            forall|j: int|
                0 <= j < i ==> (#[trigger] fields@[j])@ == settled(names, raws, views, views[j]),
            forall|j: int|
                0 <= j < i ==> ((#[trigger] fields@[j]).oneof_index matches Some(group) ==> group
                    < oneofs@.len()),
        decreases fields@.len() - i,
    {
        let settled_index: Option<u32> = match fields[i].oneof_index {
            Some(index) => if (index as usize) < position.len() {
                proof {
                    assert(fields@[i as int]@ == views[i as int]);
                    assert(in_group(views[i as int].oneof_index, index as int));
                    lemma_real_oneofs_len(names, raws, views, index as nat, names.len());
                }
                Some(position[index as usize] as u32)
            } else {
                None
            },
            None => None,
        };
        let ghost earlier = fields@;
        proof {
            assert(fields@[i as int]@ == views[i as int]);
        }
        fields[i].oneof_index = settled_index;
        proof {
            assert(fields@[i as int]@ == settled(names, raws, views, views[i as int]));
        }
        i = i + 1;
    }
    let message = MessageDescriptor { name: draft.name, fields, oneofs };
    proof {
        let expected = described(draft@)->Ok_0;
        assert(message@.fields =~= expected.fields);
        assert(message@.oneofs =~= expected.oneofs);
    }
    Ok(message)
}

// ---------------------------------------------------------------------------
// Laws
// ---------------------------------------------------------------------------

/// The meaning of several fields is the meaning of each.
pub proof fn lemma_interpreted_each(draft: DraftView, n: nat)
    requires
        interpreted_upto(draft, n) is Ok,
    ensures
        interpreted_upto(draft, n)->Ok_0.len() == n,
        forall|i: int|
            0 <= i < n ==> Ok::<FieldView, ParseError>(
                #[trigger] interpreted_upto(draft, n)->Ok_0[i],
            ) == interpreted(draft.fields[i], draft.entries, draft.name),
    decreases n,
{
    if n > 0 {
        lemma_interpreted_each(draft, (n - 1) as nat);
    }
}

/// What holds of every descriptor that is parsed: a member of a oneof group
/// names one of the listed groups, and has explicit presence unless it is
/// repeated; a field without explicit presence is a scalar, an enum or a map;
/// and a map is in no oneof group.
pub proof fn law_descriptor_shape(bytes: Seq<u8>, i: int)
    requires
        descriptor_in(bytes) is Ok,
        0 <= i < descriptor_in(bytes)->Ok_0.fields.len(),
    ensures
        ({
            let message = descriptor_in(bytes)->Ok_0;
            let field = message.fields[i];
            &&& field.oneof_index matches Some(group) ==> {
                &&& group < message.oneofs.len()
                &&& field.label != Label::Single
            }
            &&& field.label == Label::Single ==> field.kind is Scalar || field.kind is Enum
                || field.kind is MapOf
            &&& field.kind is MapOf ==> field.label == Label::Single && field.oneof_index is None
        }),
{
    let draft = draft_in(bytes, draft_empty())->Ok_0;
    lemma_interpreted_each(draft, draft.fields.len());
    let fields = interpreted_upto(draft, draft.fields.len())->Ok_0;
    let field = fields[i];
    assert(Ok::<FieldView, ParseError>(field) == interpreted(
        draft.fields[i],
        draft.entries,
        draft.name,
    ));
    if let Some(group) = field.oneof_index {
        if group < draft.oneofs.len() {
            assert(in_group(field.oneof_index, group as int));
            assert(has_member(fields, group as int));
            lemma_real_oneofs_len(
                draft.oneofs,
                draft.fields,
                fields,
                group as nat,
                draft.oneofs.len(),
            );
        }
    }
}

} // verus!
