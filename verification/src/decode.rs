//! Decode protobuf wire bytes into a message instance.
//!
//! The decoder parses the field stream and hands out every value as it
//! arrives, with the field that it is for (see [`Decoded`]). Absent fields stay
//! absent, for the class to fill in their defaults. Repeated/map fields
//! accumulate into a list/map that is created up front and filled as matching
//! tags arrive.
//!
//! Construction of the instance then takes one of two routes (see
//! [`construction`]): the fast path fills every attribute directly (allowed
//! only when it was verified at link time that the class is a plain generated
//! one); the general path calls the class with keyword arguments so any custom
//! behavior is preserved.
use std::collections::HashMap;
use vstd::prelude::*;

use crate::arrival::{
    append_events, arrived_model, claim_events, elements_events, entry_arrival, entry_events,
    error_of, events_model, field_events, fields_events, hold_events, lemma_decoded_model,
    nested_outcome, omitted_arrival, outcome, packed_events, read_arrival, Arrived, ArrivedModel,
    Decoded, Event, EventModel,
};
use crate::arrival_laws::{assembled, law_events_build_message};
use crate::descriptor::{field_at, FieldKind, FieldView, Label, MapValue, ScalarType, MAX_DEPTH};
use crate::encode::{is_packed, kind_of_value, level, map_value_kind, packed};
use crate::entries::put;
use crate::message::{
    lemma_field_limit, linked_view, schema_view, Descriptor, DescriptorView, LinkedRef, LinkedView,
};
use crate::text::decode_text;
use crate::value::{
    scalar_of, zero_scalar, FieldModel, MessageModel, ScalarModel, ScalarValue, ValueModel,
};
use crate::wellknown::{self, parts_in};
use crate::wire::{
    self, field_in, lemma_field_used, low32, payload_in, signed32, Payload, Reader, WireError,
    WireField, WireType,
};

verus! {

broadcast use vstd::std_specs::hash::group_hash_axioms;

/// Wire bytes could not be decoded.
#[derive(Debug, Clone, Copy, PartialEq, Eq, Structural)]
pub enum DecodeError {
    /// Messages are nested beyond [`MAX_DEPTH`] levels.
    TooDeep,
    /// Malformed protobuf data.
    Wire(WireError),
    /// A string field holds bytes that are not UTF-8.
    InvalidUtf8,
    /// A message field was not linked to a class.
    NotLinked,
    /// The class that is linked to a message field is no message class.
    NotAMessage,
    /// An element arrived for a repeated field whose list a later member of
    /// its oneof group had cleared. Only a malformed descriptor puts a repeated
    /// field in a oneof group.
    ClearedList,
}

// ---------------------------------------------------------------------------
// What the bytes of a message mean
// ---------------------------------------------------------------------------

/// The wire type of one value of the given kind.
pub open spec fn kind_wire(kind: FieldKind) -> WireType {
    match kind {
        FieldKind::Scalar(scalar) => scalar.wire(),
        FieldKind::Enum => WireType::Varint,
        _ => WireType::Len,
    }
}

/// A message as far as it has been decoded.
#[verifier::ext_equal]
pub struct Decoding {
    /// What has been seen of each field.
    pub fields: Seq<FieldModel>,
    /// For each oneof group, the index of the field that occupies it.
    pub owners: Map<u32, usize>,
    /// The raw bytes of the fields that are not in the schema.
    pub unknown: Seq<u8>,
}

/// What a field holds before anything is seen of it.
pub open spec fn unseen(field: FieldView) -> FieldModel {
    if field.kind is MapOf {
        FieldModel::Entries(Seq::empty())
    } else if field.label == Label::Repeated {
        FieldModel::List(Seq::empty())
    } else {
        FieldModel::Absent
    }
}

/// A message of which nothing has been decoded.
pub open spec fn nothing_decoded(fields: Seq<FieldView>) -> Decoding {
    Decoding {
        fields: Seq::new(fields.len(), |i: int| unseen(fields[i])),
        owners: Map::empty(),
        unknown: Seq::empty(),
    }
}

impl Decoding {
    /// With a field kept that the schema does not know.
    pub open spec fn keep(self, raw: Seq<u8>) -> Decoding {
        Decoding { unknown: self.unknown + raw, ..self }
    }

    /// With the oneof group occupied by a field: any earlier member of the
    /// group is cleared.
    pub open spec fn claim(self, group: Option<u32>, index: usize) -> Decoding {
        match group {
            None => self,
            Some(group) => Decoding {
                fields: if self.owners.contains_key(group) && self.owners[group] != index {
                    self.fields.update(self.owners[group] as int, FieldModel::Absent)
                } else {
                    self.fields
                },
                owners: self.owners.insert(group, index),
                unknown: self.unknown,
            },
        }
    }

    /// With what a field holds replaced.
    pub open spec fn set(self, index: usize, value: FieldModel) -> Decoding {
        Decoding { fields: self.fields.update(index as int, value), ..self }
    }
}

/// The nested message that `bytes` stand for.
pub open spec fn decoded_nested(
    schema: Seq<DescriptorView>,
    linked: Option<LinkedView>,
    bytes: Seq<u8>,
    depth: nat,
) -> Result<MessageModel, DecodeError>
    decreases level(depth), 0nat, 0nat,
{
    match linked {
        None => Err(DecodeError::NotLinked),
        Some(linked) => match linked.desc {
            None => Err(DecodeError::NotAMessage),
            Some(index) => if index >= schema.len() {
                Err(DecodeError::NotAMessage)
            } else if depth >= MAX_DEPTH {
                Err(DecodeError::TooDeep)
            } else {
                decoded(schema, linked.class, index, bytes, depth + 1)
            },
        },
    }
}

/// The value of the given kind that a payload of its wire type stands for.
pub open spec fn decoded_value(
    schema: Seq<DescriptorView>,
    linked: Option<LinkedView>,
    kind: FieldKind,
    payload: Payload,
    depth: nat,
) -> Result<ValueModel, DecodeError>
    decreases level(depth), 1nat, 0nat,
{
    match (kind, payload) {
        (FieldKind::Scalar(scalar), _) => match scalar_of(scalar, payload) {
            Some(value) => Ok(ValueModel::Scalar(value)),
            None => Err(DecodeError::InvalidUtf8),
        },
        (FieldKind::Enum, Payload::Varint(raw)) => Ok(
            ValueModel::Enum(signed32(low32(raw) as int) as i32),
        ),
        (FieldKind::Message, Payload::Len(bytes)) => match decoded_nested(
            schema,
            linked,
            bytes,
            depth,
        ) {
            Ok(message) => Ok(ValueModel::Message(message)),
            Err(error) => Err(error),
        },
        (FieldKind::Timestamp, Payload::Len(bytes)) => match parts_in(bytes, (0, 0)) {
            Ok((secs, nanos)) => Ok(ValueModel::Timestamp { secs, nanos }),
            Err(error) => Err(DecodeError::Wire(error)),
        },
        (FieldKind::Duration, Payload::Len(bytes)) => match parts_in(bytes, (0, 0)) {
            Ok((secs, nanos)) => Ok(ValueModel::Duration { secs, nanos }),
            Err(error) => Err(DecodeError::Wire(error)),
        },
        _ => arbitrary(),
    }
}

/// The values that a chunk of packed ones holds, behind those already seen.
pub open spec fn packed_values(
    schema: Seq<DescriptorView>,
    linked: Option<LinkedView>,
    kind: FieldKind,
    s: Seq<u8>,
    seen: Seq<ValueModel>,
    depth: nat,
) -> Result<Seq<ValueModel>, DecodeError>
    decreases level(depth), 2nat, s.len(),
{
    if s.len() == 0 {
        Ok(seen)
    } else {
        proof {
            lemma_payload_progress(s, kind_wire(kind));
        }
        match payload_in(s, kind_wire(kind)).result {
            Err(error) => Err(DecodeError::Wire(error)),
            Ok(payload) => match decoded_value(schema, linked, kind, payload, depth) {
                Err(error) => Err(error),
                Ok(value) => packed_values(
                    schema,
                    linked,
                    kind,
                    s.skip(payload_in(s, kind_wire(kind)).used as int),
                    seen.push(value),
                    depth,
                ),
            },
        }
    }
}

/// Whether a field of a wire type can hold elements of the given kind.
pub open spec fn holds_elements(kind: FieldKind, wire: WireType) -> bool {
    wire == kind_wire(kind) || (packed(kind) && wire == WireType::Len)
}

/// The elements of a repeated field that a payload stands for. Elements that
/// can be packed are accepted both packed and one by one.
pub open spec fn decoded_elements(
    schema: Seq<DescriptorView>,
    linked: Option<LinkedView>,
    kind: FieldKind,
    payload: Payload,
    depth: nat,
) -> Result<Seq<ValueModel>, DecodeError>
    decreases level(depth), 3nat, 0nat,
{
    match payload {
        Payload::Len(chunk) => if packed(kind) {
            packed_values(schema, linked, kind, chunk, Seq::empty(), depth)
        } else {
            match decoded_value(schema, linked, kind, payload, depth) {
                Ok(value) => Ok(seq![value]),
                Err(error) => Err(error),
            }
        },
        _ => match decoded_value(schema, linked, kind, payload, depth) {
            Ok(value) => Ok(seq![value]),
            Err(error) => Err(error),
        },
    }
}

/// Key and value of a map entry after one more field: the key is field 1, the
/// value field 2, and any other field is skipped.
pub open spec fn with_entry_field(
    schema: Seq<DescriptorView>,
    linked: Option<LinkedView>,
    key: ScalarType,
    value: MapValue,
    field: WireField,
    seen: (Option<ScalarModel>, Option<ValueModel>),
    depth: nat,
) -> Result<(Option<ScalarModel>, Option<ValueModel>), DecodeError>
    decreases level(depth), 2nat, 0nat,
{
    if field.number == 1 && field.payload.wire() == key.wire() {
        match scalar_of(key, field.payload) {
            None => Err(DecodeError::InvalidUtf8),
            Some(k) => Ok((Some(k), seen.1)),
        }
    } else if field.number == 2 && field.payload.wire() == kind_wire(kind_of_value(value)) {
        match decoded_value(schema, linked, kind_of_value(value), field.payload, depth) {
            Err(error) => Err(error),
            Ok(v) => Ok((seen.0, Some(v))),
        }
    } else {
        Ok(seen)
    }
}

/// Key and value of a map entry after the fields of `s`.
pub open spec fn entry_fields(
    schema: Seq<DescriptorView>,
    linked: Option<LinkedView>,
    key: ScalarType,
    value: MapValue,
    s: Seq<u8>,
    seen: (Option<ScalarModel>, Option<ValueModel>),
    depth: nat,
) -> Result<(Option<ScalarModel>, Option<ValueModel>), DecodeError>
    decreases level(depth), 3nat, s.len(),
{
    if s.len() == 0 {
        Ok(seen)
    } else {
        proof {
            lemma_field_used(s);
        }
        match field_in(s).result {
            Err(error) => Err(DecodeError::Wire(error)),
            Ok(field) => match with_entry_field(schema, linked, key, value, field, seen, depth) {
                Err(error) => Err(error),
                Ok(seen) => entry_fields(
                    schema,
                    linked,
                    key,
                    value,
                    s.skip(field_in(s).used as int),
                    seen,
                    depth,
                ),
            },
        }
    }
}

/// What stands for a map value that its entry omits.
pub open spec fn omitted_value(
    schema: Seq<DescriptorView>,
    linked: Option<LinkedView>,
    value: MapValue,
    depth: nat,
) -> Result<ValueModel, DecodeError>
    decreases level(depth), 1nat, 0nat,
{
    match value {
        MapValue::Scalar(scalar) => Ok(ValueModel::Scalar(zero_scalar(scalar))),
        MapValue::Enum => Ok(ValueModel::Enum(0)),
        MapValue::Message => match decoded_nested(schema, linked, Seq::empty(), depth) {
            Ok(message) => Ok(ValueModel::Message(message)),
            Err(error) => Err(error),
        },
        MapValue::Timestamp => Ok(ValueModel::Timestamp { secs: 0, nanos: 0 }),
        MapValue::Duration => Ok(ValueModel::Duration { secs: 0, nanos: 0 }),
    }
}

/// The map entry that `s` stands for; an omitted key or value is a default.
pub open spec fn decoded_entry(
    schema: Seq<DescriptorView>,
    linked: Option<LinkedView>,
    key: ScalarType,
    value: MapValue,
    s: Seq<u8>,
    depth: nat,
) -> Result<(ScalarModel, ValueModel), DecodeError>
    decreases level(depth), 4nat, 0nat,
{
    match entry_fields(schema, linked, key, value, s, (None, None), depth) {
        Err(error) => Err(error),
        Ok((k, v)) => {
            let k = match k {
                Some(k) => k,
                None => zero_scalar(key),
            };
            match v {
                Some(v) => Ok((k, v)),
                None => match omitted_value(schema, linked, value, depth) {
                    Ok(v) => Ok((k, v)),
                    Err(error) => Err(error),
                },
            }
        },
    }
}

/// A message after one more field, which stands on the wire as `raw`.
#[verifier::opaque]
pub open spec fn with_field(
    schema: Seq<DescriptorView>,
    desc: DescriptorView,
    wire_field: WireField,
    raw: Seq<u8>,
    so_far: Decoding,
    depth: nat,
) -> Result<Decoding, DecodeError>
    decreases level(depth), 5nat, 0nat,
{
    match field_at(desc.message.fields, wire_field.number) {
        None => Ok(so_far.keep(raw)),
        Some(i) => {
            let index = i as usize;
            let field = desc.message.fields[i as int];
            let linked = desc.linked_ref(wire_field.number);
            let payload = wire_field.payload;
            let claimed = so_far.claim(field.oneof_index, index);
            match field.kind {
                FieldKind::MapOf { key, value } => match payload {
                    Payload::Len(entry) => match decoded_entry(
                        schema,
                        linked,
                        key,
                        value,
                        entry,
                        depth,
                    ) {
                        Err(error) => Err(error),
                        Ok((k, v)) => match claimed.fields[i as int] {
                            FieldModel::Entries(entries) => Ok(
                                claimed.set(index, FieldModel::Entries(put(entries, k, v))),
                            ),
                            _ => Err(DecodeError::ClearedList),
                        },
                    },
                    _ => Ok(so_far.keep(raw)),
                },
                kind => if field.label == Label::Repeated {
                    if holds_elements(kind, payload.wire()) {
                        match decoded_elements(schema, linked, kind, payload, depth) {
                            Err(error) => Err(error),
                            Ok(elements) => match claimed.fields[i as int] {
                                FieldModel::List(list) => Ok(
                                    claimed.set(index, FieldModel::List(list + elements)),
                                ),
                                _ => Err(DecodeError::ClearedList),
                            },
                        }
                    } else {
                        Ok(claimed.keep(raw))
                    }
                } else if payload.wire() == kind_wire(kind) {
                    match decoded_value(schema, linked, kind, payload, depth) {
                        Err(error) => Err(error),
                        Ok(value) => Ok(claimed.set(index, FieldModel::One(value))),
                    }
                } else {
                    Ok(so_far.keep(raw))
                },
            }
        },
    }
}

/// A message after the fields of `s`.
pub open spec fn with_fields(
    schema: Seq<DescriptorView>,
    desc: DescriptorView,
    s: Seq<u8>,
    so_far: Decoding,
    depth: nat,
) -> Result<Decoding, DecodeError>
    decreases level(depth), 6nat, s.len(),
{
    if s.len() == 0 {
        Ok(so_far)
    } else {
        proof {
            lemma_field_used(s);
        }
        match field_in(s).result {
            Err(error) => Err(DecodeError::Wire(error)),
            Ok(field) => match with_field(
                schema,
                desc,
                field,
                s.take(field_in(s).used as int),
                so_far,
                depth,
            ) {
                Err(error) => Err(error),
                Ok(so_far) => with_fields(
                    schema,
                    desc,
                    s.skip(field_in(s).used as int),
                    so_far,
                    depth,
                ),
            },
        }
    }
}

/// The message of the given class that `s` stands for.
pub open spec fn decoded(
    schema: Seq<DescriptorView>,
    class: usize,
    index: usize,
    s: Seq<u8>,
    depth: nat,
) -> Result<MessageModel, DecodeError>
    decreases level(depth), 7nat, 0nat,
{
    let desc = schema[index as int];
    if depth > MAX_DEPTH {
        Err(DecodeError::TooDeep)
    } else {
        match with_fields(schema, desc, s, nothing_decoded(desc.message.fields), depth) {
            Err(error) => Err(error),
            Ok(done) => Ok(
                MessageModel {
                    class,
                    own: Some(index),
                    fields: done.fields,
                    unknown: done.unknown,
                },
            ),
        }
    }
}

/// Reading a payload off a non-empty sequence consumes some of it.
pub proof fn lemma_payload_progress(s: Seq<u8>, wire: WireType)
    ensures
        payload_in(s, wire).used <= s.len(),
        s.len() > 0 ==> payload_in(s, wire).used > 0,
{
    wire::lemma_base128_used(s, wire::MAX_VARINT_LEN as nat);
}

// ---------------------------------------------------------------------------
// Decoding
// ---------------------------------------------------------------------------

/// What a payload that may be malformed stands for.
pub open spec fn read_scalar(scalar: ScalarType, payload: Result<Payload, WireError>) -> Result<
    ScalarModel,
    DecodeError,
> {
    match payload {
        Err(error) => Err(DecodeError::Wire(error)),
        Ok(payload) => match scalar_of(scalar, payload) {
            Some(value) => Ok(value),
            None => Err(DecodeError::InvalidUtf8),
        },
    }
}

pub open spec fn scalar_model(value: Result<ScalarValue, DecodeError>) -> Result<
    ScalarModel,
    DecodeError,
> {
    match value {
        Ok(value) => Ok(value@),
        Err(error) => Err(error),
    }
}

fn read_varint(reader: &mut Reader<'_>) -> (value: Result<u64, DecodeError>)
    ensures
        match payload_in(old(reader).rest(), WireType::Varint).result {
            Ok(payload) => value matches Ok(raw) && payload == Payload::Varint(raw),
            Err(error) => value == Err::<u64, DecodeError>(DecodeError::Wire(error)),
        },
        old(reader).advanced(
            final(reader),
            payload_in(old(reader).rest(), WireType::Varint).used,
        ),
{
    match reader.read_varint() {
        Ok(value) => Ok(value),
        Err(error) => Err(DecodeError::Wire(error)),
    }
}

fn read_fixed32(reader: &mut Reader<'_>) -> (value: Result<u32, DecodeError>)
    ensures
        match payload_in(old(reader).rest(), WireType::I32).result {
            Ok(payload) => value matches Ok(raw) && payload == Payload::I32(raw),
            Err(error) => value == Err::<u32, DecodeError>(DecodeError::Wire(error)),
        },
        old(reader).advanced(final(reader), payload_in(old(reader).rest(), WireType::I32).used),
{
    match reader.read_fixed32() {
        Ok(value) => Ok(value),
        Err(error) => Err(DecodeError::Wire(error)),
    }
}

fn read_fixed64(reader: &mut Reader<'_>) -> (value: Result<u64, DecodeError>)
    ensures
        match payload_in(old(reader).rest(), WireType::I64).result {
            Ok(payload) => value matches Ok(raw) && payload == Payload::I64(raw),
            Err(error) => value == Err::<u64, DecodeError>(DecodeError::Wire(error)),
        },
        old(reader).advanced(final(reader), payload_in(old(reader).rest(), WireType::I64).used),
{
    match reader.read_fixed64() {
        Ok(value) => Ok(value),
        Err(error) => Err(DecodeError::Wire(error)),
    }
}

fn read_chunk<'a>(reader: &mut Reader<'a>) -> (chunk: Result<&'a [u8], DecodeError>)
    ensures
        match payload_in(old(reader).rest(), WireType::Len).result {
            Ok(payload) => chunk matches Ok(data) && payload == Payload::Len(data@),
            Err(error) => chunk matches Err(e) && e == DecodeError::Wire(error),
        },
        old(reader).advanced(final(reader), payload_in(old(reader).rest(), WireType::Len).used),
{
    match reader.read_len_delimited() {
        Ok(data) => Ok(data),
        Err(error) => Err(DecodeError::Wire(error)),
    }
}

/// The default for a scalar (used for omitted map keys/values).
pub fn scalar_default(scalar: ScalarType) -> (value: ScalarValue)
    ensures
        value@ == zero_scalar(scalar),
{
    match scalar {
        ScalarType::Int32 | ScalarType::SInt32 | ScalarType::SFixed32 => ScalarValue::I32(0),
        ScalarType::Int64 | ScalarType::SInt64 | ScalarType::SFixed64 => ScalarValue::I64(0),
        ScalarType::UInt32 | ScalarType::Fixed32 => ScalarValue::U32(0),
        ScalarType::UInt64 | ScalarType::Fixed64 => ScalarValue::U64(0),
        ScalarType::Bool => ScalarValue::Bool(false),
        ScalarType::Float => ScalarValue::F32(0),
        ScalarType::Double => ScalarValue::F64(0),
        ScalarType::String => ScalarValue::Text(String::new()),
        ScalarType::Bytes => ScalarValue::Bytes(Vec::new()),
    }
}

/// Read one scalar payload off the reader.
pub fn decode_scalar(scalar: ScalarType, reader: &mut Reader<'_>) -> (value: Result<
    ScalarValue,
    DecodeError,
>)
    ensures
        scalar_model(value) == read_scalar(
            scalar,
            payload_in(old(reader).rest(), scalar.wire()).result,
        ),
        old(reader).advanced(
            final(reader),
            payload_in(old(reader).rest(), scalar.wire()).used,
        ),
{
    match scalar {
        ScalarType::Int32 => {
            let raw = read_varint(reader)?;
            Ok(ScalarValue::I32(wire::bits_to_i32(wire::low_u32(raw))))
        },
        ScalarType::Int64 => {
            let raw = read_varint(reader)?;
            Ok(ScalarValue::I64(wire::bits_to_i64(raw)))
        },
        ScalarType::UInt32 => {
            let raw = read_varint(reader)?;
            Ok(ScalarValue::U32(wire::low_u32(raw)))
        },
        ScalarType::UInt64 => {
            let raw = read_varint(reader)?;
            Ok(ScalarValue::U64(raw))
        },
        ScalarType::SInt32 => {
            let raw = read_varint(reader)?;
            Ok(ScalarValue::I32(wire::zigzag_decode32(wire::low_u32(raw))))
        },
        ScalarType::SInt64 => {
            let raw = read_varint(reader)?;
            Ok(ScalarValue::I64(wire::zigzag_decode64(raw)))
        },
        ScalarType::Bool => {
            let raw = read_varint(reader)?;
            Ok(ScalarValue::Bool(raw != 0))
        },
        ScalarType::Fixed32 => {
            let raw = read_fixed32(reader)?;
            Ok(ScalarValue::U32(raw))
        },
        ScalarType::SFixed32 => {
            let raw = read_fixed32(reader)?;
            Ok(ScalarValue::I32(wire::bits_to_i32(raw)))
        },
        ScalarType::Float => {
            let raw = read_fixed32(reader)?;
            Ok(ScalarValue::F32(raw))
        },
        ScalarType::Fixed64 => {
            let raw = read_fixed64(reader)?;
            Ok(ScalarValue::U64(raw))
        },
        ScalarType::SFixed64 => {
            let raw = read_fixed64(reader)?;
            Ok(ScalarValue::I64(wire::bits_to_i64(raw)))
        },
        ScalarType::Double => {
            let raw = read_fixed64(reader)?;
            Ok(ScalarValue::F64(raw))
        },
        ScalarType::String => {
            let bytes = read_chunk(reader)?;
            match decode_text(bytes) {
                Some(text) => Ok(ScalarValue::Text(text)),
                None => Err(DecodeError::InvalidUtf8),
            }
        },
        ScalarType::Bytes => {
            let bytes = read_chunk(reader)?;
            Ok(ScalarValue::Bytes(vstd::slice::slice_to_vec(bytes)))
        },
    }
}

/// Decode a nested message through its class's descriptor, as far as it can be
/// decoded.
pub fn decode_message_value(
    schema: &[Descriptor],
    linked: Option<&LinkedRef>,
    data: &[u8],
    depth: usize,
) -> (nested: Result<Decoded, DecodeError>)
    ensures
        match nested_outcome(schema_view(schema@), linked_view(linked), data@, depth as nat) {
            Ok(expected) => nested matches Ok(decoded) && decoded.model() == expected,
            Err(error) => nested matches Err(e) && e == error,
        },
    decreases level(depth as nat), 0nat, 0nat,
{
    match linked {
        None => Err(DecodeError::NotLinked),
        Some(linked) => match linked.desc {
            None => Err(DecodeError::NotAMessage),
            Some(index) => {
                if index >= schema.len() {
                    Err(DecodeError::NotAMessage)
                } else if depth >= MAX_DEPTH {
                    Err(DecodeError::TooDeep)
                } else {
                    Ok(decode_message(schema, linked.class, index, data, depth + 1))
                }
            },
        },
    }
}

/// A nested message as a value that arrives, and its error if it is incomplete.
fn arrived_message(nested: Result<Decoded, DecodeError>) -> (arrived: (
    Option<Arrived>,
    Result<(), DecodeError>,
))
    ensures
        match nested {
            Err(error) => arrived.0 is None && arrived.1 == Err::<(), DecodeError>(error),
            Ok(decoded) => {
                &&& arrived_model(arrived.0) == Some(ArrivedModel::Message(decoded.model()))
                &&& error_of(arrived.1) == decoded.error
            },
        },
{
    match nested {
        Err(error) => (None, Err(error)),
        Ok(decoded) => {
            let result = match decoded.error {
                Some(error) => Err(error),
                None => Ok(()),
            };
            (Some(Arrived::Message(decoded)), result)
        },
    }
}

/// What a payload that may be malformed stands for.
pub open spec fn read_value(
    schema: Seq<DescriptorView>,
    linked: Option<LinkedView>,
    kind: FieldKind,
    payload: Result<Payload, WireError>,
    depth: nat,
) -> Result<ValueModel, DecodeError> {
    match payload {
        Err(error) => Err(DecodeError::Wire(error)),
        Ok(payload) => decoded_value(schema, linked, kind, payload, depth),
    }
}

/// Read one value of the given kind off the reader.
///
/// Returns the value that arrives, and the error if there is one: a nested
/// message arrives as far as it could be decoded.
fn decode_value(
    schema: &[Descriptor],
    kind: FieldKind,
    linked: Option<&LinkedRef>,
    reader: &mut Reader<'_>,
    depth: usize,
) -> (arrived: (Option<Arrived>, Result<(), DecodeError>))
    requires
        !(kind is MapOf),
    ensures
        arrived_model(arrived.0) == read_arrival(
            schema_view(schema@),
            linked_view(linked),
            kind,
            payload_in(old(reader).rest(), kind_wire(kind)).result,
            depth as nat,
        ),
        error_of(arrived.1) == error_of(
            read_value(
                schema_view(schema@),
                linked_view(linked),
                kind,
                payload_in(old(reader).rest(), kind_wire(kind)).result,
                depth as nat,
            ),
        ),
        old(reader).advanced(
            final(reader),
            payload_in(old(reader).rest(), kind_wire(kind)).used,
        ),
    decreases level(depth as nat), 1nat, 0nat,
{
    match kind {
        FieldKind::Scalar(scalar) => match decode_scalar(scalar, reader) {
            Ok(value) => (Some(Arrived::Scalar(value)), Ok(())),
            Err(error) => (None, Err(error)),
        },
        FieldKind::Enum => match read_varint(reader) {
            Ok(raw) => (Some(Arrived::Enum(wire::bits_to_i32(wire::low_u32(raw)))), Ok(())),
            Err(error) => (None, Err(error)),
        },
        FieldKind::Message => match read_chunk(reader) {
            Ok(sub) => arrived_message(decode_message_value(schema, linked, sub, depth)),
            Err(error) => (None, Err(error)),
        },
        _ => match read_chunk(reader) {
            Err(error) => (None, Err(error)),
            Ok(sub) => match wellknown::decode_parts(sub) {
                Err(error) => (None, Err(DecodeError::Wire(error))),
                Ok((secs, nanos)) => if let FieldKind::Timestamp = kind {
                    (Some(Arrived::Timestamp { secs, nanos }), Ok(()))
                } else {
                    (Some(Arrived::Duration { secs, nanos }), Ok(()))
                },
            },
        },
    }
}

/// The wire type of one value of the given kind.
pub fn kind_wire_type(kind: FieldKind) -> (wire: WireType)
    ensures
        wire == kind_wire(kind),
{
    match kind {
        FieldKind::Scalar(scalar) => scalar.wire_type(),
        FieldKind::Enum => WireType::Varint,
        _ => WireType::Len,
    }
}

/// The elements that a payload that may be malformed stands for.
pub open spec fn read_elements(
    schema: Seq<DescriptorView>,
    linked: Option<LinkedView>,
    kind: FieldKind,
    payload: Result<Payload, WireError>,
    depth: nat,
) -> Result<Seq<ValueModel>, DecodeError> {
    match payload {
        Err(error) => Err(DecodeError::Wire(error)),
        Ok(payload) => decoded_elements(schema, linked, kind, payload, depth),
    }
}

/// Append what has arrived to the list of a field.
fn append_arrived(events: &mut Vec<Event>, field: usize, arrived: Option<Arrived>)
    ensures
        events_model(final(events)@) == events_model(old(events)@) + append_events(
            field,
            arrived_model(arrived),
        ),
{
    let ghost before = events_model(events@);
    if let Some(value) = arrived {
        events.push(Event::Append { field, value });
    }
    proof {
        assert(events_model(events@) =~= before + append_events(field, arrived_model(arrived)));
    }
}

/// Read one or more repeated elements (handling packed encoding) and append
/// them to the list of a field.
///
/// Returns `false` (without consuming any bytes) when `wire_type` doesn't match
/// this field, so the caller can preserve the raw bytes as an unknown field
/// instead of dropping them.
pub fn decode_repeated(
    schema: &[Descriptor],
    kind: FieldKind,
    linked: Option<&LinkedRef>,
    wire_type: WireType,
    reader: &mut Reader<'_>,
    field: usize,
    events: &mut Vec<Event>,
    depth: usize,
) -> (handled: Result<bool, DecodeError>)
    requires
        !(kind is MapOf),
    ensures
        if holds_elements(kind, wire_type) {
            match read_elements(
                schema_view(schema@),
                linked_view(linked),
                kind,
                payload_in(old(reader).rest(), wire_type).result,
                depth as nat,
            ) {
                Err(error) => handled == Err::<bool, DecodeError>(error),
                Ok(_) => handled == Ok::<bool, DecodeError>(true),
            }
        } else {
            handled == Ok::<bool, DecodeError>(false) && *final(reader) == *old(reader)
        },
        handled == Ok::<bool, DecodeError>(false) <==> wire_type != kind_wire(kind) && wire_type
            != WireType::Len,
        holds_elements(kind, wire_type) ==> old(reader).advanced(
            final(reader),
            payload_in(old(reader).rest(), wire_type).used,
        ),
        events_model(final(events)@) == events_model(old(events)@) + (match payload_in(
            old(reader).rest(),
            wire_type,
        ).result {
            Ok(payload) if holds_elements(kind, wire_type) => elements_events(
                schema_view(schema@),
                linked_view(linked),
                kind,
                field,
                payload,
                depth as nat,
            ),
            _ => Seq::empty(),
        }),
    decreases level(depth as nat), 3nat, 0nat,
{
    proof {
        assert(events_model(events@) =~= events_model(events@) + Seq::<EventModel>::empty());
    }
    if is_packed(kind) && wire_type == WireType::Len {
        let chunk = read_chunk(reader)?;
        return match decode_packed(schema, kind, linked, chunk, field, events, depth) {
            Ok(()) => Ok(true),
            Err(error) => Err(error),
        };
    }
    if wire_type != kind_wire_type(kind) {
        return Ok(false);
    }
    let (arrived, result) = decode_value(schema, kind, linked, reader, depth);
    append_arrived(events, field, arrived);
    match result {
        Ok(()) => Ok(true),
        Err(error) => Err(error),
    }
}

/// Read a chunk of packed elements and append them to the list of a field.
fn decode_packed(
    schema: &[Descriptor],
    kind: FieldKind,
    linked: Option<&LinkedRef>,
    chunk: &[u8],
    field: usize,
    events: &mut Vec<Event>,
    depth: usize,
) -> (result: Result<(), DecodeError>)
    requires
        packed(kind),
    ensures
        error_of(result) == error_of(
            packed_values(
                schema_view(schema@),
                linked_view(linked),
                kind,
                chunk@,
                Seq::empty(),
                depth as nat,
            ),
        ),
        events_model(final(events)@) == events_model(old(events)@) + packed_events(
            schema_view(schema@),
            linked_view(linked),
            kind,
            field,
            chunk@,
            depth as nat,
        ),
    decreases level(depth as nat), 2nat, 0nat,
{
    let ghost views = schema_view(schema@);
    let ghost link = linked_view(linked);
    let ghost before = events_model(events@);
    let ghost mut seen = Seq::<ValueModel>::empty();
    let mut reader = Reader::new(chunk);
    while !reader.is_empty()
        invariant
            packed(kind),
            before == events_model(old(events)@),
            views == schema_view(schema@),
            link == linked_view(linked),
            packed_values(views, link, kind, reader.rest(), seen, depth as nat) == packed_values(
                views,
                link,
                kind,
                chunk@,
                Seq::empty(),
                depth as nat,
            ),
            events_model(events@) + packed_events(
                views,
                link,
                kind,
                field,
                reader.rest(),
                depth as nat,
            ) == before + packed_events(views, link, kind, field, chunk@, depth as nat),
        decreases reader.rest().len(),
    {
        let ghost start = reader.rest();
        let ghost so_far = events_model(events@);
        let ghost value = read_value(
            views,
            link,
            kind,
            payload_in(start, kind_wire(kind)).result,
            depth as nat,
        );
        proof {
            lemma_payload_progress(start, kind_wire(kind));
            lemma_packed_next(views, link, kind, field, start, seen, depth as nat);
        }
        let (arrived, result) = decode_value(schema, kind, linked, &mut reader, depth);
        append_arrived(events, field, arrived);
        proof {
            let first = append_events(field, arrived_model(arrived));
            match value {
                Ok(value) => {
                    let rest = packed_events(views, link, kind, field, reader.rest(), depth as nat);
                    assert(so_far + (first + rest) =~= so_far + first + rest);
                    seen = seen.push(value);
                },
                Err(_) => {
                    assert(first + Seq::<EventModel>::empty() =~= first);
                },
            }
        }
        result?;
    }
    proof {
        assert(events_model(events@) + Seq::<EventModel>::empty() =~= events_model(events@));
    }
    Ok(())
}

/// Reading packed elements is reading the first and then the others.
proof fn lemma_packed_next(
    schema: Seq<DescriptorView>,
    linked: Option<LinkedView>,
    kind: FieldKind,
    field: usize,
    s: Seq<u8>,
    seen: Seq<ValueModel>,
    depth: nat,
)
    requires
        s.len() > 0,
    ensures
        ({
            let payload = payload_in(s, kind_wire(kind));
            let value = read_value(schema, linked, kind, payload.result, depth);
            let rest = s.skip(payload.used as int);
            &&& packed_values(schema, linked, kind, s, seen, depth) == (match value {
                Err(error) => Err(error),
                Ok(value) => packed_values(schema, linked, kind, rest, seen.push(value), depth),
            })
            &&& packed_events(schema, linked, kind, field, s, depth) == append_events(
                field,
                read_arrival(schema, linked, kind, payload.result, depth),
            ) + (match value {
                Err(_) => Seq::empty(),
                Ok(_) => packed_events(schema, linked, kind, field, rest, depth),
            })
        }),
{
    if payload_in(s, kind_wire(kind)).result is Err {
        assert(Seq::<EventModel>::empty() + Seq::<EventModel>::empty() =~= Seq::empty());
    }
}

/// Decode the next field of a map entry.
fn decode_entry_field(
    schema: &[Descriptor],
    key: ScalarType,
    value_kind: MapValue,
    linked: Option<&LinkedRef>,
    reader: &mut Reader<'_>,
    found_key: &mut Option<ScalarValue>,
    found_value: &mut bool,
    Ghost(seen): Ghost<(Option<ScalarModel>, Option<ValueModel>)>,
    field: usize,
    events: &mut Vec<Event>,
    depth: usize,
) -> (result: Result<(), DecodeError>)
    requires
        old(reader).rest().len() > 0,
        has_found(*old(found_key), *old(found_value), seen),
    ensures
        match entry_next(
            schema_view(schema@),
            linked_view(linked),
            key,
            value_kind,
            old(reader).rest(),
            seen,
            depth as nat,
        ) {
            Err(error) => result == Err::<(), DecodeError>(error),
            Ok(seen) => result is Ok && has_found(*final(found_key), *final(found_value), seen),
        },
        events_model(final(events)@) == events_model(old(events)@) + entry_next_events(
            schema_view(schema@),
            linked_view(linked),
            key,
            value_kind,
            field,
            old(reader).rest(),
            depth as nat,
        ),
        old(reader).advanced(final(reader), field_in(old(reader).rest()).used),
    decreases level(depth as nat), 3nat, 0nat,
{
    let ghost s = reader.rest();
    let (number, wire_type) = match reader.read_tag() {
        Ok(tag) => tag,
        Err(error) => {
            proof {
                assert(events_model(events@) + Seq::<EventModel>::empty() =~= events_model(
                    events@,
                ));
            }
            return Err(DecodeError::Wire(error));
        },
    };
    let ghost after_tag = *reader;
    let result = decode_entry_payload(
        schema,
        key,
        value_kind,
        linked,
        number,
        wire_type,
        reader,
        found_key,
        found_value,
        Ghost(seen),
        field,
        events,
        depth,
    );
    proof {
        lemma_advanced_twice(
            old(reader),
            &after_tag,
            reader,
            wire::tag_in(s).used,
            payload_in(after_tag.rest(), wire_type).used,
        );
    }
    result
}

/// Moving a reader forward twice is moving it forward by both.
proof fn lemma_advanced_twice<'a>(
    first: &Reader<'a>,
    second: &Reader<'a>,
    third: &Reader<'a>,
    m: nat,
    n: nat,
)
    requires
        first.advanced(second, m),
        second.advanced(third, n),
    ensures
        first.advanced(third, m + n),
{
    assert(first.rest().skip(m as int).skip(n as int) =~= first.rest().skip((m + n) as int));
}

/// Key and value of a map entry after one more field, whose payload may be
/// malformed.
spec fn entry_payload(
    schema: Seq<DescriptorView>,
    linked: Option<LinkedView>,
    key: ScalarType,
    value: MapValue,
    number: u32,
    payload: Result<Payload, WireError>,
    seen: (Option<ScalarModel>, Option<ValueModel>),
    depth: nat,
) -> Result<(Option<ScalarModel>, Option<ValueModel>), DecodeError> {
    match payload {
        Err(error) => Err(DecodeError::Wire(error)),
        Ok(payload) => with_entry_field(
            schema,
            linked,
            key,
            value,
            WireField { number, payload },
            seen,
            depth,
        ),
    }
}

/// What a field of a map entry, whose payload may be malformed, makes arrive.
spec fn entry_payload_arrival(
    schema: Seq<DescriptorView>,
    linked: Option<LinkedView>,
    key: ScalarType,
    value: MapValue,
    number: u32,
    payload: Result<Payload, WireError>,
    depth: nat,
) -> Option<ArrivedModel> {
    match payload {
        Err(_) => None,
        Ok(payload) => entry_arrival(
            schema,
            linked,
            key,
            value,
            WireField { number, payload },
            depth,
        ),
    }
}

/// Hold what has arrived for an entry of a map field.
fn hold_arrived(events: &mut Vec<Event>, field: usize, arrived: Option<Arrived>)
    ensures
        events_model(final(events)@) == events_model(old(events)@) + hold_events(
            field,
            arrived_model(arrived),
        ),
{
    let ghost before = events_model(events@);
    if let Some(value) = arrived {
        events.push(Event::Hold { field, value });
    }
    proof {
        assert(events_model(events@) =~= before + hold_events(field, arrived_model(arrived)));
    }
}

/// Decode the payload of a field of a map entry.
fn decode_entry_payload(
    schema: &[Descriptor],
    key: ScalarType,
    value_kind: MapValue,
    linked: Option<&LinkedRef>,
    number: u32,
    wire_type: WireType,
    reader: &mut Reader<'_>,
    found_key: &mut Option<ScalarValue>,
    found_value: &mut bool,
    Ghost(seen): Ghost<(Option<ScalarModel>, Option<ValueModel>)>,
    field: usize,
    events: &mut Vec<Event>,
    depth: usize,
) -> (result: Result<(), DecodeError>)
    requires
        has_found(*old(found_key), *old(found_value), seen),
    ensures
        match entry_payload(
            schema_view(schema@),
            linked_view(linked),
            key,
            value_kind,
            number,
            payload_in(old(reader).rest(), wire_type).result,
            seen,
            depth as nat,
        ) {
            Err(error) => result == Err::<(), DecodeError>(error),
            Ok(seen) => result is Ok && has_found(*final(found_key), *final(found_value), seen),
        },
        events_model(final(events)@) == events_model(old(events)@) + hold_events(
            field,
            entry_payload_arrival(
                schema_view(schema@),
                linked_view(linked),
                key,
                value_kind,
                number,
                payload_in(old(reader).rest(), wire_type).result,
                depth as nat,
            ),
        ),
        old(reader).advanced(final(reader), payload_in(old(reader).rest(), wire_type).used),
    decreases level(depth as nat), 2nat, 0nat,
{
    let kind = map_value_kind(value_kind);
    if number == 2 && wire_type == kind_wire_type(kind) {
        let (arrived, result) = decode_value(schema, kind, linked, reader, depth);
        hold_arrived(events, field, arrived);
        *found_value = true;
        return result;
    }
    proof {
        assert(events_model(events@) + Seq::<EventModel>::empty() =~= events_model(events@));
    }
    if number == 1 && wire_type == key.wire_type() {
        match decode_scalar(key, reader) {
            Ok(k) => {
                *found_key = Some(k);
                Ok(())
            },
            Err(error) => Err(error),
        }
    } else {
        match reader.skip(wire_type) {
            Ok(_) => Ok(()),
            Err(error) => Err(DecodeError::Wire(error)),
        }
    }
}

/// Key and value of a map entry after the field at the front of `s`.
pub open spec fn entry_next(
    schema: Seq<DescriptorView>,
    linked: Option<LinkedView>,
    key: ScalarType,
    value: MapValue,
    s: Seq<u8>,
    seen: (Option<ScalarModel>, Option<ValueModel>),
    depth: nat,
) -> Result<(Option<ScalarModel>, Option<ValueModel>), DecodeError> {
    match field_in(s).result {
        Err(error) => Err(DecodeError::Wire(error)),
        Ok(field) => with_entry_field(schema, linked, key, value, field, seen, depth),
    }
}

/// The events that the field at the front of `s` causes in a map entry.
spec fn entry_next_events(
    schema: Seq<DescriptorView>,
    linked: Option<LinkedView>,
    key: ScalarType,
    value: MapValue,
    field: usize,
    s: Seq<u8>,
    depth: nat,
) -> Seq<EventModel> {
    match field_in(s).result {
        Err(_) => Seq::empty(),
        Ok(wire_field) => hold_events(
            field,
            entry_arrival(schema, linked, key, value, wire_field, depth),
        ),
    }
}

/// Reading the fields of a map entry is reading the first and then the others.
proof fn lemma_entry_next(
    schema: Seq<DescriptorView>,
    linked: Option<LinkedView>,
    key: ScalarType,
    value: MapValue,
    field: usize,
    s: Seq<u8>,
    seen: (Option<ScalarModel>, Option<ValueModel>),
    depth: nat,
)
    requires
        s.len() > 0,
    ensures
        ({
            let next = entry_next(schema, linked, key, value, s, seen, depth);
            let rest = s.skip(field_in(s).used as int);
            &&& entry_fields(schema, linked, key, value, s, seen, depth) == (match next {
                Err(error) => Err(error),
                Ok(seen) => entry_fields(schema, linked, key, value, rest, seen, depth),
            })
            &&& entry_events(schema, linked, key, value, field, s, seen, depth)
                == entry_next_events(schema, linked, key, value, field, s, depth) + (match next {
                Err(_) => Seq::empty(),
                Ok(seen) => entry_events(
                    schema,
                    linked,
                    key,
                    value,
                    field,
                    rest,
                    seen,
                    depth,
                ),
            })
        }),
{
    if field_in(s).result is Err {
        assert(Seq::<EventModel>::empty() + Seq::<EventModel>::empty() =~= Seq::empty());
    }
}

/// Whether what has been found of a map entry is what was seen of it.
spec fn has_found(
    found_key: Option<ScalarValue>,
    found_value: bool,
    seen: (Option<ScalarModel>, Option<ValueModel>),
) -> bool {
    &&& found_value == (seen.1 is Some)
    &&& match found_key {
        Some(key) => seen.0 == Some(key@),
        None => seen.0 is None,
    }
}

/// Decode a single `map<K, V>` entry message: its key is returned, and its
/// value is held.
pub fn decode_map_entry(
    schema: &[Descriptor],
    key: ScalarType,
    value_kind: MapValue,
    linked: Option<&LinkedRef>,
    entry: &[u8],
    field: usize,
    events: &mut Vec<Event>,
    depth: usize,
) -> (result: Result<ScalarValue, DecodeError>)
    ensures
        match decoded_entry(
            schema_view(schema@),
            linked_view(linked),
            key,
            value_kind,
            entry@,
            depth as nat,
        ) {
            Err(error) => result matches Err(e) && e == error,
            Ok((k, _)) => result matches Ok(found) && found@ == k,
        },
        events_model(final(events)@) == events_model(old(events)@) + entry_events(
            schema_view(schema@),
            linked_view(linked),
            key,
            value_kind,
            field,
            entry@,
            (None, None),
            depth as nat,
        ),
    decreases level(depth as nat), 4nat, 0nat,
{
    let ghost views = schema_view(schema@);
    let ghost link = linked_view(linked);
    let ghost before = events_model(events@);
    let ghost mut seen: (Option<ScalarModel>, Option<ValueModel>) = (None, None);
    let mut reader = Reader::new(entry);
    let mut found_key: Option<ScalarValue> = None;
    let mut found_value: bool = false;
    while !reader.is_empty()
        invariant
            views == schema_view(schema@),
            link == linked_view(linked),
            before == events_model(old(events)@),
            has_found(found_key, found_value, seen),
            entry_fields(views, link, key, value_kind, reader.rest(), seen, depth as nat)
                == entry_fields(
                views,
                link,
                key,
                value_kind,
                entry@,
                (None, None),
                depth as nat,
            ),
            events_model(events@) + entry_events(
                views,
                link,
                key,
                value_kind,
                field,
                reader.rest(),
                seen,
                depth as nat,
            ) == before + entry_events(
                views,
                link,
                key,
                value_kind,
                field,
                entry@,
                (None, None),
                depth as nat,
            ),
        decreases reader.rest().len(),
    {
        let ghost s = reader.rest();
        let ghost so_far = events_model(events@);
        let ghost first = entry_next_events(
            views,
            link,
            key,
            value_kind,
            field,
            s,
            depth as nat,
        );
        let ghost next = entry_next(views, link, key, value_kind, s, seen, depth as nat);
        proof {
            lemma_field_used(s);
            lemma_entry_next(views, link, key, value_kind, field, s, seen, depth as nat);
        }
        let result = decode_entry_field(
            schema,
            key,
            value_kind,
            linked,
            &mut reader,
            &mut found_key,
            &mut found_value,
            Ghost(seen),
            field,
            events,
            depth,
        );
        proof {
            match next {
                Ok(next) => {
                    let rest = entry_events(
                        views,
                        link,
                        key,
                        value_kind,
                        field,
                        reader.rest(),
                        next,
                        depth as nat,
                    );
                    assert(so_far + (first + rest) =~= so_far + first + rest);
                    seen = next;
                },
                Err(_) => {
                    assert(first + Seq::<EventModel>::empty() =~= first);
                },
            }
        }
        result?;
    }
    if !found_value {
        let (arrived, result) = default_map_value(schema, value_kind, linked, depth);
        hold_arrived(events, field, arrived);
        result?;
    } else {
        proof {
            assert(events_model(events@) + Seq::<EventModel>::empty() =~= events_model(events@));
        }
    }
    match found_key {
        Some(k) => Ok(k),
        None => Ok(scalar_default(key)),
    }
}

/// What arrives in place of a map value that its entry omits, and the error if
/// there is one.
fn default_map_value(
    schema: &[Descriptor],
    value_kind: MapValue,
    linked: Option<&LinkedRef>,
    depth: usize,
) -> (arrived: (Option<Arrived>, Result<(), DecodeError>))
    ensures
        arrived_model(arrived.0) == omitted_arrival(
            schema_view(schema@),
            linked_view(linked),
            value_kind,
            depth as nat,
        ),
        error_of(arrived.1) == error_of(
            omitted_value(schema_view(schema@), linked_view(linked), value_kind, depth as nat),
        ),
    decreases level(depth as nat), 1nat, 0nat,
{
    match value_kind {
        MapValue::Scalar(scalar) => (Some(Arrived::Scalar(scalar_default(scalar))), Ok(())),
        MapValue::Enum => (Some(Arrived::Enum(0)), Ok(())),
        MapValue::Message => {
            let empty: Vec<u8> = Vec::new();
            proof {
                assert(empty@ =~= Seq::<u8>::empty());
            }
            arrived_message(decode_message_value(schema, linked, empty.as_slice(), depth))
        },
        MapValue::Timestamp => (Some(Arrived::Timestamp { secs: 0, nanos: 0 }), Ok(())),
        MapValue::Duration => (Some(Arrived::Duration { secs: 0, nanos: 0 }), Ok(())),
    }
}

/// A message as far as it has been decoded.
struct Partial {
    events: Vec<Event>,
    /// Whether the list or map of each field is still there: a later member of
    /// its oneof group can clear it.
    uncleared: Vec<bool>,
    owners: HashMap<u32, usize>,
    unknown: Vec<u8>,
}

/// Whether lists and maps that are not cleared, oneof owners and unknown bytes
/// are those of a message with the given fields of which `so_far` has been
/// decoded.
#[verifier::opaque]
spec fn in_step(
    uncleared: Seq<bool>,
    owners: Map<u32, usize>,
    unknown: Seq<u8>,
    fields: Seq<FieldView>,
    so_far: Decoding,
) -> bool {
    &&& owners == so_far.owners
    &&& unknown == so_far.unknown
    &&& uncleared.len() == fields.len()
    &&& so_far.fields.len() == fields.len()
    &&& forall|i: int|
        0 <= i < fields.len() && (#[trigger] fields[i]).kind is MapOf ==> uncleared[i] == (
        so_far.fields[i] is Entries)
    &&& forall|i: int|
        0 <= i < fields.len() && !((#[trigger] fields[i]).kind is MapOf) && fields[i].label
            == Label::Repeated ==> uncleared[i] == (so_far.fields[i] is List)
    &&& forall|group: u32| #[trigger]
        so_far.owners.contains_key(group) ==> so_far.owners[group] < fields.len()
}

impl Partial {
    /// Whether this is about a message with the given fields of which `so_far`
    /// has been decoded.
    spec fn tracks(&self, fields: Seq<FieldView>, so_far: Decoding) -> bool {
        in_step(self.uncleared@, self.owners@, self.unknown@, fields, so_far)
    }

    fn new(desc: &Descriptor) -> (partial: Partial)
        ensures
            partial.events@.len() == 0,
            partial.tracks(desc@.message.fields, nothing_decoded(desc@.message.fields)),
    {
        proof {
            reveal(in_step);
        }
        let count: usize = desc.field_count();
        let mut uncleared: Vec<bool> = Vec::new();
        let mut i: usize = 0;
        while i < count
            invariant
                i <= count,
                uncleared@.len() == i,
                forall|j: int| 0 <= j < i ==> #[trigger] uncleared@[j],
            decreases count - i,
        {
            uncleared.push(true);
            i = i + 1;
        }
        Partial { events: Vec::new(), uncleared, owners: HashMap::new(), unknown: Vec::new() }
    }

    /// Keep a field that the schema does not know.
    fn keep(
        &mut self,
        raw: &[u8],
        Ghost(fields): Ghost<Seq<FieldView>>,
        Ghost(so_far): Ghost<Decoding>,
    )
        requires
            old(self).tracks(fields, so_far),
        ensures
            final(self).events@ == old(self).events@,
            final(self).tracks(fields, so_far.keep(raw@)),
    {
        self.unknown.extend_from_slice(raw);
        proof {
            reveal(in_step);
            assert(self.unknown@ =~= old(self).unknown@ + raw@);
        }
    }

    /// A oneof member about to be set clears any earlier member of its group:
    /// protobuf semantics are "last one on the wire wins" (else the instance
    /// would have two members set and fail to re-encode).
    fn claim(
        &mut self,
        group: Option<u32>,
        index: usize,
        Ghost(fields): Ghost<Seq<FieldView>>,
        Ghost(so_far): Ghost<Decoding>,
    )
        requires
            old(self).tracks(fields, so_far),
            index < fields.len(),
        ensures
            final(self).tracks(fields, so_far.claim(group, index)),
            events_model(final(self).events@) == events_model(old(self).events@) + claim_events(
                so_far,
                group,
                index,
            ),
    {
        let ghost before = events_model(self.events@);
        proof {
            reveal(in_step);
        }
        if let Some(group) = group {
            if let Some(previous) = self.owners.insert(group, index) {
                if previous != index {
                    self.uncleared.set(previous, false);
                    self.events.push(Event::Clear { field: previous });
                }
            }
        }
        proof {
            assert(events_model(self.events@) =~= before + claim_events(so_far, group, index));
        }
    }

    /// Store a value that has arrived for a field.
    fn store(
        &mut self,
        group: Option<u32>,
        index: usize,
        value: Arrived,
        Ghost(model): Ghost<ValueModel>,
        Ghost(fields): Ghost<Seq<FieldView>>,
        Ghost(so_far): Ghost<Decoding>,
    )
        requires
            old(self).tracks(fields, so_far),
            index < fields.len(),
            !(fields[index as int].kind is MapOf),
            fields[index as int].label != Label::Repeated,
        ensures
            final(self).tracks(
                fields,
                so_far.claim(group, index).set(index, FieldModel::One(model)),
            ),
            events_model(final(self).events@) == events_model(old(self).events@) + claim_events(
                so_far,
                group,
                index,
            ).push(EventModel::Store { field: index, value: value.model() }),
    {
        self.claim(group, index, Ghost(fields), Ghost(so_far));
        let ghost claimed = events_model(self.events@);
        self.events.push(Event::Store { field: index, value });
        proof {
            reveal(in_step);
            let event = EventModel::Store { field: index, value: value.model() };
            assert(events_model(self.events@) =~= claimed.push(event));
            assert(events_model(self.events@) =~= events_model(old(self).events@) + claim_events(
                so_far,
                group,
                index,
            ).push(event));
        }
    }

    /// Make sure of the list of a field to which elements have been appended.
    fn extended(
        &mut self,
        group: Option<u32>,
        index: usize,
        Ghost(elements): Ghost<Seq<ValueModel>>,
        Ghost(fields): Ghost<Seq<FieldView>>,
        Ghost(so_far): Ghost<Decoding>,
    ) -> (result: Result<(), DecodeError>)
        requires
            old(self).tracks(fields, so_far),
            index < fields.len(),
            !(fields[index as int].kind is MapOf),
            fields[index as int].label == Label::Repeated,
        ensures
            match so_far.claim(group, index).fields[index as int] {
                FieldModel::List(list) => {
                    &&& result is Ok
                    &&& final(self).tracks(
                        fields,
                        so_far.claim(group, index).set(index, FieldModel::List(list + elements)),
                    )
                },
                _ => result == Err::<(), DecodeError>(DecodeError::ClearedList),
            },
            events_model(final(self).events@) == events_model(old(self).events@) + claim_events(
                so_far,
                group,
                index,
            ),
    {
        self.claim(group, index, Ghost(fields), Ghost(so_far));
        proof {
            reveal(in_step);
        }
        if self.uncleared[index] {
            Ok(())
        } else {
            Err(DecodeError::ClearedList)
        }
    }

    /// Put the value that is held into the map of a field.
    fn put(
        &mut self,
        group: Option<u32>,
        index: usize,
        key: ScalarValue,
        Ghost(value): Ghost<ValueModel>,
        Ghost(fields): Ghost<Seq<FieldView>>,
        Ghost(so_far): Ghost<Decoding>,
    ) -> (result: Result<(), DecodeError>)
        requires
            old(self).tracks(fields, so_far),
            index < fields.len(),
            fields[index as int].kind is MapOf,
        ensures
            match so_far.claim(group, index).fields[index as int] {
                FieldModel::Entries(entries) => {
                    &&& result is Ok
                    &&& final(self).tracks(
                        fields,
                        so_far.claim(group, index).set(
                            index,
                            FieldModel::Entries(put(entries, key@, value)),
                        ),
                    )
                },
                _ => result == Err::<(), DecodeError>(DecodeError::ClearedList),
            },
            events_model(final(self).events@) == events_model(old(self).events@) + (claim_events(
                so_far,
                group,
                index,
            ) + (if so_far.claim(group, index).fields[index as int] is Entries {
                seq![EventModel::Put { field: index, key: key@ }]
            } else {
                Seq::empty()
            })),
    {
        let ghost before = events_model(self.events@);
        let ghost claims = claim_events(so_far, group, index);
        self.claim(group, index, Ghost(fields), Ghost(so_far));
        proof {
            reveal(in_step);
            assert(before + (claims + Seq::<EventModel>::empty()) =~= before + claims);
        }
        if !self.uncleared[index] {
            return Err(DecodeError::ClearedList);
        }
        let ghost claimed = events_model(self.events@);
        self.events.push(Event::Put { field: index, key });
        proof {
            let event = EventModel::Put { field: index, key: key@ };
            assert(events_model(self.events@) =~= claimed.push(event));
            assert(events_model(self.events@) =~= before + (claims + seq![event]));
        }
        Ok(())
    }
}

/// A message after the field at the front of `s`.
pub open spec fn with_next(
    schema: Seq<DescriptorView>,
    desc: DescriptorView,
    s: Seq<u8>,
    so_far: Decoding,
    depth: nat,
) -> Result<Decoding, DecodeError> {
    match field_in(s).result {
        Err(error) => Err(DecodeError::Wire(error)),
        Ok(field) => with_field(
            schema,
            desc,
            field,
            s.take(field_in(s).used as int),
            so_far,
            depth,
        ),
    }
}

/// The events that the field at the front of `s` causes.
pub open spec fn next_events(
    schema: Seq<DescriptorView>,
    desc: DescriptorView,
    s: Seq<u8>,
    so_far: Decoding,
    depth: nat,
) -> Seq<EventModel> {
    match field_in(s).result {
        Err(_) => Seq::empty(),
        Ok(field) => field_events(schema, desc, field, so_far, depth),
    }
}

/// Skip a field and keep its raw bytes.
fn keep_unknown(
    reader: &mut Reader<'_>,
    start: usize,
    wire_type: WireType,
    partial: &mut Partial,
    Ghost(fields): Ghost<Seq<FieldView>>,
    Ghost(so_far): Ghost<Decoding>,
) -> (result: Result<(), DecodeError>)
    requires
        start <= old(reader).offset(),
        old(partial).tracks(fields, so_far),
    ensures
        final(partial).events@ == old(partial).events@,
        match payload_in(old(reader).rest(), wire_type).result {
            Err(error) => result == Err::<(), DecodeError>(DecodeError::Wire(error)),
            Ok(_) => {
                let raw = old(reader).bytes().subrange(
                    start as int,
                    old(reader).offset() as int + payload_in(old(reader).rest(), wire_type).used,
                );
                &&& result is Ok
                &&& final(partial).tracks(fields, so_far.keep(raw))
            },
        },
        old(reader).advanced(final(reader), payload_in(old(reader).rest(), wire_type).used),
{
    match reader.skip(wire_type) {
        Ok(_) => {},
        Err(error) => {
            return Err(DecodeError::Wire(error));
        },
    }
    partial.keep(reader.raw_since(start), Ghost(fields), Ghost(so_far));
    Ok(())
}

/// A message after one more field, whose payload may be malformed.
spec fn with_payload(
    schema: Seq<DescriptorView>,
    desc: DescriptorView,
    number: u32,
    payload: Result<Payload, WireError>,
    raw: Seq<u8>,
    so_far: Decoding,
    depth: nat,
) -> Result<Decoding, DecodeError> {
    match payload {
        Err(error) => Err(DecodeError::Wire(error)),
        Ok(payload) => with_field(
            schema,
            desc,
            WireField { number, payload },
            raw,
            so_far,
            depth,
        ),
    }
}

/// The events that a field causes, whose payload may be malformed.
spec fn payload_events(
    schema: Seq<DescriptorView>,
    desc: DescriptorView,
    number: u32,
    payload: Result<Payload, WireError>,
    so_far: Decoding,
    depth: nat,
) -> Seq<EventModel> {
    match payload {
        Err(_) => Seq::empty(),
        Ok(payload) => field_events(schema, desc, WireField { number, payload }, so_far, depth),
    }
}

/// A field that the schema does not know, or whose wire type disagrees with it,
/// is kept and causes no event.
proof fn lemma_kept_field(
    schema: Seq<DescriptorView>,
    desc: DescriptorView,
    wire_field: WireField,
    raw: Seq<u8>,
    so_far: Decoding,
    depth: nat,
)
    requires
        match field_at(desc.message.fields, wire_field.number) {
            None => true,
            Some(i) => {
                let field = desc.message.fields[i as int];
                &&& field.kind is MapOf || field.label != Label::Repeated
                &&& wire_field.payload.wire() != kind_wire(field.kind)
            },
        },
    ensures
        with_field(schema, desc, wire_field, raw, so_far, depth) == Ok::<Decoding, DecodeError>(
            so_far.keep(raw),
        ),
        field_events(schema, desc, wire_field, so_far, depth) == Seq::<EventModel>::empty(),
{
    reveal(with_field);
    reveal(field_events);
}

/// What a repeated field does.
proof fn lemma_list_field(
    schema: Seq<DescriptorView>,
    desc: DescriptorView,
    wire_field: WireField,
    i: usize,
    raw: Seq<u8>,
    so_far: Decoding,
    depth: nat,
)
    requires
        field_at(desc.message.fields, wire_field.number) == Some(i as nat),
        !(desc.message.fields[i as int].kind is MapOf),
        desc.message.fields[i as int].label == Label::Repeated,
    ensures
        ({
            let field = desc.message.fields[i as int];
            let linked = desc.linked_ref(wire_field.number);
            let payload = wire_field.payload;
            let claimed = so_far.claim(field.oneof_index, i);
            let claims = claim_events(so_far, field.oneof_index, i);
            let elements = decoded_elements(schema, linked, field.kind, payload, depth);
            let events = elements_events(schema, linked, field.kind, i, payload, depth);
            let after = with_field(schema, desc, wire_field, raw, so_far, depth);
            let all = field_events(schema, desc, wire_field, so_far, depth);
            if holds_elements(field.kind, payload.wire()) {
                match elements {
                    Err(error) => after == Err::<Decoding, DecodeError>(error) && all == events,
                    Ok(elements) => {
                        &&& all == events + claims
                        &&& match claimed.fields[i as int] {
                            FieldModel::List(list) => after == Ok::<Decoding, DecodeError>(
                                claimed.set(i, FieldModel::List(list + elements)),
                            ),
                            _ => after == Err::<Decoding, DecodeError>(DecodeError::ClearedList),
                        }
                    },
                }
            } else {
                after == Ok::<Decoding, DecodeError>(claimed.keep(raw)) && all == claims
            }
        }),
{
    reveal(with_field);
    reveal(field_events);
    let events = elements_events(
        schema,
        desc.linked_ref(wire_field.number),
        desc.message.fields[i as int].kind,
        i,
        wire_field.payload,
        depth,
    );
    assert(events + Seq::<EventModel>::empty() =~= events);
}

/// Decode the payload of a map field.
fn decode_map_field(
    schema: &[Descriptor],
    desc: &Descriptor,
    number: u32,
    idx: usize,
    reader: &mut Reader<'_>,
    partial: &mut Partial,
    Ghost(raw): Ghost<Seq<u8>>,
    Ghost(so_far): Ghost<Decoding>,
    depth: usize,
) -> (result: Result<(), DecodeError>)
    requires
        field_at(desc@.message.fields, number) == Some(idx as nat),
        idx < desc@.message.fields.len(),
        desc@.message.fields[idx as int].kind is MapOf,
        old(partial).tracks(desc@.message.fields, so_far),
    ensures
        match with_payload(
            schema_view(schema@),
            desc@,
            number,
            payload_in(old(reader).rest(), WireType::Len).result,
            raw,
            so_far,
            depth as nat,
        ) {
            Err(error) => result == Err::<(), DecodeError>(error),
            Ok(expected) => {
                &&& result is Ok
                &&& final(partial).tracks(desc@.message.fields, expected)
            },
        },
        events_model(final(partial).events@) == events_model(old(partial).events@)
            + payload_events(
            schema_view(schema@),
            desc@,
            number,
            payload_in(old(reader).rest(), WireType::Len).result,
            so_far,
            depth as nat,
        ),
        old(reader).advanced(final(reader), payload_in(old(reader).rest(), WireType::Len).used),
    decreases level(depth as nat), 5nat, 0nat,
{
    let ghost fields = desc@.message.fields;
    let ghost before = events_model(partial.events@);
    proof {
        reveal(with_field);
        reveal(field_events);
        assert(before + Seq::<EventModel>::empty() =~= before);
    }
    let field = desc.field(idx);
    let linked = desc.linked_ref(number);
    if let FieldKind::MapOf { key, value: value_kind } = field.kind {
        let entry = read_chunk(reader)?;
        let ghost found = decoded_entry(
            schema_view(schema@),
            linked_view(linked),
            key,
            value_kind,
            entry@,
            depth as nat,
        );
        let events = &mut partial.events;
        let result = decode_map_entry(
            schema,
            key,
            value_kind,
            linked,
            entry,
            idx,
            events,
            depth,
        );
        let ghost held = entry_events(
            schema_view(schema@),
            linked_view(linked),
            key,
            value_kind,
            idx,
            entry@,
            (None, None),
            depth as nat,
        );
        proof {
            assert(held + Seq::<EventModel>::empty() =~= held);
        }
        let k = result?;
        let result = partial.put(
            field.oneof_index,
            idx,
            k,
            Ghost(found->Ok_0.1),
            Ghost(fields),
            Ghost(so_far),
        );
        proof {
            let claims = claim_events(so_far, field.oneof_index, idx);
            let last = if so_far.claim(field.oneof_index, idx).fields[idx as int] is Entries {
                seq![EventModel::Put { field: idx, key: k@ }]
            } else {
                Seq::empty()
            };
            assert(before + held + (claims + last) =~= before + (held + (claims + last)));
        }
        result?;
    }
    Ok(())
}

/// Decode the payload of a repeated field.
fn decode_list_field(
    schema: &[Descriptor],
    desc: &Descriptor,
    number: u32,
    idx: usize,
    wire_type: WireType,
    start: usize,
    reader: &mut Reader<'_>,
    partial: &mut Partial,
    Ghost(so_far): Ghost<Decoding>,
    depth: usize,
) -> (result: Result<(), DecodeError>)
    requires
        field_at(desc@.message.fields, number) == Some(idx as nat),
        idx < desc@.message.fields.len(),
        !(desc@.message.fields[idx as int].kind is MapOf),
        desc@.message.fields[idx as int].label == Label::Repeated,
        old(partial).tracks(desc@.message.fields, so_far),
        start <= old(reader).offset(),
    ensures
        match with_payload(
            schema_view(schema@),
            desc@,
            number,
            payload_in(old(reader).rest(), wire_type).result,
            old(reader).bytes().subrange(
                start as int,
                old(reader).offset() as int + payload_in(old(reader).rest(), wire_type).used,
            ),
            so_far,
            depth as nat,
        ) {
            Err(error) => result == Err::<(), DecodeError>(error),
            Ok(expected) => {
                &&& result is Ok
                &&& final(partial).tracks(desc@.message.fields, expected)
            },
        },
        events_model(final(partial).events@) == events_model(old(partial).events@)
            + payload_events(
            schema_view(schema@),
            desc@,
            number,
            payload_in(old(reader).rest(), wire_type).result,
            so_far,
            depth as nat,
        ),
        old(reader).advanced(final(reader), payload_in(old(reader).rest(), wire_type).used),
    decreases level(depth as nat), 5nat, 0nat,
{
    let ghost fields = desc@.message.fields;
    let ghost before = events_model(partial.events@);
    let ghost payload = payload_in(reader.rest(), wire_type).result;
    let ghost raw = reader.bytes().subrange(
        start as int,
        reader.offset() as int + payload_in(reader.rest(), wire_type).used,
    );
    proof {
        if let Ok(payload) = payload {
            lemma_list_field(
                schema_view(schema@),
                desc@,
                WireField { number, payload },
                idx,
                raw,
                so_far,
                depth as nat,
            );
        }
        assert(before + Seq::<EventModel>::empty() =~= before);
    }
    let field = desc.field(idx);
    let linked = desc.linked_ref(number);
    let events = &mut partial.events;
    let result =
        decode_repeated(schema, field.kind, linked, wire_type, reader, idx, events, depth);
    let ghost appended = match payload {
        Ok(payload) if holds_elements(field.kind, wire_type) => elements_events(
            schema_view(schema@),
            linked_view(linked),
            field.kind,
            idx,
            payload,
            depth as nat,
        ),
        _ => Seq::empty(),
    };
    let ghost claims = claim_events(so_far, field.oneof_index, idx);
    proof {
        assert(before + appended + claims =~= before + (appended + claims));
    }
    let handled = result?;
    if !handled {
        // Wire type didn't match the repeated field; preserve the bytes as
        // unknown rather than dropping them silently.
        keep_unknown(reader, start, wire_type, partial, Ghost(fields), Ghost(so_far))?;
        partial.claim(field.oneof_index, idx, Ghost(fields), Ghost(so_far.keep(raw)));
        proof {
            assert(so_far.keep(raw).claim(field.oneof_index, idx) =~= so_far.claim(
                field.oneof_index,
                idx,
            ).keep(raw));
        }
        return Ok(());
    }
    let ghost elements = decoded_elements(
        schema_view(schema@),
        linked_view(linked),
        field.kind,
        payload->Ok_0,
        depth as nat,
    );
    partial.extended(
        field.oneof_index,
        idx,
        Ghost(elements->Ok_0),
        Ghost(fields),
        Ghost(so_far),
    )
}

/// Decode the payload of a singular field.
fn decode_single_field(
    schema: &[Descriptor],
    desc: &Descriptor,
    number: u32,
    idx: usize,
    reader: &mut Reader<'_>,
    partial: &mut Partial,
    Ghost(raw): Ghost<Seq<u8>>,
    Ghost(so_far): Ghost<Decoding>,
    depth: usize,
) -> (result: Result<(), DecodeError>)
    requires
        field_at(desc@.message.fields, number) == Some(idx as nat),
        idx < desc@.message.fields.len(),
        !(desc@.message.fields[idx as int].kind is MapOf),
        desc@.message.fields[idx as int].label != Label::Repeated,
        old(partial).tracks(desc@.message.fields, so_far),
    ensures
        ({
            let wire = kind_wire(desc@.message.fields[idx as int].kind);
            let payload = payload_in(old(reader).rest(), wire);
            &&& match with_payload(
                schema_view(schema@),
                desc@,
                number,
                payload.result,
                raw,
                so_far,
                depth as nat,
            ) {
                Err(error) => result == Err::<(), DecodeError>(error),
                Ok(expected) => {
                    &&& result is Ok
                    &&& final(partial).tracks(desc@.message.fields, expected)
                },
            }
            &&& events_model(final(partial).events@) == events_model(old(partial).events@)
                + payload_events(
                schema_view(schema@),
                desc@,
                number,
                payload.result,
                so_far,
                depth as nat,
            )
            &&& old(reader).advanced(final(reader), payload.used)
        }),
    decreases level(depth as nat), 5nat, 0nat,
{
    let ghost fields = desc@.message.fields;
    let ghost before = events_model(partial.events@);
    proof {
        reveal(with_field);
        reveal(field_events);
        assert(before + Seq::<EventModel>::empty() =~= before);
    }
    let field = desc.field(idx);
    let linked = desc.linked_ref(number);
    let ghost payload = payload_in(reader.rest(), kind_wire(field.kind)).result;
    let (arrived, result) = decode_value(schema, field.kind, linked, reader, depth);
    if let Some(value) = arrived {
        let ghost model = decoded_value(
            schema_view(schema@),
            linked_view(linked),
            field.kind,
            payload->Ok_0,
            depth as nat,
        );
        partial.store(
            field.oneof_index,
            idx,
            value,
            Ghost(model->Ok_0),
            Ghost(fields),
            Ghost(so_far),
        );
    }
    result
}

/// Decode the next field of a message.
fn decode_field(
    schema: &[Descriptor],
    desc: &Descriptor,
    reader: &mut Reader<'_>,
    partial: &mut Partial,
    Ghost(so_far): Ghost<Decoding>,
    depth: usize,
) -> (result: Result<(), DecodeError>)
    requires
        old(partial).tracks(desc@.message.fields, so_far),
        old(reader).rest().len() > 0,
    ensures
        match with_next(schema_view(schema@), desc@, old(reader).rest(), so_far, depth as nat) {
            Err(error) => result == Err::<(), DecodeError>(error),
            Ok(expected) => {
                &&& result is Ok
                &&& final(partial).tracks(desc@.message.fields, expected)
            },
        },
        events_model(final(partial).events@) == events_model(old(partial).events@) + next_events(
            schema_view(schema@),
            desc@,
            old(reader).rest(),
            so_far,
            depth as nat,
        ),
        old(reader).advanced(final(reader), field_in(old(reader).rest()).used),
    decreases level(depth as nat), 6nat, 0nat,
{
    let ghost s = reader.rest();
    let ghost whole = field_in(s);
    let ghost fields = desc@.message.fields;
    let ghost before = events_model(partial.events@);
    proof {
        lemma_field_used(s);
        assert(before + Seq::<EventModel>::empty() =~= before);
    }
    let start: usize = reader.pos();
    let (number, wire_type) = match reader.read_tag() {
        Ok(tag) => tag,
        Err(error) => {
            return Err(DecodeError::Wire(error));
        },
    };
    let ghost after_tag = *reader;
    let ghost payload = payload_in(after_tag.rest(), wire_type);
    proof {
        assert(after_tag.rest() =~= s.skip(wire::tag_in(s).used as int));
        assert(after_tag.bytes().subrange(start as int, start + whole.used) =~= s.take(
            whole.used as int,
        ));
        assert(s.skip(whole.used as int) =~= after_tag.rest().skip(payload.used as int));
        if let Ok(payload) = payload.result {
            let wire_field = WireField { number, payload };
            let kept = match field_at(desc@.message.fields, number) {
                None => true,
                Some(i) => {
                    let field = desc@.message.fields[i as int];
                    &&& field.kind is MapOf || field.label != Label::Repeated
                    &&& payload.wire() != kind_wire(field.kind)
                },
            };
            if kept {
                lemma_kept_field(
                    schema_view(schema@),
                    desc@,
                    wire_field,
                    s.take(whole.used as int),
                    so_far,
                    depth as nat,
                );
            }
        }
    }
    let idx = match desc.find(number) {
        Some(idx) => idx,
        None => {
            return keep_unknown(
                reader,
                start,
                wire_type,
                partial,
                Ghost(fields),
                Ghost(so_far),
            );
        },
    };
    let field = desc.field(idx);
    let is_map = matches!(field.kind, FieldKind::MapOf { .. });

    // For singular fields, a wire type that disagrees with the schema is
    // treated as unknown (skipped and preserved) rather than mis-decoded.
    // Repeated fields validate the wire type themselves in `decode_repeated`
    // since they accept both packed and unpacked forms.
    if (is_map || field.label != Label::Repeated) && wire_type != kind_wire_type(field.kind) {
        return keep_unknown(reader, start, wire_type, partial, Ghost(fields), Ghost(so_far));
    }
    let ghost raw = s.take(whole.used as int);
    if is_map {
        decode_map_field(
            schema,
            desc,
            number,
            idx,
            reader,
            partial,
            Ghost(raw),
            Ghost(so_far),
            depth,
        )
    } else if field.label == Label::Repeated {
        decode_list_field(
            schema,
            desc,
            number,
            idx,
            wire_type,
            start,
            reader,
            partial,
            Ghost(so_far),
            depth,
        )
    } else {
        decode_single_field(
            schema,
            desc,
            number,
            idx,
            reader,
            partial,
            Ghost(raw),
            Ghost(so_far),
            depth,
        )
    }
}

/// Decode the fields of a message.
fn decode_fields(schema: &[Descriptor], desc: &Descriptor, data: &[u8], depth: usize) -> (decoded: (
    Partial,
    Option<DecodeError>,
))
    ensures
        events_model(decoded.0.events@) == fields_events(
            schema_view(schema@),
            desc@,
            data@,
            nothing_decoded(desc@.message.fields),
            depth as nat,
        ),
        match with_fields(
            schema_view(schema@),
            desc@,
            data@,
            nothing_decoded(desc@.message.fields),
            depth as nat,
        ) {
            Err(error) => decoded.1 == Some(error),
            Ok(done) => decoded.1 is None && decoded.0.unknown@ == done.unknown,
        },
    decreases level(depth as nat), 6nat, 1nat,
{
    let ghost views = schema_view(schema@);
    let ghost nothing = nothing_decoded(desc@.message.fields);
    let ghost mut so_far = nothing;
    let mut partial = Partial::new(desc);
    let mut reader = Reader::new(data);
    proof {
        assert(events_model(partial.events@) =~= Seq::<EventModel>::empty());
        let all = fields_events(views, desc@, data@, nothing, depth as nat);
        assert(Seq::<EventModel>::empty() + all =~= all);
    }
    while !reader.is_empty()
        invariant
            views == schema_view(schema@),
            nothing == nothing_decoded(desc@.message.fields),
            partial.tracks(desc@.message.fields, so_far),
            with_fields(views, desc@, reader.rest(), so_far, depth as nat) == with_fields(
                views,
                desc@,
                data@,
                nothing,
                depth as nat,
            ),
            events_model(partial.events@) + fields_events(
                views,
                desc@,
                reader.rest(),
                so_far,
                depth as nat,
            ) == fields_events(views, desc@, data@, nothing, depth as nat),
        decreases reader.rest().len(),
    {
        let ghost s = reader.rest();
        let ghost events = events_model(partial.events@);
        let ghost first = next_events(views, desc@, s, so_far, depth as nat);
        let ghost next = with_next(views, desc@, s, so_far, depth as nat);
        proof {
            lemma_field_used(s);
            lemma_with_next(views, desc@, s, so_far, depth as nat);
            lemma_next_events(views, desc@, s, so_far, depth as nat);
        }
        let result = decode_field(schema, desc, &mut reader, &mut partial, Ghost(so_far), depth);
        proof {
            match next {
                Ok(next) => {
                    let rest = fields_events(views, desc@, reader.rest(), next, depth as nat);
                    assert(events + (first + rest) =~= events + first + rest);
                    so_far = next;
                },
                Err(_) => {
                    assert(first + Seq::<EventModel>::empty() =~= first);
                },
            }
        }
        if let Err(error) = result {
            return (partial, Some(error));
        }
    }
    proof {
        reveal(in_step);
        let events = events_model(partial.events@);
        assert(events + Seq::<EventModel>::empty() =~= events);
    }
    (partial, None)
}

/// Decoding fields is decoding the first and then the others.
pub proof fn lemma_with_next(
    schema: Seq<DescriptorView>,
    desc: DescriptorView,
    s: Seq<u8>,
    so_far: Decoding,
    depth: nat,
)
    requires
        s.len() > 0,
    ensures
        with_fields(schema, desc, s, so_far, depth) == (match with_next(
            schema,
            desc,
            s,
            so_far,
            depth,
        ) {
            Err(error) => Err(error),
            Ok(so_far) => with_fields(
                schema,
                desc,
                s.skip(field_in(s).used as int),
                so_far,
                depth,
            ),
        }),
{
    reveal(with_field);
}

/// The events of fields are those of the first and then those of the others.
pub proof fn lemma_next_events(
    schema: Seq<DescriptorView>,
    desc: DescriptorView,
    s: Seq<u8>,
    so_far: Decoding,
    depth: nat,
)
    requires
        s.len() > 0,
    ensures
        fields_events(schema, desc, s, so_far, depth) == next_events(
            schema,
            desc,
            s,
            so_far,
            depth,
        ) + (match with_next(schema, desc, s, so_far, depth) {
            Err(_) => Seq::empty(),
            Ok(so_far) => fields_events(
                schema,
                desc,
                s.skip(field_in(s).used as int),
                so_far,
                depth,
            ),
        }),
{
    reveal(field_events);
    if field_in(s).result is Err {
        assert(Seq::<EventModel>::empty() + Seq::<EventModel>::empty() =~= Seq::empty());
    }
}

/// Decode `data` into a new instance of the class `class` according to the
/// descriptor with the given index.
///
/// What is handed out builds the message that `data` stands for, or ends with
/// the error if `data` stands for none.
///
/// `depth` is the current message-nesting level (0 at the top); it is bounded
/// by [`MAX_DEPTH`] so adversarially nested input cannot exhaust the stack.
pub fn decode_message(
    schema: &[Descriptor],
    class: usize,
    index: usize,
    data: &[u8],
    depth: usize,
) -> (handed_out: Decoded)
    requires
        index < schema@.len(),
    ensures
        handed_out.model() == outcome(schema_view(schema@), class, index, data@, depth as nat),
        match decoded(schema_view(schema@), class, index, data@, depth as nat) {
            Ok(message) => {
                &&& handed_out.error is None
                &&& assembled(schema_view(schema@), handed_out.model(), depth as nat) == message
            },
            Err(error) => handed_out.error == Some(error),
        },
    decreases level(depth as nat), 7nat, 0nat,
{
    let (events, unknown, error) = if depth > MAX_DEPTH {
        (Vec::new(), Vec::new(), Some(DecodeError::TooDeep))
    } else {
        match decode_fields(schema, &schema[index], data, depth) {
            (partial, Some(error)) => (partial.events, Vec::new(), Some(error)),
            (partial, None) => (partial.events, partial.unknown, None),
        }
    };
    let handed_out = Decoded { class, index, events, unknown, error };
    proof {
        let views = schema_view(schema@);
        lemma_decoded_model(handed_out);
        assert(events_model(Seq::empty()) =~= Seq::empty());
        assert(handed_out.model() =~= outcome(views, class, index, data@, depth as nat));
        if decoded(views, class, index, data@, depth as nat) is Ok {
            assert forall|i: int| 0 <= i < views.len() implies (
            #[trigger] views[i]).message.fields.len() <= usize::MAX by {
                lemma_field_limit(schema@[i]);
            }
            law_events_build_message(views, class, index, data@, depth as nat);
        }
    }
    handed_out
}

// ---------------------------------------------------------------------------
// Construction
// ---------------------------------------------------------------------------

/// Where the value of an attribute comes from.
#[derive(Debug, Clone, Copy, PartialEq, Eq, Structural)]
pub enum Slot {
    /// The decoded value.
    Given,
    /// The default object with the given handle.
    Default(usize),
    /// Nothing is passed: the class fills in its own default.
    Omitted,
}

/// How an instance is built from a decoded message.
#[derive(Debug, PartialEq)]
pub struct Construction {
    /// Whether the attributes are set on a bare instance; if not, the class is
    /// called with keyword arguments.
    pub fast: bool,
    /// The source of each attribute, index-aligned with the fields.
    pub slots: Vec<Slot>,
    /// Whether the bytes of unknown fields are stored on the instance.
    pub set_unknown: bool,
}

/// Whether instances of the class are built by the fast path: it was verified
/// for exactly that class.
pub open spec fn is_fast(desc: DescriptorView, class: usize) -> bool {
    desc.fast_init matches Some(fast_init) && fast_init.class == class
}

/// Where the value of the attribute for field `i` comes from; `given` is whether
/// the decoded message has a value for it.
pub open spec fn slot_of(desc: DescriptorView, class: usize, given: bool, i: int) -> Slot {
    if given {
        Slot::Given
    } else if is_fast(desc, class) {
        Slot::Default(desc.fast_init->0.defaults[i])
    } else {
        Slot::Omitted
    }
}

/// How the instance of the class `class` for a decoded message is built, of
/// which it is known for each field whether it has a value, and whose unknown
/// fields are given.
///
/// The fast path always fills the unknown-fields slot: encode reads it on every
/// call, and a set slot keeps that read exception-free. A subclass sharing the
/// descriptor goes through its own constructor.
pub fn construction(desc: &Descriptor, class: usize, given: &[bool], unknown: &[u8]) -> (plan:
    Construction)
    requires
        given@.len() == desc@.message.fields.len(),
    ensures
        plan.fast == is_fast(desc@, class),
        plan.slots@.len() == given@.len(),
        forall|i: int|
            0 <= i < plan.slots@.len() ==> #[trigger] plan.slots@[i] == slot_of(
                desc@,
                class,
                given@[i],
                i,
            ),
        plan.set_unknown == (plan.fast || unknown@.len() > 0),
{
    let fast_init = match desc.fast_init() {
        Some(fast_init) => if fast_init.class == class {
            Some(fast_init)
        } else {
            None
        },
        None => None,
    };
    let mut slots: Vec<Slot> = Vec::new();
    let mut i: usize = 0;
    while i < given.len()
        invariant
            i <= given@.len(),
            slots@.len() == i,
            fast_init is Some == is_fast(desc@, class),
            fast_init matches Some(fast_init) ==> desc@.fast_init == Some(fast_init@)
                && fast_init.defaults@.len() == given@.len(),
            forall|j: int|
                0 <= j < i ==> #[trigger] slots@[j] == slot_of(desc@, class, given@[j], j),
        decreases given@.len() - i,
    {
        let slot = if given[i] {
            Slot::Given
        } else {
            match fast_init {
                Some(fast_init) => Slot::Default(fast_init.defaults[i]),
                None => Slot::Omitted,
            }
        };
        slots.push(slot);
        i = i + 1;
    }
    let fast = fast_init.is_some();
    Construction { fast, slots, set_unknown: fast || unknown.len() > 0 }
}

} // verus!
