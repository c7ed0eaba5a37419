//! Encode a message instance into protobuf wire bytes.
//!
//! The encoder walks a [`Descriptor`], reads each field of the instance, and
//! appends the tag + payload to the output buffer. Nested messages encode in
//! place: the length slot is reserved with [`wire::begin_len_prefix`] and
//! patched afterwards, so no temporary buffers are allocated per submessage.
//! Nested messages recurse through the child's own descriptor, so no
//! pre-resolved class references are needed here.
use vstd::prelude::*;

use crate::descriptor::{FieldKind, FieldView, Label, MapValue, ScalarType, MAX_DEPTH};
use crate::message::{linked_view, schema_view, Descriptor, DescriptorView, LinkedRef, LinkedView};
use crate::parse::in_group;
use crate::value::{
    entries_model, fields_model, lemma_field_model, lemma_message_model, scalar_payload,
    values_model, zero_scalar, FieldModel, FieldValue, Message, MessageModel, ScalarModel,
    ScalarValue, Value, ValueModel,
};
use crate::wellknown::{self, parts_bytes};
use crate::wire::{self, extended, field_bytes, payload_bytes, Payload, WireField, WireType};

verus! {

/// A message could not be encoded.
#[derive(Debug, Clone, Copy, PartialEq, Eq, Structural)]
pub enum EncodeError {
    /// Messages are nested beyond [`MAX_DEPTH`] levels.
    TooDeep,
    /// The instance has no field with this index.
    MissingField(usize),
    /// A value is not of its field's type.
    TypeMismatch,
    /// A repeated field must be a list of elements.
    NotAList,
    /// A map field must hold entries.
    NotAMap,
    /// A nested value is not a message.
    NotAMessage,
    /// At most one member of a oneof group may be set; `index` is that of the
    /// descriptor that declares the group.
    OneofConflict { index: usize, group: usize, count: u8 },
}

// ---------------------------------------------------------------------------
// The bytes of a message
// ---------------------------------------------------------------------------

/// How many levels of messages may still be entered at a nesting depth.
pub open spec fn level(depth: nat) -> nat {
    if depth <= MAX_DEPTH {
        (MAX_DEPTH + 1 - depth) as nat
    } else {
        0
    }
}

/// The descriptor by which a nested message is encoded: the linked one for an
/// instance of exactly the linked class, else the one of its own class.
pub open spec fn nested_index(
    linked: Option<LinkedView>,
    class: usize,
    own: Option<usize>,
) -> Option<usize> {
    match linked {
        Some(linked) => if linked.desc is Some && linked.class == class {
            linked.desc
        } else {
            own
        },
        None => own,
    }
}

/// The bytes of a message that is nested in one at the given depth.
pub open spec fn nested_bytes(
    schema: Seq<DescriptorView>,
    linked: Option<LinkedView>,
    message: MessageModel,
    depth: nat,
) -> Result<Seq<u8>, EncodeError>
    decreases level(depth), 0nat, 0nat,
{
    match nested_index(linked, message.class, message.own) {
        None => Err(EncodeError::NotAMessage),
        Some(index) => if index >= schema.len() {
            Err(EncodeError::NotAMessage)
        } else if depth >= MAX_DEPTH {
            Err(EncodeError::TooDeep)
        } else {
            message_bytes(schema, index, message, depth + 1)
        },
    }
}

/// The wire payload of one value of a field of the given kind.
pub open spec fn value_payload(
    schema: Seq<DescriptorView>,
    linked: Option<LinkedView>,
    kind: FieldKind,
    value: ValueModel,
    depth: nat,
) -> Result<Payload, EncodeError>
    decreases level(depth), 1nat, 0nat,
{
    match (kind, value) {
        (FieldKind::Scalar(scalar), ValueModel::Scalar(value)) => match scalar_payload(
            scalar,
            value,
        ) {
            Some(payload) => Ok(payload),
            None => Err(EncodeError::TypeMismatch),
        },
        (FieldKind::Enum, ValueModel::Enum(number)) => Ok(
            Payload::Varint(extended(number as int)),
        ),
        (FieldKind::Message, ValueModel::Message(message)) => match nested_bytes(
            schema,
            linked,
            message,
            depth,
        ) {
            Ok(bytes) => Ok(Payload::Len(bytes)),
            Err(error) => Err(error),
        },
        (FieldKind::Message, _) => Err(EncodeError::NotAMessage),
        (FieldKind::Timestamp, ValueModel::Timestamp { secs, nanos }) => Ok(
            Payload::Len(parts_bytes(secs, nanos)),
        ),
        (FieldKind::Duration, ValueModel::Duration { secs, nanos }) => Ok(
            Payload::Len(parts_bytes(secs, nanos)),
        ),
        _ => Err(EncodeError::TypeMismatch),
    }
}

/// Whether repeated values of this kind share one chunk.
pub open spec fn packed(kind: FieldKind) -> bool {
    match kind {
        FieldKind::Scalar(scalar) => scalar.packable(),
        FieldKind::Enum => true,
        _ => false,
    }
}

/// The bytes of one element of a repeated field: its payload alone if the
/// elements are packed, else a field of its own.
pub open spec fn element_bytes(number: u32, kind: FieldKind, payload: Payload) -> Seq<u8> {
    if packed(kind) {
        payload_bytes(payload)
    } else {
        field_bytes(WireField { number, payload })
    }
}

/// The bytes of the first `n` elements of a repeated field, or the first error
/// among them.
pub open spec fn elements_bytes(
    schema: Seq<DescriptorView>,
    linked: Option<LinkedView>,
    number: u32,
    kind: FieldKind,
    values: Seq<ValueModel>,
    n: nat,
    depth: nat,
) -> Result<Seq<u8>, EncodeError>
    decreases level(depth), 2nat, n,
{
    if n == 0 {
        Ok(Seq::empty())
    } else {
        match elements_bytes(schema, linked, number, kind, values, (n - 1) as nat, depth) {
            Err(error) => Err(error),
            Ok(before) => match value_payload(schema, linked, kind, values[n - 1], depth) {
                Err(error) => Err(error),
                Ok(payload) => Ok(before + element_bytes(number, kind, payload)),
            },
        }
    }
}

/// The bytes of a repeated field; packed elements form one chunk, unless there
/// are none.
pub open spec fn repeated_bytes(
    schema: Seq<DescriptorView>,
    linked: Option<LinkedView>,
    number: u32,
    kind: FieldKind,
    values: Seq<ValueModel>,
    depth: nat,
) -> Result<Seq<u8>, EncodeError>
    decreases level(depth), 3nat, 0nat,
{
    match elements_bytes(schema, linked, number, kind, values, values.len(), depth) {
        Err(error) => Err(error),
        Ok(bytes) => Ok(
            if packed(kind) && values.len() > 0 {
                field_bytes(WireField { number, payload: Payload::Len(bytes) })
            } else {
                bytes
            },
        ),
    }
}

/// A map's value type as the kind of a field.
pub open spec fn kind_of_value(value: MapValue) -> FieldKind {
    match value {
        MapValue::Scalar(scalar) => FieldKind::Scalar(scalar),
        MapValue::Enum => FieldKind::Enum,
        MapValue::Message => FieldKind::Message,
        MapValue::Timestamp => FieldKind::Timestamp,
        MapValue::Duration => FieldKind::Duration,
    }
}

/// The message bytes of a map entry: the key is field 1, the value field 2.
pub open spec fn entry_bytes(key: Payload, value: Payload) -> Seq<u8> {
    field_bytes(WireField { number: 1, payload: key }) + field_bytes(
        WireField { number: 2, payload: value },
    )
}

/// The bytes of the first `n` entries of a map, or the first error among them.
pub open spec fn entries_bytes(
    schema: Seq<DescriptorView>,
    linked: Option<LinkedView>,
    number: u32,
    key: ScalarType,
    value: MapValue,
    entries: Seq<(ScalarModel, ValueModel)>,
    n: nat,
    depth: nat,
) -> Result<Seq<u8>, EncodeError>
    decreases level(depth), 2nat, n,
{
    if n == 0 {
        Ok(Seq::empty())
    } else {
        match entries_bytes(schema, linked, number, key, value, entries, (n - 1) as nat, depth) {
            Err(error) => Err(error),
            Ok(before) => match scalar_payload(key, entries[n - 1].0) {
                None => Err(EncodeError::TypeMismatch),
                Some(key_payload) => match value_payload(
                    schema,
                    linked,
                    kind_of_value(value),
                    entries[n - 1].1,
                    depth,
                ) {
                    Err(error) => Err(error),
                    Ok(payload) => Ok(
                        before + field_bytes(
                            WireField {
                                number,
                                payload: Payload::Len(entry_bytes(key_payload, payload)),
                            },
                        ),
                    ),
                },
            },
        }
    }
}

/// Whether a value is its type's proto3 default. Floats compare by bits:
/// `-0.0` is not the default.
pub open spec fn is_default(kind: FieldKind, value: ValueModel) -> bool {
    match (kind, value) {
        (FieldKind::Scalar(scalar), ValueModel::Scalar(value)) => value == zero_scalar(scalar),
        (FieldKind::Enum, ValueModel::Enum(number)) => number == 0,
        _ => false,
    }
}

/// The bytes of one field of a message.
pub open spec fn field_value_bytes(
    schema: Seq<DescriptorView>,
    desc: DescriptorView,
    field: FieldView,
    value: FieldModel,
    depth: nat,
) -> Result<Seq<u8>, EncodeError>
    decreases level(depth), 4nat, 0nat,
{
    let linked = desc.linked_ref(field.number);
    match field.kind {
        FieldKind::MapOf { key, value: value_kind } => match value {
            FieldModel::Entries(entries) => entries_bytes(
                schema,
                linked,
                field.number,
                key,
                value_kind,
                entries,
                entries.len(),
                depth,
            ),
            _ => Err(EncodeError::NotAMap),
        },
        kind => match (field.label, value) {
            (Label::Repeated, FieldModel::List(values)) => repeated_bytes(
                schema,
                linked,
                field.number,
                kind,
                values,
                depth,
            ),
            (Label::Repeated, _) => Err(EncodeError::NotAList),
            (Label::Optional, FieldModel::Absent) => Ok(Seq::empty()),
            (_, FieldModel::One(one)) => if field.label == Label::Single && is_default(kind, one) {
                Ok(Seq::empty())
            } else {
                match value_payload(schema, linked, kind, one, depth) {
                    Err(error) => Err(error),
                    Ok(payload) => Ok(field_bytes(WireField { number: field.number, payload })),
                }
            },
            _ => Err(EncodeError::TypeMismatch),
        },
    }
}

/// The bytes of the first `n` fields of a message, or the first error among
/// them.
pub open spec fn fields_bytes(
    schema: Seq<DescriptorView>,
    desc: DescriptorView,
    values: Seq<FieldModel>,
    n: nat,
    depth: nat,
) -> Result<Seq<u8>, EncodeError>
    decreases level(depth), 5nat, n,
{
    if n == 0 {
        Ok(Seq::empty())
    } else {
        match fields_bytes(schema, desc, values, (n - 1) as nat, depth) {
            Err(error) => Err(error),
            Ok(before) => if n - 1 >= values.len() {
                Err(EncodeError::MissingField((n - 1) as usize))
            } else {
                match field_value_bytes(
                    schema,
                    desc,
                    desc.message.fields[n - 1],
                    values[n - 1],
                    depth,
                ) {
                    Err(error) => Err(error),
                    Ok(bytes) => Ok(before + bytes),
                }
            },
        }
    }
}

/// Whether a field is a set member of the oneof group.
pub open spec fn sets_member(field: FieldView, value: FieldModel, group: int) -> bool {
    &&& !(field.kind is MapOf)
    &&& field.label == Label::Optional
    &&& value != FieldModel::Absent
    &&& in_group(field.oneof_index, group)
}

/// How many of the first `n` fields are set members of the oneof group.
pub open spec fn members_set(
    fields: Seq<FieldView>,
    values: Seq<FieldModel>,
    group: int,
    n: nat,
) -> nat
    decreases n,
{
    if n == 0 {
        0
    } else {
        members_set(fields, values, group, (n - 1) as nat) + if sets_member(
            fields[n - 1],
            values[n - 1],
            group,
        ) {
            1nat
        } else {
            0nat
        }
    }
}

/// A number as far as a byte can count.
pub open spec fn counted(n: nat) -> u8 {
    if n < 255 {
        n as u8
    } else {
        255
    }
}

/// The first oneof group, from `start` on, with more than one set member, and
/// how many it has (as far as a byte can count).
pub open spec fn first_conflict(
    index: usize,
    desc: DescriptorView,
    values: Seq<FieldModel>,
    start: nat,
) -> Option<EncodeError>
    decreases desc.message.oneofs.len() - start,
{
    if start >= desc.message.oneofs.len() {
        None
    } else {
        let count = members_set(
            desc.message.fields,
            values,
            start as int,
            desc.message.fields.len(),
        );
        if count > 1 {
            Some(
                EncodeError::OneofConflict {
                    index,
                    group: start as usize,
                    count: counted(count),
                },
            )
        } else {
            first_conflict(index, desc, values, start + 1)
        }
    }
}

/// The bytes of a message: its fields in declaration order, and the unknown
/// fields that it carries.
pub open spec fn message_bytes(
    schema: Seq<DescriptorView>,
    index: usize,
    message: MessageModel,
    depth: nat,
) -> Result<Seq<u8>, EncodeError>
    decreases level(depth), 6nat, 0nat,
{
    let desc = schema[index as int];
    if depth > MAX_DEPTH {
        Err(EncodeError::TooDeep)
    } else {
        match fields_bytes(schema, desc, message.fields, desc.message.fields.len(), depth) {
            Err(error) => Err(error),
            Ok(bytes) => match first_conflict(index, desc, message.fields, 0) {
                Some(conflict) => Err(conflict),
                None => Ok(bytes + message.unknown),
            },
        }
    }
}

/// An error in one of the fields is the error of all that follow.
pub proof fn lemma_fields_error(
    schema: Seq<DescriptorView>,
    desc: DescriptorView,
    values: Seq<FieldModel>,
    n: nat,
    m: nat,
    depth: nat,
)
    requires
        n <= m,
        fields_bytes(schema, desc, values, n, depth) is Err,
    ensures
        fields_bytes(schema, desc, values, m, depth) == fields_bytes(
            schema,
            desc,
            values,
            n,
            depth,
        ),
    decreases m - n,
{
    if n < m {
        lemma_fields_error(schema, desc, values, n, (m - 1) as nat, depth);
    }
}

/// An error in one of the elements is the error of all that follow.
proof fn lemma_elements_error(
    schema: Seq<DescriptorView>,
    linked: Option<LinkedView>,
    number: u32,
    kind: FieldKind,
    values: Seq<ValueModel>,
    n: nat,
    m: nat,
    depth: nat,
)
    requires
        n <= m,
        elements_bytes(schema, linked, number, kind, values, n, depth) is Err,
    ensures
        elements_bytes(schema, linked, number, kind, values, m, depth) == elements_bytes(
            schema,
            linked,
            number,
            kind,
            values,
            n,
            depth,
        ),
    decreases m - n,
{
    if n < m {
        lemma_elements_error(schema, linked, number, kind, values, n, (m - 1) as nat, depth);
    }
}

/// An error in one of the entries is the error of all that follow.
proof fn lemma_entries_error(
    schema: Seq<DescriptorView>,
    linked: Option<LinkedView>,
    number: u32,
    key: ScalarType,
    value: MapValue,
    entries: Seq<(ScalarModel, ValueModel)>,
    n: nat,
    m: nat,
    depth: nat,
)
    requires
        n <= m,
        entries_bytes(schema, linked, number, key, value, entries, n, depth) is Err,
    ensures
        entries_bytes(schema, linked, number, key, value, entries, m, depth) == entries_bytes(
            schema,
            linked,
            number,
            key,
            value,
            entries,
            n,
            depth,
        ),
    decreases m - n,
{
    if n < m {
        lemma_entries_error(schema, linked, number, key, value, entries, n, (m - 1) as nat, depth);
    }
}

// ---------------------------------------------------------------------------
// Encoding
// ---------------------------------------------------------------------------

/// What appending to a buffer leaves: the bytes behind what was there, or an
/// error with what was there still in front.
pub open spec fn appended(
    before: Seq<u8>,
    after: Seq<u8>,
    expected: Result<Seq<u8>, EncodeError>,
    result: Result<(), EncodeError>,
) -> bool {
    match expected {
        Ok(bytes) => result is Ok && after == before + bytes,
        Err(error) => {
            &&& result == Err::<(), EncodeError>(error)
            &&& before.len() <= after.len()
            &&& after.take(before.len() as int) == before
        },
    }
}

/// The bytes of a payload that may have an error in its place.
pub open spec fn payload_result(payload: Result<Payload, EncodeError>) -> Result<
    Seq<u8>,
    EncodeError,
> {
    match payload {
        Ok(payload) => Ok(payload_bytes(payload)),
        Err(error) => Err(error),
    }
}

/// The bytes of a field whose payload may have an error in its place.
pub open spec fn field_result(number: u32, payload: Result<Payload, EncodeError>) -> Result<
    Seq<u8>,
    EncodeError,
> {
    match payload {
        Ok(payload) => Ok(field_bytes(WireField { number, payload })),
        Err(error) => Err(error),
    }
}

/// The payload of a scalar, or the error that it is of another type.
pub open spec fn scalar_result(scalar: ScalarType, value: ScalarModel) -> Result<
    Payload,
    EncodeError,
> {
    match scalar_payload(scalar, value) {
        Some(payload) => Ok(payload),
        None => Err(EncodeError::TypeMismatch),
    }
}

/// Write the tag-less payload of one scalar value (packed/map elements).
pub fn encode_scalar(buf: &mut Vec<u8>, scalar: ScalarType, value: &ScalarValue) -> (result: Result<
    (),
    EncodeError,
>)
    ensures
        appended(old(buf)@, final(buf)@, payload_result(scalar_result(scalar, value@)), result),
        result is Err ==> final(buf)@ == old(buf)@,
{
    match (scalar, value) {
        (ScalarType::Int32, ScalarValue::I32(v)) => {
            wire::write_varint(buf, wire::i64_to_bits(*v as i64));
        },
        (ScalarType::Int64, ScalarValue::I64(v)) => {
            wire::write_varint(buf, wire::i64_to_bits(*v));
        },
        (ScalarType::UInt32, ScalarValue::U32(v)) => {
            wire::write_varint(buf, *v as u64);
        },
        (ScalarType::UInt64, ScalarValue::U64(v)) => {
            wire::write_varint(buf, *v);
        },
        (ScalarType::SInt32, ScalarValue::I32(v)) => {
            wire::write_varint(buf, wire::zigzag_encode32(*v) as u64);
        },
        (ScalarType::SInt64, ScalarValue::I64(v)) => {
            wire::write_varint(buf, wire::zigzag_encode64(*v));
        },
        (ScalarType::Bool, ScalarValue::Bool(v)) => {
            wire::write_varint(
                buf,
                if *v {
                    1
                } else {
                    0
                },
            );
        },
        (ScalarType::Fixed32, ScalarValue::U32(v)) => {
            wire::write_fixed32(buf, *v);
        },
        (ScalarType::SFixed32, ScalarValue::I32(v)) => {
            wire::write_fixed32(buf, wire::i32_to_bits(*v));
        },
        (ScalarType::Float, ScalarValue::F32(bits)) => {
            wire::write_fixed32(buf, *bits);
        },
        (ScalarType::Fixed64, ScalarValue::U64(v)) => {
            wire::write_fixed64(buf, *v);
        },
        (ScalarType::SFixed64, ScalarValue::I64(v)) => {
            wire::write_fixed64(buf, wire::i64_to_bits(*v));
        },
        (ScalarType::Double, ScalarValue::F64(bits)) => {
            wire::write_fixed64(buf, *bits);
        },
        (ScalarType::String, ScalarValue::Text(text)) => {
            wire::write_len_delimited(buf, text.as_str().as_bytes());
        },
        (ScalarType::Bytes, ScalarValue::Bytes(bytes)) => {
            wire::write_len_delimited(buf, bytes.as_slice());
        },
        _ => {
            proof {
                assert(buf@.take(old(buf)@.len() as int) =~= old(buf)@);
            }
            return Err(EncodeError::TypeMismatch);
        },
    }
    Ok(())
}

/// Whether a value is a scalar of the given type.
fn is_of_type(scalar: ScalarType, value: &ScalarValue) -> (fits: bool)
    ensures
        fits == (scalar_payload(scalar, value@) is Some),
{
    match (scalar, value) {
        (
            ScalarType::Int32 | ScalarType::SInt32 | ScalarType::SFixed32,
            ScalarValue::I32(_),
        ) => true,
        (
            ScalarType::Int64 | ScalarType::SInt64 | ScalarType::SFixed64,
            ScalarValue::I64(_),
        ) => true,
        (ScalarType::UInt32 | ScalarType::Fixed32, ScalarValue::U32(_)) => true,
        (ScalarType::UInt64 | ScalarType::Fixed64, ScalarValue::U64(_)) => true,
        (ScalarType::Bool, ScalarValue::Bool(_)) => true,
        (ScalarType::Float, ScalarValue::F32(_)) => true,
        (ScalarType::Double, ScalarValue::F64(_)) => true,
        (ScalarType::String, ScalarValue::Text(_)) => true,
        (ScalarType::Bytes, ScalarValue::Bytes(_)) => true,
        _ => false,
    }
}

/// Whether a scalar is its type's default.
fn is_zero(scalar: ScalarType, value: &ScalarValue) -> (zero: bool)
    ensures
        zero == (value@ == zero_scalar(scalar)),
{
    match (scalar, value) {
        (
            ScalarType::Int32 | ScalarType::SInt32 | ScalarType::SFixed32,
            ScalarValue::I32(v),
        ) => *v == 0,
        (
            ScalarType::Int64 | ScalarType::SInt64 | ScalarType::SFixed64,
            ScalarValue::I64(v),
        ) => *v == 0,
        (ScalarType::UInt32 | ScalarType::Fixed32, ScalarValue::U32(v)) => *v == 0,
        (ScalarType::UInt64 | ScalarType::Fixed64, ScalarValue::U64(v)) => *v == 0,
        (ScalarType::Bool, ScalarValue::Bool(v)) => !*v,
        (ScalarType::Float, ScalarValue::F32(bits)) => *bits == 0,
        (ScalarType::Double, ScalarValue::F64(bits)) => *bits == 0,
        (ScalarType::String, ScalarValue::Text(text)) => {
            let empty = text.as_str().unicode_len() == 0;
            proof {
                assert(text@.len() == 0 ==> text@ =~= Seq::<char>::empty());
            }
            empty
        },
        (ScalarType::Bytes, ScalarValue::Bytes(bytes)) => {
            proof {
                assert(bytes@.len() == 0 ==> bytes@ =~= Seq::<u8>::empty());
            }
            bytes.len() == 0
        },
        _ => false,
    }
}

/// Write one tagged scalar field.
///
/// With `skip_default` (proto3 implicit presence), a value equal to its type
/// default writes nothing. Floats compare by bits, not value: `-0.0 == 0.0`
/// is true, but `-0.0` is not the proto default and must be emitted (google
/// keeps its sign).
pub fn encode_scalar_field(
    buf: &mut Vec<u8>,
    number: u32,
    scalar: ScalarType,
    value: &ScalarValue,
    skip_default: bool,
) -> (result: Result<(), EncodeError>)
    ensures
        appended(
            old(buf)@,
            final(buf)@,
            if skip_default && value@ == zero_scalar(scalar) {
                Ok(Seq::empty())
            } else {
                field_result(number, scalar_result(scalar, value@))
            },
            result,
        ),
        result is Err ==> final(buf)@ == old(buf)@,
{
    if !is_of_type(scalar, value) {
        proof {
            assert(buf@.take(old(buf)@.len() as int) =~= old(buf)@);
        }
        return Err(EncodeError::TypeMismatch);
    }
    if skip_default && is_zero(scalar, value) {
        proof {
            assert(buf@ =~= old(buf)@ + Seq::<u8>::empty());
        }
        return Ok(());
    }
    wire::write_tag(buf, number, scalar.wire_type());
    let result = encode_scalar(buf, scalar, value);
    proof {
        let payload = scalar_payload(scalar, value@)->0;
        crate::value::law_scalar_round_trip(scalar, value@);
        assert(buf@ =~= old(buf)@ + field_bytes(WireField { number, payload }));
    }
    result
}

/// Write a Timestamp/Duration submessage as one tagged length-delimited field.
pub fn write_parts_field(buf: &mut Vec<u8>, number: u32, secs: i64, nanos: i32)
    ensures
        final(buf)@ == old(buf)@ + field_bytes(
            WireField { number, payload: Payload::Len(parts_bytes(secs, nanos)) },
        ),
{
    wire::write_tag(buf, number, WireType::Len);
    let ghost tagged = buf@;
    let len_pos = wire::begin_len_prefix(buf);
    wellknown::encode_parts(buf, secs, nanos);
    proof {
        assert(buf@.take(len_pos as int) =~= tagged);
        assert(buf@.skip(len_pos + 1) =~= parts_bytes(secs, nanos));
    }
    wire::finish_len_prefix(buf, len_pos);
    proof {
        assert(buf@ =~= old(buf)@ + field_bytes(
            WireField { number, payload: Payload::Len(parts_bytes(secs, nanos)) },
        ));
    }
}

/// Encode a nested message's payload (no tag/length).
///
/// When the field was linked and the value is exactly of the linked class, the
/// descriptor cached at link time is used; otherwise that of the value's own
/// class, so duck-typed values and unlinked descriptors keep working.
pub fn encode_nested(
    schema: &[Descriptor],
    value: &Message,
    linked: Option<&LinkedRef>,
    buf: &mut Vec<u8>,
    depth: usize,
) -> (result: Result<(), EncodeError>)
    ensures
        appended(
            old(buf)@,
            final(buf)@,
            nested_bytes(schema_view(schema@), linked_view(linked), value.model(), depth as nat),
            result,
        ),
        ({
            let index = nested_index(linked_view(linked), value.class, value.own);
            (index is None || index->0 >= schema@.len() || depth >= MAX_DEPTH) ==> final(buf)@
                == old(buf)@
        }),
    decreases level(depth as nat), 0nat, 0nat,
{
    proof {
        lemma_message_model(*value);
        assert(buf@.take(old(buf)@.len() as int) =~= old(buf)@);
    }
    match nested_descriptor(linked, value.class, value.own) {
        Some(index) => {
            if index >= schema.len() {
                Err(EncodeError::NotAMessage)
            } else if depth >= MAX_DEPTH {
                Err(EncodeError::TooDeep)
            } else {
                encode_message(schema, index, value, buf, depth + 1)
            }
        },
        None => Err(EncodeError::NotAMessage),
    }
}

/// The descriptor by which a nested message is encoded.
pub fn nested_descriptor(linked: Option<&LinkedRef>, class: usize, own: Option<usize>) -> (index:
    Option<usize>)
    ensures
        index == nested_index(linked_view(linked), class, own),
{
    if let Some(linked) = linked {
        if let Some(desc) = linked.desc {
            if linked.class == class {
                return Some(desc);
            }
        }
    }
    own
}

/// Write a single tagged value (scalar, enum, or message).
pub fn encode_single(
    schema: &[Descriptor],
    buf: &mut Vec<u8>,
    number: u32,
    kind: FieldKind,
    value: &Value,
    linked: Option<&LinkedRef>,
    depth: usize,
) -> (result: Result<(), EncodeError>)
    ensures
        appended(
            old(buf)@,
            final(buf)@,
            field_result(
                number,
                value_payload(
                    schema_view(schema@),
                    linked_view(linked),
                    kind,
                    value.model(),
                    depth as nat,
                ),
            ),
            result,
        ),
        result is Err && !(kind is Message) ==> final(buf)@ == old(buf)@,
    decreases level(depth as nat), 1nat, 0nat,
{
    proof {
        assert(buf@.take(old(buf)@.len() as int) =~= old(buf)@);
    }
    match (kind, value) {
        (FieldKind::Scalar(scalar), Value::Scalar(v)) => {
            encode_scalar_field(buf, number, scalar, v, false)
        },
        (FieldKind::Enum, Value::Enum(v)) => {
            wire::write_tag(buf, number, WireType::Varint);
            wire::write_varint(buf, wire::i64_to_bits(*v as i64));
            proof {
                assert(buf@ =~= old(buf)@ + field_bytes(
                    WireField { number, payload: Payload::Varint(extended(*v as int)) },
                ));
            }
            Ok(())
        },
        (FieldKind::Message, Value::Message(message)) => {
            encode_message_field(schema, buf, number, message, linked, depth)
        },
        (FieldKind::Message, _) => Err(EncodeError::NotAMessage),
        (FieldKind::Timestamp, Value::Timestamp { secs, nanos }) => {
            write_parts_field(buf, number, *secs, *nanos);
            Ok(())
        },
        (FieldKind::Duration, Value::Duration { secs, nanos }) => {
            write_parts_field(buf, number, *secs, *nanos);
            Ok(())
        },
        _ => Err(EncodeError::TypeMismatch),
    }
}

/// Write a nested message as one tagged length-delimited field.
fn encode_message_field(
    schema: &[Descriptor],
    buf: &mut Vec<u8>,
    number: u32,
    message: &Message,
    linked: Option<&LinkedRef>,
    depth: usize,
) -> (result: Result<(), EncodeError>)
    ensures
        appended(
            old(buf)@,
            final(buf)@,
            field_result(
                number,
                value_payload(
                    schema_view(schema@),
                    linked_view(linked),
                    FieldKind::Message,
                    ValueModel::Message(message.model()),
                    depth as nat,
                ),
            ),
            result,
        ),
    decreases level(depth as nat), 0nat, 1nat,
{
    let ghost before = buf@;
    wire::write_tag(buf, number, WireType::Len);
    let ghost tagged = buf@;
    let len_pos = wire::begin_len_prefix(buf);
    let ghost begun = buf@;
    let result = encode_nested(schema, message, linked, buf, depth);
    proof {
        assert(begun.take(len_pos as int) =~= tagged);
    }
    if result.is_err() {
        proof {
            assert(buf@.take(before.len() as int) =~= buf@.take(begun.len() as int).take(
                before.len() as int,
            ));
            assert(begun.take(before.len() as int) =~= before);
        }
        return result;
    }
    let ghost bytes = nested_bytes(
        schema_view(schema@),
        linked_view(linked),
        message.model(),
        depth as nat,
    )->Ok_0;
    proof {
        assert(buf@ == begun + bytes);
        assert(buf@.take(len_pos as int) =~= tagged);
        assert(buf@.skip(len_pos + 1) =~= bytes);
    }
    wire::finish_len_prefix(buf, len_pos);
    proof {
        assert(buf@ =~= before + field_bytes(WireField { number, payload: Payload::Len(bytes) }));
    }
    Ok(())
}

/// The bytes of an element whose payload may have an error in its place.
pub open spec fn element_result(
    number: u32,
    kind: FieldKind,
    payload: Result<Payload, EncodeError>,
) -> Result<Seq<u8>, EncodeError> {
    match payload {
        Ok(payload) => Ok(element_bytes(number, kind, payload)),
        Err(error) => Err(error),
    }
}

/// Write one element of a repeated field.
fn encode_element(
    schema: &[Descriptor],
    buf: &mut Vec<u8>,
    number: u32,
    kind: FieldKind,
    value: &Value,
    linked: Option<&LinkedRef>,
    depth: usize,
) -> (result: Result<(), EncodeError>)
    ensures
        appended(
            old(buf)@,
            final(buf)@,
            element_result(
                number,
                kind,
                value_payload(
                    schema_view(schema@),
                    linked_view(linked),
                    kind,
                    value.model(),
                    depth as nat,
                ),
            ),
            result,
        ),
        result is Err && !(kind is Message) ==> final(buf)@ == old(buf)@,
    decreases level(depth as nat), 2nat, 0nat,
{
    if !is_packed(kind) {
        return encode_single(schema, buf, number, kind, value, linked, depth);
    }
    proof {
        assert(buf@.take(old(buf)@.len() as int) =~= old(buf)@);
    }
    match (kind, value) {
        (FieldKind::Scalar(scalar), Value::Scalar(v)) => encode_scalar(buf, scalar, v),
        (FieldKind::Enum, Value::Enum(v)) => {
            wire::write_varint(buf, wire::i64_to_bits(*v as i64));
            Ok(())
        },
        _ => Err(EncodeError::TypeMismatch),
    }
}

/// Whether repeated values of this kind share one chunk.
pub fn is_packed(kind: FieldKind) -> (shared: bool)
    ensures
        shared == packed(kind),
{
    match kind {
        FieldKind::Scalar(scalar) => scalar.is_packable(),
        FieldKind::Enum => true,
        _ => false,
    }
}

/// Write the elements of a repeated field one after the other.
fn encode_elements(
    schema: &[Descriptor],
    buf: &mut Vec<u8>,
    number: u32,
    kind: FieldKind,
    values: &Vec<Value>,
    linked: Option<&LinkedRef>,
    depth: usize,
) -> (result: Result<(), EncodeError>)
    ensures
        appended(
            old(buf)@,
            final(buf)@,
            elements_bytes(
                schema_view(schema@),
                linked_view(linked),
                number,
                kind,
                values_model(values@),
                values@.len(),
                depth as nat,
            ),
            result,
        ),
    decreases level(depth as nat), 3nat, 0nat,
{
    let ghost before = buf@;
    let ghost mut done: Seq<u8> = Seq::empty();
    let mut i: usize = 0;
    proof {
        assert(buf@ =~= before + done);
    }
    while i < values.len()
        invariant
            i <= values@.len(),
            before == old(buf)@,
            buf@ == before + done,
            elements_bytes(
                schema_view(schema@),
                linked_view(linked),
                number,
                kind,
                values_model(values@),
                i as nat,
                depth as nat,
            ) == Ok::<Seq<u8>, EncodeError>(done),
        decreases values@.len() - i,
    {
        let ghost earlier = buf@;
        let result = encode_element(schema, buf, number, kind, &values[i], linked, depth);
        proof {
            assert(values_model(values@)[i as int] == values@[i as int].model());
        }
        if result.is_err() {
            proof {
                lemma_elements_error(
                    schema_view(schema@),
                    linked_view(linked),
                    number,
                    kind,
                    values_model(values@),
                    i as nat + 1,
                    values@.len(),
                    depth as nat,
                );
                assert(buf@.take(before.len() as int) =~= buf@.take(earlier.len() as int).take(
                    before.len() as int,
                ));
                assert(earlier.take(before.len() as int) =~= before);
            }
            return result;
        }
        proof {
            let bytes = element_result(
                number,
                kind,
                value_payload(
                    schema_view(schema@),
                    linked_view(linked),
                    kind,
                    values@[i as int].model(),
                    depth as nat,
                ),
            )->Ok_0;
            assert(before + (done + bytes) =~= (before + done) + bytes);
            done = done + bytes;
        }
        i = i + 1;
    }
    Ok(())
}

/// Packed elements take at least a byte each.
proof fn lemma_packed_not_empty(
    schema: Seq<DescriptorView>,
    linked: Option<LinkedView>,
    number: u32,
    kind: FieldKind,
    values: Seq<ValueModel>,
    n: nat,
    depth: nat,
)
    requires
        packed(kind),
        elements_bytes(schema, linked, number, kind, values, n, depth) is Ok,
    ensures
        elements_bytes(schema, linked, number, kind, values, n, depth)->Ok_0.len() >= n,
    decreases n,
{
    if n > 0 {
        lemma_packed_not_empty(schema, linked, number, kind, values, (n - 1) as nat, depth);
        let payload = value_payload(schema, linked, kind, values[n - 1], depth)->Ok_0;
        match payload {
            Payload::Varint(value) => wire::lemma_varint_bytes_len(value),
            Payload::I64(value) => crate::wire_laws::lemma_le_bytes_len(value as nat, 8),
            Payload::I32(value) => crate::wire_laws::lemma_le_bytes_len(value as nat, 4),
            Payload::Len(_) => {},
        }
    }
}

/// The bytes of a repeated field, or the error that there is no list.
pub open spec fn list_result(
    schema: Seq<DescriptorView>,
    linked: Option<LinkedView>,
    number: u32,
    kind: FieldKind,
    value: FieldModel,
    depth: nat,
) -> Result<Seq<u8>, EncodeError> {
    match value {
        FieldModel::List(values) => repeated_bytes(schema, linked, number, kind, values, depth),
        _ => Err(EncodeError::NotAList),
    }
}

/// Encode a repeated field (packed for numeric scalars/enums, otherwise one
/// tagged entry per element).
pub fn encode_repeated(
    schema: &[Descriptor],
    buf: &mut Vec<u8>,
    number: u32,
    kind: FieldKind,
    value: &FieldValue,
    linked: Option<&LinkedRef>,
    depth: usize,
) -> (result: Result<(), EncodeError>)
    ensures
        appended(
            old(buf)@,
            final(buf)@,
            list_result(
                schema_view(schema@),
                linked_view(linked),
                number,
                kind,
                value.model(),
                depth as nat,
            ),
            result,
        ),
        !(value is List) ==> final(buf)@ == old(buf)@,
    decreases level(depth as nat), 4nat, 0nat,
{
    let ghost before = buf@;
    proof {
        lemma_field_model(*value);
        assert(buf@.take(before.len() as int) =~= before);
    }
    let values = match value {
        FieldValue::List(values) => values,
        _ => {
            return Err(EncodeError::NotAList);
        },
    };
    if !is_packed(kind) {
        return encode_elements(schema, buf, number, kind, values, linked, depth);
    }
    // Packed: one Len field holding the concatenated payloads. The tag is
    // rolled back if the sequence turns out to be empty.
    let tag_start = buf.len();
    wire::write_tag(buf, number, WireType::Len);
    let ghost tagged = buf@;
    let len_pos = wire::begin_len_prefix(buf);
    let ghost begun = buf@;
    let result = encode_elements(schema, buf, number, kind, values, linked, depth);
    proof {
        assert(begun.take(before.len() as int) =~= before);
    }
    if result.is_err() {
        proof {
            assert(buf@.take(before.len() as int) =~= buf@.take(begun.len() as int).take(
                before.len() as int,
            ));
        }
        return result;
    }
    let ghost bytes = elements_bytes(
        schema_view(schema@),
        linked_view(linked),
        number,
        kind,
        values_model(values@),
        values@.len(),
        depth as nat,
    )->Ok_0;
    proof {
        assert(buf@ == begun + bytes);
        lemma_packed_not_empty(
            schema_view(schema@),
            linked_view(linked),
            number,
            kind,
            values_model(values@),
            values@.len(),
            depth as nat,
        );
    }
    if buf.len() == len_pos + 1 {
        buf.truncate(tag_start);
        proof {
            assert(bytes =~= Seq::<u8>::empty());
            assert(buf@ =~= before + bytes);
        }
    } else {
        proof {
            if values@.len() == 0 {
                assert(bytes =~= Seq::<u8>::empty());
            }
            assert(buf@.take(len_pos as int) =~= tagged);
            assert(buf@.skip(len_pos + 1) =~= bytes);
        }
        wire::finish_len_prefix(buf, len_pos);
        proof {
            assert(buf@ =~= before + field_bytes(
                WireField { number, payload: Payload::Len(bytes) },
            ));
        }
    }
    Ok(())
}

/// A map's value type as the kind of a field.
pub fn map_value_kind(value: MapValue) -> (kind: FieldKind)
    ensures
        kind == kind_of_value(value),
{
    match value {
        MapValue::Scalar(scalar) => FieldKind::Scalar(scalar),
        MapValue::Enum => FieldKind::Enum,
        MapValue::Message => FieldKind::Message,
        MapValue::Timestamp => FieldKind::Timestamp,
        MapValue::Duration => FieldKind::Duration,
    }
}

/// The bytes of one map entry, or the error of its key or its value.
pub open spec fn entry_result(
    number: u32,
    key: Result<Payload, EncodeError>,
    value: Result<Payload, EncodeError>,
) -> Result<Seq<u8>, EncodeError> {
    match key {
        Err(error) => Err(error),
        Ok(key) => match value {
            Err(error) => Err(error),
            Ok(value) => Ok(
                field_bytes(
                    WireField { number, payload: Payload::Len(entry_bytes(key, value)) },
                ),
            ),
        },
    }
}

/// Encode one entry of a map: a length-delimited message of key and value.
fn encode_entry(
    schema: &[Descriptor],
    buf: &mut Vec<u8>,
    number: u32,
    key: ScalarType,
    value_kind: MapValue,
    entry: &(ScalarValue, Value),
    linked: Option<&LinkedRef>,
    depth: usize,
) -> (result: Result<(), EncodeError>)
    ensures
        appended(
            old(buf)@,
            final(buf)@,
            entry_result(
                number,
                scalar_result(key, entry.0@),
                value_payload(
                    schema_view(schema@),
                    linked_view(linked),
                    kind_of_value(value_kind),
                    entry.1.model(),
                    depth as nat,
                ),
            ),
            result,
        ),
    decreases level(depth as nat), 2nat, 0nat,
{
    let ghost before = buf@;
    let ghost key_result = scalar_result(key, entry.0@);
    let ghost value_result = value_payload(
        schema_view(schema@),
        linked_view(linked),
        kind_of_value(value_kind),
        entry.1.model(),
        depth as nat,
    );
    wire::write_tag(buf, number, WireType::Len);
    let ghost tagged = buf@;
    let entry_pos = wire::begin_len_prefix(buf);
    let ghost begun = buf@;
    proof {
        assert(begun.take(before.len() as int) =~= before);
    }
    // key = field 1
    let result = encode_scalar_field(buf, 1, key, &entry.0, false);
    if result.is_err() {
        proof {
            assert(buf@.take(before.len() as int) =~= buf@.take(begun.len() as int).take(
                before.len() as int,
            ));
        }
        return result;
    }
    let ghost keyed = buf@;
    let ghost key_bytes = field_bytes(WireField { number: 1, payload: key_result->Ok_0 });
    proof {
        assert(keyed == begun + key_bytes);
        assert(keyed.take(before.len() as int) =~= before);
    }
    // value = field 2
    let result = encode_single(
        schema,
        buf,
        2,
        map_value_kind(value_kind),
        &entry.1,
        linked,
        depth,
    );
    if result.is_err() {
        proof {
            assert(buf@.take(before.len() as int) =~= buf@.take(keyed.len() as int).take(
                before.len() as int,
            ));
        }
        return result;
    }
    let ghost bytes = entry_bytes(key_result->Ok_0, value_result->Ok_0);
    proof {
        assert(buf@ =~= begun + bytes);
        assert(buf@.take(entry_pos as int) =~= tagged);
        assert(buf@.skip(entry_pos + 1) =~= bytes);
    }
    wire::finish_len_prefix(buf, entry_pos);
    proof {
        assert(buf@ =~= before + field_bytes(WireField { number, payload: Payload::Len(bytes) }));
    }
    Ok(())
}

/// The bytes of a map field, or the error that there is no map.
pub open spec fn map_result(
    schema: Seq<DescriptorView>,
    linked: Option<LinkedView>,
    number: u32,
    key: ScalarType,
    value_kind: MapValue,
    value: FieldModel,
    depth: nat,
) -> Result<Seq<u8>, EncodeError> {
    match value {
        FieldModel::Entries(entries) => entries_bytes(
            schema,
            linked,
            number,
            key,
            value_kind,
            entries,
            entries.len(),
            depth,
        ),
        _ => Err(EncodeError::NotAMap),
    }
}

/// Encode a `map<K, V>` field: one length-delimited entry message per pair.
pub fn encode_map(
    schema: &[Descriptor],
    buf: &mut Vec<u8>,
    number: u32,
    key: ScalarType,
    value_kind: MapValue,
    value: &FieldValue,
    linked: Option<&LinkedRef>,
    depth: usize,
) -> (result: Result<(), EncodeError>)
    ensures
        appended(
            old(buf)@,
            final(buf)@,
            map_result(
                schema_view(schema@),
                linked_view(linked),
                number,
                key,
                value_kind,
                value.model(),
                depth as nat,
            ),
            result,
        ),
        !(value is Entries) ==> final(buf)@ == old(buf)@,
    decreases level(depth as nat), 3nat, 0nat,
{
    let ghost before = buf@;
    proof {
        lemma_field_model(*value);
        assert(buf@.take(before.len() as int) =~= before);
    }
    let entries = match value {
        FieldValue::Entries(entries) => entries,
        _ => {
            return Err(EncodeError::NotAMap);
        },
    };
    let ghost mut done: Seq<u8> = Seq::empty();
    let mut i: usize = 0;
    proof {
        assert(buf@ =~= before + done);
    }
    while i < entries.len()
        invariant
            i <= entries@.len(),
            before == old(buf)@,
            buf@ == before + done,
            value.model() == FieldModel::Entries(entries_model(entries@)),
            entries_bytes(
                schema_view(schema@),
                linked_view(linked),
                number,
                key,
                value_kind,
                entries_model(entries@),
                i as nat,
                depth as nat,
            ) == Ok::<Seq<u8>, EncodeError>(done),
        decreases entries@.len() - i,
    {
        let ghost earlier = buf@;
        let result = encode_entry(
            schema,
            buf,
            number,
            key,
            value_kind,
            &entries[i],
            linked,
            depth,
        );
        proof {
            assert(entries_model(entries@)[i as int] == (
                entries@[i as int].0@,
                entries@[i as int].1.model(),
            ));
        }
        if result.is_err() {
            proof {
                lemma_entries_error(
                    schema_view(schema@),
                    linked_view(linked),
                    number,
                    key,
                    value_kind,
                    entries_model(entries@),
                    i as nat + 1,
                    entries@.len(),
                    depth as nat,
                );
                assert(buf@.take(before.len() as int) =~= buf@.take(earlier.len() as int).take(
                    before.len() as int,
                ));
                assert(earlier.take(before.len() as int) =~= before);
            }
            return result;
        }
        proof {
            let bytes = entry_result(
                number,
                scalar_result(key, entries@[i as int].0@),
                value_payload(
                    schema_view(schema@),
                    linked_view(linked),
                    kind_of_value(value_kind),
                    entries@[i as int].1.model(),
                    depth as nat,
                ),
            )->Ok_0;
            assert(before + (done + bytes) =~= (before + done) + bytes);
            done = done + bytes;
        }
        i = i + 1;
    }
    Ok(())
}

/// Encode one field of a message.
fn encode_field(
    schema: &[Descriptor],
    desc: &Descriptor,
    index: usize,
    value: &FieldValue,
    buf: &mut Vec<u8>,
    depth: usize,
) -> (result: Result<(), EncodeError>)
    requires
        index < desc@.message.fields.len(),
    ensures
        appended(
            old(buf)@,
            final(buf)@,
            field_value_bytes(
                schema_view(schema@),
                desc@,
                desc@.message.fields[index as int],
                value.model(),
                depth as nat,
            ),
            result,
        ),
        ({
            let field = desc@.message.fields[index as int];
            let accepted = if field.kind is MapOf {
                value is Entries
            } else if field.label == Label::Repeated {
                value is List
            } else {
                value is One || value is Absent
            };
            !accepted || (value is Absent && result is Err) ==> final(buf)@ == old(buf)@
        }),
    decreases level(depth as nat), 5nat, 0nat,
{
    proof {
        assert(buf@.take(old(buf)@.len() as int) =~= old(buf)@);
        assert(buf@ =~= old(buf)@ + Seq::<u8>::empty());
        lemma_field_model(*value);
    }
    let field = desc.field(index);
    let linked = desc.linked_ref(field.number);
    if let FieldKind::MapOf { key, value: value_kind } = field.kind {
        return encode_map(schema, buf, field.number, key, value_kind, value, linked, depth);
    }
    match (field.label, value) {
        (Label::Repeated, _) => {
            encode_repeated(schema, buf, field.number, field.kind, value, linked, depth)
        },
        (Label::Optional, FieldValue::Absent) => Ok(()),
        (Label::Optional, FieldValue::One(one)) => {
            encode_single(schema, buf, field.number, field.kind, one, linked, depth)
        },
        (Label::Single, FieldValue::One(one)) => {
            match (field.kind, one) {
                (FieldKind::Scalar(scalar), Value::Scalar(v)) => {
                    encode_scalar_field(buf, field.number, scalar, v, true)
                },
                (FieldKind::Enum, Value::Enum(0)) => Ok(()),
                // Message-like fields are always Optional; maps are handled above.
                _ => encode_single(schema, buf, field.number, field.kind, one, linked, depth),
            }
        },
        _ => Err(EncodeError::TypeMismatch),
    }
}

/// The error for the first oneof group of which more than one member is set, if
/// there is one. `index` is that of the descriptor, and `fields` are what a
/// message holds for its fields.
pub fn oneof_conflict(index: usize, desc: &Descriptor, fields: &Vec<FieldValue>) -> (conflict:
    Option<EncodeError>)
    requires
        desc@.message.fields.len() <= fields@.len(),
    ensures
        conflict == first_conflict(index, desc@, fields_model(fields@), 0),
{
    let ghost views = desc@.message.fields;
    let ghost values = fields_model(fields@);
    let n_oneofs: usize = desc.oneof_count();
    let mut oneof_counts: Vec<u8> = Vec::new();
    oneof_counts.resize(n_oneofs, 0);

    let count: usize = desc.field_count();
    let mut i: usize = 0;
    while i < count
        invariant
            i <= count,
            count == views.len(),
            count <= fields@.len(),
            views == desc@.message.fields,
            values == fields_model(fields@),
            n_oneofs == desc@.message.oneofs.len(),
            oneof_counts@.len() == n_oneofs,
            forall|g: int|
                0 <= g < n_oneofs ==> #[trigger] oneof_counts@[g] == counted(
                    members_set(views, values, g, i as nat),
                ),
        decreases count - i,
    {
        let value = &fields[i];
        let field = desc.field(i);
        let member: Option<usize> = match (field.kind, field.label, value, field.oneof_index) {
            (FieldKind::MapOf { .. }, _, _, _) => None,
            (_, Label::Optional, FieldValue::Absent, _) => None,
            (_, Label::Optional, _, Some(group)) => Some(group as usize),
            _ => None,
        };
        proof {
            assert(values[i as int] == value.model());
            assert(forall|g: int|
                sets_member(views[i as int], values[i as int], g) <==> (member matches Some(group)
                    && group == g));
        }
        if let Some(group) = member {
            let counted_so_far: u8 = oneof_counts[group];
            if counted_so_far < 255 {
                oneof_counts.set(group, counted_so_far + 1);
            }
        }
        i = i + 1;
    }

    let mut group: usize = 0;
    while group < n_oneofs
        invariant
            group <= n_oneofs,
            n_oneofs == desc@.message.oneofs.len(),
            views == desc@.message.fields,
            oneof_counts@.len() == n_oneofs,
            forall|g: int|
                0 <= g < n_oneofs ==> #[trigger] oneof_counts@[g] == counted(
                    members_set(views, values, g, views.len()),
                ),
            first_conflict(index, desc@, values, 0) == first_conflict(
                index,
                desc@,
                values,
                group as nat,
            ),
            values == fields_model(fields@),
        decreases n_oneofs - group,
    {
        let members: u8 = oneof_counts[group];
        if members > 1 {
            return Some(EncodeError::OneofConflict { index, group, count: members });
        }
        group = group + 1;
    }
    None
}

/// Encode `message` according to the descriptor with the given index,
/// appending to `buf`.
///
/// `depth` is the current message-nesting level (0 at the top); it is bounded
/// by [`MAX_DEPTH`].
pub fn encode_message(
    schema: &[Descriptor],
    index: usize,
    message: &Message,
    buf: &mut Vec<u8>,
    depth: usize,
) -> (result: Result<(), EncodeError>)
    requires
        index < schema@.len(),
    ensures
        appended(
            old(buf)@,
            final(buf)@,
            message_bytes(schema_view(schema@), index, message.model(), depth as nat),
            result,
        ),
        depth > MAX_DEPTH ==> final(buf)@ == old(buf)@,
    decreases level(depth as nat), 6nat, 0nat,
{
    let ghost before = buf@;
    proof {
        assert(buf@.take(before.len() as int) =~= before);
        lemma_message_model(*message);
    }
    if depth > MAX_DEPTH {
        return Err(EncodeError::TooDeep);
    }
    let desc = &schema[index];
    let ghost fields = desc@.message.fields;
    let ghost values = fields_model(message.fields@);

    let count: usize = desc.field_count();
    let ghost mut done: Seq<u8> = Seq::empty();
    let mut i: usize = 0;
    proof {
        assert(buf@ =~= before + done);
    }
    while i < count
        invariant
            i <= count,
            count == fields.len(),
            depth <= MAX_DEPTH,
            index < schema@.len(),
            *desc == schema@[index as int],
            fields == desc@.message.fields,
            values == fields_model(message.fields@),
            before == old(buf)@,
            buf@ == before + done,
            fields_bytes(schema_view(schema@), desc@, values, i as nat, depth as nat) == Ok::<
                Seq<u8>,
                EncodeError,
            >(done),
            message_bytes(schema_view(schema@), index, message.model(), depth as nat)
                == match fields_bytes(
                schema_view(schema@),
                desc@,
                values,
                fields.len(),
                depth as nat,
            ) {
                Err(error) => Err(error),
                Ok(bytes) => match first_conflict(index, desc@, values, 0) {
                    Some(conflict) => Err(conflict),
                    None => Ok(bytes + message.unknown@),
                },
            },
            i <= message.fields@.len(),
        decreases count - i,
    {
        let ghost earlier = buf@;
        proof {
            assert(earlier.take(before.len() as int) =~= before);
        }
        if i >= message.fields.len() {
            proof {
                lemma_fields_error(
                    schema_view(schema@),
                    desc@,
                    values,
                    i as nat + 1,
                    fields.len(),
                    depth as nat,
                );
            }
            return Err(EncodeError::MissingField(i));
        }
        let value = &message.fields[i];
        let result = encode_field(schema, desc, i, value, buf, depth);
        proof {
            assert(values[i as int] == value.model());
        }
        if result.is_err() {
            proof {
                lemma_fields_error(
                    schema_view(schema@),
                    desc@,
                    values,
                    i as nat + 1,
                    fields.len(),
                    depth as nat,
                );
                assert(buf@.take(before.len() as int) =~= buf@.take(earlier.len() as int).take(
                    before.len() as int,
                ));
            }
            return result;
        }
        proof {
            let bytes = field_value_bytes(
                schema_view(schema@),
                desc@,
                fields[i as int],
                values[i as int],
                depth as nat,
            )->Ok_0;
            assert(before + (done + bytes) =~= (before + done) + bytes);
            done = done + bytes;
        }
        i = i + 1;
    }

    if let Some(conflict) = oneof_conflict(index, desc, &message.fields) {
        proof {
            assert(buf@.take(before.len() as int) =~= before);
        }
        return Err(conflict);
    }

    // Re-emit unknown fields captured by the decoder.
    buf.extend_from_slice(message.unknown.as_slice());
    proof {
        assert(buf@ =~= before + (done + message.unknown@));
    }
    Ok(())
}

} // verus!
