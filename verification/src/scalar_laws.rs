//! The scalars, type by type: which wire type each takes, which number stands
//! for which value, and what is not written.
use vstd::prelude::*;
use vstd::utf8::{encode_utf8, valid_utf8};

use crate::decode::{decoded_value, kind_wire, read_scalar, DecodeError};
use crate::descriptor::{FieldKind, FieldView, Label, MapValue, ScalarType};
use crate::encode::{
    field_value_bytes, is_default, kind_of_value, packed, value_payload, EncodeError,
};
use crate::message::{DescriptorView, LinkedView};
use crate::value::{scalar_of, scalar_payload, zero_scalar, FieldModel, ScalarModel, ValueModel};
use crate::wire::{field_bytes, Payload, WireError, WireField, WireType};

verus! {

/// The wire type of every scalar type.
pub proof fn law_wire_types()
    ensures
        ScalarType::Int32.wire() == WireType::Varint,
        ScalarType::Int64.wire() == WireType::Varint,
        ScalarType::UInt32.wire() == WireType::Varint,
        ScalarType::UInt64.wire() == WireType::Varint,
        ScalarType::SInt32.wire() == WireType::Varint,
        ScalarType::SInt64.wire() == WireType::Varint,
        ScalarType::Bool.wire() == WireType::Varint,
        ScalarType::Fixed64.wire() == WireType::I64,
        ScalarType::SFixed64.wire() == WireType::I64,
        ScalarType::Double.wire() == WireType::I64,
        ScalarType::Fixed32.wire() == WireType::I32,
        ScalarType::SFixed32.wire() == WireType::I32,
        ScalarType::Float.wire() == WireType::I32,
        ScalarType::String.wire() == WireType::Len,
        ScalarType::Bytes.wire() == WireType::Len,
        kind_wire(FieldKind::Enum) == WireType::Varint,
        kind_wire(FieldKind::Message) == WireType::Len,
        kind_wire(FieldKind::Timestamp) == WireType::Len,
        kind_wire(FieldKind::Duration) == WireType::Len,
{
}

/// A field of a scalar takes the scalar's wire type, and a map field a chunk for
/// each entry.
pub proof fn law_kind_wire(scalar: ScalarType, value: MapValue)
    ensures
        kind_wire(FieldKind::Scalar(scalar)) == scalar.wire(),
        kind_wire(FieldKind::MapOf { key: scalar, value }) == WireType::Len,
{
}

/// Just the elements that are numbers share one chunk: those that would
/// otherwise not be chunks themselves.
pub proof fn law_packed_kinds(kind: FieldKind)
    ensures
        packed(kind) <==> kind_wire(kind) != WireType::Len,
        kind matches FieldKind::Scalar(scalar) ==> (scalar.packable() <==> scalar.wire()
            != WireType::Len),
{
}

/// The plain integers on the wire: what is read is congruent to the varint
/// modulo the width of the type, and a signed type takes two's complement.
pub proof fn law_plain_integers_read(n: u64)
    ensures
        scalar_of(ScalarType::Int64, Payload::Varint(n)) matches Some(ScalarModel::I64(v)) && v
            == if n < 0x8000_0000_0000_0000 {
            n as int
        } else {
            n - 0x1_0000_0000_0000_0000
        },
        scalar_of(ScalarType::Int32, Payload::Varint(n)) matches Some(ScalarModel::I32(v)) && (n
            - v) % 0x1_0000_0000 == 0,
        scalar_of(ScalarType::UInt64, Payload::Varint(n)) == Some(ScalarModel::U64(n)),
        scalar_of(ScalarType::UInt32, Payload::Varint(n)) matches Some(ScalarModel::U32(v)) && v
            == n as int % 0x1_0000_0000,
        scalar_of(ScalarType::Bool, Payload::Varint(n)) == Some(ScalarModel::Bool(n != 0)),
{
}

/// The plain integers are written as themselves, negative ones sign-extended to
/// 64 bits, and a bool as 1 or 0.
pub proof fn law_plain_integers_written(short: i32, long: i64, ushort: u32, ulong: u64)
    ensures
        scalar_payload(ScalarType::Int64, ScalarModel::I64(long)) matches Some(Payload::Varint(n))
            && n == if long >= 0 {
            long as int
        } else {
            long + 0x1_0000_0000_0000_0000
        },
        scalar_payload(ScalarType::Int32, ScalarModel::I32(short)) matches Some(Payload::Varint(n))
            && n == if short >= 0 {
            short as int
        } else {
            short + 0x1_0000_0000_0000_0000
        },
        scalar_payload(ScalarType::UInt64, ScalarModel::U64(ulong)) == Some(
            Payload::Varint(ulong),
        ),
        scalar_payload(ScalarType::UInt32, ScalarModel::U32(ushort)) == Some(
            Payload::Varint(ushort as u64),
        ),
        scalar_payload(ScalarType::Bool, ScalarModel::Bool(true)) == Some(Payload::Varint(1)),
        scalar_payload(ScalarType::Bool, ScalarModel::Bool(false)) == Some(Payload::Varint(0)),
{
}

/// `sint32` and `sint64`, and no others, count outwards from zero: an even
/// number stands for half of it, an odd one for the negative number next to
/// minus its half.
pub proof fn law_zigzag_integers(n: u64, short: i32, long: i64)
    ensures
        scalar_of(ScalarType::SInt64, Payload::Varint(n)) matches Some(ScalarModel::I64(v)) && n
            == if v >= 0 {
            2 * v
        } else {
            -2 * v - 1
        },
        scalar_of(ScalarType::SInt32, Payload::Varint(n)) matches Some(ScalarModel::I32(v)) && n
            as int % 0x1_0000_0000 == if v >= 0 {
            2 * v
        } else {
            -2 * v - 1
        },
        scalar_payload(ScalarType::SInt64, ScalarModel::I64(long)) matches Some(Payload::Varint(n))
            && n == if long >= 0 {
            2 * long
        } else {
            -2 * long - 1
        },
        scalar_payload(ScalarType::SInt32, ScalarModel::I32(short)) matches Some(
            Payload::Varint(n),
        ) && n == if short >= 0 {
            2 * short
        } else {
            -2 * short - 1
        },
{
}

/// Fixed numbers stand for themselves: the unsigned ones and the bits of floats
/// as they are, the signed ones in two's complement.
pub proof fn law_fixed_numbers(short: u32, long: u64, value: i32, wide: i64)
    ensures
        scalar_of(ScalarType::Fixed32, Payload::I32(short)) == Some(ScalarModel::U32(short)),
        scalar_of(ScalarType::Float, Payload::I32(short)) == Some(ScalarModel::F32(short)),
        scalar_of(ScalarType::SFixed32, Payload::I32(short)) matches Some(ScalarModel::I32(v)) && (
        short - v) % 0x1_0000_0000 == 0,
        scalar_of(ScalarType::Fixed64, Payload::I64(long)) == Some(ScalarModel::U64(long)),
        scalar_of(ScalarType::Double, Payload::I64(long)) == Some(ScalarModel::F64(long)),
        scalar_of(ScalarType::SFixed64, Payload::I64(long)) matches Some(ScalarModel::I64(v)) && (
        long - v) % 0x1_0000_0000_0000_0000 == 0,
        scalar_payload(ScalarType::Fixed32, ScalarModel::U32(short)) == Some(Payload::I32(short)),
        scalar_payload(ScalarType::Float, ScalarModel::F32(short)) == Some(Payload::I32(short)),
        scalar_payload(ScalarType::SFixed32, ScalarModel::I32(value)) matches Some(Payload::I32(n))
            && (n - value) % 0x1_0000_0000 == 0,
        scalar_payload(ScalarType::Fixed64, ScalarModel::U64(long)) == Some(Payload::I64(long)),
        scalar_payload(ScalarType::Double, ScalarModel::F64(long)) == Some(Payload::I64(long)),
        scalar_payload(ScalarType::SFixed64, ScalarModel::I64(wide)) matches Some(Payload::I64(n))
            && (n - wide) % 0x1_0000_0000_0000_0000 == 0,
{
}

/// A text is the chunk of its UTF-8, and a chunk that is no UTF-8 is no text;
/// byte strings are chunks as they are.
pub proof fn law_chunks_of_scalars(text: Seq<char>, bytes: Seq<u8>)
    ensures
        scalar_payload(ScalarType::String, ScalarModel::Text(text)) == Some(
            Payload::Len(encode_utf8(text)),
        ),
        scalar_of(ScalarType::String, Payload::Len(bytes)) is Some <==> valid_utf8(bytes),
        scalar_of(ScalarType::String, Payload::Len(bytes)) matches Some(value) ==> {
            &&& value matches ScalarModel::Text(read)
            &&& encode_utf8(read) == bytes
        },
        scalar_payload(ScalarType::Bytes, ScalarModel::Bytes(bytes)) == Some(Payload::Len(bytes)),
        scalar_of(ScalarType::Bytes, Payload::Len(bytes)) == Some(ScalarModel::Bytes(bytes)),
{
    if valid_utf8(bytes) {
        vstd::utf8::decode_utf8_encode_utf8(bytes);
    }
}

/// Whether a value is one that a field of the scalar type can hold.
pub open spec fn of_type(scalar: ScalarType, value: ScalarModel) -> bool {
    match value {
        ScalarModel::I32(_) => scalar == ScalarType::Int32 || scalar == ScalarType::SInt32
            || scalar == ScalarType::SFixed32,
        ScalarModel::I64(_) => scalar == ScalarType::Int64 || scalar == ScalarType::SInt64
            || scalar == ScalarType::SFixed64,
        ScalarModel::U32(_) => scalar == ScalarType::UInt32 || scalar == ScalarType::Fixed32,
        ScalarModel::U64(_) => scalar == ScalarType::UInt64 || scalar == ScalarType::Fixed64,
        ScalarModel::Bool(_) => scalar == ScalarType::Bool,
        ScalarModel::F32(_) => scalar == ScalarType::Float,
        ScalarModel::F64(_) => scalar == ScalarType::Double,
        ScalarModel::Text(_) => scalar == ScalarType::String,
        ScalarModel::Bytes(_) => scalar == ScalarType::Bytes,
    }
}

/// A scalar is written just if it is of its field's type, and with the type's
/// wire type; what is read is of the type too.
pub proof fn law_scalar_types(scalar: ScalarType, value: ScalarModel, payload: Payload)
    ensures
        scalar_payload(scalar, value) is Some <==> of_type(scalar, value),
        scalar_payload(scalar, value) matches Some(written) ==> written.wire() == scalar.wire(),
        scalar_of(scalar, payload) matches Some(read) ==> {
            &&& of_type(scalar, read)
            &&& payload.wire() == scalar.wire()
        },
        payload.wire() == scalar.wire() && scalar != ScalarType::String ==> scalar_of(
            scalar,
            payload,
        ) is Some,
{
}

/// Whether a payload is zero: a number all of whose bits are, or an empty chunk.
pub open spec fn zero_payload(payload: Payload) -> bool {
    match payload {
        Payload::Varint(n) => n == 0,
        Payload::I32(n) => n == 0,
        Payload::I64(n) => n == 0,
        Payload::Len(data) => data.len() == 0,
    }
}

/// A text with a character has a byte.
proof fn lemma_empty_text(text: Seq<char>)
    ensures
        encode_utf8(text).len() == 0 <==> text.len() == 0,
{
    if text.len() > 0 {
        assert(encode_utf8(text) == vstd::utf8::encode_scalar(text[0] as u32) + encode_utf8(
            text.drop_first(),
        ));
    }
}

/// The default of a scalar type is the value whose payload is zero: the number
/// 0, `false`, the float all of whose bits are zero, the empty text or the empty
/// byte string, and nothing else.
pub proof fn law_default_scalars(scalar: ScalarType, value: ScalarModel)
    ensures
        value == zero_scalar(scalar) <==> (scalar_payload(scalar, value) matches Some(payload)
            && zero_payload(payload)),
        value == zero_scalar(scalar) ==> (match value {
            ScalarModel::I32(v) => v == 0,
            ScalarModel::I64(v) => v == 0,
            ScalarModel::U32(v) => v == 0,
            ScalarModel::U64(v) => v == 0,
            ScalarModel::Bool(v) => !v,
            ScalarModel::F32(bits) => bits == 0,
            ScalarModel::F64(bits) => bits == 0,
            ScalarModel::Text(text) => text.len() == 0,
            ScalarModel::Bytes(bytes) => bytes.len() == 0,
        }),
{
    match value {
        ScalarModel::Text(text) => {
            lemma_empty_text(text);
            if text.len() == 0 {
                assert(text =~= Seq::<char>::empty());
            }
        },
        ScalarModel::Bytes(bytes) => {
            if bytes.len() == 0 {
                assert(bytes =~= Seq::<u8>::empty());
            }
        },
        _ => {},
    }
}

/// An enum is written as an `int32`, and the low 32 bits of what is read are its
/// number.
pub proof fn law_enum_numbers(
    schema: Seq<DescriptorView>,
    linked: Option<LinkedView>,
    number: i32,
    n: u64,
    depth: nat,
)
    ensures
        value_payload(schema, linked, FieldKind::Enum, ValueModel::Enum(number), depth) matches Ok(
            Payload::Varint(written),
        ) && written == if number >= 0 {
            number as int
        } else {
            number + 0x1_0000_0000_0000_0000
        },
        decoded_value(schema, linked, FieldKind::Enum, Payload::Varint(n), depth) matches Ok(
            ValueModel::Enum(read),
        ) && (n - read) % 0x1_0000_0000 == 0,
        is_default(FieldKind::Enum, ValueModel::Enum(number)) <==> number == 0,
{
}

/// A field without explicit presence writes nothing just if its payload is
/// zero; every other value writes its tag and its payload. With explicit
/// presence, the default is written too.
pub proof fn law_defaults_left_out(
    schema: Seq<DescriptorView>,
    desc: DescriptorView,
    field: FieldView,
    value: ValueModel,
    depth: nat,
)
    requires
        field.kind is Scalar || field.kind is Enum,
        field.label != Label::Repeated,
    ensures
        ({
            let payload = value_payload(
                schema,
                desc.linked_ref(field.number),
                field.kind,
                value,
                depth,
            );
            let written = field_value_bytes(schema, desc, field, FieldModel::One(value), depth);
            match payload {
                Err(error) => written == Err::<Seq<u8>, EncodeError>(error),
                Ok(payload) => if field.label == Label::Single && zero_payload(payload) {
                    written == Ok::<Seq<u8>, EncodeError>(Seq::empty())
                } else {
                    &&& written == Ok::<Seq<u8>, EncodeError>(
                        field_bytes(WireField { number: field.number, payload }),
                    )
                    &&& written->Ok_0.len() > 0
                },
            }
        }),
        field.label == Label::Optional ==> field_value_bytes(
            schema,
            desc,
            field,
            FieldModel::Absent,
            depth,
        ) == Ok::<Seq<u8>, EncodeError>(Seq::empty()),
        field.label == Label::Single ==> field_value_bytes(
            schema,
            desc,
            field,
            FieldModel::Absent,
            depth,
        ) is Err,
{
    if let (FieldKind::Scalar(scalar), ValueModel::Scalar(v)) = (field.kind, value) {
        law_default_scalars(scalar, v);
    }
    if let Ok(payload) = value_payload(
        schema,
        desc.linked_ref(field.number),
        field.kind,
        value,
        depth,
    ) {
        crate::number_laws::law_varint_written(
            (field.number * 8 + payload.wire().number()) as nat,
        );
    }
}

/// What is read of a scalar, by the payload that stands there.
pub proof fn law_scalar_results(scalar: ScalarType, payload: Payload, error: WireError)
    ensures
        read_scalar(scalar, Err(error)) == Err::<ScalarModel, DecodeError>(
            DecodeError::Wire(error),
        ),
        scalar_of(scalar, payload) matches Some(value) ==> read_scalar(scalar, Ok(payload)) == Ok::<
            ScalarModel,
            DecodeError,
        >(value),
        scalar_of(scalar, payload) is None ==> read_scalar(scalar, Ok(payload)) == Err::<
            ScalarModel,
            DecodeError,
        >(DecodeError::InvalidUtf8),
{
}

/// The value of a map entry is of the kind that a field of the same type has.
pub proof fn law_map_value_kinds(scalar: ScalarType)
    ensures
        kind_of_value(MapValue::Scalar(scalar)) == FieldKind::Scalar(scalar),
        kind_of_value(MapValue::Enum) == FieldKind::Enum,
        kind_of_value(MapValue::Message) == FieldKind::Message,
        kind_of_value(MapValue::Timestamp) == FieldKind::Timestamp,
        kind_of_value(MapValue::Duration) == FieldKind::Duration,
{
}

} // verus!
