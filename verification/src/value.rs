//! The values that messages hold.
//!
//! A message instance is a [`Message`]: its fields in the order of its
//! descriptor, and the raw bytes of the fields that its schema does not know.
//! Classes are known by their handles, numbers that the embedding program gives
//! out.
//!
//! What these types hold is stated over models ([`ScalarModel`],
//! [`ValueModel`], [`FieldModel`], [`MessageModel`]) that have sequences in
//! place of strings and vectors.
use vstd::prelude::*;
use vstd::utf8::encode_utf8;

use crate::descriptor::ScalarType;
use crate::text::text_of;
use crate::wire::{extended, low32, signed32, signed64, unzigzag, zigzag, Payload};

verus! {

/// A scalar. Floating-point numbers are held as their IEEE 754 bits.
#[derive(Debug, PartialEq)]
pub enum ScalarValue {
    I32(i32),
    I64(i64),
    U32(u32),
    U64(u64),
    Bool(bool),
    F32(u32),
    F64(u64),
    Text(String),
    Bytes(Vec<u8>),
}

/// One value of a field, an element of a repeated field, or the value of a map
/// entry.
#[derive(Debug, PartialEq)]
pub enum Value {
    Scalar(ScalarValue),
    /// An enum's number, whether or not the enum has such a member.
    Enum(i32),
    Message(Message),
    Timestamp { secs: i64, nanos: i32 },
    Duration { secs: i64, nanos: i32 },
}

/// What a message holds for one field.
#[derive(Debug, PartialEq)]
pub enum FieldValue {
    /// Nothing: `None` in an instance, or a field that the wire did not carry.
    Absent,
    One(Value),
    List(Vec<Value>),
    /// The entries of a map, in insertion order.
    Entries(Vec<(ScalarValue, Value)>),
}

/// A message instance.
#[derive(Debug, PartialEq)]
pub struct Message {
    /// The handle of the instance's class.
    pub class: usize,
    /// The descriptor that the class itself carries, as an index into the
    /// schema.
    pub own: Option<usize>,
    /// What each field holds, index-aligned with the descriptor's fields.
    pub fields: Vec<FieldValue>,
    /// The raw bytes of fields that the schema doesn't know about.
    pub unknown: Vec<u8>,
}

// ---------------------------------------------------------------------------
// Models
// ---------------------------------------------------------------------------

pub enum ScalarModel {
    I32(i32),
    I64(i64),
    U32(u32),
    U64(u64),
    Bool(bool),
    F32(u32),
    F64(u64),
    Text(Seq<char>),
    Bytes(Seq<u8>),
}

pub enum ValueModel {
    Scalar(ScalarModel),
    Enum(i32),
    Message(MessageModel),
    Timestamp { secs: i64, nanos: i32 },
    Duration { secs: i64, nanos: i32 },
}

pub enum FieldModel {
    Absent,
    One(ValueModel),
    List(Seq<ValueModel>),
    Entries(Seq<(ScalarModel, ValueModel)>),
}

#[verifier::ext_equal]
pub struct MessageModel {
    pub class: usize,
    pub own: Option<usize>,
    pub fields: Seq<FieldModel>,
    pub unknown: Seq<u8>,
}

impl View for ScalarValue {
    type V = ScalarModel;

    open spec fn view(&self) -> ScalarModel {
        match self {
            ScalarValue::I32(v) => ScalarModel::I32(*v),
            ScalarValue::I64(v) => ScalarModel::I64(*v),
            ScalarValue::U32(v) => ScalarModel::U32(*v),
            ScalarValue::U64(v) => ScalarModel::U64(*v),
            ScalarValue::Bool(v) => ScalarModel::Bool(*v),
            ScalarValue::F32(bits) => ScalarModel::F32(*bits),
            ScalarValue::F64(bits) => ScalarModel::F64(*bits),
            ScalarValue::Text(text) => ScalarModel::Text(text@),
            ScalarValue::Bytes(bytes) => ScalarModel::Bytes(bytes@),
        }
    }
}

impl Value {
    pub open spec fn model(&self) -> ValueModel
        decreases self,
    {
        match self {
            Value::Scalar(v) => ValueModel::Scalar(v@),
            Value::Enum(v) => ValueModel::Enum(*v),
            Value::Message(m) => ValueModel::Message(m.model()),
            Value::Timestamp { secs, nanos } => ValueModel::Timestamp {
                secs: *secs,
                nanos: *nanos,
            },
            Value::Duration { secs, nanos } => ValueModel::Duration { secs: *secs, nanos: *nanos },
        }
    }
}

impl FieldValue {
    pub open spec fn model(&self) -> FieldModel
        decreases self,
    {
        match self {
            FieldValue::Absent => FieldModel::Absent,
            FieldValue::One(v) => FieldModel::One(v.model()),
            FieldValue::List(vs) => FieldModel::List(
                Seq::new(
                    vs@.len(),
                    |i: int|
                        if 0 <= i < vs@.len() {
                            vs@[i].model()
                        } else {
                            arbitrary()
                        },
                ),
            ),
            FieldValue::Entries(es) => FieldModel::Entries(
                Seq::new(
                    es@.len(),
                    |i: int|
                        if 0 <= i < es@.len() {
                            (es@[i].0@, es@[i].1.model())
                        } else {
                            arbitrary()
                        },
                ),
            ),
        }
    }
}

impl Message {
    pub open spec fn model(&self) -> MessageModel
        decreases self,
    {
        MessageModel {
            class: self.class,
            own: self.own,
            fields: Seq::new(
                self.fields@.len(),
                |i: int|
                    if 0 <= i < self.fields@.len() {
                        self.fields@[i].model()
                    } else {
                        arbitrary()
                    },
            ),
            unknown: self.unknown@,
        }
    }
}

/// The models of several values.
pub open spec fn values_model(values: Seq<Value>) -> Seq<ValueModel> {
    Seq::new(values.len(), |i: int| values[i].model())
}

/// The models of several map entries.
pub open spec fn entries_model(entries: Seq<(ScalarValue, Value)>) -> Seq<
    (ScalarModel, ValueModel),
> {
    Seq::new(entries.len(), |i: int| (entries[i].0@, entries[i].1.model()))
}

/// The models of several fields.
pub open spec fn fields_model(fields: Seq<FieldValue>) -> Seq<FieldModel> {
    Seq::new(fields.len(), |i: int| fields[i].model())
}

/// The model of a field is made of the models of its values.
pub proof fn lemma_field_model(field: FieldValue)
    ensures
        field matches FieldValue::List(vs) ==> field.model() == FieldModel::List(values_model(vs@)),
        field matches FieldValue::Entries(es) ==> field.model() == FieldModel::Entries(
            entries_model(es@),
        ),
{
    match field {
        FieldValue::List(vs) => {
            assert(field.model()->List_0 =~= values_model(vs@));
        },
        FieldValue::Entries(es) => {
            assert(field.model()->Entries_0 =~= entries_model(es@));
        },
        _ => {},
    }
}

/// The model of a message is made of the models of its fields.
pub proof fn lemma_message_model(message: Message)
    ensures
        message.model() == (MessageModel {
            class: message.class,
            own: message.own,
            fields: fields_model(message.fields@),
            unknown: message.unknown@,
        }),
{
    assert(message.model().fields =~= fields_model(message.fields@));
}

// ---------------------------------------------------------------------------
// Scalars on the wire
// ---------------------------------------------------------------------------

/// The wire payload of a scalar of the given type, if the value is one of that
/// type.
pub open spec fn scalar_payload(scalar: ScalarType, value: ScalarModel) -> Option<Payload> {
    match (scalar, value) {
        (ScalarType::Int32, ScalarModel::I32(v)) => Some(Payload::Varint(extended(v as int))),
        (ScalarType::Int64, ScalarModel::I64(v)) => Some(Payload::Varint(extended(v as int))),
        (ScalarType::UInt32, ScalarModel::U32(v)) => Some(Payload::Varint(v as u64)),
        (ScalarType::UInt64, ScalarModel::U64(v)) => Some(Payload::Varint(v)),
        (ScalarType::SInt32, ScalarModel::I32(v)) => Some(Payload::Varint(zigzag(v as int) as u64)),
        (ScalarType::SInt64, ScalarModel::I64(v)) => Some(Payload::Varint(zigzag(v as int) as u64)),
        (ScalarType::Bool, ScalarModel::Bool(v)) => Some(
            Payload::Varint(
                if v {
                    1
                } else {
                    0
                },
            ),
        ),
        (ScalarType::Fixed32, ScalarModel::U32(v)) => Some(Payload::I32(v)),
        (ScalarType::SFixed32, ScalarModel::I32(v)) => Some(Payload::I32(low32(extended(v as int)))),
        (ScalarType::Float, ScalarModel::F32(bits)) => Some(Payload::I32(bits)),
        (ScalarType::Fixed64, ScalarModel::U64(v)) => Some(Payload::I64(v)),
        (ScalarType::SFixed64, ScalarModel::I64(v)) => Some(Payload::I64(extended(v as int))),
        (ScalarType::Double, ScalarModel::F64(bits)) => Some(Payload::I64(bits)),
        (ScalarType::String, ScalarModel::Text(text)) => Some(Payload::Len(encode_utf8(text))),
        (ScalarType::Bytes, ScalarModel::Bytes(bytes)) => Some(Payload::Len(bytes)),
        _ => None,
    }
}

/// The scalar of the given type that a payload of its wire type stands for;
/// only a string can have none, for bytes that are not UTF-8.
pub open spec fn scalar_of(scalar: ScalarType, payload: Payload) -> Option<ScalarModel> {
    match (scalar, payload) {
        (ScalarType::Int32, Payload::Varint(raw)) => Some(
            ScalarModel::I32(signed32(low32(raw) as int) as i32),
        ),
        (ScalarType::Int64, Payload::Varint(raw)) => Some(
            ScalarModel::I64(signed64(raw as int) as i64),
        ),
        (ScalarType::UInt32, Payload::Varint(raw)) => Some(ScalarModel::U32(low32(raw))),
        (ScalarType::UInt64, Payload::Varint(raw)) => Some(ScalarModel::U64(raw)),
        (ScalarType::SInt32, Payload::Varint(raw)) => Some(
            ScalarModel::I32(unzigzag(low32(raw) as int) as i32),
        ),
        (ScalarType::SInt64, Payload::Varint(raw)) => Some(
            ScalarModel::I64(unzigzag(raw as int) as i64),
        ),
        (ScalarType::Bool, Payload::Varint(raw)) => Some(ScalarModel::Bool(raw != 0)),
        (ScalarType::Fixed32, Payload::I32(raw)) => Some(ScalarModel::U32(raw)),
        (ScalarType::SFixed32, Payload::I32(raw)) => Some(
            ScalarModel::I32(signed32(raw as int) as i32),
        ),
        (ScalarType::Float, Payload::I32(raw)) => Some(ScalarModel::F32(raw)),
        (ScalarType::Fixed64, Payload::I64(raw)) => Some(ScalarModel::U64(raw)),
        (ScalarType::SFixed64, Payload::I64(raw)) => Some(
            ScalarModel::I64(signed64(raw as int) as i64),
        ),
        (ScalarType::Double, Payload::I64(raw)) => Some(ScalarModel::F64(raw)),
        (ScalarType::String, Payload::Len(bytes)) => match text_of(bytes) {
            Some(text) => Some(ScalarModel::Text(text)),
            None => None,
        },
        (ScalarType::Bytes, Payload::Len(bytes)) => Some(ScalarModel::Bytes(bytes)),
        _ => None,
    }
}

/// The proto3 default of a scalar: zero, `false`, or nothing at all.
pub open spec fn zero_scalar(scalar: ScalarType) -> ScalarModel {
    match scalar {
        ScalarType::Int32 | ScalarType::SInt32 | ScalarType::SFixed32 => ScalarModel::I32(0),
        ScalarType::Int64 | ScalarType::SInt64 | ScalarType::SFixed64 => ScalarModel::I64(0),
        ScalarType::UInt32 | ScalarType::Fixed32 => ScalarModel::U32(0),
        ScalarType::UInt64 | ScalarType::Fixed64 => ScalarModel::U64(0),
        ScalarType::Bool => ScalarModel::Bool(false),
        ScalarType::Float => ScalarModel::F32(0),
        ScalarType::Double => ScalarModel::F64(0),
        ScalarType::String => ScalarModel::Text(Seq::empty()),
        ScalarType::Bytes => ScalarModel::Bytes(Seq::empty()),
    }
}

/// The payload of a scalar has the scalar's wire type, and reads back as the
/// scalar: every integer, every bit pattern of a float, every text and every
/// byte string survives.
pub proof fn law_scalar_round_trip(scalar: ScalarType, value: ScalarModel)
    requires
        scalar_payload(scalar, value) is Some,
    ensures
        scalar_payload(scalar, value)->0.wire() == scalar.wire(),
        scalar_of(scalar, scalar_payload(scalar, value)->0) == Some(value),
{
    match value {
        ScalarModel::Text(text) => crate::text::law_text_round_trip(text),
        _ => {},
    }
}

/// The default of a scalar is a value of its type.
pub proof fn law_zero_scalar_typed(scalar: ScalarType)
    ensures
        scalar_payload(scalar, zero_scalar(scalar)) is Some,
{
}

} // verus!
