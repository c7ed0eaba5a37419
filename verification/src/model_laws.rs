//! What the models say is what the values hold, part by part; and what the
//! results that are built from several steps come to.
use vstd::prelude::*;

use crate::arrival::{
    arrival_of, arrived_model, error_of, events_model, field_events, fields_events,
    lemma_decoded_model, nested_outcome, read_arrival, Arrived, ArrivedModel, Decoded, Event,
    EventModel,
};
use crate::decode::{
    decoded_elements, decoded_nested, decoded_value, lemma_next_events, read_elements, read_value,
    scalar_model, with_field, DecodeError, Decoding,
};
use crate::descriptor::{
    fields_view, index_view, names_view, text_view, FieldDescriptor, FieldIndex, FieldKind,
    MessageDescriptor,
};
use crate::encode::{
    appended, element_result, entries_bytes, entry_result, field_result, list_result, map_result,
    payload_result, repeated_bytes, scalar_result, EncodeError,
};
use crate::descriptor::{MapValue, ScalarType};
use crate::message::{
    groups_view, linked_view, references_view, schema_view, Descriptor, DescriptorView, FastInit,
    LinkedRef, LinkedView, ENUM_TABLE_SIZE,
};
use crate::value::{
    entries_model, fields_model, lemma_field_model, lemma_message_model, scalar_payload,
    values_model, FieldModel, FieldValue, Message, ScalarModel, ScalarValue, Value, ValueModel,
};
use crate::wire::{field_bytes, field_in, payload_bytes, Payload, WireError, WireField, WireType};

verus! {

// ---------------------------------------------------------------------------
// Models
// ---------------------------------------------------------------------------

/// The model of a scalar is the scalar.
pub proof fn law_scalar_models(
    short: i32,
    long: i64,
    ushort: u32,
    ulong: u64,
    flag: bool,
    text: String,
    bytes: Vec<u8>,
)
    ensures
        ScalarValue::I32(short)@ == ScalarModel::I32(short),
        ScalarValue::I64(long)@ == ScalarModel::I64(long),
        ScalarValue::U32(ushort)@ == ScalarModel::U32(ushort),
        ScalarValue::U64(ulong)@ == ScalarModel::U64(ulong),
        ScalarValue::Bool(flag)@ == ScalarModel::Bool(flag),
        ScalarValue::F32(ushort)@ == ScalarModel::F32(ushort),
        ScalarValue::F64(ulong)@ == ScalarModel::F64(ulong),
        ScalarValue::Text(text)@ == ScalarModel::Text(text@),
        ScalarValue::Bytes(bytes)@ == ScalarModel::Bytes(bytes@),
{
}

/// The model of a value is the value.
pub proof fn law_value_models(
    scalar: ScalarValue,
    number: i32,
    message: Message,
    secs: i64,
    nanos: i32,
)
    ensures
        Value::Scalar(scalar).model() == ValueModel::Scalar(scalar@),
        Value::Enum(number).model() == ValueModel::Enum(number),
        Value::Message(message).model() == ValueModel::Message(message.model()),
        (Value::Timestamp { secs, nanos }).model() == (ValueModel::Timestamp { secs, nanos }),
        (Value::Duration { secs, nanos }).model() == (ValueModel::Duration { secs, nanos }),
{
}

/// The model of a field is made of the models of what it holds, in its order.
pub proof fn law_field_models(one: Value, list: Vec<Value>, entries: Vec<(ScalarValue, Value)>)
    ensures
        FieldValue::Absent.model() == FieldModel::Absent,
        FieldValue::One(one).model() == FieldModel::One(one.model()),
        FieldValue::List(list).model() matches FieldModel::List(models) && {
            &&& models == values_model(list@)
            &&& models.len() == list@.len()
            &&& forall|i: int| 0 <= i < models.len() ==> #[trigger] models[i] == list@[i].model()
        },
        FieldValue::Entries(entries).model() matches FieldModel::Entries(models) && {
            &&& models == entries_model(entries@)
            &&& models.len() == entries@.len()
            &&& forall|i: int|
                0 <= i < models.len() ==> (#[trigger] models[i]).0 == entries@[i].0@
            &&& forall|i: int|
                0 <= i < models.len() ==> (#[trigger] models[i]).1 == entries@[i].1.model()
        },
{
    lemma_field_model(FieldValue::List(list));
    lemma_field_model(FieldValue::Entries(entries));
}

/// The model of a message is made of the models of its fields.
pub proof fn law_message_models(message: Message)
    ensures
        message.model().class == message.class,
        message.model().own == message.own,
        message.model().unknown == message.unknown@,
        message.model().fields == fields_model(message.fields@),
        message.model().fields.len() == message.fields@.len(),
        forall|i: int|
            0 <= i < message.fields@.len() ==> #[trigger] message.model().fields[i]
                == message.fields@[i].model(),
{
    lemma_message_model(message);
}

/// The model of what has arrived is what has arrived.
pub proof fn law_arrived_models(
    scalar: ScalarValue,
    number: i32,
    nested: Decoded,
    secs: i64,
    nanos: i32,
    arrived: Arrived,
)
    ensures
        Arrived::Scalar(scalar).model() == ArrivedModel::Plain(ValueModel::Scalar(scalar@)),
        Arrived::Enum(number).model() == ArrivedModel::Plain(ValueModel::Enum(number)),
        Arrived::Message(nested).model() == ArrivedModel::Message(nested.model()),
        (Arrived::Timestamp { secs, nanos }).model() == ArrivedModel::Plain(
            (ValueModel::Timestamp { secs, nanos }),
        ),
        (Arrived::Duration { secs, nanos }).model() == ArrivedModel::Plain(
            (ValueModel::Duration { secs, nanos }),
        ),
        arrived_model(Some(arrived)) == Some(arrived.model()),
        arrived_model(None) is None,
{
}

/// The model of an event is the event.
pub proof fn law_event_models(field: usize, value: Arrived, key: ScalarValue)
    ensures
        (Event::Clear { field }).model() == (EventModel::Clear { field }),
        (Event::Store { field, value }).model() == (EventModel::Store {
            field,
            value: value.model(),
        }),
        (Event::Append { field, value }).model() == (EventModel::Append {
            field,
            value: value.model(),
        }),
        (Event::Hold { field, value }).model() == (EventModel::Hold { field, value: value.model() }),
        (Event::Put { field, key }).model() == (EventModel::Put { field, key: key@ }),
{
}

/// The model of a decoded message is made of the models of its events, in their
/// order.
pub proof fn law_decoded_models(decoded: Decoded)
    ensures
        decoded.model().class == decoded.class,
        decoded.model().index == decoded.index,
        decoded.model().unknown == decoded.unknown@,
        decoded.model().error == decoded.error,
        decoded.model().events == events_model(decoded.events@),
        decoded.model().events.len() == decoded.events@.len(),
        forall|i: int|
            0 <= i < decoded.events@.len() ==> #[trigger] decoded.model().events[i]
                == decoded.events@[i].model(),
{
    lemma_decoded_model(decoded);
}

/// What is said of a field is what its descriptor holds.
pub proof fn law_field_views(field: FieldDescriptor)
    ensures
        field@.number == field.number,
        field@.name == field.name@,
        field@.kind == field.kind,
        field@.label == field.label,
        field@.oneof_index == field.oneof_index,
        field.qualified_name matches Some(name) ==> field@.qualified_name == Some(name@),
        field.qualified_name is None ==> field@.qualified_name is None,
{
}

/// What is said of a message is what its descriptor holds, in its order.
pub proof fn law_message_views(message: MessageDescriptor)
    ensures
        message@.name == message.name@,
        message@.fields.len() == message.fields@.len(),
        message@.oneofs.len() == message.oneofs@.len(),
        forall|i: int|
            0 <= i < message.fields@.len() ==> #[trigger] message@.fields[i]
                == message.fields@[i]@,
        forall|i: int|
            0 <= i < message.oneofs@.len() ==> #[trigger] message@.oneofs[i]
                == message.oneofs@[i]@,
{
}

/// What is said of lists is what they hold, in their order.
pub proof fn law_list_views(
    fields: Seq<FieldDescriptor>,
    names: Seq<String>,
    pairs: Seq<(u32, String)>,
    groups: Seq<(String, Vec<String>)>,
    schema: Seq<Descriptor>,
    i: int,
)
    ensures
        fields_view(fields).len() == fields.len(),
        names_view(names).len() == names.len(),
        references_view(pairs).len() == pairs.len(),
        groups_view(groups).len() == groups.len(),
        schema_view(schema).len() == schema.len(),
        0 <= i < fields.len() ==> fields_view(fields)[i] == fields[i]@,
        0 <= i < names.len() ==> names_view(names)[i] == names[i]@,
        0 <= i < pairs.len() ==> references_view(pairs)[i] == (pairs[i].0, pairs[i].1@),
        0 <= i < groups.len() ==> groups_view(groups)[i] == (
            groups[i].0@,
            names_view(groups[i].1@),
        ),
        0 <= i < schema.len() ==> schema_view(schema)[i] == schema[i]@,
{
}

/// What is said of a link is what it holds.
pub proof fn law_link_views(
    linked: LinkedRef,
    init: FastInit,
    text: String,
    index: usize,
    desc: DescriptorView,
    number: u32,
)
    ensures
        linked@.class == linked.class,
        linked@.desc == linked.desc,
        linked.enum_table matches Some(table) ==> linked@.enum_table == Some(table@),
        linked.enum_table is None ==> linked@.enum_table is None,
        linked_view(Some(&linked)) == Some(linked@),
        linked_view(None) is None,
        init@.class == init.class,
        init@.defaults == init.defaults@,
        text_view(Some(text)) == Some(text@),
        text_view(None) is None,
        index_view(Some(index)) == Some(index as nat),
        index_view(None) is None,
        desc.refs is None ==> desc.linked_ref(number) is None,
        desc.refs matches Some(refs) ==> {
            &&& refs.contains_key(number) ==> desc.linked_ref(number) == Some(refs[number])
            &&& !refs.contains_key(number) ==> desc.linked_ref(number) is None
        },
        ENUM_TABLE_SIZE == 64,
{
}

/// A table finds a field number at its place, a map by its key.
pub proof fn law_field_index(
    table: Vec<Option<usize>>,
    map: std::collections::HashMap<u32, usize>,
    number: u32,
)
    ensures
        number < table@.len() ==> FieldIndex::Dense(table).entry(number) == (
        match table@[number as int] {
            Some(i) => Some(i as nat),
            None => None,
        }),
        number >= table@.len() ==> FieldIndex::Dense(table).entry(number) is None,
        map@.contains_key(number) ==> FieldIndex::Sparse(map).entry(number) == Some(
            map@[number] as nat,
        ),
        !map@.contains_key(number) ==> FieldIndex::Sparse(map).entry(number) is None,
{
}

// ---------------------------------------------------------------------------
// Results
// ---------------------------------------------------------------------------

/// What is encoded goes behind what was in the buffer; if it cannot be encoded,
/// the error says so, and what was there stays in front.
pub proof fn law_appended(
    before: Seq<u8>,
    after: Seq<u8>,
    expected: Result<Seq<u8>, EncodeError>,
    result: Result<(), EncodeError>,
)
    requires
        appended(before, after, expected, result),
    ensures
        result is Ok <==> expected is Ok,
        forall|i: int| 0 <= i < before.len() ==> i < after.len() && #[trigger] after[i]
            == before[i],
        expected matches Ok(bytes) ==> {
            &&& after.len() == before.len() + bytes.len()
            &&& forall|i: int|
                0 <= i < bytes.len() ==> #[trigger] bytes[i] == after[before.len() + i]
        },
        expected matches Err(error) ==> result == Err::<(), EncodeError>(error),
{
    assert forall|i: int| 0 <= i < before.len() implies i < after.len() && #[trigger] after[i]
        == before[i] by {
        if expected is Err {
            assert(after.take(before.len() as int)[i] == before[i]);
        }
    }
}

/// The bytes of a scalar are those of its payload, alone or behind a tag; one
/// that is of another type has none.
pub proof fn law_scalar_bytes(number: u32, scalar: ScalarType, value: ScalarModel)
    ensures
        match scalar_payload(scalar, value) {
            Some(payload) => {
                &&& payload_result(scalar_result(scalar, value)) == Ok::<Seq<u8>, EncodeError>(
                    payload_bytes(payload),
                )
                &&& field_result(number, scalar_result(scalar, value)) == Ok::<
                    Seq<u8>,
                    EncodeError,
                >(field_bytes(WireField { number, payload }))
            },
            None => {
                let error = EncodeError::TypeMismatch;
                &&& payload_result(scalar_result(scalar, value)) == Err::<Seq<u8>, EncodeError>(
                    error,
                )
                &&& field_result(number, scalar_result(scalar, value)) == Err::<
                    Seq<u8>,
                    EncodeError,
                >(error)
            },
        },
{
}

/// The bytes of an element are those of its payload alone if it is a number, and
/// else a field of its own; those of a map entry are a chunk with the key as
/// field 1 and the value as field 2, and the key is looked at first.
pub proof fn law_part_bytes(
    number: u32,
    kind: FieldKind,
    key: Payload,
    payload: Payload,
    first: EncodeError,
    second: EncodeError,
)
    ensures
        crate::decode::kind_wire(kind) != WireType::Len ==> element_result(
            number,
            kind,
            Ok(payload),
        ) == Ok::<Seq<u8>, EncodeError>(payload_bytes(payload)),
        crate::decode::kind_wire(kind) == WireType::Len ==> element_result(
            number,
            kind,
            Ok(payload),
        ) == Ok::<Seq<u8>, EncodeError>(field_bytes(WireField { number, payload })),
        element_result(number, kind, Err(first)) == Err::<Seq<u8>, EncodeError>(first),
        entry_result(number, Ok(key), Ok(payload)) == Ok::<Seq<u8>, EncodeError>(
            field_bytes(
                WireField {
                    number,
                    payload: Payload::Len(
                        field_bytes(WireField { number: 1, payload: key }) + field_bytes(
                            WireField { number: 2, payload },
                        ),
                    ),
                },
            ),
        ),
        entry_result(number, Err(first), Err(second)) == Err::<Seq<u8>, EncodeError>(first),
        entry_result(number, Err(first), Ok(payload)) == Err::<Seq<u8>, EncodeError>(first),
        entry_result(number, Ok(key), Err(second)) == Err::<Seq<u8>, EncodeError>(second),
{
    crate::scalar_laws::law_packed_kinds(kind);
}

/// A repeated field takes a list, and a map field entries; anything else is
/// refused by name.
pub proof fn law_collections_encoded(
    schema: Seq<DescriptorView>,
    linked: Option<LinkedView>,
    number: u32,
    kind: FieldKind,
    key: ScalarType,
    value_kind: MapValue,
    value: FieldModel,
    depth: nat,
)
    ensures
        match value {
            FieldModel::List(values) => list_result(schema, linked, number, kind, value, depth)
                == repeated_bytes(schema, linked, number, kind, values, depth),
            _ => list_result(schema, linked, number, kind, value, depth) == Err::<
                Seq<u8>,
                EncodeError,
            >(EncodeError::NotAList),
        },
        match value {
            FieldModel::Entries(entries) => map_result(
                schema,
                linked,
                number,
                key,
                value_kind,
                value,
                depth,
            ) == entries_bytes(
                schema,
                linked,
                number,
                key,
                value_kind,
                entries,
                entries.len(),
                depth,
            ),
            _ => map_result(schema, linked, number, key, value_kind, value, depth) == Err::<
                Seq<u8>,
                EncodeError,
            >(EncodeError::NotAMap),
        },
{
}

/// A malformed payload is refused with what is wrong with it, and makes nothing
/// arrive; another one is taken for what it stands for.
pub proof fn law_payloads_taken(
    schema: Seq<DescriptorView>,
    linked: Option<LinkedView>,
    kind: FieldKind,
    payload: Payload,
    error: WireError,
    value: ScalarValue,
    depth: nat,
)
    ensures
        read_value(schema, linked, kind, Ok(payload), depth) == decoded_value(
            schema,
            linked,
            kind,
            payload,
            depth,
        ),
        read_value(schema, linked, kind, Err(error), depth) == Err::<ValueModel, DecodeError>(
            DecodeError::Wire(error),
        ),
        read_elements(schema, linked, kind, Ok(payload), depth) == decoded_elements(
            schema,
            linked,
            kind,
            payload,
            depth,
        ),
        read_elements(schema, linked, kind, Err(error), depth) == Err::<
            Seq<ValueModel>,
            DecodeError,
        >(DecodeError::Wire(error)),
        read_arrival(schema, linked, kind, Ok(payload), depth) == arrival_of(
            schema,
            linked,
            kind,
            payload,
            depth,
        ),
        read_arrival(schema, linked, kind, Err(error), depth) is None,
        scalar_model(Ok(value)) == Ok::<ScalarModel, DecodeError>(value@),
        scalar_model(Err(DecodeError::Wire(error))) == Err::<ScalarModel, DecodeError>(
            DecodeError::Wire(error),
        ),
        scalar_model(Err(DecodeError::InvalidUtf8)) == Err::<ScalarModel, DecodeError>(
            DecodeError::InvalidUtf8,
        ),
{
}

/// The error of a result is its error.
pub proof fn law_error_of(message: Decoding, error: DecodeError)
    ensures
        error_of(Ok::<Decoding, DecodeError>(message)) is None,
        error_of(Err::<Decoding, DecodeError>(error)) == Some(error),
{
}

/// A nested message is handed out unless it cannot even be begun; what is handed
/// out has an error just if the message cannot be decoded.
pub proof fn law_nested_handed_out(
    schema: Seq<DescriptorView>,
    linked: Option<LinkedView>,
    bytes: Seq<u8>,
    depth: nat,
)
    ensures
        match nested_outcome(schema, linked, bytes, depth) {
            Ok(handed_out) => {
                &&& linked is Some && linked->0.desc == Some(handed_out.index)
                &&& handed_out.class == linked->0.class
                &&& handed_out.index < schema.len()
                &&& depth < 100
                &&& match decoded_nested(schema, linked, bytes, depth) {
                    Ok(_) => handed_out.error is None,
                    Err(error) => handed_out.error == Some(error),
                }
            },
            Err(error) => {
                &&& linked is None || linked->0.desc is None || linked->0.desc->0 >= schema.len()
                    || depth >= 100
                &&& decoded_nested(schema, linked, bytes, depth) == Err::<
                    crate::value::MessageModel,
                    DecodeError,
                >(error)
            },
        },
{
}

/// The events of fields are those of the first and then those of the others, up
/// to the first that fails.
pub proof fn law_fields_hand_out(
    schema: Seq<DescriptorView>,
    desc: DescriptorView,
    s: Seq<u8>,
    so_far: Decoding,
    depth: nat,
)
    ensures
        s.len() == 0 ==> fields_events(schema, desc, s, so_far, depth).len() == 0,
        s.len() > 0 ==> match field_in(s).result {
            Err(_) => fields_events(schema, desc, s, so_far, depth).len() == 0,
            Ok(field) => {
                let used = field_in(s).used as int;
                let first = field_events(schema, desc, field, so_far, depth);
                match with_field(schema, desc, field, s.take(used), so_far, depth) {
                    Err(_) => fields_events(schema, desc, s, so_far, depth) == first,
                    Ok(next) => fields_events(schema, desc, s, so_far, depth) == first
                        + fields_events(schema, desc, s.skip(used), next, depth),
                }
            },
        },
{
    reveal(field_events);
    if s.len() > 0 {
        lemma_next_events(schema, desc, s, so_far, depth);
        if let Ok(field) = field_in(s).result {
            let first = field_events(schema, desc, field, so_far, depth);
            assert(first + Seq::<EventModel>::empty() =~= first);
        }
    }
}

} // verus!
