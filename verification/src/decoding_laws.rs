//! What each field on the wire does to the message that is being decoded, kind
//! by kind, and what is handed out for it.
use vstd::prelude::*;

use crate::arrival::{
    arrival_of, elements_events, entry_arrival, entry_events, field_events, fields_events,
    hold_events, omitted_arrival, outcome, ArrivedModel, EventModel,
};
use crate::decode::{
    decoded, decoded_elements, decoded_entry, decoded_nested, decoded_value, entry_fields,
    holds_elements, is_fast, kind_wire, lemma_payload_progress, lemma_with_next, nothing_decoded,
    omitted_value, packed_values, slot_of, with_entry_field, with_field, with_fields, DecodeError,
    Decoding, Slot,
};
use crate::descriptor::{field_at, FieldKind, FieldView, Label, MapValue, ScalarType};
use crate::encode::{kind_of_value, packed};
use crate::entries::{put, same_key};
use crate::message::{DescriptorView, LinkedView};
use crate::value::{scalar_of, zero_scalar, FieldModel, MessageModel, ScalarModel, ValueModel};
use crate::wellknown::parts_in;
use crate::wire::{field_bytes, field_in, payload_bytes, payload_in, Payload, WireField, WireType};
use crate::wire_laws::{law_field_round_trip, law_payload_round_trip, writable};

verus! {

// ---------------------------------------------------------------------------
// Values
// ---------------------------------------------------------------------------

/// What a payload stands for, by the kind of its field.
pub proof fn law_values_decoded(
    schema: Seq<DescriptorView>,
    linked: Option<LinkedView>,
    scalar: ScalarType,
    payload: Payload,
    bytes: Seq<u8>,
    depth: nat,
)
    ensures
        match scalar_of(scalar, payload) {
            Some(value) => decoded_value(
                schema,
                linked,
                FieldKind::Scalar(scalar),
                payload,
                depth,
            ) == Ok::<ValueModel, DecodeError>(ValueModel::Scalar(value)),
            None => decoded_value(
                schema,
                linked,
                FieldKind::Scalar(scalar),
                payload,
                depth,
            ) == Err::<ValueModel, DecodeError>(DecodeError::InvalidUtf8),
        },
        match parts_in(bytes, (0, 0)) {
            Ok((secs, nanos)) => {
                &&& decoded_value(
                    schema,
                    linked,
                    FieldKind::Timestamp,
                    Payload::Len(bytes),
                    depth,
                ) == Ok::<ValueModel, DecodeError>(ValueModel::Timestamp { secs, nanos })
                &&& decoded_value(
                    schema,
                    linked,
                    FieldKind::Duration,
                    Payload::Len(bytes),
                    depth,
                ) == Ok::<ValueModel, DecodeError>(ValueModel::Duration { secs, nanos })
            },
            Err(error) => {
                &&& decoded_value(
                    schema,
                    linked,
                    FieldKind::Timestamp,
                    Payload::Len(bytes),
                    depth,
                ) == Err::<ValueModel, DecodeError>(DecodeError::Wire(error))
                &&& decoded_value(
                    schema,
                    linked,
                    FieldKind::Duration,
                    Payload::Len(bytes),
                    depth,
                ) == Err::<ValueModel, DecodeError>(DecodeError::Wire(error))
            },
        },
        match decoded_nested(schema, linked, bytes, depth) {
            Ok(message) => decoded_value(
                schema,
                linked,
                FieldKind::Message,
                Payload::Len(bytes),
                depth,
            ) == Ok::<ValueModel, DecodeError>(ValueModel::Message(message)),
            Err(error) => decoded_value(
                schema,
                linked,
                FieldKind::Message,
                Payload::Len(bytes),
                depth,
            ) == Err::<ValueModel, DecodeError>(error),
        },
{
}

/// A nested message is of the class that its field is linked to, and is decoded
/// by that class's descriptor, one level deeper; there are a hundred levels.
pub proof fn law_nested_decoded(
    schema: Seq<DescriptorView>,
    linked: LinkedView,
    bytes: Seq<u8>,
    depth: nat,
)
    ensures
        decoded_nested(schema, None, bytes, depth) == Err::<MessageModel, DecodeError>(
            DecodeError::NotLinked,
        ),
        match linked.desc {
            None => decoded_nested(schema, Some(linked), bytes, depth) == Err::<
                MessageModel,
                DecodeError,
            >(DecodeError::NotAMessage),
            Some(index) => {
                &&& index >= schema.len() ==> decoded_nested(schema, Some(linked), bytes, depth)
                    == Err::<MessageModel, DecodeError>(DecodeError::NotAMessage)
                &&& index < schema.len() && depth >= 100 ==> decoded_nested(
                    schema,
                    Some(linked),
                    bytes,
                    depth,
                ) == Err::<MessageModel, DecodeError>(DecodeError::TooDeep)
                &&& index < schema.len() && depth < 100 ==> decoded_nested(
                    schema,
                    Some(linked),
                    bytes,
                    depth,
                ) == decoded(schema, linked.class, index, bytes, depth + 1)
            },
        },
{
}

/// Before anything is seen, a repeated field holds an empty list, a map field no
/// entries and any other field nothing; no group is occupied and nothing is
/// unknown.
pub proof fn law_nothing_decoded(fields: Seq<FieldView>, i: int)
    requires
        0 <= i < fields.len(),
    ensures
        ({
            let nothing = nothing_decoded(fields);
            &&& nothing.fields.len() == fields.len()
            &&& nothing.owners == Map::<u32, usize>::empty()
            &&& nothing.unknown.len() == 0
            &&& fields[i].kind is MapOf ==> nothing.fields[i] == FieldModel::Entries(Seq::empty())
            &&& !(fields[i].kind is MapOf) && fields[i].label == Label::Repeated
                ==> nothing.fields[i] == FieldModel::List(Seq::empty())
            &&& !(fields[i].kind is MapOf) && fields[i].label != Label::Repeated
                ==> nothing.fields[i] == FieldModel::Absent
        }),
{
}

/// A decoded message is of the class that was asked for, and holds what its
/// fields give; below the hundredth level there is none.
pub proof fn law_message_decoded(
    schema: Seq<DescriptorView>,
    class: usize,
    index: usize,
    s: Seq<u8>,
    depth: nat,
)
    ensures
        depth > 100 ==> decoded(schema, class, index, s, depth) == Err::<MessageModel, DecodeError>(
            DecodeError::TooDeep,
        ),
        depth <= 100 ==> match with_fields(
            schema,
            schema[index as int],
            s,
            nothing_decoded(schema[index as int].message.fields),
            depth,
        ) {
            Err(error) => decoded(schema, class, index, s, depth) == Err::<
                MessageModel,
                DecodeError,
            >(error),
            Ok(done) => {
                &&& decoded(schema, class, index, s, depth) matches Ok(message)
                &&& message.class == class
                &&& message.own == Some(index)
                &&& message.fields == done.fields
                &&& message.unknown == done.unknown
            },
        },
{
    reveal(with_field);
}

/// The fields of a message are decoded one by one; the first that fails ends it,
/// and so do bytes that are no field.
pub proof fn law_fields_decoded(
    schema: Seq<DescriptorView>,
    desc: DescriptorView,
    s: Seq<u8>,
    so_far: Decoding,
    depth: nat,
)
    ensures
        s.len() == 0 ==> with_fields(schema, desc, s, so_far, depth) == Ok::<Decoding, DecodeError>(
            so_far,
        ),
        s.len() > 0 ==> match field_in(s).result {
            Err(error) => with_fields(schema, desc, s, so_far, depth) == Err::<
                Decoding,
                DecodeError,
            >(DecodeError::Wire(error)),
            Ok(field) => {
                let used = field_in(s).used as int;
                match with_field(schema, desc, field, s.take(used), so_far, depth) {
                    Err(error) => with_fields(schema, desc, s, so_far, depth) == Err::<
                        Decoding,
                        DecodeError,
                    >(error),
                    Ok(next) => with_fields(schema, desc, s, so_far, depth) == with_fields(
                        schema,
                        desc,
                        s.skip(used),
                        next,
                        depth,
                    ),
                }
            },
        },
{
    if s.len() > 0 {
        lemma_with_next(schema, desc, s, so_far, depth);
    }
}

// ---------------------------------------------------------------------------
// Fields
// ---------------------------------------------------------------------------

/// Whether `after` differs from `before` in what field `i` holds alone, but for
/// the field that shared its oneof group so far, which is cleared.
pub open spec fn only_set(
    before: Decoding,
    after: Decoding,
    group: Option<u32>,
    i: int,
) -> bool {
    let displaced = match group {
        Some(g) => if before.owners.contains_key(g) && before.owners[g] != i {
            Some(before.owners[g] as int)
        } else {
            None
        },
        None => None,
    };
    &&& after.fields.len() == before.fields.len()
    &&& after.unknown == before.unknown
    &&& after.owners == (match group {
        Some(g) => before.owners.insert(g, i as usize),
        None => before.owners,
    })
    &&& forall|j: int|
        #![trigger after.fields[j]]
        0 <= j < after.fields.len() && j != i && displaced != Some(j) ==> after.fields[j]
            == before.fields[j]
    &&& displaced matches Some(j) ==> 0 <= j < after.fields.len() ==> after.fields[j]
        == FieldModel::Absent
}

/// A field that the schema does not know, or a singular or map field of another
/// wire type than its own, changes nothing but the unknown bytes, to which its
/// bytes are added.
pub proof fn law_field_unknown(
    schema: Seq<DescriptorView>,
    desc: DescriptorView,
    field: WireField,
    raw: Seq<u8>,
    so_far: Decoding,
    depth: nat,
)
    requires
        match field_at(desc.message.fields, field.number) {
            None => true,
            Some(i) => {
                let known = desc.message.fields[i as int];
                &&& known.kind is MapOf || known.label != Label::Repeated
                &&& field.payload.wire() != kind_wire(known.kind)
            },
        },
    ensures
        with_field(schema, desc, field, raw, so_far, depth) matches Ok(next) && {
            &&& next.fields == so_far.fields
            &&& next.owners == so_far.owners
            &&& next.unknown == so_far.unknown + raw
        },
        field_events(schema, desc, field, so_far, depth).len() == 0,
{
    reveal(with_field);
    reveal(field_events);
}

/// A singular field takes the value of its payload, in place of what it held;
/// a later member of its oneof group takes the earlier one's place.
pub proof fn law_field_single(
    schema: Seq<DescriptorView>,
    desc: DescriptorView,
    field: WireField,
    i: usize,
    raw: Seq<u8>,
    so_far: Decoding,
    depth: nat,
)
    requires
        field_at(desc.message.fields, field.number) == Some(i as nat),
        i < desc.message.fields.len(),
        so_far.fields.len() == desc.message.fields.len(),
        forall|g: u32| #[trigger]
            so_far.owners.contains_key(g) ==> so_far.owners[g] < so_far.fields.len(),
        !(desc.message.fields[i as int].kind is MapOf),
        desc.message.fields[i as int].label != Label::Repeated,
        field.payload.wire() == kind_wire(desc.message.fields[i as int].kind),
    ensures
        ({
            let known = desc.message.fields[i as int];
            let linked = desc.linked_ref(field.number);
            match decoded_value(schema, linked, known.kind, field.payload, depth) {
                Err(error) => with_field(schema, desc, field, raw, so_far, depth) == Err::<
                    Decoding,
                    DecodeError,
                >(error),
                Ok(value) => {
                    &&& with_field(schema, desc, field, raw, so_far, depth) matches Ok(next)
                    &&& next.fields[i as int] == FieldModel::One(value)
                    &&& only_set(so_far, next, known.oneof_index, i as int)
                },
            }
        }),
{
    reveal(with_field);
}

/// A repeated field takes the elements of its payload behind those that it has.
/// One whose list was cleared takes none, and one of another wire type is kept
/// with the unknown ones.
pub proof fn law_field_repeated(
    schema: Seq<DescriptorView>,
    desc: DescriptorView,
    field: WireField,
    i: usize,
    raw: Seq<u8>,
    so_far: Decoding,
    depth: nat,
)
    requires
        field_at(desc.message.fields, field.number) == Some(i as nat),
        i < desc.message.fields.len(),
        so_far.fields.len() == desc.message.fields.len(),
        forall|g: u32| #[trigger]
            so_far.owners.contains_key(g) ==> so_far.owners[g] < so_far.fields.len(),
        !(desc.message.fields[i as int].kind is MapOf),
        desc.message.fields[i as int].label == Label::Repeated,
    ensures
        ({
            let known = desc.message.fields[i as int];
            let linked = desc.linked_ref(field.number);
            let wire = field.payload.wire();
            let after = with_field(schema, desc, field, raw, so_far, depth);
            if wire == kind_wire(known.kind) || wire == WireType::Len {
                match decoded_elements(schema, linked, known.kind, field.payload, depth) {
                    Err(error) => after == Err::<Decoding, DecodeError>(error),
                    Ok(elements) => match so_far.fields[i as int] {
                        FieldModel::List(list) => {
                            &&& after matches Ok(next)
                            &&& next.fields[i as int] == FieldModel::List(list + elements)
                            &&& only_set(so_far, next, known.oneof_index, i as int)
                        },
                        _ => after == Err::<Decoding, DecodeError>(DecodeError::ClearedList),
                    },
                }
            } else {
                &&& after matches Ok(next)
                &&& next.unknown == so_far.unknown + raw
                &&& next.fields[i as int] == so_far.fields[i as int]
                &&& only_set(
                    so_far,
                    Decoding { unknown: so_far.unknown, ..next },
                    known.oneof_index,
                    i as int,
                )
            }
        }),
{
    reveal(with_field);
}

/// A map field takes the entry of its payload: a key that it has gets the new
/// value, another comes last.
pub proof fn law_field_map(
    schema: Seq<DescriptorView>,
    desc: DescriptorView,
    field: WireField,
    entry: Seq<u8>,
    i: usize,
    raw: Seq<u8>,
    so_far: Decoding,
    depth: nat,
)
    requires
        field_at(desc.message.fields, field.number) == Some(i as nat),
        i < desc.message.fields.len(),
        so_far.fields.len() == desc.message.fields.len(),
        forall|g: u32| #[trigger]
            so_far.owners.contains_key(g) ==> so_far.owners[g] < so_far.fields.len(),
        desc.message.fields[i as int].kind is MapOf,
        so_far.fields[i as int] is Entries,
        field.payload == Payload::Len(entry),
    ensures
        ({
            let known = desc.message.fields[i as int];
            let linked = desc.linked_ref(field.number);
            let key = known.kind->key;
            let value = known.kind->value;
            let entries = so_far.fields[i as int]->Entries_0;
            match decoded_entry(schema, linked, key, value, entry, depth) {
                Err(error) => with_field(schema, desc, field, raw, so_far, depth) == Err::<
                    Decoding,
                    DecodeError,
                >(error),
                Ok((k, v)) => {
                    &&& with_field(schema, desc, field, raw, so_far, depth) matches Ok(next)
                    &&& next.fields[i as int] == FieldModel::Entries(put(entries, k, v))
                    &&& only_set(so_far, next, known.oneof_index, i as int)
                },
            }
        }),
{
    reveal(with_field);
}

// ---------------------------------------------------------------------------
// Elements
// ---------------------------------------------------------------------------

/// What was seen before stays in front.
proof fn lemma_packed_seen(
    schema: Seq<DescriptorView>,
    linked: Option<LinkedView>,
    kind: FieldKind,
    s: Seq<u8>,
    first: Seq<ValueModel>,
    seen: Seq<ValueModel>,
    depth: nat,
)
    ensures
        match packed_values(schema, linked, kind, s, seen, depth) {
            Err(error) => packed_values(schema, linked, kind, s, first + seen, depth) == Err::<
                Seq<ValueModel>,
                DecodeError,
            >(error),
            Ok(values) => packed_values(schema, linked, kind, s, first + seen, depth) == Ok::<
                Seq<ValueModel>,
                DecodeError,
            >(first + values),
        },
    decreases s.len(),
{
    if s.len() > 0 {
        lemma_payload_progress(s, kind_wire(kind));
        if let Ok(payload) = payload_in(s, kind_wire(kind)).result {
            if let Ok(value) = decoded_value(schema, linked, kind, payload, depth) {
                assert((first + seen).push(value) =~= first + seen.push(value));
                lemma_packed_seen(
                    schema,
                    linked,
                    kind,
                    s.skip(payload_in(s, kind_wire(kind)).used as int),
                    first,
                    seen.push(value),
                    depth,
                );
            }
        }
    }
}

/// A chunk of numbers holds one element for each payload in it, in their order,
/// and an empty chunk none; any other payload is one element.
pub proof fn law_elements_decoded(
    schema: Seq<DescriptorView>,
    linked: Option<LinkedView>,
    kind: FieldKind,
    payload: Payload,
    tail: Seq<u8>,
    depth: nat,
)
    requires
        payload.wire() == kind_wire(kind),
        payload matches Payload::Len(data) ==> data.len() <= u64::MAX,
    ensures
        kind_wire(kind) != WireType::Len ==> {
            &&& decoded_elements(schema, linked, kind, Payload::Len(Seq::empty()), depth) == Ok::<
                Seq<ValueModel>,
                DecodeError,
            >(Seq::empty())
            &&& match decoded_value(schema, linked, kind, payload, depth) {
                Err(error) => decoded_elements(
                    schema,
                    linked,
                    kind,
                    Payload::Len(payload_bytes(payload) + tail),
                    depth,
                ) == Err::<Seq<ValueModel>, DecodeError>(error),
                Ok(value) => match decoded_elements(
                    schema,
                    linked,
                    kind,
                    Payload::Len(tail),
                    depth,
                ) {
                    Err(error) => decoded_elements(
                        schema,
                        linked,
                        kind,
                        Payload::Len(payload_bytes(payload) + tail),
                        depth,
                    ) == Err::<Seq<ValueModel>, DecodeError>(error),
                    Ok(others) => decoded_elements(
                        schema,
                        linked,
                        kind,
                        Payload::Len(payload_bytes(payload) + tail),
                        depth,
                    ) == Ok::<Seq<ValueModel>, DecodeError>(seq![value] + others),
                },
            }
        },
        match decoded_value(schema, linked, kind, payload, depth) {
            Err(error) => decoded_elements(schema, linked, kind, payload, depth) == Err::<
                Seq<ValueModel>,
                DecodeError,
            >(error),
            Ok(value) => decoded_elements(schema, linked, kind, payload, depth) == Ok::<
                Seq<ValueModel>,
                DecodeError,
            >(seq![value]),
        },
{
    crate::scalar_laws::law_packed_kinds(kind);
    if kind_wire(kind) != WireType::Len {
        let bytes = payload_bytes(payload);
        law_payload_round_trip(payload, tail);
        assert((bytes + tail).skip(bytes.len() as int) =~= tail);
        lemma_payload_progress(bytes + tail, kind_wire(kind));
        assert(bytes.len() > 0) by {
            law_payload_round_trip(payload, seq![0u8]);
            lemma_payload_progress(bytes + seq![0u8], kind_wire(kind));
        }
        if let Ok(value) = decoded_value(schema, linked, kind, payload, depth) {
            assert(Seq::<ValueModel>::empty().push(value) =~= seq![value] + Seq::empty());
            lemma_packed_seen(schema, linked, kind, tail, seq![value], Seq::empty(), depth);
        }
    }
}

/// A repeated field accepts its elements one by one, and numbers in chunks too.
pub proof fn law_element_fields(kind: FieldKind, wire: WireType)
    ensures
        holds_elements(kind, wire) <==> wire == kind_wire(kind) || wire == WireType::Len,
{
    crate::scalar_laws::law_packed_kinds(kind);
}

// ---------------------------------------------------------------------------
// Map entries
// ---------------------------------------------------------------------------

/// In a map entry, field 1 is the key and field 2 the value, each if it has the
/// wire type that it should; the last of each counts, and any other field is
/// skipped.
pub proof fn law_entry_records(
    schema: Seq<DescriptorView>,
    linked: Option<LinkedView>,
    key: ScalarType,
    value: MapValue,
    record: WireField,
    tail: Seq<u8>,
    seen: (Option<ScalarModel>, Option<ValueModel>),
    depth: nat,
)
    requires
        writable(record),
    ensures
        entry_fields(schema, linked, key, value, Seq::empty(), seen, depth) == Ok::<
            (Option<ScalarModel>, Option<ValueModel>),
            DecodeError,
        >(seen),
        ({
            let wire = record.payload.wire();
            let kind = kind_of_value(value);
            let all = entry_fields(
                schema,
                linked,
                key,
                value,
                field_bytes(record) + tail,
                seen,
                depth,
            );
            if record.number == 1 && wire == key.wire() {
                match scalar_of(key, record.payload) {
                    None => all == Err::<
                        (Option<ScalarModel>, Option<ValueModel>),
                        DecodeError,
                    >(DecodeError::InvalidUtf8),
                    Some(k) => all == entry_fields(
                        schema,
                        linked,
                        key,
                        value,
                        tail,
                        (Some(k), seen.1),
                        depth,
                    ),
                }
            } else if record.number == 2 && wire == kind_wire(kind) {
                match decoded_value(schema, linked, kind, record.payload, depth) {
                    Err(error) => all == Err::<
                        (Option<ScalarModel>, Option<ValueModel>),
                        DecodeError,
                    >(error),
                    Ok(v) => all == entry_fields(
                        schema,
                        linked,
                        key,
                        value,
                        tail,
                        (seen.0, Some(v)),
                        depth,
                    ),
                }
            } else {
                all == entry_fields(schema, linked, key, value, tail, seen, depth)
            }
        }),
{
    law_field_round_trip(record, tail);
    let bytes = field_bytes(record) + tail;
    let next = with_entry_field(schema, linked, key, value, record, seen, depth);
    assert(field_in(bytes).result == Ok::<WireField, crate::wire::WireError>(record));
    assert(bytes.skip(field_in(bytes).used as int) == tail);
    assert(entry_fields(schema, linked, key, value, bytes, seen, depth) == (match next {
        Err(error) => Err(error),
        Ok(seen) => entry_fields(schema, linked, key, value, tail, seen, depth),
    }));
}

/// A key or a value that an entry omits is a default: of a scalar its own, of an
/// enum 0, of a timestamp or a duration zero, and of a message an empty one.
pub proof fn law_entry_defaults(
    schema: Seq<DescriptorView>,
    linked: Option<LinkedView>,
    key: ScalarType,
    value: MapValue,
    s: Seq<u8>,
    depth: nat,
)
    ensures
        match value {
            MapValue::Scalar(scalar) => omitted_value(schema, linked, value, depth) == Ok::<
                ValueModel,
                DecodeError,
            >(ValueModel::Scalar(zero_scalar(scalar))),
            MapValue::Enum => omitted_value(schema, linked, value, depth) == Ok::<
                ValueModel,
                DecodeError,
            >(ValueModel::Enum(0)),
            MapValue::Timestamp => omitted_value(schema, linked, value, depth) == Ok::<
                ValueModel,
                DecodeError,
            >(ValueModel::Timestamp { secs: 0, nanos: 0 }),
            MapValue::Duration => omitted_value(schema, linked, value, depth) == Ok::<
                ValueModel,
                DecodeError,
            >(ValueModel::Duration { secs: 0, nanos: 0 }),
            MapValue::Message => omitted_value(schema, linked, value, depth) == decoded_value(
                schema,
                linked,
                FieldKind::Message,
                Payload::Len(Seq::empty()),
                depth,
            ),
        },
        ({
            let whole = decoded_entry(schema, linked, key, value, s, depth);
            match entry_fields(schema, linked, key, value, s, (None, None), depth) {
                Err(error) => whole == Err::<(ScalarModel, ValueModel), DecodeError>(error),
                Ok((k, v)) => {
                    let first = match k {
                        Some(k) => k,
                        None => zero_scalar(key),
                    };
                    match v {
                        Some(v) => whole == Ok::<(ScalarModel, ValueModel), DecodeError>(
                            (first, v),
                        ),
                        None => match omitted_value(schema, linked, value, depth) {
                            Ok(v) => whole == Ok::<(ScalarModel, ValueModel), DecodeError>(
                                (first, v),
                            ),
                            Err(error) => whole == Err::<(ScalarModel, ValueModel), DecodeError>(
                                error,
                            ),
                        },
                    }
                },
            }
        }),
{
}

// ---------------------------------------------------------------------------
// What is handed out
// ---------------------------------------------------------------------------

/// What arrives for a payload: the value, if it is one; of a message whatever
/// could be decoded of it, even if that ends with an error.
pub proof fn law_arrivals(
    schema: Seq<DescriptorView>,
    linked: LinkedView,
    kind: FieldKind,
    payload: Payload,
    bytes: Seq<u8>,
    depth: nat,
)
    ensures
        kind != FieldKind::Message ==> match decoded_value(
            schema,
            Some(linked),
            kind,
            payload,
            depth,
        ) {
            Ok(value) => arrival_of(schema, Some(linked), kind, payload, depth) == Some(
                ArrivedModel::Plain(value),
            ),
            Err(_) => arrival_of(schema, Some(linked), kind, payload, depth) is None,
        },
        linked.desc is Some && linked.desc->0 < schema.len() && depth < 100 ==> arrival_of(
            schema,
            Some(linked),
            FieldKind::Message,
            Payload::Len(bytes),
            depth,
        ) == Some(
            ArrivedModel::Message(
                outcome(schema, linked.class, linked.desc->0, bytes, depth + 1),
            ),
        ),
        linked.desc is None || linked.desc->0 >= schema.len() || depth >= 100 ==> arrival_of(
            schema,
            Some(linked),
            FieldKind::Message,
            Payload::Len(bytes),
            depth,
        ) is None,
        arrival_of(schema, None, FieldKind::Message, Payload::Len(bytes), depth) is None,
{
    reveal(field_events);
}

/// What is handed out says of which class and descriptor it is, and has the
/// events of its fields, its unknown bytes if it is complete, and its error if
/// it is not.
pub proof fn law_outcome(
    schema: Seq<DescriptorView>,
    class: usize,
    index: usize,
    s: Seq<u8>,
    depth: nat,
)
    ensures
        ({
            let handed_out = outcome(schema, class, index, s, depth);
            let desc = schema[index as int];
            &&& handed_out.class == class
            &&& handed_out.index == index
            &&& depth > 100 ==> handed_out.events.len() == 0
            &&& depth <= 100 ==> handed_out.events == fields_events(
                schema,
                desc,
                s,
                nothing_decoded(desc.message.fields),
                depth,
            )
            &&& match decoded(schema, class, index, s, depth) {
                Ok(message) => handed_out.error is None && handed_out.unknown == message.unknown,
                Err(error) => handed_out.error == Some(error) && handed_out.unknown.len() == 0,
            }
        }),
{
    reveal(field_events);
}

/// What one field hands out.
///
/// A singular field stores what arrives, once its oneof group has been cleared
/// of another member; a repeated field appends each element; a map field holds
/// each value that arrives, and then puts it under its key.
pub proof fn law_field_hands_out(
    schema: Seq<DescriptorView>,
    desc: DescriptorView,
    field: WireField,
    i: usize,
    so_far: Decoding,
    depth: nat,
)
    requires
        field_at(desc.message.fields, field.number) == Some(i as nat),
    ensures
        ({
            let known = desc.message.fields[i as int];
            let linked = desc.linked_ref(field.number);
            let events = field_events(schema, desc, field, so_far, depth);
            let clears = match known.oneof_index {
                Some(g) => if so_far.owners.contains_key(g) && so_far.owners[g] != i {
                    seq![EventModel::Clear { field: so_far.owners[g] }]
                } else {
                    Seq::empty()
                },
                None => Seq::empty(),
            };
            &&& !(known.kind is MapOf) && known.label != Label::Repeated && field.payload.wire()
                == kind_wire(known.kind) ==> match arrival_of(
                schema,
                linked,
                known.kind,
                field.payload,
                depth,
            ) {
                Some(value) => events == clears.push(EventModel::Store { field: i, value }),
                None => events.len() == 0,
            }
            &&& !(known.kind is MapOf) && known.label == Label::Repeated && holds_elements(
                known.kind,
                field.payload.wire(),
            ) ==> {
                let appended = elements_events(
                    schema,
                    linked,
                    known.kind,
                    i,
                    field.payload,
                    depth,
                );
                match decoded_elements(schema, linked, known.kind, field.payload, depth) {
                    Ok(_) => events == appended + clears,
                    Err(_) => events == appended,
                }
            }
            &&& known.kind is MapOf ==> (field.payload matches Payload::Len(entry) ==> {
                let held = entry_events(
                    schema,
                    linked,
                    known.kind->key,
                    known.kind->value,
                    i,
                    entry,
                    (None, None),
                    depth,
                );
                match decoded_entry(
                    schema,
                    linked,
                    known.kind->key,
                    known.kind->value,
                    entry,
                    depth,
                ) {
                    Ok((k, _)) => so_far.claim(known.oneof_index, i).fields[i as int] is Entries
                        ==> events == held + (clears + seq![EventModel::Put { field: i, key: k }]),
                    Err(_) => events == held,
                }
            })
        }),
{
    reveal(field_events);
    let known = desc.message.fields[i as int];
    let linked = desc.linked_ref(field.number);
    let none = Seq::<EventModel>::empty();
    let appended = elements_events(schema, linked, known.kind, i, field.payload, depth);
    assert(appended + none =~= appended);
    if let FieldKind::MapOf { key, value } = known.kind {
        if let Payload::Len(entry) = field.payload {
            let held = entry_events(
                schema,
                linked,
                key,
                value,
                i,
                entry,
                (None, None),
                depth,
            );
            assert(held + none =~= held);
        }
    }
}

/// An element that arrives alone is appended, and a chunk appends what its
/// elements would, up to the first that fails.
pub proof fn law_elements_hand_out(
    schema: Seq<DescriptorView>,
    linked: Option<LinkedView>,
    kind: FieldKind,
    field: usize,
    payload: Payload,
    depth: nat,
)
    requires
        payload.wire() == kind_wire(kind),
    ensures
        match arrival_of(schema, linked, kind, payload, depth) {
            Some(value) => elements_events(schema, linked, kind, field, payload, depth) == seq![
                EventModel::Append { field, value },
            ],
            None => elements_events(schema, linked, kind, field, payload, depth).len() == 0,
        },
        packed(kind) ==> elements_events(
            schema,
            linked,
            kind,
            field,
            Payload::Len(Seq::empty()),
            depth,
        ).len() == 0,
{
    crate::scalar_laws::law_packed_kinds(kind);
}

/// In a map entry, each value that arrives as field 2 with its wire type is
/// held, and so is the default if none does.
pub proof fn law_entry_hands_out(
    schema: Seq<DescriptorView>,
    linked: Option<LinkedView>,
    key: ScalarType,
    value: MapValue,
    field: usize,
    record: WireField,
    tail: Seq<u8>,
    seen: (Option<ScalarModel>, Option<ValueModel>),
    depth: nat,
)
    requires
        writable(record),
        with_entry_field(schema, linked, key, value, record, seen, depth) is Ok,
    ensures
        ({
            let next = with_entry_field(
                schema,
                linked,
                key,
                value,
                record,
                seen,
                depth,
            )->Ok_0;
            let later = entry_events(schema, linked, key, value, field, tail, next, depth);
            let all = entry_events(
                schema,
                linked,
                key,
                value,
                field,
                field_bytes(record) + tail,
                seen,
                depth,
            );
            if record.number == 2 && record.payload.wire() == kind_wire(kind_of_value(value)) {
                match arrival_of(schema, linked, kind_of_value(value), record.payload, depth) {
                    Some(value) => all == seq![EventModel::Hold { field, value }] + later,
                    None => all == later,
                }
            } else {
                all == later
            }
        }),
        seen.1 is Some ==> entry_events(
            schema,
            linked,
            key,
            value,
            field,
            Seq::empty(),
            seen,
            depth,
        ).len() == 0,
        seen.1 is None ==> match omitted_arrival(schema, linked, value, depth) {
            Some(arrived) => entry_events(
                schema,
                linked,
                key,
                value,
                field,
                Seq::empty(),
                seen,
                depth,
            ) == seq![EventModel::Hold { field, value: arrived }],
            None => entry_events(
                schema,
                linked,
                key,
                value,
                field,
                Seq::empty(),
                seen,
                depth,
            ).len() == 0,
        },
{
    law_field_round_trip(record, tail);
    let bytes = field_bytes(record) + tail;
    let arrived = entry_arrival(schema, linked, key, value, record, depth);
    let kind = kind_of_value(value);
    assert(field_in(bytes).result == Ok::<WireField, crate::wire::WireError>(record));
    assert(bytes.skip(field_in(bytes).used as int) == tail);
    assert(!(record.number == 1 && record.number == 2));
    assert(arrived == if record.number == 2 && record.payload.wire() == kind_wire(kind) {
        arrival_of(schema, linked, kind, record.payload, depth)
    } else {
        None
    });
    let next = with_entry_field(
        schema,
        linked,
        key,
        value,
        record,
        seen,
        depth,
    )->Ok_0;
    let later = entry_events(schema, linked, key, value, field, tail, next, depth);
    assert(entry_events(schema, linked, key, value, field, bytes, seen, depth) == hold_events(
        field,
        arrived,
    ) + later);
    assert(Seq::<EventModel>::empty() + later =~= later);
}

/// What arrives in place of an omitted map value is the default, and of a
/// message an empty one.
pub proof fn law_omitted_arrivals(
    schema: Seq<DescriptorView>,
    linked: Option<LinkedView>,
    value: MapValue,
    depth: nat,
)
    ensures
        value == MapValue::Message ==> omitted_arrival(schema, linked, value, depth) == arrival_of(
            schema,
            linked,
            FieldKind::Message,
            Payload::Len(Seq::empty()),
            depth,
        ),
        value != MapValue::Message ==> {
            &&& omitted_value(schema, linked, value, depth) is Ok
            &&& omitted_arrival(schema, linked, value, depth) == Some(
                ArrivedModel::Plain(omitted_value(schema, linked, value, depth)->Ok_0),
            )
        },
{
}

/// The attribute of a field takes the decoded value if there is one. If not,
/// the class that the fast path was verified for takes its own default object,
/// and any other class fills it in itself.
pub proof fn law_attributes(desc: DescriptorView, class: usize, given: bool, i: int)
    ensures
        given ==> slot_of(desc, class, given, i) == Slot::Given,
        !given && desc.fast_init is Some && desc.fast_init->0.class == class ==> {
            &&& is_fast(desc, class)
            &&& slot_of(desc, class, given, i) == Slot::Default(desc.fast_init->0.defaults[i])
        },
        !given && (desc.fast_init is None || desc.fast_init->0.class != class) ==> {
            &&& !is_fast(desc, class)
            &&& slot_of(desc, class, given, i) == Slot::Omitted
        },
        is_fast(desc, class) <==> desc.fast_init is Some && desc.fast_init->0.class == class,
{
}

// ---------------------------------------------------------------------------
// Keys
// ---------------------------------------------------------------------------

/// Whether the bits of a 32-bit float are those of what is not a number: the
/// exponent is all ones, and the fraction is not zero.
pub open spec fn not_a_number32(bits: u32) -> bool {
    (bits as int / 0x80_0000) % 0x100 == 0xff && bits as int % 0x80_0000 != 0
}

/// The same of a 64-bit float.
pub open spec fn not_a_number64(bits: u64) -> bool {
    (bits as int / 0x10_0000_0000_0000) % 0x800 == 0x7ff && bits as int % 0x10_0000_0000_0000 != 0
}

/// Two keys of a map are the same if they are equal. Floats are equal by value:
/// both zeros are one key, and what is not a number is no key's equal.
pub proof fn law_same_keys(a: ScalarModel, b: ScalarModel)
    ensures
        match (a, b) {
            (ScalarModel::F32(x), ScalarModel::F32(y)) => {
                let zeros = x as int % 0x8000_0000 == 0 && y as int % 0x8000_0000 == 0;
                same_key(a, b) <==> !not_a_number32(x) && !not_a_number32(y) && (x == y || zeros)
            },
            (ScalarModel::F64(x), ScalarModel::F64(y)) => {
                let zeros = x as int % 0x8000_0000_0000_0000 == 0 && y as int
                    % 0x8000_0000_0000_0000 == 0;
                same_key(a, b) <==> !not_a_number64(x) && !not_a_number64(y) && (x == y || zeros)
            },
            _ => same_key(a, b) <==> a == b,
        },
{
}

/// Putting a value into a map leaves every key in its place. If the map has the
/// key, the first entry with it gets the value; if not, one entry comes last.
pub proof fn law_put_in_place(
    entries: Seq<(ScalarModel, ValueModel)>,
    key: ScalarModel,
    value: ValueModel,
    i: int,
)
    requires
        0 <= i <= entries.len(),
        forall|j: int| 0 <= j < i ==> !same_key((#[trigger] entries[j]).0, key),
        i < entries.len() ==> same_key(entries[i].0, key),
    ensures
        ({
            let after = put(entries, key, value);
            &&& after.len() == if i < entries.len() {
                entries.len()
            } else {
                entries.len() + 1
            }
            &&& forall|j: int|
                0 <= j < entries.len() && j != i ==> #[trigger] after[j] == entries[j]
            &&& i < entries.len() ==> after[i] == (entries[i].0, value)
            &&& i == entries.len() ==> after[i] == (key, value)
        }),
{
    crate::entries::lemma_key_from(entries, key, 0);
}

} // verus!
