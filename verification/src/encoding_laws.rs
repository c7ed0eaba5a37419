//! How a message is laid out in bytes: its fields, elements and map entries, and
//! when a oneof group is in conflict.
use vstd::prelude::*;

use crate::decode::kind_wire;
use crate::descriptor::{FieldKind, FieldView, Label, MapValue, ScalarType};
use crate::encode::{
    elements_bytes, entries_bytes, field_value_bytes, fields_bytes, first_conflict, kind_of_value,
    members_set, message_bytes, nested_bytes, nested_index, repeated_bytes, sets_member,
    value_payload, EncodeError,
};
use crate::message::{DescriptorView, LinkedView};
use crate::value::{scalar_payload, FieldModel, MessageModel, ScalarModel, ValueModel};
use crate::wellknown::parts_bytes;
use crate::wire::{field_bytes, payload_bytes, Payload, WireField, WireType};

verus! {

/// The first `n` of several byte strings, one behind the other.
pub open spec fn joined(parts: Seq<Seq<u8>>, n: nat) -> Seq<u8>
    decreases n,
{
    if n == 0 {
        Seq::empty()
    } else {
        joined(parts, (n - 1) as nat) + parts[n - 1]
    }
}

/// Strings that agree join alike.
proof fn lemma_joined_same(parts: Seq<Seq<u8>>, others: Seq<Seq<u8>>, n: nat)
    requires
        n <= parts.len(),
        n <= others.len(),
        forall|i: int| 0 <= i < n ==> parts[i] == others[i],
    ensures
        joined(parts, n) == joined(others, n),
    decreases n,
{
    if n > 0 {
        lemma_joined_same(parts, others, (n - 1) as nat);
    }
}

// ---------------------------------------------------------------------------
// Messages
// ---------------------------------------------------------------------------

/// What the fields of a message write.
proof fn lemma_fields_joined(
    schema: Seq<DescriptorView>,
    desc: DescriptorView,
    values: Seq<FieldModel>,
    parts: Seq<Seq<u8>>,
    n: nat,
    depth: nat,
)
    requires
        n <= values.len(),
        n <= parts.len(),
        forall|i: int|
            0 <= i < n ==> field_value_bytes(
                schema,
                desc,
                desc.message.fields[i],
                values[i],
                depth,
            ) == Ok::<Seq<u8>, EncodeError>(#[trigger] parts[i]),
    ensures
        fields_bytes(schema, desc, values, n, depth) == Ok::<Seq<u8>, EncodeError>(
            joined(parts, n),
        ),
    decreases n,
{
    if n > 0 {
        lemma_fields_joined(schema, desc, values, parts, (n - 1) as nat, depth);
        let last = parts[n - 1];
        assert(field_value_bytes(
            schema,
            desc,
            desc.message.fields[n - 1],
            values[n - 1],
            depth,
        ) == Ok::<Seq<u8>, EncodeError>(last));
    }
}

/// A message is what its fields write, in the order of the descriptor, and then
/// its unknown fields as they stand.
pub proof fn law_message_layout(
    schema: Seq<DescriptorView>,
    index: usize,
    message: MessageModel,
    parts: Seq<Seq<u8>>,
    depth: nat,
)
    requires
        index < schema.len(),
        depth <= 100,
        message.fields.len() >= schema[index as int].message.fields.len(),
        parts.len() == schema[index as int].message.fields.len(),
        forall|i: int|
            0 <= i < parts.len() ==> field_value_bytes(
                schema,
                schema[index as int],
                schema[index as int].message.fields[i],
                message.fields[i],
                depth,
            ) == Ok::<Seq<u8>, EncodeError>(#[trigger] parts[i]),
        first_conflict(index, schema[index as int], message.fields, 0) is None,
    ensures
        message_bytes(schema, index, message, depth) == Ok::<Seq<u8>, EncodeError>(
            joined(parts, parts.len()) + message.unknown,
        ),
{
    lemma_fields_joined(
        schema,
        schema[index as int],
        message.fields,
        parts,
        parts.len(),
        depth,
    );
}

/// What fails first in a message is what is reported: the first field that
/// cannot be written, then the first oneof group in conflict. Messages below the
/// hundredth level are refused.
pub proof fn law_message_errors(
    schema: Seq<DescriptorView>,
    index: usize,
    message: MessageModel,
    parts: Seq<Seq<u8>>,
    n: nat,
    depth: nat,
)
    requires
        index < schema.len(),
        n <= message.fields.len(),
        n <= schema[index as int].message.fields.len(),
        parts.len() == n,
        forall|i: int|
            0 <= i < n ==> field_value_bytes(
                schema,
                schema[index as int],
                schema[index as int].message.fields[i],
                message.fields[i],
                depth,
            ) == Ok::<Seq<u8>, EncodeError>(#[trigger] parts[i]),
    ensures
        ({
            let desc = schema[index as int];
            let result = message_bytes(schema, index, message, depth);
            let count = desc.message.fields.len();
            &&& depth > 100 ==> result == Err::<Seq<u8>, EncodeError>(EncodeError::TooDeep)
            &&& depth <= 100 && n < count && n == message.fields.len() ==> result == Err::<
                Seq<u8>,
                EncodeError,
            >(EncodeError::MissingField(n as usize))
            &&& depth <= 100 && n < count && n < message.fields.len() ==> {
                let next = field_value_bytes(
                    schema,
                    desc,
                    desc.message.fields[n as int],
                    message.fields[n as int],
                    depth,
                );
                next matches Err(error) ==> result == Err::<Seq<u8>, EncodeError>(error)
            }
            &&& depth <= 100 && n == count ==> match first_conflict(
                index,
                desc,
                message.fields,
                0,
            ) {
                Some(conflict) => result == Err::<Seq<u8>, EncodeError>(conflict),
                None => result is Ok,
            }
        }),
{
    let desc = schema[index as int];
    let count = desc.message.fields.len();
    lemma_fields_joined(schema, desc, message.fields, parts, n, depth);
    if n < count && fields_bytes(schema, desc, message.fields, n + 1, depth) is Err {
        crate::encode::lemma_fields_error(
            schema,
            desc,
            message.fields,
            n + 1,
            count,
            depth,
        );
    }
}

// ---------------------------------------------------------------------------
// Elements and entries
// ---------------------------------------------------------------------------

/// What the elements of a list write.
proof fn lemma_elements_joined(
    schema: Seq<DescriptorView>,
    linked: Option<LinkedView>,
    number: u32,
    kind: FieldKind,
    values: Seq<ValueModel>,
    payloads: Seq<Payload>,
    n: nat,
    depth: nat,
)
    requires
        n <= values.len(),
        payloads.len() == values.len(),
        forall|i: int|
            0 <= i < values.len() ==> value_payload(schema, linked, kind, values[i], depth) == Ok::<
                Payload,
                EncodeError,
            >(#[trigger] payloads[i]),
    ensures
        elements_bytes(schema, linked, number, kind, values, n, depth) == Ok::<
            Seq<u8>,
            EncodeError,
        >(
            joined(
                Seq::new(
                    payloads.len(),
                    |i: int|
                        if kind_wire(kind) == WireType::Len {
                            field_bytes(WireField { number, payload: payloads[i] })
                        } else {
                            payload_bytes(payloads[i])
                        },
                ),
                n,
            ),
        ),
    decreases n,
{
    if n > 0 {
        lemma_elements_joined(
            schema,
            linked,
            number,
            kind,
            values,
            payloads,
            (n - 1) as nat,
            depth,
        );
        let last = payloads[n - 1];
        assert(value_payload(schema, linked, kind, values[n - 1], depth) == Ok::<
            Payload,
            EncodeError,
        >(last));
        crate::scalar_laws::law_packed_kinds(kind);
    }
}

/// A repeated field of numbers is one chunk of their payloads, one behind the
/// other, and nothing if there are none; one of texts, byte strings or messages
/// is a field for each. The first element that cannot be written is the error.
pub proof fn law_repeated_layout(
    schema: Seq<DescriptorView>,
    linked: Option<LinkedView>,
    number: u32,
    kind: FieldKind,
    values: Seq<ValueModel>,
    payloads: Seq<Payload>,
    depth: nat,
)
    requires
        payloads.len() == values.len(),
        forall|i: int|
            0 <= i < values.len() ==> value_payload(schema, linked, kind, values[i], depth) == Ok::<
                Payload,
                EncodeError,
            >(#[trigger] payloads[i]),
    ensures
        ({
            let written = repeated_bytes(schema, linked, number, kind, values, depth);
            let alone = Seq::new(payloads.len(), |i: int| payload_bytes(payloads[i]));
            let tagged = Seq::new(
                payloads.len(),
                |i: int| field_bytes(WireField { number, payload: payloads[i] }),
            );
            if kind_wire(kind) == WireType::Len {
                written == Ok::<Seq<u8>, EncodeError>(joined(tagged, tagged.len()))
            } else if values.len() == 0 {
                written == Ok::<Seq<u8>, EncodeError>(Seq::empty())
            } else {
                written == Ok::<Seq<u8>, EncodeError>(
                    field_bytes(
                        WireField { number, payload: Payload::Len(joined(alone, alone.len())) },
                    ),
                )
            }
        }),
{
    lemma_elements_joined(schema, linked, number, kind, values, payloads, values.len(), depth);
    crate::scalar_laws::law_packed_kinds(kind);
    let mixed = Seq::new(
        payloads.len(),
        |i: int|
            if kind_wire(kind) == WireType::Len {
                field_bytes(WireField { number, payload: payloads[i] })
            } else {
                payload_bytes(payloads[i])
            },
    );
    let alone = Seq::new(payloads.len(), |i: int| payload_bytes(payloads[i]));
    let tagged = Seq::new(
        payloads.len(),
        |i: int| field_bytes(WireField { number, payload: payloads[i] }),
    );
    if kind_wire(kind) == WireType::Len {
        lemma_joined_same(mixed, tagged, payloads.len());
    } else {
        lemma_joined_same(mixed, alone, payloads.len());
    }
}

/// A map field is a chunk for each entry, in their order; in the chunk, the key
/// is field 1 and the value field 2, and both are always written.
pub proof fn law_map_layout(
    schema: Seq<DescriptorView>,
    linked: Option<LinkedView>,
    number: u32,
    key: ScalarType,
    value: MapValue,
    entries: Seq<(ScalarModel, ValueModel)>,
    keys: Seq<Payload>,
    values: Seq<Payload>,
    n: nat,
    depth: nat,
)
    requires
        keys.len() == entries.len(),
        values.len() == entries.len(),
        n <= entries.len(),
        forall|i: int|
            0 <= i < entries.len() ==> scalar_payload(key, entries[i].0) == Some(
                #[trigger] keys[i],
            ),
        forall|i: int|
            0 <= i < entries.len() ==> value_payload(
                schema,
                linked,
                kind_of_value(value),
                entries[i].1,
                depth,
            ) == Ok::<Payload, EncodeError>(#[trigger] values[i]),
    ensures
        entries_bytes(schema, linked, number, key, value, entries, n, depth) == Ok::<
            Seq<u8>,
            EncodeError,
        >(
            joined(
                Seq::new(
                    entries.len(),
                    |i: int|
                        field_bytes(
                            WireField {
                                number,
                                payload: Payload::Len(
                                    field_bytes(WireField { number: 1, payload: keys[i] })
                                        + field_bytes(WireField { number: 2, payload: values[i] }),
                                ),
                            },
                        ),
                ),
                n,
            ),
        ),
    decreases n,
{
    if n > 0 {
        law_map_layout(
            schema,
            linked,
            number,
            key,
            value,
            entries,
            keys,
            values,
            (n - 1) as nat,
            depth,
        );
        assert(scalar_payload(key, entries[n - 1].0) == Some(keys[n - 1]));
        let last = values[n - 1];
        assert(value_payload(
            schema,
            linked,
            kind_of_value(value),
            entries[n - 1].1,
            depth,
        ) == Ok::<Payload, EncodeError>(last));
    }
}

/// The first element that cannot be written is the error of a list.
pub proof fn law_element_refused(
    schema: Seq<DescriptorView>,
    linked: Option<LinkedView>,
    number: u32,
    kind: FieldKind,
    values: Seq<ValueModel>,
    i: nat,
    n: nat,
    error: EncodeError,
    depth: nat,
)
    requires
        i < n <= values.len(),
        forall|j: int|
            0 <= j < i ==> value_payload(
                schema,
                linked,
                kind,
                #[trigger] values[j],
                depth,
            ) is Ok,
        value_payload(schema, linked, kind, values[i as int], depth) == Err::<Payload, EncodeError>(
            error,
        ),
    ensures
        elements_bytes(schema, linked, number, kind, values, n, depth) == Err::<
            Seq<u8>,
            EncodeError,
        >(error),
        n == values.len() ==> repeated_bytes(schema, linked, number, kind, values, depth) == Err::<
            Seq<u8>,
            EncodeError,
        >(error),
    decreases n,
{
    if i + 1 < n {
        law_element_refused(
            schema,
            linked,
            number,
            kind,
            values,
            i,
            (n - 1) as nat,
            error,
            depth,
        );
    } else {
        lemma_elements_ok(schema, linked, number, kind, values, i, depth);
    }
}

proof fn lemma_elements_ok(
    schema: Seq<DescriptorView>,
    linked: Option<LinkedView>,
    number: u32,
    kind: FieldKind,
    values: Seq<ValueModel>,
    n: nat,
    depth: nat,
)
    requires
        n <= values.len(),
        forall|j: int|
            0 <= j < n ==> value_payload(
                schema,
                linked,
                kind,
                #[trigger] values[j],
                depth,
            ) is Ok,
    ensures
        elements_bytes(schema, linked, number, kind, values, n, depth) is Ok,
    decreases n,
{
    if n > 0 {
        lemma_elements_ok(schema, linked, number, kind, values, (n - 1) as nat, depth);
        assert(value_payload(schema, linked, kind, values[n - 1], depth) is Ok);
    }
}

/// The first entry that cannot be written is the error of a map: a key of
/// another type, or what is wrong with its value.
pub proof fn law_entry_refused(
    schema: Seq<DescriptorView>,
    linked: Option<LinkedView>,
    number: u32,
    key: ScalarType,
    value: MapValue,
    entries: Seq<(ScalarModel, ValueModel)>,
    i: nat,
    n: nat,
    depth: nat,
)
    requires
        i < n <= entries.len(),
        forall|j: int|
            0 <= j < i ==> scalar_payload(key, (#[trigger] entries[j]).0) is Some && value_payload(
                schema,
                linked,
                kind_of_value(value),
                entries[j].1,
                depth,
            ) is Ok,
    ensures
        ({
            let written = entries_bytes(schema, linked, number, key, value, entries, n, depth);
            &&& scalar_payload(key, entries[i as int].0) is None ==> written == Err::<
                Seq<u8>,
                EncodeError,
            >(EncodeError::TypeMismatch)
            &&& scalar_payload(key, entries[i as int].0) is Some ==> (value_payload(
                schema,
                linked,
                kind_of_value(value),
                entries[i as int].1,
                depth,
            ) matches Err(error) ==> written == Err::<Seq<u8>, EncodeError>(error))
        }),
    decreases n,
{
    if i + 1 < n {
        law_entry_refused(
            schema,
            linked,
            number,
            key,
            value,
            entries,
            i,
            (n - 1) as nat,
            depth,
        );
    } else {
        lemma_entries_ok(schema, linked, number, key, value, entries, i, depth);
    }
}

proof fn lemma_entries_ok(
    schema: Seq<DescriptorView>,
    linked: Option<LinkedView>,
    number: u32,
    key: ScalarType,
    value: MapValue,
    entries: Seq<(ScalarModel, ValueModel)>,
    n: nat,
    depth: nat,
)
    requires
        n <= entries.len(),
        forall|j: int|
            0 <= j < n ==> scalar_payload(key, (#[trigger] entries[j]).0) is Some && value_payload(
                schema,
                linked,
                kind_of_value(value),
                entries[j].1,
                depth,
            ) is Ok,
    ensures
        entries_bytes(schema, linked, number, key, value, entries, n, depth) is Ok,
    decreases n,
{
    if n > 0 {
        lemma_entries_ok(
            schema,
            linked,
            number,
            key,
            value,
            entries,
            (n - 1) as nat,
            depth,
        );
        assert(scalar_payload(key, entries[n - 1].0) is Some);
    }
}

// ---------------------------------------------------------------------------
// Values
// ---------------------------------------------------------------------------

/// What a value of each kind writes, and what is refused: a scalar its payload;
/// a message the chunk of its bytes; a timestamp or a duration the chunk of its
/// parts; and whatever is of another kind is an error, which for a message field
/// says that there is no message.
pub proof fn law_value_payloads(
    schema: Seq<DescriptorView>,
    linked: Option<LinkedView>,
    kind: FieldKind,
    value: ValueModel,
    depth: nat,
)
    ensures
        ({
            let written = value_payload(schema, linked, kind, value, depth);
            match kind {
                FieldKind::Scalar(scalar) => match value {
                    ValueModel::Scalar(v) => match scalar_payload(scalar, v) {
                        Some(payload) => written == Ok::<Payload, EncodeError>(payload),
                        None => written == Err::<Payload, EncodeError>(EncodeError::TypeMismatch),
                    },
                    _ => written == Err::<Payload, EncodeError>(EncodeError::TypeMismatch),
                },
                FieldKind::Enum => if value is Enum {
                    written is Ok
                } else {
                    written == Err::<Payload, EncodeError>(EncodeError::TypeMismatch)
                },
                FieldKind::Message => match value {
                    ValueModel::Message(message) => match nested_bytes(
                        schema,
                        linked,
                        message,
                        depth,
                    ) {
                        Ok(bytes) => written == Ok::<Payload, EncodeError>(Payload::Len(bytes)),
                        Err(error) => written == Err::<Payload, EncodeError>(error),
                    },
                    _ => written == Err::<Payload, EncodeError>(EncodeError::NotAMessage),
                },
                FieldKind::Timestamp => match value {
                    ValueModel::Timestamp { secs, nanos } => written == Ok::<Payload, EncodeError>(
                        Payload::Len(parts_bytes(secs, nanos)),
                    ),
                    _ => written == Err::<Payload, EncodeError>(EncodeError::TypeMismatch),
                },
                FieldKind::Duration => match value {
                    ValueModel::Duration { secs, nanos } => written == Ok::<Payload, EncodeError>(
                        Payload::Len(parts_bytes(secs, nanos)),
                    ),
                    _ => written == Err::<Payload, EncodeError>(EncodeError::TypeMismatch),
                },
                FieldKind::MapOf { .. } => written == Err::<Payload, EncodeError>(
                    EncodeError::TypeMismatch,
                ),
            }
        }),
{
}

/// A nested message is encoded by the linked descriptor if it is an instance of
/// exactly the linked class, and else by that of its own class; if there is
/// neither, it is no message. It stands one level deeper, and there are a
/// hundred levels.
pub proof fn law_nested_messages(
    schema: Seq<DescriptorView>,
    linked: LinkedView,
    message: MessageModel,
    depth: nat,
)
    ensures
        linked.desc is Some && linked.class == message.class ==> nested_index(
            Some(linked),
            message.class,
            message.own,
        ) == linked.desc,
        linked.desc is None || linked.class != message.class ==> nested_index(
            Some(linked),
            message.class,
            message.own,
        ) == message.own,
        nested_index(None, message.class, message.own) == message.own,
        ({
            let found = nested_index(Some(linked), message.class, message.own);
            let written = nested_bytes(schema, Some(linked), message, depth);
            &&& found is None ==> written == Err::<Seq<u8>, EncodeError>(EncodeError::NotAMessage)
            &&& found matches Some(index) ==> {
                &&& index >= schema.len() ==> written == Err::<Seq<u8>, EncodeError>(
                    EncodeError::NotAMessage,
                )
                &&& index < schema.len() && depth >= 100 ==> written == Err::<Seq<u8>, EncodeError>(
                    EncodeError::TooDeep,
                )
                &&& index < schema.len() && depth < 100 ==> written == message_bytes(
                    schema,
                    index,
                    message,
                    depth + 1,
                )
            }
        }),
{
}

/// What the fields of a message hold: a map field entries, a repeated field a
/// list, and any other field one value; nothing at all is in order for fields
/// with explicit presence alone, which then write nothing.
pub proof fn law_field_values(
    schema: Seq<DescriptorView>,
    desc: DescriptorView,
    field: FieldView,
    value: FieldModel,
    depth: nat,
)
    ensures
        ({
            let written = field_value_bytes(schema, desc, field, value, depth);
            let linked = desc.linked_ref(field.number);
            match field.kind {
                FieldKind::MapOf { key, value: value_kind } => match value {
                    FieldModel::Entries(entries) => written == entries_bytes(
                        schema,
                        linked,
                        field.number,
                        key,
                        value_kind,
                        entries,
                        entries.len(),
                        depth,
                    ),
                    _ => written == Err::<Seq<u8>, EncodeError>(EncodeError::NotAMap),
                },
                kind => if field.label == Label::Repeated {
                    match value {
                        FieldModel::List(values) => written == repeated_bytes(
                            schema,
                            linked,
                            field.number,
                            kind,
                            values,
                            depth,
                        ),
                        _ => written == Err::<Seq<u8>, EncodeError>(EncodeError::NotAList),
                    }
                } else {
                    match value {
                        FieldModel::One(one) => match value_payload(
                            schema,
                            linked,
                            kind,
                            one,
                            depth,
                        ) {
                            Err(error) => written == Err::<Seq<u8>, EncodeError>(error),
                            Ok(payload) => {
                                &&& written is Ok
                                &&& field.label == Label::Optional || kind_wire(kind)
                                    == WireType::Len && !(kind is Scalar) ==> written->Ok_0
                                    == field_bytes(WireField { number: field.number, payload })
                            },
                        },
                        FieldModel::Absent if field.label == Label::Optional => written == Ok::<
                            Seq<u8>,
                            EncodeError,
                        >(Seq::empty()),
                        _ => written == Err::<Seq<u8>, EncodeError>(EncodeError::TypeMismatch),
                    }
                },
            }
        }),
{
    if let FieldModel::One(ValueModel::Scalar(v)) = value {
        if let FieldKind::Scalar(scalar) = field.kind {
            crate::scalar_laws::law_default_scalars(scalar, v);
        }
    }
}

// ---------------------------------------------------------------------------
// Oneof groups
// ---------------------------------------------------------------------------

/// Whether the field with the given index is a member of the oneof group that
/// has a value.
pub open spec fn member_set(
    fields: Seq<FieldView>,
    values: Seq<FieldModel>,
    group: int,
    i: int,
) -> bool {
    &&& fields[i].label == Label::Optional
    &&& !(fields[i].kind is MapOf)
    &&& fields[i].oneof_index matches Some(index) && index == group
    &&& values[i] != FieldModel::Absent
}

/// The indices of the first `n` fields that are set members of a oneof group.
pub open spec fn set_members(
    fields: Seq<FieldView>,
    values: Seq<FieldModel>,
    group: int,
    n: nat,
) -> Seq<int> {
    Seq::new(n, |i: int| i).filter(|i: int| member_set(fields, values, group, i))
}

proof fn lemma_members_counted(
    fields: Seq<FieldView>,
    values: Seq<FieldModel>,
    group: int,
    n: nat,
)
    ensures
        members_set(fields, values, group, n) == set_members(fields, values, group, n).len(),
    decreases n,
{
    let all = Seq::new(n, |i: int| i);
    let set = |i: int| member_set(fields, values, group, i);
    reveal(Seq::filter);
    if n > 0 {
        lemma_members_counted(fields, values, group, (n - 1) as nat);
        assert(all.drop_last() =~= Seq::new((n - 1) as nat, |i: int| i));
        assert(sets_member(fields[n - 1], values[n - 1], group) == member_set(
            fields,
            values,
            group,
            n - 1,
        ));
    }
}

/// The groups of a message are looked through in their order: the first with
/// more than one set member is the conflict, which says how many there are (as
/// far as a byte can count); with at most one in each, there is none.
pub proof fn law_conflicts(
    index: usize,
    desc: DescriptorView,
    values: Seq<FieldModel>,
    start: nat,
)
    requires
        desc.message.oneofs.len() <= usize::MAX,
    ensures
        ({
            let fields = desc.message.fields;
            match first_conflict(index, desc, values, start) {
                None => forall|group: int|
                    start <= group < desc.message.oneofs.len() ==> #[trigger] set_members(
                        fields,
                        values,
                        group,
                        fields.len(),
                    ).len() <= 1,
                Some(conflict) => {
                    &&& conflict matches EncodeError::OneofConflict { index: at, group, count }
                    &&& at == index
                    &&& start <= group < desc.message.oneofs.len()
                    &&& set_members(fields, values, group as int, fields.len()).len() > 1
                    &&& count == if set_members(
                        fields,
                        values,
                        group as int,
                        fields.len(),
                    ).len() < 255 {
                        set_members(fields, values, group as int, fields.len()).len() as int
                    } else {
                        255
                    }
                    &&& forall|earlier: int|
                        start <= earlier < group ==> #[trigger] set_members(
                            fields,
                            values,
                            earlier,
                            fields.len(),
                        ).len() <= 1
                },
            }
        }),
    decreases desc.message.oneofs.len() - start,
{
    if start < desc.message.oneofs.len() {
        lemma_members_counted(
            desc.message.fields,
            values,
            start as int,
            desc.message.fields.len(),
        );
        law_conflicts(index, desc, values, start + 1);
    }
}

} // verus!
