//! What relates encoding and decoding of messages: a message that was encoded
//! decodes to itself, and what the schema does not know survives.
use vstd::prelude::*;

use crate::decode::{
    decoded, decoded_elements, decoded_entry, decoded_value, entry_fields, holds_elements,
    kind_wire, lemma_payload_progress, lemma_with_next, nothing_decoded, packed_values, unseen, with_field,
    read_elements, read_scalar, with_fields, with_next, DecodeError, Decoding,
};
use crate::descriptor::{
    field_at, lemma_field_from, FieldKind, FieldView, Label, MapValue, ScalarType, MAX_DEPTH,
};
use crate::encode::{
    elements_bytes, entries_bytes, entry_bytes, field_value_bytes, fields_bytes, first_conflict,
    is_default, kind_of_value, level, members_set, message_bytes, packed, repeated_bytes,
    payload_result, scalar_result, sets_member, value_payload, EncodeError,
};
use crate::entries::{key_from, put, same_key};
use crate::message::{DescriptorView, LinkedView};
use crate::value::{
    law_scalar_round_trip, FieldModel, MessageModel, ScalarModel, ValueModel,
};
use crate::wire::{
    field_bytes, field_in, lemma_field_used, payload_bytes, payload_in, Payload, WireField, WireType,
    MAX_FIELD_NUMBER,
};
use crate::wire_laws::{law_field_prefix, law_field_round_trip, law_payload_round_trip, writable};

verus! {

// ---------------------------------------------------------------------------
// Which messages come back
// ---------------------------------------------------------------------------

/// A descriptor by which fields can be told apart on the wire: their numbers
/// are legal and differ, and the members of oneof groups, which are declared,
/// have explicit presence.
pub open spec fn sound(desc: DescriptorView) -> bool {
    let fields = desc.message.fields;
    &&& fields.len() <= usize::MAX
    &&& forall|i: int|
        0 <= i < fields.len() ==> 1 <= (#[trigger] fields[i]).number <= MAX_FIELD_NUMBER
    &&& forall|i: int, j: int|
        0 <= i < j < fields.len() ==> (#[trigger] fields[i]).number != (#[trigger] fields[j]).number
    &&& forall|i: int|
        0 <= i < fields.len() && (#[trigger] fields[i]).oneof_index is Some ==> {
            &&& fields[i].label == Label::Optional
            &&& !(fields[i].kind is MapOf)
            &&& fields[i].oneof_index->0 < desc.message.oneofs.len()
        }
}

/// Whether the schema does not know a field, or knows it with another wire
/// type. (A repeated member of a oneof group occupies its group even then; only
/// a malformed descriptor has one.)
pub open spec fn unknown_field(desc: DescriptorView, field: WireField) -> bool {
    match field_at(desc.message.fields, field.number) {
        None => true,
        Some(i) => {
            let known = desc.message.fields[i as int];
            if !(known.kind is MapOf) && known.label == Label::Repeated {
                !holds_elements(known.kind, field.payload.wire()) && known.oneof_index is None
            } else {
                field.payload.wire() != kind_wire(known.kind)
            }
        },
    }
}

/// Whether `s` is made of fields that the schema does not know.
pub open spec fn all_unknown(desc: DescriptorView, s: Seq<u8>) -> bool
    decreases s.len(),
{
    if s.len() == 0 {
        true
    } else {
        proof {
            lemma_field_used(s);
        }
        &&& field_in(s).result matches Ok(field)
        &&& unknown_field(desc, field)
        &&& all_unknown(desc, s.skip(field_in(s).used as int))
    }
}

/// Whether no two entries of a map have the same key.
pub open spec fn distinct_keys(entries: Seq<(ScalarModel, ValueModel)>) -> bool {
    forall|i: int, j: int|
        0 <= i < j < entries.len() ==> !same_key(
            (#[trigger] entries[i]).0,
            (#[trigger] entries[j]).0,
        )
}

/// Whether a value can come back: a nested message is of the class that its
/// field is linked to.
pub open spec fn value_canonical(
    schema: Seq<DescriptorView>,
    linked: Option<LinkedView>,
    value: ValueModel,
    depth: nat,
) -> bool
    decreases level(depth), 0nat,
{
    match value {
        ValueModel::Message(message) => {
            &&& depth < MAX_DEPTH
            &&& linked matches Some(linked)
            &&& linked.desc matches Some(index)
            &&& message.class == linked.class
            &&& message.own == linked.desc
            &&& index < schema.len()
            &&& canonical(schema, index, message, depth + 1)
        },
        _ => true,
    }
}

/// Whether what a field holds can come back.
pub open spec fn field_canonical(
    schema: Seq<DescriptorView>,
    linked: Option<LinkedView>,
    value: FieldModel,
    depth: nat,
) -> bool
    decreases level(depth), 1nat,
{
    match value {
        FieldModel::Absent => true,
        FieldModel::One(one) => value_canonical(schema, linked, one, depth),
        FieldModel::List(values) => forall|i: int|
            0 <= i < values.len() ==> value_canonical(schema, linked, #[trigger] values[i], depth),
        FieldModel::Entries(entries) => {
            &&& distinct_keys(entries)
            &&& forall|i: int|
                0 <= i < entries.len() ==> value_canonical(
                    schema,
                    linked,
                    (#[trigger] entries[i]).1,
                    depth,
                )
        },
    }
}

/// Whether a message can come back: its descriptor is sound, its unknown bytes
/// are unknown to the schema, the keys of its maps differ, and nested messages
/// are of the linked classes and can come back too.
pub open spec fn canonical(
    schema: Seq<DescriptorView>,
    index: usize,
    message: MessageModel,
    depth: nat,
) -> bool
    decreases level(depth), 2nat,
{
    let desc = schema[index as int];
    &&& sound(desc)
    &&& all_unknown(desc, message.unknown)
    &&& message.fields.len() == desc.message.fields.len()
    &&& forall|i: int|
        0 <= i < message.fields.len() ==> field_canonical(
            schema,
            desc.linked_ref(desc.message.fields[i].number),
            #[trigger] message.fields[i],
            depth,
        )
}

/// What comes back of a value.
pub open spec fn value_back(
    schema: Seq<DescriptorView>,
    linked: Option<LinkedView>,
    value: ValueModel,
    depth: nat,
) -> ValueModel
    decreases level(depth), 0nat,
{
    match value {
        ValueModel::Message(message) => if depth < MAX_DEPTH {
            ValueModel::Message(
                message_back(schema, linked->0.class, linked->0.desc->0, message, depth + 1),
            )
        } else {
            value
        },
        _ => value,
    }
}

/// What comes back of several values.
pub open spec fn values_back(
    schema: Seq<DescriptorView>,
    linked: Option<LinkedView>,
    values: Seq<ValueModel>,
    depth: nat,
) -> Seq<ValueModel>
    decreases level(depth), 1nat,
{
    Seq::new(values.len(), |i: int| value_back(schema, linked, values[i], depth))
}

/// What comes back of the entries of a map.
pub open spec fn entries_back(
    schema: Seq<DescriptorView>,
    linked: Option<LinkedView>,
    entries: Seq<(ScalarModel, ValueModel)>,
    depth: nat,
) -> Seq<(ScalarModel, ValueModel)>
    decreases level(depth), 1nat,
{
    Seq::new(
        entries.len(),
        |i: int| (entries[i].0, value_back(schema, linked, entries[i].1, depth)),
    )
}

/// What comes back of a field: a field without explicit presence that holds
/// its default is absent from the wire.
pub open spec fn field_back(
    schema: Seq<DescriptorView>,
    linked: Option<LinkedView>,
    field: FieldView,
    value: FieldModel,
    depth: nat,
) -> FieldModel
    decreases level(depth), 2nat,
{
    match value {
        FieldModel::Absent => FieldModel::Absent,
        FieldModel::One(one) => if field.label == Label::Single && is_default(field.kind, one) {
            FieldModel::Absent
        } else {
            FieldModel::One(value_back(schema, linked, one, depth))
        },
        FieldModel::List(values) => FieldModel::List(values_back(schema, linked, values, depth)),
        FieldModel::Entries(entries) => FieldModel::Entries(
            entries_back(schema, linked, entries, depth),
        ),
    }
}

/// What comes back of a message.
pub open spec fn message_back(
    schema: Seq<DescriptorView>,
    class: usize,
    index: usize,
    message: MessageModel,
    depth: nat,
) -> MessageModel
    decreases level(depth), 3nat,
{
    let desc = schema[index as int];
    MessageModel {
        class,
        own: Some(index),
        fields: Seq::new(
            message.fields.len(),
            |i: int|
                field_back(
                    schema,
                    desc.linked_ref(desc.message.fields[i].number),
                    desc.message.fields[i],
                    message.fields[i],
                    depth,
                ),
        ),
        unknown: message.unknown,
    }
}

// ---------------------------------------------------------------------------
// Steps
// ---------------------------------------------------------------------------

/// Fields that are told apart are found by their numbers.
proof fn lemma_found(desc: DescriptorView, i: int)
    requires
        sound(desc),
        0 <= i < desc.message.fields.len(),
    ensures
        field_at(desc.message.fields, desc.message.fields[i].number) == Some(i as nat),
        i as usize == i,
{
    lemma_field_from(desc.message.fields, desc.message.fields[i].number, 0);
}

/// A written field takes its part in decoding, and then comes the rest.
pub proof fn lemma_step(
    schema: Seq<DescriptorView>,
    desc: DescriptorView,
    field: WireField,
    tail: Seq<u8>,
    so_far: Decoding,
    depth: nat,
)
    requires
        writable(field),
    ensures
        with_fields(schema, desc, field_bytes(field) + tail, so_far, depth) == (match with_field(
            schema,
            desc,
            field,
            field_bytes(field),
            so_far,
            depth,
        ) {
            Err(error) => Err(error),
            Ok(so_far) => with_fields(schema, desc, tail, so_far, depth),
        }),
{
    let s = field_bytes(field) + tail;
    law_field_round_trip(field, tail);
    lemma_with_next(schema, desc, s, so_far, depth);
    assert(s.take(field_in(s).used as int) =~= field_bytes(field));
}

/// What decoding does with a field that the schema does not know.
pub proof fn lemma_with_unknown(
    schema: Seq<DescriptorView>,
    desc: DescriptorView,
    field: WireField,
    raw: Seq<u8>,
    so_far: Decoding,
    depth: nat,
)
    requires
        unknown_field(desc, field),
    ensures
        with_field(schema, desc, field, raw, so_far, depth) == Ok::<Decoding, DecodeError>(
            so_far.keep(raw),
        ),
{
    reveal(with_field);
    lemma_field_from(desc.message.fields, field.number, 0);
}

/// What decoding does with a singular field.
pub proof fn lemma_with_single(
    schema: Seq<DescriptorView>,
    desc: DescriptorView,
    i: int,
    payload: Payload,
    raw: Seq<u8>,
    so_far: Decoding,
    depth: nat,
)
    requires
        sound(desc),
        0 <= i < desc.message.fields.len(),
        !(desc.message.fields[i].kind is MapOf),
        desc.message.fields[i].label != Label::Repeated,
        payload.wire() == kind_wire(desc.message.fields[i].kind),
    ensures
        ({
            let field = desc.message.fields[i];
            let linked = desc.linked_ref(field.number);
            with_field(
                schema,
                desc,
                WireField { number: field.number, payload },
                raw,
                so_far,
                depth,
            ) == (match decoded_value(schema, linked, field.kind, payload, depth) {
                Err(error) => Err(error),
                Ok(value) => Ok(
                    so_far.claim(field.oneof_index, i as usize).set(
                        i as usize,
                        FieldModel::One(value),
                    ),
                ),
            })
        }),
{
    reveal(with_field);
    lemma_found(desc, i);
}

/// What decoding does with a repeated field.
pub proof fn lemma_with_repeated(
    schema: Seq<DescriptorView>,
    desc: DescriptorView,
    i: int,
    payload: Payload,
    raw: Seq<u8>,
    so_far: Decoding,
    depth: nat,
)
    requires
        sound(desc),
        0 <= i < desc.message.fields.len(),
        !(desc.message.fields[i].kind is MapOf),
        desc.message.fields[i].label == Label::Repeated,
        holds_elements(desc.message.fields[i].kind, payload.wire()),
        so_far.fields[i] is List,
    ensures
        ({
            let field = desc.message.fields[i];
            let linked = desc.linked_ref(field.number);
            with_field(
                schema,
                desc,
                WireField { number: field.number, payload },
                raw,
                so_far,
                depth,
            ) == (match decoded_elements(schema, linked, field.kind, payload, depth) {
                Err(error) => Err(error),
                Ok(elements) => Ok(
                    so_far.set(
                        i as usize,
                        FieldModel::List(so_far.fields[i]->List_0 + elements),
                    ),
                ),
            })
        }),
{
    reveal(with_field);
    lemma_found(desc, i);
}

/// What decoding does with a map field.
pub proof fn lemma_with_entry(
    schema: Seq<DescriptorView>,
    desc: DescriptorView,
    i: int,
    entry: Seq<u8>,
    raw: Seq<u8>,
    so_far: Decoding,
    depth: nat,
)
    requires
        sound(desc),
        0 <= i < desc.message.fields.len(),
        desc.message.fields[i].kind is MapOf,
        so_far.fields[i] is Entries,
    ensures
        ({
            let field = desc.message.fields[i];
            let linked = desc.linked_ref(field.number);
            with_field(
                schema,
                desc,
                WireField { number: field.number, payload: Payload::Len(entry) },
                raw,
                so_far,
                depth,
            ) == (match decoded_entry(
                schema,
                linked,
                field.kind->key,
                field.kind->value,
                entry,
                depth,
            ) {
                Err(error) => Err(error),
                Ok((k, v)) => Ok(
                    so_far.set(
                        i as usize,
                        FieldModel::Entries(put(so_far.fields[i]->Entries_0, k, v)),
                    ),
                ),
            })
        }),
{
    reveal(with_field);
    lemma_found(desc, i);
}

/// The bytes of a chunk are no more than those of its field.
proof fn lemma_chunk_shorter(number: u32, data: Seq<u8>)
    ensures
        data.len() <= field_bytes(WireField { number, payload: Payload::Len(data) }).len(),
{
}

/// Fields that the schema does not know are kept as they stand, whatever else
/// the descriptor says.
pub proof fn law_unknown_kept(
    schema: Seq<DescriptorView>,
    desc: DescriptorView,
    s: Seq<u8>,
    so_far: Decoding,
    depth: nat,
)
    requires
        all_unknown(desc, s),
    ensures
        with_fields(schema, desc, s, so_far, depth) == Ok::<Decoding, DecodeError>(so_far.keep(s)),
    decreases s.len(),
{
    if s.len() == 0 {
        assert(so_far.keep(s) =~= so_far);
    } else {
        lemma_field_used(s);
        let used = field_in(s).used as int;
        let raw = s.take(used);
        let field = field_in(s).result->Ok_0;
        lemma_field_from(desc.message.fields, field.number, 0);
        lemma_with_next(schema, desc, s, so_far, depth);
        lemma_with_unknown(schema, desc, field, raw, so_far, depth);
        law_unknown_kept(schema, desc, s.skip(used), so_far.keep(raw), depth);
        assert(raw + s.skip(used) =~= s);
        assert(so_far.keep(raw).keep(s.skip(used)) =~= so_far.keep(s));
    }
}

// ---------------------------------------------------------------------------
// The round trip
// ---------------------------------------------------------------------------

/// The payload of a value decodes to the value.
proof fn lemma_value_back(
    schema: Seq<DescriptorView>,
    linked: Option<LinkedView>,
    kind: FieldKind,
    value: ValueModel,
    depth: nat,
)
    requires
        !(kind is MapOf),
        value_canonical(schema, linked, value, depth),
        value_payload(schema, linked, kind, value, depth) is Ok,
        value_payload(schema, linked, kind, value, depth)->Ok_0 matches Payload::Len(data)
            ==> data.len() <= u64::MAX,
    ensures
        value_payload(schema, linked, kind, value, depth)->Ok_0.wire() == kind_wire(kind),
        decoded_value(
            schema,
            linked,
            kind,
            value_payload(schema, linked, kind, value, depth)->Ok_0,
            depth,
        ) == Ok::<ValueModel, DecodeError>(value_back(schema, linked, value, depth)),
    decreases level(depth), 0nat, 0nat,
{
    match (kind, value) {
        (FieldKind::Scalar(scalar), ValueModel::Scalar(v)) => {
            law_scalar_round_trip(scalar, v);
        },
        (FieldKind::Message, ValueModel::Message(message)) => {
            let index = linked->0.desc->0;
            law_message_round_trip(schema, linked->0.class, index, message, depth + 1);
        },
        (FieldKind::Timestamp, ValueModel::Timestamp { secs, nanos }) => {
            crate::wellknown::law_parts_round_trip(secs, nanos);
        },
        (FieldKind::Duration, ValueModel::Duration { secs, nanos }) => {
            crate::wellknown::law_parts_round_trip(secs, nanos);
        },
        _ => {},
    }
}

/// A message that was encoded decodes to itself, but for fields without
/// explicit presence that hold their default: those are absent from the wire.
/// The bytes of unknown fields come back too.
pub proof fn law_message_round_trip(
    schema: Seq<DescriptorView>,
    class: usize,
    index: usize,
    message: MessageModel,
    depth: nat,
)
    requires
        index < schema.len(),
        canonical(schema, index, message, depth),
        message_bytes(schema, index, message, depth) is Ok,
        message_bytes(schema, index, message, depth)->Ok_0.len() <= u64::MAX,
    ensures
        decoded(
            schema,
            class,
            index,
            message_bytes(schema, index, message, depth)->Ok_0,
            depth,
        ) == Ok::<MessageModel, DecodeError>(
            message_back(schema, class, index, message, depth),
        ),
    decreases level(depth), 6nat, 0nat,
{
    let desc = schema[index as int];
    let fields = desc.message.fields;
    let bytes = fields_bytes(schema, desc, message.fields, fields.len(), depth)->Ok_0;
    let back = message_back(schema, class, index, message, depth);
    let start = nothing_decoded(fields);
    lemma_fields_back(
        schema,
        index,
        message,
        fields.len(),
        message.unknown,
        depth,
    );
    let done = fields_decoded(schema, desc, message.fields, fields.len(), depth);
    law_unknown_kept(schema, desc, message.unknown, done, depth);
    assert(done.fields =~= back.fields);
    assert(done.keep(message.unknown).unknown =~= message.unknown);
}

/// What has been decoded after the first `n` fields.
spec fn fields_decoded(
    schema: Seq<DescriptorView>,
    desc: DescriptorView,
    values: Seq<FieldModel>,
    n: nat,
    depth: nat,
) -> Decoding {
    Decoding {
        fields: Seq::new(
            desc.message.fields.len(),
            |i: int|
                if i < n {
                    field_back(
                        schema,
                        desc.linked_ref(desc.message.fields[i].number),
                        desc.message.fields[i],
                        values[i],
                        depth,
                    )
                } else {
                    unseen(desc.message.fields[i])
                },
        ),
        owners: owners_upto(desc.message.fields, values, n),
        unknown: Seq::empty(),
    }
}

/// The owners of the oneof groups after the first `n` fields.
spec fn owners_upto(fields: Seq<FieldView>, values: Seq<FieldModel>, n: nat) -> Map<u32, usize>
    decreases n,
{
    if n == 0 {
        Map::empty()
    } else {
        let before = owners_upto(fields, values, (n - 1) as nat);
        match fields[n - 1].oneof_index {
            Some(group) => if sets_member(fields[n - 1], values[n - 1], group as int) {
                before.insert(group, (n - 1) as usize)
            } else {
                before
            },
            None => before,
        }
    }
}

/// A group that has an owner has a set member.
proof fn lemma_owner_set(fields: Seq<FieldView>, values: Seq<FieldModel>, group: u32, n: nat)
    ensures
        owners_upto(fields, values, n).contains_key(group) ==> members_set(
            fields,
            values,
            group as int,
            n,
        ) >= 1,
    decreases n,
{
    if n > 0 {
        lemma_owner_set(fields, values, group, (n - 1) as nat);
    }
}

/// More fields have no fewer set members.
proof fn lemma_members_grow(
    fields: Seq<FieldView>,
    values: Seq<FieldModel>,
    group: int,
    n: nat,
    m: nat,
)
    requires
        n <= m,
    ensures
        members_set(fields, values, group, n) <= members_set(fields, values, group, m),
    decreases m - n,
{
    if n < m {
        lemma_members_grow(fields, values, group, n, (m - 1) as nat);
    }
}

/// Without a conflict no group has two set members.
proof fn lemma_no_conflict(
    index: usize,
    desc: DescriptorView,
    values: Seq<FieldModel>,
    start: nat,
    group: nat,
)
    requires
        first_conflict(index, desc, values, start) is None,
        start <= group < desc.message.oneofs.len(),
    ensures
        members_set(desc.message.fields, values, group as int, desc.message.fields.len()) <= 1,
    decreases group - start,
{
    if start < group {
        lemma_no_conflict(index, desc, values, start + 1, group);
    }
}

/// The first `n` fields of an encoded message decode to themselves.
proof fn lemma_fields_back(
    schema: Seq<DescriptorView>,
    index: usize,
    message: MessageModel,
    n: nat,
    tail: Seq<u8>,
    depth: nat,
)
    requires
        index < schema.len(),
        canonical(schema, index, message, depth),
        message_bytes(schema, index, message, depth) is Ok,
        n <= schema[index as int].message.fields.len(),
        fields_bytes(schema, schema[index as int], message.fields, n, depth) is Ok,
        fields_bytes(schema, schema[index as int], message.fields, n, depth)->Ok_0.len()
            <= u64::MAX,
    ensures
        with_fields(
            schema,
            schema[index as int],
            fields_bytes(schema, schema[index as int], message.fields, n, depth)->Ok_0 + tail,
            nothing_decoded(schema[index as int].message.fields),
            depth,
        ) == with_fields(
            schema,
            schema[index as int],
            tail,
            fields_decoded(schema, schema[index as int], message.fields, n, depth),
            depth,
        ),
    decreases level(depth), 5nat, n,
{
    let desc = schema[index as int];
    let fields = desc.message.fields;
    let values = message.fields;
    let before = fields_decoded(schema, desc, values, (n - 1) as nat, depth);
    let after = fields_decoded(schema, desc, values, n, depth);
    if n == 0 {
        assert(Seq::<u8>::empty() + tail =~= tail);
        assert(after =~= nothing_decoded(fields));
    } else {
        let i = n - 1;
        let earlier = fields_bytes(schema, desc, values, (n - 1) as nat, depth)->Ok_0;
        let bytes = field_value_bytes(schema, desc, fields[i], values[i], depth)->Ok_0;
        assert((earlier + bytes) + tail =~= earlier + (bytes + tail));
        lemma_fields_back(schema, index, message, (n - 1) as nat, bytes + tail, depth);
        if let Some(group) = fields[i].oneof_index {
            if sets_member(fields[i], values[i], group as int) {
                lemma_owner_set(fields, values, group, (n - 1) as nat);
                lemma_members_grow(fields, values, group as int, n, fields.len());
                lemma_no_conflict(index, desc, values, 0, group as nat);
                assert(!before.owners.contains_key(group));
            }
        }
        lemma_field_back(schema, desc, i, values[i], before, tail, depth);
        let linked = desc.linked_ref(fields[i].number);
        assert(after.fields =~= before.fields.update(
            i,
            field_back(schema, linked, fields[i], values[i], depth),
        ));
        assert(after =~= field_decoded(schema, desc, i, values[i], before, depth));
    }
}

/// What has been decoded after one more field.
spec fn field_decoded(
    schema: Seq<DescriptorView>,
    desc: DescriptorView,
    i: int,
    value: FieldModel,
    so_far: Decoding,
    depth: nat,
) -> Decoding {
    let field = desc.message.fields[i];
    Decoding {
        fields: so_far.fields.update(
            i,
            field_back(schema, desc.linked_ref(field.number), field, value, depth),
        ),
        owners: match field.oneof_index {
            Some(group) => if sets_member(field, value, group as int) {
                so_far.owners.insert(group, i as usize)
            } else {
                so_far.owners
            },
            None => so_far.owners,
        },
        unknown: so_far.unknown,
    }
}

/// The bytes of one field decode to what it holds.
proof fn lemma_field_back(
    schema: Seq<DescriptorView>,
    desc: DescriptorView,
    i: int,
    value: FieldModel,
    so_far: Decoding,
    tail: Seq<u8>,
    depth: nat,
)
    requires
        sound(desc),
        0 <= i < desc.message.fields.len(),
        so_far.fields.len() == desc.message.fields.len(),
        so_far.fields[i] == unseen(desc.message.fields[i]),
        desc.message.fields[i].oneof_index matches Some(group) ==> (sets_member(
            desc.message.fields[i],
            value,
            group as int,
        ) ==> !so_far.owners.contains_key(group)),
        field_canonical(schema, desc.linked_ref(desc.message.fields[i].number), value, depth),
        field_value_bytes(schema, desc, desc.message.fields[i], value, depth) is Ok,
        field_value_bytes(schema, desc, desc.message.fields[i], value, depth)->Ok_0.len()
            <= u64::MAX,
    ensures
        with_fields(
            schema,
            desc,
            field_value_bytes(schema, desc, desc.message.fields[i], value, depth)->Ok_0 + tail,
            so_far,
            depth,
        ) == with_fields(
            schema,
            desc,
            tail,
            field_decoded(schema, desc, i, value, so_far, depth),
            depth,
        ),
    decreases level(depth), 4nat, 0nat,
{
    let field = desc.message.fields[i];
    let linked = desc.linked_ref(field.number);
    let bytes = field_value_bytes(schema, desc, field, value, depth)->Ok_0;
    let after = field_decoded(schema, desc, i, value, so_far, depth);
    lemma_found(desc, i);
    match value {
        FieldModel::Absent => {
            assert(bytes + tail =~= tail);
            assert(after =~= so_far);
        },
        FieldModel::Entries(entries) => {
            lemma_entries_back(schema, desc, i, entries, entries.len(), so_far, tail, depth);
            assert(entries.take(entries.len() as int) =~= entries);
            assert(after =~= so_far.set(i as usize, field_back(schema, linked, field, value, depth)));
        },
        FieldModel::List(values) => {
            lemma_repeated_back(schema, desc, i, values, so_far, tail, depth);
            assert(after =~= so_far.set(i as usize, field_back(schema, linked, field, value, depth)));
        },
        FieldModel::One(one) => {
            if field.label == Label::Single && is_default(field.kind, one) {
                assert(bytes + tail =~= tail);
                assert(after =~= so_far);
            } else {
                let payload = value_payload(schema, linked, field.kind, one, depth)->Ok_0;
                let wire_field = WireField { number: field.number, payload };
                if let Payload::Len(data) = payload {
                    lemma_chunk_shorter(field.number, data);
                }
                lemma_value_back(schema, linked, field.kind, one, depth);
                lemma_step(schema, desc, wire_field, tail, so_far, depth);
                lemma_with_single(
                    schema,
                    desc,
                    i,
                    payload,
                    field_bytes(wire_field),
                    so_far,
                    depth,
                );
                assert(after =~= so_far.claim(field.oneof_index, i as usize).set(
                    i as usize,
                    FieldModel::One(value_back(schema, linked, one, depth)),
                ));
            }
        },
    }
}

/// A repeated field decodes to its elements.
proof fn lemma_repeated_back(
    schema: Seq<DescriptorView>,
    desc: DescriptorView,
    i: int,
    values: Seq<ValueModel>,
    so_far: Decoding,
    tail: Seq<u8>,
    depth: nat,
)
    requires
        sound(desc),
        0 <= i < desc.message.fields.len(),
        desc.message.fields[i].label == Label::Repeated,
        !(desc.message.fields[i].kind is MapOf),
        so_far.fields.len() == desc.message.fields.len(),
        so_far.fields[i] == FieldModel::List(Seq::empty()),
        forall|k: int|
            0 <= k < values.len() ==> value_canonical(
                schema,
                desc.linked_ref(desc.message.fields[i].number),
                #[trigger] values[k],
                depth,
            ),
        repeated_bytes(
            schema,
            desc.linked_ref(desc.message.fields[i].number),
            desc.message.fields[i].number,
            desc.message.fields[i].kind,
            values,
            depth,
        ) is Ok,
        repeated_bytes(
            schema,
            desc.linked_ref(desc.message.fields[i].number),
            desc.message.fields[i].number,
            desc.message.fields[i].kind,
            values,
            depth,
        )->Ok_0.len() <= u64::MAX,
    ensures
        with_fields(
            schema,
            desc,
            repeated_bytes(
                schema,
                desc.linked_ref(desc.message.fields[i].number),
                desc.message.fields[i].number,
                desc.message.fields[i].kind,
                values,
                depth,
            )->Ok_0 + tail,
            so_far,
            depth,
        ) == with_fields(
            schema,
            desc,
            tail,
            so_far.set(
                i as usize,
                FieldModel::List(
                    values_back(
                        schema,
                        desc.linked_ref(desc.message.fields[i].number),
                        values,
                        depth,
                    ),
                ),
            ),
            depth,
        ),
    decreases level(depth), 3nat, 0nat,
{
    let field = desc.message.fields[i];
    let linked = desc.linked_ref(field.number);
    let bytes = elements_bytes(
        schema,
        linked,
        field.number,
        field.kind,
        values,
        values.len(),
        depth,
    )->Ok_0;
    let back = values_back(schema, linked, values, depth);
    assert(values.take(values.len() as int) =~= values);
    lemma_found(desc, i);
    if packed(field.kind) {
        if values.len() == 0 {
            assert(bytes + tail =~= tail);
            assert(back =~= Seq::empty());
            assert(so_far.set(i as usize, FieldModel::List(back)) =~= so_far);
        } else {
            let wire_field = WireField { number: field.number, payload: Payload::Len(bytes) };
            lemma_chunk_shorter(field.number, bytes);
            lemma_packed_back(
                schema,
                linked,
                field.number,
                field.kind,
                values,
                values.len(),
                Seq::empty(),
                depth,
            );
            assert(bytes + Seq::<u8>::empty() =~= bytes);
            assert(Seq::<ValueModel>::empty() + back =~= back);
            lemma_step(schema, desc, wire_field, tail, so_far, depth);
            lemma_with_repeated(
                schema,
                desc,
                i,
                wire_field.payload,
                field_bytes(wire_field),
                so_far,
                depth,
            );
            assert(decoded_elements(schema, linked, field.kind, wire_field.payload, depth) == Ok::<
                Seq<ValueModel>,
                DecodeError,
            >(back));
        }
    } else {
        lemma_elements_back(schema, desc, i, values, values.len(), so_far, tail, depth);
    }
}

/// An element that stands in a field of its own decodes to itself.
proof fn lemma_element_back(
    schema: Seq<DescriptorView>,
    desc: DescriptorView,
    i: int,
    value: ValueModel,
    seen: Seq<ValueModel>,
    so_far: Decoding,
    tail: Seq<u8>,
    depth: nat,
)
    requires
        sound(desc),
        0 <= i < desc.message.fields.len(),
        desc.message.fields[i].label == Label::Repeated,
        !(desc.message.fields[i].kind is MapOf),
        so_far.fields.len() == desc.message.fields.len(),
        so_far.fields[i] == FieldModel::List(seen),
        value_canonical(schema, desc.linked_ref(desc.message.fields[i].number), value, depth),
        element_wire_bytes(schema, desc, i, value, depth) is Ok,
        element_wire_bytes(schema, desc, i, value, depth)->Ok_0.len() <= u64::MAX,
    ensures
        with_fields(
            schema,
            desc,
            element_wire_bytes(schema, desc, i, value, depth)->Ok_0 + tail,
            so_far,
            depth,
        ) == with_fields(
            schema,
            desc,
            tail,
            so_far.set(
                i as usize,
                FieldModel::List(
                    seen.push(
                        value_back(
                            schema,
                            desc.linked_ref(desc.message.fields[i].number),
                            value,
                            depth,
                        ),
                    ),
                ),
            ),
            depth,
        ),
    decreases level(depth), 1nat, 0nat,
{
    let field = desc.message.fields[i];
    let linked = desc.linked_ref(field.number);
    let payload = value_payload(schema, linked, field.kind, value, depth)->Ok_0;
    let wire_field = WireField { number: field.number, payload };
    let back = value_back(schema, linked, value, depth);
    if let Payload::Len(data) = payload {
        lemma_chunk_shorter(field.number, data);
    }
    lemma_value_back(schema, linked, field.kind, value, depth);
    lemma_step(schema, desc, wire_field, tail, so_far, depth);
    lemma_with_repeated(schema, desc, i, payload, field_bytes(wire_field), so_far, depth);
    assert(seen + seq![back] =~= seen.push(back));
}

/// The bytes of one element in a field of its own.
pub open spec fn element_wire_bytes(
    schema: Seq<DescriptorView>,
    desc: DescriptorView,
    i: int,
    value: ValueModel,
    depth: nat,
) -> Result<Seq<u8>, EncodeError> {
    let field = desc.message.fields[i];
    match value_payload(schema, desc.linked_ref(field.number), field.kind, value, depth) {
        Ok(payload) => Ok(field_bytes(WireField { number: field.number, payload })),
        Err(error) => Err(error),
    }
}

/// The first `n` elements of an unpacked field decode to themselves.
proof fn lemma_elements_back(
    schema: Seq<DescriptorView>,
    desc: DescriptorView,
    i: int,
    values: Seq<ValueModel>,
    n: nat,
    so_far: Decoding,
    tail: Seq<u8>,
    depth: nat,
)
    requires
        sound(desc),
        0 <= i < desc.message.fields.len(),
        desc.message.fields[i].label == Label::Repeated,
        !(desc.message.fields[i].kind is MapOf),
        !packed(desc.message.fields[i].kind),
        so_far.fields.len() == desc.message.fields.len(),
        so_far.fields[i] == FieldModel::List(Seq::empty()),
        n <= values.len(),
        forall|k: int|
            0 <= k < values.len() ==> value_canonical(
                schema,
                desc.linked_ref(desc.message.fields[i].number),
                #[trigger] values[k],
                depth,
            ),
        elements_bytes(
            schema,
            desc.linked_ref(desc.message.fields[i].number),
            desc.message.fields[i].number,
            desc.message.fields[i].kind,
            values,
            n,
            depth,
        ) is Ok,
        elements_bytes(
            schema,
            desc.linked_ref(desc.message.fields[i].number),
            desc.message.fields[i].number,
            desc.message.fields[i].kind,
            values,
            n,
            depth,
        )->Ok_0.len() <= u64::MAX,
    ensures
        with_fields(
            schema,
            desc,
            elements_bytes(
                schema,
                desc.linked_ref(desc.message.fields[i].number),
                desc.message.fields[i].number,
                desc.message.fields[i].kind,
                values,
                n,
                depth,
            )->Ok_0 + tail,
            so_far,
            depth,
        ) == with_fields(
            schema,
            desc,
            tail,
            so_far.set(
                i as usize,
                FieldModel::List(
                    values_back(
                        schema,
                        desc.linked_ref(desc.message.fields[i].number),
                        values.take(n as int),
                        depth,
                    ),
                ),
            ),
            depth,
        ),
    decreases level(depth), 2nat, n,
{
    let field = desc.message.fields[i];
    let linked = desc.linked_ref(field.number);
    let back = values_back(schema, linked, values.take(n as int), depth);
    lemma_found(desc, i);
    if n == 0 {
        assert(Seq::<u8>::empty() + tail =~= tail);
        assert(back =~= Seq::empty());
        assert(so_far.set(i as usize, FieldModel::List(back)) =~= so_far);
    } else {
        let earlier = elements_bytes(
            schema,
            linked,
            field.number,
            field.kind,
            values,
            (n - 1) as nat,
            depth,
        )->Ok_0;
        let bytes = element_wire_bytes(schema, desc, i, values[n - 1], depth)->Ok_0;
        let seen = values_back(schema, linked, values.take(n - 1), depth);
        let before = so_far.set(i as usize, FieldModel::List(seen));
        assert((earlier + bytes) + tail =~= earlier + (bytes + tail));
        lemma_elements_back(
            schema,
            desc,
            i,
            values,
            (n - 1) as nat,
            so_far,
            bytes + tail,
            depth,
        );
        lemma_element_back(schema, desc, i, values[n - 1], seen, before, tail, depth);
        assert(seen.push(value_back(schema, linked, values[n - 1], depth)) =~= back);
        assert(before.set(i as usize, FieldModel::List(back)) =~= so_far.set(
            i as usize,
            FieldModel::List(back),
        ));
    }
}

/// The first `n` of packed elements decode to themselves.
proof fn lemma_packed_back(
    schema: Seq<DescriptorView>,
    linked: Option<LinkedView>,
    number: u32,
    kind: FieldKind,
    values: Seq<ValueModel>,
    n: nat,
    tail: Seq<u8>,
    depth: nat,
)
    requires
        packed(kind),
        n <= values.len(),
        forall|k: int|
            0 <= k < values.len() ==> value_canonical(schema, linked, #[trigger] values[k], depth),
        elements_bytes(schema, linked, number, kind, values, n, depth) is Ok,
    ensures
        packed_values(
            schema,
            linked,
            kind,
            elements_bytes(schema, linked, number, kind, values, n, depth)->Ok_0 + tail,
            Seq::empty(),
            depth,
        ) == packed_values(
            schema,
            linked,
            kind,
            tail,
            values_back(schema, linked, values.take(n as int), depth),
            depth,
        ),
    decreases level(depth), 1nat, n,
{
    let back = values_back(schema, linked, values.take(n as int), depth);
    if n == 0 {
        assert(Seq::<u8>::empty() + tail =~= tail);
        assert(back =~= Seq::empty());
    } else {
        let earlier = elements_bytes(
            schema,
            linked,
            number,
            kind,
            values,
            (n - 1) as nat,
            depth,
        )->Ok_0;
        let payload = value_payload(schema, linked, kind, values[n - 1], depth)->Ok_0;
        let bytes = payload_bytes(payload);
        let seen = values_back(schema, linked, values.take(n - 1), depth);
        let value = value_back(schema, linked, values[n - 1], depth);
        assert((earlier + bytes) + tail =~= earlier + (bytes + tail));
        lemma_packed_back(
            schema,
            linked,
            number,
            kind,
            values,
            (n - 1) as nat,
            bytes + tail,
            depth,
        );
        lemma_value_back(schema, linked, kind, values[n - 1], depth);
        law_payload_round_trip(payload, tail);
        assert((bytes + tail).skip(bytes.len() as int) =~= tail);
        assert(seen.push(value) =~= back);
    }
}

/// A map entry decodes to its key and its value.
#[verifier::rlimit(30)]
proof fn lemma_entry_back(
    schema: Seq<DescriptorView>,
    linked: Option<LinkedView>,
    key: ScalarType,
    value: MapValue,
    k: ScalarModel,
    v: ValueModel,
    depth: nat,
)
    requires
        crate::value::scalar_payload(key, k) is Some,
        value_payload(schema, linked, kind_of_value(value), v, depth) is Ok,
        value_canonical(schema, linked, v, depth),
        entry_bytes(
            crate::value::scalar_payload(key, k)->0,
            value_payload(schema, linked, kind_of_value(value), v, depth)->Ok_0,
        ).len() <= u64::MAX,
    ensures
        decoded_entry(
            schema,
            linked,
            key,
            value,
            entry_bytes(
                crate::value::scalar_payload(key, k)->0,
                value_payload(schema, linked, kind_of_value(value), v, depth)->Ok_0,
            ),
            depth,
        ) == Ok::<(ScalarModel, ValueModel), DecodeError>(
            (k, value_back(schema, linked, v, depth)),
        ),
    decreases level(depth), 1nat, 0nat,
{
    let key_payload = crate::value::scalar_payload(key, k)->0;
    let payload = value_payload(schema, linked, kind_of_value(value), v, depth)->Ok_0;
    let first = WireField { number: 1, payload: key_payload };
    let second = WireField { number: 2, payload };
    let bytes = entry_bytes(key_payload, payload);
    let back = value_back(schema, linked, v, depth);
    if let Payload::Len(data) = key_payload {
        lemma_chunk_shorter(1, data);
    }
    if let Payload::Len(data) = payload {
        lemma_chunk_shorter(2, data);
    }
    law_scalar_round_trip(key, k);
    lemma_value_back(schema, linked, kind_of_value(value), v, depth);
    law_field_round_trip(first, field_bytes(second));
    law_field_round_trip(second, Seq::empty());
    assert(field_bytes(second) + Seq::<u8>::empty() =~= field_bytes(second));
    assert(entry_fields(
        schema,
        linked,
        key,
        value,
        Seq::empty(),
        (Some(k), Some(back)),
        depth,
    ) == Ok::<(Option<ScalarModel>, Option<ValueModel>), DecodeError>((Some(k), Some(back))));
    assert(entry_fields(
        schema,
        linked,
        key,
        value,
        field_bytes(second),
        (Some(k), None),
        depth,
    ) == Ok::<(Option<ScalarModel>, Option<ValueModel>), DecodeError>((Some(k), Some(back))));
}

/// A key that no entry has is not found.
proof fn lemma_key_absent(
    entries: Seq<(ScalarModel, ValueModel)>,
    key: ScalarModel,
    start: nat,
)
    requires
        forall|i: int| start <= i < entries.len() ==> !same_key((#[trigger] entries[i]).0, key),
    ensures
        key_from(entries, key, start) is None,
    decreases entries.len() - start,
{
    if start < entries.len() {
        lemma_key_absent(entries, key, start + 1);
    }
}

/// The first `n` entries of a map decode to themselves.
proof fn lemma_entries_back(
    schema: Seq<DescriptorView>,
    desc: DescriptorView,
    i: int,
    entries: Seq<(ScalarModel, ValueModel)>,
    n: nat,
    so_far: Decoding,
    tail: Seq<u8>,
    depth: nat,
)
    requires
        sound(desc),
        0 <= i < desc.message.fields.len(),
        desc.message.fields[i].kind is MapOf,
        so_far.fields.len() == desc.message.fields.len(),
        so_far.fields[i] == FieldModel::Entries(Seq::empty()),
        n <= entries.len(),
        distinct_keys(entries),
        forall|k: int|
            0 <= k < entries.len() ==> value_canonical(
                schema,
                desc.linked_ref(desc.message.fields[i].number),
                (#[trigger] entries[k]).1,
                depth,
            ),
        map_bytes(schema, desc, i, entries, n, depth) is Ok,
        map_bytes(schema, desc, i, entries, n, depth)->Ok_0.len() <= u64::MAX,
    ensures
        with_fields(
            schema,
            desc,
            map_bytes(schema, desc, i, entries, n, depth)->Ok_0 + tail,
            so_far,
            depth,
        ) == with_fields(
            schema,
            desc,
            tail,
            so_far.set(
                i as usize,
                FieldModel::Entries(
                    entries_back(
                        schema,
                        desc.linked_ref(desc.message.fields[i].number),
                        entries.take(n as int),
                        depth,
                    ),
                ),
            ),
            depth,
        ),
    decreases level(depth), 2nat, n,
{
    let field = desc.message.fields[i];
    let linked = desc.linked_ref(field.number);
    let back = entries_back(schema, linked, entries.take(n as int), depth);
    let key = field.kind->key;
    let value = field.kind->value;
    lemma_found(desc, i);
    if n == 0 {
        assert(Seq::<u8>::empty() + tail =~= tail);
        assert(back =~= Seq::empty());
        assert(so_far.set(i as usize, FieldModel::Entries(back)) =~= so_far);
    } else {
        let (k, v) = entries[n - 1];
        let earlier = map_bytes(schema, desc, i, entries, (n - 1) as nat, depth)->Ok_0;
        let key_payload = crate::value::scalar_payload(key, k)->0;
        let payload = value_payload(schema, linked, kind_of_value(value), v, depth)->Ok_0;
        let entry = entry_bytes(key_payload, payload);
        let wire_field = WireField { number: field.number, payload: Payload::Len(entry) };
        let bytes = field_bytes(wire_field);
        let seen = entries_back(schema, linked, entries.take(n - 1), depth);
        let v_back = value_back(schema, linked, v, depth);
        let before = so_far.set(i as usize, FieldModel::Entries(seen));
        assert((earlier + bytes) + tail =~= earlier + (bytes + tail));
        lemma_entries_back(
            schema,
            desc,
            i,
            entries,
            (n - 1) as nat,
            so_far,
            bytes + tail,
            depth,
        );
        lemma_chunk_shorter(field.number, entry);
        lemma_entry_back(schema, linked, key, value, k, v, depth);
        lemma_step(schema, desc, wire_field, tail, before, depth);
        lemma_with_entry(schema, desc, i, entry, bytes, before, depth);
        lemma_key_absent(seen, k, 0);
        assert(seen.push((k, v_back)) =~= back);
        assert(before.set(i as usize, FieldModel::Entries(back)) =~= so_far.set(
            i as usize,
            FieldModel::Entries(back),
        ));
    }
}

/// The bytes of the first `n` entries of a map field.
spec fn map_bytes(
    schema: Seq<DescriptorView>,
    desc: DescriptorView,
    i: int,
    entries: Seq<(ScalarModel, ValueModel)>,
    n: nat,
    depth: nat,
) -> Result<Seq<u8>, EncodeError> {
    let field = desc.message.fields[i];
    entries_bytes(
        schema,
        desc.linked_ref(field.number),
        field.number,
        field.kind->key,
        field.kind->value,
        entries,
        n,
        depth,
    )
}

/// The bytes of the first `n` elements of a repeated field, each in a field of
/// its own, or the first error among them.
pub open spec fn unpacked_bytes(
    schema: Seq<DescriptorView>,
    desc: DescriptorView,
    i: int,
    values: Seq<ValueModel>,
    n: nat,
    depth: nat,
) -> Result<Seq<u8>, EncodeError>
    decreases n,
{
    if n == 0 {
        Ok(Seq::empty())
    } else {
        match unpacked_bytes(schema, desc, i, values, (n - 1) as nat, depth) {
            Err(error) => Err(error),
            Ok(before) => match element_wire_bytes(schema, desc, i, values[n - 1], depth) {
                Err(error) => Err(error),
                Ok(bytes) => Ok(before + bytes),
            },
        }
    }
}

/// The first `n` elements, each in a field of its own, decode to themselves.
proof fn lemma_unpacked_back(
    schema: Seq<DescriptorView>,
    desc: DescriptorView,
    i: int,
    values: Seq<ValueModel>,
    n: nat,
    seen: Seq<ValueModel>,
    so_far: Decoding,
    tail: Seq<u8>,
    depth: nat,
)
    requires
        sound(desc),
        0 <= i < desc.message.fields.len(),
        desc.message.fields[i].label == Label::Repeated,
        !(desc.message.fields[i].kind is MapOf),
        so_far.fields.len() == desc.message.fields.len(),
        so_far.fields[i] == FieldModel::List(seen),
        n <= values.len(),
        forall|k: int|
            0 <= k < values.len() ==> value_canonical(
                schema,
                desc.linked_ref(desc.message.fields[i].number),
                #[trigger] values[k],
                depth,
            ),
        unpacked_bytes(schema, desc, i, values, n, depth) is Ok,
        unpacked_bytes(schema, desc, i, values, n, depth)->Ok_0.len() <= u64::MAX,
    ensures
        with_fields(
            schema,
            desc,
            unpacked_bytes(schema, desc, i, values, n, depth)->Ok_0 + tail,
            so_far,
            depth,
        ) == with_fields(
            schema,
            desc,
            tail,
            so_far.set(
                i as usize,
                FieldModel::List(
                    seen + values_back(
                        schema,
                        desc.linked_ref(desc.message.fields[i].number),
                        values.take(n as int),
                        depth,
                    ),
                ),
            ),
            depth,
        ),
    decreases n,
{
    let field = desc.message.fields[i];
    let linked = desc.linked_ref(field.number);
    let list = seen + values_back(schema, linked, values.take(n as int), depth);
    lemma_found(desc, i);
    if n == 0 {
        assert(Seq::<u8>::empty() + tail =~= tail);
        assert(list =~= seen);
        assert(so_far.set(i as usize, FieldModel::List(list)) =~= so_far);
    } else {
        let earlier = unpacked_bytes(schema, desc, i, values, (n - 1) as nat, depth)->Ok_0;
        let bytes = element_wire_bytes(schema, desc, i, values[n - 1], depth)->Ok_0;
        let shorter = seen + values_back(schema, linked, values.take(n - 1), depth);
        let before = so_far.set(i as usize, FieldModel::List(shorter));
        assert((earlier + bytes) + tail =~= earlier + (bytes + tail));
        lemma_unpacked_back(
            schema,
            desc,
            i,
            values,
            (n - 1) as nat,
            seen,
            so_far,
            bytes + tail,
            depth,
        );
        lemma_element_back(schema, desc, i, values[n - 1], shorter, before, tail, depth);
        assert(shorter.push(value_back(schema, linked, values[n - 1], depth)) =~= list);
        assert(before.set(i as usize, FieldModel::List(list)) =~= so_far.set(
            i as usize,
            FieldModel::List(list),
        ));
    }
}

/// Elements that can be packed decode the same whether they are packed into
/// one field or stand in fields of their own.
pub proof fn law_packed_or_not(
    schema: Seq<DescriptorView>,
    desc: DescriptorView,
    i: int,
    values: Seq<ValueModel>,
    so_far: Decoding,
    tail: Seq<u8>,
    depth: nat,
)
    requires
        sound(desc),
        0 <= i < desc.message.fields.len(),
        desc.message.fields[i].label == Label::Repeated,
        packed(desc.message.fields[i].kind),
        so_far.fields.len() == desc.message.fields.len(),
        so_far.fields[i] is List,
        unpacked_bytes(schema, desc, i, values, values.len(), depth) is Ok,
        unpacked_bytes(schema, desc, i, values, values.len(), depth)->Ok_0.len() <= u64::MAX,
    ensures
        ({
            let field = desc.message.fields[i];
            let linked = desc.linked_ref(field.number);
            &&& repeated_bytes(schema, linked, field.number, field.kind, values, depth) matches Ok(
                chunk,
            )
            &&& with_fields(
                schema,
                desc,
                unpacked_bytes(schema, desc, i, values, values.len(), depth)->Ok_0 + tail,
                so_far,
                depth,
            ) == with_fields(schema, desc, chunk + tail, so_far, depth)
        }),
{
    let field = desc.message.fields[i];
    let linked = desc.linked_ref(field.number);
    let seen = so_far.fields[i]->List_0;
    let back = values_back(schema, linked, values, depth);
    lemma_unpacked_packs(schema, desc, i, values, values.len(), depth);
    lemma_unpacked_back(schema, desc, i, values, values.len(), seen, so_far, tail, depth);
    assert(values.take(values.len() as int) =~= values);
    lemma_found(desc, i);
    let chunk = elements_bytes(
        schema,
        linked,
        field.number,
        field.kind,
        values,
        values.len(),
        depth,
    )->Ok_0;
    if values.len() == 0 {
        assert(chunk + tail =~= tail);
        assert(seen + back =~= seen);
        assert(so_far.set(i as usize, FieldModel::List(seen + back)) =~= so_far);
    } else {
        let wire_field = WireField { number: field.number, payload: Payload::Len(chunk) };
        lemma_packed_back(
            schema,
            linked,
            field.number,
            field.kind,
            values,
            values.len(),
            Seq::empty(),
            depth,
        );
        assert(chunk + Seq::<u8>::empty() =~= chunk);
        lemma_step(schema, desc, wire_field, tail, so_far, depth);
        lemma_with_repeated(
            schema,
            desc,
            i,
            wire_field.payload,
            field_bytes(wire_field),
            so_far,
            depth,
        );
    }
}

/// Packable elements that have bytes in fields of their own have no more when
/// packed, and they are no messages.
proof fn lemma_unpacked_packs(
    schema: Seq<DescriptorView>,
    desc: DescriptorView,
    i: int,
    values: Seq<ValueModel>,
    n: nat,
    depth: nat,
)
    requires
        packed(desc.message.fields[i].kind),
        unpacked_bytes(schema, desc, i, values, n, depth) is Ok,
    ensures
        ({
            let field = desc.message.fields[i];
            let linked = desc.linked_ref(field.number);
            &&& elements_bytes(schema, linked, field.number, field.kind, values, n, depth) matches
                Ok(chunk)
            &&& chunk.len() <= unpacked_bytes(schema, desc, i, values, n, depth)->Ok_0.len()
            &&& forall|k: int|
                0 <= k < n ==> value_canonical(schema, linked, #[trigger] values[k], depth)
        }),
    decreases n,
{
    if n > 0 {
        lemma_unpacked_packs(schema, desc, i, values, (n - 1) as nat, depth);
    }
}

/// Decoding two runs of fields, one behind the other, is decoding the first
/// and going on with the second: the bytes of two messages merge.
#[verifier::rlimit(30)]
pub proof fn law_fields_append(
    schema: Seq<DescriptorView>,
    desc: DescriptorView,
    s: Seq<u8>,
    t: Seq<u8>,
    so_far: Decoding,
    depth: nat,
)
    requires
        with_fields(schema, desc, s, so_far, depth) is Ok,
    ensures
        with_fields(schema, desc, s + t, so_far, depth) == with_fields(
            schema,
            desc,
            t,
            with_fields(schema, desc, s, so_far, depth)->Ok_0,
            depth,
        ),
    decreases s.len(),
{
    if s.len() == 0 {
        assert(s + t =~= t);
    } else {
        lemma_field_used(s);
        let used = field_in(s).used as int;
        lemma_with_next(schema, desc, s, so_far, depth);
        lemma_with_next(schema, desc, s + t, so_far, depth);
        law_field_prefix(s, s.skip(used) + t);
        assert(s.take(used) + (s.skip(used) + t) =~= s + t);
        assert((s + t).skip(used) =~= s.skip(used) + t);
        assert((s + t).take(used) =~= s.take(used));
        let next = with_next(schema, desc, s, so_far, depth)->Ok_0;
        law_fields_append(schema, desc, s.skip(used), t, next, depth);
    }
}

// ---------------------------------------------------------------------------
// Scalars and elements
// ---------------------------------------------------------------------------

/// A scalar that was written reads back as itself, whatever follows it, and
/// reading it consumes just what was written.
pub proof fn law_scalar_read_back(scalar: ScalarType, value: ScalarModel, tail: Seq<u8>)
    requires
        scalar_result(scalar, value) is Ok,
        payload_result(scalar_result(scalar, value))->Ok_0.len() <= u64::MAX,
    ensures
        ({
            let bytes = payload_result(scalar_result(scalar, value))->Ok_0;
            let read = payload_in(bytes + tail, scalar.wire());
            &&& read_scalar(scalar, read.result) == Ok::<ScalarModel, DecodeError>(value)
            &&& read.used == bytes.len()
            &&& (bytes + tail).skip(read.used as int) == tail
        }),
{
    let payload = scalar_result(scalar, value)->Ok_0;
    let bytes = payload_bytes(payload);
    law_scalar_round_trip(scalar, value);
    law_payload_round_trip(payload, tail);
    assert((bytes + tail).skip(bytes.len() as int) =~= tail);
}

/// The elements that reading one at a time off `s` appends to those already
/// seen, each with the wire type of one element.
pub open spec fn elements_one_by_one(
    schema: Seq<DescriptorView>,
    linked: Option<LinkedView>,
    kind: FieldKind,
    s: Seq<u8>,
    seen: Seq<ValueModel>,
    depth: nat,
) -> Result<Seq<ValueModel>, DecodeError>
    decreases s.len(),
{
    if s.len() == 0 {
        Ok(seen)
    } else {
        proof {
            lemma_payload_progress(s, kind_wire(kind));
        }
        match read_elements(
            schema,
            linked,
            kind,
            payload_in(s, kind_wire(kind)).result,
            depth,
        ) {
            Err(error) => Err(error),
            Ok(elements) => elements_one_by_one(
                schema,
                linked,
                kind,
                s.skip(payload_in(s, kind_wire(kind)).used as int),
                seen + elements,
                depth,
            ),
        }
    }
}

/// A chunk of packable elements, valid or not, gives what reading the elements
/// one at a time gives.
pub proof fn law_chunk_is_its_elements(
    schema: Seq<DescriptorView>,
    linked: Option<LinkedView>,
    kind: FieldKind,
    chunk: Seq<u8>,
    depth: nat,
)
    requires
        packed(kind),
    ensures
        decoded_elements(schema, linked, kind, Payload::Len(chunk), depth) == elements_one_by_one(
            schema,
            linked,
            kind,
            chunk,
            Seq::empty(),
            depth,
        ),
{
    lemma_one_by_one(schema, linked, kind, chunk, Seq::empty(), depth);
}

proof fn lemma_one_by_one(
    schema: Seq<DescriptorView>,
    linked: Option<LinkedView>,
    kind: FieldKind,
    s: Seq<u8>,
    seen: Seq<ValueModel>,
    depth: nat,
)
    requires
        packed(kind),
    ensures
        packed_values(schema, linked, kind, s, seen, depth) == elements_one_by_one(
            schema,
            linked,
            kind,
            s,
            seen,
            depth,
        ),
    decreases s.len(),
{
    if s.len() > 0 {
        lemma_payload_progress(s, kind_wire(kind));
        if let Ok(payload) = payload_in(s, kind_wire(kind)).result {
            assert(!(payload is Len));
            if let Ok(value) = decoded_value(schema, linked, kind, payload, depth) {
                assert(seen + seq![value] =~= seen.push(value));
                lemma_one_by_one(
                    schema,
                    linked,
                    kind,
                    s.skip(payload_in(s, kind_wire(kind)).used as int),
                    seen.push(value),
                    depth,
                );
            }
        }
    }
}

/// A field holds elements of a kind just if its wire type is that of one
/// element or that of a chunk.
pub proof fn law_element_wire_types(kind: FieldKind, wire: WireType)
    ensures
        holds_elements(kind, wire) <==> wire == kind_wire(kind) || wire == WireType::Len,
{
}

} // verus!
