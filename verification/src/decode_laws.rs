//! What holds of every decoded message: it has the types of its descriptor, at
//! most one member of each oneof group is set, and it can be encoded again.
use vstd::prelude::*;

use crate::codec_laws::{
    all_unknown, canonical, distinct_keys, field_back, field_canonical, law_fields_append,
    lemma_step, lemma_with_entry, lemma_with_repeated, lemma_with_single, lemma_with_unknown, message_back, sound,
    unknown_field, value_back, value_canonical,
};
use crate::decode::{
    decoded, decoded_elements, decoded_entry, decoded_value, entry_fields, holds_elements,
    kind_wire, lemma_payload_progress, lemma_with_next, nothing_decoded, packed_values,
    with_entry_field, with_field, with_fields, with_next, DecodeError, Decoding,
};
use crate::descriptor::{
    field_at, lemma_field_from, FieldKind, FieldView, Label, MapValue, ScalarType, MAX_DEPTH,
};
use crate::encode::{
    elements_bytes, entries_bytes, field_value_bytes, fields_bytes, first_conflict, is_default,
    kind_of_value, level, members_set, message_bytes, packed, sets_member, value_payload,
};
use crate::entries::{lemma_key_from, put};
use crate::message::{DescriptorView, LinkedView};
use crate::value::{
    scalar_of, scalar_payload, zero_scalar, FieldModel, MessageModel, ScalarModel, ValueModel,
};
use crate::wire::{field_bytes, field_in, lemma_field_used, payload_in, Payload, WireField};
use crate::wire_laws::{law_field_prefix, writable};

verus! {

// ---------------------------------------------------------------------------
// Typed messages
// ---------------------------------------------------------------------------

/// Whether a value is of the given kind; a nested message is of the class that
/// its field is linked to.
pub open spec fn value_typed(
    schema: Seq<DescriptorView>,
    linked: Option<LinkedView>,
    kind: FieldKind,
    value: ValueModel,
    depth: nat,
) -> bool
    decreases level(depth), 0nat,
{
    match (kind, value) {
        (FieldKind::Scalar(scalar), ValueModel::Scalar(v)) => scalar_payload(scalar, v) is Some,
        (FieldKind::Enum, ValueModel::Enum(_)) => true,
        (FieldKind::Message, ValueModel::Message(message)) => {
            &&& depth < MAX_DEPTH
            &&& linked matches Some(linked)
            &&& linked.desc matches Some(index)
            &&& message.class == linked.class
            &&& message.own == linked.desc
            &&& index < schema.len()
            &&& typed(schema, index, message, depth + 1)
        },
        (FieldKind::Timestamp, ValueModel::Timestamp { .. }) => true,
        (FieldKind::Duration, ValueModel::Duration { .. }) => true,
        _ => false,
    }
}

/// Whether a field holds what its descriptor says, if anything.
pub open spec fn field_typed(
    schema: Seq<DescriptorView>,
    linked: Option<LinkedView>,
    field: FieldView,
    value: FieldModel,
    depth: nat,
) -> bool
    decreases level(depth), 1nat,
{
    match field.kind {
        FieldKind::MapOf { key, value: value_kind } => {
            &&& value matches FieldModel::Entries(entries)
            &&& distinct_keys(entries)
            &&& forall|i: int|
                0 <= i < entries.len() ==> scalar_payload(key, (#[trigger] entries[i]).0) is Some
            &&& forall|i: int|
                0 <= i < entries.len() ==> value_typed(
                    schema,
                    linked,
                    kind_of_value(value_kind),
                    (#[trigger] entries[i]).1,
                    depth,
                )
        },
        kind => if field.label == Label::Repeated {
            &&& value matches FieldModel::List(values)
            &&& forall|i: int|
                0 <= i < values.len() ==> value_typed(
                    schema,
                    linked,
                    kind,
                    #[trigger] values[i],
                    depth,
                )
        } else {
            match value {
                FieldModel::Absent => true,
                FieldModel::One(one) => value_typed(schema, linked, kind, one, depth),
                _ => false,
            }
        },
    }
}

/// Whether a message has the types of its descriptor, at most one set member
/// of each oneof group, and only unknown fields among its unknown bytes.
pub open spec fn typed(
    schema: Seq<DescriptorView>,
    index: usize,
    message: MessageModel,
    depth: nat,
) -> bool
    decreases level(depth), 2nat,
{
    let desc = schema[index as int];
    &&& message.fields.len() == desc.message.fields.len()
    &&& forall|i: int|
        0 <= i < message.fields.len() ==> field_typed(
            schema,
            desc.linked_ref(desc.message.fields[i].number),
            desc.message.fields[i],
            #[trigger] message.fields[i],
            depth,
        )
    &&& forall|group: int|
        #[trigger] members_set(
            desc.message.fields,
            message.fields,
            group,
            desc.message.fields.len(),
        ) <= 1
    &&& all_unknown(desc, message.unknown)
}

/// What holds of a message as far as it has been decoded.
spec fn on_track(
    schema: Seq<DescriptorView>,
    desc: DescriptorView,
    so_far: Decoding,
    depth: nat,
) -> bool {
    let fields = desc.message.fields;
    &&& so_far.fields.len() == fields.len()
    &&& forall|i: int|
        0 <= i < fields.len() ==> field_typed(
            schema,
            desc.linked_ref(fields[i].number),
            fields[i],
            #[trigger] so_far.fields[i],
            depth,
        )
    &&& forall|group: u32| #[trigger]
        so_far.owners.contains_key(group) ==> {
            &&& so_far.owners[group] < fields.len()
            &&& fields[so_far.owners[group] as int].oneof_index == Some(group)
        }
    &&& forall|i: int|
        0 <= i < fields.len() && #[trigger] so_far.fields[i] != FieldModel::Absent ==> (
        fields[i].oneof_index matches Some(group) ==> so_far.owners.contains_key(group)
            && so_far.owners[group] == i)
    &&& all_unknown(desc, so_far.unknown)
}

/// Every descriptor of the schema is sound.
pub open spec fn sound_schema(schema: Seq<DescriptorView>) -> bool {
    forall|i: int| 0 <= i < schema.len() ==> sound(#[trigger] schema[i])
}

// ---------------------------------------------------------------------------
// Decoded messages are typed
// ---------------------------------------------------------------------------

/// Unknown fields behind unknown fields are unknown fields.
proof fn lemma_unknown_append(desc: DescriptorView, s: Seq<u8>, t: Seq<u8>)
    requires
        all_unknown(desc, s),
        all_unknown(desc, t),
    ensures
        all_unknown(desc, s + t),
    decreases s.len(),
{
    if s.len() == 0 {
        assert(s + t =~= t);
    } else {
        lemma_field_used(s);
        let used = field_in(s).used as int;
        law_field_prefix(s, s.skip(used) + t);
        assert(s.take(used) + (s.skip(used) + t) =~= s + t);
        assert((s + t).skip(used) =~= s.skip(used) + t);
        lemma_unknown_append(desc, s.skip(used), t);
    }
}

/// The raw bytes of one unknown field are unknown.
proof fn lemma_unknown_one(desc: DescriptorView, s: Seq<u8>)
    requires
        s.len() > 0,
        field_in(s).result is Ok,
        unknown_field(desc, field_in(s).result->Ok_0),
    ensures
        all_unknown(desc, s.take(field_in(s).used as int)),
{
    lemma_field_used(s);
    let used = field_in(s).used as int;
    let raw = s.take(used);
    law_field_prefix(s, Seq::empty());
    assert(raw + Seq::<u8>::empty() =~= raw);
    assert(raw.skip(used) =~= Seq::empty());
    assert(all_unknown(desc, Seq::empty()));
}

/// A scalar that was decoded is of its type.
proof fn lemma_scalar_typed(scalar: ScalarType, payload: Payload)
    requires
        scalar_of(scalar, payload) is Some,
    ensures
        scalar_payload(scalar, scalar_of(scalar, payload)->0) is Some,
{
}

/// A value that was decoded is of its kind.
proof fn lemma_value_typed(
    schema: Seq<DescriptorView>,
    linked: Option<LinkedView>,
    kind: FieldKind,
    payload: Payload,
    depth: nat,
)
    requires
        sound_schema(schema),
        !(kind is MapOf),
        payload.wire() == kind_wire(kind),
        decoded_value(schema, linked, kind, payload, depth) is Ok,
    ensures
        value_typed(
            schema,
            linked,
            kind,
            decoded_value(schema, linked, kind, payload, depth)->Ok_0,
            depth,
        ),
    decreases level(depth), 0nat, 0nat,
{
    match kind {
        FieldKind::Scalar(scalar) => lemma_scalar_typed(scalar, payload),
        FieldKind::Message => {
            let bytes = payload->Len_0;
            law_decoded_typed(
                schema,
                linked->0.class,
                linked->0.desc->0,
                bytes,
                depth + 1,
            );
        },
        _ => {},
    }
}

/// Packed values that were decoded are of their kind.
proof fn lemma_packed_typed(
    schema: Seq<DescriptorView>,
    linked: Option<LinkedView>,
    kind: FieldKind,
    s: Seq<u8>,
    seen: Seq<ValueModel>,
    depth: nat,
)
    requires
        sound_schema(schema),
        packed(kind),
        packed_values(schema, linked, kind, s, seen, depth) is Ok,
        forall|i: int|
            0 <= i < seen.len() ==> value_typed(schema, linked, kind, #[trigger] seen[i], depth),
    ensures
        forall|i: int|
            0 <= i < packed_values(schema, linked, kind, s, seen, depth)->Ok_0.len()
                ==> value_typed(
                schema,
                linked,
                kind,
                #[trigger] packed_values(schema, linked, kind, s, seen, depth)->Ok_0[i],
                depth,
            ),
    decreases level(depth), 1nat, s.len(),
{
    if s.len() > 0 {
        lemma_payload_progress(s, kind_wire(kind));
        let payload = payload_in(s, kind_wire(kind)).result->Ok_0;
        let value = decoded_value(schema, linked, kind, payload, depth)->Ok_0;
        lemma_value_typed(schema, linked, kind, payload, depth);
        lemma_packed_typed(
            schema,
            linked,
            kind,
            s.skip(payload_in(s, kind_wire(kind)).used as int),
            seen.push(value),
            depth,
        );
    }
}

/// Whether key and value of an entry are of their types, as far as they are
/// there.
spec fn entry_typed(
    schema: Seq<DescriptorView>,
    linked: Option<LinkedView>,
    key: ScalarType,
    value: MapValue,
    seen: (Option<ScalarModel>, Option<ValueModel>),
    depth: nat,
) -> bool {
    &&& seen.0 matches Some(k) ==> scalar_payload(key, k) is Some
    &&& seen.1 matches Some(v) ==> value_typed(schema, linked, kind_of_value(value), v, depth)
}

/// Key and value that were decoded are of their types.
proof fn lemma_entry_fields_typed(
    schema: Seq<DescriptorView>,
    linked: Option<LinkedView>,
    key: ScalarType,
    value: MapValue,
    s: Seq<u8>,
    seen: (Option<ScalarModel>, Option<ValueModel>),
    depth: nat,
)
    requires
        sound_schema(schema),
        entry_fields(schema, linked, key, value, s, seen, depth) is Ok,
        entry_typed(schema, linked, key, value, seen, depth),
    ensures
        entry_typed(
            schema,
            linked,
            key,
            value,
            entry_fields(schema, linked, key, value, s, seen, depth)->Ok_0,
            depth,
        ),
    decreases level(depth), 1nat, s.len(),
{
    if s.len() > 0 {
        lemma_field_used(s);
        let rest = s.skip(field_in(s).used as int);
        let field = field_in(s).result->Ok_0;
        if field.number == 1 && field.payload.wire() == key.wire() {
            lemma_scalar_typed(key, field.payload);
        } else if field.number == 2 && field.payload.wire() == kind_wire(kind_of_value(value)) {
            lemma_value_typed(schema, linked, kind_of_value(value), field.payload, depth);
        }
        let next = with_entry_field(schema, linked, key, value, field, seen, depth)->Ok_0;
        lemma_entry_fields_typed(schema, linked, key, value, rest, next, depth);
    }
}

/// A map entry that was decoded is of its types.
proof fn lemma_entry_typed(
    schema: Seq<DescriptorView>,
    linked: Option<LinkedView>,
    key: ScalarType,
    value: MapValue,
    s: Seq<u8>,
    depth: nat,
)
    requires
        sound_schema(schema),
        decoded_entry(schema, linked, key, value, s, depth) is Ok,
    ensures
        scalar_payload(key, decoded_entry(schema, linked, key, value, s, depth)->Ok_0.0) is Some,
        value_typed(
            schema,
            linked,
            kind_of_value(value),
            decoded_entry(schema, linked, key, value, s, depth)->Ok_0.1,
            depth,
        ),
    decreases level(depth), 2nat, 0nat,
{
    lemma_entry_fields_typed(schema, linked, key, value, s, (None, None), depth);
    crate::value::law_zero_scalar_typed(key);
    let found = entry_fields(schema, linked, key, value, s, (None, None), depth)->Ok_0;
    if found.1 is None {
        match value {
            MapValue::Scalar(scalar) => crate::value::law_zero_scalar_typed(scalar),
            MapValue::Message => {
                law_decoded_typed(
                    schema,
                    linked->0.class,
                    linked->0.desc->0,
                    Seq::empty(),
                    depth + 1,
                );
            },
            _ => {},
        }
    }
}

/// A field that is set to something of its type keeps a decoding on track.
proof fn lemma_set_on_track(
    schema: Seq<DescriptorView>,
    desc: DescriptorView,
    i: int,
    value: FieldModel,
    so_far: Decoding,
    depth: nat,
)
    requires
        sound(desc),
        0 <= i < desc.message.fields.len(),
        on_track(schema, desc, so_far, depth),
        field_typed(
            schema,
            desc.linked_ref(desc.message.fields[i].number),
            desc.message.fields[i],
            value,
            depth,
        ),
    ensures
        on_track(
            schema,
            desc,
            so_far.claim(desc.message.fields[i].oneof_index, i as usize).set(i as usize, value),
            depth,
        ),
{
    let fields = desc.message.fields;
    let claimed = so_far.claim(fields[i].oneof_index, i as usize);
    let after = claimed.set(i as usize, value);
    assert(i as usize == i);
    assert forall|k: int| 0 <= k < fields.len() implies field_typed(
        schema,
        desc.linked_ref(fields[k].number),
        fields[k],
        #[trigger] after.fields[k],
        depth,
    ) by {
        assert(field_typed(
            schema,
            desc.linked_ref(fields[k].number),
            fields[k],
            so_far.fields[k],
            depth,
        ));
        if k != i && after.fields[k] != so_far.fields[k] {
            assert(fields[k].label == Label::Optional);
        }
    }
    assert forall|k: int|
        0 <= k < fields.len() && #[trigger] after.fields[k] != FieldModel::Absent implies (
    fields[k].oneof_index matches Some(group) ==> after.owners.contains_key(group)
        && after.owners[group] == k) by {
        if k != i {
            assert(so_far.fields[k] != FieldModel::Absent);
        }
    }
}

/// A map with one more typed entry is typed.
proof fn lemma_put_typed(
    schema: Seq<DescriptorView>,
    linked: Option<LinkedView>,
    field: FieldView,
    entries: Seq<(ScalarModel, ValueModel)>,
    k: ScalarModel,
    v: ValueModel,
    depth: nat,
)
    requires
        field.kind is MapOf,
        field_typed(schema, linked, field, FieldModel::Entries(entries), depth),
        scalar_payload(field.kind->key, k) is Some,
        value_typed(schema, linked, kind_of_value(field.kind->value), v, depth),
    ensures
        field_typed(schema, linked, field, FieldModel::Entries(put(entries, k, v)), depth),
{
    lemma_key_from(entries, k, 0);
}

/// Elements that were decoded are of their kind.
proof fn lemma_elements_typed(
    schema: Seq<DescriptorView>,
    linked: Option<LinkedView>,
    kind: FieldKind,
    payload: Payload,
    depth: nat,
)
    requires
        sound_schema(schema),
        !(kind is MapOf),
        holds_elements(kind, payload.wire()),
        decoded_elements(schema, linked, kind, payload, depth) is Ok,
    ensures
        forall|i: int|
            0 <= i < decoded_elements(schema, linked, kind, payload, depth)->Ok_0.len()
                ==> value_typed(
                schema,
                linked,
                kind,
                #[trigger] decoded_elements(schema, linked, kind, payload, depth)->Ok_0[i],
                depth,
            ),
    decreases level(depth), 2nat, 0nat,
{
    if packed(kind) && payload is Len {
        lemma_packed_typed(schema, linked, kind, payload->Len_0, Seq::empty(), depth);
    } else {
        lemma_value_typed(schema, linked, kind, payload, depth);
    }
}

/// One more field keeps a decoding on track.
proof fn lemma_field_on_track(
    schema: Seq<DescriptorView>,
    desc: DescriptorView,
    wire_field: WireField,
    raw: Seq<u8>,
    so_far: Decoding,
    depth: nat,
)
    requires
        sound_schema(schema),
        sound(desc),
        on_track(schema, desc, so_far, depth),
        with_field(schema, desc, wire_field, raw, so_far, depth) is Ok,
        unknown_field(desc, wire_field) ==> all_unknown(desc, raw),
    ensures
        on_track(
            schema,
            desc,
            with_field(schema, desc, wire_field, raw, so_far, depth)->Ok_0,
            depth,
        ),
    decreases level(depth), 3nat, 0nat,
{
    let payload = wire_field.payload;
    let fields = desc.message.fields;
    lemma_field_from(fields, wire_field.number, 0);
    if unknown_field(desc, wire_field) {
        lemma_unknown_append(desc, so_far.unknown, raw);
        lemma_with_unknown(schema, desc, wire_field, raw, so_far, depth);
    } else {
        let i = field_at(fields, wire_field.number)->0 as int;
        let field = fields[i];
        let linked = desc.linked_ref(field.number);
        assert(field_typed(schema, linked, field, so_far.fields[i], depth));
        if field.kind is MapOf {
            let key = field.kind->key;
            let value = field.kind->value;
            let entry = payload->Len_0;
            let entries = so_far.fields[i]->Entries_0;
            lemma_with_entry(schema, desc, i, entry, raw, so_far, depth);
            lemma_entry_typed(schema, linked, key, value, entry, depth);
            let (k, v) = decoded_entry(schema, linked, key, value, entry, depth)->Ok_0;
            lemma_put_typed(schema, linked, field, entries, k, v, depth);
            lemma_set_on_track(
                schema,
                desc,
                i,
                FieldModel::Entries(put(entries, k, v)),
                so_far,
                depth,
            );
        } else if field.label == Label::Repeated {
            let list = so_far.fields[i]->List_0;
            lemma_with_repeated(schema, desc, i, payload, raw, so_far, depth);
            lemma_elements_typed(schema, linked, field.kind, payload, depth);
            let elements = decoded_elements(schema, linked, field.kind, payload, depth)->Ok_0;
            lemma_set_on_track(
                schema,
                desc,
                i,
                FieldModel::List(list + elements),
                so_far,
                depth,
            );
        } else {
            lemma_with_single(schema, desc, i, payload, raw, so_far, depth);
            lemma_value_typed(schema, linked, field.kind, payload, depth);
            let value = decoded_value(schema, linked, field.kind, payload, depth)->Ok_0;
            lemma_set_on_track(schema, desc, i, FieldModel::One(value), so_far, depth);
        }
    }
}

/// More fields keep a decoding on track.
proof fn lemma_fields_on_track(
    schema: Seq<DescriptorView>,
    desc: DescriptorView,
    s: Seq<u8>,
    so_far: Decoding,
    depth: nat,
)
    requires
        sound_schema(schema),
        sound(desc),
        on_track(schema, desc, so_far, depth),
        with_fields(schema, desc, s, so_far, depth) is Ok,
    ensures
        on_track(schema, desc, with_fields(schema, desc, s, so_far, depth)->Ok_0, depth),
    decreases level(depth), 4nat, s.len(),
{
    if s.len() > 0 {
        lemma_field_used(s);
        lemma_with_next(schema, desc, s, so_far, depth);
        let wire_field = field_in(s).result->Ok_0;
        if unknown_field(desc, wire_field) {
            lemma_unknown_one(desc, s);
        }
        lemma_field_on_track(
            schema,
            desc,
            wire_field,
            s.take(field_in(s).used as int),
            so_far,
            depth,
        );
        lemma_fields_on_track(
            schema,
            desc,
            s.skip(field_in(s).used as int),
            with_next(schema, desc, s, so_far, depth)->Ok_0,
            depth,
        );
    }
}

/// A group whose set members are all its owner has at most one.
proof fn lemma_one_member(
    schema: Seq<DescriptorView>,
    desc: DescriptorView,
    so_far: Decoding,
    group: int,
    n: nat,
    depth: nat,
)
    requires
        on_track(schema, desc, so_far, depth),
        n <= desc.message.fields.len(),
    ensures
        members_set(desc.message.fields, so_far.fields, group, n) <= 1,
        members_set(desc.message.fields, so_far.fields, group, n) == 1 ==> {
            &&& 0 <= group <= u32::MAX
            &&& so_far.owners.contains_key(group as u32)
            &&& so_far.owners[group as u32] < n
        },
    decreases n,
{
    if n > 0 {
        lemma_one_member(schema, desc, so_far, group, (n - 1) as nat, depth);
        let value = so_far.fields[n - 1];
        if sets_member(desc.message.fields[n - 1], value, group) {
            assert(value != FieldModel::Absent);
        }
    }
}

/// A decoded message has the types of its descriptor; of each oneof group, at
/// most one member is set (the last one on the wire wins); and what it keeps as
/// unknown are fields that the schema does not know.
pub proof fn law_decoded_typed(
    schema: Seq<DescriptorView>,
    class: usize,
    index: usize,
    s: Seq<u8>,
    depth: nat,
)
    requires
        sound_schema(schema),
        index < schema.len(),
        decoded(schema, class, index, s, depth) is Ok,
    ensures
        typed(schema, index, decoded(schema, class, index, s, depth)->Ok_0, depth),
    decreases level(depth), 5nat, 0nat,
{
    let desc = schema[index as int];
    let start = nothing_decoded(desc.message.fields);
    lemma_start_on_track(schema, desc, depth);
    lemma_fields_on_track(schema, desc, s, start, depth);
    let done = with_fields(schema, desc, s, start, depth)->Ok_0;
    assert forall|group: int|
        #[trigger] members_set(
            desc.message.fields,
            done.fields,
            group,
            desc.message.fields.len(),
        ) <= 1 by {
        lemma_one_member(schema, desc, done, group, desc.message.fields.len(), depth);
    }
}

/// The last member of a oneof group on the wire wins: once it is decoded, it
/// is set and every other member of the group is not.
pub proof fn law_last_member_wins(
    schema: Seq<DescriptorView>,
    desc: DescriptorView,
    s: Seq<u8>,
    i: int,
    payload: Payload,
    depth: nat,
)
    requires
        sound_schema(schema),
        sound(desc),
        0 <= i < desc.message.fields.len(),
        desc.message.fields[i].oneof_index is Some,
        payload.wire() == kind_wire(desc.message.fields[i].kind),
        writable(WireField { number: desc.message.fields[i].number, payload }),
        with_fields(schema, desc, s, nothing_decoded(desc.message.fields), depth) is Ok,
    ensures
        ({
            let fields = desc.message.fields;
            let linked = desc.linked_ref(fields[i].number);
            let member = field_bytes(WireField { number: fields[i].number, payload });
            match decoded_value(schema, linked, fields[i].kind, payload, depth) {
                Err(error) => with_fields(
                    schema,
                    desc,
                    s + member,
                    nothing_decoded(fields),
                    depth,
                ) == Err::<Decoding, DecodeError>(error),
                Ok(value) => {
                    &&& with_fields(
                        schema,
                        desc,
                        s + member,
                        nothing_decoded(fields),
                        depth,
                    ) matches Ok(done)
                    &&& done.fields[i] == FieldModel::One(value)
                    &&& forall|j: int|
                        0 <= j < fields.len() && j != i && (#[trigger] fields[j]).oneof_index
                            == fields[i].oneof_index ==> done.fields[j] == FieldModel::Absent
                },
            }
        }),
{
    let fields = desc.message.fields;
    let start = nothing_decoded(fields);
    let wire_field = WireField { number: fields[i].number, payload };
    let member = field_bytes(wire_field);
    let before = with_fields(schema, desc, s, start, depth)->Ok_0;
    lemma_start_on_track(schema, desc, depth);
    lemma_fields_on_track(schema, desc, s, start, depth);
    law_fields_append(schema, desc, s, member, start, depth);
    assert(member + Seq::<u8>::empty() =~= member);
    lemma_step(schema, desc, wire_field, Seq::empty(), before, depth);
    lemma_with_single(schema, desc, i, payload, member, before, depth);
    assert(i as usize == i);
    if let Ok(value) = decoded_value(
        schema,
        desc.linked_ref(fields[i].number),
        fields[i].kind,
        payload,
        depth,
    ) {
        let done = before.claim(fields[i].oneof_index, i as usize).set(
            i as usize,
            FieldModel::One(value),
        );
        assert(with_fields(schema, desc, Seq::empty(), done, depth) == Ok::<Decoding, DecodeError>(
            done,
        ));
        assert forall|j: int|
            0 <= j < fields.len() && j != i && (#[trigger] fields[j]).oneof_index
                == fields[i].oneof_index implies done.fields[j] == FieldModel::Absent by {
            if before.fields[j] != FieldModel::Absent {
                assert(before.owners[fields[i].oneof_index->0] == j);
            }
        }
    }
}

/// A decoding starts on track.
proof fn lemma_start_on_track(schema: Seq<DescriptorView>, desc: DescriptorView, depth: nat)
    requires
        sound(desc),
    ensures
        on_track(schema, desc, nothing_decoded(desc.message.fields), depth),
{
    assert(all_unknown(desc, Seq::empty()));
}

// ---------------------------------------------------------------------------
// Typed messages can be encoded
// ---------------------------------------------------------------------------

/// A descriptor whose fields without explicit presence are scalars, enums and
/// maps: those that have a default.
pub open spec fn defaulted(desc: DescriptorView) -> bool {
    forall|i: int|
        0 <= i < desc.message.fields.len() && (#[trigger] desc.message.fields[i]).label
            == Label::Single ==> desc.message.fields[i].kind is Scalar
            || desc.message.fields[i].kind is Enum || desc.message.fields[i].kind is MapOf
}

/// The proto3 default of a scalar or an enum.
pub open spec fn default_of(kind: FieldKind) -> ValueModel {
    match kind {
        FieldKind::Scalar(scalar) => ValueModel::Scalar(zero_scalar(scalar)),
        _ => ValueModel::Enum(0),
    }
}

/// A value with the defaults of nested messages filled in.
pub open spec fn value_filled(
    schema: Seq<DescriptorView>,
    linked: Option<LinkedView>,
    value: ValueModel,
    depth: nat,
) -> ValueModel
    decreases level(depth), 0nat,
{
    match value {
        ValueModel::Message(message) => if depth < MAX_DEPTH {
            ValueModel::Message(filled(schema, linked->0.desc->0, message, depth + 1))
        } else {
            value
        },
        _ => value,
    }
}

/// A field with its default filled in, if it is absent and has one.
pub open spec fn field_filled(
    schema: Seq<DescriptorView>,
    linked: Option<LinkedView>,
    field: FieldView,
    value: FieldModel,
    depth: nat,
) -> FieldModel
    decreases level(depth), 1nat,
{
    match value {
        FieldModel::Absent => if field.label == Label::Single {
            FieldModel::One(default_of(field.kind))
        } else {
            FieldModel::Absent
        },
        FieldModel::One(one) => FieldModel::One(value_filled(schema, linked, one, depth)),
        FieldModel::List(values) => FieldModel::List(
            Seq::new(values.len(), |i: int| value_filled(schema, linked, values[i], depth)),
        ),
        FieldModel::Entries(entries) => FieldModel::Entries(
            Seq::new(
                entries.len(),
                |i: int| (entries[i].0, value_filled(schema, linked, entries[i].1, depth)),
            ),
        ),
    }
}

/// A message with every absent field that has a proto3 default set to it, as
/// the constructor of its class does.
pub open spec fn filled(
    schema: Seq<DescriptorView>,
    index: usize,
    message: MessageModel,
    depth: nat,
) -> MessageModel
    decreases level(depth), 2nat,
{
    let desc = schema[index as int];
    MessageModel {
        fields: Seq::new(
            message.fields.len(),
            |i: int|
                field_filled(
                    schema,
                    desc.linked_ref(desc.message.fields[i].number),
                    desc.message.fields[i],
                    message.fields[i],
                    depth,
                ),
        ),
        ..message
    }
}

/// Every descriptor of the schema is one by which messages can be encoded.
pub open spec fn encodable_schema(schema: Seq<DescriptorView>) -> bool {
    &&& sound_schema(schema)
    &&& forall|i: int| 0 <= i < schema.len() ==> defaulted(#[trigger] schema[i])
}

/// A typed value has a payload.
proof fn lemma_value_encodes(
    schema: Seq<DescriptorView>,
    linked: Option<LinkedView>,
    kind: FieldKind,
    value: ValueModel,
    depth: nat,
)
    requires
        encodable_schema(schema),
        value_typed(schema, linked, kind, value, depth),
    ensures
        value_payload(schema, linked, kind, value_filled(schema, linked, value, depth), depth)
            is Ok,
        value_canonical(schema, linked, value_filled(schema, linked, value, depth), depth),
    decreases level(depth), 0nat, 0nat,
{
    match (kind, value) {
        (FieldKind::Message, ValueModel::Message(message)) => {
            law_typed_encodes(schema, linked->0.desc->0, message, depth + 1);
        },
        _ => {},
    }
}

/// The first `n` of typed elements have bytes.
proof fn lemma_elements_encode(
    schema: Seq<DescriptorView>,
    linked: Option<LinkedView>,
    number: u32,
    kind: FieldKind,
    values: Seq<ValueModel>,
    full: Seq<ValueModel>,
    n: nat,
    depth: nat,
)
    requires
        encodable_schema(schema),
        n <= values.len() == full.len(),
        forall|i: int|
            0 <= i < values.len() ==> value_typed(schema, linked, kind, #[trigger] values[i], depth),
        forall|i: int|
            0 <= i < full.len() ==> #[trigger] full[i] == value_filled(
                schema,
                linked,
                values[i],
                depth,
            ),
    ensures
        elements_bytes(schema, linked, number, kind, full, n, depth) is Ok,
        forall|i: int| 0 <= i < n ==> value_canonical(schema, linked, #[trigger] full[i], depth),
    decreases level(depth), 1nat, n,
{
    if n > 0 {
        lemma_elements_encode(
            schema,
            linked,
            number,
            kind,
            values,
            full,
            (n - 1) as nat,
            depth,
        );
        lemma_value_encodes(schema, linked, kind, values[n - 1], depth);
        assert(full[n - 1] == value_filled(schema, linked, values[n - 1], depth));
    }
}

/// The first `n` of typed map entries have bytes.
proof fn lemma_entries_encode(
    schema: Seq<DescriptorView>,
    linked: Option<LinkedView>,
    number: u32,
    key: ScalarType,
    value: MapValue,
    entries: Seq<(ScalarModel, ValueModel)>,
    full: Seq<(ScalarModel, ValueModel)>,
    n: nat,
    depth: nat,
)
    requires
        encodable_schema(schema),
        n <= entries.len() == full.len(),
        forall|i: int|
            0 <= i < entries.len() ==> scalar_payload(key, (#[trigger] entries[i]).0) is Some,
        forall|i: int|
            0 <= i < entries.len() ==> value_typed(
                schema,
                linked,
                kind_of_value(value),
                (#[trigger] entries[i]).1,
                depth,
            ),
        forall|i: int|
            0 <= i < full.len() ==> #[trigger] full[i] == (
                entries[i].0,
                value_filled(schema, linked, entries[i].1, depth),
            ),
    ensures
        entries_bytes(schema, linked, number, key, value, full, n, depth) is Ok,
        forall|i: int|
            0 <= i < n ==> value_canonical(schema, linked, (#[trigger] full[i]).1, depth),
    decreases level(depth), 1nat, n,
{
    if n > 0 {
        lemma_entries_encode(
            schema,
            linked,
            number,
            key,
            value,
            entries,
            full,
            (n - 1) as nat,
            depth,
        );
        assert(full[n - 1] == (
            entries[n - 1].0,
            value_filled(schema, linked, entries[n - 1].1, depth),
        ));
        lemma_value_encodes(schema, linked, kind_of_value(value), entries[n - 1].1, depth);
    }
}

/// A typed field has bytes.
proof fn lemma_field_encodes(
    schema: Seq<DescriptorView>,
    desc: DescriptorView,
    i: int,
    value: FieldModel,
    depth: nat,
)
    requires
        encodable_schema(schema),
        defaulted(desc),
        0 <= i < desc.message.fields.len(),
        field_typed(
            schema,
            desc.linked_ref(desc.message.fields[i].number),
            desc.message.fields[i],
            value,
            depth,
        ),
    ensures
        field_value_bytes(
            schema,
            desc,
            desc.message.fields[i],
            field_filled(
                schema,
                desc.linked_ref(desc.message.fields[i].number),
                desc.message.fields[i],
                value,
                depth,
            ),
            depth,
        ) is Ok,
        field_canonical(
            schema,
            desc.linked_ref(desc.message.fields[i].number),
            field_filled(
                schema,
                desc.linked_ref(desc.message.fields[i].number),
                desc.message.fields[i],
                value,
                depth,
            ),
            depth,
        ),
    decreases level(depth), 2nat, 0nat,
{
    let field = desc.message.fields[i];
    let linked = desc.linked_ref(field.number);
    let full = field_filled(schema, linked, field, value, depth);
    match value {
        FieldModel::Absent => {},
        FieldModel::One(one) => lemma_value_encodes(schema, linked, field.kind, one, depth),
        FieldModel::List(values) => {
            lemma_elements_encode(
                schema,
                linked,
                field.number,
                field.kind,
                values,
                full->List_0,
                values.len(),
                depth,
            );
        },
        FieldModel::Entries(entries) => {
            lemma_entries_encode(
                schema,
                linked,
                field.number,
                field.kind->key,
                field.kind->value,
                entries,
                full->Entries_0,
                entries.len(),
                depth,
            );
            assert(distinct_keys(full->Entries_0));
        },
    }
}

/// The first `n` fields of a typed message have bytes.
proof fn lemma_fields_encode(
    schema: Seq<DescriptorView>,
    index: usize,
    message: MessageModel,
    n: nat,
    depth: nat,
)
    requires
        encodable_schema(schema),
        index < schema.len(),
        typed(schema, index, message, depth),
        n <= schema[index as int].message.fields.len(),
    ensures
        fields_bytes(
            schema,
            schema[index as int],
            filled(schema, index, message, depth).fields,
            n,
            depth,
        ) is Ok,
        forall|i: int|
            0 <= i < n ==> field_canonical(
                schema,
                schema[index as int].linked_ref(schema[index as int].message.fields[i].number),
                #[trigger] filled(schema, index, message, depth).fields[i],
                depth,
            ),
    decreases level(depth), 3nat, n,
{
    if n > 0 {
        let desc = schema[index as int];
        lemma_fields_encode(schema, index, message, (n - 1) as nat, depth);
        assert(field_typed(
            schema,
            desc.linked_ref(desc.message.fields[n - 1].number),
            desc.message.fields[n - 1],
            message.fields[n - 1],
            depth,
        ));
        lemma_field_encodes(schema, desc, n - 1, message.fields[n - 1], depth);
    }
}

/// Filling in defaults sets no member of a oneof group.
proof fn lemma_filled_members(
    schema: Seq<DescriptorView>,
    index: usize,
    message: MessageModel,
    group: int,
    n: nat,
    depth: nat,
)
    requires
        n <= message.fields.len(),
    ensures
        members_set(
            schema[index as int].message.fields,
            filled(schema, index, message, depth).fields,
            group,
            n,
        ) == members_set(schema[index as int].message.fields, message.fields, group, n),
    decreases n,
{
    if n > 0 {
        lemma_filled_members(schema, index, message, group, (n - 1) as nat, depth);
    }
}

/// With at most one set member in each group there is no conflict.
proof fn lemma_conflict_free(
    index: usize,
    desc: DescriptorView,
    values: Seq<FieldModel>,
    start: nat,
)
    requires
        forall|group: int|
            #[trigger] members_set(
                desc.message.fields,
                values,
                group,
                desc.message.fields.len(),
            ) <= 1,
    ensures
        first_conflict(index, desc, values, start) is None,
    decreases desc.message.oneofs.len() - start,
{
    if start < desc.message.oneofs.len() {
        lemma_conflict_free(index, desc, values, start + 1);
    }
}

/// A typed message, with its defaults filled in, can be encoded and comes back
/// from its bytes.
pub proof fn law_typed_encodes(
    schema: Seq<DescriptorView>,
    index: usize,
    message: MessageModel,
    depth: nat,
)
    requires
        encodable_schema(schema),
        index < schema.len(),
        depth <= MAX_DEPTH,
        typed(schema, index, message, depth),
    ensures
        message_bytes(schema, index, filled(schema, index, message, depth), depth) is Ok,
        canonical(schema, index, filled(schema, index, message, depth), depth),
    decreases level(depth), 4nat, 0nat,
{
    let desc = schema[index as int];
    let full = filled(schema, index, message, depth);
    lemma_fields_encode(schema, index, message, desc.message.fields.len(), depth);
    assert forall|group: int|
        #[trigger] members_set(
            desc.message.fields,
            full.fields,
            group,
            desc.message.fields.len(),
        ) <= 1 by {
        lemma_filled_members(
            schema,
            index,
            message,
            group,
            desc.message.fields.len(),
            depth,
        );
    }
    lemma_conflict_free(index, desc, full.fields, 0);
}

/// A message that was decoded can be encoded again, once the defaults of its
/// absent fields are filled in. Its unknown fields come last in the new bytes,
/// as they stood; and the new bytes decode to the same message, but for
/// defaults that need not be on the wire.
pub proof fn law_decoded_encodes(
    schema: Seq<DescriptorView>,
    class: usize,
    index: usize,
    s: Seq<u8>,
    depth: nat,
)
    requires
        encodable_schema(schema),
        index < schema.len(),
        decoded(schema, class, index, s, depth) is Ok,
    ensures
        ({
            let message = decoded(schema, class, index, s, depth)->Ok_0;
            let full = filled(schema, index, message, depth);
            &&& message_bytes(schema, index, full, depth) matches Ok(bytes)
            &&& message.unknown.len() <= bytes.len()
            &&& bytes.skip(bytes.len() - message.unknown.len()) == message.unknown
            &&& bytes.len() <= u64::MAX ==> decoded(schema, class, index, bytes, depth) == Ok::<
                MessageModel,
                DecodeError,
            >(message_back(schema, class, index, full, depth))
        }),
{
    law_decoded_typed(schema, class, index, s, depth);
    let message = decoded(schema, class, index, s, depth)->Ok_0;
    let full = filled(schema, index, message, depth);
    law_typed_encodes(schema, index, message, depth);
    let bytes = message_bytes(schema, index, full, depth)->Ok_0;
    assert(bytes.skip(bytes.len() - message.unknown.len()) =~= message.unknown);
    if bytes.len() <= u64::MAX {
        crate::codec_laws::law_message_round_trip(schema, class, index, full, depth);
    }
}

// ---------------------------------------------------------------------------
// The round trip, with defaults filled in
// ---------------------------------------------------------------------------

/// If elements have bytes, each of them has.
proof fn lemma_element_ok(
    schema: Seq<DescriptorView>,
    linked: Option<LinkedView>,
    number: u32,
    kind: FieldKind,
    values: Seq<ValueModel>,
    n: nat,
    depth: nat,
)
    requires
        elements_bytes(schema, linked, number, kind, values, n, depth) is Ok,
    ensures
        forall|i: int|
            0 <= i < n ==> value_payload(schema, linked, kind, #[trigger] values[i], depth) is Ok,
    decreases n,
{
    if n > 0 {
        lemma_element_ok(schema, linked, number, kind, values, (n - 1) as nat, depth);
    }
}

/// If map entries have bytes, each of their values has.
proof fn lemma_entry_ok(
    schema: Seq<DescriptorView>,
    linked: Option<LinkedView>,
    number: u32,
    key: ScalarType,
    value: MapValue,
    entries: Seq<(ScalarModel, ValueModel)>,
    n: nat,
    depth: nat,
)
    requires
        entries_bytes(schema, linked, number, key, value, entries, n, depth) is Ok,
    ensures
        forall|i: int|
            0 <= i < n ==> value_payload(
                schema,
                linked,
                kind_of_value(value),
                (#[trigger] entries[i]).1,
                depth,
            ) is Ok,
    decreases n,
{
    if n > 0 {
        lemma_entry_ok(schema, linked, number, key, value, entries, (n - 1) as nat, depth);
    }
}

/// If fields have bytes, each of them has.
proof fn lemma_field_ok(
    schema: Seq<DescriptorView>,
    desc: DescriptorView,
    values: Seq<FieldModel>,
    n: nat,
    depth: nat,
)
    requires
        fields_bytes(schema, desc, values, n, depth) is Ok,
    ensures
        forall|i: int|
            0 <= i < n ==> field_value_bytes(
                schema,
                desc,
                desc.message.fields[i],
                #[trigger] values[i],
                depth,
            ) is Ok,
    decreases n,
{
    if n > 0 {
        lemma_field_ok(schema, desc, values, (n - 1) as nat, depth);
    }
}

/// A value that comes back is the value, once defaults are filled in.
proof fn lemma_value_restored(
    schema: Seq<DescriptorView>,
    linked: Option<LinkedView>,
    kind: FieldKind,
    value: ValueModel,
    depth: nat,
)
    requires
        value_canonical(schema, linked, value, depth),
        value_payload(schema, linked, kind, value, depth) is Ok,
    ensures
        value_filled(schema, linked, value_back(schema, linked, value, depth), depth) == value,
    decreases level(depth), 0nat,
{
    if let ValueModel::Message(message) = value {
        lemma_message_restored(
            schema,
            linked->0.class,
            linked->0.desc->0,
            message,
            depth + 1,
        );
    }
}

/// A field that comes back is the field, once defaults are filled in.
proof fn lemma_field_restored(
    schema: Seq<DescriptorView>,
    desc: DescriptorView,
    field: FieldView,
    value: FieldModel,
    depth: nat,
)
    requires
        field_canonical(schema, desc.linked_ref(field.number), value, depth),
        field_value_bytes(schema, desc, field, value, depth) is Ok,
    ensures
        field_filled(
            schema,
            desc.linked_ref(field.number),
            field,
            field_back(schema, desc.linked_ref(field.number), field, value, depth),
            depth,
        ) == value,
    decreases level(depth), 1nat,
{
    let linked = desc.linked_ref(field.number);
    let back = field_back(schema, linked, field, value, depth);
    let full = field_filled(schema, linked, field, back, depth);
    match value {
        FieldModel::Absent => {},
        FieldModel::One(one) => {
            if !(field.label == Label::Single && is_default(field.kind, one)) {
                lemma_value_restored(schema, linked, field.kind, one, depth);
            }
        },
        FieldModel::List(values) => {
            lemma_element_ok(
                schema,
                linked,
                field.number,
                field.kind,
                values,
                values.len(),
                depth,
            );
            assert forall|i: int| 0 <= i < values.len() implies #[trigger] full->List_0[i]
                == values[i] by {
                lemma_value_restored(schema, linked, field.kind, values[i], depth);
            }
            assert(full->List_0 =~= values);
        },
        FieldModel::Entries(entries) => {
            lemma_entry_ok(
                schema,
                linked,
                field.number,
                field.kind->key,
                field.kind->value,
                entries,
                entries.len(),
                depth,
            );
            assert forall|i: int| 0 <= i < entries.len() implies #[trigger] full->Entries_0[i]
                == entries[i] by {
                lemma_value_restored(
                    schema,
                    linked,
                    kind_of_value(field.kind->value),
                    entries[i].1,
                    depth,
                );
            }
            assert(full->Entries_0 =~= entries);
        },
    }
}

/// A message that comes back is the message, once defaults are filled in.
proof fn lemma_message_restored(
    schema: Seq<DescriptorView>,
    class: usize,
    index: usize,
    message: MessageModel,
    depth: nat,
)
    requires
        canonical(schema, index, message, depth),
        message_bytes(schema, index, message, depth) is Ok,
    ensures
        filled(schema, index, message_back(schema, class, index, message, depth), depth) == (
        MessageModel { class, own: Some(index), ..message }),
    decreases level(depth), 2nat,
{
    let desc = schema[index as int];
    let back = message_back(schema, class, index, message, depth);
    let full = filled(schema, index, back, depth);
    lemma_field_ok(schema, desc, message.fields, desc.message.fields.len(), depth);
    assert forall|i: int| 0 <= i < message.fields.len() implies #[trigger] full.fields[i]
        == message.fields[i] by {
        assert(field_canonical(
            schema,
            desc.linked_ref(desc.message.fields[i].number),
            message.fields[i],
            depth,
        ));
        assert(field_value_bytes(
            schema,
            desc,
            desc.message.fields[i],
            message.fields[i],
            depth,
        ) is Ok);
        lemma_field_restored(schema, desc, desc.message.fields[i], message.fields[i], depth);
    }
    assert(full.fields =~= message.fields);
}

/// Decoding undoes encoding: what the bytes of a message decode to, with the
/// defaults of absent fields filled in, is the message itself -- every field,
/// nested messages with theirs, and the unknown fields.
pub proof fn law_encode_decode(
    schema: Seq<DescriptorView>,
    index: usize,
    message: MessageModel,
    depth: nat,
)
    requires
        index < schema.len(),
        message.own == Some(index),
        canonical(schema, index, message, depth),
        message_bytes(schema, index, message, depth) is Ok,
        message_bytes(schema, index, message, depth)->Ok_0.len() <= u64::MAX,
    ensures
        decoded(
            schema,
            message.class,
            index,
            message_bytes(schema, index, message, depth)->Ok_0,
            depth,
        ) matches Ok(back) && filled(schema, index, back, depth) == message,
{
    crate::codec_laws::law_message_round_trip(schema, message.class, index, message, depth);
    lemma_message_restored(schema, message.class, index, message, depth);
}

} // verus!
