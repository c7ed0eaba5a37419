//! What the events of a decoded message come to: carried out one after the
//! other, they build the message that its bytes stand for, and no later bytes
//! take an event back.
use vstd::prelude::*;

use crate::arrival::{
    arrival_of, claim_events, elements_events, entry_arrival, entry_events,
    field_events, fields_events, hold_events, omitted_arrival, outcome, packed_events,
    ArrivedModel, DecodedModel, EventModel,
};
use crate::codec_laws::canonical;
use crate::decode::{
    decoded, decoded_elements, decoded_entry, decoded_value, entry_fields, holds_elements,
    kind_wire, lemma_next_events, lemma_payload_progress, lemma_with_next, next_events,
    nothing_decoded, omitted_value, packed_values, with_entry_field, with_field, with_fields,
    with_next, Decoding,
};
use crate::decode_laws::{filled, law_encode_decode};
use crate::descriptor::{
    field_at, lemma_field_from, FieldKind, Label, MapValue, ScalarType, MAX_DEPTH,
};
use crate::encode::{kind_of_value, level, message_bytes, packed};
use crate::entries::put;
use crate::message::{DescriptorView, LinkedView};
use crate::value::{FieldModel, MessageModel, ScalarModel, ValueModel};
use crate::wire::{field_in, lemma_field_used, payload_in, Payload, WireField};
use crate::wire_laws::law_field_prefix;

verus! {

// ---------------------------------------------------------------------------
// Carrying out events
// ---------------------------------------------------------------------------

/// A message as far as its events have been carried out.
#[verifier::ext_equal]
pub struct Assembly {
    pub fields: Seq<FieldModel>,
    /// The value held for the current entry of a map field.
    pub held: Option<ValueModel>,
}

impl Assembly {
    /// With what a field holds replaced.
    pub open spec fn set(self, field: usize, value: FieldModel) -> Assembly {
        Assembly { fields: self.fields.update(field as int, value), ..self }
    }
}

/// The value that has arrived.
pub open spec fn value_arrived(
    schema: Seq<DescriptorView>,
    arrived: ArrivedModel,
    depth: nat,
) -> ValueModel
    decreases level(depth), 0nat, 0nat,
{
    match arrived {
        ArrivedModel::Plain(value) => value,
        ArrivedModel::Message(nested) => if depth < MAX_DEPTH {
            ValueModel::Message(assembled(schema, nested, depth + 1))
        } else {
            arbitrary()
        },
    }
}

/// A message after one more event.
pub open spec fn with_event(
    schema: Seq<DescriptorView>,
    so_far: Assembly,
    event: EventModel,
    depth: nat,
) -> Assembly
    decreases level(depth), 1nat, 0nat,
{
    match event {
        EventModel::Clear { field } => so_far.set(field, FieldModel::Absent),
        EventModel::Store { field, value } => so_far.set(
            field,
            FieldModel::One(value_arrived(schema, value, depth)),
        ),
        EventModel::Append { field, value } => match so_far.fields[field as int] {
            FieldModel::List(list) => so_far.set(
                field,
                FieldModel::List(list.push(value_arrived(schema, value, depth))),
            ),
            _ => so_far,
        },
        EventModel::Hold { field: _, value } => Assembly {
            held: Some(value_arrived(schema, value, depth)),
            ..so_far
        },
        EventModel::Put { field, key } => match (so_far.fields[field as int], so_far.held) {
            (FieldModel::Entries(entries), Some(value)) => so_far.set(
                field,
                FieldModel::Entries(put(entries, key, value)),
            ),
            _ => so_far,
        },
    }
}

/// A message after several events.
#[verifier::opaque]
pub open spec fn with_events(
    schema: Seq<DescriptorView>,
    so_far: Assembly,
    events: Seq<EventModel>,
    depth: nat,
) -> Assembly
    decreases level(depth), 2nat, events.len(),
{
    if events.len() == 0 {
        so_far
    } else {
        with_event(
            schema,
            with_events(schema, so_far, events.drop_last(), depth),
            events.last(),
            depth,
        )
    }
}

/// The message that the events of a decoded message build.
pub open spec fn assembled(
    schema: Seq<DescriptorView>,
    decoded: DecodedModel,
    depth: nat,
) -> MessageModel
    decreases level(depth), 3nat, 0nat,
{
    let nothing = Assembly {
        fields: nothing_decoded(schema[decoded.index as int].message.fields).fields,
        held: None,
    };
    MessageModel {
        class: decoded.class,
        own: Some(decoded.index),
        fields: with_events(schema, nothing, decoded.events, depth).fields,
        unknown: decoded.unknown,
    }
}

/// Whether the fields of every descriptor can be given by index.
pub open spec fn addressable(schema: Seq<DescriptorView>) -> bool {
    forall|i: int|
        0 <= i < schema.len() ==> (#[trigger] schema[i]).message.fields.len() <= usize::MAX
}

// ---------------------------------------------------------------------------
// Proofs
// ---------------------------------------------------------------------------

/// Events are carried out one after the other.
proof fn lemma_events_append(
    schema: Seq<DescriptorView>,
    so_far: Assembly,
    first: Seq<EventModel>,
    second: Seq<EventModel>,
    depth: nat,
)
    ensures
        with_events(schema, so_far, first + second, depth) == with_events(
            schema,
            with_events(schema, so_far, first, depth),
            second,
            depth,
        ),
    decreases second.len(),
{
    reveal(with_events);
    if second.len() == 0 {
        assert(first + second =~= first);
    } else {
        lemma_events_append(schema, so_far, first, second.drop_last(), depth);
        assert((first + second).drop_last() =~= first + second.drop_last());
        assert((first + second).last() == second.last());
    }
}

/// Carrying out no event changes nothing.
proof fn lemma_no_events(schema: Seq<DescriptorView>, so_far: Assembly, depth: nat)
    ensures
        with_events(schema, so_far, Seq::empty(), depth) == so_far,
{
    reveal(with_events);
}

proof fn lemma_one_event(
    schema: Seq<DescriptorView>,
    so_far: Assembly,
    event: EventModel,
    depth: nat,
)
    ensures
        with_events(schema, so_far, seq![event], depth) == with_event(
            schema,
            so_far,
            event,
            depth,
        ),
{
    reveal(with_events);
    assert(seq![event].drop_last() =~= Seq::empty());
    assert(with_events(schema, so_far, seq![event].drop_last(), depth) == so_far);
}

/// The value that arrives is the one that the payload stands for.
proof fn lemma_value_arrives(
    schema: Seq<DescriptorView>,
    linked: Option<LinkedView>,
    kind: FieldKind,
    payload: Payload,
    depth: nat,
)
    requires
        addressable(schema),
        decoded_value(schema, linked, kind, payload, depth) is Ok,
    ensures
        arrival_of(schema, linked, kind, payload, depth) matches Some(arrived) && value_arrived(
            schema,
            arrived,
            depth,
        ) == decoded_value(schema, linked, kind, payload, depth)->Ok_0,
    decreases level(depth), 0nat, 0nat,
{
    if let (FieldKind::Message, Payload::Len(bytes)) = (kind, payload) {
        let linked = linked->0;
        law_events_build_message(schema, linked.class, linked.desc->0, bytes, depth + 1);
    }
}

/// The events of packed elements append the elements.
proof fn lemma_packed_arrive(
    schema: Seq<DescriptorView>,
    linked: Option<LinkedView>,
    kind: FieldKind,
    field: usize,
    s: Seq<u8>,
    seen: Seq<ValueModel>,
    base: Seq<ValueModel>,
    so_far: Assembly,
    depth: nat,
)
    requires
        addressable(schema),
        packed_values(schema, linked, kind, s, seen, depth) is Ok,
        field < so_far.fields.len(),
        so_far.fields[field as int] == FieldModel::List(base + seen),
    ensures
        with_events(
            schema,
            so_far,
            packed_events(schema, linked, kind, field, s, depth),
            depth,
        ) == so_far.set(
            field,
            FieldModel::List(
                base + packed_values(schema, linked, kind, s, seen, depth)->Ok_0,
            ),
        ),
    decreases level(depth), 1nat, s.len(),
{
    lemma_no_events(schema, so_far, depth);
    if s.len() == 0 {
        assert(so_far.set(field, so_far.fields[field as int]) =~= so_far);
    } else {
        lemma_payload_progress(s, kind_wire(kind));
        let payload = payload_in(s, kind_wire(kind)).result->Ok_0;
        let rest = s.skip(payload_in(s, kind_wire(kind)).used as int);
        lemma_value_arrives(schema, linked, kind, payload, depth);
        let arrived = arrival_of(schema, linked, kind, payload, depth)->0;
        let value = decoded_value(schema, linked, kind, payload, depth)->Ok_0;
        let event = EventModel::Append { field, value: arrived };
        let next = so_far.set(field, FieldModel::List((base + seen).push(value)));
        assert((base + seen).push(value) =~= base + seen.push(value));
        lemma_one_event(schema, so_far, event, depth);
        lemma_events_append(
            schema,
            so_far,
            seq![event],
            packed_events(schema, linked, kind, field, rest, depth),
            depth,
        );
        lemma_packed_arrive(
            schema,
            linked,
            kind,
            field,
            rest,
            seen.push(value),
            base,
            next,
            depth,
        );
        let all = FieldModel::List(
            base + packed_values(schema, linked, kind, s, seen, depth)->Ok_0,
        );
        assert(next.set(field, all) =~= so_far.set(field, all));
    }
}

/// Reading elements appends them, in order, to the list that they are for, and
/// changes nothing else.
pub proof fn law_elements_appended(
    schema: Seq<DescriptorView>,
    linked: Option<LinkedView>,
    kind: FieldKind,
    field: usize,
    payload: Payload,
    base: Seq<ValueModel>,
    so_far: Assembly,
    depth: nat,
)
    requires
        addressable(schema),
        decoded_elements(schema, linked, kind, payload, depth) is Ok,
        field < so_far.fields.len(),
        so_far.fields[field as int] == FieldModel::List(base),
    ensures
        with_events(
            schema,
            so_far,
            elements_events(schema, linked, kind, field, payload, depth),
            depth,
        ) == so_far.set(
            field,
            FieldModel::List(
                base + decoded_elements(schema, linked, kind, payload, depth)->Ok_0,
            ),
        ),
    decreases level(depth), 2nat, 0nat,
{
    if payload is Len && packed(kind) {
        assert(base + Seq::empty() =~= base);
        lemma_packed_arrive(
            schema,
            linked,
            kind,
            field,
            payload->Len_0,
            Seq::empty(),
            base,
            so_far,
            depth,
        );
    } else {
        lemma_value_arrives(schema, linked, kind, payload, depth);
        let arrived = arrival_of(schema, linked, kind, payload, depth)->0;
        let value = decoded_value(schema, linked, kind, payload, depth)->Ok_0;
        lemma_one_event(schema, so_far, EventModel::Append { field, value: arrived }, depth);
        assert(base + seq![value] =~= base.push(value));
    }
}

/// The value of a map entry, of which `end` has been seen.
spec fn entry_value(
    schema: Seq<DescriptorView>,
    linked: Option<LinkedView>,
    value: MapValue,
    end: (Option<ScalarModel>, Option<ValueModel>),
    depth: nat,
) -> ValueModel {
    match end.1 {
        Some(value) => value,
        None => omitted_value(schema, linked, value, depth)->Ok_0,
    }
}

/// What arrives for an omitted map value is what stands for it.
proof fn lemma_omitted_arrives(
    schema: Seq<DescriptorView>,
    linked: Option<LinkedView>,
    value: MapValue,
    depth: nat,
)
    requires
        addressable(schema),
        omitted_value(schema, linked, value, depth) is Ok,
    ensures
        omitted_arrival(schema, linked, value, depth) matches Some(arrived) && value_arrived(
            schema,
            arrived,
            depth,
        ) == omitted_value(schema, linked, value, depth)->Ok_0,
    decreases level(depth), 0nat, 0nat,
{
    if value == MapValue::Message {
        let linked = linked->0;
        law_events_build_message(schema, linked.class, linked.desc->0, Seq::empty(), depth + 1);
    }
}

/// The events of a map entry leave its value held.
proof fn lemma_entry_arrives(
    schema: Seq<DescriptorView>,
    linked: Option<LinkedView>,
    key: ScalarType,
    value: MapValue,
    field: usize,
    s: Seq<u8>,
    seen: (Option<ScalarModel>, Option<ValueModel>),
    so_far: Assembly,
    depth: nat,
)
    requires
        addressable(schema),
        entry_fields(schema, linked, key, value, s, seen, depth) matches Ok(end) && (end.1 is None
            ==> omitted_value(schema, linked, value, depth) is Ok),
        seen.1 is Some ==> so_far.held == seen.1,
    ensures
        with_events(
            schema,
            so_far,
            entry_events(schema, linked, key, value, field, s, seen, depth),
            depth,
        ) == (Assembly {
            held: Some(
                entry_value(
                    schema,
                    linked,
                    value,
                    entry_fields(schema, linked, key, value, s, seen, depth)->Ok_0,
                    depth,
                ),
            ),
            ..so_far
        }),
    decreases level(depth), 1nat, s.len(),
{
    lemma_no_events(schema, so_far, depth);
    if s.len() == 0 {
        if seen.1 is None {
            lemma_omitted_arrives(schema, linked, value, depth);
            let arrived = omitted_arrival(schema, linked, value, depth)->0;
            lemma_one_event(schema, so_far, EventModel::Hold { field, value: arrived }, depth);
        }
    } else {
        lemma_field_used(s);
        let wire_field = field_in(s).result->Ok_0;
        let rest = s.skip(field_in(s).used as int);
        let next = with_entry_field(schema, linked, key, value, wire_field, seen, depth)->Ok_0;
        let later = entry_events(schema, linked, key, value, field, rest, next, depth);
        let arrival = entry_arrival(schema, linked, key, value, wire_field, depth);
        let first = hold_events(field, arrival);
        let mut after = so_far;
        if !(wire_field.number == 1 && wire_field.payload.wire() == key.wire())
            && wire_field.number == 2 && wire_field.payload.wire() == kind_wire(
            kind_of_value(value),
        ) {
            lemma_value_arrives(
                schema,
                linked,
                kind_of_value(value),
                wire_field.payload,
                depth,
            );
            lemma_one_event(
                schema,
                so_far,
                EventModel::Hold { field, value: arrival->0 },
                depth,
            );
            after = Assembly { held: next.1, ..so_far };
        }
        assert(with_events(schema, so_far, first, depth) == after);
        lemma_events_append(schema, so_far, first, later, depth);
        lemma_entry_arrives(schema, linked, key, value, field, rest, next, after, depth);
    }
}

/// Whether only fields own oneof groups.
spec fn owned(so_far: Decoding) -> bool {
    forall|group: u32| #[trigger]
        so_far.owners.contains_key(group) ==> so_far.owners[group] < so_far.fields.len()
}

/// The field that a claim of a oneof group displaces.
spec fn displaced(so_far: Decoding, group: Option<u32>, index: usize) -> Option<usize> {
    match group {
        Some(group) => if so_far.owners.contains_key(group) && so_far.owners[group] != index {
            Some(so_far.owners[group])
        } else {
            None
        },
        None => None,
    }
}

/// The events that claim a oneof group clear the field that is displaced.
proof fn lemma_claims(
    schema: Seq<DescriptorView>,
    so_far: Decoding,
    assembly: Assembly,
    group: Option<u32>,
    index: usize,
    depth: nat,
)
    ensures
        with_events(schema, assembly, claim_events(so_far, group, index), depth) == (
        match displaced(so_far, group, index) {
            Some(previous) => assembly.set(previous, FieldModel::Absent),
            None => assembly,
        }),
        so_far.claim(group, index).fields == (match displaced(so_far, group, index) {
            Some(previous) => so_far.fields.update(previous as int, FieldModel::Absent),
            None => so_far.fields,
        }),
{
    lemma_no_events(schema, assembly, depth);
    if let Some(previous) = displaced(so_far, group, index) {
        lemma_one_event(schema, assembly, EventModel::Clear { field: previous }, depth);
    }
}

/// The events of a map field put its entry.
proof fn lemma_map_arrives(
    schema: Seq<DescriptorView>,
    linked: Option<LinkedView>,
    key: ScalarType,
    value: MapValue,
    entry: Seq<u8>,
    group: Option<u32>,
    index: usize,
    so_far: Decoding,
    assembly: Assembly,
    depth: nat,
)
    requires
        addressable(schema),
        assembly.fields == so_far.fields,
        decoded_entry(schema, linked, key, value, entry, depth) is Ok,
        so_far.claim(group, index).fields[index as int] is Entries,
    ensures
        ({
            let (k, v) = decoded_entry(schema, linked, key, value, entry, depth)->Ok_0;
            let claimed = so_far.claim(group, index);
            let entries = claimed.fields[index as int]->Entries_0;
            let seen = (None::<ScalarModel>, None::<ValueModel>);
            with_events(
                schema,
                assembly,
                entry_events(schema, linked, key, value, index, entry, seen, depth) + (claim_events(
                    so_far,
                    group,
                    index,
                ) + seq![EventModel::Put { field: index, key: k }]),
                depth,
            ).fields == claimed.set(index, FieldModel::Entries(put(entries, k, v))).fields
        }),
    decreases level(depth), 2nat, 0nat,
{
    let (k, v) = decoded_entry(schema, linked, key, value, entry, depth)->Ok_0;
    let seen = (None::<ScalarModel>, None::<ValueModel>);
    let held = Assembly { held: Some(v), ..assembly };
    let events = entry_events(schema, linked, key, value, index, entry, seen, depth);
    let claims = claim_events(so_far, group, index);
    let event = EventModel::Put { field: index, key: k };
    lemma_entry_arrives(schema, linked, key, value, index, entry, seen, assembly, depth);
    lemma_claims(schema, so_far, held, group, index, depth);
    let claimed = with_events(schema, held, claims, depth);
    lemma_one_event(schema, claimed, event, depth);
    lemma_events_append(schema, held, claims, seq![event], depth);
    lemma_events_append(schema, assembly, events, claims + seq![event], depth);
}

/// The events of a repeated field append its elements.
proof fn lemma_list_arrives(
    schema: Seq<DescriptorView>,
    linked: Option<LinkedView>,
    kind: FieldKind,
    payload: Payload,
    group: Option<u32>,
    index: usize,
    so_far: Decoding,
    assembly: Assembly,
    depth: nat,
)
    requires
        addressable(schema),
        assembly.fields == so_far.fields,
        owned(so_far),
        index < so_far.fields.len(),
        decoded_elements(schema, linked, kind, payload, depth) is Ok,
        so_far.claim(group, index).fields[index as int] is List,
    ensures
        ({
            let elements = decoded_elements(schema, linked, kind, payload, depth)->Ok_0;
            let claimed = so_far.claim(group, index);
            let list = claimed.fields[index as int]->List_0;
            with_events(
                schema,
                assembly,
                elements_events(schema, linked, kind, index, payload, depth) + claim_events(
                    so_far,
                    group,
                    index,
                ),
                depth,
            ).fields == claimed.set(index, FieldModel::List(list + elements)).fields
        }),
    decreases level(depth), 3nat, 0nat,
{
    let elements = decoded_elements(schema, linked, kind, payload, depth)->Ok_0;
    let claimed = so_far.claim(group, index);
    let list = claimed.fields[index as int]->List_0;
    let events = elements_events(schema, linked, kind, index, payload, depth);
    let claims = claim_events(so_far, group, index);
    lemma_claims(schema, so_far, assembly, group, index, depth);
    assert(so_far.fields[index as int] == FieldModel::List(list));
    law_elements_appended(schema, linked, kind, index, payload, list, assembly, depth);
    let extended = assembly.set(index, FieldModel::List(list + elements));
    lemma_events_append(schema, assembly, events, claims, depth);
    lemma_claims(schema, so_far, extended, group, index, depth);
    assert(with_events(schema, extended, claims, depth).fields =~= claimed.set(
        index,
        FieldModel::List(list + elements),
    ).fields);
}

/// The events of a singular field store its value.
proof fn lemma_single_arrives(
    schema: Seq<DescriptorView>,
    linked: Option<LinkedView>,
    kind: FieldKind,
    payload: Payload,
    group: Option<u32>,
    index: usize,
    so_far: Decoding,
    assembly: Assembly,
    depth: nat,
)
    requires
        addressable(schema),
        assembly.fields == so_far.fields,
        decoded_value(schema, linked, kind, payload, depth) is Ok,
    ensures
        ({
            let value = decoded_value(schema, linked, kind, payload, depth)->Ok_0;
            let arrived = arrival_of(schema, linked, kind, payload, depth);
            &&& arrived is Some
            &&& with_events(
                schema,
                assembly,
                claim_events(so_far, group, index).push(
                    EventModel::Store { field: index, value: arrived->0 },
                ),
                depth,
            ).fields == so_far.claim(group, index).set(index, FieldModel::One(value)).fields
        }),
    decreases level(depth), 1nat, 0nat,
{
    lemma_value_arrives(schema, linked, kind, payload, depth);
    let arrived = arrival_of(schema, linked, kind, payload, depth)->0;
    let event = EventModel::Store { field: index, value: arrived };
    let claims = claim_events(so_far, group, index);
    lemma_claims(schema, so_far, assembly, group, index, depth);
    let claimed = with_events(schema, assembly, claims, depth);
    lemma_one_event(schema, claimed, event, depth);
    lemma_events_append(schema, assembly, claims, seq![event], depth);
    assert(claims.push(event) =~= claims + seq![event]);
}

/// The events of a field build what the field holds.
proof fn lemma_field_arrives(
    schema: Seq<DescriptorView>,
    desc: DescriptorView,
    wire_field: WireField,
    raw: Seq<u8>,
    so_far: Decoding,
    assembly: Assembly,
    depth: nat,
)
    requires
        addressable(schema),
        desc.message.fields.len() <= usize::MAX,
        so_far.fields.len() == desc.message.fields.len(),
        owned(so_far),
        assembly.fields == so_far.fields,
        with_field(schema, desc, wire_field, raw, so_far, depth) is Ok,
    ensures
        with_events(
            schema,
            assembly,
            field_events(schema, desc, wire_field, so_far, depth),
            depth,
        ).fields == with_field(schema, desc, wire_field, raw, so_far, depth)->Ok_0.fields,
        with_field(schema, desc, wire_field, raw, so_far, depth)->Ok_0.fields.len()
            == so_far.fields.len(),
        owned(with_field(schema, desc, wire_field, raw, so_far, depth)->Ok_0),
    decreases level(depth), 4nat, 0nat,
{
    reveal(with_field);
    reveal(field_events);
    lemma_no_events(schema, assembly, depth);
    lemma_field_from(desc.message.fields, wire_field.number, 0);
    if let Some(i) = field_at(desc.message.fields, wire_field.number) {
        let index = i as usize;
        let field = desc.message.fields[i as int];
        let linked = desc.linked_ref(wire_field.number);
        let payload = wire_field.payload;
        let group = field.oneof_index;
        lemma_claims(schema, so_far, assembly, group, index, depth);
        match field.kind {
            FieldKind::MapOf { key, value } => {
                if let Payload::Len(entry) = payload {
                    lemma_map_arrives(
                        schema,
                        linked,
                        key,
                        value,
                        entry,
                        group,
                        index,
                        so_far,
                        assembly,
                        depth,
                    );
                }
            },
            kind => {
                if field.label == Label::Repeated {
                    if holds_elements(kind, payload.wire()) {
                        lemma_list_arrives(
                            schema,
                            linked,
                            kind,
                            payload,
                            group,
                            index,
                            so_far,
                            assembly,
                            depth,
                        );
                    }
                } else if payload.wire() == kind_wire(kind) {
                    lemma_single_arrives(
                        schema,
                        linked,
                        kind,
                        payload,
                        group,
                        index,
                        so_far,
                        assembly,
                        depth,
                    );
                }
            },
        }
    }
}

/// The events of fields build what the fields hold.
proof fn lemma_fields_arrive(
    schema: Seq<DescriptorView>,
    desc: DescriptorView,
    s: Seq<u8>,
    so_far: Decoding,
    assembly: Assembly,
    depth: nat,
)
    requires
        addressable(schema),
        desc.message.fields.len() <= usize::MAX,
        so_far.fields.len() == desc.message.fields.len(),
        owned(so_far),
        assembly.fields == so_far.fields,
        with_fields(schema, desc, s, so_far, depth) is Ok,
    ensures
        with_events(
            schema,
            assembly,
            fields_events(schema, desc, s, so_far, depth),
            depth,
        ).fields == with_fields(schema, desc, s, so_far, depth)->Ok_0.fields,
    decreases level(depth), 5nat, s.len(),
{
    lemma_no_events(schema, assembly, depth);
    if s.len() > 0 {
        lemma_field_used(s);
        lemma_with_next(schema, desc, s, so_far, depth);
        lemma_next_events(schema, desc, s, so_far, depth);
        let used = field_in(s).used as int;
        let next = with_next(schema, desc, s, so_far, depth)->Ok_0;
        let first = next_events(schema, desc, s, so_far, depth);
        lemma_field_arrives(
            schema,
            desc,
            field_in(s).result->Ok_0,
            s.take(used),
            so_far,
            assembly,
            depth,
        );
        lemma_events_append(
            schema,
            assembly,
            first,
            fields_events(schema, desc, s.skip(used), next, depth),
            depth,
        );
        lemma_fields_arrive(
            schema,
            desc,
            s.skip(used),
            next,
            with_events(schema, assembly, first, depth),
            depth,
        );
    }
}

// ---------------------------------------------------------------------------
// Laws
// ---------------------------------------------------------------------------

/// The events that decoding hands out, carried out one after the other, build
/// the message that the bytes stand for.
pub proof fn law_events_build_message(
    schema: Seq<DescriptorView>,
    class: usize,
    index: usize,
    s: Seq<u8>,
    depth: nat,
)
    requires
        addressable(schema),
        index < schema.len(),
        decoded(schema, class, index, s, depth) is Ok,
    ensures
        outcome(schema, class, index, s, depth).error is None,
        assembled(schema, outcome(schema, class, index, s, depth), depth) == decoded(
            schema,
            class,
            index,
            s,
            depth,
        )->Ok_0,
    decreases level(depth), 6nat, 0nat,
{
    reveal(with_events);
    let desc = schema[index as int];
    let nothing = nothing_decoded(desc.message.fields);
    lemma_fields_arrive(
        schema,
        desc,
        s,
        nothing,
        Assembly { fields: nothing.fields, held: None },
        depth,
    );
}

/// What has arrived has arrived: bytes that follow valid fields, well-formed or
/// not, add events behind those of the fields and take none back. So a value is
/// handed out even if a later one replaces it or a later error ends decoding.
pub proof fn law_events_stay(
    schema: Seq<DescriptorView>,
    desc: DescriptorView,
    s: Seq<u8>,
    t: Seq<u8>,
    so_far: Decoding,
    depth: nat,
)
    requires
        with_fields(schema, desc, s, so_far, depth) is Ok,
    ensures
        fields_events(schema, desc, s + t, so_far, depth) == fields_events(
            schema,
            desc,
            s,
            so_far,
            depth,
        ) + fields_events(
            schema,
            desc,
            t,
            with_fields(schema, desc, s, so_far, depth)->Ok_0,
            depth,
        ),
    decreases s.len(),
{
    if s.len() == 0 {
        assert(s + t =~= t);
        let later = fields_events(schema, desc, t, so_far, depth);
        assert(Seq::<EventModel>::empty() + later =~= later);
    } else {
        lemma_field_used(s);
        let used = field_in(s).used as int;
        lemma_with_next(schema, desc, s, so_far, depth);
        lemma_next_events(schema, desc, s, so_far, depth);
        lemma_next_events(schema, desc, s + t, so_far, depth);
        law_field_prefix(s, s.skip(used) + t);
        assert(s.take(used) + (s.skip(used) + t) =~= s + t);
        assert((s + t).skip(used) =~= s.skip(used) + t);
        assert((s + t).take(used) =~= s.take(used));
        let next = with_next(schema, desc, s, so_far, depth)->Ok_0;
        law_events_stay(schema, desc, s.skip(used), t, next, depth);
        let first = next_events(schema, desc, s, so_far, depth);
        let middle = fields_events(schema, desc, s.skip(used), next, depth);
        let done = with_fields(schema, desc, s, so_far, depth)->Ok_0;
        let later = fields_events(schema, desc, t, done, depth);
        assert(first + (middle + later) =~= first + middle + later);
    }
}

/// Decoding undoes encoding: the events that the bytes of a message cause build
/// the message itself, once the defaults of absent fields are filled in.
pub proof fn law_events_undo_encoding(
    schema: Seq<DescriptorView>,
    index: usize,
    message: MessageModel,
    depth: nat,
)
    requires
        addressable(schema),
        index < schema.len(),
        message.own == Some(index),
        canonical(schema, index, message, depth),
        message_bytes(schema, index, message, depth) is Ok,
        message_bytes(schema, index, message, depth)->Ok_0.len() <= u64::MAX,
    ensures
        ({
            let bytes = message_bytes(schema, index, message, depth)->Ok_0;
            let back = outcome(schema, message.class, index, bytes, depth);
            &&& back.error is None
            &&& filled(schema, index, assembled(schema, back, depth), depth) == message
        }),
{
    let bytes = message_bytes(schema, index, message, depth)->Ok_0;
    law_encode_decode(schema, index, message, depth);
    law_events_build_message(schema, message.class, index, bytes, depth);
}

/// Reading a map entry leaves its value held, and changes nothing else.
pub proof fn law_entry_value_held(
    schema: Seq<DescriptorView>,
    linked: Option<LinkedView>,
    key: ScalarType,
    value: MapValue,
    field: usize,
    entry: Seq<u8>,
    so_far: Assembly,
    depth: nat,
)
    requires
        addressable(schema),
        decoded_entry(schema, linked, key, value, entry, depth) is Ok,
    ensures
        with_events(
            schema,
            so_far,
            entry_events(schema, linked, key, value, field, entry, (None, None), depth),
            depth,
        ) == (Assembly {
            held: Some(decoded_entry(schema, linked, key, value, entry, depth)->Ok_0.1),
            ..so_far
        }),
{
    lemma_entry_arrives(schema, linked, key, value, field, entry, (None, None), so_far, depth);
}

/// A chunk of packable elements, valid or not, causes the events that reading
/// its elements one at a time causes.
pub proof fn law_chunk_events(
    schema: Seq<DescriptorView>,
    linked: Option<LinkedView>,
    kind: FieldKind,
    field: usize,
    chunk: Seq<u8>,
    depth: nat,
)
    requires
        packed(kind),
    ensures
        ({
            let read = payload_in(chunk, kind_wire(kind));
            let events = elements_events(schema, linked, kind, field, Payload::Len(chunk), depth);
            match read.result {
                Ok(payload) if chunk.len() > 0 => {
                    let first = elements_events(schema, linked, kind, field, payload, depth);
                    let rest = Payload::Len(chunk.skip(read.used as int));
                    match decoded_elements(schema, linked, kind, payload, depth) {
                        Ok(_) => events == first + elements_events(
                            schema,
                            linked,
                            kind,
                            field,
                            rest,
                            depth,
                        ),
                        Err(_) => events == first,
                    }
                },
                _ => events == Seq::<EventModel>::empty(),
            }
        }),
{
    if chunk.len() > 0 {
        if let Ok(payload) = payload_in(chunk, kind_wire(kind)).result {
            assert(!(payload is Len));
            let first = elements_events(schema, linked, kind, field, payload, depth);
            assert(first + Seq::<EventModel>::empty() =~= first);
        }
    }
}

} // verus!
