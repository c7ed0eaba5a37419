//! What decoding hands out: every value as it arrives, and where it goes.
//!
//! A decoded message is a list of [`Event`]s, in the order in which its bytes
//! cause them. Whoever builds an instance converts each value when its event
//! comes, whether or not a later one takes its place; so a value that cannot be
//! converted is noticed even where it would have been overwritten, and ahead of
//! anything that is wrong further on.
use vstd::prelude::*;

use crate::decode::{
    decoded, decoded_elements, decoded_entry, decoded_value, holds_elements,
    kind_wire, lemma_payload_progress, nothing_decoded, omitted_value, with_entry_field,
    with_field, DecodeError, Decoding,
};
use crate::descriptor::{field_at, FieldKind, Label, MapValue, ScalarType, MAX_DEPTH};
use crate::encode::{kind_of_value, level, packed};
use crate::message::{DescriptorView, LinkedView};
use crate::value::{ScalarModel, ScalarValue, ValueModel};
use crate::wire::{field_in, lemma_field_used, payload_in, Payload, WireError, WireField};

verus! {

/// A value that has arrived and is to be converted.
#[derive(Debug, PartialEq)]
pub enum Arrived {
    Scalar(ScalarValue),
    /// An enum's number, whether or not the enum has such a member.
    Enum(i32),
    Timestamp { secs: i64, nanos: i32 },
    Duration { secs: i64, nanos: i32 },
    /// A nested message, of the class that the field is linked to. If it has an
    /// error, its events come to an end there.
    Message(Decoded),
}

/// What the next bytes of a message cause. Fields are given by their index.
#[derive(Debug, PartialEq)]
pub enum Event {
    /// A field is cleared: another member of its oneof group is about to be
    /// set.
    Clear { field: usize },
    /// A field is set to a value.
    Store { field: usize, value: Arrived },
    /// A value is appended to the list of a field.
    Append { field: usize, value: Arrived },
    /// A value arrives for the current entry of a map field; the last one
    /// counts.
    Hold { field: usize, value: Arrived },
    /// The current entry of a map field is complete: the value held is stored
    /// under the key.
    Put { field: usize, key: ScalarValue },
}

/// A message as it was decoded.
#[derive(Debug, PartialEq)]
pub struct Decoded {
    /// The handle of the class of which an instance is to be built.
    pub class: usize,
    /// The message's descriptor, as an index into the schema.
    pub index: usize,
    pub events: Vec<Event>,
    /// The raw bytes of fields that the schema doesn't know about.
    pub unknown: Vec<u8>,
    /// Why decoding stopped, if it did not reach the end.
    pub error: Option<DecodeError>,
}

// ---------------------------------------------------------------------------
// Models
// ---------------------------------------------------------------------------

pub enum ArrivedModel {
    /// A value that is no message.
    Plain(ValueModel),
    Message(DecodedModel),
}

pub enum EventModel {
    Clear { field: usize },
    Store { field: usize, value: ArrivedModel },
    Append { field: usize, value: ArrivedModel },
    Hold { field: usize, value: ArrivedModel },
    Put { field: usize, key: ScalarModel },
}

#[verifier::ext_equal]
pub struct DecodedModel {
    pub class: usize,
    pub index: usize,
    pub events: Seq<EventModel>,
    pub unknown: Seq<u8>,
    pub error: Option<DecodeError>,
}

impl Arrived {
    pub open spec fn model(&self) -> ArrivedModel
        decreases self,
    {
        match self {
            Arrived::Scalar(v) => ArrivedModel::Plain(ValueModel::Scalar(v@)),
            Arrived::Enum(v) => ArrivedModel::Plain(ValueModel::Enum(*v)),
            Arrived::Timestamp { secs, nanos } => ArrivedModel::Plain(
                ValueModel::Timestamp { secs: *secs, nanos: *nanos },
            ),
            Arrived::Duration { secs, nanos } => ArrivedModel::Plain(
                ValueModel::Duration { secs: *secs, nanos: *nanos },
            ),
            Arrived::Message(decoded) => ArrivedModel::Message(decoded.model()),
        }
    }
}

impl Event {
    pub open spec fn model(&self) -> EventModel
        decreases self,
    {
        match self {
            Event::Clear { field } => EventModel::Clear { field: *field },
            Event::Store { field, value } => EventModel::Store {
                field: *field,
                value: value.model(),
            },
            Event::Append { field, value } => EventModel::Append {
                field: *field,
                value: value.model(),
            },
            Event::Hold { field, value } => EventModel::Hold {
                field: *field,
                value: value.model(),
            },
            Event::Put { field, key } => EventModel::Put { field: *field, key: key@ },
        }
    }
}

impl Decoded {
    pub open spec fn model(&self) -> DecodedModel
        decreases self,
    {
        DecodedModel {
            class: self.class,
            index: self.index,
            events: Seq::new(
                self.events@.len(),
                |i: int|
                    if 0 <= i < self.events@.len() {
                        self.events@[i].model()
                    } else {
                        arbitrary()
                    },
            ),
            unknown: self.unknown@,
            error: self.error,
        }
    }
}

/// The models of several events.
pub open spec fn events_model(events: Seq<Event>) -> Seq<EventModel> {
    Seq::new(events.len(), |i: int| events[i].model())
}

/// The model of a value that may be missing.
pub open spec fn arrived_model(arrived: Option<Arrived>) -> Option<ArrivedModel> {
    match arrived {
        Some(arrived) => Some(arrived.model()),
        None => None,
    }
}

/// The model of a decoded message is made of the models of its events.
pub proof fn lemma_decoded_model(decoded: Decoded)
    ensures
        decoded.model() == (DecodedModel {
            class: decoded.class,
            index: decoded.index,
            events: events_model(decoded.events@),
            unknown: decoded.unknown@,
            error: decoded.error,
        }),
{
    assert(decoded.model().events =~= events_model(decoded.events@));
}

// ---------------------------------------------------------------------------
// What arrives
// ---------------------------------------------------------------------------

/// The error of a result, if it is one.
pub open spec fn error_of<T>(result: Result<T, DecodeError>) -> Option<DecodeError> {
    match result {
        Ok(_) => None,
        Err(error) => Some(error),
    }
}

/// What decoding `bytes` as a nested message hands out.
pub open spec fn nested_outcome(
    schema: Seq<DescriptorView>,
    linked: Option<LinkedView>,
    bytes: Seq<u8>,
    depth: nat,
) -> Result<DecodedModel, DecodeError>
    decreases level(depth), 0nat, 0nat,
{
    match linked {
        None => Err(DecodeError::NotLinked),
        Some(linked) => match linked.desc {
            None => Err(DecodeError::NotAMessage),
            Some(index) => if index >= schema.len() {
                Err(DecodeError::NotAMessage)
            } else if depth >= MAX_DEPTH {
                Err(DecodeError::TooDeep)
            } else {
                Ok(outcome(schema, linked.class, index, bytes, depth + 1))
            },
        },
    }
}

/// A nested message as a value, if there is one.
pub open spec fn nested_arrival(nested: Result<DecodedModel, DecodeError>) -> Option<
    ArrivedModel,
> {
    match nested {
        Ok(decoded) => Some(ArrivedModel::Message(decoded)),
        Err(_) => None,
    }
}

/// The value that a payload of the wire type of the given kind makes arrive.
/// A nested message arrives as far as it can be decoded.
pub open spec fn arrival_of(
    schema: Seq<DescriptorView>,
    linked: Option<LinkedView>,
    kind: FieldKind,
    payload: Payload,
    depth: nat,
) -> Option<ArrivedModel>
    decreases level(depth), 1nat, 0nat,
{
    match (kind, payload) {
        (FieldKind::Message, Payload::Len(bytes)) => nested_arrival(
            nested_outcome(schema, linked, bytes, depth),
        ),
        _ => match decoded_value(schema, linked, kind, payload, depth) {
            Ok(value) => Some(ArrivedModel::Plain(value)),
            Err(_) => None,
        },
    }
}

/// What a payload that may be malformed makes arrive.
pub open spec fn read_arrival(
    schema: Seq<DescriptorView>,
    linked: Option<LinkedView>,
    kind: FieldKind,
    payload: Result<Payload, WireError>,
    depth: nat,
) -> Option<ArrivedModel> {
    match payload {
        Err(_) => None,
        Ok(payload) => arrival_of(schema, linked, kind, payload, depth),
    }
}

/// The event that appends what has arrived to the list of a field.
pub open spec fn append_events(field: usize, arrived: Option<ArrivedModel>) -> Seq<EventModel> {
    match arrived {
        Some(value) => seq![EventModel::Append { field, value }],
        None => Seq::empty(),
    }
}

/// The event that holds what has arrived for an entry of a map field.
pub open spec fn hold_events(field: usize, arrived: Option<ArrivedModel>) -> Seq<EventModel> {
    match arrived {
        Some(value) => seq![EventModel::Hold { field, value }],
        None => Seq::empty(),
    }
}

/// The event that clears the earlier owner of a oneof group.
pub open spec fn claim_events(so_far: Decoding, group: Option<u32>, index: usize) -> Seq<
    EventModel,
> {
    match group {
        Some(group) => if so_far.owners.contains_key(group) && so_far.owners[group] != index {
            seq![EventModel::Clear { field: so_far.owners[group] }]
        } else {
            Seq::empty()
        },
        None => Seq::empty(),
    }
}

/// The events that a chunk of packed values causes, up to its first error.
pub open spec fn packed_events(
    schema: Seq<DescriptorView>,
    linked: Option<LinkedView>,
    kind: FieldKind,
    field: usize,
    s: Seq<u8>,
    depth: nat,
) -> Seq<EventModel>
    decreases level(depth), 2nat, s.len(),
{
    if s.len() == 0 {
        Seq::empty()
    } else {
        proof {
            lemma_payload_progress(s, kind_wire(kind));
        }
        match payload_in(s, kind_wire(kind)).result {
            Err(_) => Seq::empty(),
            Ok(payload) => append_events(field, arrival_of(schema, linked, kind, payload, depth))
                + match decoded_value(schema, linked, kind, payload, depth) {
                Err(_) => Seq::empty(),
                Ok(_) => packed_events(
                    schema,
                    linked,
                    kind,
                    field,
                    s.skip(payload_in(s, kind_wire(kind)).used as int),
                    depth,
                ),
            },
        }
    }
}

/// The events that one field of elements causes.
pub open spec fn elements_events(
    schema: Seq<DescriptorView>,
    linked: Option<LinkedView>,
    kind: FieldKind,
    field: usize,
    payload: Payload,
    depth: nat,
) -> Seq<EventModel>
    decreases level(depth), 3nat, 0nat,
{
    match payload {
        Payload::Len(chunk) => if packed(kind) {
            packed_events(schema, linked, kind, field, chunk, depth)
        } else {
            append_events(field, arrival_of(schema, linked, kind, payload, depth))
        },
        _ => append_events(field, arrival_of(schema, linked, kind, payload, depth)),
    }
}

/// The value that arrives for a field of a map entry: that of field 2, if it
/// has the value's wire type.
pub open spec fn entry_arrival(
    schema: Seq<DescriptorView>,
    linked: Option<LinkedView>,
    key: ScalarType,
    value: MapValue,
    field: WireField,
    depth: nat,
) -> Option<ArrivedModel>
    decreases level(depth), 2nat, 0nat,
{
    if !(field.number == 1 && field.payload.wire() == key.wire()) && field.number == 2
        && field.payload.wire() == kind_wire(kind_of_value(value)) {
        arrival_of(schema, linked, kind_of_value(value), field.payload, depth)
    } else {
        None
    }
}

/// What arrives in place of a map value that its entry omits: the default, or
/// an empty message.
pub open spec fn omitted_arrival(
    schema: Seq<DescriptorView>,
    linked: Option<LinkedView>,
    value: MapValue,
    depth: nat,
) -> Option<ArrivedModel>
    decreases level(depth), 2nat, 0nat,
{
    if value == MapValue::Message {
        nested_arrival(nested_outcome(schema, linked, Seq::empty(), depth))
    } else {
        match omitted_value(schema, linked, value, depth) {
            Ok(value) => Some(ArrivedModel::Plain(value)),
            Err(_) => None,
        }
    }
}

/// The events that the fields of a map entry cause: each value that arrives is
/// held, and the default if none does.
pub open spec fn entry_events(
    schema: Seq<DescriptorView>,
    linked: Option<LinkedView>,
    key: ScalarType,
    value: MapValue,
    field: usize,
    s: Seq<u8>,
    seen: (Option<ScalarModel>, Option<ValueModel>),
    depth: nat,
) -> Seq<EventModel>
    decreases level(depth), 3nat, s.len(),
{
    if s.len() == 0 {
        if seen.1 is None {
            hold_events(field, omitted_arrival(schema, linked, value, depth))
        } else {
            Seq::empty()
        }
    } else {
        proof {
            lemma_field_used(s);
        }
        match field_in(s).result {
            Err(_) => Seq::empty(),
            Ok(wire_field) => hold_events(
                field,
                entry_arrival(schema, linked, key, value, wire_field, depth),
            ) + match with_entry_field(schema, linked, key, value, wire_field, seen, depth) {
                Err(_) => Seq::empty(),
                Ok(seen) => entry_events(
                    schema,
                    linked,
                    key,
                    value,
                    field,
                    s.skip(field_in(s).used as int),
                    seen,
                    depth,
                ),
            },
        }
    }
}

/// The events that one field of a message causes.
#[verifier::opaque]
pub open spec fn field_events(
    schema: Seq<DescriptorView>,
    desc: DescriptorView,
    wire_field: WireField,
    so_far: Decoding,
    depth: nat,
) -> Seq<EventModel>
    decreases level(depth), 4nat, 0nat,
{
    match field_at(desc.message.fields, wire_field.number) {
        None => Seq::empty(),
        Some(i) => {
            let index = i as usize;
            let field = desc.message.fields[i as int];
            let linked = desc.linked_ref(wire_field.number);
            let payload = wire_field.payload;
            let claims = claim_events(so_far, field.oneof_index, index);
            let claimed = so_far.claim(field.oneof_index, index);
            match field.kind {
                FieldKind::MapOf { key, value } => match payload {
                    Payload::Len(entry) => entry_events(
                        schema,
                        linked,
                        key,
                        value,
                        index,
                        entry,
                        (None, None),
                        depth,
                    ) + match decoded_entry(schema, linked, key, value, entry, depth) {
                        Err(_) => Seq::empty(),
                        Ok((k, _)) => claims + if claimed.fields[i as int] is Entries {
                            seq![EventModel::Put { field: index, key: k }]
                        } else {
                            Seq::empty()
                        },
                    },
                    _ => Seq::empty(),
                },
                kind => if field.label == Label::Repeated {
                    if holds_elements(kind, payload.wire()) {
                        elements_events(schema, linked, kind, index, payload, depth)
                            + match decoded_elements(schema, linked, kind, payload, depth) {
                            Err(_) => Seq::empty(),
                            Ok(_) => claims,
                        }
                    } else {
                        claims
                    }
                } else if payload.wire() == kind_wire(kind) {
                    match arrival_of(schema, linked, kind, payload, depth) {
                        None => Seq::empty(),
                        Some(value) => claims.push(EventModel::Store { field: index, value }),
                    }
                } else {
                    Seq::empty()
                },
            }
        },
    }
}

/// The events that the fields of `s` cause, up to the first error.
pub open spec fn fields_events(
    schema: Seq<DescriptorView>,
    desc: DescriptorView,
    s: Seq<u8>,
    so_far: Decoding,
    depth: nat,
) -> Seq<EventModel>
    decreases level(depth), 5nat, s.len(),
{
    if s.len() == 0 {
        Seq::empty()
    } else {
        proof {
            lemma_field_used(s);
        }
        match field_in(s).result {
            Err(_) => Seq::empty(),
            Ok(field) => field_events(schema, desc, field, so_far, depth) + match with_field(
                schema,
                desc,
                field,
                s.take(field_in(s).used as int),
                so_far,
                depth,
            ) {
                Err(_) => Seq::empty(),
                Ok(so_far) => fields_events(
                    schema,
                    desc,
                    s.skip(field_in(s).used as int),
                    so_far,
                    depth,
                ),
            },
        }
    }
}

/// What decoding `s` as a message hands out.
pub open spec fn outcome(
    schema: Seq<DescriptorView>,
    class: usize,
    index: usize,
    s: Seq<u8>,
    depth: nat,
) -> DecodedModel
    decreases level(depth), 6nat, 0nat,
{
    let desc = schema[index as int];
    let message = decoded(schema, class, index, s, depth);
    DecodedModel {
        class,
        index,
        events: if depth > MAX_DEPTH {
            Seq::empty()
        } else {
            fields_events(schema, desc, s, nothing_decoded(desc.message.fields), depth)
        },
        unknown: match message {
            Ok(message) => message.unknown,
            Err(_) => Seq::empty(),
        },
        error: error_of(message),
    }
}

} // verus!
