//! What each record of a `DescriptorProto` says, and what fields, maps and oneof
//! groups are made of them.
use vstd::prelude::*;

use crate::descriptor::{FieldKind, FieldView, Label, MapValue, MessageDescriptorView, ScalarType};
use crate::encode::kind_of_value;
use crate::parse::{
    described, descriptor_in, draft_empty, draft_in, draft_with, entry_named, entry_of,
    entry_referred, has_member, has_optional, in_group, interpreted, interpreted_upto, is_synthetic,
    kind_of, map_entry_in, map_value_of, nested_empty, nested_in, nested_with, nested_with_field,
    oneof_name_in, raw_empty, raw_in, raw_with, real_oneofs, scalar_numbered, settled, DraftView,
    EntryView, NestedView, ParseError, RawView,
};
use crate::text::{
    last_segment, law_segment_start, parent_segment, segment_start, text_of, undotted,
};
use crate::wire::{field_bytes, field_in, lemma_field_used, Payload, WireField};
use crate::wire_laws::{law_field_prefix, law_field_round_trip, writable};

verus! {

// ---------------------------------------------------------------------------
// Types
// ---------------------------------------------------------------------------

/// The number of every scalar type; 10 (groups), 11 (messages), 14 (enums) and
/// whatever is not from 1 to 18 are none.
pub proof fn law_scalar_type_numbers(code: i64)
    ensures
        scalar_numbered(1) == Some(ScalarType::Double),
        scalar_numbered(2) == Some(ScalarType::Float),
        scalar_numbered(3) == Some(ScalarType::Int64),
        scalar_numbered(4) == Some(ScalarType::UInt64),
        scalar_numbered(5) == Some(ScalarType::Int32),
        scalar_numbered(6) == Some(ScalarType::Fixed64),
        scalar_numbered(7) == Some(ScalarType::Fixed32),
        scalar_numbered(8) == Some(ScalarType::Bool),
        scalar_numbered(9) == Some(ScalarType::String),
        scalar_numbered(12) == Some(ScalarType::Bytes),
        scalar_numbered(13) == Some(ScalarType::UInt32),
        scalar_numbered(15) == Some(ScalarType::SFixed32),
        scalar_numbered(16) == Some(ScalarType::SFixed64),
        scalar_numbered(17) == Some(ScalarType::SInt32),
        scalar_numbered(18) == Some(ScalarType::SInt64),
        scalar_numbered(code) is None <==> code < 1 || code > 18 || code == 10 || code == 11
            || code == 14,
{
}

/// The two well-known types have different names.
proof fn lemma_well_known_names()
    ensures
        ".google.protobuf.Timestamp"@ != ".google.protobuf.Duration"@,
{
    reveal_strlit(".google.protobuf.Timestamp");
    reveal_strlit(".google.protobuf.Duration");
    assert(".google.protobuf.Timestamp"@.len() != ".google.protobuf.Duration"@.len());
}

/// The kind of a field by its type: 14 is an enum; 11 a message, and by its full
/// name a timestamp or a duration; the others are scalars. A type that is none
/// of these is refused with its low 32 bits.
pub proof fn law_field_kinds(code: i64, reference: Option<Seq<char>>)
    ensures
        kind_of(14, reference) == Ok::<FieldKind, ParseError>(FieldKind::Enum),
        kind_of(11, Some(".google.protobuf.Timestamp"@)) == Ok::<FieldKind, ParseError>(
            FieldKind::Timestamp,
        ),
        kind_of(11, Some(".google.protobuf.Duration"@)) == Ok::<FieldKind, ParseError>(
            FieldKind::Duration,
        ),
        reference != Some(".google.protobuf.Timestamp"@) && reference != Some(
            ".google.protobuf.Duration"@,
        ) ==> kind_of(11, reference) == Ok::<FieldKind, ParseError>(FieldKind::Message),
        scalar_numbered(code) matches Some(scalar) ==> kind_of(code, reference) == Ok::<
            FieldKind,
            ParseError,
        >(FieldKind::Scalar(scalar)),
        kind_of(code, reference) is Err <==> code < 1 || code > 18 || code == 10,
        kind_of(code, reference) matches Err(error) ==> {
            &&& error matches ParseError::UnsupportedType(low)
            &&& (low - code) % 0x1_0000_0000 == 0
        },
{
    lemma_well_known_names();
}

/// The values of a map are of the kind that a singular field with the same type
/// and type name has, and are refused where that is.
pub proof fn law_map_value_types(code: i64, reference: Option<Seq<char>>)
    ensures
        match map_value_of(code, reference) {
            Ok(value) => {
                let same = match value {
                    MapValue::Scalar(scalar) => FieldKind::Scalar(scalar),
                    MapValue::Enum => FieldKind::Enum,
                    MapValue::Message => FieldKind::Message,
                    MapValue::Timestamp => FieldKind::Timestamp,
                    MapValue::Duration => FieldKind::Duration,
                };
                &&& kind_of(code, reference) == Ok::<FieldKind, ParseError>(same)
                &&& same == kind_of_value(value)
            },
            Err(error) => kind_of(code, reference) == Err::<FieldKind, ParseError>(error),
        },
        map_value_of(11, Some(".google.protobuf.Timestamp"@)) == Ok::<MapValue, ParseError>(
            MapValue::Timestamp,
        ),
        map_value_of(11, Some(".google.protobuf.Duration"@)) == Ok::<MapValue, ParseError>(
            MapValue::Duration,
        ),
{
    lemma_well_known_names();
}

// ---------------------------------------------------------------------------
// Names
// ---------------------------------------------------------------------------

/// Whether a name has no dot.
pub open spec fn dotless(name: Seq<char>) -> bool {
    forall|i: int| 0 <= i < name.len() ==> #[trigger] name[i] != '.'
}

/// The last segment starts where no dot follows.
proof fn lemma_segment(name: Seq<char>, start: nat)
    requires
        start <= name.len(),
        start > 0 ==> name[start - 1] == '.',
        forall|i: int| start <= i < name.len() ==> #[trigger] name[i] != '.',
    ensures
        segment_start(name) == start,
{
    law_segment_start(name);
    let found = segment_start(name);
    if found < start {
        assert(name[start - 1] != '.');
    }
    if start < found {
        assert(name[found - 1] != '.');
    }
}

/// A dotted name falls into its segments: the last one is what follows the last
/// dot, and the one before it what stands between the last two.
pub proof fn law_segments(path: Seq<char>, outer: Seq<char>, inner: Seq<char>)
    requires
        dotless(outer),
        dotless(inner),
    ensures
        last_segment(inner) == inner,
        parent_segment(inner) is None,
        last_segment(outer + seq!['.'] + inner) == inner,
        parent_segment(outer + seq!['.'] + inner) == Some(outer),
        last_segment(path + seq!['.'] + outer + seq!['.'] + inner) == inner,
        parent_segment(path + seq!['.'] + outer + seq!['.'] + inner) == Some(outer),
{
    lemma_segment(inner, 0);
    assert(inner.skip(0) =~= inner);
    let short = outer + seq!['.'] + inner;
    lemma_segment(short, outer.len() + 1);
    assert(short.skip(outer.len() as int + 1) =~= inner);
    assert(short.take(outer.len() as int) =~= outer);
    lemma_segment(outer, 0);
    assert(outer.skip(0) =~= outer);
    let whole = path + seq!['.'] + outer;
    let long = whole + seq!['.'] + inner;
    lemma_segment(long, whole.len() + 1);
    assert(long.skip(whole.len() as int + 1) =~= inner);
    assert(long.take(whole.len() as int) =~= whole);
    lemma_segment(whole, path.len() + 1);
    assert(whole.skip(path.len() as int + 1) =~= outer);
}

/// A qualified name has no leading dot: one is taken away, and only one.
pub proof fn law_undotted(name: Seq<char>)
    ensures
        undotted(seq!['.'] + name) == name,
        name.len() == 0 || name[0] != '.' ==> undotted(name) == name,
{
    assert((seq!['.'] + name).skip(1) =~= name);
}

/// The text of bytes is the one whose UTF-8 they are.
pub proof fn law_text_of(bytes: Seq<u8>)
    ensures
        text_of(bytes) is Some <==> vstd::utf8::valid_utf8(bytes),
        text_of(bytes) matches Some(text) ==> vstd::utf8::encode_utf8(text) == bytes,
{
    if vstd::utf8::valid_utf8(bytes) {
        vstd::utf8::decode_utf8_encode_utf8(bytes);
    }
}

// ---------------------------------------------------------------------------
// Records
// ---------------------------------------------------------------------------

/// Records are read one after the other.
proof fn lemma_raw_append(s: Seq<u8>, t: Seq<u8>, start: RawView)
    requires
        raw_in(s, start) is Ok,
    ensures
        raw_in(s + t, start) == raw_in(t, raw_in(s, start)->Ok_0),
    decreases s.len(),
{
    if s.len() == 0 {
        assert(s + t =~= t);
    } else {
        lemma_field_used(s);
        let used = field_in(s).used as int;
        law_field_prefix(s, s.skip(used) + t);
        assert(s.take(used) + (s.skip(used) + t) =~= s + t);
        assert((s + t).skip(used) =~= s.skip(used) + t);
        lemma_raw_append(s.skip(used), t, raw_with(start, field_in(s).result->Ok_0)->Ok_0);
    }
}

/// One record.
proof fn lemma_raw_one(record: WireField, start: RawView)
    requires
        writable(record),
    ensures
        raw_in(field_bytes(record), start) == raw_with(start, record),
{
    reveal_with_fuel(raw_in, 2);
    let bytes = field_bytes(record);
    law_field_round_trip(record, Seq::empty());
    assert(bytes + Seq::<u8>::empty() =~= bytes);
    assert(bytes.skip(bytes.len() as int) =~= Seq::<u8>::empty());
}

/// Records are read one after the other.
proof fn lemma_nested_append(s: Seq<u8>, t: Seq<u8>, start: NestedView)
    requires
        nested_in(s, start) is Ok,
    ensures
        nested_in(s + t, start) == nested_in(t, nested_in(s, start)->Ok_0),
    decreases s.len(),
{
    if s.len() == 0 {
        assert(s + t =~= t);
    } else {
        lemma_field_used(s);
        let used = field_in(s).used as int;
        law_field_prefix(s, s.skip(used) + t);
        assert(s.take(used) + (s.skip(used) + t) =~= s + t);
        assert((s + t).skip(used) =~= s.skip(used) + t);
        lemma_nested_append(s.skip(used), t, nested_with(start, field_in(s).result->Ok_0)->Ok_0);
    }
}

/// One record.
proof fn lemma_nested_one(record: WireField, start: NestedView)
    requires
        writable(record),
    ensures
        nested_in(field_bytes(record), start) == nested_with(start, record),
{
    reveal_with_fuel(nested_in, 2);
    let bytes = field_bytes(record);
    law_field_round_trip(record, Seq::empty());
    assert(bytes + Seq::<u8>::empty() =~= bytes);
    assert(bytes.skip(bytes.len() as int) =~= Seq::<u8>::empty());
}

/// Records are read one after the other.
proof fn lemma_draft_append(s: Seq<u8>, t: Seq<u8>, start: DraftView)
    requires
        draft_in(s, start) is Ok,
    ensures
        draft_in(s + t, start) == draft_in(t, draft_in(s, start)->Ok_0),
    decreases s.len(),
{
    if s.len() == 0 {
        assert(s + t =~= t);
    } else {
        lemma_field_used(s);
        let used = field_in(s).used as int;
        law_field_prefix(s, s.skip(used) + t);
        assert(s.take(used) + (s.skip(used) + t) =~= s + t);
        assert((s + t).skip(used) =~= s.skip(used) + t);
        lemma_draft_append(s.skip(used), t, draft_with(start, field_in(s).result->Ok_0)->Ok_0);
    }
}

/// One record.
proof fn lemma_draft_one(record: WireField, start: DraftView)
    requires
        writable(record),
    ensures
        draft_in(field_bytes(record), start) == draft_with(start, record),
{
    reveal_with_fuel(draft_in, 2);
    let bytes = field_bytes(record);
    law_field_round_trip(record, Seq::empty());
    assert(bytes + Seq::<u8>::empty() =~= bytes);
    assert(bytes.skip(bytes.len() as int) =~= Seq::<u8>::empty());
}

/// What one more record says of a field that is declared by the bytes `s`: its
/// name (1), number (3), label (4), type (5), type name (6), oneof group (9) and
/// whether it is a proto3 `optional` (17). A later record replaces an earlier
/// one, and any other record says nothing.
pub proof fn law_field_records(s: Seq<u8>, record: WireField)
    requires
        raw_in(s, raw_empty()) is Ok,
        writable(record),
    ensures
        ({
            let old = raw_in(s, raw_empty())->Ok_0;
            let new = raw_in(s + field_bytes(record), raw_empty());
            let number = record.number;
            match record.payload {
                Payload::Len(bytes) => if number == 1 || number == 6 {
                    match text_of(bytes) {
                        None => new == Err::<RawView, ParseError>(ParseError::InvalidUtf8),
                        Some(text) => {
                            &&& new is Ok
                            &&& number == 1 ==> new->Ok_0 == (RawView { name: text, ..old })
                            &&& number == 6 ==> new->Ok_0 == (RawView {
                                reference: Some(text),
                                ..old
                            })
                        },
                    }
                } else {
                    new == Ok::<RawView, ParseError>(old)
                },
                Payload::Varint(n) => {
                    let long = if n < 0x8000_0000_0000_0000 {
                        n as i64
                    } else {
                        (n - 0x1_0000_0000_0000_0000) as i64
                    };
                    let low = (n as int % 0x1_0000_0000) as u32;
                    &&& new is Ok
                    &&& number == 3 ==> new->Ok_0 == (RawView { number: low, ..old })
                    &&& number == 4 ==> new->Ok_0 == (RawView { label: long, ..old })
                    &&& number == 5 ==> new->Ok_0 == (RawView { type_code: Some(long), ..old })
                    &&& number == 9 ==> new->Ok_0 == (RawView { oneof_index: Some(low), ..old })
                    &&& number == 17 ==> new->Ok_0 == (RawView { proto3_optional: n != 0, ..old })
                    &&& number != 3 && number != 4 && number != 5 && number != 9 && number != 17
                        ==> new->Ok_0 == old
                },
                _ => new == Ok::<RawView, ParseError>(old),
            }
        }),
        raw_in(Seq::empty(), raw_empty()) == Ok::<RawView, ParseError>(
            RawView {
                name: Seq::empty(),
                number: 0,
                label: 0,
                type_code: None,
                reference: None,
                oneof_index: None,
                proto3_optional: false,
            },
        ),
{
    lemma_raw_append(s, field_bytes(record), raw_empty());
    lemma_raw_one(record, raw_in(s, raw_empty())->Ok_0);
}

/// What one more record says of a nested type: its name (1), the declaration of
/// one of its fields (2), or its options (7). Any other record says nothing.
pub proof fn law_nested_records(s: Seq<u8>, record: WireField)
    requires
        nested_in(s, nested_empty()) is Ok,
        writable(record),
    ensures
        ({
            let old = nested_in(s, nested_empty())->Ok_0;
            let new = nested_in(s + field_bytes(record), nested_empty());
            match record.payload {
                Payload::Len(bytes) => if record.number == 1 {
                    match text_of(bytes) {
                        None => new == Err::<NestedView, ParseError>(ParseError::InvalidUtf8),
                        Some(name) => new == Ok::<NestedView, ParseError>(
                            NestedView { name, ..old },
                        ),
                    }
                } else if record.number == 2 {
                    match raw_in(bytes, raw_empty()) {
                        Err(error) => new == Err::<NestedView, ParseError>(error),
                        Ok(raw) => new == nested_with_field(old, raw),
                    }
                } else if record.number == 7 {
                    match map_entry_in(bytes, old.is_map_entry) {
                        Err(error) => new == Err::<NestedView, ParseError>(error),
                        Ok(is_map_entry) => new == Ok::<NestedView, ParseError>(
                            NestedView { is_map_entry, ..old },
                        ),
                    }
                } else {
                    new == Ok::<NestedView, ParseError>(old)
                },
                _ => new == Ok::<NestedView, ParseError>(old),
            }
        }),
        nested_in(Seq::empty(), nested_empty()) == Ok::<NestedView, ParseError>(
            NestedView {
                name: Seq::empty(),
                is_map_entry: false,
                key: None,
                value: None,
                qualified_name: None,
            },
        ),
{
    lemma_nested_append(s, field_bytes(record), nested_empty());
    lemma_nested_one(record, nested_in(s, nested_empty())->Ok_0);
}

/// What one more record says of a message type: its name (1), one more field
/// (2), one more map entry type if the nested type (3) is one, or one more oneof
/// group (8). Any other record says nothing.
pub proof fn law_message_records(s: Seq<u8>, record: WireField)
    requires
        draft_in(s, draft_empty()) is Ok,
        writable(record),
    ensures
        ({
            let old = draft_in(s, draft_empty())->Ok_0;
            let new = draft_in(s + field_bytes(record), draft_empty());
            match record.payload {
                Payload::Len(bytes) => if record.number == 1 {
                    match text_of(bytes) {
                        None => new == Err::<DraftView, ParseError>(ParseError::InvalidUtf8),
                        Some(name) => new == Ok::<DraftView, ParseError>(
                            DraftView { name, ..old },
                        ),
                    }
                } else if record.number == 2 {
                    match raw_in(bytes, raw_empty()) {
                        Err(error) => new == Err::<DraftView, ParseError>(error),
                        Ok(raw) => new == Ok::<DraftView, ParseError>(
                            DraftView { fields: old.fields.push(raw), ..old },
                        ),
                    }
                } else if record.number == 3 {
                    match nested_in(bytes, nested_empty()) {
                        Err(error) => new == Err::<DraftView, ParseError>(error),
                        Ok(nested) => {
                            &&& new is Ok
                            &&& new->Ok_0.name == old.name
                            &&& new->Ok_0.fields == old.fields
                            &&& new->Ok_0.oneofs == old.oneofs
                            &&& !nested.is_map_entry ==> new->Ok_0.entries == old.entries
                            &&& nested.is_map_entry ==> {
                                let entries = new->Ok_0.entries;
                                &&& entries.len() == old.entries.len() + 1
                                &&& entries.drop_last() == old.entries
                                &&& entries.last().0 == nested.name
                                &&& entries.last().1.qualified_name == nested.qualified_name
                                &&& nested.key matches Some(key) ==> entries.last().1.key == key
                                &&& nested.key is None ==> entries.last().1.key
                                    == ScalarType::String
                                &&& nested.value matches Some(value) ==> entries.last().1.value
                                    == value
                                &&& nested.value is None ==> entries.last().1.value
                                    == MapValue::Scalar(ScalarType::String)
                            }
                        },
                    }
                } else if record.number == 8 {
                    match oneof_name_in(bytes, Seq::empty()) {
                        Err(error) => new == Err::<DraftView, ParseError>(error),
                        Ok(name) => new == Ok::<DraftView, ParseError>(
                            DraftView { oneofs: old.oneofs.push(name), ..old },
                        ),
                    }
                } else {
                    new == Ok::<DraftView, ParseError>(old)
                },
                _ => new == Ok::<DraftView, ParseError>(old),
            }
        }),
        draft_in(Seq::empty(), draft_empty()) == Ok::<DraftView, ParseError>(
            DraftView {
                name: Seq::empty(),
                fields: Seq::empty(),
                entries: Seq::empty(),
                oneofs: Seq::empty(),
            },
        ),
{
    let old = draft_in(s, draft_empty())->Ok_0;
    lemma_draft_append(s, field_bytes(record), draft_empty());
    lemma_draft_one(record, old);
    if let Payload::Len(bytes) = record.payload {
        if record.number == 3 {
            if let Ok(nested) = nested_in(bytes, nested_empty()) {
                if let Some(entry) = entry_of(nested) {
                    assert(old.entries.push(entry).drop_last() =~= old.entries);
                }
            }
        }
    }
}

/// Options mark a map entry by field 7 alone, with any number but 0.
pub proof fn law_map_entry_option(record: WireField, tail: Seq<u8>, marked: bool)
    requires
        writable(record),
    ensures
        map_entry_in(Seq::empty(), marked) == Ok::<bool, ParseError>(marked),
        map_entry_in(field_bytes(record) + tail, marked) == map_entry_in(
            tail,
            if record.number == 7 && record.payload is Varint {
                record.payload != Payload::Varint(0)
            } else {
                marked
            },
        ),
{
    law_field_round_trip(record, tail);
}

/// A oneof group has the name that the last record 1 of its declaration gives.
pub proof fn law_oneof_name(record: WireField, tail: Seq<u8>, name: Seq<char>)
    requires
        writable(record),
    ensures
        oneof_name_in(Seq::empty(), name) == Ok::<Seq<char>, ParseError>(name),
        match record.payload {
            Payload::Len(bytes) if record.number == 1 => match text_of(bytes) {
                None => oneof_name_in(field_bytes(record) + tail, name) == Err::<
                    Seq<char>,
                    ParseError,
                >(ParseError::InvalidUtf8),
                Some(text) => oneof_name_in(field_bytes(record) + tail, name) == oneof_name_in(
                    tail,
                    text,
                ),
            },
            _ => oneof_name_in(field_bytes(record) + tail, name) == oneof_name_in(tail, name),
        },
{
    law_field_round_trip(record, tail);
}

/// A map entry type declares its key as field 1 and its value as field 2. The
/// key is a scalar; the value's type name is kept, without its leading dot,
/// unless the value is a timestamp or a duration. Other fields say nothing.
pub proof fn law_map_entry_fields(nested: NestedView, raw: RawView)
    ensures
        ({
            let new = nested_with_field(nested, raw);
            match raw.type_code {
                None => new == Err::<NestedView, ParseError>(ParseError::MissingType),
                Some(code) => {
                    &&& raw.number == 1 ==> new == Ok::<NestedView, ParseError>(
                        NestedView { key: scalar_numbered(code), ..nested },
                    )
                    &&& raw.number == 2 ==> match map_value_of(code, raw.reference) {
                        Err(error) => new == Err::<NestedView, ParseError>(error),
                        Ok(value) => {
                            &&& new is Ok
                            &&& new->Ok_0.name == nested.name
                            &&& new->Ok_0.is_map_entry == nested.is_map_entry
                            &&& new->Ok_0.key == nested.key
                            &&& new->Ok_0.value == Some(value)
                            &&& value == MapValue::Timestamp || value == MapValue::Duration ==> (
                            new->Ok_0.qualified_name is None)
                            &&& value != MapValue::Timestamp && value != MapValue::Duration ==> {
                                &&& raw.reference is None ==> new->Ok_0.qualified_name is None
                                &&& raw.reference matches Some(name) ==> new->Ok_0.qualified_name
                                    == Some(undotted(name))
                            }
                        },
                    }
                    &&& raw.number != 1 && raw.number != 2 ==> new == Ok::<
                        NestedView,
                        ParseError,
                    >(nested)
                },
            }
        }),
{
}

/// Of the map entry types with one name, the last counts.
pub proof fn law_last_entry_counts(
    entries: Seq<(Seq<char>, EntryView)>,
    j: int,
    name: Seq<char>,
)
    requires
        j >= -1,
        forall|i: int| j < i < entries.len() ==> (#[trigger] entries[i]).0 != name,
    ensures
        0 <= j < entries.len() && entries[j].0 == name ==> entry_named(entries, name) == Some(
            entries[j].1,
        ),
        j == -1 ==> entry_named(entries, name) is None,
    decreases entries.len(),
{
    if entries.len() > 0 && j < entries.len() - 1 {
        let before = entries.drop_last();
        assert(entries[entries.len() - 1].0 != name);
        assert forall|i: int| j < i < before.len() implies (#[trigger] before[i]).0 != name by {
            assert(entries[i].0 != name);
        }
        law_last_entry_counts(before, j, name);
    }
}

// ---------------------------------------------------------------------------
// Fields
// ---------------------------------------------------------------------------

/// A field is a map just if it is a repeated message (label 3, type 11) whose
/// type is a map entry nested in the message itself, by the last two segments
/// of its type name.
pub proof fn law_map_fields(
    raw: RawView,
    code: i64,
    entries: Seq<(Seq<char>, EntryView)>,
    message: Seq<char>,
)
    ensures
        entry_referred(raw, code, entries, message) is Some <==> {
            &&& raw.label == 3
            &&& code == 11
            &&& raw.reference matches Some(reference)
            &&& parent_segment(reference) == Some(message)
            &&& entry_named(entries, last_segment(reference)) is Some
        },
        entry_referred(raw, code, entries, message) matches Some(entry) ==> entry_named(
            entries,
            last_segment(raw.reference->0),
        ) == Some(entry),
{
}

/// What a declared field means.
///
/// A map has the key and value of its entry type and no presence of its own. Any
/// other field has the kind of its type; label 3 makes it repeated; it has
/// explicit presence if it is a proto3 `optional`, a message, a timestamp or a
/// duration, or a member of a real oneof group. Enums and messages keep their
/// type name without its leading dot.
pub proof fn law_field_meaning(
    raw: RawView,
    entries: Seq<(Seq<char>, EntryView)>,
    message: Seq<char>,
)
    ensures
        ({
            let meaning = interpreted(raw, entries, message);
            match raw.type_code {
                None => meaning == Err::<FieldView, ParseError>(ParseError::MissingType),
                Some(code) => match entry_referred(raw, code, entries, message) {
                    Some(entry) => {
                        &&& meaning matches Ok(field)
                        &&& field.number == raw.number
                        &&& field.name == raw.name
                        &&& field.kind == (FieldKind::MapOf { key: entry.key, value: entry.value })
                        &&& field.label == Label::Single
                        &&& field.qualified_name == entry.qualified_name
                        &&& field.oneof_index is None
                    },
                    None => match kind_of(code, raw.reference) {
                        Err(error) => meaning == Err::<FieldView, ParseError>(error),
                        Ok(kind) => {
                            let present = raw.proto3_optional || raw.oneof_index is Some || kind
                                == FieldKind::Message || kind == FieldKind::Timestamp || kind
                                == FieldKind::Duration;
                            &&& meaning matches Ok(field)
                            &&& field.number == raw.number
                            &&& field.name == raw.name
                            &&& field.kind == kind
                            &&& field.label == Label::Repeated <==> raw.label == 3
                            &&& field.label == Label::Optional <==> raw.label != 3 && present
                            &&& field.label == Label::Single <==> raw.label != 3 && !present
                            &&& kind == FieldKind::Enum || kind == FieldKind::Message ==> {
                                &&& raw.reference matches Some(name) ==> field.qualified_name
                                    == Some(undotted(name))
                                &&& raw.reference is None ==> field.qualified_name is None
                            }
                            &&& kind != FieldKind::Enum && kind != FieldKind::Message ==> (
                            field.qualified_name is None)
                            &&& raw.proto3_optional ==> field.oneof_index is None
                            &&& !raw.proto3_optional ==> field.oneof_index == raw.oneof_index
                        },
                    },
                },
            }
        }),
{
}

/// The fields of a message are interpreted one by one, and the first that has no
/// meaning is the error.
pub proof fn law_fields_interpreted(draft: DraftView, n: nat)
    requires
        n <= draft.fields.len(),
    ensures
        match interpreted_upto(draft, n) {
            Ok(fields) => {
                &&& fields.len() == n
                &&& forall|i: int|
                    0 <= i < n ==> interpreted(draft.fields[i], draft.entries, draft.name) == Ok::<
                        FieldView,
                        ParseError,
                    >(#[trigger] fields[i])
            },
            Err(error) => exists|i: int|
                #![trigger draft.fields[i]]
                0 <= i < n && interpreted(draft.fields[i], draft.entries, draft.name) == Err::<
                    FieldView,
                    ParseError,
                >(error) && (forall|j: int|
                    0 <= j < i ==> interpreted(
                        #[trigger] draft.fields[j],
                        draft.entries,
                        draft.name,
                    ) is Ok),
        },
    decreases n,
{
    if n > 0 {
        law_fields_interpreted(draft, (n - 1) as nat);
        if let Ok(fields) = interpreted_upto(draft, (n - 1) as nat) {
            if interpreted(draft.fields[n - 1], draft.entries, draft.name) is Err {
                let last = draft.fields[n - 1];
                assert forall|j: int| 0 <= j < n - 1 implies interpreted(
                    #[trigger] draft.fields[j],
                    draft.entries,
                    draft.name,
                ) is Ok by {
                    assert(interpreted(draft.fields[j], draft.entries, draft.name) == Ok::<
                        FieldView,
                        ParseError,
                    >(fields[j]));
                }
            }
        }
    }
}

// ---------------------------------------------------------------------------
// Oneof groups
// ---------------------------------------------------------------------------

/// Whether the declared oneof group is one that protoc made for a proto3
/// `optional`: such a field names it, and no other field that has a group does.
pub open spec fn made_for_optional(
    raws: Seq<RawView>,
    fields: Seq<FieldView>,
    group: int,
) -> bool {
    &&& exists|i: int|
        #![trigger raws[i]]
        0 <= i < raws.len() && raws[i].proto3_optional && (raws[i].oneof_index matches Some(index)
            && index == group)
    &&& forall|i: int|
        #![trigger fields[i]]
        0 <= i < fields.len() ==> !(fields[i].oneof_index matches Some(index) && index == group)
}

/// The groups that are listed are the declared ones but for those that protoc
/// made, in their order.
pub proof fn law_listed_groups(
    names: Seq<Seq<char>>,
    raws: Seq<RawView>,
    fields: Seq<FieldView>,
    n: nat,
)
    ensures
        real_oneofs(names, raws, fields, 0).len() == 0,
        made_for_optional(raws, fields, n as int) ==> real_oneofs(names, raws, fields, n + 1)
            == real_oneofs(names, raws, fields, n),
        !made_for_optional(raws, fields, n as int) ==> real_oneofs(names, raws, fields, n + 1)
            == real_oneofs(names, raws, fields, n).push(names[n as int]),
{
    let group = n as int;
    if has_optional(raws, group) {
        let i = choose|i: int|
            0 <= i < raws.len() && (#[trigger] raws[i]).proto3_optional && in_group(
                raws[i].oneof_index,
                group,
            );
        assert(raws[i].proto3_optional);
    }
    assert(made_for_optional(raws, fields, group) == is_synthetic(raws, fields, group)) by {
        if made_for_optional(raws, fields, group) {
            let i = choose|i: int|
                #![trigger raws[i]]
                0 <= i < raws.len() && raws[i].proto3_optional && (raws[i].oneof_index
                    matches Some(index) && index == group);
            assert(in_group(raws[i].oneof_index, group));
            assert(has_optional(raws, group));
            if has_member(fields, group) {
                let j = choose|j: int|
                    0 <= j < fields.len() && in_group((#[trigger] fields[j]).oneof_index, group);
                assert(fields[j].oneof_index == Some(group as u32));
            }
        }
        if is_synthetic(raws, fields, group) {
            assert forall|j: int|
                #![trigger fields[j]]
                0 <= j < fields.len() implies !(fields[j].oneof_index matches Some(index) && index
                == group) by {
                assert(!in_group(fields[j].oneof_index, group));
            }
        }
    }
}

proof fn lemma_groups_grow(
    names: Seq<Seq<char>>,
    raws: Seq<RawView>,
    fields: Seq<FieldView>,
    m: nat,
    n: nat,
)
    requires
        m <= n <= names.len(),
    ensures
        real_oneofs(names, raws, fields, m).len() <= real_oneofs(names, raws, fields, n).len(),
        real_oneofs(names, raws, fields, n).len() <= n,
        forall|k: int|
            0 <= k < real_oneofs(names, raws, fields, m).len() ==> #[trigger] real_oneofs(
                names,
                raws,
                fields,
                n,
            )[k] == real_oneofs(names, raws, fields, m)[k],
    decreases n,
{
    if m < n {
        lemma_groups_grow(names, raws, fields, m, (n - 1) as nat);
    } else if n > 0 {
        lemma_groups_grow(names, raws, fields, (n - 1) as nat, (n - 1) as nat);
    }
}

/// A member of a oneof group keeps its group: what its index names among the
/// listed groups is what it named among the declared ones, and two members have
/// the same group just if they were declared with the same. One whose group was
/// never declared has none, and nothing else of a field changes.
pub proof fn law_members_keep_groups(
    names: Seq<Seq<char>>,
    raws: Seq<RawView>,
    fields: Seq<FieldView>,
    i: int,
    j: int,
)
    requires
        0 <= i < fields.len(),
        0 <= j < fields.len(),
        names.len() <= u32::MAX,
    ensures
        ({
            let listed = real_oneofs(names, raws, fields, names.len());
            let a = settled(names, raws, fields, fields[i]);
            let b = settled(names, raws, fields, fields[j]);
            &&& a == (FieldView { oneof_index: a.oneof_index, ..fields[i] })
            &&& a.oneof_index is Some <==> (fields[i].oneof_index matches Some(group) && group
                < names.len())
            &&& a.oneof_index matches Some(k) ==> k < listed.len() && listed[k as int]
                == names[fields[i].oneof_index->0 as int]
            &&& a.oneof_index is Some && b.oneof_index is Some ==> (a.oneof_index == b.oneof_index
                <==> fields[i].oneof_index == fields[j].oneof_index)
        }),
{
    lemma_member_group(names, raws, fields, i);
    lemma_member_group(names, raws, fields, j);
    if let (Some(g), Some(h)) = (fields[i].oneof_index, fields[j].oneof_index) {
        if g < names.len() && h < names.len() {
            if g < h {
                lemma_groups_grow(names, raws, fields, g as nat + 1, h as nat);
            }
            if h < g {
                lemma_groups_grow(names, raws, fields, h as nat + 1, g as nat);
            }
        }
    }
}

proof fn lemma_member_group(
    names: Seq<Seq<char>>,
    raws: Seq<RawView>,
    fields: Seq<FieldView>,
    i: int,
)
    requires
        0 <= i < fields.len(),
        names.len() <= u32::MAX,
    ensures
        fields[i].oneof_index matches Some(g) ==> (g < names.len() ==> ({
            let before = real_oneofs(names, raws, fields, g as nat);
            let next = real_oneofs(names, raws, fields, g as nat + 1);
            let listed = real_oneofs(names, raws, fields, names.len());
            &&& next == before.push(names[g as int])
            &&& before.len() <= g
            &&& before.len() < listed.len()
            &&& listed[before.len() as int] == names[g as int]
        })),
{
    if let Some(g) = fields[i].oneof_index {
        if g < names.len() {
            law_listed_groups(names, raws, fields, g as nat);
            assert(!made_for_optional(raws, fields, g as int));
            let next = real_oneofs(names, raws, fields, g as nat + 1);
            lemma_groups_grow(names, raws, fields, g as nat, g as nat);
            lemma_groups_grow(names, raws, fields, g as nat + 1, names.len());
            let before = real_oneofs(names, raws, fields, g as nat);
            assert(next[before.len() as int] == names[g as int]);
        }
    }
}

/// A descriptor is made of the declared name, the fields that were interpreted,
/// each with its group among the listed ones, and the listed groups.
pub proof fn law_descriptor_parts(draft: DraftView)
    ensures
        match interpreted_upto(draft, draft.fields.len()) {
            Err(error) => described(draft) == Err::<MessageDescriptorView, ParseError>(error),
            Ok(fields) => {
                &&& described(draft) matches Ok(message)
                &&& message.name == draft.name
                &&& message.oneofs == real_oneofs(
                    draft.oneofs,
                    draft.fields,
                    fields,
                    draft.oneofs.len(),
                )
                &&& message.fields.len() == fields.len()
                &&& forall|i: int|
                    0 <= i < fields.len() ==> #[trigger] message.fields[i] == settled(
                        draft.oneofs,
                        draft.fields,
                        fields,
                        fields[i],
                    )
            },
        },
{
}

/// Bytes that are no records are refused with what is wrong with them, wherever
/// in a descriptor they stand, and so is what has no meaning.
pub proof fn law_malformed_descriptors(
    s: Seq<u8>,
    raw: RawView,
    nested: NestedView,
    draft: DraftView,
    name: Seq<char>,
)
    requires
        s.len() > 0,
        field_in(s).result is Err,
    ensures
        ({
            let error = ParseError::Wire(field_in(s).result->Err_0);
            &&& raw_in(s, raw) == Err::<RawView, ParseError>(error)
            &&& nested_in(s, nested) == Err::<NestedView, ParseError>(error)
            &&& draft_in(s, draft) == Err::<DraftView, ParseError>(error)
            &&& map_entry_in(s, true) == Err::<bool, ParseError>(error)
            &&& map_entry_in(s, false) == Err::<bool, ParseError>(error)
            &&& oneof_name_in(s, name) == Err::<Seq<char>, ParseError>(error)
        }),
{
}

/// A descriptor is what its draft stands for, or the error of either.
pub proof fn law_descriptor_of_bytes(bytes: Seq<u8>)
    ensures
        match draft_in(bytes, draft_empty()) {
            Err(error) => descriptor_in(bytes) == Err::<MessageDescriptorView, ParseError>(error),
            Ok(draft) => descriptor_in(bytes) == described(draft),
        },
{
}

} // verus!
