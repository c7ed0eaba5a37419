//! The compiled, internal description of a message that the encoder and
//! decoder walk over.
//!
//! This is *not* the on-the-wire `FileDescriptorProto` -- it is the digested
//! form that is built once (at import time) and then reused for every encode
//! and decode. It is deliberately free of any Python types. Resolved references
//! to other classes (for enum/message fields) live separately, in
//! [`crate::message::Descriptor`], so this stays pure.
use std::collections::HashMap;
use vstd::prelude::*;

use crate::wire::WireType;

verus! {

broadcast use vstd::std_specs::hash::group_hash_axioms;

/// Maximum message nesting the codec will follow, on both encode and decode
/// (matches the default recursion limit of google's implementations). Guards
/// against stack exhaustion from adversarially nested input, and on encode it
/// also catches reference cycles between Python objects.
pub const MAX_DEPTH: usize = 100;

/// Field numbers below this are looked up in a table.
pub const DENSE_LIMIT: u32 = 1024;

/// A protobuf scalar (leaf) value type.
#[derive(Debug, Clone, Copy, PartialEq, Eq, Structural)]
pub enum ScalarType {
    Double,
    Float,
    Int32,
    Int64,
    UInt32,
    UInt64,
    SInt32,
    SInt64,
    Fixed32,
    Fixed64,
    SFixed32,
    SFixed64,
    Bool,
    String,
    Bytes,
}

impl ScalarType {
    /// The wire type of one value of this scalar.
    pub open spec fn wire(self) -> WireType {
        match self {
            ScalarType::Double | ScalarType::Fixed64 | ScalarType::SFixed64 => WireType::I64,
            ScalarType::Float | ScalarType::Fixed32 | ScalarType::SFixed32 => WireType::I32,
            ScalarType::String | ScalarType::Bytes => WireType::Len,
            _ => WireType::Varint,
        }
    }

    /// Whether repeated values of this scalar share one chunk.
    pub open spec fn packable(self) -> bool {
        self != ScalarType::String && self != ScalarType::Bytes
    }

    /// The wire type used to encode a single value of this scalar.
    pub fn wire_type(self) -> (wire: WireType)
        ensures
            wire == self.wire(),
    {
        match self {
            ScalarType::Double | ScalarType::Fixed64 | ScalarType::SFixed64 => WireType::I64,
            ScalarType::Float | ScalarType::Fixed32 | ScalarType::SFixed32 => WireType::I32,
            ScalarType::String | ScalarType::Bytes => WireType::Len,
            _ => WireType::Varint,
        }
    }

    /// Whether this scalar is a numeric type eligible for packed encoding when
    /// repeated (everything except length-delimited string/bytes).
    pub fn is_packable(self) -> (packable: bool)
        ensures
            packable == self.packable(),
            packable == (self.wire() != WireType::Len),
    {
        !matches!(self, ScalarType::String | ScalarType::Bytes)
    }
}

/// The cardinality of a field.
#[derive(Debug, Clone, Copy, PartialEq, Eq, Structural)]
pub enum Label {
    /// A plain proto3 field with no explicit presence: the default value is
    /// indistinguishable from "unset" and is not serialized.
    Single,
    /// A field with explicit presence (`optional`, a message field, or a real
    /// `oneof` member). Represented as `T | None` in Python.
    Optional,
    /// A `repeated` field, represented as `list[T]` in Python.
    Repeated,
}

/// The value type of a map's value slot.
#[derive(Debug, Clone, Copy, PartialEq, Eq, Structural)]
pub enum MapValue {
    Scalar(ScalarType),
    Enum,
    Message,
    /// `google.protobuf.Timestamp`, surfaced as a Python `datetime`.
    Timestamp,
    /// `google.protobuf.Duration`, surfaced as a Python `timedelta`.
    Duration,
}

/// What kind of value a field holds (independent of its cardinality).
#[derive(Debug, Clone, Copy, PartialEq, Eq, Structural)]
pub enum FieldKind {
    Scalar(ScalarType),
    /// A proto enum. Encoded as an `int32` varint; the Python side is an
    /// `IntEnum` subclass resolved at link time.
    Enum,
    /// A nested message. Encoded length-delimited; recurses through the child's
    /// own compiled descriptor.
    Message,
    /// A `map<K, V>` field. On the wire it is a repeated entry message with
    /// `key` = 1 and `value` = 2.
    MapOf { key: ScalarType, value: MapValue },
    /// `google.protobuf.Timestamp`, surfaced as a Python `datetime`.
    Timestamp,
    /// `google.protobuf.Duration`, surfaced as a Python `timedelta`.
    Duration,
}

/// One field of a message.
#[derive(Debug, Clone, PartialEq)]
pub struct FieldDescriptor {
    /// Protobuf field number (the tag).
    pub number: u32,
    /// The Python attribute name on the dataclass instance.
    pub name: String,
    pub kind: FieldKind,
    pub label: Label,
    /// Fully-qualified proto name (minus the leading dot) for enum/message
    /// fields and a map's message/enum value, e.g. `pkg.Outer.Inner`. Used to
    /// resolve the Python class at link time; the full path lets nested types
    /// resolve unambiguously.
    pub qualified_name: Option<String>,
    /// Index into `MessageDescriptor::oneofs` if this is a real oneof member.
    pub oneof_index: Option<u32>,
}

/// What a [`FieldDescriptor`] says, with its texts as character sequences.
pub struct FieldView {
    pub number: u32,
    pub name: Seq<char>,
    pub kind: FieldKind,
    pub label: Label,
    pub qualified_name: Option<Seq<char>>,
    pub oneof_index: Option<u32>,
}

/// The characters of a text that may be missing.
pub open spec fn text_view(text: Option<String>) -> Option<Seq<char>> {
    match text {
        Some(text) => Some(text@),
        None => None,
    }
}

impl View for FieldDescriptor {
    type V = FieldView;

    open spec fn view(&self) -> FieldView {
        FieldView {
            number: self.number,
            name: self.name@,
            kind: self.kind,
            label: self.label,
            qualified_name: text_view(self.qualified_name),
            oneof_index: self.oneof_index,
        }
    }
}

impl FieldDescriptor {
    /// A convenience for the common scalar case.
    pub fn scalar(number: u32, name: &str, scalar: ScalarType, label: Label) -> (field:
        FieldDescriptor)
        ensures
            field@ == (FieldView {
                number,
                name: name@,
                kind: FieldKind::Scalar(scalar),
                label,
                qualified_name: None,
                oneof_index: None,
            }),
    {
        FieldDescriptor {
            number,
            name: name.to_owned(),
            kind: FieldKind::Scalar(scalar),
            label,
            qualified_name: None,
            oneof_index: None,
        }
    }
}

/// A whole message type.
#[derive(Debug, Clone, PartialEq)]
pub struct MessageDescriptor {
    pub name: String,
    pub fields: Vec<FieldDescriptor>,
    /// Names of the real (non-synthetic) oneof groups, index-aligned with
    /// `FieldDescriptor::oneof_index`.
    pub oneofs: Vec<String>,
}

/// What each of several fields says.
pub open spec fn fields_view(fields: Seq<FieldDescriptor>) -> Seq<FieldView> {
    Seq::new(fields.len(), |i: int| fields[i]@)
}

/// The characters of each of several names.
pub open spec fn names_view(names: Seq<String>) -> Seq<Seq<char>> {
    Seq::new(names.len(), |i: int| names[i]@)
}

/// What a [`MessageDescriptor`] says, with its texts as character sequences.
pub struct MessageDescriptorView {
    pub name: Seq<char>,
    pub fields: Seq<FieldView>,
    pub oneofs: Seq<Seq<char>>,
}

impl View for MessageDescriptor {
    type V = MessageDescriptorView;

    open spec fn view(&self) -> MessageDescriptorView {
        MessageDescriptorView {
            name: self.name@,
            fields: fields_view(self.fields@),
            oneofs: names_view(self.oneofs@),
        }
    }
}

/// The index of the first of `fields`, from `start` on, that has the given
/// wire number.
pub open spec fn field_from(fields: Seq<FieldView>, number: u32, start: nat) -> Option<nat>
    decreases fields.len() - start,
{
    if start >= fields.len() {
        None
    } else if fields[start as int].number == number {
        Some(start)
    } else {
        field_from(fields, number, start + 1)
    }
}

/// The index of the first of `fields` that has the given wire number.
pub open spec fn field_at(fields: Seq<FieldView>, number: u32) -> Option<nat> {
    field_from(fields, number, 0)
}

/// [`field_from`] finds a field with the number, and the first one.
pub proof fn lemma_field_from(fields: Seq<FieldView>, number: u32, start: nat)
    ensures
        match field_from(fields, number, start) {
            Some(i) => {
                &&& start <= i < fields.len()
                &&& fields[i as int].number == number
                &&& forall|j: int| start <= j < i ==> (#[trigger] fields[j]).number != number
            },
            None => forall|j: int|
                start <= j < fields.len() ==> (#[trigger] fields[j]).number != number,
        },
    decreases fields.len() - start,
{
    if start < fields.len() && fields[start as int].number != number {
        lemma_field_from(fields, number, start + 1);
    }
}

impl MessageDescriptor {
    /// Look up a field by its wire number (used by the decoder).
    pub fn field_by_number(&self, number: u32) -> (field: Option<&FieldDescriptor>)
        ensures
            field == (match field_at(self@.fields, number) {
                Some(i) => Some(&self.fields@[i as int]),
                None => None,
            }),
    {
        let mut i: usize = 0;
        while i < self.fields.len()
            invariant
                i <= self.fields@.len(),
                field_at(self@.fields, number) == field_from(self@.fields, number, i as nat),
            decreases self.fields@.len() - i,
        {
            if self.fields[i].number == number {
                return Some(&self.fields[i]);
            }
            i = i + 1;
        }
        None
    }
}

/// Field-number to field-index lookup for the decoder.
#[derive(Debug, Clone)]
pub enum FieldIndex {
    /// The index of each small field number.
    Dense(Vec<Option<usize>>),
    /// For messages with large field numbers.
    Sparse(HashMap<u32, usize>),
}

pub open spec fn index_view(index: Option<usize>) -> Option<nat> {
    match index {
        Some(i) => Some(i as nat),
        None => None,
    }
}

impl FieldIndex {
    /// The field index that is stored for a field number.
    pub open spec fn entry(self, number: u32) -> Option<nat> {
        match self {
            FieldIndex::Dense(table) => if number < table@.len() {
                index_view(table@[number as int])
            } else {
                None
            },
            FieldIndex::Sparse(map) => if map@.contains_key(number) {
                Some(map@[number] as nat)
            } else {
                None
            },
        }
    }

    /// Whether every field number is small enough for a table.
    pub open spec fn fits_dense(fields: Seq<FieldDescriptor>) -> bool {
        forall|i: int| 0 <= i < fields.len() ==> (#[trigger] fields[i]).number < DENSE_LIMIT
    }

    /// Index `fields` by wire number. Where two fields share a number, the first
    /// one is found, as [`MessageDescriptor::field_by_number`] finds it.
    pub fn build(fields: &[FieldDescriptor]) -> (index: FieldIndex)
        ensures
            forall|number: u32| #[trigger] index.entry(number) == field_at(fields_view(fields@), number),
            index is Dense == FieldIndex::fits_dense(fields@),
    {
        let mut size: usize = 0;
        let mut i: usize = 0;
        while i < fields.len()
            invariant
                i <= fields@.len(),
                size <= DENSE_LIMIT,
                forall|j: int| 0 <= j < i ==> (#[trigger] fields@[j]).number < size,
            decreases fields@.len() - i,
        {
            let number: u32 = fields[i].number;
            if number >= DENSE_LIMIT {
                return FieldIndex::build_sparse(fields);
            }
            if number as usize >= size {
                size = number as usize + 1;
            }
            i = i + 1;
        }
        FieldIndex::build_dense(fields, size)
    }

    fn build_dense(fields: &[FieldDescriptor], size: usize) -> (index: FieldIndex)
        requires
            forall|j: int| 0 <= j < fields@.len() ==> (#[trigger] fields@[j]).number < size,
        ensures
            index is Dense,
            forall|number: u32| #[trigger] index.entry(number) == field_at(fields_view(fields@), number),
    {
        let mut table: Vec<Option<usize>> = Vec::new();
        let mut k: usize = 0;
        while k < size
            invariant
                table@.len() == k,
                k <= size,
                forall|j: int| 0 <= j < k ==> #[trigger] table@[j] == None::<usize>,
            decreases size - k,
        {
            table.push(None);
            k = k + 1;
        }
        let mut i: usize = fields.len();
        while i > 0
            invariant
                i <= fields@.len(),
                table@.len() == size,
                forall|j: int| 0 <= j < fields@.len() ==> (#[trigger] fields@[j]).number < size,
                forall|j: u32|
                    0 <= j < size ==> index_view(#[trigger] table@[j as int]) == field_from(
                        fields_view(fields@),
                        j,
                        i as nat,
                    ),
            decreases i,
        {
            i = i - 1;
            let number: u32 = fields[i].number;
            table.set(number as usize, Some(i));
        }
        proof {
            assert forall|number: u32| number >= size implies field_at(fields_view(fields@), number) is None by {
                lemma_field_from(fields_view(fields@), number, 0);
            }
        }
        FieldIndex::Dense(table)
    }

    fn build_sparse(fields: &[FieldDescriptor]) -> (index: FieldIndex)
        ensures
            index is Sparse,
            forall|number: u32| #[trigger] index.entry(number) == field_at(fields_view(fields@), number),
    {
        let mut map: HashMap<u32, usize> = HashMap::new();
        let mut i: usize = fields.len();
        while i > 0
            invariant
                i <= fields@.len(),
                forall|number: u32|
                    #![trigger map@.contains_key(number)]
                    (if map@.contains_key(number) {
                        Some(map@[number] as nat)
                    } else {
                        None
                    }) == field_from(fields_view(fields@), number, i as nat),
            decreases i,
        {
            i = i - 1;
            map.insert(fields[i].number, i);
        }
        FieldIndex::Sparse(map)
    }

    /// The index of the field with the given wire number.
    pub fn get(&self, number: u32) -> (index: Option<usize>)
        ensures
            index_view(index) == self.entry(number),
    {
        match self {
            FieldIndex::Dense(table) => {
                if (number as usize) < table.len() {
                    table[number as usize]
                } else {
                    None
                }
            },
            FieldIndex::Sparse(map) => {
                match map.get(&number) {
                    Some(index) => Some(*index),
                    None => None,
                }
            },
        }
    }
}

} // verus!
