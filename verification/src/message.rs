//! The `Descriptor`: a compiled message descriptor plus the resolved class
//! references (`refs`) needed to reconstruct enum/message fields on decode.
//!
//! Encoding never strictly needs `refs` -- a nested message is read straight
//! off the instance and recurses through its own descriptor. Only decoding
//! needs to know which class to build, so those references are filled in
//! lazily once the whole module is defined (see [`Descriptor::link`]).
//!
//! Classes, enum members and default objects are known by their handles,
//! numbers that the embedding program gives out; descriptors by their index in
//! a schema, a slice of descriptors.
use std::collections::HashMap;
use vstd::prelude::*;

use crate::descriptor::{
    field_at, index_view, FieldDescriptor, FieldIndex, FieldKind, FieldView, MapValue,
    MessageDescriptor, MessageDescriptorView,
};
use crate::parse::{self, descriptor_in, ParseError};

verus! {

broadcast use vstd::std_specs::hash::group_hash_axioms;

/// How many low enum values the direct member table covers. Proto enums are
/// overwhelmingly small and zero-based, so most lookups become an array index.
pub const ENUM_TABLE_SIZE: usize = 64;

/// A resolved reference for one enum/message field, captured at link time so
/// the hot decode/encode paths avoid repeated attribute lookups.
#[derive(Debug)]
pub struct LinkedRef {
    /// The class (an enum or a message class).
    pub class: usize,
    /// For enums without a custom hook for missing values: the members with
    /// values in `0..ENUM_TABLE_SIZE`, indexed by value; a `None` entry means
    /// that there is no such member (open-enum int fallback). Values outside
    /// the table are looked up in the class's own map of values.
    pub enum_table: Option<Vec<Option<usize>>>,
    /// For message classes: the class's own compiled descriptor.
    pub desc: Option<usize>,
}

/// What a [`LinkedRef`] says.
pub struct LinkedView {
    pub class: usize,
    pub enum_table: Option<Seq<Option<usize>>>,
    pub desc: Option<usize>,
}

impl View for LinkedRef {
    type V = LinkedView;

    open spec fn view(&self) -> LinkedView {
        LinkedView {
            class: self.class,
            enum_table: match self.enum_table {
                Some(table) => Some(table@),
                None => None,
            },
            desc: self.desc,
        }
    }
}

pub open spec fn linked_view(linked: Option<&LinkedRef>) -> Option<LinkedView> {
    match linked {
        Some(linked) => Some(linked@),
        None => None,
    }
}

/// Everything that the fast construction path needs, verified and captured at
/// link time.
#[derive(Debug)]
pub struct FastInit {
    /// The exact class the fast path was verified for.
    pub class: usize,
    /// Per-field default objects, index-aligned with the fields. Entries for
    /// repeated/map fields are a placeholder: the decoder always pre-creates
    /// those accumulators, so their slot is never consulted.
    pub defaults: Vec<usize>,
}

/// What a [`FastInit`] says.
pub struct FastInitView {
    pub class: usize,
    pub defaults: Seq<usize>,
}

impl View for FastInit {
    type V = FastInitView;

    open spec fn view(&self) -> FastInitView {
        FastInitView { class: self.class, defaults: self.defaults@ }
    }
}

/// A class could not be linked to its descriptor.
#[derive(Debug, Clone, Copy, PartialEq, Eq, Structural)]
pub enum LinkError {
    /// The defaults for the fast construction path must have one entry per
    /// field.
    DefaultsLength,
}

/// A compiled message descriptor.
#[derive(Debug)]
pub struct Descriptor {
    inner: MessageDescriptor,
    /// Field-number -> field-index lookup for the decoder.
    field_index: FieldIndex,
    /// Written once by `link`.
    refs: Option<HashMap<u32, LinkedRef>>,
    linked: bool,
    /// Set at link time only when the class was verified as a plain generated
    /// one; a subclass sharing this descriptor gets the normal construction.
    fast_init: Option<FastInit>,
}

/// What a [`Descriptor`] says.
pub struct DescriptorView {
    pub message: MessageDescriptorView,
    pub refs: Option<Map<u32, LinkedView>>,
    pub linked: bool,
    pub fast_init: Option<FastInitView>,
}

impl DescriptorView {
    /// The reference that is linked to the field with the given number.
    pub open spec fn linked_ref(self, number: u32) -> Option<LinkedView> {
        match self.refs {
            Some(refs) => if refs.contains_key(number) {
                Some(refs[number])
            } else {
                None
            },
            None => None,
        }
    }
}

/// The references that a list of pairs maps field numbers to; a later pair
/// replaces an earlier one.
pub open spec fn refs_of(mapping: Seq<(u32, LinkedRef)>) -> Map<u32, LinkedView>
    decreases mapping.len(),
{
    if mapping.len() == 0 {
        Map::empty()
    } else {
        refs_of(mapping.drop_last()).insert(mapping.last().0, mapping.last().1@)
    }
}

/// Whether a field refers to another class.
pub open spec fn needs_class(kind: FieldKind) -> bool {
    match kind {
        FieldKind::Enum | FieldKind::Message => true,
        FieldKind::MapOf { value, .. } => value == MapValue::Enum || value == MapValue::Message,
        FieldKind::Scalar(_) | FieldKind::Timestamp | FieldKind::Duration => false,
    }
}

/// Number and type name of those fields that refer to another class by name.
pub open spec fn references(fields: Seq<FieldView>) -> Seq<(u32, Seq<char>)>
    decreases fields.len(),
{
    if fields.len() == 0 {
        Seq::empty()
    } else {
        let before = references(fields.drop_last());
        let field = fields.last();
        match field.qualified_name {
            Some(name) => if needs_class(field.kind) {
                before.push((field.number, name))
            } else {
                before
            },
            None => before,
        }
    }
}

/// The names of the members of a oneof group, in declaration order.
pub open spec fn members(fields: Seq<FieldView>, group: int) -> Seq<Seq<char>>
    decreases fields.len(),
{
    if fields.len() == 0 {
        Seq::empty()
    } else {
        let before = members(fields.drop_last(), group);
        if parse::in_group(fields.last().oneof_index, group) {
            before.push(fields.last().name)
        } else {
            before
        }
    }
}

/// What pairs of a name and a number say.
pub open spec fn references_view(pairs: Seq<(u32, String)>) -> Seq<(u32, Seq<char>)> {
    Seq::new(pairs.len(), |i: int| (pairs[i].0, pairs[i].1@))
}

/// What a group's name and its members' names say.
pub open spec fn groups_view(groups: Seq<(String, Vec<String>)>) -> Seq<
    (Seq<char>, Seq<Seq<char>>),
> {
    Seq::new(
        groups.len(),
        |i: int| (groups[i].0@, crate::descriptor::names_view(groups[i].1@)),
    )
}

impl View for Descriptor {
    type V = DescriptorView;

    closed spec fn view(&self) -> DescriptorView {
        DescriptorView {
            message: self.inner@,
            refs: match self.refs {
                Some(refs) => Some(refs@.map_values(|linked: LinkedRef| linked@)),
                None => None,
            },
            linked: self.linked,
            fast_init: match self.fast_init {
                Some(fast_init) => Some(fast_init@),
                None => None,
            },
        }
    }
}

/// What the descriptors of a schema say.
pub open spec fn schema_view(schema: Seq<Descriptor>) -> Seq<DescriptorView> {
    Seq::new(schema.len(), |i: int| schema[i]@)
}

/// The fields of a compiled descriptor can be given by index.
pub proof fn lemma_field_limit(desc: Descriptor)
    ensures
        desc@.message.fields.len() <= usize::MAX,
{
    assert(desc.inner.fields.len() == desc@.message.fields.len());
}

impl Descriptor {
    #[verifier::type_invariant]
    spec fn well_formed(&self) -> bool {
        &&& forall|number: u32|
            #[trigger] self.field_index.entry(number) == field_at(self.inner@.fields, number)
        &&& forall|i: int|
            0 <= i < self.inner.fields@.len() ==> ((#[trigger] self.inner.fields@[i]).oneof_index
                matches Some(group) ==> group < self.inner.oneofs@.len())
        &&& self.fast_init matches Some(fast_init) ==> fast_init.defaults@.len()
            == self.inner.fields@.len()
    }

    pub fn name(&self) -> (name: &str)
        ensures
            name@ == self@.message.name,
    {
        self.inner.name.as_str()
    }

    pub fn is_linked(&self) -> (linked: bool)
        ensures
            linked == self@.linked,
    {
        self.linked
    }

    /// Field attribute names in declaration order.
    pub fn field_names(&self) -> (names: Vec<String>)
        ensures
            names@.len() == self@.message.fields.len(),
            forall|i: int|
                0 <= i < names@.len() ==> (#[trigger] names@[i])@ == self@.message.fields[i].name,
    {
        let mut names: Vec<String> = Vec::new();
        let mut i: usize = 0;
        while i < self.inner.fields.len()
            invariant
                i <= self.inner.fields@.len(),
                names@.len() == i,
                forall|j: int|
                    0 <= j < i ==> (#[trigger] names@[j])@ == self@.message.fields[j].name,
            decreases self.inner.fields@.len() - i,
        {
            names.push(self.inner.fields[i].name.clone());
            i = i + 1;
        }
        names
    }

    /// `(field_number, qualified_type_name)` for every field that references
    /// another class (enum, message, or a map with an enum/message value). The
    /// name is the full proto path (e.g. `pkg.Outer.Inner`).
    ///
    /// Native well-known types surface as datetime/timedelta: there is no
    /// generated class to link.
    pub fn ref_fields(&self) -> (out: Vec<(u32, String)>)
        ensures
            references_view(out@) == references(self@.message.fields),
    {
        let mut out: Vec<(u32, String)> = Vec::new();
        let mut i: usize = 0;
        let ghost fields = self@.message.fields;
        proof {
            assert(references_view(out@) =~= Seq::<(u32, Seq<char>)>::empty());
        }
        while i < self.inner.fields.len()
            invariant
                i <= self.inner.fields@.len(),
                fields == self@.message.fields,
                references_view(out@) == references(fields.take(i as int)),
            decreases self.inner.fields@.len() - i,
        {
            let field = &self.inner.fields[i];
            proof {
                assert(fields.take(i + 1).drop_last() =~= fields.take(i as int));
                assert(fields.take(i + 1).last() == field@);
            }
            let ghost before = references_view(out@);
            let needs = match &field.kind {
                FieldKind::Enum | FieldKind::Message => true,
                FieldKind::MapOf { value, .. } => matches!(
                    value,
                    MapValue::Enum | MapValue::Message
                ),
                FieldKind::Scalar(_) | FieldKind::Timestamp | FieldKind::Duration => false,
            };
            if needs {
                if let Some(name) = &field.qualified_name {
                    out.push((field.number, name.clone()));
                    proof {
                        assert(references_view(out@) =~= before.push((field.number, name@)));
                    }
                }
            }
            i = i + 1;
        }
        proof {
            assert(fields.take(i as int) =~= fields);
        }
        out
    }

    /// `(oneof_group_name, [member_field_name, ...])` for every real oneof.
    ///
    /// Members are listed in field-declaration order. Synthetic single-member
    /// groups that protoc generates for proto3 `optional` are already excluded
    /// by the parser, so only user-written `oneof` groups appear here.
    pub fn oneofs(&self) -> (groups: Vec<(String, Vec<String>)>)
        ensures
            groups_view(groups@) == Seq::new(
                self@.message.oneofs.len(),
                |g: int| (self@.message.oneofs[g], members(self@.message.fields, g)),
            ),
    {
        let mut groups: Vec<(String, Vec<String>)> = Vec::new();
        let mut g: usize = 0;
        while g < self.inner.oneofs.len()
            invariant
                g <= self.inner.oneofs@.len(),
                groups@.len() == g,
                forall|j: int|
                    0 <= j < g ==> (#[trigger] groups@[j]).0@ == self@.message.oneofs[j],
                forall|j: int|
                    0 <= j < g ==> crate::descriptor::names_view((#[trigger] groups@[j]).1@)
                        == members(self@.message.fields, j),
            decreases self.inner.oneofs@.len() - g,
        {
            let names = self.member_names(g);
            groups.push((self.inner.oneofs[g].clone(), names));
            g = g + 1;
        }
        proof {
            assert(groups_view(groups@) =~= Seq::new(
                self@.message.oneofs.len(),
                |g: int| (self@.message.oneofs[g], members(self@.message.fields, g)),
            ));
        }
        groups
    }

    fn member_names(&self, group: usize) -> (names: Vec<String>)
        ensures
            crate::descriptor::names_view(names@) == members(self@.message.fields, group as int),
    {
        let mut names: Vec<String> = Vec::new();
        let mut i: usize = 0;
        let ghost fields = self@.message.fields;
        proof {
            assert(crate::descriptor::names_view(names@) =~= Seq::<Seq<char>>::empty());
        }
        while i < self.inner.fields.len()
            invariant
                i <= self.inner.fields@.len(),
                fields == self@.message.fields,
                crate::descriptor::names_view(names@) == members(
                    fields.take(i as int),
                    group as int,
                ),
            decreases self.inner.fields@.len() - i,
        {
            let field = &self.inner.fields[i];
            let ghost before = crate::descriptor::names_view(names@);
            proof {
                assert(fields.take(i + 1).drop_last() =~= fields.take(i as int));
                assert(fields.take(i + 1).last() == field@);
            }
            if let Some(index) = field.oneof_index {
                if index as usize == group {
                    names.push(field.name.clone());
                    proof {
                        assert(crate::descriptor::names_view(names@) =~= before.push(field.name@));
                    }
                }
            }
            i = i + 1;
        }
        proof {
            assert(fields.take(i as int) =~= fields);
        }
        names
    }

    /// Store resolved `(field_number, reference)` pairs and mark linked.
    ///
    /// `fast_init`, when given, is `(class, defaults)`: the class that was
    /// verified as a plain generated one, and the per-field list of its default
    /// objects (index-aligned with the descriptor's fields). Its presence
    /// enables the fast construction path for exactly that class.
    ///
    /// Linking is idempotent: what was stored first stays.
    pub fn link(
        &mut self,
        mapping: Vec<(u32, LinkedRef)>,
        fast_init: Option<(usize, Vec<usize>)>,
    ) -> (linked: Result<(), LinkError>)
        ensures
            linked is Err <==> (fast_init matches Some(init) && init.1@.len()
                != old(self)@.message.fields.len()),
            linked is Err ==> linked == Err::<(), LinkError>(LinkError::DefaultsLength)
                && final(self)@ == old(self)@,
            linked is Ok ==> final(self)@ == (DescriptorView {
                message: old(self)@.message,
                refs: match old(self)@.refs {
                    Some(refs) => Some(refs),
                    None => Some(refs_of(mapping@)),
                },
                linked: true,
                fast_init: match old(self)@.fast_init {
                    Some(stored) => Some(stored),
                    None => match fast_init {
                        Some(init) => Some(
                            FastInitView { class: init.0, defaults: init.1@ },
                        ),
                        None => None,
                    },
                },
            }),
    {
        proof {
            use_type_invariant(&*self);
        }
        if let Some((class, defaults)) = fast_init {
            if defaults.len() != self.inner.fields.len() {
                return Err(LinkError::DefaultsLength);
            }
            if self.fast_init.is_none() {
                self.fast_init = Some(FastInit { class, defaults });
            }
        }
        if self.refs.is_none() {
            self.refs = Some(collect_refs(mapping));
        }
        self.linked = true;
        Ok(())
    }

    /// How many fields the message has.
    pub fn field_count(&self) -> (count: usize)
        ensures
            count == self@.message.fields.len(),
    {
        self.inner.fields.len()
    }

    /// How many oneof groups the message has.
    pub fn oneof_count(&self) -> (count: usize)
        ensures
            count == self@.message.oneofs.len(),
    {
        self.inner.oneofs.len()
    }

    /// The name of a oneof group.
    pub fn oneof_name(&self, group: usize) -> (name: &str)
        requires
            group < self@.message.oneofs.len(),
        ensures
            name@ == self@.message.oneofs[group as int],
    {
        self.inner.oneofs[group].as_str()
    }

    /// The field with the given index.
    pub fn field(&self, index: usize) -> (field: &FieldDescriptor)
        requires
            index < self@.message.fields.len(),
        ensures
            field@ == self@.message.fields[index as int],
            field.oneof_index matches Some(group) ==> group < self@.message.oneofs.len(),
    {
        proof {
            use_type_invariant(self);
        }
        &self.inner.fields[index]
    }

    /// The index of the field with the given wire number.
    pub fn find(&self, number: u32) -> (index: Option<usize>)
        ensures
            index_view(index) == field_at(self@.message.fields, number),
            index matches Some(i) ==> i < self@.message.fields.len(),
    {
        proof {
            use_type_invariant(self);
            crate::descriptor::lemma_field_from(self@.message.fields, number, 0);
        }
        self.field_index.get(number)
    }

    /// The reference that is linked to the field with the given number.
    pub fn linked_ref(&self, number: u32) -> (linked: Option<&LinkedRef>)
        ensures
            linked_view(linked) == self@.linked_ref(number),
    {
        match &self.refs {
            Some(refs) => refs.get(&number),
            None => None,
        }
    }

    /// What the fast construction path needs, if it is enabled.
    pub fn fast_init(&self) -> (fast_init: Option<&FastInit>)
        ensures
            match fast_init {
                Some(fast_init) => self@.fast_init == Some(fast_init@) && fast_init.defaults@.len()
                    == self@.message.fields.len(),
                None => self@.fast_init is None,
            },
    {
        proof {
            use_type_invariant(self);
        }
        match &self.fast_init {
            Some(fast_init) => Some(fast_init),
            None => None,
        }
    }
}

fn collect_refs(mapping: Vec<(u32, LinkedRef)>) -> (refs: HashMap<u32, LinkedRef>)
    ensures
        refs@.map_values(|linked: LinkedRef| linked@) == refs_of(mapping@),
{
    let ghost pairs = mapping@;
    let mut refs: HashMap<u32, LinkedRef> = HashMap::new();
    let ghost mut done: nat = 0;
    proof {
        assert(refs@.map_values(|linked: LinkedRef| linked@) =~= Map::<u32, LinkedView>::empty());
        assert(pairs.take(0) =~= Seq::<(u32, LinkedRef)>::empty());
    }
    for pair in iter: mapping
        invariant
            pairs == iter.seq(),
            done == iter.index(),
            refs@.map_values(|linked: LinkedRef| linked@) == refs_of(pairs.take(done as int)),
    {
        let (number, linked) = pair;
        let ghost before = refs@.map_values(|linked: LinkedRef| linked@);
        refs.insert(number, linked);
        proof {
            assert(refs@.map_values(|linked: LinkedRef| linked@) =~= before.insert(
                number,
                linked@,
            ));
            assert(pairs.take(done as int + 1).drop_last() =~= pairs.take(done as int));
            done = done + 1;
        }
    }
    proof {
        assert(pairs.take(done as int) =~= pairs);
    }
    refs
}

/// The handle of the last member with the given value.
pub open spec fn member_valued(members: Seq<(i64, usize)>, value: int) -> Option<usize>
    decreases members.len(),
{
    if members.len() == 0 {
        None
    } else if members.last().0 == value {
        Some(members.last().1)
    } else {
        member_valued(members.drop_last(), value)
    }
}

/// Capture the fast-path handles the codec needs of a linked class (see
/// [`LinkedRef`]).
///
/// `desc` is the compiled descriptor that a message class carries. `members`
/// are the values and members of an enum class; they are given only when the
/// class keeps the default hook for missing values (a custom hook must stay
/// observable).
pub fn build_linked_ref(
    class: usize,
    desc: Option<usize>,
    members: Option<&[(i64, usize)]>,
) -> (linked: LinkedRef)
    ensures
        linked.class == class,
        linked.desc == desc,
        linked@.enum_table == (match members {
            Some(members) => if desc is None {
                Some(
                    Seq::new(
                        ENUM_TABLE_SIZE as nat,
                        |value: int| member_valued(members@, value),
                    ),
                )
            } else {
                None
            },
            None => None,
        }),
{
    // Message classes carry their compiled descriptor.
    if desc.is_some() {
        return LinkedRef { class, enum_table: None, desc };
    }
    let enum_table = match members {
        Some(members) => Some(build_enum_table(members)),
        None => None,
    };
    LinkedRef { class, enum_table, desc: None }
}

fn build_enum_table(members: &[(i64, usize)]) -> (table: Vec<Option<usize>>)
    ensures
        table@ == Seq::new(ENUM_TABLE_SIZE as nat, |value: int| member_valued(members@, value)),
{
    let mut table: Vec<Option<usize>> = Vec::new();
    let mut slot: usize = 0;
    while slot < ENUM_TABLE_SIZE
        invariant
            slot <= ENUM_TABLE_SIZE,
            table@.len() == slot,
            forall|v: int| 0 <= v < slot ==> #[trigger] table@[v] == None::<usize>,
        decreases ENUM_TABLE_SIZE - slot,
    {
        table.push(None);
        slot = slot + 1;
    }
    let mut i: usize = 0;
    while i < members.len()
        invariant
            i <= members@.len(),
            table@.len() == ENUM_TABLE_SIZE,
            forall|v: int|
                0 <= v < ENUM_TABLE_SIZE ==> #[trigger] table@[v] == member_valued(
                    members@.take(i as int),
                    v,
                ),
        decreases members@.len() - i,
    {
        let (value, member) = members[i];
        proof {
            assert(members@.take(i + 1).drop_last() =~= members@.take(i as int));
            assert(members@.take(i + 1).last() == members@[i as int]);
        }
        if 0 <= value && value < ENUM_TABLE_SIZE as i64 {
            table.set(value as usize, Some(member));
        }
        i = i + 1;
    }
    proof {
        assert(members@.take(i as int) =~= members@);
    }
    table
}

/// What an enum's number is coerced to.
#[derive(Debug, Clone, Copy, PartialEq, Eq, Structural)]
pub enum EnumChoice {
    /// The member with the given handle.
    Member(usize),
    /// The bare number.
    Raw,
    /// What the class's own map of values holds, or else the bare number.
    LookUp,
    /// What the class gives when it is called with the number, or else the bare
    /// number.
    Call,
}

/// What the number `value` of an enum field is coerced to.
pub open spec fn coerced(linked: Option<LinkedView>, value: int) -> EnumChoice {
    match linked {
        None => EnumChoice::Raw,
        Some(linked) => match linked.enum_table {
            None => EnumChoice::Call,
            Some(table) => if 0 <= value < table.len() {
                match table[value] {
                    Some(member) => EnumChoice::Member(member),
                    None => EnumChoice::Raw,
                }
            } else {
                EnumChoice::LookUp
            },
        },
    }
}

/// Coerce an integer to its enum class.
///
/// proto3 enums are open: an undefined numeric value is valid on the wire, so
/// an unmapped value stays a raw int. The raw int also survives re-encoding.
/// Enums with the default hook for missing values resolve through the member
/// table or the class's own map -- one lookup, no exception; others go through
/// a call of the class so a custom hook stays observable.
pub fn coerce_enum(linked: Option<&LinkedRef>, value: i32) -> (choice: EnumChoice)
    ensures
        choice == coerced(linked_view(linked), value as int),
{
    match linked {
        None => EnumChoice::Raw,
        Some(linked) => match &linked.enum_table {
            None => EnumChoice::Call,
            Some(table) => {
                if value >= 0 && (value as usize) < table.len() {
                    match table[value as usize] {
                        Some(member) => EnumChoice::Member(member),
                        None => EnumChoice::Raw,
                    }
                } else {
                    EnumChoice::LookUp
                }
            },
        },
    }
}

/// Parse `DescriptorProto` bytes into a fresh, unlinked [`Descriptor`].
pub fn compile(data: &[u8]) -> (desc: Result<Descriptor, ParseError>)
    ensures
        match descriptor_in(data@) {
            Ok(message) => desc matches Ok(desc) && desc@ == (DescriptorView {
                message,
                refs: None,
                linked: false,
                fast_init: None,
            }),
            Err(error) => desc matches Err(e) && e == error,
        },
{
    let inner = parse::parse_message(data)?;
    let field_index = FieldIndex::build(&inner.fields);
    Ok(Descriptor { inner, field_index, refs: None, linked: false, fast_init: None })
}

} // verus!
