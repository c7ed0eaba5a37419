//! What a compiled descriptor lists: the classes that it refers to, the members
//! of its oneof groups, and what is linked to it.
use vstd::prelude::*;

use crate::descriptor::{field_at, lemma_field_from, FieldKind, FieldView, MapValue};
use crate::message::{
    coerced, member_valued, members, references, refs_of, EnumChoice, LinkedRef, LinkedView,
};

verus! {

// ---------------------------------------------------------------------------
// References
// ---------------------------------------------------------------------------

/// Whether a field is an enum, a message, a map with enum values, or a map with
/// message values.
pub open spec fn has_class(field: FieldView) -> bool {
    ||| field.kind == FieldKind::Enum
    ||| field.kind == FieldKind::Message
    ||| (field.kind matches FieldKind::MapOf { key: _, value } && value == MapValue::Enum)
    ||| (field.kind matches FieldKind::MapOf { key: _, value } && value == MapValue::Message)
}

/// What is listed for one field: its number and qualified name if it has a
/// class and a name, else nothing. What is listed for several is what is listed
/// for each, in their order.
pub proof fn law_references_in_order(first: Seq<FieldView>, second: Seq<FieldView>)
    ensures
        references(first + second) == references(first) + references(second),
        first.len() == 1 ==> references(first) == (match first[0].qualified_name {
            Some(name) => if has_class(first[0]) {
                seq![(first[0].number, name)]
            } else {
                Seq::empty()
            },
            None => Seq::empty(),
        }),
        first.len() == 0 ==> references(first).len() == 0,
    decreases second.len(),
{
    if first.len() == 1 {
        assert(first.drop_last() =~= Seq::<FieldView>::empty());
        assert(references(first.drop_last()) =~= Seq::<(u32, Seq<char>)>::empty());
        if let Some(name) = first[0].qualified_name {
            assert(Seq::<(u32, Seq<char>)>::empty().push((first[0].number, name)) =~= seq![
                (first[0].number, name),
            ]);
        }
    }
    if second.len() == 0 {
        assert(first + second =~= first);
        assert(references(first) + references(second) =~= references(first));
    } else {
        law_references_in_order(first, second.drop_last());
        assert((first + second).drop_last() =~= first + second.drop_last());
        assert((first + second).last() == second.last());
        let last = second.last();
        let before = references(second.drop_last());
        if let Some(name) = last.qualified_name {
            assert(references(first) + before.push((last.number, name)) =~= (references(first)
                + before).push((last.number, name)));
        }
    }
}

/// A pair is listed just if some field has that number and that qualified name
/// and is an enum, a message, or a map of enums or messages.
pub proof fn law_references_listed(fields: Seq<FieldView>, pair: (u32, Seq<char>))
    ensures
        references(fields).contains(pair) <==> exists|i: int|
            #![trigger fields[i]]
            0 <= i < fields.len() && fields[i].number == pair.0 && fields[i].qualified_name == Some(
                pair.1,
            ) && has_class(fields[i]),
        references(fields).len() <= fields.len(),
    decreases fields.len(),
{
    if fields.len() > 0 {
        let before = fields.drop_last();
        law_references_listed(before, pair);
        let listed = references(before);
        let all = references(fields);
        let field = fields.last();
        assert(fields[fields.len() - 1] == field);
        assert forall|i: int| 0 <= i < before.len() implies #[trigger] before[i] == fields[i] by {}
        if all.contains(pair) {
            let j = choose|j: int| 0 <= j < all.len() && all[j] == pair;
            if j < listed.len() {
                assert(listed[j] == pair);
                let i = choose|i: int|
                    #![trigger before[i]]
                    0 <= i < before.len() && before[i].number == pair.0 && before[i].qualified_name
                        == Some(pair.1) && has_class(before[i]);
                assert(fields[i] == before[i]);
            }
        }
        if listed.contains(pair) {
            let j = choose|j: int| 0 <= j < listed.len() && listed[j] == pair;
            assert(all[j] == pair);
        }
        if field.number == pair.0 && field.qualified_name == Some(pair.1) && has_class(field) {
            assert(all[listed.len() as int] == pair);
        }
        if exists|i: int|
            #![trigger fields[i]]
            0 <= i < fields.len() && fields[i].number == pair.0 && fields[i].qualified_name == Some(
                pair.1,
            ) && has_class(fields[i]) {
            let i = choose|i: int|
                #![trigger fields[i]]
                0 <= i < fields.len() && fields[i].number == pair.0 && fields[i].qualified_name
                    == Some(pair.1) && has_class(fields[i]);
            if i < before.len() {
                assert(before[i] == fields[i]);
                assert(listed.contains(pair));
            }
        }
    }
}

// ---------------------------------------------------------------------------
// Oneof groups
// ---------------------------------------------------------------------------

/// What is listed for one field: its name, in the group of its oneof index and
/// in no other. What is listed for several is what is listed for each, in their
/// order.
pub proof fn law_members_in_order(first: Seq<FieldView>, second: Seq<FieldView>, group: int)
    ensures
        members(first + second, group) == members(first, group) + members(second, group),
        first.len() == 1 ==> members(first, group) == (match first[0].oneof_index {
            Some(index) => if index == group {
                seq![first[0].name]
            } else {
                Seq::empty()
            },
            None => Seq::empty(),
        }),
        first.len() == 0 ==> members(first, group).len() == 0,
    decreases second.len(),
{
    if first.len() == 1 {
        assert(first.drop_last() =~= Seq::<FieldView>::empty());
        assert(members(first.drop_last(), group) =~= Seq::<Seq<char>>::empty());
        assert(Seq::<Seq<char>>::empty().push(first[0].name) =~= seq![first[0].name]);
    }
    if second.len() == 0 {
        assert(first + second =~= first);
        assert(members(first, group) + members(second, group) =~= members(first, group));
    } else {
        law_members_in_order(first, second.drop_last(), group);
        assert((first + second).drop_last() =~= first + second.drop_last());
        assert((first + second).last() == second.last());
        let before = members(second.drop_last(), group);
        assert(members(first, group) + before.push(second.last().name) =~= (members(first, group)
            + before).push(second.last().name));
    }
}

/// How many names the first `groups` lists hold together.
pub open spec fn listed(fields: Seq<FieldView>, groups: nat) -> nat
    decreases groups,
{
    if groups == 0 {
        0
    } else {
        listed(fields, (groups - 1) as nat) + members(fields, groups - 1).len()
    }
}

/// How many fields have an index among the first `groups`.
pub open spec fn grouped(fields: Seq<FieldView>, groups: nat) -> nat
    decreases fields.len(),
{
    if fields.len() == 0 {
        0
    } else {
        grouped(fields.drop_last(), groups) + if fields.last().oneof_index matches Some(index)
            && index < groups {
            1nat
        } else {
            0nat
        }
    }
}

/// One more group counts the fields that have its index.
proof fn lemma_grouped_next(fields: Seq<FieldView>, groups: nat)
    ensures
        grouped(fields, groups + 1) == grouped(fields, groups) + members(
            fields,
            groups as int,
        ).len(),
        grouped(fields, 0) == 0,
    decreases fields.len(),
{
    if fields.len() > 0 {
        lemma_grouped_next(fields.drop_last(), groups);
    }
}

/// Every field with an index among the groups is listed exactly once: the
/// lengths of the lists add up to the number of such fields.
pub proof fn law_members_listed_once(fields: Seq<FieldView>, groups: nat)
    ensures
        listed(fields, groups) == grouped(fields, groups),
    decreases groups,
{
    if groups == 0 {
        lemma_grouped_next(fields, 0);
    } else {
        law_members_listed_once(fields, (groups - 1) as nat);
        lemma_grouped_next(fields, (groups - 1) as nat);
    }
}

/// A name is listed for a group just if some field with that name has the
/// group's index.
pub proof fn law_member_listed(fields: Seq<FieldView>, group: int, name: Seq<char>)
    ensures
        members(fields, group).contains(name) <==> exists|i: int|
            #![trigger fields[i]]
            0 <= i < fields.len() && fields[i].name == name && (fields[i].oneof_index matches Some(
                index,
            ) && index == group),
    decreases fields.len(),
{
    if fields.len() > 0 {
        let before = fields.drop_last();
        law_member_listed(before, group, name);
        let listed = members(before, group);
        let all = members(fields, group);
        let field = fields.last();
        assert(fields[fields.len() - 1] == field);
        if all.contains(name) {
            let j = choose|j: int| 0 <= j < all.len() && all[j] == name;
            if j < listed.len() {
                assert(listed[j] == name);
                let i = choose|i: int|
                    #![trigger before[i]]
                    0 <= i < before.len() && before[i].name == name && (before[i].oneof_index
                        matches Some(index) && index == group);
                assert(fields[i] == before[i]);
            }
        }
        if listed.contains(name) {
            let j = choose|j: int| 0 <= j < listed.len() && listed[j] == name;
            assert(all[j] == name);
        }
        if field.name == name && (field.oneof_index matches Some(index) && index == group) {
            assert(all[listed.len() as int] == name);
        }
        if exists|i: int|
            #![trigger fields[i]]
            0 <= i < fields.len() && fields[i].name == name && (fields[i].oneof_index matches Some(
                index,
            ) && index == group) {
            let i = choose|i: int|
                #![trigger fields[i]]
                0 <= i < fields.len() && fields[i].name == name && (fields[i].oneof_index
                    matches Some(index) && index == group);
            if i < before.len() {
                assert(before[i] == fields[i]);
                assert(listed.contains(name));
            }
        }
    }
}

// ---------------------------------------------------------------------------
// Links
// ---------------------------------------------------------------------------

/// A field is found by its number; of two with the same number, the first is.
pub proof fn law_field_found(fields: Seq<FieldView>, number: u32)
    ensures
        match field_at(fields, number) {
            Some(i) => {
                &&& i < fields.len()
                &&& fields[i as int].number == number
                &&& forall|j: int| 0 <= j < i ==> (#[trigger] fields[j]).number != number
            },
            None => forall|j: int|
                0 <= j < fields.len() ==> (#[trigger] fields[j]).number != number,
        },
{
    lemma_field_from(fields, number, 0);
}

/// The reference that is stored for a number is that of the last pair with the
/// number.
pub proof fn law_last_reference_stored(mapping: Seq<(u32, LinkedRef)>, j: int, number: u32)
    requires
        j >= -1,
        forall|i: int| j < i < mapping.len() ==> (#[trigger] mapping[i]).0 != number,
    ensures
        0 <= j < mapping.len() && mapping[j].0 == number ==> refs_of(mapping).contains_key(number)
            && refs_of(mapping)[number] == mapping[j].1@,
        j == -1 ==> !refs_of(mapping).contains_key(number),
    decreases mapping.len(),
{
    if mapping.len() > 0 && j < mapping.len() - 1 {
        let before = mapping.drop_last();
        assert(mapping[mapping.len() - 1].0 != number);
        assert forall|i: int| j < i < before.len() implies (#[trigger] before[i]).0 != number by {
            assert(mapping[i].0 != number);
        }
        law_last_reference_stored(before, j, number);
    }
}

/// The member with a value is the last one that is listed with it.
pub proof fn law_last_member_stored(listed: Seq<(i64, usize)>, j: int, value: int)
    requires
        j >= -1,
        forall|i: int| j < i < listed.len() ==> (#[trigger] listed[i]).0 != value,
    ensures
        0 <= j < listed.len() && listed[j].0 == value ==> member_valued(listed, value) == Some(
            listed[j].1,
        ),
        j == -1 ==> member_valued(listed, value) is None,
    decreases listed.len(),
{
    if listed.len() > 0 && j < listed.len() - 1 {
        let before = listed.drop_last();
        assert(listed[listed.len() - 1].0 != value);
        assert forall|i: int| j < i < before.len() implies (#[trigger] before[i]).0 != value by {
            assert(listed[i].0 != value);
        }
        law_last_member_stored(before, j, value);
    }
}

/// What an enum's number becomes: without a link it stays a number; a class
/// with a hook of its own is called; and of a class with a table, a number in the
/// table becomes its member or stays, and one outside of it is looked up.
pub proof fn law_enum_coerced(linked: LinkedView, table: Seq<Option<usize>>, value: int)
    requires
        linked.enum_table == Some(table),
    ensures
        coerced(None, value) == EnumChoice::Raw,
        coerced(Some(LinkedView { enum_table: None, ..linked }), value) == EnumChoice::Call,
        value < 0 || value >= table.len() ==> coerced(Some(linked), value) == EnumChoice::LookUp,
        0 <= value < table.len() && table[value] is None ==> coerced(Some(linked), value)
            == EnumChoice::Raw,
        0 <= value < table.len() && table[value] is Some ==> coerced(Some(linked), value)
            == EnumChoice::Member(table[value]->0),
{
}

} // verus!
