//! What of a `DescriptorProto` matters to the parser: the records of each
//! number that it knows, in their order, and not how they are interleaved.
use vstd::prelude::*;

use crate::descriptor::FieldView;
use crate::parse::{
    descriptor_in, draft_empty, draft_in, draft_with, entry_of, interpreted,
    interpreted_upto, lemma_interpreted_each, nested_empty, nested_in, oneof_name_in, raw_empty,
    raw_in, DraftView, EntryView, ParseError, RawView,
};
use crate::text::text_of;
use crate::wire::{field_in, lemma_field_used, Payload, WireError, WireField};

verus! {

/// The records that `s` is made of.
pub open spec fn records_in(s: Seq<u8>) -> Result<Seq<WireField>, WireError>
    decreases s.len(),
{
    if s.len() == 0 {
        Ok(Seq::empty())
    } else {
        proof {
            lemma_field_used(s);
        }
        match field_in(s).result {
            Err(error) => Err(error),
            Ok(record) => match records_in(s.skip(field_in(s).used as int)) {
                Err(error) => Err(error),
                Ok(others) => Ok(seq![record] + others),
            },
        }
    }
}

/// The chunks that the records of the given number hold, in their order.
pub open spec fn chunks_numbered(records: Seq<WireField>, number: u32) -> Seq<Seq<u8>>
    decreases records.len(),
{
    if records.len() == 0 {
        Seq::empty()
    } else {
        let others = chunks_numbered(records.skip(1), number);
        match records[0].payload {
            Payload::Len(chunk) => if records[0].number == number {
                seq![chunk] + others
            } else {
                others
            },
            _ => others,
        }
    }
}

/// A `DescriptorProto` after the given records.
spec fn draft_after(records: Seq<WireField>, draft: DraftView) -> Result<DraftView, ParseError>
    decreases records.len(),
{
    if records.len() == 0 {
        Ok(draft)
    } else {
        match draft_with(draft, records[0]) {
            Err(error) => Err(error),
            Ok(draft) => draft_after(records.skip(1), draft),
        }
    }
}

/// The name after the given name records.
spec fn name_after(chunks: Seq<Seq<u8>>, name: Seq<char>) -> Option<Seq<char>>
    decreases chunks.len(),
{
    if chunks.len() == 0 {
        Some(name)
    } else {
        match text_of(chunks[0]) {
            None => None,
            Some(name) => name_after(chunks.skip(1), name),
        }
    }
}

/// The fields after the given field records.
spec fn fields_after(chunks: Seq<Seq<u8>>, fields: Seq<RawView>) -> Option<Seq<RawView>>
    decreases chunks.len(),
{
    if chunks.len() == 0 {
        Some(fields)
    } else {
        match raw_in(chunks[0], raw_empty()) {
            Err(_) => None,
            Ok(raw) => fields_after(chunks.skip(1), fields.push(raw)),
        }
    }
}

/// The map entries after the given records of nested types.
spec fn entries_after(chunks: Seq<Seq<u8>>, entries: Seq<(Seq<char>, EntryView)>) -> Option<
    Seq<(Seq<char>, EntryView)>,
>
    decreases chunks.len(),
{
    if chunks.len() == 0 {
        Some(entries)
    } else {
        match nested_in(chunks[0], nested_empty()) {
            Err(_) => None,
            Ok(nested) => entries_after(
                chunks.skip(1),
                match entry_of(nested) {
                    Some(entry) => entries.push(entry),
                    None => entries,
                },
            ),
        }
    }
}

/// The names of oneof groups after the given records of them.
spec fn oneofs_after(chunks: Seq<Seq<u8>>, oneofs: Seq<Seq<char>>) -> Option<Seq<Seq<char>>>
    decreases chunks.len(),
{
    if chunks.len() == 0 {
        Some(oneofs)
    } else {
        match oneof_name_in(chunks[0], Seq::empty()) {
            Err(_) => None,
            Ok(name) => oneofs_after(chunks.skip(1), oneofs.push(name)),
        }
    }
}

/// A draft is read record by record.
proof fn lemma_draft_records(s: Seq<u8>, draft: DraftView)
    ensures
        records_in(s) matches Ok(records) ==> draft_in(s, draft) == draft_after(records, draft),
        records_in(s) is Err ==> draft_in(s, draft) is Err,
    decreases s.len(),
{
    if s.len() > 0 {
        lemma_field_used(s);
        if let Ok(record) = field_in(s).result {
            let rest = s.skip(field_in(s).used as int);
            if let Ok(others) = records_in(rest) {
                assert((seq![record] + others).skip(1) =~= others);
            }
            if let Ok(next) = draft_with(draft, record) {
                lemma_draft_records(rest, next);
            }
        }
    }
}

/// The parts of a draft are read each from their own records.
proof fn lemma_draft_parts(records: Seq<WireField>, draft: DraftView)
    ensures
        ({
            let name = name_after(chunks_numbered(records, 1), draft.name);
            let fields = fields_after(chunks_numbered(records, 2), draft.fields);
            let entries = entries_after(chunks_numbered(records, 3), draft.entries);
            let oneofs = oneofs_after(chunks_numbered(records, 8), draft.oneofs);
            &&& draft_after(records, draft) is Ok <==> name is Some && fields is Some
                && entries is Some && oneofs is Some
            &&& draft_after(records, draft) matches Ok(after) ==> after == (DraftView {
                name: name->0,
                fields: fields->0,
                entries: entries->0,
                oneofs: oneofs->0,
            })
        }),
    decreases records.len(),
{
    if records.len() > 0 {
        let record = records[0];
        let others = records.skip(1);
        if let Payload::Len(chunk) = record.payload {
            let rest = chunks_numbered(others, record.number);
            assert((seq![chunk] + rest).skip(1) =~= rest);
            assert((seq![chunk] + rest)[0] == chunk);
        }
        if let Ok(next) = draft_with(draft, record) {
            lemma_draft_parts(others, next);
        }
    }
}

/// Whether two lists of records agree on those that the parser knows: names,
/// fields, nested types and oneof groups, each in their order.
pub open spec fn same_known_records(a: Seq<WireField>, b: Seq<WireField>) -> bool {
    &&& chunks_numbered(a, 1) == chunks_numbered(b, 1)
    &&& chunks_numbered(a, 2) == chunks_numbered(b, 2)
    &&& chunks_numbered(a, 3) == chunks_numbered(b, 3)
    &&& chunks_numbered(a, 8) == chunks_numbered(b, 8)
}

/// What a parsed descriptor depends on: bytes that are made of records, with
/// the same names, fields, nested types and oneof groups in the same order each,
/// give the same descriptor. How records of different numbers are interleaved
/// does not matter, nor do records of other numbers.
pub proof fn law_record_order(bytes: Seq<u8>, others: Seq<u8>)
    requires
        descriptor_in(bytes) is Ok,
        records_in(others) is Ok,
        same_known_records(records_in(bytes)->Ok_0, records_in(others)->Ok_0),
    ensures
        records_in(bytes) is Ok,
        descriptor_in(others) == descriptor_in(bytes),
{
    lemma_draft_records(bytes, draft_empty());
    lemma_draft_records(others, draft_empty());
    lemma_draft_parts(records_in(bytes)->Ok_0, draft_empty());
    lemma_draft_parts(records_in(others)->Ok_0, draft_empty());
}

/// Each field record gives one field.
proof fn lemma_fields_after(chunks: Seq<Seq<u8>>, fields: Seq<RawView>)
    requires
        fields_after(chunks, fields) is Some,
    ensures
        fields_after(chunks, fields)->0.len() == fields.len() + chunks.len(),
        forall|i: int|
            0 <= i < fields.len() ==> #[trigger] fields_after(chunks, fields)->0[i] == fields[i],
        forall|i: int|
            0 <= i < chunks.len() ==> raw_in(#[trigger] chunks[i], raw_empty()) == Ok::<
                RawView,
                ParseError,
            >(fields_after(chunks, fields)->0[fields.len() + i]),
    decreases chunks.len(),
{
    if chunks.len() > 0 {
        let raw = raw_in(chunks[0], raw_empty())->Ok_0;
        let next = fields.push(raw);
        let after = fields_after(chunks, fields)->0;
        lemma_fields_after(chunks.skip(1), next);
        assert forall|i: int| 0 <= i < fields.len() implies #[trigger] after[i] == fields[i] by {
            assert(next[i] == fields[i]);
        }
        assert forall|i: int| 0 <= i < chunks.len() implies raw_in(
            #[trigger] chunks[i],
            raw_empty(),
        ) == Ok::<RawView, ParseError>(after[fields.len() + i]) by {
            if i == 0 {
                assert(next[fields.len() as int] == raw);
            } else {
                assert(chunks.skip(1)[i - 1] == chunks[i]);
            }
        }
    }
}

/// The last name record gives the name.
proof fn lemma_name_after(chunks: Seq<Seq<u8>>, name: Seq<char>)
    requires
        name_after(chunks, name) is Some,
    ensures
        chunks.len() == 0 ==> name_after(chunks, name) == Some(name),
        chunks.len() > 0 ==> name_after(chunks, name) == text_of(chunks.last()),
    decreases chunks.len(),
{
    if chunks.len() > 0 {
        let next = text_of(chunks[0])->0;
        lemma_name_after(chunks.skip(1), next);
        if chunks.len() > 1 {
            assert(chunks.skip(1).last() == chunks.last());
        }
    }
}

/// A parsed descriptor has one field for each field record, in their order and
/// with their names and numbers; its name is that of the last name record, or
/// empty if there is none.
pub proof fn law_fields_follow_records(bytes: Seq<u8>)
    requires
        descriptor_in(bytes) is Ok,
    ensures
        records_in(bytes) is Ok,
        ({
            let message = descriptor_in(bytes)->Ok_0;
            let fields = chunks_numbered(records_in(bytes)->Ok_0, 2);
            let names = chunks_numbered(records_in(bytes)->Ok_0, 1);
            &&& message.fields.len() == fields.len()
            &&& forall|i: int|
                0 <= i < fields.len() ==> {
                    &&& raw_in(#[trigger] fields[i], raw_empty()) matches Ok(raw)
                    &&& message.fields[i].name == raw.name
                    &&& message.fields[i].number == raw.number
                }
            &&& if names.len() == 0 {
                message.name == Seq::<char>::empty()
            } else {
                text_of(names.last()) == Some(message.name)
            }
        }),
{
    lemma_draft_records(bytes, draft_empty());
    let records = records_in(bytes)->Ok_0;
    lemma_draft_parts(records, draft_empty());
    let draft = draft_in(bytes, draft_empty())->Ok_0;
    let fields = chunks_numbered(records, 2);
    lemma_fields_after(fields, Seq::empty());
    lemma_name_after(chunks_numbered(records, 1), Seq::empty());
    lemma_interpreted_each(draft, draft.fields.len());
    let meanings = interpreted_upto(draft, draft.fields.len())->Ok_0;
    assert forall|i: int| 0 <= i < fields.len() implies {
        &&& raw_in(#[trigger] fields[i], raw_empty()) matches Ok(raw)
        &&& descriptor_in(bytes)->Ok_0.fields[i].name == raw.name
        &&& descriptor_in(bytes)->Ok_0.fields[i].number == raw.number
    } by {
        assert(draft.fields[0 + i] == raw_in(fields[i], raw_empty())->Ok_0);
        assert(Ok::<FieldView, ParseError>(meanings[i]) == interpreted(
            draft.fields[i],
            draft.entries,
            draft.name,
        ));
    }
}

} // verus!
