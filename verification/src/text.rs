//! Texts: UTF-8 and dotted names.
use vstd::prelude::*;
use vstd::utf8::{decode_utf8, encode_utf8, encode_utf8_decode_utf8, valid_utf8};

verus! {

/// The error of `std::str::from_utf8`; nothing in it is read.
#[verifier::external_type_specification]
#[verifier::external_body]
pub struct ExUtf8Error(core::str::Utf8Error);

/// `std::str::from_utf8` accepts just the byte sequences that are UTF-8, and
/// the text that it gives is the one whose UTF-8 bytes these are.
pub assume_specification[ core::str::from_utf8 ](v: &[u8]) -> (text: Result<
    &str,
    core::str::Utf8Error,
>)
    ensures
        text is Ok <==> valid_utf8(v@),
        text matches Ok(text) ==> encode_utf8(text@) == v@,
;

/// The text that `bytes` are the UTF-8 of, if they are UTF-8.
pub open spec fn text_of(bytes: Seq<u8>) -> Option<Seq<char>> {
    if valid_utf8(bytes) {
        Some(decode_utf8(bytes))
    } else {
        None
    }
}

/// Decode UTF-8.
pub fn decode_text(bytes: &[u8]) -> (text: Option<String>)
    ensures
        match text {
            Some(text) => text_of(bytes@) == Some(text@),
            None => text_of(bytes@) is None,
        },
{
    match core::str::from_utf8(bytes) {
        Ok(text) => {
            proof {
                encode_utf8_decode_utf8(text@);
            }
            Some(text.to_owned())
        },
        Err(_) => None,
    }
}

/// The bytes of a text read back as the text.
pub proof fn law_text_round_trip(text: Seq<char>)
    ensures
        text_of(encode_utf8(text)) == Some(text),
{
    vstd::utf8::encode_utf8_valid_utf8(text);
    encode_utf8_decode_utf8(text);
}

// ---------------------------------------------------------------------------
// Dotted names
// ---------------------------------------------------------------------------

/// Where the last segment of a dotted name starts.
pub open spec fn segment_start(name: Seq<char>) -> nat
    decreases name.len(),
{
    if name.len() == 0 {
        0
    } else if name.last() == '.' {
        name.len()
    } else {
        segment_start(name.drop_last())
    }
}

/// The last segment of a dotted name: `.pkg.Outer.Inner` -> `Inner`.
pub open spec fn last_segment(name: Seq<char>) -> Seq<char> {
    name.skip(segment_start(name) as int)
}

/// The segment before the last one, if there is one: `.pkg.Outer.Inner` ->
/// `Outer`.
pub open spec fn parent_segment(name: Seq<char>) -> Option<Seq<char>> {
    if segment_start(name) == 0 {
        None
    } else {
        Some(last_segment(name.take(segment_start(name) - 1)))
    }
}

/// A dotted name without its leading dot: `.pkg.Outer.Inner` ->
/// `pkg.Outer.Inner`.
pub open spec fn undotted(name: Seq<char>) -> Seq<char> {
    if name.len() > 0 && name[0] == '.' {
        name.skip(1)
    } else {
        name
    }
}

/// The last segment of a dotted name starts behind the last dot: it has none.
pub proof fn law_segment_start(name: Seq<char>)
    ensures
        segment_start(name) <= name.len(),
        segment_start(name) > 0 ==> name[segment_start(name) - 1] == '.',
        forall|i: int| segment_start(name) <= i < name.len() ==> name[i] != '.',
    decreases name.len(),
{
    if name.len() > 0 && name.last() != '.' {
        law_segment_start(name.drop_last());
        assert forall|i: int| segment_start(name) <= i < name.len() implies name[i] != '.' by {
            if i < name.len() - 1 {
                assert(name[i] == name.drop_last()[i]);
            }
        }
    }
}

/// The characters of a text.
fn characters(text: &str) -> (characters: Vec<char>)
    ensures
        characters@ == text@,
{
    let mut characters: Vec<char> = Vec::new();
    for c in it: text.chars()
        invariant
            characters@ == it.seq().take(it.index() as int),
            it.seq() == text@,
    {
        characters.push(c);
        proof {
            assert(it.seq().take(it.index() + 1) =~= it.seq().take(it.index() as int).push(c));
        }
    }
    proof {
        assert(text@.take(text@.len() as int) =~= text@);
    }
    characters
}

/// Where the last segment of the first `end` characters starts.
fn find_segment_start(name: &[char], end: usize) -> (start: usize)
    requires
        end <= name@.len(),
    ensures
        start == segment_start(name@.take(end as int)),
        start <= end,
{
    let mut start: usize = end;
    while start > 0 && name[start - 1] != '.'
        invariant
            start <= end <= name@.len(),
            segment_start(name@.take(end as int)) == segment_start(name@.take(start as int)),
        decreases start,
    {
        proof {
            assert(name@.take(start as int).drop_last() =~= name@.take(start - 1));
        }
        start = start - 1;
    }
    start
}

/// `.pkg.Outer.Inner` -> `Inner`. Used only to key the synthetic map-entry
/// table, whose entries are stored under their unqualified `DescriptorProto`
/// name.
pub fn short_name(full: &str) -> (name: String)
    ensures
        name@ == last_segment(full@),
{
    let characters = characters(full);
    let len: usize = characters.len();
    let start: usize = find_segment_start(&characters, len);
    proof {
        assert(full@.take(len as int) =~= full@);
        assert(full@.subrange(start as int, len as int) =~= last_segment(full@));
    }
    full.substring_char(start, len).to_owned()
}

/// `.pkg.Outer.Inner` -> `Outer`.
pub fn parent_name(full: &str) -> (name: Option<String>)
    ensures
        match name {
            Some(name) => parent_segment(full@) == Some(name@),
            None => parent_segment(full@) is None,
        },
{
    let characters = characters(full);
    let len: usize = characters.len();
    let start: usize = find_segment_start(&characters, len);
    proof {
        assert(full@.take(len as int) =~= full@);
    }
    if start == 0 {
        return None;
    }
    let end: usize = start - 1;
    let from: usize = find_segment_start(&characters, end);
    proof {
        assert(full@.subrange(from as int, end as int) =~= last_segment(full@.take(end as int)));
    }
    Some(full.substring_char(from, end).to_owned())
}

/// `.pkg.Outer.Inner` -> `pkg.Outer.Inner`. The name we hand to Python for
/// linking: it keeps the full path (including any enclosing messages) so nested
/// types resolve unambiguously, dropping only protobuf's leading dot.
pub fn full_name(full: &str) -> (name: String)
    ensures
        name@ == undotted(full@),
{
    let len: usize = full.unicode_len();
    if len > 0 && full.get_char(0) == '.' {
        proof {
            assert(full@.subrange(1, len as int) =~= full@.skip(1));
        }
        full.substring_char(1, len).to_owned()
    } else {
        full.to_owned()
    }
}

} // verus!
