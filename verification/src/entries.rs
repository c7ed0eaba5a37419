//! The entries of a map field, and which keys are the same.
use vstd::prelude::*;

use crate::value::{ScalarModel, ValueModel};

verus! {

/// Whether 32 bits are those of a float that is not a number.
pub open spec fn is_nan32(bits: u32) -> bool {
    bits % 0x8000_0000 > 0x7f80_0000
}

/// Whether 64 bits are those of a float that is not a number.
pub open spec fn is_nan64(bits: u64) -> bool {
    bits % 0x8000_0000_0000_0000 > 0x7ff0_0000_0000_0000
}

/// Whether two scalars are the same key of a map. Floats are compared by value:
/// `0.0` and `-0.0` are the same key, and what is not a number is no key's
/// equal, not even its own.
pub open spec fn same_key(a: ScalarModel, b: ScalarModel) -> bool {
    match (a, b) {
        (ScalarModel::F32(x), ScalarModel::F32(y)) => !is_nan32(x) && (x == y || (x % 0x8000_0000
            == 0 && y % 0x8000_0000 == 0)),
        (ScalarModel::F64(x), ScalarModel::F64(y)) => !is_nan64(x) && (x == y || (x
            % 0x8000_0000_0000_0000 == 0 && y % 0x8000_0000_0000_0000 == 0)),
        _ => a == b,
    }
}

/// The index of the first of `entries`, from `start` on, with the given key.
pub open spec fn key_from(
    entries: Seq<(ScalarModel, ValueModel)>,
    key: ScalarModel,
    start: nat,
) -> Option<nat>
    decreases entries.len() - start,
{
    if start >= entries.len() {
        None
    } else if same_key(entries[start as int].0, key) {
        Some(start)
    } else {
        key_from(entries, key, start + 1)
    }
}

/// A map with one more entry: a key that it has stays and gets the new value,
/// another key comes last.
pub open spec fn put(
    entries: Seq<(ScalarModel, ValueModel)>,
    key: ScalarModel,
    value: ValueModel,
) -> Seq<(ScalarModel, ValueModel)> {
    match key_from(entries, key, 0) {
        Some(i) => entries.update(i as int, (entries[i as int].0, value)),
        None => entries.push((key, value)),
    }
}

/// What [`key_from`] finds.
pub proof fn lemma_key_from(entries: Seq<(ScalarModel, ValueModel)>, key: ScalarModel, start: nat)
    ensures
        match key_from(entries, key, start) {
            Some(i) => {
                &&& start <= i < entries.len()
                &&& same_key(entries[i as int].0, key)
                &&& forall|j: int| start <= j < i ==> !same_key((#[trigger] entries[j]).0, key)
            },
            None => forall|j: int|
                start <= j < entries.len() ==> !same_key((#[trigger] entries[j]).0, key),
        },
    decreases entries.len() - start,
{
    if start < entries.len() && !same_key(entries[start as int].0, key) {
        lemma_key_from(entries, key, start + 1);
    }
}

/// A map holds the value that was put last under a key, and the others as
/// before. What is not a number is put behind all others, and never found.
pub proof fn law_put_get(
    entries: Seq<(ScalarModel, ValueModel)>,
    key: ScalarModel,
    value: ValueModel,
    other: ScalarModel,
)
    ensures
        same_key(key, other) ==> {
            &&& key_from(put(entries, key, value), other, 0) matches Some(i)
            &&& same_key(put(entries, key, value)[i as int].0, key)
            &&& put(entries, key, value)[i as int].1 == value
            &&& key_from(entries, other, 0) is None ==> i == entries.len()
        },
        !same_key(key, other) ==> {
            &&& key_from(put(entries, key, value), other, 0) == key_from(entries, other, 0)
            &&& key_from(entries, other, 0) matches Some(i) ==> put(entries, key, value)[i as int]
                == entries[i as int]
        },
        !same_key(key, key) ==> put(entries, key, value) == entries.push((key, value)),
{
    let after = put(entries, key, value);
    lemma_key_from(entries, key, 0);
    lemma_key_from(entries, other, 0);
    lemma_key_from(after, other, 0);
    let at = match key_from(entries, key, 0) {
        Some(i) => i as int,
        None => entries.len() as int,
    };
    assert(same_key(key, other) ==> same_key(after[at].0, other));
    assert forall|j: int| 0 <= j < entries.len() implies (#[trigger] after[j]).0
        == entries[j].0 by {}
    if let Some(i) = key_from(entries, other, 0) {
        assert(same_key(after[i as int].0, other));
    }
    if let Some(i) = key_from(after, other, 0) {
        if i < entries.len() {
            assert(same_key(entries[i as int].0, other));
        }
    }
}

} // verus!
