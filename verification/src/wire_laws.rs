//! What relates reading and writing of the wire format: every value that is
//! written reads back as itself, whatever follows it.
use vstd::prelude::*;

use crate::wire::{
    base128_in, chunk_bytes, chunk_in, field_bytes, field_in, fixed32_in, fixed64_in, le_bytes,
    le_value, lemma_base128_used, lemma_payload_used, lemma_varint_bytes_len, payload_bytes,
    payload_in, tag_bytes, tag_in, unzigzag, varint_bytes, varint_in, zigzag, Payload, WireField,
    WireType, MAX_FIELD_NUMBER, MAX_VARINT_LEN,
};

verus! {

// ---------------------------------------------------------------------------
// Zig-zag
// ---------------------------------------------------------------------------

/// Zig-zag decoding undoes zig-zag encoding.
pub proof fn law_zigzag_round_trip(value: int)
    ensures
        zigzag(value) >= 0,
        unzigzag(zigzag(value)) == value,
{
}

/// Zig-zag encoding undoes zig-zag decoding.
pub proof fn law_unzigzag_round_trip(number: int)
    requires
        number >= 0,
    ensures
        zigzag(unzigzag(number)) == number,
{
}

// ---------------------------------------------------------------------------
// Varints and tags
// ---------------------------------------------------------------------------

proof fn lemma_base128_round_trip(value: nat, limit: nat, tail: Seq<u8>)
    requires
        varint_bytes(value).len() <= limit,
    ensures
        base128_in(varint_bytes(value) + tail, limit).result == Ok::<nat, crate::wire::WireError>(
            value,
        ),
        base128_in(varint_bytes(value) + tail, limit).used == varint_bytes(value).len(),
    decreases value,
{
    let s = varint_bytes(value) + tail;
    if value >= 0x80 {
        assert(s.skip(1) =~= varint_bytes(value / 0x80) + tail);
        lemma_base128_round_trip(value / 0x80, (limit - 1) as nat, tail);
    }
}

/// A written varint reads back as the value, and reading it consumes just what
/// was written.
pub proof fn law_varint_round_trip(value: u64, tail: Seq<u8>)
    ensures
        varint_in(varint_bytes(value as nat) + tail).result == Ok::<u64, crate::wire::WireError>(
            value,
        ),
        varint_in(varint_bytes(value as nat) + tail).used == varint_bytes(value as nat).len(),
{
    lemma_varint_bytes_len(value);
    lemma_base128_round_trip(value as nat, MAX_VARINT_LEN as nat, tail);
}

/// A written tag with a legal field number reads back as itself.
pub proof fn law_tag_round_trip(field: u32, wire: WireType, tail: Seq<u8>)
    requires
        1 <= field <= MAX_FIELD_NUMBER,
    ensures
        tag_in(tag_bytes(field, wire) + tail).result == Ok::<
            (u32, WireType),
            crate::wire::WireError,
        >((field, wire)),
        tag_in(tag_bytes(field, wire) + tail).used == tag_bytes(field, wire).len(),
{
    let key: u64 = (field * 8 + wire.number()) as u64;
    law_varint_round_trip(key, tail);
    assert(key % 8 == wire.number());
    assert(key / 8 == field);
}

// ---------------------------------------------------------------------------
// Fixed-width numbers and chunks
// ---------------------------------------------------------------------------

pub proof fn lemma_le_bytes_len(value: nat, n: nat)
    ensures
        le_bytes(value, n).len() == n,
    decreases n,
{
    if n > 0 {
        lemma_le_bytes_len(value / 0x100, (n - 1) as nat);
    }
}

proof fn lemma_le_round_trip(value: nat, n: nat, bound: nat)
    requires
        value < bound,
        bound == vstd::arithmetic::power::pow(0x100, n),
    ensures
        le_value(le_bytes(value, n)) == value,
    decreases n,
{
    vstd::arithmetic::power::lemma_pow0(0x100);
    if n > 0 {
        let m = (n - 1) as nat;
        vstd::arithmetic::power::lemma_pow_adds(0x100, m, 1);
        vstd::arithmetic::power::lemma_pow1(0x100);
        vstd::arithmetic::power::lemma_pow_positive(0x100, m);
        assert(le_bytes(value, n).skip(1) =~= le_bytes(value / 0x100, m));
        lemma_le_round_trip(value / 0x100, m, vstd::arithmetic::power::pow(0x100, m) as nat);
    }
}

/// A written fixed 32-bit number reads back as itself.
pub proof fn law_fixed32_round_trip(value: u32, tail: Seq<u8>)
    ensures
        fixed32_in(le_bytes(value as nat, 4) + tail).result == Ok::<u32, crate::wire::WireError>(
            value,
        ),
        fixed32_in(le_bytes(value as nat, 4) + tail).used == le_bytes(value as nat, 4).len(),
{
    let bytes = le_bytes(value as nat, 4);
    lemma_le_bytes_len(value as nat, 4);
    assert(vstd::arithmetic::power::pow(0x100, 4) == 0x1_0000_0000) by {
        reveal(vstd::arithmetic::power::pow);
        reveal_with_fuel(vstd::arithmetic::power::pow, 5);
    }
    lemma_le_round_trip(value as nat, 4, 0x1_0000_0000);
    assert((bytes + tail).take(4) =~= bytes);
}

/// A written fixed 64-bit number reads back as itself.
pub proof fn law_fixed64_round_trip(value: u64, tail: Seq<u8>)
    ensures
        fixed64_in(le_bytes(value as nat, 8) + tail).result == Ok::<u64, crate::wire::WireError>(
            value,
        ),
        fixed64_in(le_bytes(value as nat, 8) + tail).used == le_bytes(value as nat, 8).len(),
{
    let bytes = le_bytes(value as nat, 8);
    lemma_le_bytes_len(value as nat, 8);
    assert(vstd::arithmetic::power::pow(0x100, 8) == 0x1_0000_0000_0000_0000) by {
        reveal(vstd::arithmetic::power::pow);
        reveal_with_fuel(vstd::arithmetic::power::pow, 9);
    }
    lemma_le_round_trip(value as nat, 8, 0x1_0000_0000_0000_0000);
    assert((bytes + tail).take(8) =~= bytes);
}

/// A written length-delimited chunk reads back as itself.
pub proof fn law_chunk_round_trip(data: Seq<u8>, tail: Seq<u8>)
    requires
        data.len() <= u64::MAX,
    ensures
        chunk_in(chunk_bytes(data) + tail).result == Ok::<Seq<u8>, crate::wire::WireError>(data),
        chunk_in(chunk_bytes(data) + tail).used == chunk_bytes(data).len(),
{
    let len = varint_bytes(data.len());
    law_varint_round_trip(data.len() as u64, data + tail);
    assert(chunk_bytes(data) + tail =~= len + (data + tail));
    assert((len + (data + tail)).subrange(len.len() as int, (len.len() + data.len()) as int) =~= data);
}

// ---------------------------------------------------------------------------
// Whole fields
// ---------------------------------------------------------------------------

/// A field that can be written: a legal number, and a length that a varint can
/// carry.
pub open spec fn writable(field: WireField) -> bool {
    &&& 1 <= field.number <= MAX_FIELD_NUMBER
    &&& field.payload matches Payload::Len(data) ==> data.len() <= u64::MAX
}

/// A written payload reads back as itself.
pub proof fn law_payload_round_trip(payload: Payload, tail: Seq<u8>)
    requires
        payload matches Payload::Len(data) ==> data.len() <= u64::MAX,
    ensures
        payload_in(payload_bytes(payload) + tail, payload.wire()).result == Ok::<
            Payload,
            crate::wire::WireError,
        >(payload),
        payload_in(payload_bytes(payload) + tail, payload.wire()).used == payload_bytes(
            payload,
        ).len(),
{
    match payload {
        Payload::Varint(value) => law_varint_round_trip(value, tail),
        Payload::I64(value) => law_fixed64_round_trip(value, tail),
        Payload::Len(data) => law_chunk_round_trip(data, tail),
        Payload::I32(value) => law_fixed32_round_trip(value, tail),
    }
}

/// A written field reads back as itself, and what follows it is left.
pub proof fn law_field_round_trip(field: WireField, tail: Seq<u8>)
    requires
        writable(field),
    ensures
        field_in(field_bytes(field) + tail).result == Ok::<WireField, crate::wire::WireError>(
            field,
        ),
        field_in(field_bytes(field) + tail).used == field_bytes(field).len(),
        (field_bytes(field) + tail).skip(field_bytes(field).len() as int) == tail,
        field_bytes(field).len() > 0,
{
    let tag = tag_bytes(field.number, field.payload.wire());
    let payload = payload_bytes(field.payload);
    let s = field_bytes(field) + tail;
    law_tag_round_trip(field.number, field.payload.wire(), payload + tail);
    assert(s =~= tag + (payload + tail));
    assert(s.skip(tag.len() as int) =~= payload + tail);
    law_payload_round_trip(field.payload, tail);
    lemma_varint_bytes_len((field.number * 8 + field.payload.wire().number()) as u64);
    assert(s.skip(field_bytes(field).len() as int) =~= tail);
}

// ---------------------------------------------------------------------------
// Reading looks no further than what it consumes
// ---------------------------------------------------------------------------

proof fn lemma_base128_prefix(s: Seq<u8>, limit: nat, tail: Seq<u8>)
    requires
        base128_in(s, limit).result is Ok,
    ensures
        base128_in(s.take(base128_in(s, limit).used as int) + tail, limit) == base128_in(s, limit),
    decreases limit,
{
    lemma_base128_used(s, limit);
    let used = base128_in(s, limit).used;
    let t = s.take(used as int) + tail;
    if s[0] >= 0x80 {
        let inner = base128_in(s.skip(1), (limit - 1) as nat);
        lemma_base128_used(s.skip(1), (limit - 1) as nat);
        lemma_base128_prefix(s.skip(1), (limit - 1) as nat, tail);
        assert(t.skip(1) =~= s.skip(1).take(inner.used as int) + tail);
    }
}

proof fn lemma_payload_prefix(s: Seq<u8>, wire: WireType, tail: Seq<u8>)
    requires
        payload_in(s, wire).result is Ok,
    ensures
        payload_in(s.take(payload_in(s, wire).used as int) + tail, wire) == payload_in(s, wire),
{
    lemma_payload_used(s, wire);
    let used = payload_in(s, wire).used as int;
    let t = s.take(used) + tail;
    match wire {
        WireType::Varint => lemma_base128_prefix(s, MAX_VARINT_LEN as nat, tail),
        WireType::I64 => {
            assert(t.take(8) =~= s.take(8));
        },
        WireType::I32 => {
            assert(t.take(4) =~= s.take(4));
        },
        WireType::Len => {
            let n = varint_in(s).used as int;
            lemma_base128_used(s, MAX_VARINT_LEN as nat);
            lemma_base128_prefix(s, MAX_VARINT_LEN as nat, s.subrange(n, used) + tail);
            assert(t =~= s.take(n) + (s.subrange(n, used) + tail));
            assert(t.subrange(n, used) =~= s.subrange(n, used));
        },
    }
}

/// A field reads the same off its own bytes, whatever follows them.
pub proof fn law_field_prefix(s: Seq<u8>, tail: Seq<u8>)
    requires
        field_in(s).result is Ok,
    ensures
        field_in(s.take(field_in(s).used as int) + tail) == field_in(s),
{
    let used = field_in(s).used as int;
    let n = tag_in(s).used as int;
    let (number, wire) = tag_in(s).result->Ok_0;
    crate::wire::lemma_field_used(s);
    lemma_base128_used(s, MAX_VARINT_LEN as nat);
    let after = s.skip(n);
    lemma_payload_used(after, wire);
    let t = s.take(used) + tail;
    lemma_base128_prefix(s, MAX_VARINT_LEN as nat, s.subrange(n, used) + tail);
    assert(t =~= s.take(n) + (s.subrange(n, used) + tail));
    lemma_payload_prefix(after, wire, tail);
    assert(t.skip(n) =~= after.take(used - n) + tail);
}

} // verus!
