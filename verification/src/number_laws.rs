//! What bytes stand for, in numbers: varints and fixed numbers digit by digit,
//! tags, chunks, two's complement and zig-zag.
use vstd::arithmetic::power::{lemma_pow0, lemma_pow1, lemma_pow_positive, pow};
use vstd::prelude::*;

use crate::wire::{
    base128_in, chunk_bytes, chunk_in, extended, field_bytes, field_in, fixed32_in, fixed64_in,
    le_bytes, le_value, low32, payload_bytes, payload_in, signed32, signed64, tag_bytes, tag_in,
    unzigzag, varint_bytes, varint_in, zigzag, Payload, WireError, WireField, WireType,
};

verus! {

/// The number whose base-128 digits, the lowest first, are the low seven bits
/// of the first `n` of the bytes.
pub open spec fn septets(s: Seq<u8>, n: nat) -> int
    decreases n,
{
    if n == 0 {
        0
    } else {
        septets(s, (n - 1) as nat) + (s[n - 1] % 128) * pow(128, (n - 1) as nat)
    }
}

/// The number whose base-256 digits, the lowest first, are the first `n` of the
/// bytes.
pub open spec fn octets(s: Seq<u8>, n: nat) -> int
    decreases n,
{
    if n == 0 {
        0
    } else {
        octets(s, (n - 1) as nat) + s[n - 1] * pow(256, (n - 1) as nat)
    }
}

/// Whether the first varint of `s` takes `n` bytes: all of them but the last
/// have their high bit set.
pub open spec fn varint_ends(s: Seq<u8>, n: nat) -> bool {
    &&& 0 < n <= s.len()
    &&& s[n - 1] < 128
    &&& forall|i: int| 0 <= i < n - 1 ==> #[trigger] s[i] >= 128
}

proof fn lemma_next_power(base: int, n: nat)
    ensures
        pow(base, n + 1) == base * pow(base, n),
{
    reveal(pow);
}

/// The lowest digit of a number, and the others.
proof fn lemma_septets_front(s: Seq<u8>, n: nat)
    requires
        0 < n <= s.len(),
    ensures
        septets(s, n) == s[0] % 128 + 128 * septets(s.skip(1), (n - 1) as nat),
    decreases n,
{
    if n == 1 {
        lemma_pow0(128);
        assert(septets(s, 0) == 0);
        assert(septets(s.skip(1), 0) == 0);
    } else {
        lemma_septets_front(s, (n - 1) as nat);
        lemma_next_power(128, (n - 2) as nat);
        assert(s.skip(1)[n - 2] == s[n - 1]);
        let digit = (s[n - 1] % 128) as int;
        let power = pow(128, (n - 2) as nat);
        assert(digit * (128 * power) == 128 * (digit * power)) by (nonlinear_arith);
    }
}

proof fn lemma_octets_front(s: Seq<u8>, n: nat)
    requires
        0 < n <= s.len(),
    ensures
        octets(s, n) == s[0] + 256 * octets(s.skip(1), (n - 1) as nat),
    decreases n,
{
    if n == 1 {
        lemma_pow0(256);
        assert(octets(s, 0) == 0);
        assert(octets(s.skip(1), 0) == 0);
    } else {
        lemma_octets_front(s, (n - 1) as nat);
        lemma_next_power(256, (n - 2) as nat);
        assert(s.skip(1)[n - 2] == s[n - 1]);
        let digit = s[n - 1] as int;
        let power = pow(256, (n - 2) as nat);
        assert(digit * (256 * power) == 256 * (digit * power)) by (nonlinear_arith);
    }
}

/// Only the bytes that are counted matter.
proof fn lemma_octets_same(s: Seq<u8>, t: Seq<u8>, n: nat)
    requires
        n <= s.len(),
        n <= t.len(),
        forall|i: int| 0 <= i < n ==> s[i] == t[i],
    ensures
        octets(s, n) == octets(t, n),
    decreases n,
{
    if n > 0 {
        lemma_octets_same(s, t, (n - 1) as nat);
    }
}

/// A varint is written with the lowest seven bits first, every byte but the
/// last with its high bit set, and no byte more than its value needs.
pub proof fn law_varint_written(value: nat)
    ensures
        varint_ends(varint_bytes(value), varint_bytes(value).len()),
        septets(varint_bytes(value), varint_bytes(value).len()) == value,
        varint_bytes(value).len() > 1 ==> varint_bytes(value).last() != 0,
        value == 0 ==> varint_bytes(value) == seq![0u8],
    decreases value,
{
    let bytes = varint_bytes(value);
    lemma_pow0(128);
    if value < 128 {
        assert(septets(bytes, 0) == 0);
        assert(septets(bytes, 1) == value) by (nonlinear_arith)
            requires
                septets(bytes, 1) == septets(bytes, 0) + (bytes[0] % 128) * pow(128, 0),
                septets(bytes, 0) == 0,
                bytes[0] == value,
                value < 128,
                pow(128, 0) == 1,
        ;
    } else {
        let rest = varint_bytes(value / 128);
        law_varint_written(value / 128);
        assert(bytes.skip(1) =~= rest);
        lemma_septets_front(bytes, bytes.len());
        assert forall|i: int| 0 <= i < bytes.len() - 1 implies #[trigger] bytes[i] >= 128 by {
            if i > 0 {
                assert(bytes[i] == rest[i - 1]);
            }
        }
        assert(bytes.last() == rest.last());
        assert(rest.last() != 0) by {
            if rest.len() == 1 {
                assert(rest == seq![(value / 128) as u8]) by {
                    if value / 128 >= 128 {
                        law_varint_written(value / 128 / 128);
                    }
                }
            }
        }
    }
}

/// The base-128 number that is read.
proof fn lemma_base128(s: Seq<u8>, limit: nat, n: nat)
    requires
        varint_ends(s, n),
        n <= limit,
    ensures
        base128_in(s, limit).used == n,
        base128_in(s, limit).result matches Ok(value) && value == septets(s, n),
    decreases n,
{
    lemma_septets_front(s, n);
    if n > 1 {
        assert(s[0] >= 128);
        assert(varint_ends(s.skip(1), (n - 1) as nat)) by {
            assert forall|i: int| 0 <= i < n - 2 implies #[trigger] s.skip(1)[i] >= 128 by {
                assert(s[i + 1] >= 128);
            }
        }
        lemma_base128(s.skip(1), (limit - 1) as nat, (n - 1) as nat);
    } else {
        assert(septets(s.skip(1), 0) == 0);
    }
}

/// A varint of at most ten bytes is read as the number that its digits give,
/// modulo 2^64, and just its bytes are consumed.
pub proof fn law_varint_read(s: Seq<u8>, n: nat)
    requires
        varint_ends(s, n),
        n <= 10,
    ensures
        varint_in(s).used == n,
        varint_in(s).result matches Ok(value) && value == septets(s, n)
            % 0x1_0000_0000_0000_0000,
{
    lemma_base128(s, 10, n);
}

proof fn lemma_base128_error(s: Seq<u8>, limit: nat)
    requires
        forall|i: int| 0 <= i < s.len() && i < limit ==> #[trigger] s[i] >= 128,
    ensures
        base128_in(s, limit) == (if s.len() < limit {
            crate::wire::WireRead::<nat> { result: Err(WireError::UnexpectedEof), used: s.len() }
        } else {
            crate::wire::WireRead::<nat> { result: Err(WireError::VarintOverflow), used: limit }
        }),
    decreases limit,
{
    if limit > 0 && s.len() > 0 {
        assert(s[0] >= 128);
        assert forall|i: int| 0 <= i < s.skip(1).len() && i < limit - 1 implies #[trigger] s.skip(
            1,
        )[i] >= 128 by {
            assert(s[i + 1] >= 128);
        }
        lemma_base128_error(s.skip(1), (limit - 1) as nat);
    }
}

/// A varint fails in two ways: its bytes run out, or there is no last one among
/// the first ten.
pub proof fn law_varint_refused(s: Seq<u8>)
    requires
        forall|i: int| 0 <= i < s.len() && i < 10 ==> #[trigger] s[i] >= 128,
    ensures
        s.len() < 10 ==> {
            &&& varint_in(s).result == Err::<u64, WireError>(WireError::UnexpectedEof)
            &&& varint_in(s).used == s.len()
        },
        s.len() >= 10 ==> {
            &&& varint_in(s).result == Err::<u64, WireError>(WireError::VarintOverflow)
            &&& varint_in(s).used == 10
        },
{
    lemma_base128_error(s, 10);
}

/// Fixed numbers are written with the lowest byte first.
pub proof fn law_fixed_written(value: nat, n: nat)
    ensures
        le_bytes(value, n).len() == n,
        octets(le_bytes(value, n), n) == value as int % pow(256, n),
    decreases n,
{
    lemma_pow_positive(256, n);
    if n == 0 {
        lemma_pow0(256);
    } else {
        let bytes = le_bytes(value, n);
        let m = (n - 1) as nat;
        law_fixed_written(value / 256, m);
        assert(bytes.skip(1) =~= le_bytes(value / 256, m));
        lemma_octets_front(bytes, n);
        lemma_next_power(256, m);
        lemma_pow_positive(256, m);
        let power = pow(256, m);
        vstd::arithmetic::div_mod::lemma_breakdown(value as int, 256, power);
        assert(256 * power == pow(256, n));
    }
}

proof fn lemma_le_value(s: Seq<u8>)
    ensures
        le_value(s) == octets(s, s.len()),
    decreases s.len(),
{
    if s.len() > 0 {
        lemma_le_value(s.skip(1));
        lemma_octets_front(s, s.len());
    }
}

proof fn lemma_octets_bound(s: Seq<u8>, n: nat)
    requires
        n <= s.len(),
    ensures
        0 <= octets(s, n) < pow(256, n),
    decreases n,
{
    if n == 0 {
        lemma_pow0(256);
    } else {
        lemma_octets_bound(s, (n - 1) as nat);
        lemma_next_power(256, (n - 1) as nat);
        let digit = s[n - 1] as int;
        let power = pow(256, (n - 1) as nat);
        assert(0 <= digit * power <= 255 * power) by (nonlinear_arith)
            requires
                0 <= digit <= 255,
                power > 0,
        ;
    }
}

proof fn lemma_powers_of_256()
    ensures
        pow(256, 4) == 0x1_0000_0000,
        pow(256, 8) == 0x1_0000_0000_0000_0000,
{
    lemma_pow1(256);
    lemma_next_power(256, 1);
    lemma_next_power(256, 2);
    lemma_next_power(256, 3);
    lemma_next_power(256, 4);
    lemma_next_power(256, 5);
    lemma_next_power(256, 6);
    lemma_next_power(256, 7);
}

/// Fixed numbers are read with the lowest byte first; what is too short is
/// consumed to its end.
pub proof fn law_fixed_read(s: Seq<u8>)
    ensures
        s.len() >= 4 ==> {
            &&& fixed32_in(s).result matches Ok(value) && value == octets(s, 4)
            &&& fixed32_in(s).used == 4
        },
        s.len() < 4 ==> {
            &&& fixed32_in(s).result == Err::<u32, WireError>(WireError::UnexpectedEof)
            &&& fixed32_in(s).used == s.len()
        },
        s.len() >= 8 ==> {
            &&& fixed64_in(s).result matches Ok(value) && value == octets(s, 8)
            &&& fixed64_in(s).used == 8
        },
        s.len() < 8 ==> {
            &&& fixed64_in(s).result == Err::<u64, WireError>(WireError::UnexpectedEof)
            &&& fixed64_in(s).used == s.len()
        },
{
    lemma_powers_of_256();
    if s.len() >= 4 {
        lemma_le_value(s.take(4));
        lemma_octets_same(s, s.take(4), 4);
        lemma_octets_bound(s, 4);
    }
    if s.len() >= 8 {
        lemma_le_value(s.take(8));
        lemma_octets_same(s, s.take(8), 8);
        lemma_octets_bound(s, 8);
    }
}

/// A tag is the varint of eight times the field number plus the number of the
/// wire type: 0 for varints, 1 for 64-bit numbers, 2 for chunks, 5 for 32-bit
/// numbers.
pub proof fn law_tag_written(field: u32)
    ensures
        tag_bytes(field, WireType::Varint) == varint_bytes((field * 8) as nat),
        tag_bytes(field, WireType::I64) == varint_bytes((field * 8 + 1) as nat),
        tag_bytes(field, WireType::Len) == varint_bytes((field * 8 + 2) as nat),
        tag_bytes(field, WireType::I32) == varint_bytes((field * 8 + 5) as nat),
{
}

/// What is read as a tag: the low three bits are the wire type, of which 3, 4,
/// 6 and 7 are none; the others are the field number, from 1 to 2^29 - 1. The
/// wire type is looked at first.
pub proof fn law_tag_read(s: Seq<u8>)
    ensures
        tag_in(s).used == varint_in(s).used,
        match varint_in(s).result {
            Err(error) => tag_in(s).result == Err::<(u32, WireType), WireError>(error),
            Ok(key) => {
                let number = key as int / 8;
                let wire = key as int % 8;
                let legal = 1 <= number <= 536_870_911;
                &&& wire == 3 || wire == 4 || wire == 6 || wire == 7 <==> (
                tag_in(s).result matches Err(WireError::InvalidWireType(_)))
                &&& tag_in(s).result matches Err(WireError::InvalidWireType(w)) ==> w == wire
                &&& (wire == 0 || wire == 1 || wire == 2 || wire == 5) && !legal <==> (
                tag_in(s).result matches Err(WireError::InvalidFieldNumber(_)))
                &&& tag_in(s).result matches Err(WireError::InvalidFieldNumber(n)) ==> n == number
                &&& tag_in(s).result matches Ok(tag) ==> {
                    &&& tag.0 == number
                    &&& tag.1 == WireType::Varint <==> wire == 0
                    &&& tag.1 == WireType::I64 <==> wire == 1
                    &&& tag.1 == WireType::Len <==> wire == 2
                    &&& tag.1 == WireType::I32 <==> wire == 5
                }
                &&& tag_in(s).result is Ok <==> legal && (wire == 0 || wire == 1 || wire == 2
                    || wire == 5)
            },
        },
{
}

/// A chunk is its length as a varint, and then its bytes.
pub proof fn law_chunk_written(data: Seq<u8>)
    ensures
        ({
            let prefix = varint_bytes(data.len());
            let bytes = chunk_bytes(data);
            &&& bytes.len() == prefix.len() + data.len()
            &&& bytes.take(prefix.len() as int) == prefix
            &&& bytes.skip(prefix.len() as int) == data
        }),
{
    let prefix = varint_bytes(data.len());
    assert(chunk_bytes(data).take(prefix.len() as int) =~= prefix);
    assert(chunk_bytes(data).skip(prefix.len() as int) =~= data);
}

/// A chunk is read as the bytes behind its length, if there are as many; if
/// not, the length alone is consumed.
pub proof fn law_chunk_read(s: Seq<u8>)
    ensures
        match varint_in(s).result {
            Err(error) => {
                &&& chunk_in(s).result == Err::<Seq<u8>, WireError>(error)
                &&& chunk_in(s).used == varint_in(s).used
            },
            Ok(len) => {
                let start = varint_in(s).used;
                if start + len <= s.len() {
                    &&& chunk_in(s).result matches Ok(data)
                    &&& data.len() == len
                    &&& forall|i: int| 0 <= i < len ==> #[trigger] data[i] == s[start + i]
                    &&& chunk_in(s).used == start + len
                } else {
                    &&& chunk_in(s).result == Err::<Seq<u8>, WireError>(WireError::InvalidLength)
                    &&& chunk_in(s).used == start
                }
            },
        },
{
    crate::wire::lemma_base128_used(s, 10);
}

/// A payload is written by its wire type: varints as such, the others as fixed
/// numbers of eight or four bytes or as a chunk.
pub proof fn law_payload_written(number: u64, short: u32, data: Seq<u8>)
    ensures
        payload_bytes(Payload::Varint(number)) == varint_bytes(number as nat),
        payload_bytes(Payload::I64(number)) == le_bytes(number as nat, 8),
        payload_bytes(Payload::I32(short)) == le_bytes(short as nat, 4),
        payload_bytes(Payload::Len(data)) == chunk_bytes(data),
        Payload::Varint(number).wire() == WireType::Varint,
        Payload::I64(number).wire() == WireType::I64,
        Payload::I32(short).wire() == WireType::I32,
        Payload::Len(data).wire() == WireType::Len,
{
}

/// A payload is read by its wire type.
pub proof fn law_payload_read(s: Seq<u8>)
    ensures
        payload_in(s, WireType::Varint).used == varint_in(s).used,
        match varint_in(s).result {
            Ok(value) => payload_in(s, WireType::Varint).result == Ok::<Payload, WireError>(
                Payload::Varint(value),
            ),
            Err(error) => payload_in(s, WireType::Varint).result == Err::<Payload, WireError>(
                error,
            ),
        },
        payload_in(s, WireType::I64).used == fixed64_in(s).used,
        match fixed64_in(s).result {
            Ok(value) => payload_in(s, WireType::I64).result == Ok::<Payload, WireError>(
                Payload::I64(value),
            ),
            Err(error) => payload_in(s, WireType::I64).result == Err::<Payload, WireError>(error),
        },
        payload_in(s, WireType::I32).used == fixed32_in(s).used,
        match fixed32_in(s).result {
            Ok(value) => payload_in(s, WireType::I32).result == Ok::<Payload, WireError>(
                Payload::I32(value),
            ),
            Err(error) => payload_in(s, WireType::I32).result == Err::<Payload, WireError>(error),
        },
        payload_in(s, WireType::Len).used == chunk_in(s).used,
        match chunk_in(s).result {
            Ok(data) => payload_in(s, WireType::Len).result == Ok::<Payload, WireError>(
                Payload::Len(data),
            ),
            Err(error) => payload_in(s, WireType::Len).result == Err::<Payload, WireError>(error),
        },
{
}

/// A field is its tag and then its payload, on both sides.
pub proof fn law_field_parts(field: WireField, s: Seq<u8>)
    ensures
        field_bytes(field) == tag_bytes(field.number, field.payload.wire()) + payload_bytes(
            field.payload,
        ),
        match tag_in(s).result {
            Err(error) => {
                &&& field_in(s).result == Err::<WireField, WireError>(error)
                &&& field_in(s).used == tag_in(s).used
            },
            Ok((number, wire)) => {
                let payload = payload_in(s.skip(tag_in(s).used as int), wire);
                &&& field_in(s).used == tag_in(s).used + payload.used
                &&& payload.result matches Err(error) ==> field_in(s).result == Err::<
                    WireField,
                    WireError,
                >(error)
                &&& payload.result matches Ok(payload) ==> {
                    &&& field_in(s).result matches Ok(read)
                    &&& read.number == number
                    &&& read.payload == payload
                    &&& payload.wire() == wire
                }
            },
        },
{
}

/// Two's complement: the bits of a number are the number modulo a power of two,
/// and the signed number with given bits is the one that is congruent to them.
pub proof fn law_twos_complement(value: int, bits: u64, short: u32)
    ensures
        (extended(value) - value) % 0x1_0000_0000_0000_0000 == 0,
        (signed64(bits as int) - bits) % 0x1_0000_0000_0000_0000 == 0,
        i64::MIN <= signed64(bits as int) <= i64::MAX,
        (signed32(short as int) - short) % 0x1_0000_0000 == 0,
        i32::MIN <= signed32(short as int) <= i32::MAX,
        (bits - low32(bits)) % 0x1_0000_0000 == 0,
{
}

/// Zig-zag numbering counts outwards from zero, a negative number ahead of the
/// positive one of the same size.
pub proof fn law_zigzag_numbers(value: int)
    requires
        value >= 0,
    ensures
        zigzag(0) == 0,
        zigzag(value + 1) == zigzag(value) + 2,
        zigzag(-value - 1) == zigzag(value) + 1,
        unzigzag(0) == 0,
        unzigzag(2 * value) == value,
        unzigzag(2 * value + 1) == -value - 1,
{
}

} // verus!
