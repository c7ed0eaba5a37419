//! Timestamps and durations: their parts on the wire, and the rounding of
//! nanoseconds.
use vstd::prelude::*;

use crate::wellknown::{parts_bytes, parts_in, trunc_div, trunc_rem, Timedelta};
use crate::wire::{field_bytes, field_in, Payload, WireError, WireField};
use crate::wire_laws::{law_field_round_trip, writable};

verus! {

/// Seconds are field 1 and nanoseconds field 2, as varints in two's complement;
/// a part that is zero is left out.
pub proof fn law_parts_written(secs: i64, nanos: i32)
    ensures
        ({
            let first = if secs >= 0 {
                secs as u64
            } else {
                (secs + 0x1_0000_0000_0000_0000) as u64
            };
            let second = if nanos >= 0 {
                nanos as u64
            } else {
                (nanos + 0x1_0000_0000_0000_0000) as u64
            };
            let a = field_bytes(WireField { number: 1, payload: Payload::Varint(first) });
            let b = field_bytes(WireField { number: 2, payload: Payload::Varint(second) });
            &&& parts_bytes(0, 0) == Seq::<u8>::empty()
            &&& secs != 0 ==> parts_bytes(secs, 0) == a
            &&& nanos != 0 ==> parts_bytes(0, nanos) == b
            &&& secs != 0 && nanos != 0 ==> parts_bytes(secs, nanos) == a + b
        }),
{
    let none = Seq::<u8>::empty();
    assert(parts_bytes(0, 0) =~= none);
    assert(parts_bytes(secs, 0) =~= parts_bytes(secs, 0) + none);
    let first = crate::wellknown::part_bytes(1, secs as int);
    let second = crate::wellknown::part_bytes(2, nanos as int);
    assert(first + none =~= first);
    assert(none + second =~= second);
}

/// Each field 1 that is a varint gives the seconds and each field 2 the
/// nanoseconds, the last of each counting; any other field is skipped, and what
/// is missing is zero. Bytes that are no field are refused.
pub proof fn law_parts_read(record: WireField, tail: Seq<u8>, secs: i64, nanos: i32)
    requires
        writable(record),
    ensures
        parts_in(Seq::empty(), (secs, nanos)) == Ok::<(i64, i32), WireError>((secs, nanos)),
        ({
            let all = parts_in(field_bytes(record) + tail, (secs, nanos));
            match record.payload {
                Payload::Varint(n) => {
                    let long = if n < 0x8000_0000_0000_0000 {
                        n as i64
                    } else {
                        (n - 0x1_0000_0000_0000_0000) as i64
                    };
                    let low = n as int % 0x1_0000_0000;
                    let short = if low < 0x8000_0000 {
                        low as i32
                    } else {
                        (low - 0x1_0000_0000) as i32
                    };
                    &&& record.number == 1 ==> all == parts_in(tail, (long, nanos))
                    &&& record.number == 2 ==> all == parts_in(tail, (secs, short))
                    &&& record.number != 1 && record.number != 2 ==> all == parts_in(
                        tail,
                        (secs, nanos),
                    )
                },
                _ => all == parts_in(tail, (secs, nanos)),
            }
        }),
        tail.len() > 0 ==> (field_in(tail).result matches Err(error) ==> parts_in(
            tail,
            (secs, nanos),
        ) == Err::<(i64, i32), WireError>(error)),
{
    law_field_round_trip(record, tail);
}

/// Rounding is toward zero: what is left has the sign of the number and is
/// smaller than the divisor.
pub proof fn law_rounding(n: int, d: int)
    requires
        d > 0,
    ensures
        n == d * trunc_div(n, d) + trunc_rem(n, d),
        n >= 0 ==> 0 <= trunc_rem(n, d) < d,
        n <= 0 ==> -d < trunc_rem(n, d) <= 0,
        trunc_div(-n, d) == -trunc_div(n, d),
{
    vstd::arithmetic::div_mod::lemma_fundamental_div_mod(n, d);
    vstd::arithmetic::div_mod::lemma_fundamental_div_mod(-n, d);
    vstd::arithmetic::div_mod::lemma_mod_bound(n, d);
    vstd::arithmetic::div_mod::lemma_mod_bound(-n, d);
    if n < 0 {
        let q = (-n) / d;
        assert(d * (-q) == -(d * q)) by (nonlinear_arith);
    }
    if n == 0 {
        assert(0int / d == 0) by (nonlinear_arith)
            requires
                d > 0,
        ;
        assert(d * 0 == 0);
    }
}

/// A `timedelta` counts days of 86400 seconds, seconds of a thousand million
/// nanoseconds, and microseconds of a thousand.
pub proof fn law_nanoseconds(delta: Timedelta)
    ensures
        delta.nanos() == delta.days * 86_400_000_000_000 + delta.seconds * 1_000_000_000
            + delta.microseconds * 1_000,
{
}

} // verus!
