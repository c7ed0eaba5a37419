//! Native conversions for `google.protobuf.Timestamp` / `Duration`.
//!
//! Timestamp fields surface as Python `datetime` objects and Duration fields
//! as `timedelta` -- no wrapper classes. The math is exact integer arithmetic
//! on the days/seconds/microseconds components; only sub-microsecond precision
//! is lost (protobuf carries nanoseconds, `datetime`/`timedelta` microseconds).
//!
//! On the wire both types are ordinary messages: field 1 = `seconds` (varint),
//! field 2 = `nanos` (varint).
use vstd::prelude::*;

use crate::wire::{
    self, extended, field_bytes, field_in, lemma_field_used, low32, signed32, signed64, Payload,
    Reader, WireError, WireField, WireType,
};

verus! {

pub const NANOS_PER_SECOND: i128 = 1_000_000_000;

/// The components of a Python `timedelta`. A `datetime` is given by its
/// distance from the epoch.
#[derive(Debug, Clone, Copy, PartialEq, Eq, Structural)]
pub struct Timedelta {
    pub days: i64,
    pub seconds: i64,
    pub microseconds: i64,
}

/// The arguments from which a Python `timedelta` is built:
/// `timedelta(seconds=.., microseconds=..)`.
#[derive(Debug, Clone, Copy, PartialEq, Eq, Structural)]
pub struct TimedeltaArgs {
    pub seconds: i64,
    pub microseconds: i32,
}

impl Timedelta {
    /// Total nanoseconds.
    pub open spec fn nanos(self) -> int {
        (self.days * 86_400 + self.seconds) * 1_000_000_000 + self.microseconds * 1_000
    }
}

/// `n` divided by `d`, rounded toward zero.
pub open spec fn trunc_div(n: int, d: int) -> int {
    if n >= 0 {
        n / d
    } else {
        -((-n) / d)
    }
}

/// What [`trunc_div`] leaves; it has the sign of `n`.
pub open spec fn trunc_rem(n: int, d: int) -> int {
    n - d * trunc_div(n, d)
}

/// Total nanoseconds represented by a Python `timedelta` (exact).
pub fn timedelta_total_nanos(delta: Timedelta) -> (total: i128)
    ensures
        total == delta.nanos(),
{
    (delta.days as i128 * 86_400 + delta.seconds as i128) * NANOS_PER_SECOND
        + delta.microseconds as i128 * 1_000
}

/// Distance from the epoch -> Timestamp `(seconds, nanos)`, where `nanos` is
/// always in `[0, 999_999_999]`.
pub fn datetime_to_parts(since_epoch: Timedelta) -> (parts: (i64, i32))
    ensures
        parts.0 == (since_epoch.nanos() / 1_000_000_000) as i64,
        parts.1 == since_epoch.nanos() % 1_000_000_000,
        0 <= parts.1 <= 999_999_999,
        i64::MIN <= since_epoch.nanos() / 1_000_000_000 <= i64::MAX ==> parts.0 * 1_000_000_000
            + parts.1 == since_epoch.nanos(),
{
    let total: i128 = timedelta_total_nanos(since_epoch);
    if total >= 0 {
        ((total / NANOS_PER_SECOND) as i64, (total % NANOS_PER_SECOND) as i32)
    } else {
        let below: i128 = -total;
        let whole: i128 = below / NANOS_PER_SECOND;
        let rest: i128 = below % NANOS_PER_SECOND;
        if rest == 0 {
            ((-whole) as i64, 0)
        } else {
            ((-whole - 1) as i64, (NANOS_PER_SECOND - rest) as i32)
        }
    }
}

/// `timedelta` -> Duration `(seconds, nanos)`, where `seconds` and `nanos`
/// carry the same sign.
pub fn timedelta_to_parts(delta: Timedelta) -> (parts: (i64, i32))
    ensures
        parts.0 == trunc_div(delta.nanos(), 1_000_000_000) as i64,
        parts.1 == trunc_rem(delta.nanos(), 1_000_000_000),
        -999_999_999 <= parts.1 <= 999_999_999,
        delta.nanos() >= 0 ==> parts.1 >= 0,
        delta.nanos() <= 0 ==> parts.1 <= 0,
        i64::MIN <= trunc_div(delta.nanos(), 1_000_000_000) <= i64::MAX ==> {
            &&& parts.0 * 1_000_000_000 + parts.1 == delta.nanos()
            &&& delta.nanos() >= 0 ==> parts.0 >= 0
            &&& delta.nanos() <= 0 ==> parts.0 <= 0
        },
{
    let total: i128 = timedelta_total_nanos(delta);
    if total >= 0 {
        ((total / NANOS_PER_SECOND) as i64, (total % NANOS_PER_SECOND) as i32)
    } else {
        let below: i128 = -total;
        ((-(below / NANOS_PER_SECOND)) as i64, (-(below % NANOS_PER_SECOND)) as i32)
    }
}

/// A `timedelta` from whole seconds + (truncated) nanoseconds.
fn timedelta_from(secs: i64, nanos: i32) -> (args: TimedeltaArgs)
    ensures
        args.seconds == secs,
        args.microseconds == trunc_div(nanos as int, 1_000),
{
    let microseconds: i32 = if nanos >= 0 {
        nanos / 1_000
    } else {
        (-((-(nanos as i64)) / 1_000)) as i32
    };
    TimedeltaArgs { seconds: secs, microseconds }
}

/// Timestamp `(seconds, nanos)` -> the distance from the epoch of the
/// aware-UTC `datetime` (sub-microsecond part truncated).
pub fn parts_to_datetime(secs: i64, nanos: i32) -> (since_epoch: TimedeltaArgs)
    ensures
        since_epoch.seconds == secs,
        since_epoch.microseconds == trunc_div(nanos as int, 1_000),
{
    timedelta_from(secs, nanos)
}

/// Duration `(seconds, nanos)` -> `timedelta` (sub-microsecond part truncated).
pub fn parts_to_timedelta(secs: i64, nanos: i32) -> (args: TimedeltaArgs)
    ensures
        args.seconds == secs,
        args.microseconds == trunc_div(nanos as int, 1_000),
{
    timedelta_from(secs, nanos)
}

// ---------------------------------------------------------------------------
// On the wire
// ---------------------------------------------------------------------------

/// A number as a varint field, or nothing if it is zero.
pub open spec fn part_bytes(number: u32, value: int) -> Seq<u8> {
    if value == 0 {
        Seq::empty()
    } else {
        field_bytes(WireField { number, payload: Payload::Varint(extended(value)) })
    }
}

/// Timestamp/Duration message bytes.
pub open spec fn parts_bytes(secs: i64, nanos: i32) -> Seq<u8> {
    part_bytes(1, secs as int) + part_bytes(2, nanos as int)
}

/// The parts after one more field.
pub open spec fn parts_with(parts: (i64, i32), field: WireField) -> (i64, i32) {
    match field.payload {
        Payload::Varint(value) => if field.number == 1 {
            (signed64(value as int) as i64, parts.1)
        } else if field.number == 2 {
            (parts.0, signed32(low32(value) as int) as i32)
        } else {
            parts
        },
        _ => parts,
    }
}

/// The parts after the fields of `s`.
pub open spec fn parts_in(s: Seq<u8>, parts: (i64, i32)) -> Result<(i64, i32), WireError>
    decreases s.len(),
{
    if s.len() == 0 {
        Ok(parts)
    } else {
        proof {
            lemma_field_used(s);
        }
        match field_in(s).result {
            Err(error) => Err(error),
            Ok(field) => parts_in(s.skip(field_in(s).used as int), parts_with(parts, field)),
        }
    }
}

/// Encode `(seconds, nanos)` as Timestamp/Duration message bytes.
pub fn encode_parts(buf: &mut Vec<u8>, secs: i64, nanos: i32)
    ensures
        final(buf)@ == old(buf)@ + parts_bytes(secs, nanos),
{
    if secs != 0 {
        wire::write_tag(buf, 1, WireType::Varint);
        wire::write_varint(buf, wire::i64_to_bits(secs));
    }
    if nanos != 0 {
        wire::write_tag(buf, 2, WireType::Varint);
        wire::write_varint(buf, wire::i64_to_bits(nanos as i64));
    }
    proof {
        assert(buf@ =~= old(buf)@ + parts_bytes(secs, nanos));
    }
}

/// Decode Timestamp/Duration message bytes into `(seconds, nanos)`.
pub fn decode_parts(data: &[u8]) -> (parts: Result<(i64, i32), WireError>)
    ensures
        parts == parts_in(data@, (0, 0)),
{
    let mut reader = Reader::new(data);
    let mut secs: i64 = 0;
    let mut nanos: i32 = 0;
    while !reader.is_empty()
        invariant
            parts_in(reader.rest(), (secs, nanos)) == parts_in(data@, (0, 0)),
        decreases reader.rest().len(),
    {
        let ghost start = reader.rest();
        proof {
            lemma_field_used(start);
        }
        let (number, wire_type) = reader.read_tag()?;
        let ghost used = wire::tag_in(start).used as int;
        match (number, wire_type) {
            (1, WireType::Varint) => {
                secs = wire::bits_to_i64(reader.read_varint()?);
            },
            (2, WireType::Varint) => {
                nanos = wire::bits_to_i32(wire::low_u32(reader.read_varint()?));
            },
            (_, wire_type) => {
                reader.skip(wire_type)?;
            },
        }
        proof {
            assert(reader.rest() =~= start.skip(field_in(start).used as int));
        }
    }
    Ok((secs, nanos))
}

// ---------------------------------------------------------------------------
// Laws
// ---------------------------------------------------------------------------

/// Encoded parts decode to themselves, for every pair.
pub proof fn law_parts_round_trip(secs: i64, nanos: i32)
    ensures
        parts_in(parts_bytes(secs, nanos), (0, 0)) == Ok::<(i64, i32), WireError>((secs, nanos)),
{
    let first = WireField { number: 1, payload: Payload::Varint(extended(secs as int)) };
    let second = WireField { number: 2, payload: Payload::Varint(extended(nanos as int)) };
    let tail = part_bytes(2, nanos as int);
    assert(signed64(extended(secs as int) as int) == secs);
    assert(signed32(low32(extended(nanos as int)) as int) == nanos);
    if nanos != 0 {
        crate::wire_laws::law_field_round_trip(second, Seq::empty());
        assert(tail + Seq::<u8>::empty() =~= tail);
        assert(parts_in(Seq::empty(), (secs, nanos)) == Ok::<(i64, i32), WireError>((secs, nanos)));
    }
    assert(parts_in(tail, (secs, 0)) == Ok::<(i64, i32), WireError>((secs, nanos)));
    if secs != 0 {
        crate::wire_laws::law_field_round_trip(first, tail);
    } else {
        assert(parts_bytes(secs, nanos) =~= tail);
    }
}

/// Converting a distance to Timestamp parts and back loses nothing: a
/// `timedelta` has no sub-microsecond part.
pub proof fn law_datetime_round_trip(since_epoch: Timedelta)
    ensures
        ({
            let secs = since_epoch.nanos() / 1_000_000_000;
            let micros = trunc_div(since_epoch.nanos() % 1_000_000_000, 1_000);
            secs * 1_000_000 + micros == (since_epoch.days * 86_400 + since_epoch.seconds)
                * 1_000_000 + since_epoch.microseconds
        }),
{
    let total = (since_epoch.days * 86_400 + since_epoch.seconds) * 1_000_000
        + since_epoch.microseconds;
    assert(since_epoch.nanos() == total * 1_000);
}

/// Converting a `timedelta` to Duration parts and back loses nothing.
pub proof fn law_timedelta_round_trip(delta: Timedelta)
    ensures
        ({
            let secs = trunc_div(delta.nanos(), 1_000_000_000);
            let micros = trunc_div(trunc_rem(delta.nanos(), 1_000_000_000), 1_000);
            secs * 1_000_000 + micros == (delta.days * 86_400 + delta.seconds) * 1_000_000
                + delta.microseconds
        }),
{
    let total = (delta.days * 86_400 + delta.seconds) * 1_000_000 + delta.microseconds;
    assert(delta.nanos() == total * 1_000);
}

} // verus!
