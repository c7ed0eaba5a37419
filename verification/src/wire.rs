//! Pure protobuf wire-format primitives.
//!
//! This module knows nothing about Python or descriptors. It only reads and
//! writes the low-level building blocks of the protobuf binary encoding:
//! varints, zig-zag integers, fixed-width numbers, length-delimited chunks and
//! field tags.
//!
//! Reading is described by functions from the bytes that are left to a
//! [`WireRead`]; writing by functions from a value to the bytes that stand for
//! it.
use vstd::prelude::*;

verus! {

/// Protobuf wire types (the low 3 bits of a field tag).
#[derive(Debug, Clone, Copy, PartialEq, Eq, Structural)]
pub enum WireType {
    Varint,
    I64,
    Len,
    I32,
}

/// Error raised while decoding malformed wire data.
#[derive(Debug, Clone, Copy, PartialEq, Eq, Structural)]
pub enum WireError {
    /// Ran off the end of the buffer while reading.
    UnexpectedEof,
    /// A varint was longer than 10 bytes (would overflow u64).
    VarintOverflow,
    /// The low 3 bits of a tag were not a recognised wire type.
    InvalidWireType(u64),
    /// A length-delimited field claimed more bytes than remain.
    InvalidLength,
    /// A tag's field number was 0 or beyond the protobuf maximum (2^29 - 1).
    InvalidFieldNumber(u64),
}

/// The largest legal protobuf field number (field numbers are 29-bit).
pub const MAX_FIELD_NUMBER: u64 = 536_870_911;

/// The number of bytes that the longest varint takes.
pub const MAX_VARINT_LEN: usize = 10;

/// What reading off the front of a byte sequence gives: the value or the
/// error, and how many bytes are consumed either way.
pub struct WireRead<T> {
    pub result: Result<T, WireError>,
    pub used: nat,
}

impl WireType {
    /// The number that stands for this wire type in a tag.
    pub open spec fn number(self) -> nat {
        match self {
            WireType::Varint => 0,
            WireType::I64 => 1,
            WireType::Len => 2,
            WireType::I32 => 5,
        }
    }

    /// The wire type with the given number, if there is one.
    pub open spec fn numbered(value: nat) -> Option<WireType> {
        if value == 0 {
            Some(WireType::Varint)
        } else if value == 1 {
            Some(WireType::I64)
        } else if value == 2 {
            Some(WireType::Len)
        } else if value == 5 {
            Some(WireType::I32)
        } else {
            None
        }
    }

    pub fn from_u64(value: u64) -> (wire: Option<WireType>)
        ensures
            wire == WireType::numbered(value as nat),
            forall|w: WireType| wire == Some(w) <==> #[trigger] w.number() == value,
    {
        match value {
            0 => Some(WireType::Varint),
            1 => Some(WireType::I64),
            2 => Some(WireType::Len),
            5 => Some(WireType::I32),
            _ => None,
        }
    }

    /// The low 3 bits of a tag with this wire type.
    pub fn to_u64(self) -> (value: u64)
        ensures
            value == self.number(),
    {
        match self {
            WireType::Varint => 0,
            WireType::I64 => 1,
            WireType::Len => 2,
            WireType::I32 => 5,
        }
    }
}

// ---------------------------------------------------------------------------
// What the bytes mean
// ---------------------------------------------------------------------------

/// A little-endian base-128 number at the front of `s`, of at most `limit`
/// bytes: every byte but the last has its high bit set and gives 7 bits.
pub open spec fn base128_in(s: Seq<u8>, limit: nat) -> WireRead<nat>
    decreases limit,
{
    if limit == 0 {
        WireRead { result: Err(WireError::VarintOverflow), used: 0 }
    } else if s.len() == 0 {
        WireRead { result: Err(WireError::UnexpectedEof), used: 0 }
    } else if s[0] < 0x80 {
        WireRead { result: Ok(s[0] as nat), used: 1 }
    } else {
        let tail = base128_in(s.skip(1), (limit - 1) as nat);
        WireRead {
            result: match tail.result {
                Ok(high) => Ok((s[0] - 0x80 + 0x80 * high) as nat),
                Err(error) => Err(error),
            },
            used: tail.used + 1,
        }
    }
}

/// The varint at the front of `s`; bits beyond the 64th are dropped.
pub open spec fn varint_in(s: Seq<u8>) -> WireRead<u64> {
    let number = base128_in(s, MAX_VARINT_LEN as nat);
    WireRead {
        result: match number.result {
            Ok(value) => Ok((value % 0x1_0000_0000_0000_0000) as u64),
            Err(error) => Err(error),
        },
        used: number.used,
    }
}

/// The field number and wire type that a tag's varint stands for.
pub open spec fn tag_of(key: u64) -> Result<(u32, WireType), WireError> {
    match WireType::numbered((key % 8) as nat) {
        None => Err(WireError::InvalidWireType(key % 8)),
        Some(wire) => if key / 8 == 0 || key / 8 > MAX_FIELD_NUMBER {
            Err(WireError::InvalidFieldNumber(key / 8))
        } else {
            Ok(((key / 8) as u32, wire))
        },
    }
}

/// The field tag at the front of `s`.
pub open spec fn tag_in(s: Seq<u8>) -> WireRead<(u32, WireType)> {
    let key = varint_in(s);
    WireRead {
        result: match key.result {
            Ok(key) => tag_of(key),
            Err(error) => Err(error),
        },
        used: key.used,
    }
}

/// The number whose little-endian bytes are `s`.
pub open spec fn le_value(s: Seq<u8>) -> nat
    decreases s.len(),
{
    if s.len() == 0 {
        0
    } else {
        s[0] as nat + 0x100 * le_value(s.skip(1))
    }
}

/// The little-endian 32-bit number at the front of `s`.
pub open spec fn fixed32_in(s: Seq<u8>) -> WireRead<u32> {
    if s.len() < 4 {
        WireRead { result: Err(WireError::UnexpectedEof), used: s.len() }
    } else {
        WireRead { result: Ok(le_value(s.take(4)) as u32), used: 4 }
    }
}

/// The little-endian 64-bit number at the front of `s`.
pub open spec fn fixed64_in(s: Seq<u8>) -> WireRead<u64> {
    if s.len() < 8 {
        WireRead { result: Err(WireError::UnexpectedEof), used: s.len() }
    } else {
        WireRead { result: Ok(le_value(s.take(8)) as u64), used: 8 }
    }
}

/// The length-delimited chunk at the front of `s`: a varint, and as many bytes
/// as it says.
pub open spec fn chunk_in(s: Seq<u8>) -> WireRead<Seq<u8>> {
    let len = varint_in(s);
    match len.result {
        Err(error) => WireRead { result: Err(error), used: len.used },
        Ok(n) => if n > s.len() - len.used {
            WireRead { result: Err(WireError::InvalidLength), used: len.used }
        } else {
            WireRead {
                result: Ok(s.subrange(len.used as int, len.used + n)),
                used: (len.used + n) as nat,
            }
        },
    }
}

/// What follows a tag.
pub enum Payload {
    Varint(u64),
    I64(u64),
    Len(Seq<u8>),
    I32(u32),
}

impl Payload {
    pub open spec fn wire(self) -> WireType {
        match self {
            Payload::Varint(_) => WireType::Varint,
            Payload::I64(_) => WireType::I64,
            Payload::Len(_) => WireType::Len,
            Payload::I32(_) => WireType::I32,
        }
    }
}

/// The payload of the given wire type at the front of `s`.
pub open spec fn payload_in(s: Seq<u8>, wire: WireType) -> WireRead<Payload> {
    match wire {
        WireType::Varint => {
            let read = varint_in(s);
            WireRead {
                result: match read.result {
                    Ok(value) => Ok(Payload::Varint(value)),
                    Err(error) => Err(error),
                },
                used: read.used,
            }
        },
        WireType::I64 => {
            let read = fixed64_in(s);
            WireRead {
                result: match read.result {
                    Ok(value) => Ok(Payload::I64(value)),
                    Err(error) => Err(error),
                },
                used: read.used,
            }
        },
        WireType::Len => {
            let read = chunk_in(s);
            WireRead {
                result: match read.result {
                    Ok(value) => Ok(Payload::Len(value)),
                    Err(error) => Err(error),
                },
                used: read.used,
            }
        },
        WireType::I32 => {
            let read = fixed32_in(s);
            WireRead {
                result: match read.result {
                    Ok(value) => Ok(Payload::I32(value)),
                    Err(error) => Err(error),
                },
                used: read.used,
            }
        },
    }
}

/// One field of a message on the wire.
pub struct WireField {
    pub number: u32,
    pub payload: Payload,
}

/// The field at the front of `s`: a tag and its payload.
pub open spec fn field_in(s: Seq<u8>) -> WireRead<WireField> {
    let tag = tag_in(s);
    match tag.result {
        Err(error) => WireRead { result: Err(error), used: tag.used },
        Ok((number, wire)) => {
            let payload = payload_in(s.skip(tag.used as int), wire);
            WireRead {
                result: match payload.result {
                    Ok(payload) => Ok(WireField { number, payload }),
                    Err(error) => Err(error),
                },
                used: tag.used + payload.used,
            }
        },
    }
}

// ---------------------------------------------------------------------------
// The bytes that stand for a value
// ---------------------------------------------------------------------------

/// The shortest base-128 encoding of `value`.
pub open spec fn varint_bytes(value: nat) -> Seq<u8>
    decreases value,
{
    if value < 0x80 {
        seq![value as u8]
    } else {
        seq![(value % 0x80 + 0x80) as u8] + varint_bytes(value / 0x80)
    }
}

/// The tag of a field.
pub open spec fn tag_bytes(field: u32, wire: WireType) -> Seq<u8> {
    varint_bytes((field * 8 + wire.number()) as nat)
}

/// The low `n` bytes of `value`, little-endian.
pub open spec fn le_bytes(value: nat, n: nat) -> Seq<u8>
    decreases n,
{
    if n == 0 {
        seq![]
    } else {
        seq![(value % 0x100) as u8] + le_bytes(value / 0x100, (n - 1) as nat)
    }
}

/// A length-delimited chunk: the length as a varint, then the bytes.
pub open spec fn chunk_bytes(data: Seq<u8>) -> Seq<u8> {
    varint_bytes(data.len()) + data
}

/// The bytes of a payload.
pub open spec fn payload_bytes(payload: Payload) -> Seq<u8> {
    match payload {
        Payload::Varint(value) => varint_bytes(value as nat),
        Payload::I64(value) => le_bytes(value as nat, 8),
        Payload::Len(data) => chunk_bytes(data),
        Payload::I32(value) => le_bytes(value as nat, 4),
    }
}

/// The bytes of a field: its tag and its payload.
pub open spec fn field_bytes(field: WireField) -> Seq<u8> {
    tag_bytes(field.number, field.payload.wire()) + payload_bytes(field.payload)
}

/// Zig-zag numbering of the integers: 0, -1, 1, -2, 2, ...
pub open spec fn zigzag(value: int) -> int {
    if value >= 0 {
        2 * value
    } else {
        -2 * value - 1
    }
}

/// The integer with the given zig-zag number.
pub open spec fn unzigzag(number: int) -> int {
    if number % 2 == 0 {
        number / 2
    } else {
        -(number / 2) - 1
    }
}

/// The signed number with the given 32-bit two's complement bits.
pub open spec fn signed32(bits: int) -> int {
    if bits < 0x8000_0000 {
        bits
    } else {
        bits - 0x1_0000_0000
    }
}

/// The signed number with the given 64-bit two's complement bits.
pub open spec fn signed64(bits: int) -> int {
    if bits < 0x8000_0000_0000_0000 {
        bits
    } else {
        bits - 0x1_0000_0000_0000_0000
    }
}

/// The low 32 bits of a varint's value.
pub open spec fn low32(value: u64) -> u32 {
    (value % 0x1_0000_0000) as u32
}

/// The two's complement bits of a number, sign-extended to 64 bits.
pub open spec fn extended(value: int) -> u64 {
    (value % 0x1_0000_0000_0000_0000) as u64
}

// ---------------------------------------------------------------------------
// Reading never runs past the end
// ---------------------------------------------------------------------------

pub proof fn lemma_base128_used(s: Seq<u8>, limit: nat)
    ensures
        base128_in(s, limit).used <= s.len(),
        base128_in(s, limit).used <= limit,
        base128_in(s, limit).result is Ok ==> base128_in(s, limit).used > 0,
        limit > 0 && s.len() > 0 ==> base128_in(s, limit).used > 0,
    decreases limit,
{
    if limit > 0 && s.len() > 0 && s[0] >= 0x80 {
        lemma_base128_used(s.skip(1), (limit - 1) as nat);
    }
}

pub proof fn lemma_payload_used(s: Seq<u8>, wire: WireType)
    ensures
        payload_in(s, wire).used <= s.len(),
{
    lemma_base128_used(s, MAX_VARINT_LEN as nat);
}

/// Reading a field off a non-empty sequence consumes some of it, and no more
/// than there is.
pub proof fn lemma_field_used(s: Seq<u8>)
    ensures
        field_in(s).used <= s.len(),
        s.len() > 0 ==> field_in(s).used > 0,
{
    lemma_base128_used(s, MAX_VARINT_LEN as nat);
    if let Ok((number, wire)) = tag_in(s).result {
        lemma_payload_used(s.skip(tag_in(s).used as int), wire);
    }
}

// ---------------------------------------------------------------------------
// Reader
// ---------------------------------------------------------------------------

/// Cursor over an input buffer that reads wire primitives.
pub struct Reader<'a> {
    buf: &'a [u8],
    pos: usize,
}

impl<'a> Reader<'a> {
    /// The offset never runs past the end.
    #[verifier::type_invariant]
    spec fn well_formed(&self) -> bool {
        self.pos <= self.buf@.len()
    }

    /// The whole buffer.
    pub closed spec fn bytes(&self) -> Seq<u8> {
        self.buf@
    }

    /// How many bytes have been consumed.
    pub closed spec fn offset(&self) -> nat {
        self.pos as nat
    }

    /// The bytes that are left.
    pub open spec fn rest(&self) -> Seq<u8> {
        self.bytes().skip(self.offset() as int)
    }

    /// Whether `after` is this reader with `used` more bytes consumed; neither
    /// is past the end.
    pub open spec fn advanced(&self, after: &Reader<'a>, used: nat) -> bool {
        &&& after.bytes() == self.bytes()
        &&& after.offset() == self.offset() + used
        &&& after.offset() <= after.bytes().len()
        &&& used <= self.rest().len()
        &&& after.rest() == self.rest().skip(used as int)
    }

    pub fn new(buf: &'a [u8]) -> (reader: Reader<'a>)
        ensures
            reader.bytes() == buf@,
            reader.offset() == 0,
            reader.rest() == buf@,
    {
        let reader = Reader { buf, pos: 0 };
        assert(reader.rest() =~= buf@);
        reader
    }

    /// Whether the whole buffer has been consumed.
    pub fn is_empty(&self) -> (empty: bool)
        ensures
            empty == (self.rest().len() == 0),
            empty == (self.offset() == self.bytes().len()),
            self.offset() <= self.bytes().len(),
    {
        proof {
            use_type_invariant(self);
        }
        self.pos >= self.buf.len()
    }

    /// Current byte offset into the buffer.
    pub fn pos(&self) -> (pos: usize)
        ensures
            pos == self.offset(),
            pos <= self.bytes().len(),
    {
        proof {
            use_type_invariant(self);
        }
        self.pos
    }

    /// The raw bytes consumed since `start` (a value previously returned by
    /// [`Reader::pos`]). Used to preserve unknown fields verbatim.
    pub fn raw_since(&self, start: usize) -> (raw: &'a [u8])
        requires
            start <= self.offset(),
        ensures
            raw@ == self.bytes().subrange(start as int, self.offset() as int),
    {
        proof {
            use_type_invariant(self);
        }
        vstd::slice::slice_subrange(self.buf, start, self.pos)
    }

    fn next_byte(&mut self) -> (byte: Result<u8, WireError>)
        ensures
            old(self).rest().len() == 0 ==> {
                &&& byte == Err::<u8, WireError>(WireError::UnexpectedEof)
                &&& old(self).advanced(final(self), 0)
            },
            old(self).rest().len() > 0 ==> {
                &&& byte == Ok::<u8, WireError>(old(self).rest()[0])
                &&& old(self).advanced(final(self), 1)
            },
    {
        proof {
            use_type_invariant(&*self);
        }
        if self.pos < self.buf.len() {
            let byte = self.buf[self.pos];
            self.pos = self.pos + 1;
            assert(self.rest() =~= old(self).rest().skip(1));
            Ok(byte)
        } else {
            assert(self.rest() =~= old(self).rest().skip(0));
            Err(WireError::UnexpectedEof)
        }
    }

    /// Read a base-128 varint as a raw u64.
    pub fn read_varint(&mut self) -> (value: Result<u64, WireError>)
        ensures
            value == varint_in(old(self).rest()).result,
            old(self).advanced(final(self), varint_in(old(self).rest()).used),
    {
        proof {
            use_type_invariant(&*self);
        }
        let ghost start = self.rest();
        let ghost whole = base128_in(start, MAX_VARINT_LEN as nat);
        let mut result: u64 = 0;
        let mut shift: u32 = 0;
        let ghost mut groups: nat = 0;
        proof {
            assert(start.skip(0) =~= start);
        }
        while shift < 64
            invariant
                shift == 7 * groups,
                groups <= MAX_VARINT_LEN,
                groups < MAX_VARINT_LEN ==> result < place(groups),
                start == old(self).rest(),
                whole == base128_in(start, MAX_VARINT_LEN as nat),
                old(self).advanced(self, groups),
                whole.used == groups + base128_in(
                    self.rest(),
                    (MAX_VARINT_LEN - groups) as nat,
                ).used,
                groups < MAX_VARINT_LEN ==> whole.result == (match base128_in(
                    self.rest(),
                    (MAX_VARINT_LEN - groups) as nat,
                ).result {
                    Ok(high) => Ok::<nat, WireError>(result as nat + place(groups) * high),
                    Err(error) => Err(error),
                }),
                groups == MAX_VARINT_LEN ==> whole.result == Err::<nat, WireError>(
                    WireError::VarintOverflow,
                ),
            decreases MAX_VARINT_LEN - groups,
        {
            let ghost before = self.rest();
            let byte: u8 = match self.next_byte() {
                Ok(byte) => byte,
                Err(error) => {
                    return Err(error);
                },
            };
            let bits: u64 = (byte & 0x7f) as u64;
            proof {
                assert(byte & 0x7f == byte % 0x80) by (bit_vector);
                assert(byte & 0x80 == 0 <==> byte < 0x80) by (bit_vector);
                lemma_group(result, bits, shift, groups);
                assert(start.skip(groups as int).skip(1) =~= start.skip(groups as int + 1));
            }
            let ghost low = result;
            result = result | (bits << shift);
            if byte & 0x80 == 0 {
                return Ok(result);
            }
            proof {
                let tail = base128_in(self.rest(), (MAX_VARINT_LEN - groups - 1) as nat);
                if groups + 1 < MAX_VARINT_LEN {
                    if let Ok(high) = tail.result {
                        assert(low as nat + place(groups) * ((bits + 0x80 * high) as nat)
                            == result as nat + place(groups + 1) * high) by (nonlinear_arith)
                            requires
                                result as nat == low as nat + place(groups) * bits as nat,
                                place(groups + 1) == 0x80 * place(groups),
                        ;
                    }
                }
                groups = groups + 1;
            }
            shift = shift + 7;
        }
        Err(WireError::VarintOverflow)
    }

    /// Read a field tag, returning `(field_number, wire_type)`.
    pub fn read_tag(&mut self) -> (tag: Result<(u32, WireType), WireError>)
        ensures
            tag == tag_in(old(self).rest()).result,
            old(self).advanced(final(self), tag_in(old(self).rest()).used),
    {
        let key: u64 = self.read_varint()?;
        proof {
            assert(key & 0x7 == key % 8) by (bit_vector);
            assert(key >> 3 == key / 8) by (bit_vector);
        }
        let wire = match WireType::from_u64(key & 0x7) {
            Some(wire) => wire,
            None => {
                return Err(WireError::InvalidWireType(key & 0x7));
            },
        };
        // `key >> 3` may exceed 32 bits for a malformed tag; validate before the
        // cast so a huge field number can't silently truncate onto a real one.
        let field: u64 = key >> 3;
        if field == 0 || field > MAX_FIELD_NUMBER {
            return Err(WireError::InvalidFieldNumber(field));
        }
        Ok((field as u32, wire))
    }

    /// Read a little-endian fixed 32-bit value.
    pub fn read_fixed32(&mut self) -> (value: Result<u32, WireError>)
        ensures
            value == fixed32_in(old(self).rest()).result,
            old(self).advanced(final(self), fixed32_in(old(self).rest()).used),
    {
        proof {
            use_type_invariant(&*self);
        }
        let ghost start = self.rest();
        let mut value: u32 = 0;
        let mut place: u32 = 1;
        let mut i: usize = 0;
        proof {
            assert(start.skip(0) =~= start);
            assert(start.take(0) =~= Seq::<u8>::empty());
        }
        while i < 4
            invariant
                i <= 4,
                start == old(self).rest(),
                old(self).advanced(self, i as nat),
                i < 4 ==> place == byte_place(i as nat),
                value == le_value(start.take(i as int)),
                value < byte_place(i as nat),
            decreases 4 - i,
        {
            let byte: u8 = self.next_byte()?;
            proof {
                reveal_with_fuel(byte_place, 5);
                lemma_le_value_push(start.take(i as int), byte);
                assert(start.take(i as int).push(byte) =~= start.take(i as int + 1));
                assert(start.skip(i as int).skip(1) =~= start.skip(i as int + 1));
                assert(byte * place <= 255 * place) by (nonlinear_arith)
                    requires
                        byte <= 255,
                ;
            }
            value = value + byte as u32 * place;
            if i < 3 {
                place = place * 0x100;
            }
            i = i + 1;
        }
        Ok(value)
    }

    /// Read a little-endian fixed 64-bit value.
    pub fn read_fixed64(&mut self) -> (value: Result<u64, WireError>)
        ensures
            value == fixed64_in(old(self).rest()).result,
            old(self).advanced(final(self), fixed64_in(old(self).rest()).used),
    {
        proof {
            use_type_invariant(&*self);
        }
        let ghost start = self.rest();
        let mut value: u64 = 0;
        let mut place: u64 = 1;
        let mut i: usize = 0;
        proof {
            assert(start.skip(0) =~= start);
            assert(start.take(0) =~= Seq::<u8>::empty());
        }
        while i < 8
            invariant
                i <= 8,
                start == old(self).rest(),
                old(self).advanced(self, i as nat),
                i < 8 ==> place == byte_place(i as nat),
                value == le_value(start.take(i as int)),
                value < byte_place(i as nat),
            decreases 8 - i,
        {
            let byte: u8 = self.next_byte()?;
            proof {
                reveal_with_fuel(byte_place, 9);
                lemma_le_value_push(start.take(i as int), byte);
                assert(start.take(i as int).push(byte) =~= start.take(i as int + 1));
                assert(start.skip(i as int).skip(1) =~= start.skip(i as int + 1));
                assert(byte * place <= 255 * place) by (nonlinear_arith)
                    requires
                        byte <= 255,
                ;
            }
            value = value + byte as u64 * place;
            if i < 7 {
                place = place * 0x100;
            }
            i = i + 1;
        }
        Ok(value)
    }

    /// Read a length-delimited chunk, returning a borrowed slice.
    pub fn read_len_delimited(&mut self) -> (chunk: Result<&'a [u8], WireError>)
        ensures
            match chunk {
                Ok(data) => chunk_in(old(self).rest()).result == Ok::<Seq<u8>, WireError>(data@),
                Err(error) => chunk_in(old(self).rest()).result == Err::<Seq<u8>, WireError>(error),
            },
            old(self).advanced(final(self), chunk_in(old(self).rest()).used),
    {
        let len: u64 = self.read_varint()?;
        let ghost used = varint_in(old(self).rest()).used;
        if len > (self.buf.len() - self.pos) as u64 {
            return Err(WireError::InvalidLength);
        }
        let end: usize = self.pos + len as usize;
        let data = vstd::slice::slice_subrange(self.buf, self.pos, end);
        self.pos = end;
        proof {
            assert(data@ =~= old(self).rest().subrange(used as int, used + len));
            assert(self.rest() =~= old(self).rest().skip(used + len));
        }
        Ok(data)
    }

    /// Skip a field of the given wire type (used for unknown fields).
    pub fn skip(&mut self, wire: WireType) -> (skipped: Result<(), WireError>)
        ensures
            match payload_in(old(self).rest(), wire).result {
                Ok(_) => skipped is Ok,
                Err(error) => skipped == Err::<(), WireError>(error),
            },
            old(self).advanced(final(self), payload_in(old(self).rest(), wire).used),
    {
        match wire {
            WireType::Varint => {
                self.read_varint()?;
            },
            WireType::I64 => {
                self.read_fixed64()?;
            },
            WireType::I32 => {
                self.read_fixed32()?;
            },
            WireType::Len => {
                self.read_len_delimited()?;
            },
        }
        Ok(())
    }
}

// ---------------------------------------------------------------------------
// Writing
// ---------------------------------------------------------------------------

/// Append a base-128 varint to `buf`.
pub fn write_varint(buf: &mut Vec<u8>, value: u64)
    ensures
        final(buf)@ == old(buf)@ + varint_bytes(value as nat),
{
    let mut left: u64 = value;
    proof {
        assert(buf@ =~= old(buf)@);
    }
    while left >= 0x80
        invariant
            old(buf)@ + varint_bytes(value as nat) == buf@ + varint_bytes(left as nat),
        decreases left,
    {
        let byte: u8 = (left & 0x7f) as u8;
        let ghost before = buf@;
        proof {
            assert((left & 0x7f) as u8 | 0x80 == (left % 0x80 + 0x80) as u8) by (bit_vector);
            assert(left >> 7 == left / 0x80) by (bit_vector);
        }
        buf.push(byte | 0x80);
        proof {
            assert(before + varint_bytes(left as nat) =~= buf@ + varint_bytes(
                (left / 0x80) as nat,
            ));
        }
        left = left >> 7;
    }
    buf.push(left as u8);
    proof {
        assert(buf@ =~= old(buf)@ + varint_bytes(value as nat));
    }
}

/// The number of bytes that [`write_varint`] appends for `value`.
pub fn varint_len(value: u64) -> (len: usize)
    ensures
        len == varint_bytes(value as nat).len(),
        1 <= len <= MAX_VARINT_LEN,
{
    let mut left: u64 = value;
    let mut len: usize = 1;
    proof {
        lemma_varint_bytes_len(value);
    }
    while left >= 0x80
        invariant
            len + varint_bytes(left as nat).len() == varint_bytes(value as nat).len() + 1,
            varint_bytes(value as nat).len() <= MAX_VARINT_LEN,
            len >= 1,
        decreases left,
    {
        proof {
            assert(left >> 7 == left / 0x80) by (bit_vector);
        }
        left = left >> 7;
        proof {
            lemma_varint_bytes_len(left);
        }
        len = len + 1;
    }
    len
}

/// Append a field tag built from a field number and wire type.
pub fn write_tag(buf: &mut Vec<u8>, field: u32, wire: WireType)
    ensures
        final(buf)@ == old(buf)@ + tag_bytes(field, wire),
{
    let low: u64 = wire.to_u64();
    proof {
        assert(((field as u64) << 3) | low == field * 8 + low) by (bit_vector)
            requires
                low < 8,
        ;
    }
    write_varint(buf, ((field as u64) << 3) | low);
}

/// Append a little-endian fixed 32-bit value.
pub fn write_fixed32(buf: &mut Vec<u8>, value: u32)
    ensures
        final(buf)@ == old(buf)@ + le_bytes(value as nat, 4),
{
    let mut left: u32 = value;
    let mut i: usize = 0;
    while i < 4
        invariant
            i <= 4,
            old(buf)@ + le_bytes(value as nat, 4) =~= buf@ + le_bytes(left as nat, (4 - i) as nat),
        decreases 4 - i,
    {
        buf.push((left % 0x100) as u8);
        left = left / 0x100;
        i = i + 1;
    }
}

/// Append a little-endian fixed 64-bit value.
pub fn write_fixed64(buf: &mut Vec<u8>, value: u64)
    ensures
        final(buf)@ == old(buf)@ + le_bytes(value as nat, 8),
{
    let mut left: u64 = value;
    let mut i: usize = 0;
    while i < 8
        invariant
            i <= 8,
            old(buf)@ + le_bytes(value as nat, 8) =~= buf@ + le_bytes(left as nat, (8 - i) as nat),
        decreases 8 - i,
    {
        buf.push((left % 0x100) as u8);
        left = left / 0x100;
        i = i + 1;
    }
}

/// Append `data` as it stands.
pub fn write_bytes(buf: &mut Vec<u8>, data: &[u8])
    ensures
        final(buf)@ == old(buf)@ + data@,
{
    buf.extend_from_slice(data);
    proof {
        assert(buf@ =~= old(buf)@ + data@);
    }
}

/// Append a length-delimited chunk (length varint followed by bytes).
pub fn write_len_delimited(buf: &mut Vec<u8>, data: &[u8])
    ensures
        final(buf)@ == old(buf)@ + chunk_bytes(data@),
{
    write_varint(buf, data.len() as u64);
    write_bytes(buf, data);
    proof {
        assert(buf@ =~= old(buf)@ + chunk_bytes(data@));
    }
}

/// Reserve the length of a chunk whose bytes are still to be appended, and
/// return its position: one byte, which [`finish_len_prefix`] turns into the
/// length varint.
pub fn begin_len_prefix(buf: &mut Vec<u8>) -> (pos: usize)
    ensures
        pos == old(buf)@.len(),
        final(buf)@ == old(buf)@.push(0),
{
    let pos: usize = buf.len();
    buf.push(0);
    pos
}

/// Replace the byte reserved at `pos` by the length of what follows it. The
/// buffer then reads as if [`write_len_delimited`] had written the chunk.
pub fn finish_len_prefix(buf: &mut Vec<u8>, pos: usize)
    requires
        pos < old(buf)@.len(),
    ensures
        final(buf)@ == old(buf)@.take(pos as int) + chunk_bytes(old(buf)@.skip(pos + 1)),
{
    let ghost before = buf@.take(pos as int);
    let ghost data = buf@.skip(pos + 1);
    let end: usize = buf.len();
    let start: usize = pos + 1;
    let len: usize = end - start;
    if len < 0x80 {
        buf.set(pos, len as u8);
        proof {
            assert(buf@ =~= before + chunk_bytes(data));
        }
        return;
    }
    // The varint needs more than the reserved byte: move the chunk up.
    let extra: usize = varint_len(len as u64) - 1;
    let mut grown: usize = 0;
    while grown < extra
        invariant
            grown <= extra,
            buf@.len() == end + grown,
            start == pos + 1,
            len == end - start,
            data.len() == len,
            before.len() == pos,
            forall|j: int| 0 <= j < pos ==> buf@[j] == before[j],
            forall|j: int| 0 <= j < len ==> buf@[start + j] == data[j],
        decreases extra - grown,
    {
        buf.push(0);
        grown = grown + 1;
    }
    let total: usize = buf.len();
    let mut left_to_move: usize = len;
    while left_to_move > 0
        invariant
            left_to_move <= len,
            total == end + extra,
            buf@.len() == total,
            start == pos + 1,
            len == end - start,
            data.len() == len,
            before.len() == pos,
            forall|j: int| 0 <= j < pos ==> buf@[j] == before[j],
            forall|j: int| 0 <= j < left_to_move ==> buf@[start + j] == data[j],
            forall|j: int| left_to_move <= j < len ==> #[trigger] buf@[start + extra + j] == data[j],
        decreases left_to_move,
    {
        left_to_move = left_to_move - 1;
        let byte: u8 = buf[start + left_to_move];
        buf.set(start + extra + left_to_move, byte);
    }
    let mut left: u64 = len as u64;
    let mut at: usize = pos;
    let ghost moved = buf@;
    proof {
        assert(moved.skip(start + extra) =~= data) by {
            assert forall|j: int| 0 <= j < len implies moved.skip(start + extra)[j] == data[j] by {
                assert(moved[start + extra + j] == data[j]);
            }
        }
        assert(buf@.take(pos as int) =~= before);
    }
    while left >= 0x80
        invariant
            pos <= at,
            buf@.len() == total,
            start + extra <= total,
            at + varint_bytes(left as nat).len() == start + extra,
            before + varint_bytes(len as nat) == buf@.take(at as int) + varint_bytes(left as nat),
            buf@.skip(start + extra) == data,
        decreases left,
    {
        let ghost earlier = buf@.take(at as int);
        let ghost bytes = varint_bytes(left as nat);
        let byte: u8 = (left % 0x80 + 0x80) as u8;
        buf.set(at, byte);
        proof {
            assert(buf@.skip(start + extra) =~= data);
            assert(buf@.take(at + 1) =~= earlier.push(byte));
            assert(earlier.push(byte) + varint_bytes((left / 0x80) as nat) =~= earlier + bytes);
        }
        at = at + 1;
        left = left / 0x80;
    }
    let ghost earlier = buf@.take(at as int);
    buf.set(at, left as u8);
    proof {
        assert(buf@.take(at + 1) =~= earlier + varint_bytes(left as nat));
        assert(buf@.skip(start + extra) =~= data);
        assert(buf@ =~= buf@.take(at + 1) + buf@.skip(at + 1));
        assert(buf@ =~= before + chunk_bytes(data));
    }
}

/// The low 32 bits of `value`.
pub fn low_u32(value: u64) -> (low: u32)
    ensures
        low == low32(value),
{
    (value % 0x1_0000_0000) as u32
}

/// `bits` read as a signed 32-bit number.
pub fn bits_to_i32(bits: u32) -> (value: i32)
    ensures
        value == signed32(bits as int),
{
    proof {
        assert(bits < 0x8000_0000 ==> bits as i32 == bits) by (bit_vector);
        assert(bits >= 0x8000_0000 ==> bits as i32 == bits - 0x1_0000_0000) by (bit_vector);
    }
    bits as i32
}

/// `bits` read as a signed 64-bit number.
pub fn bits_to_i64(bits: u64) -> (value: i64)
    ensures
        value == signed64(bits as int),
{
    proof {
        assert(bits < 0x8000_0000_0000_0000 ==> bits as i64 == bits) by (bit_vector);
        assert(bits >= 0x8000_0000_0000_0000 ==> bits as i64 == bits - 0x1_0000_0000_0000_0000)
            by (bit_vector);
    }
    bits as i64
}

/// The two's complement bits of `value`.
pub fn i64_to_bits(value: i64) -> (bits: u64)
    ensures
        bits == extended(value as int),
{
    proof {
        assert(value < 0 ==> value as u64 == value + 0x1_0000_0000_0000_0000) by (bit_vector);
    }
    value as u64
}

/// The two's complement bits of `value`.
pub fn i32_to_bits(value: i32) -> (bits: u32)
    ensures
        bits == low32(extended(value as int)),
{
    proof {
        assert(value < 0 ==> value as u32 == value + 0x1_0000_0000) by (bit_vector);
    }
    value as u32
}

/// Zig-zag encode a signed 32-bit integer (for `sint32`).
pub fn zigzag_encode32(value: i32) -> (number: u32)
    ensures
        number == zigzag(value as int),
{
    proof {
        assert(((value << 1) ^ (value >> 31)) as u32 == (if value >= 0 {
            2 * value
        } else {
            -2 * value - 1
        })) by (bit_vector);
    }
    ((value << 1) ^ (value >> 31)) as u32
}

/// Zig-zag decode to a signed 32-bit integer.
pub fn zigzag_decode32(value: u32) -> (integer: i32)
    ensures
        integer == unzigzag(value as int),
{
    if value % 2 == 0 {
        (value / 2) as i32
    } else {
        -((value / 2) as i32) - 1
    }
}

/// Zig-zag encode a signed 64-bit integer (for `sint64`).
pub fn zigzag_encode64(value: i64) -> (number: u64)
    ensures
        number == zigzag(value as int),
{
    proof {
        assert(((value << 1) ^ (value >> 63)) as u64 == (if value >= 0 {
            2 * value
        } else {
            -2 * value - 1
        })) by (bit_vector);
    }
    ((value << 1) ^ (value >> 63)) as u64
}

/// Zig-zag decode to a signed 64-bit integer.
pub fn zigzag_decode64(value: u64) -> (integer: i64)
    ensures
        integer == unzigzag(value as int),
{
    if value % 2 == 0 {
        (value / 2) as i64
    } else {
        -((value / 2) as i64) - 1
    }
}

/// A varint of a 64-bit number takes at most ten bytes.
pub proof fn lemma_varint_bytes_len(value: u64)
    ensures
        1 <= varint_bytes(value as nat).len() <= MAX_VARINT_LEN,
{
    reveal_with_fuel(varint_bytes, 10);
}

/// The weight of the given 7-bit group of a varint.
spec fn place(group: nat) -> nat
    decreases group,
{
    if group == 0 {
        1
    } else {
        0x80 * place((group - 1) as nat)
    }
}

/// The weight of the given byte of a little-endian number.
spec fn byte_place(i: nat) -> nat
    decreases i,
{
    if i == 0 {
        1
    } else {
        0x100 * byte_place((i - 1) as nat)
    }
}

proof fn lemma_le_value_push(s: Seq<u8>, byte: u8)
    ensures
        le_value(s.push(byte)) == le_value(s) + byte * byte_place(s.len()),
    decreases s.len(),
{
    if s.len() == 0 {
        assert(s.push(byte).skip(1) =~= Seq::<u8>::empty());
        assert(le_value(s.push(byte).skip(1)) == 0);
        assert(byte * byte_place(s.len()) == byte) by (nonlinear_arith)
            requires
                byte_place(s.len()) == 1,
        ;
    } else {
        assert(s.push(byte).skip(1) =~= s.skip(1).push(byte));
        lemma_le_value_push(s.skip(1), byte);
        let p = byte_place((s.len() - 1) as nat);
        assert(s.skip(1).len() == s.len() - 1);
        assert(byte * byte_place(s.len()) == 0x100 * (byte * p)) by (nonlinear_arith)
            requires
                byte_place(s.len()) == 0x100 * p,
        ;
    }
}

/// Setting the bits of one group in an accumulator that holds only lower ones
/// adds them with the group's weight; the last group overflows.
proof fn lemma_group(low: u64, bits: u64, shift: u32, group: nat)
    requires
        group < MAX_VARINT_LEN,
        shift == 7 * group,
        low < place(group),
        bits < 0x80,
    ensures
        (low | (bits << shift)) == (low + place(group) * bits) % 0x1_0000_0000_0000_0000,
        group < MAX_VARINT_LEN - 1 ==> {
            &&& (low | (bits << shift)) == low + place(group) * bits
            &&& (low | (bits << shift)) < place(group + 1)
        },
        place(group + 1) == 0x80 * place(group),
{
    reveal_with_fuel(place, 11);
    assert({
        &&& shift == 0 && low < 1 ==> (low | (bits << shift)) == low + 1 * bits
        &&& shift == 7 && low < 0x80 ==> (low | (bits << shift)) == low + 0x80 * bits
        &&& shift == 14 && low < 0x4000 ==> (low | (bits << shift)) == low + 0x4000 * bits
        &&& shift == 21 && low < 0x20_0000 ==> (low | (bits << shift)) == low + 0x20_0000 * bits
        &&& shift == 28 && low < 0x1000_0000 ==> (low | (bits << shift)) == low + 0x1000_0000 * bits
        &&& shift == 35 && low < 0x8_0000_0000 ==> (low | (bits << shift)) == low + 0x8_0000_0000
            * bits
        &&& shift == 42 && low < 0x400_0000_0000 ==> (low | (bits << shift)) == low
            + 0x400_0000_0000 * bits
        &&& shift == 49 && low < 0x2_0000_0000_0000 ==> (low | (bits << shift)) == low
            + 0x2_0000_0000_0000 * bits
        &&& shift == 56 && low < 0x100_0000_0000_0000 ==> (low | (bits << shift)) == low
            + 0x100_0000_0000_0000 * bits
        &&& shift == 63 && low < 0x8000_0000_0000_0000 ==> (low | (bits << shift)) == (low
            + 0x8000_0000_0000_0000 * bits) % 0x1_0000_0000_0000_0000
    }) by (bit_vector)
        requires
            bits < 0x80,
    ;
    assert(group == 0 || group == 1 || group == 2 || group == 3 || group == 4 || group == 5 || group
        == 6 || group == 7 || group == 8 || group == 9);
}

} // verus!
