//! The fields of the wire format: how numbers, flags, options and byte strings are written and read
//! back, and the frame that every message stands in.
//!
//! Reading is strict: each value has one form, and anything else is refused.

use vstd::prelude::*;
use vstd::string::*;

use crate::bytes::{
    be_bytes, be_value, byte_capacity, copy_range, get_be, get_be_u16, get_be_u32,
    lemma_be_bytes_len, lemma_be_round_trip, lemma_be_value_round_trip, lemma_byte_capacities,
    lemma_join_assoc, push_all, push_be,
};
use crate::distributed::error::{
    ExchangeFailure, RemotePacketExchangeError, decode_error, decode_failure,
};
use crate::text::{decimal, push_decimal};

verus! {

/// What is left to read after a value, together with the value, or why there is none.
pub type Parsed<T> = Result<(T, Seq<u8>), Seq<char>>;

/// The largest payload of a packet: 16 MiB.
pub const MAX_PACKET_PAYLOAD_BYTES: usize = 16 * 1024 * 1024;

/// What is said where a field is cut short.
pub open spec fn truncated_field(n: nat) -> Seq<char> {
    "truncated field of length "@ + decimal(n)
}

/// One byte.
pub open spec fn take_u8(s: Seq<u8>) -> Parsed<u8> {
    if s.len() < 1 {
        Err(truncated_field(1))
    } else {
        Ok((s[0], s.skip(1)))
    }
}

/// A number in two bytes.
pub open spec fn take_u16(s: Seq<u8>) -> Parsed<u16> {
    if s.len() < 2 {
        Err(truncated_field(2))
    } else {
        Ok((be_value(s.take(2)) as u16, s.skip(2)))
    }
}

/// A number in four bytes.
pub open spec fn take_u32(s: Seq<u8>) -> Parsed<u32> {
    if s.len() < 4 {
        Err(truncated_field(4))
    } else {
        Ok((be_value(s.take(4)) as u32, s.skip(4)))
    }
}

/// A number in eight bytes.
pub open spec fn take_u64(s: Seq<u8>) -> Parsed<u64> {
    if s.len() < 8 {
        Err(truncated_field(8))
    } else {
        Ok((be_value(s.take(8)) as u64, s.skip(8)))
    }
}

/// A truth value: a byte that is 0 or 1.
pub open spec fn take_bool(s: Seq<u8>) -> Parsed<bool> {
    match take_u8(s) {
        Err(reason) => Err(reason),
        Ok((0u8, rest)) => Ok((false, rest)),
        Ok((1u8, rest)) => Ok((true, rest)),
        Ok((value, _)) => Err("invalid boolean value "@ + decimal(value as nat)),
    }
}

/// A truth value, and one byte where it is true.
pub open spec fn take_optional_u8(s: Seq<u8>) -> Parsed<Option<u8>> {
    match take_bool(s) {
        Err(reason) => Err(reason),
        Ok((false, rest)) => Ok((None, rest)),
        Ok((true, rest)) => match take_u8(rest) {
            Err(reason) => Err(reason),
            Ok((value, after)) => Ok((Some(value), after)),
        },
    }
}

/// A truth value, and a number in four bytes where it is true.
pub open spec fn take_optional_u32(s: Seq<u8>) -> Parsed<Option<u32>> {
    match take_bool(s) {
        Err(reason) => Err(reason),
        Ok((false, rest)) => Ok((None, rest)),
        Ok((true, rest)) => match take_u32(rest) {
            Err(reason) => Err(reason),
            Ok((value, after)) => Ok((Some(value), after)),
        },
    }
}

/// A truth value, and a number in eight bytes where it is true.
pub open spec fn take_optional_u64(s: Seq<u8>) -> Parsed<Option<u64>> {
    match take_bool(s) {
        Err(reason) => Err(reason),
        Ok((false, rest)) => Ok((None, rest)),
        Ok((true, rest)) => match take_u64(rest) {
            Err(reason) => Err(reason),
            Ok((value, after)) => Ok((Some(value), after)),
        },
    }
}

/// A length in four bytes, then that many bytes, up to the largest payload.
pub open spec fn take_bytes(s: Seq<u8>) -> Parsed<Seq<u8>> {
    match take_u32(s) {
        Err(reason) => Err(reason),
        Ok((len, rest)) => if len > MAX_PACKET_PAYLOAD_BYTES {
            Err(
                "byte array length "@ + decimal(len as nat) + " exceeds limit "@ + decimal(
                    MAX_PACKET_PAYLOAD_BYTES as nat,
                ),
            )
        } else if rest.len() < len {
            Err("truncated byte array of length "@ + decimal(len as nat))
        } else {
            Ok((rest.take(len as int), rest.skip(len as int)))
        },
    }
}

/// A truth value as a byte.
pub open spec fn bool_bytes(value: bool) -> Seq<u8> {
    if value {
        seq![1u8]
    } else {
        seq![0u8]
    }
}

/// An optional byte.
pub open spec fn optional_u8_bytes(value: Option<u8>) -> Seq<u8> {
    match value {
        Some(v) => bool_bytes(true) + seq![v],
        None => bool_bytes(false),
    }
}

/// An optional number in four bytes.
pub open spec fn optional_u32_bytes(value: Option<u32>) -> Seq<u8> {
    match value {
        Some(v) => bool_bytes(true) + be_bytes(v as nat, 4),
        None => bool_bytes(false),
    }
}

/// An optional number in eight bytes.
pub open spec fn optional_u64_bytes(value: Option<u64>) -> Seq<u8> {
    match value {
        Some(v) => bool_bytes(true) + be_bytes(v as nat, 8),
        None => bool_bytes(false),
    }
}

/// A byte string behind its length.
pub open spec fn counted_bytes(payload: Seq<u8>) -> Seq<u8> {
    be_bytes(payload.len(), 4) + payload
}

/// A number that was written is read back.
pub proof fn lemma_number_round_trip(value: nat, n: nat, rest: Seq<u8>)
    requires
        value < byte_capacity(n),
    ensures
        (be_bytes(value, n) + rest).len() >= n,
        be_value((be_bytes(value, n) + rest).take(n as int)) == value,
        (be_bytes(value, n) + rest).skip(n as int) == rest,
{
    lemma_be_bytes_len(value, n);
    lemma_be_round_trip(value, n);
    assert((be_bytes(value, n) + rest).take(n as int) =~= be_bytes(value, n));
    assert((be_bytes(value, n) + rest).skip(n as int) =~= rest);
}

/// What a number was read from is the number's bytes.
pub proof fn lemma_number_bytes(s: Seq<u8>, n: nat)
    requires
        n <= s.len(),
    ensures
        be_value(s.take(n as int)) < byte_capacity(n),
        be_bytes(be_value(s.take(n as int)), n) + s.skip(n as int) == s,
{
    lemma_be_value_round_trip(s.take(n as int));
    assert(s.take(n as int) + s.skip(n as int) =~= s);
}

/// A byte is read back, and was read from nothing else.
pub proof fn lemma_u8_bijection(value: u8, rest: Seq<u8>, s: Seq<u8>)
    ensures
        take_u8(seq![value] + rest) == Ok::<(u8, Seq<u8>), Seq<char>>((value, rest)),
        take_u8(s) == Ok::<(u8, Seq<u8>), Seq<char>>((value, rest)) ==> s == seq![value] + rest,
{
    assert((seq![value] + rest).skip(1) =~= rest);
    if take_u8(s) == Ok::<(u8, Seq<u8>), Seq<char>>((value, rest)) {
        assert(s =~= seq![value] + rest);
    }
}

/// A number in two bytes is read back, and was read from nothing else.
pub proof fn lemma_u16_bijection(value: u16, rest: Seq<u8>, s: Seq<u8>)
    ensures
        take_u16(be_bytes(value as nat, 2) + rest) == Ok::<(u16, Seq<u8>), Seq<char>>(
            (value, rest),
        ),
        take_u16(s) == Ok::<(u16, Seq<u8>), Seq<char>>((value, rest)) ==> s == be_bytes(
            value as nat,
            2,
        ) + rest,
{
    lemma_byte_capacities();
    lemma_number_round_trip(value as nat, 2, rest);
    if s.len() >= 2 {
        lemma_number_bytes(s, 2);
    }
}

/// A number in four bytes is read back, and was read from nothing else.
pub proof fn lemma_u32_bijection(value: u32, rest: Seq<u8>, s: Seq<u8>)
    ensures
        take_u32(be_bytes(value as nat, 4) + rest) == Ok::<(u32, Seq<u8>), Seq<char>>(
            (value, rest),
        ),
        take_u32(s) == Ok::<(u32, Seq<u8>), Seq<char>>((value, rest)) ==> s == be_bytes(
            value as nat,
            4,
        ) + rest,
{
    lemma_byte_capacities();
    lemma_number_round_trip(value as nat, 4, rest);
    if s.len() >= 4 {
        lemma_number_bytes(s, 4);
    }
}

/// A number in eight bytes is read back, and was read from nothing else.
pub proof fn lemma_u64_bijection(value: u64, rest: Seq<u8>, s: Seq<u8>)
    ensures
        take_u64(be_bytes(value as nat, 8) + rest) == Ok::<(u64, Seq<u8>), Seq<char>>(
            (value, rest),
        ),
        take_u64(s) == Ok::<(u64, Seq<u8>), Seq<char>>((value, rest)) ==> s == be_bytes(
            value as nat,
            8,
        ) + rest,
{
    lemma_byte_capacities();
    lemma_number_round_trip(value as nat, 8, rest);
    if s.len() >= 8 {
        lemma_number_bytes(s, 8);
    }
}

/// A truth value is read back, and was read from nothing else.
pub proof fn lemma_bool_bijection(value: bool, rest: Seq<u8>, s: Seq<u8>)
    ensures
        take_bool(bool_bytes(value) + rest) == Ok::<(bool, Seq<u8>), Seq<char>>((value, rest)),
        take_bool(s) == Ok::<(bool, Seq<u8>), Seq<char>>((value, rest)) ==> s == bool_bytes(value)
            + rest,
{
    let byte: u8 = if value {
        1
    } else {
        0
    };
    lemma_u8_bijection(byte, rest, s);
    assert(bool_bytes(value) =~= seq![byte]);
}

/// An optional byte is read back, and was read from nothing else.
pub proof fn lemma_optional_u8_bijection(value: Option<u8>, rest: Seq<u8>, s: Seq<u8>)
    ensures
        take_optional_u8(optional_u8_bytes(value) + rest) == Ok::<
            (Option<u8>, Seq<u8>),
            Seq<char>,
        >((value, rest)),
        take_optional_u8(s) == Ok::<(Option<u8>, Seq<u8>), Seq<char>>((value, rest)) ==> s
            == optional_u8_bytes(value) + rest,
{
    match value {
        Some(v) => {
            let tail = seq![v] + rest;
            lemma_bool_bijection(true, tail, s);
            lemma_join_assoc(bool_bytes(true), seq![v], rest);
            if take_bool(s) is Ok {
                lemma_u8_bijection(v, rest, take_bool(s)->Ok_0.1);
            }
            lemma_u8_bijection(v, rest, tail);
        },
        None => {
            lemma_bool_bijection(false, rest, s);
        },
    }
}

/// An optional number in four bytes is read back, and was read from nothing else.
pub proof fn lemma_optional_u32_bijection(value: Option<u32>, rest: Seq<u8>, s: Seq<u8>)
    ensures
        take_optional_u32(optional_u32_bytes(value) + rest) == Ok::<
            (Option<u32>, Seq<u8>),
            Seq<char>,
        >((value, rest)),
        take_optional_u32(s) == Ok::<(Option<u32>, Seq<u8>), Seq<char>>((value, rest)) ==> s
            == optional_u32_bytes(value) + rest,
{
    match value {
        Some(v) => {
            let tail = be_bytes(v as nat, 4) + rest;
            lemma_bool_bijection(true, tail, s);
            lemma_join_assoc(bool_bytes(true), be_bytes(v as nat, 4), rest);
            if take_bool(s) is Ok {
                lemma_u32_bijection(v, rest, take_bool(s)->Ok_0.1);
            }
            lemma_u32_bijection(v, rest, tail);
        },
        None => {
            lemma_bool_bijection(false, rest, s);
        },
    }
}

/// An optional number in eight bytes is read back, and was read from nothing else.
pub proof fn lemma_optional_u64_bijection(value: Option<u64>, rest: Seq<u8>, s: Seq<u8>)
    ensures
        take_optional_u64(optional_u64_bytes(value) + rest) == Ok::<
            (Option<u64>, Seq<u8>),
            Seq<char>,
        >((value, rest)),
        take_optional_u64(s) == Ok::<(Option<u64>, Seq<u8>), Seq<char>>((value, rest)) ==> s
            == optional_u64_bytes(value) + rest,
{
    match value {
        Some(v) => {
            let tail = be_bytes(v as nat, 8) + rest;
            lemma_bool_bijection(true, tail, s);
            lemma_join_assoc(bool_bytes(true), be_bytes(v as nat, 8), rest);
            if take_bool(s) is Ok {
                lemma_u64_bijection(v, rest, take_bool(s)->Ok_0.1);
            }
            lemma_u64_bijection(v, rest, tail);
        },
        None => {
            lemma_bool_bijection(false, rest, s);
        },
    }
}

/// A byte string up to the largest payload is read back, and was read from nothing else.
pub proof fn lemma_bytes_bijection(payload: Seq<u8>, rest: Seq<u8>, s: Seq<u8>)
    ensures
        payload.len() <= MAX_PACKET_PAYLOAD_BYTES ==> take_bytes(counted_bytes(payload) + rest)
            == Ok::<(Seq<u8>, Seq<u8>), Seq<char>>((payload, rest)),
        take_bytes(s) == Ok::<(Seq<u8>, Seq<u8>), Seq<char>>((payload, rest)) ==> s
            == counted_bytes(payload) + rest && payload.len() <= MAX_PACKET_PAYLOAD_BYTES,
{
    let tail = payload + rest;
    lemma_join_assoc(be_bytes(payload.len(), 4), payload, rest);
    if payload.len() <= MAX_PACKET_PAYLOAD_BYTES {
        lemma_u32_bijection(payload.len() as u32, tail, s);
        assert(tail.take(payload.len() as int) =~= payload);
        assert(tail.skip(payload.len() as int) =~= rest);
    }
    if take_bytes(s) == Ok::<(Seq<u8>, Seq<u8>), Seq<char>>((payload, rest)) {
        let (len, behind) = take_u32(s)->Ok_0;
        lemma_u32_bijection(len, behind, s);
        assert(behind =~= payload + rest);
        assert(len as nat == payload.len());
    }
}

/// Whether a read gave what stands at the front of the bytes, or failed as it should.
pub open spec fn reads<T>(
    result: Result<T, RemotePacketExchangeError>,
    after: Seq<u8>,
    parsed: Parsed<T>,
    context: Seq<char>,
) -> bool {
    match (result, parsed) {
        (Ok(value), Ok((expected, rest))) => value == expected && after == rest,
        (Err(e), Err(reason)) => e@ == decode_failure(context, reason),
        _ => false,
    }
}

/// Bytes that are read from front to back.
pub struct Reader<'a> {
    data: &'a [u8],
    pos: usize,
}

impl<'a> View for Reader<'a> {
    type V = Seq<u8>;

    /// What is left to read.
    closed spec fn view(&self) -> Seq<u8> {
        self.data@.skip(self.pos as int)
    }
}

fn truncated_error(context: &str, n: u64) -> (error: RemotePacketExchangeError)
    ensures
        error@ == decode_failure(context@, truncated_field(n as nat)),
{
    let mut reason = String::new();
    reason.append("truncated field of length ");
    push_decimal(&mut reason, n);
    assert(reason@ =~= truncated_field(n as nat));
    decode_error(context, reason.as_str())
}

impl<'a> Reader<'a> {
    /// The position lies within the bytes.
    pub closed spec fn wf(&self) -> bool {
        self.pos <= self.data.len()
    }

    /// A reader at the front of the bytes.
    pub fn new(data: &'a [u8]) -> (reader: Self)
        ensures
            reader.wf(),
            reader@ == data@,
    {
        let reader = Reader { data, pos: 0 };
        assert(reader@ =~= data@);
        reader
    }

    /// How many bytes are left to read.
    pub fn remaining(&self) -> (len: usize)
        requires
            self.wf(),
        ensures
            len == self@.len(),
    {
        self.data.len() - self.pos
    }

    /// Reads one byte.
    pub fn read_u8(&mut self, context: &str) -> (value: Result<u8, RemotePacketExchangeError>)
        requires
            old(self).wf(),
        ensures
            final(self).wf(),
            reads(value, final(self)@, take_u8(old(self)@), context@),
    {
        if self.remaining() < 1 {
            return Err(truncated_error(context, 1));
        }
        let value: u8 = self.data[self.pos];
        self.pos = self.pos + 1;
        assert(self@ =~= old(self)@.skip(1));
        Ok(value)
    }

    /// Reads a number in two bytes.
    pub fn read_u16(&mut self, context: &str) -> (value: Result<u16, RemotePacketExchangeError>)
        requires
            old(self).wf(),
        ensures
            final(self).wf(),
            reads(value, final(self)@, take_u16(old(self)@), context@),
    {
        if self.remaining() < 2 {
            return Err(truncated_error(context, 2));
        }
        let value: u16 = get_be_u16(self.data, self.pos);
        assert(self.data@.subrange(self.pos as int, self.pos + 2) =~= old(self)@.take(2));
        self.pos = self.pos + 2;
        assert(self@ =~= old(self)@.skip(2));
        Ok(value)
    }

    /// Reads a number in four bytes.
    pub fn read_u32(&mut self, context: &str) -> (value: Result<u32, RemotePacketExchangeError>)
        requires
            old(self).wf(),
        ensures
            final(self).wf(),
            reads(value, final(self)@, take_u32(old(self)@), context@),
    {
        if self.remaining() < 4 {
            return Err(truncated_error(context, 4));
        }
        let value: u32 = get_be_u32(self.data, self.pos);
        assert(self.data@.subrange(self.pos as int, self.pos + 4) =~= old(self)@.take(4));
        self.pos = self.pos + 4;
        assert(self@ =~= old(self)@.skip(4));
        Ok(value)
    }

    /// Reads a number in eight bytes.
    pub fn read_u64(&mut self, context: &str) -> (value: Result<u64, RemotePacketExchangeError>)
        requires
            old(self).wf(),
        ensures
            final(self).wf(),
            reads(value, final(self)@, take_u64(old(self)@), context@),
    {
        if self.remaining() < 8 {
            return Err(truncated_error(context, 8));
        }
        let value: u64 = get_be(self.data, self.pos, 8);
        assert(self.data@.subrange(self.pos as int, self.pos + 8) =~= old(self)@.take(8));
        self.pos = self.pos + 8;
        assert(self@ =~= old(self)@.skip(8));
        Ok(value)
    }

    /// Reads a truth value.
    pub fn read_bool(&mut self, context: &str) -> (value: Result<bool, RemotePacketExchangeError>)
        requires
            old(self).wf(),
        ensures
            final(self).wf(),
            reads(value, final(self)@, take_bool(old(self)@), context@),
    {
        match self.read_u8(context)? {
            0 => Ok(false),
            1 => Ok(true),
            value => {
                let mut reason = String::new();
                reason.append("invalid boolean value ");
                push_decimal(&mut reason, value as u64);
                assert(reason@ =~= "invalid boolean value "@ + decimal(value as nat));
                Err(decode_error(context, reason.as_str()))
            },
        }
    }

    /// Reads an optional byte.
    pub fn read_optional_u8(&mut self, context: &str) -> (value: Result<
        Option<u8>,
        RemotePacketExchangeError,
    >)
        requires
            old(self).wf(),
        ensures
            final(self).wf(),
            reads(value, final(self)@, take_optional_u8(old(self)@), context@),
    {
        if self.read_bool(context)? {
            let value: u8 = self.read_u8(context)?;
            Ok(Some(value))
        } else {
            Ok(None)
        }
    }

    /// Reads an optional number in four bytes.
    pub fn read_optional_u32(&mut self, context: &str) -> (value: Result<
        Option<u32>,
        RemotePacketExchangeError,
    >)
        requires
            old(self).wf(),
        ensures
            final(self).wf(),
            reads(value, final(self)@, take_optional_u32(old(self)@), context@),
    {
        if self.read_bool(context)? {
            let value: u32 = self.read_u32(context)?;
            Ok(Some(value))
        } else {
            Ok(None)
        }
    }

    /// Reads an optional number in eight bytes.
    pub fn read_optional_u64(&mut self, context: &str) -> (value: Result<
        Option<u64>,
        RemotePacketExchangeError,
    >)
        requires
            old(self).wf(),
        ensures
            final(self).wf(),
            reads(value, final(self)@, take_optional_u64(old(self)@), context@),
    {
        if self.read_bool(context)? {
            let value: u64 = self.read_u64(context)?;
            Ok(Some(value))
        } else {
            Ok(None)
        }
    }

    /// Reads a length.
    pub fn read_len(&mut self, context: &str) -> (value: Result<usize, RemotePacketExchangeError>)
        requires
            old(self).wf(),
        ensures
            final(self).wf(),
            match (value, take_u32(old(self)@)) {
                (Ok(len), Ok((expected, rest))) => len == expected && final(self)@ == rest,
                (Err(e), Err(reason)) => e@ == decode_failure(context@, reason),
                _ => false,
            },
    {
        Ok(self.read_u32(context)? as usize)
    }

    /// Reads a byte string behind its length.
    pub fn read_bytes(&mut self, context: &str) -> (value: Result<
        Vec<u8>,
        RemotePacketExchangeError,
    >)
        requires
            old(self).wf(),
        ensures
            final(self).wf(),
            match (value, take_bytes(old(self)@)) {
                (Ok(payload), Ok((expected, rest))) => payload@ == expected && final(self)@ == rest,
                (Err(e), Err(reason)) => e@ == decode_failure(context@, reason),
                _ => false,
            },
    {
        let len: usize = self.read_len(context)?;
        let ghost behind = self@;
        if len > MAX_PACKET_PAYLOAD_BYTES {
            let mut reason = String::new();
            reason.append("byte array length ");
            push_decimal(&mut reason, len as u64);
            reason.append(" exceeds limit ");
            push_decimal(&mut reason, MAX_PACKET_PAYLOAD_BYTES as u64);
            assert(reason@ =~= "byte array length "@ + decimal(len as nat) + " exceeds limit "@
                + decimal(MAX_PACKET_PAYLOAD_BYTES as nat));
            return Err(decode_error(context, reason.as_str()));
        }
        if self.remaining() < len {
            let mut reason = String::new();
            reason.append("truncated byte array of length ");
            push_decimal(&mut reason, len as u64);
            assert(reason@ =~= "truncated byte array of length "@ + decimal(len as nat));
            return Err(decode_error(context, reason.as_str()));
        }
        let payload = copy_range(self.data, self.pos, self.pos + len);
        self.pos = self.pos + len;
        proof {
            assert(payload@ =~= behind.take(len as int));
            assert(self@ =~= behind.skip(len as int));
        }
        Ok(payload)
    }

    /// Refuses bytes that are left over.
    pub fn reject_trailing_bytes(&self, context: &str) -> (checked: Result<
        (),
        RemotePacketExchangeError,
    >)
        requires
            self.wf(),
        ensures
            match checked {
                Ok(()) => self@.len() == 0,
                Err(e) => self@.len() != 0 && e@ == decode_failure(
                    context@,
                    trailing_bytes(self@.len()),
                ),
            },
    {
        let remaining: usize = self.remaining();
        if remaining == 0 {
            return Ok(());
        }
        let mut reason = String::new();
        push_decimal(&mut reason, remaining as u64);
        reason.append(" trailing bytes after message");
        assert(reason@ =~= trailing_bytes(remaining as nat));
        Err(decode_error(context, reason.as_str()))
    }
}

/// What is said where bytes are left over.
pub open spec fn trailing_bytes(n: nat) -> Seq<char> {
    decimal(n) + " trailing bytes after message"@
}

/// Writes one byte.
pub fn write_u8(out: &mut Vec<u8>, value: u8)
    ensures
        final(out)@ == old(out)@ + seq![value],
{
    out.push(value);
    assert(out@ =~= old(out)@ + seq![value]);
}

/// Writes a truth value.
pub fn write_bool(out: &mut Vec<u8>, value: bool)
    ensures
        final(out)@ == old(out)@ + bool_bytes(value),
{
    if value {
        write_u8(out, 1);
    } else {
        write_u8(out, 0);
    }
}

/// Writes a number in two bytes.
pub fn write_u16(out: &mut Vec<u8>, value: u16)
    ensures
        final(out)@ == old(out)@ + be_bytes(value as nat, 2),
{
    push_be(out, value as u64, 2);
}

/// Writes a number in four bytes.
pub fn write_u32(out: &mut Vec<u8>, value: u32)
    ensures
        final(out)@ == old(out)@ + be_bytes(value as nat, 4),
{
    push_be(out, value as u64, 4);
}

/// Writes a number in eight bytes.
pub fn write_u64(out: &mut Vec<u8>, value: u64)
    ensures
        final(out)@ == old(out)@ + be_bytes(value as nat, 8),
{
    push_be(out, value as u64, 8);
}

/// Writes an optional byte.
pub fn write_optional_u8(out: &mut Vec<u8>, value: Option<u8>)
    ensures
        final(out)@ == old(out)@ + optional_u8_bytes(value),
{
    match value {
        Some(v) => {
            write_bool(out, true);
            write_u8(out, v);
            assert(out@ =~= old(out)@ + optional_u8_bytes(value));
        },
        None => {
            write_bool(out, false);
        },
    }
}

/// Writes an optional number in four bytes.
pub fn write_optional_u32(out: &mut Vec<u8>, value: Option<u32>)
    ensures
        final(out)@ == old(out)@ + optional_u32_bytes(value),
{
    match value {
        Some(v) => {
            write_bool(out, true);
            write_u32(out, v);
            assert(out@ =~= old(out)@ + optional_u32_bytes(value));
        },
        None => {
            write_bool(out, false);
        },
    }
}

/// Writes an optional number in eight bytes.
pub fn write_optional_u64(out: &mut Vec<u8>, value: Option<u64>)
    ensures
        final(out)@ == old(out)@ + optional_u64_bytes(value),
{
    match value {
        Some(v) => {
            write_bool(out, true);
            write_u64(out, v);
            assert(out@ =~= old(out)@ + optional_u64_bytes(value));
        },
        None => {
            write_bool(out, false);
        },
    }
}

/// Writes a length, if four bytes can hold it.
pub fn write_len(out: &mut Vec<u8>, len: usize) -> (written: Result<(), RemotePacketExchangeError>)
    ensures
        match written {
            Ok(()) => len <= u32::MAX && final(out)@ == old(out)@ + be_bytes(len as nat, 4),
            Err(e) => len > u32::MAX && final(out)@ == old(out)@ && e@ == ExchangeFailure::Backend(
                "binary wire length "@ + decimal(len as nat) + " exceeds u32::MAX"@,
            ),
        },
{
    if len > u32::MAX as usize {
        let mut text = String::new();
        text.append("binary wire length ");
        push_decimal(&mut text, len as u64);
        text.append(" exceeds u32::MAX");
        assert(text@ =~= "binary wire length "@ + decimal(len as nat) + " exceeds u32::MAX"@);
        return Err(RemotePacketExchangeError::Backend(text));
    }
    write_u32(out, len as u32);
    Ok(())
}

/// What is said to a payload that is too large to be written.
pub open spec fn payload_too_large(len: nat) -> Seq<char> {
    "packet payload is too large: "@ + decimal(len) + " bytes exceeds "@ + decimal(
        MAX_PACKET_PAYLOAD_BYTES as nat,
    )
}

/// Writes a byte string behind its length, up to the largest payload.
pub fn write_bytes(out: &mut Vec<u8>, bytes: &[u8]) -> (written: Result<
    (),
    RemotePacketExchangeError,
>)
    ensures
        match written {
            Ok(()) => bytes@.len() <= MAX_PACKET_PAYLOAD_BYTES && final(out)@ == old(out)@
                + counted_bytes(bytes@),
            Err(e) => bytes@.len() > MAX_PACKET_PAYLOAD_BYTES && final(out)@ == old(out)@ && e@
                == ExchangeFailure::Backend(payload_too_large(bytes@.len())),
        },
{
    if bytes.len() > MAX_PACKET_PAYLOAD_BYTES {
        let mut text = String::new();
        text.append("packet payload is too large: ");
        push_decimal(&mut text, bytes.len() as u64);
        text.append(" bytes exceeds ");
        push_decimal(&mut text, MAX_PACKET_PAYLOAD_BYTES as u64);
        assert(text@ =~= payload_too_large(bytes@.len()));
        return Err(RemotePacketExchangeError::Backend(text));
    }
    write_len(out, bytes.len())?;
    push_all(out, bytes);
    assert(out@ =~= old(out)@ + counted_bytes(bytes@));
    Ok(())
}

/// The first bytes of every message.
pub open spec fn wire_magic() -> Seq<u8> {
    seq![0x53u8, 0x48u8, 0x44u8, 0x57u8]
}

/// The version of the wire format.
pub const WIRE_VERSION: u8 = 1;

pub const WIRE_KIND_CONTROL_REQUEST: u8 = 1;

pub const WIRE_KIND_CONTROL_RESPONSE: u8 = 2;

pub const WIRE_KIND_PACKET_BATCH: u8 = 3;

/// A message: magic, version, what the message is, and its body.
pub open spec fn message_bytes(kind: u8, body: Seq<u8>) -> Seq<u8> {
    wire_magic() + seq![WIRE_VERSION, kind] + body
}

/// The body of a message, or why the bytes are no message that is expected here.
pub open spec fn message_body(payload: Seq<u8>, expected_kind: u8) -> Result<Seq<u8>, Seq<char>> {
    if payload.len() < 4 {
        Err(truncated_field(4))
    } else if payload.take(4) != wire_magic() {
        Err("invalid wire magic"@)
    } else if payload.len() < 5 {
        Err(truncated_field(1))
    } else if payload[4] != WIRE_VERSION {
        Err("unsupported wire version "@ + decimal(payload[4] as nat))
    } else if payload.len() < 6 {
        Err(truncated_field(1))
    } else if payload[5] != expected_kind {
        Err(
            "unexpected message kind "@ + decimal(payload[5] as nat) + ", expected "@ + decimal(
                expected_kind as nat,
            ),
        )
    } else {
        Ok(payload.skip(6))
    }
}

/// A body as a message.
pub fn encode_wire_message(kind: u8, body: &[u8]) -> (out: Vec<u8>)
    ensures
        out@ == message_bytes(kind, body@),
{
    let mut out: Vec<u8> = Vec::new();
    out.push(0x53);
    out.push(0x48);
    out.push(0x44);
    out.push(0x57);
    out.push(WIRE_VERSION);
    out.push(kind);
    push_all(&mut out, body);
    assert(out@ =~= message_bytes(kind, body@));
    out
}

/// The body of a message.
pub fn decode_wire_message(payload: &[u8], expected_kind: u8, context: &str) -> (body: Result<
    Vec<u8>,
    RemotePacketExchangeError,
>)
    ensures
        match (body, message_body(payload@, expected_kind)) {
            (Ok(b), Ok(expected)) => b@ == expected,
            (Err(e), Err(reason)) => e@ == decode_failure(context@, reason),
            _ => false,
        },
{
    if payload.len() < 4 {
        return Err(truncated_error(context, 4));
    }
    if payload[0] != 0x53 || payload[1] != 0x48 || payload[2] != 0x44 || payload[3] != 0x57 {
        proof {
            let start = payload@.take(4);
            assert(start[0] == payload@[0] && start[1] == payload@[1] && start[2] == payload@[2]
                && start[3] == payload@[3]);
        }
        return Err(decode_error(context, "invalid wire magic"));
    }
    assert(payload@.take(4) =~= wire_magic());
    if payload.len() < 5 {
        return Err(truncated_error(context, 1));
    }
    let version: u8 = payload[4];
    if version != WIRE_VERSION {
        let mut reason = String::new();
        reason.append("unsupported wire version ");
        push_decimal(&mut reason, version as u64);
        assert(reason@ =~= "unsupported wire version "@ + decimal(version as nat));
        return Err(decode_error(context, reason.as_str()));
    }
    if payload.len() < 6 {
        return Err(truncated_error(context, 1));
    }
    let kind: u8 = payload[5];
    if kind != expected_kind {
        let mut reason = String::new();
        reason.append("unexpected message kind ");
        push_decimal(&mut reason, kind as u64);
        reason.append(", expected ");
        push_decimal(&mut reason, expected_kind as u64);
        assert(reason@ =~= "unexpected message kind "@ + decimal(kind as nat) + ", expected "@
            + decimal(expected_kind as nat));
        return Err(decode_error(context, reason.as_str()));
    }
    let body = copy_range(payload, 6, payload.len());
    assert(body@ =~= payload@.skip(6));
    Ok(body)
}

/// The body of a message is read back, and was read from nothing else.
pub proof fn law_message_bijection(kind: u8, body: Seq<u8>, payload: Seq<u8>)
    ensures
        message_body(message_bytes(kind, body), kind) == Ok::<Seq<u8>, Seq<char>>(body),
        message_body(payload, kind) == Ok::<Seq<u8>, Seq<char>>(body) ==> payload == message_bytes(
            kind,
            body,
        ),
{
    let message = message_bytes(kind, body);
    assert(message.take(4) =~= wire_magic());
    assert(message.skip(6) =~= body);
    if message_body(payload, kind) == Ok::<Seq<u8>, Seq<char>>(body) {
        assert(payload =~= payload.take(4) + seq![payload[4], payload[5]] + payload.skip(6));
    }
}

/// A message begins with the letters `SHDW`, the number 1 and the number of its kind, and its
/// body fills the rest. Requests, answers and batches have kinds of their own.
pub proof fn law_message_layout(kind: u8, body: Seq<u8>)
    ensures
        message_bytes(kind, body).len() == 6 + body.len(),
        message_bytes(kind, body)[0] == 0x53,
        message_bytes(kind, body)[1] == 0x48,
        message_bytes(kind, body)[2] == 0x44,
        message_bytes(kind, body)[3] == 0x57,
        message_bytes(kind, body)[4] == 1,
        message_bytes(kind, body)[5] == kind,
        forall|i: int| 0 <= i < body.len() ==> #[trigger] message_bytes(kind, body)[6 + i] == body[i],
        WIRE_KIND_CONTROL_REQUEST == 1,
        WIRE_KIND_CONTROL_RESPONSE == 2,
        WIRE_KIND_PACKET_BATCH == 3,
{
}

/// A message is read exactly where it begins as it should and is of the expected kind.
pub proof fn law_readable_messages(payload: Seq<u8>, kind: u8)
    ensures
        message_body(payload, kind) is Ok <==> {
            &&& payload.len() >= 6
            &&& payload[0] == 0x53
            &&& payload[1] == 0x48
            &&& payload[2] == 0x44
            &&& payload[3] == 0x57
            &&& payload[4] == 1
            &&& payload[5] == kind
        },
        message_body(payload, kind) matches Ok(body) ==> body.len() == payload.len() - 6 && (forall|
            i: int,
        |
            0 <= i < body.len() ==> #[trigger] body[i] == payload[6 + i]),
{
    if payload.len() >= 4 {
        let front = payload.take(4);
        assert(front[0] == payload[0] && front[1] == payload[1] && front[2] == payload[2]
            && front[3] == payload[3]);
        if payload[0] == 0x53 && payload[1] == 0x48 && payload[2] == 0x44 && payload[3] == 0x57 {
            assert(front =~= wire_magic());
        }
    }
}

/// A number is read where there are bytes enough for it. Its first byte counts most, and what
/// stands behind it is left.
pub proof fn law_numbers_are_read_from_the_front(s: Seq<u8>)
    ensures
        take_u8(s) is Ok <==> s.len() >= 1,
        take_u16(s) is Ok <==> s.len() >= 2,
        take_u32(s) is Ok <==> s.len() >= 4,
        take_u64(s) is Ok <==> s.len() >= 8,
        take_u8(s) matches Ok((value, rest)) ==> value == s[0] && rest == s.skip(1),
        take_u16(s) matches Ok((value, rest)) ==> value == 256 * s[0] + s[1] && rest == s.skip(2),
        take_u32(s) matches Ok((value, rest)) ==> value == 0x100_0000 * s[0] + 0x1_0000 * s[1] + 256
            * s[2] + s[3] && rest == s.skip(4),
        take_u64(s) matches Ok((value, rest)) ==> value == 0x1_0000_0000 * (0x100_0000 * s[0]
            + 0x1_0000 * s[1] + 256 * s[2] + s[3]) + 0x100_0000 * s[4] + 0x1_0000 * s[5] + 256
            * s[6] + s[7] && rest == s.skip(8),
{
    if s.len() >= 2 {
        lemma_two_byte_value(s.take(2));
    }
    if s.len() >= 4 {
        lemma_four_byte_value(s.take(4));
    }
    if s.len() >= 8 {
        lemma_eight_byte_value(s.take(8));
    }
}

proof fn lemma_two_byte_value(s: Seq<u8>)
    requires
        s.len() == 2,
    ensures
        be_value(s) == 256 * s[0] + s[1],
{
    let a = s.drop_last();
    assert(a[0] == s[0]);
    assert(a.drop_last() =~= Seq::<u8>::empty());
    assert(be_value(a.drop_last()) == 0);
    assert(be_value(a) == s[0]);
}

proof fn lemma_four_byte_value(s: Seq<u8>)
    requires
        s.len() == 4,
    ensures
        be_value(s) == 0x100_0000 * s[0] + 0x1_0000 * s[1] + 256 * s[2] + s[3],
{
    let c = s.drop_last();
    let b = c.drop_last();
    assert(c[2] == s[2]);
    assert(b[0] == s[0] && b[1] == s[1]);
    lemma_two_byte_value(b);
    assert(be_value(c) == 256 * be_value(b) + c[2]);
    assert(be_value(s) == 256 * be_value(c) + s[3]);
}

proof fn lemma_eight_byte_value(s: Seq<u8>)
    requires
        s.len() == 8,
    ensures
        be_value(s) == 0x1_0000_0000 * (0x100_0000 * s[0] + 0x1_0000 * s[1] + 256 * s[2] + s[3])
            + 0x100_0000 * s[4] + 0x1_0000 * s[5] + 256 * s[6] + s[7],
        be_value(s) <= u64::MAX,
{
    let g = s.drop_last();
    let f = g.drop_last();
    let e = f.drop_last();
    let d = e.drop_last();
    assert(g[6] == s[6]);
    assert(f[5] == s[5]);
    assert(e[4] == s[4]);
    assert(d[0] == s[0] && d[1] == s[1] && d[2] == s[2] && d[3] == s[3]);
    lemma_four_byte_value(d);
    assert(be_value(e) == 256 * be_value(d) + e[4]);
    assert(be_value(f) == 256 * be_value(e) + f[5]);
    assert(be_value(g) == 256 * be_value(f) + g[6]);
    assert(be_value(s) == 256 * be_value(g) + s[7]);
}

/// A truth value is written as 1 where it is true and as 0 where it is not. What may be missing
/// stands behind such a truth value, and bytes stand behind their number.
pub proof fn law_fields_say_what_follows(
    value: u8,
    word: u32,
    number: u64,
    payload: Seq<u8>,
)
    ensures
        bool_bytes(true) == seq![1u8],
        bool_bytes(false) == seq![0u8],
        optional_u8_bytes(Some(value)) == seq![1u8, value],
        optional_u32_bytes(Some(word)) == seq![1u8] + be_bytes(word as nat, 4),
        optional_u64_bytes(Some(number)) == seq![1u8] + be_bytes(number as nat, 8),
        optional_u8_bytes(None) == seq![0u8],
        optional_u32_bytes(None) == seq![0u8],
        optional_u64_bytes(None) == seq![0u8],
        counted_bytes(payload).take(4) == be_bytes(payload.len(), 4),
        counted_bytes(payload).skip(4) == payload,
{
    lemma_be_bytes_len(payload.len(), 4);
    assert(counted_bytes(payload).take(4) =~= be_bytes(payload.len(), 4));
    assert(counted_bytes(payload).skip(4) =~= payload);
}

/// Counted bytes are read exactly where their number is at most 16 MiB and as many follow it.
pub proof fn law_counted_bytes_are_limited(s: Seq<u8>)
    ensures
        take_bytes(s) is Ok <==> s.len() >= 4 && 0x100_0000 * s[0] + 0x1_0000 * s[1] + 256 * s[2]
            + s[3] <= 0x100_0000 && 4 + 0x100_0000 * s[0] + 0x1_0000 * s[1] + 256 * s[2] + s[3]
            <= s.len(),
        take_bytes(s) matches Ok((bytes, rest)) ==> bytes.len() == 0x100_0000 * s[0] + 0x1_0000
            * s[1] + 256 * s[2] + s[3] && s == s.take(4) + bytes + rest,
{
    law_numbers_are_read_from_the_front(s);
    if take_bytes(s) is Ok {
        let (bytes, rest) = take_bytes(s)->Ok_0;
        assert(s =~= s.take(4) + bytes + rest);
    }
}

/// What is said to bytes that end too early or too late, and to payloads that are too large.
pub proof fn law_what_is_said_of_bytes(n: nat)
    ensures
        truncated_field(n) == "truncated field of length "@ + decimal(n),
        trailing_bytes(n) == decimal(n) + " trailing bytes after message"@,
        payload_too_large(n) == "packet payload is too large: "@ + decimal(n) + " bytes exceeds "@
            + decimal(16_777_216),
{
}

} // verus!
