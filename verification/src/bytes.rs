//! Big-endian byte strings.

use vstd::arithmetic::div_mod::lemma_div_denominator;
use vstd::arithmetic::power::{lemma_pow0, lemma_pow_positive, pow};
use vstd::prelude::*;
use vstd::slice::{slice_subrange, slice_to_vec};

verus! {

/// The `n` lowest bytes of `value`, most significant first.
pub open spec fn be_bytes(value: nat, n: nat) -> Seq<u8>
    decreases n,
{
    if n == 0 {
        Seq::empty()
    } else {
        be_bytes(value / 256, (n - 1) as nat).push((value % 256) as u8)
    }
}

/// The number that a byte string denotes, most significant byte first.
pub open spec fn be_value(s: Seq<u8>) -> nat
    decreases s.len(),
{
    if s.len() == 0 {
        0
    } else {
        be_value(s.drop_last()) * 256 + s.last() as nat
    }
}

/// The number that `n` bytes of `data` from position `pos` denote.
pub open spec fn number_at(data: Seq<u8>, pos: int, n: int) -> nat {
    be_value(data.subrange(pos, pos + n))
}

/// How many values `n` bytes can denote.
pub open spec fn byte_capacity(n: nat) -> nat
    decreases n,
{
    if n == 0 {
        1
    } else {
        byte_capacity((n - 1) as nat) * 256
    }
}

pub broadcast proof fn lemma_be_bytes_len(value: nat, n: nat)
    ensures
        #[trigger] be_bytes(value, n).len() == n,
    decreases n,
{
    if n > 0 {
        lemma_be_bytes_len(value / 256, (n - 1) as nat);
    }
}

/// Reading back what was written gives the value, when it fits.
pub proof fn lemma_be_round_trip(value: nat, n: nat)
    requires
        value < byte_capacity(n),
    ensures
        be_value(be_bytes(value, n)) == value,
    decreases n,
{
    if n > 0 {
        lemma_be_round_trip(value / 256, (n - 1) as nat);
        let s = be_bytes(value, n);
        assert(s.drop_last() =~= be_bytes(value / 256, (n - 1) as nat));
    }
}

/// Writing a number that was read from a byte string gives the byte string back.
pub proof fn lemma_be_value_round_trip(s: Seq<u8>)
    ensures
        be_bytes(be_value(s), s.len()) == s,
        be_value(s) < byte_capacity(s.len()),
    decreases s.len(),
{
    if s.len() > 0 {
        lemma_be_value_round_trip(s.drop_last());
        let low: nat = s.last() as nat;
        let high: nat = be_value(s.drop_last());
        assert((high * 256 + low) / 256 == high);
        assert((high * 256 + low) % 256 == low);
        assert(be_bytes(be_value(s), s.len()) =~= s);
    } else {
        assert(be_bytes(be_value(s), s.len()) =~= s);
    }
}

/// Where the bytes of a number stand, the number is read.
pub proof fn lemma_number_at(data: Seq<u8>, pos: int, value: nat, n: nat)
    requires
        value < byte_capacity(n),
        0 <= pos,
        pos + n <= data.len(),
        data.subrange(pos, pos + n) == be_bytes(value, n),
    ensures
        number_at(data, pos, n as int) == value,
{
    lemma_be_round_trip(value, n);
}

/// Joining three runs of bytes does not depend on which two are joined first.
pub proof fn lemma_join_assoc(a: Seq<u8>, b: Seq<u8>, c: Seq<u8>)
    ensures
        (a + b) + c == a + (b + c),
{
    assert((a + b) + c =~= a + (b + c));
}

/// A number that was written between other bytes is read back.
pub proof fn lemma_number_between(front: Seq<u8>, value: nat, n: nat, rest: Seq<u8>)
    requires
        value < byte_capacity(n),
    ensures
        number_at(front + be_bytes(value, n) + rest, front.len() as int, n as int) == value,
{
    lemma_be_bytes_len(value, n);
    let data = front + be_bytes(value, n) + rest;
    let pos = front.len() as int;
    assert(data.subrange(pos, pos + n) =~= be_bytes(value, n));
    lemma_number_at(data, pos, value, n);
}

pub proof fn lemma_byte_capacities()
    ensures
        byte_capacity(1) == 0x100,
        byte_capacity(2) == 0x1_0000,
        byte_capacity(4) == 0x1_0000_0000,
        byte_capacity(8) == 0x1_0000_0000_0000_0000,
{
    reveal_with_fuel(byte_capacity, 9);
}

/// Appends the `n` lowest bytes of `value`, most significant first.
pub fn push_be(out: &mut Vec<u8>, value: u64, n: usize)
    ensures
        final(out)@ == old(out)@ + be_bytes(value as nat, n as nat),
    decreases n,
{
    if n > 0 {
        push_be(out, value / 256, n - 1);
        out.push((value % 256) as u8);
        assert(out@ =~= old(out)@ + be_bytes(value as nat, n as nat));
    } else {
        assert(out@ =~= old(out)@ + be_bytes(value as nat, n as nat));
    }
}

/// Appends the bytes of `more`.
pub fn push_all(out: &mut Vec<u8>, more: &[u8])
    ensures
        final(out)@ == old(out)@ + more@,
{
    out.extend_from_slice(more);
    assert(out@ =~= old(out)@ + more@);
}

/// The bytes of `data` from position `from` up to `to`.
pub fn copy_range(data: &[u8], from: usize, to: usize) -> (part: Vec<u8>)
    requires
        from <= to <= data.len(),
    ensures
        part@ == data@.subrange(from as int, to as int),
{
    slice_to_vec(slice_subrange(data, from, to))
}

/// The number that `n` bytes of `data` from position `pos` denote, most significant first.
pub fn get_be(data: &[u8], pos: usize, n: usize) -> (value: u64)
    requires
        pos + n <= data.len(),
        n <= 8,
    ensures
        value == number_at(data@, pos as int, n as int),
{
    let mut value: u64 = 0;
    let mut i: usize = 0;
    assert(data@.subrange(pos as int, pos as int).len() == 0);
    while i < n
        invariant
            pos + n <= data.len(),
            n <= 8,
            i <= n,
            value == be_value(data@.subrange(pos as int, pos + i)),
        decreases n - i,
    {
        proof {
            let prefix = data@.subrange(pos as int, pos + i);
            let longer = data@.subrange(pos as int, pos + i + 1);
            assert(longer.drop_last() =~= prefix);
            assert(longer.last() == data@[pos + i]);
            lemma_be_value_round_trip(prefix);
            lemma_capacity_monotone(i as nat, 7);
            reveal_with_fuel(byte_capacity, 9);
        }
        value = value * 256 + data[pos + i] as u64;
        i += 1;
    }
    value
}

/// The number that two bytes of `data` from position `pos` denote.
pub fn get_be_u16(data: &[u8], pos: usize) -> (value: u16)
    requires
        pos + 2 <= data.len(),
    ensures
        value == number_at(data@, pos as int, 2),
{
    proof {
        lemma_be_value_round_trip(data@.subrange(pos as int, pos + 2));
        lemma_byte_capacities();
    }
    get_be(data, pos, 2) as u16
}

/// The number that four bytes of `data` from position `pos` denote.
pub fn get_be_u32(data: &[u8], pos: usize) -> (value: u32)
    requires
        pos + 4 <= data.len(),
    ensures
        value == number_at(data@, pos as int, 4),
{
    proof {
        lemma_be_value_round_trip(data@.subrange(pos as int, pos + 4));
        lemma_byte_capacities();
    }
    get_be(data, pos, 4) as u32
}

proof fn lemma_capacity_monotone(a: nat, b: nat)
    requires
        a <= b,
    ensures
        byte_capacity(a) <= byte_capacity(b),
    decreases b,
{
    if a < b {
        lemma_capacity_monotone(a, (b - 1) as nat);
    }
}

/// The contents of byte strings.
pub open spec fn contents(parts: Seq<Vec<u8>>) -> Seq<Seq<u8>> {
    Seq::new(parts.len(), |i: int| parts[i]@)
}

/// The first `n` parts, one after the other.
pub open spec fn joined(parts: Seq<Seq<u8>>, n: int) -> Seq<u8>
    decreases n,
{
    if n <= 0 {
        Seq::empty()
    } else {
        joined(parts, n - 1) + parts[n - 1]
    }
}

/// The parts, one after the other.
pub fn join_parts(parts: &Vec<Vec<u8>>) -> (buf: Vec<u8>)
    ensures
        buf@ == joined(contents(parts@), parts@.len() as int),
{
    let mut buf: Vec<u8> = Vec::new();
    let mut i: usize = 0;
    while i < parts.len()
        invariant
            i <= parts@.len(),
            buf@ == joined(contents(parts@), i as int),
        decreases parts@.len() - i,
    {
        push_all(&mut buf, &parts[i]);
        i += 1;
    }
    buf
}

/// Bytes stand most significant first: the byte `i` places before the last one is the `i`-th digit
/// of the number in base 256.
pub proof fn law_bytes_stand_most_significant_first(value: nat, n: nat, i: nat)
    requires
        i < n,
    ensures
        be_bytes(value, n).len() == n,
        be_bytes(value, n)[n - 1 - i] as int == (value as int / pow(256, i)) % 256,
    decreases n,
{
    lemma_be_bytes_len(value, n);
    lemma_be_bytes_len(value / 256, (n - 1) as nat);
    if i == 0 {
        lemma_pow0(256);
    } else {
        law_bytes_stand_most_significant_first(value / 256, (n - 1) as nat, (i - 1) as nat);
        lemma_pow_positive(256, (i - 1) as nat);
        lemma_div_denominator(value as int, 256, pow(256, (i - 1) as nat));
        assert(pow(256, i) == 256 * pow(256, (i - 1) as nat)) by {
            reveal(pow);
        }
        assert(be_bytes(value, n)[n - 1 - i] == be_bytes(value / 256, (n - 1) as nat)[n - 1 - i]);
    }
}

/// A byte in front of others counts 256 times as much for each byte behind it.
pub proof fn law_first_byte_counts_most(first: u8, rest: Seq<u8>)
    ensures
        be_value(seq![first] + rest) == first * pow(256, rest.len()) + be_value(rest),
    decreases rest.len(),
{
    let whole = seq![first] + rest;
    if rest.len() == 0 {
        lemma_pow0(256);
        assert(whole.drop_last() =~= Seq::<u8>::empty());
        assert(rest =~= Seq::<u8>::empty());
        reveal_with_fuel(be_value, 2);
    } else {
        let shorter = rest.drop_last();
        law_first_byte_counts_most(first, shorter);
        assert(whole.drop_last() =~= seq![first] + shorter);
        assert(pow(256, rest.len()) == 256 * pow(256, shorter.len())) by {
            reveal(pow);
        }
        let p = pow(256, shorter.len());
        let below = be_value(shorter) as int;
        let low = rest.last() as int;
        assert((first * p + below) * 256 + low == first * (256 * p) + (below * 256 + low))
            by (nonlinear_arith);
    }
}

/// What four bytes hold of a number that fits them.
pub proof fn law_four_bytes(value: nat)
    requires
        value < 0x1_0000_0000,
    ensures
        be_bytes(value, 4).len() == 4,
        be_bytes(value, 4)[0] == value / 0x100_0000,
        be_bytes(value, 4)[1] == value / 0x1_0000 % 0x100,
        be_bytes(value, 4)[2] == value / 0x100 % 0x100,
        be_bytes(value, 4)[3] == value % 0x100,
        be_bytes(value, 4)[0] * 0x100_0000 + be_bytes(value, 4)[1] * 0x1_0000 + be_bytes(value, 4)[2]
            * 0x100 + be_bytes(value, 4)[3] == value,
{
    reveal_with_fuel(be_bytes, 5);
    lemma_be_bytes_len(value, 4);
}

/// What parts hold stands in the order of the parts, and one more part is joined at the end.
pub proof fn law_parts_are_joined_in_order(parts: Seq<Vec<u8>>, part: Vec<u8>)
    ensures
        joined(contents(parts.push(part)), parts.len() + 1int) == joined(
            contents(parts),
            parts.len() as int,
        ) + part@,
        joined(contents(Seq::<Vec<u8>>::empty()), 0) == Seq::<u8>::empty(),
{
    let longer = contents(parts.push(part));
    assert(longer.drop_last() =~= contents(parts));
    lemma_joined_front(longer, contents(parts), parts.len() as int);
    assert(longer[parts.len() as int] == part@);
}

proof fn lemma_joined_front(a: Seq<Seq<u8>>, b: Seq<Seq<u8>>, n: int)
    requires
        n <= a.len(),
        n <= b.len(),
        forall|i: int| 0 <= i < n ==> #[trigger] a[i] == b[i],
    ensures
        joined(a, n) == joined(b, n),
    decreases n,
{
    if n > 0 {
        lemma_joined_front(a, b, n - 1);
        assert(a[n - 1] == b[n - 1]);
    }
}

} // verus!
