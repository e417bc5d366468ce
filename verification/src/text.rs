//! Building and inspecting text: decimal numerals, concatenation, comparison and search.

use vstd::prelude::*;
use vstd::string::*;
use vstd::utf8::{decode_utf8, valid_utf8};

verus! {

/// The character of a decimal digit.
pub open spec fn digit_char(d: nat) -> char {
    (48 + d) as char
}

/// The decimal numeral of a natural number, without leading zeros.
pub open spec fn decimal(n: nat) -> Seq<char>
    decreases n,
{
    if n < 10 {
        seq![digit_char(n)]
    } else {
        decimal(n / 10).push(digit_char(n % 10))
    }
}

/// The decimal numeral of an integer, with a minus sign in front of a negative one.
pub open spec fn signed_decimal(n: int) -> Seq<char> {
    if n < 0 {
        seq!['-'] + decimal((-n) as nat)
    } else {
        decimal(n as nat)
    }
}

/// A numeral is not empty and holds digits only.
pub proof fn lemma_decimal_digits(n: nat)
    ensures
        decimal(n).len() > 0,
        forall|i: int| 0 <= i < decimal(n).len() ==> '0' <= #[trigger] decimal(n)[i] <= '9',
    decreases n,
{
    if n >= 10 {
        lemma_decimal_digits(n / 10);
    }
}

/// Different numbers have different numerals.
pub proof fn lemma_decimal_injective(m: nat, n: nat)
    requires
        decimal(m) == decimal(n),
    ensures
        m == n,
    decreases m + n,
{
    lemma_decimal_digits(m / 10);
    lemma_decimal_digits(n / 10);
    assert(decimal(m).last() == decimal(n).last());
    assert(decimal(m).last() == digit_char(m % 10));
    assert(decimal(n).last() == digit_char(n % 10));
    if m >= 10 && n >= 10 {
        assert(decimal(m).drop_last() =~= decimal(m / 10));
        assert(decimal(n).drop_last() =~= decimal(n / 10));
        lemma_decimal_injective(m / 10, n / 10);
    }
}

/// The text of one decimal digit.
fn digit_text(d: u64) -> (text: &'static str)
    requires
        d < 10,
    ensures
        text@ == seq![digit_char(d as nat)],
{
    proof {
        reveal_strlit("0");
        reveal_strlit("1");
        reveal_strlit("2");
        reveal_strlit("3");
        reveal_strlit("4");
        reveal_strlit("5");
        reveal_strlit("6");
        reveal_strlit("7");
        reveal_strlit("8");
        reveal_strlit("9");
    }
    let text = match d {
        0 => "0",
        1 => "1",
        2 => "2",
        3 => "3",
        4 => "4",
        5 => "5",
        6 => "6",
        7 => "7",
        8 => "8",
        _ => "9",
    };
    assert(text@ =~= seq![digit_char(d as nat)]);
    text
}

/// Appends the decimal numeral of `n`.
pub fn push_decimal(out: &mut String, n: u64)
    ensures
        final(out)@ == old(out)@ + decimal(n as nat),
    decreases n,
{
    if n < 10 {
        out.append(digit_text(n));
    } else {
        push_decimal(out, n / 10);
        out.append(digit_text(n % 10));
        assert(out@ =~= old(out)@ + decimal(n as nat));
    }
}

/// Appends the decimal numeral of a signed number.
pub fn push_signed_decimal(out: &mut String, n: i64)
    ensures
        final(out)@ == old(out)@ + signed_decimal(n as int),
{
    if n < 0 {
        proof {
            reveal_strlit("-");
        }
        assert("-"@ =~= seq!['-']);
        out.append("-");
        if n == i64::MIN {
            push_decimal(out, 9223372036854775808);
        } else {
            let magnitude: i64 = -n;
            push_decimal(out, magnitude as u64);
        }
        assert(out@ =~= old(out)@ + signed_decimal(n as int));
    } else {
        push_decimal(out, n as u64);
    }
}

/// The decimal numeral of `n` as owned text.
pub fn decimal_text(n: u64) -> (text: String)
    ensures
        text@ == decimal(n as nat),
{
    let mut text = String::new();
    push_decimal(&mut text, n);
    assert(text@ =~= decimal(n as nat));
    text
}

/// Whether two texts hold the same characters.
pub fn same_text(a: &str, b: &str) -> (same: bool)
    ensures
        same == (a@ == b@),
{
    let left = a.to_owned();
    let right = b.to_owned();
    left == right
}

/// The characters of a text, in order.
pub fn chars_of(s: &str) -> (chars: Vec<char>)
    ensures
        chars@ == s@,
{
    let mut chars: Vec<char> = Vec::new();
    for c in it: s.chars()
        invariant
            chars@ == it.seq().take(it.index()),
            it.seq() == s@,
    {
        chars.push(c);
    }
    assert(chars@ =~= s@);
    chars
}

/// `s` begins with `prefix`.
pub open spec fn begins_with(s: Seq<char>, prefix: Seq<char>) -> bool {
    prefix.len() <= s.len() && s.take(prefix.len() as int) == prefix
}

/// `needle` occurs somewhere in `s`.
pub open spec fn has_text(s: Seq<char>, needle: Seq<char>) -> bool {
    exists|i: int| 0 <= i <= s.len() && #[trigger] begins_with(s.skip(i), needle)
}

/// Whether `needle` stands in `hay` at position `at`.
fn stands_at(hay: &Vec<char>, at: usize, needle: &Vec<char>) -> (found: bool)
    requires
        at <= hay.len(),
    ensures
        found == begins_with(hay@.skip(at as int), needle@),
{
    if hay.len() - at < needle.len() {
        return false;
    }
    let mut k: usize = 0;
    while k < needle.len()
        invariant
            at <= hay.len(),
            needle.len() <= hay.len() - at,
            k <= needle.len(),
            forall|j: int| 0 <= j < k ==> hay@[at + j] == needle@[j],
        decreases needle.len() - k,
    {
        if hay[at + k] != needle[k] {
            assert(hay@.skip(at as int).take(needle@.len() as int)[k as int] == hay@[at + k]);
            return false;
        }
        k += 1;
    }
    assert(hay@.skip(at as int).take(needle@.len() as int) =~= needle@);
    true
}

/// Whether `s` begins with `prefix`.
pub fn text_begins_with(s: &str, prefix: &str) -> (found: bool)
    ensures
        found == begins_with(s@, prefix@),
{
    let hay = chars_of(s);
    let needle = chars_of(prefix);
    assert(hay@.skip(0) =~= hay@);
    stands_at(&hay, 0, &needle)
}

/// Whether `needle` occurs somewhere in `s`.
pub fn text_contains(s: &str, needle: &str) -> (found: bool)
    ensures
        found == has_text(s@, needle@),
{
    let hay = chars_of(s);
    let pattern = chars_of(needle);
    let mut i: usize = 0;
    while i < hay.len()
        invariant
            i <= hay.len(),
            hay@ == s@,
            pattern@ == needle@,
            forall|j: int| 0 <= j < i ==> !#[trigger] begins_with(hay@.skip(j), pattern@),
        decreases hay.len() - i,
    {
        if stands_at(&hay, i, &pattern) {
            return true;
        }
        i += 1;
    }
    stands_at(&hay, i, &pattern)
}

/// What `String::from_utf8_lossy` makes of bytes.
pub uninterp spec fn lossy_utf8(bytes: Seq<u8>) -> Seq<char>;

/// Bytes as text, through the standard library's `String::from_utf8_lossy`. Claimed of it: the
/// text depends on the bytes alone, and bytes that are valid UTF-8 give the text that they encode.
/// What stands in place of invalid bytes is left unsaid.
#[verifier::external_body]
pub(crate) fn lossy_text(bytes: &[u8]) -> (text: String)
    ensures
        text@ == lossy_utf8(bytes@),
        valid_utf8(bytes@) ==> text@ == decode_utf8(bytes@),
{
    String::from_utf8_lossy(bytes).to_string()
}

/// The number that a row of digits denotes in base ten.
pub open spec fn numeral_value(digits: Seq<char>) -> int
    decreases digits.len(),
{
    if digits.len() == 0 {
        0
    } else {
        numeral_value(digits.drop_last()) * 10 + (digits.last() as int - 48)
    }
}

/// A numeral denotes its number in base ten, and has no leading zero.
pub proof fn law_numerals_denote_their_numbers(n: nat)
    ensures
        numeral_value(decimal(n)) == n,
        n > 0 ==> decimal(n)[0] != '0',
        n < 10 ==> decimal(n).len() == 1,
        n >= 10 ==> decimal(n).len() == decimal(n / 10).len() + 1,
    decreases n,
{
    if n >= 10 {
        law_numerals_denote_their_numbers(n / 10);
        lemma_decimal_digits(n / 10);
        assert(decimal(n).drop_last() =~= decimal(n / 10));
        assert(decimal(n).last() as int - 48 == n % 10);
    } else {
        assert(decimal(n).drop_last() =~= Seq::<char>::empty());
        assert(decimal(n).last() as int - 48 == n);
        reveal_with_fuel(numeral_value, 2);
    }
}

/// A minus sign stands in front of the numeral of a negative number, and of no other.
pub proof fn law_signs_stand_in_front(n: int)
    ensures
        n < 0 ==> signed_decimal(n)[0] == '-' && numeral_value(signed_decimal(n).skip(1)) == -n,
        n >= 0 ==> signed_decimal(n)[0] != '-' && numeral_value(signed_decimal(n)) == n,
{
    if n < 0 {
        law_numerals_denote_their_numbers((-n) as nat);
        assert(signed_decimal(n).skip(1) =~= decimal((-n) as nat));
    } else {
        law_numerals_denote_their_numbers(n as nat);
        lemma_decimal_digits(n as nat);
    }
}

/// A text is found in another if and only if its characters stand there one after the other.
pub proof fn law_found_texts_stand_there(s: Seq<char>, needle: Seq<char>)
    ensures
        has_text(s, needle) <==> exists|i: int|
            0 <= i <= s.len() - needle.len() && #[trigger] s.subrange(i, i + needle.len())
                == needle,
        begins_with(s, needle) <==> needle.len() <= s.len() && forall|k: int|
            0 <= k < needle.len() ==> s[k] == #[trigger] needle[k],
{
    if has_text(s, needle) {
        let i = choose|i: int| 0 <= i <= s.len() && #[trigger] begins_with(s.skip(i), needle);
        assert(s.subrange(i, i + needle.len()) =~= s.skip(i).take(needle.len() as int));
    }
    if exists|i: int|
        0 <= i <= s.len() - needle.len() && #[trigger] s.subrange(i, i + needle.len()) == needle {
        let i = choose|i: int|
            0 <= i <= s.len() - needle.len() && #[trigger] s.subrange(i, i + needle.len())
                == needle;
        assert(s.subrange(i, i + needle.len()) =~= s.skip(i).take(needle.len() as int));
        assert(begins_with(s.skip(i), needle));
    }
    if begins_with(s, needle) {
        assert forall|k: int| 0 <= k < needle.len() implies s[k] == #[trigger] needle[k] by {
            assert(s.take(needle.len() as int)[k] == s[k]);
        }
    }
    if needle.len() <= s.len() && forall|k: int|
        0 <= k < needle.len() ==> s[k] == #[trigger] needle[k] {
        assert(s.take(needle.len() as int) =~= needle);
    }
}

} // verus!
