//! Text as characters: searching it, and numbers written in decimal digits.

use vstd::prelude::*;

verus! {

/// Whether `c` is a decimal digit.
pub open spec fn is_digit(c: char) -> bool {
    '0' <= c <= '9'
}

/// The number that decimal digits stand for.
pub open spec fn digits_value(digits: Seq<char>) -> nat
    decreases digits.len(),
{
    if digits.len() == 0 {
        0
    } else {
        digits_value(digits.drop_last()) * 10 + (digits.last() as nat - '0' as nat) as nat
    }
}

/// Whether `digits` holds decimal digits only.
pub open spec fn all_digits(digits: Seq<char>) -> bool {
    forall|i: int| 0 <= i < digits.len() ==> is_digit(#[trigger] digits[i])
}

/// What is left of `text` when a plus sign at its start is taken away.
pub open spec fn unsigned_part(text: Seq<char>) -> Seq<char> {
    if text.len() > 0 && text[0] == '+' {
        text.drop_first()
    } else {
        text
    }
}

/// The number that `text` stands for: `text` is one or more decimal digits,
/// with or without a plus sign before them, and the number is one that a
/// `u32` holds.
pub open spec fn parse_u32(text: Seq<char>) -> Option<u32> {
    let digits = unsigned_part(text);
    if digits.len() > 0 && all_digits(digits) && digits_value(digits) <= u32::MAX {
        Some(digits_value(digits) as u32)
    } else {
        None
    }
}

/// The characters of `text`.
pub fn chars_of(text: &str) -> (chars: Vec<char>)
    ensures
        chars@ == text@,
{
    let mut chars: Vec<char> = Vec::new();
    for c in it: text.chars()
        invariant
            chars@ == it.seq().take(it.index() as int),
    {
        chars.push(c);
    }
    chars
}

/// The index of the first `needle` in `chars`.
pub fn first_char(chars: &Vec<char>, needle: char) -> (found: Option<usize>)
    ensures
        match found {
            Some(at) => chars@.index_of_first(needle) == Some(at as int) && at < chars@.len(),
            None => chars@.index_of_first(needle) is None,
        },
{
    let mut at: usize = 0;
    while at < chars.len()
        invariant
            at <= chars@.len(),
            forall|i: int| 0 <= i < at ==> chars@[i] != needle,
        decreases chars@.len() - at,
    {
        if chars[at] == needle {
            proof {
                chars@.index_of_first_ensures(needle);
                assert(chars@.contains(needle));
            }
            return Some(at);
        }
        at += 1;
    }
    proof {
        chars@.index_of_first_ensures(needle);
    }
    None
}

/// Whether `left` and `right` are the same text.
pub fn same_text(left: &str, right: &str) -> (same: bool)
    ensures
        same == (left@ == right@),
{
    let left_chars = chars_of(left);
    let right_chars = chars_of(right);
    if left_chars.len() != right_chars.len() {
        return false;
    }
    let mut at: usize = 0;
    while at < left_chars.len()
        invariant
            left_chars@ == left@,
            right_chars@ == right@,
            left@.len() == right@.len(),
            at <= left@.len(),
            forall|i: int| 0 <= i < at ==> left@[i] == right@[i],
        decreases left@.len() - at,
    {
        if left_chars[at] != right_chars[at] {
            return false;
        }
        at += 1;
    }
    assert(left@ =~= right@);
    true
}

/// Reads a number written in decimal digits, with or without a plus sign
/// before them.
pub fn read_u32(text: &str) -> (number: Option<u32>)
    ensures
        number == parse_u32(text@),
{
    let chars = chars_of(text);
    let from: usize = if chars.len() > 0 && chars[0] == '+' {
        1
    } else {
        0
    };
    let ghost digits = chars@.subrange(from as int, chars@.len() as int);
    proof {
        assert(from == 1 ==> digits =~= text@.drop_first());
        assert(from == 0 ==> digits =~= text@);
    }
    if from == chars.len() {
        return None;
    }
    let mut value: u64 = 0;
    let mut at: usize = from;
    proof {
        assert(digits.take(0) =~= Seq::empty());
    }
    while at < chars.len()
        invariant
            from <= at <= chars@.len(),
            digits.len() == chars@.len() - from > 0,
            forall|i: int| 0 <= i < digits.len() ==> digits[i] == chars@[from + i],
            digits == unsigned_part(text@),
            all_digits(digits.take(at - from)),
            value == digits_value(digits.take(at - from)),
            value <= u32::MAX,
        decreases chars@.len() - at,
    {
        let c = chars[at];
        if c < '0' || c > '9' {
            assert(!is_digit(digits[at - from]));
            return None;
        }
        let digit = c as u64 - '0' as u64;
        proof {
            assert(digits.take(at - from + 1).drop_last() =~= digits.take(at - from));
            assert(digits.take(at - from + 1).last() == c);
            assert forall|i: int| 0 <= i < at - from + 1 implies is_digit(
                #[trigger] digits.take(at - from + 1)[i],
            ) by {
                if i < at - from {
                    assert(digits.take(at - from)[i] == digits[i]);
                }
            }
        }
        value = value * 10 + digit;
        at += 1;
        if value > u32::MAX as u64 {
            proof {
                if all_digits(digits) {
                    lemma_digits_grow(digits, at - from);
                }
            }
            return None;
        }
    }
    proof {
        assert(digits.take(at - from) =~= digits);
    }
    Some(value as u32)
}

/// Digits that follow make a number no smaller.
pub proof fn lemma_digits_grow(digits: Seq<char>, upto: int)
    requires
        0 <= upto <= digits.len(),
        all_digits(digits),
    ensures
        digits_value(digits.take(upto)) <= digits_value(digits),
    decreases digits.len() - upto,
{
    if upto < digits.len() {
        assert(digits.take(upto + 1).drop_last() =~= digits.take(upto));
        assert(is_digit(digits[upto]));
        lemma_digits_grow(digits, upto + 1);
    } else {
        assert(digits.take(upto) =~= digits);
    }
}

/// The digit that stands for a number below ten.
pub open spec fn digit_char(digit: nat) -> char {
    ('0' as u8 + digit) as char
}

/// A number written in decimal digits, without a sign and without zeros
/// before it.
pub open spec fn decimal(number: nat) -> Seq<char>
    decreases number,
{
    if number < 10 {
        seq![digit_char(number)]
    } else {
        decimal(number / 10).push(digit_char(number % 10))
    }
}

/// Writes a number in decimal digits.
pub fn to_decimal(number: u32) -> (digits: Vec<char>)
    ensures
        digits@ == decimal(number as nat),
    decreases number,
{
    if number < 10 {
        let mut digits: Vec<char> = Vec::new();
        digits.push(to_digit(number as u8));
        assert(digits@ =~= decimal(number as nat));
        digits
    } else {
        let mut digits = to_decimal(number / 10);
        digits.push(to_digit((number % 10) as u8));
        digits
    }
}

/// The digit that stands for a number below ten.
pub fn to_digit(digit: u8) -> (c: char)
    requires
        digit < 10,
    ensures
        c == digit_char(digit as nat),
{
    ('0' as u8 + digit) as char
}

/// A number that is written in decimal digits and read back is the same
/// number.
pub proof fn lemma_decimal_round_trip(number: nat)
    ensures
        decimal(number).len() > 0,
        all_digits(decimal(number)),
        digits_value(decimal(number)) == number,
        unsigned_part(decimal(number)) == decimal(number),
        number <= u32::MAX ==> parse_u32(decimal(number)) == Some(number as u32),
    decreases number,
{
    if number < 10 {
        assert(decimal(number).drop_last() =~= Seq::empty());
        assert(digits_value(decimal(number)) == number) by {
            reveal_with_fuel(digits_value, 2);
        }
    } else {
        lemma_decimal_round_trip(number / 10);
        let earlier = decimal(number / 10);
        assert(decimal(number).drop_last() =~= earlier);
        assert forall|i: int| 0 <= i < decimal(number).len() implies is_digit(
            #[trigger] decimal(number)[i],
        ) by {
            if i < earlier.len() {
                assert(is_digit(earlier[i]));
            }
        }
        assert(decimal(number)[0] == earlier[0]);
    }
    assert(is_digit(decimal(number)[0]));
}

/// Calls `String::from_iter` on the characters. Trusted: the string is made
/// of these characters, in their order.
#[verifier::external_body]
pub(crate) fn string_from_iter(chars: &Vec<char>) -> (text: String)
    ensures
        text@ == chars@,
{
    String::from_iter(chars.iter())
}

/// Whether `chars` starts with `prefix`.
pub fn starts_with(chars: &Vec<char>, prefix: &Vec<char>) -> (found: bool)
    ensures
        found == prefix@.is_prefix_of(chars@),
{
    if prefix.len() > chars.len() {
        return false;
    }
    let mut at: usize = 0;
    while at < prefix.len()
        invariant
            at <= prefix@.len() <= chars@.len(),
            forall|i: int| 0 <= i < at ==> chars@[i] == prefix@[i],
        decreases prefix@.len() - at,
    {
        if chars[at] != prefix[at] {
            assert(chars@.subrange(0, prefix@.len() as int)[at as int] != prefix@[at as int]);
            return false;
        }
        at += 1;
    }
    assert(prefix@ =~= chars@.subrange(0, prefix@.len() as int));
    true
}

/// Whether `chars` ends with `suffix`.
pub fn ends_with(chars: &Vec<char>, suffix: &Vec<char>) -> (found: bool)
    ensures
        found == suffix@.is_suffix_of(chars@),
{
    if suffix.len() > chars.len() {
        return false;
    }
    let from = chars.len() - suffix.len();
    let mut at: usize = 0;
    while at < suffix.len()
        invariant
            at <= suffix@.len() <= chars@.len() <= usize::MAX,
            from == chars@.len() - suffix@.len(),
            forall|i: int| 0 <= i < at ==> chars@[from + i] == suffix@[i],
        decreases suffix@.len() - at,
    {
        if chars[from + at] != suffix[at] {
            assert(chars@.subrange(from as int, chars@.len() as int)[at as int]
                != suffix@[at as int]);
            return false;
        }
        at += 1;
    }
    assert(suffix@ =~= chars@.subrange(from as int, chars@.len() as int));
    true
}

/// Appends the characters of `text` to `chars`.
pub fn push_str(chars: &mut Vec<char>, text: &str)
    ensures
        final(chars)@ == old(chars)@ + text@,
{
    let mut more = chars_of(text);
    chars.append(&mut more);
}

} // verus!
