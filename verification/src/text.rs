//! Decimal and hexadecimal text.

use vstd::prelude::*;

verus! {

/// Appends a character, as `String::push` of the standard library documents it.
pub assume_specification[ String::push ](text: &mut String, character: char)
    ensures
        final(text)@ == old(text)@.push(character),
;

/// Whether a byte is a decimal digit.
pub open spec fn is_digit(byte: u8) -> bool {
    48 <= byte <= 57
}

/// The number that decimal digits stand for.
pub open spec fn digits_value(digits: Seq<u8>) -> nat
    decreases digits.len(),
{
    if digits.len() == 0 {
        0
    } else {
        10 * digits_value(digits.drop_last()) + (digits.last() - 48) as nat
    }
}

/// The shortest decimal digits of a number.
pub open spec fn decimal(number: nat) -> Seq<u8>
    decreases number,
{
    if number < 10 {
        seq![(48 + number) as u8]
    } else {
        decimal(number / 10).push((48 + number % 10) as u8)
    }
}

/// A number as digits: one or more, standing for a 64-bit number.
pub open spec fn digits_number(digits: Seq<u8>) -> Option<u64> {
    if digits.len() > 0 && all_digits(digits) && digits_value(digits) <= u64::MAX {
        Some(digits_value(digits) as u64)
    } else {
        None
    }
}

pub open spec fn all_digits(digits: Seq<u8>) -> bool {
    forall|i: int| 0 <= i < digits.len() ==> is_digit(#[trigger] digits[i])
}

/// A number as text: digits, after an optional plus sign.
pub open spec fn parsed_number(text: Seq<u8>) -> Option<u64> {
    if text.len() > 0 && text[0] == 43 {
        digits_number(text.skip(1))
    } else {
        digits_number(text)
    }
}

proof fn lemma_value_grows(digits: Seq<u8>, count: nat)
    requires
        count <= digits.len(),
        forall|i: int| 0 <= i < digits.len() ==> is_digit(#[trigger] digits[i]),
    ensures
        digits_value(digits.take(count as int)) <= digits_value(digits),
    decreases digits.len(),
{
    if count == digits.len() {
        assert(digits.take(count as int) =~= digits);
    } else {
        assert(digits.drop_last().take(count as int) =~= digits.take(count as int));
        lemma_value_grows(digits.drop_last(), count);
    }
}

/// What the digits of a number are.
pub proof fn lemma_decimal(number: nat)
    ensures
        decimal(number).len() > 0,
        forall|i: int| 0 <= i < decimal(number).len() ==> is_digit(#[trigger] decimal(number)[i]),
        digits_value(decimal(number)) == number,
    decreases number,
{
    if number < 10 {
        assert(decimal(number).drop_last() =~= Seq::<u8>::empty());
        assert(digits_value(Seq::<u8>::empty()) == 0);
    } else {
        lemma_decimal(number / 10);
        assert(decimal(number).drop_last() =~= decimal(number / 10));
    }
}

/// Different numbers have different digits.
pub proof fn lemma_decimal_differs(left: nat, right: nat)
    requires
        byte_text(decimal(left)) == byte_text(decimal(right)),
    ensures
        left == right,
{
    lemma_decimal(left);
    lemma_decimal(right);
    let digits = decimal(left);
    let others = decimal(right);
    assert(byte_text(digits).len() == digits.len());
    assert(byte_text(others).len() == others.len());
    assert forall|i: int| 0 <= i < digits.len() implies digits[i] == others[i] by {
        assert(byte_text(digits)[i] == digits[i] as char);
        assert(byte_text(others)[i] == others[i] as char);
        assert(is_digit(digits[i]));
        assert(is_digit(others[i]));
        assert((digits[i] as char) as int == digits[i] as int);
        assert((others[i] as char) as int == others[i] as int);
    }
    assert(digits =~= others);
}

/// The number that the text from `start` up to `end` states.
pub fn parse_number(text: &Vec<u8>, start: usize, end: usize) -> (number: Option<u64>)
    requires
        start <= end <= text@.len(),
    ensures
        number == parsed_number(text@.subrange(start as int, end as int)),
{
    let ghost whole = text@.subrange(start as int, end as int);
    let mut first: usize = start;
    if start < end && text[start] == 43 {
        first = start + 1;
        assert(whole[0] == 43);
        assert(whole.skip(1) =~= text@.subrange(first as int, end as int));
    } else if start < end {
        assert(whole[0] == text@[start as int]);
    }
    let ghost digits = text@.subrange(first as int, end as int);
    assert(parsed_number(whole) == digits_number(digits));
    if first == end {
        return None;
    }
    let mut value: u64 = 0;
    let mut i: usize = first;
    assert(digits.take(0) =~= Seq::<u8>::empty());
    while i < end
        invariant
            first <= i <= end <= text@.len(),
            digits == text@.subrange(first as int, end as int),
            digits.len() > 0,
            parsed_number(whole) == digits_number(digits),
            whole == text@.subrange(start as int, end as int),
            forall|j: int| 0 <= j < i - first ==> is_digit(#[trigger] digits[j]),
            value == digits_value(digits.take(i - first)),
        decreases end - i,
    {
        let byte: u8 = text[i];
        assert(digits[i - first] == byte);
        if byte < 48 || byte > 57 {
            assert(!is_digit(digits[i - first]));
            return None;
        }
        proof {
            assert(digits.take(i - first + 1).drop_last() =~= digits.take(i - first));
            assert(digits.take(i - first + 1).last() == byte);
            if all_digits(digits) {
                lemma_value_grows(digits, (i - first + 1) as nat);
            }
        }
        let digit: u64 = (byte - 48) as u64;
        match value.checked_mul(10) {
            None => return None,
            Some(shifted) => match shifted.checked_add(digit) {
                None => return None,
                Some(next) => {
                    value = next;
                },
            },
        }
        i += 1;
    }
    assert(digits.take(end - first) =~= digits);
    Some(value)
}

/// The decimal digits of a number.
pub fn decimal_digits(number: u64) -> (digits: Vec<u8>)
    ensures
        digits@ == decimal(number as nat),
{
    let mut digits: Vec<u8> = Vec::new();
    let mut left: u64 = number;
    let ghost whole = number as nat;
    while left >= 10
        invariant
            decimal(whole) == decimal(left as nat) + digits@,
        decreases left,
    {
        let ghost before = digits@;
        digits.insert(0, (48 + left % 10) as u8);
        proof {
            let digit = (48 + left % 10) as u8;
            assert(digits@ =~= seq![digit] + before);
            assert(decimal(left as nat) =~= decimal((left / 10) as nat).push(digit));
            assert(decimal((left / 10) as nat).push(digit) + before =~= decimal((left / 10) as nat) + digits@);
        }
        left = left / 10;
    }
    let ghost before = digits@;
    digits.insert(0, (48 + left) as u8);
    proof {
        assert(digits@ =~= decimal(left as nat) + before);
    }
    digits
}

/// Bytes as text, one character for each byte.
pub open spec fn byte_text(bytes: Seq<u8>) -> Seq<char> {
    bytes.map_values(|byte: u8| byte as char)
}

/// Appends the decimal digits of a number.
pub fn push_decimal(text: &mut String, number: u64)
    ensures
        final(text)@ == old(text)@ + byte_text(decimal(number as nat)),
{
    let digits: Vec<u8> = decimal_digits(number);
    let ghost before = text@;
    let mut i: usize = 0;
    while i < digits.len()
        invariant
            i <= digits@.len(),
            text@ == before + byte_text(digits@.take(i as int)),
        decreases digits@.len() - i,
    {
        text.push(digits[i] as char);
        assert(byte_text(digits@.take(i + 1)) =~= byte_text(digits@.take(i as int)).push(
            digits@[i as int] as char,
        ));
        i += 1;
    }
    assert(digits@.take(digits@.len() as int) =~= digits@);
}

/// The lower-case digit of a half byte.
pub open spec fn hex_digit(value: nat) -> char {
    if value < 10 {
        (48 + value) as char
    } else {
        (87 + value) as char
    }
}

/// The value of a hexadecimal digit of either case.
pub open spec fn hex_value(digit: char) -> Option<nat> {
    if '0' <= digit <= '9' {
        Some((digit as nat - 48) as nat)
    } else if 'a' <= digit <= 'f' {
        Some((digit as nat - 87) as nat)
    } else if 'A' <= digit <= 'F' {
        Some((digit as nat - 55) as nat)
    } else {
        None
    }
}

/// Bytes as lower-case hexadecimal text, the high half of each byte first.
pub open spec fn hex_text(bytes: Seq<u8>) -> Seq<char> {
    Seq::new(
        2 * bytes.len(),
        |i: int|
            hex_digit(
                if i % 2 == 0 {
                    (bytes[i / 2] / 16) as nat
                } else {
                    (bytes[i / 2] % 16) as nat
                },
            ),
    )
}

/// Whether text is pairs of hexadecimal digits.
pub open spec fn is_hex(text: Seq<char>) -> bool {
    &&& text.len() % 2 == 0
    &&& forall|i: int| 0 <= i < text.len() ==> hex_value(#[trigger] text[i]) is Some
}

/// The byte that the digits at `2 * i` and `2 * i + 1` stand for.
pub open spec fn hex_byte(text: Seq<char>, i: int) -> nat {
    16 * hex_value(text[2 * i])->Some_0 + hex_value(text[2 * i + 1])->Some_0
}

/// Why text is not hexadecimal.
#[verifier::external_type_specification]
#[verifier::external_body]
pub struct ExFromHexError(hex::FromHexError);

/// Calls `hex::encode`. Claims that it writes two lower-case digits for each byte.
#[verifier::external_body]
pub(crate) fn encode_hex(bytes: &Vec<u8>) -> (text: String)
    ensures
        text@ == hex_text(bytes@),
{
    hex::encode(bytes)
}

/// Calls `hex::decode`. Claims that it accepts pairs of hexadecimal digits of
/// either case and nothing else, and gives one byte for each pair.
#[verifier::external_body]
pub(crate) fn decode_hex(text: &str) -> (bytes: Result<Vec<u8>, hex::FromHexError>)
    ensures
        bytes is Ok <==> is_hex(text@),
        bytes matches Ok(bytes) ==> bytes@.len() * 2 == text@.len() && forall|i: int|
            0 <= i < bytes@.len() ==> #[trigger] bytes@[i] == hex_byte(text@, i),
{
    hex::decode(text)
}

/// The digits of a number are read back as that number, with a plus sign in front or
/// without.
pub proof fn law_decimal_text_is_read_back(number: u64)
    ensures
        parsed_number(decimal(number as nat)) == Some(number),
        parsed_number(seq![43u8] + decimal(number as nat)) == Some(number),
{
    let digits = decimal(number as nat);
    lemma_decimal(number as nat);
    assert(is_digit(digits[0]));
    assert((seq![43u8] + digits).skip(1) =~= digits);
}

/// A further digit multiplies a number by ten and adds itself.
pub proof fn law_digits_count_in_tens(number: nat, digit: nat)
    requires
        number > 0,
        digit < 10,
    ensures
        decimal(10 * number + digit) == decimal(number).push((48 + digit) as u8),
        decimal(digit) == seq![(48 + digit) as u8],
{
    assert((10 * number + digit) / 10 == number);
    assert((10 * number + digit) % 10 == digit);
}

/// Text that is empty or holds anything but digits states no number.
pub proof fn law_other_text_is_no_number(text: Seq<u8>, i: int)
    requires
        0 < i < text.len() && !(48 <= text[i] <= 57),
    ensures
        parsed_number(text) is None,
        parsed_number(Seq::empty()) is None,
        parsed_number(seq![43u8]) is None,
{
    if text[0] == 43 {
        assert(text.skip(1)[i - 1] == text[i]);
        assert(!is_digit(text.skip(1)[i - 1]));
    } else {
        assert(!is_digit(text[i]));
    }
    assert(seq![43u8].skip(1).len() == 0);
}

/// The hexadecimal text of bytes is read back as those bytes.
pub proof fn law_hex_text_is_read_back(bytes: Seq<u8>, i: int)
    requires
        0 <= i < bytes.len(),
    ensures
        hex_text(bytes).len() == 2 * bytes.len(),
        hex_value(hex_text(bytes)[2 * i]) == Some((bytes[i] / 16) as nat),
        hex_value(hex_text(bytes)[2 * i + 1]) == Some((bytes[i] % 16) as nat),
        hex_byte(hex_text(bytes), i) == bytes[i],
{
    assert((2 * i) % 2 == 0 && (2 * i) / 2 == i);
    assert((2 * i + 1) % 2 == 1 && (2 * i + 1) / 2 == i);
}

/// The hexadecimal text of bytes is accepted, and text with another character or an odd
/// number of them is not.
pub proof fn law_hex_text_is_accepted(bytes: Seq<u8>, text: Seq<char>, i: int)
    ensures
        is_hex(hex_text(bytes)),
        text.len() % 2 == 1 ==> !is_hex(text),
        0 <= i < text.len() && !('0' <= text[i] <= '9') && !('a' <= text[i] <= 'f') && !('A' <= text[i]
            <= 'F') ==> !is_hex(text),
{
    if 0 <= i < text.len() && hex_value(text[i]) is None {
        assert(!is_hex(text));
    }
    assert forall|k: int| 0 <= k < hex_text(bytes).len() implies hex_value(
        #[trigger] hex_text(bytes)[k],
    ) is Some by {}
}

} // verus!
