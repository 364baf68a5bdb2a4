//! Reading numbers.

use crate::text;
use crate::text::chars_of;
use vstd::prelude::*;

verus! {

/// Whether the character is a decimal digit.
pub open spec fn is_digit(ch: char) -> bool {
    '0' <= ch <= '9'
}

/// The number that the digits stand for.
pub open spec fn number_of(digits: Seq<char>) -> nat
    decreases digits.len(),
{
    if digits.len() == 0 {
        0
    } else {
        number_of(digits.drop_last()) * 10 + (digits.last() as nat - '0' as nat) as nat
    }
}

/// The text without one plus sign in front.
pub open spec fn without_sign(text: Seq<char>) -> Seq<char> {
    if text.len() > 0 && text[0] == '+' {
        text.skip(1)
    } else {
        text
    }
}

/// Whether the text is a number: one or more digits, possibly with a plus sign
/// in front.
pub open spec fn is_number(text: Seq<char>) -> bool {
    let digits = without_sign(text);
    &&& digits.len() > 0
    &&& forall|i: int| 0 <= i < digits.len() ==> is_digit(#[trigger] digits[i])
}

/// The number that the text stands for, if it is one and not above the largest
/// that is allowed.
pub open spec fn parsed(text: Seq<char>, largest: nat) -> Option<nat> {
    if is_number(text) && number_of(without_sign(text)) <= largest {
        Some(number_of(without_sign(text)))
    } else {
        None
    }
}

/// Reads an unsigned number that is at most `largest`.
pub fn parse_number(text: &str, largest: u64) -> (number: Option<u64>)
    ensures
        match number {
            Some(number) => parsed(text@, largest as nat) == Some(number as nat),
            None => parsed(text@, largest as nat) is None,
        },
{
    let chars = chars_of(text);
    let start: usize = if chars.len() > 0 && chars[0] == '+' {
        1
    } else {
        0
    };
    let ghost digits = without_sign(text@);
    assert(digits =~= chars@.skip(start as int));
    if chars.len() == start {
        return None;
    }
    let mut number: u64 = 0;
    assert(digits.take(0) =~= Seq::empty());
    for i in start..chars.len()
        invariant
            start <= 1,
            chars@ == text@,
            digits == without_sign(text@),
            digits == chars@.skip(start as int),
            number == number_of(digits.take(i - start)),
            number <= largest,
            forall|j: int| 0 <= j < i - start ==> is_digit(#[trigger] digits[j]),
    {
        let ch: char = chars[i];
        let ghost place = i - start;
        assert(digits[place] == ch);
        assert(digits.take(place + 1).drop_last() =~= digits.take(place));
        if ch < '0' || ch > '9' {
            assert(!is_digit(digits[place]));
            return None;
        }
        let digit: u64 = ch as u64 - '0' as u64;
        let wide: u128 = number as u128 * 10 + digit as u128;
        assert(wide == number_of(digits.take(place + 1)));
        if wide > largest as u128 {
            proof {
                lemma_more_digits_more(digits, place + 1);
            }
            return None;
        }
        number = wide as u64;
    }
    assert(digits.take(digits.len() as int) =~= digits);
    Some(number)
}

/// Further digits never make a number smaller.
proof fn lemma_more_digits_more(digits: Seq<char>, count: int)
    requires
        0 <= count <= digits.len(),
    ensures
        number_of(digits.take(count)) <= number_of(digits),
    decreases digits.len(),
{
    if count == digits.len() {
        assert(digits.take(count) =~= digits);
    } else {
        lemma_more_digits_more(digits.drop_last(), count);
        assert(digits.drop_last().take(count) =~= digits.take(count));
    }
}

/// Reading undoes the decimal notation of a number.
pub proof fn law_reading_undoes_decimal_notation(value: nat)
    ensures
        is_number(text::decimal(value)),
        number_of(without_sign(text::decimal(value))) == value,
    decreases value,
{
    lemma_decimal_digits(value);
    let digits = text::decimal(value);
    assert(is_digit(digits[0]));
    assert(without_sign(digits) == digits);
}

proof fn lemma_decimal_digits(value: nat)
    ensures
        text::decimal(value).len() > 0,
        forall|i: int|
            0 <= i < text::decimal(value).len() ==> is_digit(#[trigger] text::decimal(value)[i]),
        number_of(text::decimal(value)) == value,
    decreases value,
{
    let digits = text::decimal(value);
    if value < 10 {
        assert(digits.drop_last() =~= Seq::empty());
        assert(number_of(digits.drop_last()) == 0);
    } else {
        lemma_decimal_digits(value / 10);
        assert(digits.drop_last() =~= text::decimal(value / 10));
        assert forall|i: int| 0 <= i < digits.len() implies is_digit(#[trigger] digits[i]) by {
            if i < digits.len() - 1 {
                assert(digits[i] == text::decimal(value / 10)[i]);
            }
        }
    }
}

/// One more digit makes a number ten times as great, and adds the digit. No
/// digits make zero.
pub proof fn law_digit_adds_to_ten_times(digits: Seq<char>, ch: char)
    requires
        is_digit(ch),
    ensures
        number_of(digits.push(ch)) == 10 * number_of(digits) + (ch as int - '0' as int),
        number_of(Seq::empty()) == 0,
{
    assert(digits.push(ch).drop_last() =~= digits);
}

/// Zeros in front change nothing.
pub proof fn law_zeros_in_front_change_nothing(digits: Seq<char>)
    ensures
        number_of(seq!['0'] + digits) == number_of(digits),
    decreases digits.len(),
{
    let more = seq!['0'] + digits;
    if digits.len() == 0 {
        assert(more.drop_last() =~= Seq::empty());
        assert(number_of(more.drop_last()) == 0);
    } else {
        law_zeros_in_front_change_nothing(digits.drop_last());
        assert(more.drop_last() =~= seq!['0'] + digits.drop_last());
    }
}

/// A number that is padded with zeros is read as it was.
pub proof fn law_padding_is_read_over(value: nat, width: nat)
    ensures
        number_of(text::zero_padded(value, width)) == value,
    decreases width,
{
    let digits = text::decimal(value);
    lemma_decimal_digits(value);
    if digits.len() < width {
        let less = (width - 1) as nat;
        law_padding_is_read_over(value, less);
        assert(text::zero_padded(value, width) =~= seq!['0'] + text::zero_padded(value, less));
        law_zeros_in_front_change_nothing(text::zero_padded(value, less));
    }
}

/// A text is read as a number exactly where it is digits and nothing else, at
/// least one, with at most one plus sign in front, and not more than is allowed.
/// The sign changes nothing.
pub proof fn law_digits_are_read(digits: Seq<char>, largest: nat)
    requires
        digits.len() > 0,
        forall|i: int| 0 <= i < digits.len() ==> '0' <= #[trigger] digits[i] <= '9',
    ensures
        parsed(digits, largest) == (if number_of(digits) <= largest {
            Some(number_of(digits))
        } else {
            None
        }),
        parsed(seq!['+'] + digits, largest) == parsed(digits, largest),
        parsed(seq!['+', '+'] + digits, largest) is None,
        parsed(seq!['-'] + digits, largest) is None,
        parsed(Seq::empty(), largest) is None,
        parsed(seq!['+'], largest) is None,
{
    assert(digits[0] != '+');
    assert((seq!['+'] + digits).skip(1) =~= digits);
    assert(forall|i: int| 0 <= i < digits.len() ==> is_digit(#[trigger] digits[i]));
    let twice = without_sign(seq!['+', '+'] + digits);
    assert(twice[0] == '+');
    assert(!is_digit(twice[0]));
    let negative = without_sign(seq!['-'] + digits);
    assert(negative[0] == '-');
    assert(!is_digit(negative[0]));
}

/// A text with anything else in it is no number, wherever that stands, but for
/// one plus sign in front.
pub proof fn law_anything_else_is_no_number(content: Seq<char>, place: int, largest: nat)
    requires
        0 <= place < content.len(),
        !('0' <= content[place] <= '9'),
        place > 0 || content[0] != '+',
    ensures
        parsed(content, largest) is None,
{
    let digits = without_sign(content);
    let at = if content[0] == '+' {
        place - 1
    } else {
        place
    };
    assert(digits[at] == content[place]);
    assert(!is_digit(digits[at]));
}

} // verus!
