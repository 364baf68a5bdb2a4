//! Character-level text helpers.
//!
//! Strings are handled as sequences of Unicode scalar values throughout the
//! library: a `&str` or `String` is read through its view, a `Seq<char>`.

use vstd::prelude::*;

verus! {

/// `String::push` appends one character to the end of the string.
pub assume_specification[ String::push ](string: &mut String, ch: char)
    ensures
        final(string)@ == old(string)@.push(ch),
;

/// The texts that a sequence of strings holds.
pub open spec fn texts(strings: Seq<String>) -> Seq<Seq<char>> {
    Seq::new(strings.len(), |i: int| strings[i]@)
}

/// The characters of `text`, in order.
pub(crate) fn chars_of(text: &str) -> (chars: Vec<char>)
    ensures
        chars@ == text@,
{
    let mut chars: Vec<char> = Vec::new();
    for ch in it: text.chars()
        invariant
            it.seq() == text@,
            chars@ == it.seq().take(it.index() as int),
    {
        chars.push(ch);
    }
    chars
}

/// The string made of `chars[start..end]`.
pub(crate) fn string_from(chars: &Vec<char>, start: usize, end: usize) -> (string: String)
    requires
        start <= end <= chars@.len(),
    ensures
        string@ == chars@.subrange(start as int, end as int),
{
    let mut string = String::new();
    for i in start..end
        invariant
            end <= chars@.len(),
            string@ == chars@.subrange(start as int, i as int),
    {
        string.push(chars[i]);
    }
    string
}

/// Appends every character of `suffix` to `string`.
pub(crate) fn push_str(string: &mut String, suffix: &str)
    ensures
        final(string)@ == old(string)@ + suffix@,
{
    for ch in it: suffix.chars()
        invariant
            it.seq() == suffix@,
            string@ == old(string)@ + it.seq().take(it.index() as int),
    {
        string.push(ch);
    }
}

/// An owned copy of `text`.
pub(crate) fn copy_of(text: &str) -> (string: String)
    ensures
        string@ == text@,
{
    let mut string = String::new();
    push_str(&mut string, text);
    string
}

/// A copy of every text, in order.
pub(crate) fn copy_texts(strings: &Vec<String>) -> (copy: Vec<String>)
    ensures
        texts(copy@) == texts(strings@),
{
    let mut copy: Vec<String> = Vec::new();
    for i in 0..strings.len()
        invariant
            copy@.len() == i,
            forall|j: int| 0 <= j < i ==> (#[trigger] copy@[j])@ == strings@[j]@,
    {
        copy.push(copy_of(&strings[i]));
    }
    assert(texts(copy@) =~= texts(strings@));
    copy
}

/// Whether the two texts hold the same characters.
pub(crate) fn same_text(left: &str, right: &str) -> (same: bool)
    ensures
        same == (left@ == right@),
{
    let left_chars = chars_of(left);
    let right_chars = chars_of(right);
    same_chars(&left_chars, &right_chars)
}

/// Whether the two vectors hold the same characters.
pub(crate) fn same_chars(left: &Vec<char>, right: &Vec<char>) -> (same: bool)
    ensures
        same == (left@ == right@),
{
    if left.len() != right.len() {
        return false;
    }
    for i in 0..left.len()
        invariant
            left@.len() == right@.len(),
            left@.take(i as int) == right@.take(i as int),
    {
        if left[i] != right[i] {
            assert(left@[i as int] != right@[i as int]);
            return false;
        }
        assert(left@.take(i + 1) =~= left@.take(i as int).push(left@[i as int]));
        assert(right@.take(i + 1) =~= right@.take(i as int).push(right@[i as int]));
    }
    assert(left@.take(left@.len() as int) =~= left@);
    assert(right@.take(right@.len() as int) =~= right@);
    true
}

/// Whether the two vectors hold the same texts.
pub(crate) fn same_texts(left: &Vec<String>, right: &Vec<String>) -> (same: bool)
    ensures
        same == (texts(left@) == texts(right@)),
{
    if left.len() != right.len() {
        assert(texts(left@).len() != texts(right@).len());
        return false;
    }
    for i in 0..left.len()
        invariant
            left@.len() == right@.len(),
            forall|j: int| 0 <= j < i ==> texts(left@)[j] == texts(right@)[j],
    {
        if !same_text(&left[i], &right[i]) {
            assert(texts(left@)[i as int] != texts(right@)[i as int]);
            return false;
        }
    }
    assert(texts(left@) =~= texts(right@));
    true
}

/// Whether a NUL character occurs in `text`.
pub(crate) fn holds_nul(text: &str) -> (holds: bool)
    ensures
        holds == text@.contains('\0'),
{
    let chars = chars_of(text);
    for i in 0..chars.len()
        invariant
            chars@ == text@,
            forall|j: int| 0 <= j < i ==> text@[j] != '\0',
    {
        if chars[i] == '\0' {
            return true;
        }
    }
    false
}

/// Whether `text` begins with `prefix`.
pub(crate) fn starts_with(text: &str, prefix: &str) -> (starts: bool)
    ensures
        starts == prefix@.is_prefix_of(text@),
{
    let text_chars = chars_of(text);
    let prefix_chars = chars_of(prefix);
    if prefix_chars.len() > text_chars.len() {
        return false;
    }
    for i in 0..prefix_chars.len()
        invariant
            prefix_chars@ == prefix@,
            text_chars@ == text@,
            prefix@.len() <= text@.len(),
            forall|j: int| 0 <= j < i ==> prefix@[j] == text@[j],
    {
        if prefix_chars[i] != text_chars[i] {
            assert(prefix@[i as int] != text@.subrange(0, prefix@.len() as int)[i as int]);
            return false;
        }
    }
    assert(prefix@ =~= text@.subrange(0, prefix@.len() as int));
    true
}

/// Whether `part` occurs in `text` at this place.
pub open spec fn occurs_at(text: Seq<char>, part: Seq<char>, place: int) -> bool {
    &&& 0 <= place
    &&& place + part.len() <= text.len()
    &&& text.subrange(place, place + part.len()) == part
}

/// Whether `part` occurs in `text`.
pub open spec fn occurs(text: Seq<char>, part: Seq<char>) -> bool {
    exists|place: int| #[trigger] occurs_at(text, part, place)
}

/// Whether `part` occurs in `text`.
pub(crate) fn contains_text(text: &str, part: &str) -> (contains: bool)
    ensures
        contains == occurs(text@, part@),
{
    let text_chars = chars_of(text);
    let part_chars = chars_of(part);
    if part_chars.len() > text_chars.len() {
        return false;
    }
    let count: usize = text_chars.len();
    let last: usize = count - part_chars.len();
    let mut place: usize = 0;
    while place <= last
        invariant
            text_chars@ == text@,
            part_chars@ == part@,
            count == text@.len(),
            last + part@.len() == count,
            place <= last + 1,
            forall|other: int| 0 <= other < place ==> !#[trigger] occurs_at(text@, part@, other),
        decreases last + 1 - place,
    {
        let mut same: usize = 0;
        while same < part_chars.len() && text_chars[place + same] == part_chars[same]
            invariant
                text_chars@ == text@,
                part_chars@ == part@,
                count == text@.len(),
                place + part@.len() <= count,
                same <= part@.len(),
                forall|i: int| 0 <= i < same ==> text@[place + i] == part@[i],
            decreases part@.len() - same,
        {
            same += 1;
        }
        if same == part_chars.len() {
            assert(text@.subrange(place as int, place + part@.len()) =~= part@);
            assert(occurs_at(text@, part@, place as int));
            return true;
        }
        assert(!occurs_at(text@, part@, place as int)) by {
            assert(text@.subrange(place as int, place + part@.len())[same as int]
                != part@[same as int]);
        }
        place += 1;
    }
    false
}

/// The decimal digit that stands for `value`.
pub open spec fn digit(value: int) -> char
    recommends
        0 <= value < 10,
{
    (48 + value) as char
}

/// The decimal notation of `value`, without leading zeros.
pub open spec fn decimal(value: nat) -> Seq<char>
    decreases value,
{
    if value < 10 {
        seq![digit(value as int)]
    } else {
        decimal(value / 10).push(digit((value % 10) as int))
    }
}

/// The decimal notation of `value`, filled up with zeros on the left until it
/// has at least `width` characters.
pub open spec fn zero_padded(value: nat, width: nat) -> Seq<char> {
    let digits = decimal(value);
    if digits.len() < width {
        Seq::new((width - digits.len()) as nat, |i: int| '0') + digits
    } else {
        digits
    }
}

/// The digit character of `value`.
fn digit_char(value: u8) -> (ch: char)
    requires
        value < 10,
    ensures
        ch == digit(value as int),
{
    (48 + value) as char
}

/// The decimal notation of `value`, least significant digit last.
pub(crate) fn decimal_chars(value: u64) -> (chars: Vec<char>)
    ensures
        chars@ == decimal(value as nat),
    decreases value,
{
    if value < 10 {
        let mut chars: Vec<char> = Vec::new();
        chars.push(digit_char(value as u8));
        chars
    } else {
        let mut chars = decimal_chars(value / 10);
        chars.push(digit_char((value % 10) as u8));
        chars
    }
}

/// Appends the decimal notation of `value`, padded with zeros to `width`.
pub(crate) fn push_zero_padded(string: &mut String, value: u64, width: usize)
    ensures
        final(string)@ == old(string)@ + zero_padded(value as nat, width as nat),
{
    let digits = decimal_chars(value);
    let mut length: usize = digits.len();
    let ghost start = string@;
    while length < width
        invariant
            digits@.len() <= length,
            length <= width || length == digits@.len(),
            start == old(string)@,
            string@ == start + Seq::new((length - digits@.len()) as nat, |i: int| '0'),
        decreases width - length,
    {
        string.push('0');
        length += 1;
        assert(string@ =~= start + Seq::new((length - digits@.len()) as nat, |i: int| '0'));
    }
    let ghost padded = string@;
    for i in 0..digits.len()
        invariant
            string@ == padded + digits@.take(i as int),
    {
        string.push(digits[i]);
        assert(digits@.take(i + 1) =~= digits@.take(i as int).push(digits@[i as int]));
    }
    assert(digits@.take(digits@.len() as int) =~= digits@);
    assert(string@ =~= start + zero_padded(value as nat, width as nat));
}

/// Appends the decimal notation of `value`.
pub(crate) fn push_decimal(string: &mut String, value: u64)
    ensures
        final(string)@ == old(string)@ + decimal(value as nat),
{
    push_zero_padded(string, value, 0);
}

/// The texts of strings are those of the strings, each in its place.
pub proof fn law_texts_keep_their_places(strings: Seq<String>, place: int)
    requires
        0 <= place < strings.len(),
    ensures
        texts(strings).len() == strings.len(),
        texts(strings)[place] == strings[place]@,
{
}

/// The digits are the characters from `0` to `9`, one for each value.
pub proof fn law_digits_follow_each_other(value: int)
    requires
        0 <= value < 10,
    ensures
        '0' <= digit(value) <= '9',
        digit(value) as int - '0' as int == value,
        digit(0) == '0',
        digit(9) == '9',
{
}

/// A decimal notation is that of a tenth with the last digit behind it. It has
/// no zero in front, unless it is that of zero.
pub proof fn law_decimal_has_no_zero_in_front(value: nat)
    ensures
        decimal(value).len() > 0,
        decimal(value)[0] == '0' <==> value == 0,
        decimal(value).last() as int == '0' as int + value % 10,
        value < 10 ==> decimal(value).len() == 1,
        value >= 10 ==> decimal(value).drop_last() == decimal(value / 10),
    decreases value,
{
    if value >= 10 {
        law_decimal_has_no_zero_in_front(value / 10);
        assert(decimal(value).drop_last() =~= decimal(value / 10));
        assert(decimal(value)[0] == decimal(value / 10)[0]);
    }
}

/// Padding puts zeros in front and nothing else, as many as are missing from the
/// width, and none where none are.
pub proof fn law_padding_is_zeros_in_front(value: nat, width: nat)
    ensures
        ({
            let padded = zero_padded(value, width);
            let digits = decimal(value);
            &&& padded.len() >= width
            &&& padded.len() >= digits.len()
            &&& padded.len() == width || padded.len() == digits.len()
            &&& padded.skip(padded.len() - digits.len()) == digits
            &&& forall|i: int| 0 <= i < padded.len() - digits.len() ==> #[trigger] padded[i] == '0'
        }),
{
    let padded = zero_padded(value, width);
    let digits = decimal(value);
    assert(padded.skip(padded.len() - digits.len()) =~= digits);
}

/// A text occurs in another exactly where the other is something, that text, and
/// something behind it.
pub proof fn law_part_occurs_between(before: Seq<char>, part: Seq<char>, behind: Seq<char>)
    ensures
        occurs(before + part + behind, part),
{
    let whole = before + part + behind;
    assert(whole.subrange(before.len() as int, (before.len() + part.len()) as int) =~= part);
    assert(occurs_at(whole, part, before.len() as int));
}

/// Where a text occurs in another, every character of it stands there in a row.
pub proof fn law_occurrence_is_in_a_row(content: Seq<char>, part: Seq<char>)
    requires
        occurs(content, part),
    ensures
        exists|place: int|
            0 <= place && place + part.len() <= content.len() && #[trigger] content.subrange(
                place,
                place + part.len(),
            ) == part,
{
    let place = choose|place: int| occurs_at(content, part, place);
    assert(content.subrange(place, place + part.len()) == part);
}

} // verus!
