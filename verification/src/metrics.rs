//! Measurements as lines of JSON.

use crate::ranking;
use crate::text;
use serde_json::{Map as JsonObject, Value};
use vstd::prelude::*;

verus! {

/// Whether JSON holds the text as it stands: nothing in it is escaped.
pub open spec fn needs_no_escape(text: Seq<char>) -> bool {
    forall|i: int|
        0 <= i < text.len() ==> {
            &&& #[trigger] text[i] >= ' '
            &&& text[i] != '"'
            &&& text[i] != '\\'
        }
}

/// The line that states a measurement whose name needs no escape.
pub open spec fn plain_line(metric: Seq<char>, value: nat) -> Seq<char> {
    "{\"metric\":\""@ + metric + "\",\"value\":"@ + text::decimal(value) + "}"@
}

/// A digit to the base of sixteen.
pub open spec fn hex_digit(value: int) -> char {
    if value < 10 {
        text::digit(value)
    } else {
        (value - 10 + 'a' as int) as char
    }
}

/// A character as JSON writes it inside a string.
pub open spec fn escaped(ch: char) -> Seq<char> {
    if ch == '"' || ch == '\\' {
        seq!['\\', ch]
    } else if ch == '\u{8}' {
        seq!['\\', 'b']
    } else if ch == '\t' {
        seq!['\\', 't']
    } else if ch == '\n' {
        seq!['\\', 'n']
    } else if ch == '\u{c}' {
        seq!['\\', 'f']
    } else if ch == '\r' {
        seq!['\\', 'r']
    } else if ' ' > ch {
        seq!['\\', 'u', '0', '0', hex_digit(ch as int / 16), hex_digit(ch as int % 16)]
    } else {
        seq![ch]
    }
}

/// A text as JSON writes it inside a string.
pub open spec fn escaped_text(content: Seq<char>) -> Seq<char>
    decreases content.len(),
{
    if content.len() == 0 {
        Seq::empty()
    } else {
        escaped_text(content.drop_last()) + escaped(content.last())
    }
}

/// A text as a string of JSON.
pub open spec fn json_string(content: Seq<char>) -> Seq<char> {
    seq!['"'] + escaped_text(content) + seq!['"']
}

/// The JSON object of a text and a number, by these names and in this order.
pub open spec fn json_object(
    text_name: Seq<char>,
    content: Seq<char>,
    number_name: Seq<char>,
    number: nat,
) -> Seq<char> {
    seq!['{'] + json_string(text_name) + seq![':'] + json_string(content) + seq![',']
        + json_string(number_name) + seq![':'] + text::decimal(number) + seq!['}']
}

/// The line of JSON for a measurement.
pub open spec fn json_line(metric: Seq<char>, value: nat) -> Seq<char> {
    json_object("metric"@, metric, "value"@, value)
}

/// `serde_json::Value::to_string` of an object with two members. Members are
/// written in the order of their names.
#[verifier::external_body]
fn object_text(text_name: &str, content: &str, number_name: &str, number: u64) -> (line: String)
    requires
        ranking::text_before(text_name@, number_name@),
    ensures
        line@ == json_object(text_name@, content@, number_name@, number as nat),
{
    let mut object = JsonObject::new();
    object.insert(text_name.to_string(), Value::from(content));
    object.insert(number_name.to_string(), Value::from(number));
    Value::Object(object).to_string()
}

/// The line of JSON for a measurement.
pub fn metric_line(metric: &str, value: u64) -> (line: String)
    ensures
        line@ == json_line(metric@, value as nat),
{
    proof {
        reveal_strlit("metric");
        reveal_strlit("value");
        assert("metric"@.subrange(0, 0) =~= "value"@.subrange(0, 0));
        assert(ranking::differs_first_at("metric"@, "value"@, 0));
    }
    object_text("metric", metric, "value", value)
}

/// The line for a measurement whose name is put in as it stands.
pub fn plain_metric_line(metric: &str, value: u64) -> (line: String)
    ensures
        line@ == plain_line(metric@, value as nat),
{
    let mut line = text::copy_of("{\"metric\":\"");
    text::push_str(&mut line, metric);
    text::push_str(&mut line, "\",\"value\":");
    text::push_decimal(&mut line, value);
    text::push_str(&mut line, "}");
    line
}

/// Names made of letters, digits, underscores and slashes need no escape.
pub proof fn law_plain_names_need_no_escape(metric: Seq<char>)
    requires
        forall|i: int|
            0 <= i < metric.len() ==> {
                let ch = #[trigger] metric[i];
                ('a' <= ch <= 'z') || ('A' <= ch <= 'Z') || ('0' <= ch <= '9') || ch == '_' || ch
                    == '/'
            },
    ensures
        needs_no_escape(metric),
{
}

/// Where the name needs no escape, the line of JSON is the plain line.
pub proof fn law_plain_line_is_json(metric: Seq<char>, value: nat)
    requires
        needs_no_escape(metric),
    ensures
        json_line(metric, value) == plain_line(metric, value),
{
    reveal_strlit("metric");
    reveal_strlit("value");
    reveal_strlit("{\"metric\":\"");
    reveal_strlit("\",\"value\":");
    reveal_strlit("}");
    lemma_unescaped("metric"@);
    lemma_unescaped("value"@);
    lemma_unescaped(metric);
    assert(json_line(metric, value) =~= plain_line(metric, value));
}

proof fn lemma_unescaped(content: Seq<char>)
    requires
        needs_no_escape(content),
    ensures
        escaped_text(content) == content,
    decreases content.len(),
{
    if content.len() > 0 {
        let fewer = content.drop_last();
        assert forall|i: int| 0 <= i < fewer.len() implies {
            &&& #[trigger] fewer[i] >= ' '
            &&& fewer[i] != '"'
            &&& fewer[i] != '\\'
        } by {
            assert(fewer[i] == content[i]);
        }
        lemma_unescaped(fewer);
        assert(content[content.len() - 1] == content.last());
        assert(content =~= fewer.push(content.last()));
    }
}

/// The value of a count as a measurement.
pub fn usize_to_u64(value: usize) -> (number: u64)
    ensures
        number == value,
{
    value as u64
}

/// A character stands in a string as it is, unless it is a quote, a backslash or
/// a control character: then a backslash stands in front, and no control
/// character is left. No two characters are written the same.
pub proof fn law_escapes_start_with_a_backslash(ch: char, other: char)
    ensures
        ({
            let plain = ch >= ' ' && ch != '"' && ch != '\\';
            &&& plain ==> escaped(ch) == seq![ch]
            &&& !plain ==> escaped(ch).len() >= 2 && escaped(ch)[0] == '\\'
            &&& ch == '"' || ch == '\\' ==> escaped(ch) == seq!['\\', ch]
            &&& forall|i: int|
                0 <= i < escaped(ch).len() ==> #[trigger] escaped(ch)[i] >= ' '
            &&& escaped(ch) == escaped(other) ==> ch == other
        }),
{
    let left = escaped(ch);
    let right = escaped(other);
    if left == right {
        assert(left.len() == right.len());
        assert(left[0] == right[0]);
        if left.len() > 1 {
            assert(left[1] == right[1]);
        }
        if left.len() == 6 {
            assert(left[4] == right[4]);
            assert(left[5] == right[5]);
        }
    }
}

/// The control characters that have a letter of their own are written with it,
/// and every other one by its number, in four digits to the base of sixteen.
pub proof fn law_control_characters_are_numbered(ch: char)
    requires
        ' ' > ch,
    ensures
        ch == '\u{8}' ==> escaped(ch) == seq!['\\', 'b'],
        ch == '\t' ==> escaped(ch) == seq!['\\', 't'],
        ch == '\n' ==> escaped(ch) == seq!['\\', 'n'],
        ch == '\u{c}' ==> escaped(ch) == seq!['\\', 'f'],
        ch == '\r' ==> escaped(ch) == seq!['\\', 'r'],
        ch != '\u{8}' && ch != '\t' && ch != '\n' && ch != '\u{c}' && ch != '\r' ==> {
            &&& escaped(ch).len() == 6
            &&& escaped(ch).take(4) == seq!['\\', 'u', '0', '0']
            &&& escaped(ch)[4] == hex_digit(ch as int / 16)
            &&& escaped(ch)[5] == hex_digit(ch as int % 16)
        },
{
    if escaped(ch).len() == 6 {
        assert(escaped(ch).take(4) =~= seq!['\\', 'u', '0', '0']);
    }
}

/// Digits to the base of sixteen are those from `0` to `9`, and then the letters
/// from `a` to `f`.
pub proof fn law_letters_follow_digits(value: int)
    requires
        0 <= value < 16,
    ensures
        value < 10 ==> hex_digit(value) as int == '0' as int + value,
        value >= 10 ==> hex_digit(value) as int == 'a' as int + value - 10,
{
}

/// A text is written one character after the other.
pub proof fn law_text_is_written_in_order(content: Seq<char>, ch: char)
    ensures
        escaped_text(content.push(ch)) == escaped_text(content) + escaped(ch),
        escaped_text(Seq::empty()) == Seq::<char>::empty(),
        json_string(content).len() == escaped_text(content).len() + 2,
        json_string(content)[0] == '"',
        json_string(content).last() == '"',
        json_string(content).subrange(1, json_string(content).len() - 1) == escaped_text(content),
{
    assert(content.push(ch).drop_last() =~= content);
    assert(json_string(content).subrange(1, json_string(content).len() - 1) =~= escaped_text(
        content,
    ));
}

/// Two texts that are written the same are the same.
pub proof fn law_writing_loses_nothing(left: Seq<char>, right: Seq<char>)
    requires
        escaped_text(left) == escaped_text(right),
    ensures
        left == right,
    decreases left.len(),
{
    if left.len() == 0 || right.len() == 0 {
        if left.len() > 0 {
            lemma_first_is_written_first(left);
            law_escapes_start_with_a_backslash(left[0], left[0]);
        }
        if right.len() > 0 {
            lemma_first_is_written_first(right);
            law_escapes_start_with_a_backslash(right[0], right[0]);
        }
        assert(left =~= right);
    } else {
        lemma_first_is_written_first(left);
        lemma_first_is_written_first(right);
        let ours = escaped(left[0]);
        let theirs = escaped(right[0]);
        let whole = escaped_text(left);
        assert(whole[0] == ours[0] && whole[0] == theirs[0]);
        if ours.len() > 1 && theirs.len() > 1 {
            assert(whole[1] == ours[1] && whole[1] == theirs[1]);
        }
        if ours.len() == 6 && theirs.len() == 6 {
            assert(whole[4] == ours[4] && whole[4] == theirs[4]);
            assert(whole[5] == ours[5] && whole[5] == theirs[5]);
        }
        assert(ours.len() == theirs.len());
        assert(ours =~= theirs) by {
            assert forall|i: int| 0 <= i < ours.len() implies ours[i] == theirs[i] by {
                assert(whole[i] == ours[i]);
                assert(whole[i] == theirs[i]);
            }
        }
        law_escapes_start_with_a_backslash(left[0], right[0]);
        let count = ours.len() as int;
        assert(escaped_text(left.skip(1)) =~= whole.skip(count));
        assert(escaped_text(right.skip(1)) =~= whole.skip(count));
        law_writing_loses_nothing(left.skip(1), right.skip(1));
        assert(left =~= seq![left[0]] + left.skip(1));
        assert(right =~= seq![right[0]] + right.skip(1));
    }
}

proof fn lemma_first_is_written_first(content: Seq<char>)
    requires
        content.len() > 0,
    ensures
        escaped_text(content) == escaped(content[0]) + escaped_text(content.skip(1)),
    decreases content.len(),
{
    let rest = content.skip(1);
    if content.len() == 1 {
        assert(content.drop_last() =~= Seq::empty());
        assert(rest =~= Seq::empty());
        assert(escaped_text(content.drop_last()) =~= Seq::empty());
        assert(escaped_text(content) =~= escaped(content[0]) + escaped_text(rest));
    } else {
        let fewer = content.drop_last();
        lemma_first_is_written_first(fewer);
        assert(fewer.skip(1) =~= rest.drop_last());
        assert(escaped_text(content) =~= escaped(content[0]) + escaped_text(rest));
    }
}

/// An object holds its two members in order, each as its name, a colon and its
/// value, with a comma between them.
pub proof fn law_object_holds_both_members(
    text_name: Seq<char>,
    content: Seq<char>,
    number_name: Seq<char>,
    number: nat,
)
    ensures
        ({
            let whole = json_object(text_name, content, number_name, number);
            let first = json_string(text_name) + seq![':'] + json_string(content);
            let second = json_string(number_name) + seq![':'] + text::decimal(number);
            &&& whole == seq!['{'] + first + seq![','] + second + seq!['}']
            &&& whole.len() == first.len() + second.len() + 3
        }),
{
    let whole = json_object(text_name, content, number_name, number);
    let first = json_string(text_name) + seq![':'] + json_string(content);
    let second = json_string(number_name) + seq![':'] + text::decimal(number);
    assert(whole =~= seq!['{'] + first + seq![','] + second + seq!['}']);
}

/// A line holds the name and the value as they stand, each in its place.
pub proof fn law_line_holds_name_and_value(metric: Seq<char>, value: nat)
    ensures
        ({
            let line = plain_line(metric, value);
            let end = 11 + metric.len() as int;
            &&& line.len() == metric.len() + text::decimal(value).len() + 22
            &&& line.subrange(11, end) == metric
            &&& line.subrange(end + 10, line.len() - 1) == text::decimal(value)
            &&& line[0] == '{'
            &&& line.last() == '}'
        }),
{
    reveal_strlit("{\"metric\":\"");
    reveal_strlit("\",\"value\":");
    reveal_strlit("}");
    let line = plain_line(metric, value);
    let end = 11 + metric.len() as int;
    assert(line.subrange(11, end) =~= metric);
    assert(line.subrange(end + 10, line.len() - 1) =~= text::decimal(value));
}

} // verus!
