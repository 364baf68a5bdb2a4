//! Lexical path algebra.
//!
//! A path is a text in which `/` separates components. Repeated separators,
//! trailing separators and `.` components carry no meaning, except that a
//! leading `/` is the root component and a leading `.` is a component of its
//! own. `..` is an ordinary component: nothing is resolved against a file
//! system.

use crate::text;
use crate::text::{chars_of, push_str, string_from};
use vstd::prelude::*;

verus! {

/// The position of the first separator at or after `from`, or the length of
/// the text when there is none.
pub open spec fn next_separator(text: Seq<char>, from: int) -> int
    decreases text.len() - from,
{
    if from >= text.len() {
        text.len() as int
    } else if text[from] == '/' {
        from
    } else {
        next_separator(text, from + 1)
    }
}

/// Whether the text between two separators counts as a component.
pub open spec fn is_component(piece: Seq<char>) -> bool {
    piece.len() > 0 && piece != seq!['.']
}

/// Where the components of `text` lie, as pairs of start and end, when the
/// scan begins at `from` and everything before `from` is left out.
pub open spec fn body_spans(text: Seq<char>, from: int) -> Seq<(int, int)>
    decreases text.len() + 1 - from,
{
    proof {
        lemma_next_separator(text, from);
    }
    if from >= text.len() {
        Seq::empty()
    } else {
        let end = next_separator(text, from);
        let rest = body_spans(text, end + 1);
        if is_component(text.subrange(from, end)) {
            seq![(from, end)] + rest
        } else {
            rest
        }
    }
}

/// Whether the path starts with the root `/` or with a `.` component.
pub open spec fn has_leading_marker(text: Seq<char>) -> bool {
    &&& text.len() > 0
    &&& text[0] == '/' || (text[0] == '.' && (text.len() == 1 || text[1] == '/'))
}

/// Where each component of the path lies.
pub open spec fn spans(text: Seq<char>) -> Seq<(int, int)> {
    if has_leading_marker(text) {
        seq![(0int, 1int)] + body_spans(text, 1)
    } else {
        body_spans(text, 0)
    }
}

/// The texts that `spans` mark in `text`.
pub open spec fn pieces(text: Seq<char>, spans: Seq<(int, int)>) -> Seq<Seq<char>> {
    Seq::new(spans.len(), |i: int| text.subrange(spans[i].0, spans[i].1))
}

/// The components of the path.
pub open spec fn components(text: Seq<char>) -> Seq<Seq<char>> {
    pieces(text, spans(text))
}

/// Whether the path starts at the root.
pub open spec fn is_absolute(text: Seq<char>) -> bool {
    text.len() > 0 && text[0] == '/'
}

/// What is left of `path` below `base`: `None` unless the components of `base`
/// are the first components of `path`. Meaningless characters at either end of
/// the rest are left out.
pub open spec fn stripped(path: Seq<char>, base: Seq<char>) -> Option<Seq<char>> {
    let all = spans(path);
    let skipped = components(base).len() as int;
    if !components(base).is_prefix_of(components(path)) {
        None
    } else if skipped == all.len() {
        Some(Seq::empty())
    } else if skipped == 0 {
        Some(path.subrange(0, all.last().1))
    } else {
        Some(path.subrange(all[skipped].0, all.last().1))
    }
}

/// The path without its last component; `None` for an empty path and for the
/// root.
pub open spec fn parent(text: Seq<char>) -> Option<Seq<char>> {
    let all = spans(text);
    if all.len() == 0 || (all.len() == 1 && is_absolute(text)) {
        None
    } else if all.len() == 1 {
        Some(Seq::empty())
    } else {
        Some(text.subrange(0, all[all.len() - 2].1))
    }
}

/// The last component, unless it is the root, a leading `.` or `..`.
pub open spec fn file_name(text: Seq<char>) -> Option<Seq<char>> {
    let all = components(text);
    if all.len() == 0 || all.last() == seq!['/'] || all.last() == seq!['.'] || all.last() == seq![
        '.',
        '.',
    ] {
        None
    } else {
        Some(all.last())
    }
}

/// `path` taken relative to `base`: an absolute `path` replaces `base`, and a
/// separator is put between the two where `base` is not empty and does not end
/// in one.
pub open spec fn joined(base: Seq<char>, path: Seq<char>) -> Seq<char> {
    if is_absolute(path) || base.len() == 0 {
        path
    } else if base.last() == '/' {
        base + path
    } else {
        base.push('/') + path
    }
}

/// The parent of the path, the parent of that, and so on.
pub open spec fn ancestors(text: Seq<char>) -> Seq<Seq<char>>
    decreases text.len(),
{
    proof {
        lemma_parent_is_shorter(text);
    }
    match parent(text) {
        None => Seq::empty(),
        Some(above) => seq![above] + ancestors(above),
    }
}

/// The next separator lies ahead, and no separator lies before it.
pub proof fn lemma_next_separator(text: Seq<char>, from: int)
    ensures
        from <= text.len() ==> from <= next_separator(text, from) <= text.len(),
        from >= text.len() ==> next_separator(text, from) == text.len(),
        0 <= from ==> forall|i: int|
            from <= i < next_separator(text, from) ==> #[trigger] text[i] != '/',
        0 <= from && next_separator(text, from) < text.len() ==> text[next_separator(text, from)]
            == '/',
    decreases text.len() - from,
{
    if from < text.len() && text[from] != '/' {
        lemma_next_separator(text, from + 1);
    }
}

/// Spans lie inside the text, in ascending order and apart from each other.
pub open spec fn well_ordered(spans: Seq<(int, int)>, from: int, end: int) -> bool {
    &&& forall|i: int|
        #![trigger spans[i]]
        0 <= i < spans.len() ==> from <= spans[i].0 < spans[i].1 <= end
    &&& forall|i: int, j: int|
        #![trigger spans[i], spans[j]]
        0 <= i < j < spans.len() ==> spans[i].1 <= spans[j].0
}

proof fn lemma_body_spans(text: Seq<char>, from: int)
    requires
        0 <= from,
    ensures
        well_ordered(body_spans(text, from), from, text.len() as int),
    decreases text.len() + 1 - from,
{
    lemma_next_separator(text, from);
    if from < text.len() {
        let end = next_separator(text, from);
        lemma_body_spans(text, end + 1);
        let rest = body_spans(text, end + 1);
        let all = body_spans(text, from);
        if is_component(text.subrange(from, end)) {
            assert forall|i: int| 0 <= i < all.len() implies from <= (#[trigger] all[i]).0
                < all[i].1 <= text.len() by {
                if i > 0 {
                    assert(all[i] == rest[i - 1]);
                }
            }
            assert forall|i: int, j: int|
                #![trigger all[i], all[j]]
                0 <= i < j < all.len() implies all[i].1 <= all[j].0 by {
                assert(all[j] == rest[j - 1]);
                if i > 0 {
                    assert(all[i] == rest[i - 1]);
                }
            }
        }
    }
}

pub(crate) proof fn lemma_spans(text: Seq<char>)
    ensures
        well_ordered(spans(text), 0, text.len() as int),
{
    if has_leading_marker(text) {
        lemma_body_spans(text, 1);
        let rest = body_spans(text, 1);
        let all = spans(text);
        assert forall|i: int| 0 <= i < all.len() implies 0 <= (#[trigger] all[i]).0 < all[i].1
            <= text.len() by {
            if i > 0 {
                assert(all[i] == rest[i - 1]);
            }
        }
        assert forall|i: int, j: int|
            #![trigger all[i], all[j]]
            0 <= i < j < all.len() implies all[i].1 <= all[j].0 by {
            assert(all[j] == rest[j - 1]);
            if i > 0 {
                assert(all[i] == rest[i - 1]);
            }
        }
    } else {
        lemma_body_spans(text, 0);
    }
}

/// A parent is a shorter text than the path itself.
pub proof fn lemma_parent_is_shorter(text: Seq<char>)
    ensures
        parent(text) is Some ==> parent(text)->0.len() < text.len(),
{
    lemma_spans(text);
    let all = spans(text);
    if all.len() == 1 {
        assert(all[0].0 < all[0].1);
    } else if all.len() > 1 {
        assert(all[all.len() - 2].1 <= all[all.len() - 1].0);
        assert(all[all.len() - 1].0 < all[all.len() - 1].1);
    }
}

/// What is left below a base is no longer than the path.
pub(crate) proof fn lemma_stripped_is_no_longer(path: Seq<char>, base: Seq<char>)
    requires
        stripped(path, base) is Some,
    ensures
        stripped(path, base)->0.len() <= path.len(),
{
    lemma_spans(path);
    let all = spans(path);
    let skipped = components(base).len() as int;
    assert(components(base).len() <= components(path).len());
    if skipped < all.len() {
        assert(all[skipped].0 <= all.last().1 <= path.len());
    }
}

/// The spans of `text` as machine integers.
pub open spec fn as_spans(found: Seq<(usize, usize)>) -> Seq<(int, int)> {
    Seq::new(found.len(), |i: int| (found[i].0 as int, found[i].1 as int))
}

fn component_spans(text: &Vec<char>) -> (found: Vec<(usize, usize)>)
    ensures
        as_spans(found@) == spans(text@),
{
    let mut found: Vec<(usize, usize)> = Vec::new();
    let length: usize = text.len();
    let mut from: usize = 0;
    if length > 0 && (text[0] == '/' || (text[0] == '.' && (length == 1 || text[1] == '/'))) {
        found.push((0, 1));
        from = 1;
        assert(as_spans(found@) =~= seq![(0int, 1int)]);
    }
    assert(as_spans(found@) + body_spans(text@, from as int) =~= spans(text@));
    while from < length
        invariant
            length == text@.len(),
            as_spans(found@) + body_spans(text@, from as int) == spans(text@),
        decreases length - from,
    {
        let mut end: usize = from;
        while end < length && text[end] != '/'
            invariant
                length == text@.len(),
                from <= end <= length,
                next_separator(text@, from as int) == next_separator(text@, end as int),
            decreases length - end,
        {
            end += 1;
        }
        let ghost piece = text@.subrange(from as int, end as int);
        let ghost before = as_spans(found@);
        let ghost rest = body_spans(text@, end + 1);
        if end > from && !(end == from + 1 && text[from] == '.') {
            proof {
                if piece == seq!['.'] {
                    assert(piece.len() == 1);
                    assert(piece[0] == text@[from as int]);
                }
            }
            found.push((from, end));
            assert(as_spans(found@) =~= before.push((from as int, end as int)));
            assert(before + (seq![(from as int, end as int)] + rest) =~= as_spans(found@) + rest);
        } else {
            proof {
                if end > from {
                    assert(piece =~= seq!['.']);
                }
            }
        }
        if end == length {
            assert(body_spans(text@, end + 1) =~= Seq::empty());
            assert(as_spans(found@) + rest =~= as_spans(found@));
            return found;
        }
        from = end + 1;
    }
    assert(body_spans(text@, from as int) =~= Seq::empty());
    assert(as_spans(found@) + Seq::<(int, int)>::empty() =~= as_spans(found@));
    found
}

/// Whether `left[left_span]` and `right[right_span]` hold the same characters.
fn same_span(
    left: &Vec<char>,
    left_span: (usize, usize),
    right: &Vec<char>,
    right_span: (usize, usize),
) -> (same: bool)
    requires
        left_span.0 <= left_span.1 <= left@.len(),
        right_span.0 <= right_span.1 <= right@.len(),
    ensures
        same == (left@.subrange(left_span.0 as int, left_span.1 as int) == right@.subrange(
            right_span.0 as int,
            right_span.1 as int,
        )),
{
    let length: usize = left_span.1 - left_span.0;
    let ghost left_piece = left@.subrange(left_span.0 as int, left_span.1 as int);
    let ghost right_piece = right@.subrange(right_span.0 as int, right_span.1 as int);
    if length != right_span.1 - right_span.0 {
        assert(left_piece.len() != right_piece.len());
        return false;
    }
    for i in 0..length
        invariant
            left_span.0 + length == left_span.1 <= left@.len(),
            right_span.0 + length == right_span.1 <= right@.len(),
            left_piece == left@.subrange(left_span.0 as int, left_span.1 as int),
            right_piece == right@.subrange(right_span.0 as int, right_span.1 as int),
            forall|j: int| 0 <= j < i ==> left_piece[j] == right_piece[j],
    {
        if left[left_span.0 + i] != right[right_span.0 + i] {
            assert(left_piece[i as int] != right_piece[i as int]);
            return false;
        }
    }
    assert(left_piece =~= right_piece);
    true
}

/// Whether the components of `base` are the first components of `path`.
pub open spec fn lies_under(path: Seq<char>, base: Seq<char>) -> bool {
    components(base).is_prefix_of(components(path))
}

fn span_prefix(
    path: &Vec<char>,
    path_spans: &Vec<(usize, usize)>,
    base: &Vec<char>,
    base_spans: &Vec<(usize, usize)>,
) -> (under: bool)
    requires
        as_spans(path_spans@) == spans(path@),
        as_spans(base_spans@) == spans(base@),
    ensures
        under == lies_under(path@, base@),
{
    proof {
        lemma_spans(path@);
        lemma_spans(base@);
    }
    if base_spans.len() > path_spans.len() {
        assert(components(base@).len() > components(path@).len());
        return false;
    }
    for i in 0..base_spans.len()
        invariant
            as_spans(path_spans@) == spans(path@),
            as_spans(base_spans@) == spans(base@),
            well_ordered(spans(path@), 0, path@.len() as int),
            well_ordered(spans(base@), 0, base@.len() as int),
            base_spans@.len() <= path_spans@.len(),
            forall|j: int| 0 <= j < i ==> components(base@)[j] == components(path@)[j],
    {
        assert(spans(path@)[i as int] == (path_spans@[i as int].0 as int, path_spans@[i as int].1 as int));
        assert(spans(base@)[i as int] == (base_spans@[i as int].0 as int, base_spans@[i as int].1 as int));
        if !same_span(base, base_spans[i], path, path_spans[i]) {
            assert(components(base@)[i as int] != components(path@)[i as int]);
            assert(components(path@).subrange(0, components(base@).len() as int)[i as int]
                == components(path@)[i as int]);
            return false;
        }
    }
    assert(components(base@) =~= components(path@).subrange(0, components(base@).len() as int));
    true
}

/// The components of the path.
pub(crate) fn components_of(path: &str) -> (found: Vec<String>)
    ensures
        text::texts(found@) == components(path@),
{
    let chars = chars_of(path);
    let marked = component_spans(&chars);
    let mut found: Vec<String> = Vec::new();
    proof {
        lemma_spans(path@);
        assert(as_spans(marked@).len() == marked@.len());
    }
    for i in 0..marked.len()
        invariant
            chars@ == path@,
            as_spans(marked@) == spans(path@),
            well_ordered(spans(path@), 0, path@.len() as int),
            found@.len() == i,
            marked@.len() == components(path@).len(),
            forall|j: int| 0 <= j < i ==> (#[trigger] found@[j])@ == components(path@)[j],
    {
        assert(spans(path@)[i as int] == (marked@[i as int].0 as int, marked@[i as int].1 as int));
        let (start, end) = marked[i];
        found.push(string_from(&chars, start, end));
    }
    assert(text::texts(found@) =~= components(path@));
    found
}

/// The number of components of the path.
pub(crate) fn depth_of(text: &str) -> (depth: usize)
    ensures
        depth == components(text@).len(),
{
    let chars = chars_of(text);
    let found = component_spans(&chars);
    assert(as_spans(found@).len() == found@.len());
    found.len()
}

/// What is left of `path` below `base`.
pub fn strip_prefix(path: &str, base: &str) -> (rest: Option<String>)
    ensures
        match rest {
            Some(rest) => stripped(path@, base@) == Some(rest@),
            None => stripped(path@, base@) is None,
        },
{
    let path_chars = chars_of(path);
    let base_chars = chars_of(base);
    let path_spans = component_spans(&path_chars);
    let base_spans = component_spans(&base_chars);
    assert(as_spans(path_spans@).len() == path_spans@.len());
    assert(as_spans(base_spans@).len() == base_spans@.len());
    if !span_prefix(&path_chars, &path_spans, &base_chars, &base_spans) {
        return None;
    }
    let skipped: usize = base_spans.len();
    let count: usize = path_spans.len();
    if skipped == count {
        return Some(String::new());
    }
    proof {
        lemma_spans(path@);
        assert(spans(path@)[count - 1] == (
            path_spans@[count - 1].0 as int,
            path_spans@[count - 1].1 as int,
        ));
        assert(spans(path@)[skipped as int] == (
            path_spans@[skipped as int].0 as int,
            path_spans@[skipped as int].1 as int,
        ));
    }
    let end: usize = path_spans[count - 1].1;
    let start: usize = if skipped == 0 {
        0
    } else {
        path_spans[skipped].0
    };
    Some(string_from(&path_chars, start, end))
}

/// The path without its last component.
pub fn parent_of(text: &str) -> (above: Option<String>)
    ensures
        match above {
            Some(above) => parent(text@) == Some(above@),
            None => parent(text@) is None,
        },
{
    let chars = chars_of(text);
    let found = component_spans(&chars);
    assert(as_spans(found@).len() == found@.len());
    let count: usize = found.len();
    if count == 0 {
        return None;
    }
    proof {
        lemma_spans(text@);
        assert(spans(text@)[0].0 < spans(text@)[0].1);
    }
    if count == 1 {
        if chars[0] == '/' {
            return None;
        }
        return Some(String::new());
    }
    assert(spans(text@)[count - 2] == (
        found@[count - 2].0 as int,
        found@[count - 2].1 as int,
    ));
    Some(string_from(&chars, 0, found[count - 2].1))
}

/// The final component of the path, where it names an entry.
pub fn file_name_of(text: &str) -> (name: Option<String>)
    ensures
        match name {
            Some(name) => file_name(text@) == Some(name@),
            None => file_name(text@) is None,
        },
{
    let chars = chars_of(text);
    let found = component_spans(&chars);
    assert(as_spans(found@).len() == found@.len());
    let count: usize = found.len();
    if count == 0 {
        return None;
    }
    let (start, end) = found[count - 1];
    let ghost last = components(text@).last();
    proof {
        lemma_spans(text@);
        assert(spans(text@)[count - 1] == (start as int, end as int));
        assert(last == text@.subrange(start as int, end as int));
    }
    let length: usize = end - start;
    if length == 1 && (chars[start] == '/' || chars[start] == '.') {
        assert(last =~= seq![text@[start as int]]);
        return None;
    }
    if length == 2 && chars[start] == '.' && chars[start + 1] == '.' {
        assert(last =~= seq!['.', '.']);
        return None;
    }
    proof {
        if last == seq!['/'] || last == seq!['.'] {
            assert(last.len() == 1);
            assert(last[0] == text@[start as int]);
        }
        if last == seq!['.', '.'] {
            assert(last.len() == 2);
            assert(last[0] == text@[start as int]);
            assert(last[1] == text@[start + 1]);
        }
    }
    Some(string_from(&chars, start, end))
}

/// `path` taken relative to `base`.
pub fn join(base: &str, path: &str) -> (whole: String)
    ensures
        whole@ == joined(base@, path@),
{
    let base_chars = chars_of(base);
    let path_chars = chars_of(path);
    let mut whole = String::new();
    if (path_chars.len() > 0 && path_chars[0] == '/') || base_chars.len() == 0 {
        push_str(&mut whole, path);
        assert(whole@ =~= path@);
        return whole;
    }
    push_str(&mut whole, base);
    if base_chars[base_chars.len() - 1] != '/' {
        whole.push('/');
    }
    push_str(&mut whole, path);
    assert(whole@ =~= joined(base@, path@));
    whole
}

/// All lexical ancestors of the path, the nearest first.
pub fn ancestors_of(path: &str) -> (above: Vec<String>)
    ensures
        text::texts(above@) == ancestors(path@),
    decreases path@.len(),
{
    proof {
        lemma_parent_is_shorter(path@);
    }
    match parent_of(path) {
        None => {
            let above: Vec<String> = Vec::new();
            assert(text::texts(above@) =~= Seq::empty());
            above
        },
        Some(directory) => {
            let mut above = ancestors_of(&directory);
            let ghost rest = above@;
            above.insert(0, directory);
            assert(text::texts(above@) =~= seq![directory@] + text::texts(rest));
            above
        },
    }
}

/// `spans`, moved `by` places to the right.
spec fn shifted(spans: Seq<(int, int)>, by: int) -> Seq<(int, int)> {
    Seq::new(spans.len(), |i: int| (spans[i].0 + by, spans[i].1 + by))
}

proof fn lemma_separator_shift(head: Seq<char>, tail: Seq<char>, from: int)
    requires
        0 <= from,
    ensures
        next_separator(head + tail, head.len() + from) == head.len() + next_separator(tail, from),
    decreases tail.len() - from,
{
    if from < tail.len() {
        assert((head + tail)[head.len() + from] == tail[from]);
        if tail[from] != '/' {
            lemma_separator_shift(head, tail, from + 1);
        }
    }
}

/// A scan that starts past `head` sees nothing of it.
proof fn lemma_body_shift(head: Seq<char>, tail: Seq<char>, from: int)
    requires
        0 <= from,
    ensures
        body_spans(head + tail, head.len() + from) == shifted(
            body_spans(tail, from),
            head.len() as int,
        ),
    decreases tail.len() + 1 - from,
{
    let whole = head + tail;
    let by = head.len() as int;
    lemma_separator_shift(head, tail, from);
    lemma_next_separator(tail, from);
    if from < tail.len() {
        let end = next_separator(tail, from);
        lemma_body_shift(head, tail, end + 1);
        assert(whole.subrange(by + from, by + end) =~= tail.subrange(from, end));
        assert(body_spans(whole, by + from) =~= shifted(body_spans(tail, from), by));
    } else {
        assert(body_spans(whole, by + from) =~= Seq::empty());
        assert(shifted(body_spans(tail, from), by) =~= Seq::empty());
    }
}

proof fn lemma_separator_split(head: Seq<char>, tail: Seq<char>, from: int)
    requires
        0 <= from <= head.len(),
    ensures
        next_separator(head.push('/') + tail, from) == next_separator(head, from),
    decreases head.len() - from,
{
    let whole = head.push('/') + tail;
    if from < head.len() {
        assert(whole[from] == head[from]);
        if head[from] != '/' {
            lemma_separator_split(head, tail, from + 1);
        }
    } else {
        assert(whole[from] == '/');
    }
}

/// A separator splits a path into two that are scanned on their own.
proof fn lemma_body_split(head: Seq<char>, tail: Seq<char>, from: int)
    requires
        0 <= from <= head.len(),
    ensures
        body_spans(head.push('/') + tail, from) == body_spans(head, from) + shifted(
            body_spans(tail, 0),
            (head.len() + 1) as int,
        ),
    decreases head.len() - from,
{
    let whole = head.push('/') + tail;
    let later = shifted(body_spans(tail, 0), (head.len() + 1) as int);
    lemma_separator_split(head, tail, from);
    lemma_next_separator(head, from);
    let end = next_separator(head, from);
    assert(whole.subrange(from, end) =~= head.subrange(from, end));
    if end < head.len() {
        lemma_body_split(head, tail, end + 1);
        assert(body_spans(whole, from) =~= body_spans(head, from) + later);
    } else {
        lemma_body_shift(head.push('/'), tail, 0);
        assert(body_spans(head, end + 1) =~= Seq::empty());
        assert(body_spans(whole, end + 1) == later);
        if from < head.len() {
            assert(body_spans(whole, from) =~= body_spans(head, from) + later);
        } else {
            assert(head.subrange(from, end) =~= Seq::empty());
            assert(body_spans(whole, from) =~= body_spans(head, from) + later);
        }
    }
}

/// A component begins at the start of the scan or behind a separator, and ends
/// at the end of the text or before a separator.
proof fn lemma_body_edges(text: Seq<char>, from: int, i: int)
    requires
        0 <= from,
        0 <= i < body_spans(text, from).len(),
    ensures
        ({
            let (start, end) = body_spans(text, from)[i];
            &&& start == from || text[start - 1] == '/'
            &&& end == text.len() || text[end] == '/'
            &&& start < text.len() && text[start] != '/'
            &&& is_component(text.subrange(start, end))
            &&& next_separator(text, start) == end
        }),
    decreases text.len() + 1 - from,
{
    lemma_next_separator(text, from);
    let end = next_separator(text, from);
    let rest = body_spans(text, end + 1);
    if is_component(text.subrange(from, end)) {
        if i > 0 {
            assert(body_spans(text, from)[i] == rest[i - 1]);
            lemma_body_edges(text, end + 1, i - 1);
        }
    } else {
        lemma_body_edges(text, end + 1, i);
    }
}

/// Cutting a path behind one of its components keeps the components up to
/// there.
#[verifier::spinoff_prover]
proof fn lemma_cut_behind(path: Seq<char>, count: int)
    requires
        0 < count <= spans(path).len(),
    ensures
        components(path.subrange(0, spans(path)[count - 1].1)) == components(path).take(count),
{
    let all = spans(path);
    let end = all[count - 1].1;
    let head = path.subrange(0, end);
    lemma_spans(path);
    lemma_spans(head);
    let marked = has_leading_marker(path);
    let from: int = if marked {
        1
    } else {
        0
    };
    let marks: Seq<(int, int)> = if marked {
        seq![(0int, 1int)]
    } else {
        Seq::empty()
    };
    assert(all =~= marks + body_spans(path, from));
    if count > marks.len() {
        lemma_body_edges(path, from, count - 1 - marks.len());
        assert(body_spans(path, from)[count - 1 - marks.len()] == all[count - 1]);
    }
    assert(end == path.len() || path[end] == '/' || path[0] == '/');
    if !marked {
        lemma_body_edges(path, 0, 0);
        assert(path[0] != '/');
        if path[0] == '.' {
            assert(all[0].0 == 0 || all[0].0 > 1);
        }
        assert(all[0].1 <= end);
    }
    if end == path.len() {
        assert(head =~= path);
        if count < all.len() {
            assert(all[count - 1].1 <= all[count].0);
        }
        assert(components(path).take(count) =~= components(path));
    } else if path[end] == '/' {
        let tail = path.subrange(end + 1, path.len() as int);
        assert(path =~= head.push('/') + tail);
        lemma_body_split(head, tail, from);
        let kept = body_spans(head, from);
        let later = shifted(body_spans(tail, 0), end + 1);
        lemma_body_spans(tail, 0);
        lemma_body_spans(head, from);
        assert(has_leading_marker(head) == marked) by {
            if marked && path[0] == '.' && end > 1 {
                assert(head[1] == path[1]);
            }
            if !marked {
                if path[0] == '.' {
                    lemma_leading_dot(path);
                    assert(end >= 2);
                    assert(head[1] == path[1]);
                }
            }
        }
        let held = marks + kept;
        assert(spans(head) =~= held);
        assert(all =~= held + later);
        if count - 1 >= held.len() {
            assert(all[count - 1] == later[count - 1 - held.len()]);
        }
        if count < held.len() {
            assert(all[count] == spans(head)[count]);
            assert(all[count - 1].1 <= all[count].0);
        }
        assert(held.len() == count);
        assert(components(head) =~= components(path).take(count)) by {
            assert forall|i: int| 0 <= i < count implies components(head)[i] == components(
                path,
            )[i] by {
                assert(all[i] == spans(head)[i]);
                assert(head.subrange(all[i].0, all[i].1) =~= path.subrange(all[i].0, all[i].1));
            }
        }
    } else {
        // Only the root can be followed by a component without a separator.
        assert(count == 1 && end == 1);
        assert(head =~= seq!['/']);
        assert(body_spans(head, 1) =~= Seq::empty());
        assert(spans(head) =~= seq![(0int, 1int)]);
        assert(components(head) =~= components(path).take(1)) by {
            assert(head.subrange(0, 1) =~= path.subrange(0, 1));
        }
    }
}

/// A path that begins with a dot but not with a `.` component has a first
/// component of at least two characters.
proof fn lemma_leading_dot(path: Seq<char>)
    requires
        path.len() > 0,
        path[0] == '.',
        !has_leading_marker(path),
    ensures
        spans(path).len() > 0,
        spans(path)[0].0 == 0,
        spans(path)[0].1 >= 2,
{
    lemma_next_separator(path, 0);
    lemma_next_separator(path, 1);
    let end = next_separator(path, 0);
    assert(end == next_separator(path, 1));
    assert(end >= 2) by {
        assert(path.len() > 1 && path[1] != '/');
        assert(next_separator(path, 1) == next_separator(path, 2));
        lemma_next_separator(path, 2);
    }
    assert(path.subrange(0, end).len() >= 2);
    assert(path.subrange(0, end) != seq!['.']) by {
        assert(seq!['.'].len() == 1);
    }
}

/// Every path but the empty one has a component.
proof fn lemma_no_components(path: Seq<char>)
    ensures
        spans(path).len() == 0 <==> path.len() == 0,
{
    if path.len() > 0 && !has_leading_marker(path) {
        if path[0] == '.' {
            lemma_leading_dot(path);
        } else {
            lemma_next_separator(path, 0);
            let end = next_separator(path, 0);
            assert(end >= 1) by {
                assert(end == next_separator(path, 1));
                lemma_next_separator(path, 1);
            }
            assert(path.subrange(0, end)[0] == path[0]);
            assert(is_component(path.subrange(0, end)));
        }
    }
}

/// What follows the first `count` components of a path, from the start of the
/// next one, has the remaining components.
#[verifier::spinoff_prover]
proof fn lemma_cut_before(path: Seq<char>, count: int)
    requires
        0 < count < spans(path).len(),
    ensures
        ({
            let rest = path.subrange(spans(path)[count].0, path.len() as int);
            &&& !has_leading_marker(rest)
            &&& spans(rest).len() == spans(path).len() - count
            &&& forall|i: int|
                0 <= i < spans(rest).len() ==> #[trigger] spans(rest)[i] == (
                    spans(path)[count + i].0 - spans(path)[count].0,
                    spans(path)[count + i].1 - spans(path)[count].0,
                )
        }),
{
    let all = spans(path);
    let start = all[count].0;
    let rest = path.subrange(start, path.len() as int);
    lemma_spans(path);
    let marked = has_leading_marker(path);
    let from: int = if marked {
        1
    } else {
        0
    };
    let marks: Seq<(int, int)> = if marked {
        seq![(0int, 1int)]
    } else {
        Seq::empty()
    };
    assert(all =~= marks + body_spans(path, from));
    let place = count - marks.len();
    lemma_body_edges(path, from, place);
    assert(body_spans(path, from)[place] == all[count]);
    let end = all[count].1;
    assert(rest[0] == path[start]);
    assert(path.subrange(start, end) =~= rest.subrange(0, end - start));
    let skipped = path.subrange(0, start);
    assert(path =~= skipped + rest);
    lemma_separator_shift(skipped, rest, 0);
    assert(next_separator(rest, 0) == end - start);
    assert(body_spans(rest, 0)[0] == (0int, end - start));
    assert(!has_leading_marker(rest)) by {
        if rest[0] == '.' && (rest.len() == 1 || rest[1] == '/') {
            assert(next_separator(rest, 0) == next_separator(rest, 1));
            assert(next_separator(rest, 1) == 1);
            assert(rest.subrange(0, 1) =~= seq!['.']);
        }
    }
    lemma_body_shift(skipped, rest, 0);
    let later = shifted(body_spans(rest, 0), start);
    if marked && start == 1 {
        assert(all =~= marks + later);
        assert(count == 1) by {
            assert(all[0].1 <= all[1].0);
            if count > 1 {
                assert(all[1].1 <= all[count].0);
            }
        }
    } else {
        assert(start > from) by {
            assert(all[0].1 <= all[count].0);
        }
        assert(path[start - 1] == '/');
        let head = path.subrange(0, start - 1);
        assert(path =~= head.push('/') + rest);
        lemma_body_split(head, rest, from);
        lemma_body_spans(head, from);
        let held = marks + body_spans(head, from);
        assert(all =~= held + later);
        assert(all[held.len() as int].0 == start) by {
            assert(later[0].0 == start);
        }
        if held.len() < count {
            assert(all[held.len() as int].1 <= all[count].0);
        }
        if held.len() > count {
            assert(all[count].1 <= all[held.len() as int].0);
        }
        assert(held.len() == count);
    }
    assert forall|i: int| 0 <= i < spans(rest).len() implies #[trigger] spans(rest)[i] == (
        all[count + i].0 - start,
        all[count + i].1 - start,
    ) by {
        assert(all[count + i] == later[i]);
    }
}

/// A path that `strip_prefix` leaves has exactly the components that lie below
/// the base.
pub proof fn law_stripped_components(path: Seq<char>, base: Seq<char>)
    requires
        lies_under(path, base),
    ensures
        stripped(path, base) is Some,
        components(stripped(path, base)->0) == components(path).skip(
            components(base).len() as int,
        ),
{
    let all = spans(path);
    let count = components(base).len() as int;
    let rest = stripped(path, base)->0;
    lemma_spans(path);
    if count == all.len() {
        assert(rest =~= Seq::<char>::empty());
        assert(components(rest) =~= Seq::empty());
        assert(components(path).skip(count) =~= Seq::empty());
    } else if count == 0 {
        lemma_cut_behind(path, all.len() as int);
        assert(components(path).take(all.len() as int) =~= components(path));
        assert(components(path).skip(0) =~= components(path));
    } else {
        lemma_cut_before(path, count);
        let start = all[count].0;
        let tail = path.subrange(start, path.len() as int);
        let length = spans(tail).len() as int;
        lemma_cut_behind(tail, length);
        let end = spans(tail)[length - 1].1;
        assert(end == all.last().1 - start);
        assert(rest =~= tail.subrange(0, end));
        assert(components(tail).take(length) =~= components(tail));
        assert forall|i: int| 0 <= i < length implies components(tail)[i] == components(
            path,
        )[count + i] by {
            assert(all[count + i].0 >= start) by {
                if i > 0 {
                    assert(all[count].1 <= all[count + i].0);
                }
            }
            assert(spans(tail)[i] == (all[count + i].0 - start, all[count + i].1 - start));
            assert(tail.subrange(all[count + i].0 - start, all[count + i].1 - start)
                =~= path.subrange(all[count + i].0, all[count + i].1));
        }
        assert(components(tail) =~= components(path).skip(count));
    }
}

/// Joining a relative path that has no leading `.` onto a base appends its
/// components to those of the base.
pub proof fn law_join_appends(base: Seq<char>, path: Seq<char>)
    requires
        !has_leading_marker(path),
    ensures
        components(joined(base, path)) == components(base) + components(path),
{
    if base.len() == 0 {
        assert(components(base) =~= Seq::empty());
        assert(components(base) + components(path) =~= components(path));
    } else {
        lemma_join_appends(base, path);
    }
}

proof fn lemma_join_appends(base: Seq<char>, path: Seq<char>)
    requires
        base.len() > 0,
        !has_leading_marker(path),
    ensures
        components(joined(base, path)) == components(base) + components(path),
{
    let whole = joined(base, path);
    assert(!is_absolute(path));
    let marked = has_leading_marker(base);
    let from: int = if marked {
        1
    } else {
        0
    };
    let marks: Seq<(int, int)> = if marked {
        seq![(0int, 1int)]
    } else {
        Seq::empty()
    };
    assert(spans(base) =~= marks + body_spans(base, from));
    lemma_spans(base);
    lemma_spans(path);
    assert(has_leading_marker(whole) == marked) by {
        assert(whole[0] == base[0]);
        if base.len() > 1 {
            assert(whole[1] == base[1]);
        } else if base[0] != '/' {
            assert(whole[1] == '/');
        }
    }
    let offset: int = if base.last() == '/' {
        base.len() as int
    } else {
        (base.len() + 1) as int
    };
    if base.last() != '/' {
        lemma_body_split(base, path, from);
    } else {
        let head = base.drop_last();
        assert(base =~= head.push('/'));
        if from <= head.len() {
            lemma_body_split(head, path, from);
            lemma_body_split(head, Seq::<char>::empty(), from);
            assert(head.push('/') + Seq::<char>::empty() =~= base);
            assert(shifted(body_spans(Seq::<char>::empty(), 0), base.len() as int)
                =~= Seq::empty());
            assert(body_spans(base, from) =~= body_spans(head, from));
        } else {
            lemma_body_shift(base, path, 0);
            assert(body_spans(base, from) =~= Seq::empty());
            assert(body_spans(whole, from) =~= body_spans(base, from) + shifted(
                body_spans(path, 0),
                offset,
            ));
        }
    }
    let later = shifted(body_spans(path, 0), offset);
    assert(spans(whole) =~= spans(base) + later);
    assert forall|i: int| 0 <= i < spans(whole).len() implies components(whole)[i] == (components(
        base,
    ) + components(path))[i] by {
        if i < spans(base).len() {
            let (start, end) = spans(base)[i];
            assert(whole.subrange(start, end) =~= base.subrange(start, end));
        } else {
            let (start, end) = spans(path)[i - spans(base).len()];
            assert(whole.subrange(start + offset, end + offset) =~= path.subrange(start, end));
        }
    }
    assert(components(whole) =~= components(base) + components(path));
}

/// Joining what `strip_prefix` leaves back onto the base names the same place:
/// all components of the path come back.
pub proof fn law_strip_then_join(path: Seq<char>, base: Seq<char>)
    requires
        lies_under(path, base),
    ensures
        components(joined(base, stripped(path, base)->0)) == components(path),
{
    let rest = stripped(path, base)->0;
    let count = components(base).len() as int;
    let all = spans(path);
    law_stripped_components(path, base);
    lemma_no_components(base);
    if base.len() == 0 {
        assert(components(path).skip(0) =~= components(path));
    } else {
        lemma_spans(path);
        assert(!has_leading_marker(rest)) by {
            if count < all.len() {
                lemma_cut_before(path, count);
                let start = all[count].0;
                let tail = path.subrange(start, path.len() as int);
                let length = spans(tail).len() as int;
                let end = spans(tail)[length - 1].1;
                assert(end == all.last().1 - start);
                assert(rest =~= tail.subrange(0, end));
                lemma_spans(tail);
                if rest[0] == '.' {
                    lemma_leading_dot(tail);
                    if length > 1 {
                        assert(spans(tail)[0].1 <= spans(tail)[length - 1].0);
                    }
                    assert(rest[1] == tail[1]);
                }
            }
        }
        law_join_appends(base, rest);
        assert(components(base) =~= components(path).take(count));
        assert(components(path).take(count) + components(path).skip(count) =~= components(path));
    }
}

/// The parent of a path has all components of the path but the last.
pub proof fn law_parent_drops_last(path: Seq<char>)
    requires
        parent(path) is Some,
    ensures
        components(path).len() > 0,
        components(parent(path)->0) == components(path).drop_last(),
{
    let all = spans(path);
    if all.len() == 1 {
        assert(components(Seq::<char>::empty()) =~= Seq::empty());
        assert(components(path).drop_last() =~= Seq::empty());
    } else {
        lemma_cut_behind(path, all.len() - 1);
        assert(components(path).take(all.len() - 1) =~= components(path).drop_last());
    }
}

/// The ancestors of a path drop its components one by one, from the end: down
/// to the root where the path starts there, and to nothing where it does not.
pub proof fn law_ancestors_drop_one_by_one(path: Seq<char>, index: int)
    requires
        0 <= index < ancestors(path).len(),
    ensures
        ancestors(path).len() == components(path).len() - (if is_absolute(path) {
            1int
        } else {
            0
        }),
        components(ancestors(path)[index]) == components(path).take(
            components(path).len() - 1 - index,
        ),
    decreases path.len(),
{
    lemma_ancestor_count(path);
    lemma_parent_is_shorter(path);
    let above = parent(path)->0;
    law_parent_drops_last(path);
    if index == 0 {
        assert(components(path).drop_last() =~= components(path).take(components(path).len() - 1));
    } else {
        assert(ancestors(path)[index] == ancestors(above)[index - 1]);
        law_ancestors_drop_one_by_one(above, index - 1);
        assert(components(above).take(components(above).len() - index) =~= components(path).take(
            components(path).len() - 1 - index,
        ));
    }
}

proof fn lemma_ancestor_count(path: Seq<char>)
    ensures
        path.len() > 0 && components(path).len() > 0 ==> ancestors(path).len() == components(
            path,
        ).len() - (if is_absolute(path) {
            1int
        } else {
            0
        }),
        components(path).len() == 0 ==> ancestors(path).len() == 0,
        ancestors(path).len() > 0 ==> components(path).len() > 0 && path.len() > 0,
    decreases path.len(),
{
    lemma_spans(path);
    match parent(path) {
        None => {},
        Some(above) => {
            lemma_parent_is_shorter(path);
            law_parent_drops_last(path);
            lemma_ancestor_count(above);
            if components(path).len() == 1 {
                assert(components(above).len() == 0);
            } else {
                let all = spans(path);
                let end = all[all.len() - 2].1;
                assert(end > 0) by {
                    assert(all[all.len() - 2].0 < all[all.len() - 2].1);
                }
                assert(above[0] == path[0]);
            }
        },
    }
}

/// A path in which backslashes separate components too, with `/` in their
/// place.
pub open spec fn slashed(path: Seq<char>) -> Seq<char> {
    Seq::new(
        path.len(),
        |i: int| if path[i] == '\\' {
            '/'
        } else {
            path[i]
        },
    )
}

/// A path of a system that separates components by backslashes as well, in the
/// form that is used here.
pub fn with_slashes(path: &str) -> (converted: String)
    ensures
        converted@ == slashed(path@),
{
    let chars = chars_of(path);
    let mut converted = String::new();
    for i in 0..chars.len()
        invariant
            chars@ == path@,
            converted@ == slashed(path@).take(i as int),
    {
        let ch: char = chars[i];
        if ch == '\\' {
            converted.push('/');
        } else {
            converted.push(ch);
        }
        assert(slashed(path@).take(i + 1) =~= slashed(path@).take(i as int).push(
            slashed(path@)[i as int],
        ));
    }
    assert(slashed(path@).take(path@.len() as int) =~= slashed(path@));
    converted
}

/// What stands behind a separator is scanned on its own.
proof fn lemma_behind_separator(head: Seq<char>, tail: Seq<char>)
    requires
        head.len() > 0,
    ensures
        components(head.push('/') + tail) == components(head) + pieces(tail, body_spans(tail, 0)),
{
    let whole = head.push('/') + tail;
    let marked = has_leading_marker(head);
    let from: int = if marked {
        1
    } else {
        0
    };
    let marks: Seq<(int, int)> = if marked {
        seq![(0int, 1int)]
    } else {
        Seq::empty()
    };
    let offset = (head.len() + 1) as int;
    assert(whole[0] == head[0]);
    if head.len() > 1 {
        assert(whole[1] == head[1]);
    } else {
        assert(whole[1] == '/');
    }
    assert(spans(head) =~= marks + body_spans(head, from));
    assert(spans(whole) =~= marks + body_spans(whole, from));
    lemma_body_split(head, tail, from);
    lemma_spans(head);
    lemma_body_spans(tail, 0);
    let later = body_spans(tail, 0);
    assert(spans(whole) =~= spans(head) + shifted(later, offset));
    let expected = components(head) + pieces(tail, later);
    assert forall|i: int| 0 <= i < spans(whole).len() implies components(whole)[i]
        == expected[i] by {
        if i < spans(head).len() {
            let (start, end) = spans(head)[i];
            assert(whole.subrange(start, end) =~= head.subrange(start, end));
        } else {
            let (start, end) = later[i - spans(head).len()];
            assert(whole.subrange(start + offset, end + offset) =~= tail.subrange(start, end));
        }
    }
    assert(components(whole) =~= expected);
}

/// A start of a scan that holds no component, with a separator behind it, may as
/// well be left out.
proof fn lemma_empty_start(start: Seq<char>, tail: Seq<char>)
    requires
        !is_component(start),
        forall|i: int| 0 <= i < start.len() ==> #[trigger] start[i] != '/',
    ensures
        pieces(start.push('/') + tail, body_spans(start.push('/') + tail, 0)) == pieces(
            tail,
            body_spans(tail, 0),
        ),
        pieces(start, body_spans(start, 0)) == Seq::<Seq<char>>::empty(),
{
    let whole = start.push('/') + tail;
    let offset = (start.len() + 1) as int;
    lemma_next_separator(start, 0);
    assert(next_separator(start, 0) == start.len());
    assert(start.subrange(0, start.len() as int) =~= start);
    assert(body_spans(start, start.len() as int + 1) =~= Seq::empty());
    assert(body_spans(start, 0) =~= Seq::empty());
    lemma_body_split(start, tail, 0);
    lemma_body_spans(tail, 0);
    let later = body_spans(tail, 0);
    assert(body_spans(whole, 0) =~= shifted(later, offset));
    assert forall|i: int| 0 <= i < later.len() implies whole.subrange(
        later[i].0 + offset,
        later[i].1 + offset,
    ) == #[trigger] tail.subrange(later[i].0, later[i].1) by {
        assert(whole.subrange(later[i].0 + offset, later[i].1 + offset) =~= tail.subrange(
            later[i].0,
            later[i].1,
        ));
    }
    assert(pieces(whole, body_spans(whole, 0)) =~= pieces(tail, later));
    assert(pieces(start, body_spans(start, 0)) =~= Seq::empty());
}

/// A name without separators is one component, whatever it is. The empty path
/// has none, and the root and a lone dot are components of their own.
pub proof fn law_name_is_one_component(name: Seq<char>)
    requires
        name == seq!['/'] || forall|i: int| 0 <= i < name.len() ==> #[trigger] name[i] != '/',
    ensures
        name.len() > 0 ==> components(name) == seq![name],
        name.len() == 0 ==> components(name) == Seq::<Seq<char>>::empty(),
{
    lemma_next_separator(name, 0);
    if name.len() == 0 {
        assert(components(name) =~= Seq::empty());
    } else if has_leading_marker(name) {
        if name[0] != '/' && name.len() > 1 {
            assert(name[1] == '/');
        }
        assert(name.len() == 1);
        assert(body_spans(name, 1) =~= Seq::empty());
        assert(spans(name) =~= seq![(0int, 1int)]);
        assert(name.subrange(0, 1) =~= name);
        assert(components(name) =~= seq![name]);
    } else {
        let end = name.len() as int;
        assert(name[0] != '/');
        assert(next_separator(name, 0) == end);
        assert(name.subrange(0, end) =~= name);
        if name == seq!['.'] {
            assert(name[0] == '.');
        }
        assert(body_spans(name, end + 1) =~= Seq::empty());
        assert(spans(name) =~= seq![(0int, end)]);
        assert(components(name) =~= seq![name]);
    }
}

/// A separator divides a path: the components before it are followed by those
/// behind it. One more separator there, or a dot between two, changes nothing,
/// and neither does a separator or a dot at the end.
pub proof fn law_separator_divides(head: Seq<char>, tail: Seq<char>)
    requires
        head.len() > 0,
    ensures
        !has_leading_marker(tail) ==> components(head + seq!['/'] + tail) == components(head)
            + components(tail),
        components(head + seq!['/', '/'] + tail) == components(head + seq!['/'] + tail),
        components(head + seq!['/', '.', '/'] + tail) == components(head + seq!['/'] + tail),
        components(head + seq!['/']) == components(head),
        components(head + seq!['/', '.']) == components(head),
{
    let nothing = Seq::<char>::empty();
    let dot = seq!['.'];
    assert(!is_component(nothing));
    assert(!is_component(dot));
    assert(forall|i: int| 0 <= i < dot.len() ==> #[trigger] dot[i] != '/');
    lemma_behind_separator(head, tail);
    lemma_behind_separator(head, nothing.push('/') + tail);
    lemma_behind_separator(head, dot.push('/') + tail);
    lemma_behind_separator(head, nothing);
    lemma_behind_separator(head, dot);
    lemma_empty_start(nothing, tail);
    lemma_empty_start(dot, tail);
    assert(head + seq!['/'] + tail =~= head.push('/') + tail);
    assert(head + seq!['/', '/'] + tail =~= head.push('/') + (nothing.push('/') + tail));
    assert(head + seq!['/', '.', '/'] + tail =~= head.push('/') + (dot.push('/') + tail));
    assert(head + seq!['/'] =~= head.push('/') + nothing);
    assert(head + seq!['/', '.'] =~= head.push('/') + dot);
    assert(components(head) + Seq::<Seq<char>>::empty() =~= components(head));
}

/// A path from the root, or from a leading dot, has that as its first component
/// and then those of the rest.
pub proof fn law_leading_marker_is_a_component(path: Seq<char>)
    requires
        !has_leading_marker(path),
    ensures
        components(seq!['/'] + path) == seq![seq!['/']] + components(path),
        components(seq!['.', '/'] + path) == seq![seq!['.']] + components(path),
        is_absolute(seq!['/'] + path),
        !is_absolute(seq!['.', '/'] + path),
        !is_absolute(path),
{
    let root = seq!['/'];
    let dot = seq!['.'];
    law_name_is_one_component(dot);
    law_separator_divides(dot, path);
    assert(dot + seq!['/'] + path =~= seq!['.', '/'] + path);
    let whole = root + path;
    lemma_body_shift(root, path, 0);
    lemma_body_spans(path, 0);
    let later = body_spans(path, 0);
    assert(spans(whole) =~= seq![(0int, 1int)] + shifted(later, 1));
    let expected = seq![root] + components(path);
    assert forall|i: int| 0 <= i < spans(whole).len() implies components(whole)[i]
        == expected[i] by {
        if i == 0 {
            assert(whole.subrange(0, 1) =~= root);
        } else {
            let (start, end) = later[i - 1];
            assert(whole.subrange(start + 1, end + 1) =~= path.subrange(start, end));
        }
    }
    assert(components(whole) =~= expected);
}

/// A path begins with a marker exactly where it begins at the root, is a lone
/// dot, or begins with a dot and a separator.
pub proof fn law_marker_is_a_root_or_a_dot(path: Seq<char>)
    ensures
        has_leading_marker(path) <==> is_absolute(path) || path == seq!['.'] || (path.len() > 1
            && path[0] == '.' && path[1] == '/'),
        is_absolute(path) <==> path.len() > 0 && path[0] == '/',
{
    if path.len() == 1 && path[0] == '.' {
        assert(path =~= seq!['.']);
    }
}

/// Components are never empty. None holds a separator but the root, and only the
/// first can be the root or a dot.
pub proof fn law_components_are_names(path: Seq<char>, index: int)
    requires
        0 <= index < components(path).len(),
    ensures
        components(path)[index].len() > 0,
        components(path)[index] == seq!['/'] ==> index == 0 && is_absolute(path),
        components(path)[index] == seq!['.'] ==> index == 0,
        components(path)[index] != seq!['/'] ==> forall|i: int|
            0 <= i < components(path)[index].len() ==> #[trigger] components(path)[index][i]
                != '/',
{
    let piece = components(path)[index];
    if has_leading_marker(path) && index == 0 {
        assert(piece =~= seq![path[0]]);
        if piece == seq!['/'] {
            assert(piece[0] == '/');
        }
    } else {
        let from: int = if has_leading_marker(path) {
            1
        } else {
            0
        };
        let at = index - from;
        let (start, end) = body_spans(path, from)[at];
        assert(spans(path)[index] == (start, end));
        lemma_body_edges(path, from, at);
        lemma_next_separator(path, start);
        lemma_spans(path);
        assert(piece == path.subrange(start, end));
        assert(piece[0] == path[start]);
        assert forall|i: int| 0 <= i < piece.len() implies #[trigger] piece[i] != '/' by {
            assert(piece[i] == path[start + i]);
        }
    }
}

/// A path lies under a base exactly where the components of the base are its
/// first ones, and only then is anything left of it below the base. What is left
/// is a part of the path as it stands.
pub proof fn law_strip_goes_by_components(path: Seq<char>, base: Seq<char>)
    ensures
        lies_under(path, base) <==> components(base).len() <= components(path).len()
            && forall|i: int|
            0 <= i < components(base).len() ==> components(path)[i] == #[trigger] components(
                base,
            )[i],
        stripped(path, base) is Some <==> lies_under(path, base),
        stripped(path, base) matches Some(rest) ==> exists|start: int, end: int|
            0 <= start <= end <= path.len() && rest == #[trigger] path.subrange(start, end),
        components(path) == components(base) ==> stripped(path, base) == Some(Seq::<char>::empty()),
{
    let first = components(base);
    let all = components(path);
    if first.len() <= all.len() && forall|i: int|
        0 <= i < first.len() ==> all[i] == #[trigger] first[i] {
        assert(first =~= all.subrange(0, first.len() as int));
    }
    if first.is_prefix_of(all) {
        assert forall|i: int| 0 <= i < first.len() implies all[i] == #[trigger] first[i] by {
            assert(all.subrange(0, first.len() as int)[i] == first[i]);
        }
    }
    if all == first {
        assert(first =~= all.subrange(0, first.len() as int));
    }
    if stripped(path, base) is Some {
        lemma_spans(path);
        let marked = spans(path);
        let skipped = first.len() as int;
        if skipped == marked.len() {
            assert(path.subrange(0, 0) =~= Seq::empty());
        } else {
            assert(marked[skipped].0 <= marked.last().1 <= path.len());
            assert(0 <= marked[skipped].0);
        }
    }
}

/// A path below a base, by any text that says so, is that text again once the
/// base is stripped, as far as it has a meaning.
pub proof fn law_join_then_strip(base: Seq<char>, path: Seq<char>)
    requires
        !has_leading_marker(path),
    ensures
        lies_under(joined(base, path), base),
        components(stripped(joined(base, path), base)->0) == components(path),
{
    let whole = joined(base, path);
    law_join_appends(base, path);
    assert(components(base) =~= components(whole).subrange(0, components(base).len() as int));
    law_stripped_components(whole, base);
    assert(components(whole).skip(components(base).len() as int) =~= components(path));
}

/// An absolute path replaces the base that it is joined to. Any other is put
/// behind it as it stands, with exactly one separator between the two where the
/// base is not empty and has none at its end.
pub proof fn law_join_puts_one_separator(base: Seq<char>, path: Seq<char>)
    ensures
        path.len() > 0 && path[0] == '/' ==> joined(base, path) == path,
        base.len() == 0 ==> joined(base, path) == path,
        !is_absolute(path) && base.len() > 0 && base.last() == '/' ==> joined(base, path) == base
            + path,
        !is_absolute(path) && base.len() > 0 && base.last() != '/' ==> joined(base, path) == base
            + seq!['/'] + path,
{
    if base.len() > 0 {
        assert(base.push('/') + path =~= base + seq!['/'] + path);
    }
}

/// Every path but an empty one and the root has a parent, and the parent is the
/// beginning of the path.
pub proof fn law_all_but_the_root_have_a_parent(path: Seq<char>)
    ensures
        parent(path) is None <==> path.len() == 0 || components(path) == seq![seq!['/']],
        parent(path) matches Some(above) ==> above.is_prefix_of(path) && above.len() < path.len(),
{
    let all = spans(path);
    lemma_no_components(path);
    lemma_parent_is_shorter(path);
    assert(components(path).len() == all.len());
    if all.len() == 1 {
        lemma_lone_root(path);
    }
    if parent(path) is Some {
        lemma_parent_begins_the_path(path);
    }
}

/// A path of one component is absolute exactly where that component is the root.
proof fn lemma_lone_root(path: Seq<char>)
    requires
        spans(path).len() == 1,
    ensures
        is_absolute(path) <==> components(path) == seq![seq!['/']],
{
    if is_absolute(path) {
        assert(spans(path)[0] == (0int, 1int));
        assert(path.subrange(0, 1) =~= seq!['/']);
        assert(components(path) =~= seq![seq!['/']]);
    }
    if components(path) == seq![seq!['/']] {
        assert(components(path)[0] == seq!['/']);
        law_components_are_names(path, 0);
    }
}

proof fn lemma_parent_begins_the_path(path: Seq<char>)
    requires
        parent(path) is Some,
    ensures
        parent(path)->0.is_prefix_of(path),
{
    let all = spans(path);
    let above = parent(path)->0;
    lemma_spans(path);
    let end: int = if all.len() == 1 {
        0
    } else {
        all[all.len() - 2].1
    };
    assert(0 <= end <= path.len());
    assert(above =~= path.subrange(0, end));
}

/// The ancestors of a path are its parent and the ancestors of that, and a path
/// without a parent has none.
pub proof fn law_parent_comes_first(path: Seq<char>)
    ensures
        parent(path) is None ==> ancestors(path).len() == 0,
        parent(path) matches Some(above) ==> {
            &&& ancestors(path).len() == ancestors(above).len() + 1
            &&& ancestors(path)[0] == above
            &&& ancestors(path).skip(1) == ancestors(above)
        },
{
    if let Some(above) = parent(path) {
        assert(ancestors(path).skip(1) =~= ancestors(above));
    }
}

/// The name of a path is its last component, whichever path that is of, unless
/// it is the root, a dot or two dots: these name nothing.
pub proof fn law_name_is_the_last_component(path: Seq<char>, name: Seq<char>)
    ensures
        file_name(path) == Some(name) <==> {
            &&& components(path).len() > 0
            &&& components(path).last() == name
            &&& name != seq!['/']
            &&& name != seq!['.']
            &&& name != seq!['.', '.']
        },
{
}

/// A plain name behind any path is the name of the whole, and what stands before
/// it the parent, component by component.
pub proof fn law_name_behind_a_path(base: Seq<char>, name: Seq<char>)
    requires
        name.len() > 0,
        name != seq!['.'],
        name != seq!['.', '.'],
        forall|i: int| 0 <= i < name.len() ==> #[trigger] name[i] != '/',
    ensures
        file_name(joined(base, name)) == Some(name),
        components(joined(base, name)) == components(base).push(name),
        parent(joined(base, name)) matches Some(above) && components(above) == components(base),
{
    let whole = joined(base, name);
    assert(name[0] != '/');
    if name.len() == 1 && name[0] == '.' {
        assert(name =~= seq!['.']);
    }
    law_name_is_one_component(name);
    law_join_appends(base, name);
    assert(components(whole) =~= components(base).push(name));
    assert(components(whole).last() == name);
    if name == seq!['/'] {
        assert(name[0] == '/');
    }
    law_all_but_the_root_have_a_parent(whole);
    assert(whole.len() > 0) by {
        lemma_no_components(whole);
    }
    law_parent_drops_last(whole);
    assert(components(whole).drop_last() =~= components(base));
}

/// Backslashes become slashes, everything else stays as it is and where it is,
/// and doing so twice is doing it once.
pub proof fn law_only_backslashes_are_turned(path: Seq<char>, index: int)
    requires
        0 <= index < path.len(),
    ensures
        slashed(path).len() == path.len(),
        path[index] == '\\' ==> slashed(path)[index] == '/',
        path[index] != '\\' ==> slashed(path)[index] == path[index],
        !slashed(path).contains('\\'),
        slashed(slashed(path)) == slashed(path),
{
    assert(slashed(slashed(path)) =~= slashed(path));
}

/// What is left below a base has no loose ends: it ends with its last component,
/// and begins with its first, which is neither a separator nor a dot where the
/// base is not empty.
pub proof fn law_rest_has_no_loose_ends(path: Seq<char>, base: Seq<char>)
    requires
        stripped(path, base) is Some,
        stripped(path, base)->0.len() > 0,
    ensures
        ({
            let rest = stripped(path, base)->0;
            &&& rest.last() == '/' ==> rest == seq!['/']
            &&& rest.len() > 1 ==> !(rest[rest.len() - 2] == '/' && rest.last() == '.')
            &&& base.len() > 0 ==> rest[0] != '/' && !has_leading_marker(rest)
            &&& base.len() == 0 ==> rest.is_prefix_of(path)
        }),
{
    let rest = stripped(path, base)->0;
    let all = spans(path);
    let skipped = components(base).len() as int;
    let last = all.len() - 1;
    lemma_spans(path);
    lemma_no_components(base);
    assert(components(base).len() <= components(path).len());
    let start: int = if skipped == 0 {
        0
    } else {
        all[skipped].0
    };
    let end = all[last].1;
    assert(rest == path.subrange(start, end));
    let piece = components(path)[last];
    assert(piece == path.subrange(all[last].0, end));
    law_components_are_names(path, last);
    assert(all[skipped].0 <= all[last].0);
    assert(rest.last() == path[end - 1]);
    assert(piece.last() == path[end - 1]);
    if rest.last() == '/' {
        assert(piece[piece.len() - 1] == '/');
        assert(piece == seq!['/']);
        assert(last == 0);
        assert(has_leading_marker(path));
        assert(rest =~= seq!['/']);
    }
    if rest.len() > 1 && rest[rest.len() - 2] == '/' && rest.last() == '.' {
        if piece.len() > 1 {
            assert(piece[piece.len() - 2] == path[end - 2]);
            assert(piece == seq!['/']);
        }
        assert(piece =~= seq!['.']);
        assert(last == 0);
        assert(all[0].0 == end - 1);
        if has_leading_marker(path) {
            assert(all[0] == (0int, 1int));
        } else {
            lemma_body_edges(path, 0, 0);
        }
    }
    if base.len() > 0 {
        let first = components(path)[skipped];
        assert(first == path.subrange(all[skipped].0, all[skipped].1));
        law_components_are_names(path, skipped);
        assert(first != seq!['/']);
        assert(first[0] == rest[0]);
        if has_leading_marker(rest) {
            assert(rest[0] == '.');
            if first.len() > 1 {
                assert(all[skipped].1 <= end);
                assert(first[1] == rest[1]);
            }
            assert(first =~= seq!['.']);
        }
    } else {
        assert(rest =~= path.subrange(0, rest.len() as int));
    }
}

/// A parent ends with its last component.
pub proof fn law_parent_has_no_loose_end(path: Seq<char>)
    requires
        parent(path) is Some,
        parent(path)->0.len() > 0,
    ensures
        ({
            let above = parent(path)->0;
            &&& above.last() == '/' ==> above == seq!['/']
            &&& above.len() > 1 ==> !(above[above.len() - 2] == '/' && above.last() == '.')
        }),
{
    let above = parent(path)->0;
    let all = spans(path);
    lemma_spans(path);
    let last = all.len() - 2;
    let end = all[last].1;
    let piece = components(path)[last];
    assert(piece == path.subrange(all[last].0, end));
    law_components_are_names(path, last);
    assert(piece.last() == path[end - 1]);
    if above.last() == '/' {
        assert(piece[piece.len() - 1] == '/');
        assert(last == 0);
        assert(has_leading_marker(path));
        assert(above =~= seq!['/']);
    }
    if above.len() > 1 && above[above.len() - 2] == '/' && above.last() == '.' {
        if piece.len() > 1 {
            assert(piece[piece.len() - 2] == path[end - 2]);
            assert(piece == seq!['/']);
        }
        assert(piece =~= seq!['.']);
        assert(last == 0);
        assert(all[0].0 == end - 1);
        if has_leading_marker(path) {
            assert(all[0] == (0int, 1int));
        } else {
            lemma_body_edges(path, 0, 0);
        }
    }
}

} // verus!
