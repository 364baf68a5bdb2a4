//! Which queries the matcher can score.
//!
//! The matcher adds a word's score up in 16 bits. A query is split into words
//! at its spaces, and a word that is too long could score more than that.

use crate::text;
use vstd::prelude::*;

verus! {

/// The longest query, in characters, whose words' scores fit 32 bits together.
pub const MAX_QUERY_CHARS: usize = 0x3ff_ffff;

/// The longest word, in characters that the matcher looks for, whose score fits
/// 16 bits: each character scores up to 26, and the first one up to 36.
pub const MAX_WORD_CHARS: usize = 2520;

/// What the length of a word comes down to: how many characters and how many
/// backslashes it has, and whether it is all ASCII.
pub struct Word {
    pub chars: nat,
    pub backslashes: nat,
    pub is_ascii: bool,
}

impl Word {
    /// The word without characters.
    pub open spec fn empty() -> Word {
        Word { chars: 0, backslashes: 0, is_ascii: true }
    }

    /// The word with one character more.
    pub open spec fn with(self, ch: char) -> Word {
        Word {
            chars: self.chars + 1,
            backslashes: if ch == '\\' {
                self.backslashes + 1
            } else {
                self.backslashes
            },
            is_ascii: self.is_ascii && ch <= '\u{7f}',
        }
    }

    /// How many characters the matcher looks for at most. In a word that is not
    /// all ASCII, it may look for a backslash twice.
    pub open spec fn needle_bound(self) -> nat {
        if self.is_ascii {
            self.chars
        } else {
            self.chars + self.backslashes
        }
    }
}

/// Whether a word ends at this place: there is a space without a backslash in
/// front.
pub open spec fn separates(query: Seq<char>, at: int) -> bool {
    query[at] == ' ' && !(at > 0 && query[at - 1] == '\\')
}

/// The word, or the beginning of it, that ends in front of this place.
pub open spec fn word_before(query: Seq<char>, at: int) -> Word
    decreases at,
{
    if at <= 0 || separates(query, at - 1) {
        Word::empty()
    } else {
        word_before(query, at - 1).with(query[at - 1])
    }
}

/// Whether no word of the query is too long to be scored.
pub open spec fn words_fit(query: Seq<char>) -> bool {
    forall|at: int|
        0 <= at <= query.len() ==> (#[trigger] word_before(query, at)).needle_bound()
            <= MAX_WORD_CHARS
}

/// Whether the matcher can score the query against a text of any length.
pub open spec fn is_scorable(query: Seq<char>) -> bool {
    query.len() <= MAX_QUERY_CHARS && words_fit(query)
}

/// Whether the matcher can score the query against a text of any length.
pub fn can_be_scored(query: &str) -> (scorable: bool)
    ensures
        scorable == is_scorable(query@),
{
    let chars = text::chars_of(query);
    if chars.len() > MAX_QUERY_CHARS {
        return false;
    }
    let mut count: usize = 0;
    let mut backslashes: usize = 0;
    let mut is_ascii: bool = true;
    for i in 0..chars.len()
        invariant
            chars@ == query@,
            chars@.len() <= MAX_QUERY_CHARS,
            backslashes <= count <= i,
            word_before(query@, i as int) == (Word {
                chars: count as nat,
                backslashes: backslashes as nat,
                is_ascii,
            }),
            forall|at: int|
                0 <= at <= i ==> (#[trigger] word_before(query@, at)).needle_bound()
                    <= MAX_WORD_CHARS,
    {
        let ch: char = chars[i];
        if ch == ' ' && !(i > 0 && chars[i - 1] == '\\') {
            count = 0;
            backslashes = 0;
            is_ascii = true;
        } else {
            count = count + 1;
            if ch == '\\' {
                backslashes = backslashes + 1;
            }
            is_ascii = is_ascii && ch <= '\u{7f}';
            let bound: usize = if is_ascii {
                count
            } else {
                count + backslashes
            };
            if bound > MAX_WORD_CHARS {
                assert(word_before(query@, i + 1).needle_bound() == bound);
                return false;
            }
        }
    }
    true
}

/// A query of at most half the greatest length of a word can be scored, whatever
/// it holds.
pub proof fn law_short_queries_can_be_scored(query: Seq<char>)
    requires
        2 * query.len() <= MAX_WORD_CHARS,
    ensures
        is_scorable(query),
{
    assert forall|at: int| 0 <= at <= query.len() implies (#[trigger] word_before(
        query,
        at,
    )).needle_bound() <= MAX_WORD_CHARS by {
        lemma_word_is_within_the_query(query, at);
    }
}

/// Whether a query can be scored does not depend on how many words it has: one
/// more word that can be scored, behind a space, changes nothing.
pub proof fn law_words_are_scored_one_by_one(query: Seq<char>, word: Seq<char>)
    requires
        words_fit(query),
        words_fit(word),
        query.len() > 0 ==> query.last() != '\\',
    ensures
        words_fit(query + seq![' '] + word),
{
    let whole = query + seq![' '] + word;
    let start = query.len() as int + 1;
    assert(whole[start - 1] == ' ');
    assert forall|at: int| 0 <= at <= whole.len() implies (#[trigger] word_before(
        whole,
        at,
    )).needle_bound() <= MAX_WORD_CHARS by {
        if at < start {
            lemma_same_word(query, whole, 0, at);
            assert(word_before(query, at).needle_bound() <= MAX_WORD_CHARS);
        } else {
            assert(separates(whole, start - 1));
            lemma_same_word(word, whole, start, at - start);
            assert(word_before(word, at - start).needle_bound() <= MAX_WORD_CHARS);
        }
    }
}

proof fn lemma_word_is_within_the_query(query: Seq<char>, at: int)
    requires
        0 <= at <= query.len(),
    ensures
        word_before(query, at).backslashes <= word_before(query, at).chars <= at,
    decreases at,
{
    if at > 0 {
        lemma_word_is_within_the_query(query, at - 1);
    }
}

/// The words of a part of a query that begins with a word are those of the
/// query.
proof fn lemma_same_word(part: Seq<char>, query: Seq<char>, start: int, at: int)
    requires
        0 <= start,
        0 <= at <= part.len(),
        start + part.len() <= query.len(),
        start > 0 ==> separates(query, start - 1),
        forall|i: int| 0 <= i < part.len() ==> part[i] == #[trigger] query[start + i],
    ensures
        word_before(query, start + at) == word_before(part, at),
    decreases at,
{
    if at > 0 {
        lemma_same_word(part, query, start, at - 1);
        assert(part[at - 1] == query[start + (at - 1)]);
        if at > 1 {
            assert(part[at - 2] == query[start + (at - 2)]);
        }
    }
}

/// A word grows by one character at a time, by any character but a space. A
/// space ends it, unless a backslash stands in front of the space.
pub proof fn law_word_grows_up_to_a_space(query: Seq<char>, ch: char)
    ensures
        ({
            let before = word_before(query, query.len() as int);
            let after = word_before(query.push(ch), query.len() as int + 1);
            let ends = ch == ' ' && !(query.len() > 0 && query.last() == '\\');
            &&& ends ==> after.chars == 0 && after.backslashes == 0 && after.is_ascii
            &&& !ends ==> after.chars == before.chars + 1
            &&& !ends ==> after.backslashes == before.backslashes + (if ch == '\\' {
                1int
            } else {
                0
            })
            &&& !ends ==> (after.is_ascii <==> before.is_ascii && ch <= '\u{7f}')
            &&& forall|at: int|
                0 <= at <= query.len() ==> #[trigger] word_before(query.push(ch), at)
                    == word_before(query, at)
        }),
{
    let more = query.push(ch);
    assert forall|at: int| 0 <= at <= query.len() implies #[trigger] word_before(more, at)
        == word_before(query, at) by {
        lemma_same_word(query, more, 0, at);
    }
    let end = query.len() as int;
    assert(more[end] == ch);
    if query.len() > 0 {
        assert(more[end - 1] == query.last());
    }
    assert(word_before(more, end) == word_before(query, end));
    assert(separates(more, end) <==> ch == ' ' && !(query.len() > 0 && query.last() == '\\'));
}

/// A query can be scored exactly where it is not too long as a whole, and every
/// word of it, at every place, is looked for with at most two thousand five
/// hundred and twenty characters.
pub proof fn law_no_word_is_too_long(query: Seq<char>)
    ensures
        is_scorable(query) <==> query.len() <= 0x3ff_ffff && forall|at: int|
            0 <= at <= query.len() ==> {
                let word = #[trigger] word_before(query, at);
                &&& word.chars <= 2520
                &&& !word.is_ascii ==> word.chars + word.backslashes <= 2520
            },
{
    if is_scorable(query) {
        assert forall|at: int| 0 <= at <= query.len() implies {
            let word = #[trigger] word_before(query, at);
            &&& word.chars <= 2520
            &&& !word.is_ascii ==> word.chars + word.backslashes <= 2520
        } by {
            assert(word_before(query, at).needle_bound() <= MAX_WORD_CHARS);
        }
    }
    if query.len() <= 0x3ff_ffff && forall|at: int|
        0 <= at <= query.len() ==> {
            let word = #[trigger] word_before(query, at);
            &&& word.chars <= 2520
            &&& !word.is_ascii ==> word.chars + word.backslashes <= 2520
        } {
        assert forall|at: int| 0 <= at <= query.len() implies (#[trigger] word_before(
            query,
            at,
        )).needle_bound() <= MAX_WORD_CHARS by {
            let word = word_before(query, at);
            assert(word.chars <= 2520);
        }
    }
}

/// The word at the start of a query has no characters.
pub proof fn law_first_word_starts_empty(query: Seq<char>)
    ensures
        word_before(query, 0).chars == 0,
        word_before(query, 0).backslashes == 0,
        word_before(query, 0).is_ascii,
{
}

} // verus!
