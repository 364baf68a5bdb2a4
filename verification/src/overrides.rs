//! Globs that keep entries out of the walk.

use crate::text;
use ignore::overrides::{Override, OverrideBuilder};
use vstd::prelude::*;

verus! {

/// A matcher made of glob lines.
#[verifier::external_type_specification]
#[verifier::external_body]
pub struct ExOverride(Override);

/// A matcher in the making.
#[verifier::external_type_specification]
#[verifier::external_body]
pub struct ExOverrideBuilder(OverrideBuilder);

/// Why a glob line or a matcher was refused.
#[verifier::external_type_specification]
#[verifier::external_body]
pub struct ExIgnoreError(ignore::Error);

/// The builder for matching relative to `directory` that was given `lines` one
/// by one.
pub uninterp spec fn builder_with(
    directory: Seq<char>,
    lines: Seq<Seq<char>>,
) -> OverrideBuilder;

/// What adding a glob line gives, to a builder that was given lines only.
pub uninterp spec fn added_line(line: Seq<char>) -> Result<(), ignore::Error>;

/// What building the matcher for `directory` out of `lines` gives.
pub uninterp spec fn built_matcher(
    directory: Seq<char>,
    lines: Seq<Seq<char>>,
) -> Result<Override, ignore::Error>;

/// `OverrideBuilder::new` starts with no lines.
#[verifier::external_body]
fn start_builder(directory: &str) -> (builder: OverrideBuilder)
    ensures
        builder == builder_with(directory@, Seq::empty()),
{
    OverrideBuilder::new(directory)
}

/// `OverrideBuilder::add` parses one line. With a builder whose settings were
/// left as they are at the start, whether it parses depends on the line alone;
/// a line that does is added behind the others, and one that does not leaves the
/// builder as it was.
#[verifier::external_body]
fn add_line(builder: &mut OverrideBuilder, line: &str) -> (added: Result<(), ignore::Error>)
    requires
        exists|directory: Seq<char>, lines: Seq<Seq<char>>| #[trigger]
            builder_with(directory, lines) == *old(builder),
    ensures
        added == added_line(line@),
        added is Err ==> *final(builder) == *old(builder),
        added is Ok ==> forall|directory: Seq<char>, lines: Seq<Seq<char>>|
            *old(builder) == #[trigger] builder_with(directory, lines) ==> *final(builder)
                == builder_with(directory, lines.push(line@)),
{
    builder.add(line).map(|_| ())
}

/// `OverrideBuilder::build` makes the matcher out of the lines so far.
#[verifier::external_body]
fn build_matcher(builder: &OverrideBuilder) -> (built: Result<Override, ignore::Error>)
    ensures
        forall|directory: Seq<char>, lines: Seq<Seq<char>>|
            *builder == #[trigger] builder_with(directory, lines) ==> built == built_matcher(
                directory,
                lines,
            ),
{
    builder.build()
}

/// Why the globs to exclude cannot be used.
#[derive(Debug)]
pub enum OverrideError {
    /// The glob at this place does not parse.
    Glob { index: usize, error: ignore::Error },
    /// The globs parse, but no matcher can be made of them.
    Build { error: ignore::Error },
}

/// The lines that exclude what the globs match: each with a mark in front that
/// turns it from a glob to keep into one to leave out.
pub open spec fn exclude_lines(exclude: Seq<Seq<char>>) -> Seq<Seq<char>> {
    Seq::new(exclude.len(), |i: int| seq!['!'] + exclude[i])
}

/// Whether the first `count` lines parse.
pub open spec fn lines_parse(lines: Seq<Seq<char>>, count: int) -> bool {
    forall|i: int| 0 <= i < count ==> added_line(#[trigger] lines[i]) is Ok
}

/// What becomes of the globs to exclude: no matcher where there are none, the
/// error of the first that does not parse, or what building gives.
pub open spec fn is_override_outcome(
    directory: Seq<char>,
    exclude: Seq<Seq<char>>,
    outcome: Result<Option<Override>, OverrideError>,
) -> bool {
    let lines = exclude_lines(exclude);
    match outcome {
        Ok(None) => exclude.len() == 0,
        Ok(Some(matcher)) => {
            &&& exclude.len() > 0
            &&& lines_parse(lines, lines.len() as int)
            &&& built_matcher(directory, lines) == Ok::<Override, ignore::Error>(matcher)
        },
        Err(OverrideError::Glob { index, error }) => {
            &&& index < lines.len()
            &&& lines_parse(lines, index as int)
            &&& added_line(lines[index as int]) == Err::<(), ignore::Error>(error)
        },
        Err(OverrideError::Build { error }) => {
            &&& exclude.len() > 0
            &&& lines_parse(lines, lines.len() as int)
            &&& built_matcher(directory, lines) == Err::<Override, ignore::Error>(error)
        },
    }
}

/// Makes the matcher that leaves out of the walk what `exclude` matches,
/// relative to the search directory.
pub fn build_override_matcher(search_directory: &str, exclude: &Vec<String>) -> (outcome: Result<
    Option<Override>,
    OverrideError,
>)
    ensures
        is_override_outcome(search_directory@, text::texts(exclude@), outcome),
{
    if exclude.len() == 0 {
        return Ok(None);
    }
    let ghost lines = exclude_lines(text::texts(exclude@));
    let mut builder = start_builder(search_directory);
    assert(lines.take(0) =~= Seq::empty());
    for i in 0..exclude.len()
        invariant
            lines == exclude_lines(text::texts(exclude@)),
            lines_parse(lines, i as int),
            builder == builder_with(search_directory@, lines.take(i as int)),
    {
        let mut line = String::new();
        line.push('!');
        text::push_str(&mut line, &exclude[i]);
        assert(line@ =~= lines[i as int]);
        match add_line(&mut builder, &line) {
            Ok(()) => {
                assert(lines.take(i + 1) =~= lines.take(i as int).push(line@));
            },
            Err(error) => {
                return Err(OverrideError::Glob { index: i, error });
            },
        }
    }
    assert(lines.take(lines.len() as int) =~= lines);
    match build_matcher(&builder) {
        Ok(matcher) => Ok(Some(matcher)),
        Err(error) => Err(OverrideError::Build { error }),
    }
}

/// The globs to exclude lead to one outcome only.
pub proof fn law_override_outcome_is_unique(
    directory: Seq<char>,
    exclude: Seq<Seq<char>>,
    outcome: Result<Option<Override>, OverrideError>,
    other: Result<Option<Override>, OverrideError>,
)
    requires
        is_override_outcome(directory, exclude, outcome),
        is_override_outcome(directory, exclude, other),
    ensures
        outcome == other,
{
    let lines = exclude_lines(exclude);
    if let Err(OverrideError::Glob { index, error }) = outcome {
        assert(added_line(lines[index as int]) is Err);
    }
    if let Err(OverrideError::Glob { index, error }) = other {
        assert(added_line(lines[index as int]) is Err);
    }
}

/// Every glob to exclude becomes one line, in the same place: a `!` with the
/// glob behind it, whatever the glob is.
pub proof fn law_every_glob_is_turned_round(exclude: Seq<Seq<char>>, index: int)
    requires
        0 <= index < exclude.len(),
    ensures
        exclude_lines(exclude).len() == exclude.len(),
        exclude_lines(exclude)[index].len() == exclude[index].len() + 1,
        exclude_lines(exclude)[index][0] == '!',
        exclude_lines(exclude)[index].skip(1) == exclude[index],
{
    assert(exclude_lines(exclude)[index].skip(1) =~= exclude[index]);
}

/// The matcher is made of the globs with a `!` in front of each, and of nothing
/// else. There is none exactly where there are no globs, and the error is that
/// of the first glob that does not parse.
pub proof fn law_globs_decide_the_outcome(
    directory: Seq<char>,
    exclude: Seq<Seq<char>>,
    lines: Seq<Seq<char>>,
    outcome: Result<Option<Override>, OverrideError>,
)
    requires
        is_override_outcome(directory, exclude, outcome),
        lines.len() == exclude.len(),
        forall|i: int| 0 <= i < lines.len() ==> #[trigger] lines[i] == seq!['!'] + exclude[i],
    ensures
        outcome == Ok::<Option<Override>, OverrideError>(None) <==> exclude.len() == 0,
        outcome matches Ok(Some(matcher)) ==> built_matcher(directory, lines) == Ok::<
            Override,
            ignore::Error,
        >(matcher),
        outcome matches Err(OverrideError::Build { error }) ==> built_matcher(directory, lines)
            == Err::<Override, ignore::Error>(error),
        outcome matches Err(OverrideError::Glob { index, error }) ==> {
            &&& index < exclude.len()
            &&& added_line(lines[index as int]) == Err::<(), ignore::Error>(error)
            &&& forall|i: int| 0 <= i < index ==> added_line(#[trigger] lines[i]) is Ok
        },
        !(outcome matches Err(OverrideError::Glob { .. })) ==> forall|i: int|
            0 <= i < lines.len() ==> added_line(#[trigger] lines[i]) is Ok,
{
    assert(lines =~= exclude_lines(exclude));
}

} // verus!
