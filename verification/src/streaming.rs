//! A measurement of how a stream of text is rendered while it grows.
//!
//! A stream is fed chunk by chunk. Every few chunks what is rendered so far is
//! presented, and has to be what the text so far renders to.

use crate::metrics;
use crate::metrics::plain_metric_line;
use crate::numbers;
use crate::numbers::parse_number;
use crate::text;
use crate::text::chars_of;
use vstd::prelude::*;

verus! {

/// After how many chunks is presented, where nothing else is set.
pub const DEFAULT_PRESENTATION_CHUNKS: usize = 8;

/// The width that is rendered for.
pub const RENDER_WIDTH: usize = 80;

/// After how many chunks is presented, by a setting.
pub open spec fn presentation_setting(setting: Option<Seq<char>>) -> nat {
    match setting {
        Some(value) => match numbers::parsed(value, usize::MAX as nat) {
            Some(chunks) => if chunks > 0 {
                chunks
            } else {
                DEFAULT_PRESENTATION_CHUNKS as nat
            },
            None => DEFAULT_PRESENTATION_CHUNKS as nat,
        },
        None => DEFAULT_PRESENTATION_CHUNKS as nat,
    }
}

/// After how many chunks is presented. A setting that is no positive number
/// counts for nothing.
pub fn presentation_chunks(setting: Option<&str>) -> (chunks: usize)
    ensures
        chunks == presentation_setting(
            match setting {
                Some(value) => Some(value@),
                None => None,
            },
        ),
        chunks > 0,
{
    match setting {
        Some(value) => match parse_number(value, usize::MAX as u64) {
            Some(chunks) => if chunks > 0 {
                chunks as usize
            } else {
                DEFAULT_PRESENTATION_CHUNKS
            },
            None => DEFAULT_PRESENTATION_CHUNKS,
        },
        None => DEFAULT_PRESENTATION_CHUNKS,
    }
}

/// Whether what is rendered is presented behind the chunk at this place.
pub fn is_boundary(index: usize, presentation_chunks: usize) -> (boundary: bool)
    requires
        index < usize::MAX,
        presentation_chunks > 0,
    ensures
        boundary == ((index + 1) % presentation_chunks as int == 0),
{
    (index + 1) % presentation_chunks == 0
}

/// What a stream consists of.
#[derive(Debug, Clone, Copy, PartialEq, Eq, Structural)]
pub enum FixtureKind {
    Paragraph,
    UnclosedFence,
    Table,
}

impl FixtureKind {
    /// The name of the kind.
    pub open spec fn text(self) -> Seq<char> {
        match self {
            FixtureKind::Paragraph => "paragraph"@,
            FixtureKind::UnclosedFence => "unclosed_fence"@,
            FixtureKind::Table => "table"@,
        }
    }

    /// The name of the kind.
    pub fn name(&self) -> (name: String)
        ensures
            name@ == self.text(),
    {
        match self {
            FixtureKind::Paragraph => text::copy_of("paragraph"),
            FixtureKind::UnclosedFence => text::copy_of("unclosed_fence"),
            FixtureKind::Table => text::copy_of("table"),
        }
    }

    /// The chunks of a stream of this kind.
    pub open spec fn chunks(self, chunk_count: nat) -> Seq<Seq<char>> {
        match self {
            FixtureKind::Paragraph => paragraph_chunks(chunk_count),
            FixtureKind::UnclosedFence => fence_chunks(chunk_count),
            FixtureKind::Table => table_chunks(chunk_count),
        }
    }
}

/// Lines of one paragraph.
pub open spec fn paragraph_chunks(chunk_count: nat) -> Seq<Seq<char>> {
    Seq::new(chunk_count, |i: int| "p"@ + text::zero_padded(i as nat, 4) + "\n"@)
}

/// A code fence that is opened and never closed.
pub open spec fn fence_chunks(chunk_count: nat) -> Seq<Seq<char>> {
    seq!["```rust\n"@] + Seq::new(
        if chunk_count >= 1 {
            (chunk_count - 1) as nat
        } else {
            0
        },
        |i: int| "x"@ + text::zero_padded((i + 1) as nat, 4) + "\n"@,
    )
}

/// A table, row by row.
pub open spec fn table_chunks(chunk_count: nat) -> Seq<Seq<char>> {
    seq!["| A | B |\n"@, "|---|---|\n"@] + Seq::new(
        if chunk_count >= 2 {
            (chunk_count - 2) as nat
        } else {
            0
        },
        |i: int| "| "@ + text::zero_padded((i + 2) as nat, 4) + " | x |\n"@,
    )
}

fn numbered(before: &str, index: usize, behind: &str) -> (chunk: String)
    ensures
        chunk@ == before@ + text::zero_padded(index as nat, 4) + behind@,
{
    let mut chunk = text::copy_of(before);
    text::push_zero_padded(&mut chunk, index as u64, 4);
    text::push_str(&mut chunk, behind);
    chunk
}

/// Lines of one paragraph.
pub fn growing_paragraph_chunks(chunk_count: usize) -> (chunks: Vec<String>)
    ensures
        text::texts(chunks@) == paragraph_chunks(chunk_count as nat),
{
    let mut chunks: Vec<String> = Vec::new();
    for index in 0..chunk_count
        invariant
            chunks@.len() == index,
            forall|i: int|
                0 <= i < index ==> (#[trigger] chunks@[i])@ == "p"@ + text::zero_padded(
                    i as nat,
                    4,
                ) + "\n"@,
    {
        chunks.push(numbered("p", index, "\n"));
    }
    assert(text::texts(chunks@) =~= paragraph_chunks(chunk_count as nat));
    chunks
}

/// A code fence that is opened and never closed.
pub fn unclosed_fence_chunks(chunk_count: usize) -> (chunks: Vec<String>)
    ensures
        text::texts(chunks@) == fence_chunks(chunk_count as nat),
{
    let mut chunks: Vec<String> = Vec::new();
    chunks.push(text::copy_of("```rust\n"));
    let mut index: usize = 1;
    while index < chunk_count
        invariant
            1 <= index,
            index <= chunk_count || index == 1,
            chunks@.len() == index,
            chunks@[0]@ == "```rust\n"@,
            forall|i: int|
                1 <= i < index ==> (#[trigger] chunks@[i])@ == "x"@ + text::zero_padded(
                    i as nat,
                    4,
                ) + "\n"@,
        decreases chunk_count - index,
    {
        chunks.push(numbered("x", index, "\n"));
        index += 1;
    }
    assert(text::texts(chunks@) =~= fence_chunks(chunk_count as nat));
    chunks
}

/// A table, row by row.
pub fn growing_table_chunks(chunk_count: usize) -> (chunks: Vec<String>)
    ensures
        text::texts(chunks@) == table_chunks(chunk_count as nat),
{
    let mut chunks: Vec<String> = Vec::new();
    chunks.push(text::copy_of("| A | B |\n"));
    chunks.push(text::copy_of("|---|---|\n"));
    let mut index: usize = 2;
    while index < chunk_count
        invariant
            2 <= index,
            index <= chunk_count || index == 2,
            chunks@.len() == index,
            chunks@[0]@ == "| A | B |\n"@,
            chunks@[1]@ == "|---|---|\n"@,
            forall|i: int|
                2 <= i < index ==> (#[trigger] chunks@[i])@ == "| "@ + text::zero_padded(
                    i as nat,
                    4,
                ) + " | x |\n"@,
        decreases chunk_count - index,
    {
        chunks.push(numbered("| ", index, " | x |\n"));
        index += 1;
    }
    assert(text::texts(chunks@) =~= table_chunks(chunk_count as nat));
    chunks
}

/// A stream with at least two chunks has as many as it is asked for, whatever
/// its kind.
pub proof fn law_streams_have_the_asked_length(kind: FixtureKind, chunk_count: nat)
    requires
        chunk_count >= 2,
    ensures
        kind.chunks(chunk_count).len() == chunk_count,
{
}

/// A stream to be measured.
#[derive(Debug)]
pub struct Fixture {
    pub kind: FixtureKind,
    pub chunk_count: usize,
    pub chunks: Vec<String>,
}

impl Fixture {
    /// Whether the stream is of this kind and length.
    pub open spec fn is_stream(self, kind: FixtureKind, chunk_count: int) -> bool {
        &&& self.kind == kind
        &&& self.chunk_count == chunk_count
        &&& text::texts(self.chunks@) == kind.chunks(chunk_count as nat)
    }
}

/// The length of the streams at this place of the workload.
pub open spec fn chunk_count_at(index: int) -> int {
    if index < 3 {
        10
    } else if index < 6 {
        100
    } else {
        1000
    }
}

/// The kind of the stream at this place of the workload.
pub open spec fn kind_at(index: int) -> FixtureKind {
    if index % 3 == 0 {
        FixtureKind::Paragraph
    } else if index % 3 == 1 {
        FixtureKind::UnclosedFence
    } else {
        FixtureKind::Table
    }
}

fn push_fixtures(fixtures: &mut Vec<Fixture>, chunk_count: usize)
    ensures
        final(fixtures)@.len() == old(fixtures)@.len() + 3,
        forall|i: int|
            0 <= i < old(fixtures)@.len() ==> #[trigger] final(fixtures)@[i] == old(fixtures)@[i],
        final(fixtures)@[old(fixtures)@.len() as int].is_stream(
            FixtureKind::Paragraph,
            chunk_count as int,
        ),
        final(fixtures)@[old(fixtures)@.len() as int + 1].is_stream(
            FixtureKind::UnclosedFence,
            chunk_count as int,
        ),
        final(fixtures)@[old(fixtures)@.len() as int + 2].is_stream(FixtureKind::Table, chunk_count as int),
{
    fixtures.push(
        Fixture {
            kind: FixtureKind::Paragraph,
            chunk_count,
            chunks: growing_paragraph_chunks(chunk_count),
        },
    );
    fixtures.push(
        Fixture {
            kind: FixtureKind::UnclosedFence,
            chunk_count,
            chunks: unclosed_fence_chunks(chunk_count),
        },
    );
    fixtures.push(
        Fixture { kind: FixtureKind::Table, chunk_count, chunks: growing_table_chunks(chunk_count) },
    );
}

/// The streams of the workload: of each length one of each kind.
pub fn fixtures() -> (fixtures: Vec<Fixture>)
    ensures
        fixtures@.len() == 9,
        forall|i: int|
            0 <= i < 9 ==> (#[trigger] fixtures@[i]).is_stream(kind_at(i), chunk_count_at(i)),
{
    let mut fixtures: Vec<Fixture> = Vec::new();
    push_fixtures(&mut fixtures, 10);
    push_fixtures(&mut fixtures, 100);
    push_fixtures(&mut fixtures, 1000);
    fixtures
}

/// A rendered line: pieces of text, each drawn in its own way.
#[derive(Debug)]
pub struct RenderedLine {
    pub spans: Vec<String>,
}

/// The text of a line whose pieces hold these texts.
pub open spec fn joined_spans(spans: Seq<Seq<char>>) -> Seq<char>
    decreases spans.len(),
{
    if spans.len() == 0 {
        Seq::empty()
    } else {
        joined_spans(spans.drop_last()) + spans.last()
    }
}

impl RenderedLine {
    /// The text of the line.
    pub open spec fn text(self) -> Seq<char> {
        joined_spans(text::texts(self.spans@))
    }
}

/// The texts of several lines.
pub open spec fn line_texts(lines: Seq<RenderedLine>) -> Seq<Seq<char>> {
    Seq::new(lines.len(), |i: int| lines[i].text())
}

/// The text of a line.
pub fn line_text(line: &RenderedLine) -> (whole: String)
    ensures
        whole@ == line.text(),
{
    let mut whole = String::new();
    let ghost spans = text::texts(line.spans@);
    assert(spans.take(0) =~= Seq::empty());
    for i in 0..line.spans.len()
        invariant
            spans == text::texts(line.spans@),
            whole@ == joined_spans(spans.take(i as int)),
    {
        text::push_str(&mut whole, &line.spans[i]);
        assert(spans.take(i + 1).drop_last() =~= spans.take(i as int));
        assert(spans.take(i + 1).last() == line.spans@[i as int]@);
    }
    assert(spans.take(spans.len() as int) =~= spans);
    whole
}

/// The texts of several lines.
pub fn plain_lines(lines: &Vec<RenderedLine>) -> (texts: Vec<String>)
    ensures
        text::texts(texts@) == line_texts(lines@),
{
    let mut texts: Vec<String> = Vec::new();
    for i in 0..lines.len()
        invariant
            texts@.len() == i,
            forall|j: int| 0 <= j < i ==> (#[trigger] texts@[j])@ == lines@[j].text(),
    {
        texts.push(line_text(&lines[i]));
    }
    assert(text::texts(texts@) =~= line_texts(lines@));
    texts
}

/// Where the line that begins at `from` ends: at the next line feed, or at the
/// end of the text.
pub open spec fn line_end(content: Seq<char>, from: int) -> int
    decreases content.len() - from,
{
    if from >= content.len() || from < 0 {
        content.len() as int
    } else if content[from] == '\n' {
        from
    } else {
        line_end(content, from + 1)
    }
}

/// A line without the carriage return in front of its line feed.
pub open spec fn without_return(line: Seq<char>) -> Seq<char> {
    if line.len() > 0 && line.last() == '\r' {
        line.drop_last()
    } else {
        line
    }
}

/// The lines of a text from `from` on, without their line ends. A line end at
/// the end of the text begins no further line.
pub open spec fn lines_from(content: Seq<char>, from: int) -> Seq<Seq<char>>
    decreases content.len() - from,
{
    if from < 0 || from >= content.len() {
        Seq::empty()
    } else {
        let end = line_end(content, from);
        if from <= end < content.len() {
            seq![without_return(content.subrange(from, end))] + lines_from(content, end + 1)
        } else {
            seq![content.subrange(from, content.len() as int)]
        }
    }
}

/// The line of a single text: a piece for each line of it.
fn raw_line(content: &str) -> (line: RenderedLine)
    ensures
        text::texts(line.spans@) == lines_from(content@, 0),
{
    let chars = chars_of(content);
    let mut spans: Vec<String> = Vec::new();
    let mut from: usize = 0;
    assert(text::texts(spans@) + lines_from(content@, 0) =~= lines_from(content@, 0));
    while from < chars.len()
        invariant
            chars@ == content@,
            from <= chars@.len(),
            text::texts(spans@) + lines_from(content@, from as int) == lines_from(content@, 0),
        decreases chars@.len() - from,
    {
        let ghost before = text::texts(spans@);
        let ghost rest = lines_from(content@, from as int);
        let mut end: usize = from;
        while end < chars.len() && chars[end] != '\n'
            invariant
                chars@ == content@,
                from <= end <= chars@.len(),
                line_end(content@, from as int) == line_end(content@, end as int),
            decreases chars@.len() - end,
        {
            end += 1;
        }
        if end == chars.len() {
            let span = text::string_from(&chars, from, end);
            let ghost added = span@;
            spans.push(span);
            assert(text::texts(spans@) =~= before.push(added));
            assert(lines_from(content@, end as int) =~= Seq::empty());
            assert(text::texts(spans@) + lines_from(content@, end as int) =~= before + rest);
            from = end;
        } else {
            let stop: usize = if end > from && chars[end - 1] == '\r' {
                end - 1
            } else {
                end
            };
            let span = text::string_from(&chars, from, stop);
            let ghost added = span@;
            assert(added =~= without_return(content@.subrange(from as int, end as int)));
            spans.push(span);
            assert(text::texts(spans@) =~= before.push(added));
            assert(text::texts(spans@) + lines_from(content@, end + 1) =~= before + rest);
            from = end + 1;
        }
    }
    assert(text::texts(spans@) + lines_from(content@, from as int) =~= text::texts(spans@));
    RenderedLine { spans }
}

/// A text without its first two characters.
pub open spec fn without_prefix(content: Seq<char>) -> Seq<char> {
    if content.len() >= 2 {
        content.skip(2)
    } else {
        Seq::empty()
    }
}

/// The text of a line without the mark in front of what an agent says.
pub open spec fn stripped_text(content: Seq<char>) -> Seq<char> {
    joined_spans(lines_from(without_prefix(content), 0))
}

/// Takes the mark in front of what an agent says off every line.
pub fn strip_agent_prefix(lines: &Vec<RenderedLine>) -> (stripped: Vec<RenderedLine>)
    ensures
        stripped@.len() == lines@.len(),
        forall|i: int|
            0 <= i < lines@.len() ==> text::texts((#[trigger] stripped@[i]).spans@) == lines_from(
                without_prefix(lines@[i].text()),
                0,
            ),
{
    let mut stripped: Vec<RenderedLine> = Vec::new();
    for i in 0..lines.len()
        invariant
            stripped@.len() == i,
            forall|j: int|
                0 <= j < i ==> text::texts((#[trigger] stripped@[j]).spans@) == lines_from(
                    without_prefix(lines@[j].text()),
                    0,
                ),
    {
        let whole = line_text(&lines[i]);
        let chars = chars_of(&whole);
        let start: usize = if chars.len() >= 2 {
            2
        } else {
            chars.len()
        };
        let rest = text::string_from(&chars, start, chars.len());
        assert(rest@ =~= without_prefix(lines@[i as int].text()));
        stripped.push(raw_line(&rest));
    }
    stripped
}

/// A line that holds no line feed loses its first two characters and nothing
/// else.
pub proof fn law_stripping_keeps_the_rest(content: Seq<char>)
    requires
        !content.contains('\n'),
    ensures
        stripped_text(content) == without_prefix(content),
{
    let rest = without_prefix(content);
    if rest.len() > 0 {
        assert forall|i: int| 0 <= i < rest.len() implies rest[i] != '\n' by {
            assert(content[i + 2] == rest[i]);
        }
        lemma_no_line_end(rest, 0);
        assert(lines_from(rest, 0) =~= seq![rest]) by {
            assert(rest.subrange(0, rest.len() as int) =~= rest);
        }
        assert(seq![rest].drop_last() =~= Seq::empty());
        assert(joined_spans(seq![rest].drop_last()) =~= Seq::empty());
        assert(joined_spans(seq![rest]) =~= rest);
    } else {
        assert(rest =~= Seq::empty());
        assert(joined_spans(lines_from(rest, 0)) =~= rest);
    }
}

proof fn lemma_no_line_end(content: Seq<char>, from: int)
    requires
        0 <= from <= content.len(),
        forall|i: int| 0 <= i < content.len() ==> content[i] != '\n',
    ensures
        line_end(content, from) == content.len(),
    decreases content.len() - from,
{
    if from < content.len() {
        lemma_no_line_end(content, from + 1);
    }
}

/// What a stream has shown so far: the text that went in, and the texts of the
/// lines that are settled.
#[derive(Debug)]
pub struct BoundaryCheck {
    pub source: String,
    pub emitted: Vec<String>,
}

/// What a [`BoundaryCheck`] holds.
pub struct BoundaryView {
    pub source: Seq<char>,
    pub emitted: Seq<Seq<char>>,
}

impl View for BoundaryCheck {
    type V = BoundaryView;

    open spec fn view(&self) -> BoundaryView {
        BoundaryView { source: self.source@, emitted: text::texts(self.emitted@) }
    }
}

/// Where a stream showed something else than its text renders to.
#[derive(Debug, Clone, Copy, PartialEq, Eq, Structural)]
pub enum Divergence {
    /// At a presentation, after this many chunks.
    AtBoundary { chunks: usize },
    /// The text that was handed back at the end is not the one that went in.
    SourceLost { chunks: usize },
    /// At the end, after this many chunks.
    AtEnd { chunks: usize },
}

impl Divergence {
    /// What is said of the divergence of a stream of this kind.
    pub open spec fn text(self, kind: FixtureKind) -> Seq<char> {
        match self {
            Divergence::AtBoundary { chunks } => kind.text()
                + " stream diverged at presentation boundary after "@ + text::decimal(
                chunks as nat,
            ) + " chunks"@,
            Divergence::SourceLost { chunks } => kind.text()
                + " stream lost source while finalizing "@ + text::decimal(chunks as nat)
                + " chunks"@,
            Divergence::AtEnd { chunks } => kind.text() + " stream diverged after finalizing "@
                + text::decimal(chunks as nat) + " chunks"@,
        }
    }

    /// What is said of the divergence of a stream of this kind.
    pub fn message(&self, kind: FixtureKind) -> (message: String)
        ensures
            message@ == self.text(kind),
    {
        let mut message = kind.name();
        let chunks: usize = match self {
            Divergence::AtBoundary { chunks } => {
                text::push_str(&mut message, " stream diverged at presentation boundary after ");
                *chunks
            },
            Divergence::SourceLost { chunks } => {
                text::push_str(&mut message, " stream lost source while finalizing ");
                *chunks
            },
            Divergence::AtEnd { chunks } => {
                text::push_str(&mut message, " stream diverged after finalizing ");
                *chunks
            },
        };
        text::push_decimal(&mut message, chunks as u64);
        text::push_str(&mut message, " chunks");
        message
    }
}

impl BoundaryView {
    /// Settled lines came out: their texts stand behind the others, without the
    /// mark in front.
    pub open spec fn emitting(self, cell: Seq<Seq<char>>) -> BoundaryView {
        BoundaryView {
            emitted: self.emitted + Seq::new(cell.len(), |i: int| stripped_text(cell[i])),
            ..self
        }
    }
}

impl BoundaryCheck {
    /// A stream that nothing went into.
    pub fn new() -> (check: Self)
        ensures
            check@ == (BoundaryView { source: Seq::empty(), emitted: Seq::empty() }),
    {
        let check = BoundaryCheck { source: String::new(), emitted: Vec::new() };
        assert(check@.emitted =~= Seq::empty());
        check
    }

    /// A chunk went in.
    pub fn push_chunk(&mut self, chunk: &str)
        ensures
            final(self)@ == (BoundaryView { source: old(self)@.source + chunk@, ..old(self)@ }),
    {
        text::push_str(&mut self.source, chunk);
    }

    /// Settled lines came out.
    pub fn emit(&mut self, cell: &Vec<RenderedLine>)
        ensures
            final(self)@ == old(self)@.emitting(line_texts(cell@)),
    {
        let stripped = strip_agent_prefix(cell);
        let texts = plain_lines(&stripped);
        let ghost before = self@;
        let ghost added = Seq::new(cell@.len(), |i: int| stripped_text(line_texts(cell@)[i]));
        assert(texts@.len() == cell@.len()) by {
            assert(text::texts(texts@).len() == line_texts(stripped@).len());
        }
        assert forall|i: int| 0 <= i < cell@.len() implies (#[trigger] texts@[i])@ == added[i] by {
            assert(texts@[i]@ == text::texts(texts@)[i]);
            assert(line_texts(stripped@)[i] == stripped@[i].text());
        }
        for i in 0..texts.len()
            invariant
                before == old(self)@,
                texts@.len() == cell@.len(),
                added.len() == cell@.len(),
                forall|j: int| 0 <= j < cell@.len() ==> (#[trigger] texts@[j])@ == added[j],
                self.source@ == before.source,
                text::texts(self.emitted@) == before.emitted + added.take(i as int),
        {
            let ghost emitted = text::texts(self.emitted@);
            self.emitted.push(text::copy_of(&texts[i]));
            assert(text::texts(self.emitted@) =~= emitted.push(added[i as int]));
            assert(added.take(i + 1) =~= added.take(i as int).push(added[i as int]));
        }
        assert(added.take(added.len() as int) =~= added);
        assert(line_texts(cell@).len() == cell@.len());
        assert(before.emitting(line_texts(cell@)).emitted =~= before.emitted + added);
    }

    /// Whether the settled lines and the given ones behind them are what is
    /// expected.
    fn shows(&self, tail: &Vec<RenderedLine>, expected: &Vec<String>) -> (shows: bool)
        ensures
            shows == (self@.emitted + line_texts(tail@) == text::texts(expected@)),
    {
        let tail_texts = plain_lines(tail);
        let mut visible = text::copy_texts(&self.emitted);
        let ghost settled = self@.emitted;
        let ghost behind = line_texts(tail@);
        for i in 0..tail_texts.len()
            invariant
                text::texts(tail_texts@) == behind,
                text::texts(visible@) == settled + behind.take(i as int),
        {
            let ghost before = text::texts(visible@);
            assert(behind[i as int] == tail_texts@[i as int]@);
            visible.push(text::copy_of(&tail_texts[i]));
            assert(text::texts(visible@) =~= before.push(behind[i as int]));
            assert(behind.take(i + 1) =~= behind.take(i as int).push(behind[i as int]));
        }
        assert(text::texts(tail_texts@).len() == tail_texts@.len());
        assert(behind.take(behind.len() as int) =~= behind);
        text::same_texts(&visible, expected)
    }

    /// Checks a presentation: the settled lines with the unsettled ones behind
    /// them have to be what the text so far renders to.
    pub fn check_boundary(
        &self,
        chunks: usize,
        tail: &Vec<RenderedLine>,
        expected: &Vec<String>,
    ) -> (checked: Result<(), Divergence>)
        ensures
            checked == (if self@.emitted + line_texts(tail@) == text::texts(expected@) {
                Ok::<(), Divergence>(())
            } else {
                Err(Divergence::AtBoundary { chunks })
            }),
    {
        if self.shows(tail, expected) {
            Ok(())
        } else {
            Err(Divergence::AtBoundary { chunks })
        }
    }

    /// Checks that the text that is handed back at the end is the one that went
    /// in.
    pub fn check_source(&self, chunks: usize, finalized: Option<&str>) -> (checked: Result<
        (),
        Divergence,
    >)
        ensures
            checked == (if finalized is Some && finalized->0@ == self@.source {
                Ok::<(), Divergence>(())
            } else {
                Err(Divergence::SourceLost { chunks })
            }),
    {
        match finalized {
            Some(source) => {
                if text::same_text(source, &self.source) {
                    Ok(())
                } else {
                    Err(Divergence::SourceLost { chunks })
                }
            },
            None => Err(Divergence::SourceLost { chunks }),
        }
    }

    /// Checks the end: the settled lines have to be what the whole text renders
    /// to.
    pub fn check_end(&self, chunks: usize, expected: &Vec<String>) -> (checked: Result<
        (),
        Divergence,
    >)
        ensures
            checked == (if self@.emitted == text::texts(expected@) {
                Ok::<(), Divergence>(())
            } else {
                Err(Divergence::AtEnd { chunks })
            }),
    {
        if text::same_texts(&self.emitted, expected) {
            Ok(())
        } else {
            Err(Divergence::AtEnd { chunks })
        }
    }
}

/// One for something, none for nothing.
pub open spec fn presence(present: bool) -> usize {
    if present {
        1
    } else {
        0
    }
}

/// One for a cell that came out, none for none.
pub fn consume_cell(present: bool) -> (count: usize)
    ensures
        count == presence(present),
{
    if present {
        1
    } else {
        0
    }
}

/// A sum over what a stream did, so that none of it goes unused.
#[derive(Debug, Clone, Copy, PartialEq, Eq, Structural)]
pub struct Checksum {
    pub value: usize,
}

impl Checksum {
    /// The sum over nothing.
    pub fn new() -> (sum: Self)
        ensures
            sum.value == 0,
    {
        Checksum { value: 0 }
    }

    /// A chunk went in, and made the stream do something or not.
    pub fn chunk_pushed(&mut self, enqueued: bool)
        ensures
            final(self).value == old(self).value.wrapping_add(presence(enqueued)),
    {
        self.value = self.value.wrapping_add(consume_cell(enqueued));
    }

    /// What is rendered was presented: a cell or none, and this many lines that
    /// are not settled.
    pub fn presented(&mut self, cell_present: bool, tail_lines: usize)
        ensures
            final(self).value == old(self).value.wrapping_add(presence(cell_present)).wrapping_add(
                tail_lines,
            ),
    {
        self.value = self.value.wrapping_add(consume_cell(cell_present));
        self.value = self.value.wrapping_add(tail_lines);
    }

    /// The stream ended: with a cell or none, and a text of this many bytes or
    /// none.
    pub fn finalized(&mut self, cell_present: bool, source_bytes: Option<usize>)
        ensures
            final(self).value == old(self).value.wrapping_add(presence(cell_present)).wrapping_add(
                match source_bytes {
                    Some(bytes) => bytes,
                    None => 0,
                },
            ),
    {
        self.value = self.value.wrapping_add(consume_cell(cell_present));
        let bytes: usize = match source_bytes {
            Some(bytes) => bytes,
            None => 0,
        };
        self.value = self.value.wrapping_add(bytes);
    }
}

/// The sum of the streams' sums.
pub open spec fn workload_sum(sums: Seq<usize>) -> usize
    decreases sums.len(),
{
    if sums.len() == 0 {
        0
    } else {
        workload_sum(sums.drop_last()).wrapping_add(sums.last())
    }
}

/// The sum of the streams' sums.
pub fn run_workload(sums: &Vec<usize>) -> (sum: usize)
    ensures
        sum == workload_sum(sums@),
{
    let mut sum: usize = 0;
    assert(sums@.take(0) =~= Seq::empty());
    for i in 0..sums.len()
        invariant
            sum == workload_sum(sums@.take(i as int)),
    {
        assert(sums@.take(i + 1).drop_last() =~= sums@.take(i as int));
        sum = sum.wrapping_add(sums[i]);
    }
    assert(sums@.take(sums@.len() as int) =~= sums@);
    sum
}

/// Why a measurement says nothing.
#[derive(Debug, Clone, Copy, PartialEq, Eq, Structural)]
pub enum StatsFault {
    NotReached,
    NoInput,
}

/// Checks that the renderer was called, and given something.
pub fn check_stats(calls: u64, input_bytes: u64) -> (checked: Result<(), StatsFault>)
    ensures
        checked == (if calls == 0 {
            Err(StatsFault::NotReached)
        } else if input_bytes == 0 {
            Err(StatsFault::NoInput)
        } else {
            Ok::<(), StatsFault>(())
        }),
{
    if calls == 0 {
        Err(StatsFault::NotReached)
    } else if input_bytes == 0 {
        Err(StatsFault::NoInput)
    } else {
        Ok(())
    }
}

/// The three lines that report on a measurement.
pub fn sample_lines(elapsed_ns: u64, calls: u64, input_bytes: u64) -> (lines: (
    String,
    String,
    String,
))
    ensures
        lines.0@ == metrics::plain_line("streaming_rerender_ns/op"@, elapsed_ns as nat),
        lines.1@ == metrics::plain_line("streaming_renderer_calls/op"@, calls as nat),
        lines.2@ == metrics::plain_line("streaming_renderer_input_bytes/op"@, input_bytes as nat),
{
    (
        plain_metric_line("streaming_rerender_ns/op", elapsed_ns),
        plain_metric_line("streaming_renderer_calls/op", calls),
        plain_metric_line("streaming_renderer_input_bytes/op", input_bytes),
    )
}

/// One thing that is done with a stream.
#[derive(Debug, Clone, Copy, PartialEq, Eq, Structural)]
pub enum StreamStep {
    /// The chunk at this place is fed to the renderer.
    Feed(usize),
    /// What is rendered of this many chunks is presented.
    Present(usize),
    /// The renderer is told that the stream ends.
    Finalize,
}

/// What is done with the first `count` chunks of a stream: they are fed one by
/// one, and what is rendered is presented every few chunks.
pub open spec fn steps_after(presentation_chunks: int, count: int) -> Seq<StreamStep>
    decreases count,
{
    if count <= 0 {
        Seq::empty()
    } else {
        let fed = steps_after(presentation_chunks, count - 1).push(
            StreamStep::Feed((count - 1) as usize),
        );
        if count % presentation_chunks == 0 {
            fed.push(StreamStep::Present(count as usize))
        } else {
            fed
        }
    }
}

/// Lists what is done with a stream, in order.
pub fn stream_steps(fixture: &Fixture, presentation_chunks: usize) -> (steps: Vec<StreamStep>)
    requires
        presentation_chunks > 0,
    ensures
        steps@ == steps_after(presentation_chunks as int, fixture.chunks@.len() as int).push(
            StreamStep::Finalize,
        ),
{
    let mut steps: Vec<StreamStep> = Vec::new();
    for index in 0..fixture.chunks.len()
        invariant
            presentation_chunks > 0,
            steps@ == steps_after(presentation_chunks as int, index as int),
    {
        steps.push(StreamStep::Feed(index));
        if is_boundary(index, presentation_chunks) {
            steps.push(StreamStep::Present(index + 1));
        }
    }
    steps.push(StreamStep::Finalize);
    steps
}

/// The text of the first `count` chunks.
pub open spec fn source_after(chunks: Seq<Seq<char>>, count: int) -> Seq<char>
    decreases count,
{
    if count <= 0 {
        Seq::empty()
    } else {
        source_after(chunks, count - 1) + chunks[count - 1]
    }
}

/// The text of the first `count` chunks of a stream, which is what the renderer
/// was fed by then.
pub fn source_of(fixture: &Fixture, count: usize) -> (source: String)
    requires
        count <= fixture.chunks@.len(),
    ensures
        source@ == source_after(text::texts(fixture.chunks@), count as int),
{
    let mut source = String::new();
    let ghost chunks = text::texts(fixture.chunks@);
    for i in 0..count
        invariant
            count <= fixture.chunks@.len(),
            chunks == text::texts(fixture.chunks@),
            source@ == source_after(chunks, i as int),
    {
        assert(chunks[i as int] == fixture.chunks@[i as int]@);
        text::push_str(&mut source, &fixture.chunks[i]);
    }
    source
}

/// How many presentations there are among the steps.
pub open spec fn presentation_count(steps: Seq<StreamStep>) -> nat
    decreases steps.len(),
{
    if steps.len() == 0 {
        0
    } else {
        presentation_count(steps.drop_last()) + (if steps.last() is Present {
            1nat
        } else {
            0nat
        })
    }
}

/// The steps feed every chunk of a stream once and in order, and present once
/// for every full number of chunks.
pub proof fn law_steps_feed_every_chunk(presentation_chunks: int, count: int)
    requires
        presentation_chunks > 0,
        0 <= count <= usize::MAX,
    ensures
        steps_after(presentation_chunks, count).filter(|step: StreamStep| step is Feed)
            == Seq::new(count as nat, |i: int| StreamStep::Feed(i as usize)),
        presentation_count(steps_after(presentation_chunks, count)) == count
            / presentation_chunks,
    decreases count,
{
    let is_feed = |step: StreamStep| step is Feed;
    let steps = steps_after(presentation_chunks, count);
    if count == 0 {
        reveal(Seq::filter);
        assert(steps.filter(is_feed) =~= Seq::new(0, |i: int| StreamStep::Feed(i as usize)));
        assert(0int / presentation_chunks == 0) by (nonlinear_arith)
            requires
                presentation_chunks > 0,
        ;
    } else {
        law_steps_feed_every_chunk(presentation_chunks, count - 1);
        lemma_next_boundary(count - 1, presentation_chunks);
        let earlier = steps_after(presentation_chunks, count - 1);
        let feed = StreamStep::Feed((count - 1) as usize);
        let fed = earlier.push(feed);
        lemma_filter_push(earlier, feed);
        assert(fed.drop_last() =~= earlier);
        assert(presentation_count(fed) == presentation_count(earlier));
        if count % presentation_chunks == 0 {
            lemma_filter_push(fed, StreamStep::Present(count as usize));
            assert(steps.drop_last() =~= fed);
            assert(presentation_count(steps) == presentation_count(fed) + 1);
        }
        assert(steps.filter(is_feed) =~= Seq::new(
            count as nat,
            |i: int| StreamStep::Feed(i as usize),
        ));
    }
}

proof fn lemma_filter_push(steps: Seq<StreamStep>, step: StreamStep)
    ensures
        steps.push(step).filter(|step: StreamStep| step is Feed) == (if step is Feed {
            steps.filter(|step: StreamStep| step is Feed).push(step)
        } else {
            steps.filter(|step: StreamStep| step is Feed)
        }),
{
    reveal(Seq::filter);
    assert(steps.push(step).drop_last() =~= steps);
}

/// What a stream did: of each chunk whether it gave something to present, of
/// each presentation whether a cell came out and how many lines were not
/// settled, and of the end whether a cell came out and of how many bytes the
/// text was.
#[derive(Debug)]
pub struct FixtureRun {
    pub enqueued: Vec<bool>,
    pub presented: Vec<(bool, usize)>,
    pub finalized: (bool, Option<usize>),
}

/// The sum over what a stream did with its first `count` chunks.
pub open spec fn sum_after(
    enqueued: Seq<bool>,
    presented: Seq<(bool, usize)>,
    presentation_chunks: int,
    count: int,
) -> usize
    decreases count,
{
    if count <= 0 {
        0
    } else {
        let pushed = sum_after(
            enqueued,
            presented,
            presentation_chunks,
            count - 1,
        ).wrapping_add(presence(enqueued[count - 1]));
        if count % presentation_chunks == 0 {
            let at = count / presentation_chunks - 1;
            pushed.wrapping_add(presence(presented[at].0)).wrapping_add(presented[at].1)
        } else {
            pushed
        }
    }
}

impl FixtureRun {
    /// Whether the run went through all steps of the stream.
    pub open spec fn is_whole(self, fixture: Fixture, presentation_chunks: int) -> bool {
        &&& self.enqueued@.len() == fixture.chunks@.len()
        &&& self.presented@.len() == fixture.chunks@.len() as int / presentation_chunks
    }

    /// The sum over all that the stream did.
    pub open spec fn sum(self, presentation_chunks: int) -> usize {
        sum_after(
            self.enqueued@,
            self.presented@,
            presentation_chunks,
            self.enqueued@.len() as int,
        ).wrapping_add(presence(self.finalized.0)).wrapping_add(
            match self.finalized.1 {
                Some(bytes) => bytes,
                None => 0,
            },
        )
    }
}

/// One chunk more brings one presentation more where it is due, and none
/// elsewhere.
proof fn lemma_next_boundary(count: int, presentation_chunks: int)
    requires
        presentation_chunks > 0,
        count >= 0,
    ensures
        count / presentation_chunks >= 0,
        (count + 1) % presentation_chunks == 0 ==> (count + 1) / presentation_chunks == count
            / presentation_chunks + 1,
        (count + 1) % presentation_chunks != 0 ==> (count + 1) / presentation_chunks == count
            / presentation_chunks,
        (count + 1) % presentation_chunks == 0 ==> count + 1 == ((count + 1) / presentation_chunks)
            * presentation_chunks,
{
    let quotient = count / presentation_chunks;
    let remainder = count % presentation_chunks;
    vstd::arithmetic::div_mod::lemma_fundamental_div_mod(count, presentation_chunks);
    vstd::arithmetic::div_mod::lemma_fundamental_div_mod(count + 1, presentation_chunks);
    assert(quotient >= 0) by (nonlinear_arith)
        requires
            count >= 0,
            presentation_chunks > 0,
            quotient == count / presentation_chunks,
    ;
    assert(quotient * presentation_chunks == presentation_chunks * quotient) by (nonlinear_arith);
    assert((count + 1) / presentation_chunks * presentation_chunks == presentation_chunks * ((count
        + 1) / presentation_chunks)) by (nonlinear_arith);
    if remainder + 1 < presentation_chunks {
        vstd::arithmetic::div_mod::lemma_fundamental_div_mod_converse(
            count + 1,
            presentation_chunks,
            quotient,
            remainder + 1,
        );
    } else {
        assert((quotient + 1) * presentation_chunks == quotient * presentation_chunks
            + presentation_chunks) by (nonlinear_arith);
        vstd::arithmetic::div_mod::lemma_fundamental_div_mod_converse(
            count + 1,
            presentation_chunks,
            quotient + 1,
            0,
        );
    }
}

/// Sums up what happened when a stream was rendered.
pub fn run_fixture(fixture: &Fixture, presentation_chunks: usize, run: &FixtureRun) -> (sum: usize)
    requires
        presentation_chunks > 0,
        run.is_whole(*fixture, presentation_chunks as int),
    ensures
        sum == run.sum(presentation_chunks as int),
{
    let ghost every = presentation_chunks as int;
    let mut checksum = Checksum::new();
    let mut presentations: usize = 0;
    assert(0int / every == 0) by (nonlinear_arith)
        requires
            every > 0,
    ;
    for index in 0..run.enqueued.len()
        invariant
            every == presentation_chunks,
            presentation_chunks > 0,
            run.is_whole(*fixture, every),
            presentations == index as int / every,
            checksum.value == sum_after(run.enqueued@, run.presented@, every, index as int),
    {
        checksum.chunk_pushed(run.enqueued[index]);
        proof {
            lemma_next_boundary(index as int, every);
            lemma_presentations_in_range(index as int + 1, run.enqueued@.len() as int, every);
        }
        if is_boundary(index, presentation_chunks) {
            let (cell_present, tail_lines) = run.presented[presentations];
            checksum.presented(cell_present, tail_lines);
            presentations = presentations + 1;
        }
    }
    checksum.finalized(run.finalized.0, run.finalized.1);
    checksum.value
}

/// Fewer chunks bring no more presentations.
proof fn lemma_presentations_in_range(count: int, all: int, presentation_chunks: int)
    requires
        presentation_chunks > 0,
        0 <= count <= all,
    ensures
        count / presentation_chunks <= all / presentation_chunks,
{
    assert(count / presentation_chunks <= all / presentation_chunks) by (nonlinear_arith)
        requires
            presentation_chunks > 0,
            0 <= count <= all,
    ;
}

/// One presentation: the cell that came out, the lines that were not settled,
/// and what the text so far renders to.
#[derive(Debug)]
pub struct Presentation {
    pub cell: Option<Vec<RenderedLine>>,
    pub tail: Vec<RenderedLine>,
    pub expected: Vec<String>,
}

/// What was seen of a stream: its presentations, and at the end the cell that
/// came out, the text that was handed back, and what the whole text renders to.
#[derive(Debug)]
pub struct StreamRecord {
    pub presentations: Vec<Presentation>,
    pub last_cell: Option<Vec<RenderedLine>>,
    pub source: Option<String>,
    pub expected: Vec<String>,
}

/// The texts of a cell's lines, without the mark in front.
pub open spec fn cell_texts(cell: Option<Vec<RenderedLine>>) -> Seq<Seq<char>> {
    match cell {
        Some(lines) => Seq::new(lines@.len(), |i: int| stripped_text(line_texts(lines@)[i])),
        None => Seq::empty(),
    }
}

/// The texts of the lines that were settled by presentations.
pub open spec fn settled_texts(presentations: Seq<Presentation>) -> Seq<Seq<char>>
    decreases presentations.len(),
{
    if presentations.len() == 0 {
        Seq::empty()
    } else {
        settled_texts(presentations.drop_last()) + cell_texts(presentations.last().cell)
    }
}

/// Whether the presentation at this place shows what is expected: the settled
/// lines with the unsettled ones behind them.
pub open spec fn shows_expected(presentations: Seq<Presentation>, at: int) -> bool {
    settled_texts(presentations.take(at + 1)) + line_texts(presentations[at].tail@) == text::texts(
        presentations[at].expected@,
    )
}

/// Whether the first `count` presentations show what is expected.
pub open spec fn all_show_expected(presentations: Seq<Presentation>, count: int) -> bool {
    forall|at: int|
        #![trigger presentations[at]]
        0 <= at < count ==> shows_expected(presentations, at)
}

impl StreamRecord {
    /// Whether every presentation of the stream was recorded.
    pub open spec fn is_whole(self, fixture: Fixture, presentation_chunks: int) -> bool {
        self.presentations@.len() == fixture.chunks@.len() as int / presentation_chunks
    }

    /// Whether the text that was handed back is the one that went in.
    pub open spec fn has_source(self, fixture: Fixture) -> bool {
        self.source matches Some(source) && source@ == source_after(
            text::texts(fixture.chunks@),
            fixture.chunks@.len() as int,
        )
    }

    /// Whether the end shows what is expected.
    pub open spec fn ends_expected(self) -> bool {
        settled_texts(self.presentations@) + cell_texts(self.last_cell) == text::texts(
            self.expected@,
        )
    }
}

/// Checks that a stream showed at every presentation, and at the end, what its
/// text so far renders to, and that the text came back whole. Names the first
/// divergence there is.
pub fn verify_fixture_at_presentation_boundaries(
    fixture: &Fixture,
    presentation_chunks: usize,
    record: &StreamRecord,
) -> (verified: Result<(), Divergence>)
    requires
        presentation_chunks > 0,
        record.is_whole(*fixture, presentation_chunks as int),
    ensures
        ({
            let presentations = record.presentations@;
            let count = presentations.len() as int;
            match verified {
                Ok(()) => {
                    &&& all_show_expected(presentations, count)
                    &&& record.has_source(*fixture)
                    &&& record.ends_expected()
                },
                Err(Divergence::AtBoundary { chunks }) => exists|at: int|
                    #![trigger presentations[at]]
                    {
                        &&& 0 <= at < count
                        &&& chunks == (at + 1) * presentation_chunks
                        &&& all_show_expected(presentations, at)
                        &&& !shows_expected(presentations, at)
                    },
                Err(Divergence::SourceLost { chunks }) => {
                    &&& chunks == fixture.chunk_count
                    &&& all_show_expected(presentations, count)
                    &&& !record.has_source(*fixture)
                },
                Err(Divergence::AtEnd { chunks }) => {
                    &&& chunks == fixture.chunk_count
                    &&& all_show_expected(presentations, count)
                    &&& record.has_source(*fixture)
                    &&& !record.ends_expected()
                },
            }
        }),
{
    let ghost every = presentation_chunks as int;
    let ghost all = record.presentations@;
    let mut check = BoundaryCheck::new();
    check.push_chunk(&source_of(fixture, fixture.chunks.len()));
    assert(all.take(0) =~= Seq::empty());
    assert(check@.emitted =~= settled_texts(all.take(0)));
    for at in 0..record.presentations.len()
        invariant
            every == presentation_chunks,
            presentation_chunks > 0,
            all == record.presentations@,
            record.is_whole(*fixture, every),
            fixture.chunks@.len() <= usize::MAX,
            check@.source == source_after(
                text::texts(fixture.chunks@),
                fixture.chunks@.len() as int,
            ),
            check@.emitted == settled_texts(all.take(at as int)),
            all_show_expected(all, at as int),
    {
        let presentation = &record.presentations[at];
        emit_cell(&mut check, &presentation.cell);
        assert(all.take(at + 1).drop_last() =~= all.take(at as int));
        proof {
            lemma_boundary_in_range(at as int, fixture.chunks@.len() as int, every);
        }
        let chunks: usize = (at + 1) * presentation_chunks;
        match check.check_boundary(chunks, &presentation.tail, &presentation.expected) {
            Ok(()) => {
                assert(shows_expected(all, at as int));
            },
            Err(divergence) => {
                assert(all[at as int] == *presentation);
                return Err(divergence);
            },
        }
    }
    assert(all.take(all.len() as int) =~= all);
    let source_checked = match &record.source {
        Some(source) => check.check_source(fixture.chunk_count, Some(source.as_str())),
        None => check.check_source(fixture.chunk_count, None),
    };
    match source_checked {
        Ok(()) => {},
        Err(divergence) => {
            return Err(divergence);
        },
    }
    emit_cell(&mut check, &record.last_cell);
    check.check_end(fixture.chunk_count, &record.expected)
}

/// Takes in the cell that came out, if one did.
fn emit_cell(check: &mut BoundaryCheck, cell: &Option<Vec<RenderedLine>>)
    ensures
        final(check)@.source == old(check)@.source,
        final(check)@.emitted == old(check)@.emitted + cell_texts(*cell),
{
    match cell {
        Some(lines) => {
            check.emit(lines);
        },
        None => {},
    }
    assert(check@.emitted =~= old(check)@.emitted + cell_texts(*cell));
}

/// A presentation comes after no more chunks than there are.
proof fn lemma_boundary_in_range(at: int, chunks: int, presentation_chunks: int)
    requires
        presentation_chunks > 0,
        0 <= at < chunks / presentation_chunks,
    ensures
        0 <= (at + 1) * presentation_chunks <= chunks,
{
    assert(0 <= (at + 1) * presentation_chunks <= chunks) by (nonlinear_arith)
        requires
            presentation_chunks > 0,
            0 <= at < chunks / presentation_chunks,
    ;
}

/// A setting counts where it is a positive number, and then as that number.
/// Otherwise what is rendered is presented after every eight chunks.
pub proof fn law_positive_settings_count(content: Seq<char>, chunks: nat)
    ensures
        presentation_setting(None) == 8,
        presentation_setting(Some(content)) > 0,
        numbers::parsed(content, usize::MAX as nat) == Some(chunks) && chunks > 0
            ==> presentation_setting(Some(content)) == chunks,
        numbers::parsed(content, usize::MAX as nat) == Some(0nat) ==> presentation_setting(
            Some(content),
        ) == 8,
        numbers::parsed(content, usize::MAX as nat) is None ==> presentation_setting(Some(content))
            == 8,
{
}

/// Every chunk of a paragraph is a line that tells its place.
pub proof fn law_paragraph_lines_are_numbered(chunk_count: nat, place: int)
    requires
        0 <= place < chunk_count,
    ensures
        ({
            let chunks = paragraph_chunks(chunk_count);
            let chunk = chunks[place];
            &&& chunks.len() == chunk_count
            &&& chunk.len() >= 6
            &&& chunk[0] == 'p'
            &&& chunk.last() == '\n'
            &&& numbers::number_of(chunk.subrange(1, chunk.len() - 1)) == place
        }),
{
    reveal_strlit("p");
    reveal_strlit("\n");
    let number = text::zero_padded(place as nat, 4);
    numbers::law_padding_is_read_over(place as nat, 4);
    text::law_padding_is_zeros_in_front(place as nat, 4);
    let chunk = paragraph_chunks(chunk_count)[place];
    assert(chunk.subrange(1, chunk.len() - 1) =~= number);
}

/// A fence is opened first, by a line of its own. Every chunk behind it is a line
/// that tells its place.
pub proof fn law_fence_lines_are_numbered(chunk_count: nat, place: int)
    requires
        0 < place < chunk_count,
    ensures
        ({
            let chunks = fence_chunks(chunk_count);
            let chunk = chunks[place];
            &&& chunks.len() == chunk_count
            &&& chunks[0] == "```rust\n"@
            &&& chunk.len() >= 6
            &&& chunk[0] == 'x'
            &&& chunk.last() == '\n'
            &&& numbers::number_of(chunk.subrange(1, chunk.len() - 1)) == place
        }),
{
    reveal_strlit("x");
    reveal_strlit("\n");
    let number = text::zero_padded(place as nat, 4);
    numbers::law_padding_is_read_over(place as nat, 4);
    text::law_padding_is_zeros_in_front(place as nat, 4);
    let chunk = fence_chunks(chunk_count)[place];
    assert(chunk.subrange(1, chunk.len() - 1) =~= number);
}

/// A table has its head and the line below it first. Every chunk behind them is a
/// row that tells its place.
pub proof fn law_table_rows_are_numbered(chunk_count: nat, place: int)
    requires
        1 < place < chunk_count,
    ensures
        ({
            let chunks = table_chunks(chunk_count);
            let chunk = chunks[place];
            &&& chunks.len() == chunk_count
            &&& chunks[0] == "| A | B |\n"@
            &&& chunks[1] == "|---|---|\n"@
            &&& chunk.len() >= 13
            &&& chunk[0] == '|' && chunk[1] == ' '
            &&& chunk.skip(chunk.len() - 7) == " | x |\n"@
            &&& numbers::number_of(chunk.subrange(2, chunk.len() - 7)) == place
        }),
{
    reveal_strlit("| ");
    reveal_strlit(" | x |\n");
    let number = text::zero_padded(place as nat, 4);
    numbers::law_padding_is_read_over(place as nat, 4);
    text::law_padding_is_zeros_in_front(place as nat, 4);
    let chunk = table_chunks(chunk_count)[place];
    assert(chunk.subrange(2, chunk.len() - 7) =~= number);
    assert(chunk.skip(chunk.len() - 7) =~= " | x |\n"@);
}

/// Streams of a kind only grow: a shorter one is the beginning of a longer one.
pub proof fn law_longer_stream_begins_the_same(kind: FixtureKind, fewer: nat, more: nat, place: int)
    requires
        2 <= fewer <= more,
        0 <= place < fewer,
    ensures
        kind.chunks(fewer)[place] == kind.chunks(more)[place],
{
}

/// The workload has every kind at every length, once: three kinds, at ten, a
/// hundred and a thousand chunks.
pub proof fn law_workload_has_every_kind_at_every_length(place: int, other: int)
    requires
        0 <= place < 9,
        0 <= other < 9,
    ensures
        kind_at(place) == kind_at(other) && chunk_count_at(place) == chunk_count_at(other) ==> place
            == other,
        chunk_count_at(place) == 10 || chunk_count_at(place) == 100 || chunk_count_at(place) == 1000,
        place <= other ==> chunk_count_at(place) <= chunk_count_at(other),
        place + 3 == other ==> chunk_count_at(other) == 10 * chunk_count_at(place),
        place + 3 == other ==> kind_at(other) == kind_at(place),
        place % 3 == 0 ==> kind_at(place) == FixtureKind::Paragraph,
        place % 3 == 1 ==> kind_at(place) == FixtureKind::UnclosedFence,
        place % 3 == 2 ==> kind_at(place) == FixtureKind::Table,
{
}

/// The text of a line is that of its pieces, one behind the other.
pub proof fn law_pieces_stand_in_order(spans: Seq<Seq<char>>, more: Seq<Seq<char>>)
    ensures
        joined_spans(spans + more) == joined_spans(spans) + joined_spans(more),
        joined_spans(Seq::empty()) == Seq::<char>::empty(),
        more.len() == 1 ==> joined_spans(more) == more[0],
    decreases more.len(),
{
    if more.len() == 0 {
        assert(spans + more =~= spans);
        assert(joined_spans(spans) + joined_spans(more) =~= joined_spans(spans));
    } else {
        let fewer = more.drop_last();
        law_pieces_stand_in_order(spans, fewer);
        assert((spans + more).drop_last() =~= spans + fewer);
        assert(joined_spans(spans + more) =~= joined_spans(spans) + joined_spans(more));
        if more.len() == 1 {
            assert(fewer =~= Seq::empty());
            assert(joined_spans(more) =~= more[0]);
        }
    }
}

/// Lines keep their places, and so do their texts.
pub proof fn law_line_texts_keep_their_places(lines: Seq<RenderedLine>, place: int)
    requires
        0 <= place < lines.len(),
    ensures
        line_texts(lines).len() == lines.len(),
        line_texts(lines)[place] == joined_spans(text::texts(lines[place].spans@)),
{
}

/// A line feed ends a line, and a carriage return in front of it goes with it.
/// What is behind it are the lines of the rest; a text without a line feed is one
/// line as it stands, and an empty text has none.
pub proof fn law_line_feed_ends_a_line(first: Seq<char>, rest: Seq<char>)
    requires
        !first.contains('\n'),
    ensures
        lines_from(first + seq!['\n'] + rest, 0) == seq![without_return(first)] + lines_from(
            rest,
            0,
        ),
        first.len() > 0 ==> lines_from(first, 0) == seq![first],
        lines_from(Seq::empty(), 0) == Seq::<Seq<char>>::empty(),
{
    let whole = first + seq!['\n'] + rest;
    let end = first.len() as int;
    assert forall|i: int| 0 <= i < first.len() implies first[i] != '\n' by {
        assert(first.contains(first[i]));
    }
    lemma_line_end_behind(first, rest, 0);
    assert(whole.subrange(0, end) =~= first);
    lemma_lines_shift(first + seq!['\n'], rest, 0);
    assert(whole =~= (first + seq!['\n']) + rest);
    assert(lines_from(whole, end + 1) == lines_from(rest, 0));
    if first.len() > 0 {
        lemma_no_line_end(first, 0);
        assert(first.subrange(0, end) =~= first);
        assert(lines_from(first, 0) =~= seq![first]);
    }
}

proof fn lemma_line_end_behind(first: Seq<char>, rest: Seq<char>, from: int)
    requires
        0 <= from <= first.len(),
        forall|i: int| 0 <= i < first.len() ==> #[trigger] first[i] != '\n',
    ensures
        line_end(first + seq!['\n'] + rest, from) == first.len(),
    decreases first.len() - from,
{
    let whole = first + seq!['\n'] + rest;
    if from < first.len() {
        assert(whole[from] == first[from]);
        lemma_line_end_behind(first, rest, from + 1);
    } else {
        assert(whole[from] == '\n');
    }
}

/// Lines that begin behind `head` see nothing of it.
proof fn lemma_lines_shift(head: Seq<char>, rest: Seq<char>, from: int)
    requires
        0 <= from,
    ensures
        lines_from(head + rest, head.len() + from) == lines_from(rest, from),
    decreases rest.len() - from,
{
    let whole = head + rest;
    let by = head.len() as int;
    if from < rest.len() {
        lemma_line_end_shift(head, rest, from);
        let end = line_end(rest, from);
        if from <= end < rest.len() {
            lemma_lines_shift(head, rest, end + 1);
            assert(whole.subrange(by + from, by + end) =~= rest.subrange(from, end));
            assert(lines_from(whole, by + from) =~= lines_from(rest, from));
        } else {
            assert(whole.subrange(by + from, whole.len() as int) =~= rest.subrange(
                from,
                rest.len() as int,
            ));
        }
    }
}

proof fn lemma_line_end_shift(head: Seq<char>, rest: Seq<char>, from: int)
    requires
        0 <= from <= rest.len(),
    ensures
        line_end(head + rest, head.len() + from) == head.len() + line_end(rest, from),
    decreases rest.len() - from,
{
    if from < rest.len() {
        assert((head + rest)[head.len() + from] == rest[from]);
        if rest[from] != '\n' {
            lemma_line_end_shift(head, rest, from + 1);
        }
    }
}

/// Of a line's end only one carriage return goes, and only from the very end.
pub proof fn law_only_the_last_return_goes(line: Seq<char>)
    ensures
        without_return(line.push('\r')) == line,
        line.len() > 0 && line.last() != '\r' ==> without_return(line) == line,
        without_return(Seq::empty()) == Seq::<char>::empty(),
{
    assert(line.push('\r').drop_last() =~= line);
}

/// The mark in front is two characters, whatever they are. A line that has no
/// more loses all it has.
pub proof fn law_mark_is_two_characters(first: char, second: char, rest: Seq<char>)
    ensures
        without_prefix(seq![first, second] + rest) == rest,
        without_prefix(seq![first]) == Seq::<char>::empty(),
        without_prefix(Seq::empty()) == Seq::<char>::empty(),
{
    assert((seq![first, second] + rest).skip(2) =~= rest);
}

/// What comes out stands behind what came out before, line by line, without the
/// mark in front. The text that went in stays as it is.
pub proof fn law_emitted_lines_stand_behind(check: BoundaryView, cell: Seq<Seq<char>>, place: int)
    requires
        0 <= place < cell.len(),
    ensures
        ({
            let after = check.emitting(cell);
            &&& after.source == check.source
            &&& after.emitted.len() == check.emitted.len() + cell.len()
            &&& after.emitted.take(check.emitted.len() as int) == check.emitted
            &&& after.emitted[check.emitted.len() + place] == joined_spans(
                lines_from(without_prefix(cell[place]), 0),
            )
            &&& !cell[place].contains('\n') ==> after.emitted[check.emitted.len() + place]
                == without_prefix(cell[place])
        }),
{
    let after = check.emitting(cell);
    assert(after.emitted.take(check.emitted.len() as int) =~= check.emitted);
    if !cell[place].contains('\n') {
        law_stripping_keeps_the_rest(cell[place]);
    }
}

/// A divergence names the kind of the stream first and the number of chunks
/// last.
pub proof fn law_divergence_names_kind_and_chunks(divergence: Divergence, kind: FixtureKind)
    ensures
        ({
            let said = divergence.text(kind);
            let chunks: usize = match divergence {
                Divergence::AtBoundary { chunks } => chunks,
                Divergence::SourceLost { chunks } => chunks,
                Divergence::AtEnd { chunks } => chunks,
            };
            let behind = text::decimal(chunks as nat) + " chunks"@;
            &&& said.len() > kind.text().len() + behind.len()
            &&& said.take(kind.text().len() as int) == kind.text()
            &&& said.skip(said.len() - behind.len()) == behind
        }),
{
    reveal_strlit(" stream diverged at presentation boundary after ");
    reveal_strlit(" stream lost source while finalizing ");
    reveal_strlit(" stream diverged after finalizing ");
    reveal_strlit(" chunks");
    let said = divergence.text(kind);
    let chunks: usize = match divergence {
        Divergence::AtBoundary { chunks } => chunks,
        Divergence::SourceLost { chunks } => chunks,
        Divergence::AtEnd { chunks } => chunks,
    };
    let behind = text::decimal(chunks as nat) + " chunks"@;
    assert(said.take(kind.text().len() as int) =~= kind.text());
    assert(said.skip(said.len() - behind.len()) =~= behind);
}

/// A sum over one stream more is the sum so far and that stream's, wrapped round
/// where it does not fit. Something counts one, and nothing none.
pub proof fn law_sums_add_up(sums: Seq<usize>, sum: usize)
    ensures
        workload_sum(sums.push(sum)) as int == (if workload_sum(sums) + sum > usize::MAX {
            workload_sum(sums) + sum - (usize::MAX + 1)
        } else {
            workload_sum(sums) + sum
        }),
        workload_sum(Seq::empty()) == 0,
        presence(true) == 1,
        presence(false) == 0,
{
    assert(sums.push(sum).drop_last() =~= sums);
}

/// One chunk more is fed behind all that was done before, and is followed by a
/// presentation exactly where the number of chunks so far is due for one.
pub proof fn law_one_more_chunk_is_fed(presentation_chunks: int, count: int)
    requires
        presentation_chunks > 0,
        0 <= count < usize::MAX,
    ensures
        ({
            let before = steps_after(presentation_chunks, count);
            let after = steps_after(presentation_chunks, count + 1);
            let length = before.len() as int;
            let due = (count + 1) % presentation_chunks == 0;
            &&& after.take(length) == before
            &&& after[length] == StreamStep::Feed(count as usize)
            &&& after.len() == length + (if due {
                2int
            } else {
                1
            })
            &&& due ==> after[length + 1] == StreamStep::Present((count + 1) as usize)
            &&& steps_after(presentation_chunks, 0).len() == 0
        }),
{
    let before = steps_after(presentation_chunks, count);
    let after = steps_after(presentation_chunks, count + 1);
    assert(after.take(before.len() as int) =~= before);
}

/// What was fed is the chunks one behind the other, and nothing behind the first
/// of them has a say in it.
pub proof fn law_source_is_the_chunks_in_order(chunks: Seq<Seq<char>>, count: int)
    requires
        0 <= count <= chunks.len(),
    ensures
        source_after(chunks, count) == joined_spans(chunks.take(count)),
        count < chunks.len() ==> source_after(chunks, count + 1) == source_after(chunks, count)
            + chunks[count],
        source_after(chunks, 0) == Seq::<char>::empty(),
    decreases count,
{
    if count > 0 {
        law_source_is_the_chunks_in_order(chunks, count - 1);
        assert(chunks.take(count).drop_last() =~= chunks.take(count - 1));
        assert(chunks.take(count).last() == chunks[count - 1]);
    } else {
        assert(chunks.take(0) =~= Seq::empty());
    }
}

/// The sum over a stream grows by one where a chunk gave something, and at each
/// presentation by one for a cell and by the lines that are not settled.
pub proof fn law_every_chunk_is_summed_up(
    enqueued: Seq<bool>,
    presented: Seq<(bool, usize)>,
    presentation_chunks: int,
    count: int,
)
    requires
        presentation_chunks > 0,
        0 <= count < enqueued.len(),
        (count + 1) % presentation_chunks == 0 ==> count / presentation_chunks < presented.len(),
    ensures
        ({
            let before = sum_after(enqueued, presented, presentation_chunks, count);
            let after = sum_after(enqueued, presented, presentation_chunks, count + 1);
            let pushed: usize = if enqueued[count] {
                1
            } else {
                0
            };
            let shown = presented[count / presentation_chunks];
            let cell: usize = if shown.0 {
                1
            } else {
                0
            };
            if (count + 1) % presentation_chunks == 0 {
                after == before.wrapping_add(pushed).wrapping_add(cell).wrapping_add(shown.1)
            } else {
                after == before.wrapping_add(pushed)
            }
        }),
        sum_after(enqueued, presented, presentation_chunks, 0) == 0,
{
    lemma_next_boundary(count, presentation_chunks);
}

/// The end of a stream adds one for a cell, and the length of the text that came
/// back.
pub proof fn law_end_is_summed_up(run: FixtureRun, presentation_chunks: int)
    ensures
        ({
            let chunks = sum_after(
                run.enqueued@,
                run.presented@,
                presentation_chunks,
                run.enqueued@.len() as int,
            );
            let cell: usize = if run.finalized.0 {
                1
            } else {
                0
            };
            &&& run.finalized.1 matches Some(bytes) ==> run.sum(presentation_chunks)
                == chunks.wrapping_add(cell).wrapping_add(bytes)
            &&& run.finalized.1 is None ==> run.sum(presentation_chunks) == chunks.wrapping_add(
                cell,
            ).wrapping_add(0)
        }),
{
}

/// A run and a record are whole where there is something for every chunk, and a
/// presentation for every full number of chunks.
pub proof fn law_whole_runs_leave_nothing_out(
    run: FixtureRun,
    record: StreamRecord,
    fixture: Fixture,
    presentation_chunks: int,
)
    requires
        presentation_chunks > 0,
    ensures
        run.is_whole(fixture, presentation_chunks) <==> run.enqueued@.len() == fixture.chunks@.len()
            && run.presented@.len() == presentation_count(
            steps_after(presentation_chunks, fixture.chunks@.len() as int),
        ),
        record.is_whole(fixture, presentation_chunks) <==> record.presentations@.len()
            == presentation_count(steps_after(presentation_chunks, fixture.chunks@.len() as int)),
{
    lemma_presentations_are_counted(presentation_chunks, fixture.chunks@.len() as int);
}

proof fn lemma_presentations_are_counted(presentation_chunks: int, count: int)
    requires
        presentation_chunks > 0,
        0 <= count,
    ensures
        presentation_count(steps_after(presentation_chunks, count)) == count / presentation_chunks,
    decreases count,
{
    let steps = steps_after(presentation_chunks, count);
    if count == 0 {
        assert(0int / presentation_chunks == 0) by (nonlinear_arith)
            requires
                presentation_chunks > 0,
        ;
    } else {
        lemma_presentations_are_counted(presentation_chunks, count - 1);
        lemma_next_boundary(count - 1, presentation_chunks);
        let earlier = steps_after(presentation_chunks, count - 1);
        let fed = earlier.push(StreamStep::Feed((count - 1) as usize));
        assert(fed.drop_last() =~= earlier);
        assert(presentation_count(fed) == presentation_count(earlier));
        if count % presentation_chunks == 0 {
            assert(steps.drop_last() =~= fed);
        }
    }
}

/// What a presentation settles stands behind what was settled before: every line
/// of its cell, or nothing where no cell came out.
pub proof fn law_cells_are_settled_in_order(
    presentations: Seq<Presentation>,
    presentation: Presentation,
    place: int,
)
    ensures
        ({
            let before = settled_texts(presentations);
            let after = settled_texts(presentations.push(presentation));
            &&& after.take(before.len() as int) == before
            &&& presentation.cell is None ==> after == before
            &&& presentation.cell matches Some(lines) ==> {
                &&& after.len() == before.len() + lines@.len()
                &&& 0 <= place < lines@.len() ==> after[before.len() + place] == stripped_text(
                    lines@[place].text(),
                )
            }
            &&& settled_texts(Seq::empty()).len() == 0
        }),
{
    let before = settled_texts(presentations);
    let after = settled_texts(presentations.push(presentation));
    assert(presentations.push(presentation).drop_last() =~= presentations);
    assert(after.take(before.len() as int) =~= before);
    if presentation.cell is None {
        assert(after =~= before);
    }
}

/// A stream that passes shows at each presentation the settled lines with the
/// unsettled ones behind them, and at the end the settled ones alone, exactly as
/// the text renders to, and its text comes back whole.
pub proof fn law_passing_stream_shows_its_text(
    record: StreamRecord,
    fixture: Fixture,
    at: int,
    place: int,
)
    requires
        all_show_expected(record.presentations@, record.presentations@.len() as int),
        record.has_source(fixture),
        record.ends_expected(),
        0 <= at < record.presentations@.len(),
    ensures
        ({
            let shown = settled_texts(record.presentations@.take(at + 1));
            let tail = record.presentations@[at].tail@;
            let expected = record.presentations@[at].expected@;
            &&& expected.len() == shown.len() + tail.len()
            &&& 0 <= place < shown.len() ==> expected[place]@ == shown[place]
            &&& 0 <= place < tail.len() ==> expected[shown.len() + place]@ == tail[place].text()
        }),
        record.source is Some,
        record.source->0@ == joined_spans(text::texts(fixture.chunks@)),
        record.expected@.len() == settled_texts(record.presentations@).len() + cell_texts(
            record.last_cell,
        ).len(),
{
    let presentations = record.presentations@;
    assert(presentations[at] == presentations[at]);
    assert(shows_expected(presentations, at));
    let shown = settled_texts(presentations.take(at + 1));
    let tail = presentations[at].tail@;
    let expected = presentations[at].expected@;
    let whole = shown + line_texts(tail);
    assert(whole == text::texts(expected));
    assert(whole.len() == expected.len());
    if 0 <= place < shown.len() {
        assert(whole[place] == text::texts(expected)[place]);
    }
    if 0 <= place < tail.len() {
        assert(whole[shown.len() + place] == text::texts(expected)[shown.len() + place]);
    }
    let chunks = text::texts(fixture.chunks@);
    law_source_is_the_chunks_in_order(chunks, chunks.len() as int);
    assert(chunks.take(chunks.len() as int) =~= chunks);
    assert((settled_texts(presentations) + cell_texts(record.last_cell)).len() == text::texts(
        record.expected@,
    ).len());
}

/// A stream of a kind is made of the chunks of that kind: the first chunk tells
/// which kind it is.
pub proof fn law_first_chunk_tells_the_kind(fixture: Fixture, kind: FixtureKind, chunk_count: int)
    requires
        fixture.is_stream(kind, chunk_count),
        chunk_count > 0,
    ensures
        fixture.kind == kind,
        fixture.chunk_count == chunk_count,
        fixture.chunks@.len() > 0,
        fixture.chunks@[0]@[0] == 'p' <==> kind == FixtureKind::Paragraph,
        fixture.chunks@[0]@[0] == '`' <==> kind == FixtureKind::UnclosedFence,
        fixture.chunks@[0]@[0] == '|' <==> kind == FixtureKind::Table,
        chunk_count >= 2 ==> fixture.chunks@.len() == chunk_count,
        forall|i: int|
            0 <= i < fixture.chunks@.len() ==> (#[trigger] fixture.chunks@[i])@ == kind.chunks(
                chunk_count as nat,
            )[i],
{
    reveal_strlit("p");
    reveal_strlit("```rust\n");
    reveal_strlit("| A | B |\n");
    let chunks = kind.chunks(chunk_count as nat);
    assert(text::texts(fixture.chunks@).len() == fixture.chunks@.len());
    assert(text::texts(fixture.chunks@)[0] == fixture.chunks@[0]@);
    assert forall|i: int| 0 <= i < fixture.chunks@.len() implies (#[trigger] fixture.chunks@[i])@
        == chunks[i] by {
        assert(text::texts(fixture.chunks@)[i] == fixture.chunks@[i]@);
    }
}

/// The name of a kind tells which kind it is.
pub proof fn law_kinds_are_told_apart(kind: FixtureKind, other: FixtureKind)
    ensures
        kind.text() == other.text() ==> kind == other,
{
    reveal_strlit("paragraph");
    reveal_strlit("unclosed_fence");
    reveal_strlit("table");
    assert(kind.text().len() == other.text().len() ==> kind == other);
}

} // verus!
