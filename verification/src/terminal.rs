//! A measurement of what a terminal writes from one frame to the next.
//!
//! Frames are drawn onto a terminal whose output is captured. What is measured
//! is how many bytes a small change takes, and how many commands among them
//! clear a line to its end.

use crate::metrics;
use crate::metrics::{plain_metric_line, usize_to_u64};
use crate::numbers;
use crate::numbers::parse_number;
use crate::text;
use vstd::prelude::*;

verus! {

/// The size of the measured terminal.
pub const WIDTH: u16 = 120;

pub const HEIGHT: u16 = 40;

/// The command that clears a line from the cursor to its end.
pub open spec fn clear_to_end() -> Seq<u8> {
    seq![0x1bu8, 0x5bu8, 0x4bu8]
}

/// Whether the command stands at this place.
pub open spec fn clears_at(bytes: Seq<u8>, place: int) -> bool {
    place + 3 <= bytes.len() && bytes.subrange(place, place + 3) == clear_to_end()
}

/// How many times the command stands at one of the first `count` places.
pub open spec fn clears_before(bytes: Seq<u8>, count: nat) -> nat
    decreases count,
{
    if count == 0 {
        0
    } else {
        clears_before(bytes, (count - 1) as nat) + (if clears_at(bytes, count - 1) {
            1nat
        } else {
            0nat
        })
    }
}

/// How many commands clear a line to its end.
pub fn clear_to_end_count(bytes: &Vec<u8>) -> (count: usize)
    ensures
        count == clears_before(bytes@, bytes@.len()),
{
    let mut count: usize = 0;
    for place in 0..bytes.len()
        invariant
            count == clears_before(bytes@, place as nat),
            count <= place,
    {
        if bytes.len() - place >= 3 && bytes[place] == 0x1b && bytes[place + 1] == 0x5b
            && bytes[place + 2] == 0x4b {
            assert(bytes@.subrange(place as int, place + 3) =~= clear_to_end());
            count += 1;
        } else {
            assert(!clears_at(bytes@, place as int)) by {
                if place + 3 <= bytes@.len() {
                    let window = bytes@.subrange(place as int, place + 3);
                    assert(window[0] == bytes@[place as int]);
                    assert(window[1] == bytes@[place + 1]);
                    assert(window[2] == bytes@[place + 2]);
                }
            }
        }
    }
    count
}

/// The commands in what is written first all count in what is written in all.
pub proof fn law_more_output_clears_no_less(first: Seq<u8>, second: Seq<u8>)
    ensures
        clears_before(first, first.len()) <= clears_before(first + second, (first + second).len()),
{
    lemma_clears_keep(first, second, first.len());
    lemma_clears_grow(first + second, first.len(), (first + second).len());
}

proof fn lemma_clears_keep(first: Seq<u8>, second: Seq<u8>, count: nat)
    requires
        count <= first.len(),
    ensures
        clears_before(first, count) <= clears_before(first + second, count),
    decreases count,
{
    if count > 0 {
        lemma_clears_keep(first, second, (count - 1) as nat);
        let place = count - 1;
        if clears_at(first, place) {
            assert((first + second).subrange(place, place + 3) =~= first.subrange(
                place,
                place + 3,
            ));
        }
    }
}

proof fn lemma_clears_grow(bytes: Seq<u8>, count: nat, more: nat)
    requires
        count <= more,
    ensures
        clears_before(bytes, count) <= clears_before(bytes, more),
    decreases more,
{
    if count < more {
        lemma_clears_grow(bytes, count, (more - 1) as nat);
    }
}

/// A color that is drawn with.
#[derive(Debug, Clone, Copy, PartialEq, Eq, Structural)]
pub enum Color {
    Cyan,
    DarkGray,
    Yellow,
    Blue,
    Red,
}

/// How a part of a frame is drawn.
#[derive(Debug, Clone, Copy, PartialEq, Eq, Structural)]
pub struct Style {
    pub fg: Option<Color>,
    pub bg: Option<Color>,
    pub underlined: bool,
}

/// Drawn as the terminal does by itself.
pub open spec fn plain() -> Style {
    Style { fg: None, bg: None, underlined: false }
}

/// Drawn in a color.
pub open spec fn inked(color: Color) -> Style {
    Style { fg: Some(color), bg: None, underlined: false }
}

fn plain_style() -> (style: Style)
    ensures
        style == plain(),
{
    Style { fg: None, bg: None, underlined: false }
}

fn inked_style(color: Color) -> (style: Style)
    ensures
        style == inked(color),
{
    Style { fg: Some(color), bg: None, underlined: false }
}

/// A text at its place in a frame.
#[derive(Debug)]
pub struct PlacedText {
    pub x: u16,
    pub y: u16,
    pub text: String,
    pub style: Style,
}

/// What a [`PlacedText`] holds.
pub struct PlacedTextView {
    pub x: u16,
    pub y: u16,
    pub text: Seq<char>,
    pub style: Style,
}

impl View for PlacedText {
    type V = PlacedTextView;

    open spec fn view(&self) -> PlacedTextView {
        PlacedTextView { x: self.x, y: self.y, text: self.text@, style: self.style }
    }
}

/// A frame: how the whole area is drawn, and the texts put onto it in order.
#[derive(Debug)]
pub struct Frame {
    pub base: Style,
    pub texts: Vec<PlacedText>,
}

/// What a [`Frame`] holds.
pub struct FrameView {
    pub base: Style,
    pub texts: Seq<PlacedTextView>,
}

impl View for Frame {
    type V = FrameView;

    open spec fn view(&self) -> FrameView {
        FrameView {
            base: self.base,
            texts: Seq::new(self.texts@.len(), |i: int| self.texts@[i]@),
        }
    }
}

/// The text that says which tick a frame belongs to.
pub open spec fn tick_text(tick: u64) -> PlacedTextView {
    PlacedTextView {
        x: 0,
        y: 0,
        text: "stream tick "@ + text::decimal(tick as nat),
        style: inked(Color::Cyan),
    }
}

/// How many waiting rows a frame of this height has: one in every eight, from
/// the fifth on.
pub open spec fn waiting_rows(height: u16) -> nat {
    if height <= 4 {
        0
    } else {
        ((height - 4 + 7) / 8) as nat
    }
}

/// A frame with little on it: the tick, and now and then a row that waits.
pub open spec fn sparse_frame_view(tick: u64, height: u16) -> FrameView {
    FrameView {
        base: plain(),
        texts: seq![tick_text(tick)] + Seq::new(
            waiting_rows(height),
            |i: int|
                PlacedTextView {
                    x: 0,
                    y: (4 + 8 * i) as u16,
                    text: "waiting for activity"@,
                    style: inked(Color::DarkGray),
                },
        ),
    }
}

/// Where a text of eight characters and one more stands at the end of a row.
pub open spec fn tail_column(width: u16) -> u16 {
    if width >= 9 {
        (width - 9) as u16
    } else {
        0
    }
}

/// A frame with something at the end of every row.
pub open spec fn tail_frame_view(tick: u64, width: u16, height: u16) -> FrameView {
    FrameView {
        base: plain(),
        texts: seq![tick_text(tick)] + Seq::new(
            height as nat,
            |i: int|
                PlacedTextView {
                    x: tail_column(width),
                    y: i as u16,
                    text: "old tail"@,
                    style: inked(Color::Yellow),
                },
        ),
    }
}

fn place_tick(tick: u64) -> (placed: PlacedText)
    ensures
        placed@ == tick_text(tick),
{
    let mut text = text::copy_of("stream tick ");
    text::push_decimal(&mut text, tick);
    PlacedText { x: 0, y: 0, text, style: inked_style(Color::Cyan) }
}

/// A frame with little on it.
pub fn sparse_frame(tick: u64, height: u16) -> (frame: Frame)
    ensures
        frame@ == sparse_frame_view(tick, height),
{
    let mut texts: Vec<PlacedText> = Vec::new();
    texts.push(place_tick(tick));
    let mut y: u32 = 4;
    let ghost mut rows: int = 0;
    while y < height as u32
        invariant
            0 <= rows,
            y == 4 + 8 * rows,
            rows <= waiting_rows(height),
            texts@.len() == 1 + rows,
            texts@[0]@ == tick_text(tick),
            forall|i: int|
                1 <= i < texts@.len() ==> (#[trigger] texts@[i])@ == (PlacedTextView {
                    x: 0,
                    y: (4 + 8 * (i - 1)) as u16,
                    text: "waiting for activity"@,
                    style: inked(Color::DarkGray),
                }),
        decreases height + 8 - y,
    {
        texts.push(
            PlacedText {
                x: 0,
                y: y as u16,
                text: text::copy_of("waiting for activity"),
                style: inked_style(Color::DarkGray),
            },
        );
        proof {
            rows = rows + 1;
        }
        y += 8;
    }
    assert(rows == waiting_rows(height));
    let frame = Frame { base: plain_style(), texts };
    assert(frame@.texts =~= sparse_frame_view(tick, height).texts);
    frame
}

/// A frame with something at the end of every row.
pub fn tail_frame(tick: u64, width: u16, height: u16) -> (frame: Frame)
    ensures
        frame@ == tail_frame_view(tick, width, height),
{
    let mut texts: Vec<PlacedText> = Vec::new();
    texts.push(place_tick(tick));
    let x: u16 = if width >= 9 {
        width - 9
    } else {
        0
    };
    for y in 0..height
        invariant
            x == tail_column(width),
            texts@.len() == 1 + y,
            texts@[0]@ == tick_text(tick),
            forall|i: int|
                1 <= i < texts@.len() ==> (#[trigger] texts@[i])@ == (PlacedTextView {
                    x,
                    y: (i - 1) as u16,
                    text: "old tail"@,
                    style: inked(Color::Yellow),
                }),
    {
        texts.push(
            PlacedText {
                x,
                y,
                text: text::copy_of("old tail"),
                style: inked_style(Color::Yellow),
            },
        );
    }
    let frame = Frame { base: plain_style(), texts };
    assert(frame@.texts =~= tail_frame_view(tick, width, height).texts);
    frame
}

/// A frame with nothing on it.
pub fn empty_frame() -> (frame: Frame)
    ensures
        frame@ == (FrameView { base: plain(), texts: Seq::empty() }),
{
    let frame = Frame { base: plain_style(), texts: Vec::new() };
    assert(frame@.texts =~= Seq::empty());
    frame
}

/// A frame of one background color.
pub fn background_frame(color: Color) -> (frame: Frame)
    ensures
        frame@ == (FrameView {
            base: Style { fg: None, bg: Some(color), underlined: false },
            texts: Seq::empty(),
        }),
{
    let frame = Frame {
        base: Style { fg: None, bg: Some(color), underlined: false },
        texts: Vec::new(),
    };
    assert(frame@.texts =~= Seq::empty());
    frame
}

/// A frame with one text in its first row.
pub fn text_frame(content: &str) -> (frame: Frame)
    ensures
        frame@ == (FrameView {
            base: plain(),
            texts: seq![PlacedTextView { x: 0, y: 0, text: content@, style: plain() }],
        }),
{
    let mut texts: Vec<PlacedText> = Vec::new();
    texts.push(PlacedText { x: 0, y: 0, text: text::copy_of(content), style: plain_style() });
    let frame = Frame { base: plain_style(), texts };
    assert(frame@.texts =~= seq![
        PlacedTextView { x: 0, y: 0, text: content@, style: plain() },
    ]);
    frame
}

/// A frame of underlined blanks.
pub fn underlined_frame() -> (frame: Frame)
    ensures
        frame@ == (FrameView {
            base: Style { fg: None, bg: None, underlined: true },
            texts: Seq::empty(),
        }),
{
    let frame = Frame {
        base: Style { fg: None, bg: None, underlined: true },
        texts: Vec::new(),
    };
    assert(frame@.texts =~= Seq::empty());
    frame
}

/// Every text of a sparse or a tail frame starts inside the frame, where the
/// frame has any room at all.
pub proof fn law_texts_start_inside_the_frame(tick: u64, width: u16, height: u16, index: int)
    requires
        width > 0,
        height > 0,
    ensures
        0 <= index < sparse_frame_view(tick, height).texts.len() ==> sparse_frame_view(
            tick,
            height,
        ).texts[index].x < width && sparse_frame_view(tick, height).texts[index].y < height,
        0 <= index < tail_frame_view(tick, width, height).texts.len() ==> tail_frame_view(
            tick,
            width,
            height,
        ).texts[index].x < width && tail_frame_view(tick, width, height).texts[index].y < height,
{
}

/// Two ticks' sparse frames differ in their first text only.
pub proof fn law_sparse_frames_differ_in_one_row(tick: u64, other: u64, height: u16, index: int)
    requires
        0 < index < sparse_frame_view(tick, height).texts.len(),
    ensures
        sparse_frame_view(tick, height).texts.len() == sparse_frame_view(other, height).texts.len(),
        sparse_frame_view(tick, height).texts[index] == sparse_frame_view(other, height).texts[index],
{
}

/// What is measured.
#[derive(Debug, Clone, Copy, PartialEq, Eq, Structural)]
pub enum Sample {
    /// One row changes on a frame with little on it.
    SparseOneRowChange,
    /// What stood at the end of every row goes away.
    TailChange,
}

/// The tick before this one.
pub open spec fn tick_before(tick: u64) -> u64 {
    if tick > 0 {
        (tick - 1) as u64
    } else {
        0
    }
}

impl Sample {
    /// The frame that is on the terminal before the measured one is drawn.
    pub fn first_frame(self, tick: u64, width: u16, height: u16) -> (frame: Frame)
        ensures
            frame@ == match self {
                Sample::SparseOneRowChange => sparse_frame_view(tick_before(tick), height),
                Sample::TailChange => tail_frame_view(tick_before(tick), width, height),
            },
    {
        let before: u64 = if tick > 0 {
            tick - 1
        } else {
            0
        };
        match self {
            Sample::SparseOneRowChange => sparse_frame(before, height),
            Sample::TailChange => tail_frame(before, width, height),
        }
    }

    /// The measured frame.
    pub fn second_frame(self, tick: u64, height: u16) -> (frame: Frame)
        ensures
            frame@ == sparse_frame_view(tick, height),
    {
        sparse_frame(tick, height)
    }

    /// The name under which the number of bytes is reported.
    pub open spec fn bytes_metric(self) -> Seq<char> {
        match self {
            Sample::SparseOneRowChange => "terminal_output_bytes_per_sparse_one_row_change"@,
            Sample::TailChange => "terminal_output_bytes_per_tail_change"@,
        }
    }

    /// The name under which the number of clearing commands is reported.
    pub open spec fn clears_metric(self) -> Seq<char> {
        match self {
            Sample::SparseOneRowChange => "clear_to_end_commands_per_sparse_one_row_change"@,
            Sample::TailChange => "clear_to_end_commands_per_tail_change"@,
        }
    }

    /// The two lines that report on the output for the measured frame.
    pub fn report(self, output: &Vec<u8>) -> (lines: (String, String))
        ensures
            lines.0@ == metrics::plain_line(self.bytes_metric(), output@.len()),
            lines.1@ == metrics::plain_line(
                self.clears_metric(),
                clears_before(output@, output@.len()),
            ),
    {
        let bytes: u64 = usize_to_u64(output.len());
        let clears: u64 = usize_to_u64(clear_to_end_count(output));
        match self {
            Sample::SparseOneRowChange => (
                plain_metric_line("terminal_output_bytes_per_sparse_one_row_change", bytes),
                plain_metric_line("clear_to_end_commands_per_sparse_one_row_change", clears),
            ),
            Sample::TailChange => (
                plain_metric_line("terminal_output_bytes_per_tail_change", bytes),
                plain_metric_line("clear_to_end_commands_per_tail_change", clears),
            ),
        }
    }
}

/// A terminal that frames are drawn onto one after the other: its size, what is
/// on it before the first frame, the frames, and the row and column of the cell
/// whose background is looked at behind each frame, if any is.
#[derive(Debug)]
pub struct Scene {
    pub width: u16,
    pub height: u16,
    pub preload: Vec<u8>,
    pub frames: Vec<Frame>,
    pub probe: Option<(u16, u16)>,
}

/// What a [`Scene`] holds.
pub struct SceneView {
    pub width: u16,
    pub height: u16,
    pub preload: Seq<u8>,
    pub frames: Seq<FrameView>,
    pub probe: Option<(u16, u16)>,
}

impl View for Scene {
    type V = SceneView;

    open spec fn view(&self) -> SceneView {
        SceneView {
            width: self.width,
            height: self.height,
            preload: self.preload@,
            frames: Seq::new(self.frames@.len(), |i: int| self.frames@[i]@),
            probe: self.probe,
        }
    }
}

/// The frame with nothing on it.
pub open spec fn blank() -> FrameView {
    FrameView { base: plain(), texts: Seq::empty() }
}

/// The frame of one background color.
pub open spec fn backdrop(color: Color) -> FrameView {
    FrameView {
        base: Style { fg: None, bg: Some(color), underlined: false },
        texts: Seq::empty(),
    }
}

/// The frame of underlined blanks.
pub open spec fn underlined() -> FrameView {
    FrameView { base: Style { fg: None, bg: None, underlined: true }, texts: Seq::empty() }
}

/// The frame with one text in its first row.
pub open spec fn captioned(content: Seq<char>) -> FrameView {
    FrameView {
        base: plain(),
        texts: seq![PlacedTextView { x: 0, y: 0, text: content, style: plain() }],
    }
}

/// The bytes that put a stale text onto a terminal: they move the cursor to the
/// corner, skip four columns and write the text.
pub open spec fn stale_bytes() -> Seq<u8> {
    seq![
        0x1bu8, 0x5bu8, 0x48u8, 0x20u8, 0x20u8, 0x20u8, 0x20u8, 0x73u8, 0x74u8, 0x61u8, 0x6cu8,
        0x65u8,
    ]
}

/// What is drawn to see that no frame leaves behind what it should not: a blank
/// frame over a stale text, one wide glyph over two, one background over another,
/// a blank frame over underlined blanks, and a frame over itself.
pub open spec fn script() -> Seq<SceneView> {
    seq![
        SceneView {
            width: 12,
            height: 1,
            preload: stale_bytes(),
            frames: seq![blank()],
            probe: None,
        },
        SceneView {
            width: 12,
            height: 1,
            preload: Seq::empty(),
            frames: seq![captioned(seq!['\u{4e2d}', '\u{6587}']), captioned(seq!['\u{4e2d}'])],
            probe: None,
        },
        SceneView {
            width: 10,
            height: 1,
            preload: Seq::empty(),
            frames: seq![backdrop(Color::Blue), backdrop(Color::Red)],
            probe: Some((0, 8)),
        },
        SceneView {
            width: 10,
            height: 1,
            preload: Seq::empty(),
            frames: seq![underlined(), blank()],
            probe: None,
        },
        SceneView {
            width: WIDTH,
            height: HEIGHT,
            preload: Seq::empty(),
            frames: seq![sparse_frame_view(17, HEIGHT), sparse_frame_view(17, HEIGHT)],
            probe: None,
        },
    ]
}

fn scene_of_two(
    width: u16,
    height: u16,
    first: Frame,
    second: Frame,
    probe: Option<(u16, u16)>,
) -> (scene: Scene)
    ensures
        scene@ == (SceneView {
            width,
            height,
            preload: Seq::empty(),
            frames: seq![first@, second@],
            probe,
        }),
{
    let ghost views = seq![first@, second@];
    let mut frames: Vec<Frame> = Vec::new();
    frames.push(first);
    frames.push(second);
    let scene = Scene { width, height, preload: Vec::new(), frames, probe };
    assert(scene@.frames =~= views);
    scene
}

/// What is drawn to see that no frame leaves behind what it should not.
pub fn visual_script() -> (scenes: Vec<Scene>)
    ensures
        Seq::new(scenes@.len(), |i: int| scenes@[i]@) == script(),
{
    let mut preload: Vec<u8> = Vec::new();
    preload.push(0x1b);
    preload.push(0x5b);
    preload.push(0x48);
    preload.push(0x20);
    preload.push(0x20);
    preload.push(0x20);
    preload.push(0x20);
    preload.push(0x73);
    preload.push(0x74);
    preload.push(0x61);
    preload.push(0x6c);
    preload.push(0x65);
    assert(preload@ =~= stale_bytes());
    let mut frames: Vec<Frame> = Vec::new();
    frames.push(empty_frame());
    let stale = Scene { width: 12, height: 1, preload, frames, probe: None };
    assert(stale@.frames =~= seq![blank()]);

    let one = one_char('\u{4e2d}');
    let mut two = one_char('\u{4e2d}');
    two.push('\u{6587}');
    assert(two@ =~= seq!['\u{4e2d}', '\u{6587}']);

    let mut scenes: Vec<Scene> = Vec::new();
    scenes.push(stale);
    scenes.push(scene_of_two(12, 1, text_frame(&two), text_frame(&one), None));
    scenes.push(
        scene_of_two(
            10,
            1,
            background_frame(Color::Blue),
            background_frame(Color::Red),
            Some((0, 8)),
        ),
    );
    scenes.push(scene_of_two(10, 1, underlined_frame(), empty_frame(), None));
    scenes.push(
        scene_of_two(WIDTH, HEIGHT, sparse_frame(17, HEIGHT), sparse_frame(17, HEIGHT), None),
    );
    assert(Seq::new(scenes@.len(), |i: int| scenes@[i]@) =~= script());
    scenes
}

/// What is seen behind one frame: what the terminal shows, the background of the
/// cell that is looked at, if one is, and what was written since the frame
/// before.
#[derive(Debug)]
pub struct FrameSight {
    pub contents: String,
    pub background: Option<String>,
    pub output: Vec<u8>,
}

/// Whether there is a sight for every frame of the script, with a background
/// where one is looked at.
pub open spec fn covers_script(sights: Seq<Vec<FrameSight>>) -> bool {
    &&& sights.len() == 5
    &&& sights[0]@.len() == 1
    &&& sights[1]@.len() == 2
    &&& sights[2]@.len() == 2
    &&& sights[3]@.len() == 2
    &&& sights[4]@.len() == 2
    &&& sights[2]@[0].background is Some
    &&& sights[2]@[1].background is Some
}

/// Picks out of what was seen what the checks go by.
pub fn evidence_of(sights: &Vec<Vec<FrameSight>>) -> (evidence: Option<VisualEvidence>)
    ensures
        match evidence {
            Some(evidence) => {
                &&& covers_script(sights@)
                &&& evidence.stale_contents@ == sights@[0]@[0].contents@
                &&& evidence.wide_contents@ == sights@[1]@[1].contents@
                &&& evidence.before_background@ == sights@[2]@[0].background->0@
                &&& evidence.after_background@ == sights@[2]@[1].background->0@
                &&& evidence.modifier_output@ == sights@[3]@[1].output@
                &&& evidence.before@ == sights@[4]@[0].contents@
                &&& evidence.after@ == sights@[4]@[1].contents@
            },
            None => !covers_script(sights@),
        },
{
    if sights.len() != 5 || sights[0].len() != 1 || sights[1].len() != 2 || sights[2].len() != 2
        || sights[3].len() != 2 || sights[4].len() != 2 {
        return None;
    }
    let before_background = match &sights[2][0].background {
        Some(background) => text::copy_of(background),
        None => {
            return None;
        },
    };
    let after_background = match &sights[2][1].background {
        Some(background) => text::copy_of(background),
        None => {
            return None;
        },
    };
    Some(
        VisualEvidence {
            stale_contents: text::copy_of(&sights[0][0].contents),
            wide_contents: text::copy_of(&sights[1][1].contents),
            before_background,
            after_background,
            modifier_output: copy_bytes(&sights[3][1].output),
            before: text::copy_of(&sights[4][0].contents),
            after: text::copy_of(&sights[4][1].contents),
        },
    )
}

fn copy_bytes(bytes: &Vec<u8>) -> (copy: Vec<u8>)
    ensures
        copy@ == bytes@,
{
    let mut copy: Vec<u8> = Vec::new();
    for i in 0..bytes.len()
        invariant
            copy@ == bytes@.take(i as int),
    {
        copy.push(bytes[i]);
    }
    copy
}

/// What terminals showed and wrote when frames were drawn over each other.
#[derive(Debug)]
pub struct VisualEvidence {
    /// What is shown after an empty frame was drawn over a stale text.
    pub stale_contents: String,
    /// What is shown after two wide glyphs were drawn over by the first.
    pub wide_contents: String,
    /// The background near the end of a row, before another was drawn.
    pub before_background: String,
    pub after_background: String,
    /// What was written for an empty frame over underlined blanks.
    pub modifier_output: Vec<u8>,
    /// What is shown before and after the same frame was drawn again.
    pub before: String,
    pub after: String,
}

/// What is wrong with what terminals showed.
#[derive(Debug, Clone, Copy, PartialEq, Eq, Structural)]
pub enum VisualFault {
    StaleTail,
    GlyphLost,
    GlyphRemains,
    BackgroundKept,
    BackgroundReset,
    ModifierKept,
    ScreenChanged,
}

impl VisualFault {
    /// Whether the evidence shows this fault.
    pub open spec fn shown_by(self, evidence: VisualEvidence) -> bool {
        match self {
            VisualFault::StaleTail => text::occurs(evidence.stale_contents@, "stale"@),
            VisualFault::GlyphLost => !text::occurs(evidence.wide_contents@, seq!['\u{4e2d}']),
            VisualFault::GlyphRemains => text::occurs(evidence.wide_contents@, seq!['\u{6587}']),
            VisualFault::BackgroundKept => evidence.before_background@
                == evidence.after_background@,
            VisualFault::BackgroundReset => evidence.after_background@ == "Default"@,
            VisualFault::ModifierKept => clears_before(
                evidence.modifier_output@,
                evidence.modifier_output@.len(),
            ) == 0,
            VisualFault::ScreenChanged => evidence.before@ != evidence.after@,
        }
    }

    /// The place of the fault in the order in which faults are looked for.
    pub open spec fn rank(self) -> int {
        match self {
            VisualFault::StaleTail => 0,
            VisualFault::GlyphLost => 1,
            VisualFault::GlyphRemains => 2,
            VisualFault::BackgroundKept => 3,
            VisualFault::BackgroundReset => 4,
            VisualFault::ModifierKept => 5,
            VisualFault::ScreenChanged => 6,
        }
    }

    /// What is said of the fault.
    pub open spec fn text(self) -> Seq<char> {
        match self {
            VisualFault::StaleTail => "an initial frame must erase stale tail text"@,
            VisualFault::GlyphLost => "remaining wide glyph was lost"@,
            VisualFault::GlyphRemains => "removed wide glyph remains visible"@,
            VisualFault::BackgroundKept => "tail background did not update"@,
            VisualFault::BackgroundReset => "tail background was reset"@,
            VisualFault::ModifierKept => "a modifier-only tail must be cleared"@,
            VisualFault::ScreenChanged => "an unchanged frame changed the visible screen"@,
        }
    }

    /// What is said of the fault.
    pub fn message(&self) -> (message: String)
        ensures
            message@ == self.text(),
    {
        match self {
            VisualFault::StaleTail => text::copy_of("an initial frame must erase stale tail text"),
            VisualFault::GlyphLost => text::copy_of("remaining wide glyph was lost"),
            VisualFault::GlyphRemains => text::copy_of("removed wide glyph remains visible"),
            VisualFault::BackgroundKept => text::copy_of("tail background did not update"),
            VisualFault::BackgroundReset => text::copy_of("tail background was reset"),
            VisualFault::ModifierKept => text::copy_of("a modifier-only tail must be cleared"),
            VisualFault::ScreenChanged => text::copy_of(
                "an unchanged frame changed the visible screen",
            ),
        }
    }
}

/// Checks what terminals showed, and names the first fault there is.
pub fn verify_visual_differential(evidence: &VisualEvidence) -> (verified: Result<(), VisualFault>)
    ensures
        match verified {
            Ok(()) => forall|fault: VisualFault| !#[trigger] fault.shown_by(*evidence),
            Err(fault) => {
                &&& fault.shown_by(*evidence)
                &&& forall|other: VisualFault| #[trigger]
                    other.shown_by(*evidence) ==> fault.rank() <= other.rank()
            },
        },
{
    let glyph_kept = one_char('\u{4e2d}');
    let glyph_removed = one_char('\u{6587}');
    if text::contains_text(&evidence.stale_contents, "stale") {
        return Err(VisualFault::StaleTail);
    }
    if !text::contains_text(&evidence.wide_contents, &glyph_kept) {
        return Err(VisualFault::GlyphLost);
    }
    if text::contains_text(&evidence.wide_contents, &glyph_removed) {
        return Err(VisualFault::GlyphRemains);
    }
    if text::same_text(&evidence.before_background, &evidence.after_background) {
        return Err(VisualFault::BackgroundKept);
    }
    if text::same_text(&evidence.after_background, "Default") {
        return Err(VisualFault::BackgroundReset);
    }
    if clear_to_end_count(&evidence.modifier_output) == 0 {
        return Err(VisualFault::ModifierKept);
    }
    if !text::same_text(&evidence.before, &evidence.after) {
        return Err(VisualFault::ScreenChanged);
    }
    Ok(())
}

fn one_char(ch: char) -> (string: String)
    ensures
        string@ == seq![ch],
{
    let mut string = String::new();
    string.push(ch);
    assert(string@ =~= seq![ch]);
    string
}

/// What the driver is asked to do.
#[derive(Debug, Clone, Copy, PartialEq, Eq, Structural)]
pub enum DriverCommand {
    Measure(Sample),
    Verify,
    /// Nothing that it knows: it says how it is used.
    Usage,
}

/// What the driver's first argument asks for.
pub fn driver_command(argument: Option<&str>) -> (command: DriverCommand)
    ensures
        command == match argument {
            Some(name) => if name@ == "sparse-one-row-change"@ {
                DriverCommand::Measure(Sample::SparseOneRowChange)
            } else if name@ == "tail-change"@ {
                DriverCommand::Measure(Sample::TailChange)
            } else if name@ == "verify"@ {
                DriverCommand::Verify
            } else {
                DriverCommand::Usage
            },
            None => DriverCommand::Usage,
        },
{
    match argument {
        Some(name) => {
            if text::same_text(name, "sparse-one-row-change") {
                DriverCommand::Measure(Sample::SparseOneRowChange)
            } else if text::same_text(name, "tail-change") {
                DriverCommand::Measure(Sample::TailChange)
            } else if text::same_text(name, "verify") {
                DriverCommand::Verify
            } else {
                DriverCommand::Usage
            }
        },
        None => DriverCommand::Usage,
    }
}

/// Why there is no tick to measure.
#[derive(Debug, Clone, Copy, PartialEq, Eq, Structural)]
pub enum TickError {
    Missing,
    NotANumber,
}

/// Reads the tick that the driver's second argument gives.
pub fn parse_tick(argument: Option<&str>) -> (tick: Result<u64, TickError>)
    ensures
        match tick {
            Ok(tick) => argument is Some && numbers::parsed(argument->0@, u64::MAX as nat) == Some(
                tick as nat,
            ),
            Err(TickError::Missing) => argument is None,
            Err(TickError::NotANumber) => argument is Some && numbers::parsed(
                argument->0@,
                u64::MAX as nat,
            ) is None,
        },
{
    match argument {
        Some(digits) => match parse_number(digits, u64::MAX) {
            Some(tick) => Ok(tick),
            None => Err(TickError::NotANumber),
        },
        None => Err(TickError::Missing),
    }
}

/// What a terminal that only captures has been given: the bytes that were
/// written since they were last taken, its size and where its cursor was put.
#[derive(Debug)]
pub struct Capture {
    pub output: Vec<u8>,
    pub width: u16,
    pub height: u16,
    pub cursor: (u16, u16),
}

impl Capture {
    /// A terminal of this size that nothing was written to.
    pub fn new(width: u16, height: u16) -> (capture: Self)
        ensures
            capture.output@ == Seq::<u8>::empty(),
            capture.width == width,
            capture.height == height,
            capture.cursor == (0u16, 0u16),
    {
        Capture { output: Vec::new(), width, height, cursor: (0, 0) }
    }

    /// Keeps what is written, and says how much of it was: all.
    pub fn write(&mut self, bytes: &[u8]) -> (written: usize)
        ensures
            final(self).output@ == old(self).output@ + bytes@,
            final(self).width == old(self).width,
            final(self).height == old(self).height,
            final(self).cursor == old(self).cursor,
            written == bytes@.len(),
    {
        let ghost before = self.output@;
        for i in 0..bytes.len()
            invariant
                self.output@ == before + bytes@.take(i as int),
                before == old(self).output@,
                self.width == old(self).width,
                self.height == old(self).height,
                self.cursor == old(self).cursor,
        {
            self.output.push(bytes[i]);
            assert(bytes@.take(i + 1) =~= bytes@.take(i as int).push(bytes@[i as int]));
        }
        assert(bytes@.take(bytes@.len() as int) =~= bytes@);
        bytes.len()
    }

    /// Hands over what was written, and keeps none of it.
    pub fn take_output(&mut self) -> (output: Vec<u8>)
        ensures
            output@ == old(self).output@,
            final(self).output@ == Seq::<u8>::empty(),
            final(self).width == old(self).width,
            final(self).height == old(self).height,
            final(self).cursor == old(self).cursor,
    {
        let mut output: Vec<u8> = Vec::new();
        std::mem::swap(&mut output, &mut self.output);
        output
    }

    /// Puts the cursor somewhere.
    pub fn set_cursor_position(&mut self, x: u16, y: u16)
        ensures
            final(self).cursor == (x, y),
            final(self).output == old(self).output,
            final(self).width == old(self).width,
            final(self).height == old(self).height,
    {
        self.cursor = (x, y);
    }
}

/// One more byte completes a command exactly where it is the last of the three
/// bytes of one, and takes none away. Nothing written clears nothing.
pub proof fn law_last_byte_completes_a_command(bytes: Seq<u8>, byte: u8)
    ensures
        ({
            let more = bytes.push(byte);
            let length = bytes.len() as int;
            let completes = byte == 0x4b && length >= 2 && bytes[length - 1] == 0x5b
                && bytes[length - 2] == 0x1b;
            clears_before(more, more.len()) == clears_before(bytes, bytes.len()) + (if completes {
                1int
            } else {
                0
            })
        }),
        clears_before(Seq::empty(), 0) == 0,
{
    let more = bytes.push(byte);
    let length = bytes.len() as int;
    if length < 2 {
        reveal_with_fuel(clears_before, 4);
        assert(!clears_at(more, 0) && !clears_at(more, 1));
        assert(!clears_at(bytes, 0) && !clears_at(bytes, 1));
    } else {
        lemma_same_clears(bytes, byte, (length - 2) as nat);
        reveal_with_fuel(clears_before, 4);
        assert(!clears_at(more, length) && !clears_at(more, length - 1));
        assert(!clears_at(bytes, length - 1) && !clears_at(bytes, length - 2));
        let window = more.subrange(length - 2, length + 1);
        assert(window[0] == bytes[length - 2]);
        assert(window[1] == bytes[length - 1]);
        assert(window[2] == byte);
        if byte == 0x4b && bytes[length - 1] == 0x5b && bytes[length - 2] == 0x1b {
            assert(window =~= clear_to_end());
        }
        assert(clears_at(more, length - 2) <==> byte == 0x4b && bytes[length - 1] == 0x5b
            && bytes[length - 2] == 0x1b);
    }
}

proof fn lemma_same_clears(bytes: Seq<u8>, byte: u8, count: nat)
    requires
        count + 2 <= bytes.len(),
    ensures
        clears_before(bytes.push(byte), count) == clears_before(bytes, count),
    decreases count,
{
    if count > 0 {
        lemma_same_clears(bytes, byte, (count - 1) as nat);
        let place = count - 1;
        assert(bytes.push(byte).subrange(place, place + 3) =~= bytes.subrange(place, place + 3));
    }
}

/// A frame says which tick it belongs to, in its corner: read as a number, the
/// end of the text is the tick.
pub proof fn law_frame_tells_its_tick(tick: u64)
    ensures
        ({
            let placed = tick_text(tick);
            &&& placed.x == 0
            &&& placed.y == 0
            &&& placed.style == (Style { fg: Some(Color::Cyan), bg: None, underlined: false })
            &&& placed.text.len() > 12
            &&& placed.text.take(12) == "stream tick "@
            &&& numbers::parsed(placed.text.skip(12), u64::MAX as nat) == Some(tick as nat)
        }),
{
    reveal_strlit("stream tick ");
    let digits = text::decimal(tick as nat);
    numbers::law_reading_undoes_decimal_notation(tick as nat);
    text::law_decimal_has_no_zero_in_front(tick as nat);
    assert(tick_text(tick).text.take(12) =~= "stream tick "@);
    assert(tick_text(tick).text.skip(12) =~= digits);
}

/// A sparse frame waits in every eighth row from the fifth on, in each of them
/// once, and in no other row.
pub proof fn law_every_eighth_row_waits(tick: u64, height: u16, row: u16)
    ensures
        ({
            let texts = sparse_frame_view(tick, height).texts;
            &&& texts.len() > 0 && texts[0] == tick_text(tick)
            &&& sparse_frame_view(tick, height).base == (Style {
                fg: None,
                bg: None,
                underlined: false,
            })
            &&& row < height && row % 8 == 4 <==> exists|i: int|
                0 < i < texts.len() && (#[trigger] texts[i]).y == row
            &&& forall|i: int|
                0 < i < texts.len() ==> {
                    &&& (#[trigger] texts[i]).text == "waiting for activity"@
                    &&& texts[i].x == 0
                    &&& texts[i].style == (Style {
                        fg: Some(Color::DarkGray),
                        bg: None,
                        underlined: false,
                    })
                }
            &&& forall|i: int, j: int|
                #![trigger texts[i], texts[j]]
                0 < i < j < texts.len() ==> texts[i].y < texts[j].y
        }),
{
    let texts = sparse_frame_view(tick, height).texts;
    assert forall|i: int| 0 < i < texts.len() implies (#[trigger] texts[i]).y == 4 + 8 * (i - 1)
        && texts[i].y < height by {}
    if row < height && row % 8 == 4 {
        let i = (row - 4) / 8 + 1;
        assert(texts[i].y == row);
    }
}

/// A tail frame has the same text at the end of every row, and nothing else but
/// its tick.
pub proof fn law_every_row_has_a_tail(tick: u64, width: u16, height: u16, row: u16)
    requires
        row < height,
    ensures
        ({
            let texts = tail_frame_view(tick, width, height).texts;
            &&& texts.len() == height + 1
            &&& texts[0] == tick_text(tick)
            &&& tail_frame_view(tick, width, height).base == sparse_frame_view(tick, height).base
            &&& texts[row + 1].y == row
            &&& texts[row + 1].text == "old tail"@
            &&& texts[row + 1].style == (Style {
                fg: Some(Color::Yellow),
                bg: None,
                underlined: false,
            })
            &&& width >= 9 ==> texts[row + 1].x + 9 == width
            &&& width < 9 ==> texts[row + 1].x == 0
        }),
{
}

/// Each tick but the first follows another, one lower.
pub proof fn law_ticks_follow_each_other(tick: u64)
    ensures
        tick > 0 ==> tick_before(tick) + 1 == tick,
        tick == 0 ==> tick_before(tick) == 0,
{
}

/// What is looked at covers the script: there is a sight for every frame of every
/// scene, and a background wherever the scene looks at one.
pub proof fn law_sights_cover_every_frame(sights: Seq<Vec<FrameSight>>, scene: int, frame: int)
    requires
        covers_script(sights),
        0 <= scene < script().len(),
    ensures
        sights.len() == script().len(),
        sights[scene]@.len() == script()[scene].frames.len(),
        0 <= frame < sights[scene]@.len() && script()[scene].probe is Some
            ==> sights[scene]@[frame].background is Some,
{
    assert(scene == 0 || scene == 1 || scene == 2 || scene == 3 || scene == 4);
}

/// A sight for every frame of every scene, with a background wherever the scene
/// looks at one, is all that is needed.
pub proof fn law_nothing_else_is_to_be_seen(sights: Seq<Vec<FrameSight>>)
    requires
        sights.len() == script().len(),
        forall|scene: int|
            0 <= scene < script().len() ==> (#[trigger] sights[scene])@.len()
                == script()[scene].frames.len(),
        forall|scene: int, frame: int|
            #![trigger sights[scene]@[frame]]
            0 <= scene < script().len() && 0 <= frame < sights[scene]@.len()
                && script()[scene].probe is Some ==> sights[scene]@[frame].background is Some,
    ensures
        covers_script(sights),
{
    assert(script().len() == 5);
    assert(sights[0]@.len() == script()[0].frames.len());
    assert(sights[1]@.len() == script()[1].frames.len());
    assert(sights[2]@.len() == script()[2].frames.len());
    assert(sights[3]@.len() == script()[3].frames.len());
    assert(sights[4]@.len() == script()[4].frames.len());
    assert(sights[2]@[0].background is Some);
    assert(sights[2]@[1].background is Some);
}

/// What the scenes draw: each ends with a frame that has to take something away,
/// and the cell that is looked at lies inside the terminal. The stale text is
/// there from the start, one wide glyph of two is left, one background replaces
/// another, nothing stays underlined, and the last frame is the one before it.
pub proof fn law_scenes_take_something_away(scene: int)
    requires
        0 <= scene < script().len(),
    ensures
        ({
            let drawn = script()[scene];
            let first = drawn.frames[0];
            let last = drawn.frames.last();
            &&& drawn.probe matches Some((row, column)) ==> row < drawn.height && column
                < drawn.width
            &&& drawn.preload.len() > 0 <==> scene == 0
            &&& drawn.frames.len() == 1 <==> scene == 0
            &&& scene == 0 ==> last.texts.len() == 0 && drawn.preload.skip(7) == seq![
                's' as u8,
                't' as u8,
                'a' as u8,
                'l' as u8,
                'e' as u8,
            ]
            &&& scene == 1 ==> first.texts[0].text.len() == 2 && last.texts[0].text
                == first.texts[0].text.take(1)
            &&& scene == 2 ==> first.base.bg != last.base.bg && last.base.bg is Some
            &&& scene == 3 ==> first.base.underlined && !last.base.underlined
            &&& scene == 4 ==> first == last && first.texts.len() > 1
        }),
{
    assert(scene == 0 || scene == 1 || scene == 2 || scene == 3 || scene == 4);
    if scene == 0 {
        assert(stale_bytes().skip(7) =~= seq![
            's' as u8,
            't' as u8,
            'a' as u8,
            'l' as u8,
            'e' as u8,
        ]);
    }
    if scene == 1 {
        assert(seq!['\u{4e2d}', '\u{6587}'].take(1) =~= seq!['\u{4e2d}']);
    }
}

/// Faults are looked for one after the other, no two at once.
pub proof fn law_faults_have_an_order(fault: VisualFault, other: VisualFault)
    ensures
        fault.rank() == other.rank() <==> fault == other,
        VisualFault::StaleTail.rank() < VisualFault::GlyphLost.rank()
            < VisualFault::GlyphRemains.rank() < VisualFault::BackgroundKept.rank()
            < VisualFault::BackgroundReset.rank() < VisualFault::ModifierKept.rank()
            < VisualFault::ScreenChanged.rank(),
{
}

/// Evidence without a fault: nothing stale is left wherever it would stand, the
/// wide glyph that stays is there and the other is not, the background is a new
/// one, something was cleared, and an unchanged frame changed nothing.
pub proof fn law_faultless_evidence(evidence: VisualEvidence, before: Seq<char>, behind: Seq<char>)
    requires
        forall|fault: VisualFault| !#[trigger] fault.shown_by(evidence),
    ensures
        evidence.stale_contents@ != before + "stale"@ + behind,
        evidence.wide_contents@.contains('\u{4e2d}'),
        !evidence.wide_contents@.contains('\u{6587}'),
        evidence.before_background@ != evidence.after_background@,
        evidence.after_background@ != "Default"@,
        clears_before(evidence.modifier_output@, evidence.modifier_output@.len()) > 0,
        evidence.before@ == evidence.after@,
{
    assert(!VisualFault::StaleTail.shown_by(evidence));
    assert(!VisualFault::GlyphLost.shown_by(evidence));
    assert(!VisualFault::GlyphRemains.shown_by(evidence));
    assert(!VisualFault::BackgroundKept.shown_by(evidence));
    assert(!VisualFault::BackgroundReset.shown_by(evidence));
    assert(!VisualFault::ModifierKept.shown_by(evidence));
    assert(!VisualFault::ScreenChanged.shown_by(evidence));
    text::law_part_occurs_between(before, "stale"@, behind);
    let wide = evidence.wide_contents@;
    let kept = seq!['\u{4e2d}'];
    let place = choose|place: int| text::occurs_at(wide, kept, place);
    assert(wide.subrange(place, place + 1)[0] == kept[0]);
    assert(wide[place] == '\u{4e2d}');
    if wide.contains('\u{6587}') {
        let at = choose|at: int| 0 <= at < wide.len() && wide[at] == '\u{6587}';
        let removed = seq!['\u{6587}'];
        assert(wide.subrange(at, at + 1) =~= removed);
        assert(text::occurs_at(wide, removed, at));
    }
}

/// A fault is shown for its own reason only.
pub proof fn law_fault_has_a_reason(evidence: VisualEvidence, fault: VisualFault)
    requires
        fault.shown_by(evidence),
    ensures
        match fault {
            VisualFault::StaleTail => text::occurs(evidence.stale_contents@, "stale"@),
            VisualFault::GlyphLost => !evidence.wide_contents@.contains('\u{4e2d}'),
            VisualFault::GlyphRemains => evidence.wide_contents@.contains('\u{6587}'),
            VisualFault::BackgroundKept => evidence.before_background@
                == evidence.after_background@,
            VisualFault::BackgroundReset => evidence.after_background@ == "Default"@,
            VisualFault::ModifierKept => clears_before(
                evidence.modifier_output@,
                evidence.modifier_output@.len(),
            ) == 0,
            VisualFault::ScreenChanged => evidence.before@ != evidence.after@,
        },
{
    let wide = evidence.wide_contents@;
    if fault is GlyphLost && wide.contains('\u{4e2d}') {
        let at = choose|at: int| 0 <= at < wide.len() && wide[at] == '\u{4e2d}';
        let kept = seq!['\u{4e2d}'];
        assert(wide.subrange(at, at + 1) =~= kept);
        assert(text::occurs_at(wide, kept, at));
    }
    if fault is GlyphRemains {
        let removed = seq!['\u{6587}'];
        let place = choose|place: int| text::occurs_at(wide, removed, place);
        assert(wide.subrange(place, place + 1)[0] == removed[0]);
        assert(wide[place] == '\u{6587}');
    }
}

/// What is said of a fault tells which fault it is.
pub proof fn law_faults_are_told_apart(fault: VisualFault, other: VisualFault)
    ensures
        fault.text() == other.text() ==> fault == other,
{
    reveal_strlit("an initial frame must erase stale tail text");
    reveal_strlit("remaining wide glyph was lost");
    reveal_strlit("removed wide glyph remains visible");
    reveal_strlit("tail background did not update");
    reveal_strlit("tail background was reset");
    reveal_strlit("a modifier-only tail must be cleared");
    reveal_strlit("an unchanged frame changed the visible screen");
    assert(fault.text().len() == other.text().len() ==> fault == other);
}

/// The names of the measurements tell which sample and which number is meant.
pub proof fn law_measurements_are_told_apart(sample: Sample, other: Sample)
    ensures
        sample.bytes_metric() == other.bytes_metric() ==> sample == other,
        sample.clears_metric() == other.clears_metric() ==> sample == other,
        sample.bytes_metric() != other.clears_metric(),
{
    reveal_strlit("terminal_output_bytes_per_sparse_one_row_change");
    reveal_strlit("terminal_output_bytes_per_tail_change");
    reveal_strlit("clear_to_end_commands_per_sparse_one_row_change");
    reveal_strlit("clear_to_end_commands_per_tail_change");
    assert(sample.bytes_metric().len() == other.bytes_metric().len() ==> sample == other);
    assert(sample.clears_metric().len() == other.clears_metric().len() ==> sample == other);
    assert(sample.bytes_metric()[0] != other.clears_metric()[0]);
}

/// Frames and what is placed on them are seen as they are, in order.
pub proof fn law_frames_are_seen_as_they_are(scene: Scene, frame: int, place: int)
    requires
        0 <= frame < scene.frames@.len(),
        0 <= place < scene.frames@[frame].texts@.len(),
    ensures
        scene@.width == scene.width,
        scene@.height == scene.height,
        scene@.preload == scene.preload@,
        scene@.probe == scene.probe,
        scene@.frames.len() == scene.frames@.len(),
        scene@.frames[frame].base == scene.frames@[frame].base,
        scene@.frames[frame].texts.len() == scene.frames@[frame].texts@.len(),
        ({
            let seen = scene@.frames[frame].texts[place];
            let placed = scene.frames@[frame].texts@[place];
            &&& seen.x == placed.x
            &&& seen.y == placed.y
            &&& seen.text == placed.text@
            &&& seen.style == placed.style
        }),
{
}

} // verus!
