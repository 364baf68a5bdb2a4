use file_search::streaming::{
    check_stats, consume_cell, fixtures, growing_paragraph_chunks, growing_table_chunks,
    is_boundary, line_text, plain_lines, presentation_chunks, run_fixture, run_workload,
    sample_lines, source_of, stream_steps, strip_agent_prefix, unclosed_fence_chunks,
    verify_fixture_at_presentation_boundaries, BoundaryCheck, Checksum, Divergence, Fixture,
    FixtureKind, FixtureRun, Presentation, RenderedLine, StatsFault, StreamRecord, StreamStep,
};
use file_search::terminal::{
    background_frame, clear_to_end_count, driver_command, empty_frame, evidence_of, parse_tick,
    sparse_frame, tail_frame, text_frame, underlined_frame, verify_visual_differential,
    visual_script, Capture, Color, DriverCommand, FrameSight, Sample, TickError, VisualEvidence,
    VisualFault, HEIGHT, WIDTH,
};

fn line(spans: &[&str]) -> RenderedLine {
    RenderedLine { spans: spans.iter().map(|span| span.to_string()).collect() }
}

#[test]
fn clearing_commands_are_counted() {
    let count = |bytes: &[u8]| clear_to_end_count(&bytes.to_vec());
    assert_eq!(count(b""), 0);
    assert_eq!(count(b"\x1b["), 0);
    assert_eq!(count(b"\x1b[K"), 1);
    assert_eq!(count(b"\x1b[K\x1b[Kx\x1b[2K\x1b\x1b[K"), 3);
}

#[test]
fn sparse_frames_hold_the_tick_and_waiting_rows() {
    let frame = sparse_frame(17, HEIGHT);
    assert_eq!(frame.texts[0].text, "stream tick 17");
    assert_eq!(frame.texts[0].style.fg, Some(Color::Cyan));
    let rows: Vec<u16> = frame.texts[1..].iter().map(|text| text.y).collect();
    let expected: Vec<u16> = (4..HEIGHT).step_by(8).collect();
    assert_eq!(rows, expected);
    assert_eq!(frame.texts[1].text, "waiting for activity");
    assert_eq!(frame.texts[1].style.fg, Some(Color::DarkGray));
    for height in [0, 1, 4, 5, 12, 13, u16::MAX] {
        let rows: Vec<u16> = sparse_frame(0, height).texts[1..].iter().map(|text| text.y).collect();
        let expected: Vec<u16> = (4..height).step_by(8).collect();
        assert_eq!(rows, expected);
    }
}

#[test]
fn tail_frames_end_every_row() {
    let frame = tail_frame(3, WIDTH, HEIGHT);
    assert_eq!(frame.texts.len(), 41);
    assert_eq!(frame.texts[0].text, "stream tick 3");
    assert_eq!((frame.texts[40].x, frame.texts[40].y), (111, 39));
    assert_eq!(frame.texts[40].text, "old tail");
    assert_eq!(frame.texts[40].style.fg, Some(Color::Yellow));
    assert_eq!(tail_frame(3, 5, 1).texts[1].x, 0);
}

#[test]
fn other_frames_are_plain() {
    assert!(empty_frame().texts.is_empty());
    assert_eq!(empty_frame().base.bg, None);
    assert_eq!(background_frame(Color::Blue).base.bg, Some(Color::Blue));
    assert_eq!(text_frame("abc").texts[0].text, "abc");
    assert!(underlined_frame().base.underlined);
    assert!(!text_frame("abc").base.underlined);
}

#[test]
fn samples_draw_one_frame_over_another() {
    let first = Sample::SparseOneRowChange.first_frame(5, WIDTH, HEIGHT);
    assert_eq!(first.texts[0].text, "stream tick 4");
    assert_eq!(first.texts.len(), 6);
    let first = Sample::TailChange.first_frame(0, WIDTH, HEIGHT);
    assert_eq!(first.texts[0].text, "stream tick 0");
    assert_eq!(first.texts.len(), 41);
    let second = Sample::TailChange.second_frame(5, HEIGHT);
    assert_eq!(second.texts[0].text, "stream tick 5");
    assert_eq!(second.texts.len(), 6);
}

#[test]
fn samples_report_bytes_and_commands() {
    let output = b"ab\x1b[K".to_vec();
    let (bytes, clears) = Sample::SparseOneRowChange.report(&output);
    assert_eq!(
        bytes,
        "{\"metric\":\"terminal_output_bytes_per_sparse_one_row_change\",\"value\":5}"
    );
    assert_eq!(
        clears,
        "{\"metric\":\"clear_to_end_commands_per_sparse_one_row_change\",\"value\":1}"
    );
    let (bytes, clears) = Sample::TailChange.report(&Vec::new());
    assert_eq!(bytes, "{\"metric\":\"terminal_output_bytes_per_tail_change\",\"value\":0}");
    assert_eq!(clears, "{\"metric\":\"clear_to_end_commands_per_tail_change\",\"value\":0}");
}

fn flawless() -> VisualEvidence {
    VisualEvidence {
        stale_contents: "".to_string(),
        wide_contents: "\u{4e2d}".to_string(),
        before_background: "Idx(4)".to_string(),
        after_background: "Idx(1)".to_string(),
        modifier_output: b"\x1b[K".to_vec(),
        before: "same".to_string(),
        after: "same".to_string(),
    }
}

#[test]
fn visual_faults_are_named_in_order() {
    assert_eq!(verify_visual_differential(&flawless()), Ok(()));

    let mut evidence = flawless();
    evidence.after = "other".to_string();
    assert_eq!(verify_visual_differential(&evidence), Err(VisualFault::ScreenChanged));
    evidence.modifier_output = Vec::new();
    assert_eq!(verify_visual_differential(&evidence), Err(VisualFault::ModifierKept));
    evidence.after_background = "Default".to_string();
    assert_eq!(verify_visual_differential(&evidence), Err(VisualFault::BackgroundReset));
    evidence.before_background = "Default".to_string();
    assert_eq!(verify_visual_differential(&evidence), Err(VisualFault::BackgroundKept));
    evidence.wide_contents = "\u{4e2d}\u{6587}".to_string();
    assert_eq!(verify_visual_differential(&evidence), Err(VisualFault::GlyphRemains));
    evidence.wide_contents = "\u{6587}".to_string();
    assert_eq!(verify_visual_differential(&evidence), Err(VisualFault::GlyphLost));
    evidence.stale_contents = "    stale".to_string();
    assert_eq!(verify_visual_differential(&evidence), Err(VisualFault::StaleTail));
    assert_eq!(
        VisualFault::StaleTail.message(),
        "an initial frame must erase stale tail text"
    );
}

#[test]
fn driver_arguments_are_read() {
    assert_eq!(
        driver_command(Some("sparse-one-row-change")),
        DriverCommand::Measure(Sample::SparseOneRowChange)
    );
    assert_eq!(driver_command(Some("tail-change")), DriverCommand::Measure(Sample::TailChange));
    assert_eq!(driver_command(Some("verify")), DriverCommand::Verify);
    assert_eq!(driver_command(Some("verify ")), DriverCommand::Usage);
    assert_eq!(driver_command(None), DriverCommand::Usage);
    assert_eq!(parse_tick(Some("42")), Ok(42));
    assert_eq!(parse_tick(Some("x")), Err(TickError::NotANumber));
    assert_eq!(parse_tick(None), Err(TickError::Missing));
}

#[test]
fn captured_output_is_handed_over_once() {
    let mut capture = Capture::new(12, 1);
    assert_eq!(capture.write(b"ab"), 2);
    assert_eq!(capture.write(b"c"), 1);
    capture.set_cursor_position(3, 0);
    assert_eq!(capture.take_output(), b"abc".to_vec());
    assert!(capture.take_output().is_empty());
    assert_eq!(capture.cursor, (3, 0));
    assert_eq!((capture.width, capture.height), (12, 1));
}

#[test]
fn presentation_settings_are_read() {
    assert_eq!(presentation_chunks(None), 8);
    assert_eq!(presentation_chunks(Some("3")), 3);
    assert_eq!(presentation_chunks(Some("0")), 8);
    assert_eq!(presentation_chunks(Some("many")), 8);
    assert!(is_boundary(7, 8));
    assert!(!is_boundary(8, 8));
    assert!(is_boundary(0, 1));
}

#[test]
fn streams_are_made_of_chunks() {
    assert_eq!(growing_paragraph_chunks(2), vec!["p0000\n", "p0001\n"]);
    assert_eq!(unclosed_fence_chunks(3), vec!["```rust\n", "x0001\n", "x0002\n"]);
    assert_eq!(unclosed_fence_chunks(0), vec!["```rust\n"]);
    assert_eq!(
        growing_table_chunks(3),
        vec!["| A | B |\n", "|---|---|\n", "| 0002 | x |\n"]
    );
    assert_eq!(growing_table_chunks(0).len(), 2);
    let all = fixtures();
    let shape: Vec<(FixtureKind, usize, usize)> = all
        .iter()
        .map(|fixture| (fixture.kind, fixture.chunk_count, fixture.chunks.len()))
        .collect();
    assert_eq!(shape.len(), 9);
    assert_eq!(shape[0], (FixtureKind::Paragraph, 10, 10));
    assert_eq!(shape[4], (FixtureKind::UnclosedFence, 100, 100));
    assert_eq!(shape[8], (FixtureKind::Table, 1000, 1000));
    assert_eq!(all[8].chunks[999], "| 0999 | x |\n");
    assert_eq!(all[4].kind.name(), "unclosed_fence");
}

#[test]
fn lines_lose_the_mark_in_front() {
    assert_eq!(line_text(&line(&["a", "", "bc"])), "abc");
    assert_eq!(plain_lines(&vec![line(&[]), line(&["x"])]), vec!["", "x"]);
    let stripped = strip_agent_prefix(&vec![
        line(&["\u{2022} ", "text"]),
        line(&["x"]),
        line(&["  a\r\nb\r\n\nc\r"]),
    ]);
    assert_eq!(plain_lines(&stripped), vec!["text", "", "abc\r"]);
    assert_eq!(stripped[2].spans, vec!["a", "b", "", "c\r"]);
}

#[test]
fn presentations_are_checked_against_what_is_expected() {
    let mut check = BoundaryCheck::new();
    check.push_chunk("one\n");
    check.push_chunk("two\n");
    check.emit(&vec![line(&["> one"])]);
    let expected = vec!["one".to_string(), "two".to_string()];
    assert_eq!(check.check_boundary(2, &vec![line(&["two"])], &expected), Ok(()));
    let divergence = check.check_boundary(2, &Vec::new(), &expected).unwrap_err();
    assert_eq!(divergence, Divergence::AtBoundary { chunks: 2 });
    assert_eq!(
        divergence.message(FixtureKind::Paragraph),
        "paragraph stream diverged at presentation boundary after 2 chunks"
    );
    assert_eq!(check.check_source(2, Some("one\ntwo\n")), Ok(()));
    let divergence = check.check_source(2, None).unwrap_err();
    assert_eq!(
        divergence.message(FixtureKind::Table),
        "table stream lost source while finalizing 2 chunks"
    );
    assert_eq!(check.check_source(2, Some("one\n")), Err(divergence));
    let divergence = check.check_end(2, &expected).unwrap_err();
    assert_eq!(
        divergence.message(FixtureKind::UnclosedFence),
        "unclosed_fence stream diverged after finalizing 2 chunks"
    );
    check.emit(&vec![line(&["> two"])]);
    assert_eq!(check.check_end(2, &expected), Ok(()));
}

#[test]
fn checksums_wrap_around() {
    let mut sum = Checksum::new();
    sum.chunk_pushed(true);
    sum.chunk_pushed(false);
    sum.presented(true, 5);
    sum.finalized(false, Some(100));
    assert_eq!(sum.value, 107);
    sum.finalized(true, None);
    assert_eq!(sum.value, 108);
    sum.presented(false, usize::MAX);
    assert_eq!(sum.value, 107);
    assert_eq!(run_workload(&vec![usize::MAX, 2, 3]), 4);
    assert_eq!(consume_cell(true), 1);
    assert_eq!(consume_cell(false), 0);
}

#[test]
fn stream_measurements_are_checked_and_reported() {
    assert_eq!(check_stats(1, 1), Ok(()));
    assert_eq!(check_stats(0, 1), Err(StatsFault::NotReached));
    assert_eq!(check_stats(1, 0), Err(StatsFault::NoInput));
    let (elapsed, calls, bytes) = sample_lines(1, 2, 3);
    assert_eq!(elapsed, "{\"metric\":\"streaming_rerender_ns/op\",\"value\":1}");
    assert_eq!(calls, "{\"metric\":\"streaming_renderer_calls/op\",\"value\":2}");
    assert_eq!(bytes, "{\"metric\":\"streaming_renderer_input_bytes/op\",\"value\":3}");
}

/// Renders every line as it stands, and settles all but the last at each
/// presentation.
#[derive(Default)]
struct LineByLine {
    source: String,
    settled: usize,
    loses_source: bool,
    loses_line: Option<usize>,
}

impl LineByLine {
    fn lines(&self, from: usize, to: usize, mark: &str) -> Vec<RenderedLine> {
        self.source
            .lines()
            .enumerate()
            .filter(|(index, _)| *index >= from && *index < to && Some(*index) != self.loses_line)
            .map(|(_, text)| line(&[mark, text]))
            .collect()
    }

    fn settle(&mut self, to: usize) -> Option<Vec<RenderedLine>> {
        if to <= self.settled {
            return None;
        }
        let cell = self.lines(self.settled, to, "> ");
        self.settled = to;
        Some(cell)
    }
}

impl LineByLine {
    fn push(&mut self, chunk: &str) -> bool {
        self.source.push_str(chunk);
        self.source.lines().count() % 2 == 0
    }

    fn on_commit_tick_batch(&mut self) -> Option<Vec<RenderedLine>> {
        let count = self.source.lines().count();
        self.settle(count.saturating_sub(1))
    }

    fn current_tail_lines(&self) -> Vec<RenderedLine> {
        self.lines(self.settled, usize::MAX, "")
    }

    fn finalize(&mut self) -> (Option<Vec<RenderedLine>>, Option<String>) {
        let cell = self.settle(self.source.lines().count());
        let source = if self.loses_source { None } else { Some(self.source.clone()) };
        (cell, source)
    }
}

fn rendered(source: &str) -> Vec<String> {
    source.lines().map(str::to_string).collect()
}

fn recorded(fixture: &Fixture, every: usize, mut controller: LineByLine) -> StreamRecord {
    let mut presentations = Vec::new();
    let mut end = (None, None);
    for step in stream_steps(fixture, every) {
        match step {
            StreamStep::Feed(index) => {
                controller.push(&fixture.chunks[index]);
            }
            StreamStep::Present(count) => {
                assert_eq!(source_of(fixture, count), controller.source);
                let cell = controller.on_commit_tick_batch();
                presentations.push(Presentation {
                    cell,
                    tail: controller.current_tail_lines(),
                    expected: rendered(&source_of(fixture, count)),
                });
            }
            StreamStep::Finalize => end = controller.finalize(),
        }
    }
    let (last_cell, source) = end;
    StreamRecord {
        presentations,
        last_cell,
        source,
        expected: rendered(&source_of(fixture, fixture.chunks.len())),
    }
}

#[test]
fn presentation_boundaries_preserve_output() {
    for fixture in fixtures() {
        let every = presentation_chunks(None);
        let record = recorded(&fixture, every, LineByLine::default());
        assert_eq!(record.presentations.len(), fixture.chunk_count / 8);
        assert_eq!(verify_fixture_at_presentation_boundaries(&fixture, every, &record), Ok(()));
    }
}

fn ten_chunks() -> Fixture {
    Fixture {
        kind: FixtureKind::Paragraph,
        chunk_count: 10,
        chunks: growing_paragraph_chunks(10),
    }
}

#[test]
fn the_first_divergence_of_a_stream_is_named() {
    let fixture = ten_chunks();
    let verify = |controller: LineByLine| {
        let record = recorded(&fixture, 4, controller);
        verify_fixture_at_presentation_boundaries(&fixture, 4, &record)
    };

    let verdict = verify(LineByLine { loses_line: Some(5), ..LineByLine::default() });
    assert_eq!(verdict, Err(Divergence::AtBoundary { chunks: 8 }));

    let verdict = verify(LineByLine {
        loses_line: Some(2),
        loses_source: true,
        ..LineByLine::default()
    });
    assert_eq!(verdict, Err(Divergence::AtBoundary { chunks: 4 }));

    let verdict = verify(LineByLine { loses_source: true, ..LineByLine::default() });
    assert_eq!(verdict, Err(Divergence::SourceLost { chunks: 10 }));

    let verdict = verify(LineByLine { loses_line: Some(9), ..LineByLine::default() });
    assert_eq!(verdict, Err(Divergence::AtEnd { chunks: 10 }));
}

#[test]
fn streams_are_fed_and_presented_step_by_step() {
    let fixture = Fixture {
        kind: FixtureKind::UnclosedFence,
        chunk_count: 5,
        chunks: unclosed_fence_chunks(5),
    };
    assert_eq!(
        stream_steps(&fixture, 2),
        vec![
            StreamStep::Feed(0),
            StreamStep::Feed(1),
            StreamStep::Present(2),
            StreamStep::Feed(2),
            StreamStep::Feed(3),
            StreamStep::Present(4),
            StreamStep::Feed(4),
            StreamStep::Finalize,
        ]
    );
    assert_eq!(source_of(&fixture, 0), "");
    assert_eq!(source_of(&fixture, 2), "```rust\nx0001\n");

    let all = ten_chunks();
    let fed: Vec<StreamStep> = stream_steps(&all, 3)
        .into_iter()
        .filter(|step| matches!(step, StreamStep::Feed(_)))
        .collect();
    let expected: Vec<StreamStep> = (0..10).map(StreamStep::Feed).collect();
    assert_eq!(fed, expected);
    assert_eq!(stream_steps(&all, 3).len(), 10 + 3 + 1);
}

#[test]
fn runs_are_summed_up() {
    let fixture = ten_chunks();
    let mut controller = LineByLine::default();
    let mut run = FixtureRun {
        enqueued: Vec::new(),
        presented: Vec::new(),
        finalized: (false, None),
    };
    for step in stream_steps(&fixture, 4) {
        match step {
            StreamStep::Feed(index) => run.enqueued.push(controller.push(&fixture.chunks[index])),
            StreamStep::Present(_) => {
                let cell = controller.on_commit_tick_batch();
                run.presented.push((cell.is_some(), controller.current_tail_lines().len()));
            }
            StreamStep::Finalize => {
                let (cell, source) = controller.finalize();
                run.finalized = (cell.is_some(), source.map(|source| source.len()));
            }
        }
    }
    assert_eq!(run.enqueued.len(), 10);
    assert_eq!(run.presented, vec![(true, 1), (true, 1)]);
    assert_eq!(run.finalized, (true, Some(60)));
    assert_eq!(run_fixture(&fixture, 4, &run), 5 + 2 + 2 + 1 + 60);
}

#[test]
fn the_visual_script_draws_frames_over_each_other() {
    let scenes = visual_script();
    let sizes: Vec<(u16, u16, usize)> = scenes
        .iter()
        .map(|scene| (scene.width, scene.height, scene.frames.len()))
        .collect();
    assert_eq!(
        sizes,
        vec![(12, 1, 1), (12, 1, 2), (10, 1, 2), (10, 1, 2), (WIDTH, HEIGHT, 2)]
    );
    assert_eq!(scenes[0].preload, b"\x1b[H    stale".to_vec());
    assert!(scenes[1..].iter().all(|scene| scene.preload.is_empty()));
    assert!(scenes[0].frames[0].texts.is_empty());
    assert_eq!(scenes[1].frames[0].texts[0].text, "\u{4e2d}\u{6587}");
    assert_eq!(scenes[1].frames[1].texts[0].text, "\u{4e2d}");
    assert_eq!(scenes[2].frames[0].base.bg, Some(Color::Blue));
    assert_eq!(scenes[2].frames[1].base.bg, Some(Color::Red));
    let probes: Vec<Option<(u16, u16)>> = scenes.iter().map(|scene| scene.probe).collect();
    assert_eq!(probes, vec![None, None, Some((0, 8)), None, None]);
    assert!(scenes[3].frames[0].base.underlined);
    assert!(!scenes[3].frames[1].base.underlined);
    for frame in &scenes[4].frames {
        assert_eq!(frame.texts[0].text, "stream tick 17");
        assert_eq!(frame.texts.len(), 6);
    }
}

#[test]
fn evidence_is_picked_out_of_the_sights() {
    let sights = || -> Vec<Vec<FrameSight>> {
        visual_script()
            .iter()
            .enumerate()
            .map(|(scene, script)| {
                (0..script.frames.len())
                    .map(|frame| FrameSight {
                        contents: format!("contents {scene} {frame}"),
                        background: script.probe.map(|_| format!("background {frame}")),
                        output: vec![scene as u8, frame as u8],
                    })
                    .collect()
            })
            .collect()
    };
    let evidence = evidence_of(&sights()).expect("evidence");
    assert_eq!(evidence.stale_contents, "contents 0 0");
    assert_eq!(evidence.wide_contents, "contents 1 1");
    assert_eq!(evidence.before_background, "background 0");
    assert_eq!(evidence.after_background, "background 1");
    assert_eq!(evidence.modifier_output, vec![3, 1]);
    assert_eq!(evidence.before, "contents 4 0");
    assert_eq!(evidence.after, "contents 4 1");

    let mut unseen = sights();
    unseen[2][1].background = None;
    assert!(evidence_of(&unseen).is_none());
    let mut unseen = sights();
    let _ = unseen[4].pop();
    assert!(evidence_of(&unseen).is_none());
    let mut unseen = sights();
    let _ = unseen.pop();
    assert!(evidence_of(&unseen).is_none());
}
