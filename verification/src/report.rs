//! Who is told what a search finds.

use crate::results;
use crate::results::{FileMatch, FileSearchOptions, FileSearchResults, FileSearchSnapshot};
use crate::results::{FileSearchSnapshotView, PositiveCount};
use vstd::prelude::*;

verus! {

/// The user of a session.
pub trait SessionReporter: Send + Sync + 'static {
    /// Called when the debounced top-N changes.
    fn on_update(&self, snapshot: &FileSearchSnapshot);

    /// Called when the session becomes idle or is cancelled. Guaranteed to be
    /// called at least once per `update_query`.
    fn on_complete(&self);
}

/// The user of a one-shot search.
pub trait Reporter {
    fn report_match(&self, file_match: &FileMatch);

    fn warn_matches_truncated(&self, total_match_count: usize, shown_match_count: usize);

    fn warn_no_search_pattern(&self, search_directory: &str);
}

/// The results of a search that ended with this snapshot.
pub fn results_of(snapshot: FileSearchSnapshot) -> (found: FileSearchResults)
    ensures
        found.matches == snapshot.matches,
        found.total_match_count == snapshot.total_match_count,
{
    FileSearchResults {
        matches: snapshot.matches,
        total_match_count: snapshot.total_match_count,
    }
}

/// Whether there are more matches than are shown.
pub open spec fn is_truncated(found: FileSearchResults) -> bool {
    found.total_match_count > found.matches@.len()
}

/// One thing that a reporter is told.
#[derive(Debug, Clone, Copy, PartialEq, Eq, Structural)]
pub enum ReportStep {
    /// The match at this place.
    Match(usize),
    /// That there are more matches than are shown.
    Truncated { total: usize, shown: usize },
}

/// What a reporter is told of results: every match in order, and then that there
/// are more, where that is so.
pub open spec fn steps_for(found: FileSearchResults) -> Seq<ReportStep> {
    Seq::new(found.matches@.len(), |i: int| ReportStep::Match(i as usize)) + (if is_truncated(
        found,
    ) {
        seq![
            ReportStep::Truncated {
                total: found.total_match_count,
                shown: found.matches@.len() as usize,
            },
        ]
    } else {
        Seq::empty()
    })
}

/// Lists what a reporter is told of results, in order.
pub fn report_steps(found: &FileSearchResults) -> (steps: Vec<ReportStep>)
    ensures
        steps@ == steps_for(*found),
{
    let shown: usize = found.matches.len();
    let mut steps: Vec<ReportStep> = Vec::new();
    for i in 0..shown
        invariant
            steps@ == Seq::new(i as nat, |j: int| ReportStep::Match(j as usize)),
    {
        steps.push(ReportStep::Match(i));
        assert(steps@ =~= Seq::new((i + 1) as nat, |j: int| ReportStep::Match(j as usize)));
    }
    if found.total_match_count > shown {
        steps.push(ReportStep::Truncated { total: found.total_match_count, shown });
    }
    assert(steps@ =~= steps_for(*found));
    steps
}

/// What the command line asks for.
#[derive(Debug)]
pub struct Request {
    pub pattern: Option<String>,
    pub limit: PositiveCount,
    pub compute_indices: bool,
    pub exclude: Vec<String>,
    pub threads: PositiveCount,
}

/// What is done about a request.
#[derive(Debug)]
pub enum MainStep {
    /// There is no pattern: a warning is given and the directory is listed.
    ListDirectory,
    /// The pattern is searched for.
    Search { pattern: String, options: FileSearchOptions },
}

/// Decides what is done about a request. Ignore files are always respected.
pub fn main_step(request: Request) -> (step: MainStep)
    ensures
        match step {
            MainStep::ListDirectory => request.pattern is None,
            MainStep::Search { pattern, options } => {
                &&& request.pattern == Some(pattern)
                &&& options == (FileSearchOptions {
                    limit: request.limit,
                    exclude: request.exclude,
                    threads: request.threads,
                    compute_indices: request.compute_indices,
                    respect_gitignore: true,
                })
            },
        },
{
    match request.pattern {
        Some(pattern) => MainStep::Search {
            pattern,
            options: FileSearchOptions {
                limit: request.limit,
                exclude: request.exclude,
                threads: request.threads,
                compute_indices: request.compute_indices,
                respect_gitignore: true,
            },
        },
        None => MainStep::ListDirectory,
    }
}

/// Keeps the last snapshot until the search is complete.
#[derive(Debug)]
pub struct RunReporter {
    pub snapshot: FileSearchSnapshot,
    pub completed: bool,
}

/// What a [`RunReporter`] holds.
pub struct RunReporterView {
    pub snapshot: FileSearchSnapshotView,
    pub completed: bool,
}

impl View for RunReporter {
    type V = RunReporterView;

    open spec fn view(&self) -> RunReporterView {
        RunReporterView { snapshot: self.snapshot@, completed: self.completed }
    }
}

impl Default for RunReporter {
    fn default() -> (reporter: Self)
        ensures
            reporter@ == (RunReporterView {
                snapshot: results::empty_snapshot(),
                completed: false,
            }),
    {
        RunReporter { snapshot: FileSearchSnapshot::default(), completed: false }
    }
}

impl RunReporter {
    /// Keeps the snapshot in place of the one before.
    pub fn on_update(&mut self, snapshot: &FileSearchSnapshot)
        ensures
            final(self)@ == (RunReporterView { snapshot: snapshot@, ..old(self)@ }),
    {
        self.snapshot = snapshot.clone();
    }

    /// Takes in that the search is complete.
    pub fn on_complete(&mut self)
        ensures
            final(self)@ == (RunReporterView { completed: true, ..old(self)@ }),
    {
        self.completed = true;
    }

    /// The last snapshot, once the search is complete.
    pub fn wait_for_complete(&self) -> (snapshot: Option<FileSearchSnapshot>)
        ensures
            match snapshot {
                Some(snapshot) => self@.completed && snapshot@ == self@.snapshot,
                None => !self@.completed,
            },
    {
        if self.completed {
            Some(self.snapshot.clone())
        } else {
            None
        }
    }
}

/// A reporter is told of every match, in order and by its place, and behind them
/// that there are more exactly where there are. Nothing else is said.
pub proof fn law_reporter_is_told_of_every_match(found: FileSearchResults, place: usize)
    ensures
        ({
            let shown = found.matches@.len();
            let steps = steps_for(found);
            let truncated = found.total_match_count > shown;
            &&& place < shown ==> steps[place as int] == ReportStep::Match(place)
            &&& steps.len() == shown + (if truncated {
                1int
            } else {
                0
            })
            &&& truncated && shown <= usize::MAX ==> steps.last() == (ReportStep::Truncated {
                total: found.total_match_count,
                shown: shown as usize,
            })
            &&& is_truncated(found) <==> truncated
        }),
{
}

} // verus!
