//! Starting a session, and searching once.

use crate::engine::{injector_of, start_engine, Notifier, MAX_THREADS};
use crate::overrides;
use crate::overrides::{build_override_matcher, OverrideError};
use crate::query;
use crate::report::results_of;
use crate::results::{FileSearchOptions, FileSearchResults, FileSearchSnapshot};
use crate::schedule::SignalView;
use crate::session::{FileSearchSession, SessionView};
use crate::text;
use crate::walk::{walk_settings, Walk, WalkSettings};
use vstd::prelude::*;

verus! {

/// What is said where a session is to search nowhere.
pub const NO_SEARCH_DIRECTORY: &'static str = "at least one search directory is required";

/// Why a session cannot be started.
#[derive(Debug)]
pub enum SessionError {
    /// There is no directory to search.
    NoSearchDirectory,
    /// The globs to exclude cannot be used.
    Exclude(OverrideError),
}

/// The settings that the options ask for.
pub open spec fn settings_of(options: FileSearchOptions) -> WalkSettings {
    WalkSettings {
        threads: options.threads.count(),
        hidden: false,
        follow_links: true,
        require_git: true,
        git_ignore: options.respect_gitignore,
        git_global: options.respect_gitignore,
        git_exclude: options.respect_gitignore,
        ignore: options.respect_gitignore,
        parents: options.respect_gitignore,
    }
}

/// Whether a session over these directories cannot be started, and why.
pub open spec fn is_refusal(
    search_directories: Seq<Seq<char>>,
    options: FileSearchOptions,
    error: SessionError,
) -> bool {
    match error {
        SessionError::NoSearchDirectory => search_directories.len() == 0,
        SessionError::Exclude(error) => {
            &&& search_directories.len() > 0
            &&& overrides::is_override_outcome(
                search_directories[0],
                text::texts(options.exclude@),
                Err(error),
            )
        },
    }
}

/// Whether a session over these directories was started as the options ask: it
/// is fresh, and the walk covers the directories with what the globs to exclude
/// make of it.
pub open spec fn is_start(
    search_directories: Seq<Seq<char>>,
    options: FileSearchOptions,
    watches_available: bool,
    session: SessionView,
    walk: Walk,
) -> bool {
    &&& search_directories.len() > 0
    &&& session == SessionView::fresh(
        search_directories,
        options.limit.count() as nat,
        options.threads.count() as nat,
        options.compute_indices,
        watches_available,
    )
    &&& text::texts(walk.search_directories@) == search_directories
    &&& walk.settings == settings_of(options)
    &&& walk.visitors == 0
    &&& overrides::is_override_outcome(
        search_directories[0],
        text::texts(options.exclude@),
        Ok(walk.overrides),
    )
}

/// Whether a session over these directories can be started as the options ask.
pub open spec fn is_started(
    search_directories: Seq<Seq<char>>,
    options: FileSearchOptions,
    watches_available: bool,
) -> bool {
    exists|session: SessionView, walk: Walk| #[trigger]
        is_start(search_directories, options, watches_available, session, walk)
}

/// Starts a session over the search directories, and plans the walk that feeds
/// it. The globs to exclude are taken relative to the first directory.
///
/// The notifier is told whenever the matcher has news. Where no directory can be
/// watched for changes, `watches_available` is false.
pub fn create_session(
    search_directories: Vec<String>,
    options: FileSearchOptions,
    notifier: Notifier,
    watches_available: bool,
) -> (started: Result<(FileSearchSession, Walk), SessionError>)
    requires
        search_directories@.len() > 0 ==> options.threads.count() <= MAX_THREADS,
    ensures
        match started {
            Ok((session, walk)) => {
                &&& session@.is_consistent()
                &&& session.is_fed_by(walk.injector)
                &&& session.notifier() == notifier
                &&& is_start(
                    text::texts(search_directories@),
                    options,
                    watches_available,
                    session@,
                    walk,
                )
            },
            Err(error) => is_refusal(text::texts(search_directories@), options, error),
        },
{
    if search_directories.len() == 0 {
        return Err(SessionError::NoSearchDirectory);
    }
    assert(text::texts(search_directories@)[0] == search_directories@[0]@);
    let overrides = match build_override_matcher(&search_directories[0], &options.exclude) {
        Ok(overrides) => overrides,
        Err(error) => {
            return Err(SessionError::Exclude(error));
        },
    };
    let threads: usize = options.threads.get();
    let limit: usize = options.limit.get();
    let engine = start_engine(notifier, threads);
    let walk = Walk {
        search_directories: text::copy_texts(&search_directories),
        settings: walk_settings(threads, options.respect_gitignore),
        overrides,
        injector: injector_of(&engine),
        visitors: 0,
    };
    let session = FileSearchSession::over(
        engine,
        search_directories,
        limit,
        options.compute_indices,
        watches_available,
    );
    Ok((session, walk))
}

/// Searches once: starts a session, gives it the pattern, has `drive` carry it
/// to its completion and returns what the last snapshot holds. A search that is
/// to stop by the time that it has the pattern ends there, with nothing found:
/// `stopped` says whether it is.
pub fn run<S: Fn() -> bool, D: FnOnce(FileSearchSession, Walk) -> FileSearchSnapshot>(
    pattern_text: &str,
    roots: Vec<String>,
    options: FileSearchOptions,
    notifier: Notifier,
    watches_available: bool,
    stopped: &S,
    drive: D,
) -> (found: Result<FileSearchResults, SessionError>)
    requires
        query::is_scorable(pattern_text@),
        roots@.len() > 0 ==> options.threads.count() <= MAX_THREADS,
        stopped.requires(()),
        forall|session: FileSearchSession, walk: Walk|
            session@.is_consistent() && session.is_fed_by(walk.injector)
                ==> #[trigger] drive.requires((session, walk)),
    ensures
        match found {
            Ok(found) => {
                ||| {
                    &&& stopped.ensures((), true)
                    &&& is_started(text::texts(roots@), options, watches_available)
                    &&& found.matches@.len() == 0
                    &&& found.total_match_count == 0
                }
                ||| stopped.ensures((), false) && exists|
                    fresh: SessionView,
                    session: FileSearchSession,
                    walk: Walk,
                    snapshot: FileSearchSnapshot,
                |
                    {
                        &&& #[trigger] is_start(
                            text::texts(roots@),
                            options,
                            watches_available,
                            fresh,
                            walk,
                        )
                        &&& session@ == fresh.after_signal(SignalView::QueryUpdated(pattern_text@))
                        &&& session.is_fed_by(walk.injector)
                        &&& session.notifier() == notifier
                        &&& #[trigger] drive.ensures((session, walk), snapshot)
                        &&& found.matches == snapshot.matches
                        &&& found.total_match_count == snapshot.total_match_count
                    }
            },
            Err(error) => is_refusal(text::texts(roots@), options, error),
        },
{
    match create_session(roots, options, notifier, watches_available) {
        Ok((session, walk)) => {
            let mut session = session;
            let ghost fresh = session@;
            let ghost walked = walk;
            assert(is_start(text::texts(roots@), options, watches_available, fresh, walked));
            let _ = session.update_query(pattern_text);
            let stop: bool = stopped();
            let _ = session.end_turn(false, stop, false);
            if session.has_ended() {
                return Ok(FileSearchResults { matches: Vec::new(), total_match_count: 0 });
            }
            let ghost driven = session;
            let snapshot = drive(session, walk);
            let ghost last = snapshot;
            let found = results_of(snapshot);
            assert(drive.ensures((driven, walked), last));
            Ok(found)
        },
        Err(error) => Err(error),
    }
}

/// The walk has the threads that the options ask for, skips nothing because it is
/// hidden, goes through links, and heeds ignore files of every kind or of none,
/// as the options say; those of git count only inside a repository.
pub proof fn law_walk_is_as_the_options_ask(options: FileSearchOptions)
    ensures
        ({
            let settings = settings_of(options);
            &&& settings.threads == options.threads.count()
            &&& !settings.hidden
            &&& settings.follow_links
            &&& settings.require_git
            &&& options.respect_gitignore ==> settings.git_ignore && settings.git_global
                && settings.git_exclude && settings.ignore && settings.parents
            &&& !options.respect_gitignore ==> !settings.git_ignore && !settings.git_global
                && !settings.git_exclude && !settings.ignore && !settings.parents
        }),
{
}

/// A session is refused where there is no directory to search, or where the globs
/// to exclude cannot be used, taken relative to the first directory, and for no
/// other reason.
pub proof fn law_refusal_has_a_reason(
    search_directories: Seq<Seq<char>>,
    options: FileSearchOptions,
    error: SessionError,
)
    requires
        is_refusal(search_directories, options, error),
    ensures
        error is NoSearchDirectory <==> search_directories.len() == 0,
        error matches SessionError::Exclude(reason) ==> overrides::is_override_outcome(
            search_directories[0],
            text::texts(options.exclude@),
            Err(reason),
        ),
{
}

/// A session that is started searches the directories that it was given, with the
/// limit, the threads and the indices that the options ask for; the walk goes over
/// the same directories, and leaves out what the globs exclude, relative to the
/// first. One that can be started is not refused.
pub proof fn law_start_is_as_the_options_ask(
    search_directories: Seq<Seq<char>>,
    options: FileSearchOptions,
    watches_available: bool,
    session: SessionView,
    walk: Walk,
    error: SessionError,
)
    requires
        is_start(search_directories, options, watches_available, session, walk),
    ensures
        search_directories.len() > 0,
        session.search_directories == search_directories,
        session.limit == options.limit.count(),
        session.given.threads == options.threads.count(),
        session.compute_indices == options.compute_indices,
        session.tracker.dirty == !watches_available,
        session.given.parses == 0,
        session.snapshot.rows.len() == 0,
        session.progress.reports.len() == 0,
        walk.search_directories@.len() == search_directories.len(),
        forall|i: int|
            0 <= i < search_directories.len() ==> (#[trigger] walk.search_directories@[i])@
                == search_directories[i],
        walk.settings.threads == options.threads.count(),
        walk.settings.git_ignore == options.respect_gitignore,
        walk.visitors == 0,
        walk.overrides is None <==> options.exclude@.len() == 0,
        !is_refusal(search_directories, options, error),
        is_started(search_directories, options, watches_available),
{
    let exclude = text::texts(options.exclude@);
    assert(exclude.len() == options.exclude@.len());
    assert(text::texts(walk.search_directories@).len() == walk.search_directories@.len());
    assert forall|i: int| 0 <= i < search_directories.len() implies (
    #[trigger] walk.search_directories@[i])@ == search_directories[i] by {
        assert(text::texts(walk.search_directories@)[i] == walk.search_directories@[i]@);
    }
    if is_refusal(search_directories, options, error) {
        if let SessionError::Exclude(reason) = error {
            overrides::law_override_outcome_is_unique(
                search_directories[0],
                exclude,
                Ok(walk.overrides),
                Err(reason),
            );
        }
    }
}

} // verus!
