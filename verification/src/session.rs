//! A search session: the matcher and everything that turns its snapshots into
//! reports.

use crate::classify;
use crate::classify::{
    decode_match_type, MatchTypeTracker, SearchItem, SearchItemView, TrackerView,
};
use crate::engine;
use crate::engine::{AddedEntry, Given, Injected, MatchedRow, MatcherSnapshot, Notifier};
use crate::paths;
use crate::query;
use crate::ranking;
use crate::ranking::ascending_unique;
use crate::results;
use crate::results::{
    FileMatch, FileMatchView, FileSearchSnapshot, FileSearchSnapshotView, MatchType,
};
use crate::roots;
use crate::roots::get_file_path;
use crate::schedule::{
    Pace, Progress, Reaction, ScheduleView, SignalView, Turn, WorkSignal, TICK_TIMEOUT_MS,
};
use crate::text;
use nucleo::{Injector, Nucleo};
use std::collections::HashMap;
use vstd::prelude::*;

verus! {

/// The answer that is kept for a row's entry, where answers may be used.
pub open spec fn reused(
    kept: Map<u64, SearchItemView>,
    row: MatchedRow,
    usable: bool,
) -> Option<MatchType> {
    if usable && kept.contains_key(row.id) {
        kept[row.id].usable_type()
    } else {
        None
    }
}

/// What a row's entry is: the kept answer, or what the file system says.
pub open spec fn settled_type(
    kept: Map<u64, SearchItemView>,
    row: MatchedRow,
    usable: bool,
    probe: bool,
) -> MatchType {
    match reused(kept, row, usable) {
        Some(match_type) => match_type,
        None => if probe {
            MatchType::Directory
        } else {
            MatchType::File
        },
    }
}

/// The entry of a row as the walk found it.
pub open spec fn entry_of(row: MatchedRow) -> SearchItemView {
    SearchItemView::found(row.full_path, classify::decoded(row.walk_type), row.cacheable)
}

/// The kept answers after a row's entry was settled.
pub open spec fn kept_after(
    kept: Map<u64, SearchItemView>,
    row: MatchedRow,
    usable: bool,
    probe: bool,
) -> Map<u64, SearchItemView> {
    if reused(kept, row, usable) is Some {
        kept
    } else {
        kept.insert(
            row.id,
            entry_of(row).classified(settled_type(kept, row, usable, probe)),
        )
    }
}

/// The numbers of `numbers`, each once and in ascending order.
pub open spec fn listed_once(numbers: Seq<u32>) -> Seq<u32> {
    choose|unique: Seq<u32>| ranking::lists_once(unique, numbers)
}

/// The match that a row makes, where its entry lies under a search directory.
pub open spec fn match_of(
    row: MatchedRow,
    search_directories: Seq<Seq<char>>,
    compute_indices: bool,
    match_type: MatchType,
) -> FileMatchView {
    let root = search_directories[roots::best_root(row.full_path, search_directories)];
    FileMatchView {
        score: row.score,
        path: paths::stripped(row.full_path, root)->0,
        match_type,
        root,
        indices: if compute_indices {
            Some(listed_once(row.indices))
        } else {
            None
        },
    }
}

/// The matches that a snapshot's rows make, and the answers kept afterwards.
pub struct Listing {
    pub matches: Seq<FileMatchView>,
    pub kept: Map<u64, SearchItemView>,
}

/// Turns rows into matches one by one. Rows outside every search directory are
/// left out. `probes` holds, for each row, what the file system says of it.
pub open spec fn listing(
    rows: Seq<MatchedRow>,
    search_directories: Seq<Seq<char>>,
    compute_indices: bool,
    usable: bool,
    kept: Map<u64, SearchItemView>,
    probes: Seq<bool>,
) -> Listing
    decreases rows.len(),
{
    if rows.len() == 0 {
        Listing { matches: Seq::empty(), kept }
    } else {
        let before = listing(
            rows.drop_last(),
            search_directories,
            compute_indices,
            usable,
            kept,
            probes.drop_last(),
        );
        let row = rows.last();
        if roots::is_under_some_root(row.full_path, search_directories) {
            Listing {
                matches: before.matches.push(
                    match_of(
                        row,
                        search_directories,
                        compute_indices,
                        settled_type(before.kept, row, usable, probes.last()),
                    ),
                ),
                kept: kept_after(before.kept, row, usable, probes.last()),
            }
        } else {
            before
        }
    }
}

/// Whether `probe` is what `is_directory` said of the row's entry, if it was
/// asked: no kept answer could be used, and the entry lies under a search
/// directory.
pub open spec fn probe_of<P: Fn(&str) -> bool>(
    is_directory: P,
    row: MatchedRow,
    search_directories: Seq<Seq<char>>,
    usable: bool,
    kept: Map<u64, SearchItemView>,
    probe: bool,
) -> bool {
    roots::is_under_some_root(row.full_path, search_directories) && reused(kept, row, usable) is None
        ==> exists|path: &str|
        path@ == row.full_path && #[trigger] is_directory.ensures((path,), probe)
}

/// Whether `probes` are what `is_directory` said of the rows' entries, as far
/// as it was asked.
pub open spec fn probed_by<P: Fn(&str) -> bool>(
    is_directory: P,
    rows: Seq<MatchedRow>,
    search_directories: Seq<Seq<char>>,
    compute_indices: bool,
    usable: bool,
    kept: Map<u64, SearchItemView>,
    probes: Seq<bool>,
) -> bool {
    &&& probes.len() == rows.len()
    &&& forall|i: int|
        #![trigger probes[i]]
        0 <= i < rows.len() ==> probe_of(
            is_directory,
            rows[i],
            search_directories,
            usable,
            listing(
                rows.take(i),
                search_directories,
                compute_indices,
                usable,
                kept,
                probes.take(i),
            ).kept,
            probes[i],
        )
}

/// The directories above those of the rows' entries whose type may be kept.
pub open spec fn directories_above(rows: Seq<MatchedRow>) -> Seq<Seq<char>>
    decreases rows.len(),
{
    if rows.len() == 0 {
        Seq::empty()
    } else {
        directories_above(rows.drop_last()) + (if rows.last().cacheable {
            paths::ancestors(rows.last().full_path)
        } else {
            Seq::empty()
        })
    }
}

/// A session: it takes queries and the news of the matcher, and says what there
/// is to report.
pub struct FileSearchSession {
    engine: Nucleo<Injected>,
    tracker: MatchTypeTracker,
    search_directories: Vec<String>,
    limit: usize,
    compute_indices: bool,
    pace: Pace,
    kept: HashMap<u64, SearchItem>,
    reported: Ghost<Option<FileSearchSnapshotView>>,
}

/// What a [`FileSearchSession`] knows.
pub struct SessionView {
    /// The matcher's current snapshot.
    pub snapshot: MatcherSnapshot,
    /// What the matcher was made with and given.
    pub given: Given,
    /// The entries that had been added when a tick last counted them.
    pub added: Seq<AddedEntry>,
    pub tracker: TrackerView,
    pub search_directories: Seq<Seq<char>>,
    pub limit: nat,
    pub compute_indices: bool,
    /// The signals so far, the timer and the reports.
    pub progress: Progress,
    /// The answers to what an entry is, by the number of the entry.
    pub kept: Map<u64, SearchItemView>,
    /// The last report, if there was one.
    pub reported: Option<FileSearchSnapshotView>,
}

/// Something that happens to a session: a signal comes in, or the timer is due
/// and the matcher ticks. `told` holds what the hooks said in the look at the
/// snapshot, where there was one.
pub enum SessionEvent {
    Signal(SignalView),
    Tick { snapshot: MatcherSnapshot, added: Seq<AddedEntry>, running: bool, told: Option<Told> },
}

impl SessionView {
    /// What the session remembers of the signals so far.
    pub open spec fn schedule(self) -> ScheduleView {
        self.progress.schedule
    }

    /// What holds of every session: the matcher works on the last query, its
    /// snapshot has the best match first, every row in it is an added entry that
    /// matches, the last
    /// report is on that snapshot, and it is on the last query unless a newer one
    /// is still being matched.
    pub open spec fn is_consistent(self) -> bool {
        &&& self.given.query == self.schedule().last_query
        &&& self.limit > 0
        &&& self.snapshot.is_best_first()
        &&& self.snapshot.is_of_its_query()
        &&& self.snapshot.is_made_of(self.added)
        &&& self.reported matches Some(report) ==> self.is_on_snapshot(report)
        &&& !self.given.pending ==> (self.reported matches Some(report) ==> report.query
            == self.schedule().last_query)
    }

    /// Whether the report is on the current snapshot: it counts what the snapshot
    /// holds, and its matches are those of the rows that are shown.
    pub open spec fn is_on_snapshot(self, report: FileSearchSnapshotView) -> bool {
        &&& report.total_match_count == self.snapshot.rows.len()
        &&& report.scanned_file_count == self.snapshot.item_count
        &&& exists|usable: bool, kept: Map<u64, SearchItemView>, probes: Seq<bool>| #[trigger]
            self.lists(report.matches, usable, kept, probes)
    }

    /// Whether these are the matches that the shown rows make, by these answers.
    pub open spec fn lists(
        self,
        matches: Seq<FileMatchView>,
        usable: bool,
        kept: Map<u64, SearchItemView>,
        probes: Seq<bool>,
    ) -> bool {
        matches == listing(
            self.shown_rows(),
            self.search_directories,
            self.compute_indices,
            usable,
            kept,
            probes,
        ).matches
    }

    /// Whether there is nothing left to do: the walk is over, the snapshot is on
    /// the last query and takes account of every entry that was counted, and so
    /// does the last report. In a search for one query, every entry that matches
    /// has its row.
    pub open spec fn is_settled(self) -> bool {
        &&& self.schedule().walk_complete
        &&& self.snapshot.query == self.schedule().last_query
        &&& self.snapshot.item_count == self.added.len()
        &&& self.given.parses <= 1 ==> self.snapshot.holds_every_match_of(self.added)
        &&& !self.given.pending
        &&& self.reported matches Some(report) ==> self.is_on_snapshot(report) && report.query
            == self.schedule().last_query
    }

    /// A session that was given nothing yet.
    pub open spec fn fresh(
        search_directories: Seq<Seq<char>>,
        limit: nat,
        threads: nat,
        compute_indices: bool,
        watches_available: bool,
    ) -> SessionView {
        SessionView {
            snapshot: MatcherSnapshot::empty(),
            given: Given::started(threads),
            added: Seq::empty(),
            tracker: TrackerView { watched: Seq::empty(), dirty: !watches_available },
            search_directories,
            limit,
            compute_indices,
            progress: Progress::start(),
            kept: Map::empty(),
            reported: None,
        }
    }

    /// The session after the turn of a signal. A query goes to the matcher, as a
    /// continuation where it begins with the query before.
    pub open spec fn after_signal(self, signal: SignalView) -> SessionView {
        SessionView {
            progress: self.progress.turned(Turn::Signal(signal)),
            given: match signal {
                SignalView::QueryUpdated(query) => self.given.parsed(
                    query,
                    self.schedule().last_query.is_prefix_of(query),
                ),
                _ => self.given,
            },
            ..self
        }
    }

    /// The rows that are shown: the first ones, up to the limit.
    pub open spec fn shown_rows(self) -> Seq<MatchedRow> {
        if self.limit < self.snapshot.rows.len() {
            self.snapshot.rows.take(self.limit as int)
        } else {
            self.snapshot.rows
        }
    }

    /// The report on the current snapshot, with these matches in it.
    pub open spec fn report(self, matches: Seq<FileMatchView>) -> FileSearchSnapshotView {
        FileSearchSnapshotView {
            query: self.schedule().last_query,
            matches,
            total_match_count: self.snapshot.rows.len() as usize,
            scanned_file_count: self.snapshot.item_count as usize,
            walk_complete: self.schedule().walk_complete,
        }
    }

    /// The session after the matcher, given a tick of the time that it is
    /// allowed, moved on to `snapshot`, had counted `added` and was left busy or
    /// not.
    pub open spec fn ticked(
        self,
        snapshot: MatcherSnapshot,
        added: Seq<AddedEntry>,
        running: bool,
    ) -> SessionView {
        SessionView {
            given: self.given.ticked(TICK_TIMEOUT_MS, running),
            snapshot,
            added,
            ..self
        }
    }

    /// The session after the turn of the timer.
    pub open spec fn after_due(self, changed: bool, running: bool) -> SessionView {
        SessionView { progress: self.progress.turned(Turn::Due { changed, running }), ..self }
    }

    /// The session after a look at the current snapshot, where the hooks said
    /// what `told` holds: every directory above a shown entry is watched, the
    /// watches are read, and each entry is settled by a kept answer or by a new
    /// one.
    pub open spec fn looked(self, told: Told) -> SessionView {
        let tracker = self.tracker_after(told);
        let listed = listing(
            self.shown_rows(),
            self.search_directories,
            self.compute_indices,
            !tracker.dirty,
            self.kept,
            told.probes,
        );
        SessionView {
            tracker,
            kept: listed.kept,
            reported: Some(self.report(listed.matches)),
            ..self
        }
    }

    /// What is known of watches once every directory above a shown entry is
    /// watched.
    pub open spec fn tracker_watching(self, told: Told) -> TrackerView {
        self.tracker.after_watches(directories_above(self.shown_rows()), told.watches)
    }

    /// What is known of watches after a look at the current snapshot.
    pub open spec fn tracker_after(self, told: Told) -> TrackerView {
        let watching = self.tracker_watching(told);
        if watching.dirty {
            watching
        } else {
            watching.after_read(told.clean)
        }
    }

    /// Whether a look at the current snapshot can turn this session into
    /// `after` and make the report `update`, by what the hooks can say.
    pub open spec fn reports<A: Fn(&str) -> bool, D: Fn() -> bool, P: Fn(&str) -> bool>(
        self,
        after: SessionView,
        update: FileSearchSnapshotView,
        add_watch: A,
        drain: D,
        is_directory: P,
    ) -> bool {
        exists|told: Told| #[trigger]
            self.reports_as_told(after, update, add_watch, drain, is_directory, told)
    }

    /// Whether a look at the current snapshot turns this session into `after`
    /// and makes the report `update`, where the hooks said what `told` holds.
    pub open spec fn reports_as_told<A: Fn(&str) -> bool, D: Fn() -> bool, P: Fn(&str) -> bool>(
        self,
        after: SessionView,
        update: FileSearchSnapshotView,
        add_watch: A,
        drain: D,
        is_directory: P,
        told: Told,
    ) -> bool {
        let rows = self.shown_rows();
        &&& classify::answered_by(add_watch, self.tracker, directories_above(rows), told.watches)
        &&& !self.tracker_watching(told).dirty ==> drain.ensures((), told.clean)
        &&& probed_by(
            is_directory,
            rows,
            self.search_directories,
            self.compute_indices,
            !self.tracker_after(told).dirty,
            self.kept,
            told.probes,
        )
        &&& after == self.looked(told)
        &&& after.reported == Some(update)
    }

    /// Whether the matcher can come to this by a tick: no entry goes, rows match
    /// and have the best first, and a matcher with nothing left to do has matched
    /// every entry that was counted against the last query, and has handed that
    /// over. The snapshot is looked at where it may have changed.
    pub open spec fn allows_tick(
        self,
        snapshot: MatcherSnapshot,
        added: Seq<AddedEntry>,
        running: bool,
        changed: bool,
    ) -> bool {
        &&& self.snapshot.item_count <= snapshot.item_count <= u32::MAX
        &&& snapshot.is_best_first()
        &&& snapshot.is_of_its_query()
        &&& self.added.is_prefix_of(added)
        &&& snapshot.is_made_of(added)
        &&& !running ==> snapshot.item_count == added.len()
        &&& !running && self.given.parses <= 1 ==> snapshot.holds_every_match_of(added)
        &&& !running ==> snapshot.query == self.given.query
        &&& self.given.pending && !running ==> changed
        &&& !changed ==> snapshot == self.snapshot
    }

    /// Whether a tick can turn this session into `after`, make the report
    /// `update` if any, and leave the matcher busy or not.
    pub open spec fn ticks_to<A: Fn(&str) -> bool, D: Fn() -> bool, P: Fn(&str) -> bool>(
        self,
        after: SessionView,
        update: Option<FileSearchSnapshotView>,
        running: bool,
        add_watch: A,
        drain: D,
        is_directory: P,
    ) -> bool {
        let due = self.ticked(after.snapshot, after.added, running).after_due(
            update is Some,
            running,
        );
        &&& self.allows_tick(after.snapshot, after.added, running, update is Some)
        &&& match update {
            Some(update) => due.reports(after, update, add_watch, drain, is_directory),
            None => after == due,
        }
    }

    /// Whether the event can happen to this session.
    pub open spec fn allows(self, event: SessionEvent) -> bool {
        match event {
            SessionEvent::Signal(_) => true,
            SessionEvent::Tick { snapshot, added, running, told } => self.allows_tick(
                snapshot,
                added,
                running,
                told is Some,
            ),
        }
    }

    /// The session after an event.
    pub open spec fn after(self, event: SessionEvent) -> SessionView {
        match event {
            SessionEvent::Signal(signal) => self.after_signal(signal),
            SessionEvent::Tick { snapshot, added, running, told } => {
                let due = self.ticked(snapshot, added, running).after_due(told is Some, running);
                match told {
                    Some(told) => due.looked(told),
                    None => due,
                }
            },
        }
    }

    /// The session after several events.
    pub open spec fn after_all(self, events: Seq<SessionEvent>) -> SessionView
        decreases events.len(),
    {
        if events.len() == 0 {
            self
        } else {
            self.after_all(events.drop_last()).after(events.last())
        }
    }

    /// Whether each of the events can happen when it does.
    pub open spec fn allows_all(self, events: Seq<SessionEvent>) -> bool
        decreases events.len(),
    {
        events.len() > 0 ==> self.allows_all(events.drop_last()) && self.after_all(
            events.drop_last(),
        ).allows(events.last())
    }
}

/// What the hooks of a look at a snapshot said: of each directory whether it is
/// watched now, whether the watches had nothing to report, and of each row
/// whether its entry is a directory.
pub struct Told {
    pub watches: Seq<bool>,
    pub clean: bool,
    pub probes: Seq<bool>,
}

/// What a tick leads to: a report on what changed, if anything did, whether
/// the matcher is still busy, and whether the search is complete.
#[derive(Debug)]
pub struct TickOutcome {
    pub update: Option<FileSearchSnapshot>,
    pub running: bool,
    pub complete: bool,
}

impl TickOutcome {
    /// The report on what changed, if anything did.
    pub open spec fn reported(self) -> Option<FileSearchSnapshotView> {
        match self.update {
            Some(update) => Some(update@),
            None => None,
        }
    }
}

/// What a session's loop wakes up for.
#[derive(Debug)]
pub enum Wakeup {
    /// A signal came in.
    Signal(WorkSignal),
    /// The timer is due.
    Due,
    /// Nothing happened for a while.
    Quiet,
    /// Nobody is left to send a signal.
    HungUp,
}

/// What a session's loop is to do, one after the other.
#[derive(Debug)]
pub enum Action {
    /// Set the timer anew, to this many milliseconds from now.
    Arm(u64),
    /// Report what changed.
    Update(FileSearchSnapshot),
    /// Report that the search is complete.
    Complete,
}

/// What an [`Action`] is about.
pub enum ActionView {
    Arm(u64),
    Update(FileSearchSnapshotView),
    Complete,
}

impl View for Action {
    type V = ActionView;

    open spec fn view(&self) -> ActionView {
        match self {
            Action::Arm(delay) => ActionView::Arm(*delay),
            Action::Update(update) => ActionView::Update(update@),
            Action::Complete => ActionView::Complete,
        }
    }
}

/// What actions are about, in order.
pub open spec fn action_views(actions: Seq<Action>) -> Seq<ActionView> {
    Seq::new(actions.len(), |i: int| actions[i]@)
}

/// What is to be done after a signal with this reaction.
pub open spec fn signal_actions(reaction: Reaction) -> Seq<ActionView> {
    match reaction {
        Reaction::TickAfter(delay) => seq![ActionView::Arm(delay)],
        _ => Seq::empty(),
    }
}

/// What is to be done after a tick: what changed is reported before completion.
pub open spec fn tick_actions(
    update: Option<FileSearchSnapshotView>,
    complete: bool,
) -> Seq<ActionView> {
    (match update {
        Some(update) => seq![ActionView::Update(update)],
        None => Seq::empty(),
    }) + (if complete {
        seq![ActionView::Complete]
    } else {
        Seq::empty()
    })
}

/// What a turn of a session's loop leads to: what is to be done, and whether the
/// turn by itself ends the session.
#[derive(Debug)]
pub struct TurnOutcome {
    pub actions: Vec<Action>,
    pub exits: bool,
}

impl View for FileSearchSession {
    type V = SessionView;

    closed spec fn view(&self) -> SessionView {
        SessionView {
            snapshot: engine::snapshot_of(self.engine),
            given: engine::given_to(self.engine),
            added: engine::counted_in(self.engine),
            tracker: self.tracker@,
            search_directories: text::texts(self.search_directories@),
            limit: self.limit as nat,
            compute_indices: self.compute_indices,
            progress: self.pace@,
            kept: self.kept@.map_values(|item: SearchItem| item@),
            reported: self.reported@,
        }
    }
}

impl FileSearchSession {
    /// Whether what is added through the handle goes to this session's matcher.
    pub closed spec fn is_fed_by(self, injector: Injector<Injected>) -> bool {
        engine::feeds(injector, self.engine)
    }

    /// Whom the matcher's workers tell that a tick is worth while.
    pub closed spec fn notifier(self) -> Notifier {
        engine::notified_by(self.engine)
    }

    /// Whether the entry was added through some handle to this session's matcher.
    pub open spec fn was_fed(self, entry: AddedEntry) -> bool {
        exists|injector: Injector<Injected>| #[trigger]
            self.is_fed_by(injector) && engine::added_through(injector).contains(entry)
    }

    /// Whether no path is or will be added to this session's matcher that is too
    /// long for any word's score to fit.
    pub open spec fn is_fed_short_paths(self) -> bool {
        forall|injector: Injector<Injected>, entry: AddedEntry|
            #![trigger self.is_fed_by(injector), engine::added_through(injector).contains(entry)]
            self.is_fed_by(injector) && engine::added_through(injector).contains(entry)
                ==> entry.relative_path.len() <= query::MAX_WORD_CHARS
    }

    /// Whether no score of the query can overflow in this session: its words are
    /// short enough for that, or the paths are.
    pub open spec fn can_take(self, query: Seq<char>) -> bool {
        &&& query.len() <= query::MAX_QUERY_CHARS
        &&& query::words_fit(query) || self.is_fed_short_paths()
    }

    /// A session over a matcher that was just started.
    pub(crate) fn over(
        engine: Nucleo<Injected>,
        search_directories: Vec<String>,
        limit: usize,
        compute_indices: bool,
        watches_available: bool,
    ) -> (session: Self)
        requires
            engine::snapshot_of(engine) == MatcherSnapshot::empty(),
            engine::counted_in(engine) == Seq::<AddedEntry>::empty(),
            engine::given_to(engine) == Given::started(engine::given_to(engine).threads),
            limit > 0,
        ensures
            session@ == SessionView::fresh(
                text::texts(search_directories@),
                limit as nat,
                engine::given_to(engine).threads,
                compute_indices,
                watches_available,
            ),
            session@.is_consistent(),
            forall|injector: Injector<Injected>|
                engine::feeds(injector, engine) ==> #[trigger] session.is_fed_by(injector),
            session.notifier() == engine::notified_by(engine),
    {
        broadcast use vstd::std_specs::hash::group_hash_axioms;

        let session = FileSearchSession {
            engine,
            tracker: MatchTypeTracker::new(watches_available),
            search_directories,
            limit,
            compute_indices,
            pace: Pace::new(),
            kept: HashMap::new(),
            reported: Ghost(None),
        };
        assert(session@.kept =~= Map::empty());
        session
    }

    /// Update the query. This is cheap relative to re-walking.
    pub fn update_query(&mut self, pattern_text: &str) -> (reaction: Reaction)
        requires
            old(self).can_take(pattern_text@),
        ensures
            final(self)@ == old(self)@.after_signal(SignalView::QueryUpdated(pattern_text@)),
            final(self)@.given.query == pattern_text@,
            final(self)@.given.continues <==> old(self)@.schedule().last_query.is_prefix_of(
                pattern_text@,
            ),
            old(self)@.is_consistent() && final(self)@.given.continues
                ==> old(self)@.given.query.is_prefix_of(pattern_text@),
            old(self)@.is_consistent() ==> final(self)@.is_consistent(),
            forall|injector: Injector<Injected>| #[trigger]
                old(self).is_fed_by(injector) ==> final(self).is_fed_by(injector),
            final(self).notifier() == old(self).notifier(),
            reaction == Reaction::TickAfter(0),
    {
        let continues: bool = self.pace.schedule().continues(pattern_text);
        proof {
            if self.is_fed_short_paths() {
                self.lemma_matcher_takes_short_texts_only();
            }
        }
        engine::parse_query(&mut self.engine, pattern_text, continues);
        let reaction = self.pace.take_signal(
            WorkSignal::QueryUpdated(text::copy_of(pattern_text)),
        );
        proof {
            let signal = SignalView::QueryUpdated(pattern_text@);
            if old(self)@.is_consistent() {
                law_every_event_keeps_consistency(old(self)@, SessionEvent::Signal(signal));
            }
        }
        reaction
    }

    proof fn lemma_matcher_takes_short_texts_only(&self)
        requires
            self.is_fed_short_paths(),
        ensures
            engine::takes_short_texts_only(self.engine),
    {
        assert forall|injector: Injector<Injected>, entry: AddedEntry|
            #![trigger engine::feeds(injector, self.engine), engine::added_through(injector).contains(entry)]
            engine::feeds(injector, self.engine) && engine::added_through(injector).contains(
                entry,
            ) implies entry.relative_path.len() <= query::MAX_WORD_CHARS by {
            assert(self.is_fed_by(injector));
        }
    }

    /// Takes a signal in, and says what follows from it.
    pub fn handle(&mut self, signal: WorkSignal) -> (reaction: Reaction)
        requires
            signal matches WorkSignal::QueryUpdated(query) ==> old(self).can_take(query@),
        ensures
            final(self)@ == old(self)@.after_signal(signal@),
            old(self)@.is_consistent() ==> final(self)@.is_consistent(),
            forall|injector: Injector<Injected>| #[trigger]
                old(self).is_fed_by(injector) ==> final(self).is_fed_by(injector),
            final(self).notifier() == old(self).notifier(),
            reaction == old(self)@.schedule().reaction(signal@),
    {
        match signal {
            WorkSignal::QueryUpdated(query) => self.update_query(&query),
            other => {
                let ghost told = other@;
                let reaction = self.pace.take_signal(other);
                proof {
                    if old(self)@.is_consistent() {
                        law_every_event_keeps_consistency(old(self)@, SessionEvent::Signal(told));
                    }
                }
                reaction
            },
        }
    }

    /// Whether a tick is owed: the timer is to be armed.
    pub fn tick_is_owed(&self) -> (owed: bool)
        ensures
            owed == self@.schedule().will_notify,
    {
        self.pace.schedule().will_notify
    }

    /// Whether the session has ended.
    pub fn has_ended(&self) -> (ended: bool)
        ensures
            ended == self@.progress.ended,
    {
        self.pace.has_ended()
    }

    /// Watches every directory above the first `count` rows' entries, as far
    /// as their type may be kept.
    fn watch_rows<A: Fn(&str) -> bool>(&mut self, count: usize, add_watch: &A)
        requires
            forall|path: &str| #[trigger] add_watch.requires((path,)),
            count == old(self)@.shown_rows().len(),
            count <= u32::MAX,
        ensures
            final(self).engine == old(self).engine,
            exists|watches: Seq<bool>| #[trigger]
                watched_by(
                    old(self)@,
                    final(self)@,
                    old(self)@.shown_rows(),
                    *add_watch,
                    watches,
                ),
    {
        let ghost before = self@;
        let ghost rows = before.shown_rows();
        let ghost mut watches: Seq<bool> = Seq::empty();
        assert(rows.take(0) =~= Seq::empty());
        for i in 0..count
            invariant
                forall|path: &str| #[trigger] add_watch.requires((path,)),
                before == old(self)@,
                rows == before.shown_rows(),
                count == rows.len(),
                count <= u32::MAX,
                rows.len() <= before.snapshot.rows.len(),
                forall|j: int| 0 <= j < rows.len() ==> rows[j] == before.snapshot.rows[j],
                self.engine == old(self).engine,
                self@.snapshot == before.snapshot,
                watched_by(before, self@, rows.take(i as int), *add_watch, watches),
        {
            let ghost between = self@;
            let ghost row = rows[i as int];
            assert(rows.take(i + 1) =~= rows.take(i as int).push(row));
            self.watch_row(i as u32, add_watch);
            proof {
                let more = choose|more: Seq<bool>| #[trigger]
                    watched_by(between, self@, seq![row], *add_watch, more);
                lemma_watched_further(
                    before,
                    between,
                    self@,
                    rows.take(i as int),
                    *add_watch,
                    watches,
                    row,
                    more,
                );
                watches = watches + more;
            }
        }
        assert(rows.take(rows.len() as int) =~= rows);
    }

    /// Watches every directory above one row's entry, if its type may be kept.
    fn watch_row<A: Fn(&str) -> bool>(&mut self, at: u32, add_watch: &A)
        requires
            forall|path: &str| #[trigger] add_watch.requires((path,)),
            at < old(self)@.snapshot.rows.len(),
        ensures
            final(self).engine == old(self).engine,
            final(self)@.snapshot == old(self)@.snapshot,
            exists|watches: Seq<bool>| #[trigger]
                watched_by(
                    old(self)@,
                    final(self)@,
                    seq![old(self)@.snapshot.rows[at as int]],
                    *add_watch,
                    watches,
                ),
    {
        let ghost before = self@;
        let ghost row = before.snapshot.rows[at as int];
        proof {
            lemma_directories_above_one(row);
        }
        match engine::matched_entry(&self.engine, at) {
            Some((_, full_path, _, cacheable)) => {
                if cacheable {
                    self.tracker.watch_ancestors(&full_path, add_watch);
                    proof {
                        let above = paths::ancestors(row.full_path);
                        let watches = choose|answers: Seq<bool>| #[trigger]
                            classify::answered_by(*add_watch, before.tracker, above, answers)
                                && self@.tracker == before.tracker.after_watches(above, answers);
                        assert(watched_by(before, self@, seq![row], *add_watch, watches));
                    }
                    return ;
                }
            },
            None => {},
        }
        assert(watched_by(before, self@, seq![row], *add_watch, Seq::empty()));
    }

    /// What an entry is: the kept answer where it may be used, else what
    /// `is_directory` says, which is kept.
    fn settle<P: Fn(&str) -> bool>(
        &mut self,
        id: u64,
        full_path: &str,
        walk_type: u8,
        cacheable: bool,
        usable: bool,
        is_directory: &P,
    ) -> (match_type: MatchType)
        requires
            forall|path: &str| #[trigger] is_directory.requires((path,)),
        ensures
            final(self).engine == old(self).engine,
            forall|row: MatchedRow|
                row.id == id && row.full_path == full_path@ && row.walk_type == walk_type
                    && row.cacheable == cacheable ==> #[trigger] settles(
                    old(self)@,
                    final(self)@,
                    row,
                    usable,
                    *is_directory,
                    match_type,
                ),
    {
        broadcast use vstd::std_specs::hash::group_hash_axioms;

        let ghost before = self@;
        let known: Option<MatchType> = if usable {
            match self.kept.get(&id) {
                Some(item) => item.cached_match_type(),
                None => None,
            }
        } else {
            None
        };
        let mut told: bool = false;
        let match_type: MatchType = match known {
            Some(match_type) => match_type,
            None => {
                told = is_directory(full_path);
                let match_type: MatchType = if told {
                    MatchType::Directory
                } else {
                    MatchType::File
                };
                let mut item = SearchItem::new(
                    text::copy_of(full_path),
                    decode_match_type(walk_type),
                    cacheable,
                );
                item.update_cached_match_type(match_type);
                let ghost added = item;
                let _ = self.kept.insert(id, item);
                assert(self@.kept =~= before.kept.insert(id, added@));
                match_type
            },
        };
        proof {
            assert forall|row: MatchedRow|
                row.id == id && row.full_path == full_path@ && row.walk_type == walk_type
                    && row.cacheable == cacheable implies #[trigger] settles(
                before,
                self@,
                row,
                usable,
                *is_directory,
                match_type,
            ) by {
                assert(reused(before.kept, row, usable) == known);
                assert(settled_by(before, self@, row, usable, *is_directory, match_type, told));
            }
        }
        match_type
    }

    /// The match that one row makes, unless its entry lies outside every search
    /// directory.
    fn match_row<P: Fn(&str) -> bool>(
        &mut self,
        at: u32,
        usable: bool,
        is_directory: &P,
    ) -> (made: Option<FileMatch>)
        requires
            forall|path: &str| #[trigger] is_directory.requires((path,)),
            at < old(self)@.snapshot.rows.len(),
        ensures
            final(self).engine == old(self).engine,
            ({
                let before = old(self)@;
                let row = before.snapshot.rows[at as int];
                if roots::is_under_some_root(row.full_path, before.search_directories) {
                    exists|match_type: MatchType| #[trigger]
                        settles(before, final(self)@, row, usable, *is_directory, match_type)
                            && made is Some && made->0@ == match_of(
                            row,
                            before.search_directories,
                            before.compute_indices,
                            match_type,
                        )
                } else {
                    made is None && final(self)@ == before
                }
            }),
    {
        let ghost before = self@;
        let ghost row = before.snapshot.rows[at as int];
        let (id, full_path, walk_type, cacheable) = match engine::matched_entry(&self.engine, at) {
            Some(entry) => entry,
            None => {
                return None;
            },
        };
        let (index, relative_path) = match get_file_path(&full_path, &self.search_directories) {
            Some(found) => found,
            None => {
                return None;
            },
        };
        proof {
            roots::law_best_root_is_unique(
                full_path@,
                before.search_directories,
                index as int,
                index as int,
            );
            assert(before.search_directories[index as int] == self.search_directories@[index as int]@);
        }
        let indices: Option<Vec<u32>> = if self.compute_indices {
            let raw = engine::matched_indices(&self.engine, at);
            let unique = ascending_unique(&raw);
            proof {
                ranking::law_listing_is_unique(unique@, listed_once(row.indices), row.indices);
            }
            Some(unique)
        } else {
            None
        };
        let score: u32 = match engine::matched_score(&self.engine, at) {
            Some(score) => score,
            None => 0,
        };
        let root = self.search_directories[index].clone();
        let match_type: MatchType = self.settle(
            id,
            &full_path,
            walk_type,
            cacheable,
            usable,
            is_directory,
        );
        let made = FileMatch { score, path: relative_path, match_type, root, indices };
        proof {
            assert(settles(before, self@, row, usable, *is_directory, match_type));
            assert(made@ == match_of(
                row,
                before.search_directories,
                before.compute_indices,
                match_type,
            ));
        }
        Some(made)
    }

    /// The matches that the first `count` rows make.
    fn list_rows<P: Fn(&str) -> bool>(
        &mut self,
        count: usize,
        usable: bool,
        is_directory: &P,
    ) -> (matches: Vec<FileMatch>)
        requires
            forall|path: &str| #[trigger] is_directory.requires((path,)),
            count == old(self)@.shown_rows().len(),
            count <= u32::MAX,
        ensures
            final(self).engine == old(self).engine,
            exists|probes: Seq<bool>| #[trigger]
                listed_by(
                    old(self)@,
                    final(self)@,
                    old(self)@.shown_rows(),
                    results::match_views(matches@),
                    usable,
                    *is_directory,
                    probes,
                ),
    {
        let ghost before = self@;
        let ghost rows = before.shown_rows();
        let ghost mut probes: Seq<bool> = Seq::empty();
        let mut matches: Vec<FileMatch> = Vec::new();
        assert(rows.take(0) =~= Seq::empty());
        assert(results::match_views(matches@) =~= Seq::empty());
        for i in 0..count
            invariant
                forall|path: &str| #[trigger] is_directory.requires((path,)),
                before == old(self)@,
                rows == before.shown_rows(),
                count == rows.len(),
                count <= u32::MAX,
                rows.len() <= before.snapshot.rows.len(),
                forall|j: int| 0 <= j < rows.len() ==> rows[j] == before.snapshot.rows[j],
                self.engine == old(self).engine,
                listed_by(
                    before,
                    self@,
                    rows.take(i as int),
                    results::match_views(matches@),
                    usable,
                    *is_directory,
                    probes,
                ),
        {
            let ghost between = self@;
            let ghost row = rows[i as int];
            let ghost listed = results::match_views(matches@);
            assert(rows.take(i + 1) =~= rows.take(i as int).push(row));
            let made = self.match_row(i as u32, usable, is_directory);
            let ghost mut probe = false;
            proof {
                if roots::is_under_some_root(row.full_path, before.search_directories) {
                    let match_type = choose|match_type: MatchType| #[trigger]
                        settles(between, self@, row, usable, *is_directory, match_type)
                            && made is Some && made->0@ == match_of(
                            row,
                            before.search_directories,
                            before.compute_indices,
                            match_type,
                        );
                    probe = choose|probe: bool| #[trigger]
                        settled_by(
                            between,
                            self@,
                            row,
                            usable,
                            *is_directory,
                            match_type,
                            probe,
                        );
                }
                lemma_listed_further(
                    before,
                    between,
                    rows.take(i as int),
                    listed,
                    usable,
                    *is_directory,
                    probes,
                    row,
                    probe,
                );
                probes = probes.push(probe);
            }
            match made {
                Some(file_match) => {
                    let ghost added = file_match@;
                    matches.push(file_match);
                    assert(results::match_views(matches@) =~= listed.push(added));
                },
                None => {},
            }
        }
        assert(rows.take(rows.len() as int) =~= rows);
        matches
    }

    /// Looks at the snapshot that the last tick left, where it may have
    /// changed, and says what there is to report.
    ///
    /// `add_watch` watches a directory and says whether that worked, `drain`
    /// reads the watches and says whether they had nothing to report, and
    /// `is_directory` asks the file system what is at a path.
    pub fn after_tick<A: Fn(&str) -> bool, D: Fn() -> bool, P: Fn(&str) -> bool>(
        &mut self,
        changed: bool,
        running: bool,
        add_watch: &A,
        drain: &D,
        is_directory: &P,
    ) -> (outcome: TickOutcome)
        requires
            forall|path: &str| #[trigger] add_watch.requires((path,)),
            drain.requires(()),
            forall|path: &str| #[trigger] is_directory.requires((path,)),
        ensures
            forall|injector: Injector<Injected>| #[trigger]
                old(self).is_fed_by(injector) ==> final(self).is_fed_by(injector),
            final(self).notifier() == old(self).notifier(),
            final(self)@.added == old(self)@.added,
            outcome.running == running,
            outcome.complete == old(self)@.schedule().completes(running),
            match outcome.update {
                Some(update) => {
                    &&& changed
                    &&& update.total_match_count == old(self)@.snapshot.rows.len()
                    &&& update.scanned_file_count == old(self)@.snapshot.item_count
                    &&& old(self)@.after_due(changed, running).reports(
                        final(self)@,
                        update@,
                        *add_watch,
                        *drain,
                        *is_directory,
                    )
                },
                None => !changed && final(self)@ == old(self)@.after_due(changed, running),
            },
    {
        let complete: bool = self.pace.take_due(changed, running);
        if !changed {
            return TickOutcome { update: None, running, complete };
        }
        let ghost before = self@;
        assert(before == old(self)@.after_due(changed, running));
        let matched: u32 = engine::matched_count(&self.engine);
        let scanned: u32 = engine::scanned_count(&self.engine);
        let total: usize = matched as usize;
        let count: usize = if self.limit < total {
            self.limit
        } else {
            total
        };
        self.watch_rows(count, add_watch);
        let ghost watching = self@;
        let ghost watches = choose|watches: Seq<bool>| #[trigger]
            watched_by(before, watching, before.shown_rows(), *add_watch, watches);
        let usable: bool = self.tracker.can_use_cached_match_types(drain);
        let ghost read = self@;
        let ghost clean = if watching.tracker.dirty {
            false
        } else {
            choose|clean: bool| #[trigger]
                drain.ensures((), clean) && read.tracker == watching.tracker.after_read(clean)
        };
        let matches = self.list_rows(count, usable, is_directory);
        let ghost probes = choose|probes: Seq<bool>| #[trigger]
            listed_by(
                read,
                self@,
                before.shown_rows(),
                results::match_views(matches@),
                usable,
                *is_directory,
                probes,
            );
        let schedule = self.pace.schedule();
        let update = FileSearchSnapshot {
            query: text::copy_of(&schedule.last_query),
            matches,
            total_match_count: total,
            scanned_file_count: scanned as usize,
            walk_complete: schedule.walk_complete,
        };
        self.reported = Ghost(Some(update@));
        proof {
            let told = Told { watches, clean, probes };
            assert(update@ == before.report(results::match_views(matches@)));
            assert(self@ == before.looked(told));
            assert(before.reports_as_told(
                self@,
                update@,
                *add_watch,
                *drain,
                *is_directory,
                told,
            ));
        }
        TickOutcome { update: Some(update), running, complete }
    }

    /// Lets the matcher hand over what it has found, once the timer is due,
    /// and says what there is to report.
    pub fn tick<A: Fn(&str) -> bool, D: Fn() -> bool, P: Fn(&str) -> bool>(
        &mut self,
        add_watch: &A,
        drain: &D,
        is_directory: &P,
    ) -> (outcome: TickOutcome)
        requires
            forall|path: &str| #[trigger] add_watch.requires((path,)),
            drain.requires(()),
            forall|path: &str| #[trigger] is_directory.requires((path,)),
        ensures
            old(self)@.is_consistent() ==> final(self)@.is_consistent(),
            forall|injector: Injector<Injected>| #[trigger]
                old(self).is_fed_by(injector) ==> final(self).is_fed_by(injector),
            final(self).notifier() == old(self).notifier(),
            forall|entry: AddedEntry| #[trigger]
                final(self)@.added.contains(entry) ==> final(self).was_fed(entry),
            old(self)@.ticks_to(
                final(self)@,
                outcome.reported(),
                outcome.running,
                *add_watch,
                *drain,
                *is_directory,
            ),
            outcome.complete == old(self)@.schedule().completes(outcome.running),
            old(self)@.is_consistent() && outcome.complete ==> final(self)@.is_settled(),
            outcome.update matches Some(update) ==> {
                &&& update.total_match_count == final(self)@.snapshot.rows.len()
                &&& update.scanned_file_count == final(self)@.snapshot.item_count
                &&& old(self)@.is_consistent() ==> (old(self)@.reported matches Some(earlier)
                    ==> update.scanned_file_count >= earlier.scanned_file_count)
            },
    {
        let ghost before = self@;
        let (changed, running) = engine::tick(&mut self.engine, TICK_TIMEOUT_MS);
        let ghost between = *self;
        let ghost ticked = self@;
        assert(ticked == before.ticked(ticked.snapshot, ticked.added, running));
        let outcome = self.after_tick(changed, running, add_watch, drain, is_directory);
        proof {
            assert forall|injector: Injector<Injected>| #[trigger]
                old(self).is_fed_by(injector) implies self.is_fed_by(injector) by {
                assert(between.is_fed_by(injector));
            }
            assert forall|entry: AddedEntry| #[trigger]
                self@.added.contains(entry) implies self.was_fed(entry) by {
                assert(ticked.added.contains(entry));
                let injector = choose|injector: Injector<Injected>| #[trigger]
                    engine::feeds(injector, between.engine) && engine::added_through(
                        injector,
                    ).contains(entry);
                assert(between.is_fed_by(injector));
                assert(self.is_fed_by(injector));
            }
            lemma_tick_is_an_event(
                before,
                self@,
                outcome.reported(),
                running,
                *add_watch,
                *drain,
                *is_directory,
            );
        }
        outcome
    }

    /// Takes one turn of the session's loop, up to where it looks whether it is
    /// to stop: says what is to be done, in order.
    pub fn take_turn<A: Fn(&str) -> bool, D: Fn() -> bool, P: Fn(&str) -> bool>(
        &mut self,
        wakeup: Wakeup,
        add_watch: &A,
        drain: &D,
        is_directory: &P,
    ) -> (outcome: TurnOutcome)
        requires
            wakeup matches Wakeup::Signal(WorkSignal::QueryUpdated(query)) ==> old(self).can_take(
                query@,
            ),
            forall|path: &str| #[trigger] add_watch.requires((path,)),
            drain.requires(()),
            forall|path: &str| #[trigger] is_directory.requires((path,)),
        ensures
            old(self)@.is_consistent() ==> final(self)@.is_consistent(),
            forall|injector: Injector<Injected>| #[trigger]
                old(self).is_fed_by(injector) ==> final(self).is_fed_by(injector),
            final(self).notifier() == old(self).notifier(),
            match wakeup {
                Wakeup::Signal(signal) => {
                    &&& final(self)@ == old(self)@.after_signal(signal@)
                    &&& action_views(outcome.actions@) == signal_actions(
                        old(self)@.schedule().reaction(signal@),
                    )
                    &&& final(self)@.progress == old(self)@.progress.turned(Turn::Signal(signal@))
                    &&& outcome.exits == old(self)@.progress.exits(Turn::Signal(signal@))
                },
                Wakeup::Due => exists|update: Option<FileSearchSnapshotView>, running: bool|
                    {
                        let turn = Turn::Due { changed: update is Some, running };
                        &&& #[trigger] old(self)@.ticks_to(
                            final(self)@,
                            update,
                            running,
                            *add_watch,
                            *drain,
                            *is_directory,
                        )
                        &&& action_views(outcome.actions@) == tick_actions(
                            update,
                            old(self)@.schedule().completes(running),
                        )
                        &&& old(self)@.is_consistent() && old(self)@.schedule().completes(running)
                            ==> final(self)@.is_settled()
                        &&& final(self)@.progress == old(self)@.progress.turned(turn)
                        &&& outcome.exits == old(self)@.progress.exits(turn)
                    },
                Wakeup::Quiet => {
                    &&& final(self)@ == old(self)@
                    &&& outcome.actions@.len() == 0
                    &&& final(self)@.progress == old(self)@.progress.turned(Turn::Quiet)
                    &&& outcome.exits == old(self)@.progress.exits(Turn::Quiet)
                },
                Wakeup::HungUp => {
                    &&& final(self)@ == old(self)@
                    &&& outcome.actions@.len() == 0
                    &&& final(self)@.progress == old(self)@.progress.turned(Turn::HungUp)
                    &&& outcome.exits == old(self)@.progress.exits(Turn::HungUp)
                },
            },
    {
        let ghost before = self@;
        let mut actions: Vec<Action> = Vec::new();
        match wakeup {
            Wakeup::Signal(signal) => {
                let ghost told = signal@;
                let reaction = self.handle(signal);
                match reaction {
                    Reaction::TickAfter(delay) => {
                        actions.push(Action::Arm(delay));
                    },
                    _ => {},
                }
                assert(action_views(actions@) =~= signal_actions(reaction));
                let exits: bool = match reaction {
                    Reaction::Exit => true,
                    _ => false,
                };
                TurnOutcome { actions, exits }
            },
            Wakeup::Due => {
                let outcome = self.tick(add_watch, drain, is_directory);
                let complete: bool = outcome.complete;
                let ghost running = outcome.running;
                let ghost update = outcome.reported();
                match outcome.update {
                    Some(update) => {
                        actions.push(Action::Update(update));
                    },
                    None => {},
                }
                if complete {
                    actions.push(Action::Complete);
                }
                proof {
                    assert(action_views(actions@) =~= tick_actions(update, complete));
                    lemma_tick_is_an_event(
                        before,
                        self@,
                        update,
                        running,
                        *add_watch,
                        *drain,
                        *is_directory,
                    );
                    assert(before.ticks_to(
                        self@,
                        update,
                        running,
                        *add_watch,
                        *drain,
                        *is_directory,
                    ));
                }
                TurnOutcome { actions, exits: false }
            },
            Wakeup::Quiet => TurnOutcome { actions, exits: false },
            Wakeup::HungUp => TurnOutcome { actions, exits: true },
        }
    }

    /// Ends the turn: the session ends where the turn exits, or where it was
    /// cancelled or shut down meanwhile, and then reports that it is complete.
    pub fn end_turn(&mut self, exits: bool, cancelled: bool, shut_down: bool) -> (actions: Vec<
        Action,
    >)
        ensures
            final(self)@ == (SessionView {
                progress: old(self)@.progress.stopped(exits || cancelled || shut_down),
                ..old(self)@
            }),
            old(self)@.is_consistent() ==> final(self)@.is_consistent(),
            forall|injector: Injector<Injected>| #[trigger]
                old(self).is_fed_by(injector) ==> final(self).is_fed_by(injector),
            final(self).notifier() == old(self).notifier(),
            action_views(actions@) == (if exits || cancelled || shut_down {
                seq![ActionView::Complete]
            } else {
                Seq::empty()
            }),
    {
        let ends: bool = exits || cancelled || shut_down;
        let ghost before = self@;
        self.pace.end_turn(ends);
        let mut actions: Vec<Action> = Vec::new();
        if ends {
            actions.push(Action::Complete);
        }
        proof {
            assert(action_views(actions@) =~= (if ends {
                seq![ActionView::Complete]
            } else {
                Seq::empty()
            }));
            lemma_same_shown(before, self@);
        }
        actions
    }
}

/// A session that differs only in its progress shows the same.
proof fn lemma_same_shown(before: SessionView, after: SessionView)
    requires
        after == (SessionView { progress: after.progress, ..before }),
        after.schedule() == before.schedule(),
    ensures
        before.is_consistent() ==> after.is_consistent(),
{
    if before.reported is Some {
        lemma_still_on_snapshot(before, after, before.reported->0);
    }
}

/// A report on a snapshot stays so while the snapshot and what the session shows
/// of it stay the same.
proof fn lemma_still_on_snapshot(
    before: SessionView,
    after: SessionView,
    report: FileSearchSnapshotView,
)
    requires
        after.snapshot == before.snapshot,
        after.limit == before.limit,
        after.search_directories == before.search_directories,
        after.compute_indices == before.compute_indices,
    ensures
        before.is_on_snapshot(report) ==> after.is_on_snapshot(report),
{
    if before.is_on_snapshot(report) {
        let (usable, kept, probes) = choose|
            usable: bool,
            kept: Map<u64, SearchItemView>,
            probes: Seq<bool>,
        | #[trigger] before.lists(report.matches, usable, kept, probes);
        assert(after.lists(report.matches, usable, kept, probes));
    }
}

/// A look at a snapshot makes a report on it, and leaves alone what the matcher
/// and the signals brought.
proof fn lemma_look_is_on_snapshot(before: SessionView, told: Told)
    requires
        before.snapshot.is_best_first(),
        before.snapshot.item_count <= u32::MAX,
    ensures
        before.looked(told).reported is Some,
        before.looked(told).is_on_snapshot(before.looked(told).reported->0),
        before.looked(told).reported->0.query == before.schedule().last_query,
        before.looked(told).shown_rows() == before.shown_rows(),
{
    let after = before.looked(told);
    let usable = !before.tracker_after(told).dirty;
    assert(after.lists(after.reported->0.matches, usable, before.kept, told.probes));
}

/// Whatever happens to a session, what holds of every session goes on to hold.
/// A tick that completes the search leaves the session with nothing left to do.
pub proof fn law_every_event_keeps_consistency(session: SessionView, event: SessionEvent)
    requires
        session.is_consistent(),
        session.allows(event),
    ensures
        session.after(event).is_consistent(),
        event matches SessionEvent::Tick { running, .. } && session.schedule().completes(running)
            ==> session.after(event).is_settled(),
{
    let after = session.after(event);
    match event {
        SessionEvent::Signal(signal) => {
            if session.reported is Some {
                lemma_still_on_snapshot(session, after, session.reported->0);
            }
        },
        SessionEvent::Tick { snapshot, added, running, told } => {
            let due = session.ticked(snapshot, added, running).after_due(told is Some, running);
            if told is Some {
                lemma_look_is_on_snapshot(due, told->0);
            } else if session.reported is Some {
                lemma_still_on_snapshot(session, after, session.reported->0);
            }
        },
    }
}

/// What holds of every session holds after any events.
pub proof fn law_sessions_stay_consistent(session: SessionView, events: Seq<SessionEvent>)
    requires
        session.is_consistent(),
        session.allows_all(events),
    ensures
        session.after_all(events).is_consistent(),
        session.after_all(events).limit == session.limit,
        session.after_all(events).search_directories == session.search_directories,
        session.after_all(events).compute_indices == session.compute_indices,
    decreases events.len(),
{
    if events.len() > 0 {
        law_sessions_stay_consistent(session, events.drop_last());
        law_every_event_keeps_consistency(session.after_all(events.drop_last()), events.last());
    }
}

/// A tick is an event that can happen to the session.
proof fn lemma_tick_is_an_event<A: Fn(&str) -> bool, D: Fn() -> bool, P: Fn(&str) -> bool>(
    before: SessionView,
    after: SessionView,
    update: Option<FileSearchSnapshotView>,
    running: bool,
    add_watch: A,
    drain: D,
    is_directory: P,
)
    requires
        before.ticks_to(after, update, running, add_watch, drain, is_directory),
    ensures
        before.is_consistent() ==> after.is_consistent(),
        before.is_consistent() && before.schedule().completes(running) ==> after.is_settled(),
        after.progress == before.progress.turned(Turn::Due { changed: update is Some, running }),
{
    let due = before.ticked(after.snapshot, after.added, running).after_due(
        update is Some,
        running,
    );
    let told = if update is Some {
        Some(
            choose|told: Told| #[trigger]
                due.reports_as_told(after, update->0, add_watch, drain, is_directory, told),
        )
    } else {
        None
    };
    let event = SessionEvent::Tick {
        snapshot: after.snapshot,
        added: after.added,
        running,
        told,
    };
    assert(after == before.after(event));
    if before.is_consistent() {
        law_every_event_keeps_consistency(before, event);
    }
}

/// Whether watching what is above the rows' entries turned the session into
/// `after`, with `watches` as what `add_watch` said, as far as it was asked.
spec fn watched_by<A: Fn(&str) -> bool>(
    before: SessionView,
    after: SessionView,
    rows: Seq<MatchedRow>,
    add_watch: A,
    watches: Seq<bool>,
) -> bool {
    let above = directories_above(rows);
    &&& classify::answered_by(add_watch, before.tracker, above, watches)
    &&& after == (SessionView { tracker: before.tracker.after_watches(above, watches), ..before })
}

proof fn lemma_directories_above_one(row: MatchedRow)
    ensures
        directories_above(seq![row]) == (if row.cacheable {
            paths::ancestors(row.full_path)
        } else {
            Seq::empty()
        }),
{
    assert(seq![row].drop_last() =~= Seq::empty());
    assert(directories_above(seq![row].drop_last()) =~= Seq::empty());
    let above = paths::ancestors(row.full_path);
    assert(Seq::<Seq<char>>::empty() + above =~= above);
    assert(Seq::<Seq<char>>::empty() + Seq::<Seq<char>>::empty() =~= Seq::empty());
}

/// Watching what is above one more row's entry.
proof fn lemma_watched_further<A: Fn(&str) -> bool>(
    before: SessionView,
    between: SessionView,
    after: SessionView,
    rows: Seq<MatchedRow>,
    add_watch: A,
    watches: Seq<bool>,
    row: MatchedRow,
    more: Seq<bool>,
)
    requires
        watched_by(before, between, rows, add_watch, watches),
        watched_by(between, after, seq![row], add_watch, more),
    ensures
        watched_by(before, after, rows.push(row), add_watch, watches + more),
{
    lemma_directories_above_one(row);
    assert(rows.push(row).drop_last() =~= rows);
    classify::lemma_answered_in_turn(
        add_watch,
        before.tracker,
        directories_above(rows),
        watches,
        directories_above(seq![row]),
        more,
    );
}

/// Whether listing the rows gave `matches` and turned the session into `after`,
/// with `probes` as what `is_directory` said, as far as it was asked.
spec fn listed_by<P: Fn(&str) -> bool>(
    before: SessionView,
    after: SessionView,
    rows: Seq<MatchedRow>,
    matches: Seq<FileMatchView>,
    usable: bool,
    is_directory: P,
    probes: Seq<bool>,
) -> bool {
    let listed = listing(
        rows,
        before.search_directories,
        before.compute_indices,
        usable,
        before.kept,
        probes,
    );
    &&& probed_by(
        is_directory,
        rows,
        before.search_directories,
        before.compute_indices,
        usable,
        before.kept,
        probes,
    )
    &&& matches == listed.matches
    &&& after == (SessionView { kept: listed.kept, ..before })
}

/// Listing one more row.
proof fn lemma_listed_further<P: Fn(&str) -> bool>(
    before: SessionView,
    between: SessionView,
    rows: Seq<MatchedRow>,
    matches: Seq<FileMatchView>,
    usable: bool,
    is_directory: P,
    probes: Seq<bool>,
    row: MatchedRow,
    probe: bool,
)
    requires
        listed_by(before, between, rows, matches, usable, is_directory, probes),
        probe_of(
            is_directory,
            row,
            before.search_directories,
            usable,
            between.kept,
            probe,
        ),
    ensures
        ({
            let listed = listing(
                rows.push(row),
                before.search_directories,
                before.compute_indices,
                usable,
                before.kept,
                probes.push(probe),
            );
            &&& probed_by(
                is_directory,
                rows.push(row),
                before.search_directories,
                before.compute_indices,
                usable,
                before.kept,
                probes.push(probe),
            )
            &&& if roots::is_under_some_root(row.full_path, before.search_directories) {
                &&& listed.matches == matches.push(
                    match_of(
                        row,
                        before.search_directories,
                        before.compute_indices,
                        settled_type(between.kept, row, usable, probe),
                    ),
                )
                &&& listed.kept == kept_after(between.kept, row, usable, probe)
            } else {
                listed.matches == matches && listed.kept == between.kept
            }
        }),
{
    let more = rows.push(row);
    let further = probes.push(probe);
    assert(more.drop_last() =~= rows);
    assert(further.drop_last() =~= probes);
    assert forall|i: int| #![trigger further[i]] 0 <= i < more.len() implies probe_of(
        is_directory,
        more[i],
        before.search_directories,
        usable,
        listing(
            more.take(i),
            before.search_directories,
            before.compute_indices,
            usable,
            before.kept,
            further.take(i),
        ).kept,
        further[i],
    ) by {
        if i < rows.len() {
            assert(more.take(i) =~= rows.take(i));
            assert(further.take(i) =~= probes.take(i));
            assert(further[i] == probes[i]);
            assert(more[i] == rows[i]);
        } else {
            assert(more.take(i) =~= rows);
            assert(further.take(i) =~= probes);
        }
    }
}

/// Whether settling the row's entry gave `match_type` and turned the session
/// into `after`, with `probe` as what `is_directory` said, if it was asked.
spec fn settled_by<P: Fn(&str) -> bool>(
    before: SessionView,
    after: SessionView,
    row: MatchedRow,
    usable: bool,
    is_directory: P,
    match_type: MatchType,
    probe: bool,
) -> bool {
    &&& reused(before.kept, row, usable) is None ==> exists|path: &str|
        path@ == row.full_path && #[trigger] is_directory.ensures((path,), probe)
    &&& match_type == settled_type(before.kept, row, usable, probe)
    &&& after == (SessionView { kept: kept_after(before.kept, row, usable, probe), ..before })
}

/// Whether settling the row's entry gave `match_type` and turned the session
/// into `after`.
spec fn settles<P: Fn(&str) -> bool>(
    before: SessionView,
    after: SessionView,
    row: MatchedRow,
    usable: bool,
    is_directory: P,
    match_type: MatchType,
) -> bool {
    exists|probe: bool| #[trigger]
        settled_by(before, after, row, usable, is_directory, match_type, probe)
}

/// A report shows at most as many matches as the limit allows and as there are.
pub proof fn law_report_is_within_the_limit(
    session: SessionView,
    usable: bool,
    kept: Map<u64, SearchItemView>,
    probes: Seq<bool>,
)
    ensures
        ({
            let listed = listing(
                session.shown_rows(),
                session.search_directories,
                session.compute_indices,
                usable,
                kept,
                probes,
            );
            &&& listed.matches.len() <= session.limit
            &&& listed.matches.len() <= session.snapshot.rows.len()
        }),
{
    lemma_listing_is_no_longer(
        session.shown_rows(),
        session.search_directories,
        session.compute_indices,
        usable,
        kept,
        probes,
    );
}

proof fn lemma_listing_is_no_longer(
    rows: Seq<MatchedRow>,
    search_directories: Seq<Seq<char>>,
    compute_indices: bool,
    usable: bool,
    kept: Map<u64, SearchItemView>,
    probes: Seq<bool>,
)
    ensures
        listing(rows, search_directories, compute_indices, usable, kept, probes).matches.len()
            <= rows.len(),
    decreases rows.len(),
{
    if rows.len() > 0 {
        lemma_listing_is_no_longer(
            rows.drop_last(),
            search_directories,
            compute_indices,
            usable,
            kept,
            probes.drop_last(),
        );
    }
}

/// The match of a row names the row's entry: its root is a search directory,
/// its full path has the components of the entry's path, and its indices, where
/// there are any, are unique and in ascending order.
pub proof fn law_match_names_its_entry(
    row: MatchedRow,
    search_directories: Seq<Seq<char>>,
    compute_indices: bool,
    match_type: MatchType,
)
    requires
        roots::is_under_some_root(row.full_path, search_directories),
    ensures
        ({
            let made = match_of(row, search_directories, compute_indices, match_type);
            &&& search_directories.contains(made.root)
            &&& paths::lies_under(row.full_path, made.root)
            &&& paths::components(paths::joined(made.root, made.path)) == paths::components(
                row.full_path,
            )
            &&& made.indices is Some <==> compute_indices
            &&& made.indices is Some ==> ranking::lists_once(made.indices->0, row.indices)
        }),
{
    let best = roots::best_root(row.full_path, search_directories);
    roots::law_some_root_is_best(row.full_path, search_directories);
    paths::law_strip_then_join(row.full_path, search_directories[best]);
    ranking::law_listing_exists(row.indices);
}

/// A listing holds the matches of those rows whose entries lie under a search
/// directory, in the order of the rows.
pub proof fn law_listing_keeps_the_order_of_the_rows(
    rows: Seq<MatchedRow>,
    search_directories: Seq<Seq<char>>,
    compute_indices: bool,
    usable: bool,
    kept: Map<u64, SearchItemView>,
    probes: Seq<bool>,
)
    ensures
        ({
            let matches = listing(
                rows,
                search_directories,
                compute_indices,
                usable,
                kept,
                probes,
            ).matches;
            let shown = rows_under_roots(rows, search_directories);
            &&& matches.len() == shown.len()
            &&& forall|i: int|
                #![trigger matches[i]]
                0 <= i < matches.len() ==> matches[i] == match_of(
                    shown[i],
                    search_directories,
                    compute_indices,
                    matches[i].match_type,
                )
        }),
    decreases rows.len(),
{
    reveal_with_fuel(Seq::filter, 1);
    if rows.len() > 0 {
        law_listing_keeps_the_order_of_the_rows(
            rows.drop_last(),
            search_directories,
            compute_indices,
            usable,
            kept,
            probes.drop_last(),
        );
    }
}

/// The rows whose entries lie under a search directory.
pub open spec fn rows_under_roots(
    rows: Seq<MatchedRow>,
    search_directories: Seq<Seq<char>>,
) -> Seq<MatchedRow> {
    rows.filter(|row: MatchedRow| roots::is_under_some_root(row.full_path, search_directories))
}

/// While answers may be used, an entry that was settled once is shown the same
/// again, if its type may be kept, and is asked about again if it may not.
pub proof fn law_settled_entry_is_shown_the_same(
    kept: Map<u64, SearchItemView>,
    row: MatchedRow,
    usable: bool,
    probe: bool,
)
    requires
        kept.contains_key(row.id) ==> kept[row.id].cacheable_match_type == row.cacheable,
    ensures
        reused(kept_after(kept, row, usable, probe), row, true) == (if row.cacheable {
            Some(settled_type(kept, row, usable, probe))
        } else {
            None
        }),
{
    classify::law_classification_is_given_back(
        entry_of(row),
        settled_type(kept, row, usable, probe),
    );
}

/// Where a change was seen or cannot be ruled out, every entry is asked about
/// anew and nothing that was kept is shown.
pub proof fn law_no_kept_answer_after_a_change(
    kept: Map<u64, SearchItemView>,
    row: MatchedRow,
    probe: bool,
)
    ensures
        reused(kept, row, false) is None,
        settled_type(kept, row, false, probe) == (if probe {
            MatchType::Directory
        } else {
            MatchType::File
        }),
{
}

/// While answers may be used, listing the same entries again gives the same
/// matches, whatever the file system would say: it is not asked.
pub proof fn law_second_listing_is_the_same(
    rows: Seq<MatchedRow>,
    search_directories: Seq<Seq<char>>,
    compute_indices: bool,
    usable: bool,
    kept: Map<u64, SearchItemView>,
    probes: Seq<bool>,
    later_probes: Seq<bool>,
)
    requires
        forall|i: int| 0 <= i < rows.len() ==> (#[trigger] rows[i]).cacheable,
        forall|i: int, j: int|
            #![trigger rows[i], rows[j]]
            0 <= i < j < rows.len() ==> rows[i].id != rows[j].id,
        forall|i: int|
            #![trigger rows[i]]
            0 <= i < rows.len() && kept.contains_key(rows[i].id)
                ==> kept[rows[i].id].cacheable_match_type,
    ensures
        ({
            let first = listing(
                rows,
                search_directories,
                compute_indices,
                usable,
                kept,
                probes,
            );
            listing(
                rows,
                search_directories,
                compute_indices,
                true,
                first.kept,
                later_probes,
            ) == first
        }),
{
    let first = listing(rows, search_directories, compute_indices, usable, kept, probes);
    lemma_relisting(
        rows,
        search_directories,
        compute_indices,
        usable,
        kept,
        probes,
        first.kept,
        later_probes,
    );
}

/// Listing with answers that agree with those of an earlier listing on every
/// listed entry.
proof fn lemma_relisting(
    rows: Seq<MatchedRow>,
    search_directories: Seq<Seq<char>>,
    compute_indices: bool,
    usable: bool,
    kept: Map<u64, SearchItemView>,
    probes: Seq<bool>,
    later: Map<u64, SearchItemView>,
    later_probes: Seq<bool>,
)
    requires
        forall|i: int| 0 <= i < rows.len() ==> (#[trigger] rows[i]).cacheable,
        forall|i: int, j: int|
            #![trigger rows[i], rows[j]]
            0 <= i < j < rows.len() ==> rows[i].id != rows[j].id,
        forall|i: int|
            #![trigger rows[i]]
            0 <= i < rows.len() && kept.contains_key(rows[i].id)
                ==> kept[rows[i].id].cacheable_match_type,
        ({
            let first = listing(rows, search_directories, compute_indices, usable, kept, probes);
            forall|i: int|
                #![trigger rows[i]]
                0 <= i < rows.len() && first.kept.contains_key(rows[i].id) ==> later.contains_key(
                    rows[i].id,
                ) && later[rows[i].id] == first.kept[rows[i].id]
        }),
    ensures
        ({
            let first = listing(rows, search_directories, compute_indices, usable, kept, probes);
            let second = listing(
                rows,
                search_directories,
                compute_indices,
                true,
                later,
                later_probes,
            );
            second.matches == first.matches && second.kept == later
        }),
    decreases rows.len(),
{
    if rows.len() > 0 {
        let last = rows.len() - 1;
        let row = rows.last();
        let fewer = rows.drop_last();
        assert forall|i: int| 0 <= i < fewer.len() implies #[trigger] fewer[i] == rows[i] by {}
        let before = listing(
            fewer,
            search_directories,
            compute_indices,
            usable,
            kept,
            probes.drop_last(),
        );
        let first = listing(rows, search_directories, compute_indices, usable, kept, probes);
        lemma_other_answers_are_kept(
            fewer,
            search_directories,
            compute_indices,
            usable,
            kept,
            probes.drop_last(),
            row.id,
        );
        assert forall|i: int|
            #![trigger fewer[i]]
            0 <= i < fewer.len() && before.kept.contains_key(fewer[i].id) implies later.contains_key(
            fewer[i].id,
        ) && later[fewer[i].id] == before.kept[fewer[i].id] by {
            assert(rows[i].id != rows[last].id);
            assert(first.kept.contains_key(rows[i].id));
        }
        lemma_relisting(
            fewer,
            search_directories,
            compute_indices,
            usable,
            kept,
            probes.drop_last(),
            later,
            later_probes.drop_last(),
        );
        if roots::is_under_some_root(row.full_path, search_directories) {
            assert(rows[last] == row);
            law_settled_entry_is_shown_the_same(before.kept, row, usable, probes.last());
            assert(first.kept.contains_key(rows[last].id));
            assert(reused(later, row, true) == reused(first.kept, row, true));
        }
    }
}

/// Listing rows leaves the answers for other entries alone.
proof fn lemma_other_answers_are_kept(
    rows: Seq<MatchedRow>,
    search_directories: Seq<Seq<char>>,
    compute_indices: bool,
    usable: bool,
    kept: Map<u64, SearchItemView>,
    probes: Seq<bool>,
    id: u64,
)
    requires
        forall|i: int| 0 <= i < rows.len() ==> (#[trigger] rows[i]).id != id,
    ensures
        ({
            let after = listing(
                rows,
                search_directories,
                compute_indices,
                usable,
                kept,
                probes,
            ).kept;
            &&& after.contains_key(id) <==> kept.contains_key(id)
            &&& kept.contains_key(id) ==> after[id] == kept[id]
        }),
    decreases rows.len(),
{
    if rows.len() > 0 {
        let fewer = rows.drop_last();
        assert forall|i: int| 0 <= i < fewer.len() implies (#[trigger] fewer[i]).id != id by {
            assert(fewer[i] == rows[i]);
        }
        assert(rows[rows.len() - 1].id != id);
        lemma_other_answers_are_kept(
            fewer,
            search_directories,
            compute_indices,
            usable,
            kept,
            probes.drop_last(),
            id,
        );
    }
}

/// Kept answers are used only while every directory above every shown entry
/// whose type may be kept is watched, up to the root of the file system.
pub proof fn law_reuse_needs_every_ancestor_watched(
    tracker: TrackerView,
    rows: Seq<MatchedRow>,
    watches: Seq<bool>,
    clean: bool,
    row: int,
    above: int,
)
    requires
        watches.len() == directories_above(rows).len(),
        0 <= row < rows.len(),
        rows[row].cacheable,
        0 <= above < paths::ancestors(rows[row].full_path).len(),
    ensures
        ({
            let after = tracker.after_watches(directories_above(rows), watches).after_read(clean);
            after.dirty || after.is_watched(paths::ancestors(rows[row].full_path)[above])
        }),
{
    let all = directories_above(rows);
    let watching = tracker.after_watches(all, watches);
    classify::law_all_watched_or_dirty(tracker, all, watches);
    lemma_directories_above_hold_ancestors(rows, row, above);
    let directory = paths::ancestors(rows[row].full_path)[above];
    let place = choose|place: int| 0 <= place < all.len() && all[place] == directory;
    if !watching.dirty {
        assert(watching.is_watched(all[place]));
    }
}

proof fn lemma_directories_above_hold_ancestors(rows: Seq<MatchedRow>, row: int, above: int)
    requires
        0 <= row < rows.len(),
        rows[row].cacheable,
        0 <= above < paths::ancestors(rows[row].full_path).len(),
    ensures
        directories_above(rows).contains(paths::ancestors(rows[row].full_path)[above]),
    decreases rows.len(),
{
    let directory = paths::ancestors(rows[row].full_path)[above];
    let all = directories_above(rows);
    let fewer = directories_above(rows.drop_last());
    if row < rows.len() - 1 {
        lemma_directories_above_hold_ancestors(rows.drop_last(), row, above);
        let place = choose|place: int| 0 <= place < fewer.len() && fewer[place] == directory;
        assert(all[place] == directory);
    } else {
        assert(all[fewer.len() + above] == directory);
    }
}

/// What is at a path, where these are the paths of all directories there are.
pub open spec fn type_among(directories: Set<Seq<char>>, path: Seq<char>) -> MatchType {
    if directories.contains(path) {
        MatchType::Directory
    } else {
        MatchType::File
    }
}

/// Whether every kept answer is for the entry with that number, by its path.
pub open spec fn answers_by_path(
    kept: Map<u64, SearchItemView>,
    path_of: spec_fn(u64) -> Seq<char>,
) -> bool {
    forall|id: u64| #[trigger] kept.contains_key(id) ==> kept[id].full_path == path_of(id)
}

/// Whether no kept answer that may be used is out of date.
pub open spec fn answers_hold(
    kept: Map<u64, SearchItemView>,
    directories: Set<Seq<char>>,
) -> bool {
    forall|id: u64| #[trigger]
        kept.contains_key(id) ==> (kept[id].usable_type() matches Some(match_type) ==> match_type
            == type_among(directories, kept[id].full_path))
}

/// A shown type is never out of date: where kept answers are used only while
/// they hold, and the file system is asked otherwise, every match shows what is
/// at its path now. The answers that are kept then hold as well, if they may be
/// used.
pub proof fn law_shown_types_hold(
    rows: Seq<MatchedRow>,
    search_directories: Seq<Seq<char>>,
    compute_indices: bool,
    usable: bool,
    kept: Map<u64, SearchItemView>,
    probes: Seq<bool>,
    path_of: spec_fn(u64) -> Seq<char>,
    directories: Set<Seq<char>>,
)
    requires
        usable ==> answers_hold(kept, directories),
        answers_by_path(kept, path_of),
        probes.len() == rows.len(),
        forall|i: int|
            #![trigger rows[i]]
            0 <= i < rows.len() ==> {
                &&& rows[i].full_path == path_of(rows[i].id)
                &&& probes[i] == directories.contains(rows[i].full_path)
            },
    ensures
        ({
            let listed = listing(
                rows,
                search_directories,
                compute_indices,
                usable,
                kept,
                probes,
            );
            let shown = rows_under_roots(rows, search_directories);
            &&& listed.matches.len() == shown.len()
            &&& forall|i: int|
                #![trigger listed.matches[i]]
                0 <= i < shown.len() ==> listed.matches[i].match_type == type_among(
                    directories,
                    shown[i].full_path,
                )
            &&& usable ==> answers_hold(listed.kept, directories)
            &&& answers_by_path(listed.kept, path_of)
        }),
    decreases rows.len(),
{
    reveal_with_fuel(Seq::filter, 1);
    if rows.len() > 0 {
        let fewer = rows.drop_last();
        let row = rows.last();
        assert forall|i: int| #![trigger fewer[i]] 0 <= i < fewer.len() implies {
            &&& fewer[i].full_path == path_of(fewer[i].id)
            &&& probes.drop_last()[i] == directories.contains(fewer[i].full_path)
        } by {
            assert(fewer[i] == rows[i]);
        }
        law_shown_types_hold(
            fewer,
            search_directories,
            compute_indices,
            usable,
            kept,
            probes.drop_last(),
            path_of,
            directories,
        );
        assert(rows[rows.len() - 1] == row);
        let before = listing(
            fewer,
            search_directories,
            compute_indices,
            usable,
            kept,
            probes.drop_last(),
        );
        let match_type = settled_type(before.kept, row, usable, probes.last());
        assert(match_type == type_among(directories, row.full_path));
        classify::law_classification_is_given_back(entry_of(row), match_type);
    }
}

/// Where the matcher holds only entries that lie under a search directory, every
/// shown row makes a match, with the score of the row.
proof fn lemma_every_row_makes_a_match(
    rows: Seq<MatchedRow>,
    search_directories: Seq<Seq<char>>,
    compute_indices: bool,
    usable: bool,
    kept: Map<u64, SearchItemView>,
    probes: Seq<bool>,
)
    requires
        forall|i: int|
            0 <= i < rows.len() ==> roots::is_under_some_root(
                (#[trigger] rows[i]).full_path,
                search_directories,
            ),
    ensures
        ({
            let matches = listing(
                rows,
                search_directories,
                compute_indices,
                usable,
                kept,
                probes,
            ).matches;
            &&& matches.len() == rows.len()
            &&& forall|i: int|
                0 <= i < rows.len() ==> (#[trigger] matches[i]).score == rows[i].score
        }),
    decreases rows.len(),
{
    if rows.len() > 0 {
        let fewer = rows.drop_last();
        assert forall|i: int| 0 <= i < fewer.len() implies roots::is_under_some_root(
            (#[trigger] fewer[i]).full_path,
            search_directories,
        ) by {
            assert(fewer[i] == rows[i]);
        }
        lemma_every_row_makes_a_match(
            fewer,
            search_directories,
            compute_indices,
            usable,
            kept,
            probes.drop_last(),
        );
        assert(rows[rows.len() - 1] == rows.last());
    }
}

/// A report holds the best matches, best first: as many as there are or as the
/// limit allows, by falling score, and none that is left out scores higher than
/// one that is shown. There are no more matches than entries that were scanned.
pub proof fn law_report_holds_the_best(
    session: SessionView,
    usable: bool,
    kept: Map<u64, SearchItemView>,
    probes: Seq<bool>,
)
    requires
        session.snapshot.is_best_first(),
        forall|i: int|
            0 <= i < session.snapshot.rows.len() ==> roots::is_under_some_root(
                (#[trigger] session.snapshot.rows[i]).full_path,
                session.search_directories,
            ),
    ensures
        ({
            let rows = session.snapshot.rows;
            let matches = listing(
                session.shown_rows(),
                session.search_directories,
                session.compute_indices,
                usable,
                kept,
                probes,
            ).matches;
            &&& matches.len() == (if session.limit < rows.len() {
                session.limit
            } else {
                rows.len()
            })
            &&& rows.len() <= session.snapshot.item_count
            &&& forall|i: int, j: int|
                #![trigger matches[i], matches[j]]
                0 <= i < j < matches.len() ==> matches[i].score >= matches[j].score
            &&& forall|i: int, left_out: int|
                #![trigger matches[i], rows[left_out]]
                0 <= i < matches.len() <= left_out < rows.len() ==> matches[i].score
                    >= rows[left_out].score
        }),
{
    let rows = session.snapshot.rows;
    let shown = session.shown_rows();
    assert forall|i: int| 0 <= i < shown.len() implies #[trigger] shown[i] == rows[i] by {}
    assert forall|i: int| 0 <= i < shown.len() implies roots::is_under_some_root(
        (#[trigger] shown[i]).full_path,
        session.search_directories,
    ) by {
        assert(shown[i] == rows[i]);
    }
    lemma_every_row_makes_a_match(
        shown,
        session.search_directories,
        session.compute_indices,
        usable,
        kept,
        probes,
    );
    let matches = listing(
        shown,
        session.search_directories,
        session.compute_indices,
        usable,
        kept,
        probes,
    ).matches;
    assert forall|i: int, j: int|
        #![trigger matches[i], matches[j]]
        0 <= i < j < matches.len() implies matches[i].score >= matches[j].score by {
        assert(shown[i] == rows[i]);
        assert(shown[j] == rows[j]);
    }
    assert forall|i: int, left_out: int|
        #![trigger matches[i], rows[left_out]]
        0 <= i < matches.len() <= left_out < rows.len() implies matches[i].score
        >= rows[left_out].score by {
        assert(shown[i] == rows[i]);
    }
}

/// The limit cuts the list of matches and nothing else: of two sessions whose
/// matchers found the same, the one with the lower limit reports the same total,
/// and shows the same scores up to its limit.
pub proof fn law_limit_only_cuts(
    lower: SessionView,
    higher: SessionView,
    usable: bool,
    lower_probes: Seq<bool>,
    higher_probes: Seq<bool>,
)
    requires
        lower.limit <= higher.limit,
        lower.snapshot.rows.len() == higher.snapshot.rows.len(),
        forall|i: int|
            0 <= i < lower.snapshot.rows.len() ==> (#[trigger] lower.snapshot.rows[i]).score
                == higher.snapshot.rows[i].score,
        forall|i: int|
            0 <= i < lower.snapshot.rows.len() ==> roots::is_under_some_root(
                (#[trigger] lower.snapshot.rows[i]).full_path,
                lower.search_directories,
            ),
        forall|i: int|
            0 <= i < higher.snapshot.rows.len() ==> roots::is_under_some_root(
                (#[trigger] higher.snapshot.rows[i]).full_path,
                higher.search_directories,
            ),
    ensures
        ({
            let fewer = listing(
                lower.shown_rows(),
                lower.search_directories,
                lower.compute_indices,
                usable,
                lower.kept,
                lower_probes,
            ).matches;
            let more = listing(
                higher.shown_rows(),
                higher.search_directories,
                higher.compute_indices,
                usable,
                higher.kept,
                higher_probes,
            ).matches;
            &&& lower.report(fewer).total_match_count == higher.report(more).total_match_count
            &&& fewer.len() == (if lower.limit < lower.snapshot.rows.len() {
                lower.limit
            } else {
                lower.snapshot.rows.len()
            })
            &&& fewer.len() <= more.len()
            &&& forall|i: int|
                0 <= i < fewer.len() ==> (#[trigger] fewer[i]).score == more[i].score
        }),
{
    let low = lower.shown_rows();
    let high = higher.shown_rows();
    assert forall|i: int| 0 <= i < low.len() implies #[trigger] low[i] == lower.snapshot.rows[i] by {}
    assert forall|i: int| 0 <= i < high.len() implies #[trigger] high[i]
        == higher.snapshot.rows[i] by {}
    lemma_every_row_makes_a_match(
        low,
        lower.search_directories,
        lower.compute_indices,
        usable,
        lower.kept,
        lower_probes,
    );
    lemma_every_row_makes_a_match(
        high,
        higher.search_directories,
        higher.compute_indices,
        usable,
        higher.kept,
        higher_probes,
    );
    let fewer = listing(
        low,
        lower.search_directories,
        lower.compute_indices,
        usable,
        lower.kept,
        lower_probes,
    ).matches;
    assert forall|i: int| 0 <= i < fewer.len() implies (#[trigger] fewer[i]).score == high[i].score by {
        assert(low[i] == lower.snapshot.rows[i]);
        assert(high[i] == higher.snapshot.rows[i]);
    }
}

/// A query leaves the snapshot, its counts and the walk as they are: nothing is
/// walked again for it, and nothing is looked at before the next tick.
pub proof fn law_query_walks_nothing_again(session: SessionView, query: Seq<char>)
    ensures
        ({
            let after = session.after_signal(SignalView::QueryUpdated(query));
            &&& after.snapshot == session.snapshot
            &&& after.search_directories == session.search_directories
            &&& after.schedule().walk_complete == session.schedule().walk_complete
            &&& after.added == session.added
            &&& after.given.ticks == session.given.ticks
        }),
{
}

/// A query goes to the matcher as it is, and as a continuation exactly where it
/// begins with every character of the query before. Only there may the matcher
/// pass over what the query before left out.
pub proof fn law_query_continues_what_it_begins_with(session: SessionView, query: Seq<char>)
    ensures
        ({
            let last = session.schedule().last_query;
            let given = session.after_signal(SignalView::QueryUpdated(query)).given;
            &&& given.continues <==> last.len() <= query.len() && forall|i: int|
                0 <= i < last.len() ==> query[i] == #[trigger] last[i]
            &&& given.query == query
            &&& given.parses == session.given.parses + 1
            &&& given.pending
            &&& given.threads == session.given.threads
        }),
{
    let last = session.schedule().last_query;
    if last.len() <= query.len() && forall|i: int|
        0 <= i < last.len() ==> query[i] == #[trigger] last[i] {
        assert(last =~= query.subrange(0, last.len() as int));
    }
    if last.is_prefix_of(query) {
        assert forall|i: int| 0 <= i < last.len() implies query[i] == #[trigger] last[i] by {
            assert(query.subrange(0, last.len() as int)[i] == last[i]);
        }
    }
}

/// Of two queries in a row, the second is a continuation exactly where it is the
/// first with something, or nothing, behind it.
pub proof fn law_longer_query_continues(
    session: SessionView,
    first: Seq<char>,
    second: Seq<char>,
    rest: Seq<char>,
)
    ensures
        session.after_signal(SignalView::QueryUpdated(first)).after_signal(
            SignalView::QueryUpdated(first + rest),
        ).given.continues,
        session.after_signal(SignalView::QueryUpdated(first)).after_signal(
            SignalView::QueryUpdated(second),
        ).given.continues ==> exists|behind: Seq<char>| second == #[trigger] (first + behind),
        second.len() < first.len() ==> !session.after_signal(
            SignalView::QueryUpdated(first),
        ).after_signal(SignalView::QueryUpdated(second)).given.continues,
{
    let between = session.after_signal(SignalView::QueryUpdated(first));
    law_query_continues_what_it_begins_with(between, first + rest);
    law_query_continues_what_it_begins_with(between, second);
    if between.after_signal(SignalView::QueryUpdated(second)).given.continues {
        assert(second =~= first + second.skip(first.len() as int));
    }
}

/// What a consistent session hands to the matcher as a continuation begins with
/// the query that the matcher was given before.
pub proof fn law_matcher_is_never_misled(session: SessionView, query: Seq<char>)
    requires
        session.is_consistent(),
        session.after_signal(SignalView::QueryUpdated(query)).given.continues,
    ensures
        session.given.query.len() <= query.len(),
        forall|i: int| 0 <= i < session.given.query.len() ==> query[i] == #[trigger]
            session.given.query[i],
{
    law_query_continues_what_it_begins_with(session, query);
}

/// Signals other than a query give the matcher nothing, and no signal touches
/// what was found, reported, watched or kept.
pub proof fn law_signal_touches_nothing_else(session: SessionView, signal: SignalView)
    ensures
        ({
            let after = session.after_signal(signal);
            &&& !(signal is QueryUpdated) ==> after.given == session.given
            &&& after.snapshot == session.snapshot
            &&& after.added == session.added
            &&& after.tracker == session.tracker
            &&& after.search_directories == session.search_directories
            &&& after.limit == session.limit
            &&& after.compute_indices == session.compute_indices
            &&& after.kept == session.kept
            &&& after.reported == session.reported
            &&& after.progress.reports == session.progress.reports
            &&& after.progress.ended == session.progress.ended
        }),
{
}

/// A tick reports what changed exactly where something did, whatever it holds,
/// and completion exactly where the search is complete; what changed comes
/// first, and nothing else is to be done.
pub proof fn law_tick_reports_all_there_is(
    update: Option<FileSearchSnapshotView>,
    complete: bool,
    other: FileSearchSnapshotView,
)
    ensures
        ({
            let actions = tick_actions(update, complete);
            &&& actions.contains(ActionView::Update(other)) <==> update == Some(other)
            &&& actions.contains(ActionView::Complete) <==> complete
            &&& update is Some ==> actions.len() > 0 && actions[0] == ActionView::Update(update->0)
            &&& complete ==> actions.len() > 0 && actions.last() == ActionView::Complete
            &&& actions.len() == (if update is Some {
                1int
            } else {
                0
            }) + (if complete {
                1int
            } else {
                0
            })
        }),
{
    let actions = tick_actions(update, complete);
    if let Some(report) = update {
        assert(actions[0] == ActionView::Update(report));
    }
    if complete {
        assert(actions[actions.len() - 1] == ActionView::Complete);
    }
}

/// What is done after a tick is what the session takes down as reported: an
/// update for an update and a completion for a completion, in the same order.
pub proof fn law_actions_are_what_is_taken_down(
    session: SessionView,
    update: Option<FileSearchSnapshotView>,
    running: bool,
)
    ensures
        ({
            let before = session.progress.reports;
            let after = session.after_due(update is Some, running).progress.reports;
            let actions = tick_actions(update, session.schedule().completes(running));
            &&& after.len() == before.len() + actions.len()
            &&& before == after.take(before.len() as int)
            &&& forall|i: int|
                0 <= i < actions.len() ==> {
                    &&& #[trigger] actions[i] is Update <==> after[before.len() + i] is Update
                    &&& actions[i] is Complete <==> after[before.len() + i] is Complete
                }
        }),
{
    let before = session.progress.reports;
    let after = session.after_due(update is Some, running).progress.reports;
    assert(before =~= after.take(before.len() as int));
}

/// The timer is set exactly where a signal asks for a tick, to the delay that it
/// asks for, and nothing else is done for a signal.
pub proof fn law_signal_sets_the_timer_only(reaction: Reaction, delay: u64)
    ensures
        signal_actions(reaction).contains(ActionView::Arm(delay)) <==> reaction
            == Reaction::TickAfter(delay),
        signal_actions(reaction).len() == (if reaction is TickAfter {
            1int
        } else {
            0
        }),
        forall|i: int| 0 <= i < signal_actions(reaction).len() ==> #[trigger] signal_actions(
            reaction,
        )[i] is Arm,
{
    if let Reaction::TickAfter(asked) = reaction {
        assert(signal_actions(reaction)[0] == ActionView::Arm(asked));
    }
}

/// The shown rows are the first of the snapshot: all of them, or as many as the
/// limit allows.
pub proof fn law_first_rows_are_shown(session: SessionView)
    ensures
        session.shown_rows().len() <= session.limit,
        session.shown_rows().len() <= session.snapshot.rows.len(),
        session.shown_rows().len() == session.limit || session.shown_rows().len()
            == session.snapshot.rows.len(),
        forall|i: int|
            0 <= i < session.shown_rows().len() ==> #[trigger] session.shown_rows()[i]
                == session.snapshot.rows[i],
{
}

/// A report names the last query, counts every match and every entry of the
/// snapshot whatever is shown of them, and says whether the walk is over.
pub proof fn law_report_says_what_is_known(session: SessionView, matches: Seq<FileMatchView>)
    requires
        session.snapshot.rows.len() <= session.snapshot.item_count <= u32::MAX,
    ensures
        ({
            let report = session.report(matches);
            &&& report.query == session.schedule().last_query
            &&& report.matches == matches
            &&& report.total_match_count == session.snapshot.rows.len()
            &&& report.scanned_file_count == session.snapshot.item_count
            &&& report.walk_complete == session.schedule().walk_complete
        }),
{
}

/// A match carries the score of its row, the path of its entry relative to the
/// deepest search directory above it, and the type that it was settled with.
/// Its indices are those of the row, each once, rising, and left out where
/// nobody asks for them.
pub proof fn law_match_carries_its_row(
    row: MatchedRow,
    search_directories: Seq<Seq<char>>,
    compute_indices: bool,
    match_type: MatchType,
    index: u32,
)
    requires
        roots::is_under_some_root(row.full_path, search_directories),
    ensures
        ({
            let made = match_of(row, search_directories, compute_indices, match_type);
            &&& made.score == row.score
            &&& made.match_type == match_type
            &&& exists|best: int| #[trigger]
                roots::is_best_root(row.full_path, search_directories, best) && made.root
                    == search_directories[best]
            &&& paths::stripped(row.full_path, made.root) == Some(made.path)
            &&& made.indices is Some <==> compute_indices
            &&& made.indices matches Some(indices) ==> {
                &&& indices.contains(index) <==> row.indices.contains(index)
                &&& forall|i: int, j: int|
                    #![trigger indices[i], indices[j]]
                    0 <= i < j < indices.len() ==> indices[i] < indices[j]
            }
        }),
{
    let best = roots::best_root(row.full_path, search_directories);
    roots::law_some_root_is_best(row.full_path, search_directories);
    assert(roots::is_best_root(row.full_path, search_directories, best));
    ranking::law_listing_exists(row.indices);
}

/// One more row adds its own match behind the others and changes none of them,
/// or adds nothing where its entry lies under no search directory.
pub proof fn law_one_more_row_adds_its_match(
    rows: Seq<MatchedRow>,
    row: MatchedRow,
    search_directories: Seq<Seq<char>>,
    compute_indices: bool,
    usable: bool,
    kept: Map<u64, SearchItemView>,
    probes: Seq<bool>,
    probe: bool,
)
    ensures
        ({
            let before = listing(
                rows,
                search_directories,
                compute_indices,
                usable,
                kept,
                probes,
            );
            let after = listing(
                rows.push(row),
                search_directories,
                compute_indices,
                usable,
                kept,
                probes.push(probe),
            );
            let settled = settled_type(before.kept, row, usable, probe);
            if roots::is_under_some_root(row.full_path, search_directories) {
                &&& after.matches.len() == before.matches.len() + 1
                &&& after.matches.take(before.matches.len() as int) == before.matches
                &&& after.matches.last() == match_of(
                    row,
                    search_directories,
                    compute_indices,
                    settled,
                )
                &&& forall|id: u64|
                    id != row.id ==> (#[trigger] after.kept.contains_key(id)
                        <==> before.kept.contains_key(id))
                &&& forall|id: u64|
                    id != row.id && before.kept.contains_key(id) ==> #[trigger] after.kept[id]
                        == before.kept[id]
                &&& after.kept.contains_key(row.id)
            } else {
                after == before
            }
        }),
{
    assert(rows.push(row).drop_last() =~= rows);
    assert(probes.push(probe).drop_last() =~= probes);
    let before = listing(rows, search_directories, compute_indices, usable, kept, probes);
    let after = listing(
        rows.push(row),
        search_directories,
        compute_indices,
        usable,
        kept,
        probes.push(probe),
    );
    if roots::is_under_some_root(row.full_path, search_directories) {
        assert(after.matches.take(before.matches.len() as int) =~= before.matches);
    }
}

/// Without rows there are no matches, and nothing new is kept.
pub proof fn law_no_rows_no_matches(
    search_directories: Seq<Seq<char>>,
    compute_indices: bool,
    usable: bool,
    kept: Map<u64, SearchItemView>,
    probes: Seq<bool>,
)
    ensures
        listing(
            Seq::empty(),
            search_directories,
            compute_indices,
            usable,
            kept,
            probes,
        ).matches.len() == 0,
        listing(Seq::empty(), search_directories, compute_indices, usable, kept, probes).kept
            == kept,
{
}

/// An entry is settled by the file system unless an answer for it is kept that
/// may be used, and then by that answer. What is settled by the file system is
/// kept with the entry, under its number.
pub proof fn law_entry_is_settled_by_the_better_answer(
    kept: Map<u64, SearchItemView>,
    row: MatchedRow,
    usable: bool,
    probe: bool,
)
    ensures
        ({
            let settled = settled_type(kept, row, usable, probe);
            let after = kept_after(kept, row, usable, probe);
            let answered = usable && kept.contains_key(row.id)
                && kept[row.id].usable_type() is Some;
            &&& answered ==> Some(settled) == kept[row.id].usable_type() && after == kept
            &&& !answered ==> (settled == MatchType::Directory <==> probe)
            &&& !answered ==> after.contains_key(row.id)
            &&& !answered ==> after[row.id].full_path == row.full_path
            &&& !answered ==> after[row.id].cacheable_match_type == row.cacheable
            &&& !answered && row.cacheable ==> after[row.id].usable_type() == Some(settled)
            &&& !answered && !row.cacheable ==> after[row.id].usable_type() is None
        }),
{
    classify::law_classification_is_given_back(
        entry_of(row),
        settled_type(kept, row, usable, probe),
    );
}

/// What is watched for rows are the directories above those entries whose type
/// may be kept, all of them and no others.
pub proof fn law_directories_above_kept_entries_are_watched(
    rows: Seq<MatchedRow>,
    directory: Seq<char>,
)
    ensures
        directories_above(rows).contains(directory) <==> exists|row: int|
            0 <= row < rows.len() && rows[row].cacheable && #[trigger] paths::ancestors(
                rows[row].full_path,
            ).contains(directory),
    decreases rows.len(),
{
    let all = directories_above(rows);
    if rows.len() == 0 {
        assert(!all.contains(directory));
    } else {
        let last = rows.len() - 1;
        let fewer = rows.drop_last();
        let above = paths::ancestors(rows.last().full_path);
        law_directories_above_kept_entries_are_watched(fewer, directory);
        let before = directories_above(fewer);
        if all.contains(directory) {
            let at = choose|at: int| 0 <= at < all.len() && all[at] == directory;
            if at < before.len() {
                assert(before[at] == directory);
                let row = choose|row: int|
                    0 <= row < fewer.len() && fewer[row].cacheable && #[trigger] paths::ancestors(
                        fewer[row].full_path,
                    ).contains(directory);
                assert(rows[row] == fewer[row]);
                assert(paths::ancestors(rows[row].full_path).contains(directory));
            } else {
                assert(above[at - before.len()] == directory);
                assert(paths::ancestors(rows[last].full_path).contains(directory));
            }
        }
        if exists|row: int|
            0 <= row < rows.len() && rows[row].cacheable && #[trigger] paths::ancestors(
                rows[row].full_path,
            ).contains(directory) {
            let row = choose|row: int|
                0 <= row < rows.len() && rows[row].cacheable && #[trigger] paths::ancestors(
                    rows[row].full_path,
                ).contains(directory);
            let at = choose|at: int|
                0 <= at < paths::ancestors(rows[row].full_path).len() && paths::ancestors(
                    rows[row].full_path,
                )[at] == directory;
            lemma_directories_above_hold_ancestors(rows, row, at);
        }
    }
}

/// A tick waits for the matcher as long as it is allowed to, once, and changes
/// nothing but what the matcher hands over.
pub proof fn law_tick_waits_once(
    session: SessionView,
    snapshot: MatcherSnapshot,
    added: Seq<AddedEntry>,
    running: bool,
)
    ensures
        ({
            let after = session.ticked(snapshot, added, running);
            &&& after.given.ticks == session.given.ticks.push(10)
            &&& after.given.pending <==> session.given.pending && running
            &&& after.given.query == session.given.query
            &&& after.given.parses == session.given.parses
            &&& after.snapshot == snapshot
            &&& after.added == added
            &&& after.progress == session.progress
            &&& after.tracker == session.tracker
            &&& after.kept == session.kept
            &&& after.reported == session.reported
            &&& after.limit == session.limit
            &&& after.search_directories == session.search_directories
        }),
{
}

/// A look at the snapshot makes a report on it, and leaves the matcher and what
/// was signalled alone. Its matches are settled by kept answers only where no
/// change was seen; the watches are read only where all are in place.
pub proof fn law_look_reports_on_the_snapshot(session: SessionView, told: Told)
    requires
        session.snapshot.rows.len() <= session.snapshot.item_count <= u32::MAX,
    ensures
        ({
            let after = session.looked(told);
            let watching = session.tracker.after_watches(
                directories_above(session.shown_rows()),
                told.watches,
            );
            &&& after.reported matches Some(report) && {
                &&& report.query == session.schedule().last_query
                &&& report.total_match_count == session.snapshot.rows.len()
                &&& report.scanned_file_count == session.snapshot.item_count
                &&& report.walk_complete == session.schedule().walk_complete
                &&& report.matches == listing(
                    session.shown_rows(),
                    session.search_directories,
                    session.compute_indices,
                    !watching.dirty && told.clean,
                    session.kept,
                    told.probes,
                ).matches
            }
            &&& after.tracker.dirty <==> watching.dirty || !told.clean
            &&& after.tracker.watched == watching.watched
            &&& after.snapshot == session.snapshot
            &&& after.given == session.given
            &&& after.added == session.added
            &&& after.progress == session.progress
            &&& after.limit == session.limit
        }),
{
}

/// A fresh session has found, reported and kept nothing, waits for nothing, and
/// uses kept answers only where the system offers watches.
pub proof fn law_fresh_session_knows_nothing(
    search_directories: Seq<Seq<char>>,
    limit: nat,
    threads: nat,
    compute_indices: bool,
    watches_available: bool,
)
    ensures
        ({
            let session = SessionView::fresh(
                search_directories,
                limit,
                threads,
                compute_indices,
                watches_available,
            );
            &&& session.search_directories == search_directories
            &&& session.limit == limit
            &&& session.compute_indices == compute_indices
            &&& session.given.threads == threads
            &&& session.given.parses == 0
            &&& session.given.query.len() == 0
            &&& session.given.ticks.len() == 0
            &&& session.snapshot.rows.len() == 0
            &&& session.snapshot.item_count == 0
            &&& session.added.len() == 0
            &&& session.kept.dom() == Set::<u64>::empty()
            &&& session.reported is None
            &&& session.tracker.watched.len() == 0
            &&& session.tracker.dirty <==> !watches_available
            &&& session.schedule().last_query.len() == 0
            &&& !session.schedule().will_notify
            &&& !session.schedule().walk_complete
            &&& session.progress.timer is None
            &&& session.progress.reports.len() == 0
            &&& !session.progress.ended
        }),
{
}

/// The file system is asked about the entry itself wherever no kept answer can
/// be used, and what it says is what is gone by.
pub proof fn law_file_system_is_asked_about_the_entry<P: Fn(&str) -> bool>(
    is_directory: P,
    rows: Seq<MatchedRow>,
    search_directories: Seq<Seq<char>>,
    compute_indices: bool,
    usable: bool,
    kept: Map<u64, SearchItemView>,
    probes: Seq<bool>,
    at: int,
)
    requires
        probed_by(is_directory, rows, search_directories, compute_indices, usable, kept, probes),
        0 <= at < rows.len(),
        roots::is_under_some_root(rows[at].full_path, search_directories),
        ({
            let before = listing(
                rows.take(at),
                search_directories,
                compute_indices,
                usable,
                kept,
                probes.take(at),
            ).kept;
            !usable || !before.contains_key(rows[at].id) || before[rows[at].id].usable_type() is None
        }),
    ensures
        probes.len() == rows.len(),
        exists|path: &str|
            path@ == rows[at].full_path && #[trigger] is_directory.ensures((path,), probes[at]),
{
    let before = listing(
        rows.take(at),
        search_directories,
        compute_indices,
        usable,
        kept,
        probes.take(at),
    ).kept;
    assert(probe_of(is_directory, rows[at], search_directories, usable, before, probes[at]));
    assert(reused(before, rows[at], usable) is None);
}

/// Where no kept answer may be used, every shown type is what the file system
/// says of the entry's path: a directory where it says so, else a file.
pub proof fn law_fresh_types_come_from_the_file_system<P: Fn(&str) -> bool>(
    is_directory: P,
    rows: Seq<MatchedRow>,
    search_directories: Seq<Seq<char>>,
    compute_indices: bool,
    kept: Map<u64, SearchItemView>,
    probes: Seq<bool>,
    at: int,
)
    requires
        probed_by(is_directory, rows, search_directories, compute_indices, false, kept, probes),
        forall|i: int|
            0 <= i < rows.len() ==> roots::is_under_some_root(
                (#[trigger] rows[i]).full_path,
                search_directories,
            ),
        0 <= at < rows.len(),
    ensures
        ({
            let matches = listing(
                rows,
                search_directories,
                compute_indices,
                false,
                kept,
                probes,
            ).matches;
            &&& matches.len() == rows.len()
            &&& exists|path: &str, said: bool|
                path@ == rows[at].full_path && #[trigger] is_directory.ensures((path,), said)
                    && (said <==> matches[at].match_type == MatchType::Directory)
        }),
{
    lemma_types_are_as_probed(rows, search_directories, compute_indices, kept, probes, at);
    law_file_system_is_asked_about_the_entry(
        is_directory,
        rows,
        search_directories,
        compute_indices,
        false,
        kept,
        probes,
        at,
    );
}

proof fn lemma_types_are_as_probed(
    rows: Seq<MatchedRow>,
    search_directories: Seq<Seq<char>>,
    compute_indices: bool,
    kept: Map<u64, SearchItemView>,
    probes: Seq<bool>,
    at: int,
)
    requires
        probes.len() == rows.len(),
        forall|i: int|
            0 <= i < rows.len() ==> roots::is_under_some_root(
                (#[trigger] rows[i]).full_path,
                search_directories,
            ),
        0 <= at < rows.len(),
    ensures
        ({
            let matches = listing(
                rows,
                search_directories,
                compute_indices,
                false,
                kept,
                probes,
            ).matches;
            &&& matches.len() == rows.len()
            &&& matches[at].match_type == MatchType::Directory <==> probes[at]
        }),
    decreases rows.len(),
{
    let fewer = rows.drop_last();
    assert forall|i: int| 0 <= i < fewer.len() implies roots::is_under_some_root(
        (#[trigger] fewer[i]).full_path,
        search_directories,
    ) by {
        assert(fewer[i] == rows[i]);
    }
    lemma_every_row_makes_a_match(
        fewer,
        search_directories,
        compute_indices,
        false,
        kept,
        probes.drop_last(),
    );
    assert(rows[rows.len() - 1] == rows.last());
    if at < rows.len() - 1 {
        lemma_types_are_as_probed(
            fewer,
            search_directories,
            compute_indices,
            kept,
            probes.drop_last(),
            at,
        );
    }
}

/// A tick that makes a report was told what it goes by: each watch by the system,
/// that nothing has changed by the watches, and each type by the file system. The
/// report is on what the matcher handed over, and is the last one from then on.
pub proof fn law_tick_goes_by_what_it_is_told<
    A: Fn(&str) -> bool,
    D: Fn() -> bool,
    P: Fn(&str) -> bool,
>(
    session: SessionView,
    after: SessionView,
    update: FileSearchSnapshotView,
    running: bool,
    add_watch: A,
    drain: D,
    is_directory: P,
)
    requires
        session.ticks_to(after, Some(update), running, add_watch, drain, is_directory),
    ensures
        after.reported == Some(update),
        update.query == session.schedule().last_query,
        update.walk_complete == session.schedule().walk_complete,
        update.total_match_count == after.snapshot.rows.len() as usize,
        after.given.ticks.len() == session.given.ticks.len() + 1,
        after.progress == session.progress.turned(Turn::Due { changed: true, running }),
        after.limit == session.limit,
        after.search_directories == session.search_directories,
        exists|told: Told|
            {
                let rows = after.shown_rows();
                let watching = session.tracker.after_watches(directories_above(rows), told.watches);
                let usable = !watching.dirty && told.clean;
                let listed = listing(
                    rows,
                    session.search_directories,
                    session.compute_indices,
                    usable,
                    session.kept,
                    told.probes,
                );
                &&& #[trigger] classify::answered_by(
                    add_watch,
                    session.tracker,
                    directories_above(after.shown_rows()),
                    told.watches,
                )
                &&& !watching.dirty ==> drain.ensures((), told.clean)
                &&& probed_by(
                    is_directory,
                    rows,
                    session.search_directories,
                    session.compute_indices,
                    usable,
                    session.kept,
                    told.probes,
                )
                &&& update.matches == listed.matches
                &&& after.kept == listed.kept
                &&& after.tracker.watched == watching.watched
                &&& after.tracker.dirty <==> !usable
            },
{
    let due = session.ticked(after.snapshot, after.added, running).after_due(true, running);
    let told = choose|told: Told| #[trigger]
        due.reports_as_told(after, update, add_watch, drain, is_directory, told);
    assert(due.shown_rows() == after.shown_rows());
    assert(classify::answered_by(
        add_watch,
        session.tracker,
        directories_above(after.shown_rows()),
        told.watches,
    ));
}

/// A tick without a report leaves everything but the matcher and the timer as it
/// was, and the matcher's snapshot is the old one.
pub proof fn law_tick_without_news_changes_nothing<
    A: Fn(&str) -> bool,
    D: Fn() -> bool,
    P: Fn(&str) -> bool,
>(
    session: SessionView,
    after: SessionView,
    running: bool,
    add_watch: A,
    drain: D,
    is_directory: P,
)
    requires
        session.ticks_to(after, None, running, add_watch, drain, is_directory),
    ensures
        after.snapshot == session.snapshot,
        after.tracker == session.tracker,
        after.kept == session.kept,
        after.reported == session.reported,
        after.search_directories == session.search_directories,
        after.limit == session.limit,
        after.compute_indices == session.compute_indices,
        after.given.ticks.len() == session.given.ticks.len() + 1,
        after.progress == session.progress.turned(Turn::Due { changed: false, running }),
{
}

/// A tick can only bring what the matcher promises: no fewer entries, every row
/// an added entry, the best first; and where it leaves nothing to do, all entries
/// matched against the last query, with a report on that where it was new.
pub proof fn law_tick_brings_what_the_matcher_promises(
    session: SessionView,
    snapshot: MatcherSnapshot,
    added: Seq<AddedEntry>,
    running: bool,
    changed: bool,
    row: int,
)
    requires
        session.allows_tick(snapshot, added, running, changed),
    ensures
        session.snapshot.item_count <= snapshot.item_count,
        session.added.is_prefix_of(added),
        0 <= row < snapshot.rows.len() ==> added.contains(snapshot.rows[row].entry())
            && engine::path_score(snapshot.query, snapshot.rows[row].relative_path) == Some(
            snapshot.rows[row].score,
        ),
        0 < row < snapshot.rows.len() ==> snapshot.rows[row - 1].score >= snapshot.rows[row].score,
        !running ==> snapshot.query == session.given.query && snapshot.item_count == added.len(),
        !running && session.given.pending ==> changed,
        !changed ==> snapshot == session.snapshot,
{
    if 0 <= row < snapshot.rows.len() {
        assert(snapshot.rows[row].matches(snapshot.query));
    }
}

/// A session can take every query that can be scored, and where only short paths
/// are ever added also every other one that is not too long as a whole.
pub proof fn law_scorable_queries_can_be_taken(session: FileSearchSession, query: Seq<char>)
    ensures
        query::is_scorable(query) ==> session.can_take(query),
        query.len() <= query::MAX_QUERY_CHARS && session.is_fed_short_paths() ==> session.can_take(
            query,
        ),
        session.can_take(query) ==> query::is_scorable(query) || session.is_fed_short_paths(),
{
}

/// A tick has reported exactly what it hands over.
pub proof fn law_outcome_reports_its_update(outcome: TickOutcome)
    ensures
        outcome.reported() is Some <==> outcome.update is Some,
        outcome.update matches Some(update) ==> outcome.reported() == Some(update@),
{
}

/// Actions are seen one by one, each as what it is.
pub proof fn law_actions_are_seen_as_they_are(actions: Seq<Action>, place: int)
    requires
        0 <= place < actions.len(),
    ensures
        action_views(actions).len() == actions.len(),
        actions[place] matches Action::Arm(delay) ==> action_views(actions)[place]
            == ActionView::Arm(delay),
        actions[place] matches Action::Update(update) ==> action_views(actions)[place]
            == ActionView::Update(update@),
        actions[place] is Complete ==> action_views(actions)[place] == ActionView::Complete,
{
}

} // verus!
