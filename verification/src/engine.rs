//! The fuzzy matcher that the search runs on.
//!
//! Matching is done by the `nucleo` crate: entries are injected from the walk,
//! a query is parsed, and a tick lets the background workers hand over a new
//! snapshot. Which entries a snapshot takes account of depends on how far the
//! workers got. What every snapshot keeps to is said here: its rows are entries
//! that match its query, with the scores and the indices that this match has.

use crate::query;
use crate::query::{MAX_QUERY_CHARS, MAX_WORD_CHARS};
use nucleo::pattern::{AtomKind, CaseMatching, Normalization, Pattern};
use nucleo::{Config, Injector, Matcher, Nucleo, Utf32Str, Utf32String};
use std::sync::Arc;
use vstd::multiset::Multiset;
use vstd::prelude::*;

verus! {

/// `nucleo::Nucleo`: the matcher and its worker threads.
#[verifier::external_type_specification]
#[verifier::external_body]
#[verifier::reject_recursive_types(T)]
pub struct ExNucleo<T: Sync + Send + 'static>(Nucleo<T>);

/// `nucleo::Injector`: a handle through which entries are added to the matcher.
#[verifier::external_type_specification]
#[verifier::external_body]
#[verifier::reject_recursive_types(T)]
pub struct ExInjector<T>(Injector<T>);

/// An entry as it is injected: a number that no other entry has, its full
/// path, the encoded type that the walk reported, and whether its type may be
/// kept.
pub type Injected = (u64, String, u8, bool);

/// An entry that was added to the matcher, and the text that it is matched by.
pub struct AddedEntry {
    pub id: u64,
    pub full_path: Seq<char>,
    pub walk_type: u8,
    pub cacheable: bool,
    pub relative_path: Seq<char>,
}

/// One row of a snapshot: the entry that matched, how well it matched the
/// snapshot's query, and which characters of it did.
pub struct MatchedRow {
    pub id: u64,
    pub full_path: Seq<char>,
    pub walk_type: u8,
    pub cacheable: bool,
    pub relative_path: Seq<char>,
    pub score: u32,
    pub indices: Seq<u32>,
}

impl MatchedRow {
    /// The entry of the row.
    pub open spec fn entry(self) -> AddedEntry {
        AddedEntry {
            id: self.id,
            full_path: self.full_path,
            walk_type: self.walk_type,
            cacheable: self.cacheable,
            relative_path: self.relative_path,
        }
    }

    /// Whether the row is what its entry makes of the query: the entry matches,
    /// with the score and the indices of the row. The indices are places in the
    /// text that it is matched by.
    pub open spec fn matches(self, query: Seq<char>) -> bool {
        &&& path_score(query, self.relative_path) == Some(self.score)
        &&& self.indices == path_indices(query, self.relative_path)
        &&& are_places_in(self.indices, self.relative_path)
    }
}

/// Whether each of the indices is the place of a character of the text.
pub open spec fn are_places_in(indices: Seq<u32>, content: Seq<char>) -> bool {
    forall|i: int| 0 <= i < indices.len() ==> #[trigger] indices[i] < content.len()
}

/// How well the matcher finds that a path matches a query: `None` where it does
/// not. Words are matched one by one, and their scores added up.
pub uninterp spec fn path_score(query: Seq<char>, relative_path: Seq<char>) -> Option<u32>;

/// Which characters of a path match a query, word by word, unsorted and possibly
/// repeated.
pub uninterp spec fn path_indices(query: Seq<char>, relative_path: Seq<char>) -> Seq<u32>;

/// A snapshot: the query that entries were matched against, a row for each
/// that matched, and how many entries the snapshot takes account of.
pub struct MatcherSnapshot {
    pub query: Seq<char>,
    pub rows: Seq<MatchedRow>,
    pub item_count: nat,
}

impl MatcherSnapshot {
    /// The snapshot before anything was matched.
    pub open spec fn empty() -> MatcherSnapshot {
        MatcherSnapshot { query: Seq::empty(), rows: Seq::empty(), item_count: 0 }
    }

    /// The best match comes first, and no more entries match than there are.
    pub open spec fn is_best_first(self) -> bool {
        &&& self.rows.len() <= self.item_count
        &&& forall|i: int, j: int|
            #![trigger self.rows[i], self.rows[j]]
            0 <= i < j < self.rows.len() ==> self.rows[i].score >= self.rows[j].score
    }

    /// Every row is what its entry makes of the query.
    pub open spec fn is_of_its_query(self) -> bool {
        forall|i: int| 0 <= i < self.rows.len() ==> (#[trigger] self.rows[i]).matches(self.query)
    }

    /// Every row is that of one of these entries.
    pub open spec fn is_made_of(self, added: Seq<AddedEntry>) -> bool {
        forall|i: int|
            0 <= i < self.rows.len() ==> added.contains((#[trigger] self.rows[i]).entry())
    }

    /// The entries of the rows, in order.
    pub open spec fn entries(self) -> Seq<AddedEntry> {
        Seq::new(self.rows.len(), |i: int| self.rows[i].entry())
    }

    /// Each of these entries that matches the query has a row, and each has one
    /// only.
    pub open spec fn holds_every_match_of(self, added: Seq<AddedEntry>) -> bool {
        self.entries().to_multiset() == matches_among(added, self.query)
    }
}

/// What an entry has to be to match the query.
pub open spec fn matching(query: Seq<char>) -> spec_fn(AddedEntry) -> bool {
    |entry: AddedEntry| path_score(query, entry.relative_path) is Some
}

/// Those of the entries that match the query.
pub open spec fn matches_among(added: Seq<AddedEntry>, query: Seq<char>) -> Multiset<AddedEntry> {
    added.to_multiset().filter(matching(query))
}

/// How many threads a matcher may have: as many as its thread pool can keep count
/// of, with 16 bits for their number.
pub const MAX_THREADS: usize = 0xffff;

/// What a matcher was made with and given: its number of threads, how many
/// queries were parsed, the one that was parsed last, whether it was parsed as a
/// continuation of the one before, whether any query was parsed since a tick last left the workers with
/// nothing to do, and the time limits of all ticks.
pub struct Given {
    pub threads: nat,
    pub parses: nat,
    pub query: Seq<char>,
    pub continues: bool,
    pub pending: bool,
    pub ticks: Seq<u64>,
}

impl Given {
    /// What a matcher that was just started was given.
    pub open spec fn started(threads: nat) -> Given {
        Given {
            threads,
            parses: 0,
            query: Seq::empty(),
            continues: false,
            pending: false,
            ticks: Seq::empty(),
        }
    }

    /// A query was parsed.
    pub open spec fn parsed(self, query: Seq<char>, continues: bool) -> Given {
        Given { parses: self.parses + 1, query, continues, pending: true, ..self }
    }

    /// A tick with this time limit left the workers busy, or not.
    pub open spec fn ticked(self, timeout: u64, running: bool) -> Given {
        Given { pending: self.pending && running, ticks: self.ticks.push(timeout), ..self }
    }
}

/// The matcher's current snapshot.
pub uninterp spec fn snapshot_of(engine: Nucleo<Injected>) -> MatcherSnapshot;

/// What the matcher was made with and given.
pub uninterp spec fn given_to(engine: Nucleo<Injected>) -> Given;

/// Takes the news that a tick is worth while.
pub trait Listener: Send + Sync + 'static {
    fn on_news(&self);
}

/// Whom the matcher's workers tell that a tick is worth while.
pub struct Notifier {
    pub listener: Arc<dyn Listener>,
}

/// Whom the matcher's workers tell that a tick is worth while.
pub uninterp spec fn notified_by(engine: Nucleo<Injected>) -> Notifier;

/// Whether what is added through the handle goes to this matcher.
pub uninterp spec fn feeds(injector: Injector<Injected>, engine: Nucleo<Injected>) -> bool;

/// The entries that the matcher's ticks have come across, in the order of the
/// places that they have in it: those that had been added when a tick last
/// counted them, or that were taken account of in a snapshot since.
pub uninterp spec fn counted_in(engine: Nucleo<Injected>) -> Seq<AddedEntry>;

/// Whether the entry was added through some handle to this matcher.
pub open spec fn was_added(entry: AddedEntry, engine: Nucleo<Injected>) -> bool {
    exists|injector: Injector<Injected>| #[trigger]
        feeds(injector, engine) && added_through(injector).contains(entry)
}

/// Whether no text is or will be added to this matcher that is too long for any
/// word's score to fit.
pub open spec fn takes_short_texts_only(engine: Nucleo<Injected>) -> bool {
    forall|injector: Injector<Injected>, entry: AddedEntry|
        #![trigger feeds(injector, engine), added_through(injector).contains(entry)]
        feeds(injector, engine) && added_through(injector).contains(entry)
            ==> entry.relative_path.len() <= MAX_WORD_CHARS
}

/// `Nucleo::new` starts a matcher with one column for paths. Its snapshot is
/// empty, and so is its pattern. The listener is told by the workers whenever a
/// tick is worth while. As many threads are started and as many matchers made
/// as asked for; a system that has no such number of threads to give stops the
/// program, and so does one that has no memory.
#[verifier::external_body]
pub(crate) fn start_engine(notifier: Notifier, threads: usize) -> (engine:
    Nucleo<Injected>)
    requires
        0 < threads <= MAX_THREADS,
    ensures
        notified_by(engine) == notifier,
        snapshot_of(engine) == MatcherSnapshot::empty(),
        counted_in(engine) == Seq::<AddedEntry>::empty(),
        given_to(engine) == Given::started(threads as nat),
{
    Nucleo::new(Config::DEFAULT.match_paths(), Arc::new(move || notifier.listener.on_news()), Some(threads), 1)
}

/// `MultiPattern::reparse` replaces the pattern that entries are matched
/// against, ignoring case. It leaves the snapshot alone. A query that is parsed
/// as a continuation is to begin with the one before. From the next tick on, the
/// workers score every text that is added by it, and what a word scores has to
/// fit 16 bits: either every word is short enough for that, or every text is.
#[verifier::external_body]
pub(crate) fn parse_query(engine: &mut Nucleo<Injected>, query: &str, continues: bool)
    requires
        query@.len() <= MAX_QUERY_CHARS,
        query::words_fit(query@) || takes_short_texts_only(*old(engine)),
    ensures
        given_to(*final(engine)) == given_to(*old(engine)).parsed(query@, continues),
        counted_in(*final(engine)) == counted_in(*old(engine)),
        snapshot_of(*final(engine)) == snapshot_of(*old(engine)),
        notified_by(*final(engine)) == notified_by(*old(engine)),
        forall|injector: Injector<Injected>| #[trigger]
            feeds(injector, *old(engine)) ==> feeds(injector, *final(engine)),
{
    engine.pattern.reparse(0, query, CaseMatching::Ignore, Normalization::Smart, continues);
}

/// `Nucleo::tick` waits up to `timeout` milliseconds for the workers and takes
/// over what they finished. It returns whether the snapshot may have changed
/// and whether the workers are still busy. A snapshot is only replaced where
/// that is reported. It is sorted as a whole, each of its rows is scored with the
/// pattern that it carries, and it never takes account of fewer entries than
/// before. Workers that are not busy have matched against the query that was
/// parsed last, have handed that over since it was parsed, and have taken account
/// of every entry that this tick counted. Where no more than one query was ever
/// parsed, every entry that matches then has its row. Entries come in through
/// handles to the matcher, and none goes.
///
/// That every entry that matches has its row is left unsaid once a second query
/// was parsed: one that continues another is matched against the rows of that
/// one only, and the workers can lose track of entries that are being added while
/// they start over.
#[verifier::external_body]
pub(crate) fn tick(engine: &mut Nucleo<Injected>, timeout: u64) -> (status: (bool, bool))
    ensures
        given_to(*final(engine)) == given_to(*old(engine)).ticked(timeout, status.1),
        !status.0 ==> snapshot_of(*final(engine)) == snapshot_of(*old(engine)),
        snapshot_of(*old(engine)).item_count <= snapshot_of(*final(engine)).item_count <= u32::MAX,
        snapshot_of(*final(engine)).is_best_first(),
        snapshot_of(*final(engine)).is_of_its_query(),
        counted_in(*old(engine)).is_prefix_of(counted_in(*final(engine))),
        forall|entry: AddedEntry| #[trigger]
            counted_in(*final(engine)).contains(entry) ==> was_added(entry, *final(engine)),
        snapshot_of(*final(engine)).is_made_of(counted_in(*final(engine))),
        !status.1 ==> snapshot_of(*final(engine)).item_count == counted_in(*final(engine)).len(),
        !status.1 && given_to(*old(engine)).parses <= 1 ==> snapshot_of(
            *final(engine),
        ).holds_every_match_of(counted_in(*final(engine))),
        !status.1 ==> snapshot_of(*final(engine)).query == given_to(*old(engine)).query,
        given_to(*old(engine)).pending && !status.1 ==> status.0,
        notified_by(*final(engine)) == notified_by(*old(engine)),
        forall|injector: Injector<Injected>| #[trigger]
            feeds(injector, *old(engine)) ==> feeds(injector, *final(engine)),
{
    let status = engine.tick(timeout);
    (status.changed, status.running)
}

/// `Snapshot::matched_item_count` is the number of rows.
#[verifier::external_body]
pub(crate) fn matched_count(engine: &Nucleo<Injected>) -> (count: u32)
    ensures
        count == snapshot_of(*engine).rows.len(),
{
    engine.snapshot().matched_item_count()
}

/// `Snapshot::item_count` is the number of entries that the snapshot takes
/// account of.
#[verifier::external_body]
pub(crate) fn scanned_count(engine: &Nucleo<Injected>) -> (count: u32)
    ensures
        count == snapshot_of(*engine).item_count,
{
    engine.snapshot().item_count()
}

/// `Snapshot::get_matched_item` gives the entry of a row, and nothing behind
/// the last row.
#[verifier::external_body]
pub(crate) fn matched_entry(engine: &Nucleo<Injected>, row: u32) -> (entry: Option<Injected>)
    ensures
        match entry {
            Some((id, full_path, walk_type, cacheable)) => {
                let rows = snapshot_of(*engine).rows;
                &&& row < rows.len()
                &&& id == rows[row as int].id
                &&& full_path@ == rows[row as int].full_path
                &&& walk_type == rows[row as int].walk_type
                &&& cacheable == rows[row as int].cacheable
            },
            None => row >= snapshot_of(*engine).rows.len(),
        },
{
    engine.snapshot().get_matched_item(row).map(|item| item.data.clone())
}

/// `MultiPattern::score` of the snapshot's pattern against the text that the
/// row's entry is matched by, which is the score that the row was sorted by.
#[verifier::external_body]
pub(crate) fn matched_score(engine: &Nucleo<Injected>, row: u32) -> (score: Option<u32>)
    requires
        row < snapshot_of(*engine).rows.len(),
    ensures
        score == Some(snapshot_of(*engine).rows[row as int].score),
        score == path_score(
            snapshot_of(*engine).query,
            snapshot_of(*engine).rows[row as int].relative_path,
        ),
{
    let item = engine.snapshot().get_matched_item(row)?;
    let mut matcher = Matcher::new(Config::DEFAULT.match_paths());
    engine.snapshot().pattern().score(item.matcher_columns, &mut matcher)
}

/// `Pattern::indices` of the snapshot's pattern against the text that the row's
/// entry is matched by: the places of the characters that matched, word by word,
/// unsorted and possibly repeated.
#[verifier::external_body]
pub(crate) fn matched_indices(engine: &Nucleo<Injected>, row: u32) -> (indices: Vec<u32>)
    requires
        row < snapshot_of(*engine).rows.len(),
    ensures
        indices@ == snapshot_of(*engine).rows[row as int].indices,
        indices@ == path_indices(
            snapshot_of(*engine).query,
            snapshot_of(*engine).rows[row as int].relative_path,
        ),
        are_places_in(indices@, snapshot_of(*engine).rows[row as int].relative_path),
{
    let mut indices = Vec::new();
    if let Some(item) = engine.snapshot().get_matched_item(row) {
        let mut matcher = Matcher::new(Config::DEFAULT.match_paths());
        let pattern = engine.snapshot().pattern().column_pattern(0);
        let _ = pattern.indices(item.matcher_columns[0].slice(..), &mut matcher, &mut indices);
    }
    indices
}

/// What was added to the matcher through a handle, in order.
pub uninterp spec fn added_through(injector: Injector<Injected>) -> Seq<AddedEntry>;

/// `Nucleo::injector` gives a handle that adds entries to this matcher, through
/// which nothing was added yet. What is added through it shows only in what
/// later ticks find.
#[verifier::external_body]
pub(crate) fn injector_of(engine: &Nucleo<Injected>) -> (injector: Injector<Injected>)
    ensures
        added_through(injector) == Seq::<AddedEntry>::empty(),
        feeds(injector, *engine),
{
    engine.injector()
}

/// `Injector::clone` gives another handle to the same matcher, through which
/// nothing was added yet.
#[verifier::external_body]
pub(crate) fn copy_of_injector(injector: &Injector<Injected>) -> (copy: Injector<Injected>)
    ensures
        added_through(copy) == Seq::<AddedEntry>::empty(),
        forall|engine: Nucleo<Injected>| #[trigger]
            feeds(*injector, engine) ==> feeds(copy, engine),
{
    injector.clone()
}

/// `Injector::push` adds an entry, to be matched by its path relative to its
/// search directory, and tells the listener that there is news. The matcher takes texts of up to `u32::MAX` characters,
/// and as many entries as a `u32` can number.
#[verifier::external_body]
pub(crate) fn inject(injector: &mut Injector<Injected>, entry: Injected, relative_path: &str)
    requires
        relative_path@.len() <= u32::MAX,
    ensures
        added_through(*final(injector)) == added_through(*old(injector)).push(
            AddedEntry {
                id: entry.0,
                full_path: entry.1@,
                walk_type: entry.2,
                cacheable: entry.3,
                relative_path: relative_path@,
            },
        ),
        forall|engine: Nucleo<Injected>| #[trigger]
            feeds(*old(injector), engine) ==> feeds(*final(injector), engine),
{
    injector.push(entry, |_, columns| columns[0] = Utf32String::from(relative_path));
}

/// How well a text matches a pattern of words, each of which is matched
/// fuzzily: `None` where it does not match.
pub uninterp spec fn pattern_score(pattern: Seq<char>, haystack: Seq<char>) -> Option<u32>;

/// `Pattern::new`, ignoring case, and `Pattern::score` with a matcher of the
/// default configuration. An empty pattern matches everything with score zero.
/// A word is scored in 16 bits: either it is short enough for its score to fit
/// against any text, or the text is too short for more.
#[verifier::external_body]
fn score_words(pattern: &str, haystack: &str) -> (score: Option<u32>)
    requires
        pattern@.len() <= MAX_QUERY_CHARS,
        haystack@.len() <= 0x3fff_ffff,
        query::words_fit(pattern@) || haystack@.len() <= MAX_WORD_CHARS,
    ensures
        score == pattern_score(pattern@, haystack@),
        pattern@.len() == 0 ==> score == Some(0u32),
{
    let mut buffer = Vec::new();
    let mut matcher = Matcher::new(Config::DEFAULT);
    Pattern::new(pattern, CaseMatching::Ignore, Normalization::Smart, AtomKind::Fuzzy).score(
        Utf32Str::new(haystack, &mut buffer),
        &mut matcher,
    )
}

/// How well `haystack` matches `pattern`, or `None` where it does not.
pub fn fuzzy_score(pattern: &str, haystack: &str) -> (score: Option<u32>)
    requires
        pattern@.len() <= MAX_QUERY_CHARS,
        haystack@.len() <= 0x3fff_ffff,
        query::words_fit(pattern@) || haystack@.len() <= MAX_WORD_CHARS,
    ensures
        score == pattern_score(pattern@, haystack@),
        pattern@.len() == 0 ==> score == Some(0u32),
{
    score_words(pattern, haystack)
}

/// A row is of the entry that it names, with all that was added of it.
pub proof fn law_row_names_its_entry(row: MatchedRow)
    ensures
        row.entry().id == row.id,
        row.entry().full_path == row.full_path,
        row.entry().walk_type == row.walk_type,
        row.entry().cacheable == row.cacheable,
        row.entry().relative_path == row.relative_path,
{
}

/// A row that is of its query has the score that the matcher gives its text for
/// it, and its indices are places in that text.
pub proof fn law_row_is_scored_by_its_text(row: MatchedRow, query: Seq<char>, index: int)
    requires
        row.matches(query),
    ensures
        path_score(query, row.relative_path) == Some(row.score),
        row.indices == path_indices(query, row.relative_path),
        0 <= index < row.indices.len() ==> row.indices[index] < row.relative_path.len(),
{
}

/// A snapshot that holds every match has as many rows of an entry as the entry
/// was added, where it matches, and none where it does not.
pub proof fn law_every_match_has_its_rows(
    snapshot: MatcherSnapshot,
    added: Seq<AddedEntry>,
    entry: AddedEntry,
)
    requires
        snapshot.holds_every_match_of(added),
    ensures
        snapshot.entries().len() == snapshot.rows.len(),
        path_score(snapshot.query, entry.relative_path) is Some
            ==> snapshot.entries().to_multiset().count(entry) == added.to_multiset().count(entry),
        path_score(snapshot.query, entry.relative_path) is None
            ==> snapshot.entries().to_multiset().count(entry) == 0,
{
    broadcast use vstd::multiset::group_multiset_axioms;

}

/// What the matcher is given is taken down: how many queries, the last of them
/// and whether it continues the one before, and every tick. A query stays
/// pending until a tick leaves the workers with nothing to do.
pub proof fn law_what_is_given_is_taken_down(
    given: Given,
    query: Seq<char>,
    continues: bool,
    timeout: u64,
    running: bool,
    threads: nat,
)
    ensures
        ({
            let parsed = given.parsed(query, continues);
            let ticked = given.ticked(timeout, running);
            let started = Given::started(threads);
            &&& parsed.parses == given.parses + 1
            &&& parsed.query == query
            &&& parsed.continues == continues
            &&& parsed.pending
            &&& parsed.ticks == given.ticks
            &&& parsed.threads == given.threads
            &&& ticked.parses == given.parses
            &&& ticked.query == given.query
            &&& ticked.continues == given.continues
            &&& ticked.pending <==> given.pending && running
            &&& ticked.ticks == given.ticks.push(timeout)
            &&& ticked.threads == given.threads
            &&& started.threads == threads
            &&& started.parses == 0 && !started.pending && !started.continues
            &&& started.query.len() == 0 && started.ticks.len() == 0
        }),
{
}

} // verus!
