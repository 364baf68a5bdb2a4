//! A measurement of how a session keeps up with bursts of query updates.
//!
//! Many small files are searched with a burst of queries, one every few
//! milliseconds. What is measured is how long the newest query waits for its
//! result. Points in time are nanoseconds since the measurement began.

use crate::metrics::usize_to_u64;
use crate::numbers;
use crate::paths;
use crate::paths::file_name_of;
use crate::results::{FileSearchOptions, FileSearchSnapshot, FileSearchSnapshotView, PositiveCount};
use crate::text;
use vstd::prelude::*;

verus! {

pub const FILE_COUNT: usize = 8192;

pub const UPDATE_COUNT: usize = 64;

pub const BURSTS_PER_SAMPLE: usize = 32;

/// The time between two queries of a burst, in nanoseconds.
pub const UPDATE_CADENCE: u128 = 2_000_000;

/// How long a result is waited for, in nanoseconds.
pub const CALLBACK_TIMEOUT: u128 = 30_000_000_000;

pub const WARMUP_QUERY: &'static str = "zz";

/// Why a measurement failed.
#[derive(Debug, Clone, Copy, PartialEq, Eq, Structural)]
pub enum BurstError {
    /// There is no query to make files for.
    NoFixtureQuery,
    /// There was no query in the burst.
    NoFinalQuery,
    /// A result did not come in time.
    TimedOut,
    /// Not all files were searched when the measurement was to begin.
    WarmupIncomplete { scanned: usize },
    /// Some updates were lost.
    Unresolved { resolved: usize },
}

impl BurstError {
    /// What is said of the failure.
    pub open spec fn text(self) -> Seq<char> {
        match self {
            BurstError::NoFixtureQuery => "fixture requires a final query"@,
            BurstError::NoFinalQuery => "burst had no final query"@,
            BurstError::TimedOut => "timed out waiting for the file-search session"@,
            BurstError::WarmupIncomplete { scanned } => "warmup scanned only "@ + text::decimal(
                scanned as nat,
            ) + " of "@ + text::decimal(FILE_COUNT as nat) + " fixture files"@,
            BurstError::Unresolved { resolved } => "resolved "@ + text::decimal(resolved as nat)
                + " of "@ + text::decimal((UPDATE_COUNT * BURSTS_PER_SAMPLE) as nat)
                + " query updates"@,
        }
    }

    /// What is said of the failure.
    pub fn message(&self) -> (message: String)
        ensures
            message@ == self.text(),
    {
        match self {
            BurstError::NoFixtureQuery => text::copy_of("fixture requires a final query"),
            BurstError::NoFinalQuery => text::copy_of("burst had no final query"),
            BurstError::TimedOut => text::copy_of("timed out waiting for the file-search session"),
            BurstError::WarmupIncomplete { scanned } => {
                let mut message = text::copy_of("warmup scanned only ");
                text::push_decimal(&mut message, *scanned as u64);
                text::push_str(&mut message, " of ");
                text::push_decimal(&mut message, FILE_COUNT as u64);
                text::push_str(&mut message, " fixture files");
                message
            },
            BurstError::Unresolved { resolved } => {
                let mut message = text::copy_of("resolved ");
                text::push_decimal(&mut message, *resolved as u64);
                text::push_str(&mut message, " of ");
                text::push_decimal(&mut message, (UPDATE_COUNT * BURSTS_PER_SAMPLE) as u64);
                text::push_str(&mut message, " query updates");
                message
            },
        }
    }
}

/// The options of the measured session.
pub fn burst_options() -> (options: Option<FileSearchOptions>)
    ensures
        options is Some,
        options->0.limit.count() == 20,
        options->0.exclude@ == Seq::<String>::empty(),
        options->0.threads.count() == 2,
        options->0.compute_indices,
        !options->0.respect_gitignore,
{
    match (PositiveCount::new(20), PositiveCount::new(2)) {
        (Some(limit), Some(threads)) => Some(
            FileSearchOptions {
                limit,
                exclude: Vec::new(),
                threads,
                compute_indices: true,
                respect_gitignore: false,
            },
        ),
        _ => None,
    }
}

/// The letter at this place of the alphabet.
pub open spec fn letter(place: int) -> char {
    (97 + place) as char
}

/// The query at this place of a burst: two letters out of eight.
pub open spec fn token(index: int) -> Seq<char> {
    seq![letter(index / 8), letter(index % 8)]
}

/// The queries of a burst.
pub fn query_tokens() -> (queries: Vec<String>)
    ensures
        queries@.len() == UPDATE_COUNT,
        forall|i: int| 0 <= i < UPDATE_COUNT ==> (#[trigger] queries@[i])@ == token(i),
{
    let mut queries: Vec<String> = Vec::new();
    for index in 0..UPDATE_COUNT
        invariant
            queries@.len() == index,
            forall|i: int| 0 <= i < index ==> (#[trigger] queries@[i])@ == token(i),
    {
        let first: u8 = (index / 8) as u8;
        let second: u8 = (index % 8) as u8;
        let mut query = String::new();
        query.push((97 + first) as char);
        query.push((97 + second) as char);
        assert(query@ =~= token(index as int));
        queries.push(query);
    }
    queries
}

/// No query occurs twice in a burst, and none is the query of the warm-up.
pub proof fn law_tokens_are_distinct(index: int, other: int)
    requires
        0 <= index < UPDATE_COUNT,
        0 <= other < UPDATE_COUNT,
    ensures
        token(index) == token(other) ==> index == other,
        token(index) != WARMUP_QUERY@,
{
    reveal_strlit("zz");
    if token(index) == token(other) {
        assert(token(index)[0] == token(other)[0]);
        assert(token(index)[1] == token(other)[1]);
        assert(letter(index / 8) == letter(other / 8));
        assert(letter(index % 8) == letter(other % 8));
    }
    assert(token(index)[0] != 'z');
    assert(WARMUP_QUERY@[0] == 'z');
}

/// The name of the file that is the best match for a query.
pub open spec fn priority_name(query: Seq<char>, index: nat) -> Seq<char> {
    query + "_priority_"@ + text::zero_padded(index, 4) + ".rs"@
}

/// The name of a file that matches every query.
pub open spec fn generic_name(markers: Seq<char>, index: nat) -> Seq<char> {
    "fixture_"@ + markers + "_"@ + text::zero_padded(index, 5) + ".rs"@
}

fn make_priority_name(query: &str, index: usize) -> (name: String)
    ensures
        name@ == priority_name(query@, index as nat),
{
    let mut name = text::copy_of(query);
    text::push_str(&mut name, "_priority_");
    text::push_zero_padded(&mut name, index as u64, 4);
    text::push_str(&mut name, ".rs");
    name
}

fn make_generic_name(markers: &str, index: usize) -> (name: String)
    ensures
        name@ == generic_name(markers@, index as nat),
{
    let mut name = text::copy_of("fixture_");
    text::push_str(&mut name, markers);
    text::push_str(&mut name, "_");
    text::push_zero_padded(&mut name, index as u64, 5);
    text::push_str(&mut name, ".rs");
    name
}

/// All texts, one behind the other.
pub open spec fn concatenated(texts: Seq<Seq<char>>) -> Seq<char>
    decreases texts.len(),
{
    if texts.len() == 0 {
        Seq::empty()
    } else {
        concatenated(texts.drop_last()) + texts.last()
    }
}

fn concatenate(texts: &Vec<String>) -> (whole: String)
    ensures
        whole@ == concatenated(text::texts(texts@)),
{
    let mut whole = String::new();
    let ghost all = text::texts(texts@);
    assert(all.take(0) =~= Seq::empty());
    for i in 0..texts.len()
        invariant
            all == text::texts(texts@),
            whole@ == concatenated(all.take(i as int)),
    {
        text::push_str(&mut whole, &texts[i]);
        assert(all.take(i + 1).drop_last() =~= all.take(i as int));
        assert(all.take(i + 1).last() == texts@[i as int]@);
    }
    assert(all.take(all.len() as int) =~= all);
    whole
}

/// The name of the file at this place: first one for each query, then files
/// that match all of them.
pub open spec fn file_name_at(queries: Seq<Seq<char>>, index: int) -> Seq<char> {
    if index < queries.len() {
        priority_name(queries[index], index as nat)
    } else {
        generic_name(concatenated(queries), index as nat)
    }
}

/// How many files there are.
pub open spec fn file_total(queries: Seq<Seq<char>>) -> int {
    if queries.len() < FILE_COUNT {
        FILE_COUNT as int
    } else {
        queries.len() as int
    }
}

/// The files to be searched, and the one that the last query is to find.
#[derive(Debug)]
pub struct Fixture {
    pub files: Vec<String>,
    pub final_result_file: String,
}

impl Fixture {
    /// Plans the files for the queries of a burst.
    pub fn create(queries: &Vec<String>) -> (fixture: Result<Self, BurstError>)
        ensures
            ({
                let texts = text::texts(queries@);
                match fixture {
                    Ok(fixture) => {
                        &&& texts.len() > 0
                        &&& fixture.files@.len() == file_total(texts)
                        &&& forall|i: int|
                            0 <= i < fixture.files@.len() ==> (#[trigger] fixture.files@[i])@
                                == file_name_at(texts, i)
                        &&& fixture.final_result_file@ == file_name_at(texts, texts.len() - 1)
                    },
                    Err(error) => texts.len() == 0 && error == BurstError::NoFixtureQuery,
                }
            }),
    {
        if queries.len() == 0 {
            return Err(BurstError::NoFixtureQuery);
        }
        let ghost texts = text::texts(queries@);
        let markers = concatenate(queries);
        let mut files: Vec<String> = Vec::new();
        for index in 0..queries.len()
            invariant
                texts == text::texts(queries@),
                files@.len() == index,
                forall|i: int|
                    0 <= i < index ==> (#[trigger] files@[i])@ == file_name_at(texts, i),
        {
            assert(texts[index as int] == queries@[index as int]@);
            files.push(make_priority_name(&queries[index], index));
        }
        let mut index: usize = queries.len();
        while index < FILE_COUNT
            invariant
                texts == text::texts(queries@),
                markers@ == concatenated(texts),
                queries@.len() <= index,
                index <= FILE_COUNT || index == queries@.len(),
                files@.len() == index,
                forall|i: int|
                    0 <= i < index ==> (#[trigger] files@[i])@ == file_name_at(texts, i),
            decreases FILE_COUNT - index,
        {
            files.push(make_generic_name(&markers, index));
            index += 1;
        }
        let last: usize = queries.len() - 1;
        assert(texts[last as int] == queries@[last as int]@);
        let final_result_file = make_priority_name(&queries[last], last);
        Ok(Fixture { files, final_result_file })
    }
}

/// The name of the directory that the files of a measurement stand in.
pub fn fixture_directory_name(process: u32, id: u64) -> (name: String)
    ensures
        name@ == ".file-search-query-burst-fixture-"@ + text::decimal(process as nat) + "-"@
            + text::decimal(id as nat),
{
    let mut name = text::copy_of(".file-search-query-burst-fixture-");
    text::push_decimal(&mut name, process as u64);
    text::push_str(&mut name, "-");
    text::push_decimal(&mut name, id);
    name
}

/// Whether the final component of some match's path is `expected_file`.
pub open spec fn contains_file(snapshot: FileSearchSnapshotView, expected_file: Seq<char>) -> bool {
    exists|i: int|
        0 <= i < snapshot.matches.len() && paths::file_name(
            (#[trigger] snapshot.matches[i]).path,
        ) == Some(expected_file)
}

/// Whether some match of the snapshot is the expected file.
pub fn snapshot_contains_file(snapshot: &FileSearchSnapshot, expected_file: &str) -> (contains: bool)
    ensures
        contains == contains_file(snapshot@, expected_file@),
{
    for i in 0..snapshot.matches.len()
        invariant
            forall|j: int|
                0 <= j < i ==> paths::file_name((#[trigger] snapshot@.matches[j]).path) != Some(
                    expected_file@,
                ),
    {
        assert(snapshot@.matches[i as int] == snapshot.matches@[i as int]@);
        match file_name_of(&snapshot.matches[i].path) {
            Some(name) => {
                if text::same_text(&name, expected_file) {
                    return true;
                }
            },
            None => {},
        }
    }
    false
}

/// A report that came in, with the number of the update that it answers.
#[derive(Debug)]
pub struct ObservedUpdate {
    pub update_id: u64,
    pub snapshot: FileSearchSnapshot,
    pub observed_at: u128,
}

/// What an [`ObservedUpdate`] holds.
pub struct ObservedUpdateView {
    pub update_id: u64,
    pub snapshot: FileSearchSnapshotView,
    pub observed_at: u128,
}

impl View for ObservedUpdate {
    type V = ObservedUpdateView;

    open spec fn view(&self) -> ObservedUpdateView {
        ObservedUpdateView {
            update_id: self.update_id,
            snapshot: self.snapshot@,
            observed_at: self.observed_at,
        }
    }
}

impl ObservedUpdateView {
    /// Whether the report answers the update that was sent with this query and
    /// came in no earlier.
    pub open spec fn answers(self, update_id: u64, query: Seq<char>, sent_at: u128) -> bool {
        &&& self.update_id == update_id
        &&& self.snapshot.query == query
        &&& self.observed_at >= sent_at
    }
}

/// What came in so far.
#[derive(Debug)]
pub struct BurstReporter {
    updates: Vec<ObservedUpdate>,
    completions: Vec<u128>,
    stale_snapshot_count: usize,
    same_text_stale_snapshot_count: usize,
}

/// What a [`BurstReporter`] holds.
pub struct BurstReporterView {
    pub updates: Seq<ObservedUpdateView>,
    pub completions: Seq<u128>,
    pub stale_snapshot_count: nat,
    pub same_text_stale_snapshot_count: nat,
}

/// What is counted over a measurement.
#[derive(Debug, Clone, Copy, PartialEq, Eq, Structural)]
pub struct ReporterOutcomes {
    pub completion_count: usize,
    pub stale_snapshot_count: usize,
    pub same_text_stale_snapshot_count: usize,
}

impl BurstReporterView {
    /// Nothing has come in.
    pub open spec fn empty() -> BurstReporterView {
        BurstReporterView {
            updates: Seq::empty(),
            completions: Seq::empty(),
            stale_snapshot_count: 0,
            same_text_stale_snapshot_count: 0,
        }
    }

    /// No more reports are counted as stale than came in, and of those no more
    /// as stale for a query of the same text.
    pub open spec fn is_valid(self) -> bool {
        self.same_text_stale_snapshot_count <= self.stale_snapshot_count <= self.updates.len()
    }

    /// A report came in while the update `latest_update_id` with the query
    /// `latest_query` was the newest: it is stale if it answers another one.
    pub open spec fn updated(
        self,
        update: ObservedUpdateView,
        latest_update_id: u64,
        latest_query: Seq<char>,
    ) -> BurstReporterView {
        let stale = update.update_id != latest_update_id;
        BurstReporterView {
            updates: self.updates.push(update),
            stale_snapshot_count: if stale {
                self.stale_snapshot_count + 1
            } else {
                self.stale_snapshot_count
            },
            same_text_stale_snapshot_count: if stale && update.snapshot.query == latest_query {
                self.same_text_stale_snapshot_count + 1
            } else {
                self.same_text_stale_snapshot_count
            },
            ..self
        }
    }

    /// Whether the report at this place is the first that answers the update.
    pub open spec fn is_first_answer(
        self,
        update_id: u64,
        query: Seq<char>,
        sent_at: u128,
        index: int,
    ) -> bool {
        &&& 0 <= index < self.updates.len()
        &&& self.updates[index].answers(update_id, query, sent_at)
        &&& forall|i: int|
            0 <= i < index ==> !(#[trigger] self.updates[i]).answers(update_id, query, sent_at)
    }

    /// Whether some report answers the update.
    pub open spec fn has_answer(self, update_id: u64, query: Seq<char>, sent_at: u128) -> bool {
        exists|i: int|
            0 <= i < self.updates.len() && (#[trigger] self.updates[i]).answers(
                update_id,
                query,
                sent_at,
            )
    }

    /// Whether the report at this place answers the update and shows the file.
    pub open spec fn shows(
        self,
        update_id: u64,
        query: Seq<char>,
        sent_at: u128,
        expected_file: Seq<char>,
        index: int,
    ) -> bool {
        &&& self.updates[index].answers(update_id, query, sent_at)
        &&& contains_file(self.updates[index].snapshot, expected_file)
    }

    /// Whether completion was reported no earlier than this.
    pub open spec fn completed_since(self, observed_at: u128) -> bool {
        exists|i: int|
            0 <= i < self.completions.len() && #[trigger] self.completions[i] >= observed_at
    }
}

impl View for BurstReporter {
    type V = BurstReporterView;

    closed spec fn view(&self) -> BurstReporterView {
        BurstReporterView {
            updates: Seq::new(self.updates@.len(), |i: int| self.updates@[i]@),
            completions: self.completions@,
            stale_snapshot_count: self.stale_snapshot_count as nat,
            same_text_stale_snapshot_count: self.same_text_stale_snapshot_count as nat,
        }
    }
}

impl BurstReporter {
    #[verifier::type_invariant]
    spec fn counts_add_up(self) -> bool {
        self.same_text_stale_snapshot_count <= self.stale_snapshot_count <= self.updates@.len()
    }

    /// A reporter that nothing has come in to.
    pub fn new() -> (reporter: Self)
        ensures
            reporter@ == BurstReporterView::empty(),
            reporter@.updates.len() == 0,
            reporter@.completions.len() == 0,
            reporter@.stale_snapshot_count == 0,
            reporter@.same_text_stale_snapshot_count == 0,
    {
        let reporter = BurstReporter {
            updates: Vec::new(),
            completions: Vec::new(),
            stale_snapshot_count: 0,
            same_text_stale_snapshot_count: 0,
        };
        assert(reporter@.updates =~= Seq::empty());
        reporter
    }

    /// Forgets what came in.
    pub fn reset(&mut self)
        ensures
            final(self)@ == BurstReporterView::empty(),
            final(self)@.updates.len() == 0,
            final(self)@.completions.len() == 0,
            final(self)@.stale_snapshot_count == 0,
            final(self)@.same_text_stale_snapshot_count == 0,
    {
        *self = BurstReporter::new();
    }

    /// How many reports came in.
    pub fn update_count(&self) -> (count: usize)
        ensures
            count == self@.updates.len(),
    {
        self.updates.len()
    }

    /// Takes a report in, by what the newest update was at the time.
    pub fn on_update(
        &mut self,
        update_id: u64,
        snapshot: &FileSearchSnapshot,
        observed_at: u128,
        latest_update_id: u64,
        latest_query: &str,
    )
        requires
            old(self)@.updates.len() < usize::MAX,
        ensures
            final(self)@ == old(self)@.updated(
                (ObservedUpdateView { update_id, snapshot: snapshot@, observed_at }),
                latest_update_id,
                latest_query@,
            ),
            final(self)@.is_valid(),
    {
        proof {
            use_type_invariant(&*self);
        }
        let ghost before = self@;
        let stale: bool = update_id != latest_update_id;
        let same_text: bool = text::same_text(&snapshot.query, latest_query);
        let update = ObservedUpdate { update_id, snapshot: snapshot.clone(), observed_at };
        let ghost added = update@;
        let mut reporter = BurstReporter::new();
        std::mem::swap(&mut reporter, self);
        let BurstReporter {
            mut updates,
            completions,
            mut stale_snapshot_count,
            mut same_text_stale_snapshot_count,
        } = reporter;
        if stale {
            stale_snapshot_count = stale_snapshot_count + 1;
        }
        if stale && same_text {
            same_text_stale_snapshot_count = same_text_stale_snapshot_count + 1;
        }
        updates.push(update);
        *self = BurstReporter {
            updates,
            completions,
            stale_snapshot_count,
            same_text_stale_snapshot_count,
        };
        assert(self@.updates =~= before.updates.push(added));
    }

    /// Takes in that the search was reported complete.
    pub fn on_complete(&mut self, observed_at: u128)
        ensures
            final(self)@ == (BurstReporterView {
                completions: old(self)@.completions.push(observed_at),
                ..old(self)@
            }),
    {
        proof {
            use_type_invariant(&*self);
        }
        let mut completions: Vec<u128> = Vec::new();
        std::mem::swap(&mut completions, &mut self.completions);
        completions.push(observed_at);
        self.completions = completions;
    }

    /// Whether the search has been reported complete at all.
    pub fn has_completed(&self) -> (completed: bool)
        ensures
            completed == (self@.completions.len() > 0),
    {
        self.completions.len() > 0
    }

    /// Whether the report at this place answers the update.
    fn answers_at(&self, index: usize, update_id: u64, query: &str, sent_at: u128) -> (answers: bool)
        requires
            index < self@.updates.len(),
        ensures
            answers == self@.updates[index as int].answers(update_id, query@, sent_at),
    {
        let update = &self.updates[index];
        update.update_id == update_id && text::same_text(&update.snapshot.query, query)
            && update.observed_at >= sent_at
    }

    /// The first report that answers the update: when it came in and how many
    /// files had been searched by then.
    pub fn find_update(&self, update_id: u64, query: &str, sent_at: u128) -> (found: Option<
        (u128, usize),
    >)
        ensures
            match found {
                Some((observed_at, scanned)) => exists|index: int| #[trigger]
                    self@.is_first_answer(update_id, query@, sent_at, index) && observed_at
                        == self@.updates[index].observed_at && scanned
                        == self@.updates[index].snapshot.scanned_file_count,
                None => !self@.has_answer(update_id, query@, sent_at),
            },
    {
        for i in 0..self.updates.len()
            invariant
                forall|j: int|
                    0 <= j < i ==> !(#[trigger] self@.updates[j]).answers(
                        update_id,
                        query@,
                        sent_at,
                    ),
        {
            if self.answers_at(i, update_id, query, sent_at) {
                assert(self@.is_first_answer(update_id, query@, sent_at, i as int));
                let update = &self.updates[i];
                return Some((update.observed_at, update.snapshot.scanned_file_count));
            }
        }
        None
    }

    /// When the first report came in that answers the update and shows the
    /// expected file.
    pub fn find_final_update(
        &self,
        update_id: u64,
        query: &str,
        sent_at: u128,
        expected_file: &str,
    ) -> (found: Option<u128>)
        ensures
            match found {
                Some(observed_at) => exists|index: int|
                    0 <= index < self@.updates.len() && #[trigger] self@.shows(
                        update_id,
                        query@,
                        sent_at,
                        expected_file@,
                        index,
                    ) && observed_at == self@.updates[index].observed_at && forall|i: int|
                        0 <= i < index ==> !#[trigger] self@.shows(
                            update_id,
                            query@,
                            sent_at,
                            expected_file@,
                            i,
                        ),
                None => forall|i: int|
                    0 <= i < self@.updates.len() ==> !#[trigger] self@.shows(
                        update_id,
                        query@,
                        sent_at,
                        expected_file@,
                        i,
                    ),
            },
    {
        for i in 0..self.updates.len()
            invariant
                forall|j: int|
                    0 <= j < i ==> !#[trigger] self@.shows(
                        update_id,
                        query@,
                        sent_at,
                        expected_file@,
                        j,
                    ),
        {
            if self.answers_at(i, update_id, query, sent_at) && snapshot_contains_file(
                &self.updates[i].snapshot,
                expected_file,
            ) {
                assert(self@.shows(update_id, query@, sent_at, expected_file@, i as int));
                return Some(self.updates[i].observed_at);
            }
        }
        None
    }

    /// Whether the search was reported complete no earlier than this.
    pub fn completed_since(&self, observed_at: u128) -> (completed: bool)
        ensures
            completed == self@.completed_since(observed_at),
    {
        for i in 0..self.completions.len()
            invariant
                forall|j: int| 0 <= j < i ==> #[trigger] self@.completions[j] < observed_at,
        {
            if self.completions[i] >= observed_at {
                assert(self@.completions[i as int] >= observed_at);
                return true;
            }
        }
        false
    }

    /// What was counted.
    pub fn outcomes(&self) -> (outcomes: ReporterOutcomes)
        ensures
            outcomes.completion_count == self@.completions.len(),
            outcomes.stale_snapshot_count == self@.stale_snapshot_count,
            outcomes.same_text_stale_snapshot_count == self@.same_text_stale_snapshot_count,
    {
        ReporterOutcomes {
            completion_count: self.completions.len(),
            stale_snapshot_count: self.stale_snapshot_count,
            same_text_stale_snapshot_count: self.same_text_stale_snapshot_count,
        }
    }
}

/// The time from `earlier` to `later`, or none where `later` is earlier.
pub open spec fn time_between(earlier: u128, later: u128) -> int {
    if later >= earlier {
        later - earlier
    } else {
        0
    }
}

/// How much longer may be waited until the deadline.
pub fn remaining_wait(now: u128, deadline: u128) -> (remaining: Result<u128, BurstError>)
    ensures
        match remaining {
            Ok(remaining) => remaining == time_between(now, deadline) && remaining > 0,
            Err(error) => error == BurstError::TimedOut && time_between(now, deadline) == 0,
        },
        remaining matches Ok(remaining) ==> now + remaining == deadline,
        remaining is Err <==> now >= deadline,
{
    if now >= deadline {
        Err(BurstError::TimedOut)
    } else {
        Ok(deadline - now)
    }
}

/// When the queries of a burst are sent: at a fixed cadence from the first one
/// on, and at once where that is late already.
#[derive(Debug)]
pub struct BurstPacing {
    pub next_send_at: u128,
}

impl BurstPacing {
    /// A burst that begins now.
    pub fn new(now: u128) -> (pacing: Self)
        ensures
            pacing.next_send_at == now,
    {
        BurstPacing { next_send_at: now }
    }

    /// How long to wait before the query at this place is sent.
    pub fn wait_before(&mut self, index: usize, now: u128) -> (wait: u128)
        requires
            index > 0 ==> old(self).next_send_at + UPDATE_CADENCE <= u128::MAX,
        ensures
            index == 0 ==> wait == 0 && final(self).next_send_at == old(self).next_send_at,
            index > 0 ==> final(self).next_send_at == old(self).next_send_at + UPDATE_CADENCE
                && wait == time_between(now, final(self).next_send_at),
            index > 0 ==> final(self).next_send_at == old(self).next_send_at + 2_000_000,
            index > 0 && now < final(self).next_send_at ==> now + wait
                == final(self).next_send_at,
            index > 0 && now >= final(self).next_send_at ==> wait == 0,
    {
        if index == 0 {
            return 0;
        }
        self.next_send_at = self.next_send_at + UPDATE_CADENCE;
        if now >= self.next_send_at {
            0
        } else {
            self.next_send_at - now
        }
    }
}

/// The place of the query whose result is waited for.
pub fn final_query_index(queries: &Vec<String>) -> (index: Result<usize, BurstError>)
    ensures
        match index {
            Ok(index) => index == queries@.len() - 1,
            Err(error) => error == BurstError::NoFinalQuery && queries@.len() == 0,
        },
{
    if queries.len() == 0 {
        Err(BurstError::NoFinalQuery)
    } else {
        Ok(queries.len() - 1)
    }
}

/// How long the newest query waited for its result, in nanoseconds.
pub fn callback_latency(sent_at: u128, observed_at: u128) -> (latency: u64)
    ensures
        latency == (if time_between(sent_at, observed_at) <= u64::MAX {
            time_between(sent_at, observed_at)
        } else {
            u64::MAX as int
        }),
        observed_at <= sent_at ==> latency == 0,
        sent_at <= observed_at && latency < u64::MAX ==> sent_at + latency == observed_at,
        latency == u64::MAX ==> sent_at + u64::MAX <= observed_at,
{
    if observed_at <= sent_at {
        return 0;
    }
    let between: u128 = observed_at - sent_at;
    if between <= 0xffff_ffff_ffff_ffff {
        between as u64
    } else {
        0xffff_ffff_ffff_ffff
    }
}

/// Whether all files were searched when the measurement was to begin.
pub fn check_warmup(scanned: usize) -> (checked: Result<(), BurstError>)
    ensures
        checked == (if scanned < FILE_COUNT {
            Err(BurstError::WarmupIncomplete { scanned })
        } else {
            Ok::<(), BurstError>(())
        }),
        checked is Ok <==> scanned >= 8192,
{
    if scanned < FILE_COUNT {
        Err(BurstError::WarmupIncomplete { scanned })
    } else {
        Ok(())
    }
}

/// Whether every update of the measurement was resolved.
pub fn check_resolved(resolved: usize) -> (checked: Result<(), BurstError>)
    ensures
        checked == (if resolved != UPDATE_COUNT * BURSTS_PER_SAMPLE {
            Err(BurstError::Unresolved { resolved })
        } else {
            Ok::<(), BurstError>(())
        }),
        checked is Ok <==> resolved == 2048,
{
    if resolved != UPDATE_COUNT * BURSTS_PER_SAMPLE {
        Err(BurstError::Unresolved { resolved })
    } else {
        Ok(())
    }
}

/// The sum of the latencies.
pub open spec fn total_latency(latencies: Seq<u64>) -> int
    decreases latencies.len(),
{
    if latencies.len() == 0 {
        0
    } else {
        total_latency(latencies.drop_last()) + latencies.last()
    }
}

/// The average latency over the bursts of a measurement.
pub fn average_latency(latencies: &Vec<u64>) -> (average: u64)
    requires
        latencies@.len() == BURSTS_PER_SAMPLE,
    ensures
        average == total_latency(latencies@) / BURSTS_PER_SAMPLE as int,
{
    let mut total: u128 = 0;
    assert(latencies@.take(0) =~= Seq::empty());
    for i in 0..latencies.len()
        invariant
            latencies@.len() == BURSTS_PER_SAMPLE,
            total == total_latency(latencies@.take(i as int)),
            total <= i * 0xffff_ffff_ffff_ffff,
    {
        assert(latencies@.take(i + 1).drop_last() =~= latencies@.take(i as int));
        total = total + latencies[i] as u128;
    }
    assert(latencies@.take(latencies@.len() as int) =~= latencies@);
    (total / 32) as u64
}

/// What the queue of a measured session reports.
#[derive(Debug, Clone, Copy, PartialEq, Eq, Structural)]
pub struct QueueStats {
    pub peak_depth: usize,
    pub p99_age_ns: u64,
    pub resolved_query_count: usize,
}

/// A measurement under its name.
#[derive(Debug)]
pub struct Metric {
    pub name: String,
    pub value: u64,
}

/// What a [`Metric`] holds.
pub open spec fn metric_views(metrics: Seq<Metric>) -> Seq<(Seq<char>, u64)> {
    Seq::new(metrics.len(), |i: int| (metrics[i].name@, metrics[i].value))
}

fn metric(name: &str, value: u64) -> (metric: Metric)
    ensures
        metric.name@ == name@,
        metric.value == value,
{
    Metric { name: text::copy_of(name), value }
}

/// What a measurement that went well reports, in order.
pub fn burst_metrics(latency: u64, queue: QueueStats, outcomes: ReporterOutcomes) -> (metrics: Vec<
    Metric,
>)
    ensures
        metric_views(metrics@) == seq![
            ("newest_query_callback_latency_ns"@, latency),
            ("query_signal_peak_depth"@, queue.peak_depth as u64),
            ("query_signal_queue_age_p99_ns"@, queue.p99_age_ns),
            ("query_signal_resolved_count"@, queue.resolved_query_count as u64),
            ("session_completion_count"@, outcomes.completion_count as u64),
            ("stale_snapshot_count"@, outcomes.stale_snapshot_count as u64),
            ("same_text_stale_snapshot_count"@, outcomes.same_text_stale_snapshot_count as u64),
            ("final_callback_verified"@, 1u64),
        ],
{
    let mut metrics: Vec<Metric> = Vec::new();
    metrics.push(metric("newest_query_callback_latency_ns", latency));
    metrics.push(metric("query_signal_peak_depth", usize_to_u64(queue.peak_depth)));
    metrics.push(metric("query_signal_queue_age_p99_ns", queue.p99_age_ns));
    metrics.push(metric("query_signal_resolved_count", usize_to_u64(queue.resolved_query_count)));
    metrics.push(metric("session_completion_count", usize_to_u64(outcomes.completion_count)));
    metrics.push(metric("stale_snapshot_count", usize_to_u64(outcomes.stale_snapshot_count)));
    metrics.push(
        metric(
            "same_text_stale_snapshot_count",
            usize_to_u64(outcomes.same_text_stale_snapshot_count),
        ),
    );
    metrics.push(metric("final_callback_verified", 1));
    assert(metric_views(metrics@) =~= seq![
        ("newest_query_callback_latency_ns"@, latency),
        ("query_signal_peak_depth"@, queue.peak_depth as u64),
        ("query_signal_queue_age_p99_ns"@, queue.p99_age_ns),
        ("query_signal_resolved_count"@, queue.resolved_query_count as u64),
        ("session_completion_count"@, outcomes.completion_count as u64),
        ("stale_snapshot_count"@, outcomes.stale_snapshot_count as u64),
        ("same_text_stale_snapshot_count"@, outcomes.same_text_stale_snapshot_count as u64),
        ("final_callback_verified"@, 1u64),
    ]);
    metrics
}

/// A query of a burst is two letters from `a` to `h`, which tell its place.
pub proof fn law_letters_tell_the_place(index: int)
    requires
        0 <= index < UPDATE_COUNT,
    ensures
        token(index).len() == 2,
        'a' <= token(index)[0] <= 'h',
        'a' <= token(index)[1] <= 'h',
        index == 8 * (token(index)[0] as int - 'a' as int) + (token(index)[1] as int - 'a' as int),
        UPDATE_COUNT == 64,
{
}

/// The file that a query is to find begins with the query and tells its place.
/// Its name is that of a source file.
pub proof fn law_priority_name_tells_query_and_place(query: Seq<char>, index: nat)
    ensures
        ({
            let name = priority_name(query, index);
            let start = query.len() as int + 10;
            &&& name.len() >= query.len() + 17
            &&& name.take(query.len() as int) == query
            &&& name.subrange(query.len() as int, start) == "_priority_"@
            &&& numbers::number_of(name.subrange(start, name.len() - 3)) == index
            &&& name.skip(name.len() - 3) == ".rs"@
        }),
{
    reveal_strlit("_priority_");
    reveal_strlit(".rs");
    let name = priority_name(query, index);
    let start = query.len() as int + 10;
    numbers::law_padding_is_read_over(index, 4);
    text::law_padding_is_zeros_in_front(index, 4);
    assert(name.take(query.len() as int) =~= query);
    assert(name.subrange(query.len() as int, start) =~= "_priority_"@);
    assert(name.subrange(start, name.len() - 3) =~= text::zero_padded(index, 4));
    assert(name.skip(name.len() - 3) =~= ".rs"@);
}

/// A file that matches every query holds all their texts and tells its place.
pub proof fn law_generic_name_tells_markers_and_place(markers: Seq<char>, index: nat)
    ensures
        ({
            let name = generic_name(markers, index);
            let end = 8 + markers.len() as int;
            &&& name.len() >= markers.len() + 17
            &&& name.take(8) == "fixture_"@
            &&& name.subrange(8, end) == markers
            &&& name[end] == '_'
            &&& numbers::number_of(name.subrange(end + 1, name.len() - 3)) == index
            &&& name.skip(name.len() - 3) == ".rs"@
        }),
{
    reveal_strlit("fixture_");
    reveal_strlit("_");
    reveal_strlit(".rs");
    let name = generic_name(markers, index);
    let end = 8 + markers.len() as int;
    numbers::law_padding_is_read_over(index, 5);
    text::law_padding_is_zeros_in_front(index, 5);
    assert(name.take(8) =~= "fixture_"@);
    assert(name.subrange(8, end) =~= markers);
    assert(name.subrange(end + 1, name.len() - 3) =~= text::zero_padded(index, 5));
    assert(name.skip(name.len() - 3) =~= ".rs"@);
}

/// Texts are put one behind the other, each as it stands.
pub proof fn law_texts_are_put_in_order(texts: Seq<Seq<char>>, more: Seq<char>)
    ensures
        concatenated(texts.push(more)) == concatenated(texts) + more,
        concatenated(Seq::empty()) == Seq::<char>::empty(),
{
    assert(texts.push(more).drop_last() =~= texts);
}

/// Every query occurs in the name of every file that is to match all of them.
pub proof fn law_generic_files_match_every_query(queries: Seq<Seq<char>>, query: int, index: int)
    requires
        0 <= query < queries.len(),
        queries.len() <= index,
    ensures
        text::occurs(file_name_at(queries, index), queries[query]),
{
    let markers = concatenated(queries);
    lemma_text_is_put_somewhere(queries, query);
    let place = choose|place: int| text::occurs_at(markers, queries[query], place);
    let name = file_name_at(queries, index);
    law_generic_name_tells_markers_and_place(markers, index as nat);
    let start = place + 8;
    let end = start + queries[query].len();
    assert(name.subrange(start, end) =~= queries[query]) by {
        assert forall|i: int| 0 <= i < queries[query].len() implies name.subrange(start, end)[i]
            == queries[query][i] by {
            assert(name.subrange(8, 8 + markers.len() as int)[place + i] == name[start + i]);
            assert(markers.subrange(place, place + queries[query].len())[i] == markers[place + i]);
        }
    }
    assert(text::occurs_at(name, queries[query], start));
}

proof fn lemma_text_is_put_somewhere(texts: Seq<Seq<char>>, index: int)
    requires
        0 <= index < texts.len(),
    ensures
        text::occurs(concatenated(texts), texts[index]),
    decreases texts.len(),
{
    let whole = concatenated(texts);
    let fewer = texts.drop_last();
    let before = concatenated(fewer);
    let part = texts[index];
    if index == texts.len() - 1 {
        assert(whole.subrange(before.len() as int, whole.len() as int) =~= part);
        assert(text::occurs_at(whole, part, before.len() as int));
    } else {
        lemma_text_is_put_somewhere(fewer, index);
        let place = choose|place: int| text::occurs_at(before, part, place);
        assert(whole.subrange(place, place + part.len()) =~= before.subrange(
            place,
            place + part.len(),
        ));
        assert(text::occurs_at(whole, part, place));
    }
}

/// There is a file for each query, named by it, and files that match all of them
/// fill up the rest: eight thousand one hundred and ninety-two files, unless
/// there are more queries.
pub proof fn law_each_query_has_its_file(queries: Seq<Seq<char>>, index: int)
    requires
        0 <= index < file_total(queries),
    ensures
        file_total(queries) >= 8192,
        file_total(queries) >= queries.len(),
        file_total(queries) == 8192 || file_total(queries) == queries.len(),
        index < queries.len() ==> queries[index].is_prefix_of(file_name_at(queries, index))
            && file_name_at(queries, index) == priority_name(queries[index], index as nat),
        index >= queries.len() ==> file_name_at(queries, index) == generic_name(
            concatenated(queries),
            index as nat,
        ),
{
    if index < queries.len() {
        let query = queries[index];
        let name = file_name_at(queries, index);
        assert(query =~= name.subrange(0, query.len() as int));
    }
}

/// A snapshot shows a file exactly where the last component of a match's path is
/// its name.
pub proof fn law_snapshot_shows_files_by_name(
    snapshot: FileSearchSnapshotView,
    expected_file: Seq<char>,
    index: int,
)
    ensures
        0 <= index < snapshot.matches.len() && paths::file_name(snapshot.matches[index].path)
            == Some(expected_file) ==> contains_file(snapshot, expected_file),
        contains_file(snapshot, expected_file) ==> exists|i: int|
            0 <= i < snapshot.matches.len() && paths::components(
                (#[trigger] snapshot.matches[i]).path,
            ).len() > 0 && paths::components(snapshot.matches[i].path).last() == expected_file,
{
    if contains_file(snapshot, expected_file) {
        let i = choose|i: int|
            0 <= i < snapshot.matches.len() && paths::file_name(
                (#[trigger] snapshot.matches[i]).path,
            ) == Some(expected_file);
        paths::law_name_is_the_last_component(snapshot.matches[i].path, expected_file);
    }
}

/// A report answers an update by its number and its query, and not before the
/// update was sent.
pub proof fn law_answer_comes_after_the_update(
    update: ObservedUpdateView,
    update_id: u64,
    query: Seq<char>,
    sent_at: u128,
    earlier: u128,
)
    ensures
        update.answers(update_id, query, sent_at) ==> update.update_id == update_id
            && update.snapshot.query == query && sent_at <= update.observed_at,
        update.answers(update.update_id, update.snapshot.query, update.observed_at),
        earlier <= sent_at && update.answers(update_id, query, sent_at) ==> update.answers(
            update_id,
            query,
            earlier,
        ),
{
}

/// A report is seen as it came in.
pub proof fn law_report_is_seen_as_it_came(update: ObservedUpdate)
    ensures
        update@.update_id == update.update_id,
        update@.snapshot == update.snapshot@,
        update@.observed_at == update.observed_at,
{
}

/// A report that comes in stands behind the others, whatever it holds. It counts
/// as stale where it answers another update than the newest, and once more where
/// it does so by the same text.
pub proof fn law_stale_reports_are_counted(
    reporter: BurstReporterView,
    update: ObservedUpdateView,
    latest_update_id: u64,
    latest_query: Seq<char>,
)
    ensures
        ({
            let after = reporter.updated(update, latest_update_id, latest_query);
            let stale = update.update_id != latest_update_id;
            &&& after.updates == reporter.updates.push(update)
            &&& after.completions == reporter.completions
            &&& after.stale_snapshot_count == reporter.stale_snapshot_count + (if stale {
                1int
            } else {
                0
            })
            &&& after.same_text_stale_snapshot_count == reporter.same_text_stale_snapshot_count + (
            if stale && update.snapshot.query == latest_query {
                1int
            } else {
                0
            })
            &&& reporter.is_valid() ==> after.is_valid()
        }),
{
}

/// There is an answer exactly where one of the reports is one, and then exactly
/// one of them is the first.
pub proof fn law_first_answer_is_the_earliest(
    reporter: BurstReporterView,
    update_id: u64,
    query: Seq<char>,
    sent_at: u128,
    first: int,
    other: int,
)
    requires
        reporter.is_first_answer(update_id, query, sent_at, first),
        0 <= other < reporter.updates.len(),
        reporter.updates[other].answers(update_id, query, sent_at),
    ensures
        first <= other,
        reporter.updates[first].answers(update_id, query, sent_at),
        reporter.has_answer(update_id, query, sent_at),
{
}

/// Where one of the reports answers an update, one of them is the first that
/// does; where none does, there is no answer.
pub proof fn law_some_answer_is_the_first(
    reporter: BurstReporterView,
    update_id: u64,
    query: Seq<char>,
    sent_at: u128,
    count: int,
)
    requires
        0 <= count <= reporter.updates.len(),
    ensures
        (exists|i: int|
            0 <= i < count && (#[trigger] reporter.updates[i]).answers(update_id, query, sent_at))
            ==> exists|first: int|
            first < count && #[trigger] reporter.is_first_answer(update_id, query, sent_at, first),
        (forall|i: int|
            0 <= i < reporter.updates.len() ==> !(#[trigger] reporter.updates[i]).answers(
                update_id,
                query,
                sent_at,
            )) ==> !reporter.has_answer(update_id, query, sent_at),
    decreases count,
{
    if count > 0 {
        law_some_answer_is_the_first(reporter, update_id, query, sent_at, count - 1);
        if exists|i: int|
            0 <= i < count && (#[trigger] reporter.updates[i]).answers(update_id, query, sent_at) {
            let i = choose|i: int|
                0 <= i < count && (#[trigger] reporter.updates[i]).answers(
                    update_id,
                    query,
                    sent_at,
                );
            if forall|j: int|
                0 <= j < count - 1 ==> !(#[trigger] reporter.updates[j]).answers(
                    update_id,
                    query,
                    sent_at,
                ) {
                assert(reporter.is_first_answer(update_id, query, sent_at, i));
            }
        }
    }
}

/// A report shows the file that an update is to find where it answers the update
/// and one of its matches is that file.
pub proof fn law_final_report_answers_and_shows(
    reporter: BurstReporterView,
    update_id: u64,
    query: Seq<char>,
    sent_at: u128,
    expected_file: Seq<char>,
    index: int,
)
    ensures
        reporter.shows(update_id, query, sent_at, expected_file, index)
            <==> reporter.updates[index].update_id == update_id
            && reporter.updates[index].snapshot.query == query && sent_at
            <= reporter.updates[index].observed_at && contains_file(
            reporter.updates[index].snapshot,
            expected_file,
        ),
{
}

/// Completion since some time is completion at that time or later, and what was
/// complete since a time was so since every earlier one.
pub proof fn law_completion_stays(
    reporter: BurstReporterView,
    observed_at: u128,
    earlier: u128,
    index: int,
)
    ensures
        0 <= index < reporter.completions.len() && reporter.completions[index] >= observed_at
            ==> reporter.completed_since(observed_at),
        (forall|i: int|
            0 <= i < reporter.completions.len() ==> #[trigger] reporter.completions[i]
                < observed_at) ==> !reporter.completed_since(observed_at),
        earlier <= observed_at && reporter.completed_since(observed_at)
            ==> reporter.completed_since(earlier),
{
    if reporter.completed_since(observed_at) {
        let i = choose|i: int|
            0 <= i < reporter.completions.len() && #[trigger] reporter.completions[i]
                >= observed_at;
        if earlier <= observed_at {
            assert(reporter.completions[i] >= earlier);
        }
    }
}

/// The time between two points, put behind the earlier one, leads to the later
/// one. There is none back.
pub proof fn law_time_leads_to_the_later_point(earlier: u128, later: u128)
    ensures
        earlier <= later ==> earlier + time_between(earlier, later) == later,
        earlier >= later ==> time_between(earlier, later) == 0,
{
}

/// One latency more adds itself to the sum, and of several each counts once,
/// whatever their order.
pub proof fn law_latencies_add_up(latencies: Seq<u64>, more: Seq<u64>, latency: u64)
    ensures
        total_latency(latencies.push(latency)) == total_latency(latencies) + latency,
        total_latency(latencies + more) == total_latency(latencies) + total_latency(more),
        total_latency(latencies + more) == total_latency(more + latencies),
        total_latency(Seq::empty()) == 0,
{
    assert(latencies.push(latency).drop_last() =~= latencies);
    lemma_latencies_behind(latencies, more);
    lemma_latencies_behind(more, latencies);
}

proof fn lemma_latencies_behind(latencies: Seq<u64>, more: Seq<u64>)
    ensures
        total_latency(latencies + more) == total_latency(latencies) + total_latency(more),
    decreases more.len(),
{
    if more.len() == 0 {
        assert(latencies + more =~= latencies);
    } else {
        lemma_latencies_behind(latencies, more.drop_last());
        assert((latencies + more).drop_last() =~= latencies + more.drop_last());
    }
}

/// The average of equal latencies is that latency.
pub proof fn law_average_of_equal_latencies(latencies: Seq<u64>, latency: u64)
    requires
        forall|i: int| 0 <= i < latencies.len() ==> #[trigger] latencies[i] == latency,
    ensures
        total_latency(latencies) == latencies.len() * latency,
        latencies.len() == BURSTS_PER_SAMPLE ==> total_latency(latencies) / BURSTS_PER_SAMPLE as int
            == latency,
        BURSTS_PER_SAMPLE == 32,
    decreases latencies.len(),
{
    if latencies.len() > 0 {
        let fewer = latencies.drop_last();
        assert forall|i: int| 0 <= i < fewer.len() implies #[trigger] fewer[i] == latency by {
            assert(fewer[i] == latencies[i]);
        }
        law_average_of_equal_latencies(fewer, latency);
        assert(latencies[latencies.len() - 1] == latency);
        assert((latencies.len() - 1) * latency + latency == latencies.len() * latency)
            by (nonlinear_arith);
        if latencies.len() == BURSTS_PER_SAMPLE {
            let total = latencies.len() * latency;
            assert(total == 32 * latency) by (nonlinear_arith)
                requires
                    total == latencies.len() * latency,
                    latencies.len() == 32,
            ;
        }
    }
}

/// Measurements are shown by name and value, each in its place.
pub proof fn law_metrics_keep_their_places(metrics: Seq<Metric>, place: int)
    requires
        0 <= place < metrics.len(),
    ensures
        metric_views(metrics).len() == metrics.len(),
        metric_views(metrics)[place].0 == metrics[place].name@,
        metric_views(metrics)[place].1 == metrics[place].value,
{
}

/// A failure that has a number tells it, behind what it begins with and in front
/// of what was expected.
pub proof fn law_failure_tells_its_number(scanned: usize)
    ensures
        ({
            let said = BurstError::WarmupIncomplete { scanned }.text();
            let digits = text::decimal(scanned as nat);
            &&& said.take(20) == "warmup scanned only "@
            &&& said.subrange(20, 20 + digits.len() as int) == digits
            &&& said.skip(20 + digits.len() as int) == " of "@ + text::decimal(8192)
                + " fixture files"@
        }),
        ({
            let said = BurstError::Unresolved { resolved: scanned }.text();
            let digits = text::decimal(scanned as nat);
            &&& said.take(9) == "resolved "@
            &&& said.subrange(9, 9 + digits.len() as int) == digits
            &&& said.skip(9 + digits.len() as int) == " of "@ + text::decimal(2048)
                + " query updates"@
        }),
{
    reveal_strlit("warmup scanned only ");
    reveal_strlit("resolved ");
    let digits = text::decimal(scanned as nat);
    let warmup = BurstError::WarmupIncomplete { scanned }.text();
    let unresolved = BurstError::Unresolved { resolved: scanned }.text();
    assert(warmup.take(20) =~= "warmup scanned only "@);
    assert(warmup.subrange(20, 20 + digits.len() as int) =~= digits);
    assert(warmup.skip(20 + digits.len() as int) =~= " of "@ + text::decimal(8192)
        + " fixture files"@);
    assert(unresolved.take(9) =~= "resolved "@);
    assert(unresolved.subrange(9, 9 + digits.len() as int) =~= digits);
    assert(unresolved.skip(9 + digits.len() as int) =~= " of "@ + text::decimal(2048)
        + " query updates"@);
}

} // verus!
