//! Whether a matched entry is a file or a directory, and how long an answer
//! may be reused.
//!
//! An entry is classified by asking the file system. The answer is kept with
//! the entry and reused only while every directory above it is watched and no
//! watch has reported a change.

use crate::paths;
use crate::results::MatchType;
use crate::text;
use vstd::prelude::*;

verus! {

pub const UNKNOWN_MATCH_TYPE: u8 = 0;

pub const FILE_MATCH_TYPE: u8 = 1;

pub const DIRECTORY_MATCH_TYPE: u8 = 2;

/// The number that stands for a match type.
pub open spec fn encoded(match_type: MatchType) -> u8 {
    match match_type {
        MatchType::File => FILE_MATCH_TYPE,
        MatchType::Directory => DIRECTORY_MATCH_TYPE,
    }
}

/// The match type that a number stands for.
pub open spec fn decoded(encoded: u8) -> Option<MatchType> {
    if encoded == FILE_MATCH_TYPE {
        Some(MatchType::File)
    } else if encoded == DIRECTORY_MATCH_TYPE {
        Some(MatchType::Directory)
    } else {
        None
    }
}

pub fn encode_match_type(match_type: MatchType) -> (number: u8)
    ensures
        number == encoded(match_type),
{
    match match_type {
        MatchType::File => FILE_MATCH_TYPE,
        MatchType::Directory => DIRECTORY_MATCH_TYPE,
    }
}

pub fn decode_match_type(encoded: u8) -> (match_type: Option<MatchType>)
    ensures
        match_type == decoded(encoded),
{
    if encoded == FILE_MATCH_TYPE {
        Some(MatchType::File)
    } else if encoded == DIRECTORY_MATCH_TYPE {
        Some(MatchType::Directory)
    } else {
        None
    }
}

/// Decoding undoes encoding, and the number for an unknown type stands for
/// none.
pub proof fn law_decode_undoes_encode(match_type: MatchType)
    ensures
        decoded(encoded(match_type)) == Some(match_type),
        decoded(UNKNOWN_MATCH_TYPE) is None,
{
}

/// An entry that the walk found, with the last answer to what it is.
#[derive(Debug)]
pub struct SearchItem {
    pub full_path: String,
    pub cached_match_type: u8,
    /// The walk-time type is not usable until a snapshot has classified this
    /// item after its parent directory became watched.
    pub cache_is_current: bool,
    pub cacheable_match_type: bool,
}

/// What a [`SearchItem`] holds.
pub struct SearchItemView {
    pub full_path: Seq<char>,
    pub cached_match_type: u8,
    pub cache_is_current: bool,
    pub cacheable_match_type: bool,
}

impl View for SearchItem {
    type V = SearchItemView;

    open spec fn view(&self) -> SearchItemView {
        SearchItemView {
            full_path: self.full_path@,
            cached_match_type: self.cached_match_type,
            cache_is_current: self.cache_is_current,
            cacheable_match_type: self.cacheable_match_type,
        }
    }
}

impl SearchItemView {
    /// An entry as the walk found it.
    pub open spec fn found(
        full_path: Seq<char>,
        match_type: Option<MatchType>,
        cacheable_match_type: bool,
    ) -> SearchItemView {
        SearchItemView {
            full_path,
            cached_match_type: match match_type {
                Some(match_type) => encoded(match_type),
                None => UNKNOWN_MATCH_TYPE,
            },
            cache_is_current: false,
            cacheable_match_type,
        }
    }

    /// The kept answer, where it may be used.
    pub open spec fn usable_type(self) -> Option<MatchType> {
        if self.cacheable_match_type && self.cache_is_current {
            decoded(self.cached_match_type)
        } else {
            None
        }
    }

    /// The entry after it was classified as `match_type`.
    pub open spec fn classified(self, match_type: MatchType) -> SearchItemView {
        if self.cacheable_match_type {
            SearchItemView {
                cached_match_type: encoded(match_type),
                cache_is_current: true,
                ..self
            }
        } else {
            self
        }
    }
}

impl SearchItem {
    /// An entry as the walk found it.
    pub fn new(
        full_path: String,
        match_type: Option<MatchType>,
        cacheable_match_type: bool,
    ) -> (item: Self)
        ensures
            item@ == SearchItemView::found(full_path@, match_type, cacheable_match_type),
    {
        let cached_match_type: u8 = match match_type {
            Some(match_type) => encode_match_type(match_type),
            None => UNKNOWN_MATCH_TYPE,
        };
        SearchItem {
            full_path,
            cached_match_type,
            cache_is_current: false,
            cacheable_match_type,
        }
    }

    /// The kept answer, where it may be used.
    pub fn cached_match_type(&self) -> (match_type: Option<MatchType>)
        ensures
            match_type == self@.usable_type(),
    {
        if self.cacheable_match_type && self.cache_is_current {
            decode_match_type(self.cached_match_type)
        } else {
            None
        }
    }

    /// Keeps the answer, unless this entry's type must not be kept.
    pub fn update_cached_match_type(&mut self, match_type: MatchType)
        ensures
            final(self)@ == old(self)@.classified(match_type),
    {
        if self.cacheable_match_type {
            self.cached_match_type = encode_match_type(match_type);
            self.cache_is_current = true;
        }
    }
}

/// The type that the walk reported is never used by itself: a fresh entry has
/// no usable answer.
pub proof fn law_walk_time_type_is_not_used(
    full_path: Seq<char>,
    match_type: Option<MatchType>,
    cacheable_match_type: bool,
)
    ensures
        SearchItemView::found(full_path, match_type, cacheable_match_type).usable_type() is None,
{
}

/// Once classified, an entry gives back the answer where it may be kept, and
/// none where it may not.
pub proof fn law_classification_is_given_back(item: SearchItemView, match_type: MatchType)
    ensures
        item.classified(match_type).usable_type() == (if item.cacheable_match_type {
            Some(match_type)
        } else {
            None
        }),
        item.classified(match_type).full_path == item.full_path,
        item.classified(match_type).cacheable_match_type == item.cacheable_match_type,
{
    law_decode_undoes_encode(match_type);
}

/// How many directories one session watches at most.
pub const MAX_MATCH_TYPE_WATCHES: usize = 1024;

/// Which directories are watched, and whether anything has changed since.
///
/// A tracker that is dirty stays so: answers are no longer reused.
pub struct MatchTypeTracker {
    watched_directories: Vec<Vec<String>>,
    dirty: bool,
}

/// What a [`MatchTypeTracker`] knows. A directory stands in it as the sequence
/// of its path's components.
pub struct TrackerView {
    pub watched: Seq<Seq<Seq<char>>>,
    pub dirty: bool,
}

impl TrackerView {
    /// Whether the directory is watched.
    pub open spec fn is_watched(self, directory: Seq<char>) -> bool {
        self.watched.contains(paths::components(directory))
    }

    /// Whether the directory can and must still be watched.
    pub open spec fn wants_watch(self, directory: Seq<char>) -> bool {
        &&& !self.dirty
        &&& !self.is_watched(directory)
        &&& self.watched.len() < MAX_MATCH_TYPE_WATCHES
        &&& !directory.contains('\0')
    }

    /// The tracker after an attempt to watch `directory`, which ended in
    /// `added` where it came to that.
    pub open spec fn after_watch(self, directory: Seq<char>, added: bool) -> TrackerView {
        if self.dirty || self.is_watched(directory) {
            self
        } else if self.wants_watch(directory) && added {
            TrackerView { watched: self.watched.push(paths::components(directory)), ..self }
        } else {
            TrackerView { dirty: true, ..self }
        }
    }

    /// The tracker after attempts to watch the directories one by one.
    pub open spec fn after_watches(
        self,
        directories: Seq<Seq<char>>,
        answers: Seq<bool>,
    ) -> TrackerView
        decreases directories.len(),
    {
        if directories.len() == 0 {
            self
        } else {
            self.after_watches(directories.drop_last(), answers.drop_last()).after_watch(
                directories.last(),
                answers.last(),
            )
        }
    }

    /// The tracker after its watches were read, and `clean` says that none had
    /// anything to report.
    pub open spec fn after_read(self, clean: bool) -> TrackerView {
        TrackerView { dirty: self.dirty || !clean, ..self }
    }

    /// Everything that was watched still is, and a dirty tracker is still
    /// dirty.
    pub open spec fn grew_from(self, before: TrackerView) -> bool {
        &&& before.watched.is_prefix_of(self.watched)
        &&& before.dirty ==> self == before
    }

    /// The tracker never holds more than the allowed number of watches.
    pub open spec fn within_limit(self) -> bool {
        self.watched.len() <= MAX_MATCH_TYPE_WATCHES
    }
}

/// Whether `answer` is what `add_watch` said of the directory, if it was asked.
pub open spec fn answer_of<A: Fn(&str) -> bool>(
    add_watch: A,
    tracker: TrackerView,
    directory: Seq<char>,
    answer: bool,
) -> bool {
    tracker.wants_watch(directory) ==> exists|path: &str|
        path@ == directory && #[trigger] add_watch.ensures((path,), answer)
}

/// Whether `answers` are what `add_watch` said of the directories, as far as it
/// was asked.
pub open spec fn answered_by<A: Fn(&str) -> bool>(
    add_watch: A,
    tracker: TrackerView,
    directories: Seq<Seq<char>>,
    answers: Seq<bool>,
) -> bool {
    &&& answers.len() == directories.len()
    &&& forall|i: int|
        #![trigger answers[i]]
        0 <= i < directories.len() ==> answer_of(
            add_watch,
            tracker.after_watches(directories.take(i), answers.take(i)),
            directories[i],
            answers[i],
        )
}

impl View for MatchTypeTracker {
    type V = TrackerView;

    closed spec fn view(&self) -> TrackerView {
        TrackerView {
            watched: Seq::new(
                self.watched_directories@.len(),
                |i: int| text::texts(self.watched_directories@[i]@),
            ),
            dirty: self.dirty,
        }
    }
}

impl MatchTypeTracker {
    #[verifier::type_invariant]
    spec fn is_bounded(self) -> bool {
        self.watched_directories@.len() <= MAX_MATCH_TYPE_WATCHES
    }

    /// A tracker with no watches. Where the system offers none, `available` is
    /// false and the tracker is dirty from the start.
    pub fn new(available: bool) -> (tracker: Self)
        ensures
            tracker@.watched == Seq::<Seq<Seq<char>>>::empty(),
            tracker@.dirty == !available,
    {
        let tracker = MatchTypeTracker { watched_directories: Vec::new(), dirty: !available };
        assert(tracker@.watched =~= Seq::empty());
        tracker
    }

    /// The tracker holds at most the allowed number of watches.
    pub fn watch_count(&self) -> (count: usize)
        ensures
            count == self@.watched.len(),
            self@.within_limit(),
    {
        proof {
            use_type_invariant(self);
        }
        self.watched_directories.len()
    }

    /// Whether something may have changed that no watch will report any more.
    pub fn is_dirty(&self) -> (dirty: bool)
        ensures
            dirty == self@.dirty,
    {
        self.dirty
    }

    /// Whether a directory with these components is watched.
    fn holds(&self, components: &Vec<String>) -> (held: bool)
        ensures
            held == self@.watched.contains(text::texts(components@)),
    {
        for i in 0..self.watched_directories.len()
            invariant
                forall|j: int|
                    0 <= j < i ==> #[trigger] self@.watched[j] != text::texts(components@),
        {
            if text::same_texts(&self.watched_directories[i], components) {
                assert(self@.watched[i as int] == text::texts(components@));
                return true;
            }
        }
        false
    }

    /// Watches one directory, unless it is watched already.
    ///
    /// The tracker becomes dirty where the directory cannot be watched: when
    /// there are too many watches, when its path holds a NUL, or when
    /// `add_watch` fails. Fresh classifications are preferred to unbounded
    /// use of the system's watches.
    pub fn watch_directory<A: Fn(&str) -> bool>(&mut self, directory: &str, add_watch: &A)
        requires
            forall|path: &str| #[trigger] add_watch.requires((path,)),
        ensures
            old(self)@.wants_watch(directory@) ==> exists|path: &str, added: bool|
                path@ == directory@ && #[trigger] add_watch.ensures((path,), added)
                    && final(self)@ == old(self)@.after_watch(directory@, added),
            !old(self)@.wants_watch(directory@) ==> final(self)@ == old(self)@.after_watch(
                directory@,
                false,
            ),
            final(self)@.within_limit(),
    {
        proof {
            use_type_invariant(&*self);
        }
        if self.dirty {
            return ;
        }
        let components = paths::components_of(directory);
        if self.holds(&components) {
            return ;
        }
        if self.watched_directories.len() >= MAX_MATCH_TYPE_WATCHES {
            self.dirty = true;
            return ;
        }
        if text::holds_nul(directory) {
            self.dirty = true;
            return ;
        }
        let added: bool = add_watch(directory);
        if !added {
            self.dirty = true;
            return ;
        }
        let ghost before = self@;
        let mut watched_directories: Vec<Vec<String>> = Vec::new();
        std::mem::swap(&mut watched_directories, &mut self.watched_directories);
        watched_directories.push(components);
        self.watched_directories = watched_directories;
        assert(self@.watched =~= before.watched.push(paths::components(directory@)));
    }

    /// Watches every directory above `path`, up to the root of the file
    /// system, and stops at the first that makes the tracker dirty.
    ///
    /// A search directory can be replaced by renaming any directory above it,
    /// so the search directory itself is no place to stop.
    pub fn watch_ancestors<A: Fn(&str) -> bool>(&mut self, path: &str, add_watch: &A)
        requires
            forall|path: &str| #[trigger] add_watch.requires((path,)),
        ensures
            exists|answers: Seq<bool>| #[trigger]
                answered_by(*add_watch, old(self)@, paths::ancestors(path@), answers)
                    && final(self)@ == old(self)@.after_watches(paths::ancestors(path@), answers),
            final(self)@.within_limit(),
    {
        proof {
            use_type_invariant(&*self);
        }
        let above = paths::ancestors_of(path);
        let ghost before = self@;
        let ghost expected = paths::ancestors(path@);
        let ghost mut answers: Seq<bool> = Seq::empty();
        proof {
            lemma_nothing_watched(*add_watch, before, expected);
        }
        for i in 0..above.len()
            invariant
                forall|path: &str| #[trigger] add_watch.requires((path,)),
                before == old(self)@,
                expected == paths::ancestors(path@),
                text::texts(above@) == expected,
                self@.within_limit(),
                watched_so_far(*add_watch, before, self@, expected, i as int, answers),
        {
            let ghost between = self@;
            assert(expected[i as int] == above@[i as int]@);
            self.watch_directory(&above[i], add_watch);
            proof {
                let answer = lemma_one_more_watched(
                    *add_watch,
                    before,
                    between,
                    self@,
                    expected,
                    i as int,
                    answers,
                );
                answers = answers.push(answer);
            }
            if self.dirty {
                proof {
                    lemma_all_watched(*add_watch, before, self@, expected, i + 1, answers);
                }
                return ;
            }
        }
        proof {
            lemma_all_watched(
                *add_watch,
                before,
                self@,
                expected,
                expected.len() as int,
                answers,
            );
        }
    }

    /// Whether kept answers may be used now. `drain` reads what the watches
    /// have to report and says whether that was nothing.
    pub fn can_use_cached_match_types<D: Fn() -> bool>(&mut self, drain: &D) -> (usable: bool)
        requires
            drain.requires(()),
        ensures
            usable == !final(self)@.dirty,
            old(self)@.dirty ==> final(self)@ == old(self)@,
            !old(self)@.dirty ==> exists|clean: bool| #[trigger]
                drain.ensures((), clean) && final(self)@ == old(self)@.after_read(clean),
    {
        proof {
            use_type_invariant(&*self);
        }
        if self.dirty {
            return false;
        }
        let clean: bool = drain();
        if !clean {
            self.dirty = true;
        }
        clean
    }
}

/// What one read of the watch descriptor means.
#[derive(Debug, Clone, Copy, PartialEq, Eq, Structural)]
pub enum ReadVerdict {
    /// The read was interrupted and is to be made again.
    Retry,
    /// Nothing has changed.
    Clean,
    /// Something has changed, or that cannot be told.
    Dirty,
}

/// How a read that returned no data failed.
#[derive(Debug, Clone, Copy, PartialEq, Eq, Structural)]
pub enum ReadFailure {
    Interrupted,
    WouldBlock,
    Other,
}

/// Judges a read of the watch descriptor by the number that it returned and,
/// where that is negative, by the failure.
pub fn read_verdict(read: i64, failure: ReadFailure) -> (verdict: ReadVerdict)
    ensures
        verdict == (if read >= 0 {
            ReadVerdict::Dirty
        } else {
            match failure {
                ReadFailure::Interrupted => ReadVerdict::Retry,
                ReadFailure::WouldBlock => ReadVerdict::Clean,
                ReadFailure::Other => ReadVerdict::Dirty,
            }
        }),
        verdict == ReadVerdict::Clean <==> read < 0 && failure == ReadFailure::WouldBlock,
        verdict == ReadVerdict::Retry <==> read < 0 && failure == ReadFailure::Interrupted,
{
    if read >= 0 {
        return ReadVerdict::Dirty;
    }
    match failure {
        ReadFailure::Interrupted => ReadVerdict::Retry,
        ReadFailure::WouldBlock => ReadVerdict::Clean,
        ReadFailure::Other => ReadVerdict::Dirty,
    }
}

proof fn lemma_answered_further<A: Fn(&str) -> bool>(
    add_watch: A,
    tracker: TrackerView,
    directories: Seq<Seq<char>>,
    answers: Seq<bool>,
    directory: Seq<char>,
    answer: bool,
)
    requires
        answered_by(add_watch, tracker, directories, answers),
        answer_of(add_watch, tracker.after_watches(directories, answers), directory, answer),
    ensures
        answered_by(add_watch, tracker, directories.push(directory), answers.push(answer)),
        tracker.after_watches(directories.push(directory), answers.push(answer))
            == tracker.after_watches(directories, answers).after_watch(directory, answer),
{
    let more = directories.push(directory);
    let further = answers.push(answer);
    assert(more.drop_last() =~= directories);
    assert(further.drop_last() =~= answers);
    assert forall|i: int| #![trigger further[i]] 0 <= i < more.len() implies answer_of(
        add_watch,
        tracker.after_watches(more.take(i), further.take(i)),
        more[i],
        further[i],
    ) by {
        if i < directories.len() {
            assert(more.take(i) =~= directories.take(i));
            assert(further.take(i) =~= answers.take(i));
            assert(further[i] == answers[i]);
            assert(more[i] == directories[i]);
        } else {
            assert(more.take(i) =~= directories);
            assert(further.take(i) =~= answers);
        }
    }
}

/// Whether attempts to watch the first `count` directories turned the tracker
/// `before` into `after`, with `answers` as what `add_watch` said.
#[verifier::opaque]
spec fn watched_so_far<A: Fn(&str) -> bool>(
    add_watch: A,
    before: TrackerView,
    after: TrackerView,
    directories: Seq<Seq<char>>,
    count: int,
    answers: Seq<bool>,
) -> bool {
    &&& answered_by(add_watch, before, directories.take(count), answers)
    &&& after == before.after_watches(directories.take(count), answers)
}

proof fn lemma_nothing_watched<A: Fn(&str) -> bool>(
    add_watch: A,
    before: TrackerView,
    directories: Seq<Seq<char>>,
)
    ensures
        watched_so_far(add_watch, before, before, directories, 0, Seq::empty()),
{
    reveal(watched_so_far);
    assert(directories.take(0) =~= Seq::empty());
}

proof fn lemma_one_more_watched<A: Fn(&str) -> bool>(
    add_watch: A,
    before: TrackerView,
    between: TrackerView,
    after: TrackerView,
    directories: Seq<Seq<char>>,
    count: int,
    answers: Seq<bool>,
) -> (answer: bool)
    requires
        0 <= count < directories.len(),
        watched_so_far(add_watch, before, between, directories, count, answers),
        between.wants_watch(directories[count]) ==> exists|path: &str, added: bool|
            path@ == directories[count] && #[trigger] add_watch.ensures((path,), added) && after
                == between.after_watch(directories[count], added),
        !between.wants_watch(directories[count]) ==> after == between.after_watch(
            directories[count],
            false,
        ),
    ensures
        watched_so_far(add_watch, before, after, directories, count + 1, answers.push(answer)),
{
    reveal(watched_so_far);
    let directory = directories[count];
    let answer = if between.wants_watch(directory) {
        let (path, answer): (&str, bool) = choose|path: &str, answer: bool|
            path@ == directory && #[trigger] add_watch.ensures((path,), answer) && after
                == between.after_watch(directory, answer);
        answer
    } else {
        false
    };
    lemma_answered_further(
        add_watch,
        before,
        directories.take(count),
        answers,
        directory,
        answer,
    );
    assert(directories.take(count + 1) =~= directories.take(count).push(directory));
    answer
}

/// Attempts that went through all directories, or up to one that made the
/// tracker dirty, are attempts at all of them.
proof fn lemma_all_watched<A: Fn(&str) -> bool>(
    add_watch: A,
    before: TrackerView,
    after: TrackerView,
    directories: Seq<Seq<char>>,
    count: int,
    answers: Seq<bool>,
)
    requires
        0 <= count <= directories.len(),
        watched_so_far(add_watch, before, after, directories, count, answers),
        count == directories.len() || after.dirty,
    ensures
        exists|all: Seq<bool>| #[trigger]
            answered_by(add_watch, before, directories, all) && after == before.after_watches(
                directories,
                all,
            ),
{
    reveal(watched_so_far);
    if count == directories.len() {
        assert(directories.take(count) =~= directories);
    } else {
        lemma_rest_is_not_asked(add_watch, before, directories, answers);
    }
}

/// Watching some directories and then some others is watching all of them in
/// that order.
pub(crate) proof fn lemma_answered_in_turn<A: Fn(&str) -> bool>(
    add_watch: A,
    tracker: TrackerView,
    first: Seq<Seq<char>>,
    first_answers: Seq<bool>,
    second: Seq<Seq<char>>,
    second_answers: Seq<bool>,
)
    requires
        answered_by(add_watch, tracker, first, first_answers),
        answered_by(
            add_watch,
            tracker.after_watches(first, first_answers),
            second,
            second_answers,
        ),
    ensures
        answered_by(add_watch, tracker, first + second, first_answers + second_answers),
        tracker.after_watches(first + second, first_answers + second_answers)
            == tracker.after_watches(first, first_answers).after_watches(second, second_answers),
    decreases second.len(),
{
    if second.len() == 0 {
        assert(first + second =~= first);
        assert(first_answers + second_answers =~= first_answers);
    } else {
        let between = tracker.after_watches(first, first_answers);
        let last = second.len() - 1;
        let fewer = second.drop_last();
        let fewer_answers = second_answers.drop_last();
        assert(answered_by(add_watch, between, fewer, fewer_answers)) by {
            assert forall|i: int| #![trigger fewer_answers[i]] 0 <= i < fewer.len() implies answer_of(
                add_watch,
                between.after_watches(fewer.take(i), fewer_answers.take(i)),
                fewer[i],
                fewer_answers[i],
            ) by {
                assert(fewer.take(i) =~= second.take(i));
                assert(fewer_answers.take(i) =~= second_answers.take(i));
                assert(second_answers[i] == fewer_answers[i]);
                assert(second[i] == fewer[i]);
            }
        }
        lemma_answered_in_turn(
            add_watch,
            tracker,
            first,
            first_answers,
            fewer,
            fewer_answers,
        );
        assert(second_answers[last] == second_answers.last());
        assert(second.take(last) =~= fewer);
        assert(second_answers.take(last) =~= fewer_answers);
        lemma_answered_further(
            add_watch,
            tracker,
            first + fewer,
            first_answers + fewer_answers,
            second.last(),
            second_answers.last(),
        );
        assert((first + fewer).push(second.last()) =~= first + second);
        assert((first_answers + fewer_answers).push(second_answers.last()) =~= first_answers
            + second_answers);
    }
}

/// A tracker that became dirty part of the way is left as it is.
proof fn lemma_rest_is_not_asked<A: Fn(&str) -> bool>(
    add_watch: A,
    tracker: TrackerView,
    directories: Seq<Seq<char>>,
    answers: Seq<bool>,
)
    requires
        answers.len() <= directories.len(),
        answered_by(add_watch, tracker, directories.take(answers.len() as int), answers),
        tracker.after_watches(directories.take(answers.len() as int), answers).dirty,
    ensures
        exists|all: Seq<bool>| #[trigger]
            answered_by(add_watch, tracker, directories, all) && tracker.after_watches(
                directories,
                all,
            ) == tracker.after_watches(directories.take(answers.len() as int), answers),
    decreases directories.len() - answers.len(),
{
    let count = answers.len() as int;
    if count == directories.len() {
        assert(directories.take(count) =~= directories);
    } else {
        lemma_answered_further(
            add_watch,
            tracker,
            directories.take(count),
            answers,
            directories[count],
            false,
        );
        assert(directories.take(count + 1) =~= directories.take(count).push(directories[count]));
        lemma_rest_is_not_asked(add_watch, tracker, directories, answers.push(false));
    }
}

proof fn lemma_watch_grows(before: TrackerView, directory: Seq<char>, added: bool)
    ensures
        before.after_watch(directory, added).grew_from(before),
        before.after_watch(directory, added).dirty || before.after_watch(
            directory,
            added,
        ).is_watched(directory),
{
    let after = before.after_watch(directory, added);
    assert(before.watched =~= after.watched.subrange(0, before.watched.len() as int));
    if !after.dirty && !before.is_watched(directory) {
        assert(after.watched.last() == paths::components(directory));
    }
}

/// A dirty tracker stays dirty and keeps no answer usable, whatever is watched
/// or read later.
pub proof fn law_dirty_is_final(tracker: TrackerView, directory: Seq<char>, added: bool, clean: bool)
    requires
        tracker.dirty,
    ensures
        tracker.after_watch(directory, added) == tracker,
        tracker.after_read(clean) == tracker,
{
}

/// Attempts to watch several directories end with all of them watched or with
/// the tracker dirty. Nothing that was watched is forgotten.
pub proof fn law_all_watched_or_dirty(
    tracker: TrackerView,
    directories: Seq<Seq<char>>,
    answers: Seq<bool>,
)
    requires
        answers.len() == directories.len(),
    ensures
        ({
            let after = tracker.after_watches(directories, answers);
            &&& after.grew_from(tracker)
            &&& after.dirty || forall|i: int|
                0 <= i < directories.len() ==> after.is_watched(#[trigger] directories[i])
        }),
    decreases directories.len(),
{
    if directories.len() == 0 {
        assert(tracker.watched =~= tracker.watched.subrange(0, tracker.watched.len() as int));
    } else {
        let rest = directories.drop_last();
        let before = tracker.after_watches(rest, answers.drop_last());
        let after = tracker.after_watches(directories, answers);
        law_all_watched_or_dirty(tracker, rest, answers.drop_last());
        lemma_watch_grows(before, directories.last(), answers.last());
        assert(tracker.watched =~= after.watched.subrange(0, tracker.watched.len() as int)) by {
            assert(tracker.watched =~= before.watched.subrange(0, tracker.watched.len() as int));
            assert(before.watched =~= after.watched.subrange(0, before.watched.len() as int));
        }
        if !after.dirty {
            assert forall|i: int| 0 <= i < directories.len() implies after.is_watched(
                #[trigger] directories[i],
            ) by {
                if i < rest.len() {
                    assert(before.is_watched(rest[i]));
                    let at = choose|at: int|
                        0 <= at < before.watched.len() && before.watched[at] == paths::components(
                            rest[i],
                        );
                    assert(before.watched =~= after.watched.subrange(
                        0,
                        before.watched.len() as int,
                    ));
                    assert(after.watched[at] == paths::components(directories[i]));
                }
            }
        }
    }
}

/// Where nothing stands in the way - no watch fails, no path holds a NUL and
/// the limit is not reached - a clean tracker stays clean.
pub proof fn law_watching_stays_clean(
    tracker: TrackerView,
    directories: Seq<Seq<char>>,
    answers: Seq<bool>,
)
    requires
        !tracker.dirty,
        answers.len() == directories.len(),
        forall|i: int| 0 <= i < answers.len() ==> #[trigger] answers[i],
        forall|i: int|
            0 <= i < directories.len() ==> !(#[trigger] directories[i]).contains('\0'),
        tracker.watched.len() + directories.len() <= MAX_MATCH_TYPE_WATCHES,
    ensures
        !tracker.after_watches(directories, answers).dirty,
        tracker.after_watches(directories, answers).watched.len() <= tracker.watched.len()
            + directories.len(),
    decreases directories.len(),
{
    if directories.len() > 0 {
        law_watching_stays_clean(tracker, directories.drop_last(), answers.drop_last());
        assert(answers[answers.len() - 1]);
        assert(!directories[directories.len() - 1].contains('\0'));
    }
}

/// An attempt to watch a directory ends with the directory watched or with the
/// tracker dirty, and never lifts the number of watches over the limit.
pub proof fn law_watched_or_dirty(tracker: TrackerView, directory: Seq<char>, added: bool)
    requires
        tracker.within_limit(),
    ensures
        tracker.after_watch(directory, added).dirty || tracker.after_watch(
            directory,
            added,
        ).is_watched(directory),
        tracker.after_watch(directory, added).within_limit(),
        tracker.after_watch(directory, added).grew_from(tracker),
{
    lemma_watch_grows(tracker, directory, added);
}

/// Files, directories and unknown types have numbers of their own, and a number
/// stands for a type only where it is the number of that type.
pub proof fn law_numbers_stand_for_types(number: u8, match_type: MatchType)
    ensures
        decoded(number) == Some(match_type) <==> number == encoded(match_type),
        encoded(MatchType::File) != encoded(MatchType::Directory),
        encoded(match_type) != UNKNOWN_MATCH_TYPE,
        encoded(MatchType::File) == 1,
        encoded(MatchType::Directory) == 2,
        UNKNOWN_MATCH_TYPE == 0,
{
}

/// A found entry keeps its path, what the walk said of it and whether its type
/// may be kept. Nothing of it is current.
pub proof fn law_found_entry_is_as_the_walk_says(
    full_path: Seq<char>,
    match_type: Option<MatchType>,
    cacheable_match_type: bool,
)
    ensures
        ({
            let item = SearchItemView::found(full_path, match_type, cacheable_match_type);
            &&& item.full_path == full_path
            &&& item.cacheable_match_type == cacheable_match_type
            &&& !item.cache_is_current
            &&& decoded(item.cached_match_type) == match_type
        }),
{
}

/// A kept answer is usable exactly where it is current, the entry's type may be
/// kept, and its number stands for a type.
pub proof fn law_answer_is_usable_while_current(item: SearchItemView, match_type: MatchType)
    ensures
        item.usable_type() == Some(match_type) <==> item.cacheable_match_type
            && item.cache_is_current && item.cached_match_type == encoded(match_type),
{
}

/// The last classification is the one that counts. An entry whose type must not
/// be kept is left as it was.
pub proof fn law_last_classification_counts(
    item: SearchItemView,
    first: MatchType,
    second: MatchType,
)
    ensures
        item.classified(first).classified(second) == item.classified(second),
        !item.cacheable_match_type ==> item.classified(first) == item,
        item.cacheable_match_type ==> item.classified(first).cache_is_current,
        item.classified(first).full_path == item.full_path,
{
}

/// A directory is watched exactly where its path, component by component, is
/// that of a watch.
pub proof fn law_watch_goes_by_components(
    tracker: TrackerView,
    directory: Seq<char>,
    other: Seq<char>,
    place: int,
)
    ensures
        0 <= place < tracker.watched.len() && tracker.watched[place] == paths::components(
            directory,
        ) ==> tracker.is_watched(directory),
        (forall|i: int|
            0 <= i < tracker.watched.len() ==> #[trigger] tracker.watched[i] != paths::components(
                directory,
            )) ==> !tracker.is_watched(directory),
        paths::components(directory) == paths::components(other) ==> tracker.is_watched(directory)
            == tracker.is_watched(other),
{
}

/// The system is asked to watch a directory exactly where the tracker is clean,
/// the directory is not watched, there are fewer than a thousand and twenty-four
/// watches, and its path holds no NUL.
pub proof fn law_watch_is_wanted_while_there_is_room(tracker: TrackerView, directory: Seq<char>)
    ensures
        tracker.wants_watch(directory) <==> {
            &&& !tracker.dirty
            &&& !tracker.watched.contains(paths::components(directory))
            &&& tracker.watched.len() < 1024
            &&& forall|i: int| 0 <= i < directory.len() ==> #[trigger] directory[i] != '\0'
        },
        tracker.within_limit() <==> tracker.watched.len() <= 1024,
{
    if forall|i: int| 0 <= i < directory.len() ==> #[trigger] directory[i] != '\0' {
        assert(!directory.contains('\0'));
    }
    if !directory.contains('\0') {
        assert forall|i: int| 0 <= i < directory.len() implies #[trigger] directory[i] != '\0' by {
            assert(directory.contains(directory[i]));
        }
    }
}

/// An attempt to watch a directory that is wanted ends as the system says: with
/// one more watch, which is its own, or with the tracker dirty. One that is not
/// wanted changes nothing where the directory is watched or the tracker dirty,
/// and makes the tracker dirty where there is no room or no such path.
pub proof fn law_watch_ends_as_the_system_says(
    tracker: TrackerView,
    directory: Seq<char>,
    added: bool,
)
    ensures
        ({
            let after = tracker.after_watch(directory, added);
            let wanted = tracker.wants_watch(directory);
            &&& wanted && added ==> {
                &&& !after.dirty
                &&& after.watched.len() == tracker.watched.len() + 1
                &&& after.watched.take(tracker.watched.len() as int) == tracker.watched
                &&& after.watched.last() == paths::components(directory)
            }
            &&& !(wanted && added) ==> after.watched == tracker.watched
            &&& after.dirty <==> tracker.dirty || (!tracker.is_watched(directory) && !(wanted
                && added))
        }),
{
    let after = tracker.after_watch(directory, added);
    if tracker.wants_watch(directory) && added {
        assert(after.watched.take(tracker.watched.len() as int) =~= tracker.watched);
    }
}

/// Watching several directories is watching one after the other.
pub proof fn law_directories_are_watched_one_by_one(
    tracker: TrackerView,
    directories: Seq<Seq<char>>,
    answers: Seq<bool>,
    directory: Seq<char>,
    answer: bool,
)
    ensures
        tracker.after_watches(directories.push(directory), answers.push(answer))
            == tracker.after_watches(directories, answers).after_watch(directory, answer),
        tracker.after_watches(Seq::empty(), answers) == tracker,
{
    assert(directories.push(directory).drop_last() =~= directories);
    assert(answers.push(answer).drop_last() =~= answers);
}

/// A read that finds anything makes the tracker dirty, and one that finds
/// nothing changes nothing. No read changes what is watched.
pub proof fn law_read_finds_changes(tracker: TrackerView, clean: bool)
    ensures
        clean ==> tracker.after_read(clean) == tracker,
        !clean ==> tracker.after_read(clean).dirty,
        tracker.after_read(clean).watched == tracker.watched,
{
}

/// The system is asked about the directory itself wherever a watch is wanted, one
/// directory after the other, and what it says is what is gone by.
pub proof fn law_system_is_asked_about_the_directory<A: Fn(&str) -> bool>(
    add_watch: A,
    tracker: TrackerView,
    directories: Seq<Seq<char>>,
    answers: Seq<bool>,
    at: int,
)
    requires
        answered_by(add_watch, tracker, directories, answers),
        0 <= at < directories.len(),
        tracker.after_watches(directories.take(at), answers.take(at)).wants_watch(directories[at]),
    ensures
        answers.len() == directories.len(),
        exists|path: &str|
            path@ == directories[at] && #[trigger] add_watch.ensures((path,), answers[at]),
{
    assert(answer_of(
        add_watch,
        tracker.after_watches(directories.take(at), answers.take(at)),
        directories[at],
        answers[at],
    ));
}

} // verus!
