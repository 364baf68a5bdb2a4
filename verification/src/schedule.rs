//! When the matcher looks for news, and when it reports.
//!
//! A session waits for signals and for one timer. A signal may arm the timer;
//! when the timer is due the matcher ticks, reports what changed and, once the
//! walk is over and the matcher has nothing left to do, that it is complete.

use crate::text;
use vstd::prelude::*;

verus! {

/// How long a tick waits for the matcher, and how long news is collected
/// before a tick, in milliseconds.
pub const TICK_TIMEOUT_MS: u64 = 10;

/// How long the session waits at most before it looks whether it is to stop,
/// in milliseconds.
pub const IDLE_TIMEOUT_MS: u64 = 100;

/// What a session is told.
#[derive(Debug)]
pub enum WorkSignal {
    /// There is a new query.
    QueryUpdated(String),
    /// The matcher has news.
    NucleoNotify,
    /// Every search directory has been walked.
    WalkComplete,
    /// The session is no longer wanted.
    Shutdown,
}

/// What a [`WorkSignal`] says.
pub enum SignalView {
    QueryUpdated(Seq<char>),
    NucleoNotify,
    WalkComplete,
    Shutdown,
}

impl View for WorkSignal {
    type V = SignalView;

    open spec fn view(&self) -> SignalView {
        match self {
            WorkSignal::QueryUpdated(query) => SignalView::QueryUpdated(query@),
            WorkSignal::NucleoNotify => SignalView::NucleoNotify,
            WorkSignal::WalkComplete => SignalView::WalkComplete,
            WorkSignal::Shutdown => SignalView::Shutdown,
        }
    }
}

/// What follows from a signal.
#[derive(Debug, Clone, Copy, PartialEq, Eq, Structural)]
pub enum Reaction {
    /// The session ends.
    Exit,
    /// The timer stays as it is.
    Wait,
    /// The timer is set anew, to this many milliseconds from now.
    TickAfter(u64),
}

/// What a session remembers of the signals so far.
#[derive(Debug)]
pub struct Schedule {
    pub last_query: String,
    pub will_notify: bool,
    pub walk_complete: bool,
}

/// What a [`Schedule`] holds.
pub struct ScheduleView {
    pub last_query: Seq<char>,
    pub will_notify: bool,
    pub walk_complete: bool,
}

impl View for Schedule {
    type V = ScheduleView;

    open spec fn view(&self) -> ScheduleView {
        ScheduleView {
            last_query: self.last_query@,
            will_notify: self.will_notify,
            walk_complete: self.walk_complete,
        }
    }
}

impl ScheduleView {
    /// Before the first signal.
    pub open spec fn initial() -> ScheduleView {
        ScheduleView { last_query: Seq::empty(), will_notify: false, walk_complete: false }
    }

    /// What a signal leaves behind.
    pub open spec fn after_signal(self, signal: SignalView) -> ScheduleView {
        match signal {
            SignalView::QueryUpdated(query) => ScheduleView {
                last_query: query,
                will_notify: true,
                ..self
            },
            SignalView::NucleoNotify => ScheduleView { will_notify: true, ..self },
            SignalView::WalkComplete => ScheduleView {
                will_notify: true,
                walk_complete: true,
                ..self
            },
            SignalView::Shutdown => self,
        }
    }

    /// What follows from a signal: a query is looked up at once, news and the
    /// end of the walk are looked at unless a look is due anyway.
    pub open spec fn reaction(self, signal: SignalView) -> Reaction {
        match signal {
            SignalView::QueryUpdated(_) => Reaction::TickAfter(0),
            SignalView::NucleoNotify => if self.will_notify {
                Reaction::Wait
            } else {
                Reaction::TickAfter(TICK_TIMEOUT_MS)
            },
            SignalView::WalkComplete => if self.will_notify {
                Reaction::Wait
            } else {
                Reaction::TickAfter(0)
            },
            SignalView::Shutdown => Reaction::Exit,
        }
    }

    /// The timer has fired.
    pub open spec fn after_due(self) -> ScheduleView {
        ScheduleView { will_notify: false, ..self }
    }

    /// Whether a tick that left the matcher busy, or not, completes the search.
    pub open spec fn completes(self, running: bool) -> bool {
        !running && self.walk_complete
    }
}

impl Schedule {
    /// The schedule before the first signal.
    pub fn new() -> (schedule: Self)
        ensures
            schedule@ == ScheduleView::initial(),
    {
        Schedule { last_query: String::new(), will_notify: false, walk_complete: false }
    }

    /// Takes a signal in, and says what follows from it.
    pub fn handle(&mut self, signal: WorkSignal) -> (reaction: Reaction)
        ensures
            final(self)@ == old(self)@.after_signal(signal@),
            reaction == old(self)@.reaction(signal@),
    {
        match signal {
            WorkSignal::QueryUpdated(query) => {
                self.last_query = query;
                self.will_notify = true;
                Reaction::TickAfter(0)
            },
            WorkSignal::NucleoNotify => {
                if self.will_notify {
                    return Reaction::Wait;
                }
                self.will_notify = true;
                Reaction::TickAfter(TICK_TIMEOUT_MS)
            },
            WorkSignal::WalkComplete => {
                self.walk_complete = true;
                if self.will_notify {
                    return Reaction::Wait;
                }
                self.will_notify = true;
                Reaction::TickAfter(0)
            },
            WorkSignal::Shutdown => Reaction::Exit,
        }
    }

    /// Takes in that the timer has fired.
    pub fn due(&mut self)
        ensures
            final(self)@ == old(self)@.after_due(),
    {
        self.will_notify = false;
    }

    /// Whether `query` begins with the last query, so that only what matched
    /// that one can match it.
    pub fn continues(&self, query: &str) -> (continues: bool)
        ensures
            continues == self@.last_query.is_prefix_of(query@),
    {
        text::starts_with(query, &self.last_query)
    }

    /// Whether a tick that left the matcher busy, or not, completes the search.
    pub fn completes(&self, running: bool) -> (completes: bool)
        ensures
            completes == self@.completes(running),
    {
        !running && self.walk_complete
    }
}

/// One turn of a session's loop.
pub enum Turn {
    /// A signal came in.
    Signal(SignalView),
    /// The timer was due, and the tick ended with this.
    Due { changed: bool, running: bool },
    /// Nothing happened for a while.
    Quiet,
    /// Nobody is left to send a signal.
    HungUp,
}

/// A report to the user of a session.
pub enum Report {
    Update,
    Complete,
}

/// How far a session has come: what it remembers, the timer if it is armed,
/// what it has reported and whether it has ended.
pub struct Progress {
    pub schedule: ScheduleView,
    pub timer: Option<u64>,
    pub reports: Seq<Report>,
    pub ended: bool,
}

impl Progress {
    /// A session that has just begun.
    pub open spec fn start() -> Progress {
        Progress {
            schedule: ScheduleView::initial(),
            timer: None,
            reports: Seq::empty(),
            ended: false,
        }
    }

    /// Whether the turn can come now: a timer is due only where it is armed.
    pub open spec fn allows(self, turn: Turn) -> bool {
        &&& !self.ended
        &&& turn is Due ==> self.timer is Some
    }

    /// The session after a turn, before it looks whether it is to stop.
    pub open spec fn turned(self, turn: Turn) -> Progress {
        match turn {
            Turn::Signal(signal) => Progress {
                schedule: self.schedule.after_signal(signal),
                timer: match self.schedule.reaction(signal) {
                    Reaction::TickAfter(delay) => Some(delay),
                    _ => self.timer,
                },
                ..self
            },
            Turn::Due { changed, running } => Progress {
                schedule: self.schedule.after_due(),
                timer: None,
                reports: self.reports + tick_reports(
                    changed,
                    self.schedule.after_due().completes(running),
                ),
                ..self
            },
            Turn::Quiet => self,
            Turn::HungUp => self,
        }
    }

    /// Whether the turn by itself ends the session.
    pub open spec fn exits(self, turn: Turn) -> bool {
        match turn {
            Turn::Signal(signal) => self.schedule.reaction(signal) == Reaction::Exit,
            Turn::HungUp => true,
            _ => false,
        }
    }

    /// The session after it looked whether it is to stop. A session that ends
    /// reports that it is complete.
    pub open spec fn stopped(self, ends: bool) -> Progress {
        if ends {
            Progress { reports: self.reports.push(Report::Complete), ended: true, ..self }
        } else {
            self
        }
    }

    /// The session after a turn, where `stop` says whether it was cancelled or
    /// shut down by then.
    pub open spec fn after(self, turn: Turn, stop: bool) -> Progress {
        self.turned(turn).stopped(self.exits(turn) || stop)
    }

    /// The session after several turns.
    pub open spec fn after_all(self, turns: Seq<(Turn, bool)>) -> Progress
        decreases turns.len(),
    {
        if turns.len() == 0 {
            self
        } else {
            self.after_all(turns.drop_last()).after(turns.last().0, turns.last().1)
        }
    }

    /// Whether each of the turns can come when it does.
    pub open spec fn allows_all(self, turns: Seq<(Turn, bool)>) -> bool {
        forall|i: int|
            #![trigger turns[i]]
            0 <= i < turns.len() ==> self.after_all(turns.take(i)).allows(turns[i].0)
    }
}

/// What a tick reports: first what changed, then that the search is complete.
pub open spec fn tick_reports(changed: bool, completes: bool) -> Seq<Report> {
    (if changed {
        seq![Report::Update]
    } else {
        Seq::empty()
    }) + (if completes {
        seq![Report::Complete]
    } else {
        Seq::empty()
    })
}

/// How far a session has come: what it remembers and whether it has ended, with
/// the timer that it had armed and the reports that it had made so far.
pub struct Pace {
    schedule: Schedule,
    ended: bool,
    timer: Ghost<Option<u64>>,
    reports: Ghost<Seq<Report>>,
}

impl View for Pace {
    type V = Progress;

    closed spec fn view(&self) -> Progress {
        Progress {
            schedule: self.schedule@,
            timer: self.timer@,
            reports: self.reports@,
            ended: self.ended,
        }
    }
}

impl Pace {
    /// A session that has just begun.
    pub fn new() -> (pace: Self)
        ensures
            pace@ == Progress::start(),
    {
        Pace {
            schedule: Schedule::new(),
            ended: false,
            timer: Ghost(None),
            reports: Ghost(Seq::empty()),
        }
    }

    /// What the session remembers of the signals so far.
    pub fn schedule(&self) -> (schedule: &Schedule)
        ensures
            schedule@ == self@.schedule,
    {
        &self.schedule
    }

    /// Whether the session has ended.
    pub fn has_ended(&self) -> (ended: bool)
        ensures
            ended == self@.ended,
    {
        self.ended
    }

    /// Takes the turn of a signal, and says what follows from it.
    pub fn take_signal(&mut self, signal: WorkSignal) -> (reaction: Reaction)
        ensures
            final(self)@ == old(self)@.turned(Turn::Signal(signal@)),
            reaction == old(self)@.schedule.reaction(signal@),
    {
        let ghost told = signal@;
        let reaction = self.schedule.handle(signal);
        self.timer = Ghost(old(self)@.turned(Turn::Signal(told)).timer);
        reaction
    }

    /// Takes the turn of the timer, where the tick ended with this, and says
    /// whether the search is complete. What changed is reported before that.
    pub fn take_due(&mut self, changed: bool, running: bool) -> (complete: bool)
        ensures
            final(self)@ == old(self)@.turned(Turn::Due { changed, running }),
            complete == old(self)@.schedule.completes(running),
    {
        self.schedule.due();
        self.timer = Ghost(None);
        self.reports = Ghost(old(self)@.turned(Turn::Due { changed, running }).reports);
        self.schedule.completes(running)
    }

    /// Ends the turn, and the session with it where it is to end, which is then
    /// reported to be complete.
    pub fn end_turn(&mut self, ends: bool)
        ensures
            final(self)@ == old(self)@.stopped(ends),
    {
        if ends {
            self.ended = true;
            self.reports = Ghost(self.reports@.push(Report::Complete));
        }
    }
}

/// The timer is armed exactly while a tick is owed, so no owed tick is lost
/// and none comes uncalled for.
pub proof fn law_timer_is_armed_while_a_tick_is_owed(turns: Seq<(Turn, bool)>)
    requires
        Progress::start().allows_all(turns),
    ensures
        Progress::start().after_all(turns).timer is Some
            <==> Progress::start().after_all(turns).schedule.will_notify,
    decreases turns.len(),
{
    if turns.len() > 0 {
        lemma_allows_fewer(turns);
        law_timer_is_armed_while_a_tick_is_owed(turns.drop_last());
        assert(turns.take(turns.len() - 1) =~= turns.drop_last());
        assert(Progress::start().after_all(turns.drop_last()).allows(turns[turns.len() - 1].0));
    }
}

/// A new query is looked up at once: it is the last query from then on, and
/// the timer is set to no delay.
pub proof fn law_query_is_looked_up_at_once(progress: Progress, query: Seq<char>)
    requires
        !progress.ended,
    ensures
        ({
            let after = progress.after(Turn::Signal(SignalView::QueryUpdated(query)), false);
            &&& after.timer == Some(0u64)
            &&& after.schedule.last_query == query
            &&& after.schedule.will_notify
            &&& !after.ended
        }),
{
}

/// Whatever else is signalled, an armed timer stays armed until it is due, and
/// the query stays the last one until the next query.
pub proof fn law_owed_tick_is_kept(progress: Progress, turn: Turn)
    requires
        progress.allows(turn),
        progress.timer is Some,
        !(turn is Due),
        !(turn matches Turn::Signal(signal) && signal is QueryUpdated),
    ensures
        progress.after(turn, false).timer is Some,
        progress.after(turn, false).schedule.last_query == progress.schedule.last_query,
{
}

/// Once the walk is over, a tick that leaves the matcher with nothing to do
/// reports completion, behind the update where there is one.
pub proof fn law_idle_tick_completes(progress: Progress, changed: bool)
    requires
        progress.allows(Turn::Due { changed, running: false }),
        progress.schedule.walk_complete,
    ensures
        ({
            let after = progress.after(Turn::Due { changed, running: false }, false);
            &&& after.reports.last() is Complete
            &&& after.reports.len() == progress.reports.len() + 1 + (if changed {
                1int
            } else {
                0
            })
            &&& changed ==> after.reports[progress.reports.len() as int] is Update
        }),
{
}

/// Completion is never reported before the walk is over, unless the session
/// ends.
pub proof fn law_no_completion_before_the_walk_is_over(progress: Progress, turn: Turn)
    requires
        progress.allows(turn),
        !progress.schedule.walk_complete,
        !progress.after(turn, false).ended,
    ensures
        forall|i: int|
            progress.reports.len() <= i < progress.after(turn, false).reports.len()
                ==> #[trigger] progress.after(turn, false).reports[i] is Update,
{
}

/// A session that is cancelled from the start reports completion and nothing
/// else, whatever its first turn is.
pub proof fn law_cancelled_session_reports_completion_only(turn: Turn)
    requires
        Progress::start().allows(turn),
    ensures
        Progress::start().after(turn, true).ended,
        Progress::start().after(turn, true).reports == seq![Report::Complete],
{
    assert(Progress::start().after(turn, true).reports =~= seq![Report::Complete]);
}

/// A session that has reported nothing yet, and is to stop when it next looks,
/// reports completion and nothing else, unless the turn before is a tick: also
/// where it was given a query and a tick is owed.
pub proof fn law_stopped_session_reports_completion_only(progress: Progress, turn: Turn)
    requires
        progress.allows(turn),
        progress.reports.len() == 0,
        !(turn is Due),
    ensures
        progress.stopped(true).ended,
        progress.stopped(true).reports == seq![Report::Complete],
        progress.after(turn, true).ended,
        progress.after(turn, true).reports == seq![Report::Complete],
{
    assert(progress.stopped(true).reports =~= seq![Report::Complete]);
    assert(progress.after(turn, true).reports =~= seq![Report::Complete]);
}

/// However a session ends, completion is reported behind every query that it
/// was given: each query is followed by at least one completion.
pub proof fn law_every_query_is_followed_by_a_completion(turns: Seq<(Turn, bool)>, given: int)
    requires
        Progress::start().allows_all(turns),
        Progress::start().after_all(turns).ended,
        0 <= given < turns.len(),
        turns[given].0 matches Turn::Signal(signal) && signal is QueryUpdated,
    ensures
        ({
            let before = Progress::start().after_all(turns.take(given)).reports;
            let reports = Progress::start().after_all(turns).reports;
            &&& before.is_prefix_of(reports)
            &&& before.len() < reports.len()
            &&& reports.last() is Complete
        }),
{
    let last = turns.len() - 1;
    lemma_allows_fewer(turns);
    assert(turns.take(last) =~= turns.drop_last());
    assert(Progress::start().after_all(turns.take(last)).allows(turns[last].0));
    lemma_reports_grow(turns.drop_last(), given);
    assert(turns.drop_last().take(given) =~= turns.take(given));
    let before = Progress::start().after_all(turns.take(given)).reports;
    let between = Progress::start().after_all(turns.drop_last()).reports;
    let reports = Progress::start().after_all(turns).reports;
    assert(between.is_prefix_of(reports));
    assert(reports.last() is Complete);
    assert(before =~= reports.subrange(0, before.len() as int)) by {
        assert(before =~= between.subrange(0, before.len() as int));
        assert(between =~= reports.subrange(0, between.len() as int));
    }
}

proof fn lemma_allows_fewer(turns: Seq<(Turn, bool)>)
    requires
        Progress::start().allows_all(turns),
        turns.len() > 0,
    ensures
        Progress::start().allows_all(turns.drop_last()),
{
    let fewer = turns.drop_last();
    assert forall|i: int| #![trigger fewer[i]] 0 <= i < fewer.len() implies
        Progress::start().after_all(fewer.take(i)).allows(fewer[i].0) by {
        assert(fewer.take(i) =~= turns.take(i));
        assert(fewer[i] == turns[i]);
    }
}

proof fn lemma_reports_grow(turns: Seq<(Turn, bool)>, count: int)
    requires
        0 <= count <= turns.len(),
    ensures
        Progress::start().after_all(turns.take(count)).reports.is_prefix_of(
            Progress::start().after_all(turns).reports,
        ),
    decreases turns.len(),
{
    let before = Progress::start().after_all(turns.take(count)).reports;
    let reports = Progress::start().after_all(turns).reports;
    if count == turns.len() {
        assert(turns.take(count) =~= turns);
        assert(before =~= reports.subrange(0, before.len() as int));
    } else {
        lemma_reports_grow(turns.drop_last(), count);
        assert(turns.drop_last().take(count) =~= turns.take(count));
        let between = Progress::start().after_all(turns.drop_last()).reports;
        assert(before =~= between.subrange(0, before.len() as int));
        assert(between =~= reports.subrange(0, between.len() as int));
        assert(before =~= reports.subrange(0, before.len() as int));
    }
}

/// One round of a live session: a query, turns that follow it, and a due turn
/// that leaves the matcher with nothing to do.
pub struct Round {
    pub query: Seq<char>,
    pub between: Seq<Turn>,
    pub changed: bool,
}

impl Round {
    /// The turns of the round. Nobody stops the session in any of them.
    pub open spec fn turns(self) -> Seq<(Turn, bool)> {
        seq![(Turn::Signal(SignalView::QueryUpdated(self.query)), false)] + Seq::new(
            self.between.len(),
            |i: int| (self.between[i], false),
        ) + seq![(Turn::Due { changed: self.changed, running: false }, false)]
    }

    /// Whether the session is shut down in none of the turns.
    pub open spec fn keeps_running(self) -> bool {
        forall|i: int|
            0 <= i < self.between.len() ==> {
                &&& #[trigger] self.between[i] != Turn::Signal(SignalView::Shutdown)
                &&& self.between[i] != Turn::HungUp
            }
    }
}

/// How many completions are among the reports.
pub open spec fn completion_count(reports: Seq<Report>) -> nat
    decreases reports.len(),
{
    if reports.len() == 0 {
        0
    } else {
        completion_count(reports.drop_last()) + (if reports.last() is Complete {
            1nat
        } else {
            0nat
        })
    }
}

/// In a live session whose walk is over, a query that is followed by anything
/// but the end of the session, up to a due turn that leaves the matcher with
/// nothing to do, has a completion behind it.
pub proof fn law_live_query_is_followed_by_a_completion(progress: Progress, round: Round)
    requires
        !progress.ended,
        progress.schedule.walk_complete,
        round.keeps_running(),
    ensures
        ({
            let after = progress.after_all(round.turns());
            &&& !after.ended
            &&& after.schedule.walk_complete
            &&& progress.reports.is_prefix_of(after.reports)
            &&& progress.reports.len() < after.reports.len()
            &&& after.reports.last() is Complete
            &&& completion_count(after.reports) > completion_count(progress.reports)
        }),
{
    let turns = round.turns();
    let count = round.between.len() as int;
    let before_last = progress.after_all(turns.drop_last());
    lemma_live_turns(progress, round, count);
    assert(turns.take(count + 1) =~= turns.drop_last());
    assert(turns.last() == (Turn::Due { changed: round.changed, running: false }, false));
    let after = progress.after_all(turns);
    let old_reports = progress.reports;
    let between = before_last.reports;
    assert(between =~= after.reports.subrange(0, between.len() as int));
    assert(old_reports =~= after.reports.subrange(0, old_reports.len() as int)) by {
        assert(old_reports =~= between.subrange(0, old_reports.len() as int));
    }
    assert(old_reports =~= after.reports.drop_last().subrange(0, old_reports.len() as int));
    lemma_completions_grow(old_reports, after.reports.drop_last());
}

/// The first turns of a round leave the session alive, with its walk over and
/// its reports kept.
proof fn lemma_live_turns(progress: Progress, round: Round, count: int)
    requires
        !progress.ended,
        progress.schedule.walk_complete,
        round.keeps_running(),
        0 <= count <= round.between.len(),
    ensures
        ({
            let after = progress.after_all(round.turns().take(count + 1));
            &&& !after.ended
            &&& after.schedule.walk_complete
            &&& progress.reports.is_prefix_of(after.reports)
        }),
    decreases count,
{
    let turns = round.turns();
    let some = turns.take(count + 1);
    assert(some.drop_last() =~= turns.take(count));
    let reports = progress.reports;
    if count == 0 {
        assert(turns.take(0) =~= Seq::empty());
        assert(progress.after_all(turns.take(0)) == progress);
        assert(reports =~= reports.subrange(0, reports.len() as int));
    } else {
        lemma_live_turns(progress, round, count - 1);
        assert(some.last() == (round.between[count - 1], false));
        let earlier = progress.after_all(turns.take(count)).reports;
        let later = progress.after_all(some).reports;
        assert(earlier =~= later.subrange(0, earlier.len() as int));
        assert(reports =~= later.subrange(0, reports.len() as int)) by {
            assert(reports =~= earlier.subrange(0, reports.len() as int));
        }
    }
}

/// Further reports take no completion away.
proof fn lemma_completions_grow(reports: Seq<Report>, more: Seq<Report>)
    requires
        reports.len() <= more.len(),
        reports == more.subrange(0, reports.len() as int),
    ensures
        completion_count(reports) <= completion_count(more),
    decreases more.len(),
{
    if reports.len() == more.len() {
        assert(more.subrange(0, more.len() as int) =~= more);
    } else {
        assert(more.drop_last().subrange(0, reports.len() as int) =~= more.subrange(
            0,
            reports.len() as int,
        ));
        lemma_completions_grow(reports, more.drop_last());
    }
}

/// The session after several rounds.
pub open spec fn after_rounds(progress: Progress, rounds: Seq<Round>) -> Progress
    decreases rounds.len(),
{
    if rounds.len() == 0 {
        progress
    } else {
        after_rounds(progress, rounds.drop_last()).after_all(rounds.last().turns())
    }
}

/// A live session whose walk is over reports at least one completion for each
/// query that it is given and that it is left to settle.
pub proof fn law_each_query_brings_a_completion(progress: Progress, rounds: Seq<Round>)
    requires
        !progress.ended,
        progress.schedule.walk_complete,
        forall|i: int| 0 <= i < rounds.len() ==> (#[trigger] rounds[i]).keeps_running(),
    ensures
        !after_rounds(progress, rounds).ended,
        after_rounds(progress, rounds).schedule.walk_complete,
        completion_count(after_rounds(progress, rounds).reports) >= completion_count(
            progress.reports,
        ) + rounds.len(),
    decreases rounds.len(),
{
    if rounds.len() > 0 {
        let fewer = rounds.drop_last();
        assert forall|i: int| 0 <= i < fewer.len() implies (#[trigger] fewer[i]).keeps_running() by {
            assert(fewer[i] == rounds[i]);
        }
        law_each_query_brings_a_completion(progress, fewer);
        assert(rounds[rounds.len() - 1].keeps_running());
        law_live_query_is_followed_by_a_completion(
            after_rounds(progress, fewer),
            rounds.last(),
        );
    }
}

/// What a session remembers changes with the signal that says so, and with no
/// other: the last query with a query, and the end of the walk with its end, for
/// good. After any signal but the last one a tick is owed.
pub proof fn law_signals_are_remembered(schedule: ScheduleView, signal: SignalView)
    ensures
        ({
            let after = schedule.after_signal(signal);
            &&& signal matches SignalView::QueryUpdated(query) ==> after.last_query == query
            &&& !(signal is QueryUpdated) ==> after.last_query == schedule.last_query
            &&& after.walk_complete <==> schedule.walk_complete || signal is WalkComplete
            &&& !(signal is Shutdown) ==> after.will_notify
            &&& signal is Shutdown ==> after.will_notify == schedule.will_notify
        }),
{
}

/// Signals and what is remembered of them are seen as they are.
pub proof fn law_signals_are_seen_as_they_are(signal: WorkSignal, schedule: Schedule)
    ensures
        signal matches WorkSignal::QueryUpdated(query) ==> signal@ == SignalView::QueryUpdated(
            query@,
        ),
        signal is NucleoNotify <==> signal@ is NucleoNotify,
        signal is WalkComplete <==> signal@ is WalkComplete,
        signal is Shutdown <==> signal@ is Shutdown,
        schedule@.last_query == schedule.last_query@,
        schedule@.will_notify == schedule.will_notify,
        schedule@.walk_complete == schedule.walk_complete,
{
}

/// The session ends at a shutdown and at no other signal. A query sets the timer
/// to no delay whatever else is owed. News and the end of the walk leave a timer
/// alone that runs already; otherwise news is collected for ten milliseconds,
/// and the end of the walk is looked at once.
pub proof fn law_signals_set_the_timer(schedule: ScheduleView, signal: SignalView)
    ensures
        ({
            let reaction = schedule.reaction(signal);
            &&& reaction is Exit <==> signal is Shutdown
            &&& reaction is Wait <==> schedule.will_notify && (signal is NucleoNotify
                || signal is WalkComplete)
            &&& reaction == Reaction::TickAfter(10) <==> !schedule.will_notify
                && signal is NucleoNotify
            &&& reaction == Reaction::TickAfter(0) <==> signal is QueryUpdated || (
            !schedule.will_notify && signal is WalkComplete)
        }),
{
}

/// Whether a tick is asked for and whether one is owed go together: a signal
/// that sets the timer leaves a tick owed, and one that leaves the timer alone
/// leaves what is owed as it was.
pub proof fn law_timer_follows_what_is_owed(progress: Progress, signal: SignalView)
    ensures
        ({
            let after = progress.turned(Turn::Signal(signal));
            &&& progress.schedule.reaction(signal) matches Reaction::TickAfter(delay)
                ==> after.timer == Some(delay) && after.schedule.will_notify
            &&& !(progress.schedule.reaction(signal) is TickAfter) ==> after.timer
                == progress.timer && after.schedule.will_notify == progress.schedule.will_notify
            &&& after.reports == progress.reports
            &&& after.ended == progress.ended
            &&& after.schedule == progress.schedule.after_signal(signal)
        }),
{
}

/// A due timer is spent: nothing is owed any more, and the query and the end of
/// the walk stay remembered.
pub proof fn law_due_timer_is_spent(progress: Progress, changed: bool, running: bool)
    ensures
        ({
            let after = progress.turned(Turn::Due { changed, running });
            &&& after.timer is None
            &&& !after.schedule.will_notify
            &&& after.schedule.last_query == progress.schedule.last_query
            &&& after.schedule.walk_complete == progress.schedule.walk_complete
            &&& after.ended == progress.ended
        }),
{
}

/// A tick completes the search exactly where the walk is over and the matcher is
/// left with nothing to do.
pub proof fn law_search_completes_when_all_is_done(schedule: ScheduleView, running: bool)
    ensures
        schedule.completes(running) <==> schedule.walk_complete && !running,
        schedule.after_due().completes(running) == schedule.completes(running),
{
}

/// A tick reports an update exactly where something changed, and a completion
/// exactly where the search is complete; the update comes first, and there is
/// nothing else.
pub proof fn law_tick_reports_each_once(changed: bool, completes: bool)
    ensures
        ({
            let reports = tick_reports(changed, completes);
            &&& reports.contains(Report::Update) <==> changed
            &&& reports.contains(Report::Complete) <==> completes
            &&& changed ==> reports.len() > 0 && reports[0] is Update
            &&& completes ==> reports.len() > 0 && reports.last() is Complete
            &&& reports.len() == (if changed {
                1int
            } else {
                0
            }) + (if completes {
                1int
            } else {
                0
            })
        }),
{
    let reports = tick_reports(changed, completes);
    if changed {
        assert(reports[0] == Report::Update);
    }
    if completes {
        assert(reports[reports.len() - 1] == Report::Complete);
    }
}

/// What was reported stays reported. A turn adds reports only where it is that
/// of the timer, and the end of the session adds one completion.
pub proof fn law_reports_are_added_by_ticks_and_the_end(progress: Progress, turn: Turn, stop: bool)
    ensures
        ({
            let turned = progress.turned(turn);
            let after = progress.after(turn, stop);
            let ends = stop || turn is HungUp || turn == Turn::Signal(SignalView::Shutdown);
            &&& !(turn is Due) ==> turned.reports == progress.reports
            &&& turn matches Turn::Due { changed, running } ==> turned.reports
                == progress.reports + tick_reports(
                changed,
                progress.schedule.walk_complete && !running,
            )
            &&& after.ended <==> progress.ended || ends
            &&& ends ==> after.reports == turned.reports.push(Report::Complete)
            &&& !ends ==> after == turned
            &&& after.schedule == turned.schedule
            &&& after.timer == turned.timer
        }),
{
}

/// Nothing changes in a turn in which nothing happened. Where nobody is left to
/// send a signal the session ends, and never because of the timer.
pub proof fn law_quiet_turn_changes_nothing(progress: Progress, changed: bool, running: bool)
    ensures
        progress.after(Turn::Quiet, false) == progress,
        progress.turned(Turn::HungUp) == progress,
        progress.exits(Turn::HungUp),
        !progress.exits(Turn::Quiet),
        !progress.exits(Turn::Due { changed, running }),
{
}

} // verus!
