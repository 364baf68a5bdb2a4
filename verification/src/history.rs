//! What is true of a session over its whole life: what its reports are on, and
//! that what they show is not out of date.

use crate::classify;
use crate::classify::{SearchItemView, TrackerView};
use crate::engine;
use crate::engine::{AddedEntry, MatchedRow};
use crate::paths;
use crate::ranking;
use crate::results::{FileMatchView, MatchType};
use crate::schedule::SignalView;
use crate::session;
use crate::session::{SessionEvent, SessionView, Told};
use crate::walk;
use vstd::prelude::*;

verus! {

/// Whether every row is that of an entry which a walk over these directories
/// finds.
pub open spec fn are_walked(rows: Seq<MatchedRow>, search_directories: Seq<Seq<char>>) -> bool {
    forall|i: int|
        0 <= i < rows.len() ==> walk::is_walked((#[trigger] rows[i]).entry(), search_directories)
}

/// Whether the match is of this query: its path matches with this score, and
/// its indices, where they were asked for, are the places in its path of the
/// characters that match, each once and in ascending order.
pub open spec fn is_match_of(found: FileMatchView, query: Seq<char>, with_indices: bool) -> bool {
    &&& engine::path_score(query, found.path) == Some(found.score)
    &&& found.indices is Some <==> with_indices
    &&& found.indices matches Some(indices) ==> {
        &&& ranking::lists_once(indices, engine::path_indices(query, found.path))
        &&& engine::are_places_in(indices, found.path)
    }
}

/// The match that a row makes is of the query that the row matches, by the path
/// that the entry was matched by.
pub proof fn law_match_is_of_the_query(
    row: MatchedRow,
    query: Seq<char>,
    search_directories: Seq<Seq<char>>,
    compute_indices: bool,
    match_type: MatchType,
)
    requires
        row.matches(query),
        walk::is_walked(row.entry(), search_directories),
    ensures
        ({
            let found = session::match_of(row, search_directories, compute_indices, match_type);
            &&& found.path == row.relative_path
            &&& is_match_of(found, query, compute_indices)
        }),
{
    ranking::law_listing_exists(row.indices);
    let listed = session::listed_once(row.indices);
    assert forall|i: int| 0 <= i < listed.len() implies #[trigger] listed[i]
        < row.relative_path.len() by {
        assert(listed.contains(listed[i]));
        let at = choose|at: int| 0 <= at < row.indices.len() && row.indices[at] == listed[i];
        assert(row.indices[at] < row.relative_path.len());
    }
}

/// Every match that a session shows is of its snapshot's query, and stands for
/// the row at the same place.
pub proof fn law_shown_matches_are_of_the_query(
    session: SessionView,
    usable: bool,
    kept: Map<u64, SearchItemView>,
    probes: Seq<bool>,
    matches: Seq<FileMatchView>,
)
    requires
        session.snapshot.is_of_its_query(),
        are_walked(session.snapshot.rows, session.search_directories),
        session.lists(matches, usable, kept, probes),
    ensures
        matches.len() == session.shown_rows().len(),
        forall|i: int|
            #![trigger matches[i]]
            0 <= i < matches.len() ==> {
                &&& matches[i].path == session.shown_rows()[i].relative_path
                &&& matches[i].score == session.shown_rows()[i].score
                &&& is_match_of(matches[i], session.snapshot.query, session.compute_indices)
            },
{
    let rows = session.shown_rows();
    let under = session::rows_under_roots(rows, session.search_directories);
    session::law_listing_keeps_the_order_of_the_rows(
        rows,
        session.search_directories,
        session.compute_indices,
        usable,
        kept,
        probes,
    );
    lemma_shown_rows_are_rows(session);
    lemma_all_rows_are_under_roots(rows, session.search_directories);
    assert(under == rows);
    assert forall|i: int| #![trigger matches[i]] 0 <= i < matches.len() implies {
        &&& matches[i].path == rows[i].relative_path
        &&& matches[i].score == rows[i].score
        &&& is_match_of(matches[i], session.snapshot.query, session.compute_indices)
    } by {
        assert(rows[i] == session.snapshot.rows[i]);
        assert(rows[i].matches(session.snapshot.query));
        law_match_is_of_the_query(
            rows[i],
            session.snapshot.query,
            session.search_directories,
            session.compute_indices,
            matches[i].match_type,
        );
    }
}

proof fn lemma_shown_rows_are_rows(session: SessionView)
    ensures
        session.shown_rows().len() <= session.snapshot.rows.len(),
        session.shown_rows().len() == (if session.limit < session.snapshot.rows.len() {
            session.limit
        } else {
            session.snapshot.rows.len()
        }),
        forall|i: int|
            0 <= i < session.shown_rows().len() ==> #[trigger] session.shown_rows()[i]
                == session.snapshot.rows[i],
        are_walked(session.snapshot.rows, session.search_directories) ==> are_walked(
            session.shown_rows(),
            session.search_directories,
        ),
{
    let rows = session.shown_rows();
    if are_walked(session.snapshot.rows, session.search_directories) {
        assert forall|i: int| 0 <= i < rows.len() implies walk::is_walked(
            (#[trigger] rows[i]).entry(),
            session.search_directories,
        ) by {
            assert(rows[i] == session.snapshot.rows[i]);
        }
    }
}

proof fn lemma_all_rows_are_under_roots(
    rows: Seq<MatchedRow>,
    search_directories: Seq<Seq<char>>,
)
    requires
        are_walked(rows, search_directories),
    ensures
        session::rows_under_roots(rows, search_directories) == rows,
    decreases rows.len(),
{
    reveal(Seq::filter);
    if rows.len() > 0 {
        let fewer = rows.drop_last();
        assert forall|i: int| 0 <= i < fewer.len() implies walk::is_walked(
            (#[trigger] fewer[i]).entry(),
            search_directories,
        ) by {
            assert(fewer[i] == rows[i]);
        }
        lemma_all_rows_are_under_roots(fewer, search_directories);
        assert(walk::is_walked(rows[rows.len() - 1].entry(), search_directories));
        assert(fewer.push(rows.last()) =~= rows);
    }
    assert(session::rows_under_roots(rows, search_directories) =~= rows);
}

/// What a match shows of a path depends on the query and on the path only: two
/// matches of the same query with the same path have the same score, and the same
/// indices where both were asked for them, whatever sessions they come from.
pub proof fn law_same_path_makes_the_same_match(
    left: FileMatchView,
    right: FileMatchView,
    query: Seq<char>,
    left_indices: bool,
    right_indices: bool,
)
    requires
        is_match_of(left, query, left_indices),
        is_match_of(right, query, right_indices),
        left.path == right.path,
    ensures
        left.score == right.score,
        left_indices && right_indices ==> left.indices == right.indices,
{
    if left_indices && right_indices {
        ranking::law_listing_is_unique(
            left.indices->0,
            right.indices->0,
            engine::path_indices(query, left.path),
        );
    }
}

/// Every report that a session makes, whether its matcher is busy or not, holds
/// the best of what was found: as many matches as there are or as the limit
/// allows, the best first, and none that is left out scores higher than one that
/// is shown. Each is an added entry that matches the query of the snapshot, and
/// there are no more of them than entries were scanned.
pub proof fn law_report_is_on_added_entries(session: SessionView)
    requires
        session.is_consistent(),
        session.reported is Some,
        forall|entry: AddedEntry| #[trigger]
            session.added.contains(entry) ==> walk::is_walked(entry, session.search_directories),
    ensures
        ({
            let report = session.reported->0;
            let matches = report.matches;
            let rows = session.snapshot.rows;
            &&& report.total_match_count == rows.len()
            &&& report.total_match_count <= report.scanned_file_count
            &&& matches.len() == (if session.limit < report.total_match_count {
                session.limit
            } else {
                report.total_match_count as nat
            })
            &&& forall|i: int, j: int|
                #![trigger matches[i], matches[j]]
                0 <= i < j < matches.len() ==> matches[i].score >= matches[j].score
            &&& forall|i: int, left_out: int|
                #![trigger matches[i], rows[left_out]]
                0 <= i < matches.len() <= left_out < rows.len() ==> matches[i].score
                    >= rows[left_out].score
            &&& forall|i: int|
                #![trigger matches[i]]
                0 <= i < matches.len() ==> {
                    &&& is_match_of(matches[i], session.snapshot.query, session.compute_indices)
                    &&& matches[i].path == session.snapshot.entries()[i].relative_path
                    &&& session.added.contains(session.snapshot.entries()[i])
                }
        }),
{
    let report = session.reported->0;
    let matches = report.matches;
    let rows = session.snapshot.rows;
    let (usable, kept, probes) = choose|
        usable: bool,
        kept: Map<u64, SearchItemView>,
        probes: Seq<bool>,
    | #[trigger] session.lists(matches, usable, kept, probes);
    lemma_rows_are_walked(session);
    law_shown_matches_are_of_the_query(session, usable, kept, probes, matches);
    lemma_shown_rows_are_rows(session);
    let shown = session.shown_rows();
    assert forall|i: int, j: int|
        #![trigger matches[i], matches[j]]
        0 <= i < j < matches.len() implies matches[i].score >= matches[j].score by {
        assert(shown[i] == rows[i] && shown[j] == rows[j]);
    }
    assert forall|i: int, left_out: int|
        #![trigger matches[i], rows[left_out]]
        0 <= i < matches.len() <= left_out < rows.len() implies matches[i].score
        >= rows[left_out].score by {
        assert(shown[i] == rows[i]);
    }
    assert forall|i: int| #![trigger matches[i]] 0 <= i < matches.len() implies {
        &&& is_match_of(matches[i], session.snapshot.query, session.compute_indices)
        &&& matches[i].path == session.snapshot.entries()[i].relative_path
        &&& session.added.contains(session.snapshot.entries()[i])
    } by {
        assert(shown[i] == rows[i]);
        assert(session.added.contains(rows[i].entry()));
    }
}

/// Once a session is settled, its last report is on the last query and takes
/// account of every entry that was added: it counts them, and every match that it
/// shows is one of them and matches that query.
pub proof fn law_settled_report_is_on_everything(session: SessionView)
    requires
        session.is_consistent(),
        session.is_settled(),
        session.reported is Some,
        forall|entry: AddedEntry| #[trigger]
            session.added.contains(entry) ==> walk::is_walked(entry, session.search_directories),
    ensures
        ({
            let report = session.reported->0;
            let matches = report.matches;
            &&& report.query == session.schedule().last_query
            &&& report.scanned_file_count == session.added.len()
            &&& forall|i: int|
                #![trigger matches[i]]
                0 <= i < matches.len() ==> {
                    &&& is_match_of(matches[i], report.query, session.compute_indices)
                    &&& matches[i].path == session.snapshot.entries()[i].relative_path
                    &&& session.added.contains(session.snapshot.entries()[i])
                }
        }),
{
    law_report_is_on_added_entries(session);
}

proof fn lemma_rows_are_walked(session: SessionView)
    requires
        session.snapshot.is_made_of(session.added),
        forall|entry: AddedEntry| #[trigger]
            session.added.contains(entry) ==> walk::is_walked(entry, session.search_directories),
    ensures
        are_walked(session.snapshot.rows, session.search_directories),
{
    let rows = session.snapshot.rows;
    assert forall|i: int| 0 <= i < rows.len() implies walk::is_walked(
        (#[trigger] rows[i]).entry(),
        session.search_directories,
    ) by {
        assert(session.added.contains(rows[i].entry()));
    }
}

/// A search for one query finds what matches: once it is settled, its report has
/// as its total the number of added entries that match. Where these are no more
/// than the limit allows, it shows each of them, and each once: its matches stand
/// for these entries, one by one.
pub proof fn law_search_finds_every_match(session: SessionView)
    requires
        session.is_consistent(),
        session.is_settled(),
        session.given.parses <= 1,
        session.reported is Some,
        forall|entry: AddedEntry| #[trigger]
            session.added.contains(entry) ==> walk::is_walked(entry, session.search_directories),
    ensures
        ({
            let report = session.reported->0;
            let matches = report.matches;
            let entries = session.snapshot.entries();
            let found = engine::matches_among(session.added, report.query);
            &&& report.total_match_count == found.len()
            &&& entries.to_multiset() == found
            &&& forall|i: int|
                #![trigger matches[i]]
                0 <= i < matches.len() ==> matches[i].path == entries[i].relative_path
            &&& report.total_match_count <= session.limit ==> {
                &&& matches.len() == found.len()
                &&& forall|entry: AddedEntry| #[trigger]
                    session.added.contains(entry) && engine::path_score(
                        report.query,
                        entry.relative_path,
                    ) is Some ==> exists|i: int|
                        0 <= i < matches.len() && (#[trigger] matches[i]).path
                            == entry.relative_path
            }
        }),
{
    broadcast use {vstd::multiset::group_multiset_axioms, vstd::seq_lib::group_to_multiset_ensures};

    let report = session.reported->0;
    let matches = report.matches;
    let entries = session.snapshot.entries();
    let found = engine::matches_among(session.added, report.query);
    law_report_is_on_added_entries(session);
    let shown = session.shown_rows();
    lemma_shown_rows_are_rows(session);
    assert(entries.to_multiset() == found);
    assert(entries.len() == found.len());
    if report.total_match_count <= session.limit {
        assert forall|entry: AddedEntry| #[trigger]
            session.added.contains(entry) && engine::path_score(
                report.query,
                entry.relative_path,
            ) is Some implies exists|i: int|
            0 <= i < matches.len() && (#[trigger] matches[i]).path == entry.relative_path by {
            assert(session.added.to_multiset().count(entry) > 0);
            assert(engine::matching(report.query)(entry));
            assert(found.count(entry) > 0);
            assert(entries.contains(entry));
            let i = choose|i: int| 0 <= i < entries.len() && entries[i] == entry;
            assert(matches[i].path == entries[i].relative_path);
        }
    }
}

/// Sequences of the same things, put in any order, map to sequences of the same
/// things.
proof fn lemma_map_keeps_multisets<A, B>(left: Seq<A>, right: Seq<A>, f: spec_fn(A) -> B)
    requires
        left.to_multiset() == right.to_multiset(),
    ensures
        left.map_values(f).to_multiset() == right.map_values(f).to_multiset(),
    decreases left.len(),
{
    broadcast use {vstd::multiset::group_multiset_axioms, vstd::seq_lib::group_to_multiset_ensures};

    vstd::seq_lib::to_multiset_len(left);
    vstd::seq_lib::to_multiset_len(right);
    if left.len() == 0 {
        assert(left.map_values(f) =~= right.map_values(f));
    } else {
        let last = left.last();
        let fewer = left.drop_last();
        assert(left =~= fewer.push(last));
        assert(left.to_multiset().count(last) > 0);
        assert(right.contains(last));
        let at = choose|at: int| 0 <= at < right.len() && right[at] == last;
        let rest = right.remove(at);
        assert(fewer.to_multiset() =~= left.to_multiset().remove(last));
        assert(rest.to_multiset() =~= right.to_multiset().remove(last));
        lemma_map_keeps_multisets(fewer, rest, f);
        assert(left.map_values(f) =~= fewer.map_values(f).push(f(last)));
        assert(rest.map_values(f) =~= right.map_values(f).remove(at));
        assert(right.map_values(f).remove(at).to_multiset() =~= right.map_values(
            f,
        ).to_multiset().remove(f(last)));
        assert(right.map_values(f)[at] == f(last));
        assert(right.map_values(f).to_multiset() =~= right.map_values(f).to_multiset().remove(
            f(last),
        ).insert(f(last)));
    }
}

/// Two searches for the same query come to the same scores in the same order
/// where the same entries were added, in whatever order that was, and to the same
/// number of matches.
pub proof fn law_same_entries_make_the_same_scores(left: SessionView, right: SessionView)
    requires
        left.is_consistent(),
        right.is_consistent(),
        left.is_settled(),
        right.is_settled(),
        left.given.parses <= 1,
        right.given.parses <= 1,
        left.schedule().last_query == right.schedule().last_query,
        left.added.to_multiset() == right.added.to_multiset(),
    ensures
        left.snapshot.rows.len() == right.snapshot.rows.len(),
        left.snapshot.item_count == right.snapshot.item_count,
        forall|i: int|
            0 <= i < left.snapshot.rows.len() ==> (#[trigger] left.snapshot.rows[i]).score
                == right.snapshot.rows[i].score,
{
    broadcast use {vstd::multiset::group_multiset_axioms, vstd::seq_lib::group_to_multiset_ensures};

    let query = left.schedule().last_query;
    let score = |entry: AddedEntry| engine::path_score(query, entry.relative_path)->0;
    let left_entries = left.snapshot.entries();
    let right_entries = right.snapshot.entries();
    let falling = |one: u32, other: u32| one >= other;
    vstd::seq_lib::to_multiset_len(left.added);
    vstd::seq_lib::to_multiset_len(right.added);
    assert(left_entries.to_multiset() == right_entries.to_multiset());
    lemma_map_keeps_multisets(left_entries, right_entries, score);
    lemma_scores_fall(left, query);
    lemma_scores_fall(right, query);
    let left_scores = left_entries.map_values(score);
    let right_scores = right_entries.map_values(score);
    assert(vstd::relations::sorted_by(left_scores, falling));
    assert(vstd::relations::sorted_by(right_scores, falling));
    vstd::seq_lib::lemma_sorted_unique(left_scores, right_scores, falling);
    assert(left_scores.len() == right_scores.len());
    assert forall|i: int| 0 <= i < left.snapshot.rows.len() implies (
    #[trigger] left.snapshot.rows[i]).score == right.snapshot.rows[i].score by {
        assert(left_scores[i] == right_scores[i]);
        assert(left.snapshot.rows[i].matches(query));
        assert(right.snapshot.rows[i].matches(query));
    }
}

proof fn lemma_scores_fall(session: SessionView, query: Seq<char>)
    requires
        session.is_consistent(),
        session.snapshot.query == query,
    ensures
        forall|i: int, j: int|
            0 <= i < j < session.snapshot.rows.len() ==> engine::path_score(
                query,
                (#[trigger] session.snapshot.entries()[i]).relative_path,
            )->0 >= engine::path_score(
                query,
                (#[trigger] session.snapshot.entries()[j]).relative_path,
            )->0,
{
    let rows = session.snapshot.rows;
    assert forall|i: int, j: int| 0 <= i < j < rows.len() implies engine::path_score(
        query,
        (#[trigger] session.snapshot.entries()[i]).relative_path,
    )->0 >= engine::path_score(
        query,
        (#[trigger] session.snapshot.entries()[j]).relative_path,
    )->0 by {
        assert(rows[i].matches(query) && rows[j].matches(query));
        assert(rows[i].score >= rows[j].score);
    }
}

/// The scanned count stays: whatever queries come between, two reports of
/// settled sessions count the same entries where none was added meanwhile.
pub proof fn law_scanned_count_stays(session: SessionView, events: Seq<SessionEvent>)
    requires
        session.is_settled(),
        session.reported is Some,
        session.allows_all(events),
        session.after_all(events).is_settled(),
        session.after_all(events).reported is Some,
        session.after_all(events).added == session.added,
    ensures
        session.after_all(events).reported->0.scanned_file_count
            == session.reported->0.scanned_file_count,
{
}

/// Whatever happens to a session, the entries that were counted stay counted,
/// and no later snapshot takes account of fewer.
pub proof fn law_counts_never_fall(session: SessionView, events: Seq<SessionEvent>)
    requires
        session.allows_all(events),
    ensures
        session.added.is_prefix_of(session.after_all(events).added),
        session.snapshot.item_count <= session.after_all(events).snapshot.item_count,
    decreases events.len(),
{
    if events.len() == 0 {
        assert(session.added =~= session.added.subrange(0, session.added.len() as int));
    } else {
        law_counts_never_fall(session, events.drop_last());
        let between = session.after_all(events.drop_last()).added;
        let after = session.after_all(events).added;
        assert(between.is_prefix_of(after)) by {
            if events.last() is Signal {
                assert(between =~= after.subrange(0, between.len() as int));
            }
        }
        assert(session.added =~= after.subrange(0, session.added.len() as int)) by {
            assert(session.added =~= between.subrange(0, session.added.len() as int));
            assert(between =~= after.subrange(0, between.len() as int));
        }
    }
}

/// The session that a search for a query starts with.
pub open spec fn searching(
    search_directories: Seq<Seq<char>>,
    limit: nat,
    threads: nat,
    compute_indices: bool,
    watches_available: bool,
    query: Seq<char>,
) -> SessionView {
    SessionView::fresh(
        search_directories,
        limit,
        threads,
        compute_indices,
        watches_available,
    ).after_signal(SignalView::QueryUpdated(query))
}

proof fn lemma_search_starts_consistent(
    search_directories: Seq<Seq<char>>,
    limit: nat,
    threads: nat,
    compute_indices: bool,
    watches_available: bool,
    query: Seq<char>,
)
    requires
        limit > 0,
    ensures
        searching(
            search_directories,
            limit,
            threads,
            compute_indices,
            watches_available,
            query,
        ).is_consistent(),
{
    session::law_every_event_keeps_consistency(
        SessionView::fresh(
            search_directories,
            limit,
            threads,
            compute_indices,
            watches_available,
        ),
        SessionEvent::Signal(SignalView::QueryUpdated(query)),
    );
}

/// The limit cuts what a search returns and nothing else: of two searches that
/// differ in their limit, to which the same entries were added, the one with the
/// lower limit returns the same total, and the same scores up to its limit.
pub proof fn law_limit_only_cuts_what_a_search_returns(
    search_directories: Seq<Seq<char>>,
    lower_limit: nat,
    higher_limit: nat,
    threads: nat,
    compute_indices: bool,
    watches_available: bool,
    query: Seq<char>,
    lower_events: Seq<SessionEvent>,
    higher_events: Seq<SessionEvent>,
)
    requires
        0 < lower_limit <= higher_limit,
        ({
            let start = searching(
                search_directories,
                lower_limit,
                threads,
                compute_indices,
                watches_available,
                query,
            );
            let other = searching(
                search_directories,
                higher_limit,
                threads,
                compute_indices,
                watches_available,
                query,
            );
            let lower = start.after_all(lower_events);
            let higher = other.after_all(higher_events);
            &&& start.allows_all(lower_events)
            &&& other.allows_all(higher_events)
            &&& lower.is_settled()
            &&& higher.is_settled()
            &&& lower.given.parses == 1
            &&& higher.given.parses == 1
            &&& lower.schedule().last_query == query
            &&& higher.schedule().last_query == query
            &&& lower.reported is Some
            &&& higher.reported is Some
            &&& lower.added.to_multiset() == higher.added.to_multiset()
            &&& forall|entry: AddedEntry| #[trigger]
                lower.added.contains(entry) ==> walk::is_walked(entry, search_directories)
        }),
    ensures
        ({
            let lower = searching(
                search_directories,
                lower_limit,
                threads,
                compute_indices,
                watches_available,
                query,
            ).after_all(lower_events).reported->0;
            let higher = searching(
                search_directories,
                higher_limit,
                threads,
                compute_indices,
                watches_available,
                query,
            ).after_all(higher_events).reported->0;
            &&& lower.total_match_count == higher.total_match_count
            &&& lower.matches.len() == (if lower_limit < lower.total_match_count {
                lower_limit
            } else {
                lower.total_match_count as nat
            })
            &&& lower.matches.len() <= higher.matches.len()
            &&& forall|i: int|
                0 <= i < lower.matches.len() ==> (#[trigger] lower.matches[i]).score
                    == higher.matches[i].score
        }),
{
    let start = searching(
        search_directories,
        lower_limit,
        threads,
        compute_indices,
        watches_available,
        query,
    );
    let other = searching(
        search_directories,
        higher_limit,
        threads,
        compute_indices,
        watches_available,
        query,
    );
    lemma_search_starts_consistent(
        search_directories,
        lower_limit,
        threads,
        compute_indices,
        watches_available,
        query,
    );
    lemma_search_starts_consistent(
        search_directories,
        higher_limit,
        threads,
        compute_indices,
        watches_available,
        query,
    );
    session::law_sessions_stay_consistent(start, lower_events);
    session::law_sessions_stay_consistent(other, higher_events);
    let lower = start.after_all(lower_events);
    let higher = other.after_all(higher_events);
    law_same_entries_make_the_same_scores(lower, higher);
    assert forall|entry: AddedEntry| #[trigger] higher.added.contains(entry) implies walk::is_walked(
        entry,
        search_directories,
    ) by {
        broadcast use vstd::seq_lib::group_to_multiset_ensures;

        assert(higher.added.to_multiset().count(entry) > 0);
        assert(lower.added.contains(entry));
    }
    lemma_rows_are_walked(lower);
    lemma_rows_are_walked(higher);
    lemma_report_scores(lower);
    lemma_report_scores(higher);
    let fewer = lower.reported->0.matches;
    let more = higher.reported->0.matches;
    assert forall|i: int| 0 <= i < fewer.len() implies (#[trigger] fewer[i]).score
        == more[i].score by {
        assert(lower.snapshot.rows[i].score == higher.snapshot.rows[i].score);
    }
}

/// A report shows the scores of the first rows, up to the limit.
proof fn lemma_report_scores(session: SessionView)
    requires
        session.is_consistent(),
        session.reported is Some,
        are_walked(session.snapshot.rows, session.search_directories),
    ensures
        ({
            let matches = session.reported->0.matches;
            &&& matches.len() == (if session.limit < session.snapshot.rows.len() {
                session.limit
            } else {
                session.snapshot.rows.len()
            })
            &&& forall|i: int|
                0 <= i < matches.len() ==> (#[trigger] matches[i]).score
                    == session.snapshot.rows[i].score
        }),
{
    let matches = session.reported->0.matches;
    let (usable, kept, probes) = choose|
        usable: bool,
        kept: Map<u64, SearchItemView>,
        probes: Seq<bool>,
    | #[trigger] session.lists(matches, usable, kept, probes);
    law_shown_matches_are_of_the_query(session, usable, kept, probes, matches);
    lemma_shown_rows_are_rows(session);
    assert forall|i: int| 0 <= i < matches.len() implies (#[trigger] matches[i]).score
        == session.snapshot.rows[i].score by {
        assert(session.shown_rows()[i] == session.snapshot.rows[i]);
    }
}

/// Something that happens to a session, and the paths of all directories there
/// are at the time.
pub struct Moment {
    pub event: SessionEvent,
    pub directories: Set<Seq<char>>,
}

/// What happens, one after the other.
pub open spec fn events_of(moments: Seq<Moment>) -> Seq<SessionEvent> {
    Seq::new(moments.len(), |i: int| moments[i].event)
}

/// Whether the session looks at its snapshot in this moment.
pub open spec fn is_look(moment: Moment) -> bool {
    moment.event matches SessionEvent::Tick { told, .. } && told is Some
}

/// The directories that there were at the last look, if there was one.
pub open spec fn last_seen(moments: Seq<Moment>) -> Set<Seq<char>>
    decreases moments.len(),
{
    if moments.len() == 0 {
        Set::empty()
    } else if is_look(moments.last()) {
        moments.last().directories
    } else {
        last_seen(moments.drop_last())
    }
}

/// Whether every directory above the path is watched.
pub open spec fn is_covered(tracker: TrackerView, path: Seq<char>) -> bool {
    forall|i: int|
        0 <= i < paths::ancestors(path).len() ==> tracker.is_watched(
            #[trigger] paths::ancestors(path)[i],
        )
}

/// Whether the world keeps to what a session goes by in this moment: a number
/// stands for one path, the file system says what is there, and watches that
/// have nothing to report were right to: at the paths that they cover, nothing
/// has changed since the last look.
pub open spec fn is_faithful(
    session: SessionView,
    moment: Moment,
    seen: Set<Seq<char>>,
    path_of: spec_fn(u64) -> Seq<char>,
) -> bool {
    match moment.event {
        SessionEvent::Tick { snapshot, added, running, told: Some(told) } => {
            let rows = session.ticked(snapshot, added, running).shown_rows();
            &&& told.watches.len() == session::directories_above(rows).len()
            &&& told.probes.len() == rows.len()
            &&& forall|i: int|
                #![trigger rows[i]]
                0 <= i < rows.len() ==> {
                    &&& rows[i].full_path == path_of(rows[i].id)
                    &&& told.probes[i] == moment.directories.contains(rows[i].full_path)
                }
            &&& told.clean ==> forall|path: Seq<char>| #[trigger]
                is_covered(session.tracker, path) ==> (moment.directories.contains(path)
                    <==> seen.contains(path))
        },
        _ => true,
    }
}

/// Whether the world keeps to what a session goes by in each of the moments.
pub open spec fn are_faithful(
    session: SessionView,
    moments: Seq<Moment>,
    path_of: spec_fn(u64) -> Seq<char>,
) -> bool
    decreases moments.len(),
{
    moments.len() > 0 ==> {
        let earlier = moments.drop_last();
        &&& are_faithful(session, earlier, path_of)
        &&& is_faithful(
            session.after_all(events_of(earlier)),
            moments.last(),
            last_seen(earlier),
            path_of,
        )
    }
}

/// Whether what the session keeps can be relied on: while answers may be used,
/// none was out of date at the last look, and every directory above an entry that
/// has one is watched.
pub open spec fn can_rely_on_answers(
    session: SessionView,
    seen: Set<Seq<char>>,
    path_of: spec_fn(u64) -> Seq<char>,
) -> bool {
    &&& session::answers_by_path(session.kept, path_of)
    &&& !session.tracker.dirty ==> {
        &&& session::answers_hold(session.kept, seen)
        &&& forall|id: u64| #[trigger]
            session.kept.contains_key(id) && session.kept[id].usable_type() is Some ==> is_covered(
                session.tracker,
                session.kept[id].full_path,
            )
    }
}

/// Whether the matches show what is at the paths of the rows that they stand for.
pub open spec fn show_what_is_there(
    matches: Seq<FileMatchView>,
    rows: Seq<MatchedRow>,
    directories: Set<Seq<char>>,
) -> bool {
    &&& matches.len() == rows.len()
    &&& forall|i: int|
        #![trigger matches[i]]
        0 <= i < matches.len() ==> matches[i].match_type == session::type_among(
            directories,
            rows[i].full_path,
        )
}

/// What a look keeps of answers comes from before or from a shown row.
proof fn lemma_answers_come_from_rows(
    rows: Seq<MatchedRow>,
    search_directories: Seq<Seq<char>>,
    compute_indices: bool,
    usable: bool,
    kept: Map<u64, SearchItemView>,
    probes: Seq<bool>,
    id: u64,
)
    ensures
        ({
            let after = session::listing(
                rows,
                search_directories,
                compute_indices,
                usable,
                kept,
                probes,
            ).kept;
            after.contains_key(id) ==> {
                ||| kept.contains_key(id) && after[id] == kept[id]
                ||| exists|i: int|
                    #![trigger rows[i]]
                    0 <= i < rows.len() && after[id].full_path == rows[i].full_path
                        && after[id].cacheable_match_type == rows[i].cacheable
            }
        }),
    decreases rows.len(),
{
    if rows.len() > 0 {
        let fewer = rows.drop_last();
        let row = rows.last();
        lemma_answers_come_from_rows(
            fewer,
            search_directories,
            compute_indices,
            usable,
            kept,
            probes.drop_last(),
            id,
        );
        let before = session::listing(
            fewer,
            search_directories,
            compute_indices,
            usable,
            kept,
            probes.drop_last(),
        ).kept;
        let after = session::listing(
            rows,
            search_directories,
            compute_indices,
            usable,
            kept,
            probes,
        ).kept;
        classify::law_classification_is_given_back(
            session::entry_of(row),
            session::settled_type(before, row, usable, probes.last()),
        );
        assert(rows[rows.len() - 1] == row);
        if after.contains_key(id) && before.contains_key(id) && after[id] == before[id] {
            if !(kept.contains_key(id) && before[id] == kept[id]) {
                let i = choose|i: int|
                    #![trigger fewer[i]]
                    0 <= i < fewer.len() && before[id].full_path == fewer[i].full_path
                        && before[id].cacheable_match_type == fewer[i].cacheable;
                assert(rows[i] == fewer[i]);
            }
        }
    }
}

/// A directory that is watched stays so, and what a watch covers stays covered.
proof fn lemma_stays_covered(before: TrackerView, after: TrackerView, path: Seq<char>)
    requires
        before.watched.is_prefix_of(after.watched),
        is_covered(before, path),
    ensures
        is_covered(after, path),
{
    assert forall|i: int| 0 <= i < paths::ancestors(path).len() implies after.is_watched(
        #[trigger] paths::ancestors(path)[i],
    ) by {
        let components = paths::components(paths::ancestors(path)[i]);
        assert(before.is_watched(paths::ancestors(path)[i]));
        let at = choose|at: int|
            0 <= at < before.watched.len() && before.watched[at] == components;
        assert(after.watched.subrange(0, before.watched.len() as int)[at] == components);
        assert(after.watched[at] == components);
    }
}

/// A moment in which the world is faithful leaves the session with answers that
/// can be relied on, and where it looks, it shows what is there.
pub proof fn law_shown_types_are_up_to_date(
    session: SessionView,
    moment: Moment,
    seen: Set<Seq<char>>,
    path_of: spec_fn(u64) -> Seq<char>,
)
    requires
        can_rely_on_answers(session, seen, path_of),
        is_faithful(session, moment, seen, path_of),
    ensures
        ({
            let after = session.after(moment.event);
            let rows = session::rows_under_roots(after.shown_rows(), after.search_directories);
            if is_look(moment) {
                &&& can_rely_on_answers(after, moment.directories, path_of)
                &&& after.reported is Some
                &&& show_what_is_there(after.reported->0.matches, rows, moment.directories)
            } else {
                can_rely_on_answers(after, seen, path_of)
            }
        }),
{
    match moment.event {
        SessionEvent::Tick { snapshot, added, running, told: Some(told) } => {
            lemma_look_is_up_to_date(session, snapshot, added, running, told, moment, seen, path_of);
        },
        _ => {},
    }
}

proof fn lemma_look_is_up_to_date(
    session: SessionView,
    snapshot: engine::MatcherSnapshot,
    added: Seq<AddedEntry>,
    running: bool,
    told: Told,
    moment: Moment,
    seen: Set<Seq<char>>,
    path_of: spec_fn(u64) -> Seq<char>,
)
    requires
        can_rely_on_answers(session, seen, path_of),
        is_faithful(session, moment, seen, path_of),
        moment.event == (SessionEvent::Tick { snapshot, added, running, told: Some(told) }),
    ensures
        ({
            let after = session.after(moment.event);
            let rows = session::rows_under_roots(after.shown_rows(), after.search_directories);
            &&& can_rely_on_answers(after, moment.directories, path_of)
            &&& after.reported is Some
            &&& show_what_is_there(after.reported->0.matches, rows, moment.directories)
        }),
{
    let due = session.ticked(snapshot, added, running).after_due(true, running);
    let after = session.after(moment.event);
    assert(after == due.looked(told));
    let rows = due.shown_rows();
    assert(rows == session.ticked(snapshot, added, running).shown_rows());
    let above = session::directories_above(rows);
    let watching = due.tracker_watching(told);
    let tracker = due.tracker_after(told);
    let usable = !tracker.dirty;
    classify::law_all_watched_or_dirty(session.tracker, above, told.watches);
    if usable {
        assert(!watching.dirty && told.clean && !session.tracker.dirty);
        assert forall|id: u64| #[trigger] session.kept.contains_key(id) implies (
        session.kept[id].usable_type() matches Some(match_type) ==> match_type
            == session::type_among(moment.directories, session.kept[id].full_path)) by {
            if session.kept[id].usable_type() is Some {
                assert(is_covered(session.tracker, session.kept[id].full_path));
            }
        }
        assert(session::answers_hold(session.kept, moment.directories));
    }
    session::law_shown_types_hold(
        rows,
        session.search_directories,
        session.compute_indices,
        usable,
        session.kept,
        told.probes,
        path_of,
        moment.directories,
    );
    if usable {
        assert forall|id: u64| #[trigger]
            after.kept.contains_key(id) && after.kept[id].usable_type() is Some implies is_covered(
            tracker,
            after.kept[id].full_path,
        ) by {
            lemma_answers_come_from_rows(
                rows,
                session.search_directories,
                session.compute_indices,
                usable,
                session.kept,
                told.probes,
                id,
            );
            if session.kept.contains_key(id) && after.kept[id] == session.kept[id] {
                lemma_stays_covered(session.tracker, tracker, session.kept[id].full_path);
            } else {
                let i = choose|i: int|
                    #![trigger rows[i]]
                    0 <= i < rows.len() && after.kept[id].full_path == rows[i].full_path
                        && after.kept[id].cacheable_match_type == rows[i].cacheable;
                lemma_shown_row_is_covered(session.tracker, rows, told, i);
            }
        }
    }
}

proof fn lemma_shown_row_is_covered(
    tracker: TrackerView,
    rows: Seq<MatchedRow>,
    told: Told,
    row: int,
)
    requires
        told.watches.len() == session::directories_above(rows).len(),
        0 <= row < rows.len(),
        rows[row].cacheable,
        !tracker.after_watches(session::directories_above(rows), told.watches).after_read(
            told.clean,
        ).dirty,
    ensures
        is_covered(
            tracker.after_watches(session::directories_above(rows), told.watches).after_read(
                told.clean,
            ),
            rows[row].full_path,
        ),
{
    let after = tracker.after_watches(session::directories_above(rows), told.watches).after_read(
        told.clean,
    );
    assert forall|i: int| 0 <= i < paths::ancestors(rows[row].full_path).len() implies
        after.is_watched(#[trigger] paths::ancestors(rows[row].full_path)[i]) by {
        session::law_reuse_needs_every_ancestor_watched(
            tracker,
            rows,
            told.watches,
            told.clean,
            row,
            i,
        );
    }
}

/// A session that begins with nothing kept shows, whenever it looks at its
/// snapshot, what is there at the time, as long as the world is faithful: a type
/// is never shown once it is out of date, whatever changed between the looks.
pub proof fn law_types_are_up_to_date_for_life(
    session: SessionView,
    moments: Seq<Moment>,
    path_of: spec_fn(u64) -> Seq<char>,
)
    requires
        session.kept == Map::<u64, SearchItemView>::empty(),
        are_faithful(session, moments, path_of),
    ensures
        ({
            let after = session.after_all(events_of(moments));
            let rows = session::rows_under_roots(after.shown_rows(), after.search_directories);
            &&& can_rely_on_answers(after, last_seen(moments), path_of)
            &&& moments.len() > 0 && is_look(moments.last()) ==> {
                &&& after.reported is Some
                &&& show_what_is_there(
                    after.reported->0.matches,
                    rows,
                    moments.last().directories,
                )
            }
        }),
    decreases moments.len(),
{
    let events = events_of(moments);
    if moments.len() > 0 {
        let earlier = moments.drop_last();
        law_types_are_up_to_date_for_life(session, earlier, path_of);
        assert(events.drop_last() =~= events_of(earlier));
        law_shown_types_are_up_to_date(
            session.after_all(events_of(earlier)),
            moments.last(),
            last_seen(earlier),
            path_of,
        );
    }
}

} // verus!
