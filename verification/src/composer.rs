//! Which file searches typing into a composer starts.

use crate::text;
use vstd::prelude::*;

verus! {

/// What a composer tells the application.
#[derive(Debug)]
pub enum AppEvent {
    /// Files are to be searched for with this query.
    StartFileSearch(String),
    /// Anything else.
    Other,
}

/// The query that an event asks for, if it asks for one.
pub open spec fn query_of(event: AppEvent) -> Option<Seq<char>> {
    match event {
        AppEvent::StartFileSearch(query) => Some(query@),
        AppEvent::Other => None,
    }
}

/// The queries that events ask for, one after the other, without empty ones
/// and without those that only repeat the one before.
pub open spec fn distinct_queries(events: Seq<Option<Seq<char>>>) -> Seq<Seq<char>>
    decreases events.len(),
{
    if events.len() == 0 {
        Seq::empty()
    } else {
        let before = distinct_queries(events.drop_last());
        match events.last() {
            Some(query) => if query.len() > 0 && !(before.len() > 0 && before.last() == query) {
                before.push(query)
            } else {
                before
            },
            None => before,
        }
    }
}

/// The queries that a sequence of events asks for.
pub open spec fn queries_of(events: Seq<AppEvent>) -> Seq<Option<Seq<char>>> {
    Seq::new(events.len(), |i: int| query_of(events[i]))
}

/// Lists the queries that the events ask for, without empty ones and without
/// those that only repeat the one before.
pub fn file_search_queries(events: &Vec<AppEvent>) -> (queries: Vec<String>)
    ensures
        text::texts(queries@) == distinct_queries(queries_of(events@)),
{
    let mut queries: Vec<String> = Vec::new();
    let ghost asked = queries_of(events@);
    assert(asked.take(0) =~= Seq::empty());
    assert(text::texts(queries@) =~= Seq::empty());
    for i in 0..events.len()
        invariant
            asked == queries_of(events@),
            text::texts(queries@) == distinct_queries(asked.take(i as int)),
    {
        let ghost before = text::texts(queries@);
        assert(asked.take(i + 1).drop_last() =~= asked.take(i as int));
        match &events[i] {
            AppEvent::StartFileSearch(query) => {
                let count: usize = queries.len();
                let repeats: bool = if count > 0 {
                    assert(before.last() == queries@[count - 1]@);
                    text::same_text(&queries[count - 1], query)
                } else {
                    false
                };
                if query.as_str().unicode_len() > 0 && !repeats {
                    let kept = text::copy_of(query);
                    let ghost added = kept@;
                    queries.push(kept);
                    assert(text::texts(queries@) =~= before.push(added));
                }
            },
            AppEvent::Other => {},
        }
    }
    assert(asked.take(asked.len() as int) =~= asked);
    queries
}

/// No listed query is empty, and none repeats the one before it.
pub proof fn law_listed_queries_change(events: Seq<Option<Seq<char>>>)
    ensures
        forall|i: int|
            0 <= i < distinct_queries(events).len() ==> (#[trigger] distinct_queries(
                events,
            )[i]).len() > 0,
        forall|i: int, j: int|
            #![trigger distinct_queries(events)[i], distinct_queries(events)[j]]
            0 <= i && j == i + 1 && j < distinct_queries(events).len() ==> distinct_queries(
                events,
            )[i] != distinct_queries(events)[j],
    decreases events.len(),
{
    if events.len() > 0 {
        law_listed_queries_change(events.drop_last());
        let before = distinct_queries(events.drop_last());
        let listed = distinct_queries(events);
        assert forall|i: int| 0 <= i < listed.len() implies (#[trigger] listed[i]).len() > 0 by {
            if i < before.len() {
                assert(listed[i] == before[i]);
            }
        }
        assert forall|i: int, j: int|
            #![trigger listed[i], listed[j]]
            0 <= i && j == i + 1 && j < listed.len() implies listed[i] != listed[j] by {
            assert(listed[i] == before[i]);
            if j < before.len() {
                assert(listed[j] == before[j]);
            }
        }
    }
}

/// One more event lists its query behind the others, unless the query is empty
/// or only repeats the last one that is listed. An event that asks for nothing
/// lists nothing.
pub proof fn law_one_more_event_lists_its_query(
    events: Seq<Option<Seq<char>>>,
    query: Seq<char>,
)
    ensures
        ({
            let before = distinct_queries(events);
            let after = distinct_queries(events.push(Some(query)));
            let repeats = before.len() > 0 && before[before.len() - 1] == query;
            &&& query.len() > 0 && !repeats ==> after.len() == before.len() + 1
            &&& query.len() > 0 ==> after.len() > 0 && after.last() == query
            &&& query.len() == 0 || repeats ==> after == before
            &&& after.take(before.len() as int) == before
            &&& distinct_queries(events.push(None)) == before
            &&& distinct_queries(Seq::empty()).len() == 0
        }),
{
    let before = distinct_queries(events);
    assert(events.push(Some(query)).drop_last() =~= events);
    assert(events.push(None).drop_last() =~= events);
    assert(distinct_queries(events.push(Some(query))).take(before.len() as int) =~= before);
}

/// Every query that is asked for and is not empty is listed, and nothing else
/// is.
pub proof fn law_every_query_is_listed(events: Seq<Option<Seq<char>>>, query: Seq<char>)
    ensures
        distinct_queries(events).contains(query) <==> query.len() > 0 && events.contains(
            Some(query),
        ),
    decreases events.len(),
{
    let listed = distinct_queries(events);
    if events.len() > 0 {
        let fewer = events.drop_last();
        let before = distinct_queries(fewer);
        law_every_query_is_listed(fewer, query);
        if listed.contains(query) {
            let at = choose|at: int| 0 <= at < listed.len() && listed[at] == query;
            if at < before.len() {
                assert(before[at] == query);
                assert(before.contains(query));
                let there = choose|there: int| 0 <= there < fewer.len() && fewer[there] == Some(
                    query,
                );
                assert(events[there] == Some(query));
            } else {
                assert(events[events.len() - 1] == Some(query));
            }
        }
        if query.len() > 0 && events.contains(Some(query)) {
            let there = choose|there: int| 0 <= there < events.len() && events[there] == Some(
                query,
            );
            if there < fewer.len() {
                assert(fewer[there] == Some(query));
                assert(before.contains(query));
                let at = choose|at: int| 0 <= at < before.len() && before[at] == query;
                assert(listed[at] == query);
            } else {
                assert(listed.last() == query);
                assert(listed[listed.len() - 1] == query);
            }
        }
    }
}

/// An event asks for the query that it carries, in its place, and only an event
/// that starts a search asks for one.
pub proof fn law_events_ask_for_what_they_carry(events: Seq<AppEvent>, place: int)
    requires
        0 <= place < events.len(),
    ensures
        queries_of(events).len() == events.len(),
        events[place] matches AppEvent::StartFileSearch(query) ==> queries_of(events)[place]
            == Some(query@),
        events[place] is Other ==> queries_of(events)[place] is None,
{
}

} // verus!
