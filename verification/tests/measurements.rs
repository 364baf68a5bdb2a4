use file_search::burst::{
    average_latency, burst_metrics, burst_options, callback_latency, check_resolved, check_warmup,
    final_query_index, fixture_directory_name, query_tokens, remaining_wait,
    snapshot_contains_file, BurstError, BurstPacing, BurstReporter, Fixture, QueueStats,
    ReporterOutcomes, UPDATE_CADENCE,
};
use file_search::composer::{file_search_queries, AppEvent};
use file_search::metrics::{metric_line, plain_metric_line, usize_to_u64};
use file_search::numbers::parse_number;
use file_search::{FileMatch, FileSearchSnapshot, MatchType};

fn snapshot(query: &str, paths: &[&str]) -> FileSearchSnapshot {
    let mut matches = Vec::new();
    for path in paths {
        matches.push(FileMatch {
            score: 1,
            path: path.to_string(),
            match_type: MatchType::File,
            root: "/tree".to_string(),
            indices: None,
        });
    }
    FileSearchSnapshot {
        query: query.to_string(),
        total_match_count: matches.len(),
        matches,
        scanned_file_count: 11,
        walk_complete: true,
    }
}

#[test]
fn query_tokens_are_two_letters_each() {
    let tokens = query_tokens();
    assert_eq!(tokens.len(), 64);
    assert_eq!(tokens[0], "aa");
    assert_eq!(tokens[1], "ab");
    assert_eq!(tokens[8], "ba");
    assert_eq!(tokens[63], "hh");
    for (index, token) in tokens.iter().enumerate() {
        assert_ne!(token, "zz");
        assert!(!tokens[..index].contains(token));
    }
}

#[test]
fn fixtures_hold_a_file_for_each_query_and_fill_up() {
    let fixture = Fixture::create(&query_tokens()).unwrap();
    assert_eq!(fixture.files.len(), 8192);
    assert_eq!(fixture.files[0], "aa_priority_0000.rs");
    assert_eq!(fixture.files[63], "hh_priority_0063.rs");
    assert_eq!(fixture.final_result_file, "hh_priority_0063.rs");
    let markers = query_tokens().concat();
    assert_eq!(fixture.files[64], format!("fixture_{markers}_00064.rs"));
    assert_eq!(fixture.files[8191], format!("fixture_{markers}_08191.rs"));
    assert_eq!(Fixture::create(&Vec::new()).unwrap_err(), BurstError::NoFixtureQuery);
}

#[test]
fn fixture_directories_are_named_after_the_process() {
    assert_eq!(fixture_directory_name(42, 0), ".file-search-query-burst-fixture-42-0");
}

#[test]
fn files_are_found_by_their_last_component() {
    let shown = snapshot("hh", &["a/b.rs", "hh_priority_0063.rs/"]);
    assert!(snapshot_contains_file(&shown, "b.rs"));
    assert!(snapshot_contains_file(&shown, "hh_priority_0063.rs"));
    assert!(!snapshot_contains_file(&shown, "a"));
    assert!(!snapshot_contains_file(&snapshot("hh", &[]), ""));
}

#[test]
fn reports_are_counted_and_found() {
    let mut reporter = BurstReporter::new();
    assert!(!reporter.has_completed());
    reporter.on_update(1, &snapshot("aa", &["x"]), 5, 2, "ab");
    reporter.on_update(2, &snapshot("ab", &[]), 6, 2, "ab");
    reporter.on_update(1, &snapshot("ab", &[]), 7, 2, "ab");
    reporter.on_update(2, &snapshot("ab", &["d/y"]), 8, 2, "ab");
    reporter.on_complete(9);
    assert_eq!(reporter.update_count(), 4);
    assert!(reporter.has_completed());
    assert_eq!(
        reporter.outcomes(),
        ReporterOutcomes {
            completion_count: 1,
            stale_snapshot_count: 2,
            same_text_stale_snapshot_count: 1,
        }
    );
    assert_eq!(reporter.find_update(2, "ab", 6), Some((6, 11)));
    assert_eq!(reporter.find_update(2, "ab", 7), Some((8, 11)));
    assert_eq!(reporter.find_update(2, "aa", 0), None);
    assert_eq!(reporter.find_update(2, "ab", 9), None);
    assert_eq!(reporter.find_final_update(2, "ab", 0, "y"), Some(8));
    assert_eq!(reporter.find_final_update(2, "ab", 0, "z"), None);
    assert!(reporter.completed_since(9));
    assert!(!reporter.completed_since(10));
    reporter.reset();
    assert_eq!(reporter.update_count(), 0);
    assert!(!reporter.completed_since(0));
}

#[test]
fn waits_end_at_the_deadline() {
    assert_eq!(remaining_wait(3, 10), Ok(7));
    assert_eq!(remaining_wait(10, 10), Err(BurstError::TimedOut));
    assert_eq!(remaining_wait(11, 10), Err(BurstError::TimedOut));
}

#[test]
fn queries_are_sent_at_a_cadence() {
    let mut pacing = BurstPacing::new(100);
    assert_eq!(pacing.wait_before(0, 100), 0);
    assert_eq!(pacing.wait_before(1, 100), UPDATE_CADENCE);
    assert_eq!(pacing.wait_before(2, 100 + 3 * UPDATE_CADENCE), 0);
    assert_eq!(pacing.wait_before(3, 100 + 3 * UPDATE_CADENCE - 1), 1);
    assert_eq!(pacing.next_send_at, 100 + 3 * UPDATE_CADENCE);
    assert_eq!(final_query_index(&query_tokens()), Ok(63));
    assert_eq!(final_query_index(&Vec::new()), Err(BurstError::NoFinalQuery));
}

#[test]
fn latencies_are_bounded_and_averaged() {
    assert_eq!(callback_latency(5, 9), 4);
    assert_eq!(callback_latency(9, 5), 0);
    assert_eq!(callback_latency(0, u128::MAX), u64::MAX);
    let mut latencies = vec![u64::MAX; 32];
    assert_eq!(average_latency(&latencies), u64::MAX);
    for (index, latency) in latencies.iter_mut().enumerate() {
        *latency = index as u64;
    }
    assert_eq!(average_latency(&latencies), 496 / 32);
}

#[test]
fn failed_measurements_say_why() {
    assert_eq!(check_warmup(8192), Ok(()));
    let error = check_warmup(8191).unwrap_err();
    assert_eq!(error.message(), "warmup scanned only 8191 of 8192 fixture files");
    assert_eq!(check_resolved(2048), Ok(()));
    let error = check_resolved(2047).unwrap_err();
    assert_eq!(error.message(), "resolved 2047 of 2048 query updates");
    assert_eq!(
        BurstError::TimedOut.message(),
        "timed out waiting for the file-search session"
    );
    assert_eq!(BurstError::NoFinalQuery.message(), "burst had no final query");
    assert_eq!(BurstError::NoFixtureQuery.message(), "fixture requires a final query");
}

#[test]
fn measured_sessions_have_their_own_options() {
    let options = burst_options().unwrap();
    assert_eq!(options.limit.get(), 20);
    assert_eq!(options.threads.get(), 2);
    assert!(options.compute_indices);
    assert!(!options.respect_gitignore);
    assert!(options.exclude.is_empty());
}

#[test]
fn measurements_are_listed_in_order() {
    let queue = QueueStats { peak_depth: 1, p99_age_ns: 2, resolved_query_count: 3 };
    let outcomes = ReporterOutcomes {
        completion_count: 4,
        stale_snapshot_count: 5,
        same_text_stale_snapshot_count: 6,
    };
    let lines: Vec<String> = burst_metrics(9, queue, outcomes)
        .iter()
        .map(|metric| metric_line(&metric.name, metric.value))
        .collect();
    assert_eq!(
        lines,
        vec![
            "{\"metric\":\"newest_query_callback_latency_ns\",\"value\":9}",
            "{\"metric\":\"query_signal_peak_depth\",\"value\":1}",
            "{\"metric\":\"query_signal_queue_age_p99_ns\",\"value\":2}",
            "{\"metric\":\"query_signal_resolved_count\",\"value\":3}",
            "{\"metric\":\"session_completion_count\",\"value\":4}",
            "{\"metric\":\"stale_snapshot_count\",\"value\":5}",
            "{\"metric\":\"same_text_stale_snapshot_count\",\"value\":6}",
            "{\"metric\":\"final_callback_verified\",\"value\":1}",
        ]
    );
}

#[test]
fn metric_lines_are_json() {
    assert_eq!(metric_line("a\"b", u64::MAX), "{\"metric\":\"a\\\"b\",\"value\":18446744073709551615}");
    assert_eq!(
        metric_line("\u{8}\t\n\u{c}\r\u{1}\u{1f}\\/\u{7f}", 7),
        "{\"metric\":\"\\b\\t\\n\\f\\r\\u0001\\u001f\\\\/\u{7f}\",\"value\":7}"
    );
    assert_eq!(metric_line("\u{e9}/op", 0), plain_metric_line("\u{e9}/op", 0));
    assert_eq!(plain_metric_line("x/op", 120), "{\"metric\":\"x/op\",\"value\":120}");
    assert_eq!(usize_to_u64(7), 7);
}

#[test]
fn numbers_are_read_like_the_standard_library_does() {
    for text in [
        "", "+", "-", "0", "00", "+7", "-7", "++7", "7 ", " 7", "12a", "18446744073709551615",
        "18446744073709551616", "99999999999999999999999", "\u{662}", "+0018446744073709551615",
    ] {
        assert_eq!(parse_number(text, u64::MAX), text.parse::<u64>().ok(), "{text:?}");
    }
    assert_eq!(parse_number("256", 255), None);
    assert_eq!(parse_number("255", 255), Some(255));
}

#[test]
fn queries_of_events_are_listed_without_repetitions() {
    let start = |query: &str| AppEvent::StartFileSearch(query.to_string());
    let events = vec![
        start(""),
        start("z"),
        AppEvent::Other,
        start("z"),
        start("zz"),
        start(""),
        start("zz"),
        start("azz"),
        start("z"),
    ];
    assert_eq!(file_search_queries(&events), vec!["z", "zz", "azz", "z"]);
    assert_eq!(file_search_queries(&Vec::new()), Vec::<String>::new());
}
