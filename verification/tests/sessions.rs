use file_search::engine::{Listener, Notifier};
use file_search::query::{can_be_scored, MAX_WORD_CHARS};
use file_search::report::{
    main_step, report_steps, results_of, MainStep, ReportStep, Request, RunReporter,
};
use file_search::results::PositiveCount;
use file_search::schedule::{Reaction, WorkSignal};
use file_search::search::SessionError;
use file_search::session::{Action, TickOutcome, Wakeup};
use file_search::walk::{Walk, WalkEntry, WalkState};
use file_search::{create_session, run};
use file_search::{
    FileMatch, FileSearchOptions, FileSearchResults, FileSearchSession, FileSearchSnapshot,
    MatchType,
};
use std::cell::{Cell, RefCell};
use std::sync::atomic::{AtomicUsize, Ordering};
use std::sync::Arc;

#[derive(Default)]
struct Counter {
    news: AtomicUsize,
}

impl Listener for Counter {
    fn on_news(&self) {
        self.news.fetch_add(1, Ordering::SeqCst);
    }
}

fn nobody() -> Notifier {
    Notifier { listener: Arc::new(Counter::default()) }
}

fn session_over(root: &str, options: FileSearchOptions) -> (FileSearchSession, Walk) {
    create_session(vec![root.to_string()], options, nobody(), true).expect("session")
}

fn found(full_path: &str) -> WalkEntry {
    WalkEntry::Found {
        full_path: full_path.to_string(),
        is_symlink: false,
        is_directory: Some(false),
    }
}

fn add_files(walk: &mut Walk, root: &str, count: usize) {
    let mut visitor = walk.visitor();
    for index in 0..count {
        let path = format!("{root}/file-{index:04}.txt");
        let state = visitor.visit(found(&path), &|| false);
        assert_eq!(state, WalkState::Continue);
    }
}

fn tick(session: &mut FileSearchSession) -> TickOutcome {
    session.tick(&|_: &str| true, &|| true, &|_: &str| false)
}

fn tick_until_complete(session: &mut FileSearchSession) -> Vec<FileSearchSnapshot> {
    let mut updates = Vec::new();
    for _ in 0..1000 {
        let outcome = tick(session);
        if let Some(update) = outcome.update {
            updates.push(update);
        }
        if outcome.complete {
            return updates;
        }
    }
    panic!("the session did not become idle");
}

#[test]
fn session_emits_updates_when_query_changes() {
    let (mut session, mut walk) = session_over("/tree", FileSearchOptions::default());
    add_files(&mut walk, "/tree", 200);
    assert_eq!(session.handle(WorkSignal::WalkComplete), Reaction::TickAfter(0));

    assert_eq!(session.update_query("zzzzzzzz"), Reaction::TickAfter(0));
    let _ = tick_until_complete(&mut session);

    let _ = session.update_query("zzzzzzzzq");
    let updates = tick_until_complete(&mut session);
    assert_eq!(updates.len(), 1);
    assert_eq!(updates[0].query, "zzzzzzzzq");
}

#[test]
fn session_streams_updates_before_walk_complete() {
    let (mut session, mut walk) = session_over("/tree", FileSearchOptions::default());
    add_files(&mut walk, "/tree", 600);
    let _ = session.update_query("file-0");

    let mut updates = Vec::new();
    for _ in 0..1000 {
        let outcome = tick(&mut session);
        assert!(!outcome.complete);
        if let Some(update) = outcome.update {
            updates.push(update);
        }
        if !outcome.running {
            break;
        }
    }
    let _ = session.handle(WorkSignal::WalkComplete);
    let mut completed = false;
    for _ in 0..1000 {
        let outcome = tick(&mut session);
        if let Some(update) = outcome.update {
            updates.push(update);
        }
        if outcome.complete {
            completed = true;
            break;
        }
    }

    assert!(completed);
    assert!(updates.iter().any(|snapshot| !snapshot.walk_complete));
}

#[test]
fn scanned_count_never_decreases_across_queries() {
    let (mut session, mut walk) = session_over("/tree", FileSearchOptions::default());
    let mut last = 0;
    for query in ["file-00", "file-01", "file", ""] {
        add_files(&mut walk, "/tree", 100);
        let _ = session.update_query(query);
        for _ in 0..50 {
            let outcome = tick(&mut session);
            if let Some(update) = outcome.update {
                assert!(update.scanned_file_count >= last);
                last = update.scanned_file_count;
            }
            if !outcome.running {
                break;
            }
        }
    }
    let _ = session.handle(WorkSignal::WalkComplete);
    let _ = tick_until_complete(&mut session);
    let _ = session.update_query("file");
    let updates = tick_until_complete(&mut session);
    assert_eq!(updates.last().unwrap().scanned_file_count, 400);
}

#[test]
fn queries_are_accepted_after_the_walk_is_complete() {
    let (mut session, mut walk) = session_over("/tree", FileSearchOptions::default());
    let mut visitor = walk.visitor();
    let _ = visitor.visit(found("/tree/alpha.txt"), &|| false);
    let _ = visitor.visit(found("/tree/beta.txt"), &|| false);
    let _ = session.handle(WorkSignal::WalkComplete);
    let _ = session.update_query("alpha");
    let _ = tick_until_complete(&mut session);

    let _ = session.update_query("beta");
    let updates = tick_until_complete(&mut session);
    let last_update = updates.last().expect("update");
    assert_eq!(last_update.query, "beta");
    assert_eq!(last_update.total_match_count, 1);
    assert_eq!(last_update.matches[0].path, "beta.txt");
    assert_eq!(last_update.matches[0].root, "/tree");
    assert_eq!(last_update.matches[0].full_path(), "/tree/beta.txt");
    assert_eq!(last_update.matches[0].match_type, MatchType::File);
    assert!(last_update.matches[0].score > 0);
    assert_eq!(last_update.matches[0].indices, None);
    assert!(last_update.walk_complete);
}

#[test]
fn completion_is_reported_for_queries_without_matches() {
    let (mut session, mut walk) = session_over("/tree", FileSearchOptions::default());
    add_files(&mut walk, "/tree", 2);
    let _ = session.handle(WorkSignal::WalkComplete);
    let _ = session.update_query("asdf");
    let updates = tick_until_complete(&mut session);
    let completed_snapshot = updates.last().expect("update");
    assert_eq!(completed_snapshot.matches, Vec::new());
    assert_eq!(completed_snapshot.total_match_count, 0);

    let _ = session.update_query("asdfa");
    let updates = tick_until_complete(&mut session);
    assert!(!updates.is_empty());
}

#[test]
fn reports_hold_at_most_the_limit_and_count_all_matches() {
    let options = FileSearchOptions {
        limit: PositiveCount::new(3).unwrap(),
        ..FileSearchOptions::default()
    };
    let (mut session, mut walk) = session_over("/tree", options);
    add_files(&mut walk, "/tree", 40);
    let _ = session.handle(WorkSignal::WalkComplete);
    let _ = session.update_query("file-000");
    let updates = tick_until_complete(&mut session);
    let last = updates.last().unwrap();
    assert_eq!(last.matches.len(), 3);
    assert!(last.total_match_count >= 10);
    assert_eq!(last.scanned_file_count, 40);
}

fn mixed_tree(limit: usize) -> FileSearchSession {
    let options = FileSearchOptions {
        limit: PositiveCount::new(limit).unwrap(),
        ..FileSearchOptions::default()
    };
    let (mut session, mut walk) = session_over("/tree", options);
    let mut visitor = walk.visitor();
    let names = ["src/main.rs", "m-a-i-n", "main", "domain/x", "remainder.txt", "other"];
    for name in names {
        let path = format!("/tree/{name}");
        let _ = visitor.visit(found(&path), &|| false);
    }
    let _ = session.handle(WorkSignal::WalkComplete);
    session
}

fn last_report(session: &mut FileSearchSession, query: &str) -> FileSearchSnapshot {
    let _ = session.update_query(query);
    tick_until_complete(session).pop().expect("update")
}

#[test]
fn reports_hold_the_best_matches_first() {
    let all = last_report(&mut mixed_tree(20), "main");
    assert_eq!(all.total_match_count, 5);
    assert_eq!(all.matches.len(), 5);
    assert_eq!(all.scanned_file_count, 6);
    assert_eq!(all.matches[0].path, "main");
    let scores: Vec<u32> = all.matches.iter().map(|found| found.score).collect();
    assert!(scores.windows(2).all(|pair| pair[0] >= pair[1]));
}

#[test]
fn a_limit_only_cuts_the_report() {
    let all = last_report(&mut mixed_tree(20), "main");
    for limit in 1..6 {
        let cut = last_report(&mut mixed_tree(limit), "main");
        assert_eq!(cut.matches, all.matches[..limit.min(5)].to_vec());
        assert_eq!(cut.total_match_count, 5);
        assert_eq!(cut.scanned_file_count, 6);
        let left_out = &all.matches[limit.min(5)..];
        assert!(left_out.iter().all(|other| other.score <= cut.matches[limit - 1].score));
    }
}

#[test]
fn each_query_is_followed_by_a_completion_for_it() {
    let mut session = mixed_tree(20);
    for (query, total) in [("main", 5), ("mainx", 2), ("mainxq", 0), ("other", 1), ("", 6), ("main", 5)] {
        let report = last_report(&mut session, query);
        assert_eq!(report.query, query);
        assert_eq!(report.total_match_count, total);
        assert_eq!(report.scanned_file_count, 6);
        assert!(report.walk_complete);
    }
}

fn only_entry(path: &str) -> FileSearchSession {
    let (mut session, mut walk) = session_over("/tree", FileSearchOptions::default());
    let mut visitor = walk.visitor();
    let path = format!("/tree/{path}");
    let _ = visitor.visit(found(&path), &|| false);
    let _ = visitor.visit(found("/tree/x"), &|| false);
    let _ = session.handle(WorkSignal::WalkComplete);
    session
}

#[test]
fn a_word_of_the_greatest_length_is_matched() {
    let name = "a".repeat(MAX_WORD_CHARS);
    let report = last_report(&mut only_entry(&name), &name);
    assert_eq!(report.total_match_count, 1);
    assert_eq!(report.matches[0].path, name);
    assert_eq!(report.matches[0].score, 34 + 2519 * 25);
}

#[test]
fn backslashes_behind_other_letters_are_matched() {
    let query = format!("\u{e9}{}", "\\".repeat(1259));
    assert!(can_be_scored(&query));
    let path = format!("\u{e9}{}", "\\".repeat(2517));
    let report = last_report(&mut only_entry(&path), &query);
    assert_eq!(report.total_match_count, 1);
    assert!(report.matches[0].score > 0);
    assert!(!can_be_scored(&format!("{query}\\")));
}

#[test]
fn queries_of_many_words_are_matched() {
    let query = "alpha bet ".repeat(1000);
    assert!(can_be_scored(&query));
    let report = last_report(&mut only_entry("alphabet.txt"), &query);
    assert_eq!(report.query, query);
    assert_eq!(report.total_match_count, 1);
    let once = last_report(&mut only_entry("alphabet.txt"), "alpha bet");
    assert_eq!(report.matches[0].score, 1000 * once.matches[0].score);
}

#[test]
fn a_match_has_the_score_of_its_path_for_the_query() {
    let mut session = mixed_tree(20);
    for query in ["main", "src main", "'main", "ma in"] {
        for found in last_report(&mut session, query).matches {
            let alone = last_report(&mut only_entry(&found.path), query);
            assert_eq!(alone.matches[0].path, found.path);
            assert_eq!(alone.matches[0].score, found.score);
        }
    }
}

#[test]
fn indices_are_places_in_the_path() {
    let options = FileSearchOptions {
        compute_indices: true,
        ..FileSearchOptions::default()
    };
    let (mut session, mut walk) = session_over("/tree", options);
    let mut visitor = walk.visitor();
    let _ = visitor.visit(found("/tree/\u{e4}\u{f6}/bc"), &|| false);
    let _ = session.handle(WorkSignal::WalkComplete);
    let report = last_report(&mut session, "bc");
    assert_eq!(report.matches[0].path.chars().count(), 5);
    assert_eq!(report.matches[0].indices, Some(vec![3, 4]));
}

#[test]
fn entries_of_two_visitors_are_told_apart() {
    let (mut session, mut walk) = session_over("/tree", FileSearchOptions::default());
    let mut first = walk.visitor();
    let mut second = walk.visitor();
    let _ = first.visit(found("/tree/entry-one"), &|| false);
    let _ = second.visit(found("/tree/entry-two"), &|| false);
    let _ = session.handle(WorkSignal::WalkComplete);
    for query in ["entry", "entr"] {
        let _ = session.update_query(query);
        let mut types = Vec::new();
        loop {
            let outcome =
                session.tick(&|_: &str| true, &|| true, &|path: &str| path.ends_with("one"));
            if let Some(update) = outcome.update {
                types = update.matches.iter().map(|m| (m.path.clone(), m.match_type)).collect();
            }
            if outcome.complete {
                break;
            }
        }
        types.sort_by(|left, right| left.0.cmp(&right.0));
        assert_eq!(
            types,
            vec![
                ("entry-one".to_string(), MatchType::Directory),
                ("entry-two".to_string(), MatchType::File),
            ]
        );
    }
}

fn turn(session: &mut FileSearchSession, wakeup: Wakeup) -> (Vec<String>, bool) {
    let outcome = session.take_turn(wakeup, &|_: &str| true, &|| true, &|_: &str| false);
    (told(&outcome.actions), outcome.exits)
}

fn told(actions: &[Action]) -> Vec<String> {
    actions
        .iter()
        .map(|action| match action {
            Action::Arm(delay) => format!("arm {delay}"),
            Action::Update(update) => format!("update {}", update.query),
            Action::Complete => "complete".to_string(),
        })
        .collect()
}

#[test]
fn turns_say_what_is_to_be_done() {
    let (mut session, _walk) = session_over("/tree", FileSearchOptions::default());
    assert_eq!(
        turn(&mut session, Wakeup::Signal(WorkSignal::NucleoNotify)),
        (vec!["arm 10".to_string()], false)
    );
    assert_eq!(
        turn(&mut session, Wakeup::Signal(WorkSignal::WalkComplete)),
        (Vec::new(), false)
    );
    let query = WorkSignal::QueryUpdated("abc".to_string());
    assert_eq!(
        turn(&mut session, Wakeup::Signal(query)),
        (vec!["arm 0".to_string()], false)
    );
    assert_eq!(turn(&mut session, Wakeup::Quiet), (Vec::new(), false));
    let mut seen = Vec::new();
    while seen.last().map(String::as_str) != Some("complete") {
        let (mut actions, exits) = turn(&mut session, Wakeup::Due);
        assert!(!exits);
        seen.append(&mut actions);
    }
    assert_eq!(seen[seen.len() - 2..], ["update abc".to_string(), "complete".to_string()]);
    assert!(session.end_turn(false, false, false).is_empty());
    assert!(!session.has_ended());
    assert_eq!(
        turn(&mut session, Wakeup::Signal(WorkSignal::Shutdown)),
        (Vec::new(), true)
    );
    assert_eq!(told(&session.end_turn(true, false, false)), vec!["complete"]);
    assert!(session.has_ended());
}

#[test]
fn sessions_end_when_told_to() {
    for (cancelled, shut_down) in [(true, false), (false, true), (true, true)] {
        let (mut session, _walk) = session_over("/tree", FileSearchOptions::default());
        let (actions, exits) = turn(&mut session, Wakeup::Quiet);
        assert!(actions.is_empty() && !exits);
        assert_eq!(told(&session.end_turn(exits, cancelled, shut_down)), vec!["complete"]);
        assert!(session.has_ended());
    }
    let (mut session, _walk) = session_over("/tree", FileSearchOptions::default());
    assert_eq!(turn(&mut session, Wakeup::HungUp), (Vec::new(), true));
}

#[test]
fn indices_are_unique_and_ascending_when_asked_for() {
    let options = FileSearchOptions {
        compute_indices: true,
        ..FileSearchOptions::default()
    };
    let (mut session, mut walk) = session_over("/tree", options);
    let mut visitor = walk.visitor();
    let _ = visitor.visit(found("/tree/abcd"), &|| false);
    let _ = session.handle(WorkSignal::WalkComplete);
    let _ = session.update_query("cd ab");
    let updates = tick_until_complete(&mut session);
    let last = updates.last().unwrap();
    assert_eq!(last.matches[0].indices, Some(vec![0, 1, 2, 3]));
}

#[test]
fn entries_outside_every_search_directory_are_not_searched() {
    let (mut session, mut walk) = session_over("/tree", FileSearchOptions::default());
    let mut visitor = walk.visitor();
    let _ = visitor.visit(found("/tree/inside"), &|| false);
    let _ = visitor.visit(found("/elsewhere/inside"), &|| false);
    let _ = visitor.visit(WalkEntry::Failed, &|| false);
    let _ = visitor.visit(WalkEntry::Unnamed, &|| false);
    let _ = session.handle(WorkSignal::WalkComplete);
    let _ = session.update_query("inside");
    let updates = tick_until_complete(&mut session);
    let last = updates.last().unwrap();
    assert_eq!(last.scanned_file_count, 1);
    assert_eq!(last.total_match_count, 1);
}

#[test]
fn kept_types_are_reused_until_a_watch_reports() {
    let (mut session, mut walk) = session_over("/tree", FileSearchOptions::default());
    let mut visitor = walk.visitor();
    let _ = visitor.visit(found("/tree/matched-entry"), &|| false);
    let _ = session.handle(WorkSignal::WalkComplete);

    let asked = Cell::new(0);
    let clean = Cell::new(true);
    let is_directory = Cell::new(false);
    let watched = RefCell::new(Vec::new());
    let mut search = |query: &str| {
        let _ = session.update_query(query);
        loop {
            let outcome = session.tick(
                &|path: &str| {
                    watched.borrow_mut().push(path.to_string());
                    true
                },
                &|| clean.get(),
                &|_: &str| {
                    asked.set(asked.get() + 1);
                    is_directory.get()
                },
            );
            if let Some(update) = outcome.update {
                if update.query == query && !update.matches.is_empty() {
                    return update.matches[0].match_type;
                }
            }
        }
    };

    // The walk said that the entry is a file, but that is not used by itself.
    is_directory.set(true);
    assert_eq!(search("matched"), MatchType::Directory);
    assert!(asked.get() >= 1);
    assert_eq!(*watched.borrow(), vec!["/tree".to_string(), "/".to_string()]);

    // Nothing has changed, so the answer is given again without asking.
    let before = asked.get();
    is_directory.set(false);
    assert_eq!(search("match"), MatchType::Directory);
    assert_eq!(asked.get(), before);

    // A watch reports something: from now on the file system is asked.
    clean.set(false);
    assert_eq!(search("matche"), MatchType::File);
    clean.set(true);
    is_directory.set(true);
    assert_eq!(search("matched-"), MatchType::Directory);
    assert!(asked.get() >= before + 2);
    assert_eq!(watched.borrow().len(), 2);
}

#[test]
fn link_types_are_never_kept() {
    let (mut session, mut walk) = session_over("/tree", FileSearchOptions::default());
    let mut visitor = walk.visitor();
    let entry = WalkEntry::Found {
        full_path: "/tree/linked-directory".to_string(),
        is_symlink: true,
        is_directory: Some(false),
    };
    let _ = visitor.visit(entry, &|| false);
    let _ = session.handle(WorkSignal::WalkComplete);
    let asked = Cell::new(0);
    for query in ["linked", "linke"] {
        let before = asked.get();
        let _ = session.update_query(query);
        let mut shown = None;
        while shown.is_none() {
            let outcome = session.tick(
                &|_: &str| panic!("nothing is watched for a link"),
                &|| true,
                &|_: &str| {
                    asked.set(asked.get() + 1);
                    true
                },
            );
            shown = outcome
                .update
                .filter(|update| update.query == query && !update.matches.is_empty())
                .map(|update| update.matches[0].match_type);
        }
        assert_eq!(shown, Some(MatchType::Directory));
        assert!(asked.get() > before);
    }
}

#[test]
fn a_given_outcome_of_a_tick_is_reported_as_such() {
    let (mut session, _walk) = session_over("/tree", FileSearchOptions::default());
    let _ = session.update_query("abc");
    let watch = |_: &str| true;
    let drain = || true;
    let probe = |_: &str| false;

    let outcome = session.after_tick(false, false, &watch, &drain, &probe);
    assert!(outcome.update.is_none());
    assert!(!outcome.complete);

    let outcome = session.after_tick(true, true, &watch, &drain, &probe);
    let update = outcome.update.expect("update");
    assert_eq!(update.query, "abc");
    assert_eq!(update.matches, Vec::new());
    assert!(!update.walk_complete);
    assert!(!outcome.complete);

    let _ = session.handle(WorkSignal::WalkComplete);
    let outcome = session.after_tick(true, false, &watch, &drain, &probe);
    assert!(outcome.update.expect("update").walk_complete);
    assert!(outcome.complete);
}

#[test]
fn a_tick_is_owed_from_a_signal_to_the_next_tick() {
    let (mut session, _walk) = session_over("/tree", FileSearchOptions::default());
    assert!(!session.tick_is_owed());
    assert_eq!(session.handle(WorkSignal::NucleoNotify), Reaction::TickAfter(10));
    assert!(session.tick_is_owed());
    assert_eq!(session.handle(WorkSignal::NucleoNotify), Reaction::Wait);
    assert_eq!(session.handle(WorkSignal::WalkComplete), Reaction::Wait);
    assert_eq!(
        session.handle(WorkSignal::QueryUpdated("a".to_string())),
        Reaction::TickAfter(0)
    );
    let _ = tick(&mut session);
    assert!(!session.tick_is_owed());
    assert_eq!(session.handle(WorkSignal::Shutdown), Reaction::Exit);
}

#[test]
fn a_session_needs_a_search_directory() {
    let result = create_session(Vec::new(), FileSearchOptions::default(), nobody(), true);
    assert!(matches!(result, Err(SessionError::NoSearchDirectory)));
}

#[test]
fn a_session_refuses_globs_that_do_not_parse() {
    let options = FileSearchOptions {
        exclude: vec!["*.rs".to_string(), "[".to_string()],
        ..FileSearchOptions::default()
    };
    let result = create_session(vec!["/tree".to_string()], options, nobody(), true);
    assert!(matches!(result, Err(SessionError::Exclude(_))));
}

#[test]
fn the_walk_follows_the_options() {
    let options = FileSearchOptions {
        exclude: vec!["*.rs".to_string()],
        respect_gitignore: false,
        ..FileSearchOptions::default()
    };
    let roots = vec!["/tree".to_string(), "/more".to_string()];
    let (_session, walk) = create_session(roots.clone(), options, nobody(), false).expect("session");
    assert_eq!(walk.search_directories, roots);
    assert_eq!(walk.settings.threads, 2);
    assert!(!walk.settings.hidden);
    assert!(walk.settings.follow_links);
    assert!(walk.settings.require_git);
    assert!(!walk.settings.git_ignore);
    assert!(!walk.settings.parents);
    assert!(walk.overrides.is_some());

    let (_session, walk) = session_over("/tree", FileSearchOptions::default());
    assert!(walk.settings.git_ignore);
    assert!(walk.settings.git_global);
    assert!(walk.settings.git_exclude);
    assert!(walk.settings.ignore);
    assert!(walk.settings.parents);
    assert!(walk.overrides.is_none());
}

#[test]
fn running_once_returns_the_last_snapshot() {
    let found = run(
        "file-000",
        vec!["/tree".to_string()],
        FileSearchOptions::default(),
        nobody(),
        true,
        &|| false,
        |mut session: FileSearchSession, mut walk: Walk| {
            assert!(session.tick_is_owed());
            add_files(&mut walk, "/tree", 40);
            let mut reporter = RunReporter::default();
            let _ = session.handle(WorkSignal::WalkComplete);
            for update in tick_until_complete(&mut session) {
                reporter.on_update(&update);
            }
            assert!(reporter.wait_for_complete().is_none());
            reporter.on_complete();
            reporter.wait_for_complete().expect("snapshot")
        },
    )
    .expect("run ok");

    assert!(!found.matches.is_empty());
    assert!(found.total_match_count >= found.matches.len());
    assert!(found.matches.iter().any(|m| m.path == "file-0000.txt"));
}

fn run_over(query: &str, limit: usize, paths: Vec<(String, bool)>) -> FileSearchResults {
    let options = FileSearchOptions {
        limit: PositiveCount::new(limit).unwrap(),
        ..FileSearchOptions::default()
    };
    let roots = vec!["/tree".to_string()];
    let drive = |mut session: FileSearchSession, mut walk: Walk| {
        let mut visitor = walk.visitor();
        for (path, is_directory) in &paths {
            let entry = WalkEntry::Found {
                full_path: format!("/tree/{path}"),
                is_symlink: false,
                is_directory: Some(*is_directory),
            };
            let _ = visitor.visit(entry, &|| false);
        }
        let _ = session.handle(WorkSignal::WalkComplete);
        let probe = |asked: &str| {
            paths.iter().any(|(path, directory)| *directory && asked == format!("/tree/{path}"))
        };
        let mut last = FileSearchSnapshot::default();
        loop {
            let outcome = session.tick(&|_: &str| true, &|| true, &probe);
            last = outcome.update.unwrap_or(last);
            if outcome.complete {
                return last;
            }
        }
    };
    run(query, roots, options, nobody(), true, &|| false, drive).expect("run ok")
}

fn numbered(count: usize) -> Vec<(String, bool)> {
    (0..count).map(|index| (format!("file-{index:04}.txt"), false)).collect()
}

#[test]
fn run_returns_matches_for_query() {
    let results = run_over("file-000", 20, numbered(40));
    assert!(!results.matches.is_empty());
    assert!(results.total_match_count >= results.matches.len());
    assert!(results.matches.iter().any(|m| m.path.contains("file-0000.txt")));
}

#[test]
fn run_returns_directory_matches_for_query() {
    let paths = vec![
        ("docs".to_string(), true),
        ("docs/guides".to_string(), true),
        ("docs/guides/intro.md".to_string(), false),
        ("docs/readme.md".to_string(), false),
    ];
    let results = run_over("guides", 20, paths);
    assert!(results
        .matches
        .iter()
        .any(|m| m.path == "docs/guides" && m.match_type == MatchType::Directory));
}

#[test]
fn a_search_finds_every_match_once() {
    let results = run_over("le-01", 200, numbered(200));
    assert_eq!(results.total_match_count, results.matches.len());
    let mut paths: Vec<String> = results.matches.iter().map(|m| m.path.clone()).collect();
    paths.sort();
    let is_found = |path: &String| {
        let mut rest = path.chars();
        "le-01".chars().all(|wanted| rest.any(|ch| ch == wanted))
    };
    let expected: Vec<String> =
        numbered(200).into_iter().map(|(path, _)| path).filter(is_found).collect();
    assert_eq!(paths, expected);
    assert!(expected.len() > 100);
}

#[test]
fn the_order_of_the_walk_leaves_the_scores_alone() {
    let forth = run_over("ile-1", 30, numbered(200));
    let back = run_over("ile-1", 7, numbered(200).into_iter().rev().collect());
    assert_eq!(forth.total_match_count, back.total_match_count);
    let scores = |found: &FileSearchResults| -> Vec<u32> {
        found.matches.iter().map(|m| m.score).collect()
    };
    assert_eq!(scores(&back), scores(&forth)[..7].to_vec());
}

#[test]
fn cancel_exits_run() {
    let results = run(
        "file-",
        vec!["/tree".to_string()],
        FileSearchOptions::default(),
        nobody(),
        true,
        &|| true,
        |_session: FileSearchSession, _walk: Walk| panic!("nothing is driven"),
    )
    .expect("run ok");
    assert_eq!(results.matches, Vec::new());
    assert_eq!(results.total_match_count, 0);
}

#[test]
fn the_listener_is_told_of_news() {
    let counter = Arc::new(Counter::default());
    let notifier = Notifier { listener: counter.clone() };
    let roots = vec!["/tree".to_string()];
    let (_session, mut walk) =
        create_session(roots, FileSearchOptions::default(), notifier, true).expect("session");
    assert_eq!(counter.news.load(Ordering::SeqCst), 0);
    add_files(&mut walk, "/tree", 3);
    assert_eq!(counter.news.load(Ordering::SeqCst), 3);
}

#[test]
fn running_once_refuses_what_a_session_refuses() {
    let result = run(
        "a",
        Vec::new(),
        FileSearchOptions::default(),
        nobody(),
        true,
        &|| false,
        |_session: FileSearchSession, _walk: Walk| panic!("nothing is driven"),
    );
    assert!(matches!(result, Err(SessionError::NoSearchDirectory)));
}

fn file_match(path: &str) -> FileMatch {
    FileMatch {
        score: 1,
        path: path.to_string(),
        match_type: MatchType::File,
        root: "/tree".to_string(),
        indices: None,
    }
}

#[test]
fn results_are_reported_in_order_with_a_warning_when_truncated() {
    let mut found = FileSearchResults {
        matches: vec![file_match("a"), file_match("b")],
        total_match_count: 2,
    };
    assert_eq!(report_steps(&found), vec![ReportStep::Match(0), ReportStep::Match(1)]);

    found.total_match_count = 3;
    assert_eq!(
        report_steps(&found),
        vec![
            ReportStep::Match(0),
            ReportStep::Match(1),
            ReportStep::Truncated { total: 3, shown: 2 },
        ]
    );

    found.matches.clear();
    found.total_match_count = 0;
    assert!(report_steps(&found).is_empty());
}

#[test]
fn results_are_those_of_the_snapshot() {
    let snapshot = FileSearchSnapshot {
        matches: vec![file_match("a")],
        total_match_count: 9,
        ..FileSearchSnapshot::default()
    };
    let found = results_of(snapshot);
    assert_eq!(found.matches, vec![file_match("a")]);
    assert_eq!(found.total_match_count, 9);
}

#[test]
fn requests_search_only_with_a_pattern() {
    let request = |pattern: Option<&str>| Request {
        pattern: pattern.map(str::to_string),
        limit: PositiveCount::new(5).unwrap(),
        compute_indices: true,
        exclude: vec!["target".to_string()],
        threads: PositiveCount::new(1).unwrap(),
    };
    assert!(matches!(main_step(request(None)), MainStep::ListDirectory));
    match main_step(request(Some("lib"))) {
        MainStep::Search { pattern, options } => {
            assert_eq!(pattern, "lib");
            assert_eq!(options.limit.get(), 5);
            assert_eq!(options.threads.get(), 1);
            assert!(options.compute_indices);
            assert!(options.respect_gitignore);
            assert_eq!(options.exclude, vec!["target".to_string()]);
        }
        MainStep::ListDirectory => panic!("there is a pattern"),
    }
}

#[test]
fn default_options_and_counts() {
    let options = FileSearchOptions::default();
    assert_eq!(options.limit.get(), 20);
    assert_eq!(options.threads.get(), 2);
    assert!(options.exclude.is_empty());
    assert!(!options.compute_indices);
    assert!(options.respect_gitignore);
    assert!(PositiveCount::new(0).is_none());
    let snapshot = FileSearchSnapshot::default();
    assert_eq!(snapshot.query, "");
    assert_eq!(snapshot.clone(), snapshot);
}
