use file_search::classify::{
    decode_match_type, encode_match_type, read_verdict, MatchTypeTracker, ReadFailure, ReadVerdict,
    SearchItem, DIRECTORY_MATCH_TYPE, FILE_MATCH_TYPE, MAX_MATCH_TYPE_WATCHES, UNKNOWN_MATCH_TYPE,
};
use file_search::engine::{Listener, Notifier};
use file_search::overrides::{build_override_matcher, OverrideError};
use file_search::walk::{walk_settings, WalkEntry, WalkState, CHECK_INTERVAL};
use file_search::{create_session, FileSearchOptions, MatchType};
use std::cell::{Cell, RefCell};
use std::sync::Arc;

struct Nobody;

impl Listener for Nobody {
    fn on_news(&self) {}
}

fn nobody() -> Notifier {
    Notifier { listener: Arc::new(Nobody) }
}

#[test]
fn match_types_are_encoded_and_decoded() {
    for match_type in [MatchType::File, MatchType::Directory] {
        assert_eq!(decode_match_type(encode_match_type(match_type)), Some(match_type));
    }
    assert_eq!(encode_match_type(MatchType::File), FILE_MATCH_TYPE);
    assert_eq!(encode_match_type(MatchType::Directory), DIRECTORY_MATCH_TYPE);
    assert_eq!(decode_match_type(UNKNOWN_MATCH_TYPE), None);
    assert_eq!(decode_match_type(3), None);
}

#[test]
fn items_give_back_a_type_only_once_classified() {
    let mut item = SearchItem::new("/a".to_string(), Some(MatchType::File), true);
    assert_eq!(item.cached_match_type(), None);
    item.update_cached_match_type(MatchType::Directory);
    assert_eq!(item.cached_match_type(), Some(MatchType::Directory));

    let mut link = SearchItem::new("/l".to_string(), None, false);
    link.update_cached_match_type(MatchType::Directory);
    assert_eq!(link.cached_match_type(), None);
}

#[test]
fn ancestors_are_watched_once_and_up_to_the_root() {
    let asked = RefCell::new(Vec::new());
    let add_watch = |path: &str| {
        asked.borrow_mut().push(path.to_string());
        true
    };
    let mut tracker = MatchTypeTracker::new(true);
    tracker.watch_ancestors("/a/b/c", &add_watch);
    tracker.watch_ancestors("/a/b/d", &add_watch);
    tracker.watch_directory("/a//b/", &add_watch);
    assert_eq!(*asked.borrow(), vec!["/a/b", "/a", "/"]);
    assert_eq!(tracker.watch_count(), 3);
    assert!(!tracker.is_dirty());
    assert!(tracker.can_use_cached_match_types(&|| true));
}

#[test]
fn a_failed_watch_makes_the_tracker_dirty_for_good() {
    let asked = Cell::new(0);
    let add_watch = |path: &str| {
        asked.set(asked.get() + 1);
        path != "/a"
    };
    let mut tracker = MatchTypeTracker::new(true);
    tracker.watch_ancestors("/a/b/c", &add_watch);
    assert!(tracker.is_dirty());
    assert_eq!(asked.get(), 2);
    assert_eq!(tracker.watch_count(), 1);
    assert!(!tracker.can_use_cached_match_types(&|| panic!("not read any more")));
    tracker.watch_directory("/x", &add_watch);
    assert_eq!(asked.get(), 2);
}

#[test]
fn a_reported_change_makes_the_tracker_dirty() {
    let mut tracker = MatchTypeTracker::new(true);
    assert!(tracker.can_use_cached_match_types(&|| true));
    assert!(!tracker.can_use_cached_match_types(&|| false));
    assert!(!tracker.can_use_cached_match_types(&|| true));
    assert!(MatchTypeTracker::new(false).is_dirty());
}

#[test]
fn paths_with_a_nul_cannot_be_watched() {
    let mut tracker = MatchTypeTracker::new(true);
    tracker.watch_directory("/a\0b", &|_: &str| panic!("never asked for"));
    assert!(tracker.is_dirty());
}

#[test]
fn watches_are_limited() {
    let mut tracker = MatchTypeTracker::new(true);
    for index in 0..MAX_MATCH_TYPE_WATCHES {
        tracker.watch_directory(&format!("/d{index}"), &|_: &str| true);
    }
    assert!(!tracker.is_dirty());
    assert_eq!(tracker.watch_count(), 1024);
    tracker.watch_directory("/d0", &|_: &str| true);
    assert!(!tracker.is_dirty());
    tracker.watch_directory("/one-more", &|_: &str| panic!("never asked for"));
    assert!(tracker.is_dirty());
    assert_eq!(tracker.watch_count(), 1024);
}

#[test]
fn reads_of_the_watches_are_judged() {
    assert_eq!(read_verdict(16, ReadFailure::Other), ReadVerdict::Dirty);
    assert_eq!(read_verdict(0, ReadFailure::WouldBlock), ReadVerdict::Dirty);
    assert_eq!(read_verdict(-1, ReadFailure::Interrupted), ReadVerdict::Retry);
    assert_eq!(read_verdict(-1, ReadFailure::WouldBlock), ReadVerdict::Clean);
    assert_eq!(read_verdict(-1, ReadFailure::Other), ReadVerdict::Dirty);
}

#[test]
fn globs_to_exclude_make_a_matcher() {
    assert!(matches!(build_override_matcher("/tree", &Vec::new()), Ok(None)));
    let exclude = vec!["*.rs".to_string(), "target/".to_string()];
    let matcher = build_override_matcher("/tree", &exclude).unwrap().unwrap();
    assert_eq!(matcher.num_ignores(), 2);
    assert_eq!(matcher.num_whitelists(), 0);
    assert!(matcher.matched("/tree/src/lib.rs", false).is_ignore());
    assert!(matcher.matched("/tree/target", true).is_ignore());
    assert!(matcher.matched("/tree/README.md", false).is_none());
}

#[test]
fn the_first_glob_that_does_not_parse_is_named() {
    let exclude = vec!["a".to_string(), "[".to_string(), "{".to_string()];
    match build_override_matcher("/tree", &exclude) {
        Err(OverrideError::Glob { index, error }) => {
            assert_eq!(index, 1);
            assert!(error.to_string().contains("!["));
        }
        _ => panic!("the glob does not parse"),
    }
}

#[test]
fn settings_follow_the_options() {
    let on = walk_settings(4, true);
    assert_eq!(on.threads, 4);
    assert!(on.follow_links && on.require_git && !on.hidden);
    assert!(on.git_ignore && on.git_global && on.git_exclude && on.ignore && on.parents);
    let off = walk_settings(1, false);
    assert!(off.follow_links && off.require_git && !off.hidden);
    assert!(!off.git_ignore && !off.git_global && !off.git_exclude);
    assert!(!off.ignore && !off.parents);
}

#[test]
fn offers_carry_what_the_walk_knows() {
    let roots = vec!["/tree".to_string()];
    let (_session, mut walk) =
        create_session(roots, FileSearchOptions::default(), nobody(), true).expect("session");
    let visitor = walk.visitor();
    let ((id, path, code, cacheable), relative) =
        visitor.offer(9, "/tree/src", false, Some(true)).unwrap();
    assert_eq!((id, path.as_str(), code, cacheable), (9, "/tree/src", 2, true));
    assert_eq!(relative, "src");
    let ((_, _, code, cacheable), _) = visitor.offer(9, "/tree/l", true, Some(true)).unwrap();
    assert_eq!((code, cacheable), (0, false));
    let ((_, _, code, cacheable), _) = visitor.offer(9, "/tree/f", false, Some(false)).unwrap();
    assert_eq!((code, cacheable), (1, true));
    let ((_, _, code, cacheable), _) = visitor.offer(9, "/tree/u", false, None).unwrap();
    assert_eq!((code, cacheable), (0, true));
    assert!(visitor.offer(9, "/elsewhere", false, None).is_none());
}

#[test]
fn a_walk_looks_whether_to_stop_now_and_then() {
    let roots = vec!["/tree".to_string()];
    let (_session, mut walk) =
        create_session(roots, FileSearchOptions::default(), nobody(), true).expect("session");
    let mut visitor = walk.visitor();
    let looked = Cell::new(0);
    let stop = Cell::new(false);
    let stop_requested = || {
        looked.set(looked.get() + 1);
        stop.get()
    };
    let entry = |index: usize| WalkEntry::Found {
        full_path: format!("/tree/{index}"),
        is_symlink: false,
        is_directory: Some(false),
    };
    for index in 0..CHECK_INTERVAL - 1 {
        let state = visitor.visit(entry(index), &stop_requested);
        assert_eq!(state, WalkState::Continue);
    }
    assert_eq!(visitor.visit(WalkEntry::Failed, &stop_requested), WalkState::Continue);
    assert_eq!(visitor.visit(WalkEntry::Unnamed, &stop_requested), WalkState::Continue);
    assert_eq!(looked.get(), 0);
    assert_eq!(visitor.visit(entry(5000), &stop_requested), WalkState::Continue);
    assert_eq!(looked.get(), 1);

    stop.set(true);
    for index in 0..CHECK_INTERVAL - 1 {
        let state = visitor.visit(entry(index), &stop_requested);
        assert_eq!(state, WalkState::Continue);
    }
    assert_eq!(visitor.visit(entry(9000), &stop_requested), WalkState::Quit);
    assert_eq!(visitor.visit(entry(9001), &stop_requested), WalkState::Quit);
    assert_eq!(looked.get(), 3);
}

#[test]
fn visitors_are_numbered_one_by_one() {
    let roots = vec!["/tree".to_string()];
    let (_session, mut walk) =
        create_session(roots, FileSearchOptions::default(), nobody(), true).expect("session");
    assert_eq!(walk.visitors, 0);
    let mut first = walk.visitor();
    let second = walk.visitor();
    assert_eq!(walk.visitors, 2);
    let entry = WalkEntry::Found {
        full_path: "/elsewhere".to_string(),
        is_symlink: false,
        is_directory: None,
    };
    let _ = first.visit(entry, &|| false);
    let _ = first.visit(WalkEntry::Failed, &|| false);
    assert_eq!(first.found_count(), 1);
    assert_eq!(second.found_count(), 0);
}
