use file_search::engine::fuzzy_score;
use file_search::query::{can_be_scored, MAX_QUERY_CHARS, MAX_WORD_CHARS};
use file_search::ranking::{ascending_unique, compare_text, sort_matches};
use file_search::{cmp_by_score_desc_then_path_asc, file_name_from_path};
use file_search::{FileMatch, MatchType};
use std::cmp::Ordering;

#[test]
fn verify_score_is_none_for_non_match() {
    let line = "hello";
    let score = fuzzy_score("zzz", line);
    assert_eq!(score, None);
}

#[test]
fn empty_pattern_scores_zero_everywhere() {
    assert_eq!(fuzzy_score("", "hello"), Some(0));
    assert_eq!(fuzzy_score("", ""), Some(0));
}

#[test]
fn better_matches_score_higher() {
    let whole = fuzzy_score("hello", "hello").unwrap();
    let scattered = fuzzy_score("hello", "h-e-l-l-o").unwrap();
    assert!(whole > scattered);
    assert_eq!(fuzzy_score("HELLO", "hello"), Some(whole));
}

#[test]
fn the_longest_words_score_within_16_bits() {
    let word = "a".repeat(MAX_WORD_CHARS);
    assert_eq!(fuzzy_score(&word, &word), Some(36 + 2519 * 26));
    let query = format!("\u{e9}{}", "\\".repeat(1259));
    let needle = format!("\u{e9}{}", "\\".repeat(2517));
    assert!(fuzzy_score(&query, &needle).is_some());
    assert_eq!(fuzzy_score(&"a".repeat(100_000), &word), None);
}

#[test]
fn queries_are_measured_word_by_word() {
    let longest = "a".repeat(MAX_WORD_CHARS);
    assert_eq!(MAX_WORD_CHARS, 2520);
    assert!(can_be_scored(""));
    assert!(can_be_scored(&longest));
    assert!(!can_be_scored(&format!("{longest}a")));
    assert!(can_be_scored(&format!("{longest} {longest}")));
    assert!(!can_be_scored(&format!("{longest}\\ {longest}")));
    assert!(!can_be_scored(&format!("x {longest}a y")));
    assert!(can_be_scored(&"\\".repeat(2520)));
    assert!(can_be_scored(&format!("\u{e9}{}", "\\".repeat(1259))));
    assert!(!can_be_scored(&format!("\u{e9}{}", "\\".repeat(1260))));
    assert!(!can_be_scored(&format!("{}\u{e9}", "\\".repeat(1260))));
    assert!(can_be_scored(&format!("\u{e9} {}", "\\".repeat(1260))));
    assert_eq!(MAX_QUERY_CHARS, 67_108_863);
}

#[test]
fn tie_breakers_sort_by_path_when_scores_equal() {
    let mut matches = vec![
        (100, "b_path".to_string()),
        (100, "a_path".to_string()),
        (90, "zzz".to_string()),
    ];

    sort_matches(&mut matches);

    // Highest score first; ties broken alphabetically.
    let expected = vec![
        (100, "a_path".to_string()),
        (100, "b_path".to_string()),
        (90, "zzz".to_string()),
    ];

    assert_eq!(matches, expected);
}

#[test]
fn sorting_agrees_with_a_sort_by_the_comparator() {
    let mut matches = vec![
        (3, "b".to_string()),
        (7, "zz".to_string()),
        (3, "a/b".to_string()),
        (3, "a".to_string()),
        (7, "\u{e9}".to_string()),
        (0, String::new()),
        (3, "a".to_string()),
    ];
    let mut expected = matches.clone();
    expected.sort_by(|a, b| b.0.cmp(&a.0).then_with(|| a.1.cmp(&b.1)));
    sort_matches(&mut matches);
    assert_eq!(matches, expected);

    let compare = cmp_by_score_desc_then_path_asc::<(u32, String), _, _>(|t| t.0, |t| t.1.as_str());
    let mut sorted = expected.clone();
    sorted.reverse();
    sorted.sort_by(compare);
    assert_eq!(sorted, expected);
}

#[test]
fn texts_compare_like_strings() {
    let texts = ["", "a", "aa", "ab", "b", "\u{e9}", "\u{4e2d}", "\u{1f600}"];
    for left in texts {
        for right in texts {
            assert_eq!(compare_text(left, right), left.cmp(right));
        }
    }
    assert_eq!(compare_text("a", "b"), Ordering::Less);
}

#[test]
fn file_name_from_path_uses_basename() {
    assert_eq!(file_name_from_path("foo/bar.txt"), "bar.txt");
}

#[test]
fn file_name_from_path_falls_back_to_full_path() {
    assert_eq!(file_name_from_path(""), "");
}

#[test]
fn file_name_from_path_without_a_name() {
    assert_eq!(file_name_from_path("/"), "/");
    assert_eq!(file_name_from_path("a/.."), "a/..");
    assert_eq!(file_name_from_path("a/b/"), "b");
    assert_eq!(file_name_from_path("a/./"), "a");
}

#[test]
fn full_path_joins_root_and_path() {
    let file_match = FileMatch {
        score: 1,
        path: "src/lib.rs".to_string(),
        match_type: MatchType::File,
        root: "/work".to_string(),
        indices: None,
    };
    assert_eq!(file_match.full_path(), "/work/src/lib.rs");
    let copy = file_match.clone();
    assert_eq!(copy, file_match);
}

#[test]
fn indices_are_listed_once_in_ascending_order() {
    assert_eq!(ascending_unique(&vec![5, 1, 5, 3, 1]), vec![1, 3, 5]);
    assert_eq!(ascending_unique(&Vec::new()), Vec::<u32>::new());
    assert_eq!(ascending_unique(&vec![u32::MAX, 0]), vec![0, u32::MAX]);
}
