use file_search::paths::{
    ancestors_of, file_name_of, join, parent_of, strip_prefix, with_slashes,
};
use file_search::roots::get_file_path;
use std::path::Path;

fn samples() -> Vec<String> {
    let mut samples = Vec::new();
    for text in [
        "", ".", "..", "/", "//", "/.", "./", "a", "a/", "a//", "a/.", "./a", "././a", "../a", "/a",
        "//a", "/a/b", "/a//b/", "a/b", "a/b/c", "/a/b/c", "a/../b", "a/./b", "/./a", "a/b/..",
        "\u{e9}/\u{4e2d}", "/a/b.txt", "..a", "a..", ".a", "...",
    ] {
        samples.push(text.to_string());
    }
    samples
}

#[test]
fn file_names_agree_with_the_standard_library() {
    for path in samples() {
        let expected = Path::new(&path)
            .file_name()
            .map(|name| name.to_string_lossy().into_owned());
        assert_eq!(file_name_of(&path), expected, "{path:?}");
    }
}

#[test]
fn parents_agree_with_the_standard_library() {
    for path in samples() {
        let expected = Path::new(&path)
            .parent()
            .map(|parent| parent.to_string_lossy().into_owned());
        assert_eq!(parent_of(&path), expected, "{path:?}");
    }
}

#[test]
fn ancestors_agree_with_the_standard_library() {
    for path in samples() {
        let expected: Vec<String> = Path::new(&path)
            .ancestors()
            .skip(1)
            .map(|parent| parent.to_string_lossy().into_owned())
            .collect();
        assert_eq!(ancestors_of(&path), expected, "{path:?}");
    }
}

#[test]
fn joining_agrees_with_the_standard_library() {
    for base in samples() {
        for path in samples() {
            let expected = Path::new(&base).join(&path).to_string_lossy().into_owned();
            assert_eq!(join(&base, &path), expected, "{base:?} {path:?}");
        }
    }
}

#[test]
fn stripping_agrees_with_the_standard_library() {
    for path in samples() {
        for base in samples() {
            let expected = Path::new(&path)
                .strip_prefix(&base)
                .ok()
                .map(|rest| rest.to_string_lossy().into_owned());
            assert_eq!(strip_prefix(&path, &base), expected, "{path:?} {base:?}");
        }
    }
}

#[test]
fn stripped_paths_join_back_to_the_same_place() {
    let rest = strip_prefix("/work/src/lib.rs", "/work").unwrap();
    assert_eq!(rest, "src/lib.rs");
    let whole = join("/work", &rest);
    assert_eq!(Path::new(&whole), Path::new("/work/src/lib.rs"));
}

#[test]
fn deepest_search_directory_wins() {
    let roots = vec![
        "/work".to_string(),
        "/work/src".to_string(),
        "/work/src/".to_string(),
        "/other".to_string(),
    ];
    assert_eq!(
        get_file_path("/work/src/lib.rs", &roots),
        Some((1, "lib.rs".to_string()))
    );
    assert_eq!(
        get_file_path("/work/README.md", &roots),
        Some((0, "README.md".to_string()))
    );
    assert_eq!(get_file_path("/work", &roots), Some((0, String::new())));
    assert_eq!(get_file_path("/elsewhere", &roots), None);
    assert_eq!(get_file_path("/workshop", &roots), None);
    assert_eq!(get_file_path("/work", &Vec::new()), None);
}

#[test]
fn backslashes_are_turned_into_separators() {
    assert_eq!(with_slashes("C:\\r\\a b/c"), "C:/r/a b/c");
    assert_eq!(with_slashes(""), "");
    let roots = vec![with_slashes("C:\\r")];
    assert_eq!(
        get_file_path(&with_slashes("C:\\r\\src\\a"), &roots),
        Some((0, "src/a".to_string()))
    );
}
