use kelp::paths::{display, from_bytes, parents_of, to_bytes};
use kelp::portable::check_portable;
use kelp::selection::{includes, intersects, normalize, within};
use kelp::text::{is_control, is_white_space, trim_end};
use kelp::{validate_path, Problem};

#[test]
fn native_path_encoding_is_lossless_and_cannot_alias_traversal_or_metadata() {
    let encoded = from_bytes(b"dir/raw-\xff").unwrap();
    assert_eq!(encoded, "dir/\x007261772dff");
    assert_eq!(to_bytes(&encoded).unwrap(), b"dir/raw-\xff");
    for bad in ["\x002e2e/file", "\x002e676974/config", "\0ff2f/file", "\0ff00", "dir/../file"] {
        assert!(validate_path(bad).is_err());
    }
}

#[test]
fn paths_are_checked_component_by_component() {
    let problem = |path: &str| validate_path(path).unwrap_err();
    assert_eq!(problem("").problem, Problem::EmptyPath);
    assert_eq!(problem("a//b").problem, Problem::UnsupportedPath);
    assert_eq!(problem("a/.KELP/b").message(), "unsupported file path: a/.KELP/b");
    assert_eq!(problem("\0f").problem, Problem::InvalidRawPath);
    assert_eq!(problem("\0FF").problem, Problem::InvalidRawPath);
    assert_eq!(problem("\x0061").problem, Problem::NoncanonicalRawPath);
    assert!(validate_path("a/é/.hidden/.gitignore").is_ok());
    assert!(validate_path("a b/c:d").is_ok());
}

#[test]
fn shown_paths_hold_no_control_characters() {
    assert_eq!(display("dir/file"), "dir/file");
    assert_eq!(display("dir/\x007261772dff"), "dir/\\x72\\x61\\x77\\x2d\\xff");
    assert_eq!(display("a\u{1b}b"), "a\\u{1b}b");
    assert_eq!(display("\0zz"), "\\0zz");
}

#[test]
fn parents_come_from_the_top_or_the_bottom_but_never_the_path_itself() {
    let mut parents = parents_of("a/b/c");
    parents.sort();
    assert_eq!(parents, ["a", "a/b"]);
    assert!(parents_of("a").is_empty());
}

#[test]
fn portable_paths_avoid_devices_and_special_characters() {
    for good in ["a/b.txt", "console", "COM10", "é", "a.b.c"] {
        assert!(check_portable(good).is_ok(), "{good}");
    }
    for bad in ["a.", "b ", "con", "dir/Aux.txt", "lpt9", "a:b", "x?", "a\u{7}"] {
        assert_eq!(check_portable(bad).unwrap_err().problem, Problem::UnportablePath, "{bad}");
    }
    assert_eq!(
        check_portable("\0ff").unwrap_err().message(),
        "this filesystem cannot represent a non-UTF-8 path"
    );
    assert_eq!(check_portable("../a").unwrap_err().problem, Problem::UnsupportedPath);
}

#[test]
fn character_classes_are_those_of_unicode() {
    for c in (0..=0x10ffffu32).filter_map(char::from_u32) {
        assert_eq!(is_white_space(c), c.is_whitespace(), "{c:?}");
        assert_eq!(is_control(c), c.is_control(), "{c:?}");
    }
    assert_eq!(trim_end(" a \u{3000}\n"), " a");
    assert_eq!(trim_end("\t"), "");
}

#[test]
fn selections_cover_whole_directories() {
    let list = |paths: &[&str]| normalize(paths.iter().map(|path| (*path).to_owned()).collect());
    assert_eq!(list(&["./services/api/", "services/api/main.txt"]).unwrap(), ["services/api"]);
    assert_eq!(list(&["b", "a", "b"]).unwrap(), ["a", "b"]);
    assert_eq!(list(&["a-b", "a/c", "a"]).unwrap(), ["a", "a-b"]);
    assert!(list(&["a", "."]).unwrap().is_empty());
    assert_eq!(list(&[""]).unwrap_err().problem, Problem::EmptySelection);
    assert_eq!(list(&["../a"]).unwrap_err().problem, Problem::UnsupportedPath);
    assert!(within("a", "a/b") && within("a", "a") && !within("a", "ab"));
    let selection = vec!["services/api".to_owned()];
    assert!(includes(&selection, "services/api/main.txt"));
    assert!(!includes(&selection, "services/api-other/file.txt"));
    assert!(includes(&[], "anything"));
    assert!(intersects(&selection, "services"));
    assert!(!intersects(&selection, "assets"));
}
