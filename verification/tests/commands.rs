use kelp::collections::TextSet;
use kelp::commands::{
    check_project, chosen_resolution, commit_text, default_name, diff_text, imported_name, log_text, path_argument,
    shown_entries, status_text, version_text,
};
use kelp::encoding::{decimal_text, hex_text, parse_decimal};
use kelp::error::Error;
use kelp::pins::{check_binding, resolve_name, Pin};
use kelp::transactions::Graph;
use kelp::workspace::{FileChange, FileDiff, Resolution, Status};
use kelp::{object_id, FileEntry, Problem, Snapshot};

#[test]
fn names_come_from_directories() {
    assert_eq!(default_name("My Project.é_1"), "My-Project--_1");
    assert_eq!(imported_name("repo.git"), "repo");
    assert_eq!(imported_name("x.git.git"), "x");
    assert_eq!(imported_name(".gi"), ".gi");
    assert!(check_project(None, "demo").is_ok());
    assert!(check_project(Some("demo"), "demo").is_ok());
    assert_eq!(check_project(Some("other"), "demo").unwrap_err().problem, Problem::ProjectMismatch);
}

#[test]
fn options_choose_a_side() {
    assert_eq!(chosen_resolution(false, false), Resolution::Stop);
    assert_eq!(chosen_resolution(true, false), Resolution::Local);
    assert_eq!(chosen_resolution(false, true), Resolution::Remote);
    assert_eq!((shown_entries(20, 5), shown_entries(20, 50), shown_entries(5000, 2000)), (5, 20, 1000));
}

#[test]
fn path_arguments_stay_in_the_project() {
    assert_eq!(path_argument(b"./services//api/.").unwrap(), "services/api");
    assert_eq!(path_argument(b".").unwrap(), ".");
    assert_eq!(path_argument(b"./").unwrap(), ".");
    assert_eq!(path_argument(b"raw-\xff").unwrap(), "\x007261772dff");
    for bad in [&b"/etc"[..], b"..", b"a/../b"] {
        assert_eq!(path_argument(bad).unwrap_err().problem, Problem::OutsidePath);
    }
    assert_eq!(path_argument(b"").unwrap_err().problem, Problem::EmptyPath);
}

#[test]
fn the_status_is_put_in_words() {
    let mut conflicts = TextSet::new();
    let mut status = Status {
        project: "demo".into(),
        remote: None,
        view: String::new(),
        pending_commits: 0,
        changed: vec![],
        conflicts: conflicts.clone(),
        version: None,
        paths: vec![],
    };
    assert_eq!(
        status_text(&status, None),
        "Project: demo\nRemote: local only\nNo saved versions yet.\nNo uncommitted edits."
    );
    conflicts.insert("b".into());
    conflicts.insert("a".into());
    status.conflicts = conflicts;
    status.remote = Some("http://host/demo".into());
    status.paths = vec!["x".into(), "y".into()];
    status.pending_commits = 12;
    status.changed = vec!["x/a".into(), "y".into()];
    assert_eq!(
        status_text(&status, Some("0123456789ab")),
        "Project: demo\nRemote: http://host/demo\nSelected paths: x, y\nLast saved view: 0123456789ab\n12 committed version(s) ready to push.\n  uncommitted  x/a\n  uncommitted  y\nCommit a resolution for: a, b"
    );
}

#[test]
fn changes_are_put_in_words() {
    let change = |path: &str, kind: &'static str| FileChange { path: path.into(), kind };
    assert_eq!(diff_text(&[]), "No file changes.");
    let files = [
        FileDiff { file: change("a", "added"), diff: "+x\n".into() },
        FileDiff { file: change("b", "deleted"), diff: "-y\n".into() },
    ];
    assert_eq!(diff_text(&files), "added a\n+x\n\ndeleted b\n-y");
    let six: Vec<FileChange> = (0..6).map(|i| change(&format!("f{i}"), "added")).collect();
    assert_eq!(
        version_text("abcd", Some("Words"), &six),
        "abcd  Words\n   added f0\n   added f1\n   added f2\n   added f3\n   added f4\n   + 1 more; kelp show abcd\n"
    );
    assert_eq!(version_text("abcd", None, &six[..1]), "abcd  Saved version\n   added f0\n");
    assert_eq!(commit_text("abcd", "Words", &["a".into(), "b".into()]), "abcd  Words\n   a, b");
    assert_eq!(log_text(&[], "Nothing."), "Nothing.");
    assert_eq!(log_text(&["a".into(), "b".into()], "Nothing."), "a\nb");
}

#[test]
fn numbers_are_written_and_read() {
    assert_eq!(decimal_text(0), "0");
    assert_eq!(decimal_text(u64::MAX), "18446744073709551615");
    assert_eq!(parse_decimal("18446744073709551615"), Some(u64::MAX));
    assert_eq!(parse_decimal("18446744073709551616"), None);
    assert_eq!(parse_decimal("+007"), Some(7));
    for bad in ["", "+", "-1", "1 ", "１"] {
        assert_eq!(parse_decimal(bad), None);
    }
    assert_eq!(hex_text(&[0, 15, 255]), "000fff");
}

#[test]
fn problems_are_put_in_words() {
    assert_eq!(
        Error::about(Problem::SeveralIncoming, "a".into()).message(),
        "several incoming versions conflict in a; keep local, edit the file, and commit to resolve all alternatives"
    );
    assert_eq!(
        Error::plain(Problem::InvalidName).message(),
        "names must contain 1–128 ASCII letters, digits, hyphens, or underscores"
    );
    assert_eq!(
        Error::about(Problem::NotAView, "abcd".into()).message(),
        "abcd identifies edits, not a complete project view; choose a view hash from `kelp log`"
    );
}

#[test]
fn release_tags_reject_drafts_and_rebinding_an_existing_name() {
    let file = |text: &str| {
        let mut snapshot = Snapshot::default();
        snapshot.files.insert(
            "file".into(),
            FileEntry { blob: object_id("blob", text.as_bytes()), size: text.len() as u64, ..Default::default() },
        );
        snapshot
    };
    let mut graph = Graph::default();
    let first = graph.record(&file("committed"), "Release".into(), "a".into()).unwrap();
    graph.transactions.insert(first.id().unwrap(), first);
    let pin = |name: &str, snapshot: &Snapshot, graph: &Graph| Pin {
        format: 1,
        name: name.into(),
        snapshot: snapshot.id().unwrap(),
        roots: graph.roots(),
    };
    let release = pin("v1.0", &file("committed"), &graph);
    assert!(release.validate(&graph).is_ok());
    let draft = pin("draft", &file("draft"), &graph);
    assert_eq!(draft.validate(&graph).unwrap_err().problem, Problem::UncommittedView);
    let pins = vec![release];
    let next = graph.record(&file("draft"), "Next release".into(), "b".into()).unwrap();
    graph.transactions.insert(next.id().unwrap(), next);
    let again = pin("v1.0", &file("draft"), &graph);
    assert!(again.validate(&graph).is_ok());
    assert_eq!(
        check_binding(&pins, "v1.0", &again.view_id().unwrap()).unwrap_err().problem,
        Problem::NameTaken
    );
    assert!(check_binding(&pins, "v1.0", &pins[0].view_id().unwrap()).is_ok());
    assert!(check_binding(&pins, "v2.0", &again.view_id().unwrap()).is_ok());
    assert_eq!(resolve_name(&pins, "v1.0").unwrap(), Some(pins[0].view_id().unwrap()));
    assert_eq!(resolve_name(&pins, "v3.0").unwrap(), None);
    let both = [pin("v1.0", &file("draft"), &graph), pin("v1.0", &file("committed"), &graph)];
    assert_eq!(resolve_name(&both, "v1.0").unwrap_err().problem, Problem::AmbiguousName);
    assert_eq!(pin(" ", &file("draft"), &graph).validate(&graph).unwrap_err().problem, Problem::UnnamedPin);
    assert_eq!(
        both[0].id().unwrap(),
        object_id("pin", both[0].to_json().as_bytes())
    );
}
