use gitr::cli::{parse_args, parse_limit, CliAction};
use gitr::commands::{branch_name, changed_files_args, diff_args, file_diff_args, status_args};
use gitr::commit::{build_rows, collect_decorations, WalkedCommit};
use gitr::search::find_next;
use gitr::watch::{refs_changed, Stamp};

fn commit(id: &str, author: &str, summary: &str) -> WalkedCommit {
    WalkedCommit {
        id: id.to_string(),
        parents: vec![],
        author: Some(author.to_string()),
        email: None,
        time: 0,
        offset_min: 0,
        summary: Some(summary.to_string()),
    }
}

fn rows() -> Vec<gitr::commit::CommitRow> {
    let commits = vec![
        commit("aaaaaaa1", "Ada", "Fix Parser"),
        commit("bbbbbbb2", "Bob", "add tests"),
        commit("ccccccc3", "Cy", "Parser speedup"),
    ];
    build_rows(&commits, &collect_decorations(&Vec::new(), None))
}

#[test]
fn search_wraps_and_ignores_case() {
    let r = rows();
    assert_eq!(find_next(&r, "PARSER", Some(0)), Some(2));
    assert_eq!(find_next(&r, "parser", Some(2)), Some(0));
    assert_eq!(find_next(&r, "bob", None), Some(1));
    // the short id is searched as it is
    assert_eq!(find_next(&r, "bbbb", Some(1)), Some(1));
}

#[test]
fn search_without_match_keeps_selection() {
    let r = rows();
    assert_eq!(find_next(&r, "zzz", Some(1)), Some(1));
    assert_eq!(find_next(&r, "", Some(2)), Some(2));
    assert_eq!(find_next(&[], "x", None), None);
}

fn args(v: &[&str]) -> Vec<String> {
    v.iter().map(|x| x.to_string()).collect()
}

#[test]
fn cli_defaults_and_options() {
    match parse_args(&args(&[])) {
        CliAction::Run(o) => {
            assert_eq!(o.path, ".");
            assert_eq!(o.limit, 1000);
            assert!(o.all_refs);
            assert!(!o.foreground);
        }
        CliAction::Help => panic!("expected run"),
    }
    match parse_args(&args(&["/repo", "--limit", "200", "--current", "--foreground"])) {
        CliAction::Run(o) => {
            assert_eq!(o.path, "/repo");
            assert_eq!(o.limit, 200);
            assert!(!o.all_refs);
            assert!(o.foreground);
        }
        CliAction::Help => panic!("expected run"),
    }
    match parse_args(&args(&["--limit", "lots", "x"])) {
        CliAction::Run(o) => {
            assert_eq!(o.limit, 1000);
            assert_eq!(o.path, "x");
        }
        CliAction::Help => panic!("expected run"),
    }
    assert!(matches!(parse_args(&args(&["a", "-h", "--bad"])), CliAction::Help));
    assert!(matches!(parse_args(&args(&["--help"])), CliAction::Help));
}

#[test]
fn limit_text() {
    assert_eq!(parse_limit(&"250".to_string()), Some(250));
    assert_eq!(parse_limit(&"+7".to_string()), Some(7));
    assert_eq!(parse_limit(&"".to_string()), None);
    assert_eq!(parse_limit(&"-1".to_string()), None);
    assert_eq!(parse_limit(&"99999999999999999999999".to_string()), None);
}

#[test]
fn git_arguments() {
    let h = "abc".to_string();
    assert_eq!(status_args(), args(&["status", "--porcelain"]));
    assert_eq!(changed_files_args(&h), args(&["diff-tree", "--no-commit-id", "-r", "--name-only", "abc"]));
    assert_eq!(diff_args(true, &h, false), args(&["diff", "HEAD"]));
    assert_eq!(diff_args(false, &h, true), args(&["diff-tree", "--no-commit-id", "-r", "--stat", "abc"]));
    assert_eq!(diff_args(false, &h, false), args(&["show", "abc"]));
    let f = "src/a.rs".to_string();
    assert_eq!(file_diff_args(true, true, &h, &f), args(&["diff", "--cached", "--", "src/a.rs"]));
    assert_eq!(file_diff_args(true, false, &h, &f), args(&["diff", "--", "src/a.rs"]));
    assert_eq!(file_diff_args(false, false, &h, &f), args(&["show", "abc", "--", "src/a.rs"]));
    assert_eq!(branch_name("  main\n"), "main");
}

#[test]
fn ref_stamps() {
    let a = Stamp { path: "refs/heads/main".to_string(), secs: 10, nanos: 5 };
    let b = Stamp { path: "refs/heads/main".to_string(), secs: 11, nanos: 5 };
    let a2 = Stamp { path: "refs/heads/main".to_string(), secs: 10, nanos: 5 };
    assert!(!refs_changed(&vec![a], &vec![a2]));
    let a = Stamp { path: "refs/heads/main".to_string(), secs: 10, nanos: 5 };
    assert!(refs_changed(&vec![a], &vec![b]));
    assert!(!refs_changed(&vec![], &vec![]));
}
