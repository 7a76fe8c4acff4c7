use gitr::commit::{build_rows, collect_decorations, max_lanes, CommitRow, Decorations, RefTarget, WalkedCommit};
use gitr::lanes::LaneState;

fn commit(id: &str, parents: &[&str]) -> WalkedCommit {
    WalkedCommit {
        id: id.to_string(),
        parents: parents.iter().map(|p| p.to_string()).collect(),
        author: Some("Ada".to_string()),
        email: Some("ada@example.org".to_string()),
        time: 0,
        offset_min: 0,
        summary: Some(format!("commit {id}")),
    }
}

fn no_refs() -> Decorations {
    collect_decorations(&Vec::new(), None)
}

fn lanes(rows: &[CommitRow]) -> Vec<usize> {
    rows.iter().map(|r| r.lane).collect()
}

#[test]
fn linear_history_stays_in_one_lane() {
    let commits = vec![commit("c", &["b"]), commit("b", &["a"]), commit("a", &[])];
    let rows = build_rows(&commits, &no_refs());
    assert_eq!(lanes(&rows), vec![0, 0, 0]);
    assert_eq!(rows[0].parent_lanes, vec![0]);
    assert_eq!(rows[1].parent_lanes, vec![0]);
    assert!(rows[2].parent_lanes.is_empty());
    assert!(rows.iter().all(|r| r.passthrough.is_empty()));
    assert_eq!(max_lanes(&rows), 1);
}

#[test]
fn merge_opens_second_lane_and_frees_it() {
    // m merges b into a-line: m -> (a2, b); a2 -> a1; b -> a1; a1 root.
    let commits = vec![
        commit("m", &["a2", "b"]),
        commit("a2", &["a1"]),
        commit("b", &["a1"]),
        commit("a1", &[]),
    ];
    let rows = build_rows(&commits, &no_refs());
    assert_eq!(rows[0].lane, 0);
    assert_eq!(rows[0].parent_lanes, vec![0, 1]);
    assert_eq!(rows[1].lane, 0);
    assert_eq!(rows[1].passthrough, vec![1]);
    // b is drawn on the lane its edge from m went to
    assert_eq!(rows[2].lane, 1);
    // a1 is already awaited on lane 0, so b's edge goes there
    assert_eq!(rows[2].parent_lanes, vec![0]);
    assert_eq!(rows[3].lane, 0);
    assert!(rows[3].passthrough.is_empty());
    assert_eq!(max_lanes(&rows), 2);
}

#[test]
fn freed_lane_is_reused_before_opening_new() {
    // Two unrelated tips: x (root) and y -> z.
    let commits = vec![
        commit("x", &[]),
        commit("y", &["z"]),
        commit("z", &[]),
    ];
    let rows = build_rows(&commits, &no_refs());
    // x takes lane 0 and frees it; y reuses lane 0.
    assert_eq!(lanes(&rows), vec![0, 0, 0]);
    assert_eq!(max_lanes(&rows), 1);
}

#[test]
fn lowest_free_lane_is_taken() {
    let mut st = LaneState::new();
    // a has three parents: p (lane 0), q (lane 1), r (lane 2)
    let p = st.place(&"a".to_string(), &vec!["p".to_string(), "q".to_string(), "r".to_string()]);
    assert_eq!(p.lane, 0);
    assert_eq!(p.parent_lanes, vec![0, 1, 2]);
    // q is drawn next: lane 1 is freed (q is a root)
    let q = st.place(&"q".to_string(), &vec![]);
    assert_eq!(q.lane, 1);
    assert_eq!(q.passthrough, vec![0, 2]);
    // a new tip w takes the lowest free lane, 1
    let w = st.place(&"w".to_string(), &vec![]);
    assert_eq!(w.lane, 1);
    assert_eq!(w.passthrough, vec![0, 2]);
}

#[test]
fn edge_lands_on_parent_lane() {
    let commits = vec![
        commit("t1", &["base"]),
        commit("t2", &["mid"]),
        commit("mid", &["base"]),
        commit("base", &[]),
    ];
    let rows = build_rows(&commits, &no_refs());
    // t1's edge goes to lane 0 where base is later drawn
    assert_eq!(rows[0].parent_lanes, vec![0]);
    assert_eq!(rows[1].lane, 1);
    assert_eq!(rows[1].parent_lanes, vec![1]);
    assert_eq!(rows[2].lane, 1);
    assert_eq!(rows[2].passthrough, vec![0]);
    assert_eq!(rows[3].lane, rows[0].parent_lanes[0]);
    assert_eq!(max_lanes(&rows), 2);
}

#[test]
fn row_text_and_decorations() {
    let refs = vec![
        RefTarget { name: "refs/heads/main".to_string(), target: "abcdef1234".to_string() },
        RefTarget { name: "refs/tags/v1.0".to_string(), target: "abcdef1234".to_string() },
        RefTarget { name: "refs/remotes/origin/main".to_string(), target: "abcdef1234".to_string() },
        RefTarget { name: "refs/notes/commits".to_string(), target: "abcdef1234".to_string() },
        RefTarget { name: "refs/heads/dev".to_string(), target: "0123".to_string() },
    ];
    let deco = collect_decorations(&refs, Some("abcdef1234".to_string()));
    assert_eq!(deco.entries.len(), 4);
    let mut c = commit("abcdef1234", &[]);
    c.author = None;
    c.email = None;
    c.summary = None;
    c.time = 1_700_000_000;
    c.offset_min = 120;
    let rows = build_rows(&vec![c, commit("0123", &[])], &deco);
    let r = &rows[0];
    assert_eq!(r.oid, "abcdef1234");
    assert_eq!(r.short, "abcdef1");
    assert_eq!(r.author, "unknown");
    assert_eq!(r.email, "");
    assert_eq!(r.summary, "");
    assert_eq!(r.time, 1_700_000_000);
    assert_eq!(r.offset_min, 120);
    assert_eq!(r.branches, vec!["main".to_string(), "origin/main".to_string()]);
    assert_eq!(r.tags, vec!["v1.0".to_string()]);
    assert!(r.is_head);
    assert!(!r.is_working);
    assert_eq!(rows[1].short, "0123");
    assert_eq!(rows[1].branches, vec!["dev".to_string()]);
    assert!(!rows[1].is_head);
    assert_eq!(rows[1].author, "Ada");
}

#[test]
fn max_lanes_of_no_rows_is_one() {
    assert_eq!(max_lanes(&[]), 1);
}

#[test]
fn max_lanes_counts_passthrough_and_parents() {
    let mut rows = build_rows(&vec![commit("a", &[])], &no_refs());
    rows[0].passthrough = vec![4];
    assert_eq!(max_lanes(&rows), 5);
    rows[0].parent_lanes = vec![7];
    assert_eq!(max_lanes(&rows), 8);
}

#[test]
fn edge_passes_by_every_row_before_its_parent() {
    let commits = vec![
        commit("t1", &["base"]),
        commit("t2", &["mid"]),
        commit("mid", &["base"]),
        commit("base", &[]),
    ];
    let rows = build_rows(&commits, &no_refs());
    let l = rows[0].parent_lanes[0];
    assert!(rows[1].passthrough.contains(&l));
    assert!(rows[2].passthrough.contains(&l));
    assert_eq!(rows[3].lane, l);
}

#[test]
fn width_is_bounded_by_busiest_row() {
    // Many branches merged one after another: the history is long, but no
    // row needs more than two columns, so the graph stays two wide.
    let commits = vec![
        commit("m3", &["m2", "f3"]),
        commit("f3", &["m2"]),
        commit("m2", &["m1", "f2"]),
        commit("f2", &["m1"]),
        commit("m1", &["m0", "f1"]),
        commit("f1", &["m0"]),
        commit("m0", &[]),
    ];
    let rows = build_rows(&commits, &no_refs());
    let busiest = rows
        .iter()
        .map(|r| r.passthrough.len() + r.parent_lanes.len().max(1))
        .max()
        .unwrap();
    assert_eq!(busiest, 2);
    assert_eq!(max_lanes(&rows), 2);
}
