use gitr::commit::{build_rows, collect_decorations, WalkedCommit};
use gitr::status::{
    insert_working_row, merge_changed_files, parse_name_list, parse_status, try_parse_status,
    working_pill, working_summary,
};

fn s(v: &[&str]) -> Vec<String> {
    v.iter().map(|x| x.to_string()).collect()
}

#[test]
fn porcelain_staged_and_unstaged() {
    let (staged, unstaged) = parse_status("M  a.rs\n M b.rs\nMM c.rs\n?? new.txt\nx\n");
    assert_eq!(staged, s(&["a.rs", "c.rs", "new.txt"]));
    assert_eq!(unstaged, s(&["b.rs", "c.rs", "new.txt"]));
}

#[test]
fn porcelain_multibyte_first_char() {
    // 'é' takes two bytes: the second byte is not a space, the path starts after byte 3
    let (staged, unstaged) = parse_status("é f\n");
    assert_eq!(staged, s(&["f"]));
    assert_eq!(unstaged, s(&["f"]));
}

#[test]
fn porcelain_cut_inside_character_is_refused() {
    assert!(try_parse_status("A€x\n").is_none());
    assert!(try_parse_status("Aé\n").is_some());
    assert!(try_parse_status("A\n").is_some());
}

#[test]
fn name_list_drops_empty_lines() {
    assert_eq!(parse_name_list("a\n\nb/c\r\n"), s(&["a", "b/c"]));
    assert!(parse_name_list("").is_empty());
}

#[test]
fn merged_files_keep_staged_then_new_unstaged() {
    let m = merge_changed_files(&s(&["a", "b"]), &s(&["b", "c", "c", "d"]));
    assert_eq!(m, s(&["a", "b", "c", "d"]));
}

#[test]
fn working_texts() {
    assert_eq!(working_summary(true, false), "staged changes");
    assert_eq!(working_summary(false, true), "unstaged changes");
    assert_eq!(working_summary(true, true), "working tree changes");
    assert_eq!(working_pill(true, false), "STAGED");
    assert_eq!(working_pill(false, true), "UNSTAGED");
    assert_eq!(working_pill(true, true), "WORKING");
}

fn commit(id: &str, parents: &[&str]) -> WalkedCommit {
    WalkedCommit {
        id: id.to_string(),
        parents: parents.iter().map(|p| p.to_string()).collect(),
        author: None,
        email: None,
        time: 0,
        offset_min: 0,
        summary: None,
    }
}

#[test]
fn working_row_sits_on_head_lane() {
    let commits = vec![commit("x", &[]), commit("h", &["p"]), commit("p", &[])];
    let deco = collect_decorations(&Vec::new(), Some("h".to_string()));
    let mut rows = build_rows(&commits, &deco);
    insert_working_row(&mut rows, false, true);
    assert_eq!(rows.len(), 4);
    assert!(rows[0].is_working);
    assert_eq!(rows[0].oid, "0".repeat(40));
    assert_eq!(rows[0].short, "");
    assert_eq!(rows[0].lane, rows[2].lane);
    assert_eq!(rows[0].parent_lanes, vec![rows[2].lane]);
    assert_eq!(rows[0].summary, "unstaged changes");
    assert_eq!(rows[2].oid, "h");
}

#[test]
fn working_row_needs_changes_and_head() {
    let commits = vec![commit("h", &[])];
    let mut rows = build_rows(&commits, &collect_decorations(&Vec::new(), Some("h".to_string())));
    insert_working_row(&mut rows, false, false);
    assert_eq!(rows.len(), 1);
    let mut rows = build_rows(&commits, &collect_decorations(&Vec::new(), None));
    insert_working_row(&mut rows, true, true);
    assert_eq!(rows.len(), 1);
}
