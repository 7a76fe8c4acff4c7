use gitr::diff::{parse_side_by_side, styled_lines, try_parse_side_by_side, LineStyle, SideRow};

fn cell(c: &Option<(String, String, bool)>) -> Option<(&str, &str, bool)> {
    c.as_ref().map(|(a, b, f)| (a.as_str(), b.as_str(), *f))
}

fn hdr(r: &SideRow) -> Option<&str> {
    r.header.as_deref()
}

#[test]
fn side_by_side_basic_hunk() {
    let diff = "diff --git a/f b/f\n--- a/f\n+++ b/f\n@@ -3,4 +3,5 @@ fn x\n ctx\n-old\n+new\n+more\n";
    let rows = parse_side_by_side(diff);
    assert_eq!(rows.len(), 8);
    assert_eq!(hdr(&rows[0]), Some("diff --git a/f b/f"));
    assert_eq!(hdr(&rows[1]), Some("--- a/f"));
    assert_eq!(hdr(&rows[2]), Some("+++ b/f"));
    assert_eq!(hdr(&rows[3]), Some("@@ -3,4 +3,5 @@ fn x"));
    assert_eq!(cell(&rows[4].left), Some(("4", "ctx", false)));
    assert_eq!(cell(&rows[4].right), Some(("4", "ctx", false)));
    assert_eq!(cell(&rows[5].left), Some(("5", "old", true)));
    assert_eq!(cell(&rows[5].right), None);
    assert_eq!(cell(&rows[6].left), None);
    assert_eq!(cell(&rows[6].right), Some(("5", "new", true)));
    assert_eq!(cell(&rows[7].right), Some(("6", "more", true)));
}

#[test]
fn side_by_side_skips_lines_outside_hunks() {
    let rows = parse_side_by_side("commit abc\nAuthor: x\n\n    message\n");
    assert!(rows.is_empty());
}

#[test]
fn side_by_side_ignores_other_lines_in_hunk() {
    let rows = parse_side_by_side("@@ -1 +1 @@\n-a\n\\ No newline at end of file\n+b\n");
    assert_eq!(rows.len(), 3);
    // numbering starts one past the start line the header gives
    assert_eq!(cell(&rows[1].left), Some(("2", "a", true)));
    assert_eq!(cell(&rows[2].right), Some(("2", "b", true)));
}

#[test]
fn side_by_side_malformed_hunk_header_counts_from_zero() {
    let rows = parse_side_by_side("@@ x\n c\n");
    assert_eq!(cell(&rows[1].left), Some(("1", "c", false)));
    assert_eq!(cell(&rows[1].right), Some(("1", "c", false)));
    let rows = parse_side_by_side("@@ -+7,2 +++9 @@\n c\r\n");
    assert_eq!(cell(&rows[1].left), Some(("8", "c", false)));
    assert_eq!(cell(&rows[1].right), Some(("10", "c", false)));
}

#[test]
fn side_by_side_header_leaves_hunk() {
    let rows = parse_side_by_side("@@ -1 +1 @@\n a\ndiff --git x y\n b\n");
    assert_eq!(rows.len(), 3);
    assert_eq!(hdr(&rows[2]), Some("diff --git x y"));
}

#[test]
fn side_by_side_refuses_empty_line_in_hunk() {
    assert!(try_parse_side_by_side("@@ -1 +1 @@\n a\n\n b\n").is_none());
    assert!(try_parse_side_by_side("\n\n@@ -1 +1 @@\n a\n").is_some());
}

#[test]
fn side_by_side_refuses_line_number_overflow() {
    let big = format!("@@ -{} +1 @@\n-x\n", usize::MAX);
    assert!(try_parse_side_by_side(&big).is_none());
    let ok = format!("@@ -{} +1 @@\n+x\n", usize::MAX);
    assert!(try_parse_side_by_side(&ok).is_some());
}

#[test]
fn styled_lines_classify_first_char() {
    let out = styled_lines("+a\n-b\n@@ c\n d\n\nx");
    let styles: Vec<LineStyle> = out.into_iter().map(|(_, s)| s).collect();
    assert!(matches!(styles[0], LineStyle::Added));
    assert!(matches!(styles[1], LineStyle::Removed));
    assert!(matches!(styles[2], LineStyle::Hunk));
    assert!(matches!(styles[3], LineStyle::Context));
    assert!(matches!(styles[4], LineStyle::Blank));
    assert!(matches!(styles[5], LineStyle::Context));
    assert_eq!(styles.len(), 6);
}
