use fask::history::parse_git_log_diff;
use fask::report::{range_report, since_report};

const ESC: &str = "\u{1b}";

fn header(file: &str, date: &str, hash: &str) -> String {
    format!("{e}[35m{file}{e}[0m (added {e}[36m{date}{e}[0m in {e}[33m{hash}{e}[0m)\n", e = ESC)
}

fn plain(i: usize, l: &str) -> String {
    format!("{e}[2m{i:>4}: {l}{e}[0m\n", e = ESC)
}

fn marked(i: usize, l: &str) -> String {
    format!("{e}[32m{i:>4}{e}[0m: {e}[1m{l}{e}[0m\n", e = ESC)
}

const ONE_COMMIT: &str = "commit abcdef1234567890\nDate: 2025-02-03\n\ndiff --git a/a.rs b/a.rs\n--- a/a.rs\n+++ b/a.rs\n@@ -1,2 +1,3 @@\n fn main() {\n+// TODO fix bug\n }\n";

#[test]
fn since_reports_single_added_line() {
    let added = parse_git_log_diff(ONE_COMMIT, "TODO");
    let texts = vec![Some("fn main() {\n// TODO fix bug\n}\n".to_string())];
    let out = since_report("TODO", "2025-01-01", &added, &texts, 2);
    let expected = "Found 1 match(es):\n\n".to_string()
        + &header("a.rs", "2025-02-03", "abcdef12")
        + &plain(1, "fn main() {")
        + &marked(2, "// TODO fix bug")
        + &plain(3, "}");
    assert_eq!(out, expected);
}

#[test]
fn since_reports_removed_line() {
    let added = parse_git_log_diff(ONE_COMMIT, "TODO");
    let texts = vec![Some("fn main() {\n}\n".to_string())];
    let out = since_report("TODO", "2025-01-01", &added, &texts, 2);
    assert_eq!(
        out,
        "No 'TODO' found in lines added since 2025-01-01 (lines may have been removed).\n"
    );
}

#[test]
fn since_reports_no_additions() {
    let out = since_report("TODO", "2025-01-01", &Vec::new(), &Vec::new(), 2);
    assert_eq!(out, "No 'TODO' additions found since 2025-01-01.\n");
}

#[test]
fn since_reports_deleted_file_as_no_match() {
    let added = parse_git_log_diff(ONE_COMMIT, "TODO");
    let out = since_report("TODO", "2025-01-01", &added, &vec![None], 2);
    assert_eq!(
        out,
        "No 'TODO' found in lines added since 2025-01-01 (lines may have been removed).\n"
    );
}

fn prov(date: &str, hash: &str) -> String {
    format!("(added {e}[36m{date}{e}[0m in {e}[33m{hash}{e}[0m)", e = ESC)
}

fn note(file: &str, line: usize, text: &str, date: &str, hash: &str) -> String {
    format!("{e}[35m{file}{e}[0m:{e}[32m{line}{e}[0m: {text} {}\n", prov(date, hash), e = ESC)
}

#[test]
fn since_trims_overlap_so_no_line_repeats() {
    let log = "commit 2222222222\nDate: 2025-03-01\n+++ b/a.rs\n+// TODO second\ncommit 1111\nDate: 2025-02-01\n+++ b/a.rs\n+// TODO first\n";
    let added = parse_git_log_diff(log, "TODO");
    let text = "x\ny\n// TODO first\nz\n// TODO second\nw\n".to_string();
    let texts = vec![Some(text.clone()), Some(text)];
    let out = since_report("TODO", "2025-01-01", &added, &texts, 1);
    let expected = "Found 2 match(es):\n\n".to_string()
        + &header("a.rs", "2025-02-01", "1111")
        + &plain(2, "y")
        + &marked(3, "// TODO first")
        + &plain(4, "z")
        + "\n"
        + &header("a.rs", "2025-03-01", "22222222")
        + &marked(5, "// TODO second")
        + &plain(6, "w");
    assert_eq!(out, expected);
}

#[test]
fn since_keeps_adjacent_windows_apart() {
    let log = "commit 33\nDate: 2025-03-01\n+++ b/a.rs\n+// TODO one\n+// TODO two\n";
    let added = parse_git_log_diff(log, "TODO");
    let text = "a\n// TODO one\nb\nc\n// TODO two\nd\n".to_string();
    let texts = vec![Some(text.clone()), Some(text)];
    let out = since_report("TODO", "2025-01-01", &added, &texts, 1);
    let expected = "Found 2 match(es):\n\n".to_string()
        + &header("a.rs", "2025-03-01", "33")
        + &plain(1, "a")
        + &marked(2, "// TODO one")
        + &plain(3, "b")
        + "\n"
        + &header("a.rs", "2025-03-01", "33")
        + &plain(4, "c")
        + &marked(5, "// TODO two")
        + &plain(6, "d");
    assert_eq!(out, expected);
}

#[test]
fn since_orders_matches_by_date() {
    let log = "commit 44\nDate: 2025-05-01\n+++ b/a.rs\n+// TODO late\ncommit 33\nDate: 2025-03-01\n+++ b/b.rs\n+// TODO early\n";
    let added = parse_git_log_diff(log, "TODO");
    let texts = vec![Some("// TODO late\n".to_string()), Some("// TODO early\n".to_string())];
    let out = since_report("TODO", "2025-01-01", &added, &texts, 2);
    let expected = "Found 2 match(es):\n\n".to_string()
        + &header("b.rs", "2025-03-01", "33")
        + &marked(1, "// TODO early")
        + "\n"
        + &header("a.rs", "2025-05-01", "44")
        + &marked(1, "// TODO late");
    assert_eq!(out, expected);
}

#[test]
fn since_notes_match_inside_shown_window() {
    let log = "commit aaaa\nDate: 2025-01-05\n+++ b/a.rs\n+// TODO x\ncommit bbbb\nDate: 2025-01-01\n+++ b/a.rs\n+// TODO y\ncommit cccc\nDate: 2025-01-03\n+++ b/b.rs\n+// TODO z\n";
    let added = parse_git_log_diff(log, "TODO");
    let a_text = "// TODO x\n// TODO y\n".to_string();
    let texts = vec![Some(a_text.clone()), Some(a_text), Some("// TODO z\n".to_string())];
    let out = since_report("TODO", "2025-01-01", &added, &texts, 1);
    let expected = "Found 3 match(es):\n\n".to_string()
        + &header("a.rs", "2025-01-01", "bbbb")
        + &plain(1, "// TODO x")
        + &marked(2, "// TODO y")
        + "\n"
        + &header("b.rs", "2025-01-03", "cccc")
        + &marked(1, "// TODO z")
        + "\n"
        + &note("a.rs", 1, "// TODO x", "2025-01-05", "aaaa");
    assert_eq!(out, expected);
}

#[test]
fn since_query_is_repeatable() {
    let added = parse_git_log_diff(ONE_COMMIT, "TODO");
    let texts = vec![Some("fn main() {\n// TODO fix bug\n}\n".to_string())];
    let a = since_report("TODO", "2025-01-01", &added, &texts, 2);
    let b = since_report("TODO", "2025-01-01", &parse_git_log_diff(ONE_COMMIT, "TODO"), &texts, 2);
    assert_eq!(a, b);
}

#[test]
fn range_groups_by_file_and_merges_close_matches() {
    let log = "commit 9999999999aa\nDate: 2025-04-02\n+++ b/a.rs\n+// TODO one\n+x\n+// TODO two\n+++ b/b.rs\n+// TODO three\n";
    let added = parse_git_log_diff(log, "TODO");
    assert_eq!(added.len(), 3);
    let a_text = "fn f() {\n// TODO one\nx\n// TODO two\n}\n".to_string();
    let b_text = "// TODO three\n".to_string();
    let texts = vec![Some(a_text.clone()), Some(a_text), Some(b_text)];
    let out = range_report("TODO", "v1..v2", &added, &texts, 2);
    let prov = format!("(added {e}[36m2025-04-02{e}[0m in {e}[33m99999999{e}[0m)", e = ESC);
    let expected = "Found 3 match(es):\n\n".to_string()
        + &format!("{e}[35ma.rs{e}[0m {p} {p}\n", e = ESC, p = prov)
        + &plain(1, "fn f() {")
        + &marked(2, "// TODO one")
        + &plain(3, "x")
        + &marked(4, "// TODO two")
        + &plain(5, "}")
        + "\n"
        + &format!("{e}[35mb.rs{e}[0m {p}\n", e = ESC, p = prov)
        + &marked(1, "// TODO three");
    assert_eq!(out, expected);
}

#[test]
fn range_keeps_distant_matches_in_separate_blocks() {
    let log = "commit 77\nDate: 2025-04-02\n+++ b/a.rs\n+// TODO one\n+// TODO two\n";
    let added = parse_git_log_diff(log, "TODO");
    let a_text = "// TODO one\na\nb\nc\nd\n// TODO two\n".to_string();
    let texts = vec![Some(a_text.clone()), Some(a_text)];
    let out = range_report("TODO", "v1..v2", &added, &texts, 1);
    let prov = format!("(added {e}[36m2025-04-02{e}[0m in {e}[33m77{e}[0m)", e = ESC);
    let expected = "Found 2 match(es):\n\n".to_string()
        + &format!("{e}[35ma.rs{e}[0m {p}\n", e = ESC, p = prov)
        + &marked(1, "// TODO one")
        + &plain(2, "a")
        + "\n"
        + &format!("{e}[35ma.rs{e}[0m {p}\n", e = ESC, p = prov)
        + &plain(5, "d")
        + &marked(6, "// TODO two");
    assert_eq!(out, expected);
}

#[test]
fn range_reports_missing_file_as_no_match() {
    let log = "commit 77\nDate: 2025-04-02\n+++ b/a.rs\n+// TODO one\n";
    let added = parse_git_log_diff(log, "TODO");
    let out = range_report("TODO", "v1..v2", &added, &vec![None], 1);
    assert_eq!(out, "No 'TODO' found in lines added in v1..v2 (lines may have been removed).\n");
}
