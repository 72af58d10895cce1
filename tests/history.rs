use fask::date::{parse_since_date, push_date, Date, QueryError};
use fask::history::parse_git_log_diff;

fn date_string(d: Date) -> String {
    let mut out: Vec<char> = Vec::new();
    push_date(&mut out, &d);
    out.into_iter().collect()
}

const LOG: &str = "commit abcdef1234567890\nDate: 2025-02-03\n\ndiff --git a/a.rs b/a.rs\n--- a/a.rs\n+++ b/a.rs\n@@ -1,2 +1,3 @@\n fn main() {\n+// TODO fix bug\n }\n";

#[test]
fn parses_one_added_line() {
    let found = parse_git_log_diff(LOG, "TODO");
    assert_eq!(found.len(), 1);
    assert_eq!(found[0].file, "a.rs");
    assert_eq!(found[0].content, "// TODO fix bug");
    assert_eq!(found[0].commit_hash, "abcdef1234567890");
    assert_eq!(found[0].commit_date, Date { year: 2025, month: 2, day: 3 });
}

#[test]
fn ignores_lines_without_pattern_and_removed_lines() {
    let log = "commit 1111\nDate: 2025-02-03\n+++ b/x.rs\n+let a = 1;\n-// TODO old\n+// FIXME\n";
    assert!(parse_git_log_diff(log, "TODO").is_empty());
}

#[test]
fn skips_commit_with_bad_date() {
    let log = "commit 1111\nDate: 2025-13-40\n+++ b/x.rs\n+// TODO a\ncommit 2222\nDate: 2025-03-04\n+++ b/y.rs\n+// TODO b\n";
    let found = parse_git_log_diff(log, "TODO");
    assert_eq!(found.len(), 1);
    assert_eq!(found[0].file, "y.rs");
    assert_eq!(found[0].commit_hash, "2222");
}

#[test]
fn new_commit_forgets_file_and_date() {
    let log = "commit 1111\nDate: 2025-02-03\n+++ b/x.rs\n+// TODO a\ncommit 2222\n+// TODO b\n";
    let found = parse_git_log_diff(log, "TODO");
    assert_eq!(found.len(), 1);
    assert_eq!(found[0].content, "// TODO a");
}

#[test]
fn file_header_is_not_an_added_line() {
    let log = "commit 1\nDate: 2025-02-03\n+++ b/TODO.md\n+++ /dev/null\n";
    assert!(parse_git_log_diff(log, "TODO").is_empty());
}

#[test]
fn crlf_listing_and_trimmed_hash() {
    let log = "commit  ab12  \r\nDate:  2024-12-31 \r\n+++ b/z.rs\r\n+  x // TODO y\r\n";
    let found = parse_git_log_diff(log, "TODO");
    assert_eq!(found.len(), 1);
    assert_eq!(found[0].commit_hash, "ab12");
    assert_eq!(found[0].file, "z.rs");
    assert_eq!(found[0].content, "  x // TODO y");
    assert_eq!(found[0].commit_date, Date { year: 2024, month: 12, day: 31 });
}

#[test]
fn since_date_rejects_invalid_date() {
    assert_eq!(parse_since_date("2025-13-40"), Err(QueryError::InvalidDate));
    assert_eq!(parse_since_date("yesterday"), Err(QueryError::InvalidDate));
    assert_eq!(parse_since_date("2025-02-30"), Err(QueryError::InvalidDate));
}

#[test]
fn since_date_accepts_calendar_date() {
    assert_eq!(parse_since_date("2025-01-01"), Ok(Date { year: 2025, month: 1, day: 1 }));
    assert_eq!(parse_since_date("2024-02-29"), Ok(Date { year: 2024, month: 2, day: 29 }));
}

#[test]
fn date_text_pads_fields() {
    assert_eq!(date_string(Date { year: 2025, month: 1, day: 5 }), "2025-01-05");
    assert_eq!(date_string(Date { year: 7, month: 11, day: 30 }), "0007-11-30");
}

#[test]
fn date_text_signs_wide_years() {
    assert_eq!(date_string(Date { year: 12345, month: 6, day: 7 }), "+12345-06-07");
    assert_eq!(date_string(Date { year: -5, month: 1, day: 1 }), "-0005-01-01");
}

#[test]
fn date_order() {
    let a = Date { year: 2025, month: 1, day: 31 };
    let b = Date { year: 2025, month: 2, day: 1 };
    assert!(b.is_after(&a));
    assert!(!a.is_after(&b));
    assert!(!a.is_after(&a));
}
