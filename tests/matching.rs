use fask::date::Date;
use fask::history::AddedLine;
use fask::matcher::{find_line_in_current_file, resolve_candidate, GitMatch};
use fask::reconcile::{
    context_window, dedup_matches, group_by_file, merge_windows, sort_by_line,
};

fn added(file: &str, content: &str) -> AddedLine {
    AddedLine {
        file: file.to_string(),
        content: content.to_string(),
        commit_date: Date { year: 2025, month: 2, day: 3 },
        commit_hash: "abcdef1234567890".to_string(),
    }
}

fn m(file: &str, line: usize, day: u32, hash: &str) -> GitMatch {
    GitMatch {
        file: file.to_string(),
        line_number: line,
        line_content: format!("// TODO {}", line),
        commit_date: Date { year: 2025, month: 1, day },
        commit_hash: hash.to_string(),
    }
}

#[test]
fn finds_exact_line() {
    let text = "fn main() {\n// TODO fix bug\n}\n";
    assert_eq!(
        find_line_in_current_file(text, "// TODO fix bug", "TODO"),
        Some((2, "// TODO fix bug".to_string()))
    );
}

#[test]
fn finds_first_of_several_matching_lines() {
    let text = "a\n    // TODO fix bug\n// TODO fix bug\n";
    assert_eq!(
        find_line_in_current_file(text, "// TODO fix bug", "TODO"),
        Some((2, "    // TODO fix bug".to_string()))
    );
}

#[test]
fn tolerates_edits_around_content() {
    let text = "x\n  let y = 1; // TODO fix bug!\n";
    assert_eq!(
        find_line_in_current_file(text, "// TODO fix bug  ", "TODO"),
        Some((2, "  let y = 1; // TODO fix bug!".to_string()))
    );
}

#[test]
fn rejects_lines_without_pattern_or_content() {
    let text = "// fix bug\n// TODO other thing\n";
    assert_eq!(find_line_in_current_file(text, "// TODO fix bug", "TODO"), None);
    assert_eq!(find_line_in_current_file("", "// TODO", "TODO"), None);
}

#[test]
fn missing_file_resolves_to_no_match() {
    assert!(resolve_candidate(&added("gone.rs", "// TODO x"), None, "TODO").is_none());
}

#[test]
fn present_line_resolves_with_provenance() {
    let r = resolve_candidate(&added("a.rs", "// TODO x"), Some("a\nb\n  // TODO x\n"), "TODO").unwrap();
    assert_eq!(r.file, "a.rs");
    assert_eq!(r.line_number, 3);
    assert_eq!(r.line_content, "  // TODO x");
    assert_eq!(r.commit_hash, "abcdef1234567890");
    assert_eq!(r.commit_date, Date { year: 2025, month: 2, day: 3 });
}

#[test]
fn deleted_line_resolves_to_no_match() {
    assert!(resolve_candidate(&added("a.rs", "// TODO x"), Some("a\nb\n"), "TODO").is_none());
}

#[test]
fn dedup_keeps_first_seen() {
    let ms = vec![m("a.rs", 3, 5, "h1"), m("b.rs", 3, 6, "h2"), m("a.rs", 3, 7, "h3"), m("a.rs", 4, 8, "h4")];
    let u = dedup_matches(&ms);
    let keys: Vec<(String, usize, String)> =
        u.iter().map(|x| (x.file.clone(), x.line_number, x.commit_hash.clone())).collect();
    assert_eq!(
        keys,
        vec![
            ("a.rs".to_string(), 3, "h1".to_string()),
            ("b.rs".to_string(), 3, "h2".to_string()),
            ("a.rs".to_string(), 4, "h4".to_string()),
        ]
    );
}

#[test]
fn sorts_by_line_stably() {
    let ms = vec![m("a.rs", 5, 1, "h1"), m("a.rs", 2, 1, "h2"), m("a.rs", 5, 1, "h3")];
    let s = sort_by_line(&ms);
    let hashes: Vec<&str> = s.iter().map(|x| x.commit_hash.as_str()).collect();
    assert_eq!(hashes, vec!["h2", "h1", "h3"]);
}

#[test]
fn groups_by_file_in_first_appearance_order() {
    let ms = vec![m("b.rs", 9, 1, "h1"), m("a.rs", 2, 1, "h2"), m("b.rs", 4, 1, "h3")];
    let (groups, files) = group_by_file(&ms);
    assert_eq!(files, vec!["b.rs".to_string(), "a.rs".to_string()]);
    let lines: Vec<Vec<usize>> = groups.iter().map(|g| g.iter().map(|x| x.line_number).collect()).collect();
    assert_eq!(lines, vec![vec![4, 9], vec![2]]);
}

#[test]
fn context_window_clamps_to_file() {
    assert_eq!(context_window(2, 2, 3), (1, 3));
    assert_eq!(context_window(10, 2, 20), (8, 12));
    assert_eq!(context_window(1, 0, 1), (1, 1));
    assert_eq!(context_window(5, usize::MAX, 7), (1, 7));
}

#[test]
fn context_window_bounds_hold() {
    for len in 1..8usize {
        for line in 1..=len {
            for ctx in 0..4usize {
                let (s, e) = context_window(line, ctx, len);
                assert!(1 <= s && s <= line && line <= e && e <= len);
            }
        }
    }
}

#[test]
fn merges_overlapping_and_touching_windows() {
    let ws = vec![(1, 4), (2, 6), (7, 9), (12, 14)];
    let (blocks, owner) = merge_windows(&ws);
    assert_eq!(blocks, vec![(1, 9), (12, 14)]);
    assert_eq!(owner, vec![0, 0, 0, 1]);
}

#[test]
fn merge_of_no_windows_is_empty() {
    let (blocks, owner) = merge_windows(&Vec::new());
    assert!(blocks.is_empty());
    assert!(owner.is_empty());
}
