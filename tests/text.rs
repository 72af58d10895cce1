use fask::text::{chars_of, contains_seq, split_lines, trim_chars};

fn v(s: &str) -> Vec<char> {
    s.chars().collect()
}

#[test]
fn splits_lines_like_str_lines() {
    let text = "a\r\nb\n\nc";
    let got: Vec<String> = split_lines(&v(text)).into_iter().map(|l| l.into_iter().collect()).collect();
    let want: Vec<String> = text.lines().map(|s| s.to_string()).collect();
    assert_eq!(got, want);
    assert!(split_lines(&v("")).is_empty());
    assert_eq!(split_lines(&v("x\n")).len(), 1);
    let tail = "a\r\nb\r";
    let got: Vec<String> = split_lines(&v(tail)).into_iter().map(|l| l.into_iter().collect()).collect();
    let want: Vec<String> = tail.lines().map(|s| s.to_string()).collect();
    assert_eq!(got, want);
}

#[test]
fn trims_unicode_white_space() {
    let s = "\u{3000}\t a b \u{a0}\n";
    let got: String = trim_chars(&v(s)).into_iter().collect();
    assert_eq!(got, s.trim());
    let all: String = trim_chars(&v(" \u{2028} ")).into_iter().collect();
    assert_eq!(all, "");
}

#[test]
fn substring_search() {
    assert!(contains_seq(&v("// TODO x"), &v("TODO")));
    assert!(!contains_seq(&v("// TOD"), &v("TODO")));
    assert!(contains_seq(&v("abc"), &v("")));
}

#[test]
fn chars_of_keeps_characters() {
    assert_eq!(chars_of("héllo"), vec!['h', 'é', 'l', 'l', 'o']);
}
