//! Extraction of candidate lines from the text of a `git log -p` listing.
use crate::date::{parse_ymd, parsed_ymd, Date};
use crate::text::{
    chars_of, contains, contains_seq, has_prefix, lines_of, seqs, split_lines, starts_with,
    string_of, suffix_from, trim, trim_chars,
};
use vstd::prelude::*;

verus! {

/// A line that a commit added and that holds the pattern.
#[derive(Debug)]
pub struct AddedLine {
    pub file: String,
    pub content: String,
    pub commit_date: Date,
    pub commit_hash: String,
}

/// What an added line holds, as character sequences.
pub struct AddedView {
    pub file: Seq<char>,
    pub content: Seq<char>,
    pub commit_date: Date,
    pub commit_hash: Seq<char>,
}

impl View for AddedLine {
    type V = AddedView;

    open spec fn view(&self) -> AddedView {
        AddedView {
            file: self.file@,
            content: self.content@,
            commit_date: self.commit_date,
            commit_hash: self.commit_hash@,
        }
    }
}

/// The views of a sequence of added lines.
pub open spec fn added_views(s: Seq<AddedLine>) -> Seq<AddedView> {
    s.map_values(|a: AddedLine| a@)
}

/// What the scan of a listing knows after some of its lines: the current
/// commit's hash, its date, the file whose diff is under way, and the lines
/// found so far.
pub struct ScanState {
    pub hash: Seq<char>,
    pub date: Option<Date>,
    pub file: Option<Seq<char>>,
    pub found: Seq<AddedView>,
}

/// The marker of a commit header.
pub open spec fn commit_tag() -> Seq<char> {
    "commit "@
}

/// The marker of a date header.
pub open spec fn date_tag() -> Seq<char> {
    "Date:"@
}

/// The marker of the new side of a file diff.
pub open spec fn file_tag() -> Seq<char> {
    "+++ b/"@
}

/// The marker of any file-header line on the new side.
pub open spec fn header_tag() -> Seq<char> {
    "+++"@
}

/// The date that a parsed year, month and day make.
pub open spec fn date_of(ymd: (int, int, int)) -> Date {
    Date { year: ymd.0 as i32, month: ymd.1 as u32, day: ymd.2 as u32 }
}

/// The effect of one line of the listing on the scan. A commit header starts
/// a new commit with no date and no file; a date header that parses sets the
/// date; a `+++ b/` header sets the file; an inserted line holding the
/// pattern is recorded when the commit's date and file are known.
pub open spec fn step(st: ScanState, line: Seq<char>, pattern: Seq<char>) -> ScanState {
    if has_prefix(line, commit_tag()) {
        ScanState {
            hash: trim(line.skip(commit_tag().len() as int)),
            date: None,
            file: None,
            found: st.found,
        }
    } else if has_prefix(line, date_tag()) {
        match parsed_ymd(trim(line.skip(date_tag().len() as int))) {
            Some(ymd) => ScanState { date: Some(date_of(ymd)), ..st },
            None => st,
        }
    } else if has_prefix(line, file_tag()) {
        ScanState { file: Some(line.skip(file_tag().len() as int)), ..st }
    } else if line.len() > 0 && line[0] == '+' && !has_prefix(line, header_tag()) {
        let content = line.skip(1);
        if contains(content, pattern) && st.date is Some && st.file is Some {
            ScanState {
                found: st.found.push(
                    AddedView {
                        file: st.file->Some_0,
                        content,
                        commit_date: st.date->Some_0,
                        commit_hash: st.hash,
                    },
                ),
                ..st
            }
        } else {
            st
        }
    } else {
        st
    }
}

/// The state before any line.
pub open spec fn scan_start() -> ScanState {
    ScanState { hash: seq![], date: None, file: None, found: seq![] }
}

/// The state after the given lines.
pub open spec fn scan(lines: Seq<Seq<char>>, pattern: Seq<char>) -> ScanState
    decreases lines.len(),
{
    if lines.len() == 0 {
        scan_start()
    } else {
        step(scan(lines.drop_last(), pattern), lines.last(), pattern)
    }
}

/// The candidate lines of a listing: each inserted line holding the pattern,
/// in listing order, with the file, date and hash in force where it stands.
pub open spec fn added_lines(log: Seq<char>, pattern: Seq<char>) -> Seq<AddedView> {
    scan(lines_of(log), pattern).found
}

/// The view of an optional character vector.
pub open spec fn opt_seq(o: Option<Vec<char>>) -> Option<Seq<char>> {
    match o {
        Some(v) => Some(v@),
        None => None,
    }
}

/// Scans the text of `git log -p --format='commit %H%nDate: %ad' --date=short`
/// for inserted lines that hold `pattern`.
pub fn parse_git_log_diff(output: &str, pattern: &str) -> (r: Vec<AddedLine>)
    ensures
        added_views(r@) == added_lines(output@, pattern@),
{
    let text = chars_of(output);
    let pat = chars_of(pattern);
    let lines = split_lines(&text);
    let commit_m = chars_of("commit ");
    let date_m = chars_of("Date:");
    let file_m = chars_of("+++ b/");
    let header_m = chars_of("+++");
    let mut results: Vec<AddedLine> = Vec::new();
    let mut hash: Vec<char> = Vec::new();
    let mut date: Option<Date> = None;
    let mut file: Option<Vec<char>> = None;
    let ghost ls = seqs(lines@);
    let mut i: usize = 0;
    assert(ls.take(0) =~= Seq::<Seq<char>>::empty());
    assert(added_views(results@) =~= Seq::<AddedView>::empty());
    while i < lines.len()
        invariant
            ls == seqs(lines@),
            ls == lines_of(text@),
            text@ == output@,
            pat@ == pattern@,
            commit_m@ == commit_tag(),
            date_m@ == date_tag(),
            file_m@ == file_tag(),
            header_m@ == header_tag(),
            i <= lines@.len(),
            scan(ls.take(i as int), pat@) == (ScanState {
                hash: hash@,
                date,
                file: opt_seq(file),
                found: added_views(results@),
            }),
        decreases lines@.len() - i,
    {
        let line = &lines[i];
        let ghost st = ScanState {
            hash: hash@,
            date,
            file: opt_seq(file),
            found: added_views(results@),
        };
        assert(ls.take(i + 1).drop_last() =~= ls.take(i as int));
        assert(ls.take(i + 1).last() == line@);
        if starts_with(line, &commit_m) {
            let rest = suffix_from(line, commit_m.len());
            hash = trim_chars(&rest);
            date = None;
            file = None;
        } else if starts_with(line, &date_m) {
            let rest = suffix_from(line, date_m.len());
            let t = string_of(&trim_chars(&rest));
            match parse_ymd(t.as_str()) {
                Some(d) => {
                    date = Some(d);
                },
                None => {},
            }
        } else if starts_with(line, &file_m) {
            file = Some(suffix_from(line, file_m.len()));
        } else if line.len() > 0 && line[0] == '+' && !starts_with(line, &header_m) {
            let content = suffix_from(line, 1);
            if contains_seq(&content, &pat) {
                match (date, &file) {
                    (Some(d), Some(f)) => {
                        let a = AddedLine {
                            file: string_of(f),
                            content: string_of(&content),
                            commit_date: d,
                            commit_hash: string_of(&hash),
                        };
                        let ghost before = results@;
                        results.push(a);
                        assert(added_views(results@) =~= added_views(before).push(a@));
                    },
                    _ => {},
                }
            }
        }
        i = i + 1;
    }
    assert(ls.take(ls.len() as int) =~= ls);
    results
}

} // verus!
