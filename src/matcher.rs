//! Locating a candidate line in the present content of its file.
use crate::date::Date;
use crate::history::{AddedLine, AddedView};
use crate::text::{
    chars_of, contains, contains_seq, lines_of, same_chars, seqs, split_lines, string_of, trim,
    trim_chars,
};
use vstd::prelude::*;

verus! {

/// A candidate line found in the present content of its file.
#[derive(Debug)]
pub struct GitMatch {
    pub file: String,
    /// 1-based line number in the present file.
    pub line_number: usize,
    pub line_content: String,
    pub commit_date: Date,
    pub commit_hash: String,
}

/// What a match holds, as character sequences.
pub struct MatchView {
    pub file: Seq<char>,
    pub line_number: int,
    pub line_content: Seq<char>,
    pub commit_date: Date,
    pub commit_hash: Seq<char>,
}

impl View for GitMatch {
    type V = MatchView;

    open spec fn view(&self) -> MatchView {
        MatchView {
            file: self.file@,
            line_number: self.line_number as int,
            line_content: self.line_content@,
            commit_date: self.commit_date,
            commit_hash: self.commit_hash@,
        }
    }
}

impl GitMatch {
    /// A match equal to this one.
    pub fn copy(&self) -> (r: GitMatch)
        ensures
            r@ == self@,
    {
        GitMatch {
            file: self.file.clone(),
            line_number: self.line_number,
            line_content: self.line_content.clone(),
            commit_date: self.commit_date,
            commit_hash: self.commit_hash.clone(),
        }
    }
}

/// The views of a sequence of matches.
pub open spec fn match_views(s: Seq<GitMatch>) -> Seq<MatchView> {
    s.map_values(|m: GitMatch| m@)
}

/// A present line stands for the added `content`: it holds the pattern, and
/// once trimmed it equals or contains the trimmed content.
pub open spec fn line_matches(line: Seq<char>, content: Seq<char>, pattern: Seq<char>) -> bool {
    contains(line, pattern) && (trim(line) == trim(content) || contains(trim(line), trim(content)))
}

/// The first index from `i` on of a line that stands for `content`.
pub open spec fn first_match_from(
    lines: Seq<Seq<char>>,
    content: Seq<char>,
    pattern: Seq<char>,
    i: int,
) -> Option<int>
    decreases lines.len() - i,
{
    if i < 0 || i >= lines.len() {
        None
    } else if line_matches(lines[i], content, pattern) {
        Some(i)
    } else {
        first_match_from(lines, content, pattern, i + 1)
    }
}

/// Where `content` stands in a file's text: the 1-based number and the text
/// of the first line that stands for it.
pub open spec fn located(text: Seq<char>, content: Seq<char>, pattern: Seq<char>) -> Option<
    (int, Seq<char>),
> {
    match first_match_from(lines_of(text), content, pattern, 0) {
        Some(i) => Some((i + 1, lines_of(text)[i])),
        None => None,
    }
}

/// The match that a candidate resolves to against its file's present text,
/// if the file exists.
pub open spec fn resolved(a: AddedView, text: Option<Seq<char>>, pattern: Seq<char>) -> Option<
    MatchView,
> {
    match text {
        None => None,
        Some(t) => match located(t, a.content, pattern) {
            None => None,
            Some((n, l)) => Some(
                MatchView {
                    file: a.file,
                    line_number: n,
                    line_content: l,
                    commit_date: a.commit_date,
                    commit_hash: a.commit_hash,
                },
            ),
        },
    }
}

/// Finds the first line of `file_text` that stands for `content` (see
/// `line_matches`), with its 1-based number and its text.
pub fn find_line_in_current_file(file_text: &str, content: &str, pattern: &str) -> (r: Option<
    (usize, String),
>)
    ensures
        match r {
            Some((n, l)) => located(file_text@, content@, pattern@) == Some((n as int, l@)),
            None => located(file_text@, content@, pattern@) is None,
        },
        r is Some <==> exists|i: int|
            0 <= i < lines_of(file_text@).len() && line_matches(
                #[trigger] lines_of(file_text@)[i],
                content@,
                pattern@,
            ),
        r is Some ==> {
            let ls = lines_of(file_text@);
            let n = r->Some_0.0 as int;
            &&& 1 <= n <= ls.len()
            &&& r->Some_0.1@ == ls[n - 1]
            &&& line_matches(ls[n - 1], content@, pattern@)
            &&& forall|j: int| 0 <= j < n - 1 ==> !line_matches(#[trigger] ls[j], content@, pattern@)
        },
{
    let text = chars_of(file_text);
    let lines = split_lines(&text);
    let pat = chars_of(pattern);
    let wanted = trim_chars(&chars_of(content));
    let ghost ls = seqs(lines@);
    let mut i: usize = 0;
    while i < lines.len()
        invariant
            ls == seqs(lines@),
            ls == lines_of(file_text@),
            pat@ == pattern@,
            wanted@ == trim(content@),
            i <= ls.len(),
            first_match_from(ls, content@, pattern@, 0) == first_match_from(
                ls,
                content@,
                pattern@,
                i as int,
            ),
            forall|j: int| 0 <= j < i ==> !line_matches(#[trigger] ls[j], content@, pattern@),
        decreases ls.len() - i,
    {
        let line = &lines[i];
        assert(line@ == ls[i as int]);
        if contains_seq(line, &pat) {
            let t = trim_chars(line);
            if same_chars(&t, &wanted) || contains_seq(&t, &wanted) {
                return Some((i + 1, string_of(line)));
            }
        }
        i = i + 1;
    }
    None
}

/// Resolves a candidate against the present text of its file: no match when
/// the file no longer exists, else the first line that stands for it.
pub fn resolve_candidate(added: &AddedLine, file_text: Option<&str>, pattern: &str) -> (r: Option<
    GitMatch,
>)
    ensures
        file_text is None ==> r is None,
        match r {
            Some(m) => resolved(
                added@,
                match file_text {
                    Some(t) => Some(t@),
                    None => None,
                },
                pattern@,
            ) == Some(m@),
            None => resolved(
                added@,
                match file_text {
                    Some(t) => Some(t@),
                    None => None,
                },
                pattern@,
            ) is None,
        },
{
    match file_text {
        None => None,
        Some(t) => match find_line_in_current_file(t, added.content.as_str(), pattern) {
            None => None,
            Some((n, l)) => Some(
                GitMatch {
                    file: added.file.clone(),
                    line_number: n,
                    line_content: l,
                    commit_date: added.commit_date,
                    commit_hash: added.commit_hash.clone(),
                },
            ),
        },
    }
}

} // verus!
