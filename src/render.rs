//! Rendering matches with their context lines and provenance.
use crate::date::{date_text, push_date};
use crate::matcher::{match_views, GitMatch, MatchView};
use crate::reconcile::{
    block_index, closes_block, context_window, line_ordered, merge_windows, opens_block,
    window_end, window_start, windows_sorted,
};
use crate::text::{
    append_chars, append_str, chars_of, decimal, lines_of, pad_left, push_decimal, push_padded,
    seqs, split_lines, string_of, trim, trim_chars,
};
use vstd::prelude::*;

verus! {

/// The first eight characters of a commit hash, or all of a shorter one.
pub open spec fn short_hash(h: Seq<char>) -> Seq<char> {
    if h.len() > 8 {
        h.take(8)
    } else {
        h
    }
}

/// The provenance of a match: its commit date and short hash.
pub open spec fn provenance(m: MatchView) -> Seq<char> {
    "(added \u{1b}[36m"@ + date_text(m.commit_date) + "\u{1b}[0m in \u{1b}[33m"@ + short_hash(
        m.commit_hash,
    ) + "\u{1b}[0m)"@
}

/// A one-line report of a match: file, line, trimmed text and provenance.
pub open spec fn note_line(m: MatchView) -> Seq<char> {
    "\u{1b}[35m"@ + m.file + "\u{1b}[0m:\u{1b}[32m"@ + decimal(m.line_number as nat) + "\u{1b}[0m: "@
        + trim(m.line_content) + " "@ + provenance(m) + "\n"@
}

/// A matched line, highlighted.
pub open spec fn marked_line(i: int, l: Seq<char>) -> Seq<char> {
    "\u{1b}[32m"@ + pad_left(decimal(i as nat), ' ', 4) + "\u{1b}[0m: \u{1b}[1m"@ + l
        + "\u{1b}[0m\n"@
}

/// A context line, dimmed.
pub open spec fn plain_line(i: int, l: Seq<char>) -> Seq<char> {
    "\u{1b}[2m"@ + pad_left(decimal(i as nat), ' ', 4) + ": "@ + l + "\u{1b}[0m\n"@
}

/// Lines `from..=to` (1-based) of `lines`, those in `marks` highlighted.
pub open spec fn context_lines(lines: Seq<Seq<char>>, from: int, to: int, marks: Seq<int>) -> Seq<
    char,
>
    decreases to - from + 1,
{
    if to < from {
        seq![]
    } else {
        context_lines(lines, from, to - 1, marks) + if marks.contains(to) {
            marked_line(to, lines[to - 1])
        } else {
            plain_line(to, lines[to - 1])
        }
    }
}

/// The views of optional file texts.
pub open spec fn text_views(texts: Seq<Option<String>>) -> Seq<Option<Seq<char>>> {
    texts.map_values(
        |t: Option<String>|
            match t {
                Some(s) => Some(s@),
                None => None,
            },
    )
}

fn push_short_hash(out: &mut Vec<char>, h: &Vec<char>)
    ensures
        final(out)@ == old(out)@ + short_hash(h@),
{
    let mut i: usize = 0;
    while i < h.len() && i < 8
        invariant
            i <= h@.len(),
            i <= 8,
            out@ == old(out)@ + h@.take(i as int),
        decreases 8 - i,
    {
        out.push(h[i]);
        i = i + 1;
        assert(out@ =~= old(out)@ + h@.take(i as int));
    }
    assert(h@.take(i as int) =~= short_hash(h@));
}

fn push_provenance(out: &mut Vec<char>, m: &GitMatch)
    ensures
        final(out)@ == old(out)@ + provenance(m@),
{
    let ghost o = out@;
    append_str(out, "(added \u{1b}[36m");
    push_date(out, &m.commit_date);
    append_str(out, "\u{1b}[0m in \u{1b}[33m");
    push_short_hash(out, &chars_of(m.commit_hash.as_str()));
    append_str(out, "\u{1b}[0m)");
    assert(out@ =~= o + provenance(m@));
}

fn push_note(out: &mut Vec<char>, m: &GitMatch)
    ensures
        final(out)@ == old(out)@ + note_line(m@),
{
    let ghost o = out@;
    append_str(out, "\u{1b}[35m");
    append_str(out, m.file.as_str());
    append_str(out, "\u{1b}[0m:\u{1b}[32m");
    push_decimal(out, m.line_number as u64);
    append_str(out, "\u{1b}[0m: ");
    append_chars(out, &trim_chars(&chars_of(m.line_content.as_str())));
    append_str(out, " ");
    push_provenance(out, m);
    append_str(out, "\n");
    assert(out@ =~= o + note_line(m@));
}

fn push_number(out: &mut Vec<char>, i: usize)
    ensures
        final(out)@ == old(out)@ + pad_left(decimal(i as nat), ' ', 4),
{
    let mut digits: Vec<char> = Vec::new();
    push_decimal(&mut digits, i as u64);
    assert(digits@ =~= decimal(i as nat));
    push_padded(out, &digits, ' ', 4);
}

fn holds(marks: &Vec<usize>, x: usize) -> (r: bool)
    ensures
        r == marks@.map_values(|k: usize| k as int).contains(x as int),
{
    let ghost ms = marks@.map_values(|k: usize| k as int);
    let mut k: usize = 0;
    while k < marks.len()
        invariant
            ms == marks@.map_values(|k: usize| k as int),
            k <= marks@.len(),
            forall|q: int| 0 <= q < k ==> ms[q] != x,
        decreases marks@.len() - k,
    {
        if marks[k] == x {
            assert(ms[k as int] == x);
            return true;
        }
        k = k + 1;
    }
    false
}

/// Appends lines `from..=to` of `lines`, those in `marks` highlighted.
pub fn push_context(
    out: &mut Vec<char>,
    lines: &Vec<Vec<char>>,
    from: usize,
    to: usize,
    marks: &Vec<usize>,
)
    requires
        1 <= from,
        to <= lines@.len(),
    ensures
        final(out)@ == old(out)@ + context_lines(
            seqs(lines@),
            from as int,
            to as int,
            marks@.map_values(|k: usize| k as int),
        ),
{
    let ghost ls = seqs(lines@);
    let ghost ms = marks@.map_values(|k: usize| k as int);
    if from > to {
        assert(out@ =~= old(out)@ + context_lines(ls, from as int, to as int, ms));
        return;
    }
    let count = to - from + 1;
    let mut k: usize = 0;
    assert(context_lines(ls, from as int, from - 1, ms) == Seq::<char>::empty());
    assert(out@ =~= old(out)@ + context_lines(ls, from as int, from - 1, ms));
    while k < count
        invariant
            ls == seqs(lines@),
            ms == marks@.map_values(|k: usize| k as int),
            1 <= from <= to <= lines@.len(),
            count == to - from + 1,
            k <= count,
            out@ == old(out)@ + context_lines(ls, from as int, from + k - 1, ms),
        decreases count - k,
    {
        let ghost o = out@;
        let i = from + k;
        let l = &lines[i - 1];
        if holds(marks, i) {
            append_str(out, "\u{1b}[32m");
            push_number(out, i);
            append_str(out, "\u{1b}[0m: \u{1b}[1m");
            append_chars(out, l);
            append_str(out, "\u{1b}[0m\n");
            assert(out@ =~= o + marked_line(i as int, ls[i - 1]));
        } else {
            append_str(out, "\u{1b}[2m");
            push_number(out, i);
            append_str(out, ": ");
            append_chars(out, l);
            append_str(out, "\u{1b}[0m\n");
            assert(out@ =~= o + plain_line(i as int, ls[i - 1]));
        }
        assert(out@ =~= old(out)@ + context_lines(ls, from as int, i as int, ms));
        k = k + 1;
    }
}

/// The header above a match's context: file and provenance.
pub open spec fn header_line(m: MatchView) -> Seq<char> {
    "\u{1b}[35m"@ + m.file + "\u{1b}[0m "@ + provenance(m) + "\n"@
}

/// A window already shown for the match's file holds the match's line.
pub open spec fn covered(shown: Seq<(Seq<char>, int, int)>, m: MatchView) -> bool {
    exists|k: int|
        0 <= k < shown.len() && (#[trigger] shown[k]).0 == m.file && shown[k].1 <= m.line_number
            <= shown[k].2
}

/// The first line to show above line `l` of file `f`, starting from `s`:
/// below it no line shown before in a window that ends above `l`.
pub open spec fn clip_start(shown: Seq<(Seq<char>, int, int)>, f: Seq<char>, l: int, s: int) -> int
    decreases shown.len(),
{
    if shown.len() == 0 {
        s
    } else {
        let c = clip_start(shown.drop_last(), f, l, s);
        let w = shown.last();
        if w.0 == f && w.2 < l && w.2 + 1 > c {
            w.2 + 1
        } else {
            c
        }
    }
}

/// The last line to show below line `l` of file `f`, starting from `e`:
/// above it no line shown before in a window that starts below `l`.
pub open spec fn clip_end(shown: Seq<(Seq<char>, int, int)>, f: Seq<char>, l: int, e: int) -> int
    decreases shown.len(),
{
    if shown.len() == 0 {
        e
    } else {
        let c = clip_end(shown.drop_last(), f, l, e);
        let w = shown.last();
        if w.0 == f && w.1 > l && w.1 - 1 < c {
            w.1 - 1
        } else {
            c
        }
    }
}

/// A match is shown with context: its file's text is at hand, its line lies
/// in it, and no window shown before holds that line.
pub open spec fn shows_context(
    m: MatchView,
    text: Option<Seq<char>>,
    shown: Seq<(Seq<char>, int, int)>,
) -> bool {
    text is Some && 1 <= m.line_number <= lines_of(text->Some_0).len() && !covered(shown, m)
}

/// The listing of matches in the given order, each with the text of its
/// file, and the windows it showed. A match is shown under a header with its
/// context window, less the lines that earlier windows of its file showed;
/// a match whose line an earlier window showed, or whose file text is
/// missing or too short, gets a one-line note instead.
pub open spec fn listing(ms: Seq<MatchView>, texts: Seq<Option<Seq<char>>>, ctx: int) -> (
    Seq<char>,
    Seq<(Seq<char>, int, int)>,
)
    decreases ms.len(),
{
    if ms.len() == 0 || texts.len() != ms.len() {
        (seq![], seq![])
    } else {
        let (out, shown) = listing(ms.drop_last(), texts.drop_last(), ctx);
        let m = ms.last();
        let text = texts.last();
        let sep = if ms.len() > 1 {
            "\n"@
        } else {
            seq![]
        };
        if shows_context(m, text, shown) {
            let ls = lines_of(text->Some_0);
            let s = clip_start(shown, m.file, m.line_number, window_start(m.line_number, ctx));
            let e = clip_end(
                shown,
                m.file,
                m.line_number,
                window_end(m.line_number, ctx, ls.len() as int),
            );
            (
                out + sep + header_line(m) + context_lines(ls, s, e, seq![m.line_number]),
                shown.push((m.file, s, e)),
            )
        } else {
            (out + sep + note_line(m), shown)
        }
    }
}

proof fn lemma_clip_start(shown: Seq<(Seq<char>, int, int)>, f: Seq<char>, l: int, s: int)
    requires
        s <= l,
    ensures
        s <= clip_start(shown, f, l, s) <= l,
        forall|k: int|
            0 <= k < shown.len() && (#[trigger] shown[k]).0 == f && shown[k].2 < l ==> shown[k].2
                < clip_start(shown, f, l, s),
    decreases shown.len(),
{
    if shown.len() > 0 {
        let p = shown.drop_last();
        lemma_clip_start(p, f, l, s);
        assert forall|k: int|
            0 <= k < shown.len() && (#[trigger] shown[k]).0 == f && shown[k].2 < l implies shown[k].2
                < clip_start(shown, f, l, s) by {
            if k < p.len() {
                assert(p[k] == shown[k]);
            }
        }
    }
}

proof fn lemma_clip_end(shown: Seq<(Seq<char>, int, int)>, f: Seq<char>, l: int, e: int)
    requires
        l <= e,
    ensures
        l <= clip_end(shown, f, l, e) <= e,
        forall|k: int|
            0 <= k < shown.len() && (#[trigger] shown[k]).0 == f && shown[k].1 > l ==> clip_end(
                shown,
                f,
                l,
                e,
            ) < shown[k].1,
    decreases shown.len(),
{
    if shown.len() > 0 {
        let p = shown.drop_last();
        lemma_clip_end(p, f, l, e);
        assert forall|k: int|
            0 <= k < shown.len() && (#[trigger] shown[k]).0 == f && shown[k].1 > l implies clip_end(
                shown,
                f,
                l,
                e,
            ) < shown[k].1 by {
            if k < p.len() {
                assert(p[k] == shown[k]);
            }
        }
    }
}

/// A window holds the line of one of the matches, in that match's file.
pub open spec fn holds_a_match(ms: Seq<MatchView>, w: (Seq<char>, int, int)) -> bool {
    exists|i: int| 0 <= i < ms.len() && (#[trigger] ms[i]).file == w.0 && w.1 <= ms[i].line_number <= w.2
}

/// Windows of one file that share no line.
pub open spec fn apart(a: (Seq<char>, int, int), b: (Seq<char>, int, int)) -> bool {
    a.0 == b.0 ==> a.2 < b.1 || b.2 < a.1
}

/// In a date listing no line of a file is shown twice: the windows shown
/// for one file share no line, each holds the line of the match it was
/// shown for, and each lies within the file's lines.
pub proof fn lemma_listing_shows_lines_once(
    ms: Seq<MatchView>,
    texts: Seq<Option<Seq<char>>>,
    ctx: int,
)
    requires
        texts.len() == ms.len(),
        0 <= ctx,
    ensures
        forall|a: int, b: int|
            0 <= a < b < listing(ms, texts, ctx).1.len() ==> apart(
                #[trigger] listing(ms, texts, ctx).1[a],
                #[trigger] listing(ms, texts, ctx).1[b],
            ),
        forall|k: int|
            0 <= k < listing(ms, texts, ctx).1.len() ==> 1 <= (#[trigger] listing(ms, texts, ctx).1[k]).1
                <= listing(ms, texts, ctx).1[k].2,
        forall|k: int|
            0 <= k < listing(ms, texts, ctx).1.len() ==> holds_a_match(
                ms,
                #[trigger] listing(ms, texts, ctx).1[k],
            ),
    decreases ms.len(),
{
    if ms.len() > 0 {
        let p = ms.drop_last();
        let tp = texts.drop_last();
        lemma_listing_shows_lines_once(p, tp, ctx);
        let (out, shown) = listing(p, tp, ctx);
        let m = ms.last();
        let text = texts.last();
        assert forall|k: int| 0 <= k < shown.len() implies holds_a_match(ms, #[trigger] shown[k]) by {
            assert(holds_a_match(p, shown[k]));
            let i = choose|i: int|
                0 <= i < p.len() && (#[trigger] p[i]).file == shown[k].0 && shown[k].1
                    <= p[i].line_number <= shown[k].2;
            assert(ms[i] == p[i]);
        }
        if shows_context(m, text, shown) {
            let ls = lines_of(text->Some_0);
            let l = m.line_number;
            let ws = window_start(l, ctx);
            let we = window_end(l, ctx, ls.len() as int);
            lemma_clip_start(shown, m.file, l, ws);
            lemma_clip_end(shown, m.file, l, we);
            let s = clip_start(shown, m.file, l, ws);
            let e = clip_end(shown, m.file, l, we);
            let w = (m.file, s, e);
            let sh = shown.push(w);
            assert(listing(ms, texts, ctx).1 == sh);
            assert forall|a: int, b: int| 0 <= a < b < sh.len() implies apart(
                #[trigger] sh[a],
                #[trigger] sh[b],
            ) by {
                if b < shown.len() {
                    assert(sh[a] == shown[a] && sh[b] == shown[b]);
                } else {
                    assert(sh[a] == shown[a] && sh[b] == w);
                    if shown[a].0 == m.file {
                        assert(!(shown[a].1 <= l <= shown[a].2));
                    }
                }
            }
            assert forall|k: int| 0 <= k < sh.len() implies 1 <= (#[trigger] sh[k]).1 <= sh[k].2 by {
                if k < shown.len() {
                    assert(sh[k] == shown[k]);
                }
            }
            assert forall|k: int| 0 <= k < sh.len() implies holds_a_match(ms, #[trigger] sh[k]) by {
                if k < shown.len() {
                    assert(sh[k] == shown[k]);
                } else {
                    assert(ms[ms.len() - 1] == m);
                }
            }
        } else {
            assert(listing(ms, texts, ctx).1 == shown);
        }
    }
}

/// The views of the windows shown so far.
pub open spec fn shown_views(v: Seq<(String, usize, usize)>) -> Seq<(Seq<char>, int, int)> {
    v.map_values(|w: (String, usize, usize)| (w.0@, w.1 as int, w.2 as int))
}

fn is_covered(shown: &Vec<(String, usize, usize)>, m: &GitMatch) -> (r: bool)
    ensures
        r == covered(shown_views(shown@), m@),
{
    let ghost sv = shown_views(shown@);
    let mut k: usize = 0;
    while k < shown.len()
        invariant
            sv == shown_views(shown@),
            k <= shown@.len(),
            forall|q: int|
                0 <= q < k ==> !((#[trigger] sv[q]).0 == m@.file && sv[q].1 <= m@.line_number
                    <= sv[q].2),
        decreases shown@.len() - k,
    {
        let w = &shown[k];
        if w.0 == m.file && w.1 <= m.line_number && m.line_number <= w.2 {
            assert(sv[k as int].0 == m@.file);
            return true;
        }
        k = k + 1;
    }
    false
}

fn clip(shown: &Vec<(String, usize, usize)>, m: &GitMatch, s: usize, e: usize) -> (r: (usize, usize))
    requires
        s <= m.line_number <= e,
    ensures
        r.0 == clip_start(shown_views(shown@), m@.file, m@.line_number, s as int),
        r.1 == clip_end(shown_views(shown@), m@.file, m@.line_number, e as int),
        s <= r.0 <= m.line_number <= r.1 <= e,
{
    let ghost sv = shown_views(shown@);
    let l = m.line_number;
    let mut a = s;
    let mut b = e;
    let mut k: usize = 0;
    assert(sv.take(0) =~= Seq::<(Seq<char>, int, int)>::empty());
    while k < shown.len()
        invariant
            sv == shown_views(shown@),
            l == m.line_number,
            k <= sv.len(),
            s <= a <= l <= b <= e,
            a == clip_start(sv.take(k as int), m@.file, l as int, s as int),
            b == clip_end(sv.take(k as int), m@.file, l as int, e as int),
        decreases sv.len() - k,
    {
        assert(sv.take(k + 1).drop_last() =~= sv.take(k as int));
        assert(sv.take(k + 1).last() == sv[k as int]);
        let w = &shown[k];
        let same = w.0 == m.file;
        if same && w.2 < l && w.2 + 1 > a {
            a = w.2 + 1;
        }
        if same && w.1 > l && w.1 - 1 < b {
            b = w.1 - 1;
        }
        k = k + 1;
    }
    assert(sv.take(sv.len() as int) =~= sv);
    (a, b)
}

/// Renders matches in the given order, each with the text of its file
/// (`None` where it could not be read), as `listing` says.
pub fn render_since(matches: &Vec<GitMatch>, texts: &Vec<Option<String>>, ctx: usize) -> (r: String)
    requires
        texts@.len() == matches@.len(),
    ensures
        r@ == listing(match_views(matches@), text_views(texts@), ctx as int).0,
{
    let ghost ms = match_views(matches@);
    let ghost ts = text_views(texts@);
    let mut out: Vec<char> = Vec::new();
    let mut shown: Vec<(String, usize, usize)> = Vec::new();
    let mut i: usize = 0;
    assert(ms.take(0) =~= Seq::<MatchView>::empty());
    assert(shown_views(shown@) =~= Seq::<(Seq<char>, int, int)>::empty());
    while i < matches.len()
        invariant
            ms == match_views(matches@),
            ts == text_views(texts@),
            ts.len() == ms.len(),
            i <= ms.len(),
            listing(ms.take(i as int), ts.take(i as int), ctx as int) == (out@, shown_views(shown@)),
        decreases ms.len() - i,
    {
        let m = &matches[i];
        let ghost o = out@;
        assert(ms.take(i + 1).drop_last() =~= ms.take(i as int));
        assert(ts.take(i + 1).drop_last() =~= ts.take(i as int));
        assert(ms.take(i + 1).last() == m@);
        if i > 0 {
            append_str(&mut out, "\n");
        }
        let ghost o2 = out@;
        let covered_now = is_covered(&shown, m);
        let mut done = false;
        match &texts[i] {
            Some(t) => {
                assert(ts.take(i + 1).last() == Some(t@));
                let lines = split_lines(&chars_of(t.as_str()));
                if !covered_now && 1 <= m.line_number && m.line_number <= lines.len() {
                    let (ws, we) = context_window(m.line_number, ctx, lines.len());
                    let (s, e) = clip(&shown, m, ws, we);
                    push_header(&mut out, m);
                    let marks = vec![m.line_number];
                    assert(marks@.map_values(|k: usize| k as int) =~= seq![m.line_number as int]);
                    push_context(&mut out, &lines, s, e, &marks);
                    let ghost before = shown@;
                    shown.push((m.file.clone(), s, e));
                    assert(shown_views(shown@) =~= shown_views(before).push(
                        (m@.file, s as int, e as int),
                    ));
                    done = true;
                }
            },
            None => {
                assert(ts.take(i + 1).last() is None);
            },
        }
        if !done {
            push_note(&mut out, m);
        }
        proof {
            if i > 0 {
                assert(o2 =~= o + "\n"@);
            } else {
                assert(o2 =~= o + Seq::<char>::empty());
            }
        }
        assert(out@ =~= listing(ms.take(i + 1), ts.take(i + 1), ctx as int).0);
        i = i + 1;
    }
    assert(ms.take(ms.len() as int) =~= ms);
    assert(ts.take(ts.len() as int) =~= ts);
    string_of(&out)
}

fn push_header(out: &mut Vec<char>, m: &GitMatch)
    ensures
        final(out)@ == old(out)@ + header_line(m@),
{
    let ghost o = out@;
    append_str(out, "\u{1b}[35m");
    append_str(out, m.file.as_str());
    append_str(out, "\u{1b}[0m ");
    push_provenance(out, m);
    append_str(out, "\n");
    assert(out@ =~= o + header_line(m@));
}

/// One-line notes for each match, in order.
pub open spec fn notes(ms: Seq<MatchView>) -> Seq<char>
    decreases ms.len(),
{
    if ms.len() == 0 {
        seq![]
    } else {
        notes(ms.drop_last()) + note_line(ms.last())
    }
}

/// Every match's line lies in a file of `n` lines.
pub open spec fn lines_fit(ms: Seq<MatchView>, n: int) -> bool {
    forall|j: int| 0 <= j < ms.len() ==> 1 <= (#[trigger] ms[j]).line_number <= n
}

/// The context windows of the matches of one file of `len` lines.
pub open spec fn file_windows(ms: Seq<MatchView>, ctx: int, len: int) -> Seq<(usize, usize)> {
    Seq::new(
        ms.len(),
        |j: int|
            (
                window_start(ms[j].line_number, ctx) as usize,
                window_end(ms[j].line_number, ctx, len) as usize,
            ),
    )
}

/// The blocks of one file after its first `n` matches: the text so far, the
/// first line of the block under way, and its matched lines. A block opens
/// with the file's name, lists each member's provenance, and once its last
/// window is reached shows its lines once, the members' lines highlighted.
pub open spec fn blocks_text(
    ms: Seq<MatchView>,
    ws: Seq<(usize, usize)>,
    ls: Seq<Seq<char>>,
    n: int,
) -> (Seq<char>, int, Seq<int>)
    decreases n,
{
    if n <= 0 {
        (seq![], 0, seq![])
    } else {
        let (out, st, marks) = blocks_text(ms, ws, ls, n - 1);
        let j = n - 1;
        let m = ms[j];
        let (out1, st1, marks1) = if opens_block(ws, j) {
            (
                out + (if j > 0 {
                    "\n"@
                } else {
                    seq![]
                }) + "\u{1b}[35m"@ + m.file + "\u{1b}[0m"@,
                ws[j].0 as int,
                seq![],
            )
        } else {
            (out, st, marks)
        };
        let out2 = out1 + " "@ + provenance(m);
        let marks2 = marks1.push(m.line_number);
        if closes_block(ws, j) {
            (out2 + "\n"@ + context_lines(ls, st1, ws[j].1 as int, marks2), st1, marks2)
        } else {
            (out2, st1, marks2)
        }
    }
}

/// The listing of one file's matches, given in ascending line order, against
/// the file's text: its merged blocks, or one-line notes where the text is
/// missing or a line lies outside it.
pub open spec fn file_listing(ms: Seq<MatchView>, text: Option<Seq<char>>, ctx: int) -> Seq<char> {
    match text {
        Some(t) => if lines_fit(ms, lines_of(t).len() as int) {
            let ls = lines_of(t);
            blocks_text(ms, file_windows(ms, ctx, ls.len() as int), ls, ms.len() as int).0
        } else {
            notes(ms)
        },
        None => notes(ms),
    }
}

fn push_notes(out: &mut Vec<char>, matches: &Vec<GitMatch>)
    ensures
        final(out)@ == old(out)@ + notes(match_views(matches@)),
{
    let ghost ms = match_views(matches@);
    let mut i: usize = 0;
    assert(ms.take(0) =~= Seq::<MatchView>::empty());
    assert(out@ =~= old(out)@ + notes(ms.take(0)));
    while i < matches.len()
        invariant
            ms == match_views(matches@),
            i <= ms.len(),
            out@ == old(out)@ + notes(ms.take(i as int)),
        decreases ms.len() - i,
    {
        push_note(out, &matches[i]);
        assert(ms.take(i + 1).drop_last() =~= ms.take(i as int));
        assert(out@ =~= old(out)@ + notes(ms.take(i + 1)));
        i = i + 1;
    }
    assert(ms.take(ms.len() as int) =~= ms);
}

proof fn lemma_block_index_mono(ws: Seq<(usize, usize)>, a: int, b: int)
    requires
        a <= b,
    ensures
        block_index(ws, a) <= block_index(ws, b),
    decreases b - a,
{
    if a < b {
        lemma_block_index_mono(ws, a, b - 1);
    }
}

/// Renders one file's matches, given in ascending line order: windows that
/// overlap or touch are merged, and each merged block is shown once under a
/// header that lists the provenance of each of its matches.
#[verifier::rlimit(60)]
pub fn render_file(matches: &Vec<GitMatch>, text: Option<&str>, ctx: usize) -> (r: String)
    requires
        line_ordered(match_views(matches@)),
    ensures
        r@ == file_listing(
            match_views(matches@),
            match text {
                Some(t) => Some(t@),
                None => None,
            },
            ctx as int,
        ),
{
    let ghost ms = match_views(matches@);
    let mut out: Vec<char> = Vec::new();
    let t = match text {
        Some(t) => t,
        None => {
            push_notes(&mut out, matches);
            assert(out@ =~= notes(ms));
            return string_of(&out);
        },
    };
    let lines = split_lines(&chars_of(t));
    let ghost ls = seqs(lines@);
    let len = lines.len();
    let mut ws: Vec<(usize, usize)> = Vec::new();
    let mut j: usize = 0;
    while j < matches.len()
        invariant
            ms == match_views(matches@),
            ls == seqs(lines@),
            ls == lines_of(t@),
            len == ls.len(),
            j <= ms.len(),
            ws@.len() == j,
            text == Some(t),
            out@ == Seq::<char>::empty(),
            forall|q: int| 0 <= q < j ==> 1 <= (#[trigger] ms[q]).line_number <= len,
            forall|q: int|
                0 <= q < j ==> (#[trigger] ws@[q]) == file_windows(ms, ctx as int, len as int)[q],
        decreases ms.len() - j,
    {
        let l = matches[j].line_number;
        assert(ms[j as int].line_number == l as int);
        if l < 1 || l > len {
            assert(!lines_fit(ms, len as int));
            push_notes(&mut out, matches);
            assert(out@ =~= notes(ms));
            assert(file_listing(ms, Some(t@), ctx as int) == notes(ms));
            assert(match text {
                Some(t) => Some(t@),
                None => None,
            } == Some(t@));
            return string_of(&out);
        }
        let w = context_window(l, ctx, len);
        ws.push(w);
        j = j + 1;
    }
    let ghost fw = file_windows(ms, ctx as int, len as int);
    assert(ws@ =~= fw);
    assert(lines_fit(ms, len as int));
    assert forall|a: int, b: int| 0 <= a < b < ws@.len() implies (#[trigger] ws@[a]).0 <= (
    #[trigger] ws@[b]).0 && ws@[a].1 <= ws@[b].1 by {
        assert(ms[a].line_number <= ms[b].line_number);
    }
    let (blocks, owner) = merge_windows(&ws);
    let mut marks: Vec<usize> = Vec::new();
    let mut cur: usize = 0;
    let mut j: usize = 0;
    proof {
        assert forall|q: int| 0 <= q < ws@.len() implies owner@[q] < blocks@.len() by {
            lemma_block_index_mono(ws@, q, ws@.len() - 1);
        }
    }
    assert(marks@.map_values(|k: usize| k as int) =~= Seq::<int>::empty());
    while j < matches.len()
        invariant
            ms == match_views(matches@),
            ls == seqs(lines@),
            ls == lines_of(t@),
            len == ls.len(),
            j <= ms.len(),
            ws@ == fw,
            fw == file_windows(ms, ctx as int, len as int),
            lines_fit(ms, len as int),
            windows_sorted(ws@),
            owner@.len() == ws@.len(),
            forall|q: int| 0 <= q < ws@.len() ==> owner@[q] == block_index(ws@, q),
            forall|q: int| 0 <= q < ws@.len() ==> owner@[q] < blocks@.len(),
            forall|q: int|
                0 <= q < ws@.len() && opens_block(ws@, q) ==> (#[trigger] blocks@[owner@[q] as int]).0
                    == ws@[q].0,
            forall|q: int|
                0 <= q < ws@.len() && closes_block(ws@, q) ==> (#[trigger] blocks@[owner@[q] as int]).1
                    == ws@[q].1,
            blocks_text(ms, fw, ls, j as int) == (out@, cur as int, marks@.map_values(|k: usize| k as int)),
            j > 0 ==> blocks@[owner@[j - 1] as int].0 == cur,
            j > 0 ==> 1 <= cur,
        decreases ms.len() - j,
    {
        let m = &matches[j];
        assert(ms[j as int] == m@);
        assert(ws@[j as int] == fw[j as int]);
        assert(1 <= ms[j as int].line_number <= len);
        assert(1 <= ws@[j as int].0);
        let ghost o = out@;
        let ghost mk0 = marks@.map_values(|k: usize| k as int);
        let ghost cur0 = cur as int;
        assert(blocks_text(ms, fw, ls, j as int) == (o, cur0, mk0));
        let opening = j == 0 || owner[j] != owner[j - 1];
        assert(opening == opens_block(ws@, j as int));
        if opening {
            if j > 0 {
                append_str(&mut out, "\n");
            }
            append_str(&mut out, "\u{1b}[35m");
            append_str(&mut out, m.file.as_str());
            append_str(&mut out, "\u{1b}[0m");
            cur = ws[j].0;
            marks = Vec::new();
            assert(marks@.map_values(|k: usize| k as int) =~= Seq::<int>::empty());
            assert(out@ =~= o + (if j > 0 {
                "\n"@
            } else {
                seq![]
            }) + "\u{1b}[35m"@ + m@.file + "\u{1b}[0m"@);
        } else {
            assert(owner@[j as int] == owner@[j - 1]);
        }
        let ghost o1 = out@;
        let ghost mk1 = marks@.map_values(|k: usize| k as int);
        append_str(&mut out, " ");
        push_provenance(&mut out, m);
        marks.push(m.line_number);
        assert(out@ =~= o1 + " "@ + provenance(m@));
        assert(marks@.map_values(|k: usize| k as int) =~= mk1.push(m@.line_number));
        let closing = j + 1 == matches.len() || owner[j + 1] != owner[j];
        assert(closing == closes_block(ws@, j as int));
        if closing {
            let ghost o2 = out@;
            append_str(&mut out, "\n");
            let (bs, be) = blocks[owner[j]];
            assert(bs == cur);
            assert(be == ws@[j as int].1);
            assert(1 <= ms[j as int].line_number <= len);
            push_context(&mut out, &lines, bs, be, &marks);
            assert(out@ =~= o2 + "\n"@ + context_lines(ls, cur as int, be as int, marks@.map_values(|k: usize| k as int)));
        }
        assert(out@ =~= blocks_text(ms, fw, ls, j + 1).0);
        j = j + 1;
    }
    string_of(&out)
}

/// The listing of several files' groups of matches, one after another,
/// separated by a blank line.
pub open spec fn grouped_listing(gs: Seq<Seq<MatchView>>, ts: Seq<Option<Seq<char>>>, ctx: int) -> Seq<
    char,
>
    decreases gs.len(),
{
    if gs.len() == 0 || ts.len() != gs.len() {
        seq![]
    } else {
        grouped_listing(gs.drop_last(), ts.drop_last(), ctx) + (if gs.len() > 1 {
            "\n"@
        } else {
            seq![]
        }) + file_listing(gs.last(), ts.last(), ctx)
    }
}

/// The views of groups of matches.
pub open spec fn group_views(gs: Seq<Vec<GitMatch>>) -> Seq<Seq<MatchView>> {
    gs.map_values(|g: Vec<GitMatch>| match_views(g@))
}

/// Renders groups of matches, each of one file in ascending line order, with
/// the text of each group's file (`None` where it could not be read).
pub fn render_grouped(groups: &Vec<Vec<GitMatch>>, texts: &Vec<Option<String>>, ctx: usize) -> (r:
    String)
    requires
        texts@.len() == groups@.len(),
        forall|g: int| 0 <= g < groups@.len() ==> line_ordered(match_views(#[trigger] groups@[g]@)),
    ensures
        r@ == grouped_listing(group_views(groups@), text_views(texts@), ctx as int),
{
    let ghost gs = group_views(groups@);
    let ghost ts = text_views(texts@);
    let mut out: Vec<char> = Vec::new();
    let mut i: usize = 0;
    assert(gs.take(0) =~= Seq::<Seq<MatchView>>::empty());
    while i < groups.len()
        invariant
            gs == group_views(groups@),
            ts == text_views(texts@),
            ts.len() == gs.len(),
            i <= gs.len(),
            forall|g: int| 0 <= g < groups@.len() ==> line_ordered(match_views(#[trigger] groups@[g]@)),
            out@ == grouped_listing(gs.take(i as int), ts.take(i as int), ctx as int),
        decreases gs.len() - i,
    {
        let ghost o = out@;
        assert(gs.take(i + 1).drop_last() =~= gs.take(i as int));
        assert(ts.take(i + 1).drop_last() =~= ts.take(i as int));
        assert(gs.take(i + 1).last() == match_views(groups@[i as int]@));
        if i > 0 {
            append_str(&mut out, "\n");
        }
        let ghost o2 = out@;
        let piece = match &texts[i] {
            Some(t) => render_file(&groups[i], Some(t.as_str()), ctx),
            None => render_file(&groups[i], None, ctx),
        };
        append_str(&mut out, piece.as_str());
        proof {
            if i > 0 {
                assert(o2 =~= o + "\n"@);
            } else {
                assert(o2 =~= o + Seq::<char>::empty());
            }
        }
        assert(out@ =~= grouped_listing(gs.take(i + 1), ts.take(i + 1), ctx as int));
        i = i + 1;
    }
    assert(gs.take(gs.len() as int) =~= gs);
    assert(ts.take(ts.len() as int) =~= ts);
    string_of(&out)
}

} // verus!
