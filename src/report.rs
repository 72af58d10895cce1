//! The history queries end to end: candidate lines and their files' present
//! texts in, the finished report out.
use crate::history::{added_lines, added_views, AddedLine, AddedView};
use crate::matcher::{match_views, resolve_candidate, resolved, GitMatch, MatchView};
use crate::reconcile::{
    dedup, dedup_matches, file_order, group_by_file, line_ordered, of_file, sort_by_date,
    sorted_by_date, sorted_by_line,
};
use crate::render::{
    group_views, grouped_listing, listing, render_grouped, render_since, text_views,
};
use crate::text::{append_str, decimal, push_decimal, string_of};
use vstd::prelude::*;

verus! {

/// The matches that the candidates resolve to, in candidate order; `texts`
/// holds each candidate's file text (`None` where the file is gone).
pub open spec fn resolved_all(
    added: Seq<AddedView>,
    texts: Seq<Option<Seq<char>>>,
    pattern: Seq<char>,
) -> Seq<MatchView>
    decreases added.len(),
{
    if added.len() == 0 || texts.len() != added.len() {
        seq![]
    } else {
        let p = resolved_all(added.drop_last(), texts.drop_last(), pattern);
        match resolved(added.last(), texts.last(), pattern) {
            Some(m) => p.push(m),
            None => p,
        }
    }
}

/// The text of `file` as read for the first candidate in it.
pub open spec fn text_from(
    added: Seq<AddedView>,
    texts: Seq<Option<Seq<char>>>,
    file: Seq<char>,
    k: int,
) -> Option<Seq<char>>
    decreases added.len() - k,
{
    if k < 0 || k >= added.len() || k >= texts.len() {
        None
    } else if added[k].file == file {
        texts[k]
    } else {
        text_from(added, texts, file, k + 1)
    }
}

/// Resolves each candidate against its file's text, keeping those found.
pub fn resolve_all(added: &Vec<AddedLine>, texts: &Vec<Option<String>>, pattern: &str) -> (r: Vec<
    GitMatch,
>)
    requires
        texts@.len() == added@.len(),
    ensures
        match_views(r@) == resolved_all(added_views(added@), text_views(texts@), pattern@),
{
    let ghost av = added_views(added@);
    let ghost tv = text_views(texts@);
    let mut r: Vec<GitMatch> = Vec::new();
    let mut i: usize = 0;
    assert(av.take(0) =~= Seq::<AddedView>::empty());
    assert(match_views(r@) =~= Seq::<MatchView>::empty());
    while i < added.len()
        invariant
            av == added_views(added@),
            tv == text_views(texts@),
            tv.len() == av.len(),
            i <= av.len(),
            match_views(r@) == resolved_all(av.take(i as int), tv.take(i as int), pattern@),
        decreases av.len() - i,
    {
        assert(av.take(i + 1).drop_last() =~= av.take(i as int));
        assert(tv.take(i + 1).drop_last() =~= tv.take(i as int));
        assert(av.take(i + 1).last() == added@[i as int]@);
        let found = match &texts[i] {
            Some(t) => resolve_candidate(&added[i], Some(t.as_str()), pattern),
            None => resolve_candidate(&added[i], None, pattern),
        };
        match found {
            Some(m) => {
                let ghost before = r@;
                r.push(m);
                assert(match_views(r@) =~= match_views(before).push(r@[r@.len() - 1]@));
            },
            None => {},
        }
        i = i + 1;
    }
    assert(av.take(av.len() as int) =~= av);
    assert(tv.take(tv.len() as int) =~= tv);
    r
}

fn text_of_file(added: &Vec<AddedLine>, texts: &Vec<Option<String>>, file: &String) -> (r: Option<
    String,
>)
    requires
        texts@.len() == added@.len(),
    ensures
        match r {
            Some(s) => text_from(added_views(added@), text_views(texts@), file@, 0) == Some(s@),
            None => text_from(added_views(added@), text_views(texts@), file@, 0) is None,
        },
{
    let ghost av = added_views(added@);
    let ghost tv = text_views(texts@);
    let mut k: usize = 0;
    while k < added.len()
        invariant
            av == added_views(added@),
            tv == text_views(texts@),
            tv.len() == av.len(),
            k <= av.len(),
            text_from(av, tv, file@, 0) == text_from(av, tv, file@, k as int),
        decreases av.len() - k,
    {
        assert(av[k as int] == added@[k as int]@);
        if added[k].file == *file {
            assert(tv[k as int] == match texts@[k as int] {
                Some(s) => Some(s@),
                None => None,
            });
            return match &texts[k] {
                Some(s) => Some(s.clone()),
                None => None,
            };
        }
        k = k + 1;
    }
    None
}

/// The groups of a file-grouped report: per file in order of first
/// appearance, its matches in ascending line order.
pub open spec fn file_groups(u: Seq<MatchView>) -> Seq<Seq<MatchView>> {
    Seq::new(file_order(u).len(), |g: int| sorted_by_line(of_file(u, file_order(u)[g])))
}

/// The file text of each group.
pub open spec fn group_texts(
    u: Seq<MatchView>,
    added: Seq<AddedView>,
    texts: Seq<Option<Seq<char>>>,
) -> Seq<Option<Seq<char>>> {
    Seq::new(file_order(u).len(), |g: int| text_from(added, texts, file_order(u)[g], 0))
}

/// The file text of each match.
pub open spec fn texts_for(
    ms: Seq<MatchView>,
    added: Seq<AddedView>,
    texts: Seq<Option<Seq<char>>>,
) -> Seq<Option<Seq<char>>> {
    Seq::new(ms.len(), |i: int| text_from(added, texts, ms[i].file, 0))
}

/// The report of a date query: a note when no candidate was found, another
/// when none is still present, else the count and the listing of the
/// matches in ascending order of commit date, equal dates in candidate
/// order.
pub open spec fn since_output(
    pattern: Seq<char>,
    since: Seq<char>,
    added: Seq<AddedView>,
    texts: Seq<Option<Seq<char>>>,
    ctx: int,
) -> Seq<char> {
    let u = dedup(resolved_all(added, texts, pattern));
    let sorted = sorted_by_date(u);
    if added.len() == 0 {
        "No '"@ + pattern + "' additions found since "@ + since + ".\n"@
    } else if u.len() == 0 {
        "No '"@ + pattern + "' found in lines added since "@ + since
            + " (lines may have been removed).\n"@
    } else {
        "Found "@ + decimal(u.len()) + " match(es):\n\n"@ + listing(
            sorted,
            texts_for(sorted, added, texts),
            ctx,
        ).0
    }
}

/// The report of a commit-range query: as for a date query, but grouped by
/// file in order of first appearance, each file's overlapping windows merged.
pub open spec fn range_output(
    pattern: Seq<char>,
    range: Seq<char>,
    added: Seq<AddedView>,
    texts: Seq<Option<Seq<char>>>,
    ctx: int,
) -> Seq<char> {
    let u = dedup(resolved_all(added, texts, pattern));
    if added.len() == 0 {
        "No '"@ + pattern + "' additions found in "@ + range + ".\n"@
    } else if u.len() == 0 {
        "No '"@ + pattern + "' found in lines added in "@ + range
            + " (lines may have been removed).\n"@
    } else {
        "Found "@ + decimal(u.len()) + " match(es):\n\n"@ + grouped_listing(
            file_groups(u),
            group_texts(u, added, texts),
            ctx,
        )
    }
}

fn push_found(out: &mut Vec<char>, n: usize)
    ensures
        final(out)@ == old(out)@ + "Found "@ + decimal(n as nat) + " match(es):\n\n"@,
{
    let ghost o = out@;
    append_str(out, "Found ");
    push_decimal(out, n as u64);
    append_str(out, " match(es):\n\n");
    assert(out@ =~= o + "Found "@ + decimal(n as nat) + " match(es):\n\n"@);
}

fn texts_of_matches(ms: &Vec<GitMatch>, added: &Vec<AddedLine>, texts: &Vec<Option<String>>) -> (r:
    Vec<Option<String>>)
    requires
        texts@.len() == added@.len(),
    ensures
        r@.len() == ms@.len(),
        text_views(r@) == texts_for(match_views(ms@), added_views(added@), text_views(texts@)),
{
    let ghost want = texts_for(match_views(ms@), added_views(added@), text_views(texts@));
    let mut r: Vec<Option<String>> = Vec::new();
    let mut i: usize = 0;
    while i < ms.len()
        invariant
            want == texts_for(match_views(ms@), added_views(added@), text_views(texts@)),
            texts@.len() == added@.len(),
            i <= ms@.len(),
            r@.len() == i,
            text_views(r@) == want.take(i as int),
        decreases ms@.len() - i,
    {
        assert(match_views(ms@)[i as int] == ms@[i as int]@);
        let t = text_of_file(added, texts, &ms[i].file);
        r.push(t);
        assert(text_views(r@)[i as int] == want[i as int]);
        assert(text_views(r@) =~= want.take(i + 1));
        i = i + 1;
    }
    assert(want.take(ms@.len() as int) =~= want);
    r
}

/// One file's matches per group, files in order of first appearance, each
/// group in ascending line order, with each group's file text.
fn grouped(unique: &Vec<GitMatch>, added: &Vec<AddedLine>, texts: &Vec<Option<String>>) -> (res: (
    Vec<Vec<GitMatch>>,
    Vec<Option<String>>,
))
    requires
        texts@.len() == added@.len(),
    ensures
        group_views(res.0@) == file_groups(match_views(unique@)),
        text_views(res.1@) == group_texts(
            match_views(unique@),
            added_views(added@),
            text_views(texts@),
        ),
        res.1@.len() == res.0@.len(),
        forall|g: int| 0 <= g < res.0@.len() ==> line_ordered(match_views(#[trigger] res.0@[g]@)),
{
    let ghost u = match_views(unique@);
    let (groups, files) = group_by_file(unique);
    let mut gts: Vec<Option<String>> = Vec::new();
    let mut g: usize = 0;
    while g < groups.len()
        invariant
            u == match_views(unique@),
            texts@.len() == added@.len(),
            groups@.len() == file_order(u).len(),
            files@.map_values(|f: String| f@) == file_order(u),
            forall|q: int|
                0 <= q < groups@.len() ==> match_views(#[trigger] groups@[q]@) == sorted_by_line(
                    of_file(u, file_order(u)[q]),
                ),
            g <= groups@.len(),
            gts@.len() == g,
            text_views(gts@) == group_texts(u, added_views(added@), text_views(texts@)).take(g as int),
        decreases groups@.len() - g,
    {
        assert(files@.map_values(|f: String| f@)[g as int] == files@[g as int]@);
        let t = text_of_file(added, texts, &files[g]);
        gts.push(t);
        assert(text_views(gts@)[g as int] == group_texts(u, added_views(added@), text_views(texts@))[g as int]);
        assert(text_views(gts@) =~= group_texts(u, added_views(added@), text_views(texts@)).take(g + 1));
        g = g + 1;
    }
    assert(text_views(gts@) =~= group_texts(u, added_views(added@), text_views(texts@)));
    assert(group_views(groups@) =~= file_groups(u));
    (groups, gts)
}

/// The report of a date query. `added` are the candidate lines of the
/// listing since `since`, and `texts` the present text of each one's file
/// (`None` where it no longer exists).
pub fn since_report(
    pattern: &str,
    since: &str,
    added: &Vec<AddedLine>,
    texts: &Vec<Option<String>>,
    ctx: usize,
) -> (r: String)
    requires
        texts@.len() == added@.len(),
    ensures
        r@ == since_output(pattern@, since@, added_views(added@), text_views(texts@), ctx as int),
{
    let mut out: Vec<char> = Vec::new();
    if added.len() == 0 {
        append_str(&mut out, "No '");
        append_str(&mut out, pattern);
        append_str(&mut out, "' additions found since ");
        append_str(&mut out, since);
        append_str(&mut out, ".\n");
        assert(out@ =~= "No '"@ + pattern@ + "' additions found since "@ + since@ + ".\n"@);
        return string_of(&out);
    }
    let all = resolve_all(added, texts, pattern);
    let unique = dedup_matches(&all);
    if unique.len() == 0 {
        append_str(&mut out, "No '");
        append_str(&mut out, pattern);
        append_str(&mut out, "' found in lines added since ");
        append_str(&mut out, since);
        append_str(&mut out, " (lines may have been removed).\n");
        assert(out@ =~= "No '"@ + pattern@ + "' found in lines added since "@ + since@
            + " (lines may have been removed).\n"@);
        return string_of(&out);
    }
    let sorted = sort_by_date(&unique);
    let ts = texts_of_matches(&sorted, added, texts);
    push_found(&mut out, unique.len());
    let body = render_since(&sorted, &ts, ctx);
    append_str(&mut out, body.as_str());
    string_of(&out)
}

/// The report of a commit-range query. `added` are the candidate lines of the
/// listing of `range`, and `texts` the present text of each one's file
/// (`None` where it no longer exists).
pub fn range_report(
    pattern: &str,
    range: &str,
    added: &Vec<AddedLine>,
    texts: &Vec<Option<String>>,
    ctx: usize,
) -> (r: String)
    requires
        texts@.len() == added@.len(),
    ensures
        r@ == range_output(pattern@, range@, added_views(added@), text_views(texts@), ctx as int),
{
    let mut out: Vec<char> = Vec::new();
    if added.len() == 0 {
        append_str(&mut out, "No '");
        append_str(&mut out, pattern);
        append_str(&mut out, "' additions found in ");
        append_str(&mut out, range);
        append_str(&mut out, ".\n");
        assert(out@ =~= "No '"@ + pattern@ + "' additions found in "@ + range@ + ".\n"@);
        return string_of(&out);
    }
    let all = resolve_all(added, texts, pattern);
    let unique = dedup_matches(&all);
    if unique.len() == 0 {
        append_str(&mut out, "No '");
        append_str(&mut out, pattern);
        append_str(&mut out, "' found in lines added in ");
        append_str(&mut out, range);
        append_str(&mut out, " (lines may have been removed).\n");
        assert(out@ =~= "No '"@ + pattern@ + "' found in lines added in "@ + range@
            + " (lines may have been removed).\n"@);
        return string_of(&out);
    }
    let (groups, gts) = grouped(&unique, added, texts);
    push_found(&mut out, unique.len());
    let body = render_grouped(&groups, &gts, ctx);
    append_str(&mut out, body.as_str());
    string_of(&out)
}

/// A query is repeatable: the same listing, the same present file texts and
/// the same parameters give the same candidates and the same report, for
/// the date query and the commit-range query alike.
pub proof fn lemma_query_repeatable(
    log1: Seq<char>,
    log2: Seq<char>,
    texts1: Seq<Option<Seq<char>>>,
    texts2: Seq<Option<Seq<char>>>,
    pattern: Seq<char>,
    bound: Seq<char>,
    ctx: int,
)
    requires
        log1 == log2,
        texts1 == texts2,
    ensures
        added_lines(log1, pattern) == added_lines(log2, pattern),
        since_output(pattern, bound, added_lines(log1, pattern), texts1, ctx) == since_output(
            pattern,
            bound,
            added_lines(log2, pattern),
            texts2,
            ctx,
        ),
        range_output(pattern, bound, added_lines(log1, pattern), texts1, ctx) == range_output(
            pattern,
            bound,
            added_lines(log2, pattern),
            texts2,
            ctx,
        ),
{
}

} // verus!
