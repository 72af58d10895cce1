//! Reconciling resolved matches: first-seen deduplication by place, ordering
//! by commit date, context windows and the merging of overlapping windows.
use crate::date::Date;
use crate::matcher::{match_views, GitMatch, MatchView};
use vstd::prelude::*;

verus! {

/// Two matches name the same place: the same file and line number.
pub open spec fn same_place(a: MatchView, b: MatchView) -> bool {
    a.file == b.file && a.line_number == b.line_number
}

/// The match at `k` is the first with its place.
pub open spec fn first_seen(s: Seq<MatchView>, k: int) -> bool {
    forall|j: int| 0 <= j < k ==> !same_place(#[trigger] s[j], s[k])
}

/// The matches of `s` that are the first with their place, in order.
pub open spec fn dedup(s: Seq<MatchView>) -> Seq<MatchView>
    decreases s.len(),
{
    if s.len() == 0 {
        seq![]
    } else if first_seen(s, s.len() - 1) {
        dedup(s.drop_last()).push(s.last())
    } else {
        dedup(s.drop_last())
    }
}

/// A place occurs in `dedup(s)` exactly where it occurs in `s`.
proof fn lemma_dedup_places(s: Seq<MatchView>, x: MatchView)
    ensures
        (exists|j: int| 0 <= j < s.len() && same_place(#[trigger] s[j], x)) <==> (exists|k: int|
            0 <= k < dedup(s).len() && same_place(#[trigger] dedup(s)[k], x)),
    decreases s.len(),
{
    if s.len() > 0 {
        let p = s.drop_last();
        lemma_dedup_places(p, x);
        let d = dedup(s);
        if exists|j: int| 0 <= j < s.len() && same_place(#[trigger] s[j], x) {
            let j = choose|j: int| 0 <= j < s.len() && same_place(#[trigger] s[j], x);
            if j < s.len() - 1 {
                assert(same_place(p[j], x));
                let k = choose|k: int| 0 <= k < dedup(p).len() && same_place(#[trigger] dedup(p)[k], x);
                assert(same_place(d[k], x));
            } else if first_seen(s, s.len() - 1) {
                assert(same_place(d[d.len() - 1], x));
            } else {
                let i = choose|i: int| 0 <= i < s.len() - 1 && same_place(#[trigger] s[i], s[s.len() - 1]);
                assert(same_place(p[i], x));
                let k = choose|k: int| 0 <= k < dedup(p).len() && same_place(#[trigger] dedup(p)[k], x);
                assert(same_place(d[k], x));
            }
        }
        if exists|k: int| 0 <= k < d.len() && same_place(#[trigger] d[k], x) {
            let k = choose|k: int| 0 <= k < d.len() && same_place(#[trigger] d[k], x);
            if k < dedup(p).len() {
                assert(same_place(dedup(p)[k], x));
                let j = choose|j: int| 0 <= j < p.len() && same_place(#[trigger] p[j], x);
                assert(same_place(s[j], x));
            } else {
                assert(same_place(s[s.len() - 1], x));
            }
        }
    }
}

proof fn lemma_first_seen_prefix(s: Seq<MatchView>, k: int)
    requires
        0 <= k < s.len() - 1,
    ensures
        first_seen(s, k) == first_seen(s.drop_last(), k),
{
    let p = s.drop_last();
    assert forall|j: int| 0 <= j < k implies p[j] == s[j] by {}
    assert(p[k] == s[k]);
}

proof fn lemma_dedup_distinct(s: Seq<MatchView>)
    ensures
        forall|i: int, j: int|
            0 <= i < j < dedup(s).len() ==> !same_place(#[trigger] dedup(s)[i], #[trigger] dedup(s)[j]),
    decreases s.len(),
{
    if s.len() > 0 {
        let p = s.drop_last();
        let n = s.len() - 1;
        lemma_dedup_distinct(p);
        let d = dedup(s);
        let dp = dedup(p);
        if first_seen(s, n) {
            lemma_dedup_places(p, s[n]);
            assert forall|i: int, j: int|
                0 <= i < j < d.len() implies !same_place(#[trigger] d[i], #[trigger] d[j]) by {
                if j == d.len() - 1 {
                    assert(d[i] == dp[i]);
                    if same_place(dp[i], s[n]) {
                        let q = choose|q: int| 0 <= q < p.len() && same_place(#[trigger] p[q], s[n]);
                        assert(p[q] == s[q]);
                    }
                } else {
                    assert(d[i] == dp[i] && d[j] == dp[j]);
                }
            }
        }
    }
}

proof fn lemma_dedup_retains(s: Seq<MatchView>)
    ensures
        forall|k: int| 0 <= k < s.len() && first_seen(s, k) ==> dedup(s).contains(#[trigger] s[k]),
    decreases s.len(),
{
    if s.len() > 0 {
        let p = s.drop_last();
        let n = s.len() - 1;
        lemma_dedup_retains(p);
        let d = dedup(s);
        let dp = dedup(p);
        assert forall|k: int| 0 <= k < s.len() && first_seen(s, k) implies d.contains(
            #[trigger] s[k],
        ) by {
            if k < n {
                lemma_first_seen_prefix(s, k);
                assert(p[k] == s[k]);
                assert(dp.contains(p[k]));
                let i = choose|i: int| 0 <= i < dp.len() && dp[i] == p[k];
                assert(d[i] == s[k]);
            } else {
                assert(d[d.len() - 1] == s[k]);
            }
        }
    }
}

/// `x` is the first match of `s` with its place.
pub open spec fn first_seen_in(s: Seq<MatchView>, x: MatchView) -> bool {
    exists|k: int| #![trigger s[k]] 0 <= k < s.len() && first_seen(s, k) && s[k] == x
}

proof fn lemma_dedup_origin(s: Seq<MatchView>, i: int)
    requires
        0 <= i < dedup(s).len(),
    ensures
        first_seen_in(s, dedup(s)[i]),
    decreases s.len(),
{
    let p = s.drop_last();
    let n = s.len() - 1;
    let d = dedup(s);
    let dp = dedup(p);
    if i < dp.len() {
        lemma_dedup_origin(p, i);
        assert(d[i] == dp[i]);
        let k = choose|k: int| #![trigger p[k]] 0 <= k < p.len() && first_seen(p, k) && p[k] == dp[i];
        assert(0 <= k < s.len());
        lemma_first_seen_prefix(s, k);
        assert(s[k] == d[i]);
    } else {
        assert(first_seen(s, n));
        assert(s[n] == d[i]);
    }
}

/// `x` and `y` are first-seen matches of `s`, `x` before `y`.
pub open spec fn seen_in_order(s: Seq<MatchView>, x: MatchView, y: MatchView) -> bool {
    exists|k1: int, k2: int|
        0 <= k1 < k2 < s.len() && first_seen(s, k1) && first_seen(s, k2) && #[trigger] s[k1] == x
            && #[trigger] s[k2] == y
}

proof fn lemma_dedup_order(s: Seq<MatchView>)
    ensures
        forall|i: int, j: int|
            0 <= i < j < dedup(s).len() ==> seen_in_order(s, #[trigger] dedup(s)[i], #[trigger] dedup(s)[j]),
    decreases s.len(),
{
    if s.len() > 0 {
        let p = s.drop_last();
        let n = s.len() - 1;
        lemma_dedup_order(p);
        let d = dedup(s);
        let dp = dedup(p);
        assert forall|i: int, j: int| 0 <= i < j < d.len() implies seen_in_order(
            s,
            #[trigger] d[i],
            #[trigger] d[j],
        ) by {
            if j < dp.len() {
                assert(d[i] == dp[i] && d[j] == dp[j]);
                assert(seen_in_order(p, dp[i], dp[j]));
                let (k1, k2) = choose|k1: int, k2: int|
                    0 <= k1 < k2 < p.len() && first_seen(p, k1) && first_seen(p, k2) && #[trigger] p[k1]
                        == dp[i] && #[trigger] p[k2] == dp[j];
                lemma_first_seen_prefix(s, k1);
                lemma_first_seen_prefix(s, k2);
                assert(s[k1] == d[i] && s[k2] == d[j]);
            } else {
                assert(first_seen(s, n));
                assert(d[j] == s[n]);
                assert(d[i] == dp[i]);
                lemma_dedup_origin(p, i);
                let k1 = choose|k: int| #![trigger p[k]] 0 <= k < p.len() && first_seen(p, k) && p[k] == dp[i];
                lemma_first_seen_prefix(s, k1);
                assert(s[k1] == d[i]);
            }
        }
    }
}

/// Some match of `d` has the place of `x`.
pub open spec fn has_place(d: Seq<MatchView>, x: MatchView) -> bool {
    exists|i: int| 0 <= i < d.len() && same_place(#[trigger] d[i], x)
}

/// Deduplication by place keeps exactly one match of each place, the first
/// one seen: no two retained matches share a place, every place of the input
/// is retained, each first-seen match is retained, and every retained match
/// is a first-seen match of the input, in input order.
pub proof fn lemma_dedup_keeps_first_seen(s: Seq<MatchView>)
    ensures
        forall|i: int, j: int|
            0 <= i < j < dedup(s).len() ==> !same_place(#[trigger] dedup(s)[i], #[trigger] dedup(s)[j]),
        forall|k: int| 0 <= k < s.len() ==> has_place(dedup(s), #[trigger] s[k]),
        forall|k: int| 0 <= k < s.len() && first_seen(s, k) ==> dedup(s).contains(#[trigger] s[k]),
        forall|i: int| 0 <= i < dedup(s).len() ==> first_seen_in(s, #[trigger] dedup(s)[i]),
        forall|i: int, j: int|
            0 <= i < j < dedup(s).len() ==> seen_in_order(s, #[trigger] dedup(s)[i], #[trigger] dedup(s)[j]),
{
    lemma_dedup_order(s);
    assert forall|k: int| 0 <= k < s.len() implies has_place(dedup(s), #[trigger] s[k]) by {
        lemma_dedup_places(s, s[k]);
        assert(same_place(s[k], s[k]));
    }
    lemma_dedup_distinct(s);
    lemma_dedup_retains(s);
    assert forall|i: int| 0 <= i < dedup(s).len() implies first_seen_in(s, #[trigger] dedup(s)[i]) by {
        lemma_dedup_origin(s, i);
    }
}

/// Removes matches whose file and line number an earlier match already has.
pub fn dedup_matches(matches: &Vec<GitMatch>) -> (r: Vec<GitMatch>)
    ensures
        match_views(r@) == dedup(match_views(matches@)),
{
    let ghost s = match_views(matches@);
    let mut r: Vec<GitMatch> = Vec::new();
    let mut i: usize = 0;
    assert(s.take(0) =~= Seq::<MatchView>::empty());
    assert(match_views(r@) =~= Seq::<MatchView>::empty());
    while i < matches.len()
        invariant
            s == match_views(matches@),
            i <= s.len(),
            match_views(r@) == dedup(s.take(i as int)),
        decreases s.len() - i,
    {
        let m = &matches[i];
        let ghost t = s.take(i + 1);
        assert(t.drop_last() =~= s.take(i as int));
        assert(t.last() == m@);
        let mut seen = false;
        let mut k: usize = 0;
        while k < r.len()
            invariant
                k <= r@.len(),
                !seen ==> forall|q: int| 0 <= q < k ==> !same_place(#[trigger] match_views(r@)[q], m@),
                seen ==> exists|q: int| 0 <= q < r@.len() && same_place(#[trigger] match_views(r@)[q], m@),
            decreases r@.len() - k,
        {
            if r[k].line_number == m.line_number && r[k].file == m.file {
                assert(same_place(match_views(r@)[k as int], m@));
                seen = true;
            }
            k = k + 1;
        }
        proof {
            lemma_dedup_places(s.take(i as int), m@);
            if seen {
                let j = choose|j: int| 0 <= j < i && same_place(#[trigger] s.take(i as int)[j], m@);
                assert(t[j] == s.take(i as int)[j]);
                assert(!first_seen(t, i as int));
            } else {
                assert forall|j: int| 0 <= j < i implies !same_place(#[trigger] t[j], t[i as int]) by {
                    assert(t[j] == s.take(i as int)[j]);
                }
            }
        }
        if !seen {
            let ghost before = r@;
            r.push(m.copy());
            assert(match_views(r@) =~= match_views(before).push(m@));
        }
        i = i + 1;
    }
    assert(s.take(s.len() as int) =~= s);
    r
}

/// Where a match with date `d` goes among `s` from `j` on: before the first
/// later-dated match, so that equal dates keep their order.
pub open spec fn insert_pos(s: Seq<MatchView>, d: Date, j: int) -> int
    decreases s.len() - j,
{
    if j < 0 || j >= s.len() || s[j].commit_date.after(d) {
        j
    } else {
        insert_pos(s, d, j + 1)
    }
}

/// `s` in ascending order of commit date; matches of equal date keep their
/// order.
pub open spec fn sorted_by_date(s: Seq<MatchView>) -> Seq<MatchView>
    decreases s.len(),
{
    if s.len() == 0 {
        seq![]
    } else {
        let p = sorted_by_date(s.drop_last());
        p.insert(insert_pos(p, s.last().commit_date, 0), s.last())
    }
}

/// No match is dated after a later one.
pub open spec fn date_ordered(s: Seq<MatchView>) -> bool {
    forall|i: int, j: int|
        0 <= i < j < s.len() ==> !(#[trigger] s[i]).commit_date.after((#[trigger] s[j]).commit_date)
}

/// The matches in ascending order of commit date, equal dates in their
/// input order.
pub fn sort_by_date(matches: &Vec<GitMatch>) -> (r: Vec<GitMatch>)
    ensures
        match_views(r@) == sorted_by_date(match_views(matches@)),
        date_ordered(match_views(r@)),
{
    let ghost s = match_views(matches@);
    let mut r: Vec<GitMatch> = Vec::new();
    let mut i: usize = 0;
    assert(s.take(0) =~= Seq::<MatchView>::empty());
    assert(match_views(r@) =~= Seq::<MatchView>::empty());
    while i < matches.len()
        invariant
            s == match_views(matches@),
            i <= s.len(),
            match_views(r@) == sorted_by_date(s.take(i as int)),
            date_ordered(match_views(r@)),
        decreases s.len() - i,
    {
        let m = matches[i].copy();
        let ghost t = s.take(i + 1);
        let ghost rv = match_views(r@);
        assert(t.drop_last() =~= s.take(i as int));
        assert(t.last() == m@);
        let mut j: usize = 0;
        while j < r.len() && !r[j].commit_date.is_after(&m.commit_date)
            invariant
                rv == match_views(r@),
                j <= rv.len(),
                insert_pos(rv, m.commit_date, 0) == insert_pos(rv, m.commit_date, j as int),
                forall|k: int| 0 <= k < j ==> !(#[trigger] rv[k]).commit_date.after(m.commit_date),
            decreases rv.len() - j,
        {
            j = j + 1;
        }
        let ghost d = m@;
        r.insert(j, m);
        assert(match_views(r@) =~= rv.insert(j as int, d));
        assert forall|a: int, b: int| 0 <= a < b < match_views(r@).len() implies !(
        #[trigger] match_views(r@)[a]).commit_date.after(
            (#[trigger] match_views(r@)[b]).commit_date,
        ) by {
            let w = match_views(r@);
            if b < j {
                assert(w[a] == rv[a] && w[b] == rv[b]);
            } else if b == j {
                assert(w[a] == rv[a]);
            } else if a == j {
                assert(w[b] == rv[b - 1]);
                assert(!rv[j as int].commit_date.after(rv[b - 1].commit_date) || b - 1 == j);
            } else if a < j {
                assert(w[a] == rv[a] && w[b] == rv[b - 1]);
            } else {
                assert(w[a] == rv[a - 1] && w[b] == rv[b - 1]);
            }
        }
        i = i + 1;
    }
    assert(s.take(s.len() as int) =~= s);
    r
}

/// The first line of the context window of `line`.
pub open spec fn window_start(line: int, ctx: int) -> int {
    if line - ctx > 1 {
        line - ctx
    } else {
        1
    }
}

/// The last line of the context window of `line` in a file of `len` lines.
pub open spec fn window_end(line: int, ctx: int, len: int) -> int {
    if line + ctx < len {
        line + ctx
    } else {
        len
    }
}

/// The context window of `line`: `ctx` lines on each side, clamped to the
/// file's lines.
pub fn context_window(line: usize, ctx: usize, len: usize) -> (r: (usize, usize))
    requires
        1 <= line <= len,
    ensures
        r.0 == window_start(line as int, ctx as int),
        r.1 == window_end(line as int, ctx as int, len as int),
        1 <= r.0 <= line <= r.1 <= len,
{
    let start = if line > ctx && line - ctx > 1 {
        line - ctx
    } else {
        1
    };
    let end = if ctx < len - line {
        line + ctx
    } else {
        len
    };
    (start, end)
}

/// Window `j` is neither overlapping nor adjacent to window `j - 1`.
pub open spec fn breaks_at(ws: Seq<(usize, usize)>, j: int) -> bool {
    ws[j].0 > ws[j - 1].1 + 1
}

/// The merged block that window `j` belongs to: windows run together until
/// one starts past the line after its predecessor's end.
pub open spec fn block_index(ws: Seq<(usize, usize)>, j: int) -> int
    decreases j,
{
    if j <= 0 {
        0
    } else {
        block_index(ws, j - 1) + if breaks_at(ws, j) {
            1int
        } else {
            0int
        }
    }
}

/// Window `j` is the first of its block.
pub open spec fn opens_block(ws: Seq<(usize, usize)>, j: int) -> bool {
    j == 0 || breaks_at(ws, j)
}

/// Window `j` is the last of its block.
pub open spec fn closes_block(ws: Seq<(usize, usize)>, j: int) -> bool {
    j == ws.len() - 1 || breaks_at(ws, j + 1)
}

/// Windows are in ascending order of their first and of their last lines, as
/// the windows of ascending line numbers are.
pub open spec fn windows_sorted(ws: Seq<(usize, usize)>) -> bool {
    forall|i: int, j: int|
        0 <= i < j < ws.len() ==> (#[trigger] ws[i]).0 <= (#[trigger] ws[j]).0 && ws[i].1 <= ws[j].1
}

/// Windows that overlap or touch belong to one block.
pub proof fn lemma_touching_windows_share_block(ws: Seq<(usize, usize)>, i: int, j: int)
    requires
        windows_sorted(ws),
        0 <= i < j < ws.len(),
        ws[j].0 <= ws[i].1 + 1,
    ensures
        block_index(ws, i) == block_index(ws, j),
    decreases j - i,
{
    assert(ws[i].1 <= ws[j - 1].1 || i == j - 1);
    assert(!breaks_at(ws, j));
    if i < j - 1 {
        assert(ws[j - 1].0 <= ws[j].0);
        lemma_touching_windows_share_block(ws, i, j - 1);
    }
}

/// Merges sorted windows into blocks. Returns the blocks and, for each
/// window, the index of its block; a block runs from the first line of its
/// first window to the last line of its last window.
pub fn merge_windows(ws: &Vec<(usize, usize)>) -> (r: (Vec<(usize, usize)>, Vec<usize>))
    requires
        windows_sorted(ws@),
    ensures
        r.1@.len() == ws@.len(),
        forall|j: int| 0 <= j < ws@.len() ==> r.1@[j] == block_index(ws@, j),
        r.0@.len() == if ws@.len() == 0 {
            0
        } else {
            block_index(ws@, ws@.len() - 1) + 1
        },
        forall|j: int|
            0 <= j < ws@.len() && opens_block(ws@, j) ==> (#[trigger] r.0@[r.1@[j] as int]).0
                == ws@[j].0,
        forall|j: int|
            0 <= j < ws@.len() && closes_block(ws@, j) ==> (#[trigger] r.0@[r.1@[j] as int]).1
                == ws@[j].1,
        forall|j: int|
            0 <= j < ws@.len() ==> (#[trigger] r.0@[r.1@[j] as int]).0 <= ws@[j].0 && ws@[j].1
                <= r.0@[r.1@[j] as int].1,
        forall|i: int, j: int|
            0 <= i < j < ws@.len() && ws@[j].0 <= ws@[i].1 + 1 ==> #[trigger] r.1@[i]
                == #[trigger] r.1@[j],
{
    let mut blocks: Vec<(usize, usize)> = Vec::new();
    let mut owner: Vec<usize> = Vec::new();
    if ws.len() == 0 {
        return (blocks, owner);
    }
    let mut cs = ws[0].0;
    let mut ce = ws[0].1;
    owner.push(0);
    let mut i: usize = 1;
    while i < ws.len()
        invariant
            windows_sorted(ws@),
            1 <= i <= ws@.len(),
            owner@.len() == i,
            forall|j: int| 0 <= j < i ==> owner@[j] == block_index(ws@, j),
            blocks@.len() == block_index(ws@, i - 1),
            owner@[i - 1] == blocks@.len(),
            forall|j: int| 0 <= j < i ==> owner@[j] <= blocks@.len(),
            forall|j: int| 0 <= j < i - 1 && closes_block(ws@, j) ==> owner@[j] < blocks@.len(),
            ce == ws@[i - 1].1,
            forall|j: int|
                0 <= j < i && opens_block(ws@, j) ==> if owner@[j] < blocks@.len() {
                    blocks@[owner@[j] as int].0 == ws@[j].0
                } else {
                    cs == ws@[j].0
                },
            forall|j: int|
                0 <= j < i - 1 && closes_block(ws@, j) ==> blocks@[owner@[j] as int].1 == ws@[j].1,
            forall|j: int|
                0 <= j < i ==> if owner@[j] < blocks@.len() {
                    blocks@[owner@[j] as int].0 <= ws@[j].0 && ws@[j].1 <= blocks@[owner@[j] as int].1
                } else {
                    owner@[j] == blocks@.len() && cs <= ws@[j].0 && ws@[j].1 <= ce
                },
        decreases ws@.len() - i,
    {
        let (s, e) = ws[i];
        if s > ce && s - ce > 1 {
            blocks.push((cs, ce));
            cs = s;
        }
        ce = e;
        owner.push(blocks.len());
        i = i + 1;
    }
    let ghost b0 = blocks@;
    blocks.push((cs, ce));
    assert forall|a: int, b: int|
        0 <= a < b < ws@.len() && ws@[b].0 <= ws@[a].1 + 1 implies #[trigger] owner@[a]
            == #[trigger] owner@[b] by {
        lemma_touching_windows_share_block(ws@, a, b);
    }
    assert forall|j: int| 0 <= j < ws@.len() && owner@[j] < b0.len() implies blocks@[owner@[j] as int]
        == b0[owner@[j] as int] by {}
    (blocks, owner)
}

/// Where a match with line number `l` goes among `s` from `j` on: before the
/// first match further down, so that equal lines keep their order.
pub open spec fn line_insert_pos(s: Seq<MatchView>, l: int, j: int) -> int
    decreases s.len() - j,
{
    if j < 0 || j >= s.len() || s[j].line_number > l {
        j
    } else {
        line_insert_pos(s, l, j + 1)
    }
}

/// `s` in ascending order of line number; equal lines keep their order.
pub open spec fn sorted_by_line(s: Seq<MatchView>) -> Seq<MatchView>
    decreases s.len(),
{
    if s.len() == 0 {
        seq![]
    } else {
        let p = sorted_by_line(s.drop_last());
        p.insert(line_insert_pos(p, s.last().line_number, 0), s.last())
    }
}

/// Line numbers do not decrease along `s`.
pub open spec fn line_ordered(s: Seq<MatchView>) -> bool {
    forall|i: int, j: int|
        0 <= i < j < s.len() ==> (#[trigger] s[i]).line_number <= (#[trigger] s[j]).line_number
}

/// The matches in ascending order of line number, equal lines in their
/// input order.
pub fn sort_by_line(matches: &Vec<GitMatch>) -> (r: Vec<GitMatch>)
    ensures
        match_views(r@) == sorted_by_line(match_views(matches@)),
        line_ordered(match_views(r@)),
{
    let ghost s = match_views(matches@);
    let mut r: Vec<GitMatch> = Vec::new();
    let mut i: usize = 0;
    assert(s.take(0) =~= Seq::<MatchView>::empty());
    assert(match_views(r@) =~= Seq::<MatchView>::empty());
    while i < matches.len()
        invariant
            s == match_views(matches@),
            i <= s.len(),
            match_views(r@) == sorted_by_line(s.take(i as int)),
            line_ordered(match_views(r@)),
        decreases s.len() - i,
    {
        let m = matches[i].copy();
        let ghost t = s.take(i + 1);
        let ghost rv = match_views(r@);
        assert(t.drop_last() =~= s.take(i as int));
        assert(t.last() == m@);
        let mut j: usize = 0;
        while j < r.len() && r[j].line_number <= m.line_number
            invariant
                rv == match_views(r@),
                j <= rv.len(),
                line_insert_pos(rv, m@.line_number, 0) == line_insert_pos(rv, m@.line_number, j as int),
                forall|k: int| 0 <= k < j ==> (#[trigger] rv[k]).line_number <= m@.line_number,
            decreases rv.len() - j,
        {
            j = j + 1;
        }
        let ghost d = m@;
        r.insert(j, m);
        assert(match_views(r@) =~= rv.insert(j as int, d));
        assert forall|a: int, b: int| 0 <= a < b < match_views(r@).len() implies (
        #[trigger] match_views(r@)[a]).line_number <= (
        #[trigger] match_views(r@)[b]).line_number by {
            let w = match_views(r@);
            if b < j {
                assert(w[a] == rv[a] && w[b] == rv[b]);
            } else if b == j {
                assert(w[a] == rv[a]);
            } else if a == j {
                assert(w[b] == rv[b - 1]);
                assert(rv[j as int].line_number <= rv[b - 1].line_number || b - 1 == j);
            } else if a < j {
                assert(w[a] == rv[a] && w[b] == rv[b - 1]);
            } else {
                assert(w[a] == rv[a - 1] && w[b] == rv[b - 1]);
            }
        }
        i = i + 1;
    }
    assert(s.take(s.len() as int) =~= s);
    r
}

/// The matches of `s` in file `f`, in order.
pub open spec fn of_file(s: Seq<MatchView>, f: Seq<char>) -> Seq<MatchView>
    decreases s.len(),
{
    if s.len() == 0 {
        seq![]
    } else if s.last().file == f {
        of_file(s.drop_last(), f).push(s.last())
    } else {
        of_file(s.drop_last(), f)
    }
}

/// The files of `s`, each once, in order of first appearance.
pub open spec fn file_order(s: Seq<MatchView>) -> Seq<Seq<char>>
    decreases s.len(),
{
    if s.len() == 0 {
        seq![]
    } else if file_order(s.drop_last()).contains(s.last().file) {
        file_order(s.drop_last())
    } else {
        file_order(s.drop_last()).push(s.last().file)
    }
}

/// Groups matches by file, files in order of first appearance, each group in
/// ascending order of line number. Returns the groups and their files.
pub fn group_by_file(matches: &Vec<GitMatch>) -> (res: (Vec<Vec<GitMatch>>, Vec<String>))
    ensures
        ({
            let (r, files) = res;
            &&& files@.map_values(|f: String| f@) == file_order(match_views(matches@))
            &&& r@.len() == file_order(match_views(matches@)).len()
            &&& forall|g: int|
                0 <= g < r@.len() ==> match_views(#[trigger] r@[g]@) == sorted_by_line(
                    of_file(match_views(matches@), file_order(match_views(matches@))[g]),
                )
            &&& forall|g: int| 0 <= g < r@.len() ==> line_ordered(match_views(#[trigger] r@[g]@))
        }),
{
    let ghost s = match_views(matches@);
    let (groups, files) = collect_by_file(matches);
    let mut r: Vec<Vec<GitMatch>> = Vec::new();
    let mut k: usize = 0;
    while k < groups.len()
        invariant
            s == match_views(matches@),
            k <= groups@.len(),
            r@.len() == k,
            files@.len() == groups@.len(),
            files@.map_values(|f: String| f@) == file_order(s),
            forall|g: int|
                0 <= g < groups@.len() ==> match_views(#[trigger] groups@[g]@) == of_file(s, files@[g]@),
            forall|g: int|
                0 <= g < k ==> match_views(#[trigger] r@[g]@) == sorted_by_line(
                    of_file(s, file_order(s)[g]),
                ) && line_ordered(match_views(r@[g]@)),
        decreases groups@.len() - k,
    {
        assert(files@.map_values(|f: String| f@)[k as int] == files@[k as int]@);
        let sorted = sort_by_line(&groups[k]);
        r.push(sorted);
        k = k + 1;
    }
    (r, files)
}

fn collect_by_file(matches: &Vec<GitMatch>) -> (res: (Vec<Vec<GitMatch>>, Vec<String>))
    ensures
        res.1@.len() == res.0@.len(),
        res.1@.map_values(|f: String| f@) == file_order(match_views(matches@)),
        forall|g: int|
            0 <= g < res.0@.len() ==> match_views(#[trigger] res.0@[g]@) == of_file(
                match_views(matches@),
                res.1@[g]@,
            ),
{
    let ghost s = match_views(matches@);
    let mut files: Vec<String> = Vec::new();
    let mut groups: Vec<Vec<GitMatch>> = Vec::new();
    let mut i: usize = 0;
    assert(s.take(0) =~= Seq::<MatchView>::empty());
    while i < matches.len()
        invariant
            s == match_views(matches@),
            i <= s.len(),
            files@.len() == groups@.len(),
            files@.map_values(|f: String| f@) == file_order(s.take(i as int)),
            forall|a: int, b: int|
                0 <= a < b < files@.len() ==> (#[trigger] files@[a])@ != (#[trigger] files@[b])@,
            forall|g: int|
                0 <= g < groups@.len() ==> match_views(#[trigger] groups@[g]@) == of_file(
                    s.take(i as int),
                    files@[g]@,
                ),
        decreases s.len() - i,
    {
        let m = &matches[i];
        let ghost t = s.take(i + 1);
        let ghost p = s.take(i as int);
        let ghost fv = files@.map_values(|f: String| f@);
        assert(t.drop_last() =~= p);
        assert(t.last() == m@);
        let mut g: usize = 0;
        while g < files.len() && files[g] != m.file
            invariant
                g <= files@.len(),
                fv == files@.map_values(|f: String| f@),
                forall|q: int| 0 <= q < g ==> fv[q] != m@.file,
            decreases files@.len() - g,
        {
            g = g + 1;
        }
        if g == files.len() {
            assert(!fv.contains(m@.file));
            files.push(m.file.clone());
            groups.push(Vec::new());
            assert(files@.map_values(|f: String| f@) =~= fv.push(m@.file));
            assert forall|a: int, b: int| 0 <= a < b < files@.len() implies (
            #[trigger] files@[a])@ != (#[trigger] files@[b])@ by {
                assert(fv[a] == files@[a]@);
                if b < files@.len() - 1 {
                    assert(fv[b] == files@[b]@);
                }
            }
            assert(of_file(p, m@.file) =~= Seq::<MatchView>::empty()) by {
                lemma_of_absent_file(p, m@.file);
            }
        } else {
            assert(fv[g as int] == m@.file);
        }
        assert(files@[g as int]@ == m@.file);
        let ghost mid_groups = groups@;
        let mut grp = groups.remove(g);
        grp.push(m.copy());
        groups.insert(g, grp);
        assert forall|q: int| 0 <= q < groups@.len() implies match_views(#[trigger] groups@[q]@)
            == of_file(t, files@[q]@) by {
            if q != g {
                assert(groups@[q] == mid_groups[q]);
                assert(files@[g as int]@ == m@.file);
                if q < fv.len() {
                    assert(fv[q] == files@[q]@);
                }
                assert(files@[q]@ != m@.file);
            } else {
                assert(match_views(groups@[q]@) =~= match_views(mid_groups[q]@).push(m@));
            }
        }
        i = i + 1;
    }
    assert(s.take(s.len() as int) =~= s);
    (groups, files)
}

proof fn lemma_of_absent_file(s: Seq<MatchView>, f: Seq<char>)
    requires
        !file_order(s).contains(f),
    ensures
        of_file(s, f) == Seq::<MatchView>::empty(),
    decreases s.len(),
{
    if s.len() > 0 {
        let p = s.drop_last();
        if !file_order(p).contains(s.last().file) {
            assert(file_order(s) == file_order(p).push(s.last().file));
            assert(file_order(s)[file_order(p).len() as int] == s.last().file);
            if file_order(p).contains(f) {
                let k = choose|k: int| 0 <= k < file_order(p).len() && file_order(p)[k] == f;
                assert(file_order(s)[k] == f);
            }
        }
        lemma_of_absent_file(p, f);
    }
}

} // verus!
