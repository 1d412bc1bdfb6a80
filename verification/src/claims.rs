//! What a clean coverage report says of a file: when a file's
//! claims, in line order, raise no overlap, leave no gap and run past no
//! end, every line of the file is claimed by exactly one annotation.
use crate::coverage::{file_claimed, file_errors, file_gaps, file_warnings, gap_texts, overlap_findings, summary_text, sweep, FindingView};
use crate::schema::LineRange;
use vstd::prelude::*;

verus! {

/// Claim `k` covers `line`.
pub open spec fn claims_line(list: Seq<(LineRange, Seq<char>)>, k: int, line: int) -> bool {
    0 <= k < list.len() && list[k].0.start <= line <= list[k].0.end
}

/// Claims in line order: each starts no earlier than the one before.
pub open spec fn starts_ascend(list: Seq<(LineRange, Seq<char>)>) -> bool {
    forall|i: int, j: int| 0 <= i < j < list.len() ==> list[i].0.start <= list[j].0.start
}

/// Every claim is a well-formed range.
pub open spec fn ranges_wf(list: Seq<(LineRange, Seq<char>)>) -> bool {
    forall|k: int| 0 <= k < list.len() ==> (#[trigger] list[k]).0.wf()
}

/// Claims `j - 1` and `j` share no line.
pub open spec fn apart(list: Seq<(LineRange, Seq<char>)>, j: int) -> bool {
    !(list[j - 1].0.start <= list[j].0.end && list[j].0.start <= list[j - 1].0.end)
}

proof fn lemma_no_overlap_adjacent(source: Seq<char>, file: Seq<char>, list: Seq<(LineRange, Seq<char>)>, k: int)
    requires
        0 <= k <= list.len(),
        overlap_findings(source, file, list, k).len() == 0,
    ensures
        forall|j: int| 1 <= j < k ==> #[trigger] apart(list, j),
    decreases k,
{
    if k > 1 {
        let before = overlap_findings(source, file, list, k - 1);
        let a = list[k - 2];
        let b = list[k - 1];
        if a.0.start <= b.0.end && b.0.start <= a.0.end {
            assert(overlap_findings(source, file, list, k).len() == before.len() + 1);
        }
        lemma_no_overlap_adjacent(source, file, list, k - 1);
    }
}

proof fn lemma_separated(list: Seq<(LineRange, Seq<char>)>, i: int, j: int)
    requires
        ranges_wf(list),
        forall|m: int| 1 <= m < list.len() ==> list[m - 1].0.end < #[trigger] list[m].0.start,
        0 <= i < j < list.len(),
    ensures
        list[i].0.end < list[j].0.start,
    decreases j - i,
{
    if j > i + 1 {
        lemma_separated(list, i, j - 1);
        assert(list[j - 1].0.start <= list[j - 1].0.end);
    }
}

/// Some claim covers `line`.
pub open spec fn claimed(list: Seq<(LineRange, Seq<char>)>, line: int) -> bool {
    exists|k: int| #[trigger] claims_line(list, k, line)
}

/// One of the first `k` claims covers `line`.
pub open spec fn covered_before(list: Seq<(LineRange, Seq<char>)>, k: int, line: int) -> bool {
    exists|j: int| 0 <= j < k && #[trigger] claims_line(list, j, line)
}

proof fn lemma_sweep_covers(list: Seq<(LineRange, Seq<char>)>, n: int, k: int)
    requires
        ranges_wf(list),
        forall|m: int| 1 <= m < list.len() ==> list[m - 1].0.end < #[trigger] list[m].0.start,
        0 <= k <= list.len(),
        sweep(list, n, k).1.len() == 0,
    ensures
        sweep(list, n, k).0 == (if k == 0 { 1 } else { list[k - 1].0.end + 1 }),
        forall|line: int| 1 <= line < sweep(list, n, k).0 ==> #[trigger] covered_before(list, k, line),
    decreases k,
{
    if k > 0 {
        let (c, g, cl) = sweep(list, n, k - 1);
        let r = list[k - 1].0;
        if r.start > c {
            assert(sweep(list, n, k).1 == g.push((c, r.start - 1)));
        }
        lemma_sweep_covers(list, n, k - 1);
        assert(r.start <= r.end);
        if k > 1 {
            assert(list[k - 2].0.end < list[k - 1].0.start);
        }
        assert forall|line: int| 1 <= line < sweep(list, n, k).0 implies #[trigger] covered_before(list, k, line) by {
            if line < c {
                assert(covered_before(list, k - 1, line));
                let j = choose|j: int| 0 <= j < k - 1 && #[trigger] claims_line(list, j, line);
                assert(claims_line(list, j, line));
            } else {
                assert(claims_line(list, k - 1, line));
            }
        }
    }
}

/// What coverage promises of one file: when the file's claims, well-formed and
/// in line order, raise no overlap and leave no gap, every line of the file
/// is claimed by an annotation, and no line by two.
pub proof fn law_a_clean_file_is_claimed_once_per_line(
    source: Seq<char>,
    file: Seq<char>,
    list: Seq<(LineRange, Seq<char>)>,
    n: int,
)
    requires
        ranges_wf(list),
        starts_ascend(list),
        overlap_findings(source, file, list, list.len() as int).len() == 0,
        file_gaps(list, n).len() == 0,
    ensures
        forall|line: int| 1 <= line <= n ==> #[trigger] claimed(list, line),
        forall|line: int, k1: int, k2: int|
            #[trigger] claims_line(list, k1, line) && #[trigger] claims_line(list, k2, line) ==> k1 == k2,
{
    lemma_no_overlap_adjacent(source, file, list, list.len() as int);
    assert forall|m: int| 1 <= m < list.len() implies list[m - 1].0.end < #[trigger] list[m].0.start by {
        assert(list[m - 1].0.start <= list[m].0.start);
        assert(list[m].0.start <= list[m].0.end);
        assert(apart(list, m));
    }
    let (c, g, cl) = sweep(list, n, list.len() as int);
    if c <= n {
        assert(file_gaps(list, n) == g.push((c, n)));
    }
    lemma_sweep_covers(list, n, list.len() as int);
    assert forall|line: int| 1 <= line <= n implies #[trigger] claimed(list, line) by {
        assert(covered_before(list, list.len() as int, line));
        let j = choose|j: int| 0 <= j < list.len() && #[trigger] claims_line(list, j, line);
        assert(claims_line(list, j, line));
    }
    assert forall|line: int, k1: int, k2: int|
        #[trigger] claims_line(list, k1, line) && #[trigger] claims_line(list, k2, line) implies k1 == k2 by {
        if k1 < k2 {
            lemma_separated(list, k1, k2);
        } else if k2 < k1 {
            lemma_separated(list, k2, k1);
        }
    }
}

proof fn lemma_apart_no_overlap(source: Seq<char>, file: Seq<char>, list: Seq<(LineRange, Seq<char>)>, k: int)
    requires
        0 <= k <= list.len(),
        forall|j: int| 1 <= j < list.len() ==> #[trigger] apart(list, j),
    ensures
        overlap_findings(source, file, list, k).len() == 0,
    decreases k,
{
    if k > 1 {
        lemma_apart_no_overlap(source, file, list, k - 1);
        assert(apart(list, k - 1));
    }
}

proof fn lemma_contiguous_sweep(list: Seq<(LineRange, Seq<char>)>, n: int, k: int)
    requires
        ranges_wf(list),
        list.len() > 0 ==> list[0].0.start == 1,
        forall|m: int| 1 <= m < list.len() ==> #[trigger] list[m].0.start == list[m - 1].0.end + 1,
        0 <= k <= list.len(),
    ensures
        sweep(list, n, k).0 == (if k == 0 { 1 } else { list[k - 1].0.end + 1 }),
        sweep(list, n, k).1.len() == 0,
    decreases k,
{
    if k > 0 {
        lemma_contiguous_sweep(list, n, k - 1);
        assert(list[k - 1].0.start <= list[k - 1].0.end);
        if k > 1 {
            assert(list[k - 1].0.start == list[k - 2].0.end + 1);
        }
    }
}

/// The converse of the coverage promise: when every line of a file is
/// claimed by exactly one annotation, and the claims, well-formed and in
/// line order, end within the file, they raise no overlap and leave no
/// gap.
pub proof fn law_a_file_claimed_once_per_line_is_clean(
    source: Seq<char>,
    file: Seq<char>,
    list: Seq<(LineRange, Seq<char>)>,
    n: int,
)
    requires
        ranges_wf(list),
        starts_ascend(list),
        forall|k: int| 0 <= k < list.len() ==> (#[trigger] list[k]).0.end <= n,
        forall|line: int| 1 <= line <= n ==> #[trigger] claimed(list, line),
        forall|line: int, k1: int, k2: int|
            #[trigger] claims_line(list, k1, line) && #[trigger] claims_line(list, k2, line) ==> k1 == k2,
    ensures
        overlap_findings(source, file, list, list.len() as int).len() == 0,
        file_gaps(list, n).len() == 0,
{
    assert forall|m: int| 1 <= m < list.len() implies #[trigger] apart(list, m) by {
        assert(list[m - 1].0.start <= list[m].0.start);
        assert(list[m].0.wf() && list[m - 1].0.wf());
        if !apart(list, m) {
            let line = list[m].0.start as int;
            assert(claims_line(list, m - 1, line));
            assert(claims_line(list, m, line));
        }
    }
    lemma_apart_no_overlap(source, file, list, list.len() as int);
    assert forall|m: int| 1 <= m < list.len() implies list[m - 1].0.end < #[trigger] list[m].0.start by {
        assert(list[m - 1].0.start <= list[m].0.start);
        assert(list[m].0.wf());
        assert(apart(list, m));
    }
    if list.len() > 0 {
        assert(list[0].0.wf());
        assert(claimed(list, 1));
        let j = choose|j: int| #[trigger] claims_line(list, j, 1);
        assert(list[0].0.start <= list[j].0.start);
    }
    assert forall|m: int| 1 <= m < list.len() implies #[trigger] list[m].0.start == list[m - 1].0.end + 1 by {
        let line = list[m - 1].0.end + 1;
        assert(list[m].0.wf() && list[m - 1].0.wf());
        assert(list[m - 1].0.end < list[m].0.start);
        assert(list[m].0.end <= n);
        assert(claimed(list, line));
        let j = choose|j: int| #[trigger] claims_line(list, j, line);
        if j < m - 1 {
            lemma_separated(list, j, m - 1);
            assert(list[m - 1].0.wf());
        } else if j == m - 1 {
        } else {
            assert(list[m].0.start <= list[j].0.start);
        }
    }
    lemma_contiguous_sweep(list, n, list.len() as int);
    let (c, g, cl) = sweep(list, n, list.len() as int);
    if list.len() == 0 {
        if n >= 1 {
            assert(claimed(list, 1));
            let j = choose|j: int| #[trigger] claims_line(list, j, 1);
        }
    } else {
        let last = list.len() - 1;
        let line = list[last].0.end + 1;
        if line <= n {
            assert(list[last].0.wf());
            assert(claimed(list, line));
            let j = choose|j: int| #[trigger] claims_line(list, j, line);
            if j < last {
                lemma_separated(list, j, last);
            }
        }
    }
    assert(file_gaps(list, n) == g);
}

proof fn lemma_sweep_covers_any(list: Seq<(LineRange, Seq<char>)>, n: int, k: int)
    requires
        0 <= k <= list.len(),
        sweep(list, n, k).1.len() == 0,
    ensures
        forall|line: int| 1 <= line < sweep(list, n, k).0 ==> #[trigger] covered_before(list, k, line),
    decreases k,
{
    if k > 0 {
        let (c, g, cl) = sweep(list, n, k - 1);
        let r = list[k - 1].0;
        if r.start > c {
            assert(sweep(list, n, k).1 == g.push((c, r.start - 1)));
        }
        lemma_sweep_covers_any(list, n, k - 1);
        assert forall|line: int| 1 <= line < sweep(list, n, k).0 implies #[trigger] covered_before(list, k, line) by {
            if line < c {
                assert(covered_before(list, k - 1, line));
                let j = choose|j: int| 0 <= j < k - 1 && #[trigger] claims_line(list, j, line);
                assert(claims_line(list, j, line));
            } else {
                assert(claims_line(list, k - 1, line));
            }
        }
    }
}

/// A file that leaves no gap has every line claimed: when the sweep finds no
/// gap, each line `1..=n` lies in some claim.
pub proof fn lemma_no_gap_claims_every_line(list: Seq<(LineRange, Seq<char>)>, n: int, line: int)
    requires
        file_gaps(list, n).len() == 0,
        1 <= line <= n,
    ensures
        claimed(list, line),
{
    let (c, g, cl) = sweep(list, n, list.len() as int);
    if c <= n {
        assert(file_gaps(list, n) == g.push((c, n)));
    }
    lemma_sweep_covers_any(list, n, list.len() as int);
    assert(covered_before(list, list.len() as int, line));
    let j = choose|j: int| 0 <= j < list.len() && #[trigger] claims_line(list, j, line);
    assert(claims_line(list, j, line));
}

/// A hole in a started file is reported: when a file that is not marked
/// complete has at least one claim and some line of it lies in none of
/// them, the file contributes exactly one warning, `Unclaimed`, naming the
/// source and the file, counting its unclaimed lines and summarising its
/// gaps, and marked not complete.
pub proof fn law_a_hole_in_a_started_file_is_warned(
    source: Seq<char>,
    file: Seq<char>,
    list: Seq<(LineRange, Seq<char>)>,
    n: int,
    line: int,
)
    requires
        list.len() > 0,
        1 <= line <= n,
        forall|k: int| !#[trigger] claims_line(list, k, line),
    ensures
        file_warnings(source, file, n, list, false) == seq![
            FindingView::Unclaimed(
                source,
                file,
                (n - file_claimed(list, n)) as u32,
                summary_text(gap_texts(file_gaps(list, n))),
                false,
            ),
        ],
{
    if file_gaps(list, n).len() == 0 {
        lemma_no_gap_claims_every_line(list, n, line);
        let k = choose|k: int| #[trigger] claims_line(list, k, line);
        assert(claims_line(list, k, line));
    }
}

/// A hole in a file marked complete is an error instead: the file then
/// contributes no warning, and its errors end with one `Unclaimed` naming
/// the source and the file, counting its unclaimed lines, summarising its
/// gaps, and marked complete.
pub proof fn law_a_hole_in_a_complete_file_is_an_error(
    source: Seq<char>,
    file: Seq<char>,
    list: Seq<(LineRange, Seq<char>)>,
    n: int,
    line: int,
)
    requires
        1 <= line <= n,
        forall|k: int| !#[trigger] claims_line(list, k, line),
    ensures
        file_warnings(source, file, n, list, true).len() == 0,
        file_errors(source, file, n, list, true).len() > 0,
        file_errors(source, file, n, list, true).last() == FindingView::Unclaimed(
            source,
            file,
            (n - file_claimed(list, n)) as u32,
            summary_text(gap_texts(file_gaps(list, n))),
            true,
        ),
{
    if file_gaps(list, n).len() == 0 {
        lemma_no_gap_claims_every_line(list, n, line);
        let k = choose|k: int| #[trigger] claims_line(list, k, line);
        assert(claims_line(list, k, line));
    }
}

} // verus!
