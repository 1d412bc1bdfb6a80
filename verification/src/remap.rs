//! Carrying annotations across a source version bump.
//!
//! Annotations are keyed to `(file, line-range)` in a pinned tree. A remap
//! must preserve *tiling*: ranges are not moved, **boundaries** are. Each
//! annotation's endpoints are looked up in a single boundary map derived from
//! the diff, so two ranges that were adjacent in the old tree stay adjacent in
//! the new one by construction.
use crate::schema::LineRange;
use crate::text::{chars_of, eq_chars, lines, split_lines, views};
use vstd::prelude::*;

verus! {

/// Refuse a diff whose unmatched middle is larger than this many cells.
pub const MAX_DIFF_CELLS: usize = 8_000_000;

/// Why a file could not be aligned or a range could not be carried across.
#[derive(Debug, Clone, Copy, PartialEq, Eq, Structural)]
pub enum RemapError {
    /// The changed region is `old_lines` by `new_lines`, too large to align.
    TooLarge { old_lines: usize, new_lines: usize },
    /// The range runs past the old file.
    PastEnd { start: u32, end: u32, old_len: usize },
}

/// Length of the common prefix of two line sequences.
pub open spec fn common_prefix(a: Seq<Seq<char>>, b: Seq<Seq<char>>) -> nat
    decreases a.len(),
{
    if a.len() > 0 && b.len() > 0 && a[0] == b[0] {
        1 + common_prefix(a.drop_first(), b.drop_first())
    } else {
        0
    }
}

/// Length of the common suffix of two line sequences.
pub open spec fn common_suffix(a: Seq<Seq<char>>, b: Seq<Seq<char>>) -> nat
    decreases a.len(),
{
    if a.len() > 0 && b.len() > 0 && a.last() == b.last() {
        1 + common_suffix(a.drop_last(), b.drop_last())
    } else {
        0
    }
}

/// Lines shared at the top of both files.
pub open spec fn head_of(a: Seq<Seq<char>>, b: Seq<Seq<char>>) -> nat {
    common_prefix(a, b)
}

/// Lines shared at the bottom, once the shared top is set aside.
pub open spec fn tail_of(a: Seq<Seq<char>>, b: Seq<Seq<char>>) -> nat {
    common_suffix(a.skip(head_of(a, b) as int), b.skip(head_of(a, b) as int))
}

/// The changed middle of the old file.
pub open spec fn mid_old(a: Seq<Seq<char>>, b: Seq<Seq<char>>) -> Seq<Seq<char>> {
    a.subrange(head_of(a, b) as int, a.len() - tail_of(a, b))
}

/// The changed middle of the new file.
pub open spec fn mid_new(a: Seq<Seq<char>>, b: Seq<Seq<char>>) -> Seq<Seq<char>> {
    b.subrange(head_of(a, b) as int, b.len() - tail_of(a, b))
}

/// Length of a longest common subsequence of `a[i..]` and `b[j..]`.
pub open spec fn lcs(a: Seq<Seq<char>>, b: Seq<Seq<char>>, i: int, j: int) -> nat
    decreases a.len() - i + b.len() - j,
{
    if i < 0 || j < 0 || i >= a.len() || j >= b.len() {
        0
    } else if a[i] == b[j] {
        1 + lcs(a, b, i + 1, j + 1)
    } else {
        let x = lcs(a, b, i + 1, j);
        let y = lcs(a, b, i, j + 1);
        if x >= y {
            x
        } else {
            y
        }
    }
}

/// The matching read back out of the LCS table from `(i, j)`: a match is
/// taken whenever the lines agree, otherwise the old side advances unless that
/// would lose a match the new side keeps.
pub open spec fn trace(a: Seq<Seq<char>>, b: Seq<Seq<char>>, i: int, j: int) -> Seq<(int, int)>
    decreases a.len() - i + b.len() - j,
{
    if i < 0 || j < 0 || i >= a.len() || j >= b.len() {
        Seq::empty()
    } else if a[i] == b[j] {
        seq![(i, j)] + trace(a, b, i + 1, j + 1)
    } else if lcs(a, b, i + 1, j) >= lcs(a, b, i, j + 1) {
        trace(a, b, i + 1, j)
    } else {
        trace(a, b, i, j + 1)
    }
}

pub open spec fn shift(s: Seq<(int, int)>, h: int) -> Seq<(int, int)> {
    s.map_values(|p: (int, int)| (p.0 + h, p.1 + h))
}

pub open spec fn pairs(v: Seq<(usize, usize)>) -> Seq<(int, int)> {
    v.map_values(|p: (usize, usize)| (p.0 as int, p.1 as int))
}

/// Whether the changed middle is too large to align.
pub open spec fn too_big(a: Seq<Seq<char>>, b: Seq<Seq<char>>) -> bool {
    mid_old(a, b).len() * mid_new(a, b).len() > MAX_DIFF_CELLS
}

/// The line correspondence the remapper works from: the shared top, an LCS
/// matching of the changed middle, and the shared bottom, as
/// `(old_index, new_index)` pairs.
pub open spec fn matches_spec(a: Seq<Seq<char>>, b: Seq<Seq<char>>) -> Seq<(int, int)> {
    let h = head_of(a, b) as int;
    let t = tail_of(a, b) as int;
    Seq::new(h as nat, |k: int| (k, k)) + shift(trace(mid_old(a, b), mid_new(a, b), 0, 0), h)
        + Seq::new(t as nat, |k: int| (a.len() - t + k, b.len() - t + k))
}

proof fn lemma_common_prefix(a: Seq<Seq<char>>, b: Seq<Seq<char>>, h: int)
    requires
        0 <= h <= a.len(),
        h <= b.len(),
        forall|i: int| 0 <= i < h ==> a[i] == b[i],
        h < a.len() && h < b.len() ==> a[h] != b[h],
    ensures
        common_prefix(a, b) == h,
    decreases h,
{
    if h > 0 {
        lemma_common_prefix(a.drop_first(), b.drop_first(), h - 1);
    }
}

/// The `i`-th lines from the end of `a` and `b` agree.
pub open spec fn same_from_end(a: Seq<Seq<char>>, b: Seq<Seq<char>>, i: int) -> bool {
    a[a.len() - 1 - i] == b[b.len() - 1 - i]
}

proof fn lemma_common_suffix(a: Seq<Seq<char>>, b: Seq<Seq<char>>, t: int)
    requires
        0 <= t <= a.len(),
        t <= b.len(),
        forall|i: int| 0 <= i < t ==> #[trigger] same_from_end(a, b, i),
        t < a.len() && t < b.len() ==> a[a.len() - 1 - t] != b[b.len() - 1 - t],
    ensures
        common_suffix(a, b) == t,
    decreases t,
{
    if t > 0 {
        let a2 = a.drop_last();
        let b2 = b.drop_last();
        assert forall|i: int| 0 <= i < t - 1 implies #[trigger] same_from_end(a2, b2, i) by {
            assert(same_from_end(a, b, i + 1));
        }
        assert(same_from_end(a, b, 0));
        if t < a.len() && t < b.len() {
            assert(a2[a2.len() - 1 - (t - 1)] == a[a.len() - 1 - t]);
            assert(b2[b2.len() - 1 - (t - 1)] == b[b.len() - 1 - t]);
        }
        lemma_common_suffix(a2, b2, t - 1);
    } else {
        if a.len() > 0 && b.len() > 0 {
            assert(a.last() == a[a.len() - 1 - 0]);
            assert(b.last() == b[b.len() - 1 - 0]);
        }
    }
}

proof fn lemma_lcs_le(a: Seq<Seq<char>>, b: Seq<Seq<char>>, i: int, j: int)
    requires
        0 <= i <= a.len(),
        0 <= j <= b.len(),
    ensures
        lcs(a, b, i, j) <= a.len() - i,
        lcs(a, b, i, j) <= b.len() - j,
    decreases a.len() - i + b.len() - j,
{
    if i < a.len() && j < b.len() {
        lemma_lcs_le(a, b, i + 1, j + 1);
        lemma_lcs_le(a, b, i + 1, j);
        lemma_lcs_le(a, b, i, j + 1);
    }
}

proof fn lemma_cells(n: int, m: int)
    requires
        0 < n,
        0 <= m,
    ensures
        (n * m > MAX_DIFF_CELLS) == (m > MAX_DIFF_CELLS as int / n),
{
    let q = MAX_DIFF_CELLS as int / n;
    let r = MAX_DIFF_CELLS as int % n;
    assert(MAX_DIFF_CELLS as int == n * q + r && 0 <= r < n) by (nonlinear_arith)
        requires
            0 < n,
            q == MAX_DIFF_CELLS as int / n,
            r == MAX_DIFF_CELLS as int % n,
    ;
    if m > q {
        assert(n * m >= n * (q + 1)) by (nonlinear_arith)
            requires
                m >= q + 1,
                n > 0,
        ;
        assert(n * (q + 1) == n * q + n) by (nonlinear_arith);
    } else {
        assert(n * m <= n * q) by (nonlinear_arith)
            requires
                m <= q,
                n > 0,
        ;
    }
}

proof fn lemma_pairs_push(v: Seq<(usize, usize)>, p: (usize, usize))
    ensures
        pairs(v.push(p)) == pairs(v).push((p.0 as int, p.1 as int)),
{
    assert(pairs(v.push(p)) =~= pairs(v).push((p.0 as int, p.1 as int)));
}

/// `m` pairs equal lines of `a` and `b`, and is strictly increasing on both
/// sides: a matching a diff can be read from.
pub open spec fn valid_matching(m: Seq<(int, int)>, a: Seq<Seq<char>>, b: Seq<Seq<char>>) -> bool {
    &&& forall|k: int|
        0 <= k < m.len() ==> 0 <= #[trigger] m[k].0 < a.len() && 0 <= m[k].1 < b.len() && a[m[k].0]
            == b[m[k].1]
    &&& forall|k1: int, k2: int|
        0 <= k1 < k2 < m.len() ==> #[trigger] m[k1].0 < #[trigger] m[k2].0 && m[k1].1 < m[k2].1
}

proof fn lemma_trace_valid(a: Seq<Seq<char>>, b: Seq<Seq<char>>, i: int, j: int)
    requires
        0 <= i <= a.len(),
        0 <= j <= b.len(),
    ensures
        valid_matching(trace(a, b, i, j), a, b),
        forall|k: int|
            0 <= k < trace(a, b, i, j).len() ==> i <= #[trigger] trace(a, b, i, j)[k].0 && j
                <= trace(a, b, i, j)[k].1,
        trace(a, b, i, j).len() == lcs(a, b, i, j),
    decreases a.len() - i + b.len() - j,
{
    if i < a.len() && j < b.len() {
        if a[i] == b[j] {
            lemma_trace_valid(a, b, i + 1, j + 1);
            let t = trace(a, b, i + 1, j + 1);
            let s = trace(a, b, i, j);
            assert(s == seq![(i, j)] + t);
            assert forall|k: int| 0 <= k < s.len() implies i <= #[trigger] s[k].0 && j <= s[k].1 by {
                if k > 0 {
                    assert(s[k] == t[k - 1]);
                }
            }
            assert forall|k1: int, k2: int| 0 <= k1 < k2 < s.len() implies #[trigger] s[k1].0
                < #[trigger] s[k2].0 && s[k1].1 < s[k2].1 by {
                assert(s[k2] == t[k2 - 1]);
                if k1 > 0 {
                    assert(s[k1] == t[k1 - 1]);
                }
            }
            assert forall|k: int| 0 <= k < s.len() implies 0 <= #[trigger] s[k].0 < a.len() && 0
                <= s[k].1 < b.len() && a[s[k].0] == b[s[k].1] by {
                if k > 0 {
                    assert(s[k] == t[k - 1]);
                }
            }
        } else {
            lemma_trace_valid(a, b, i + 1, j);
            lemma_trace_valid(a, b, i, j + 1);
        }
    }
}

proof fn lemma_prefix_equal(a: Seq<Seq<char>>, b: Seq<Seq<char>>)
    ensures
        common_prefix(a, b) <= a.len(),
        common_prefix(a, b) <= b.len(),
        forall|k: int| 0 <= k < common_prefix(a, b) ==> a[k] == b[k],
    decreases a.len(),
{
    if a.len() > 0 && b.len() > 0 && a[0] == b[0] {
        lemma_prefix_equal(a.drop_first(), b.drop_first());
        assert forall|k: int| 0 <= k < common_prefix(a, b) implies a[k] == b[k] by {
            if k > 0 {
                assert(a[k] == a.drop_first()[k - 1]);
                assert(b[k] == b.drop_first()[k - 1]);
            }
        }
    }
}

proof fn lemma_suffix_equal(a: Seq<Seq<char>>, b: Seq<Seq<char>>)
    ensures
        common_suffix(a, b) <= a.len(),
        common_suffix(a, b) <= b.len(),
        forall|k: int| 0 <= k < common_suffix(a, b) ==> #[trigger] same_from_end(a, b, k),
    decreases a.len(),
{
    if a.len() > 0 && b.len() > 0 && a.last() == b.last() {
        let a2 = a.drop_last();
        let b2 = b.drop_last();
        lemma_suffix_equal(a2, b2);
        assert forall|k: int| 0 <= k < common_suffix(a, b) implies #[trigger] same_from_end(
            a,
            b,
            k,
        ) by {
            if k > 0 {
                assert(same_from_end(a2, b2, k - 1));
            }
        }
    }
}

/// The correspondence the remapper reads is a genuine matching, and its
/// middle is as long as a longest common subsequence of the changed region.
pub proof fn lemma_matches_valid(a: Seq<Seq<char>>, b: Seq<Seq<char>>)
    ensures
        valid_matching(matches_spec(a, b), a, b),
        head_of(a, b) + tail_of(a, b) <= a.len(),
        head_of(a, b) + tail_of(a, b) <= b.len(),
        matches_spec(a, b).len() == head_of(a, b) + lcs(mid_old(a, b), mid_new(a, b), 0, 0)
            + tail_of(a, b),
{
    let h = head_of(a, b) as int;
    lemma_prefix_equal(a, b);
    let sa = a.skip(h);
    let sb = b.skip(h);
    lemma_suffix_equal(sa, sb);
    let t = tail_of(a, b) as int;
    let ma = mid_old(a, b);
    let mb = mid_new(a, b);
    lemma_trace_valid(ma, mb, 0, 0);
    let p1 = Seq::new(h as nat, |k: int| (k, k));
    let tr = trace(ma, mb, 0, 0);
    let p2 = shift(tr, h);
    let p3 = Seq::new(t as nat, |k: int| (a.len() - t + k, b.len() - t + k));
    let m = matches_spec(a, b);
    assert(m == p1 + p2 + p3);
    assert forall|k: int| 0 <= k < m.len() implies 0 <= #[trigger] m[k].0 < a.len() && 0
        <= m[k].1 < b.len() && a[m[k].0] == b[m[k].1] && (k < h ==> m[k].0 < h && m[k].1 < h) && (h
        <= k < h + p2.len() ==> h <= m[k].0 < a.len() - t && h <= m[k].1 < b.len() - t) && (h
        + p2.len() <= k ==> a.len() - t <= m[k].0 && b.len() - t <= m[k].1) by {
        if k < h {
            assert(m[k] == p1[k]);
        } else if k < h + p2.len() {
            assert(m[k] == p2[k - h]);
            assert(p2[k - h] == (tr[k - h].0 + h, tr[k - h].1 + h));
            assert(ma[tr[k - h].0] == a[tr[k - h].0 + h]);
            assert(mb[tr[k - h].1] == b[tr[k - h].1 + h]);
        } else {
            let x = k - h - p2.len();
            assert(m[k] == p3[x]);
            assert(same_from_end(sa, sb, t - 1 - x));
        }
    }
    assert forall|k1: int, k2: int| 0 <= k1 < k2 < m.len() implies #[trigger] m[k1].0
        < #[trigger] m[k2].0 && m[k1].1 < m[k2].1 by {
        if h <= k1 < h + p2.len() && k2 < h + p2.len() {
            assert(m[k1] == p2[k1 - h]);
            assert(m[k2] == p2[k2 - h]);
            assert(tr[k1 - h].0 < tr[k2 - h].0);
        } else if k1 < h && k2 < h {
            assert(m[k1] == p1[k1]);
            assert(m[k2] == p1[k2]);
        } else if h + p2.len() <= k1 {
            assert(m[k1] == p3[k1 - h - p2.len()]);
            assert(m[k2] == p3[k2 - h - p2.len()]);
        }
    }
}

/// A row of `len` zeros.
fn zeros(len: usize) -> (v: Vec<u32>)
    ensures
        v@.len() == len,
        forall|k: int| 0 <= k < len ==> v@[k] == 0,
{
    let mut v: Vec<u32> = Vec::new();
    let mut i: usize = 0;
    while i < len
        invariant
            i <= len,
            v@.len() == i,
            forall|k: int| 0 <= k < i ==> v@[k] == 0,
        decreases len - i,
    {
        v.push(0);
        i += 1;
    }
    v
}

/// Matched line pairs between two files, as `(old_index, new_index)`,
/// strictly increasing in both. The common prefix and suffix are trimmed
/// before the quadratic part runs.
#[verifier::spinoff_prover]
fn lcs_matches(old: &Vec<Vec<char>>, new: &Vec<Vec<char>>) -> (r: Result<
    Vec<(usize, usize)>,
    RemapError,
>)
    ensures
        r is Err <==> too_big(views(old@), views(new@)),
        r matches Err(e) ==> e matches RemapError::TooLarge { .. },
        r matches Ok(m) ==> pairs(m@) == matches_spec(views(old@), views(new@)),
{
    let ghost a = views(old@);
    let ghost b = views(new@);
    let mut head: usize = 0;
    while head < old.len() && head < new.len() && eq_chars(&old[head], &new[head])
        invariant
            a == views(old@),
            b == views(new@),
            head <= old@.len(),
            head <= new@.len(),
            forall|i: int| 0 <= i < head ==> a[i] == b[i],
        decreases old@.len() - head,
    {
        head += 1;
    }
    proof {
        lemma_common_prefix(a, b, head as int);
    }
    let mut tail: usize = 0;
    while tail < old.len() - head && tail < new.len() - head && eq_chars(
        &old[old.len() - 1 - tail],
        &new[new.len() - 1 - tail],
    )
        invariant
            a == views(old@),
            b == views(new@),
            head <= old@.len(),
            head <= new@.len(),
            tail <= old@.len() - head,
            tail <= new@.len() - head,
            forall|i: int| 0 <= i < tail ==> #[trigger] same_from_end(a, b, i),
        decreases old@.len() - head - tail,
    {
        tail += 1;
    }
    proof {
        let sa = a.skip(head as int);
        let sb = b.skip(head as int);
        assert forall|i: int| 0 <= i < tail implies #[trigger] same_from_end(sa, sb, i) by {
            assert(same_from_end(a, b, i));
        }
        lemma_common_suffix(sa, sb, tail as int);
    }
    let ghost ma = mid_old(a, b);
    let ghost mb = mid_new(a, b);
    let old_len = old.len();
    let new_len = new.len();
    let n = old_len - tail - head;
    let m = new_len - tail - head;
    assert(ma.len() == n && mb.len() == m);
    if n > 0 {
        proof {
            lemma_cells(n as int, m as int);
        }
        if m > MAX_DIFF_CELLS / n {
            return Err(RemapError::TooLarge { old_lines: n, new_lines: m });
        }
    }
    assert(!too_big(a, b)) by {
        if n == 0 {
            assert(ma.len() * mb.len() == 0);
        }
    }
    let mut out: Vec<(usize, usize)> = Vec::new();
    let mut k: usize = 0;
    while k < head
        invariant
            k <= head,
            pairs(out@) == Seq::new(k as nat, |x: int| (x, x)),
        decreases head - k,
    {
        proof {
            lemma_pairs_push(out@, (k, k));
        }
        out.push((k, k));
        k += 1;
        assert(pairs(out@) =~= Seq::new(k as nat, |x: int| (x, x)));
    }
    let ghost pre = pairs(out@);
    if n > 0 && m > 0 {
        proof {
            assert(m <= MAX_DIFF_CELLS);
            assert(n <= MAX_DIFF_CELLS) by (nonlinear_arith)
                requires
                    n * m <= MAX_DIFF_CELLS,
                    m >= 1,
            ;
        }
        let mut rows: Vec<Vec<u32>> = Vec::new();
        rows.push(zeros(m + 1));
        let mut i = n;
        while i > 0
            invariant
                a == views(old@),
                b == views(new@),
                ma == mid_old(a, b),
                mb == mid_new(a, b),
                ma.len() == n,
                mb.len() == m,
                head == head_of(a, b),
                tail == tail_of(a, b),
                0 < n <= MAX_DIFF_CELLS,
                0 < m <= MAX_DIFF_CELLS,
                head + n + tail == old@.len(),
                head + m + tail == new@.len(),
                old_len == old@.len(),
                new_len == new@.len(),
                i <= n,
                rows@.len() == n - i + 1,
                forall|r: int|
                    0 <= r < rows@.len() ==> (#[trigger] rows@[r])@.len() == m + 1 && forall|
                        jj: int,
                    | 0 <= jj <= m ==> rows@[r]@[jj] == lcs(ma, mb, n - r, jj),
            decreases i,
        {
            i -= 1;
            let mut cur = zeros(m + 1);
            let last = rows.len() - 1;
            assert(rows@[last as int]@.len() == m + 1);
            proof {
                lemma_lcs_le(ma, mb, i as int, m as int);
            }
            let mut j = m;
            while j > 0
                invariant
                    a == views(old@),
                    b == views(new@),
                    ma == mid_old(a, b),
                    mb == mid_new(a, b),
                    ma.len() == n,
                    mb.len() == m,
                    head == head_of(a, b),
                    tail == tail_of(a, b),
                    0 < n <= MAX_DIFF_CELLS,
                    0 < m <= MAX_DIFF_CELLS,
                    head + n + tail == old@.len(),
                    head + m + tail == new@.len(),
                    old_len == old@.len(),
                    new_len == new@.len(),
                    i < n,
                    last == n - i - 1,
                    rows@.len() == n - i,
                    forall|r: int|
                        0 <= r < rows@.len() ==> (#[trigger] rows@[r])@.len() == m + 1 && forall|
                            jj: int,
                        | 0 <= jj <= m ==> rows@[r]@[jj] == lcs(ma, mb, n - r, jj),
                    j <= m,
                    cur@.len() == m + 1,
                    forall|jj: int| j <= jj <= m ==> cur@[jj] == lcs(ma, mb, i as int, jj),
                decreases j,
            {
                j -= 1;
                assert(ma[i as int] == old@[head + i]@);
                assert(mb[j as int] == new@[head + j]@);
                proof {
                    lemma_lcs_le(ma, mb, i + 1, j + 1);
                }
                let v = if eq_chars(&old[head + i], &new[head + j]) {
                    rows[last][j + 1] + 1
                } else {
                    let down = rows[last][j];
                    let right = cur[j + 1];
                    if down >= right {
                        down
                    } else {
                        right
                    }
                };
                cur.set(j, v);
            }
            rows.push(cur);
        }
        let ghost rows_v = rows@;
        let mut i: usize = 0;
        let mut j: usize = 0;
        while i < n && j < m
            invariant
                a == views(old@),
                b == views(new@),
                ma == mid_old(a, b),
                mb == mid_new(a, b),
                ma.len() == n,
                mb.len() == m,
                head == head_of(a, b),
                tail == tail_of(a, b),
                head + n + tail == old@.len(),
                head + m + tail == new@.len(),
                old_len == old@.len(),
                new_len == new@.len(),
                rows@ == rows_v,
                rows@.len() == n + 1,
                forall|r: int|
                    0 <= r < rows@.len() ==> (#[trigger] rows@[r])@.len() == m + 1 && forall|
                        jj: int,
                    | 0 <= jj <= m ==> rows@[r]@[jj] == lcs(ma, mb, n - r, jj),
                i <= n,
                j <= m,
                pairs(out@) + shift(trace(ma, mb, i as int, j as int), head as int) == pre
                    + shift(trace(ma, mb, 0, 0), head as int),
            decreases n - i + m - j,
        {
            let ghost before = pairs(out@);
            let ghost rest = trace(ma, mb, i as int, j as int);
            proof {
                lemma_pairs_push(out@, ((head + i) as usize, (head + j) as usize));
            }
            assert(ma[i as int] == old@[head + i]@);
            assert(mb[j as int] == new@[head + j]@);
            if eq_chars(&old[head + i], &new[head + j]) {
                out.push((head + i, head + j));
                proof {
                    assert(rest == seq![(i as int, j as int)] + trace(
                        ma,
                        mb,
                        i + 1,
                        j + 1,
                    ));
                    assert(pairs(out@) =~= before.push((head + i, head + j)));
                    assert(shift(rest, head as int) =~= seq![
                        ((head + i) as int, (head + j) as int),
                    ] + shift(trace(ma, mb, i + 1, j + 1), head as int));
                    assert(pairs(out@) + shift(trace(ma, mb, i + 1, j + 1), head as int)
                        =~= before + shift(rest, head as int));
                }
                i += 1;
                j += 1;
            } else if rows[n - i - 1][j] >= rows[n - i][j + 1] {
                i += 1;
            } else {
                j += 1;
            }
        }
        assert(trace(ma, mb, i as int, j as int) =~= Seq::<(int, int)>::empty());
        assert(shift(Seq::<(int, int)>::empty(), head as int) =~= Seq::<(int, int)>::empty());
        assert(pairs(out@) =~= pre + shift(trace(ma, mb, 0, 0), head as int));
    } else {
        assert(trace(ma, mb, 0, 0) =~= Seq::<(int, int)>::empty());
        assert(pairs(out@) =~= pre + shift(trace(ma, mb, 0, 0), head as int));
    }
    let ghost mid = pairs(out@);
    let mut t: usize = 0;
    while t < tail
        invariant
            t <= tail,
            head + n + tail == old@.len(),
            head + m + tail == new@.len(),
            old_len == old@.len(),
            new_len == new@.len(),
            pairs(out@) == mid + Seq::new(
                t as nat,
                |x: int| (old@.len() - tail + x, new@.len() - tail + x),
            ),
        decreases tail - t,
    {
        proof {
            lemma_pairs_push(out@, ((old@.len() - tail + t) as usize, (new@.len() - tail + t) as usize));
        }
        out.push((old.len() - tail + t, new.len() - tail + t));
        t += 1;
        assert(pairs(out@) =~= mid + Seq::new(
            t as nat,
            |x: int| (old@.len() - tail + x, new@.len() - tail + x),
        ));
    }
    assert(!too_big(views(old@), views(new@)));
    Ok(out)
}


/// What happened to one annotation's span.
#[derive(Debug, Clone, Copy, PartialEq, Eq, Structural)]
pub enum Change {
    /// Same lines, same place. Nothing to review.
    Unmoved,
    /// Same lines, shifted by edits elsewhere in the file.
    Shifted,
    /// Lines inside the span were added, removed, or rewritten.
    Edited { deleted: u32, inserted: u32 },
    /// Every line the annotation claimed is gone.
    Deleted,
}

impl Change {
    /// Whether a human has to look at this one before the bump can land.
    pub fn needs_review(&self) -> (b: bool)
        ensures
            b == (*self is Edited || *self is Deleted),
    {
        match self {
            Change::Edited { .. } | Change::Deleted => true,
            _ => false,
        }
    }
}

/// One annotation's span, carried across.
#[derive(Debug, Clone, Copy, PartialEq, Eq, Structural)]
pub struct Remapped {
    /// The new span, or `None` when every line it claimed was deleted.
    pub range: Option<LineRange>,
    pub change: Change,
}

/// A line-level correspondence between one file's old and new contents.
#[derive(Debug, Clone)]
pub struct FileMap {
    old_len: usize,
    new_len: usize,
    /// `boundaries[b]` is the new-side boundary corresponding to old-side
    /// boundary `b`, which sits immediately before line `b` (0-based).
    boundaries: Vec<usize>,
    old_matched: Vec<bool>,
    new_matched: Vec<bool>,
}

/// How many leading entries of `m` lie before old line `b`.
pub open spec fn prefix_below(m: Seq<(int, int)>, b: int) -> nat
    decreases m.len(),
{
    if m.len() > 0 && m[0].0 < b {
        1 + prefix_below(m.drop_first(), b)
    } else {
        0
    }
}

/// Which of `n` lines the matching touches on the old side.
pub open spec fn matched_old(m: Seq<(int, int)>, n: nat) -> Seq<bool> {
    Seq::new(n, |i: int| exists|k: int| 0 <= k < m.len() && #[trigger] m[k].0 == i)
}

/// Which of `n` lines the matching touches on the new side.
pub open spec fn matched_new(m: Seq<(int, int)>, n: nat) -> Seq<bool> {
    Seq::new(n, |i: int| exists|k: int| 0 <= k < m.len() && #[trigger] m[k].1 == i)
}

/// The new-side position of old boundary `b`. Insertions between two
/// surviving lines go after the boundary, unless deleted lines sit against
/// them on the old side only: then they are that side's replacement text.
/// Both ends are pinned, so lines gained at the top or bottom are claimed.
pub open spec fn boundary(m: Seq<(int, int)>, n: nat, nn: nat, b: int) -> int {
    if b == n {
        nn as int
    } else if b == 0 {
        0
    } else {
        let k = prefix_below(m, b) as int;
        let lo = if k == 0 {
            0
        } else {
            m[k - 1].1 + 1
        };
        let hi = if k < m.len() {
            m[k].1
        } else {
            nn as int
        };
        let deleted_before = !matched_old(m, n)[b - 1];
        let deleted_after = !matched_old(m, n)[b];
        if deleted_before && !deleted_after {
            hi
        } else {
            lo
        }
    }
}

pub open spec fn boundaries_spec(m: Seq<(int, int)>, n: nat, nn: nat) -> Seq<int> {
    Seq::new(n + 1, |b: int| boundary(m, n, nn, b))
}

/// Number of `false` entries of `s` in `[lo, hi)`.
pub open spec fn count_false(s: Seq<bool>, lo: int, hi: int) -> nat
    decreases hi - lo,
{
    if hi <= lo {
        0
    } else {
        count_false(s, lo, hi - 1) + if s[hi - 1] {
            0nat
        } else {
            1nat
        }
    }
}

proof fn lemma_prefix_below(m: Seq<(int, int)>, b: int, at: int)
    requires
        0 <= at <= m.len(),
        forall|k: int| 0 <= k < at ==> m[k].0 < b,
        at < m.len() ==> m[at].0 >= b,
    ensures
        prefix_below(m, b) == at,
    decreases at,
{
    if at > 0 {
        lemma_prefix_below(m.drop_first(), b, at - 1);
    }
}

proof fn lemma_count_false_le(s: Seq<bool>, lo: int, hi: int)
    requires
        lo <= hi,
    ensures
        count_false(s, lo, hi) <= hi - lo,
    decreases hi - lo,
{
    if hi > lo {
        lemma_count_false_le(s, lo, hi - 1);
    }
}

/// Counts the `false` entries of `s` in `[lo, hi)`.
fn count_unmatched(s: &Vec<bool>, lo: usize, hi: usize) -> (n: usize)
    requires
        lo <= hi <= s@.len(),
    ensures
        n == count_false(s@, lo as int, hi as int),
{
    let mut n: usize = 0;
    let mut i = lo;
    while i < hi
        invariant
            lo <= i <= hi <= s@.len(),
            n == count_false(s@, lo as int, i as int),
            n <= i - lo,
        decreases hi - i,
    {
        if !s[i] {
            n += 1;
        }
        i += 1;
    }
    n
}

/// Which of `len` positions appear as a side of some pair: `old_side`
/// selects the first component, otherwise the second.
fn mark_matched(m: &Vec<(usize, usize)>, len: usize, old_side: bool) -> (v: Vec<bool>)
    requires
        forall|k: int|
            0 <= k < m@.len() ==> (if old_side {
                (#[trigger] m@[k]).0
            } else {
                m@[k].1
            }) < len,
    ensures
        old_side ==> v@ == matched_old(pairs(m@), len as nat),
        !old_side ==> v@ == matched_new(pairs(m@), len as nat),
{
    let mut v: Vec<bool> = Vec::new();
    let mut i: usize = 0;
    while i < len
        invariant
            i <= len,
            v@.len() == i,
            forall|x: int| 0 <= x < i ==> !v@[x],
        decreases len - i,
    {
        v.push(false);
        i += 1;
    }
    let ghost pm = pairs(m@);
    let mut k: usize = 0;
    while k < m.len()
        invariant
            pm == pairs(m@),
            forall|q: int|
                0 <= q < m@.len() ==> (if old_side {
                    (#[trigger] m@[q]).0
                } else {
                    m@[q].1
                }) < len,
            k <= m@.len(),
            v@.len() == len,
            forall|x: int|
                0 <= x < len ==> v@[x] == exists|q: int|
                    0 <= q < k && (if old_side {
                        #[trigger] pm[q].0
                    } else {
                        pm[q].1
                    }) == x,
        decreases m@.len() - k,
    {
        let idx = if old_side {
            m[k].0
        } else {
            m[k].1
        };
        v.set(idx, true);
        proof {
            assert forall|x: int| 0 <= x < len implies v@[x] == exists|q: int|
                0 <= q < k + 1 && (if old_side {
                    #[trigger] pm[q].0
                } else {
                    pm[q].1
                }) == x by {
                if x == idx {
                    assert(if old_side {
                        pm[k as int].0
                    } else {
                        pm[k as int].1
                    } == x);
                }
            }
        }
        k += 1;
    }
    proof {
        if old_side {
            assert(v@ =~= matched_old(pm, len as nat));
        } else {
            assert(v@ =~= matched_new(pm, len as nat));
        }
    }
    v
}

impl FileMap {
    pub closed spec fn spec_old_len(&self) -> nat {
        self.old_len as nat
    }

    pub closed spec fn spec_new_len(&self) -> nat {
        self.new_len as nat
    }

    /// The boundary map, as integers.
    pub closed spec fn spec_boundaries(&self) -> Seq<int> {
        self.boundaries@.map_values(|x: usize| x as int)
    }

    pub closed spec fn spec_old_matched(&self) -> Seq<bool> {
        self.old_matched@
    }

    pub closed spec fn spec_new_matched(&self) -> Seq<bool> {
        self.new_matched@
    }

    /// This map is the alignment of `a` with `b`.
    pub open spec fn aligns(&self, a: Seq<Seq<char>>, b: Seq<Seq<char>>) -> bool {
        let m = matches_spec(a, b);
        &&& self.spec_old_len() == a.len()
        &&& self.spec_new_len() == b.len()
        &&& self.spec_boundaries() == boundaries_spec(m, a.len(), b.len())
        &&& self.spec_old_matched() == matched_old(m, a.len())
        &&& self.spec_new_matched() == matched_new(m, b.len())
    }

    /// The shape every map has: one boundary per old boundary, in order,
    /// within the new file, pinned to its end.
    pub open spec fn wf(&self) -> bool {
        let bs = self.spec_boundaries();
        &&& bs.len() == self.spec_old_len() + 1
        &&& self.spec_old_matched().len() == self.spec_old_len()
        &&& self.spec_new_matched().len() == self.spec_new_len()
        &&& bs[self.spec_old_len() as int] == self.spec_new_len()
        &&& self.spec_old_len() > 0 ==> bs[0] == 0
        &&& forall|x: int, y: int| 0 <= x <= y <= self.spec_old_len() ==> 0 <= #[trigger] bs[x] <= #[trigger] bs[y] <= self.spec_new_len()
    }

    /// Where `range` lands: `None` when nothing of it survives.
    pub open spec fn spec_span(&self, range: LineRange) -> Option<LineRange> {
        let lo = self.spec_boundaries()[range.start - 1];
        let hi = self.spec_boundaries()[range.end as int];
        if lo >= hi {
            None
        } else {
            Some(LineRange { start: (lo + 1) as u32, end: hi as u32 })
        }
    }

    /// What `remap` answers for `range`.
    pub open spec fn spec_remap(&self, range: LineRange) -> Result<Remapped, RemapError> {
        if range.end > self.spec_old_len() {
            Err(
                RemapError::PastEnd {
                    start: range.start,
                    end: range.end,
                    old_len: self.spec_old_len() as usize,
                },
            )
        } else {
            let lo = self.spec_boundaries()[range.start - 1];
            let hi = self.spec_boundaries()[range.end as int];
            if lo >= hi {
                Ok(Remapped { range: None, change: Change::Deleted })
            } else {
                let deleted = count_false(self.spec_old_matched(), range.start - 1, range.end as int);
                let inserted = count_false(self.spec_new_matched(), lo, hi);
                let change = if deleted > 0 || inserted > 0 {
                    Change::Edited { deleted: deleted as u32, inserted: inserted as u32 }
                } else if lo + 1 == range.start {
                    Change::Unmoved
                } else {
                    Change::Shifted
                };
                Ok(Remapped { range: self.spec_span(range), change })
            }
        }
    }

    /// Whether the file did not change at all.
    pub open spec fn spec_is_identity(&self) -> bool {
        self.spec_old_len() == self.spec_new_len() && forall|i: int|
            0 <= i < self.spec_old_len() ==> self.spec_old_matched()[i]
    }

    /// Aligns two versions of one file.
    pub fn build(old: &str, new: &str) -> (r: Result<FileMap, RemapError>)
        ensures
            r is Err <==> too_big(lines(old@), lines(new@)),
            r matches Err(e) ==> e is TooLarge,
            r matches Ok(f) ==> f.wf() && f.aligns(lines(old@), lines(new@)),
    {
        let old_chars = chars_of(old);
        let new_chars = chars_of(new);
        let old_lines = split_lines(&old_chars);
        let new_lines = split_lines(&new_chars);
        let ghost a = lines(old@);
        let ghost b = lines(new@);
        let matches = match lcs_matches(&old_lines, &new_lines) {
            Ok(m) => m,
            Err(e) => return Err(e),
        };
        let ghost m = pairs(matches@);
        proof {
            lemma_matches_valid(a, b);
            assert forall|k: int| 0 <= k < matches@.len() implies (#[trigger] matches@[k]).0
                < old_lines@.len() && matches@[k].1 < new_lines@.len() by {
                assert(m[k] == (matches@[k].0 as int, matches@[k].1 as int));
            }
        }
        let old_len = old_lines.len();
        let new_len = new_lines.len();
        let old_matched = mark_matched(&matches, old_len, true);
        let new_matched = mark_matched(&matches, new_len, false);
        assert(a.len() == old_len && b.len() == new_len);

        let mut boundaries: Vec<usize> = Vec::new();
        let mut lo: usize = 0;
        let mut at: usize = 0;
        let mut bnd: usize = 0;
        while bnd < old_len
            invariant
                m == pairs(matches@),
                m == matches_spec(a, b),
                valid_matching(m, a, b),
                a.len() == old_len,
                b.len() == new_len,
                old_matched@ == matched_old(m, old_len as nat),
                bnd <= old_len,
                at <= matches@.len(),
                forall|k: int| 0 <= k < at ==> m[k].0 < bnd,
                lo == (if at == 0 {
                    0
                } else {
                    m[at - 1].1 + 1
                }),
                boundaries@.len() == bnd,
                forall|x: int|
                    0 <= x < bnd ==> 0 < x < old_len ==> boundaries@[x] == boundary(
                        m,
                        old_len as nat,
                        new_len as nat,
                        x,
                    ),
                forall|x: int| 0 <= x < bnd ==> boundaries@[x] <= new_len,
            decreases old_len - bnd,
        {
            while at < matches.len() && matches[at].0 < bnd
                invariant
                    m == pairs(matches@),
                    valid_matching(m, a, b),
                    b.len() == new_len,
                    at <= matches@.len(),
                    forall|k: int| 0 <= k < at ==> m[k].0 < bnd,
                    lo == (if at == 0 {
                        0
                    } else {
                        m[at - 1].1 + 1
                    }),
                decreases matches@.len() - at,
            {
                assert(m[at as int].1 == matches@[at as int].1);
                lo = matches[at].1 + 1;
                at += 1;
            }
            proof {
                if at < matches@.len() {
                    assert(m[at as int].0 == matches@[at as int].0);
                }
                lemma_prefix_below(m, bnd as int, at as int);
            }
            let hi = if at < matches.len() {
                matches[at].1
            } else {
                new_len
            };
            assert(at < matches@.len() ==> hi == m[at as int].1);
            let deleted_before = bnd > 0 && !old_matched[bnd - 1];
            let deleted_after = bnd < old_len && !old_matched[bnd];
            let v = if deleted_before && !deleted_after {
                hi
            } else {
                lo
            };
            boundaries.push(v);
            bnd += 1;
        }
        // Both ends are pinned: boundary `old_len` is `new_len`, and boundary
        // 0 is 0 whenever it is not also the last one.
        boundaries.push(new_len);
        if old_len > 0 {
            boundaries.set(0, 0);
        }
        let f = FileMap { old_len, new_len, boundaries, old_matched, new_matched };
        proof {
            let bs = boundaries_spec(m, old_len as nat, new_len as nat);
            assert(f.spec_boundaries() =~= bs);
            lemma_boundaries_monotone(m, a, b);
        }
        Ok(f)
    }
}

impl FileMap {
    /// A file that did not change at all.
    pub fn is_identity(&self) -> (b: bool)
        requires
            self.wf(),
        ensures
            b == self.spec_is_identity(),
    {
        if self.old_len != self.new_len {
            return false;
        }
        let mut i: usize = 0;
        while i < self.old_len
            invariant
                self.wf(),
                i <= self.old_len,
                forall|k: int| 0 <= k < i ==> self.old_matched@[k],
            decreases self.old_len - i,
        {
            if !self.old_matched[i] {
                return false;
            }
            i += 1;
        }
        true
    }

    pub fn old_len(&self) -> (n: usize)
        ensures
            n == self.spec_old_len(),
    {
        self.old_len
    }

    pub fn new_len(&self) -> (n: usize)
        ensures
            n == self.spec_new_len(),
    {
        self.new_len
    }

    /// Lines present in the new file that have no counterpart in the old one.
    pub fn inserted_lines(&self) -> (n: u32)
        requires
            self.wf(),
        ensures
            n == count_false(self.spec_new_matched(), 0, self.spec_new_len() as int) as u32,
    {
        count_unmatched(&self.new_matched, 0, self.new_len) as u32
    }

    /// Lines of the old file that have no counterpart in the new one.
    pub fn deleted_lines(&self) -> (n: u32)
        requires
            self.wf(),
        ensures
            n == count_false(self.spec_old_matched(), 0, self.spec_old_len() as int) as u32,
    {
        count_unmatched(&self.old_matched, 0, self.old_len) as u32
    }

    /// Carries one annotation's span across. Adjacent input ranges produce
    /// adjacent output ranges (see `law_tiling_is_preserved`).
    pub fn remap(&self, range: LineRange) -> (r: Result<Remapped, RemapError>)
        requires
            self.wf(),
            range.start >= 1,
            range.end <= self.spec_old_len() ==> range.start - 1 <= self.spec_old_len(),
            self.spec_new_len() <= u32::MAX,
        ensures
            r == self.spec_remap(range),
    {
        if range.end as usize > self.old_len {
            return Err(
                RemapError::PastEnd { start: range.start, end: range.end, old_len: self.old_len },
            );
        }
        let ghost bs = self.spec_boundaries();
        let lo = self.boundaries[range.start as usize - 1];
        let hi = self.boundaries[range.end as usize];
        assert(lo == bs[range.start - 1] && hi == bs[range.end as int]);
        if lo >= hi {
            return Ok(Remapped { range: None, change: Change::Deleted });
        }
        assert(range.start - 1 <= range.end) by {
            if range.start - 1 > range.end {
                assert(bs[range.end as int] <= bs[range.start - 1]);
            }
        }
        let deleted = count_unmatched(&self.old_matched, range.start as usize - 1, range.end as usize);
        let inserted = count_unmatched(&self.new_matched, lo, hi);
        proof {
            lemma_count_false_le(self.spec_old_matched(), range.start - 1, range.end as int);
            lemma_count_false_le(self.spec_new_matched(), lo as int, hi as int);
        }
        let deleted = deleted as u32;
        let inserted = inserted as u32;
        let change = if deleted > 0 || inserted > 0 {
            Change::Edited { deleted, inserted }
        } else if lo + 1 == range.start as usize {
            Change::Unmoved
        } else {
            Change::Shifted
        };
        Ok(Remapped { range: Some(LineRange { start: lo as u32 + 1, end: hi as u32 }), change })
    }
}

/// The boundary map never runs backwards and never leaves the new file.
proof fn lemma_boundaries_monotone(m: Seq<(int, int)>, a: Seq<Seq<char>>, b: Seq<Seq<char>>)
    requires
        valid_matching(m, a, b),
    ensures
        forall|x: int, y: int|
            0 <= x <= y <= a.len() ==> 0 <= #[trigger] boundary(m, a.len(), b.len(), x)
                <= #[trigger] boundary(m, a.len(), b.len(), y) <= b.len(),
{
    assert forall|x: int, y: int| 0 <= x <= y <= a.len() implies 0 <= #[trigger] boundary(
        m,
        a.len(),
        b.len(),
        x,
    ) <= #[trigger] boundary(m, a.len(), b.len(), y) <= b.len() by {
        lemma_boundary_pair(m, a, b, x, y);
        lemma_boundary_range(m, a, b, x);
        lemma_boundary_range(m, a, b, y);
    }
}

proof fn lemma_pb_char(m: Seq<(int, int)>, x: int)
    ensures
        prefix_below(m, x) <= m.len(),
        forall|i: int| 0 <= i < prefix_below(m, x) ==> m[i].0 < x,
        prefix_below(m, x) < m.len() ==> m[prefix_below(m, x) as int].0 >= x,
    decreases m.len(),
{
    if m.len() > 0 && m[0].0 < x {
        let r = m.drop_first();
        lemma_pb_char(r, x);
        assert forall|i: int| 0 <= i < prefix_below(m, x) implies m[i].0 < x by {
            if i > 0 {
                assert(m[i] == r[i - 1]);
            }
        }
        if prefix_below(m, x) < m.len() {
            assert(m[prefix_below(m, x) as int] == r[prefix_below(r, x) as int]);
        }
    }
}

proof fn lemma_boundary_range(m: Seq<(int, int)>, a: Seq<Seq<char>>, b: Seq<Seq<char>>, x: int)
    requires
        valid_matching(m, a, b),
        0 <= x <= a.len(),
    ensures
        0 <= boundary(m, a.len(), b.len(), x) <= b.len(),
{
    lemma_pb_char(m, x);
    let k = prefix_below(m, x) as int;
    if k > 0 {
        assert(0 <= m[k - 1].1 < b.len());
    }
    if k < m.len() {
        assert(0 <= m[k].1 < b.len());
    }
}

proof fn lemma_boundary_pair(
    m: Seq<(int, int)>,
    a: Seq<Seq<char>>,
    b: Seq<Seq<char>>,
    x: int,
    y: int,
)
    requires
        valid_matching(m, a, b),
        0 <= x <= y <= a.len(),
    ensures
        boundary(m, a.len(), b.len(), x) <= boundary(m, a.len(), b.len(), y),
{
    lemma_boundary_range(m, a, b, x);
    lemma_boundary_range(m, a, b, y);
    let n = a.len();
    if x == y || y == n || x == 0 {
        return ;
    }
    lemma_pb_char(m, x);
    lemma_pb_char(m, y);
    let kx = prefix_below(m, x) as int;
    let ky = prefix_below(m, y) as int;
    // kx <= ky: every entry below x is below y.
    if kx > ky {
        assert(m[ky].0 < x);
    }
    let lox = if kx == 0 {
        0
    } else {
        m[kx - 1].1 + 1
    };
    let hix = if kx < m.len() {
        m[kx].1
    } else {
        b.len() as int
    };
    let loy = if ky == 0 {
        0
    } else {
        m[ky - 1].1 + 1
    };
    let hiy = if ky < m.len() {
        m[ky].1
    } else {
        b.len() as int
    };
    if kx > 0 && kx < m.len() {
        assert(m[kx - 1].1 < m[kx].1);
    }
    if kx > 0 {
        assert(m[kx - 1].1 < b.len());
    }
    if ky > 0 && ky < m.len() {
        assert(m[ky - 1].1 < m[ky].1);
    }
    if ky > 0 {
        assert(m[ky - 1].1 < b.len());
    }
    assert(lox <= hix);
    assert(loy <= hiy);
    if kx == ky {
        let mo = matched_old(m, n);
        if !mo[x - 1] && mo[x] {
            let q = choose|q: int| 0 <= q < m.len() && #[trigger] m[q].0 == x;
            if q < kx {
                assert(m[q].0 < x);
            }
            if q > kx {
                assert(m[kx].0 < m[q].0);
            }
            assert(m[kx].0 == x);
            assert(false);
        }
    } else {
        assert(kx < ky);
        assert(kx < m.len());
        if ky - 1 > kx {
            assert(m[kx].1 < m[ky - 1].1);
        }
        assert(hix < loy);
    }
}


/// `rs` covers lines `from..=to` exactly once, in order, with no gap.
pub open spec fn tiles(rs: Seq<LineRange>, from: int, to: int) -> bool
    decreases rs.len(),
{
    if rs.len() == 0 {
        from == to + 1
    } else {
        rs[0].start == from && rs[0].start <= rs[0].end && tiles(
            rs.drop_first(),
            rs[0].end + 1,
            to,
        )
    }
}

/// The spans of `rs` that survive the move, in order.
pub open spec fn surviving(f: FileMap, rs: Seq<LineRange>) -> Seq<LineRange>
    decreases rs.len(),
{
    if rs.len() == 0 {
        Seq::empty()
    } else {
        match f.spec_span(rs[0]) {
            Some(r) => seq![r] + surviving(f, rs.drop_first()),
            None => surviving(f, rs.drop_first()),
        }
    }
}

proof fn lemma_tiling(f: FileMap, rs: Seq<LineRange>, from: int, to: int)
    requires
        f.wf(),
        f.spec_new_len() <= u32::MAX,
        1 <= from,
        to <= f.spec_old_len(),
        tiles(rs, from, to),
    ensures
        from <= to + 1,
        tiles(surviving(f, rs), f.spec_boundaries()[from - 1] + 1, f.spec_boundaries()[to]),
    decreases rs.len(),
{
    let bs = f.spec_boundaries();
    if rs.len() > 0 {
        let r0 = rs[0];
        let rest = rs.drop_first();
        lemma_tiling(f, rest, r0.end + 1, to);
        let lo = bs[from - 1];
        let hi = bs[r0.end as int];
        assert(lo <= hi);
        match f.spec_span(r0) {
            Some(r) => {
                let s = surviving(f, rs);
                assert(s == seq![r] + surviving(f, rest));
                assert(s[0] == r);
                assert(s.drop_first() =~= surviving(f, rest));
            },
            None => {},
        }
    }
}

/// Carrying a tiling of the old file across yields a tiling of the new one:
/// the spans that survive meet end to start and cover every new line,
/// including lines gained at the top or bottom. Spans whose lines were all
/// deleted drop out, and their neighbours still meet.
pub proof fn law_tiling_is_preserved(f: FileMap, rs: Seq<LineRange>)
    requires
        f.wf(),
        f.spec_old_len() > 0,
        f.spec_new_len() <= u32::MAX,
        tiles(rs, 1, f.spec_old_len() as int),
    ensures
        tiles(surviving(f, rs), 1, f.spec_new_len() as int),
{
    lemma_tiling(f, rs, 1, f.spec_old_len() as int);
}

proof fn lemma_diag_old(m: Seq<(int, int)>, a: Seq<Seq<char>>, b: Seq<Seq<char>>, k: int)
    requires
        valid_matching(m, a, b),
        forall|i: int| 0 <= i < a.len() ==> #[trigger] matched_old(m, a.len())[i],
        0 <= k < a.len(),
    ensures
        k < m.len(),
        m[k].0 == k,
    decreases k,
{
    assert(matched_old(m, a.len())[k]);
    let k1 = choose|k1: int| 0 <= k1 < m.len() && #[trigger] m[k1].0 == k;
    if k == 0 {
        if k1 > 0 {
            assert(m[0].0 < m[k1].0);
        }
    } else {
        lemma_diag_old(m, a, b, k - 1);
        if k1 < k - 1 {
            assert(m[k1].0 < m[k - 1].0);
        } else if k1 > k {
            assert(m[k].0 < m[k1].0);
            assert(m[k - 1].0 < m[k].0);
        }
    }
}

proof fn lemma_new_at_least(m: Seq<(int, int)>, a: Seq<Seq<char>>, b: Seq<Seq<char>>, k: int)
    requires
        valid_matching(m, a, b),
        0 <= k < m.len(),
    ensures
        k <= m[k].1,
    decreases k,
{
    assert(0 <= m[k].0);
    if k > 0 {
        lemma_new_at_least(m, a, b, k - 1);
        assert(m[k - 1].0 < m[k].0);
    }
}

proof fn lemma_new_at_most(m: Seq<(int, int)>, a: Seq<Seq<char>>, b: Seq<Seq<char>>, k: int)
    requires
        valid_matching(m, a, b),
        0 <= k < m.len(),
    ensures
        m[k].1 <= b.len() - m.len() + k,
    decreases m.len() - k,
{
    assert(0 <= m[k].0);
    if k + 1 < m.len() {
        lemma_new_at_most(m, a, b, k + 1);
        assert(m[k].0 < m[k + 1].0);
    }
}

/// A file reported unchanged is the same file: when the alignment of `a`
/// with `b` keeps every line and the lengths agree, the two texts are equal
/// line for line.
pub proof fn law_an_unchanged_file_is_identical(f: FileMap, a: Seq<Seq<char>>, b: Seq<Seq<char>>)
    requires
        f.wf(),
        f.aligns(a, b),
        f.spec_is_identity(),
    ensures
        a == b,
{
    let m = matches_spec(a, b);
    lemma_matches_valid(a, b);
    let n = a.len();
    assert forall|i: int| 0 <= i < n implies #[trigger] matched_old(m, n)[i] by {
        assert(f.spec_old_matched()[i]);
    }
    if n > 0 {
        lemma_diag_old(m, a, b, n - 1);
        if m.len() > n {
            assert(m[n - 1].0 < m[n as int].0);
        }
    }
    assert(m.len() >= n) by {
        if n > 0 {
            lemma_diag_old(m, a, b, n - 1);
        }
    }
    assert forall|k: int| 0 <= k < n implies a[k] == b[k] by {
        lemma_diag_old(m, a, b, k);
        lemma_new_at_least(m, a, b, k);
        lemma_new_at_most(m, a, b, k);
    }
    assert(a =~= b);
}

proof fn lemma_count_false_all_true(s: Seq<bool>, lo: int, hi: int)
    requires
        forall|i: int| lo <= i < hi ==> s[i],
    ensures
        count_false(s, lo, hi) == 0,
    decreases hi - lo,
{
    if hi > lo {
        lemma_count_false_all_true(s, lo, hi - 1);
    }
}

/// A file aligned with itself is reported unchanged, and every range in it
/// maps to itself, unmoved.
pub proof fn law_identical_files_map_to_themselves(
    f: FileMap,
    a: Seq<Seq<char>>,
    range: LineRange,
)
    requires
        f.wf(),
        f.aligns(a, a),
        range.wf(),
        range.end <= a.len(),
    ensures
        f.spec_is_identity(),
        f.spec_remap(range) == Ok::<Remapped, RemapError>(
            Remapped { range: Some(range), change: Change::Unmoved },
        ),
{
    let n = a.len();
    lemma_common_prefix(a, a, n as int);
    assert(a.skip(n as int) =~= Seq::<Seq<char>>::empty());
    assert(tail_of(a, a) == 0);
    assert(mid_old(a, a) =~= Seq::<Seq<char>>::empty());
    assert(mid_new(a, a) =~= Seq::<Seq<char>>::empty());
    let tr = trace(mid_old(a, a), mid_new(a, a), 0, 0);
    assert(tr =~= Seq::<(int, int)>::empty());
    let m = matches_spec(a, a);
    let id = Seq::new(n, |k: int| (k, k));
    assert(shift(tr, n as int) =~= Seq::<(int, int)>::empty());
    assert(m =~= id);
    assert forall|i: int| 0 <= i < n implies #[trigger] matched_old(m, n)[i] by {
        assert(m[i].0 == i);
    }
    assert forall|i: int| 0 <= i < n implies #[trigger] matched_new(m, n)[i] by {
        assert(m[i].1 == i);
    }
    let bs = f.spec_boundaries();
    assert forall|b: int| 0 <= b <= n implies #[trigger] bs[b] == b by {
        if 0 < b < n {
            assert forall|k: int| 0 <= k < b implies m[k].0 < b by {}
            lemma_prefix_below(m, b, b);
            assert(matched_old(m, n)[b - 1]);
        }
    }
    let lo = bs[range.start - 1];
    let hi = bs[range.end as int];
    assert(lo == range.start - 1);
    assert(hi == range.end);
    lemma_count_false_all_true(f.spec_old_matched(), range.start - 1, range.end as int);
    lemma_count_false_all_true(f.spec_new_matched(), lo, hi);
}

} // verus!
