//! What a bump prints about its plan before applying it: a table of the
//! files that move, what is added and removed, and every annotation whose
//! prose has to be read again.
use crate::coverage::texts;
use crate::plan::{added_view, orphan_view, outcome_view, review_view, why_text, FileOutcome, Orphan, Plan, Review};
use crate::text::{chars_of, decimal, decimal_chars, string_of};
use crate::vendor::source_id_spec;
use vstd::prelude::*;

verus! {

/// `n` spaces, none when `n` is not positive.
pub open spec fn spaces(n: int) -> Seq<char> {
    Seq::new(if n > 0 { n as nat } else { 0 }, |i: int| ' ')
}

/// `s` padded on the right to `w` characters (`{:<w}`).
pub open spec fn pad_r(s: Seq<char>, w: int) -> Seq<char> {
    s + spaces(w - s.len())
}

/// `s` padded on the left to `w` characters (`{:>w}`).
pub open spec fn pad_l(s: Seq<char>, w: int) -> Seq<char> {
    spaces(w - s.len()) + s
}

/// The six columns of the file table.
pub open spec fn table_row(a: Seq<char>, b: Seq<char>, c: Seq<char>, d: Seq<char>, e: Seq<char>, f: Seq<char>) -> Seq<char> {
    pad_r(a, 26) + pad_l(b, 11) + pad_l(c, 9) + pad_l(d, 8) + pad_l(e, 8) + pad_l(f, 11) + "\n"@
}

/// A file's line count, or its old and new counts when they differ.
pub open spec fn lines_cell(old: int, new: int) -> Seq<char> {
    if old == new {
        decimal(new as nat)
    } else {
        decimal(old as nat) + " -> "@ + decimal(new as nat)
    }
}

/// A file is listed when something in it moved, something is unclaimed,
/// or its length changed.
pub open spec fn listed(o: (Seq<char>, int, int, int, int, int, int)) -> bool {
    !(o.3 == 0 && o.4 == 0 && o.5 == 0 && o.6 == 0 && o.1 == o.2)
}

/// A file is left alone when nothing in it moved and nothing is unclaimed.
pub open spec fn untouched(o: (Seq<char>, int, int, int, int, int, int)) -> bool {
    o.3 == 0 && o.4 == 0 && o.5 == 0 && o.6 == 0
}

/// The table rows of the first `k` files.
pub open spec fn rows_text(fs: Seq<(Seq<char>, int, int, int, int, int, int)>, k: int) -> Seq<char>
    decreases k,
{
    if k <= 0 {
        Seq::empty()
    } else {
        let o = fs[k - 1];
        rows_text(fs, k - 1) + if listed(o) {
            table_row(o.0, lines_cell(o.1, o.2), decimal(o.3 as nat), decimal(o.4 as nat), decimal(o.5 as nat), decimal(o.6 as nat))
        } else {
            Seq::empty()
        }
    }
}

/// How many of the first `k` files are left alone.
pub open spec fn untouched_count(fs: Seq<(Seq<char>, int, int, int, int, int, int)>, k: int) -> nat
    decreases k,
{
    if k <= 0 {
        0
    } else {
        untouched_count(fs, k - 1) + if untouched(fs[k - 1]) { 1nat } else { 0nat }
    }
}

/// The lines for the first `k` added files.
pub open spec fn added_lines(a: Seq<(Seq<char>, int)>, k: int) -> Seq<char>
    decreases k,
{
    if k <= 0 {
        Seq::empty()
    } else {
        added_lines(a, k - 1) + "  new file: "@ + a[k - 1].0 + " ("@ + decimal(a[k - 1].1 as nat) + " lines, none annotated)\n"@
    }
}

/// The lines for the first `k` removed files.
pub open spec fn removed_lines(r: Seq<Seq<char>>, k: int) -> Seq<char>
    decreases k,
{
    if k <= 0 {
        Seq::empty()
    } else {
        removed_lines(r, k - 1) + "  removed:  "@ + r[k - 1] + "\n"@
    }
}

/// How many reviews are listed by name.
pub open spec fn review_limit() -> int {
    40
}

/// The lines for the first `k` reviews.
pub open spec fn review_lines(r: Seq<(Seq<char>, Seq<char>, Seq<char>, Seq<char>, int, int)>, k: int) -> Seq<char>
    decreases k,
{
    if k <= 0 {
        Seq::empty()
    } else {
        let x = r[k - 1];
        review_lines(r, k - 1) + "  "@ + pad_r(x.0, 20) + " "@ + x.1 + " "@ + x.2 + " -> "@ + x.3 + "  (-"@
            + decimal(x.4 as nat) + " +"@ + decimal(x.5 as nat) + ")\n"@
    }
}

/// The section on annotations whose code changed: at most forty by name,
/// and a count of the rest.
pub open spec fn reviews_section(r: Seq<(Seq<char>, Seq<char>, Seq<char>, Seq<char>, int, int)>) -> Seq<char> {
    if r.len() == 0 {
        Seq::empty()
    } else {
        "\n"@ + decimal(r.len()) + " annotation(s) still point at real code, but the code changed:\n"@
            + review_lines(r, if r.len() > review_limit() { review_limit() } else { r.len() as int })
            + if r.len() > review_limit() {
            "  ... and "@ + decimal((r.len() - review_limit()) as nat) + " more\n"@
        } else {
            Seq::empty()
        }
    }
}

/// The lines for the first `k` orphans.
pub open spec fn orphan_lines(o: Seq<(Seq<char>, Seq<char>, Seq<char>, crate::plan::OrphanWhy)>, k: int) -> Seq<char>
    decreases k,
{
    if k <= 0 {
        Seq::empty()
    } else {
        let x = o[k - 1];
        orphan_lines(o, k - 1) + "  "@ + pad_r(x.0, 20) + " "@ + x.1 + " "@ + x.2 + "  \u{2014} "@ + why_text(x.3) + "\n"@
    }
}

/// The section on annotations with nothing left to point at.
pub open spec fn orphans_section(o: Seq<(Seq<char>, Seq<char>, Seq<char>, crate::plan::OrphanWhy)>) -> Seq<char> {
    if o.len() == 0 {
        Seq::empty()
    } else {
        "\n"@ + decimal(o.len()) + " annotation(s) have nothing left to point at:\n"@ + orphan_lines(o, o.len() as int)
    }
}

/// The lines for the first `k` files that lose their completeness.
pub open spec fn open_lines(f: Seq<Seq<char>>, k: int) -> Seq<char>
    decreases k,
{
    if k <= 0 {
        Seq::empty()
    } else {
        open_lines(f, k - 1) + "  "@ + f[k - 1] + "\n"@
    }
}

/// The section on files that are declared complete and will not be.
pub open spec fn incomplete_section(f: Seq<Seq<char>>) -> Seq<char> {
    if f.len() == 0 {
        Seq::empty()
    } else {
        "\n"@ + decimal(f.len())
            + " file(s) are marked complete but will have unclaimed lines; coverage will fail until they are annotated:\n"@
            + open_lines(f, f.len() as int)
    }
}

/// Everything a bump prints about its plan, for the crate `name`.
pub open spec fn summary_text(p: Plan, name: Seq<char>) -> Seq<char> {
    let fs = p.files@.map_values(|o: FileOutcome| outcome_view(o));
    "\n"@ + source_id_spec(name, p.old_version@) + " -> "@ + source_id_spec(name, p.new_version@) + "\n\n"@
        + table_row("file"@, "lines"@, "shifted"@, "edited"@, "dropped"@, "unclaimed"@)
        + rows_text(fs, fs.len() as int)
        + "\n"@ + decimal(untouched_count(fs, fs.len() as int)) + " file(s) unchanged and left alone\n"@
        + added_lines(added_view(p.added@), p.added@.len() as int)
        + removed_lines(texts(p.removed@), p.removed@.len() as int)
        + reviews_section(p.reviews@.map_values(|x: Review| review_view(x)))
        + orphans_section(p.orphans@.map_values(|o: Orphan| orphan_view(o)))
        + incomplete_section(texts(p.now_incomplete@))
}

/// Appends the characters of `s` to `v`.
fn push_str(v: &mut Vec<char>, s: &str)
    ensures
        final(v)@ == old(v)@ + s@,
{
    let mut t = chars_of(s);
    v.append(&mut t);
}

/// Appends `n` in decimal.
fn push_num(v: &mut Vec<char>, n: u64)
    ensures
        final(v)@ == old(v)@ + decimal(n as nat),
{
    let mut t = decimal_chars(n);
    v.append(&mut t);
}

/// Appends `n` spaces.
fn push_spaces(v: &mut Vec<char>, n: usize)
    ensures
        final(v)@ == old(v)@ + spaces(n as int),
{
    let ghost v0 = v@;
    let mut k: usize = 0;
    while k < n
        invariant
            k <= n,
            v@ == v0 + spaces(k as int),
        decreases n - k,
    {
        v.push(' ');
        k += 1;
        assert(v@ =~= v0 + spaces(k as int));
    }
}

/// Appends `s` padded on the right to `w` characters.
fn push_pad_r(v: &mut Vec<char>, s: &Vec<char>, w: usize)
    ensures
        final(v)@ == old(v)@ + pad_r(s@, w as int),
{
    let ghost v0 = v@;
    let mut t = s.clone();
    assert(t@ == s@);
    v.append(&mut t);
    if s.len() < w {
        push_spaces(v, w - s.len());
    } else {
        assert(spaces(w - s@.len()) =~= Seq::<char>::empty());
    }
    assert(v@ =~= v0 + pad_r(s@, w as int));
}

/// Appends `s` padded on the left to `w` characters.
fn push_pad_l(v: &mut Vec<char>, s: &Vec<char>, w: usize)
    ensures
        final(v)@ == old(v)@ + pad_l(s@, w as int),
{
    let ghost v0 = v@;
    if s.len() < w {
        push_spaces(v, w - s.len());
    } else {
        assert(spaces(w - s@.len()) =~= Seq::<char>::empty());
    }
    let mut t = s.clone();
    assert(t@ == s@);
    v.append(&mut t);
    assert(v@ =~= v0 + pad_l(s@, w as int));
}

fn push_row(v: &mut Vec<char>, a: &Vec<char>, b: &Vec<char>, c: &Vec<char>, d: &Vec<char>, e: &Vec<char>, f: &Vec<char>)
    ensures
        final(v)@ == old(v)@ + table_row(a@, b@, c@, d@, e@, f@),
{
    let ghost v0 = v@;
    push_pad_r(v, a, 26);
    push_pad_l(v, b, 11);
    push_pad_l(v, c, 9);
    push_pad_l(v, d, 8);
    push_pad_l(v, e, 8);
    push_pad_l(v, f, 11);
    push_str(v, "\n");
    assert(v@ =~= v0 + table_row(a@, b@, c@, d@, e@, f@));
}

fn push_file_rows(v: &mut Vec<char>, files: &Vec<FileOutcome>) -> (untouched_n: u64)
    ensures
        final(v)@ == old(v)@ + rows_text(files@.map_values(|o: FileOutcome| outcome_view(o)), files@.len() as int),
        untouched_n == untouched_count(files@.map_values(|o: FileOutcome| outcome_view(o)), files@.len() as int),
{
    let ghost fs = files@.map_values(|o: FileOutcome| outcome_view(o));
    let ghost v0 = v@;
    let mut n: u64 = 0;
    let mut k: usize = 0;
    while k < files.len()
        invariant
            k <= files@.len(),
            fs == files@.map_values(|o: FileOutcome| outcome_view(o)),
            v@ == v0 + rows_text(fs, k as int),
            n == untouched_count(fs, k as int),
            n <= k,
        decreases files@.len() - k,
    {
        let f = &files[k];
        let ghost before = v@;
        assert(fs[k as int] == outcome_view(*f));
        let quiet = f.shifted == 0 && f.edited == 0 && f.dropped == 0 && f.unclaimed == 0;
        if !(quiet && f.old_lines == f.new_lines) {
            let name = chars_of(f.file.as_str());
            let mut cell = decimal_chars(f.old_lines as u64);
            if f.old_lines == f.new_lines {
                cell = decimal_chars(f.new_lines as u64);
            } else {
                push_str(&mut cell, " -> ");
                push_num(&mut cell, f.new_lines as u64);
            }
            assert(cell@ == lines_cell(f.old_lines as int, f.new_lines as int));
            push_row(
                v,
                &name,
                &cell,
                &decimal_chars(f.shifted as u64),
                &decimal_chars(f.edited as u64),
                &decimal_chars(f.dropped as u64),
                &decimal_chars(f.unclaimed as u64),
            );
        }
        assert(v@ =~= v0 + rows_text(fs, k + 1));
        if quiet {
            n = n + 1;
        }
        k += 1;
    }
    n
}

fn push_added(v: &mut Vec<char>, added: &Vec<(String, u32)>)
    ensures
        final(v)@ == old(v)@ + added_lines(added_view(added@), added@.len() as int),
{
    let ghost a = added_view(added@);
    let ghost v0 = v@;
    let mut k: usize = 0;
    while k < added.len()
        invariant
            k <= added@.len(),
            a == added_view(added@),
            v@ == v0 + added_lines(a, k as int),
        decreases added@.len() - k,
    {
        let ghost before = v@;
        push_str(v, "  new file: ");
        push_str(v, added[k].0.as_str());
        push_str(v, " (");
        push_num(v, added[k].1 as u64);
        push_str(v, " lines, none annotated)\n");
        assert(v@ =~= v0 + added_lines(a, k + 1));
        k += 1;
    }
}

fn push_removed(v: &mut Vec<char>, removed: &Vec<String>)
    ensures
        final(v)@ == old(v)@ + removed_lines(texts(removed@), removed@.len() as int),
{
    let ghost r = texts(removed@);
    let ghost v0 = v@;
    let mut k: usize = 0;
    while k < removed.len()
        invariant
            k <= removed@.len(),
            r == texts(removed@),
            v@ == v0 + removed_lines(r, k as int),
        decreases removed@.len() - k,
    {
        push_str(v, "  removed:  ");
        push_str(v, removed[k].as_str());
        push_str(v, "\n");
        assert(v@ =~= v0 + removed_lines(r, k + 1));
        k += 1;
    }
}

fn push_reviews(v: &mut Vec<char>, reviews: &Vec<Review>)
    ensures
        final(v)@ == old(v)@ + reviews_section(reviews@.map_values(|x: Review| review_view(x))),
{
    let ghost r = reviews@.map_values(|x: Review| review_view(x));
    let ghost v0 = v@;
    if reviews.len() == 0 {
        assert(v@ =~= v0 + reviews_section(r));
        return;
    }
    push_str(v, "\n");
    push_num(v, reviews.len() as u64);
    push_str(v, " annotation(s) still point at real code, but the code changed:\n");
    let ghost v1 = v@;
    let shown: usize = if reviews.len() > 40 { 40 } else { reviews.len() };
    let mut k: usize = 0;
    while k < shown
        invariant
            k <= shown <= reviews@.len(),
            r == reviews@.map_values(|x: Review| review_view(x)),
            v@ == v1 + review_lines(r, k as int),
        decreases shown - k,
    {
        let x = &reviews[k];
        assert(r[k as int] == review_view(*x));
        let id = chars_of(x.id.as_str());
        push_str(v, "  ");
        push_pad_r(v, &id, 20);
        push_str(v, " ");
        push_str(v, x.file.as_str());
        push_str(v, " ");
        push_str(v, x.from.as_str());
        push_str(v, " -> ");
        push_str(v, x.to.as_str());
        push_str(v, "  (-");
        push_num(v, x.deleted as u64);
        push_str(v, " +");
        push_num(v, x.inserted as u64);
        push_str(v, ")\n");
        assert(v@ =~= v1 + review_lines(r, k + 1));
        k += 1;
    }
    if reviews.len() > 40 {
        push_str(v, "  ... and ");
        push_num(v, (reviews.len() - 40) as u64);
        push_str(v, " more\n");
    }
    assert(v@ =~= v0 + reviews_section(r));
}

fn push_orphans(v: &mut Vec<char>, orphans: &Vec<Orphan>)
    ensures
        final(v)@ == old(v)@ + orphans_section(orphans@.map_values(|o: Orphan| orphan_view(o))),
{
    let ghost o = orphans@.map_values(|o: Orphan| orphan_view(o));
    let ghost v0 = v@;
    if orphans.len() == 0 {
        assert(v@ =~= v0 + orphans_section(o));
        return;
    }
    push_str(v, "\n");
    push_num(v, orphans.len() as u64);
    push_str(v, " annotation(s) have nothing left to point at:\n");
    let ghost v1 = v@;
    let mut k: usize = 0;
    while k < orphans.len()
        invariant
            k <= orphans@.len(),
            o == orphans@.map_values(|o: Orphan| orphan_view(o)),
            v@ == v1 + orphan_lines(o, k as int),
        decreases orphans@.len() - k,
    {
        let x = &orphans[k];
        assert(o[k as int] == orphan_view(*x));
        let id = chars_of(x.id.as_str());
        let why = x.why.text();
        push_str(v, "  ");
        push_pad_r(v, &id, 20);
        push_str(v, " ");
        push_str(v, x.file.as_str());
        push_str(v, " ");
        push_str(v, x.from.as_str());
        push_str(v, "  \u{2014} ");
        push_str(v, why.as_str());
        push_str(v, "\n");
        assert(v@ =~= v1 + orphan_lines(o, k + 1));
        k += 1;
    }
    assert(v@ =~= v0 + orphans_section(o));
}

fn push_incomplete(v: &mut Vec<char>, files: &Vec<String>)
    ensures
        final(v)@ == old(v)@ + incomplete_section(texts(files@)),
{
    let ghost f = texts(files@);
    let ghost v0 = v@;
    if files.len() == 0 {
        assert(v@ =~= v0 + incomplete_section(f));
        return;
    }
    push_str(v, "\n");
    push_num(v, files.len() as u64);
    push_str(
        v,
        " file(s) are marked complete but will have unclaimed lines; coverage will fail until they are annotated:\n",
    );
    let ghost v1 = v@;
    let mut k: usize = 0;
    while k < files.len()
        invariant
            k <= files@.len(),
            f == texts(files@),
            v@ == v1 + open_lines(f, k as int),
        decreases files@.len() - k,
    {
        push_str(v, "  ");
        push_str(v, files[k].as_str());
        push_str(v, "\n");
        assert(v@ =~= v1 + open_lines(f, k + 1));
        k += 1;
    }
    assert(v@ =~= v0 + incomplete_section(f));
}

impl Plan {
    /// What the bump prints about this plan for the crate `name`: the
    /// version change, a table of every file something happened to, how
    /// many were left alone, the files added and removed, the annotations
    /// whose code changed (forty by name), those with nothing left to point
    /// at, and the complete files that will have holes.
    pub fn summary(&self, name: &str) -> (r: String)
        ensures
            r@ == summary_text(*self, name@),
    {
        proof {
            reveal_strlit("-");
        }
        let mut v: Vec<char> = Vec::new();
        push_str(&mut v, "\n");
        push_str(&mut v, name);
        push_str(&mut v, "-");
        push_str(&mut v, self.old_version.as_str());
        push_str(&mut v, " -> ");
        push_str(&mut v, name);
        push_str(&mut v, "-");
        push_str(&mut v, self.new_version.as_str());
        push_str(&mut v, "\n\n");
        assert(v@ =~= "\n"@ + source_id_spec(name@, self.old_version@) + " -> "@ + source_id_spec(name@, self.new_version@) + "\n\n"@);
        push_row(
            &mut v,
            &chars_of("file"),
            &chars_of("lines"),
            &chars_of("shifted"),
            &chars_of("edited"),
            &chars_of("dropped"),
            &chars_of("unclaimed"),
        );
        let n = push_file_rows(&mut v, &self.files);
        push_str(&mut v, "\n");
        push_num(&mut v, n);
        push_str(&mut v, " file(s) unchanged and left alone\n");
        push_added(&mut v, &self.added);
        push_removed(&mut v, &self.removed);
        push_reviews(&mut v, &self.reviews);
        push_orphans(&mut v, &self.orphans);
        push_incomplete(&mut v, &self.now_incomplete);
        let r = string_of(v.as_slice());
        assert(r@ =~= summary_text(*self, name@));
        r
    }
}

} // verus!
