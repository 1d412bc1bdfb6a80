//! The annotation store, grouped and ordered the way its readers need it.
//!
//! Both the coverage gate and the site generator read through this model:
//! one `SourceStore` per annotated crate, and one `Store` over all of them.
use crate::schema::{Annotation, CourseUnit, LineRange};
use crate::text::{lex_less, lex_lt, str_eq};
use vstd::prelude::*;

verus! {

/// One annotation resolved against the pinned source: its parsed line range,
/// and which annotated crate it claims a piece of.
#[derive(Debug, Clone)]
pub struct Unit {
    pub annotation: Annotation,
    pub range: LineRange,
    /// The crate name — "serde_core" or "serde_derive".
    pub source: String,
}

/// One annotated source and everything the store claims about it.
#[derive(Debug, Clone)]
pub struct SourceStore {
    /// The crates.io name: "serde_core".
    pub name: String,
    pub version: String,
    /// `"serde_core-1.0.229"` — what this source's annotation files must name.
    pub source_id: String,
    /// Annotations by source file, keyed by path; each file at most once.
    pub by_file: Vec<(String, Vec<Unit>)>,
    /// Every source file in the pinned tree, in path order, with its line count.
    pub files: Vec<(String, u32)>,
    pub complete: Vec<String>,
}

/// Everything the site generator needs, already grouped and ordered.
#[derive(Debug)]
pub struct Store {
    /// The annotated sources, in pin order.
    pub sources: Vec<SourceStore>,
    /// The course track's units, in teaching order.
    pub course: Vec<CourseUnit>,
    /// Dependency order over the source files: `src/ser/mod.rs` for the first
    /// coverage source, or `serde_derive:src/ser.rs` to name another one.
    pub reading_order: Vec<String>,
}

/// Every unit of a `by_file` table, file by file.
pub open spec fn units_of(by_file: Seq<(String, Vec<Unit>)>) -> Seq<Unit>
    decreases by_file.len(),
{
    if by_file.len() == 0 {
        Seq::empty()
    } else {
        units_of(by_file.drop_last()) + by_file.last().1@
    }
}

/// Every unit of every source, source by source.
pub open spec fn store_units(sources: Seq<SourceStore>) -> Seq<Unit>
    decreases sources.len(),
{
    if sources.len() == 0 {
        Seq::empty()
    } else {
        store_units(sources.drop_last()) + units_of(sources.last().by_file@)
    }
}

/// Sum of the line counts of a file list.
pub open spec fn line_total(files: Seq<(String, u32)>) -> int
    decreases files.len(),
{
    if files.len() == 0 {
        0
    } else {
        line_total(files.drop_last()) + files.last().1
    }
}

/// Lines claimed by a sequence of units, counted range by range.
pub open spec fn claimed_total(units: Seq<Unit>) -> int
    decreases units.len(),
{
    if units.len() == 0 {
        0
    } else {
        claimed_total(units.drop_last()) + (units.last().range.end - units.last().range.start
            + 1)
    }
}

/// Whether `by_file` has an entry for `file`.
pub open spec fn has_file(by_file: Seq<(String, Vec<Unit>)>, file: Seq<char>) -> bool {
    exists|i: int| 0 <= i < by_file.len() && (#[trigger] by_file[i]).0@ == file
}

pub proof fn lemma_line_total_prefix(files: Seq<(String, u32)>, i: int)
    requires
        0 <= i <= files.len(),
    ensures
        0 <= line_total(files.take(i)) <= line_total(files),
    decreases files.len() - i,
{
    if i < files.len() {
        lemma_line_total_prefix(files, i + 1);
        assert(files.take(i + 1).drop_last() =~= files.take(i));
        lemma_line_total_nonneg(files.take(i));
    } else {
        assert(files.take(i) =~= files);
        lemma_line_total_nonneg(files);
    }
}

pub proof fn lemma_line_total_nonneg(files: Seq<(String, u32)>)
    ensures
        0 <= line_total(files),
    decreases files.len(),
{
    if files.len() > 0 {
        lemma_line_total_nonneg(files.drop_last());
    }
}

impl SourceStore {
    /// Every range in the store is a proper 1-based range, and each file is
    /// keyed at most once.
    pub open spec fn wf(&self) -> bool {
        &&& forall|i: int|
            0 <= i < units_of(self.by_file@).len() ==> (#[trigger] units_of(
                self.by_file@,
            )[i]).range.wf()
        &&& forall|i: int, j: int|
            0 <= i < j < self.by_file@.len() ==> (#[trigger] self.by_file@[i]).0@
                != (#[trigger] self.by_file@[j]).0@
    }

    /// Lines in every pinned file of this source.
    pub fn total_lines(&self) -> (n: u32)
        requires
            line_total(self.files@) <= u32::MAX,
        ensures
            n == line_total(self.files@),
    {
        let mut n: u32 = 0;
        let mut i: usize = 0;
        while i < self.files.len()
            invariant
                i <= self.files@.len(),
                line_total(self.files@) <= u32::MAX,
                n == line_total(self.files@.take(i as int)),
            decreases self.files@.len() - i,
        {
            proof {
                lemma_line_total_prefix(self.files@, i + 1);
                assert(self.files@.take(i + 1).drop_last() =~= self.files@.take(i as int));
            }
            n = n + self.files[i].1;
            i += 1;
        }
        assert(self.files@.take(i as int) =~= self.files@);
        n
    }
}


pub proof fn lemma_units_of_take(s: Seq<(String, Vec<Unit>)>, i: int)
    requires
        0 <= i <= s.len(),
    ensures
        units_of(s.take(i)).len() <= units_of(s).len(),
        forall|k: int|
            0 <= k < units_of(s.take(i)).len() ==> #[trigger] units_of(s.take(i))[k] == units_of(
                s,
            )[k],
    decreases s.len() - i,
{
    if i < s.len() {
        lemma_units_of_take(s, i + 1);
        assert(s.take(i + 1).drop_last() =~= s.take(i));
        assert(units_of(s.take(i + 1)) == units_of(s.take(i)) + s[i].1@);
        assert forall|k: int| 0 <= k < units_of(s.take(i)).len() implies #[trigger] units_of(
            s.take(i),
        )[k] == units_of(s)[k] by {
            assert(units_of(s.take(i + 1))[k] == units_of(s.take(i))[k]);
        }
    } else {
        assert(s.take(i) =~= s);
    }
}

pub proof fn lemma_claimed_prefix(units: Seq<Unit>, j: int)
    requires
        0 <= j <= units.len(),
        forall|k: int| 0 <= k < units.len() ==> (#[trigger] units[k]).range.wf(),
    ensures
        0 <= claimed_total(units.take(j)) <= claimed_total(units),
    decreases units.len() - j,
{
    if j < units.len() {
        lemma_claimed_prefix(units, j + 1);
        assert(units.take(j + 1).drop_last() =~= units.take(j));
        assert(units.take(j + 1).last() == units[j]);
        assert(units[j].range.wf());
        let t = units.take(j);
        assert forall|k: int| 0 <= k < t.len() implies (#[trigger] t[k]).range.wf() by {
            assert(t[k] == units[k]);
        }
        lemma_claimed_nonneg(t);
    } else {
        assert(units.take(j) =~= units);
        lemma_claimed_nonneg(units);
    }
}

pub proof fn lemma_claimed_nonneg(units: Seq<Unit>)
    requires
        forall|k: int| 0 <= k < units.len() ==> (#[trigger] units[k]).range.wf(),
    ensures
        0 <= claimed_total(units),
    decreases units.len(),
{
    if units.len() > 0 {
        let d = units.drop_last();
        assert forall|k: int| 0 <= k < d.len() implies (#[trigger] d[k]).range.wf() by {
            assert(d[k] == units[k]);
        }
        lemma_claimed_nonneg(d);
        assert(units.last().range.wf());
    }
}

/// Entries of `files` that some annotation claims, in file order.
pub open spec fn annotated_of(files: Seq<(String, u32)>, by_file: Seq<(String, Vec<Unit>)>) -> Seq<
    (String, u32),
>
    decreases files.len(),
{
    if files.len() == 0 {
        Seq::empty()
    } else if has_file(by_file, files.last().0@) {
        annotated_of(files.drop_last(), by_file).push(files.last())
    } else {
        annotated_of(files.drop_last(), by_file)
    }
}

impl SourceStore {
    /// Lines claimed by this source's annotations.
    pub fn claimed_lines(&self) -> (n: u32)
        requires
            self.wf(),
            claimed_total(units_of(self.by_file@)) <= u32::MAX,
        ensures
            n == claimed_total(units_of(self.by_file@)),
    {
        let ghost all = units_of(self.by_file@);
        let mut n: u32 = 0;
        let mut f: usize = 0;
        while f < self.by_file.len()
            invariant
                self.wf(),
                all == units_of(self.by_file@),
                claimed_total(all) <= u32::MAX,
                f <= self.by_file@.len(),
                n == claimed_total(units_of(self.by_file@.take(f as int))),
            decreases self.by_file@.len() - f,
        {
            let units = &self.by_file[f].1;
            let ghost before = units_of(self.by_file@.take(f as int));
            proof {
                lemma_units_of_take(self.by_file@, f + 1);
                assert(self.by_file@.take(f + 1).drop_last() =~= self.by_file@.take(f as int));
                assert(units_of(self.by_file@.take(f + 1)) == before + units@);
            }
            let mut k: usize = 0;
            while k < units.len()
                invariant
                    self.wf(),
                    all == units_of(self.by_file@),
                    claimed_total(all) <= u32::MAX,
                    f < self.by_file@.len(),
                    units@ == self.by_file@[f as int].1@,
                    before == units_of(self.by_file@.take(f as int)),
                    units_of(self.by_file@.take(f + 1)) == before + units@,
                    units_of(self.by_file@.take(f + 1)).len() <= all.len(),
                    forall|q: int|
                        0 <= q < units_of(self.by_file@.take(f + 1)).len() ==> #[trigger] units_of(
                            self.by_file@.take(f + 1),
                        )[q] == all[q],
                    k <= units@.len(),
                    n == claimed_total(before + units@.take(k as int)),
                decreases units@.len() - k,
            {
                let ghost seen = before + units@.take(k as int);
                let ghost next = before + units@.take(k + 1);
                proof {
                    assert(next.drop_last() =~= seen);
                    assert forall|q: int| 0 <= q < next.len() implies next[q] == all[q] by {
                        assert(next[q] == (before + units@)[q]);
                        assert(units_of(self.by_file@.take(f + 1))[q] == all[q]);
                    }
                    assert(next =~= all.take(next.len() as int));
                    lemma_claimed_prefix(all, next.len() as int);
                    assert(all[before.len() + k] == units@[k as int]);
                    assert(units@[k as int].range.wf());
                }
                let r = units[k].range;
                n = n + r.line_count();
                k += 1;
            }
            assert(units@.take(units@.len() as int) =~= units@);
            f += 1;
        }
        assert(self.by_file@.take(f as int) =~= self.by_file@);
        n
    }

    /// How many annotations this source holds.
    pub fn annotations(&self) -> (n: usize)
        requires
            units_of(self.by_file@).len() <= usize::MAX,
        ensures
            n == units_of(self.by_file@).len(),
    {
        let mut n: usize = 0;
        let mut f: usize = 0;
        while f < self.by_file.len()
            invariant
                units_of(self.by_file@).len() <= usize::MAX,
                f <= self.by_file@.len(),
                n == units_of(self.by_file@.take(f as int)).len(),
            decreases self.by_file@.len() - f,
        {
            proof {
                lemma_units_of_take(self.by_file@, f + 1);
                assert(self.by_file@.take(f + 1).drop_last() =~= self.by_file@.take(f as int));
            }
            n = n + self.by_file[f].1.len();
            f += 1;
        }
        assert(self.by_file@.take(f as int) =~= self.by_file@);
        n
    }

    /// The annotations on one file, or none.
    pub fn units_for(&self, file: &str) -> (r: &[Unit])
        requires
            self.wf(),
        ensures
            !has_file(self.by_file@, file@) ==> r@ == Seq::<Unit>::empty(),
            forall|i: int|
                0 <= i < self.by_file@.len() && (#[trigger] self.by_file@[i]).0@ == file@ ==> r@
                    == self.by_file@[i].1@,
    {
        let mut i: usize = 0;
        while i < self.by_file.len()
            invariant
                self.wf(),
                i <= self.by_file@.len(),
                forall|k: int| 0 <= k < i ==> (#[trigger] self.by_file@[k]).0@ != file@,
            decreases self.by_file@.len() - i,
        {
            if str_eq(self.by_file[i].0.as_str(), file) {
                proof {
                    assert forall|q: int|
                        0 <= q < self.by_file@.len() && (#[trigger] self.by_file@[q]).0@
                            == file@ implies q == i by {
                        if q < i {
                            assert(self.by_file@[q].0@ != self.by_file@[i as int].0@);
                        } else if q > i {
                            assert(self.by_file@[i as int].0@ != self.by_file@[q].0@);
                        }
                    }
                }
                return self.by_file[i].1.as_slice();
            }
            i += 1;
        }
        &[]
    }

    /// Files with at least one annotation, in file order.
    pub fn annotated_files(&self) -> (r: Vec<&(String, u32)>)
        ensures
            r@.map_values(|x: &(String, u32)| *x) == annotated_of(self.files@, self.by_file@),
    {
        let mut r: Vec<&(String, u32)> = Vec::new();
        let mut i: usize = 0;
        while i < self.files.len()
            invariant
                i <= self.files@.len(),
                r@.map_values(|x: &(String, u32)| *x) == annotated_of(
                    self.files@.take(i as int),
                    self.by_file@,
                ),
            decreases self.files@.len() - i,
        {
            let entry = &self.files[i];
            let mut found = false;
            let mut k: usize = 0;
            while k < self.by_file.len()
                invariant
                    k <= self.by_file@.len(),
                    found == exists|q: int|
                        0 <= q < k && (#[trigger] self.by_file@[q]).0@ == entry.0@,
                decreases self.by_file@.len() - k,
            {
                if str_eq(self.by_file[k].0.as_str(), entry.0.as_str()) {
                    found = true;
                }
                k += 1;
            }
            proof {
                assert(self.files@.take(i + 1).drop_last() =~= self.files@.take(i as int));
                assert(self.files@.take(i + 1).last() == *entry);
            }
            let ghost before = r@;
            if found {
                r.push(entry);
                assert(r@.map_values(|x: &(String, u32)| *x) =~= before.map_values(
                    |x: &(String, u32)| *x,
                ).push(*entry));
            }
            i += 1;
        }
        assert(self.files@.take(i as int) =~= self.files@);
        r
    }
}


/// Lines in every pinned file of every source.
pub open spec fn store_line_total(sources: Seq<SourceStore>) -> int
    decreases sources.len(),
{
    if sources.len() == 0 {
        0
    } else {
        store_line_total(sources.drop_last()) + line_total(sources.last().files@)
    }
}

/// Lines claimed across every source.
pub open spec fn store_claimed(sources: Seq<SourceStore>) -> int
    decreases sources.len(),
{
    if sources.len() == 0 {
        0
    } else {
        store_claimed(sources.drop_last()) + claimed_total(units_of(sources.last().by_file@))
    }
}

proof fn lemma_store_line_total_nonneg(s: Seq<SourceStore>)
    ensures
        0 <= store_line_total(s),
    decreases s.len(),
{
    if s.len() > 0 {
        lemma_store_line_total_nonneg(s.drop_last());
        lemma_line_total_nonneg(s.last().files@);
    }
}

proof fn lemma_store_line_total_prefix(s: Seq<SourceStore>, i: int)
    requires
        0 <= i <= s.len(),
    ensures
        0 <= store_line_total(s.take(i)) <= store_line_total(s),
    decreases s.len() - i,
{
    lemma_store_line_total_nonneg(s.take(i));
    if i < s.len() {
        lemma_store_line_total_prefix(s, i + 1);
        assert(s.take(i + 1).drop_last() =~= s.take(i));
        lemma_line_total_nonneg(s[i].files@);
    } else {
        assert(s.take(i) =~= s);
    }
}

proof fn lemma_store_claimed_nonneg(s: Seq<SourceStore>)
    requires
        forall|k: int| 0 <= k < s.len() ==> (#[trigger] s[k]).wf(),
    ensures
        0 <= store_claimed(s),
    decreases s.len(),
{
    if s.len() > 0 {
        let d = s.drop_last();
        assert forall|k: int| 0 <= k < d.len() implies (#[trigger] d[k]).wf() by {
            assert(d[k] == s[k]);
        }
        lemma_store_claimed_nonneg(d);
        assert(s[s.len() - 1].wf());
        lemma_claimed_nonneg(units_of(s.last().by_file@));
    }
}

proof fn lemma_store_claimed_prefix(s: Seq<SourceStore>, i: int)
    requires
        0 <= i <= s.len(),
        forall|k: int| 0 <= k < s.len() ==> (#[trigger] s[k]).wf(),
    ensures
        0 <= store_claimed(s.take(i)) <= store_claimed(s),
    decreases s.len() - i,
{
    let t = s.take(i);
    assert forall|k: int| 0 <= k < t.len() implies (#[trigger] t[k]).wf() by {
        assert(t[k] == s[k]);
    }
    lemma_store_claimed_nonneg(t);
    if i < s.len() {
        lemma_store_claimed_prefix(s, i + 1);
        assert(s.take(i + 1).drop_last() =~= s.take(i));
        assert(s[i].wf());
        lemma_claimed_nonneg(units_of(s[i].by_file@));
    } else {
        assert(s.take(i) =~= s);
    }
}

impl Store {
    /// The annotated source named `name`, if there is one.
    pub fn source(&self, name: &str) -> (r: Option<&SourceStore>)
        ensures
            r is None ==> forall|i: int|
                0 <= i < self.sources@.len() ==> (#[trigger] self.sources@[i]).name@ != name@,
            r matches Some(s) ==> exists|i: int|
                0 <= i < self.sources@.len() && *s == self.sources@[i] && s.name@ == name@
                    && forall|k: int| 0 <= k < i ==> (#[trigger] self.sources@[k]).name@ != name@,
    {
        let mut i: usize = 0;
        while i < self.sources.len()
            invariant
                i <= self.sources@.len(),
                forall|k: int| 0 <= k < i ==> (#[trigger] self.sources@[k]).name@ != name@,
            decreases self.sources@.len() - i,
        {
            if str_eq(self.sources[i].name.as_str(), name) {
                return Some(&self.sources[i]);
            }
            i += 1;
        }
        None
    }

    /// The first coverage source in pin order.
    pub fn first(&self) -> (r: &SourceStore)
        requires
            self.sources@.len() > 0,
        ensures
            *r == self.sources@[0],
    {
        &self.sources[0]
    }

    /// Lines in every pinned file of every source.
    pub fn total_lines(&self) -> (n: u32)
        requires
            store_line_total(self.sources@) <= u32::MAX,
        ensures
            n == store_line_total(self.sources@),
    {
        let mut n: u32 = 0;
        let mut i: usize = 0;
        while i < self.sources.len()
            invariant
                i <= self.sources@.len(),
                store_line_total(self.sources@) <= u32::MAX,
                n == store_line_total(self.sources@.take(i as int)),
            decreases self.sources@.len() - i,
        {
            proof {
                lemma_store_line_total_prefix(self.sources@, i + 1);
                assert(self.sources@.take(i + 1).drop_last() =~= self.sources@.take(i as int));
                lemma_line_total_nonneg(self.sources@[i as int].files@);
            }
            n = n + self.sources[i].total_lines();
            i += 1;
        }
        assert(self.sources@.take(i as int) =~= self.sources@);
        n
    }

    /// Lines claimed across every source.
    pub fn claimed_lines(&self) -> (n: u32)
        requires
            forall|k: int| 0 <= k < self.sources@.len() ==> (#[trigger] self.sources@[k]).wf(),
            store_claimed(self.sources@) <= u32::MAX,
        ensures
            n == store_claimed(self.sources@),
    {
        let mut n: u32 = 0;
        let mut i: usize = 0;
        while i < self.sources.len()
            invariant
                forall|k: int| 0 <= k < self.sources@.len() ==> (#[trigger] self.sources@[k]).wf(),
                i <= self.sources@.len(),
                store_claimed(self.sources@) <= u32::MAX,
                n == store_claimed(self.sources@.take(i as int)),
            decreases self.sources@.len() - i,
        {
            proof {
                lemma_store_claimed_prefix(self.sources@, i + 1);
                assert(self.sources@.take(i + 1).drop_last() =~= self.sources@.take(i as int));
            }
            n = n + self.sources[i].claimed_lines();
            i += 1;
        }
        assert(self.sources@.take(i as int) =~= self.sources@);
        n
    }

    /// How many annotations the store holds.
    pub fn annotations(&self) -> (n: usize)
        requires
            store_units(self.sources@).len() <= usize::MAX,
        ensures
            n == store_units(self.sources@).len(),
    {
        let mut n: usize = 0;
        let mut i: usize = 0;
        while i < self.sources.len()
            invariant
                i <= self.sources@.len(),
                store_units(self.sources@).len() <= usize::MAX,
                n == store_units(self.sources@.take(i as int)).len(),
            decreases self.sources@.len() - i,
        {
            proof {
                lemma_store_units_take(self.sources@, i + 1);
                assert(self.sources@.take(i + 1).drop_last() =~= self.sources@.take(i as int));
            }
            n = n + self.sources[i].annotations();
            i += 1;
        }
        assert(self.sources@.take(i as int) =~= self.sources@);
        n
    }

    /// Every annotation, across every source: source by source, file by
    /// file, in each file's order.
    pub fn all_units(&self) -> (r: Vec<&Unit>)
        ensures
            r@.map_values(|u: &Unit| *u) == store_units(self.sources@),
    {
        let mut r: Vec<&Unit> = Vec::new();
        let mut i: usize = 0;
        while i < self.sources.len()
            invariant
                i <= self.sources@.len(),
                r@.map_values(|u: &Unit| *u) == store_units(self.sources@.take(i as int)),
            decreases self.sources@.len() - i,
        {
            let src = &self.sources[i];
            let ghost before = r@.map_values(|u: &Unit| *u);
            let mut f: usize = 0;
            while f < src.by_file.len()
                invariant
                    i < self.sources@.len(),
                    *src == self.sources@[i as int],
                    f <= src.by_file@.len(),
                    r@.map_values(|u: &Unit| *u) == before + units_of(src.by_file@.take(f as int)),
                decreases src.by_file@.len() - f,
            {
                let units = &src.by_file[f].1;
                let ghost mid = r@.map_values(|u: &Unit| *u);
                let mut k: usize = 0;
                while k < units.len()
                    invariant
                        k <= units@.len(),
                        r@.map_values(|u: &Unit| *u) == mid + units@.take(k as int),
                    decreases units@.len() - k,
                {
                    let ghost pre = r@.map_values(|u: &Unit| *u);
                    r.push(&units[k]);
                    assert(r@.map_values(|u: &Unit| *u) =~= pre.push(units@[k as int]));
                    assert(units@.take(k + 1) =~= units@.take(k as int).push(units@[k as int]));
                    assert(r@.map_values(|u: &Unit| *u) =~= mid + units@.take(k + 1));
                    k += 1;
                }
                assert(units@.take(k as int) =~= units@);
                assert(src.by_file@.take(f + 1).drop_last() =~= src.by_file@.take(f as int));
                assert(r@.map_values(|u: &Unit| *u) =~= before + units_of(
                    src.by_file@.take(f + 1),
                ));
                f += 1;
            }
            assert(src.by_file@.take(f as int) =~= src.by_file@);
            assert(self.sources@.take(i + 1).drop_last() =~= self.sources@.take(i as int));
            assert(r@.map_values(|u: &Unit| *u) =~= store_units(self.sources@.take(i + 1)));
            i += 1;
        }
        assert(self.sources@.take(i as int) =~= self.sources@);
        r
    }

    /// The course unit with this id, if there is one.
    pub fn course_unit(&self, id: &str) -> (r: Option<&CourseUnit>)
        ensures
            r is None ==> forall|i: int|
                0 <= i < self.course@.len() ==> (#[trigger] self.course@[i]).id@ != id@,
            r matches Some(u) ==> exists|i: int|
                0 <= i < self.course@.len() && *u == self.course@[i] && u.id@ == id@ && forall|
                    k: int,
                | 0 <= k < i ==> (#[trigger] self.course@[k]).id@ != id@,
    {
        let mut i: usize = 0;
        while i < self.course.len()
            invariant
                i <= self.course@.len(),
                forall|k: int| 0 <= k < i ==> (#[trigger] self.course@[k]).id@ != id@,
            decreases self.course@.len() - i,
        {
            if str_eq(self.course[i].id.as_str(), id) {
                return Some(&self.course[i]);
            }
            i += 1;
        }
        None
    }
}

proof fn lemma_store_units_take(s: Seq<SourceStore>, i: int)
    requires
        0 <= i <= s.len(),
    ensures
        store_units(s.take(i)).len() <= store_units(s).len(),
    decreases s.len() - i,
{
    if i < s.len() {
        lemma_store_units_take(s, i + 1);
        assert(s.take(i + 1).drop_last() =~= s.take(i));
    } else {
        assert(s.take(i) =~= s);
    }
}

impl Default for SourceStore {
    /// A source with no name, files or annotations.
    fn default() -> (r: SourceStore)
        ensures
            r.name@.len() == 0,
            r.version@.len() == 0,
            r.source_id@.len() == 0,
            r.by_file@.len() == 0,
            r.files@.len() == 0,
            r.complete@.len() == 0,
    {
        SourceStore {
            name: String::new(),
            version: String::new(),
            source_id: String::new(),
            by_file: Vec::new(),
            files: Vec::new(),
            complete: Vec::new(),
        }
    }
}

impl Default for Store {
    /// A store with no sources, no course and no reading order.
    fn default() -> (r: Store)
        ensures
            r.sources@.len() == 0,
            r.course@.len() == 0,
            r.reading_order@.len() == 0,
    {
        Store { sources: Vec::new(), course: Vec::new(), reading_order: Vec::new() }
    }
}

/// One glossary entry, resolved against the pinned tree it quotes.
#[derive(Debug, Clone)]
pub struct GlossaryItem {
    pub entry: crate::schema::GlossaryEntry,
    pub range: LineRange,
    /// `"syn-3.0.5"`: which pinned tree the quotation comes from.
    pub source_id: String,
    /// The quoted lines, read from the pinned tree at load time rather than
    /// stored, so the quotation cannot rot.
    pub quoted: String,
}

/// One narrative unit, resolved against the trees its steps cite.
#[derive(Debug, Clone)]
pub struct NarrativeItem {
    pub unit: crate::schema::NarrativeUnit,
    pub steps: Vec<NarrativeStepItem>,
}

/// One step, with its citation resolved.
#[derive(Debug, Clone)]
pub struct NarrativeStepItem {
    pub step: crate::schema::NarrativeStep,
    pub range: LineRange,
    /// The crate and version cited; the walk crosses between trees, and the
    /// reader is told which one they are in.
    pub crate_name: String,
    pub version: String,
    /// The step cites an annotated crate: a crossing into a reference track.
    pub is_coverage: bool,
    /// The cited file is declared complete in that source's manifest, so an
    /// annotation is sure to contain the range and the step must name it.
    pub claimed: bool,
    /// The cited lines, read from the pinned tree at load time.
    pub quoted: String,
}

} // verus!
