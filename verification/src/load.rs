//! Resolving what the stores cite against the pinned trees.
//!
//! Reading directories and files is the caller's; what is decided here is
//! everything the site cannot render without: a glossary quotes a pinned
//! glossary source, a narrative step cites a pinned source that is not one,
//! and every line range exists in the file it names. The quoted lines are
//! taken from the tree at load time and never stored, so they cannot rot.
use crate::coverage::copy_text;
use crate::paths::{join, path_join};
use crate::schema::{parse_range_spec, GlossaryEntry, GlossaryFile, LineRange, NarrativeFile, NarrativeStep, RangeError};
use crate::store::{GlossaryItem, NarrativeItem, NarrativeStepItem};
use crate::store_edit::{join_lines, join_nl};
use crate::text::{chars_of, lines, split_lines, string_of, views};
use crate::vendor::{role_name, source_id_spec, Pin, Role, Source};
use vstd::prelude::*;

verus! {

/// Why a store could not be resolved.
#[derive(Debug)]
pub enum LoadError {
    /// A glossary file names a source the pin does not list.
    NotPinned { path: String, source: String },
    /// A glossary file quotes a source that is not pinned as a glossary source.
    NotGlossary { path: String, source: String, role: Role },
    /// A narrative step cites a source the pin does not list.
    StepNotPinned { path: String, step: String, source: String },
    /// A narrative step cites a glossary source, which is quoted, not walked.
    StepOnGlossary { path: String, step: String, source: String },
    /// An entry's or step's `lines` does not parse.
    BadRange { path: String, id: String, err: RangeError },
    /// The cited file is not in the pinned tree.
    MissingFile { path: String, id: String, file: String },
    /// The cited range runs past the end of the file.
    PastEnd { path: String, id: String, file: String, lines: String, len: usize },
    /// A file declares a schema version this build does not understand.
    Schema { path: String, found: u32 },
    /// A file is keyed to another source than the pinned one.
    SourceMismatch { path: String, found: String, pinned: String },
    /// An annotation's `lines` does not parse.
    AnnotationRange { id: String, err: RangeError },
}

/// A load error as plain values.
pub enum LoadFault {
    NotPinned(Seq<char>, Seq<char>),
    NotGlossary(Seq<char>, Seq<char>, Role),
    StepNotPinned(Seq<char>, Seq<char>, Seq<char>),
    StepOnGlossary(Seq<char>, Seq<char>, Seq<char>),
    BadRange(Seq<char>, Seq<char>, RangeError),
    MissingFile(Seq<char>, Seq<char>, Seq<char>),
    PastEnd(Seq<char>, Seq<char>, Seq<char>, Seq<char>, int),
    Schema(Seq<char>, u32),
    SourceMismatch(Seq<char>, Seq<char>, Seq<char>),
    AnnotationRange(Seq<char>, RangeError),
}

pub open spec fn load_fault(e: LoadError) -> LoadFault {
    match e {
        LoadError::NotPinned { path, source } => LoadFault::NotPinned(path@, source@),
        LoadError::NotGlossary { path, source, role } => LoadFault::NotGlossary(path@, source@, role),
        LoadError::StepNotPinned { path, step, source } => LoadFault::StepNotPinned(path@, step@, source@),
        LoadError::StepOnGlossary { path, step, source } => LoadFault::StepOnGlossary(path@, step@, source@),
        LoadError::BadRange { path, id, err } => LoadFault::BadRange(path@, id@, err),
        LoadError::MissingFile { path, id, file } => LoadFault::MissingFile(path@, id@, file@),
        LoadError::PastEnd { path, id, file, lines, len } => LoadFault::PastEnd(path@, id@, file@, lines@, len as int),
        LoadError::Schema { path, found } => LoadFault::Schema(path@, found),
        LoadError::SourceMismatch { path, found, pinned } => LoadFault::SourceMismatch(path@, found@, pinned@),
        LoadError::AnnotationRange { id, err } => LoadFault::AnnotationRange(id@, err),
    }
}

/// Lines `r.start..=r.end` of `t`, joined by newlines.
pub open spec fn quote_of(t: Seq<char>, r: LineRange) -> Seq<char> {
    join_nl(lines(t).subrange(r.start - 1, r.end as int))
}

/// The quoted lines of `text`, when the range is inside it.
pub fn quote(text: &str, r: LineRange) -> (q: Option<String>)
    requires
        r.wf(),
    ensures
        r.end <= lines(text@).len() ==> (q matches Some(s) && s@ == quote_of(text@, r)),
        r.end > lines(text@).len() ==> q is None,
{
    let ls = split_lines(chars_of(text).as_slice());
    if r.end as usize > ls.len() {
        return None;
    }
    let mut picked: Vec<Vec<char>> = Vec::new();
    let mut k: usize = (r.start - 1) as usize;
    let ghost lv = views(ls@);
    while k < r.end as usize
        invariant
            1 <= r.start <= r.end,
            r.end <= ls@.len(),
            r.start - 1 <= k <= r.end,
            lv == views(ls@),
            views(picked@) == lv.subrange(r.start - 1, k as int),
        decreases r.end - k,
    {
        let ghost p0 = views(picked@);
        picked.push(ls[k].clone());
        assert(views(picked@) =~= p0.push(lv[k as int]));
        k += 1;
        assert(views(picked@) =~= lv.subrange(r.start - 1, k as int));
    }
    let j = join_lines(&picked);
    Some(string_of(j.as_slice()))
}

/// The first source the pin lists under this id, or -1.
pub open spec fn find_by_id(s: Seq<Source>, id: Seq<char>, k: int) -> int
    decreases k,
{
    if k <= 0 {
        -1
    } else if find_by_id(s, id, k - 1) >= 0 {
        find_by_id(s, id, k - 1)
    } else if source_id_spec(s[k - 1].name@, s[k - 1].version@) == id {
        k - 1
    } else {
        -1
    }
}

proof fn lemma_find_by_id_stays(s: Seq<Source>, id: Seq<char>, k: int, n: int)
    requires
        0 < k <= n,
        find_by_id(s, id, k) >= 0,
    ensures
        find_by_id(s, id, n) == find_by_id(s, id, k),
    decreases n - k,
{
    if k < n {
        lemma_find_by_id_stays(s, id, k, n - 1);
    }
}

impl Pin {
    /// The first source pinned under this id (`name-version`).
    pub fn find_id(&self, id: &str) -> (r: Option<&Source>)
        ensures
            ({
                let i = find_by_id(self.sources@, id@, self.sources@.len() as int);
                match r {
                    Some(s) => 0 <= i < self.sources@.len() && *s == self.sources@[i],
                    None => i == -1,
                }
            }),
    {
        let ghost s = self.sources@;
        let mut k: usize = 0;
        while k < self.sources.len()
            invariant
                k <= s.len(),
                s == self.sources@,
                find_by_id(s, id@, k as int) == -1,
            decreases s.len() - k,
        {
            let sid = self.sources[k].source_id();
            if crate::text::str_eq(sid.as_str(), id) {
                proof {
                    lemma_find_by_id_stays(s, id@, k + 1, s.len() as int);
                }
                return Some(&self.sources[k]);
            }
            k += 1;
        }
        None
    }
}

/// What one cited range resolves to: its parsed range and quoted lines, or
/// why it cannot be. `text` is the cited file's contents, `None` when it is
/// not in the tree.
pub open spec fn cite(path: Seq<char>, id: Seq<char>, file: Seq<char>, lines_text: Seq<char>, text: Option<String>) -> Result<(LineRange, Seq<char>), LoadFault> {
    match parse_range_spec(lines_text) {
        Err(e) => Err(LoadFault::BadRange(path, id, e)),
        Ok(r) => match text {
            None => Err(LoadFault::MissingFile(path, id, file)),
            Some(t) => if r.end > lines(t@).len() {
                Err(LoadFault::PastEnd(path, id, file, lines_text, lines(t@).len() as int))
            } else {
                Ok((r, quote_of(t@, r)))
            },
        },
    }
}

fn resolve_cite(path: &String, id: &String, file: &String, lines_text: &String, text: &Option<String>) -> (r: Result<(LineRange, String), LoadError>)
    ensures
        match cite(path@, id@, file@, lines_text@, *text) {
            Err(f) => r matches Err(e) && load_fault(e) == f,
            Ok((range, q)) => r matches Ok((x, s)) && x == range && s@ == q,
        },
{
    let range = match LineRange::parse(lines_text.as_str()) {
        Err(e) => {
            return Err(LoadError::BadRange { path: copy_text(path), id: copy_text(id), err: e });
        },
        Ok(r) => r,
    };
    match text {
        None => Err(LoadError::MissingFile { path: copy_text(path), id: copy_text(id), file: copy_text(file) }),
        Some(t) => match quote(t.as_str(), range) {
            Some(q) => Ok((range, q)),
            None => {
                let n = split_lines(chars_of(t.as_str()).as_slice()).len();
                Err(LoadError::PastEnd { path: copy_text(path), id: copy_text(id), file: copy_text(file), lines: copy_text(lines_text), len: n })
            },
        },
    }
}

pub(crate) fn reversed<T>(v: Vec<T>) -> (r: Vec<T>)
    ensures
        r@ == v@.reverse(),
{
    let ghost v0 = v@;
    let mut v = v;
    let mut r: Vec<T> = Vec::new();
    while v.len() > 0
        invariant
            v0.reverse() == r@ + v@.reverse(),
        decreases v@.len(),
    {
        let ghost before = v@;
        let x = v.pop().unwrap();
        assert(before.reverse() =~= seq![x] + v@.reverse());
        r.push(x);
        assert(v0.reverse() =~= r@ + v@.reverse());
    }
    assert(v@.reverse() =~= Seq::<T>::empty());
    assert(r@ =~= v0.reverse());
    r
}

/// A glossary item as plain values: the entry's id, where it quotes, and
/// what.
pub open spec fn gloss_view(g: GlossaryItem) -> (Seq<char>, LineRange, Seq<char>, Seq<char>) {
    (g.entry.id@, g.range, g.source_id@, g.quoted@)
}

/// The items of one glossary file's first `k` entries, or the first fault.
pub open spec fn gloss_entries(path: Seq<char>, source: Seq<char>, es: Seq<GlossaryEntry>, texts: Seq<Option<String>>, k: int) -> Result<Seq<(Seq<char>, LineRange, Seq<char>, Seq<char>)>, LoadFault>
    decreases k,
{
    if k <= 0 {
        Ok(Seq::empty())
    } else {
        match gloss_entries(path, source, es, texts, k - 1) {
            Err(f) => Err(f),
            Ok(items) => match cite(path, es[k - 1].id@, es[k - 1].file@, es[k - 1].lines@, texts[k - 1]) {
                Err(f) => Err(f),
                Ok((r, q)) => Ok(items.push((es[k - 1].id@, r, source, q))),
            },
        }
    }
}

/// One glossary file: its source must be pinned, as a glossary source.
pub open spec fn gloss_file(pin: Seq<Source>, path: Seq<char>, g: GlossaryFile, texts: Seq<Option<String>>) -> Result<Seq<(Seq<char>, LineRange, Seq<char>, Seq<char>)>, LoadFault> {
    let i = find_by_id(pin, g.source@, pin.len() as int);
    if i < 0 {
        Err(LoadFault::NotPinned(path, g.source@))
    } else if pin[i].role != Role::Glossary {
        Err(LoadFault::NotGlossary(path, g.source@, pin[i].role))
    } else {
        gloss_entries(path, g.source@, g.entries@, texts, g.entries@.len() as int)
    }
}

proof fn lemma_gloss_entries_stay(path: Seq<char>, source: Seq<char>, es: Seq<GlossaryEntry>, texts: Seq<Option<String>>, k: int, n: int)
    requires
        0 < k <= n,
        gloss_entries(path, source, es, texts, k) is Err,
    ensures
        gloss_entries(path, source, es, texts, n) == gloss_entries(path, source, es, texts, k),
    decreases n - k,
{
    if k < n {
        lemma_gloss_entries_stay(path, source, es, texts, k, n - 1);
    }
}

/// Resolves one glossary file, read from `path`, against the pin. `texts`
/// holds, entry by entry, the contents of the file it quotes (`None` when
/// that file is not in the tree).
pub fn resolve_glossary_file(pin: &Pin, path: &String, g: GlossaryFile, texts: &Vec<Option<String>>) -> (r: Result<Vec<GlossaryItem>, LoadError>)
    requires
        texts@.len() == g.entries@.len(),
    ensures
        match gloss_file(pin.sources@, path@, g, texts@) {
            Err(f) => r matches Err(e) && load_fault(e) == f,
            Ok(items) => r matches Ok(v) && v@.map_values(|x: GlossaryItem| gloss_view(x)) == items
                && v@.map_values(|x: GlossaryItem| x.entry) == g.entries@,
        },
{
    let source = match pin.find_id(g.source.as_str()) {
        None => {
            return Err(LoadError::NotPinned { path: copy_text(path), source: copy_text(&g.source) });
        },
        Some(s) => s,
    };
    if source.role != Role::Glossary {
        return Err(LoadError::NotGlossary { path: copy_text(path), source: copy_text(&g.source), role: source.role });
    }
    let ghost es = g.entries@;
    let ghost g0 = g;
    assert(gloss_file(pin.sources@, path@, g0, texts@) == gloss_entries(path@, g0.source@, es, texts@, es.len() as int));
    let total = g.entries.len();
    let source_id = g.source;
    let mut rest = reversed(g.entries);
    let mut out: Vec<GlossaryItem> = Vec::new();
    let mut k: usize = 0;
    assert(out@.map_values(|x: GlossaryItem| gloss_view(x)) =~= Seq::<(Seq<char>, LineRange, Seq<char>, Seq<char>)>::empty());
    assert(out@.map_values(|x: GlossaryItem| x.entry) =~= es.take(0));
    while rest.len() > 0
        invariant
            k <= es.len(),
            total == es.len(),
            g0 == g,
            source_id@ == g0.source@,
            gloss_file(pin.sources@, path@, g0, texts@) == gloss_entries(path@, g0.source@, es, texts@, es.len() as int),
            rest@.len() == es.len() - k,
            forall|t: int| 0 <= t < rest@.len() ==> #[trigger] rest@[t] == es[es.len() - 1 - t],
            texts@.len() == es.len(),
            gloss_entries(path@, source_id@, es, texts@, k as int) == Ok::<Seq<(Seq<char>, LineRange, Seq<char>, Seq<char>)>, LoadFault>(out@.map_values(|x: GlossaryItem| gloss_view(x))),
            out@.map_values(|x: GlossaryItem| x.entry) == es.take(k as int),
        decreases rest@.len(),
    {
        let ghost before = rest@;
        let e = rest.pop().unwrap();
        assert(e == es[k as int]);
        assert forall|t: int| 0 <= t < rest@.len() implies #[trigger] rest@[t] == es[es.len() - 1 - t] by {
            assert(rest@[t] == before[t]);
        }
        match resolve_cite(path, &e.id, &e.file, &e.lines, &texts[k]) {
            Err(err) => {
                proof {
                    assert(gloss_entries(path@, source_id@, es, texts@, k + 1) == Err::<Seq<(Seq<char>, LineRange, Seq<char>, Seq<char>)>, LoadFault>(load_fault(err)));
                    lemma_gloss_entries_stay(path@, source_id@, es, texts@, k + 1, es.len() as int);
                }
                return Err(err);
            },
            Ok((range, quoted)) => {
                let ghost o0 = out@.map_values(|x: GlossaryItem| gloss_view(x));
                let ghost o1 = out@.map_values(|x: GlossaryItem| x.entry);
                let ghost eid = e.id@;
                out.push(GlossaryItem { entry: e, range, source_id: copy_text(&source_id), quoted });
                assert(out@.map_values(|x: GlossaryItem| gloss_view(x)) =~= o0.push((eid, range, source_id@, out@.last().quoted@)));
                assert(out@.map_values(|x: GlossaryItem| x.entry) =~= o1.push(es[k as int]));
                assert(es.take(k + 1) =~= es.take(k as int).push(es[k as int]));
            },
        }
        k += 1;
    }
    assert(es.take(k as int) =~= es);
    Ok(out)
}

/// Where a source's cited file lives under `repo`.
pub fn cited_path(repo: &str, source: &Source, file: &str) -> (r: String)
    ensures
        r@ == path_join(path_join(path_join(repo@, "vendor"@), source_id_spec(source.name@, source.version@)), file@),
{
    let d = source.dir(repo);
    join(d.as_str(), file)
}

/// Whether `file` is claimed ground in the source with id `sid`: the
/// source's manifest calls it complete. `claimed` pairs each annotated
/// source's id with its complete files.
pub open spec fn claimed_in(claimed: Seq<(String, Vec<String>)>, sid: Seq<char>, file: Seq<char>) -> bool {
    exists|i: int| 0 <= i < claimed.len() && (#[trigger] claimed[i]).0@ == sid && crate::coverage::texts(claimed[i].1@).contains(file)
        && forall|j: int| 0 <= j < i ==> (#[trigger] claimed[j]).0@ != sid
}

fn is_claimed(claimed: &Vec<(String, Vec<String>)>, sid: &str, file: &str) -> (r: bool)
    ensures
        r == claimed_in(claimed@, sid@, file@),
{
    let mut i: usize = 0;
    while i < claimed.len()
        invariant
            i <= claimed@.len(),
            forall|j: int| 0 <= j < i ==> (#[trigger] claimed@[j]).0@ != sid@,
        decreases claimed@.len() - i,
    {
        if crate::text::str_eq(claimed[i].0.as_str(), sid) {
            let r = crate::coverage::contains_text(&claimed[i].1, file);
            proof {
                if !r {
                    assert forall|x: int| 0 <= x < claimed@.len() && (#[trigger] claimed@[x]).0@ == sid@
                        && crate::coverage::texts(claimed@[x].1@).contains(file@) implies !(forall|j: int| 0 <= j < x ==> (#[trigger] claimed@[j]).0@ != sid@) by {
                        if x > i {
                            assert(claimed@[i as int].0@ == sid@);
                        }
                    }
                }
            }
            return r;
        }
        i += 1;
    }
    false
}

/// A resolved step as plain values.
pub open spec fn step_view(s: NarrativeStepItem) -> (Seq<char>, LineRange, Seq<char>, Seq<char>, bool, bool, Seq<char>) {
    (s.step.id@, s.range, s.crate_name@, s.version@, s.is_coverage, s.claimed, s.quoted@)
}

/// What one narrative step resolves to.
pub open spec fn step_spec(pin: Seq<Source>, claimed: Seq<(String, Vec<String>)>, path: Seq<char>, s: NarrativeStep, text: Option<String>) -> Result<(Seq<char>, LineRange, Seq<char>, Seq<char>, bool, bool, Seq<char>), LoadFault> {
    let i = find_by_id(pin, s.source@, pin.len() as int);
    if i < 0 {
        Err(LoadFault::StepNotPinned(path, s.id@, s.source@))
    } else if pin[i].role == Role::Glossary {
        Err(LoadFault::StepOnGlossary(path, s.id@, s.source@))
    } else {
        match cite(path, s.id@, s.file@, s.lines@, text) {
            Err(f) => Err(f),
            Ok((r, q)) => Ok((s.id@, r, pin[i].name@, pin[i].version@, pin[i].role == Role::Coverage, claimed_in(claimed, s.source@, s.file@), q)),
        }
    }
}

/// The first `k` steps of one unit, or the first fault.
pub open spec fn steps_spec(pin: Seq<Source>, claimed: Seq<(String, Vec<String>)>, path: Seq<char>, ss: Seq<NarrativeStep>, texts: Seq<Option<String>>, k: int) -> Result<Seq<(Seq<char>, LineRange, Seq<char>, Seq<char>, bool, bool, Seq<char>)>, LoadFault>
    decreases k,
{
    if k <= 0 {
        Ok(Seq::empty())
    } else {
        match steps_spec(pin, claimed, path, ss, texts, k - 1) {
            Err(f) => Err(f),
            Ok(items) => match step_spec(pin, claimed, path, ss[k - 1], texts[k - 1]) {
                Err(f) => Err(f),
                Ok(x) => Ok(items.push(x)),
            },
        }
    }
}

proof fn lemma_steps_stay(pin: Seq<Source>, claimed: Seq<(String, Vec<String>)>, path: Seq<char>, ss: Seq<NarrativeStep>, texts: Seq<Option<String>>, k: int, n: int)
    requires
        0 < k <= n,
        steps_spec(pin, claimed, path, ss, texts, k) is Err,
    ensures
        steps_spec(pin, claimed, path, ss, texts, n) == steps_spec(pin, claimed, path, ss, texts, k),
    decreases n - k,
{
    if k < n {
        lemma_steps_stay(pin, claimed, path, ss, texts, k, n - 1);
    }
}

fn resolve_step(pin: &Pin, claimed: &Vec<(String, Vec<String>)>, path: &String, s: NarrativeStep, text: &Option<String>) -> (r: Result<NarrativeStepItem, LoadError>)
    ensures
        match step_spec(pin.sources@, claimed@, path@, s, *text) {
            Err(f) => r matches Err(e) && load_fault(e) == f,
            Ok(x) => r matches Ok(item) && step_view(item) == x && item.step == s,
        },
{
    let source = match pin.find_id(s.source.as_str()) {
        None => {
            return Err(LoadError::StepNotPinned { path: copy_text(path), step: copy_text(&s.id), source: copy_text(&s.source) });
        },
        Some(x) => x,
    };
    if source.role == Role::Glossary {
        return Err(LoadError::StepOnGlossary { path: copy_text(path), step: copy_text(&s.id), source: copy_text(&s.source) });
    }
    let (range, quoted) = match resolve_cite(path, &s.id, &s.file, &s.lines, text) {
        Err(e) => {
            return Err(e);
        },
        Ok(x) => x,
    };
    let claimed_file = is_claimed(claimed, s.source.as_str(), s.file.as_str());
    Ok(NarrativeStepItem {
        range,
        crate_name: copy_text(&source.name),
        version: copy_text(&source.version),
        is_coverage: source.role == Role::Coverage,
        claimed: claimed_file,
        quoted,
        step: s,
    })
}

/// Resolves one narrative unit, read from `path`, against the pin.
/// `claimed` pairs each annotated source's id with the files its manifest
/// calls complete; `texts` holds, step by step, the contents of the file it
/// cites (`None` when that file is not in the tree).
pub fn resolve_narrative_file(pin: &Pin, claimed: &Vec<(String, Vec<String>)>, path: &String, n: NarrativeFile, texts: &Vec<Option<String>>) -> (r: Result<NarrativeItem, LoadError>)
    requires
        texts@.len() == n.steps@.len(),
    ensures
        match steps_spec(pin.sources@, claimed@, path@, n.steps@, texts@, n.steps@.len() as int) {
            Err(f) => r matches Err(e) && load_fault(e) == f,
            Ok(items) => r matches Ok(item) && item.unit == n.unit && item.steps@.map_values(|x: NarrativeStepItem| step_view(x)) == items
                && item.steps@.map_values(|x: NarrativeStepItem| x.step) == n.steps@,
        },
{
    let ghost ss = n.steps@;
    let ghost n0 = n;
    let total = n.steps.len();
    let unit = n.unit;
    let mut rest = reversed(n.steps);
    let mut out: Vec<NarrativeStepItem> = Vec::new();
    let mut k: usize = 0;
    assert(out@.map_values(|x: NarrativeStepItem| step_view(x)) =~= Seq::<(Seq<char>, LineRange, Seq<char>, Seq<char>, bool, bool, Seq<char>)>::empty());
    while rest.len() > 0
        invariant
            k <= ss.len(),
            total == ss.len(),
            n0 == n,
            ss == n0.steps@,
            rest@.len() == ss.len() - k,
            forall|t: int| 0 <= t < rest@.len() ==> #[trigger] rest@[t] == ss[ss.len() - 1 - t],
            texts@.len() == ss.len(),
            steps_spec(pin.sources@, claimed@, path@, ss, texts@, k as int) == Ok::<Seq<(Seq<char>, LineRange, Seq<char>, Seq<char>, bool, bool, Seq<char>)>, LoadFault>(out@.map_values(|x: NarrativeStepItem| step_view(x))),
            out@.map_values(|x: NarrativeStepItem| x.step) == ss.take(k as int),
        decreases rest@.len(),
    {
        let ghost before = rest@;
        let s = rest.pop().unwrap();
        assert(s == ss[k as int]);
        assert forall|t: int| 0 <= t < rest@.len() implies #[trigger] rest@[t] == ss[ss.len() - 1 - t] by {
            assert(rest@[t] == before[t]);
        }
        match resolve_step(pin, claimed, path, s, &texts[k]) {
            Err(err) => {
                proof {
                    assert(steps_spec(pin.sources@, claimed@, path@, ss, texts@, k + 1) == Err::<Seq<(Seq<char>, LineRange, Seq<char>, Seq<char>, bool, bool, Seq<char>)>, LoadFault>(load_fault(err)));
                    lemma_steps_stay(pin.sources@, claimed@, path@, ss, texts@, k + 1, ss.len() as int);
                }
                return Err(err);
            },
            Ok(item) => {
                let ghost o0 = out@.map_values(|x: NarrativeStepItem| step_view(x));
                let ghost o1 = out@.map_values(|x: NarrativeStepItem| x.step);
                out.push(item);
                assert(out@.map_values(|x: NarrativeStepItem| step_view(x)) =~= o0.push(step_view(out@.last())));
                assert(out@.map_values(|x: NarrativeStepItem| x.step) =~= o1.push(ss[k as int]));
                assert(ss.take(k + 1) =~= ss.take(k as int).push(ss[k as int]));
            },
        }
        k += 1;
    }
    assert(ss.take(k as int) =~= ss);
    Ok(NarrativeItem { unit, steps: out })
}

/// The first annotation file among the first `k` that is refused: a schema
/// this build does not understand, or a source other than the pinned one.
pub open spec fn file_fault(files: Seq<(String, crate::schema::AnnotationFile)>, source_id: Seq<char>, k: int) -> Option<LoadFault>
    decreases k,
{
    if k <= 0 {
        None
    } else {
        match file_fault(files, source_id, k - 1) {
            Some(f) => Some(f),
            None => {
                let (p, a) = files[k - 1];
                if a.schema != crate::schema::SCHEMA_VERSION {
                    Some(LoadFault::Schema(p@, a.schema))
                } else if a.source@ != source_id {
                    Some(LoadFault::SourceMismatch(p@, a.source@, source_id))
                } else {
                    None
                }
            },
        }
    }
}

proof fn lemma_file_fault_stays(files: Seq<(String, crate::schema::AnnotationFile)>, source_id: Seq<char>, k: int, n: int)
    requires
        0 < k <= n,
        file_fault(files, source_id, k) is Some,
    ensures
        file_fault(files, source_id, n) == file_fault(files, source_id, k),
    decreases n - k,
{
    if k < n {
        lemma_file_fault_stays(files, source_id, k, n - 1);
    }
}

/// Checks one source's annotation files, in path order, and gathers their
/// records: each file must declare the schema this build understands and
/// name `source_id`, which is passed in so that a store still keyed to an
/// outgoing version can be read.
pub fn collect_annotations(files: Vec<(String, crate::schema::AnnotationFile)>, source_id: &str) -> (r: Result<Vec<crate::schema::Annotation>, LoadError>)
    ensures
        match file_fault(files@, source_id@, files@.len() as int) {
            Some(f) => r matches Err(e) && load_fault(e) == f,
            None => r matches Ok(v) && v@ == crate::plan::all_anns(files@),
        },
{
    let ghost fs = files@;
    let total = files.len();
    let mut rest = reversed(files);
    let mut out: Vec<crate::schema::Annotation> = Vec::new();
    let mut k: usize = 0;
    assert(fs.take(0) =~= Seq::<(String, crate::schema::AnnotationFile)>::empty());
    while rest.len() > 0
        invariant
            k <= fs.len(),
            fs == files@,
            total == fs.len(),
            rest@.len() == fs.len() - k,
            forall|t: int| 0 <= t < rest@.len() ==> #[trigger] rest@[t] == fs[fs.len() - 1 - t],
            file_fault(fs, source_id@, k as int) is None,
            out@ == crate::plan::all_anns(fs.take(k as int)),
        decreases rest@.len(),
    {
        let ghost before = rest@;
        let (path, mut file) = rest.pop().unwrap();
        assert((path, file) == fs[k as int]);
        assert forall|t: int| 0 <= t < rest@.len() implies #[trigger] rest@[t] == fs[fs.len() - 1 - t] by {
            assert(rest@[t] == before[t]);
        }
        if file.schema != crate::schema::SCHEMA_VERSION {
            proof {
                assert(file_fault(fs, source_id@, k + 1) == Some(LoadFault::Schema(path@, file.schema)));
                lemma_file_fault_stays(fs, source_id@, k + 1, fs.len() as int);
            }
            return Err(LoadError::Schema { path, found: file.schema });
        }
        if !crate::text::str_eq(file.source.as_str(), source_id) {
            proof {
                assert(file_fault(fs, source_id@, k + 1) == Some(LoadFault::SourceMismatch(path@, file.source@, source_id@)));
                lemma_file_fault_stays(fs, source_id@, k + 1, fs.len() as int);
            }
            return Err(LoadError::SourceMismatch { path, found: file.source, pinned: string_of(chars_of(source_id).as_slice()) });
        }
        let ghost anns = file.annotations@;
        out.append(&mut file.annotations);
        proof {
            assert(fs.take(k + 1).drop_last() =~= fs.take(k as int));
            assert(fs.take(k + 1).last() == fs[k as int]);
        }
        k += 1;
    }
    assert(fs.take(k as int) =~= fs);
    Ok(out)
}

/// `a` sorts no later than `b`: by first line, then last line.
pub open spec fn range_le(a: LineRange, b: LineRange) -> bool {
    a.start < b.start || (a.start == b.start && a.end <= b.end)
}

/// `x` placed into ascending `s` after every element that sorts no later.
pub open spec fn insert_stable(s: Seq<(crate::schema::Annotation, LineRange)>, x: (crate::schema::Annotation, LineRange)) -> Seq<(crate::schema::Annotation, LineRange)>
    decreases s.len(),
{
    if s.len() == 0 {
        seq![x]
    } else if range_le(s.last().1, x.1) {
        s.push(x)
    } else {
        insert_stable(s.drop_last(), x).push(s.last())
    }
}

/// The stable sort of `s` by range.
pub open spec fn sort_stable(s: Seq<(crate::schema::Annotation, LineRange)>) -> Seq<(crate::schema::Annotation, LineRange)>
    decreases s.len(),
{
    if s.len() == 0 {
        Seq::empty()
    } else {
        insert_stable(sort_stable(s.drop_last()), s.last())
    }
}

/// A unit as the pair it was made from.
pub open spec fn unit_pairs(v: Seq<crate::store::Unit>) -> Seq<(crate::schema::Annotation, LineRange)> {
    v.map_values(|u: crate::store::Unit| (u.annotation, u.range))
}

fn insert_unit(v: &mut Vec<crate::store::Unit>, x: crate::store::Unit)
    ensures
        unit_pairs(final(v)@) == insert_stable(unit_pairs(old(v)@), (x.annotation, x.range)),
        forall|i: int| 0 <= i < final(v)@.len() ==> #[trigger] final(v)@[i].source@ == x.source@ || old(v)@.contains(final(v)@[i]),
{
    let ghost v0 = v@;
    let ghost p0 = unit_pairs(v0);
    let ghost xp = (x.annotation, x.range);
    let mut p: usize = v.len();
    let xr = x.range;
    assert(p0.take(p as int) =~= p0);
    assert(insert_stable(p0, xp) + p0.skip(p as int) =~= insert_stable(p0, xp));
    while p > 0 && !(v[p - 1].range.start < xr.start || (v[p - 1].range.start == xr.start && v[p - 1].range.end <= xr.end))
        invariant
            p <= v0.len(),
            v@ == v0,
            p0 == unit_pairs(v0),
            xr == x.range,
            xp == (x.annotation, x.range),
            insert_stable(p0, xp) == insert_stable(p0.take(p as int), xp) + p0.skip(p as int),
        decreases p,
    {
        proof {
            let t = p0.take(p as int);
            assert(t.drop_last() =~= p0.take(p - 1));
            assert(t.last() == p0[p - 1]);
            assert(p0[p - 1].1 == v0[p - 1].range);
            assert(!range_le(t.last().1, xp.1));
            assert(insert_stable(t, xp) == insert_stable(t.drop_last(), xp).push(t.last()));
            assert(seq![p0[p - 1]] + p0.skip(p as int) =~= p0.skip(p - 1));
            assert(insert_stable(p0.take(p - 1), xp).push(p0[p - 1]) + p0.skip(p as int) =~= insert_stable(p0.take(p - 1), xp) + p0.skip(p - 1));
        }
        p -= 1;
    }
    proof {
        let t = p0.take(p as int);
        if p > 0 {
            assert(t.last() == p0[p - 1]);
            assert(p0[p - 1].1 == v0[p - 1].range);
            assert(insert_stable(t, xp) == t.push(xp));
        } else {
            assert(t.len() == 0);
            assert(insert_stable(t, xp) == seq![xp]);
        }
    }
    v.insert(p, x);
    proof {
        assert(unit_pairs(v@) =~= p0.take(p as int).push(xp) + p0.skip(p as int));
        assert forall|i: int| 0 <= i < v@.len() implies #[trigger] v@[i].source@ == x.source@ || v0.contains(v@[i]) by {
            if i < p {
                assert(v@[i] == v0[i]);
            } else if i > p {
                assert(v@[i] == v0[i - 1]);
            }
        }
    }
}

/// The annotations with their parsed ranges, or the first that does not parse.
pub open spec fn parsed_spec(anns: Seq<crate::schema::Annotation>, k: int) -> Result<Seq<(crate::schema::Annotation, LineRange)>, LoadFault>
    decreases k,
{
    if k <= 0 {
        Ok(Seq::empty())
    } else {
        match parsed_spec(anns, k - 1) {
            Err(f) => Err(f),
            Ok(ps) => match parse_range_spec(anns[k - 1].lines@) {
                Err(e) => Err(LoadFault::AnnotationRange(anns[k - 1].id@, e)),
                Ok(r) => Ok(ps.push((anns[k - 1], r))),
            },
        }
    }
}

proof fn lemma_parsed_stays(anns: Seq<crate::schema::Annotation>, k: int, n: int)
    requires
        0 < k <= n,
        parsed_spec(anns, k) is Err,
    ensures
        parsed_spec(anns, n) == parsed_spec(anns, k),
    decreases n - k,
{
    if k < n {
        lemma_parsed_stays(anns, k, n - 1);
    }
}

/// The pairs of `ps` in file `f`, in order.
pub open spec fn in_file(ps: Seq<(crate::schema::Annotation, LineRange)>, f: Seq<char>) -> Seq<(crate::schema::Annotation, LineRange)>
    decreases ps.len(),
{
    if ps.len() == 0 {
        Seq::empty()
    } else if ps.last().0.file@ == f {
        in_file(ps.drop_last(), f).push(ps.last())
    } else {
        in_file(ps.drop_last(), f)
    }
}

/// `by_file` groups `ps` by file: files ascending, each once, each file's
/// units stably sorted by range, and every unit claimed for `name`.
pub open spec fn grouped(by_file: Seq<(String, Vec<crate::store::Unit>)>, ps: Seq<(crate::schema::Annotation, LineRange)>, name: Seq<char>) -> bool {
    let keys = by_file.map_values(|e: (String, Vec<crate::store::Unit>)| e.0@);
    &&& crate::cycle::ascending(keys)
    &&& forall|x: Seq<char>| keys.contains(x) <==> exists|i: int| 0 <= i < ps.len() && (#[trigger] ps[i]).0.file@ == x
    &&& forall|g: int| 0 <= g < by_file.len() ==> unit_pairs((#[trigger] by_file[g]).1@) == sort_stable(in_file(ps, by_file[g].0@))
    &&& forall|g: int, i: int| 0 <= g < by_file.len() && 0 <= i < by_file[g].1@.len() ==> (#[trigger] by_file[g].1@[i]).source@ == name
}

fn key_index(keys: &Vec<String>, f: &str) -> (r: usize)
    requires
        crate::coverage::texts(keys@).contains(f@),
    ensures
        r < keys@.len(),
        keys@[r as int]@ == f@,
{
    let mut g: usize = 0;
    while g < keys.len()
        invariant
            g <= keys@.len(),
            crate::coverage::texts(keys@).contains(f@),
            forall|j: int| 0 <= j < g ==> keys@[j]@ != f@,
        decreases keys@.len() - g,
    {
        if crate::text::str_eq(keys[g].as_str(), f) {
            return g;
        }
        g += 1;
    }
    proof {
        let j = choose|j: int| 0 <= j < crate::coverage::texts(keys@).len() && crate::coverage::texts(keys@)[j] == f@;
        assert(keys@[j]@ == f@);
    }
    0
}

fn parse_units(annotations: Vec<crate::schema::Annotation>, name: &str) -> (r: Result<Vec<crate::store::Unit>, LoadError>)
    ensures
        match parsed_spec(annotations@, annotations@.len() as int) {
            Err(f) => r matches Err(e) && load_fault(e) == f,
            Ok(ps) => r matches Ok(v) && unit_pairs(v@) == ps && forall|i: int| 0 <= i < v@.len() ==> (#[trigger] v@[i]).source@ == name@,
        },
{
    let ghost anns = annotations@;
    let total = annotations.len();
    let mut rest = reversed(annotations);
    let mut out: Vec<crate::store::Unit> = Vec::new();
    let mut k: usize = 0;
    assert(unit_pairs(out@) =~= Seq::<(crate::schema::Annotation, LineRange)>::empty());
    while rest.len() > 0
        invariant
            k <= anns.len(),
            anns == annotations@,
            total == anns.len(),
            rest@.len() == anns.len() - k,
            forall|t: int| 0 <= t < rest@.len() ==> #[trigger] rest@[t] == anns[anns.len() - 1 - t],
            parsed_spec(anns, k as int) == Ok::<Seq<(crate::schema::Annotation, LineRange)>, LoadFault>(unit_pairs(out@)),
            forall|i: int| 0 <= i < out@.len() ==> (#[trigger] out@[i]).source@ == name@,
        decreases rest@.len(),
    {
        let ghost before = rest@;
        let a = rest.pop().unwrap();
        assert(a == anns[k as int]);
        assert forall|t: int| 0 <= t < rest@.len() implies #[trigger] rest@[t] == anns[anns.len() - 1 - t] by {
            assert(rest@[t] == before[t]);
        }
        match LineRange::parse(a.lines.as_str()) {
            Err(e) => {
                proof {
                    assert(parsed_spec(anns, k + 1) == Err::<Seq<(crate::schema::Annotation, LineRange)>, LoadFault>(LoadFault::AnnotationRange(a.id@, e)));
                    lemma_parsed_stays(anns, k + 1, anns.len() as int);
                }
                return Err(LoadError::AnnotationRange { id: copy_text(&a.id), err: e });
            },
            Ok(range) => {
                let ghost o0 = unit_pairs(out@);
                let ghost ap = a;
                out.push(crate::store::Unit { annotation: a, range, source: string_of(chars_of(name).as_slice()) });
                assert(unit_pairs(out@) =~= o0.push((ap, range)));
            },
        }
        k += 1;
    }
    Ok(out)
}

proof fn lemma_in_file_step(ps: Seq<(crate::schema::Annotation, LineRange)>, t: int, f: Seq<char>)
    requires
        0 <= t < ps.len(),
    ensures
        in_file(ps.take(t + 1), f) == if ps[t].0.file@ == f { in_file(ps.take(t), f).push(ps[t]) } else { in_file(ps.take(t), f) },
{
    assert(ps.take(t + 1).drop_last() =~= ps.take(t));
    assert(ps.take(t + 1).last() == ps[t]);
}

/// One annotated source's store: the manifest (read from `manifest_path`)
/// must name the pinned `source_id`, and every annotation's range must
/// parse; the annotations are then grouped by file, in path order, each
/// file's stably sorted by range.
pub fn source_store(
    name: &str,
    version: &str,
    source_id: &str,
    manifest_path: &str,
    files: Vec<(String, u32)>,
    manifest: crate::schema::Manifest,
    annotations: Vec<crate::schema::Annotation>,
) -> (r: Result<crate::store::SourceStore, LoadError>)
    ensures
        manifest.source@ != source_id@ ==> (r matches Err(e) && load_fault(e) == LoadFault::SourceMismatch(manifest_path@, manifest.source@, source_id@)),
        manifest.source@ == source_id@ ==> match parsed_spec(annotations@, annotations@.len() as int) {
            Err(f) => r matches Err(e) && load_fault(e) == f,
            Ok(ps) => r matches Ok(s) && s.name@ == name@ && s.version@ == version@ && s.source_id@ == source_id@
                && s.files@ == files@ && s.complete@ == manifest.complete@ && grouped(s.by_file@, ps, name@),
        },
{
    if !crate::text::str_eq(manifest.source.as_str(), source_id) {
        return Err(LoadError::SourceMismatch {
            path: string_of(chars_of(manifest_path).as_slice()),
            found: manifest.source,
            pinned: string_of(chars_of(source_id).as_slice()),
        });
    }
    let ghost ps = match parsed_spec(annotations@, annotations@.len() as int) {
        Ok(x) => x,
        Err(_) => Seq::empty(),
    };
    let units = match parse_units(annotations, name) {
        Err(e) => {
            return Err(e);
        },
        Ok(u) => u,
    };
    // The files, ascending, each once.
    let mut keys: Vec<String> = Vec::new();
    let mut i: usize = 0;
    while i < units.len()
        invariant
            i <= units@.len(),
            unit_pairs(units@) == ps,
            crate::cycle::ascending(crate::coverage::texts(keys@)),
            forall|x: Seq<char>| crate::coverage::texts(keys@).contains(x) <==> exists|j: int| 0 <= j < i && (#[trigger] ps[j]).0.file@ == x,
        decreases units@.len() - i,
    {
        crate::cycle::insert_sorted(&mut keys, &units[i].annotation.file);
        proof {
            assert(ps[i as int].0.file@ == units@[i as int].annotation.file@);
            assert forall|x: Seq<char>| crate::coverage::texts(keys@).contains(x) <==> exists|j: int| 0 <= j < i + 1 && (#[trigger] ps[j]).0.file@ == x by {
                if x == units@[i as int].annotation.file@ {
                    assert(ps[i as int].0.file@ == x);
                }
            }
        }
        i += 1;
    }
    // One group per file, filled in annotation order.
    let mut groups: Vec<Vec<crate::store::Unit>> = Vec::new();
    let mut g: usize = 0;
    while g < keys.len()
        invariant
            g <= keys@.len(),
            groups@.len() == g,
            forall|h: int| 0 <= h < g ==> (#[trigger] groups@[h])@.len() == 0,
        decreases keys@.len() - g,
    {
        groups.push(Vec::new());
        g += 1;
    }
    let ghost kv = crate::coverage::texts(keys@);
    let total = units.len();
    let mut rest = reversed(units);
    let mut t: usize = 0;
    assert(ps.take(0) =~= Seq::<(crate::schema::Annotation, LineRange)>::empty());
    while rest.len() > 0
        invariant
            t <= ps.len(),
            total == ps.len(),
            rest@.len() == ps.len() - t,
            forall|q: int| 0 <= q < rest@.len() ==> (#[trigger] rest@[q]).annotation == ps[ps.len() - 1 - q].0 && rest@[q].range == ps[ps.len() - 1 - q].1 && rest@[q].source@ == name@,
            kv == crate::coverage::texts(keys@),
            crate::cycle::ascending(kv),
            groups@.len() == keys@.len(),
            forall|x: Seq<char>| kv.contains(x) <==> exists|j: int| 0 <= j < ps.len() && (#[trigger] ps[j]).0.file@ == x,
            forall|h: int| 0 <= h < groups@.len() ==> unit_pairs((#[trigger] groups@[h])@) == sort_stable(in_file(ps.take(t as int), kv[h])),
            forall|h: int, q: int| 0 <= h < groups@.len() && 0 <= q < groups@[h]@.len() ==> (#[trigger] groups@[h]@[q]).source@ == name@,
        decreases rest@.len(),
    {
        let ghost before = rest@;
        let u = rest.pop().unwrap();
        assert(u.annotation == ps[t as int].0 && u.range == ps[t as int].1);
        assert forall|q: int| 0 <= q < rest@.len() implies (#[trigger] rest@[q]).annotation == ps[ps.len() - 1 - q].0 && rest@[q].range == ps[ps.len() - 1 - q].1 && rest@[q].source@ == name@ by {
            assert(rest@[q] == before[q]);
        }
        assert(kv.contains(u.annotation.file@)) by {
            assert(ps[t as int].0.file@ == u.annotation.file@);
        }
        let h = key_index(&keys, u.annotation.file.as_str());
        let ghost g0 = groups@;
        let mut grp = groups.remove(h);
        let ghost gp = grp@;
        insert_unit(&mut grp, u);
        groups.insert(h, grp);
        proof {
            assert forall|x: int| 0 <= x < groups@.len() implies unit_pairs((#[trigger] groups@[x])@) == sort_stable(in_file(ps.take(t + 1), kv[x])) by {
                lemma_in_file_step(ps, t as int, kv[x]);
                assert(in_file(ps.take(t as int), kv[x]).push(ps[t as int]).drop_last() =~= in_file(ps.take(t as int), kv[x]));
                if x == h {
                    assert(groups@[x] == grp);
                    assert(kv[x] == u.annotation.file@);
                } else {
                    assert(groups@[x] == g0[x]);
                    assert(kv[x] != u.annotation.file@) by {
                        assert(kv[h as int] == u.annotation.file@);
                        assert(crate::cycle::ascending(kv));
                        if x < h {
                            crate::text::lemma_lex_irreflexive(kv[x]);
                        } else {
                            crate::text::lemma_lex_irreflexive(kv[h as int]);
                        }
                    }
                }
            }
            assert forall|x: int, q: int| 0 <= x < groups@.len() && 0 <= q < groups@[x]@.len() implies (#[trigger] groups@[x]@[q]).source@ == name@ by {
                if x == h {
                    if gp.contains(groups@[x]@[q]) {
                        let w = choose|w: int| 0 <= w < gp.len() && gp[w] == groups@[x]@[q];
                        assert(g0[h as int]@[w] == gp[w]);
                    }
                } else {
                    assert(groups@[x] == g0[x]);
                }
            }
        }
        t += 1;
    }
    assert(ps.take(t as int) =~= ps);
    // Pair each file with its group.
    let mut by_file: Vec<(String, Vec<crate::store::Unit>)> = Vec::new();
    let nk = keys.len();
    let mut krest = reversed(keys);
    let mut grest = reversed(groups);
    let mut b: usize = 0;
    while krest.len() > 0
        invariant
            b <= nk,
            nk == kv.len(),
            krest@.len() == nk - b,
            grest@.len() == nk - b,
            forall|q: int| 0 <= q < krest@.len() ==> (#[trigger] krest@[q])@ == kv[nk - 1 - q],
            forall|x: Seq<char>| kv.contains(x) <==> exists|j: int| 0 <= j < ps.len() && (#[trigger] ps[j]).0.file@ == x,
            crate::cycle::ascending(kv),
            by_file@.len() == b,
            forall|x: int| 0 <= x < b ==> (#[trigger] by_file@[x]).0@ == kv[x],
            forall|x: int| 0 <= x < b ==> unit_pairs((#[trigger] by_file@[x]).1@) == sort_stable(in_file(ps, kv[x])),
            forall|x: int, q: int| 0 <= x < b && 0 <= q < by_file@[x].1@.len() ==> (#[trigger] by_file@[x].1@[q]).source@ == name@,
            forall|q: int| 0 <= q < grest@.len() ==> unit_pairs((#[trigger] grest@[q])@) == sort_stable(in_file(ps, kv[nk - 1 - q])),
            forall|q: int, w: int| 0 <= q < grest@.len() && 0 <= w < grest@[q]@.len() ==> (#[trigger] grest@[q]@[w]).source@ == name@,
        decreases krest@.len(),
    {
        let ghost kb = krest@;
        let ghost gb = grest@;
        let k = krest.pop().unwrap();
        let grp = grest.pop().unwrap();
        assert forall|q: int| 0 <= q < krest@.len() implies (#[trigger] krest@[q])@ == kv[nk - 1 - q] by {
            assert(krest@[q] == kb[q]);
        }
        assert forall|q: int| 0 <= q < grest@.len() implies unit_pairs((#[trigger] grest@[q])@) == sort_stable(in_file(ps, kv[nk - 1 - q])) by {
            assert(grest@[q] == gb[q]);
        }
        assert forall|q: int, w: int| 0 <= q < grest@.len() && 0 <= w < grest@[q]@.len() implies (#[trigger] grest@[q]@[w]).source@ == name@ by {
            assert(grest@[q] == gb[q]);
        }
        assert(k@ == kv[b as int]);
        assert(unit_pairs(grp@) == sort_stable(in_file(ps, kv[b as int])));
        assert(forall|w: int| 0 <= w < grp@.len() ==> (#[trigger] grp@[w]).source@ == name@) by {
            assert forall|w: int| 0 <= w < grp@.len() implies (#[trigger] grp@[w]).source@ == name@ by {
                assert(gb[gb.len() - 1]@[w] == grp@[w]);
            }
        }
        by_file.push((k, grp));
        b += 1;
    }
    proof {
        let keys_v = by_file@.map_values(|e: (String, Vec<crate::store::Unit>)| e.0@);
        assert(keys_v =~= kv);
    }
    Ok(crate::store::SourceStore {
        name: string_of(chars_of(name).as_slice()),
        version: string_of(chars_of(version).as_slice()),
        source_id: string_of(chars_of(source_id).as_slice()),
        by_file,
        files,
        complete: manifest.complete,
    })
}

/// The whole store: the annotated sources in pin order, and the course
/// registry (read from `course_path`), which must name the first source.
pub fn assemble(sources: Vec<crate::store::SourceStore>, course: crate::schema::CourseFile, course_path: &str) -> (r: Result<crate::store::Store, LoadError>)
    requires
        sources@.len() > 0,
    ensures
        course.source@ != sources@[0].source_id@ ==> (r matches Err(e) && load_fault(e) == LoadFault::SourceMismatch(course_path@, course.source@, sources@[0].source_id@)),
        course.source@ == sources@[0].source_id@ ==> (r matches Ok(s) && s.sources@ == sources@ && s.reading_order@ == course.reading_order@ && s.course@ == course.units@),
{
    if !crate::text::str_eq(course.source.as_str(), sources[0].source_id.as_str()) {
        return Err(LoadError::SourceMismatch {
            path: string_of(chars_of(course_path).as_slice()),
            found: course.source,
            pinned: copy_text(&sources[0].source_id),
        });
    }
    Ok(crate::store::Store { sources, course: course.units, reading_order: course.reading_order })
}

/// Where one annotated source's store lives: `annotations/<crate>/`. Two
/// crates share file names, so each has its own directory.
pub fn store_dir(repo: &str, name: &str) -> (r: String)
    ensures
        r@ == path_join(path_join(repo@, "annotations"@), name@),
{
    let a = join(repo, "annotations");
    join(a.as_str(), name)
}

/// Where one annotated source's manifest lives.
pub fn manifest_path(repo: &str, name: &str) -> (r: String)
    ensures
        r@ == path_join(path_join(path_join(repo@, "annotations"@), name@), "manifest.toml"@),
{
    let d = store_dir(repo, name);
    join(d.as_str(), "manifest.toml")
}

} // verus!
