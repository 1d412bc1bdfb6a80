//! The plan a bump makes before touching anything: for every annotation,
//! where its lines went in the new release; for every file, what moved and
//! what is left unclaimed; and the registry lists as the new tree makes them.
//!
//! It works on plain values: the file lists and texts of both trees, the
//! annotation store as parsed, and the two registry lists. Reading them is
//! the caller's business.
use crate::coverage::texts;
use crate::remap::{
    boundaries_spec, count_false, matched_new, matched_old, matches_spec, too_big, Change, FileMap,
    RemapError, Remapped,
};
use crate::schema::{parse_range_spec, Annotation, AnnotationFile, LineRange, RangeError};
use crate::store_edit::{Edit, Edits};
use crate::text::{chars_of, decimal, decimal_chars, lines, split_lines, str_eq, string_of, views};
use vstd::prelude::*;

verus! {

/// What became of one annotation in the move.
#[derive(Debug, Clone, Copy, PartialEq, Eq, Structural)]
pub enum Fate {
    /// Its file is not in the new release.
    Gone,
    /// Every line it claimed was deleted.
    Deleted,
    /// It still points at code, at `range`; `change` says how that code moved.
    Moved { range: LineRange, change: Change },
}

/// Why no plan could be made.
#[derive(Debug)]
pub enum PlanError {
    /// The file changed too much to align.
    Align { file: String },
    /// An annotation's `lines` does not parse.
    Range { id: String, err: RangeError },
    /// An annotation's range runs past the end of its old file.
    Remap { id: String, file: String, err: RemapError },
}

/// A plan error as plain values.
pub enum PlanFault {
    Align(Seq<char>),
    Range(Seq<char>, RangeError),
    Remap(Seq<char>, Seq<char>, RemapError),
}

pub open spec fn fault_of(e: PlanError) -> PlanFault {
    match e {
        PlanError::Align { file } => PlanFault::Align(file@),
        PlanError::Range { id, err } => PlanFault::Range(id@, err),
        PlanError::Remap { id, file, err } => PlanFault::Remap(id@, file@, err),
    }
}

/// The last position of `f` in `fs`, or -1.
pub open spec fn index_in(fs: Seq<Seq<char>>, f: Seq<char>) -> int
    decreases fs.len(),
{
    if fs.len() == 0 {
        -1
    } else if fs.last() == f {
        fs.len() - 1
    } else {
        index_in(fs.drop_last(), f)
    }
}

/// No name occurs twice.
pub open spec fn distinct(fs: Seq<Seq<char>>) -> bool {
    forall|i: int, j: int| 0 <= i < j < fs.len() ==> fs[i] != fs[j]
}

/// What `FileMap::remap` answers for `range` on the alignment of `a` with `b`.
pub open spec fn remap_lines(a: Seq<Seq<char>>, b: Seq<Seq<char>>, range: LineRange) -> Result<Remapped, RemapError> {
    let m = matches_spec(a, b);
    let bs = boundaries_spec(m, a.len(), b.len());
    if range.end > a.len() {
        Err(RemapError::PastEnd { start: range.start, end: range.end, old_len: a.len() as usize })
    } else {
        let lo = bs[range.start - 1];
        let hi = bs[range.end as int];
        if lo >= hi {
            Ok(Remapped { range: None, change: Change::Deleted })
        } else {
            let deleted = count_false(matched_old(m, a.len()), range.start - 1, range.end as int);
            let inserted = count_false(matched_new(m, b.len()), lo, hi);
            let change = if deleted > 0 || inserted > 0 {
                Change::Edited { deleted: deleted as u32, inserted: inserted as u32 }
            } else if lo + 1 == range.start {
                Change::Unmoved
            } else {
                Change::Shifted
            };
            Ok(Remapped { range: Some(LineRange { start: (lo + 1) as u32, end: hi as u32 }), change })
        }
    }
}

/// Both trees hold the file, so it has an alignment.
pub open spec fn mapped(ofs: Seq<Seq<char>>, nfs: Seq<Seq<char>>, f: Seq<char>) -> bool {
    index_in(ofs, f) >= 0 && index_in(nfs, f) >= 0
}

/// The fate of one annotation, or what stops the plan at it.
pub open spec fn fate_spec(
    ofs: Seq<Seq<char>>,
    ots: Seq<Seq<char>>,
    nfs: Seq<Seq<char>>,
    nts: Seq<Seq<char>>,
    a: Annotation,
) -> Result<Fate, PlanFault> {
    match parse_range_spec(a.lines@) {
        Err(e) => Err(PlanFault::Range(a.id@, e)),
        Ok(r) => if !mapped(ofs, nfs, a.file@) {
            Ok(Fate::Gone)
        } else {
            match remap_lines(lines(ots[index_in(ofs, a.file@)]), lines(nts[index_in(nfs, a.file@)]), r) {
                Err(e) => Err(PlanFault::Remap(a.id@, a.file@, e)),
                Ok(out) => match out.range {
                    None => Ok(Fate::Deleted),
                    Some(nr) => if out.change is Deleted {
                        Ok(Fate::Deleted)
                    } else {
                        Ok(Fate::Moved { range: nr, change: out.change })
                    },
                },
            }
        },
    }
}

/// An annotation whose lines survive the move is carried to where they went,
/// however they changed: when its range, remapped from the old file to the
/// new one, still holds some lines and is not reported deleted (an edited
/// range included), its fate is `Moved` to exactly that range with that
/// change; and it is dropped as `Deleted` only when nothing of it survives.
pub proof fn law_surviving_lines_are_carried(
    ofs: Seq<Seq<char>>,
    ots: Seq<Seq<char>>,
    nfs: Seq<Seq<char>>,
    nts: Seq<Seq<char>>,
    a: Annotation,
    r: LineRange,
    out: Remapped,
)
    requires
        parse_range_spec(a.lines@) == Ok::<LineRange, RangeError>(r),
        index_in(ofs, a.file@) >= 0,
        index_in(nfs, a.file@) >= 0,
        remap_lines(lines(ots[index_in(ofs, a.file@)]), lines(nts[index_in(nfs, a.file@)]), r) == Ok::<Remapped, RemapError>(out),
    ensures
        (out.range matches Some(nr) && !(out.change is Deleted)) ==> fate_spec(ofs, ots, nfs, nts, a) == Ok::<Fate, PlanFault>(
            Fate::Moved { range: out.range->Some_0, change: out.change },
        ),
        fate_spec(ofs, ots, nfs, nts, a) == Ok::<Fate, PlanFault>(Fate::Deleted) <==> (out.range is None || out.change is Deleted),
{
}

/// An annotation whose file is missing from either tree is `Gone`, and one
/// whose lines do not parse stops the plan with that range error.
pub proof fn law_a_missing_file_is_gone(
    ofs: Seq<Seq<char>>,
    ots: Seq<Seq<char>>,
    nfs: Seq<Seq<char>>,
    nts: Seq<Seq<char>>,
    a: Annotation,
)
    ensures
        parse_range_spec(a.lines@) is Ok && (index_in(ofs, a.file@) < 0 || index_in(nfs, a.file@) < 0)
            ==> fate_spec(ofs, ots, nfs, nts, a) == Ok::<Fate, PlanFault>(Fate::Gone),
        parse_range_spec(a.lines@) matches Err(e) ==> fate_spec(ofs, ots, nfs, nts, a) == Err::<Fate, PlanFault>(
            PlanFault::Range(a.id@, parse_range_spec(a.lines@)->Err_0),
        ),
{
}

/// Every annotation of the store, file by file.
pub open spec fn all_anns(store: Seq<(String, AnnotationFile)>) -> Seq<Annotation>
    decreases store.len(),
{
    if store.len() == 0 {
        Seq::empty()
    } else {
        all_anns(store.drop_last()) + store.last().1.annotations@
    }
}

/// The fates of the first `k` annotations, or the first fault among them.
pub open spec fn fates_spec(
    ofs: Seq<Seq<char>>,
    ots: Seq<Seq<char>>,
    nfs: Seq<Seq<char>>,
    nts: Seq<Seq<char>>,
    anns: Seq<Annotation>,
    k: int,
) -> Result<Seq<Fate>, PlanFault>
    decreases k,
{
    if k <= 0 {
        Ok(Seq::empty())
    } else {
        match fates_spec(ofs, ots, nfs, nts, anns, k - 1) {
            Err(e) => Err(e),
            Ok(fs) => match fate_spec(ofs, ots, nfs, nts, anns[k - 1]) {
                Err(e) => Err(e),
                Ok(f) => Ok(fs.push(f)),
            },
        }
    }
}

/// The first of the first `k` old files that is in the new tree and too
/// large to align.
pub open spec fn align_fault(ofs: Seq<Seq<char>>, ots: Seq<Seq<char>>, nfs: Seq<Seq<char>>, nts: Seq<Seq<char>>, k: int) -> Option<Seq<char>>
    decreases k,
{
    if k <= 0 {
        None
    } else {
        match align_fault(ofs, ots, nfs, nts, k - 1) {
            Some(f) => Some(f),
            None => if index_in(nfs, ofs[k - 1]) >= 0 && too_big(lines(ots[k - 1]), lines(nts[index_in(nfs, ofs[k - 1])])) {
                Some(ofs[k - 1])
            } else {
                None
            },
        }
    }
}

/// What stops the plan, if anything: an alignment first, then the first
/// annotation in store order that cannot be carried.
pub open spec fn plan_fault(
    ofs: Seq<Seq<char>>,
    ots: Seq<Seq<char>>,
    nfs: Seq<Seq<char>>,
    nts: Seq<Seq<char>>,
    store: Seq<(String, AnnotationFile)>,
) -> Option<PlanFault> {
    match align_fault(ofs, ots, nfs, nts, ofs.len() as int) {
        Some(f) => Some(PlanFault::Align(f)),
        None => match fates_spec(ofs, ots, nfs, nts, all_anns(store), all_anns(store).len() as int) {
            Err(e) => Some(e),
            Ok(_) => None,
        },
    }
}

fn index_of_name(v: &Vec<String>, f: &str) -> (r: Option<usize>)
    ensures
        match r {
            Some(i) => index_in(texts(v@), f@) == i && i < v@.len(),
            None => index_in(texts(v@), f@) == -1,
        },
{
    let ghost t = texts(v@);
    let mut k: usize = v.len();
    assert(t.take(k as int) =~= t);
    while k > 0
        invariant
            k <= v@.len(),
            t == texts(v@),
            index_in(t, f@) == index_in(t.take(k as int), f@),
        decreases k,
    {
        assert(t.take(k as int).drop_last() =~= t.take(k - 1));
        assert(t.take(k as int).last() == v@[k - 1]@);
        if str_eq(v[k - 1].as_str(), f) {
            return Some(k - 1);
        }
        k -= 1;
    }
    None
}

pub proof fn lemma_index_bound(fs: Seq<Seq<char>>, f: Seq<char>)
    ensures
        -1 <= index_in(fs, f) < fs.len(),
        index_in(fs, f) >= 0 ==> fs[index_in(fs, f)] == f,
        index_in(fs, f) >= 0 <==> fs.contains(f),
    decreases fs.len(),
{
    if fs.len() > 0 {
        lemma_index_bound(fs.drop_last(), f);
        if fs.last() != f && fs.contains(f) {
            let i = choose|i: int| 0 <= i < fs.len() && fs[i] == f;
            assert(fs.drop_last()[i] == f);
        }
    }
}

/// One old file's alignment with its new self, for each old file the new
/// tree still has.
pub open spec fn maps_ok(
    maps: Seq<Option<FileMap>>,
    ofs: Seq<Seq<char>>,
    ots: Seq<Seq<char>>,
    nfs: Seq<Seq<char>>,
    nts: Seq<Seq<char>>,
    k: int,
) -> bool {
    &&& maps.len() == k
    &&& forall|i: int| 0 <= i < k ==> match #[trigger] maps[i] {
        Some(m) => index_in(nfs, ofs[i]) >= 0 && m.wf() && m.aligns(lines(ots[i]), lines(nts[index_in(nfs, ofs[i])])),
        None => index_in(nfs, ofs[i]) < 0,
    }
}

fn align_all(old_files: &Vec<String>, old_texts: &Vec<String>, new_files: &Vec<String>, new_texts: &Vec<String>) -> (r: Result<Vec<Option<FileMap>>, PlanError>)
    requires
        old_files@.len() == old_texts@.len(),
        new_files@.len() == new_texts@.len(),
    ensures
        match align_fault(texts(old_files@), texts(old_texts@), texts(new_files@), texts(new_texts@), old_files@.len() as int) {
            Some(f) => r matches Err(e) && fault_of(e) == PlanFault::Align(f),
            None => r matches Ok(maps) && maps_ok(maps@, texts(old_files@), texts(old_texts@), texts(new_files@), texts(new_texts@), old_files@.len() as int),
        },
{
    let ghost ofs = texts(old_files@);
    let ghost ots = texts(old_texts@);
    let ghost nfs = texts(new_files@);
    let ghost nts = texts(new_texts@);
    let mut maps: Vec<Option<FileMap>> = Vec::new();
    let mut i: usize = 0;
    while i < old_files.len()
        invariant
            i <= old_files@.len(),
            old_files@.len() == old_texts@.len(),
            new_files@.len() == new_texts@.len(),
            ofs == texts(old_files@),
            ots == texts(old_texts@),
            nfs == texts(new_files@),
            nts == texts(new_texts@),
            align_fault(ofs, ots, nfs, nts, i as int) is None,
            maps_ok(maps@, ofs, ots, nfs, nts, i as int),
        decreases old_files@.len() - i,
    {
        let rel = &old_files[i];
        match index_of_name(new_files, rel.as_str()) {
            None => {
                maps.push(None);
            },
            Some(j) => {
                proof {
                    lemma_index_bound(nfs, ofs[i as int]);
                }
                match FileMap::build(old_texts[i].as_str(), new_texts[j].as_str()) {
                    Err(_) => {
                        proof {
                            lemma_align_fault_stays(ofs, ots, nfs, nts, i + 1, old_files@.len() as int);
                        }
                        return Err(PlanError::Align { file: copy_string(rel) });
                    },
                    Ok(m) => {
                        maps.push(Some(m));
                    },
                }
            },
        }
        assert(maps_ok(maps@, ofs, ots, nfs, nts, i + 1)) by {
            assert forall|x: int| 0 <= x < i + 1 implies match #[trigger] maps@[x] {
                Some(m) => index_in(nfs, ofs[x]) >= 0 && m.wf() && m.aligns(lines(ots[x]), lines(nts[index_in(nfs, ofs[x])])),
                None => index_in(nfs, ofs[x]) < 0,
            } by {
                if x < i {
                    assert(maps@[x] == maps@.drop_last()[x]);
                }
            }
        }
        i += 1;
    }
    Ok(maps)
}

proof fn lemma_align_fault_stays(ofs: Seq<Seq<char>>, ots: Seq<Seq<char>>, nfs: Seq<Seq<char>>, nts: Seq<Seq<char>>, k: int, n: int)
    requires
        align_fault(ofs, ots, nfs, nts, k) is Some,
        0 < k <= n,
    ensures
        align_fault(ofs, ots, nfs, nts, n) == align_fault(ofs, ots, nfs, nts, k),
    decreases n - k,
{
    if k < n {
        lemma_align_fault_stays(ofs, ots, nfs, nts, k, n - 1);
    }
}

fn copy_string(s: &String) -> (r: String)
    ensures
        r@ == s@,
{
    string_of(chars_of(s.as_str()).as_slice())
}

proof fn lemma_remap_lines(m: FileMap, a: Seq<Seq<char>>, b: Seq<Seq<char>>, range: LineRange)
    requires
        m.aligns(a, b),
    ensures
        m.spec_remap(range) == remap_lines(a, b, range),
{
}

/// Works out one annotation's fate.
fn fate_of(
    old_files: &Vec<String>,
    old_texts: &Vec<String>,
    new_files: &Vec<String>,
    new_texts: &Vec<String>,
    maps: &Vec<Option<FileMap>>,
    a: &Annotation,
) -> (r: Result<Fate, PlanError>)
    requires
        old_files@.len() == old_texts@.len(),
        new_files@.len() == new_texts@.len(),
        maps_ok(maps@, texts(old_files@), texts(old_texts@), texts(new_files@), texts(new_texts@), old_files@.len() as int),
        forall|k: int| 0 <= k < new_texts@.len() ==> lines(#[trigger] new_texts@[k]@).len() <= u32::MAX,
    ensures
        match fate_spec(texts(old_files@), texts(old_texts@), texts(new_files@), texts(new_texts@), *a) {
            Err(f) => r matches Err(e) && fault_of(e) == f,
            Ok(x) => r == Ok::<Fate, PlanError>(x),
        },
{
    let ghost ofs = texts(old_files@);
    let ghost ots = texts(old_texts@);
    let ghost nfs = texts(new_files@);
    let ghost nts = texts(new_texts@);
    let range = match LineRange::parse(a.lines.as_str()) {
        Err(e) => {
            return Err(PlanError::Range { id: copy_string(&a.id), err: e });
        },
        Ok(r) => r,
    };
    let oi = index_of_name(old_files, a.file.as_str());
    let ni = index_of_name(new_files, a.file.as_str());
    let (i, j) = match (oi, ni) {
        (Some(i), Some(j)) => (i, j),
        _ => {
            return Ok(Fate::Gone);
        },
    };
    proof {
        lemma_index_bound(ofs, a.file@);
        lemma_index_bound(nfs, a.file@);
        assert(ofs[i as int] == a.file@);
    }
    let m = match &maps[i] {
        Some(m) => m,
        None => {
            assert(maps@[i as int] is Some);
            return Ok(Fate::Gone);
        },
    };
    proof {
        assert(index_in(nfs, ofs[i as int]) == j);
        assert(m.aligns(lines(ots[i as int]), lines(nts[j as int])));
        assert(nts[j as int] == new_texts@[j as int]@);
        lemma_remap_lines(*m, lines(ots[i as int]), lines(nts[j as int]), range);
    }
    match m.remap(range) {
        Err(e) => Err(PlanError::Remap { id: copy_string(&a.id), file: copy_string(&a.file), err: e }),
        Ok(out) => match out.range {
            None => Ok(Fate::Deleted),
            Some(nr) => {
                if matches!(out.change, Change::Deleted) {
                    Ok(Fate::Deleted)
                } else {
                    Ok(Fate::Moved { range: nr, change: out.change })
                }
            },
        },
    }
}

proof fn lemma_all_anns_split(store: Seq<(String, AnnotationFile)>, i: int)
    requires
        0 <= i <= store.len(),
    ensures
        all_anns(store) == all_anns(store.take(i)) + all_anns(store.skip(i)),
    decreases store.len(),
{
    if i == store.len() {
        assert(store.take(i) =~= store);
        assert(store.skip(i).len() == 0);
        assert(all_anns(store) + Seq::<Annotation>::empty() =~= all_anns(store));
    } else {
        let d = store.drop_last();
        lemma_all_anns_split(d, i);
        assert(store.take(i) =~= d.take(i));
        assert(store.skip(i).drop_last() =~= d.skip(i));
        assert(store.skip(i).last() == store.last());
        assert(all_anns(store) =~= all_anns(store.take(i)) + all_anns(store.skip(i)));
    }
}

proof fn lemma_all_anns_step(store: Seq<(String, AnnotationFile)>, i: int)
    requires
        0 <= i < store.len(),
    ensures
        all_anns(store.take(i + 1)) == all_anns(store.take(i)) + store[i].1.annotations@,
{
    assert(store.take(i + 1).drop_last() =~= store.take(i));
    assert(store.take(i + 1).last() == store[i]);
}

proof fn lemma_fates_stay(ofs: Seq<Seq<char>>, ots: Seq<Seq<char>>, nfs: Seq<Seq<char>>, nts: Seq<Seq<char>>, anns: Seq<Annotation>, k: int, n: int)
    requires
        fates_spec(ofs, ots, nfs, nts, anns, k) is Err,
        0 < k <= n,
    ensures
        fates_spec(ofs, ots, nfs, nts, anns, n) == fates_spec(ofs, ots, nfs, nts, anns, k),
    decreases n - k,
{
    if k < n {
        lemma_fates_stay(ofs, ots, nfs, nts, anns, k, n - 1);
    }
}

/// The fates of every annotation in the store, in store order.
fn all_fates(
    old_files: &Vec<String>,
    old_texts: &Vec<String>,
    new_files: &Vec<String>,
    new_texts: &Vec<String>,
    maps: &Vec<Option<FileMap>>,
    store: &Vec<(String, AnnotationFile)>,
) -> (r: Result<Vec<Fate>, PlanError>)
    requires
        old_files@.len() == old_texts@.len(),
        new_files@.len() == new_texts@.len(),
        maps_ok(maps@, texts(old_files@), texts(old_texts@), texts(new_files@), texts(new_texts@), old_files@.len() as int),
        forall|k: int| 0 <= k < new_texts@.len() ==> lines(#[trigger] new_texts@[k]@).len() <= u32::MAX,
    ensures
        match fates_spec(texts(old_files@), texts(old_texts@), texts(new_files@), texts(new_texts@), all_anns(store@), all_anns(store@).len() as int) {
            Err(f) => r matches Err(e) && fault_of(e) == f,
            Ok(fs) => r matches Ok(v) && v@ == fs,
        },
{
    let ghost ofs = texts(old_files@);
    let ghost ots = texts(old_texts@);
    let ghost nfs = texts(new_files@);
    let ghost nts = texts(new_texts@);
    let ghost flat = all_anns(store@);
    let mut out: Vec<Fate> = Vec::new();
    let mut i: usize = 0;
    assert(store@.take(0) =~= Seq::<(String, AnnotationFile)>::empty());
    while i < store.len()
        invariant
            i <= store@.len(),
            old_files@.len() == old_texts@.len(),
            new_files@.len() == new_texts@.len(),
            ofs == texts(old_files@),
            ots == texts(old_texts@),
            nfs == texts(new_files@),
            nts == texts(new_texts@),
            flat == all_anns(store@),
            maps_ok(maps@, ofs, ots, nfs, nts, old_files@.len() as int),
            forall|k: int| 0 <= k < new_texts@.len() ==> lines(#[trigger] new_texts@[k]@).len() <= u32::MAX,
            out@.len() == all_anns(store@.take(i as int)).len(),
            fates_spec(ofs, ots, nfs, nts, flat, out@.len() as int) == Ok::<Seq<Fate>, PlanFault>(out@),
        decreases store@.len() - i,
    {
        let anns = &store[i].1.annotations;
        let ghost off = out@.len() as int;
        proof {
            lemma_all_anns_step(store@, i as int);
            lemma_all_anns_split(store@, i + 1);
        }
        let mut j: usize = 0;
        while j < anns.len()
            invariant
                i < store@.len(),
                *anns == store@[i as int].1.annotations,
                j <= anns@.len(),
                old_files@.len() == old_texts@.len(),
                new_files@.len() == new_texts@.len(),
                ofs == texts(old_files@),
                ots == texts(old_texts@),
                nfs == texts(new_files@),
                nts == texts(new_texts@),
                flat == all_anns(store@),
                flat == all_anns(store@.take(i + 1)) + all_anns(store@.skip(i + 1)),
                all_anns(store@.take(i + 1)) == all_anns(store@.take(i as int)) + anns@,
                off == all_anns(store@.take(i as int)).len(),
                maps_ok(maps@, ofs, ots, nfs, nts, old_files@.len() as int),
                forall|k: int| 0 <= k < new_texts@.len() ==> lines(#[trigger] new_texts@[k]@).len() <= u32::MAX,
                out@.len() == off + j,
                fates_spec(ofs, ots, nfs, nts, flat, out@.len() as int) == Ok::<Seq<Fate>, PlanFault>(out@),
            decreases anns@.len() - j,
        {
            assert(flat[off + j] == anns@[j as int]);
            match fate_of(old_files, old_texts, new_files, new_texts, maps, &anns[j]) {
                Err(e) => {
                    proof {
                        lemma_fates_stay(ofs, ots, nfs, nts, flat, off + j + 1, flat.len() as int);
                    }
                    return Err(e);
                },
                Ok(f) => {
                    out.push(f);
                },
            }
            j += 1;
        }
        i += 1;
    }
    assert(store@.take(i as int) =~= store@);
    Ok(out)
}

/// Why an annotation has nothing left to point at.
#[derive(Debug, Clone, Copy, PartialEq, Eq, Structural)]
pub enum OrphanWhy {
    /// The file is gone from the new release.
    FileGone,
    /// Every line it claimed was deleted.
    AllDeleted,
}

impl OrphanWhy {
    /// The reason in words, as the report gives it.
    pub fn text(&self) -> (s: String)
        ensures
            s@ == why_text(*self),
    {
        match self {
            OrphanWhy::FileGone => String::from_str("the file is gone from the new release"),
            OrphanWhy::AllDeleted => String::from_str("every line it claimed was deleted"),
        }
    }
}

/// The reason in words.
pub open spec fn why_text(w: OrphanWhy) -> Seq<char> {
    match w {
        OrphanWhy::FileGone => "the file is gone from the new release"@,
        OrphanWhy::AllDeleted => "every line it claimed was deleted"@,
    }
}

/// One annotation that survived the move but no longer describes the same code.
#[derive(Debug)]
pub struct Review {
    pub id: String,
    pub file: String,
    pub from: String,
    pub to: String,
    pub deleted: u32,
    pub inserted: u32,
}

/// One annotation with nothing left to point at.
#[derive(Debug)]
pub struct Orphan {
    pub id: String,
    pub file: String,
    pub from: String,
    pub why: OrphanWhy,
}

/// What the move does to one file of the new tree.
#[derive(Debug)]
pub struct FileOutcome {
    pub file: String,
    pub old_lines: u32,
    pub new_lines: u32,
    pub shifted: usize,
    pub edited: usize,
    pub dropped: usize,
    pub unclaimed: u32,
}

pub open spec fn review_view(r: Review) -> (Seq<char>, Seq<char>, Seq<char>, Seq<char>, int, int) {
    (r.id@, r.file@, r.from@, r.to@, r.deleted as int, r.inserted as int)
}

pub open spec fn orphan_view(o: Orphan) -> (Seq<char>, Seq<char>, Seq<char>, OrphanWhy) {
    (o.id@, o.file@, o.from@, o.why)
}

pub open spec fn outcome_view(o: FileOutcome) -> (Seq<char>, int, int, int, int, int, int) {
    (o.file@, o.old_lines as int, o.new_lines as int, o.shifted as int, o.edited as int, o.dropped as int, o.unclaimed as int)
}

/// The orphans among the annotations, in order, with their reasons.
pub open spec fn orphans_spec(anns: Seq<Annotation>, fs: Seq<Fate>) -> Seq<(Seq<char>, Seq<char>, Seq<char>, OrphanWhy)>
    decreases anns.len(),
{
    if anns.len() == 0 || fs.len() == 0 {
        Seq::empty()
    } else {
        let a = anns.last();
        let rest = orphans_spec(anns.drop_last(), fs.drop_last());
        match fs.last() {
            Fate::Gone => rest.push((a.id@, a.file@, a.lines@, OrphanWhy::FileGone)),
            Fate::Deleted => rest.push((a.id@, a.file@, a.lines@, OrphanWhy::AllDeleted)),
            Fate::Moved { .. } => rest,
        }
    }
}

/// The annotations whose code changed under them, in order: id, file, old
/// and new `lines`, and the lines deleted and inserted inside the span.
pub open spec fn reviews_spec(anns: Seq<Annotation>, fs: Seq<Fate>) -> Seq<(Seq<char>, Seq<char>, Seq<char>, Seq<char>, int, int)>
    decreases anns.len(),
{
    if anns.len() == 0 || fs.len() == 0 {
        Seq::empty()
    } else {
        let a = anns.last();
        let rest = reviews_spec(anns.drop_last(), fs.drop_last());
        match fs.last() {
            Fate::Moved { range, change: Change::Edited { deleted, inserted } } => rest.push(
                (a.id@, a.file@, a.lines@, crate::bump::range_text(range), deleted as int, inserted as int),
            ),
            _ => rest,
        }
    }
}

/// For the annotations of file `f`: how many shifted, were edited, and
/// were dropped.
pub open spec fn tally(anns: Seq<Annotation>, fs: Seq<Fate>, f: Seq<char>) -> (int, int, int)
    decreases anns.len(),
{
    if anns.len() == 0 || fs.len() == 0 {
        (0, 0, 0)
    } else {
        let (s, e, d) = tally(anns.drop_last(), fs.drop_last(), f);
        if anns.last().file@ != f {
            (s, e, d)
        } else {
            match fs.last() {
                Fate::Moved { change: Change::Shifted, .. } => (s + 1, e, d),
                Fate::Moved { change: Change::Edited { .. }, .. } => (s, e + 1, d),
                Fate::Moved { .. } => (s, e, d),
                _ => (s, e, d + 1),
            }
        }
    }
}

/// The new ranges claimed in file `f`.
pub open spec fn claimed_spec(anns: Seq<Annotation>, fs: Seq<Fate>, f: Seq<char>) -> Seq<LineRange>
    decreases anns.len(),
{
    if anns.len() == 0 || fs.len() == 0 {
        Seq::empty()
    } else {
        let rest = claimed_spec(anns.drop_last(), fs.drop_last(), f);
        match fs.last() {
            Fate::Moved { range, .. } => if anns.last().file@ == f {
                rest.push(range)
            } else {
                rest
            },
            _ => rest,
        }
    }
}

/// Some range among the first `k` contains line `l`.
pub open spec fn covered(rs: Seq<LineRange>, k: int, l: int) -> bool
    decreases k,
{
    if k <= 0 {
        false
    } else {
        covered(rs, k - 1, l) || (rs[k - 1].start <= l <= rs[k - 1].end)
    }
}

/// How many of lines `1..=n` no range contains.
pub open spec fn uncovered(rs: Seq<LineRange>, n: int) -> int
    decreases n,
{
    if n <= 0 {
        0
    } else {
        uncovered(rs, n - 1) + if covered(rs, rs.len() as int, n) { 0int } else { 1int }
    }
}

proof fn lemma_uncovered_bound(rs: Seq<LineRange>, n: int)
    ensures
        0 <= uncovered(rs, n) <= if n < 0 { 0 } else { n },
    decreases n,
{
    if n > 0 {
        lemma_uncovered_bound(rs, n - 1);
    }
}

fn covers(rs: &Vec<LineRange>, l: u32) -> (r: bool)
    ensures
        r == covered(rs@, rs@.len() as int, l as int),
{
    let mut k: usize = 0;
    while k < rs.len()
        invariant
            k <= rs@.len(),
            !covered(rs@, k as int, l as int),
        decreases rs@.len() - k,
    {
        if rs[k].start <= l && l <= rs[k].end {
            proof {
                lemma_covered_grows(rs@, k + 1, rs@.len() as int, l as int);
            }
            return true;
        }
        k += 1;
    }
    false
}

proof fn lemma_covered_grows(rs: Seq<LineRange>, k: int, n: int, l: int)
    requires
        covered(rs, k, l),
        k <= n,
    ensures
        covered(rs, n, l),
    decreases n - k,
{
    if k < n {
        lemma_covered_grows(rs, k, n - 1, l);
    }
}

/// Lines of `1..=n` that no range claims.
fn unclaimed_lines(rs: &Vec<LineRange>, n: u32) -> (r: u32)
    ensures
        r == uncovered(rs@, n as int),
{
    let mut count: u32 = 0;
    let mut y: u32 = 0;
    while y < n
        invariant
            y <= n,
            count == uncovered(rs@, y as int),
            count <= y,
        decreases n - y,
    {
        y += 1;
        if !covers(rs, y) {
            count += 1;
        }
    }
    count
}

pub open spec fn ann_view(v: Seq<&Annotation>) -> Seq<Annotation> {
    v.map_values(|a: &Annotation| *a)
}

fn flatten(store: &Vec<(String, AnnotationFile)>) -> (r: Vec<&Annotation>)
    ensures
        ann_view(r@) == all_anns(store@),
{
    let mut r: Vec<&Annotation> = Vec::new();
    let mut i: usize = 0;
    assert(store@.take(0) =~= Seq::<(String, AnnotationFile)>::empty());
    assert(ann_view(r@) =~= Seq::<Annotation>::empty());
    while i < store.len()
        invariant
            i <= store@.len(),
            ann_view(r@) == all_anns(store@.take(i as int)),
        decreases store@.len() - i,
    {
        let anns = &store[i].1.annotations;
        let ghost base = ann_view(r@);
        let mut j: usize = 0;
        while j < anns.len()
            invariant
                i < store@.len(),
                *anns == store@[i as int].1.annotations,
                j <= anns@.len(),
                ann_view(r@) == base + anns@.take(j as int),
            decreases anns@.len() - j,
        {
            let ghost r0 = ann_view(r@);
            r.push(&anns[j]);
            assert(ann_view(r@) =~= r0.push(anns@[j as int]));
            assert(ann_view(r@) =~= base + anns@.take(j + 1));
            j += 1;
        }
        proof {
            lemma_all_anns_step(store@, i as int);
            assert(anns@.take(j as int) =~= anns@);
        }
        i += 1;
    }
    assert(store@.take(i as int) =~= store@);
    r
}

fn orphans_of(anns: &Vec<&Annotation>, fates: &Vec<Fate>) -> (r: Vec<Orphan>)
    requires
        anns@.len() == fates@.len(),
    ensures
        r@.map_values(|o: Orphan| orphan_view(o)) == orphans_spec(ann_view(anns@), fates@),
{
    let ghost av = ann_view(anns@);
    let mut r: Vec<Orphan> = Vec::new();
    let mut k: usize = 0;
    assert(r@.map_values(|o: Orphan| orphan_view(o)) =~= orphans_spec(av.take(0), fates@.take(0)));
    while k < anns.len()
        invariant
            k <= anns@.len(),
            anns@.len() == fates@.len(),
            av == ann_view(anns@),
            r@.map_values(|o: Orphan| orphan_view(o)) == orphans_spec(av.take(k as int), fates@.take(k as int)),
        decreases anns@.len() - k,
    {
        let a = anns[k];
        let ghost r0 = r@.map_values(|o: Orphan| orphan_view(o));
        assert(av.take(k + 1).drop_last() =~= av.take(k as int));
        assert(fates@.take(k + 1).drop_last() =~= fates@.take(k as int));
        assert(av.take(k + 1).last() == *a);
        match fates[k] {
            Fate::Gone => {
                r.push(Orphan { id: copy_string(&a.id), file: copy_string(&a.file), from: copy_string(&a.lines), why: OrphanWhy::FileGone });
                assert(r@.map_values(|o: Orphan| orphan_view(o)) =~= r0.push((a.id@, a.file@, a.lines@, OrphanWhy::FileGone)));
            },
            Fate::Deleted => {
                r.push(Orphan { id: copy_string(&a.id), file: copy_string(&a.file), from: copy_string(&a.lines), why: OrphanWhy::AllDeleted });
                assert(r@.map_values(|o: Orphan| orphan_view(o)) =~= r0.push((a.id@, a.file@, a.lines@, OrphanWhy::AllDeleted)));
            },
            Fate::Moved { .. } => {},
        }
        k += 1;
    }
    assert(av.take(k as int) =~= av);
    assert(fates@.take(k as int) =~= fates@);
    r
}

fn reviews_of(anns: &Vec<&Annotation>, fates: &Vec<Fate>) -> (r: Vec<Review>)
    requires
        anns@.len() == fates@.len(),
    ensures
        r@.map_values(|x: Review| review_view(x)) == reviews_spec(ann_view(anns@), fates@),
{
    let ghost av = ann_view(anns@);
    let mut r: Vec<Review> = Vec::new();
    let mut k: usize = 0;
    assert(r@.map_values(|x: Review| review_view(x)) =~= reviews_spec(av.take(0), fates@.take(0)));
    while k < anns.len()
        invariant
            k <= anns@.len(),
            anns@.len() == fates@.len(),
            av == ann_view(anns@),
            r@.map_values(|x: Review| review_view(x)) == reviews_spec(av.take(k as int), fates@.take(k as int)),
        decreases anns@.len() - k,
    {
        let a = anns[k];
        let ghost r0 = r@.map_values(|x: Review| review_view(x));
        assert(av.take(k + 1).drop_last() =~= av.take(k as int));
        assert(fates@.take(k + 1).drop_last() =~= fates@.take(k as int));
        assert(av.take(k + 1).last() == *a);
        match fates[k] {
            Fate::Moved { range, change: Change::Edited { deleted, inserted } } => {
                let to = crate::bump::fmt_range(range);
                r.push(Review { id: copy_string(&a.id), file: copy_string(&a.file), from: copy_string(&a.lines), to, deleted, inserted });
                assert(r@.map_values(|x: Review| review_view(x)) =~= r0.push(
                    (a.id@, a.file@, a.lines@, crate::bump::range_text(range), deleted as int, inserted as int),
                ));
            },
            _ => {},
        }
        k += 1;
    }
    assert(av.take(k as int) =~= av);
    assert(fates@.take(k as int) =~= fates@);
    r
}

proof fn lemma_tally_bound(anns: Seq<Annotation>, fs: Seq<Fate>, f: Seq<char>)
    ensures
        0 <= tally(anns, fs, f).0 <= anns.len(),
        0 <= tally(anns, fs, f).1 <= anns.len(),
        0 <= tally(anns, fs, f).2 <= anns.len(),
    decreases anns.len(),
{
    if anns.len() > 0 && fs.len() > 0 {
        lemma_tally_bound(anns.drop_last(), fs.drop_last(), f);
    }
}

/// What the move does to new file `k`.
pub open spec fn outcome_spec(
    ofs: Seq<Seq<char>>,
    ots: Seq<Seq<char>>,
    nfs: Seq<Seq<char>>,
    nts: Seq<Seq<char>>,
    anns: Seq<Annotation>,
    fs: Seq<Fate>,
    k: int,
) -> (Seq<char>, int, int, int, int, int, int) {
    let f = nfs[k];
    let n = lines(nts[k]).len() as int;
    let (s, e, d) = tally(anns, fs, f);
    (
        f,
        if index_in(ofs, f) >= 0 { lines(ots[index_in(ofs, f)]).len() as int } else { 0 },
        n,
        s,
        e,
        d,
        uncovered(claimed_spec(anns, fs, f), n),
    )
}

fn outcome_of(
    old_files: &Vec<String>,
    old_texts: &Vec<String>,
    file: &String,
    text: &String,
    anns: &Vec<&Annotation>,
    fates: &Vec<Fate>,
) -> (r: FileOutcome)
    requires
        anns@.len() == fates@.len(),
        old_files@.len() == old_texts@.len(),
        forall|k: int| 0 <= k < old_texts@.len() ==> lines(#[trigger] old_texts@[k]@).len() <= u32::MAX,
        lines(text@).len() <= u32::MAX,
    ensures
        outcome_view(r) == outcome_spec(texts(old_files@), texts(old_texts@), seq![file@], seq![text@], ann_view(anns@), fates@, 0),
{
    let ghost av = ann_view(anns@);
    let ghost f = file@;
    let mut shifted: usize = 0;
    let mut edited: usize = 0;
    let mut dropped: usize = 0;
    let mut claimed: Vec<LineRange> = Vec::new();
    let mut k: usize = 0;
    assert(claimed@ =~= claimed_spec(av.take(0), fates@.take(0), f));
    while k < anns.len()
        invariant
            k <= anns@.len(),
            anns@.len() == fates@.len(),
            av == ann_view(anns@),
            f == file@,
            (shifted as int, edited as int, dropped as int) == tally(av.take(k as int), fates@.take(k as int), f),
            claimed@ == claimed_spec(av.take(k as int), fates@.take(k as int), f),
        decreases anns@.len() - k,
    {
        let a = anns[k];
        assert(av.take(k + 1).drop_last() =~= av.take(k as int));
        assert(fates@.take(k + 1).drop_last() =~= fates@.take(k as int));
        assert(av.take(k + 1).last() == *a);
        proof {
            lemma_tally_bound(av.take(k as int), fates@.take(k as int), f);
        }
        if str_eq(a.file.as_str(), file.as_str()) {
            match fates[k] {
                Fate::Moved { range, change } => {
                    match change {
                        Change::Shifted => {
                            shifted += 1;
                        },
                        Change::Edited { .. } => {
                            edited += 1;
                        },
                        _ => {},
                    }
                    claimed.push(range);
                },
                _ => {
                    dropped += 1;
                },
            }
        }
        k += 1;
    }
    assert(av.take(k as int) =~= av);
    assert(fates@.take(k as int) =~= fates@);
    let n = split_lines(chars_of(text.as_str()).as_slice()).len() as u32;
    let old_lines: u32 = match index_of_name(old_files, file.as_str()) {
        Some(i) => {
            proof {
                assert(texts(old_texts@)[i as int] == old_texts@[i as int]@);
            }
            split_lines(chars_of(old_texts[i].as_str()).as_slice()).len() as u32
        },
        None => 0,
    };
    let unclaimed = unclaimed_lines(&claimed, n);
    FileOutcome { file: copy_string(file), old_lines, new_lines: n, shifted, edited, dropped, unclaimed }
}

/// The entries of `list`, in order, that `set` holds (`keep`) or lacks.
pub open spec fn select(list: Seq<Seq<char>>, set: Seq<Seq<char>>, keep: bool) -> Seq<Seq<char>>
    decreases list.len(),
{
    if list.len() == 0 {
        Seq::empty()
    } else {
        let rest = select(list.drop_last(), set, keep);
        if set.contains(list.last()) == keep {
            rest.push(list.last())
        } else {
            rest
        }
    }
}

fn select_names(list: &Vec<String>, set: &Vec<String>, keep: bool) -> (r: Vec<String>)
    ensures
        texts(r@) == select(texts(list@), texts(set@), keep),
{
    let ghost l = texts(list@);
    let mut r: Vec<String> = Vec::new();
    let mut k: usize = 0;
    assert(texts(r@) =~= select(l.take(0), texts(set@), keep));
    while k < list.len()
        invariant
            k <= list@.len(),
            l == texts(list@),
            texts(r@) == select(l.take(k as int), texts(set@), keep),
        decreases list@.len() - k,
    {
        assert(l.take(k + 1).drop_last() =~= l.take(k as int));
        assert(l.take(k + 1).last() == list@[k as int]@);
        let ghost r0 = texts(r@);
        let found = index_of_name(set, list[k].as_str());
        proof {
            lemma_index_bound(texts(set@), list@[k as int]@);
        }
        if found.is_some() == keep {
            r.push(copy_string(&list[k]));
            assert(texts(r@) =~= r0.push(list@[k as int]@));
        }
        k += 1;
    }
    assert(l.take(k as int) =~= l);
    r
}

/// The files of the new tree the old one lacked, with their line counts.
pub open spec fn added_spec(nfs: Seq<Seq<char>>, nts: Seq<Seq<char>>, ofs: Seq<Seq<char>>, k: int) -> Seq<(Seq<char>, int)>
    decreases k,
{
    if k <= 0 {
        Seq::empty()
    } else {
        let rest = added_spec(nfs, nts, ofs, k - 1);
        if ofs.contains(nfs[k - 1]) {
            rest
        } else {
            rest.push((nfs[k - 1], lines(nts[k - 1]).len() as int))
        }
    }
}

pub open spec fn added_view(v: Seq<(String, u32)>) -> Seq<(Seq<char>, int)> {
    v.map_values(|e: (String, u32)| (e.0@, e.1 as int))
}

/// The names of the added files.
pub open spec fn added_names(v: Seq<(Seq<char>, int)>) -> Seq<Seq<char>> {
    v.map_values(|e: (Seq<char>, int)| e.0)
}

/// Whether some outcome for `f` leaves lines unclaimed.
pub open spec fn has_unclaimed(outs: Seq<(Seq<char>, int, int, int, int, int, int)>, f: Seq<char>) -> bool {
    exists|i: int| 0 <= i < outs.len() && (#[trigger] outs[i]).0 == f && outs[i].6 > 0
}

/// The entries of `list` that `has_unclaimed` picks, in order.
pub open spec fn still_open(list: Seq<Seq<char>>, outs: Seq<(Seq<char>, int, int, int, int, int, int)>) -> Seq<Seq<char>>
    decreases list.len(),
{
    if list.len() == 0 {
        Seq::empty()
    } else {
        let rest = still_open(list.drop_last(), outs);
        if has_unclaimed(outs, list.last()) {
            rest.push(list.last())
        } else {
            rest
        }
    }
}

/// What an edit does to a record, as plain values: the new `lines`, or
/// `None` to drop it.
pub open spec fn edit_view(e: Edit) -> Option<Seq<char>> {
    match e {
        Edit::Retarget(s) => Some(s@),
        Edit::Drop => None,
    }
}

pub open spec fn fate_edit(f: Fate) -> Option<Seq<char>> {
    match f {
        Fate::Moved { range, .. } => Some(crate::bump::range_text(range)),
        _ => None,
    }
}

/// The edits one annotation file gets: by id, the last word on each.
pub open spec fn edit_map(anns: Seq<Annotation>, fs: Seq<Fate>) -> Map<Seq<char>, Option<Seq<char>>>
    decreases anns.len(),
{
    if anns.len() == 0 || fs.len() == 0 {
        Map::empty()
    } else {
        edit_map(anns.drop_last(), fs.drop_last()).insert(anns.last().id@, fate_edit(fs.last()))
    }
}

fn edits_for(anns: &Vec<Annotation>, fates: &Vec<Fate>, off: usize) -> (r: Edits)
    requires
        off + anns@.len() <= fates@.len(),
    ensures
        r@.map_values(|e: Edit| edit_view(e)) == edit_map(anns@, fates@.subrange(off as int, off + anns@.len())),
{
    let ghost fs = fates@.subrange(off as int, off + anns@.len());
    let mut r = Edits::new();
    let mut k: usize = 0;
    let total = fates.len();
    assert(r@.map_values(|e: Edit| edit_view(e)) =~= edit_map(anns@.take(0), fs.take(0)));
    while k < anns.len()
        invariant
            k <= anns@.len(),
            total == fates@.len(),
            off + anns@.len() <= fates@.len(),
            fs == fates@.subrange(off as int, off + anns@.len()),
            r@.map_values(|e: Edit| edit_view(e)) == edit_map(anns@.take(k as int), fs.take(k as int)),
        decreases anns@.len() - k,
    {
        assert(anns@.take(k + 1).drop_last() =~= anns@.take(k as int));
        assert(fs.take(k + 1).drop_last() =~= fs.take(k as int));
        assert(fs.take(k + 1).last() == fates@[off + k]);
        let ghost m0 = r@;
        let e = match fates[off + k] {
            Fate::Moved { range, .. } => Edit::Retarget(crate::bump::fmt_range(range)),
            _ => Edit::Drop,
        };
        assert(edit_view(e) == fate_edit(fates@[off + k]));
        r.insert(copy_string(&anns[k].id), e);
        assert(r@.map_values(|e: Edit| edit_view(e)) =~= m0.map_values(|e: Edit| edit_view(e)).insert(anns@[k as int].id@, edit_view(e)));
        k += 1;
    }
    assert(anns@.take(k as int) =~= anns@);
    assert(fs.take(k as int) =~= fs);
    r
}

proof fn lemma_fates_len(ofs: Seq<Seq<char>>, ots: Seq<Seq<char>>, nfs: Seq<Seq<char>>, nts: Seq<Seq<char>>, anns: Seq<Annotation>, k: int)
    requires
        k >= 0,
        fates_spec(ofs, ots, nfs, nts, anns, k) is Ok,
    ensures
        fates_spec(ofs, ots, nfs, nts, anns, k)->Ok_0.len() == k,
    decreases k,
{
    if k > 0 {
        lemma_fates_len(ofs, ots, nfs, nts, anns, k - 1);
    }
}

/// Per annotation file, in store order: its path and the edits its records get.
pub open spec fn edits_spec(store: Seq<(String, AnnotationFile)>, fs: Seq<Fate>) -> Seq<(Seq<char>, Map<Seq<char>, Option<Seq<char>>>)>
    decreases store.len(),
{
    if store.len() == 0 {
        Seq::empty()
    } else {
        let cut = fs.len() - store.last().1.annotations@.len();
        edits_spec(store.drop_last(), fs.take(cut)).push((store.last().0@, edit_map(store.last().1.annotations@, fs.skip(cut))))
    }
}

pub open spec fn edits_view(v: Seq<(String, Edits)>) -> Seq<(Seq<char>, Map<Seq<char>, Option<Seq<char>>>)> {
    v.map_values(|e: (String, Edits)| (e.0@, e.1@.map_values(|x: Edit| edit_view(x))))
}

/// The fates when there is no fault.
pub open spec fn the_fates(ofs: Seq<Seq<char>>, ots: Seq<Seq<char>>, nfs: Seq<Seq<char>>, nts: Seq<Seq<char>>, store: Seq<(String, AnnotationFile)>) -> Seq<Fate> {
    match fates_spec(ofs, ots, nfs, nts, all_anns(store), all_anns(store).len() as int) {
        Ok(fs) => fs,
        Err(_) => Seq::empty(),
    }
}

/// One outcome per file of the new tree, in its order.
pub open spec fn outcomes_spec(
    ofs: Seq<Seq<char>>,
    ots: Seq<Seq<char>>,
    nfs: Seq<Seq<char>>,
    nts: Seq<Seq<char>>,
    anns: Seq<Annotation>,
    fs: Seq<Fate>,
) -> Seq<(Seq<char>, int, int, int, int, int, int)> {
    Seq::new(nfs.len(), |k: int| outcome_spec(ofs, ots, nfs, nts, anns, fs, k))
}

/// A whole migration, planned against a staged copy of the new tree.
#[derive(Debug)]
pub struct Plan {
    pub old_version: String,
    pub new_version: String,
    /// Per annotation file, by path: the edit for every record it holds.
    pub edits: Vec<(String, Edits)>,
    pub files: Vec<FileOutcome>,
    pub added: Vec<(String, u32)>,
    pub removed: Vec<String>,
    pub reviews: Vec<Review>,
    pub orphans: Vec<Orphan>,
    pub reading_order: Vec<String>,
    pub complete: Vec<String>,
    /// Files still declared complete that the migration leaves with holes.
    pub now_incomplete: Vec<String>,
}

/// `p` is the plan for these inputs.
pub open spec fn plan_is(
    p: Plan,
    old_version: Seq<char>,
    new_version: Seq<char>,
    ofs: Seq<Seq<char>>,
    ots: Seq<Seq<char>>,
    nfs: Seq<Seq<char>>,
    nts: Seq<Seq<char>>,
    store: Seq<(String, AnnotationFile)>,
    complete: Seq<Seq<char>>,
    reading_order: Seq<Seq<char>>,
) -> bool {
    let anns = all_anns(store);
    let fs = the_fates(ofs, ots, nfs, nts, store);
    let outs = outcomes_spec(ofs, ots, nfs, nts, anns, fs);
    let added = added_spec(nfs, nts, ofs, nfs.len() as int);
    &&& p.old_version@ == old_version
    &&& p.new_version@ == new_version
    &&& texts(p.removed@) == select(ofs, nfs, false)
    &&& added_view(p.added@) == added
    &&& edits_view(p.edits@) == edits_spec(store, fs)
    &&& p.orphans@.map_values(|o: Orphan| orphan_view(o)) == orphans_spec(anns, fs)
    &&& p.reviews@.map_values(|x: Review| review_view(x)) == reviews_spec(anns, fs)
    &&& p.files@.map_values(|o: FileOutcome| outcome_view(o)) == outs
    &&& texts(p.complete@) == select(complete, nfs, true)
    &&& texts(p.now_incomplete@) == still_open(select(complete, nfs, true), outs)
    &&& texts(p.reading_order@) == select(reading_order, nfs, true) + added_names(added)
}

fn added_files(new_files: &Vec<String>, new_texts: &Vec<String>, old_files: &Vec<String>) -> (r: Vec<(String, u32)>)
    requires
        new_files@.len() == new_texts@.len(),
        forall|k: int| 0 <= k < new_texts@.len() ==> lines(#[trigger] new_texts@[k]@).len() <= u32::MAX,
    ensures
        added_view(r@) == added_spec(texts(new_files@), texts(new_texts@), texts(old_files@), new_files@.len() as int),
{
    let ghost nfs = texts(new_files@);
    let ghost nts = texts(new_texts@);
    let ghost ofs = texts(old_files@);
    let mut r: Vec<(String, u32)> = Vec::new();
    let mut k: usize = 0;
    assert(added_view(r@) =~= Seq::<(Seq<char>, int)>::empty());
    while k < new_files.len()
        invariant
            k <= new_files@.len(),
            new_files@.len() == new_texts@.len(),
            nfs == texts(new_files@),
            nts == texts(new_texts@),
            ofs == texts(old_files@),
            forall|k: int| 0 <= k < new_texts@.len() ==> lines(#[trigger] new_texts@[k]@).len() <= u32::MAX,
            added_view(r@) == added_spec(nfs, nts, ofs, k as int),
        decreases new_files@.len() - k,
    {
        let ghost r0 = added_view(r@);
        let found = index_of_name(old_files, new_files[k].as_str());
        proof {
            lemma_index_bound(ofs, nfs[k as int]);
            assert(nts[k as int] == new_texts@[k as int]@);
        }
        if found.is_none() {
            let n = split_lines(chars_of(new_texts[k].as_str()).as_slice()).len() as u32;
            r.push((copy_string(&new_files[k]), n));
            assert(added_view(r@) =~= r0.push((nfs[k as int], lines(nts[k as int]).len() as int)));
        }
        k += 1;
    }
    r
}

fn append_names(r: &mut Vec<String>, added: &Vec<(String, u32)>)
    ensures
        texts(final(r)@) == texts(old(r)@) + added_names(added_view(added@)),
{
    let ghost r0 = texts(r@);
    let mut k: usize = 0;
    while k < added.len()
        invariant
            k <= added@.len(),
            texts(r@) == r0 + added_names(added_view(added@)).take(k as int),
        decreases added@.len() - k,
    {
        let ghost r1 = texts(r@);
        r.push(copy_string(&added[k].0));
        assert(texts(r@) =~= r0 + added_names(added_view(added@)).take(k + 1)) by {
            assert(texts(r@) =~= r1.push(added@[k as int].0@));
        }
        k += 1;
    }
    assert(added_names(added_view(added@)).take(k as int) =~= added_names(added_view(added@)));
}

fn open_files(list: &Vec<String>, outs: &Vec<FileOutcome>) -> (r: Vec<String>)
    ensures
        texts(r@) == still_open(texts(list@), outs@.map_values(|o: FileOutcome| outcome_view(o))),
{
    let ghost l = texts(list@);
    let ghost ov = outs@.map_values(|o: FileOutcome| outcome_view(o));
    let mut r: Vec<String> = Vec::new();
    let mut k: usize = 0;
    assert(texts(r@) =~= still_open(l.take(0), ov));
    while k < list.len()
        invariant
            k <= list@.len(),
            l == texts(list@),
            ov == outs@.map_values(|o: FileOutcome| outcome_view(o)),
            texts(r@) == still_open(l.take(k as int), ov),
        decreases list@.len() - k,
    {
        assert(l.take(k + 1).drop_last() =~= l.take(k as int));
        assert(l.take(k + 1).last() == list@[k as int]@);
        let mut hit = false;
        let mut j: usize = 0;
        while j < outs.len()
            invariant
                j <= outs@.len(),
                k < list@.len(),
                ov == outs@.map_values(|o: FileOutcome| outcome_view(o)),
                hit == exists|i: int| 0 <= i < j && (#[trigger] ov[i]).0 == list@[k as int]@ && ov[i].6 > 0,
            decreases outs@.len() - j,
        {
            if outs[j].unclaimed > 0 && str_eq(outs[j].file.as_str(), list[k].as_str()) {
                hit = true;
                assert(ov[j as int].0 == list@[k as int]@ && ov[j as int].6 > 0);
            }
            j += 1;
        }
        let ghost r0 = texts(r@);
        if hit {
            r.push(copy_string(&list[k]));
            assert(texts(r@) =~= r0.push(list@[k as int]@));
        }
        k += 1;
    }
    assert(l.take(k as int) =~= l);
    r
}

impl Plan {
    /// Plans a move from the old tree to the new one. `old_files` and
    /// `new_files` list each tree's source files, `old_texts` and
    /// `new_texts` their contents, `store` the annotation files by path,
    /// `complete` and `reading_order` the two registry lists. Nothing is
    /// written: the plan says what would be.
    pub fn build(
        old_version: &str,
        new_version: &str,
        old_files: &Vec<String>,
        old_texts: &Vec<String>,
        new_files: &Vec<String>,
        new_texts: &Vec<String>,
        store: &Vec<(String, AnnotationFile)>,
        complete: &Vec<String>,
        reading_order: &Vec<String>,
    ) -> (r: Result<Plan, PlanError>)
        requires
            old_files@.len() == old_texts@.len(),
            new_files@.len() == new_texts@.len(),
            distinct(texts(new_files@)),
            forall|k: int| 0 <= k < old_texts@.len() ==> lines(#[trigger] old_texts@[k]@).len() <= u32::MAX,
            forall|k: int| 0 <= k < new_texts@.len() ==> lines(#[trigger] new_texts@[k]@).len() <= u32::MAX,
        ensures
            match plan_fault(texts(old_files@), texts(old_texts@), texts(new_files@), texts(new_texts@), store@) {
                Some(f) => r matches Err(e) && fault_of(e) == f,
                None => r matches Ok(p) && plan_is(
                    p,
                    old_version@,
                    new_version@,
                    texts(old_files@),
                    texts(old_texts@),
                    texts(new_files@),
                    texts(new_texts@),
                    store@,
                    texts(complete@),
                    texts(reading_order@),
                ),
            },
    {
        let ghost ofs = texts(old_files@);
        let ghost ots = texts(old_texts@);
        let ghost nfs = texts(new_files@);
        let ghost nts = texts(new_texts@);
        let maps = match align_all(old_files, old_texts, new_files, new_texts) {
            Err(e) => {
                return Err(e);
            },
            Ok(m) => m,
        };
        let fates = match all_fates(old_files, old_texts, new_files, new_texts, &maps, store) {
            Err(e) => {
                return Err(e);
            },
            Ok(f) => f,
        };
        let ghost fs = fates@;
        assert(fs == the_fates(ofs, ots, nfs, nts, store@));
        proof {
            lemma_fates_len(ofs, ots, nfs, nts, all_anns(store@), all_anns(store@).len() as int);
        }
        let total = fates.len();
        let anns = flatten(store);
        let ghost av = all_anns(store@);
        // Edits, file by file.
        let mut edits: Vec<(String, Edits)> = Vec::new();
        let mut off: usize = 0;
        let mut i: usize = 0;
        assert(store@.take(0) =~= Seq::<(String, AnnotationFile)>::empty());
        assert(fs.take(0) =~= Seq::<Fate>::empty());
        assert(edits_view(edits@) =~= Seq::<(Seq<char>, Map<Seq<char>, Option<Seq<char>>>)>::empty());
        while i < store.len()
            invariant
                i <= store@.len(),
                fs == fates@,
                total == fates@.len(),
                fs.len() == av.len(),
                av == all_anns(store@),
                off == all_anns(store@.take(i as int)).len(),
                off <= fs.len(),
                edits_view(edits@) == edits_spec(store@.take(i as int), fs.take(off as int)),
            decreases store@.len() - i,
        {
            proof {
                lemma_all_anns_step(store@, i as int);
                lemma_all_anns_split(store@, i + 1);
            }
            let n = store[i].1.annotations.len();
            assert(off + n <= fs.len());
            let e = edits_for(&store[i].1.annotations, &fates, off);
            let ghost e0 = edits_view(edits@);
            edits.push((copy_string(&store[i].0), e));
            proof {
                let t = store@.take(i + 1);
                assert(t.drop_last() =~= store@.take(i as int));
                assert(t.last() == store@[i as int]);
                let fo = fs.take(off + n);
                assert(fo.take(off as int) =~= fs.take(off as int));
                assert(fo.skip(off as int) =~= fs.subrange(off as int, off + n));
                assert(edits_view(edits@) =~= e0.push((store@[i as int].0@, edit_map(store@[i as int].1.annotations@, fs.subrange(off as int, off + n)))));
            }
            off = off + n;
            i += 1;
        }
        assert(store@.take(i as int) =~= store@);
        assert(fs.take(off as int) =~= fs);
        let orphans = orphans_of(&anns, &fates);
        let reviews = reviews_of(&anns, &fates);
        // What the new tree looks like to the coverage gate.
        let mut files: Vec<FileOutcome> = Vec::new();
        let mut k: usize = 0;
        while k < new_files.len()
            invariant
                k <= new_files@.len(),
                new_files@.len() == new_texts@.len(),
                old_files@.len() == old_texts@.len(),
                ofs == texts(old_files@),
                ots == texts(old_texts@),
                nfs == texts(new_files@),
                nts == texts(new_texts@),
                fs == fates@,
                anns@.len() == fates@.len(),
                ann_view(anns@) == av,
                forall|k: int| 0 <= k < old_texts@.len() ==> lines(#[trigger] old_texts@[k]@).len() <= u32::MAX,
                forall|k: int| 0 <= k < new_texts@.len() ==> lines(#[trigger] new_texts@[k]@).len() <= u32::MAX,
                files@.map_values(|o: FileOutcome| outcome_view(o)) == outcomes_spec(ofs, ots, nfs, nts, av, fs).take(k as int),
            decreases new_files@.len() - k,
        {
            let ghost f0 = files@.map_values(|o: FileOutcome| outcome_view(o));
            let o = outcome_of(old_files, old_texts, &new_files[k], &new_texts[k], &anns, &fates);
            files.push(o);
            proof {
                assert(nfs[k as int] == new_files@[k as int]@);
                assert(nts[k as int] == new_texts@[k as int]@);
                assert(outcome_view(o) == outcome_spec(ofs, ots, nfs, nts, av, fs, k as int));
                assert(files@.map_values(|o: FileOutcome| outcome_view(o)) =~= f0.push(outcome_view(o)));
                assert(outcomes_spec(ofs, ots, nfs, nts, av, fs).take(k + 1) =~= outcomes_spec(ofs, ots, nfs, nts, av, fs).take(k as int).push(outcome_spec(ofs, ots, nfs, nts, av, fs, k as int)));
            }
            k += 1;
        }
        assert(outcomes_spec(ofs, ots, nfs, nts, av, fs).take(k as int) =~= outcomes_spec(ofs, ots, nfs, nts, av, fs));
        let removed = select_names(old_files, new_files, false);
        let added = added_files(new_files, new_texts, old_files);
        let kept = select_names(complete, new_files, true);
        let now_incomplete = open_files(&kept, &files);
        let mut order = select_names(reading_order, new_files, true);
        append_names(&mut order, &added);
        Ok(Plan {
            old_version: string_of(chars_of(old_version).as_slice()),
            new_version: string_of(chars_of(new_version).as_slice()),
            edits,
            files,
            added,
            removed,
            reviews,
            orphans,
            reading_order: order,
            complete: kept,
            now_incomplete,
        })
    }
}

fn append_num(out: &mut String, n: u64)
    ensures
        final(out)@ == old(out)@ + decimal(n as nat),
{
    let d = string_of(decimal_chars(n).as_slice());
    out.append(d.as_str());
}

/// The report's title and opening line.
pub open spec fn head_text(name: Seq<char>, old: Seq<char>, new: Seq<char>) -> Seq<char> {
    "# Migration: "@ + name + " "@ + old + " -> "@ + new + "\n\n"@ + "Generated by `cargo xtask bump "@ + new
        + "`. This file is the record of what the\nmigration did mechanically and what it left for a human.\n\n"@
}

/// Where the archive came from, and what the pin said before.
pub open spec fn provenance_text(archive: Seq<char>, sha: Seq<char>, prev_crate: Seq<char>, prev_tree: Seq<char>) -> Seq<char> {
    "## Provenance\n\n"@ + "| | |\n|---|---|\n| archive | `"@ + archive + "` |\n"@ + "| crate sha256 | `"@ + sha + "` |\n"@
        + "| previous crate sha256 | `"@ + prev_crate + "` |\n"@ + "| previous src_tree_sha256 | `"@ + prev_tree + "` |\n\n"@
}

/// A file's line count, or old and new when they differ.
pub open spec fn lines_cell(old: int, new: int) -> Seq<char> {
    if old == new {
        decimal(new as nat)
    } else {
        decimal(old as nat) + " \u{2192} "@ + decimal(new as nat)
    }
}

/// Nothing happened to this file.
pub open spec fn quiet(o: (Seq<char>, int, int, int, int, int, int)) -> bool {
    o.3 == 0 && o.4 == 0 && o.5 == 0 && o.6 == 0 && o.1 == o.2
}

pub open spec fn file_row(o: (Seq<char>, int, int, int, int, int, int)) -> Seq<char> {
    "| `"@ + o.0 + "` | "@ + lines_cell(o.1, o.2) + " | "@ + decimal(o.3 as nat) + " | "@ + decimal(o.4 as nat) + " | "@
        + decimal(o.5 as nat) + " | "@ + decimal(o.6 as nat) + " |\n"@
}

/// The table rows of the first `k` files that something happened to.
pub open spec fn file_rows(outs: Seq<(Seq<char>, int, int, int, int, int, int)>, k: int) -> Seq<char>
    decreases k,
{
    if k <= 0 {
        Seq::empty()
    } else {
        file_rows(outs, k - 1) + if quiet(outs[k - 1]) { Seq::empty() } else { file_row(outs[k - 1]) }
    }
}

pub open spec fn added_line(a: (Seq<char>, int)) -> Seq<char> {
    "- **New file** `"@ + a.0 + "` ("@ + decimal(a.1 as nat)
        + " lines). Appended to `reading_order` at the end; move it to where it belongs in the teaching order.\n"@
}

pub open spec fn added_lines(v: Seq<(Seq<char>, int)>, k: int) -> Seq<char>
    decreases k,
{
    if k <= 0 {
        Seq::empty()
    } else {
        added_lines(v, k - 1) + added_line(v[k - 1])
    }
}

pub open spec fn removed_lines(v: Seq<Seq<char>>, k: int) -> Seq<char>
    decreases k,
{
    if k <= 0 {
        Seq::empty()
    } else {
        removed_lines(v, k - 1) + "- **Removed file** `"@ + v[k - 1] + "`.\n"@
    }
}

/// The files section: the table, then the added and removed files.
pub open spec fn files_text(outs: Seq<(Seq<char>, int, int, int, int, int, int)>, added: Seq<(Seq<char>, int)>, removed: Seq<Seq<char>>) -> Seq<char> {
    "## Files\n\n"@ + "| file | lines | shifted | edited | dropped | unclaimed |\n"@ + "|---|---:|---:|---:|---:|---:|\n"@
        + file_rows(outs, outs.len() as int) + "\n"@ + added_lines(added, added.len() as int) + removed_lines(removed, removed.len() as int)
        + if added.len() > 0 || removed.len() > 0 { "\n"@ } else { Seq::empty() }
}

pub open spec fn review_rows(v: Seq<(Seq<char>, Seq<char>, Seq<char>, Seq<char>, int, int)>, k: int) -> Seq<char>
    decreases k,
{
    if k <= 0 {
        Seq::empty()
    } else {
        let r = v[k - 1];
        review_rows(v, k - 1) + "| `"@ + r.0 + "` | `"@ + r.1 + "` | "@ + r.2 + " | "@ + r.3 + " | "@ + decimal(r.4 as nat) + " | "@
            + decimal(r.5 as nat) + " |\n"@
    }
}

/// The annotations a human has to read against the new source.
pub open spec fn review_text(v: Seq<(Seq<char>, Seq<char>, Seq<char>, Seq<char>, int, int)>) -> Seq<char> {
    "## Annotations to review\n\n"@ + if v.len() == 0 {
        "None: every surviving annotation covers the same text it did before.\n\n"@
    } else {
        "These ranges were carried across and still cover real code, but the code inside them changed. The prose has not been checked against it.\n\n| id | file | was | now | -lines | +lines |\n|---|---|---|---|---:|---:|\n"@
            + review_rows(v, v.len() as int) + "\n"@
    }
}

pub open spec fn orphan_lines(v: Seq<(Seq<char>, Seq<char>, Seq<char>, OrphanWhy)>, k: int) -> Seq<char>
    decreases k,
{
    if k <= 0 {
        Seq::empty()
    } else {
        let o = v[k - 1];
        orphan_lines(v, k - 1) + "- `"@ + o.0 + "` \u{2014} "@ + o.1 + " ("@ + o.2 + "), "@ + why_text(o.3) + "\n"@
    }
}

pub open spec fn dropped_blocks(v: Seq<(Seq<char>, Seq<char>)>, k: int) -> Seq<char>
    decreases k,
{
    if k <= 0 {
        Seq::empty()
    } else {
        dropped_blocks(v, k - 1) + "<details>\n<summary><code>"@ + v[k - 1].0 + "</code></summary>\n\n```toml\n"@ + v[k - 1].1
            + "\n```\n\n</details>\n\n"@
    }
}

/// The annotations that were dropped, with their full text.
pub open spec fn dropped_text_spec(orphans: Seq<(Seq<char>, Seq<char>, Seq<char>, OrphanWhy)>, dropped: Seq<(Seq<char>, Seq<char>)>) -> Seq<char> {
    "## Annotations dropped\n\n"@ + if dropped.len() == 0 {
        "None.\n\n"@
    } else {
        "Every line these claimed is gone from the new release, so there was no range left to give them. Their text is reproduced here in full \u{2014} nothing about the removal is recoverable from the new tree.\n\n"@
            + orphan_lines(orphans, orphans.len() as int) + "\n"@ + dropped_blocks(dropped, dropped.len() as int)
    }
}

pub open spec fn open_lines(v: Seq<Seq<char>>, k: int) -> Seq<char>
    decreases k,
{
    if k <= 0 {
        Seq::empty()
    } else {
        open_lines(v, k - 1) + "- [ ] `"@ + v[k - 1] + "` is marked complete but has unclaimed lines: annotate them\n"@
    }
}

pub open spec fn new_file_lines(v: Seq<(Seq<char>, int)>, k: int) -> Seq<char>
    decreases k,
{
    if k <= 0 {
        Seq::empty()
    } else {
        new_file_lines(v, k - 1) + "- [ ] `"@ + v[k - 1].0
            + "` is new and entirely unannotated; add it to `annotations/` and to `manifest.toml` once it is done\n"@
    }
}

/// What is left for a human.
pub open spec fn checklist_text(name: Seq<char>, new: Seq<char>, open: Seq<Seq<char>>, added: Seq<(Seq<char>, int)>) -> Seq<char> {
    "## Checklist\n\n"@ + "- [ ] `cargo update -p "@ + name + " --precise "@ + new
        + "`\n- [ ] `cargo xtask coverage` is green\n- [ ] `cargo test --workspace` is green (examples still produce their transcripts)\n- [ ] every annotation in *Annotations to review* has been read against the new source\n"@
        + open_lines(open, open.len() as int) + new_file_lines(added, added.len() as int)
        + "- [ ] prose outside the store that names the version (PLAN.md, README.md, docs/) is current\n"@
}

pub open spec fn pairs_view(v: Seq<(String, String)>) -> Seq<(Seq<char>, Seq<char>)> {
    v.map_values(|p: (String, String)| (p.0@, p.1@))
}

/// The whole migration report.
pub open spec fn report_text(p: Plan, previous: crate::vendor::Source, archive: Seq<char>, sha: Seq<char>, dropped: Seq<(Seq<char>, Seq<char>)>) -> Seq<char> {
    head_text(previous.name@, p.old_version@, p.new_version@)
        + provenance_text(archive, sha, previous.crate_sha256@, previous.src_tree_sha256@)
        + files_text(p.files@.map_values(|o: FileOutcome| outcome_view(o)), added_view(p.added@), texts(p.removed@))
        + review_text(p.reviews@.map_values(|x: Review| review_view(x)))
        + dropped_text_spec(p.orphans@.map_values(|o: Orphan| orphan_view(o)), dropped)
        + checklist_text(previous.name@, p.new_version@, texts(p.now_incomplete@), added_view(p.added@))
}

fn write_counts(out: &mut String, a: u64, b: u64, c: u64, d: u64)
    ensures
        final(out)@ == old(out)@ + " | "@ + decimal(a as nat) + " | "@ + decimal(b as nat) + " | "@ + decimal(c as nat) + " | "@
            + decimal(d as nat) + " |\n"@,
{
    let ghost o = out@;
    out.append(" | ");
    append_num(out, a);
    out.append(" | ");
    append_num(out, b);
    out.append(" | ");
    append_num(out, c);
    out.append(" | ");
    append_num(out, d);
    out.append(" |\n");
    assert(out@ =~= o + " | "@ + decimal(a as nat) + " | "@ + decimal(b as nat) + " | "@ + decimal(c as nat) + " | "@
        + decimal(d as nat) + " |\n"@);
}

fn write_lines_cell(out: &mut String, old_lines: u32, new_lines: u32)
    ensures
        final(out)@ == old(out)@ + lines_cell(old_lines as int, new_lines as int),
{
    let ghost o = out@;
    if old_lines == new_lines {
        append_num(out, new_lines as u64);
    } else {
        append_num(out, old_lines as u64);
        out.append(" \u{2192} ");
        append_num(out, new_lines as u64);
    }
    assert(out@ =~= o + lines_cell(old_lines as int, new_lines as int));
}

#[verifier::spinoff_prover]
fn write_file_row(out: &mut String, f: &FileOutcome)
    ensures
        final(out)@ == old(out)@ + file_row(outcome_view(*f)),
{
    let ghost o1 = out@;
    out.append("| `");
    out.append(f.file.as_str());
    out.append("` | ");
    write_lines_cell(out, f.old_lines, f.new_lines);
    write_counts(out, f.shifted as u64, f.edited as u64, f.dropped as u64, f.unclaimed as u64);
    assert(out@ =~= o1 + file_row(outcome_view(*f)));
}

fn write_file_rows(out: &mut String, files: &Vec<FileOutcome>)
    ensures
        final(out)@ == old(out)@ + file_rows(files@.map_values(|o: FileOutcome| outcome_view(o)), files@.len() as int),
{
    let ghost ov = files@.map_values(|o: FileOutcome| outcome_view(o));
    let ghost o0 = out@;
    let mut k: usize = 0;
    while k < files.len()
        invariant
            k <= files@.len(),
            ov == files@.map_values(|o: FileOutcome| outcome_view(o)),
            out@ == o0 + file_rows(ov, k as int),
        decreases files@.len() - k,
    {
        let f = &files[k];
        let ghost o1 = out@;
        assert(ov[k as int] == outcome_view(*f));
        if !(f.shifted == 0 && f.edited == 0 && f.dropped == 0 && f.unclaimed == 0 && f.old_lines == f.new_lines) {
            write_file_row(out, f);
        } else {
            assert(out@ =~= o1 + Seq::<char>::empty());
        }
        k += 1;
    }
}

fn write_files(out: &mut String, p: &Plan)
    ensures
        final(out)@ == old(out)@ + files_text(p.files@.map_values(|o: FileOutcome| outcome_view(o)), added_view(p.added@), texts(p.removed@)),
{
    let ghost o0 = out@;
    out.append("## Files\n\n");
    out.append("| file | lines | shifted | edited | dropped | unclaimed |\n");
    out.append("|---|---:|---:|---:|---:|---:|\n");
    write_file_rows(out, &p.files);
    out.append("\n");
    let ghost o1 = out@;
    let ghost av = added_view(p.added@);
    let mut k: usize = 0;
    while k < p.added.len()
        invariant
            k <= p.added@.len(),
            av == added_view(p.added@),
            out@ == o1 + added_lines(av, k as int),
        decreases p.added@.len() - k,
    {
        let ghost o2 = out@;
        out.append("- **New file** `");
        out.append(p.added[k].0.as_str());
        out.append("` (");
        append_num(out, p.added[k].1 as u64);
        out.append(" lines). Appended to `reading_order` at the end; move it to where it belongs in the teaching order.\n");
        assert(out@ =~= o2 + added_line(av[k as int]));
        k += 1;
    }
    let ghost o3 = out@;
    let ghost rv = texts(p.removed@);
    let mut j: usize = 0;
    while j < p.removed.len()
        invariant
            j <= p.removed@.len(),
            rv == texts(p.removed@),
            out@ == o3 + removed_lines(rv, j as int),
        decreases p.removed@.len() - j,
    {
        let ghost o4 = out@;
        out.append("- **Removed file** `");
        out.append(p.removed[j].as_str());
        out.append("`.\n");
        assert(out@ =~= o4 + "- **Removed file** `"@ + rv[j as int] + "`.\n"@);
        j += 1;
    }
    let ghost o5 = out@;
    if p.added.len() > 0 || p.removed.len() > 0 {
        out.append("\n");
    }
    assert(out@ =~= o0 + files_text(p.files@.map_values(|o: FileOutcome| outcome_view(o)), av, rv));
}

#[verifier::spinoff_prover]
#[verifier::rlimit(30)]
fn write_reviews(out: &mut String, reviews: &Vec<Review>)
    ensures
        final(out)@ == old(out)@ + review_text(reviews@.map_values(|x: Review| review_view(x))),
{
    let ghost o0 = out@;
    let ghost rv = reviews@.map_values(|x: Review| review_view(x));
    out.append("## Annotations to review\n\n");
    if reviews.len() == 0 {
        out.append("None: every surviving annotation covers the same text it did before.\n\n");
    } else {
        out.append("These ranges were carried across and still cover real code, but the code inside them changed. The prose has not been checked against it.\n\n| id | file | was | now | -lines | +lines |\n|---|---|---|---|---:|---:|\n");
        let ghost o1 = out@;
        let mut k: usize = 0;
        while k < reviews.len()
            invariant
                k <= reviews@.len(),
                rv == reviews@.map_values(|x: Review| review_view(x)),
                out@ == o1 + review_rows(rv, k as int),
            decreases reviews@.len() - k,
        {
            let r = &reviews[k];
            let ghost o2 = out@;
            assert(rv[k as int] == review_view(*r));
            out.append("| `");
            out.append(r.id.as_str());
            out.append("` | `");
            out.append(r.file.as_str());
            out.append("` | ");
            out.append(r.from.as_str());
            out.append(" | ");
            out.append(r.to.as_str());
            out.append(" | ");
            append_num(out, r.deleted as u64);
            out.append(" | ");
            append_num(out, r.inserted as u64);
            out.append(" |\n");
            assert(out@ =~= o2 + "| `"@ + r.id@ + "` | `"@ + r.file@ + "` | "@ + r.from@ + " | "@ + r.to@ + " | "@ + decimal(r.deleted as nat) + " | "@ + decimal(r.inserted as nat) + " |\n"@);
            k += 1;
        }
        out.append("\n");
    }
    assert(out@ =~= o0 + review_text(rv));
}

fn write_dropped(out: &mut String, orphans: &Vec<Orphan>, dropped: &Vec<(String, String)>)
    ensures
        final(out)@ == old(out)@ + dropped_text_spec(orphans@.map_values(|o: Orphan| orphan_view(o)), pairs_view(dropped@)),
{
    let ghost o0 = out@;
    let ghost ov = orphans@.map_values(|o: Orphan| orphan_view(o));
    let ghost dv = pairs_view(dropped@);
    out.append("## Annotations dropped\n\n");
    if dropped.len() == 0 {
        out.append("None.\n\n");
    } else {
        out.append("Every line these claimed is gone from the new release, so there was no range left to give them. Their text is reproduced here in full \u{2014} nothing about the removal is recoverable from the new tree.\n\n");
        let ghost o1 = out@;
        let mut k: usize = 0;
        while k < orphans.len()
            invariant
                k <= orphans@.len(),
                ov == orphans@.map_values(|o: Orphan| orphan_view(o)),
                out@ == o1 + orphan_lines(ov, k as int),
            decreases orphans@.len() - k,
        {
            let o = &orphans[k];
            let ghost o2 = out@;
            assert(ov[k as int] == orphan_view(*o));
            let why = o.why.text();
            out.append("- `");
            out.append(o.id.as_str());
            out.append("` \u{2014} ");
            out.append(o.file.as_str());
            out.append(" (");
            out.append(o.from.as_str());
            out.append("), ");
            out.append(why.as_str());
            out.append("\n");
            assert(out@ =~= o2 + "- `"@ + o.id@ + "` \u{2014} "@ + o.file@ + " ("@ + o.from@ + "), "@ + why_text(o.why) + "\n"@);
            k += 1;
        }
        out.append("\n");
        let ghost o3 = out@;
        let mut j: usize = 0;
        while j < dropped.len()
            invariant
                j <= dropped@.len(),
                dv == pairs_view(dropped@),
                out@ == o3 + dropped_blocks(dv, j as int),
            decreases dropped@.len() - j,
        {
            let ghost o4 = out@;
            out.append("<details>\n<summary><code>");
            out.append(dropped[j].0.as_str());
            out.append("</code></summary>\n\n```toml\n");
            out.append(dropped[j].1.as_str());
            out.append("\n```\n\n</details>\n\n");
            assert(out@ =~= o4 + "<details>\n<summary><code>"@ + dv[j as int].0 + "</code></summary>\n\n```toml\n"@ + dv[j as int].1 + "\n```\n\n</details>\n\n"@);
            j += 1;
        }
    }
    assert(out@ =~= o0 + dropped_text_spec(ov, dv));
}

fn write_checklist(out: &mut String, name: &str, new_version: &str, open: &Vec<String>, added: &Vec<(String, u32)>)
    ensures
        final(out)@ == old(out)@ + checklist_text(name@, new_version@, texts(open@), added_view(added@)),
{
    let ghost o0 = out@;
    out.append("## Checklist\n\n");
    out.append("- [ ] `cargo update -p ");
    out.append(name);
    out.append(" --precise ");
    out.append(new_version);
    out.append("`\n- [ ] `cargo xtask coverage` is green\n- [ ] `cargo test --workspace` is green (examples still produce their transcripts)\n- [ ] every annotation in *Annotations to review* has been read against the new source\n");
    let ghost o1 = out@;
    let ghost tv = texts(open@);
    let mut k: usize = 0;
    while k < open.len()
        invariant
            k <= open@.len(),
            tv == texts(open@),
            out@ == o1 + open_lines(tv, k as int),
        decreases open@.len() - k,
    {
        let ghost o2 = out@;
        out.append("- [ ] `");
        out.append(open[k].as_str());
        out.append("` is marked complete but has unclaimed lines: annotate them\n");
        assert(out@ =~= o2 + "- [ ] `"@ + tv[k as int] + "` is marked complete but has unclaimed lines: annotate them\n"@);
        k += 1;
    }
    let ghost o3 = out@;
    let ghost av = added_view(added@);
    let mut j: usize = 0;
    while j < added.len()
        invariant
            j <= added@.len(),
            av == added_view(added@),
            out@ == o3 + new_file_lines(av, j as int),
        decreases added@.len() - j,
    {
        let ghost o4 = out@;
        out.append("- [ ] `");
        out.append(added[j].0.as_str());
        out.append("` is new and entirely unannotated; add it to `annotations/` and to `manifest.toml` once it is done\n");
        assert(out@ =~= o4 + "- [ ] `"@ + av[j as int].0 + "` is new and entirely unannotated; add it to `annotations/` and to `manifest.toml` once it is done\n"@);
        j += 1;
    }
    out.append("- [ ] prose outside the store that names the version (PLAN.md, README.md, docs/) is current\n");
    assert(out@ =~= o0 + checklist_text(name@, new_version@, tv, av));
}

impl Plan {
    /// The migration report: provenance, what moved, what a human must
    /// review, the full text of what was dropped, and a checklist.
    /// `previous` is the source as pinned before the move; `archive` names
    /// the verified archive and `archive_sha` its checksum; `dropped` pairs
    /// each dropped record's id with its text.
    pub fn report(&self, previous: &crate::vendor::Source, archive: &str, archive_sha: &str, dropped: &Vec<(String, String)>) -> (r: String)
        ensures
            r@ == report_text(*self, *previous, archive@, archive_sha@, pairs_view(dropped@)),
    {
        let mut s = String::new();
        s.append("# Migration: ");
        s.append(previous.name.as_str());
        s.append(" ");
        s.append(self.old_version.as_str());
        s.append(" -> ");
        s.append(self.new_version.as_str());
        s.append("\n\n");
        s.append("Generated by `cargo xtask bump ");
        s.append(self.new_version.as_str());
        s.append("`. This file is the record of what the\nmigration did mechanically and what it left for a human.\n\n");
        let ghost s1 = s@;
        assert(s1 =~= head_text(previous.name@, self.old_version@, self.new_version@));
        s.append("## Provenance\n\n");
        s.append("| | |\n|---|---|\n| archive | `");
        s.append(archive);
        s.append("` |\n");
        s.append("| crate sha256 | `");
        s.append(archive_sha);
        s.append("` |\n");
        s.append("| previous crate sha256 | `");
        s.append(previous.crate_sha256.as_str());
        s.append("` |\n");
        s.append("| previous src_tree_sha256 | `");
        s.append(previous.src_tree_sha256.as_str());
        s.append("` |\n\n");
        let ghost s2 = s@;
        assert(s2 =~= s1 + provenance_text(archive@, archive_sha@, previous.crate_sha256@, previous.src_tree_sha256@));
        write_files(&mut s, self);
        write_reviews(&mut s, &self.reviews);
        write_dropped(&mut s, &self.orphans, dropped);
        write_checklist(&mut s, previous.name.as_str(), self.new_version.as_str(), &self.now_incomplete, &self.added);
        s
    }
}

} // verus!
