//! Identity and cross-reference integrity of the annotation stores, checked
//! over every store at once: annotation ids are one namespace across the
//! project, since the narrative names them without saying which crate and a
//! prereq may cross.
use crate::coverage::{
    contains_text, copy_text, finding_view, findings_view, flat_anns, flat_view, flatten, glossary_findings,
    report_vocabulary, texts, vocabulary_findings, Diagnostics, Finding, FindingView, SourceInput,
};
use crate::schema::{Annotation, Kind, Track};
use crate::text::{chars_of, trim, trimmed};
use vstd::prelude::*;

verus! {

/// The last position in `flat` of an annotation with this id, or -1: an id
/// map filled in order keeps the last.
pub open spec fn last_with_id(flat: Seq<(int, Annotation)>, id: Seq<char>) -> int
    decreases flat.len(),
{
    if flat.len() == 0 {
        -1
    } else if flat.last().1.id@ == id {
        flat.len() - 1
    } else {
        last_with_id(flat.drop_last(), id)
    }
}

pub proof fn lemma_last_with_id(flat: Seq<(int, Annotation)>, id: Seq<char>)
    ensures
        -1 <= last_with_id(flat, id) < flat.len(),
        last_with_id(flat, id) >= 0 ==> flat[last_with_id(flat, id)].1.id@ == id,
        last_with_id(flat, id) == -1 ==> forall|i: int| 0 <= i < flat.len() ==> (#[trigger] flat[i]).1.id@ != id,
    decreases flat.len(),
{
    if flat.len() > 0 {
        lemma_last_with_id(flat.drop_last(), id);
        if last_with_id(flat, id) == -1 {
            assert forall|i: int| 0 <= i < flat.len() implies (#[trigger] flat[i]).1.id@ != id by {
                if i < flat.len() - 1 {
                    assert(flat[i] == flat.drop_last()[i]);
                }
            }
        }
    }
}

proof fn lemma_flat_sources(loaded: Seq<SourceInput>)
    ensures
        forall|k: int| 0 <= k < flat_anns(loaded).len() ==> 0 <= (#[trigger] flat_anns(loaded)[k]).0 < loaded.len(),
    decreases loaded.len(),
{
    if loaded.len() > 0 {
        lemma_flat_sources(loaded.drop_last());
        let a = flat_anns(loaded.drop_last());
        let i = loaded.len() - 1;
        let b = loaded.last().annotations@.map_values(|x: Annotation| (i, x));
        assert forall|k: int| 0 <= k < flat_anns(loaded).len() implies 0 <= (#[trigger] flat_anns(loaded)[k]).0 < loaded.len() by {
            if k < a.len() {
                assert(flat_anns(loaded)[k] == a[k]);
            } else {
                assert(flat_anns(loaded)[k] == b[k - a.len()]);
            }
        }
    }
}

/// Findings for ids that an earlier annotation already took, among the first `k`.
pub open spec fn dup_id_findings(flat: Seq<(int, Annotation)>, k: int) -> Seq<FindingView>
    decreases k,
{
    if k <= 0 {
        Seq::empty()
    } else {
        let id = flat[k - 1].1.id@;
        dup_id_findings(flat, k - 1) + if last_with_id(flat.take(k - 1), id) >= 0 {
            seq![FindingView::DuplicateAnnotation(id)]
        } else {
            Seq::empty()
        }
    }
}

/// Findings for prereqs that name no annotation.
pub open spec fn prereq_findings(flat: Seq<(int, Annotation)>, id: Seq<char>, ps: Seq<Seq<char>>) -> Seq<FindingView>
    decreases ps.len(),
{
    if ps.len() == 0 {
        Seq::empty()
    } else {
        prereq_findings(flat, id, ps.drop_last()) + if last_with_id(flat, ps.last()) >= 0 {
            Seq::empty()
        } else {
            seq![FindingView::UnknownPrereq(id, ps.last())]
        }
    }
}

/// The name of the source the id map's entry for `id` came from.
pub open spec fn crate_of(loaded: Seq<SourceInput>, flat: Seq<(int, Annotation)>, id: Seq<char>) -> Seq<char> {
    loaded[flat[last_with_id(flat, id)].0].name@
}

/// The macro-def rule: a macro-use names the macro-def it expands, in the
/// same crate, and nothing else names one.
pub open spec fn macro_findings(loaded: Seq<SourceInput>, flat: Seq<(int, Annotation)>, a: Annotation) -> Seq<FindingView> {
    match a.macro_def {
        None => if a.kind == Kind::MacroUse {
            seq![FindingView::MacroUseWithoutDef(a.id@)]
        } else {
            Seq::empty()
        },
        Some(t) => if a.kind == Kind::MacroUse {
            let i = last_with_id(flat, t@);
            if i < 0 {
                seq![FindingView::UnknownMacroDef(a.id@, t@)]
            } else if flat[i].1.kind != Kind::MacroDef {
                seq![FindingView::NotMacroDef(a.id@, t@, flat[i].1.kind)]
            } else if crate_of(loaded, flat, a.id@) != crate_of(loaded, flat, t@) {
                seq![FindingView::MacroDefElsewhere(a.id@, t@, crate_of(loaded, flat, t@), crate_of(loaded, flat, a.id@))]
            } else {
                Seq::empty()
            }
        } else {
            seq![FindingView::MacroDefOnKind(a.id@, t@, a.kind)]
        },
    }
}

pub open spec fn file_names(files: Seq<(String, u32)>) -> Seq<Seq<char>> {
    files.map_values(|f: (String, u32)| f.0@)
}

pub open spec fn flag(b: bool, f: FindingView) -> Seq<FindingView> {
    if b {
        seq![f]
    } else {
        Seq::empty()
    }
}

/// What annotation `a` of source `input` names: its file, examples,
/// prereqs and features.
pub open spec fn names_findings(
    flat: Seq<(int, Annotation)>,
    input: SourceInput,
    a: Annotation,
    examples: Seq<Seq<char>>,
    features: Seq<Seq<char>>,
) -> Seq<FindingView> {
    flag(!file_names(input.files@).contains(a.file@), FindingView::UnknownSourceFile(a.id@, a.file@, input.name@))
        + vocabulary_findings(a.id@, texts(a.examples@), examples, false)
        + prereq_findings(flat, a.id@, texts(a.prereqs@))
        + vocabulary_findings(a.id@, texts(a.rust_features@), features, true)
}

/// What annotation `a` says of itself: its course unit, body, title,
/// glossary citations and macro-def link.
pub open spec fn self_findings(
    loaded: Seq<SourceInput>,
    flat: Seq<(int, Annotation)>,
    a: Annotation,
    glossary: Seq<Seq<char>>,
) -> Seq<FindingView> {
    flag(a.tracks@.contains(Track::Course) && a.course_unit is None, FindingView::NoCourseUnit(a.id@))
        + flag(trim(a.body@).len() == 0, FindingView::EmptyBody(a.id@))
        + flag(trim(a.title@).len() == 0, FindingView::EmptyTitle(a.id@))
        + glossary_findings(a.id@, texts(a.glossary@), glossary)
        + macro_findings(loaded, flat, a)
}

/// Everything the audit reports for annotation `a` of source `input`.
pub open spec fn ann_findings(
    loaded: Seq<SourceInput>,
    flat: Seq<(int, Annotation)>,
    input: SourceInput,
    a: Annotation,
    examples: Seq<Seq<char>>,
    features: Seq<Seq<char>>,
    glossary: Seq<Seq<char>>,
) -> Seq<FindingView> {
    names_findings(flat, input, a, examples, features) + self_findings(loaded, flat, a, glossary)
}

/// The reference findings of the first `k` annotations.
pub open spec fn refs_findings(
    loaded: Seq<SourceInput>,
    examples: Seq<Seq<char>>,
    features: Seq<Seq<char>>,
    glossary: Seq<Seq<char>>,
    k: int,
) -> Seq<FindingView>
    decreases k,
{
    if k <= 0 {
        Seq::empty()
    } else {
        let flat = flat_anns(loaded);
        refs_findings(loaded, examples, features, glossary, k - 1)
            + ann_findings(loaded, flat, loaded[flat[k - 1].0], flat[k - 1].1, examples, features, glossary)
    }
}

pub(crate) fn last_index_of_id(flat: &Vec<(usize, &Annotation)>, upto: usize, id: &str) -> (r: Option<usize>)
    requires
        upto <= flat@.len(),
    ensures
        match r {
            Some(i) => last_with_id(flat_view(flat@).take(upto as int), id@) == i && i < upto,
            None => last_with_id(flat_view(flat@).take(upto as int), id@) == -1,
        },
{
    let ghost fv = flat_view(flat@).take(upto as int);
    let mut k: usize = upto;
    assert(fv.take(k as int) =~= fv);
    while k > 0
        invariant
            k <= upto <= flat@.len(),
            fv == flat_view(flat@).take(upto as int),
            last_with_id(fv, id@) == last_with_id(fv.take(k as int), id@),
        decreases k,
    {
        assert(fv.take(k as int).drop_last() =~= fv.take(k - 1));
        assert(fv.take(k as int).last().1 == *flat@[k - 1].1);
        if crate::text::str_eq(flat[k - 1].1.id.as_str(), id) {
            return Some(k - 1);
        }
        k -= 1;
    }
    None
}

fn is_blank(s: &String) -> (r: bool)
    ensures
        r == (trim(s@).len() == 0),
{
    trimmed(chars_of(s.as_str()).as_slice()).len() == 0
}

fn has_file(files: &Vec<(String, u32)>, f: &str) -> (r: bool)
    ensures
        r == file_names(files@).contains(f@),
{
    let mut i: usize = 0;
    while i < files.len()
        invariant
            i <= files@.len(),
            forall|k: int| 0 <= k < i ==> file_names(files@)[k] != f@,
        decreases files@.len() - i,
    {
        if crate::text::str_eq(files[i].0.as_str(), f) {
            assert(file_names(files@)[i as int] == f@);
            return true;
        }
        i += 1;
    }
    false
}

fn on_course(tracks: &Vec<Track>) -> (r: bool)
    ensures
        r == tracks@.contains(Track::Course),
{
    let mut i: usize = 0;
    while i < tracks.len()
        invariant
            i <= tracks@.len(),
            forall|k: int| 0 <= k < i ==> tracks@[k] != Track::Course,
        decreases tracks@.len() - i,
    {
        if tracks[i] == Track::Course {
            return true;
        }
        i += 1;
    }
    false
}

#[verifier::spinoff_prover]
fn check_prereqs(flat: &Vec<(usize, &Annotation)>, a: &Annotation, diag: &mut Diagnostics)
    ensures
        findings_view(final(diag).errors@) == findings_view(old(diag).errors@) + prereq_findings(flat_view(flat@), a.id@, texts(a.prereqs@)),
        final(diag).warnings@ == old(diag).warnings@,
{
    let ghost e0 = findings_view(diag.errors@);
    let ghost fv = flat_view(flat@);
    let mut i: usize = 0;
    assert(fv.take(flat@.len() as int) =~= fv);
    while i < a.prereqs.len()
        invariant
            i <= a.prereqs@.len(),
            fv == flat_view(flat@),
            fv.take(flat@.len() as int) == fv,
            findings_view(diag.errors@) == e0 + prereq_findings(fv, a.id@, texts(a.prereqs@).take(i as int)),
            diag.warnings@ == old(diag).warnings@,
        decreases a.prereqs@.len() - i,
    {
        assert(texts(a.prereqs@).take(i + 1).drop_last() =~= texts(a.prereqs@).take(i as int));
        assert(texts(a.prereqs@).take(i + 1).last() == a.prereqs@[i as int]@);
        let ghost d0 = findings_view(diag.errors@);
        if last_index_of_id(flat, flat.len(), a.prereqs[i].as_str()).is_none() {
            diag.error(Finding::UnknownPrereq { id: copy_text(&a.id), prereq: copy_text(&a.prereqs[i]) });
            assert(findings_view(diag.errors@) =~= d0.push(finding_view(diag.errors@.last())));
        }
        i += 1;
    }
    assert(texts(a.prereqs@).take(i as int) =~= texts(a.prereqs@));
}

#[verifier::spinoff_prover]
fn check_glossary_citations(a: &Annotation, glossary: &Vec<String>, diag: &mut Diagnostics)
    ensures
        findings_view(final(diag).errors@) == findings_view(old(diag).errors@) + glossary_findings(a.id@, texts(a.glossary@), texts(glossary@)),
        final(diag).warnings@ == old(diag).warnings@,
{
    let ghost e0 = findings_view(diag.errors@);
    let mut g: usize = 0;
    assert(findings_view(diag.errors@) =~= e0 + glossary_findings(a.id@, texts(a.glossary@).take(0), texts(glossary@)));
    while g < a.glossary.len()
        invariant
            g <= a.glossary@.len(),
            findings_view(diag.errors@) == e0 + glossary_findings(a.id@, texts(a.glossary@).take(g as int), texts(glossary@)),
            diag.warnings@ == old(diag).warnings@,
        decreases a.glossary@.len() - g,
    {
        assert(texts(a.glossary@).take(g + 1).drop_last() =~= texts(a.glossary@).take(g as int));
        assert(texts(a.glossary@).take(g + 1).last() == a.glossary@[g as int]@);
        let ghost d0 = findings_view(diag.errors@);
        if !contains_text(glossary, a.glossary[g].as_str()) {
            diag.error(Finding::UnknownGlossary { who: copy_text(&a.id), id: copy_text(&a.glossary[g]) });
            assert(findings_view(diag.errors@) =~= d0.push(finding_view(diag.errors@.last())));
        }
        g += 1;
    }
    assert(texts(a.glossary@).take(g as int) =~= texts(a.glossary@));
}

#[verifier::spinoff_prover]
fn check_macro(loaded: &Vec<SourceInput>, flat: &Vec<(usize, &Annotation)>, a: &Annotation, diag: &mut Diagnostics)
    requires
        flat_view(flat@) == flat_anns(loaded@),
        last_with_id(flat_view(flat@), a.id@) >= 0,
    ensures
        findings_view(final(diag).errors@) == findings_view(old(diag).errors@) + macro_findings(loaded@, flat_view(flat@), *a),
        final(diag).warnings@ == old(diag).warnings@,
{
    let ghost e0 = findings_view(diag.errors@);
    let ghost fv = flat_view(flat@);
    proof {
        lemma_flat_sources(loaded@);
        assert(fv.take(flat@.len() as int) =~= fv);
    }
    match &a.macro_def {
        None => {
            if a.kind == Kind::MacroUse {
                diag.error(Finding::MacroUseWithoutDef { id: copy_text(&a.id) });
                assert(findings_view(diag.errors@) =~= e0.push(finding_view(diag.errors@.last())));
            } else {
                assert(findings_view(diag.errors@) =~= e0 + Seq::<FindingView>::empty());
            }
        },
        Some(t) => {
            if a.kind == Kind::MacroUse {
                match last_index_of_id(flat, flat.len(), t.as_str()) {
                    None => {
                        diag.error(Finding::UnknownMacroDef { id: copy_text(&a.id), target: copy_text(t) });
                        assert(findings_view(diag.errors@) =~= e0.push(finding_view(diag.errors@.last())));
                    },
                    Some(i) => {
                        let def = flat[i].1;
                        assert(fv[i as int].1 == *def);
                        if def.kind != Kind::MacroDef {
                            diag.error(Finding::NotMacroDef { id: copy_text(&a.id), target: copy_text(t), kind: def.kind });
                            assert(findings_view(diag.errors@) =~= e0.push(finding_view(diag.errors@.last())));
                        } else {
                            let h = last_index_of_id(flat, flat.len(), a.id.as_str());
                            let j = match h {
                                Some(j) => j,
                                None => {
                                    return;
                                },
                            };
                            let here = &loaded[flat[j].0].name;
                            let there = &loaded[flat[i].0].name;
                            assert(fv[j as int].0 == flat@[j as int].0 as int);
                            assert(fv[i as int].0 == flat@[i as int].0 as int);
                            if !crate::text::str_eq(here.as_str(), there.as_str()) {
                                diag.error(Finding::MacroDefElsewhere { id: copy_text(&a.id), target: copy_text(t), there: copy_text(there), here: copy_text(here) });
                                assert(findings_view(diag.errors@) =~= e0.push(finding_view(diag.errors@.last())));
                            } else {
                                assert(findings_view(diag.errors@) =~= e0 + Seq::<FindingView>::empty());
                            }
                        }
                    },
                }
            } else {
                diag.error(Finding::MacroDefOnKind { id: copy_text(&a.id), target: copy_text(t), kind: a.kind });
                assert(findings_view(diag.errors@) =~= e0.push(finding_view(diag.errors@.last())));
            }
        },
    }
}

#[verifier::spinoff_prover]
fn check_names(
    flat: &Vec<(usize, &Annotation)>,
    input: &SourceInput,
    a: &Annotation,
    examples: &Vec<String>,
    features: &Vec<String>,
    diag: &mut Diagnostics,
)
    ensures
        findings_view(final(diag).errors@) == findings_view(old(diag).errors@) + names_findings(flat_view(flat@), *input, *a, texts(examples@), texts(features@)),
        final(diag).warnings@ == old(diag).warnings@,
{
    let ghost e0 = findings_view(diag.errors@);
    if !has_file(&input.files, a.file.as_str()) {
        diag.error(Finding::UnknownSourceFile { id: copy_text(&a.id), file: copy_text(&a.file), source: copy_text(&input.name) });
        assert(findings_view(diag.errors@) =~= e0.push(finding_view(diag.errors@.last())));
    }
    let ghost e1 = findings_view(diag.errors@);
    report_vocabulary(&a.id, &a.examples, examples, false, diag);
    let ghost e2 = findings_view(diag.errors@);
    check_prereqs(flat, a, diag);
    let ghost e3 = findings_view(diag.errors@);
    report_vocabulary(&a.id, &a.rust_features, features, true, diag);
    proof {
        let p1 = flag(!file_names(input.files@).contains(a.file@), FindingView::UnknownSourceFile(a.id@, a.file@, input.name@));
        let p2 = vocabulary_findings(a.id@, texts(a.examples@), texts(examples@), false);
        let p3 = prereq_findings(flat_view(flat@), a.id@, texts(a.prereqs@));
        assert(e1 =~= e0 + p1);
        assert(e2 =~= e0 + (p1 + p2));
        assert(e3 =~= e0 + (p1 + p2 + p3));
        assert(findings_view(diag.errors@) =~= e0 + (p1 + p2 + p3 + vocabulary_findings(a.id@, texts(a.rust_features@), texts(features@), true)));
    }
}

/// The three flags an annotation raises about itself.
pub open spec fn flag_findings(a: Annotation) -> Seq<FindingView> {
    flag(a.tracks@.contains(Track::Course) && a.course_unit is None, FindingView::NoCourseUnit(a.id@))
        + flag(trim(a.body@).len() == 0, FindingView::EmptyBody(a.id@))
        + flag(trim(a.title@).len() == 0, FindingView::EmptyTitle(a.id@))
}

#[verifier::spinoff_prover]
fn check_flags(a: &Annotation, diag: &mut Diagnostics)
    ensures
        findings_view(final(diag).errors@) == findings_view(old(diag).errors@) + flag_findings(*a),
        final(diag).warnings@ == old(diag).warnings@,
{
    let ghost e0 = findings_view(diag.errors@);
    let ghost p5 = flag(a.tracks@.contains(Track::Course) && a.course_unit is None, FindingView::NoCourseUnit(a.id@));
    let ghost p6 = flag(trim(a.body@).len() == 0, FindingView::EmptyBody(a.id@));
    let ghost p7 = flag(trim(a.title@).len() == 0, FindingView::EmptyTitle(a.id@));
    if on_course(&a.tracks) && a.course_unit.is_none() {
        diag.error(Finding::NoCourseUnit { id: copy_text(&a.id) });
    }
    let ghost e5 = findings_view(diag.errors@);
    assert(e5 =~= e0 + p5);
    if is_blank(&a.body) {
        diag.error(Finding::EmptyBody { id: copy_text(&a.id) });
    }
    let ghost e6 = findings_view(diag.errors@);
    assert(e6 =~= e5 + p6);
    if is_blank(&a.title) {
        diag.error(Finding::EmptyTitle { id: copy_text(&a.id) });
    }
    assert(findings_view(diag.errors@) =~= e6 + p7);
    assert(findings_view(diag.errors@) =~= e0 + (p5 + p6 + p7));
}

fn check_self(
    loaded: &Vec<SourceInput>,
    flat: &Vec<(usize, &Annotation)>,
    a: &Annotation,
    glossary: &Vec<String>,
    diag: &mut Diagnostics,
)
    requires
        flat_view(flat@) == flat_anns(loaded@),
        last_with_id(flat_view(flat@), a.id@) >= 0,
    ensures
        findings_view(final(diag).errors@) == findings_view(old(diag).errors@) + self_findings(loaded@, flat_view(flat@), *a, texts(glossary@)),
        final(diag).warnings@ == old(diag).warnings@,
{
    let ghost e0 = findings_view(diag.errors@);
    check_flags(a, diag);
    let ghost e7 = findings_view(diag.errors@);
    check_glossary_citations(a, glossary, diag);
    let ghost e8 = findings_view(diag.errors@);
    check_macro(loaded, flat, a, diag);
    proof {
        let f = flag_findings(*a);
        let p8 = glossary_findings(a.id@, texts(a.glossary@), texts(glossary@));
        let p9 = macro_findings(loaded@, flat_view(flat@), *a);
        assert(e8 =~= e0 + (f + p8));
        assert(findings_view(diag.errors@) =~= e0 + (f + p8 + p9));
        assert(self_findings(loaded@, flat_view(flat@), *a, texts(glossary@)) =~= f + p8 + p9);
    }
}

fn check_annotation(
    loaded: &Vec<SourceInput>,
    flat: &Vec<(usize, &Annotation)>,
    input: &SourceInput,
    a: &Annotation,
    examples: &Vec<String>,
    features: &Vec<String>,
    glossary: &Vec<String>,
    diag: &mut Diagnostics,
)
    requires
        flat_view(flat@) == flat_anns(loaded@),
        last_with_id(flat_view(flat@), a.id@) >= 0,
    ensures
        findings_view(final(diag).errors@) == findings_view(old(diag).errors@) + ann_findings(
            loaded@,
            flat_view(flat@),
            *input,
            *a,
            texts(examples@),
            texts(features@),
            texts(glossary@),
        ),
        final(diag).warnings@ == old(diag).warnings@,
{
    let ghost e0 = findings_view(diag.errors@);
    check_names(flat, input, a, examples, features, diag);
    let ghost e1 = findings_view(diag.errors@);
    check_self(loaded, flat, a, glossary, diag);
    assert(findings_view(diag.errors@) =~= e0 + (names_findings(flat_view(flat@), *input, *a, texts(examples@), texts(features@)) + self_findings(loaded@, flat_view(flat@), *a, texts(glossary@))));
}

/// Identity and cross-reference integrity over every store: ids once each
/// across all of them; then, annotation by annotation in store order, its
/// file, examples, prereqs, features, course unit, body, title, glossary
/// citations, and macro-def link. `examples`, `features` and `glossary` are
/// the names that exist.
#[verifier::spinoff_prover]
pub fn check_references(
    loaded: &Vec<SourceInput>,
    examples: &Vec<String>,
    features: &Vec<String>,
    glossary: &Vec<String>,
    diag: &mut Diagnostics,
)
    ensures
        findings_view(final(diag).errors@) == findings_view(old(diag).errors@)
            + dup_id_findings(flat_anns(loaded@), flat_anns(loaded@).len() as int)
            + refs_findings(loaded@, texts(examples@), texts(features@), texts(glossary@), flat_anns(loaded@).len() as int),
        final(diag).warnings@ == old(diag).warnings@,
{
    let ghost e0 = findings_view(diag.errors@);
    let flat = flatten(loaded);
    let ghost fv = flat_view(flat@);
    let mut k: usize = 0;
    while k < flat.len()
        invariant
            k <= flat@.len(),
            fv == flat_view(flat@),
            findings_view(diag.errors@) == e0 + dup_id_findings(fv, k as int),
            diag.warnings@ == old(diag).warnings@,
        decreases flat@.len() - k,
    {
        let id = &flat[k].1.id;
        assert(fv[k as int].1 == *flat@[k as int].1);
        let ghost d0 = findings_view(diag.errors@);
        if last_index_of_id(&flat, k, id.as_str()).is_some() {
            diag.error(Finding::DuplicateAnnotation { id: copy_text(id) });
            assert(findings_view(diag.errors@) =~= d0.push(finding_view(diag.errors@.last())));
        } else {
            assert(findings_view(diag.errors@) =~= d0 + Seq::<FindingView>::empty());
        }
        assert(fv.take(k as int) == flat_view(flat@).take(k as int));
        k += 1;
    }
    let ghost e1 = findings_view(diag.errors@);
    proof {
        lemma_flat_sources(loaded@);
    }
    let mut j: usize = 0;
    while j < flat.len()
        invariant
            j <= flat@.len(),
            fv == flat_view(flat@),
            fv == flat_anns(loaded@),
            findings_view(diag.errors@) == e1 + refs_findings(loaded@, texts(examples@), texts(features@), texts(glossary@), j as int),
            diag.warnings@ == old(diag).warnings@,
        decreases flat@.len() - j,
    {
        let (src, a) = flat[j];
        proof {
            lemma_flat_sources(loaded@);
        }
        assert(fv[j as int] == (src as int, *a));
        assert(0 <= flat_anns(loaded@)[j as int].0 < loaded@.len());
        proof {
            lemma_last_with_id(fv, a.id@);
            if last_with_id(fv, a.id@) == -1 {
                assert(fv[j as int].1.id@ == a.id@);
            }
        }
        let ghost d0 = findings_view(diag.errors@);
        check_annotation(loaded, &flat, &loaded[src], a, examples, features, glossary, diag);
        assert(findings_view(diag.errors@) =~= e1 + refs_findings(loaded@, texts(examples@), texts(features@), texts(glossary@), j + 1));
        j += 1;
    }
}

/// Why a source's manifest cannot be used.
#[derive(Debug)]
pub enum ManifestError {
    /// The manifest is keyed to another source than the pinned one.
    SourceMismatch { name: String, manifest: String, pinned: String },
}

/// Findings for files the manifest calls complete that the source lacks.
pub open spec fn unknown_complete(name: Seq<char>, complete: Seq<Seq<char>>, files: Seq<Seq<char>>) -> Seq<FindingView>
    decreases complete.len(),
{
    if complete.len() == 0 {
        Seq::empty()
    } else {
        unknown_complete(name, complete.drop_last(), files) + flag(!files.contains(complete.last()), FindingView::ManifestUnknownFile(name, complete.last()))
    }
}

/// Checks one source's manifest against the pin and the source's files:
/// it must name the pinned source, and every file it calls complete must
/// exist.
#[verifier::spinoff_prover]
pub fn check_manifest(
    name: &str,
    source_id: &str,
    manifest: &crate::schema::Manifest,
    files: &Vec<String>,
    diag: &mut Diagnostics,
) -> (r: Result<(), ManifestError>)
    ensures
        manifest.source@ != source_id@ ==> (r matches Err(ManifestError::SourceMismatch { name: n, manifest: m, pinned: p })
            && n@ == name@ && m@ == manifest.source@ && p@ == source_id@ && final(diag).errors@ == old(diag).errors@),
        manifest.source@ == source_id@ ==> r is Ok
            && findings_view(final(diag).errors@) == findings_view(old(diag).errors@) + unknown_complete(name@, texts(manifest.complete@), texts(files@)),
        final(diag).warnings@ == old(diag).warnings@,
{
    if !crate::text::str_eq(manifest.source.as_str(), source_id) {
        return Err(ManifestError::SourceMismatch {
            name: crate::text::string_of(chars_of(name).as_slice()),
            manifest: copy_text(&manifest.source),
            pinned: crate::text::string_of(chars_of(source_id).as_slice()),
        });
    }
    let ghost e0 = findings_view(diag.errors@);
    let ghost cv = texts(manifest.complete@);
    let mut i: usize = 0;
    while i < manifest.complete.len()
        invariant
            i <= manifest.complete@.len(),
            cv == texts(manifest.complete@),
            findings_view(diag.errors@) == e0 + unknown_complete(name@, cv.take(i as int), texts(files@)),
            diag.warnings@ == old(diag).warnings@,
        decreases manifest.complete@.len() - i,
    {
        assert(cv.take(i + 1).drop_last() =~= cv.take(i as int));
        assert(cv.take(i + 1).last() == manifest.complete@[i as int]@);
        let ghost d0 = findings_view(diag.errors@);
        let f = &manifest.complete[i];
        if !contains_text(files, f.as_str()) {
            diag.error(Finding::ManifestUnknownFile { source: crate::text::string_of(chars_of(name).as_slice()), file: copy_text(f) });
            assert(findings_view(diag.errors@) =~= d0.push(finding_view(diag.errors@.last())));
        } else {
            assert(findings_view(diag.errors@) =~= d0 + Seq::<FindingView>::empty());
        }
        i += 1;
    }
    assert(cv.take(i as int) =~= cv);
    Ok(())
}

} // verus!
