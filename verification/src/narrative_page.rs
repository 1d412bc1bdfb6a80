//! The derive track's pages: one unit's place in the sidebar, and each of
//! its steps as the page shows it, with the cited lines highlighted and
//! numbered as they stand in the pinned tree.
use crate::blocks::{emit_block, emit_result, expansions_fit, BlockError, Expansion};
use crate::highlight::{highlight_at, highlighted, pieces, HighlightError, Highlighter};
use crate::markdown::{markdown_html, render};
use crate::schema::DeriveKind;
use crate::site::{gloss_links, label, label_spec, lines_view, page_name, EmitBlock, GlossLink, Line, Pages};
use crate::store::{store_units, NarrativeItem, NarrativeStepItem, Store, Unit};
use crate::text::{chars_of, first_of, str_eq, string_of};
use vstd::prelude::*;

verus! {

/// A narrative unit in the sidebar and on the track's index.
#[derive(Debug)]
pub struct NarrativeNav {
    pub id: String,
    pub number: String,
    pub title: String,
    pub href: String,
    pub summary_html: String,
    pub steps: usize,
    pub crossings: usize,
}

/// A link to the step a step leans on.
#[derive(Debug)]
pub struct StepLink {
    pub title: String,
    pub href: String,
}

/// One step as its page shows it.
#[derive(Debug)]
pub struct NarrativeStepBlock {
    pub id: String,
    pub title: String,
    pub body_html: String,
    /// Which tree the cited lines come from: `"serde_derive 1.0.228"`.
    pub origin: String,
    pub file: String,
    pub range_label: String,
    pub code: Vec<Line>,
    pub glossary: Vec<GlossLink>,
    /// The annotation the step names, when the store has it.
    pub annotation_href: String,
    pub annotation_title: String,
    pub leans_on: Vec<StepLink>,
    pub emits: Vec<EmitBlock>,
}

/// Why a step could not be shown.
#[derive(Debug)]
pub enum StepError {
    /// Highlighting the cited lines failed.
    Highlight { id: String, err: HighlightError },
    /// The step's claim about generated code failed.
    Emit { err: BlockError },
}

/// The part of an id before its first `-`, or nothing.
pub open spec fn number_of(id: Seq<char>) -> Seq<char> {
    if first_of(id, '-') < id.len() {
        id.take(first_of(id, '-') as int)
    } else {
        Seq::empty()
    }
}

/// How many of the first `k` steps cross into an annotated crate.
pub open spec fn crossings_of(steps: Seq<NarrativeStepItem>, k: int) -> nat
    decreases k,
{
    if k <= 0 {
        0
    } else {
        crossings_of(steps, k - 1) + if steps[k - 1].is_coverage {
            1nat
        } else {
            0nat
        }
    }
}

/// A unit's entry in the sidebar.
pub fn narrative_nav(u: &NarrativeItem) -> (n: NarrativeNav)
    ensures
        n.id@ == u.unit.id@,
        n.number@ == number_of(u.unit.id@),
        n.title@ == u.unit.title@,
        n.href@ == u.unit.id@ + ".html"@,
        n.summary_html@ == markdown_html(u.unit.summary@),
        n.steps == u.steps@.len(),
        n.crossings == crossings_of(u.steps@, u.steps@.len() as int),
{
    let id = chars_of(u.unit.id.as_str());
    let dash = crate::text::find_char(id.as_slice(), '-');
    let number = if dash < id.len() {
        copy_range_chars(&id, dash)
    } else {
        Vec::new()
    };
    assert(dash < id@.len() ==> number@ =~= id@.take(dash as int));
    assert(dash >= id@.len() ==> number@ =~= Seq::<char>::empty());
    let mut crossings: usize = 0;
    let mut k: usize = 0;
    while k < u.steps.len()
        invariant
            k <= u.steps@.len(),
            crossings == crossings_of(u.steps@, k as int),
            crossings <= k,
        decreases u.steps@.len() - k,
    {
        if u.steps[k].is_coverage {
            crossings += 1;
        }
        k += 1;
    }
    let mut href = chars_of(u.unit.id.as_str());
    let mut tail = chars_of(".html");
    href.append(&mut tail);
    NarrativeNav {
        id: copy_str(u.unit.id.as_str()),
        number: string_of(number.as_slice()),
        title: copy_str(u.unit.title.as_str()),
        href: string_of(href.as_slice()),
        summary_html: render(u.unit.summary.as_str()),
        steps: u.steps.len(),
        crossings,
    }
}

fn copy_range_chars(v: &Vec<char>, n: usize) -> (r: Vec<char>)
    requires
        n <= v@.len(),
    ensures
        r@ == v@.take(n as int),
{
    let r = crate::text::copy_range(v.as_slice(), 0, n);
    assert(v@.subrange(0, n as int) =~= v@.take(n as int));
    r
}

fn copy_str(s: &str) -> (r: String)
    ensures
        r@ == s@,
{
    string_of(chars_of(s).as_slice())
}

/// Every step of the track, in order, as its id, its title and its unit's
/// id.
pub open spec fn flat_steps(units: Seq<NarrativeItem>) -> Seq<(Seq<char>, Seq<char>, Seq<char>)>
    decreases units.len(),
{
    if units.len() == 0 {
        Seq::empty()
    } else {
        flat_steps(units.drop_last()) + units.last().steps@.map_values(
            |s: NarrativeStepItem| (s.step.id@, s.step.title@, units.last().unit.id@),
        )
    }
}

/// The title and unit of the last step with this id.
pub open spec fn last_step(flat: Seq<(Seq<char>, Seq<char>, Seq<char>)>, id: Seq<char>) -> Option<(Seq<char>, Seq<char>)>
    decreases flat.len(),
{
    if flat.len() == 0 {
        None
    } else if flat.last().0 == id {
        Some((flat.last().1, flat.last().2))
    } else {
        last_step(flat.drop_last(), id)
    }
}

/// The links to the first `k` steps leaned on that the track has.
pub open spec fn lean_links(names: Seq<String>, flat: Seq<(Seq<char>, Seq<char>, Seq<char>)>, k: int) -> Seq<(Seq<char>, Seq<char>)>
    decreases k,
{
    if k <= 0 {
        Seq::empty()
    } else {
        lean_links(names, flat, k - 1) + match last_step(flat, names[k - 1]@) {
            Some((title, unit)) => seq![(title, unit + ".html#"@ + names[k - 1]@)],
            None => Seq::empty(),
        }
    }
}

/// The last annotation with this id.
pub open spec fn last_unit(units: Seq<Unit>, id: Seq<char>) -> Option<Unit>
    decreases units.len(),
{
    if units.len() == 0 {
        None
    } else if units.last().annotation.id@ == id {
        Some(units.last())
    } else {
        last_unit(units.drop_last(), id)
    }
}

/// The case a step's claim is checked against: its own, or its unit's.
pub open spec fn step_claim(item: NarrativeStepItem, unit: NarrativeItem) -> Option<(Seq<char>, DeriveKind, Seq<char>)> {
    let case = match item.step.emits_case {
        Some(c) => Some(c),
        None => unit.unit.expand_case,
    };
    match (item.step.emits, item.step.emits_from, case) {
        (Some(s), Some(k), Some(c)) => Some((s@, k, c@)),
        _ => None,
    }
}

/// `b` is how the page shows the step.
pub open spec fn step_ok(
    b: NarrativeStepBlock,
    item: NarrativeStepItem,
    unit: NarrativeItem,
    units: Seq<NarrativeItem>,
    store: Seq<Unit>,
    pages: Pages,
    expansions: Seq<Expansion>,
    hl: Highlighter,
) -> bool {
    let s = item.step;
    &&& b.id@ == s.id@ && b.title@ == s.title@ && b.file@ == s.file@
    &&& b.body_html@ == markdown_html(s.body@)
    &&& b.origin@ == item.crate_name@ + " "@ + item.version@
    &&& b.range_label@ == label_spec(item.range.start, item.range.end)
    &&& highlighted(hl, item.quoted@, item.range.start as int) matches Ok(v) && lines_view(b.code@) == v
    &&& crate::blocks::gloss_ok(b.glossary@, s.glossary@)
    &&& match s.annotation {
        Some(id) => match last_unit(store, id@) {
            Some(u) => b.annotation_href@ == page_name(pages.first_name(), u.source@, u.annotation.file@) + seq!['#']
                + id@ && b.annotation_title@ == u.annotation.title@,
            None => b.annotation_href@.len() == 0 && b.annotation_title@.len() == 0,
        },
        None => b.annotation_href@.len() == 0 && b.annotation_title@.len() == 0,
    }
    &&& b.leans_on@.map_values(|l: StepLink| (l.title@, l.href@)) == lean_links(
        s.leans_on@,
        flat_steps(units),
        s.leans_on@.len() as int,
    )
    &&& match step_claim(item, unit) {
        None => b.emits@.len() == 0,
        Some((snippet, kind, case)) => b.emits@.len() == 1 && emit_result(
            Ok(b.emits@[0]),
            expansions,
            s.id@,
            snippet,
            kind,
            case,
            hl,
        ),
    }
}

/// Every step of the track, as id, title and unit id.
fn flatten_steps(units: &[NarrativeItem]) -> (r: Vec<(String, String, String)>)
    ensures
        r@.map_values(|t: (String, String, String)| (t.0@, t.1@, t.2@)) == flat_steps(units@),
{
    let mut r: Vec<(String, String, String)> = Vec::new();
    let mut i: usize = 0;
    while i < units.len()
        invariant
            i <= units@.len(),
            r@.map_values(|t: (String, String, String)| (t.0@, t.1@, t.2@)) == flat_steps(units@.take(i as int)),
        decreases units@.len() - i,
    {
        let u = &units[i];
        let ghost before = r@.map_values(|t: (String, String, String)| (t.0@, t.1@, t.2@));
        let ghost steps_v = u.steps@.map_values(
            |s: NarrativeStepItem| (s.step.id@, s.step.title@, u.unit.id@),
        );
        let mut k: usize = 0;
        while k < u.steps.len()
            invariant
                k <= u.steps@.len(),
                steps_v == u.steps@.map_values(|s: NarrativeStepItem| (s.step.id@, s.step.title@, u.unit.id@)),
                r@.map_values(|t: (String, String, String)| (t.0@, t.1@, t.2@)) == before + steps_v.take(k as int),
            decreases u.steps@.len() - k,
        {
            let ghost pre = r@.map_values(|t: (String, String, String)| (t.0@, t.1@, t.2@));
            let t = (
                copy_str(u.steps[k].step.id.as_str()),
                copy_str(u.steps[k].step.title.as_str()),
                copy_str(u.unit.id.as_str()),
            );
            r.push(t);
            assert(steps_v[k as int] == (t.0@, t.1@, t.2@));
            assert(r@.map_values(|t: (String, String, String)| (t.0@, t.1@, t.2@)) =~= pre.push((t.0@, t.1@, t.2@)));
            assert(steps_v.take(k + 1) =~= steps_v.take(k as int).push((t.0@, t.1@, t.2@)));
            k += 1;
        }
        assert(steps_v.take(k as int) =~= steps_v);
        assert(units@.take(i + 1).drop_last() =~= units@.take(i as int));
        assert(units@.take(i + 1).last() == units@[i as int]);
        i += 1;
    }
    assert(units@.take(i as int) =~= units@);
    r
}

/// The title and unit of the last step with this id.
fn find_step(flat: &Vec<(String, String, String)>, id: &str) -> (r: Option<(String, String)>)
    ensures
        ({
            let fv = flat@.map_values(|t: (String, String, String)| (t.0@, t.1@, t.2@));
            match r {
                Some((t, u)) => last_step(fv, id@) == Some((t@, u@)),
                None => last_step(fv, id@) is None,
            }
        }),
{
    let ghost fv = flat@.map_values(|t: (String, String, String)| (t.0@, t.1@, t.2@));
    let mut k: usize = flat.len();
    assert(fv.take(k as int) =~= fv);
    while k > 0
        invariant
            k <= flat@.len(),
            fv == flat@.map_values(|t: (String, String, String)| (t.0@, t.1@, t.2@)),
            last_step(fv, id@) == last_step(fv.take(k as int), id@),
        decreases k,
    {
        assert(fv.take(k as int).drop_last() =~= fv.take(k - 1));
        assert(fv.take(k as int).last() == fv[k - 1]);
        if str_eq(flat[k - 1].0.as_str(), id) {
            return Some((copy_str(flat[k - 1].1.as_str()), copy_str(flat[k - 1].2.as_str())));
        }
        k -= 1;
    }
    assert(fv.take(0) =~= Seq::<(Seq<char>, Seq<char>, Seq<char>)>::empty());
    None
}

/// The last annotation with this id.
fn find_unit<'a>(units: &Vec<&'a Unit>, id: &str) -> (r: Option<&'a Unit>)
    ensures
        ({
            let uv = units@.map_values(|u: &Unit| *u);
            match r {
                Some(u) => last_unit(uv, id@) == Some(*u),
                None => last_unit(uv, id@) is None,
            }
        }),
{
    let ghost uv = units@.map_values(|u: &Unit| *u);
    let mut k: usize = units.len();
    assert(uv.take(k as int) =~= uv);
    while k > 0
        invariant
            k <= units@.len(),
            uv == units@.map_values(|u: &Unit| *u),
            last_unit(uv, id@) == last_unit(uv.take(k as int), id@),
        decreases k,
    {
        assert(uv.take(k as int).drop_last() =~= uv.take(k - 1));
        assert(uv.take(k as int).last() == *units@[k - 1]);
        if str_eq(units[k - 1].annotation.id.as_str(), id) {
            return Some(units[k - 1]);
        }
        k -= 1;
    }
    assert(uv.take(0) =~= Seq::<Unit>::empty());
    None
}

/// One step as its page shows it: its prose, the cited lines highlighted
/// and numbered as they stand in the pinned tree, the annotation it names,
/// links to the steps it leans on, and its claim about generated code, if
/// it makes one, quoted from the expansion. `unit` is the step's unit and
/// `units` the whole track.
pub fn step_block(
    item: &NarrativeStepItem,
    unit: &NarrativeItem,
    units: &[NarrativeItem],
    store: &Store,
    pages: &Pages,
    expansions: &[Expansion],
    hl: &Highlighter,
) -> (r: Result<NarrativeStepBlock, StepError>)
    requires
        expansions_fit(expansions@),
        item.range.wf(),
        item.range.start + pieces(item.quoted@).len() <= u32::MAX + 1,
    ensures
        match r {
            Ok(b) => step_ok(b, *item, *unit, units@, store_units(store.sources@), *pages, expansions@, *hl),
            Err(StepError::Highlight { id, err }) => id@ == item.step.id@
                && highlighted(*hl, item.quoted@, item.range.start as int) == Err::<Seq<(u32, Seq<char>)>, HighlightError>(err),
            Err(StepError::Emit { err }) => match step_claim(*item, *unit) {
                Some((snippet, kind, case)) => emit_result(Err(err), expansions@, item.step.id@, snippet, kind, case, *hl),
                None => false,
            },
        },
{
    let s = &item.step;
    let code = match highlight_at(hl, item.quoted.as_str(), item.range.start) {
        Ok(c) => c,
        Err(e) => return Err(StepError::Highlight { id: copy_str(s.id.as_str()), err: e }),
    };
    let all = store.all_units();
    let (annotation_href, annotation_title) = match &s.annotation {
        Some(id) => match find_unit(&all, id.as_str()) {
            Some(u) => {
                let mut h = chars_of(pages.unit(u).as_str());
                let ghost h0 = h@;
                h.push('#');
                let mut tail = chars_of(id.as_str());
                h.append(&mut tail);
                assert(h@ =~= h0 + seq!['#'] + id@);
                (string_of(h.as_slice()), copy_str(u.annotation.title.as_str()))
            },
            None => (String::new(), String::new()),
        },
        None => (String::new(), String::new()),
    };
    let flat = flatten_steps(units);
    let ghost fv = flat@.map_values(|t: (String, String, String)| (t.0@, t.1@, t.2@));
    let mut leans: Vec<StepLink> = Vec::new();
    let mut k: usize = 0;
    while k < s.leans_on.len()
        invariant
            k <= s.leans_on@.len(),
            fv == flat_steps(units@),
            fv == flat@.map_values(|t: (String, String, String)| (t.0@, t.1@, t.2@)),
            leans@.map_values(|l: StepLink| (l.title@, l.href@)) == lean_links(s.leans_on@, fv, k as int),
        decreases s.leans_on@.len() - k,
    {
        let ghost before = leans@.map_values(|l: StepLink| (l.title@, l.href@));
        match find_step(&flat, s.leans_on[k].as_str()) {
            Some((title, unit_id)) => {
                let mut h = chars_of(unit_id.as_str());
                let mut tail = chars_of(".html#");
                h.append(&mut tail);
                let mut name = chars_of(s.leans_on[k].as_str());
                h.append(&mut name);
                let l = StepLink { title, href: string_of(h.as_slice()) };
                leans.push(l);
                assert(leans@.map_values(|l: StepLink| (l.title@, l.href@)) =~= before.push((l.title@, l.href@)));
            },
            None => {
                assert(leans@.map_values(|l: StepLink| (l.title@, l.href@)) =~= before);
            },
        }
        k += 1;
    }
    let case: Option<&String> = match &s.emits_case {
        Some(c) => Some(c),
        None => match &unit.unit.expand_case {
            Some(c) => Some(c),
            None => None,
        },
    };
    let mut emits: Vec<EmitBlock> = Vec::new();
    match (&s.emits, &s.emits_from, case) {
        (Some(snippet), Some(kind), Some(case)) => {
            match emit_block(expansions, hl, s.id.as_str(), snippet.as_str(), *kind, case.as_str()) {
                Ok(e) => emits.push(e),
                Err(err) => return Err(StepError::Emit { err }),
            }
        },
        _ => {},
    }
    let mut origin = chars_of(item.crate_name.as_str());
    let mut sp = chars_of(" ");
    origin.append(&mut sp);
    let mut ver = chars_of(item.version.as_str());
    origin.append(&mut ver);
    let b = NarrativeStepBlock {
        id: copy_str(s.id.as_str()),
        title: copy_str(s.title.as_str()),
        body_html: render(s.body.as_str()),
        origin: string_of(origin.as_slice()),
        file: copy_str(s.file.as_str()),
        range_label: label(item.range.start, item.range.end),
        code,
        glossary: gloss_links(s.glossary.as_slice()),
        annotation_href,
        annotation_title,
        leans_on: leans,
        emits,
    };
    Ok(b)
}

} // verus!
