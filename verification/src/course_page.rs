//! One annotation as a course page shows it: the block the reference track
//! shows, where the code lives, and what it leans on that the course only
//! teaches later.
use crate::blocks::{annotated, annotated_core, annotated_ok, annotated_result, expansions_fit, BlockError, Expansion};
use crate::highlight::Highlighter;
use crate::schema::{CourseUnit, Kind};
use crate::site::{def_view, defs_view, last_def, macro_def_for, page_name, Block, Line, MacroDef, Pages};
use crate::store::{store_units, Store, Unit};
use crate::text::{chars_of, str_eq, string_of};
use vstd::prelude::*;

verus! {

/// A prerequisite whose own unit comes later in the course. The reader is
/// told, rather than meeting an explanation that leans on something many
/// units away.
#[derive(Debug)]
pub struct Assumes {
    pub title: String,
    pub unit_title: String,
    pub href: String,
}

/// One annotation on a course-unit page.
#[derive(Debug)]
pub struct CourseBlock {
    pub block: Block,
    pub file: String,
    pub href: String,
    pub assumes: Vec<Assumes>,
}

/// The position of the first course unit with this id, or -1.
pub open spec fn course_pos(course: Seq<CourseUnit>, id: Seq<char>, k: int) -> int
    decreases k,
{
    if k <= 0 {
        -1
    } else if course_pos(course, id, k - 1) >= 0 {
        course_pos(course, id, k - 1)
    } else if course[k - 1].id@ == id {
        k - 1
    } else {
        -1
    }
}

/// Where in the course the annotation `id` is taught: the course position
/// of the unit named by the last annotation with this id that names one
/// the course has; -1 when none does.
pub open spec fn placed(units: Seq<Unit>, course: Seq<CourseUnit>, id: Seq<char>) -> int
    decreases units.len(),
{
    if units.len() == 0 {
        -1
    } else {
        let u = units.last();
        let at = match u.annotation.course_unit {
            Some(c) => course_pos(course, c@, course.len() as int),
            None => -1,
        };
        if u.annotation.id@ == id && at >= 0 {
            at
        } else {
            placed(units.drop_last(), course, id)
        }
    }
}

/// The title of the last annotation with this id, or the id itself.
pub open spec fn title_of(units: Seq<Unit>, id: Seq<char>) -> Seq<char>
    decreases units.len(),
{
    if units.len() == 0 {
        id
    } else if units.last().annotation.id@ == id {
        units.last().annotation.title@
    } else {
        title_of(units.drop_last(), id)
    }
}

/// What the annotation leans on: its prerequisites, then the definition it
/// expands.
pub open spec fn leans_on(u: Unit) -> Seq<Seq<char>> {
    u.annotation.prereqs@.map_values(|s: String| s@) + match u.annotation.macro_def {
        Some(d) => seq![d@],
        None => Seq::empty(),
    }
}

/// The forward references among the first `k` names, as title, unit title
/// and link.
pub open spec fn assumes_spec(
    names: Seq<Seq<char>>,
    units: Seq<Unit>,
    course: Seq<CourseUnit>,
    position: int,
    k: int,
) -> Seq<(Seq<char>, Seq<char>, Seq<char>)>
    decreases k,
{
    if k <= 0 {
        Seq::empty()
    } else {
        let p = names[k - 1];
        let at = placed(units, course, p);
        assumes_spec(names, units, course, position, k - 1) + if at > position {
            seq![(title_of(units, p), course[at].title@, course[at].id@ + ".html#"@ + p)]
        } else {
            Seq::empty()
        }
    }
}

/// Forward references as plain values.
pub open spec fn assumes_view(v: Seq<Assumes>) -> Seq<(Seq<char>, Seq<char>, Seq<char>)> {
    v.map_values(|a: Assumes| (a.title@, a.unit_title@, a.href@))
}

/// `c` is how a course page shows unit `u`, taught at `position`.
pub open spec fn course_block_ok(
    c: CourseBlock,
    u: Unit,
    highlighted: Seq<Line>,
    defs: Seq<(String, MacroDef)>,
    pages: Pages,
    expansions: Seq<Expansion>,
    position: int,
    units: Seq<Unit>,
    course: Seq<CourseUnit>,
    hl: Highlighter,
) -> bool {
    let a = u.annotation;
    let link = match a.macro_def {
        Some(d) => if a.kind == Kind::MacroUse {
            last_def(defs_view(defs), d@)
        } else {
            None
        },
        None => None,
    };
    &&& c.file@ == a.file@
    &&& c.href@ == page_name(pages.first_name(), u.source@, a.file@) + seq!['#'] + a.id@
    &&& assumes_view(c.assumes@) == assumes_spec(leans_on(u), units, course, position, leans_on(u).len() as int)
    &&& match link {
        Some((s, f, n)) => {
            &&& c.block.expands_name@ == n
            &&& c.block.expands_href@ == page_name(pages.first_name(), s, f) + seq!['#'] + a.macro_def.unwrap()@
            &&& annotated_core(c.block, u, highlighted, expansions, hl)
        },
        None => annotated_ok(c.block, u, highlighted, expansions, hl),
    }
}

fn copy_str(s: &str) -> (r: String)
    ensures
        r@ == s@,
{
    string_of(chars_of(s).as_slice())
}

/// The position of the first course unit with this id.
fn find_course(course: &Vec<CourseUnit>, id: &str) -> (r: Option<usize>)
    ensures
        match r {
            Some(at) => at == course_pos(course@, id@, course@.len() as int) && at < course@.len(),
            None => course_pos(course@, id@, course@.len() as int) < 0,
        },
{
    let mut k: usize = 0;
    while k < course.len()
        invariant
            k <= course@.len(),
            course_pos(course@, id@, k as int) < 0,
        decreases course@.len() - k,
    {
        if str_eq(course[k].id.as_str(), id) {
            proof {
                lemma_course_pos_stays(course@, id@, k + 1, course@.len() as int);
            }
            return Some(k);
        }
        k += 1;
    }
    None
}

proof fn lemma_course_pos_stays(course: Seq<CourseUnit>, id: Seq<char>, k: int, n: int)
    requires
        0 < k <= n,
        course_pos(course, id, k) >= 0,
    ensures
        course_pos(course, id, n) == course_pos(course, id, k),
    decreases n - k,
{
    if k < n {
        lemma_course_pos_stays(course, id, k, n - 1);
    }
}

/// Where the annotation `id` is taught, as `placed` says.
fn place_of(units: &Vec<&Unit>, course: &Vec<CourseUnit>, id: &str) -> (r: Option<usize>)
    ensures
        match r {
            Some(at) => at == placed(units@.map_values(|u: &Unit| *u), course@, id@) && at < course@.len(),
            None => placed(units@.map_values(|u: &Unit| *u), course@, id@) < 0,
        },
{
    let ghost uv = units@.map_values(|u: &Unit| *u);
    let mut k: usize = units.len();
    assert(uv.take(k as int) =~= uv);
    while k > 0
        invariant
            k <= units@.len(),
            uv == units@.map_values(|u: &Unit| *u),
            placed(uv, course@, id@) == placed(uv.take(k as int), course@, id@),
        decreases k,
    {
        assert(uv.take(k as int).drop_last() =~= uv.take(k - 1));
        assert(uv.take(k as int).last() == *units@[k - 1]);
        let u = units[k - 1];
        if str_eq(u.annotation.id.as_str(), id) {
            match &u.annotation.course_unit {
                Some(c) => {
                    match find_course(course, c.as_str()) {
                        Some(at) => {
                            return Some(at);
                        },
                        None => {},
                    }
                },
                None => {},
            }
        }
        k -= 1;
    }
    assert(uv.take(0) =~= Seq::<Unit>::empty());
    None
}

/// The title of the last annotation with this id, or the id itself.
fn title_for(units: &Vec<&Unit>, id: &str) -> (r: String)
    ensures
        r@ == title_of(units@.map_values(|u: &Unit| *u), id@),
{
    let ghost uv = units@.map_values(|u: &Unit| *u);
    let mut k: usize = units.len();
    assert(uv.take(k as int) =~= uv);
    while k > 0
        invariant
            k <= units@.len(),
            uv == units@.map_values(|u: &Unit| *u),
            title_of(uv, id@) == title_of(uv.take(k as int), id@),
        decreases k,
    {
        assert(uv.take(k as int).drop_last() =~= uv.take(k - 1));
        assert(uv.take(k as int).last() == *units@[k - 1]);
        if str_eq(units[k - 1].annotation.id.as_str(), id) {
            return copy_str(units[k - 1].annotation.title.as_str());
        }
        k -= 1;
    }
    assert(uv.take(0) =~= Seq::<Unit>::empty());
    copy_str(id)
}

/// The forward references of one unit taught at `position`.
fn assumes_for(unit: &Unit, units: &Vec<&Unit>, course: &Vec<CourseUnit>, position: usize) -> (r: Vec<Assumes>)
    ensures
        assumes_view(r@) == assumes_spec(
            leans_on(*unit),
            units@.map_values(|u: &Unit| *u),
            course@,
            position as int,
            leans_on(*unit).len() as int,
        ),
{
    let ghost uv = units@.map_values(|u: &Unit| *u);
    let ghost names = leans_on(*unit);
    let mut names_v: Vec<String> = Vec::new();
    let mut j: usize = 0;
    while j < unit.annotation.prereqs.len()
        invariant
            j <= unit.annotation.prereqs@.len(),
            names_v@.map_values(|s: String| s@) == unit.annotation.prereqs@.map_values(|s: String| s@).take(j as int),
        decreases unit.annotation.prereqs@.len() - j,
    {
        let ghost before = names_v@.map_values(|s: String| s@);
        let x = copy_str(unit.annotation.prereqs[j].as_str());
        names_v.push(x);
        assert(names_v@.map_values(|s: String| s@) =~= before.push(x@));
        assert(unit.annotation.prereqs@.map_values(|s: String| s@).take(j + 1) =~= unit.annotation.prereqs@.map_values(|s: String| s@).take(j as int).push(x@));
        j += 1;
    }
    let ghost pv = names_v@.map_values(|s: String| s@);
    assert(unit.annotation.prereqs@.map_values(|s: String| s@).take(j as int) =~= unit.annotation.prereqs@.map_values(|s: String| s@));
    match &unit.annotation.macro_def {
        Some(d) => {
            let x = copy_str(d.as_str());
            names_v.push(x);
            assert(names_v@.map_values(|s: String| s@) =~= pv.push(x@));
            assert(names_v@.map_values(|s: String| s@) =~= names);
        },
        None => {
            assert(names_v@.map_values(|s: String| s@) =~= names);
        },
    }
    let mut r: Vec<Assumes> = Vec::new();
    let mut k: usize = 0;
    while k < names_v.len()
        invariant
            k <= names_v@.len(),
            names_v@.map_values(|s: String| s@) == names,
            uv == units@.map_values(|u: &Unit| *u),
            assumes_view(r@) == assumes_spec(names, uv, course@, position as int, k as int),
        decreases names_v@.len() - k,
    {
        let p = &names_v[k];
        assert(names[k as int] == p@);
        let ghost before = assumes_view(r@);
        match place_of(units, course, p.as_str()) {
            Some(at) => {
                if at > position {
                    let mut href = chars_of(course[at].id.as_str());
                    let mut tail = chars_of(".html#");
                    href.append(&mut tail);
                    let mut name = chars_of(p.as_str());
                    href.append(&mut name);
                    let a = Assumes {
                        title: title_for(units, p.as_str()),
                        unit_title: copy_str(course[at].title.as_str()),
                        href: string_of(href.as_slice()),
                    };
                    r.push(a);
                    assert(assumes_view(r@) =~= before.push((a.title@, a.unit_title@, a.href@)));
                } else {
                    assert(assumes_view(r@) =~= before);
                }
            },
            None => {
                assert(assumes_view(r@) =~= before);
            },
        }
        k += 1;
    }
    r
}

/// One annotation as a course page shows it: the reference track's block,
/// linked back to the definition when it is a macro use, with where the
/// code lives, the link to its place in the reference track, and its
/// forward references: what it leans on that the course teaches after
/// `position`.
pub fn course_block(
    unit: &Unit,
    highlighted: &[Line],
    defs: &[(String, MacroDef)],
    pages: &Pages,
    expansions: &[Expansion],
    hl: &Highlighter,
    position: usize,
    store: &Store,
) -> (r: Result<CourseBlock, BlockError>)
    requires
        expansions_fit(expansions@),
    ensures
        match r {
            Ok(c) => course_block_ok(
                c,
                *unit,
                highlighted@,
                defs@,
                *pages,
                expansions@,
                position as int,
                store_units(store.sources@),
                store.course@,
                *hl,
            ),
            Err(e) => annotated_result(Err(e), *unit, highlighted@, expansions@, *hl),
        },
{
    let a = &unit.annotation;
    let mut block = match annotated(unit, highlighted, expansions, hl) {
        Ok(b) => b,
        Err(e) => return Err(e),
    };
    if a.kind == Kind::MacroUse {
        match &a.macro_def {
            Some(id) => {
                match macro_def_for(defs, id.as_str()) {
                    Some(d) => {
                        block.expands_name = copy_str(d.name.as_str());
                        let mut href = chars_of(pages.name(d.source.as_str(), d.file.as_str()).as_str());
                        let ghost h0 = href@;
                        href.push('#');
                        let mut tail = chars_of(id.as_str());
                        href.append(&mut tail);
                        assert(href@ =~= h0 + seq!['#'] + id@);
                        block.expands_href = string_of(href.as_slice());
                    },
                    None => {},
                }
            },
            None => {},
        }
    }
    let all = store.all_units();
    let assumes = assumes_for(unit, &all, &store.course, position);
    let mut href = chars_of(pages.unit(unit).as_str());
    let ghost h0 = href@;
    href.push('#');
    let mut tail = chars_of(a.id.as_str());
    href.append(&mut tail);
    assert(href@ =~= h0 + seq!['#'] + a.id@);
    Ok(CourseBlock {
        block,
        file: copy_str(a.file.as_str()),
        href: string_of(href.as_slice()),
        assumes,
    })
}

} // verus!
