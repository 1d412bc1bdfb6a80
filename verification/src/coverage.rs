//! The coverage gate's reasoning: whether a quotation declares the name it
//! claims, how gaps are written, and, over loaded stores, every line claimed
//! by exactly one annotation and every cross-reference resolved.
use crate::schema::LineRange;
use crate::text::{
    chars_of, decimal, decimal_chars, find, find_in, is_ws, lines, split_lines, string_of,
    trim_start, views,
};
use vstd::prelude::*;

verus! {

/// Whether `char::is_alphanumeric` holds of `c`.
pub uninterp spec fn is_alphanumeric(c: char) -> bool;

/// `char::is_alphanumeric`: trusted to return `is_alphanumeric(c)`, and, as
/// its documentation gives for ASCII, true of letters and digits and false
/// of space, `_`, `;` and `{`.
#[verifier::external_body]
fn char_is_alphanumeric(c: char) -> (r: bool)
    ensures
        r == is_alphanumeric(c),
        ('a' <= c <= 'z' || 'A' <= c <= 'Z' || '0' <= c <= '9') ==> r,
        (c == ' ' || c == '_' || c == ';' || c == '{') ==> !r,
{
    c.is_alphanumeric()
}

/// The pieces `str::split(kw)` yields after the first: the text following
/// each occurrence of `kw`, up to the next.
pub open spec fn pieces_after(s: Seq<char>, kw: Seq<char>) -> Seq<Seq<char>>
    decreases s.len(),
{
    if kw.len() == 0 {
        Seq::empty()
    } else {
        match find(s, kw) {
            None => Seq::empty(),
            Some(p) => {
                proof {
                    crate::text::lemma_find_some(s, kw, 0);
                }
                let r = s.skip(p + kw.len());
                let q = match find(r, kw) {
                    Some(q) => q,
                    None => r.len() as int,
                };
                seq![r.take(q)] + pieces_after(r, kw)
            },
        }
    }
}

/// The declaring keywords, each with its trailing space.
pub open spec fn keywords() -> Seq<Seq<char>> {
    seq![
        "struct "@,
        "enum "@,
        "trait "@,
        "fn "@,
        "type "@,
        "macro_rules! "@,
        "union "@,
        "const "@,
    ]
}

/// `piece`, past its leading whitespace, starts with `name` and no further
/// identifier character.
pub open spec fn names_exactly(piece: Seq<char>, name: Seq<char>) -> bool {
    let r = trim_start(piece);
    &&& name.is_prefix_of(r)
    &&& !(r.len() > name.len() && (is_alphanumeric(r[name.len() as int]) || r[name.len() as int] == '_'))
}

/// A line (already trimmed at its start) declares `name` after some keyword.
pub open spec fn line_declares(t: Seq<char>, name: Seq<char>) -> bool {
    &&& !seq!['/', '/'].is_prefix_of(t)
    &&& exists|k: int, j: int|
        0 <= k < keywords().len() && 0 <= j < pieces_after(t, keywords()[k]).len() && names_exactly(
            #[trigger] pieces_after(t, keywords()[k])[j],
            name,
        )
}

/// `s` without its trailing semicolons.
pub open spec fn strip_semis(s: Seq<char>) -> Seq<char>
    decreases s.len(),
{
    if s.len() > 0 && s.last() == ';' {
        strip_semis(s.drop_last())
    } else {
        s
    }
}

/// A line (already trimmed at its start) re-exports `name`: `pub use` and
/// ending with the name as a whole path segment, semicolons aside: the name
/// follows `::` or a space, so `TokenStream` does not re-export `Stream`.
pub open spec fn line_reexports(t: Seq<char>, name: Seq<char>) -> bool {
    let s = strip_semis(t);
    let at = s.len() - name.len();
    &&& "pub use"@.is_prefix_of(t)
    &&& name.len() <= s.len()
    &&& s.skip(at) == name
    &&& (at == 0 || s[at - 1] == ':' || s[at - 1] == ' ')
}

/// Does this text declare `name`, rather than merely mention it? Some line
/// that is not a `//` comment has a declaring keyword followed by exactly
/// the name, or a line re-exports it. Rustdoc names the item it documents,
/// often several times, so "the quotation contains the word" is not enough.
pub open spec fn declares_spec(text: Seq<char>, name: Seq<char>) -> bool {
    ||| exists|i: int| 0 <= i < lines(text).len() && line_declares(trim_start(#[trigger] lines(text)[i]), name)
    ||| exists|i: int| 0 <= i < lines(text).len() && line_reexports(trim_start(#[trigger] lines(text)[i]), name)
}

fn starts_with_chars(s: &Vec<char>, p: &Vec<char>) -> (r: bool)
    ensures
        r == p@.is_prefix_of(s@),
{
    if p.len() > s.len() {
        return false;
    }
    let mut k: usize = 0;
    while k < p.len()
        invariant
            p@.len() <= s@.len(),
            k <= p@.len(),
            forall|m: int| 0 <= m < k ==> p@[m] == s@[m],
        decreases p@.len() - k,
    {
        if p[k] != s[k] {
            assert(s@.subrange(0, p@.len() as int)[k as int] != p@[k as int]);
            return false;
        }
        k += 1;
    }
    assert(p@ =~= s@.subrange(0, p@.len() as int));
    true
}

fn piece_names(piece: &Vec<char>, name: &Vec<char>) -> (r: bool)
    ensures
        r == names_exactly(piece@, name@),
{
    let (lo, _hi) = crate::text::trim_bounds(piece.as_slice());
    let rest = crate::text::copy_range(piece.as_slice(), lo, piece.len());
    assert(rest@ =~= trim_start(piece@));
    if !starts_with_chars(&rest, name) {
        return false;
    }
    if rest.len() > name.len() {
        let c = rest[name.len()];
        !(char_is_alphanumeric(c) || c == '_')
    } else {
        true
    }
}

/// The pieces after each occurrence of a (non-empty) keyword.
fn pieces_of(s: &Vec<char>, kw: &Vec<char>) -> (r: Vec<Vec<char>>)
    requires
        kw@.len() > 0,
    ensures
        views(r@) == pieces_after(s@, kw@),
{
    let mut out: Vec<Vec<char>> = Vec::new();
    let mut rest = crate::text::copy_range(s.as_slice(), 0, s.len());
    assert(rest@ =~= s@);
    loop
        invariant
            kw@.len() > 0,
            pieces_after(s@, kw@) == views(out@) + pieces_after(rest@, kw@),
        ensures
            pieces_after(s@, kw@) == views(out@),
        decreases rest@.len(),
    {
        match find_in(&rest, kw) {
            None => {
                assert(views(out@) + Seq::<Seq<char>>::empty() =~= views(out@));
                break;
            },
            Some(p) => {
                proof {
                    crate::text::lemma_find_some(rest@, kw@, 0);
                }
                let rl = rest.len();
                let kl = kw.len();
                assert(p + kl <= rl);
                let r = crate::text::copy_range(rest.as_slice(), p + kl, rl);
                assert(r@ =~= rest@.skip(p + kw@.len()));
                let q = match find_in(&r, kw) {
                    Some(q) => {
                        proof {
                            crate::text::lemma_find_some(r@, kw@, 0);
                        }
                        q
                    },
                    None => r.len(),
                };
                let piece = crate::text::copy_range(r.as_slice(), 0, q);
                assert(piece@ =~= r@.take(q as int));
                let ghost o0 = out@;
                out.push(piece);
                assert(views(out@) =~= views(o0).push(piece@));
                rest = r;
            },
        }
    }
    out
}

fn keyword_list() -> (r: Vec<Vec<char>>)
    ensures
        views(r@) == keywords(),
        forall|k: int| 0 <= k < r@.len() ==> (#[trigger] r@[k])@.len() > 0,
{
    let mut r: Vec<Vec<char>> = Vec::new();
    r.push(chars_of("struct "));
    r.push(chars_of("enum "));
    r.push(chars_of("trait "));
    r.push(chars_of("fn "));
    r.push(chars_of("type "));
    r.push(chars_of("macro_rules! "));
    r.push(chars_of("union "));
    r.push(chars_of("const "));
    proof {
        reveal_strlit("struct ");
        reveal_strlit("enum ");
        reveal_strlit("trait ");
        reveal_strlit("fn ");
        reveal_strlit("type ");
        reveal_strlit("macro_rules! ");
        reveal_strlit("union ");
        reveal_strlit("const ");
    }
    assert(views(r@) =~= keywords());
    r
}

fn declares_line(t: &Vec<char>, name: &Vec<char>, kws: &Vec<Vec<char>>) -> (r: bool)
    requires
        views(kws@) == keywords(),
        forall|k: int| 0 <= k < kws@.len() ==> (#[trigger] kws@[k])@.len() > 0,
    ensures
        r == line_declares(t@, name@),
{
    let mut slashes: Vec<char> = Vec::new();
    slashes.push('/');
    slashes.push('/');
    assert(slashes@ =~= seq!['/', '/']);
    if starts_with_chars(t, &slashes) {
        return false;
    }
    let mut k: usize = 0;
    while k < kws.len()
        invariant
            k <= kws@.len(),
            !seq!['/', '/'].is_prefix_of(t@),
            views(kws@) == keywords(),
            forall|m: int| 0 <= m < kws@.len() ==> (#[trigger] kws@[m])@.len() > 0,
            forall|m: int, j: int|
                0 <= m < k && 0 <= j < pieces_after(t@, keywords()[m]).len() ==> !names_exactly(
                    #[trigger] pieces_after(t@, keywords()[m])[j],
                    name@,
                ),
        decreases kws@.len() - k,
    {
        assert(kws@[k as int]@ == keywords()[k as int]);
        let ps = pieces_of(t, &kws[k]);
        let mut j: usize = 0;
        while j < ps.len()
            invariant
                j <= ps@.len(),
                !seq!['/', '/'].is_prefix_of(t@),
                k < kws@.len(),
                views(kws@) == keywords(),
                views(ps@) == pieces_after(t@, keywords()[k as int]),
                forall|m: int| 0 <= m < j ==> !names_exactly(pieces_after(t@, keywords()[k as int])[m], name@),
            decreases ps@.len() - j,
        {
            assert(views(ps@)[j as int] == ps@[j as int]@);
            if piece_names(&ps[j], name) {
                assert(names_exactly(pieces_after(t@, keywords()[k as int])[j as int], name@));
                assert(0 <= j < pieces_after(t@, keywords()[k as int]).len());
                assert(0 <= k < keywords().len());
                assert(line_declares(t@, name@));
                return true;
            }
            j += 1;
        }
        k += 1;
    }
    false
}

fn reexports_line(t: &Vec<char>, name: &Vec<char>, pub_use: &Vec<char>) -> (r: bool)
    requires
        pub_use@ == "pub use"@,
    ensures
        r == line_reexports(t@, name@),
{
    if !starts_with_chars(t, pub_use) {
        return false;
    }
    let mut e = t.len();
    assert(t@.take(e as int) =~= t@);
    while e > 0 && t[e - 1] == ';'
        invariant
            e <= t@.len(),
            strip_semis(t@) == strip_semis(t@.take(e as int)),
        decreases e,
    {
        assert(t@.take(e as int).drop_last() =~= t@.take(e - 1));
        e -= 1;
    }
    let ghost s = t@.take(e as int);
    assert(strip_semis(s) == s);
    if name.len() > e {
        return false;
    }
    let mut k: usize = 0;
    let off = e - name.len();
    while k < name.len()
        invariant
            off + name@.len() == e <= t@.len(),
            s == t@.take(e as int),
            strip_semis(t@) == s,
            "pub use"@.is_prefix_of(t@),
            k <= name@.len(),
            forall|m: int| 0 <= m < k ==> t@[off + m] == name@[m],
        decreases name@.len() - k,
    {
        if t[off + k] != name[k] {
            assert(s.skip(s.len() - name@.len())[k as int] != name@[k as int]);
            return false;
        }
        k += 1;
    }
    assert(s.skip(s.len() - name@.len()) =~= name@);
    off == 0 || t[off - 1] == ':' || t[off - 1] == ' '
}

/// Does this text declare `name`, rather than merely mention it?
pub fn declares(text: &str, name: &str) -> (r: bool)
    ensures
        r == declares_spec(text@, name@),
{
    let tc = chars_of(text);
    let ls = split_lines(tc.as_slice());
    let ghost v = views(ls@);
    assert(v == lines(text@));
    let nc = chars_of(name);
    let kws = keyword_list();
    let pub_use = chars_of("pub use");
    let mut found_decl = false;
    let mut found_use = false;
    let mut i: usize = 0;
    while i < ls.len()
        invariant
            i <= ls@.len(),
            v == views(ls@),
            v == lines(text@),
            nc@ == name@,
            pub_use@ == "pub use"@,
            views(kws@) == keywords(),
            forall|k: int| 0 <= k < kws@.len() ==> (#[trigger] kws@[k])@.len() > 0,
            found_decl == exists|j: int| 0 <= j < i && line_declares(trim_start(#[trigger] v[j]), name@),
            found_use == exists|j: int| 0 <= j < i && line_reexports(trim_start(#[trigger] v[j]), name@),
        decreases ls@.len() - i,
    {
        assert(v[i as int] == ls@[i as int]@);
        let (lo, _hi) = crate::text::trim_bounds(ls[i].as_slice());
        let t = crate::text::copy_range(ls[i].as_slice(), lo, ls[i].len());
        assert(t@ =~= trim_start(v[i as int]));
        if !found_decl && declares_line(&t, &nc, &kws) {
            found_decl = true;
        }
        if !found_use && reexports_line(&t, &nc, &pub_use) {
            found_use = true;
        }
        i += 1;
    }
    found_decl || found_use
}

/// A gap as the report writes it: `7`, or `7-9`.
pub open spec fn gap_text(a: u32, b: u32) -> Seq<char> {
    if a == b {
        decimal(a as nat)
    } else {
        decimal(a as nat) + seq!['-'] + decimal(b as nat)
    }
}

/// A gap as the report writes it.
pub fn fmt_gap(a: u32, b: u32) -> (r: String)
    ensures
        r@ == gap_text(a, b),
{
    let mut out = decimal_chars(a as u64);
    if a != b {
        out.push('-');
        let bc = decimal_chars(b as u64);
        let ghost o0 = out@;
        let mut k: usize = 0;
        while k < bc.len()
            invariant
                k <= bc@.len(),
                out@ == o0 + bc@.take(k as int),
            decreases bc@.len() - k,
        {
            out.push(bc[k]);
            k += 1;
            assert(bc@.take(k as int) =~= bc@.take(k - 1).push(bc@[k - 1]));
        }
        assert(bc@.take(k as int) =~= bc@);
    }
    string_of(out.as_slice())
}

/// Texts joined by `", "`.
pub open spec fn join_commas(ls: Seq<Seq<char>>) -> Seq<char>
    decreases ls.len(),
{
    if ls.len() == 0 {
        Seq::empty()
    } else if ls.len() == 1 {
        ls[0]
    } else {
        join_commas(ls.drop_last()) + seq![',', ' '] + ls.last()
    }
}

/// At most four gaps, then how many more there are.
pub open spec fn summary_text(gaps: Seq<Seq<char>>) -> Seq<char> {
    if gaps.len() <= 4 {
        join_commas(gaps)
    } else {
        join_commas(gaps.take(4)) + seq![',', ' ', '+'] + decimal((gaps.len() - 4) as nat) + " more"@
    }
}

fn append(out: &mut Vec<char>, s: &Vec<char>)
    ensures
        final(out)@ == old(out)@ + s@,
{
    let ghost o0 = out@;
    let mut k: usize = 0;
    while k < s.len()
        invariant
            k <= s@.len(),
            out@ == o0 + s@.take(k as int),
        decreases s@.len() - k,
    {
        out.push(s[k]);
        k += 1;
        assert(s@.take(k as int) =~= s@.take(k - 1).push(s@[k - 1]));
    }
    assert(s@.take(k as int) =~= s@);
}

/// Gaps for a report line: all of them up to four, else the first four and
/// a count of the rest.
pub fn summarize(gaps: &[String]) -> (r: String)
    ensures
        r@ == summary_text(gaps@.map_values(|g: String| g@)),
{
    let ghost gv = gaps@.map_values(|g: String| g@);
    let n = if gaps.len() <= 4 {
        gaps.len()
    } else {
        4
    };
    let mut out: Vec<char> = Vec::new();
    let mut k: usize = 0;
    while k < n
        invariant
            k <= n <= gaps@.len(),
            n == if gaps@.len() <= 4 { gaps@.len() as usize } else { 4 },
            gv == gaps@.map_values(|g: String| g@),
            out@ == join_commas(gv.take(k as int)),
        decreases n - k,
    {
        let ghost o0 = out@;
        if k > 0 {
            out.push(',');
            out.push(' ');
        }
        append(&mut out, &chars_of(gaps[k].as_str()));
        assert(gv.take(k + 1).drop_last() =~= gv.take(k as int));
        if k == 0 {
            assert(out@ =~= join_commas(gv.take(1)));
        } else {
            assert(out@ =~= join_commas(gv.take(k + 1)));
        }
        k += 1;
    }
    if gaps.len() > 4 {
        out.push(',');
        out.push(' ');
        out.push('+');
        append(&mut out, &decimal_chars((gaps.len() - 4) as u64));
        append(&mut out, &chars_of(" more"));
    } else {
        assert(gv.take(k as int) =~= gv);
    }
    string_of(out.as_slice())
}

/// One problem the coverage audit found. Errors fail it; warnings are reported.
#[derive(Debug)]
pub enum Finding {
    /// An annotation's `lines` does not parse.
    BadRange { id: String, error: crate::schema::RangeError },
    /// Two annotations, adjacent in line order, both claim lines around `line`.
    Overlap { source: String, file: String, first: String, second: String, line: u32 },
    /// The last annotation of a file claims line `line`, past its `lines`.
    PastEnd { source: String, file: String, id: String, line: u32, lines: u32 },
    /// A file has unclaimed lines: an error when the manifest marks the file
    /// complete, a warning when someone has started it.
    Unclaimed { source: String, file: String, count: u32, gaps: String, complete: bool },
    /// A reading-order entry names no file of any annotated source.
    UnknownReadingFile { file: String },
    /// A reading-order entry repeats an earlier one.
    ListedTwice { file: String },
    /// A course-track annotation's file is missing from the reading order.
    MissingFromReadingOrder { file: String, id: String },
    /// Two course units share an id.
    DuplicateUnit { id: String },
    /// Unit ids do not ascend in declaration order.
    UnitsOutOfOrder { first: String, second: String },
    /// An annotation names a course unit that does not exist.
    UnknownCourseUnit { id: String, unit: String },
    /// An annotation has a course unit but is not on the course track.
    NotOnCourseTrack { id: String, unit: String },
    /// An annotation depends on one the course does not reach until `unit`.
    DependsForward { id: String, on: String, unit: String },
    /// A unit's prereq names no unit.
    UnknownPrereqUnit { unit: String, prereq: String },
    /// A unit's prereq is not an earlier unit.
    PrereqNotEarlier { unit: String, prereq: String },
    /// A Rust feature outside the controlled vocabulary.
    UnknownFeature { who: String, feature: String },
    /// An example that does not exist.
    UnknownExample { who: String, example: String },
    /// A unit with an empty summary or body.
    EmptyUnitText { unit: String },
    /// A unit claims `supplement = "full"` but annotations are tagged to it.
    FullButTagged { unit: String, count: usize },
    /// A unit claims the crate supplies it, but no annotation is tagged to it.
    NothingTagged { unit: String, supplement: crate::schema::Supplement },
    /// A unit is planned, not written (a warning).
    PlannedUnit { unit: String, full: bool },
    /// Two narrative steps share an id.
    DuplicateStep { id: String },
    /// Narrative unit ids do not ascend in walk order.
    NarrativeOutOfOrder { first: String, second: String },
    /// A narrative unit with an empty title, summary or body.
    EmptyNarrativeText { unit: String },
    /// A narrative unit with no steps.
    NoSteps { unit: String },
    /// A unit's `expand_case` names no expansion case.
    UnknownExpandCase { unit: String, case: String },
    /// A step with an empty title or body.
    EmptyStepText { step: String },
    /// A citation of a glossary entry that does not exist.
    UnknownGlossary { who: String, id: String },
    /// A step leans on a step that does not exist.
    UnknownLeansOn { step: String, on: String },
    /// A step leans on one the walk does not reach until `unit`.
    LeansForward { step: String, on: String, unit: String },
    /// A step cites claimed ground but names no annotation.
    UnnamedCrossing { step: String, file: String },
    /// A step names an annotation that does not exist.
    UnknownAnnotation { step: String, id: String },
    /// A step names an annotation of another file.
    AnnotationElsewhere { step: String, id: String, file: String, cited: String },
    /// A step's range does not sit inside the annotation it names.
    CrossingOutside { step: String, file: String, lines: String, id: String, claims: String },
    /// A step names an annotation in a crate that is not annotated.
    NotAnnotatedSource { step: String, source: String },
    /// A step has `emits` but no `emits_from`.
    EmitsWithoutFrom { step: String },
    /// A step has `emits_from` but no `emits`.
    FromWithoutEmits { step: String },
    /// A step quotes emitted code but neither it nor its unit names a case.
    NoCaseToQuote { step: String, unit: String },
    /// A step's case names no expansion case.
    UnknownEmitsCase { step: String, case: String },
    /// A step has `emits_case` but no `emits`.
    CaseWithoutEmits { step: String },
    /// The manifest marks a file complete that the source does not have.
    ManifestUnknownFile { source: String, file: String },
    /// Two annotations share an id.
    DuplicateAnnotation { id: String },
    /// An annotation's file is not a file of its source.
    UnknownSourceFile { id: String, file: String, source: String },
    /// An annotation's prereq names no annotation.
    UnknownPrereq { id: String, prereq: String },
    /// An annotation on the course track has no course unit.
    NoCourseUnit { id: String },
    /// An annotation with an empty body.
    EmptyBody { id: String },
    /// An annotation with an empty title.
    EmptyTitle { id: String },
    /// A macro-use annotation names no macro-def.
    MacroUseWithoutDef { id: String },
    /// A macro-use annotation's macro_def names no annotation.
    UnknownMacroDef { id: String, target: String },
    /// A macro-use annotation's macro_def is not a macro-def.
    NotMacroDef { id: String, target: String, kind: crate::schema::Kind },
    /// A macro-use annotation's macro_def is in another crate.
    MacroDefElsewhere { id: String, target: String, there: String, here: String },
    /// An annotation that is not a macro-use sets macro_def.
    MacroDefOnKind { id: String, target: String, kind: crate::schema::Kind },
    /// The prereq graph has a cycle; it is listed from its start back to it.
    PrereqCycle { cycle: Vec<String> },
    /// The harness does not pin a pinned source exactly.
    HarnessPin { name: String, req: String, version: String },
    /// The lock does not hold the pinned version of a harness dependency.
    LockMissing { name: String, version: String },
    /// An example pins another version of the crate than the vendored one.
    ExamplePin { path: String, found: String, version: String },
    /// A directory under `vendor/` that the pin does not list.
    UnpinnedVendorDir { name: String },
    /// Two glossary entries share an id.
    DuplicateGlossary { id: String },
    /// A glossary entry with an empty title.
    EmptyGlossaryTitle { id: String },
    /// A glossary entry with an empty body.
    EmptyGlossaryBody { id: String },
    /// A glossary entry quotes only blank lines.
    BlankQuote { id: String, file: String, lines: String },
    /// A glossary entry's quotation does not declare the name it defines.
    NotDeclared { id: String, file: String, lines: String, name: String },
    /// A glossary entry's see_also names no entry.
    UnknownSeeAlso { id: String, other: String },
}

/// A finding as plain values.
pub enum FindingView {
    BadRange(Seq<char>, crate::schema::RangeError),
    Overlap(Seq<char>, Seq<char>, Seq<char>, Seq<char>, u32),
    PastEnd(Seq<char>, Seq<char>, Seq<char>, u32, u32),
    Unclaimed(Seq<char>, Seq<char>, u32, Seq<char>, bool),
    UnknownReadingFile(Seq<char>),
    ListedTwice(Seq<char>),
    MissingFromReadingOrder(Seq<char>, Seq<char>),
    DuplicateUnit(Seq<char>),
    UnitsOutOfOrder(Seq<char>, Seq<char>),
    UnknownCourseUnit(Seq<char>, Seq<char>),
    NotOnCourseTrack(Seq<char>, Seq<char>),
    DependsForward(Seq<char>, Seq<char>, Seq<char>),
    UnknownPrereqUnit(Seq<char>, Seq<char>),
    PrereqNotEarlier(Seq<char>, Seq<char>),
    UnknownFeature(Seq<char>, Seq<char>),
    UnknownExample(Seq<char>, Seq<char>),
    EmptyUnitText(Seq<char>),
    FullButTagged(Seq<char>, usize),
    NothingTagged(Seq<char>, crate::schema::Supplement),
    PlannedUnit(Seq<char>, bool),
    DuplicateStep(Seq<char>),
    NarrativeOutOfOrder(Seq<char>, Seq<char>),
    EmptyNarrativeText(Seq<char>),
    NoSteps(Seq<char>),
    UnknownExpandCase(Seq<char>, Seq<char>),
    EmptyStepText(Seq<char>),
    UnknownGlossary(Seq<char>, Seq<char>),
    UnknownLeansOn(Seq<char>, Seq<char>),
    LeansForward(Seq<char>, Seq<char>, Seq<char>),
    UnnamedCrossing(Seq<char>, Seq<char>),
    UnknownAnnotation(Seq<char>, Seq<char>),
    AnnotationElsewhere(Seq<char>, Seq<char>, Seq<char>, Seq<char>),
    CrossingOutside(Seq<char>, Seq<char>, Seq<char>, Seq<char>, Seq<char>),
    NotAnnotatedSource(Seq<char>, Seq<char>),
    EmitsWithoutFrom(Seq<char>),
    FromWithoutEmits(Seq<char>),
    NoCaseToQuote(Seq<char>, Seq<char>),
    UnknownEmitsCase(Seq<char>, Seq<char>),
    CaseWithoutEmits(Seq<char>),
    ManifestUnknownFile(Seq<char>, Seq<char>),
    DuplicateAnnotation(Seq<char>),
    UnknownSourceFile(Seq<char>, Seq<char>, Seq<char>),
    UnknownPrereq(Seq<char>, Seq<char>),
    NoCourseUnit(Seq<char>),
    EmptyBody(Seq<char>),
    EmptyTitle(Seq<char>),
    MacroUseWithoutDef(Seq<char>),
    UnknownMacroDef(Seq<char>, Seq<char>),
    NotMacroDef(Seq<char>, Seq<char>, crate::schema::Kind),
    MacroDefElsewhere(Seq<char>, Seq<char>, Seq<char>, Seq<char>),
    MacroDefOnKind(Seq<char>, Seq<char>, crate::schema::Kind),
    PrereqCycle(Seq<Seq<char>>),
    HarnessPin(Seq<char>, Seq<char>, Seq<char>),
    LockMissing(Seq<char>, Seq<char>),
    ExamplePin(Seq<char>, Seq<char>, Seq<char>),
    UnpinnedVendorDir(Seq<char>),
    DuplicateGlossary(Seq<char>),
    EmptyGlossaryTitle(Seq<char>),
    EmptyGlossaryBody(Seq<char>),
    BlankQuote(Seq<char>, Seq<char>, Seq<char>),
    NotDeclared(Seq<char>, Seq<char>, Seq<char>, Seq<char>),
    UnknownSeeAlso(Seq<char>, Seq<char>),
}

pub open spec fn finding_view(f: Finding) -> FindingView {
    match f {
        Finding::BadRange { id, error } => FindingView::BadRange(id@, error),
        Finding::Overlap { source, file, first, second, line } => FindingView::Overlap(
            source@,
            file@,
            first@,
            second@,
            line,
        ),
        Finding::PastEnd { source, file, id, line, lines } => FindingView::PastEnd(
            source@,
            file@,
            id@,
            line,
            lines,
        ),
        Finding::Unclaimed { source, file, count, gaps, complete } => FindingView::Unclaimed(
            source@,
            file@,
            count,
            gaps@,
            complete,
        ),
        Finding::UnknownReadingFile { file } => FindingView::UnknownReadingFile(file@),
        Finding::ListedTwice { file } => FindingView::ListedTwice(file@),
        Finding::MissingFromReadingOrder { file, id } => FindingView::MissingFromReadingOrder(file@, id@),
        Finding::DuplicateUnit { id } => FindingView::DuplicateUnit(id@),
        Finding::UnitsOutOfOrder { first, second } => FindingView::UnitsOutOfOrder(first@, second@),
        Finding::UnknownCourseUnit { id, unit } => FindingView::UnknownCourseUnit(id@, unit@),
        Finding::NotOnCourseTrack { id, unit } => FindingView::NotOnCourseTrack(id@, unit@),
        Finding::DependsForward { id, on, unit } => FindingView::DependsForward(id@, on@, unit@),
        Finding::UnknownPrereqUnit { unit, prereq } => FindingView::UnknownPrereqUnit(unit@, prereq@),
        Finding::PrereqNotEarlier { unit, prereq } => FindingView::PrereqNotEarlier(unit@, prereq@),
        Finding::UnknownFeature { who, feature } => FindingView::UnknownFeature(who@, feature@),
        Finding::UnknownExample { who, example } => FindingView::UnknownExample(who@, example@),
        Finding::EmptyUnitText { unit } => FindingView::EmptyUnitText(unit@),
        Finding::FullButTagged { unit, count } => FindingView::FullButTagged(unit@, count),
        Finding::NothingTagged { unit, supplement } => FindingView::NothingTagged(unit@, supplement),
        Finding::PlannedUnit { unit, full } => FindingView::PlannedUnit(unit@, full),
        Finding::DuplicateStep { id } => FindingView::DuplicateStep(id@),
        Finding::NarrativeOutOfOrder { first, second } => FindingView::NarrativeOutOfOrder(first@, second@),
        Finding::EmptyNarrativeText { unit } => FindingView::EmptyNarrativeText(unit@),
        Finding::NoSteps { unit } => FindingView::NoSteps(unit@),
        Finding::UnknownExpandCase { unit, case } => FindingView::UnknownExpandCase(unit@, case@),
        Finding::EmptyStepText { step } => FindingView::EmptyStepText(step@),
        Finding::UnknownGlossary { who, id } => FindingView::UnknownGlossary(who@, id@),
        Finding::UnknownLeansOn { step, on } => FindingView::UnknownLeansOn(step@, on@),
        Finding::LeansForward { step, on, unit } => FindingView::LeansForward(step@, on@, unit@),
        Finding::UnnamedCrossing { step, file } => FindingView::UnnamedCrossing(step@, file@),
        Finding::UnknownAnnotation { step, id } => FindingView::UnknownAnnotation(step@, id@),
        Finding::AnnotationElsewhere { step, id, file, cited } => FindingView::AnnotationElsewhere(step@, id@, file@, cited@),
        Finding::CrossingOutside { step, file, lines, id, claims } => FindingView::CrossingOutside(step@, file@, lines@, id@, claims@),
        Finding::NotAnnotatedSource { step, source } => FindingView::NotAnnotatedSource(step@, source@),
        Finding::EmitsWithoutFrom { step } => FindingView::EmitsWithoutFrom(step@),
        Finding::FromWithoutEmits { step } => FindingView::FromWithoutEmits(step@),
        Finding::NoCaseToQuote { step, unit } => FindingView::NoCaseToQuote(step@, unit@),
        Finding::UnknownEmitsCase { step, case } => FindingView::UnknownEmitsCase(step@, case@),
        Finding::CaseWithoutEmits { step } => FindingView::CaseWithoutEmits(step@),
        Finding::ManifestUnknownFile { source, file } => FindingView::ManifestUnknownFile(source@, file@),
        Finding::DuplicateAnnotation { id } => FindingView::DuplicateAnnotation(id@),
        Finding::UnknownSourceFile { id, file, source } => FindingView::UnknownSourceFile(id@, file@, source@),
        Finding::UnknownPrereq { id, prereq } => FindingView::UnknownPrereq(id@, prereq@),
        Finding::NoCourseUnit { id } => FindingView::NoCourseUnit(id@),
        Finding::EmptyBody { id } => FindingView::EmptyBody(id@),
        Finding::EmptyTitle { id } => FindingView::EmptyTitle(id@),
        Finding::MacroUseWithoutDef { id } => FindingView::MacroUseWithoutDef(id@),
        Finding::UnknownMacroDef { id, target } => FindingView::UnknownMacroDef(id@, target@),
        Finding::NotMacroDef { id, target, kind } => FindingView::NotMacroDef(id@, target@, kind),
        Finding::MacroDefElsewhere { id, target, there, here } => FindingView::MacroDefElsewhere(id@, target@, there@, here@),
        Finding::MacroDefOnKind { id, target, kind } => FindingView::MacroDefOnKind(id@, target@, kind),
        Finding::PrereqCycle { cycle } => FindingView::PrereqCycle(texts(cycle@)),
        Finding::HarnessPin { name, req, version } => FindingView::HarnessPin(name@, req@, version@),
        Finding::LockMissing { name, version } => FindingView::LockMissing(name@, version@),
        Finding::ExamplePin { path, found, version } => FindingView::ExamplePin(path@, found@, version@),
        Finding::UnpinnedVendorDir { name } => FindingView::UnpinnedVendorDir(name@),
        Finding::DuplicateGlossary { id } => FindingView::DuplicateGlossary(id@),
        Finding::EmptyGlossaryTitle { id } => FindingView::EmptyGlossaryTitle(id@),
        Finding::EmptyGlossaryBody { id } => FindingView::EmptyGlossaryBody(id@),
        Finding::BlankQuote { id, file, lines } => FindingView::BlankQuote(id@, file@, lines@),
        Finding::NotDeclared { id, file, lines, name } => FindingView::NotDeclared(id@, file@, lines@, name@),
        Finding::UnknownSeeAlso { id, other } => FindingView::UnknownSeeAlso(id@, other@),
    }
}

pub open spec fn findings_view(fs: Seq<Finding>) -> Seq<FindingView> {
    fs.map_values(|f: Finding| finding_view(f))
}

/// Errors and warnings, in the order they were found.
#[derive(Debug)]
pub struct Diagnostics {
    pub errors: Vec<Finding>,
    pub warnings: Vec<Finding>,
}

impl Diagnostics {
    pub fn new() -> (d: Diagnostics)
        ensures
            d.errors@.len() == 0,
            d.warnings@.len() == 0,
    {
        Diagnostics { errors: Vec::new(), warnings: Vec::new() }
    }

    /// Records an error.
    pub fn error(&mut self, f: Finding)
        ensures
            final(self).errors@ == old(self).errors@.push(f),
            final(self).warnings@ == old(self).warnings@,
    {
        self.errors.push(f);
    }

    /// Records a warning.
    pub fn warn(&mut self, f: Finding)
        ensures
            final(self).warnings@ == old(self).warnings@.push(f),
            final(self).errors@ == old(self).errors@,
    {
        self.warnings.push(f);
    }
}

/// One file's line coverage, for the report.
#[derive(Debug)]
pub struct FileCoverage {
    pub file: String,
    pub total_lines: u32,
    pub claimed_lines: u32,
    pub annotations: usize,
    pub complete: bool,
    pub gaps: Vec<String>,
}

/// One annotated source's coverage. Every percentage hangs off one of
/// these: two crates make two promises, and a figure spanning both would
/// describe neither.
#[derive(Debug)]
pub struct SourceCoverage {
    /// "serde_core-1.0.229".
    pub source: String,
    /// "serde_core".
    pub name: String,
    pub total_lines: u32,
    pub claimed_lines: u32,
    pub annotations: usize,
    pub files: Vec<FileCoverage>,
    /// Annotation counts by kind name, in name order, for kinds that occur.
    pub kinds: Vec<(String, usize)>,
    /// Files with no annotation at all, reported as one line: nobody has
    /// started them, which is a position on the roadmap and not a defect.
    pub not_started: usize,
    pub not_started_lines: u32,
}

/// One annotated source as the audit reads it: its files in path order with
/// their line counts, the files its manifest marks complete, and its
/// annotations.
#[derive(Debug)]
pub struct SourceInput {
    pub name: String,
    pub source_id: String,
    pub files: Vec<(String, u32)>,
    pub complete: Vec<String>,
    pub annotations: Vec<crate::schema::Annotation>,
}

/// A claim on one file: its range and the claiming annotation's id.
pub open spec fn claims_on(annotations: Seq<crate::schema::Annotation>, file: Seq<char>) -> Seq<(LineRange, Seq<char>)>
    decreases annotations.len(),
{
    if annotations.len() == 0 {
        Seq::empty()
    } else {
        let a = annotations.last();
        let before = claims_on(annotations.drop_last(), file);
        if a.file@ == file && crate::schema::parse_range_spec(a.lines@) is Ok {
            before.push((crate::schema::parse_range_spec(a.lines@)->Ok_0, a.id@))
        } else {
            before
        }
    }
}

/// The sort key of each claim: `(start, end)`.
pub open spec fn claim_keys(claims: Seq<(LineRange, Seq<char>)>) -> Seq<(int, int)> {
    claims.map_values(|c: (LineRange, Seq<char>)| (c.0.start as int, c.0.end as int))
}

/// The claims on a file in line order: stably sorted by `(start, end)`.
pub open spec fn in_line_order(claims: Seq<(LineRange, Seq<char>)>, sorted: Seq<(LineRange, Seq<char>)>) -> bool {
    exists|sp: Seq<int>|
        #[trigger] crate::course::stable_sorted(sp, claim_keys(claims)) && sorted == sp.map_values(
            |x: int| claims[x],
        )
}

/// The sweep over claims in line order: the next unclaimed line, the gaps
/// before it, and the lines claimed (each claim counted up to the file's end).
pub open spec fn sweep(list: Seq<(LineRange, Seq<char>)>, n: int, k: int) -> (int, Seq<(int, int)>, int)
    decreases k,
{
    if k <= 0 {
        (1, Seq::empty(), 0)
    } else {
        let (c, g, cl) = sweep(list, n, k - 1);
        let r = list[k - 1].0;
        let g2 = if r.start > c {
            g.push((c, r.start - 1))
        } else {
            g
        };
        let add = if r.end - r.start + 1 <= (if n >= r.start { n - r.start } else { 0 }) + 1 {
            r.end - r.start + 1
        } else {
            (if n >= r.start { n - r.start } else { 0 }) + 1
        };
        (if c >= r.end + 1 { c } else { r.end + 1 }, g2, cl + add)
    }
}

/// A file's gaps: those the sweep found, and the tail after the last claim.
pub open spec fn file_gaps(list: Seq<(LineRange, Seq<char>)>, n: int) -> Seq<(int, int)> {
    let (c, g, _cl) = sweep(list, n, list.len() as int);
    if c <= n {
        g.push((c, n))
    } else {
        g
    }
}

/// Lines of a file claimed, at most the file's length.
pub open spec fn file_claimed(list: Seq<(LineRange, Seq<char>)>, n: int) -> int {
    let cl = sweep(list, n, list.len() as int).2;
    if cl <= n {
        cl
    } else {
        n
    }
}

/// Overlap findings for claims in line order: each adjacent overlapping pair.
pub open spec fn overlap_findings(source: Seq<char>, file: Seq<char>, list: Seq<(LineRange, Seq<char>)>, k: int) -> Seq<FindingView>
    decreases k,
{
    if k <= 1 {
        Seq::empty()
    } else {
        let before = overlap_findings(source, file, list, k - 1);
        let a = list[k - 2];
        let b = list[k - 1];
        if a.0.start <= b.0.end && b.0.start <= a.0.end {
            before.push(FindingView::Overlap(source, file, a.1, b.1, b.0.start))
        } else {
            before
        }
    }
}

pub open spec fn gap_texts(gaps: Seq<(int, int)>) -> Seq<Seq<char>> {
    gaps.map_values(|g: (int, int)| gap_text(g.0 as u32, g.1 as u32))
}

/// The errors one file contributes, given its claims in line order.
pub open spec fn file_errors(source: Seq<char>, file: Seq<char>, n: int, list: Seq<(LineRange, Seq<char>)>, complete: bool) -> Seq<FindingView> {
    let gaps = file_gaps(list, n);
    let past = if list.len() > 0 && list.last().0.end > n {
        seq![FindingView::PastEnd(source, file, list.last().1, list.last().0.end, n as u32)]
    } else {
        Seq::empty()
    };
    let unclaimed = if gaps.len() > 0 && complete {
        seq![FindingView::Unclaimed(source, file, (n - file_claimed(list, n)) as u32, summary_text(gap_texts(gaps)), true)]
    } else {
        Seq::empty()
    };
    overlap_findings(source, file, list, list.len() as int) + past + unclaimed
}

/// The warning one file contributes: unclaimed lines in a file someone has
/// started but not finished.
pub open spec fn file_warnings(source: Seq<char>, file: Seq<char>, n: int, list: Seq<(LineRange, Seq<char>)>, complete: bool) -> Seq<FindingView> {
    let gaps = file_gaps(list, n);
    if gaps.len() > 0 && !complete && list.len() > 0 {
        seq![FindingView::Unclaimed(source, file, (n - file_claimed(list, n)) as u32, summary_text(gap_texts(gaps)), false)]
    } else {
        Seq::empty()
    }
}

/// One file's coverage as the audit reports it.
pub open spec fn file_coverage_ok(fc: FileCoverage, file: Seq<char>, n: u32, list: Seq<(LineRange, Seq<char>)>, complete: bool) -> bool {
    &&& fc.file@ == file
    &&& fc.total_lines == n
    &&& fc.claimed_lines == file_claimed(list, n as int)
    &&& fc.annotations == list.len()
    &&& fc.complete == complete
    &&& fc.gaps@.map_values(|g: String| g@) == gap_texts(file_gaps(list, n as int))
}

proof fn lemma_sweep_bounds(list: Seq<(LineRange, Seq<char>)>, n: int, k: int)
    requires
        0 <= k <= list.len(),
        0 <= n,
        forall|i: int| 0 <= i < list.len() ==> (#[trigger] list[i]).0.wf(),
    ensures
        sweep(list, n, k).0 >= 1,
        sweep(list, n, k).2 >= 0,
        sweep(list, n, k).2 <= k * (n + 1),
        forall|i: int| 0 <= i < sweep(list, n, k).1.len() ==> 1 <= (#[trigger] sweep(list, n, k).1[i]).0 <= sweep(list, n, k).1[i].1 < sweep(list, n, k).0,
        k > 0 ==> sweep(list, n, k).0 <= u32::MAX + 1,
    decreases k,
{
    if k > 0 {
        lemma_sweep_bounds(list, n, k - 1);
        let r = list[k - 1].0;
        assert(r.wf());
        assert((k - 1) * (n + 1) + (n + 1) == k * (n + 1)) by (nonlinear_arith);
    }
}

/// Claims as plain values.
pub open spec fn claims_view(v: Seq<(LineRange, String)>) -> Seq<(LineRange, Seq<char>)> {
    v.map_values(|c: (LineRange, String)| (c.0, c.1@))
}

pub(crate) fn copy_text(s: &String) -> (r: String)
    ensures
        r@ == s@,
{
    string_of(chars_of(s.as_str()).as_slice())
}

/// The sweep over one file's claims, in line order, computed.
fn sweep_claims(list: &Vec<(LineRange, String)>, n: u32) -> (r: (u64, Vec<(u32, u32)>, u128))
    requires
        forall|i: int| 0 <= i < list@.len() ==> (#[trigger] list@[i]).0.wf(),
        list@.len() <= usize::MAX,
    ensures
        r.0 == sweep(claims_view(list@), n as int, list@.len() as int).0,
        r.2 == sweep(claims_view(list@), n as int, list@.len() as int).2,
        r.1@.map_values(|g: (u32, u32)| (g.0 as int, g.1 as int)) == sweep(claims_view(list@), n as int, list@.len() as int).1,
{
    let ghost cv = claims_view(list@);
    let mut cursor: u64 = 1;
    let mut gaps: Vec<(u32, u32)> = Vec::new();
    let mut claimed: u128 = 0;
    let mut k: usize = 0;
    while k < list.len()
        invariant
            k <= list@.len(),
            cv == claims_view(list@),
            forall|i: int| 0 <= i < list@.len() ==> (#[trigger] list@[i]).0.wf(),
            cursor == sweep(cv, n as int, k as int).0,
            claimed == sweep(cv, n as int, k as int).2,
            gaps@.map_values(|g: (u32, u32)| (g.0 as int, g.1 as int)) == sweep(cv, n as int, k as int).1,
            k == 0 ==> cursor == 1,
            cursor <= u32::MAX + 1,
            claimed <= k * (n + 1),
            list@.len() <= usize::MAX,
        decreases list@.len() - k,
    {
        proof {
            assert(k * (n + 1) <= usize::MAX * (u32::MAX + 1)) by (nonlinear_arith)
                requires
                    k <= usize::MAX,
                    n <= u32::MAX,
            ;
            lemma_sweep_bounds(cv, n as int, k as int);
            lemma_sweep_bounds(cv, n as int, k + 1);
            assert(cv[k as int].0 == list@[k as int].0);
        }
        let r = list[k].0;
        let ghost g0 = gaps@.map_values(|g: (u32, u32)| (g.0 as int, g.1 as int));
        if (r.start as u64) > cursor {
            gaps.push((cursor as u32, r.start - 1));
            assert(gaps@.map_values(|g: (u32, u32)| (g.0 as int, g.1 as int)) =~= g0.push((cursor as int, r.start - 1)));
        }
        let count: u128 = (r.end - r.start) as u128 + 1;
        let room: u128 = if n >= r.start { (n - r.start) as u128 } else { 0 } + 1;
        let add = if count <= room { count } else { room };
        claimed = claimed + add;
        let next: u64 = r.end as u64 + 1;
        if next > cursor {
            cursor = next;
        }
        k += 1;
        proof {
            assert(claimed <= k * (n + 1)) by (nonlinear_arith)
                requires
                    claimed <= (k - 1) * (n + 1) + (n + 1),
            ;
        }
    }
    (cursor, gaps, claimed)
}

/// One file's coverage, given its claims in line order: overlaps between
/// neighbours and a claim past the end are errors; gaps are an error when
/// the manifest marks the file complete, a warning when it is started, and
/// otherwise only counted.
#[verifier::spinoff_prover]
fn cover_file(
    source: &String,
    file: &String,
    n: u32,
    complete: bool,
    list: &Vec<(LineRange, String)>,
    diag: &mut Diagnostics,
) -> (fc: FileCoverage)
    requires
        forall|i: int| 0 <= i < list@.len() ==> (#[trigger] list@[i]).0.wf(),
    ensures
        file_coverage_ok(fc, file@, n, claims_view(list@), complete),
        findings_view(final(diag).errors@) == findings_view(old(diag).errors@) + file_errors(source@, file@, n as int, claims_view(list@), complete),
        findings_view(final(diag).warnings@) == findings_view(old(diag).warnings@) + file_warnings(source@, file@, n as int, claims_view(list@), complete),
{
    let ghost cv = claims_view(list@);
    let ghost e0 = findings_view(diag.errors@);
    let ghost w0 = findings_view(diag.warnings@);
    let mut k: usize = 1;
    while k < list.len()
        invariant
            1 <= k,
            k <= list@.len() || k == 1,
            cv == claims_view(list@),
            findings_view(diag.errors@) == e0 + overlap_findings(source@, file@, cv, k as int),
            findings_view(diag.warnings@) == w0,
        decreases list@.len() - k,
    {
        let a = &list[k - 1];
        let b = &list[k];
        assert(cv[k - 1] == (a.0, a.1@) && cv[k as int] == (b.0, b.1@));
        if a.0.overlaps(&b.0) {
            let ghost d0 = diag.errors@;
            diag.error(Finding::Overlap {
                source: copy_text(source),
                file: copy_text(file),
                first: copy_text(&a.1),
                second: copy_text(&b.1),
                line: b.0.start,
            });
            assert(findings_view(diag.errors@) =~= findings_view(d0).push(finding_view(diag.errors@.last())));
        }
        k += 1;
    }
    if list.len() > 1 {
        assert(k == list@.len());
    } else {
        assert(overlap_findings(source@, file@, cv, list@.len() as int) =~= Seq::<FindingView>::empty());
        assert(overlap_findings(source@, file@, cv, k as int) =~= Seq::<FindingView>::empty());
    }
    let ghost e1 = findings_view(diag.errors@);
    if list.len() > 0 {
        let last = &list[list.len() - 1];
        assert(cv.last() == (last.0, last.1@));
        if last.0.end > n {
            diag.error(Finding::PastEnd {
                source: copy_text(source),
                file: copy_text(file),
                id: copy_text(&last.1),
                line: last.0.end,
                lines: n,
            });
            assert(findings_view(diag.errors@) =~= e1.push(finding_view(diag.errors@.last())));
        }
    }
    let ghost e2 = findings_view(diag.errors@);
    let (cursor, mut gaps, claimed) = sweep_claims(list, n);
    proof {
        lemma_sweep_bounds(cv, n as int, cv.len() as int);
    }
    let ghost g0 = gaps@.map_values(|g: (u32, u32)| (g.0 as int, g.1 as int));
    if cursor <= n as u64 {
        gaps.push((cursor as u32, n));
        assert(gaps@.map_values(|g: (u32, u32)| (g.0 as int, g.1 as int)) =~= g0.push((cursor as int, n as int)));
    }
    let ghost gv = gaps@.map_values(|g: (u32, u32)| (g.0 as int, g.1 as int));
    assert(gv == file_gaps(cv, n as int));
    let mut texts: Vec<String> = Vec::new();
    let mut j: usize = 0;
    while j < gaps.len()
        invariant
            j <= gaps@.len(),
            gv == gaps@.map_values(|g: (u32, u32)| (g.0 as int, g.1 as int)),
            texts@.map_values(|g: String| g@) == gap_texts(gv.take(j as int)),
        decreases gaps@.len() - j,
    {
        let ghost t0 = texts@.map_values(|g: String| g@);
        let t = fmt_gap(gaps[j].0, gaps[j].1);
        assert(gv[j as int] == (gaps@[j as int].0 as int, gaps@[j as int].1 as int));
        assert(t@ == gap_text(gv[j as int].0 as u32, gv[j as int].1 as u32));
        texts.push(t);
        assert(texts@.map_values(|g: String| g@) =~= t0.push(t@));
        assert(gv.take(j + 1) =~= gv.take(j as int).push(gv[j as int]));
        assert(texts@.map_values(|g: String| g@) =~= gap_texts(gv.take(j + 1)));
        j += 1;
    }
    assert(gv.take(j as int) =~= gv);
    let claimed_n: u32 = if claimed <= n as u128 { claimed as u32 } else { n };
    if gaps.len() > 0 {
        let unclaimed = n - claimed_n;
        if complete {
            diag.error(Finding::Unclaimed {
                source: copy_text(source),
                file: copy_text(file),
                count: unclaimed,
                gaps: summarize(texts.as_slice()),
                complete: true,
            });
            assert(findings_view(diag.errors@) =~= e2.push(finding_view(diag.errors@.last())));
        } else if list.len() > 0 {
            diag.warn(Finding::Unclaimed {
                source: copy_text(source),
                file: copy_text(file),
                count: unclaimed,
                gaps: summarize(texts.as_slice()),
                complete: false,
            });
            assert(findings_view(diag.warnings@) =~= w0.push(finding_view(diag.warnings@.last())));
        }
    }
    assert(findings_view(diag.errors@) =~= e0 + file_errors(source@, file@, n as int, cv, complete));
    assert(findings_view(diag.warnings@) =~= w0 + file_warnings(source@, file@, n as int, cv, complete));
    FileCoverage {
        file: copy_text(file),
        total_lines: n,
        claimed_lines: claimed_n,
        annotations: list.len(),
        complete,
        gaps: texts,
    }
}

/// The annotations whose `lines` do not parse, in order.
pub open spec fn bad_ranges(anns: Seq<crate::schema::Annotation>) -> Seq<FindingView>
    decreases anns.len(),
{
    if anns.len() == 0 {
        Seq::empty()
    } else {
        let a = anns.last();
        let before = bad_ranges(anns.drop_last());
        match crate::schema::parse_range_spec(a.lines@) {
            Ok(_) => before,
            Err(e) => before.push(FindingView::BadRange(a.id@, e)),
        }
    }
}

/// A kind's name as the report writes it: its Rust name, lowercased.
pub open spec fn kind_name(k: crate::schema::Kind) -> Seq<char> {
    match k {
        crate::schema::Kind::TraitItem => "traititem"@,
        crate::schema::Kind::MacroDef => "macrodef"@,
        crate::schema::Kind::MacroUse => "macrouse"@,
        crate::schema::Kind::Impl => "impl"@,
        crate::schema::Kind::DocContract => "doccontract"@,
        crate::schema::Kind::Plumbing => "plumbing"@,
        crate::schema::Kind::CfgGate => "cfggate"@,
    }
}

/// The kinds in the order of their names.
pub open spec fn kinds_by_name() -> Seq<crate::schema::Kind> {
    seq![
        crate::schema::Kind::CfgGate,
        crate::schema::Kind::DocContract,
        crate::schema::Kind::Impl,
        crate::schema::Kind::MacroDef,
        crate::schema::Kind::MacroUse,
        crate::schema::Kind::Plumbing,
        crate::schema::Kind::TraitItem,
    ]
}

/// How many annotations have kind `k`.
pub open spec fn kind_count(anns: Seq<crate::schema::Annotation>, k: crate::schema::Kind) -> nat
    decreases anns.len(),
{
    if anns.len() == 0 {
        0
    } else {
        kind_count(anns.drop_last(), k) + if anns.last().kind == k {
            1nat
        } else {
            0nat
        }
    }
}

/// `(name, count)` for the first `i` kinds by name that occur.
pub open spec fn kinds_upto(anns: Seq<crate::schema::Annotation>, i: int) -> Seq<(Seq<char>, nat)>
    decreases i,
{
    if i <= 0 {
        Seq::empty()
    } else {
        let before = kinds_upto(anns, i - 1);
        let k = kinds_by_name()[i - 1];
        if kind_count(anns, k) > 0 {
            before.push((kind_name(k), kind_count(anns, k)))
        } else {
            before
        }
    }
}

/// Whether the manifest marks `file` complete.
pub open spec fn marked_complete(complete: Seq<String>, file: Seq<char>) -> bool {
    exists|i: int| 0 <= i < complete.len() && (#[trigger] complete[i])@ == file
}

/// What the first `k` files contribute: errors, warnings, claimed lines,
/// files not started and their lines.
pub open spec fn files_sweep(
    name: Seq<char>,
    files: Seq<(String, u32)>,
    complete: Seq<String>,
    lists: Seq<Seq<(LineRange, Seq<char>)>>,
    k: int,
) -> (Seq<FindingView>, Seq<FindingView>, int, int, int)
    decreases k,
{
    if k <= 0 {
        (Seq::empty(), Seq::empty(), 0, 0, 0)
    } else {
        let (e, w, cl, ns, nsl) = files_sweep(name, files, complete, lists, k - 1);
        let f = files[k - 1].0@;
        let n = files[k - 1].1 as int;
        let list = lists[k - 1];
        let c = marked_complete(complete, f);
        let idle = file_gaps(list, n).len() > 0 && !c && list.len() == 0;
        (
            e + file_errors(name, f, n, list, c),
            w + file_warnings(name, f, n, list, c),
            cl + file_claimed(list, n),
            ns + if idle { 1int } else { 0int },
            nsl + if idle { n } else { 0int },
        )
    }
}

/// What `cover_source` reports for `input`, given each file's claims in
/// line order.
pub open spec fn source_covered(
    input: SourceInput,
    lists: Seq<Seq<(LineRange, Seq<char>)>>,
    r: SourceCoverage,
    new_errors: Seq<FindingView>,
    new_warnings: Seq<FindingView>,
) -> bool {
    let files = input.files@;
    let (e, w, cl, ns, nsl) = files_sweep(input.name@, files, input.complete@, lists, files.len() as int);
    &&& lists.len() == files.len()
    &&& forall|i: int| 0 <= i < files.len() ==> #[trigger] in_line_order(claims_on(input.annotations@, files[i].0@), lists[i])
    &&& r.files@.len() == files.len()
    &&& forall|i: int| 0 <= i < files.len() ==> #[trigger] file_coverage_ok(r.files@[i], files[i].0@, files[i].1, lists[i], marked_complete(input.complete@, files[i].0@))
    &&& new_errors == bad_ranges(input.annotations@) + e
    &&& new_warnings == w
    &&& r.source@ == input.source_id@ && r.name@ == input.name@
    &&& r.total_lines == crate::store::line_total(files)
    &&& r.claimed_lines == cl
    &&& r.annotations == input.annotations@.len()
    &&& r.not_started == ns && r.not_started_lines == nsl
    &&& r.kinds@.map_values(|p: (String, usize)| (p.0@, p.1 as nat)) == kinds_upto(input.annotations@, 7)
}

fn kind_index(k: crate::schema::Kind) -> (i: usize)
    ensures
        i < 7,
        kinds_by_name()[i as int] == k,
{
    match k {
        crate::schema::Kind::CfgGate => 0,
        crate::schema::Kind::DocContract => 1,
        crate::schema::Kind::Impl => 2,
        crate::schema::Kind::MacroDef => 3,
        crate::schema::Kind::MacroUse => 4,
        crate::schema::Kind::Plumbing => 5,
        crate::schema::Kind::TraitItem => 6,
    }
}

fn kind_name_of(i: usize) -> (s: Vec<char>)
    requires
        i < 7,
    ensures
        s@ == kind_name(kinds_by_name()[i as int]),
{
    if i == 0 {
        chars_of("cfggate")
    } else if i == 1 {
        chars_of("doccontract")
    } else if i == 2 {
        chars_of("impl")
    } else if i == 3 {
        chars_of("macrodef")
    } else if i == 4 {
        chars_of("macrouse")
    } else if i == 5 {
        chars_of("plumbing")
    } else {
        chars_of("traititem")
    }
}

/// Whether `file` is listed in `complete`.
fn is_listed(complete: &Vec<String>, file: &String) -> (r: bool)
    ensures
        r == marked_complete(complete@, file@),
{
    let mut i: usize = 0;
    while i < complete.len()
        invariant
            i <= complete@.len(),
            forall|k: int| 0 <= k < i ==> (#[trigger] complete@[k])@ != file@,
        decreases complete@.len() - i,
    {
        if crate::text::str_eq(complete[i].as_str(), file.as_str()) {
            return true;
        }
        i += 1;
    }
    false
}

/// The claims on `file`, in annotation order, with their ids.
fn claims_for(
    anns: &Vec<crate::schema::Annotation>,
    parsed: &Vec<Option<LineRange>>,
    file: &String,
) -> (r: Vec<(LineRange, String)>)
    requires
        parsed@.len() == anns@.len(),
        forall|j: int| 0 <= j < anns@.len() ==> #[trigger] parsed@[j] == match crate::schema::parse_range_spec(anns@[j].lines@) {
            Ok(x) => Some(x),
            Err(_) => None::<LineRange>,
        },
    ensures
        claims_view(r@) == claims_on(anns@, file@),
        forall|i: int| 0 <= i < r@.len() ==> (#[trigger] r@[i]).0.wf(),
{
    let mut r: Vec<(LineRange, String)> = Vec::new();
    let mut j: usize = 0;
    while j < anns.len()
        invariant
            j <= anns@.len(),
            parsed@.len() == anns@.len(),
            forall|q: int| 0 <= q < anns@.len() ==> #[trigger] parsed@[q] == match crate::schema::parse_range_spec(anns@[q].lines@) {
                Ok(x) => Some(x),
                Err(_) => None::<LineRange>,
            },
            claims_view(r@) == claims_on(anns@.take(j as int), file@),
            forall|i: int| 0 <= i < r@.len() ==> (#[trigger] r@[i]).0.wf(),
        decreases anns@.len() - j,
    {
        let a = &anns[j];
        assert(anns@.take(j + 1).drop_last() =~= anns@.take(j as int));
        assert(anns@.take(j + 1).last() == *a);
        assert(parsed@[j as int] == match crate::schema::parse_range_spec(a.lines@) {
            Ok(x) => Some(x),
            Err(_) => None::<LineRange>,
        });
        if crate::text::str_eq(a.file.as_str(), file.as_str()) {
            if let Some(range) = parsed[j] {
                assert(range.wf());
                let ghost r0 = claims_view(r@);
                r.push((range, copy_text(&a.id)));
                assert(claims_view(r@) =~= r0.push((range, a.id@)));
            }
        }
        j += 1;
    }
    assert(anns@.take(j as int) =~= anns@);
    r
}

/// Claims sorted into line order: by start, then end, stably.
fn in_order(claims: &Vec<(LineRange, String)>) -> (r: Vec<(LineRange, String)>)
    requires
        forall|i: int| 0 <= i < claims@.len() ==> (#[trigger] claims@[i]).0.wf(),
    ensures
        in_line_order(claims_view(claims@), claims_view(r@)),
        forall|i: int| 0 <= i < r@.len() ==> (#[trigger] r@[i]).0.wf(),
{
    let ghost cv = claims_view(claims@);
    let mut keys: Vec<(usize, u32)> = Vec::new();
    let mut i: usize = 0;
    while i < claims.len()
        invariant
            i <= claims@.len(),
            cv == claims_view(claims@),
            keys@.len() == i,
            crate::course::key_seq(keys@) == claim_keys(cv).take(i as int),
        decreases claims@.len() - i,
    {
        let ghost k0 = keys@;
        keys.push((claims[i].0.start as usize, claims[i].0.end));
        assert(crate::course::key_seq(keys@) =~= claim_keys(cv).take(i + 1)) by {
            assert(keys@ == k0.push((claims@[i as int].0.start as usize, claims@[i as int].0.end)));
            assert forall|q: int| 0 <= q < i + 1 implies crate::course::key_seq(keys@)[q] == claim_keys(cv).take(i + 1)[q] by {
                if q < i {
                    assert(keys@[q] == k0[q]);
                    assert(crate::course::key_seq(keys@)[q] == crate::course::key_seq(k0)[q]);
                    assert(crate::course::key_seq(k0)[q] == claim_keys(cv).take(i as int)[q]);
                } else {
                    assert(cv[q] == (claims@[q].0, claims@[q].1@));
                }
            }
        }
        i += 1;
    }
    assert(claim_keys(cv).take(i as int) =~= claim_keys(cv));
    let sp = crate::course::stable_order(&keys);
    let ghost spi = crate::course::positions(sp@);
    let mut r: Vec<(LineRange, String)> = Vec::new();
    let mut k: usize = 0;
    while k < sp.len()
        invariant
            k <= sp@.len(),
            sp@.len() == claims@.len(),
            cv == claims_view(claims@),
            spi == crate::course::positions(sp@),
            forall|x: int| 0 <= x < spi.len() ==> 0 <= #[trigger] spi[x] < claims@.len(),
            forall|q: int| 0 <= q < claims@.len() ==> (#[trigger] claims@[q]).0.wf(),
            claims_view(r@) == spi.take(k as int).map_values(|x: int| cv[x]),
            forall|q: int| 0 <= q < r@.len() ==> (#[trigger] r@[q]).0.wf(),
        decreases sp@.len() - k,
    {
        assert(0 <= spi[k as int] < claims@.len());
        let c = &claims[sp[k]];
        let ghost r0 = claims_view(r@);
        r.push((c.0, copy_text(&c.1)));
        assert(claims_view(r@) =~= spi.take(k + 1).map_values(|x: int| cv[x])) by {
            assert(claims_view(r@) =~= r0.push((c.0, c.1@)));
        }
        k += 1;
    }
    assert(spi.take(k as int) =~= spi);
    assert(crate::course::stable_sorted(spi, claim_keys(cv)));
    r
}

/// Line coverage for one source: unparsable ranges first, then, file by
/// file in path order, overlaps, claims past the end, and gaps. A gap is a
/// warning until the manifest names the file complete, and an error after;
/// a file nobody has started is only counted.
#[verifier::spinoff_prover]
pub fn cover_source(input: &SourceInput, diag: &mut Diagnostics) -> (r: SourceCoverage)
    requires
        crate::store::line_total(input.files@) <= u32::MAX,
    ensures
        exists|lists: Seq<Seq<(LineRange, Seq<char>)>>|
            #[trigger] source_covered(
                *input,
                lists,
                r,
                findings_view(final(diag).errors@).skip(old(diag).errors@.len() as int),
                findings_view(final(diag).warnings@).skip(old(diag).warnings@.len() as int),
            ),
        findings_view(final(diag).errors@).take(old(diag).errors@.len() as int) == findings_view(old(diag).errors@),
        findings_view(final(diag).warnings@).take(old(diag).warnings@.len() as int) == findings_view(old(diag).warnings@),
{
    let ghost e0 = findings_view(diag.errors@);
    let ghost w0 = findings_view(diag.warnings@);
    let anns = &input.annotations;
    let mut counts: Vec<usize> = vec![0, 0, 0, 0, 0, 0, 0];
    let mut parsed: Vec<Option<LineRange>> = Vec::new();
    let mut j: usize = 0;
    while j < anns.len()
        invariant
            j <= anns@.len(),
            parsed@.len() == j,
            counts@.len() == 7,
            forall|q: int| 0 <= q < j ==> #[trigger] parsed@[q] == match crate::schema::parse_range_spec(anns@[q].lines@) {
                Ok(x) => Some(x),
                Err(_) => None::<LineRange>,
            },
            forall|t: int| 0 <= t < 7 ==> #[trigger] counts@[t] == kind_count(anns@.take(j as int), kinds_by_name()[t]),
            findings_view(diag.errors@) == e0 + bad_ranges(anns@.take(j as int)),
            findings_view(diag.warnings@) == w0,
        decreases anns@.len() - j,
    {
        let a = &anns[j];
        assert(anns@.take(j + 1).drop_last() =~= anns@.take(j as int));
        assert(anns@.take(j + 1).last() == *a);
        let t = kind_index(a.kind);
        proof {
            assert(kind_count(anns@.take(j as int), kinds_by_name()[t as int]) <= j) by {
                lemma_kind_count_le(anns@.take(j as int), kinds_by_name()[t as int]);
            }
        }
        counts.set(t, counts[t] + 1);
        let ghost d0 = diag.errors@;
        match crate::schema::LineRange::parse(a.lines.as_str()) {
            Ok(range) => {
                parsed.push(Some(range));
            },
            Err(e) => {
                parsed.push(None);
                diag.error(Finding::BadRange { id: copy_text(&a.id), error: e });
                assert(findings_view(diag.errors@) =~= findings_view(d0).push(FindingView::BadRange(a.id@, e)));
            },
        }
        j += 1;
    }
    assert(anns@.take(j as int) =~= anns@);
    let ghost e1 = findings_view(diag.errors@);
    let files = &input.files;
    let mut out_files: Vec<FileCoverage> = Vec::new();
    let mut claimed_lines: u32 = 0;
    let mut total_lines: u32 = 0;
    let mut not_started: usize = 0;
    let mut not_started_lines: u32 = 0;
    let ghost mut lists: Seq<Seq<(LineRange, Seq<char>)>> = Seq::empty();
    let mut i: usize = 0;
    while i < files.len()
        invariant
            i <= files@.len(),
            crate::store::line_total(files@) <= u32::MAX,
            parsed@.len() == anns@.len(),
            forall|q: int| 0 <= q < anns@.len() ==> #[trigger] parsed@[q] == match crate::schema::parse_range_spec(anns@[q].lines@) {
                Ok(x) => Some(x),
                Err(_) => None::<LineRange>,
            },
            lists.len() == i,
            forall|q: int| 0 <= q < i ==> #[trigger] in_line_order(claims_on(anns@, files@[q].0@), lists[q]),
            out_files@.len() == i,
            forall|q: int| 0 <= q < i ==> #[trigger] file_coverage_ok(out_files@[q], files@[q].0@, files@[q].1, lists[q], marked_complete(input.complete@, files@[q].0@)),
            ({
                let (e, w, cl, ns, nsl) = files_sweep(input.name@, files@, input.complete@, lists, i as int);
                &&& findings_view(diag.errors@) == e1 + e
                &&& findings_view(diag.warnings@) == w0 + w
                &&& claimed_lines == cl
                &&& not_started == ns
                &&& not_started_lines == nsl
            }),
            total_lines == crate::store::line_total(files@.take(i as int)),
            claimed_lines <= total_lines,
            not_started_lines <= total_lines,
            not_started <= i,
            e1 == e0 + bad_ranges(anns@),
        decreases files@.len() - i,
    {
        let rel = &files[i].0;
        let n = files[i].1;
        proof {
            crate::store::lemma_line_total_prefix(files@, i + 1);
            assert(files@.take(i + 1).drop_last() =~= files@.take(i as int));
        }
        total_lines = total_lines + n;
        let complete = is_listed(&input.complete, rel);
        let claims = claims_for(anns, &parsed, rel);
        let list = in_order(&claims);
        let ghost lv = claims_view(list@);
        let ghost before = files_sweep(input.name@, files@, input.complete@, lists, i as int);
        let fc = cover_file(&input.name, rel, n, complete, &list, diag);
        proof {
            let old_lists = lists;
            lists = lists.push(lv);
            assert(lists.take(i as int) =~= old_lists);
            lemma_files_sweep_take(input.name@, files@, input.complete@, lists, i as int, i as int);
        }
        let idle = fc.gaps.len() > 0 && !complete && list.len() == 0;
        claimed_lines = claimed_lines + fc.claimed_lines;
        if idle {
            not_started = not_started + 1;
            not_started_lines = not_started_lines + n;
        }
        out_files.push(fc);
        i += 1;
    }
    assert(files@.take(i as int) =~= files@);
    let mut kinds: Vec<(String, usize)> = Vec::new();
    let mut t: usize = 0;
    while t < 7
        invariant
            t <= 7,
            counts@.len() == 7,
            forall|q: int| 0 <= q < 7 ==> #[trigger] counts@[q] == kind_count(anns@, kinds_by_name()[q]),
            kinds@.map_values(|p: (String, usize)| (p.0@, p.1 as nat)) == kinds_upto(anns@, t as int),
        decreases 7 - t,
    {
        if counts[t] > 0 {
            let ghost k0 = kinds@.map_values(|p: (String, usize)| (p.0@, p.1 as nat));
            kinds.push((string_of(kind_name_of(t).as_slice()), counts[t]));
            assert(kinds@.map_values(|p: (String, usize)| (p.0@, p.1 as nat)) =~= k0.push((kind_name(kinds_by_name()[t as int]), kind_count(anns@, kinds_by_name()[t as int]))));
        }
        t += 1;
    }
    let r = SourceCoverage {
        source: copy_text(&input.source_id),
        name: copy_text(&input.name),
        total_lines,
        claimed_lines,
        annotations: anns.len(),
        files: out_files,
        kinds,
        not_started,
        not_started_lines,
    };
    assert(findings_view(diag.errors@).skip(e0.len() as int) =~= bad_ranges(anns@) + files_sweep(input.name@, files@, input.complete@, lists, files@.len() as int).0);
    assert(findings_view(diag.warnings@).skip(w0.len() as int) =~= files_sweep(input.name@, files@, input.complete@, lists, files@.len() as int).1);
    assert(findings_view(diag.errors@).take(e0.len() as int) =~= e0);
    assert(findings_view(diag.warnings@).take(w0.len() as int) =~= w0);
    assert(source_covered(*input, lists, r, findings_view(diag.errors@).skip(e0.len() as int), findings_view(diag.warnings@).skip(w0.len() as int)));
    r
}

proof fn lemma_kind_count_le(anns: Seq<crate::schema::Annotation>, k: crate::schema::Kind)
    ensures
        kind_count(anns, k) <= anns.len(),
    decreases anns.len(),
{
    if anns.len() > 0 {
        lemma_kind_count_le(anns.drop_last(), k);
    }
}

proof fn lemma_files_sweep_take(
    name: Seq<char>,
    files: Seq<(String, u32)>,
    complete: Seq<String>,
    lists: Seq<Seq<(LineRange, Seq<char>)>>,
    m: int,
    k: int,
)
    requires
        0 <= k <= m <= lists.len(),
    ensures
        files_sweep(name, files, complete, lists.take(m), k) == files_sweep(name, files, complete, lists, k),
    decreases k,
{
    if k > 0 {
        lemma_files_sweep_take(name, files, complete, lists, m, k - 1);
        assert(lists.take(m)[k - 1] == lists[k - 1]);
    }
}

/// Texts as plain values.
pub open spec fn texts(v: Seq<String>) -> Seq<Seq<char>> {
    v.map_values(|s: String| s@)
}

/// The last position of a unit with this id, or -1: a later duplicate
/// replaces an earlier one in the index.
pub open spec fn last_unit(units: Seq<crate::schema::CourseUnit>, id: Seq<char>) -> int
    decreases units.len(),
{
    if units.len() == 0 {
        -1
    } else if units.last().id@ == id {
        units.len() - 1
    } else {
        last_unit(units.drop_last(), id)
    }
}

/// Findings for a unit's prereqs: unknown, or not earlier than `position`.
pub open spec fn prereq_findings(unit: Seq<char>, prereqs: Seq<Seq<char>>, units: Seq<crate::schema::CourseUnit>, position: int) -> Seq<FindingView>
    decreases prereqs.len(),
{
    if prereqs.len() == 0 {
        Seq::empty()
    } else {
        let p = prereqs.last();
        let at = last_unit(units, p);
        prereq_findings(unit, prereqs.drop_last(), units, position) + if at < 0 {
            seq![FindingView::UnknownPrereqUnit(unit, p)]
        } else if at >= position {
            seq![FindingView::PrereqNotEarlier(unit, p)]
        } else {
            Seq::empty()
        }
    }
}

/// Findings for values outside a vocabulary.
pub open spec fn vocabulary_findings(who: Seq<char>, vals: Seq<Seq<char>>, vocab: Seq<Seq<char>>, features: bool) -> Seq<FindingView>
    decreases vals.len(),
{
    if vals.len() == 0 {
        Seq::empty()
    } else {
        let v = vals.last();
        vocabulary_findings(who, vals.drop_last(), vocab, features) + if vocab.contains(v) {
            Seq::empty()
        } else if features {
            seq![FindingView::UnknownFeature(who, v)]
        } else {
            seq![FindingView::UnknownExample(who, v)]
        }
    }
}

/// The errors `check_unit` reports for unit `u` at `position`, with
/// `count` annotations tagged to it.
pub open spec fn unit_errors(
    u: crate::schema::CourseUnit,
    position: int,
    units: Seq<crate::schema::CourseUnit>,
    count: int,
    features: Seq<Seq<char>>,
    examples: Seq<Seq<char>>,
) -> Seq<FindingView> {
    let id = u.id@;
    prereq_findings(id, texts(u.prereqs@), units, position)
        + vocabulary_findings(id, texts(u.rust_features@), features, true)
        + vocabulary_findings(id, texts(u.examples@), examples, false)
        + (if crate::text::trim(u.summary@).len() == 0 || crate::text::trim(u.body@).len() == 0 {
            seq![FindingView::EmptyUnitText(id)]
        } else {
            Seq::empty()
        })
        + (if u.supplement == crate::schema::Supplement::Full && count > 0 {
            seq![FindingView::FullButTagged(id, count as usize)]
        } else if u.supplement != crate::schema::Supplement::Full && count == 0 {
            seq![FindingView::NothingTagged(id, u.supplement)]
        } else {
            Seq::empty()
        })
}

/// The warning `check_unit` reports: a unit planned, not written.
pub open spec fn unit_warnings(u: crate::schema::CourseUnit) -> Seq<FindingView> {
    if u.status == crate::schema::UnitStatus::Planned {
        seq![FindingView::PlannedUnit(u.id@, u.supplement == crate::schema::Supplement::Full)]
    } else {
        Seq::empty()
    }
}

/// The last position of a unit with this id.
fn last_unit_index(units: &Vec<crate::schema::CourseUnit>, id: &str) -> (r: Option<usize>)
    ensures
        match r {
            Some(i) => last_unit(units@, id@) == i,
            None => last_unit(units@, id@) == -1,
        },
{
    let mut k: usize = units.len();
    assert(units@.take(k as int) =~= units@);
    while k > 0
        invariant
            k <= units@.len(),
            last_unit(units@, id@) == last_unit(units@.take(k as int), id@),
        decreases k,
    {
        assert(units@.take(k as int).drop_last() =~= units@.take(k - 1));
        assert(units@.take(k as int).last() == units@[k - 1]);
        if crate::text::str_eq(units[k - 1].id.as_str(), id) {
            return Some(k - 1);
        }
        k -= 1;
    }
    None
}

/// Whether a text is among `v`.
pub(crate) fn contains_text(v: &Vec<String>, s: &str) -> (r: bool)
    ensures
        r == texts(v@).contains(s@),
{
    let mut i: usize = 0;
    while i < v.len()
        invariant
            i <= v@.len(),
            forall|k: int| 0 <= k < i ==> texts(v@)[k] != s@,
        decreases v@.len() - i,
    {
        if crate::text::str_eq(v[i].as_str(), s) {
            assert(texts(v@)[i as int] == s@);
            return true;
        }
        i += 1;
    }
    false
}

#[verifier::spinoff_prover]
pub(crate) fn report_vocabulary(who: &String, vals: &Vec<String>, vocab: &Vec<String>, features: bool, diag: &mut Diagnostics)
    ensures
        findings_view(final(diag).errors@) == findings_view(old(diag).errors@) + vocabulary_findings(who@, texts(vals@), texts(vocab@), features),
        final(diag).warnings@ == old(diag).warnings@,
{
    let ghost e0 = findings_view(diag.errors@);
    let mut i: usize = 0;
    while i < vals.len()
        invariant
            i <= vals@.len(),
            findings_view(diag.errors@) == e0 + vocabulary_findings(who@, texts(vals@).take(i as int), texts(vocab@), features),
            diag.warnings@ == old(diag).warnings@,
        decreases vals@.len() - i,
    {
        assert(texts(vals@).take(i + 1).drop_last() =~= texts(vals@).take(i as int));
        assert(texts(vals@).take(i + 1).last() == vals@[i as int]@);
        let ghost d0 = findings_view(diag.errors@);
        if !contains_text(vocab, vals[i].as_str()) {
            if features {
                diag.error(Finding::UnknownFeature { who: copy_text(who), feature: copy_text(&vals[i]) });
            } else {
                diag.error(Finding::UnknownExample { who: copy_text(who), example: copy_text(&vals[i]) });
            }
            assert(findings_view(diag.errors@) =~= d0.push(finding_view(diag.errors@.last())));
        }
        i += 1;
    }
    assert(texts(vals@).take(i as int) =~= texts(vals@));
}

/// Checks one course unit: its prereqs point backwards, its features and
/// examples exist, it has a summary and a body, and its `supplement` matches
/// whether any annotation is tagged to it, since that label is the claim
/// the reader is shown. A planned unit is a warning.
#[verifier::spinoff_prover]
pub fn check_unit(
    u: &crate::schema::CourseUnit,
    position: usize,
    units: &Vec<crate::schema::CourseUnit>,
    count: usize,
    features: &Vec<String>,
    examples: &Vec<String>,
    diag: &mut Diagnostics,
)
    ensures
        findings_view(final(diag).errors@) == findings_view(old(diag).errors@) + unit_errors(*u, position as int, units@, count as int, texts(features@), texts(examples@)),
        findings_view(final(diag).warnings@) == findings_view(old(diag).warnings@) + unit_warnings(*u),
{
    let ghost e0 = findings_view(diag.errors@);
    let ghost w0 = findings_view(diag.warnings@);
    let mut i: usize = 0;
    while i < u.prereqs.len()
        invariant
            i <= u.prereqs@.len(),
            findings_view(diag.errors@) == e0 + prereq_findings(u.id@, texts(u.prereqs@).take(i as int), units@, position as int),
            findings_view(diag.warnings@) == w0,
        decreases u.prereqs@.len() - i,
    {
        let p = &u.prereqs[i];
        assert(texts(u.prereqs@).take(i + 1).drop_last() =~= texts(u.prereqs@).take(i as int));
        assert(texts(u.prereqs@).take(i + 1).last() == p@);
        let ghost d0 = findings_view(diag.errors@);
        match last_unit_index(units, p.as_str()) {
            None => {
                diag.error(Finding::UnknownPrereqUnit { unit: copy_text(&u.id), prereq: copy_text(p) });
                assert(findings_view(diag.errors@) =~= d0.push(finding_view(diag.errors@.last())));
            },
            Some(at) => {
                if at >= position {
                    diag.error(Finding::PrereqNotEarlier { unit: copy_text(&u.id), prereq: copy_text(p) });
                    assert(findings_view(diag.errors@) =~= d0.push(finding_view(diag.errors@.last())));
                }
            },
        }
        i += 1;
    }
    assert(texts(u.prereqs@).take(i as int) =~= texts(u.prereqs@));
    report_vocabulary(&u.id, &u.rust_features, features, true, diag);
    report_vocabulary(&u.id, &u.examples, examples, false, diag);
    let ghost e3 = findings_view(diag.errors@);
    let s = crate::text::trimmed(chars_of(u.summary.as_str()).as_slice());
    let b = crate::text::trimmed(chars_of(u.body.as_str()).as_slice());
    if s.len() == 0 || b.len() == 0 {
        diag.error(Finding::EmptyUnitText { unit: copy_text(&u.id) });
        assert(findings_view(diag.errors@) =~= e3.push(finding_view(diag.errors@.last())));
    }
    let ghost e4 = findings_view(diag.errors@);
    match u.supplement {
        crate::schema::Supplement::Full => {
            if count > 0 {
                diag.error(Finding::FullButTagged { unit: copy_text(&u.id), count });
                assert(findings_view(diag.errors@) =~= e4.push(finding_view(diag.errors@.last())));
            }
        },
        _ => {
            if count == 0 {
                diag.error(Finding::NothingTagged { unit: copy_text(&u.id), supplement: u.supplement });
                assert(findings_view(diag.errors@) =~= e4.push(finding_view(diag.errors@.last())));
            }
        },
    }
    assert(findings_view(diag.errors@) =~= e0 + unit_errors(*u, position as int, units@, count as int, texts(features@), texts(examples@)));
    if u.status == crate::schema::UnitStatus::Planned {
        let full = u.supplement == crate::schema::Supplement::Full;
        diag.warn(Finding::PlannedUnit { unit: copy_text(&u.id), full });
        assert(findings_view(diag.warnings@) =~= w0.push(finding_view(diag.warnings@.last())));
    }
}

/// One course unit's shape, for the report: the course track re-orders the
/// same annotations, so what it reports is how much of it is written.
#[derive(Debug)]
pub struct UnitCoverage {
    pub id: String,
    pub title: String,
    pub supplement: crate::schema::Supplement,
    pub status: crate::schema::UnitStatus,
    pub annotations: usize,
    pub lines: u32,
}

/// Why the course registry could not be checked at all.
#[derive(Debug)]
pub enum CourseError {
    /// The registry is keyed to another release than the first source.
    SourceMismatch { found: String, pinned: String },
}

/// `name:file`, how the reading order names a file of any source.
pub open spec fn qualified(name: Seq<char>, file: Seq<char>) -> Seq<char> {
    name + seq![':'] + file
}

/// A reading-order entry names a file: qualified by its source, or bare for
/// the first source.
pub open spec fn known_reading_file(loaded: Seq<SourceInput>, f: Seq<char>) -> bool {
    exists|i: int, j: int|
        0 <= i < loaded.len() && 0 <= j < loaded[i].files@.len() && (f == qualified(
            loaded[i].name@,
            #[trigger] loaded[i].files@[j].0@,
        ) || (i == 0 && f == loaded[i].files@[j].0@))
}

/// Findings for the first `k` reading-order entries: unknown, then repeated.
pub open spec fn reading_findings(ro: Seq<Seq<char>>, loaded: Seq<SourceInput>, k: int) -> Seq<FindingView>
    decreases k,
{
    if k <= 0 {
        Seq::empty()
    } else {
        let f = ro[k - 1];
        reading_findings(ro, loaded, k - 1) + (if !known_reading_file(loaded, f) {
            seq![FindingView::UnknownReadingFile(f)]
        } else {
            Seq::empty()
        }) + (if ro.take(k - 1).contains(f) {
            seq![FindingView::ListedTwice(f)]
        } else {
            Seq::empty()
        })
    }
}

/// Every annotation of every source, with its source's position.
pub open spec fn flat_anns(loaded: Seq<SourceInput>) -> Seq<(int, crate::schema::Annotation)>
    decreases loaded.len(),
{
    if loaded.len() == 0 {
        Seq::empty()
    } else {
        let i = loaded.len() - 1;
        flat_anns(loaded.drop_last()) + loaded.last().annotations@.map_values(
            |a: crate::schema::Annotation| (i, a),
        )
    }
}

/// The annotation is on the course track.
pub open spec fn on_course(a: crate::schema::Annotation) -> bool {
    a.tracks@.contains(crate::schema::Track::Course)
}

/// Findings for course-track annotations whose file the reading order
/// leaves out.
pub open spec fn missing_findings(loaded: Seq<SourceInput>, ro: Seq<Seq<char>>, flat: Seq<(int, crate::schema::Annotation)>, k: int) -> Seq<FindingView>
    decreases k,
{
    if k <= 0 {
        Seq::empty()
    } else {
        let (i, a) = flat[k - 1];
        let q = qualified(loaded[i].name@, a.file@);
        missing_findings(loaded, ro, flat, k - 1) + if on_course(a) && !(ro.contains(q) || (i == 0
            && ro.contains(a.file@))) {
            seq![FindingView::MissingFromReadingOrder(q, a.id@)]
        } else {
            Seq::empty()
        }
    }
}

/// Findings for units repeating an earlier unit's id, then for unit ids
/// out of order.
pub open spec fn unit_id_findings(units: Seq<crate::schema::CourseUnit>, k: int) -> Seq<FindingView>
    decreases k,
{
    if k <= 0 {
        Seq::empty()
    } else {
        let id = units[k - 1].id@;
        unit_id_findings(units, k - 1) + if units.take(k - 1).map_values(|u: crate::schema::CourseUnit| u.id@).contains(id) {
            seq![FindingView::DuplicateUnit(id)]
        } else {
            Seq::empty()
        }
    }
}

pub open spec fn order_findings(units: Seq<crate::schema::CourseUnit>, k: int) -> Seq<FindingView>
    decreases k,
{
    if k <= 1 {
        Seq::empty()
    } else {
        order_findings(units, k - 1) + if !crate::text::lex_lt(units[k - 2].id@, units[k - 1].id@) {
            seq![FindingView::UnitsOutOfOrder(units[k - 2].id@, units[k - 1].id@)]
        } else {
            Seq::empty()
        }
    }
}

/// Findings for annotations tagged to a unit: the unit is unknown, or the
/// annotation is not on the course track.
pub open spec fn tag_findings(units: Seq<crate::schema::CourseUnit>, flat: Seq<(int, crate::schema::Annotation)>, k: int) -> Seq<FindingView>
    decreases k,
{
    if k <= 0 {
        Seq::empty()
    } else {
        let a = flat[k - 1].1;
        tag_findings(units, flat, k - 1) + match a.course_unit {
            Some(unit) => (if last_unit(units, unit@) < 0 {
                seq![FindingView::UnknownCourseUnit(a.id@, unit@)]
            } else {
                Seq::empty()
            }) + (if !on_course(a) {
                seq![FindingView::NotOnCourseTrack(a.id@, unit@)]
            } else {
                Seq::empty()
            }),
            None => Seq::empty(),
        }
    }
}

/// The unit of the last annotation with this id that is tagged to one.
pub open spec fn unit_of(flat: Seq<(int, crate::schema::Annotation)>, id: Seq<char>) -> Option<Seq<char>>
    decreases flat.len(),
{
    if flat.len() == 0 {
        None
    } else {
        let a = flat.last().1;
        if a.id@ == id && a.course_unit is Some {
            Some(a.course_unit->0@)
        } else {
            unit_of(flat.drop_last(), id)
        }
    }
}

/// What an annotation leans on: its prereqs, then its macro definition.
pub open spec fn ann_deps(a: crate::schema::Annotation) -> Seq<Seq<char>> {
    texts(a.prereqs@) + match a.macro_def {
        Some(m) => seq![m@],
        None => Seq::empty(),
    }
}

/// Findings for one annotation's dependencies taught in a later unit.
pub open spec fn dep_findings(units: Seq<crate::schema::CourseUnit>, flat: Seq<(int, crate::schema::Annotation)>, id: Seq<char>, here: int, deps: Seq<Seq<char>>) -> Seq<FindingView>
    decreases deps.len(),
{
    if deps.len() == 0 {
        Seq::empty()
    } else {
        let p = deps.last();
        dep_findings(units, flat, id, here, deps.drop_last()) + match unit_of(flat, p) {
            Some(u2) => {
                let there = last_unit(units, u2);
                if there >= 0 && there > here {
                    seq![FindingView::DependsForward(id, p, units[there].id@)]
                } else {
                    Seq::empty()
                }
            },
            None => Seq::empty(),
        }
    }
}

pub open spec fn forward_findings(units: Seq<crate::schema::CourseUnit>, flat: Seq<(int, crate::schema::Annotation)>, k: int) -> Seq<FindingView>
    decreases k,
{
    if k <= 0 {
        Seq::empty()
    } else {
        let a = flat[k - 1].1;
        forward_findings(units, flat, k - 1) + match a.course_unit {
            Some(u) => if last_unit(units, u@) >= 0 {
                dep_findings(units, flat, a.id@, last_unit(units, u@), ann_deps(a))
            } else {
                Seq::empty()
            },
            None => Seq::empty(),
        }
    }
}

/// The annotations tagged to `unit`, and the lines they claim (an
/// unparsable range counts none).
pub open spec fn tagged(flat: Seq<(int, crate::schema::Annotation)>, unit: Seq<char>) -> (nat, int)
    decreases flat.len(),
{
    if flat.len() == 0 {
        (0, 0)
    } else {
        let (c, l) = tagged(flat.drop_last(), unit);
        let a = flat.last().1;
        if a.course_unit is Some && a.course_unit->0@ == unit {
            (c + 1, l + match crate::schema::parse_range_spec(a.lines@) {
                Ok(r) => r.end - r.start + 1,
                Err(_) => 0,
            })
        } else {
            (c, l)
        }
    }
}

/// Errors and warnings of the units' own checks, for the first `k` units.
pub open spec fn units_findings(
    units: Seq<crate::schema::CourseUnit>,
    flat: Seq<(int, crate::schema::Annotation)>,
    features: Seq<Seq<char>>,
    examples: Seq<Seq<char>>,
    k: int,
) -> (Seq<FindingView>, Seq<FindingView>)
    decreases k,
{
    if k <= 0 {
        (Seq::empty(), Seq::empty())
    } else {
        let (e, w) = units_findings(units, flat, features, examples, k - 1);
        let u = units[k - 1];
        (
            e + unit_errors(u, k - 1, units, tagged(flat, u.id@).0 as int, features, examples),
            w + unit_warnings(u),
        )
    }
}

/// All the errors `check_course` reports, in order.
pub open spec fn course_errors(
    course: crate::schema::CourseFile,
    loaded: Seq<SourceInput>,
    features: Seq<Seq<char>>,
    examples: Seq<Seq<char>>,
) -> Seq<FindingView> {
    let ro = texts(course.reading_order@);
    let units = course.units@;
    let flat = flat_anns(loaded);
    reading_findings(ro, loaded, ro.len() as int) + missing_findings(loaded, ro, flat, flat.len() as int)
        + unit_id_findings(units, units.len() as int) + order_findings(units, units.len() as int)
        + tag_findings(units, flat, flat.len() as int) + forward_findings(units, flat, flat.len() as int)
        + units_findings(units, flat, features, examples, units.len() as int).0
}

fn qualified_name(name: &String, file: &String) -> (r: Vec<char>)
    ensures
        r@ == qualified(name@, file@),
{
    let mut out = chars_of(name.as_str());
    out.push(':');
    append(&mut out, &chars_of(file.as_str()));
    out
}

fn is_known_file(loaded: &Vec<SourceInput>, f: &String) -> (r: bool)
    ensures
        r == known_reading_file(loaded@, f@),
{
    let mut i: usize = 0;
    while i < loaded.len()
        invariant
            i <= loaded@.len(),
            forall|a: int, b: int|
                0 <= a < i && 0 <= b < loaded@[a].files@.len() ==> !(f@ == qualified(
                    loaded@[a].name@,
                    #[trigger] loaded@[a].files@[b].0@,
                ) || (a == 0 && f@ == loaded@[a].files@[b].0@)),
        decreases loaded@.len() - i,
    {
        let src = &loaded[i];
        let mut j: usize = 0;
        while j < src.files.len()
            invariant
                i < loaded@.len(),
                *src == loaded@[i as int],
                j <= src.files@.len(),
                forall|a: int, b: int|
                    0 <= a < i && 0 <= b < loaded@[a].files@.len() ==> !(f@ == qualified(
                        loaded@[a].name@,
                        #[trigger] loaded@[a].files@[b].0@,
                    ) || (a == 0 && f@ == loaded@[a].files@[b].0@)),
                forall|b: int|
                    0 <= b < j ==> !(f@ == qualified(src.name@, #[trigger] src.files@[b].0@) || (i == 0
                        && f@ == src.files@[b].0@)),
            decreases src.files@.len() - j,
        {
            let q = qualified_name(&src.name, &src.files[j].0);
            let fc = chars_of(f.as_str());
            let hit = crate::text::eq_chars(&fc, &q) || (i == 0 && crate::text::str_eq(f.as_str(), src.files[j].0.as_str()));
            if hit {
                assert(f@ == qualified(loaded@[i as int].name@, loaded@[i as int].files@[j as int].0@) || (i == 0 && f@ == loaded@[i as int].files@[j as int].0@));
                return true;
            }
            j += 1;
        }
        i += 1;
    }
    false
}

#[verifier::spinoff_prover]
fn check_reading_order(ro: &Vec<String>, loaded: &Vec<SourceInput>, diag: &mut Diagnostics)
    ensures
        findings_view(final(diag).errors@) == findings_view(old(diag).errors@) + reading_findings(texts(ro@), loaded@, ro@.len() as int),
        final(diag).warnings@ == old(diag).warnings@,
{
    let ghost e0 = findings_view(diag.errors@);
    let ghost rv = texts(ro@);
    let mut k: usize = 0;
    while k < ro.len()
        invariant
            k <= ro@.len(),
            rv == texts(ro@),
            findings_view(diag.errors@) == e0 + reading_findings(rv, loaded@, k as int),
            diag.warnings@ == old(diag).warnings@,
        decreases ro@.len() - k,
    {
        let f = &ro[k];
        assert(rv[k as int] == f@);
        let ghost d0 = findings_view(diag.errors@);
        if !is_known_file(loaded, f) {
            diag.error(Finding::UnknownReadingFile { file: copy_text(f) });
            assert(findings_view(diag.errors@) =~= d0.push(finding_view(diag.errors@.last())));
        }
        let ghost d1 = findings_view(diag.errors@);
        let mut seen = false;
        let mut m: usize = 0;
        while m < k
            invariant
                m <= k < ro@.len(),
                rv == texts(ro@),
                seen == rv.take(k as int).take(m as int).contains(f@),
            decreases k - m,
        {
            let ghost pre = rv.take(k as int);
            assert(pre.take(m + 1) =~= pre.take(m as int).push(pre[m as int]));
            proof {
                crate::coverage::lemma_push_contains(pre.take(m as int), pre[m as int], f@);
            }
            if crate::text::str_eq(ro[m].as_str(), f.as_str()) {
                seen = true;
            }
            m += 1;
        }
        assert(rv.take(k as int).take(k as int) =~= rv.take(k as int));
        if seen {
            diag.error(Finding::ListedTwice { file: copy_text(f) });
            assert(findings_view(diag.errors@) =~= d1.push(finding_view(diag.errors@.last())));
        }
        k += 1;
    }
}

pub proof fn lemma_push_contains<A>(s: Seq<A>, x: A, y: A)
    ensures
        s.push(x).contains(y) <==> (s.contains(y) || x == y),
{
    if s.contains(y) {
        let i = choose|i: int| 0 <= i < s.len() && s[i] == y;
        assert(s.push(x)[i] == y);
    }
    if x == y {
        assert(s.push(x)[s.len() as int] == y);
    }
    if s.push(x).contains(y) {
        let i = choose|i: int| 0 <= i < s.len() + 1 && s.push(x)[i] == y;
        if i < s.len() {
            assert(s[i] == y);
        }
    }
}

/// Every annotation of every source, with its source's position.
pub(crate) fn flatten(loaded: &Vec<SourceInput>) -> (r: Vec<(usize, &crate::schema::Annotation)>)
    ensures
        r@.map_values(|p: (usize, &crate::schema::Annotation)| (p.0 as int, *p.1)) == flat_anns(loaded@),
{
    let mut r: Vec<(usize, &crate::schema::Annotation)> = Vec::new();
    let mut i: usize = 0;
    while i < loaded.len()
        invariant
            i <= loaded@.len(),
            r@.map_values(|p: (usize, &crate::schema::Annotation)| (p.0 as int, *p.1)) == flat_anns(loaded@.take(i as int)),
        decreases loaded@.len() - i,
    {
        let anns = &loaded[i].annotations;
        let ghost base = r@.map_values(|p: (usize, &crate::schema::Annotation)| (p.0 as int, *p.1));
        let mut j: usize = 0;
        while j < anns.len()
            invariant
                j <= anns@.len(),
                i < loaded@.len(),
                *anns == loaded@[i as int].annotations,
                r@.map_values(|p: (usize, &crate::schema::Annotation)| (p.0 as int, *p.1)) == base + anns@.take(j as int).map_values(|a: crate::schema::Annotation| (i as int, a)),
            decreases anns@.len() - j,
        {
            let ghost r0 = r@.map_values(|p: (usize, &crate::schema::Annotation)| (p.0 as int, *p.1));
            r.push((i, &anns[j]));
            assert(r@.map_values(|p: (usize, &crate::schema::Annotation)| (p.0 as int, *p.1)) =~= base + anns@.take(j + 1).map_values(|a: crate::schema::Annotation| (i as int, a))) by {
                assert(r@.map_values(|p: (usize, &crate::schema::Annotation)| (p.0 as int, *p.1)) =~= r0.push((i as int, anns@[j as int])));
            }
            j += 1;
        }
        assert(anns@.take(j as int) =~= anns@);
        assert(loaded@.take(i + 1).drop_last() =~= loaded@.take(i as int));
        assert(loaded@.take(i + 1).last() == loaded@[i as int]);
        i += 1;
    }
    assert(loaded@.take(i as int) =~= loaded@);
    r
}

pub open spec fn flat_view(r: Seq<(usize, &crate::schema::Annotation)>) -> Seq<(int, crate::schema::Annotation)> {
    r.map_values(|p: (usize, &crate::schema::Annotation)| (p.0 as int, *p.1))
}

#[verifier::spinoff_prover]
fn check_missing(
    loaded: &Vec<SourceInput>,
    ro: &Vec<String>,
    flat: &Vec<(usize, &crate::schema::Annotation)>,
    diag: &mut Diagnostics,
)
    requires
        flat_view(flat@) == flat_anns(loaded@),
        forall|k: int| 0 <= k < flat@.len() ==> (#[trigger] flat@[k]).0 < loaded@.len(),
    ensures
        findings_view(final(diag).errors@) == findings_view(old(diag).errors@) + missing_findings(loaded@, texts(ro@), flat_view(flat@), flat@.len() as int),
        final(diag).warnings@ == old(diag).warnings@,
{
    let ghost e0 = findings_view(diag.errors@);
    let ghost fv = flat_view(flat@);
    let mut k: usize = 0;
    while k < flat.len()
        invariant
            k <= flat@.len(),
            fv == flat_view(flat@),
            forall|q: int| 0 <= q < flat@.len() ==> (#[trigger] flat@[q]).0 < loaded@.len(),
            findings_view(diag.errors@) == e0 + missing_findings(loaded@, texts(ro@), fv, k as int),
            diag.warnings@ == old(diag).warnings@,
        decreases flat@.len() - k,
    {
        let (i, a) = flat[k];
        assert(fv[k as int] == (i as int, *a));
        let ghost d0 = findings_view(diag.errors@);
        let on = on_course_track(a);
        if on {
            let q = qualified_name(&loaded[i].name, &a.file);
            let qs = string_of(q.as_slice());
            let listed = contains_text(ro, qs.as_str()) || (i == 0 && contains_text(ro, a.file.as_str()));
            if !listed {
                diag.error(Finding::MissingFromReadingOrder { file: qs, id: copy_text(&a.id) });
                assert(findings_view(diag.errors@) =~= d0.push(finding_view(diag.errors@.last())));
            }
        }
        k += 1;
    }
}

#[verifier::spinoff_prover]
fn check_unit_ids(units: &Vec<crate::schema::CourseUnit>, diag: &mut Diagnostics)
    ensures
        findings_view(final(diag).errors@) == findings_view(old(diag).errors@) + unit_id_findings(units@, units@.len() as int) + order_findings(units@, units@.len() as int),
        final(diag).warnings@ == old(diag).warnings@,
{
    let ghost e0 = findings_view(diag.errors@);
    let ghost ids = units@.map_values(|u: crate::schema::CourseUnit| u.id@);
    let mut k: usize = 0;
    while k < units.len()
        invariant
            k <= units@.len(),
            ids == units@.map_values(|u: crate::schema::CourseUnit| u.id@),
            findings_view(diag.errors@) == e0 + unit_id_findings(units@, k as int),
            diag.warnings@ == old(diag).warnings@,
        decreases units@.len() - k,
    {
        let ghost d0 = findings_view(diag.errors@);
        let mut seen = false;
        let mut m: usize = 0;
        while m < k
            invariant
                m <= k < units@.len(),
                ids == units@.map_values(|u: crate::schema::CourseUnit| u.id@),
                seen == units@.take(k as int).map_values(|u: crate::schema::CourseUnit| u.id@).take(m as int).contains(units@[k as int].id@),
            decreases k - m,
        {
            let ghost pre = units@.take(k as int).map_values(|u: crate::schema::CourseUnit| u.id@);
            assert(pre.take(m + 1) =~= pre.take(m as int).push(pre[m as int]));
            proof {
                lemma_push_contains(pre.take(m as int), pre[m as int], units@[k as int].id@);
            }
            if crate::text::str_eq(units[m].id.as_str(), units[k].id.as_str()) {
                seen = true;
            }
            m += 1;
        }
        assert(units@.take(k as int).map_values(|u: crate::schema::CourseUnit| u.id@).take(k as int) =~= units@.take(k as int).map_values(|u: crate::schema::CourseUnit| u.id@));
        if seen {
            diag.error(Finding::DuplicateUnit { id: copy_text(&units[k].id) });
            assert(findings_view(diag.errors@) =~= d0.push(finding_view(diag.errors@.last())));
        }
        k += 1;
    }
    let ghost e1 = findings_view(diag.errors@);
    let mut k: usize = 1;
    while k < units.len()
        invariant
            1 <= k,
            k <= units@.len() || k == 1,
            findings_view(diag.errors@) == e1 + order_findings(units@, k as int),
            diag.warnings@ == old(diag).warnings@,
        decreases units@.len() - k,
    {
        let ghost d0 = findings_view(diag.errors@);
        if !crate::text::lex_less(units[k - 1].id.as_str(), units[k].id.as_str()) {
            diag.error(Finding::UnitsOutOfOrder { first: copy_text(&units[k - 1].id), second: copy_text(&units[k].id) });
            assert(findings_view(diag.errors@) =~= d0.push(finding_view(diag.errors@.last())));
        }
        k += 1;
    }
    if units.len() <= 1 {
        assert(order_findings(units@, units@.len() as int) =~= Seq::<FindingView>::empty());
        assert(order_findings(units@, k as int) =~= Seq::<FindingView>::empty());
    }
}

fn on_course_track(a: &crate::schema::Annotation) -> (r: bool)
    ensures
        r == on_course(*a),
{
    let mut on = false;
    let mut t: usize = 0;
    while t < a.tracks.len()
        invariant
            t <= a.tracks@.len(),
            on == a.tracks@.take(t as int).contains(crate::schema::Track::Course),
        decreases a.tracks@.len() - t,
    {
        proof {
            lemma_push_contains(a.tracks@.take(t as int), a.tracks@[t as int], crate::schema::Track::Course);
            assert(a.tracks@.take(t + 1) =~= a.tracks@.take(t as int).push(a.tracks@[t as int]));
        }
        if a.tracks[t] == crate::schema::Track::Course {
            on = true;
        }
        t += 1;
    }
    assert(a.tracks@.take(t as int) =~= a.tracks@);
    on
}

#[verifier::spinoff_prover]
fn check_tags(units: &Vec<crate::schema::CourseUnit>, flat: &Vec<(usize, &crate::schema::Annotation)>, diag: &mut Diagnostics)
    ensures
        findings_view(final(diag).errors@) == findings_view(old(diag).errors@) + tag_findings(units@, flat_view(flat@), flat@.len() as int),
        final(diag).warnings@ == old(diag).warnings@,
{
    let ghost e0 = findings_view(diag.errors@);
    let ghost fv = flat_view(flat@);
    let mut k: usize = 0;
    while k < flat.len()
        invariant
            k <= flat@.len(),
            fv == flat_view(flat@),
            findings_view(diag.errors@) == e0 + tag_findings(units@, fv, k as int),
            diag.warnings@ == old(diag).warnings@,
        decreases flat@.len() - k,
    {
        let a = flat[k].1;
        assert(fv[k as int].1 == *a);
        let ghost d0 = findings_view(diag.errors@);
        if let Some(unit) = &a.course_unit {
            let ghost p1 = if last_unit(units@, unit@) < 0 {
                seq![FindingView::UnknownCourseUnit(a.id@, unit@)]
            } else {
                Seq::<FindingView>::empty()
            };
            let ghost p2 = if !on_course(*a) {
                seq![FindingView::NotOnCourseTrack(a.id@, unit@)]
            } else {
                Seq::<FindingView>::empty()
            };
            if last_unit_index(units, unit.as_str()).is_none() {
                diag.error(Finding::UnknownCourseUnit { id: copy_text(&a.id), unit: copy_text(unit) });
                assert(findings_view(diag.errors@) =~= d0.push(finding_view(diag.errors@.last())));
            }
            let ghost d1 = findings_view(diag.errors@);
            assert(d1 =~= d0 + p1);
            if !on_course_track(a) {
                diag.error(Finding::NotOnCourseTrack { id: copy_text(&a.id), unit: copy_text(unit) });
                assert(findings_view(diag.errors@) =~= d1.push(finding_view(diag.errors@.last())));
            }
            assert(findings_view(diag.errors@) =~= d1 + p2);
            assert(tag_findings(units@, fv, k + 1) == tag_findings(units@, fv, k as int) + (p1 + p2));
            assert(findings_view(diag.errors@) =~= e0 + tag_findings(units@, fv, k + 1));
        }
        k += 1;
    }
}

fn unit_of_id<'a>(flat: &Vec<(usize, &'a crate::schema::Annotation)>, id: &str) -> (r: Option<&'a String>)
    ensures
        match r {
            Some(u) => unit_of(flat_view(flat@), id@) == Some(u@),
            None => unit_of(flat_view(flat@), id@) is None,
        },
{
    let ghost fv = flat_view(flat@);
    let mut k: usize = flat.len();
    assert(fv.take(k as int) =~= fv);
    while k > 0
        invariant
            k <= flat@.len(),
            fv == flat_view(flat@),
            unit_of(fv, id@) == unit_of(fv.take(k as int), id@),
        decreases k,
    {
        assert(fv.take(k as int).drop_last() =~= fv.take(k - 1));
        let a = flat[k - 1].1;
        assert(fv.take(k as int).last().1 == *a);
        if crate::text::str_eq(a.id.as_str(), id) {
            if let Some(u) = &a.course_unit {
                return Some(u);
            }
        }
        k -= 1;
    }
    None
}

#[verifier::spinoff_prover]
fn check_forward(units: &Vec<crate::schema::CourseUnit>, flat: &Vec<(usize, &crate::schema::Annotation)>, diag: &mut Diagnostics)
    ensures
        findings_view(final(diag).errors@) == findings_view(old(diag).errors@) + forward_findings(units@, flat_view(flat@), flat@.len() as int),
        final(diag).warnings@ == old(diag).warnings@,
{
    let ghost e0 = findings_view(diag.errors@);
    let ghost fv = flat_view(flat@);
    let mut k: usize = 0;
    while k < flat.len()
        invariant
            k <= flat@.len(),
            fv == flat_view(flat@),
            findings_view(diag.errors@) == e0 + forward_findings(units@, fv, k as int),
            diag.warnings@ == old(diag).warnings@,
        decreases flat@.len() - k,
    {
        let a = flat[k].1;
        assert(fv[k as int].1 == *a);
        if let Some(u) = &a.course_unit {
            if let Some(here) = last_unit_index(units, u.as_str()) {
                let ghost deps = ann_deps(*a);
                let ghost d0 = findings_view(diag.errors@);
                let mut names: Vec<&String> = Vec::new();
                let mut q: usize = 0;
                while q < a.prereqs.len()
                    invariant
                        q <= a.prereqs@.len(),
                        names@.map_values(|s: &String| s@) == texts(a.prereqs@).take(q as int),
                    decreases a.prereqs@.len() - q,
                {
                    let ghost n0 = names@;
                    names.push(&a.prereqs[q]);
                    assert(names@ == n0.push(&a.prereqs@[q as int]));
                    assert(names@.map_values(|s: &String| s@) =~= n0.map_values(|s: &String| s@).push(a.prereqs@[q as int]@));
                    assert(texts(a.prereqs@).take(q + 1) =~= texts(a.prereqs@).take(q as int).push(a.prereqs@[q as int]@));
                    assert(names@.map_values(|s: &String| s@) =~= texts(a.prereqs@).take(q + 1));
                    q += 1;
                }
                assert(texts(a.prereqs@).take(q as int) =~= texts(a.prereqs@));
                let ghost n1 = names@;
                if let Some(m) = &a.macro_def {
                    names.push(m);
                    assert(names@.map_values(|s: &String| s@) =~= n1.map_values(|s: &String| s@).push(m@));
                }
                assert(names@.map_values(|s: &String| s@) =~= deps);
                let mut d: usize = 0;
                while d < names.len()
                    invariant
                        d <= names@.len(),
                        names@.map_values(|s: &String| s@) == deps,
                        fv == flat_view(flat@),
                        findings_view(diag.errors@) == d0 + dep_findings(units@, fv, a.id@, here as int, deps.take(d as int)),
                        diag.warnings@ == old(diag).warnings@,
                    decreases names@.len() - d,
                {
                    let p = names[d];
                    assert(deps.take(d + 1).drop_last() =~= deps.take(d as int));
                    assert(deps.take(d + 1).last() == p@);
                    let ghost d1 = findings_view(diag.errors@);
                    if let Some(u2) = unit_of_id(flat, p.as_str()) {
                        if let Some(there) = last_unit_index(units, u2.as_str()) {
                            proof {
                                lemma_last_unit_bound(units@, u2@);
                            }
                            if there > here {
                                diag.error(Finding::DependsForward { id: copy_text(&a.id), on: copy_text(p), unit: copy_text(&units[there].id) });
                                assert(findings_view(diag.errors@) =~= d1.push(finding_view(diag.errors@.last())));
                            }
                        }
                    }
                    d += 1;
                }
                assert(deps.take(d as int) =~= deps);
            }
        }
        k += 1;
    }
}

fn tagged_of(flat: &Vec<(usize, &crate::schema::Annotation)>, unit: &String) -> (r: (usize, u32))
    requires
        tagged(flat_view(flat@), unit@).1 <= u32::MAX,
    ensures
        r.0 == tagged(flat_view(flat@), unit@).0,
        r.1 == tagged(flat_view(flat@), unit@).1,
{
    let ghost fv = flat_view(flat@);
    let mut c: usize = 0;
    let mut l: u32 = 0;
    let mut k: usize = 0;
    while k < flat.len()
        invariant
            k <= flat@.len(),
            fv == flat_view(flat@),
            tagged(fv, unit@).1 <= u32::MAX,
            c == tagged(fv.take(k as int), unit@).0,
            l == tagged(fv.take(k as int), unit@).1,
            c <= k,
        decreases flat@.len() - k,
    {
        assert(fv.take(k + 1).drop_last() =~= fv.take(k as int));
        let a = flat[k].1;
        assert(fv.take(k + 1).last().1 == *a);
        proof {
            lemma_tagged_prefix(fv, unit@, k + 1);
        }
        if let Some(u) = &a.course_unit {
            if crate::text::str_eq(u.as_str(), unit.as_str()) {
                c = c + 1;
                match crate::schema::LineRange::parse(a.lines.as_str()) {
                    Ok(r) => {
                        l = l + r.line_count();
                    },
                    Err(_) => {},
                }
            }
        }
        k += 1;
    }
    assert(fv.take(k as int) =~= fv);
    (c, l)
}

proof fn lemma_tagged_prefix(fv: Seq<(int, crate::schema::Annotation)>, unit: Seq<char>, k: int)
    requires
        0 <= k <= fv.len(),
    ensures
        0 <= tagged(fv.take(k), unit).1 <= tagged(fv, unit).1,
    decreases fv.len() - k,
{
    if k < fv.len() {
        lemma_tagged_prefix(fv, unit, k + 1);
        assert(fv.take(k + 1).drop_last() =~= fv.take(k));
        lemma_tagged_nonneg(fv.take(k), unit);
    } else {
        assert(fv.take(k) =~= fv);
        lemma_tagged_nonneg(fv, unit);
    }
}

proof fn lemma_tagged_nonneg(fv: Seq<(int, crate::schema::Annotation)>, unit: Seq<char>)
    ensures
        tagged(fv, unit).1 >= 0,
    decreases fv.len(),
{
    if fv.len() > 0 {
        lemma_tagged_nonneg(fv.drop_last(), unit);
    }
}

/// Validates the course registry and every annotation that points into it:
/// the reading order names real files once each and lists every file the
/// course teaches from; units are unique and declared in id order; every
/// tag names a unit and sits on the course track; nothing leans on a later
/// unit; and each unit passes `check_unit`.
pub fn check_course(
    course: &crate::schema::CourseFile,
    loaded: &Vec<SourceInput>,
    features: &Vec<String>,
    examples: &Vec<String>,
    diag: &mut Diagnostics,
) -> (r: Result<Vec<UnitCoverage>, CourseError>)
    requires
        loaded@.len() > 0,
        forall|i: int| 0 <= i < course.units@.len() ==> tagged(flat_anns(loaded@), (#[trigger] course.units@[i]).id@).1 <= u32::MAX,
    ensures
        match r {
            Err(e) => course.source@ != loaded@[0].source_id@ && (e matches CourseError::SourceMismatch { found, pinned } && found@ == course.source@ && pinned@ == loaded@[0].source_id@) && final(diag).errors@ == old(diag).errors@ && final(diag).warnings@ == old(diag).warnings@,
            Ok(out) => {
                &&& course.source@ == loaded@[0].source_id@
                &&& findings_view(final(diag).errors@) == findings_view(old(diag).errors@) + course_errors(*course, loaded@, texts(features@), texts(examples@))
                &&& findings_view(final(diag).warnings@) == findings_view(old(diag).warnings@) + units_findings(course.units@, flat_anns(loaded@), texts(features@), texts(examples@), course.units@.len() as int).1
                &&& out@.len() == course.units@.len()
                &&& forall|i: int| 0 <= i < out@.len() ==> {
                    let u = #[trigger] course.units@[i];
                    let t = tagged(flat_anns(loaded@), u.id@);
                    &&& out@[i].id@ == u.id@ && out@[i].title@ == u.title@
                    &&& out@[i].supplement == u.supplement && out@[i].status == u.status
                    &&& out@[i].annotations == t.0 && out@[i].lines == t.1
                }
            },
        },
{
    if !crate::text::str_eq(course.source.as_str(), loaded[0].source_id.as_str()) {
        return Err(CourseError::SourceMismatch { found: copy_text(&course.source), pinned: copy_text(&loaded[0].source_id) });
    }
    let ghost e0 = findings_view(diag.errors@);
    let ghost w0 = findings_view(diag.warnings@);
    check_reading_order(&course.reading_order, loaded, diag);
    let flat = flatten(loaded);
    proof {
        assert forall|k: int| 0 <= k < flat@.len() implies (#[trigger] flat@[k]).0 < loaded@.len() by {
            lemma_flat_source(loaded@, k);
            assert(flat_view(flat@)[k] == flat_anns(loaded@)[k]);
        }
    }
    check_missing(loaded, &course.reading_order, &flat, diag);
    let units = &course.units;
    check_unit_ids(units, diag);
    check_tags(units, &flat, diag);
    check_forward(units, &flat, diag);
    let ghost e1 = findings_view(diag.errors@);
    let ghost fv = flat_view(flat@);
    let mut out: Vec<UnitCoverage> = Vec::new();
    let mut i: usize = 0;
    while i < units.len()
        invariant
            i <= units@.len(),
            *units == course.units,
            fv == flat_view(flat@),
            fv == flat_anns(loaded@),
            forall|q: int| 0 <= q < units@.len() ==> tagged(fv, (#[trigger] units@[q]).id@).1 <= u32::MAX,
            findings_view(diag.errors@) == e1 + units_findings(units@, fv, texts(features@), texts(examples@), i as int).0,
            findings_view(diag.warnings@) == w0 + units_findings(units@, fv, texts(features@), texts(examples@), i as int).1,
            out@.len() == i,
            forall|q: int| 0 <= q < i ==> {
                let u = #[trigger] units@[q];
                let t = tagged(fv, u.id@);
                &&& out@[q].id@ == u.id@ && out@[q].title@ == u.title@
                &&& out@[q].supplement == u.supplement && out@[q].status == u.status
                &&& out@[q].annotations == t.0 && out@[q].lines == t.1
            },
        decreases units@.len() - i,
    {
        let u = &units[i];
        let (count, lines) = tagged_of(&flat, &u.id);
        let ghost d0 = findings_view(diag.errors@);
        let ghost v0 = findings_view(diag.warnings@);
        check_unit(u, i, units, count, features, examples, diag);
        out.push(UnitCoverage {
            id: copy_text(&u.id),
            title: copy_text(&u.title),
            supplement: u.supplement,
            status: u.status,
            annotations: count,
            lines,
        });
        i += 1;
    }
    r_ok(out)
}

fn r_ok(out: Vec<UnitCoverage>) -> (r: Result<Vec<UnitCoverage>, CourseError>)
    ensures
        r == Ok::<Vec<UnitCoverage>, CourseError>(out),
{
    Ok(out)
}

proof fn lemma_flat_source(loaded: Seq<SourceInput>, k: int)
    requires
        0 <= k < flat_anns(loaded).len(),
    ensures
        0 <= flat_anns(loaded)[k].0 < loaded.len(),
    decreases loaded.len(),
{
    if loaded.len() > 0 {
        let init = flat_anns(loaded.drop_last());
        if k < init.len() {
            lemma_flat_source(loaded.drop_last(), k);
        }
    }
}

proof fn lemma_last_unit_bound(units: Seq<crate::schema::CourseUnit>, id: Seq<char>)
    ensures
        -1 <= last_unit(units, id) < units.len(),
    decreases units.len(),
{
    if units.len() > 0 {
        lemma_last_unit_bound(units.drop_last(), id);
    }
}

/// One narrative unit's shape: the size of the walk and how many of its
/// stops land inside an annotation. A path is not a fraction of a crate, so
/// there is no percentage.
#[derive(Debug)]
pub struct NarrativeUnitReport {
    pub id: String,
    pub title: String,
    pub steps: usize,
    pub cited_lines: u32,
    pub crossings: usize,
}

/// Every step of the walk, with its unit's position.
pub open spec fn walk(units: Seq<crate::store::NarrativeItem>) -> Seq<(int, crate::store::NarrativeStepItem)>
    decreases units.len(),
{
    if units.len() == 0 {
        Seq::empty()
    } else {
        let i = units.len() - 1;
        walk(units.drop_last()) + units.last().steps@.map_values(|s: crate::store::NarrativeStepItem| (i, s))
    }
}

/// The last position in the walk of a step with this id, or -1.
pub open spec fn last_step(flat: Seq<(int, crate::store::NarrativeStepItem)>, id: Seq<char>) -> int
    decreases flat.len(),
{
    if flat.len() == 0 {
        -1
    } else if flat.last().1.step.id@ == id {
        flat.len() - 1
    } else {
        last_step(flat.drop_last(), id)
    }
}

/// Findings for steps repeating an earlier step's id.
pub open spec fn dup_step_findings(flat: Seq<(int, crate::store::NarrativeStepItem)>, k: int) -> Seq<FindingView>
    decreases k,
{
    if k <= 0 {
        Seq::empty()
    } else {
        let id = flat[k - 1].1.step.id@;
        dup_step_findings(flat, k - 1) + if last_step(flat.take(k - 1), id) >= 0 {
            seq![FindingView::DuplicateStep(id)]
        } else {
            Seq::empty()
        }
    }
}

/// Findings for narrative unit ids out of order.
pub open spec fn walk_order_findings(units: Seq<crate::store::NarrativeItem>, k: int) -> Seq<FindingView>
    decreases k,
{
    if k <= 1 {
        Seq::empty()
    } else {
        walk_order_findings(units, k - 1) + if !crate::text::lex_lt(units[k - 2].unit.id@, units[k - 1].unit.id@) {
            seq![FindingView::NarrativeOutOfOrder(units[k - 2].unit.id@, units[k - 1].unit.id@)]
        } else {
            Seq::empty()
        }
    }
}

/// The annotation a map keyed by id holds for `id`: the last with that id.
pub open spec fn last_ann(anns: Seq<crate::schema::Annotation>, id: Seq<char>) -> Option<crate::schema::Annotation>
    decreases anns.len(),
{
    if anns.len() == 0 {
        None
    } else if anns.last().id@ == id {
        Some(anns.last())
    } else {
        last_ann(anns.drop_last(), id)
    }
}

/// Findings for glossary citations that resolve to nothing.
pub open spec fn glossary_findings(who: Seq<char>, cited: Seq<Seq<char>>, glossary: Seq<Seq<char>>) -> Seq<FindingView>
    decreases cited.len(),
{
    if cited.len() == 0 {
        Seq::empty()
    } else {
        glossary_findings(who, cited.drop_last(), glossary) + if glossary.contains(cited.last()) {
            Seq::empty()
        } else {
            seq![FindingView::UnknownGlossary(who, cited.last())]
        }
    }
}

/// Findings for what a step leans on: unknown, or not earlier in the walk.
pub open spec fn leans_findings(units: Seq<crate::store::NarrativeItem>, flat: Seq<(int, crate::store::NarrativeStepItem)>, id: Seq<char>, on: Seq<Seq<char>>) -> Seq<FindingView>
    decreases on.len(),
{
    if on.len() == 0 {
        Seq::empty()
    } else {
        let p = on.last();
        let there = last_step(flat, p);
        leans_findings(units, flat, id, on.drop_last()) + if there < 0 {
            seq![FindingView::UnknownLeansOn(id, p)]
        } else if there >= last_step(flat, id) {
            seq![FindingView::LeansForward(id, p, units[flat[there].0].unit.id@)]
        } else {
            Seq::empty()
        }
    }
}

/// The crossing rule: a step on claimed ground names the annotation it lands
/// in, and its range sits inside that annotation.
pub open spec fn crossing_findings(anns: Seq<crate::schema::Annotation>, item: crate::store::NarrativeStepItem) -> Seq<FindingView> {
    let s = item.step;
    match s.annotation {
        None => if item.claimed {
            seq![FindingView::UnnamedCrossing(s.id@, s.file@)]
        } else {
            Seq::empty()
        },
        Some(aid) => match last_ann(anns, aid@) {
            None => seq![FindingView::UnknownAnnotation(s.id@, aid@)],
            Some(a) => if a.file@ != s.file@ {
                seq![FindingView::AnnotationElsewhere(s.id@, aid@, a.file@, s.file@)]
            } else {
                match crate::schema::parse_range_spec(a.lines@) {
                    Ok(r) => if item.range.start < r.start || item.range.end > r.end {
                        seq![FindingView::CrossingOutside(s.id@, s.file@, s.lines@, aid@, a.lines@)]
                    } else {
                        Seq::empty()
                    },
                    Err(_) => Seq::empty(),
                }
            },
        },
    }
}

/// The range error that stops the check at this step: the annotation it
/// names has a `lines` that does not parse.
pub open spec fn step_fault(anns: Seq<crate::schema::Annotation>, item: crate::store::NarrativeStepItem) -> Option<crate::schema::RangeError> {
    match item.step.annotation {
        Some(aid) => match last_ann(anns, aid@) {
            Some(a) => if a.file@ == item.step.file@ {
                match crate::schema::parse_range_spec(a.lines@) {
                    Err(e) => Some(e),
                    Ok(_) => None,
                }
            } else {
                None
            },
            None => None,
        },
        None => None,
    }
}

pub open spec fn opt_text(o: Option<String>) -> Option<Seq<char>> {
    match o {
        Some(s) => Some(s@),
        None => None,
    }
}

/// Findings for a step's claim about emitted code.
pub open spec fn emits_findings(u: crate::schema::NarrativeUnit, s: crate::schema::NarrativeStep, cases: Seq<Seq<char>>) -> Seq<FindingView> {
    let case = if s.emits_case is Some {
        opt_text(s.emits_case)
    } else {
        opt_text(u.expand_case)
    };
    (if s.emits is Some && s.emits_from is None {
        seq![FindingView::EmitsWithoutFrom(s.id@)]
    } else if s.emits is None && s.emits_from is Some {
        seq![FindingView::FromWithoutEmits(s.id@)]
    } else {
        Seq::empty()
    }) + (match case {
        None => if s.emits is Some {
            seq![FindingView::NoCaseToQuote(s.id@, u.id@)]
        } else {
            Seq::empty()
        },
        Some(c) => if !cases.contains(c) {
            seq![FindingView::UnknownEmitsCase(s.id@, c)]
        } else {
            Seq::empty()
        },
    }) + (if s.emits is None && s.emits_case is Some {
        seq![FindingView::CaseWithoutEmits(s.id@)]
    } else {
        Seq::empty()
    })
}

/// Everything the audit reports for one step of unit `u`.
pub open spec fn step_findings(
    units: Seq<crate::store::NarrativeItem>,
    flat: Seq<(int, crate::store::NarrativeStepItem)>,
    anns: Seq<crate::schema::Annotation>,
    glossary: Seq<Seq<char>>,
    cases: Seq<Seq<char>>,
    u: crate::schema::NarrativeUnit,
    item: crate::store::NarrativeStepItem,
) -> Seq<FindingView> {
    let s = item.step;
    (if crate::text::trim(s.title@).len() == 0 || crate::text::trim(s.body@).len() == 0 {
        seq![FindingView::EmptyStepText(s.id@)]
    } else {
        Seq::empty()
    }) + glossary_findings(s.id@, texts(s.glossary@), glossary) + leans_findings(units, flat, s.id@, texts(s.leans_on@))
        + crossing_findings(anns, item) + (if !item.is_coverage && s.annotation is Some {
        seq![FindingView::NotAnnotatedSource(s.id@, s.source@)]
    } else {
        Seq::empty()
    }) + emits_findings(u, s, cases)
}

/// Findings for a unit's own framing.
pub open spec fn unit_frame_findings(item: crate::store::NarrativeItem, cases: Seq<Seq<char>>) -> Seq<FindingView> {
    let u = item.unit;
    (if crate::text::trim(u.title@).len() == 0 || crate::text::trim(u.summary@).len() == 0 || crate::text::trim(u.body@).len() == 0 {
        seq![FindingView::EmptyNarrativeText(u.id@)]
    } else {
        Seq::empty()
    }) + (if item.steps@.len() == 0 {
        seq![FindingView::NoSteps(u.id@)]
    } else {
        Seq::empty()
    }) + match u.expand_case {
        Some(c) => if !cases.contains(c@) {
            seq![FindingView::UnknownExpandCase(u.id@, c@)]
        } else {
            Seq::empty()
        },
        None => Seq::empty(),
    }
}

/// The first `j` steps of unit `ui`: their findings, crossings and cited
/// lines, or the range error that stops the check.
pub open spec fn unit_pass(
    units: Seq<crate::store::NarrativeItem>,
    anns: Seq<crate::schema::Annotation>,
    glossary: Seq<Seq<char>>,
    cases: Seq<Seq<char>>,
    ui: int,
    j: int,
) -> Result<(Seq<FindingView>, int, int), crate::schema::RangeError>
    decreases j,
{
    if j <= 0 {
        Ok((Seq::empty(), 0, 0))
    } else {
        match unit_pass(units, anns, glossary, cases, ui, j - 1) {
            Err(e) => Err(e),
            Ok((f, cr, cl)) => {
                let item = units[ui].steps@[j - 1];
                match step_fault(anns, item) {
                    Some(e) => Err(e),
                    None => Ok((
                        f + step_findings(units, walk(units), anns, glossary, cases, units[ui].unit, item),
                        cr + if item.step.annotation is Some { 1int } else { 0int },
                        cl + (item.range.end - item.range.start + 1),
                    )),
                }
            },
        }
    }
}

/// The first `k` units: findings, and `(id, title, steps, cited, crossings)`
/// for each, or the range error that stops the check.
pub open spec fn walk_pass(
    units: Seq<crate::store::NarrativeItem>,
    anns: Seq<crate::schema::Annotation>,
    glossary: Seq<Seq<char>>,
    cases: Seq<Seq<char>>,
    k: int,
) -> Result<(Seq<FindingView>, Seq<(Seq<char>, Seq<char>, int, int, int)>), crate::schema::RangeError>
    decreases k,
{
    if k <= 0 {
        Ok((Seq::empty(), Seq::empty()))
    } else {
        match walk_pass(units, anns, glossary, cases, k - 1) {
            Err(e) => Err(e),
            Ok((f, reps)) => {
                let item = units[k - 1];
                match unit_pass(units, anns, glossary, cases, k - 1, item.steps@.len() as int) {
                    Err(e) => Err(e),
                    Ok((sf, cr, cl)) => Ok((
                        f + unit_frame_findings(item, cases) + sf,
                        reps.push((item.unit.id@, item.unit.title@, item.steps@.len() as int, cl, cr)),
                    )),
                }
            },
        }
    }
}

/// The cited lines of one unit, counted range by range.
pub open spec fn unit_cited(steps: Seq<crate::store::NarrativeStepItem>) -> int
    decreases steps.len(),
{
    if steps.len() == 0 {
        0
    } else {
        unit_cited(steps.drop_last()) + (steps.last().range.end - steps.last().range.start + 1)
    }
}

/// A report as plain values.
pub open spec fn report_view(r: NarrativeUnitReport) -> (Seq<char>, Seq<char>, int, int, int) {
    (r.id@, r.title@, r.steps as int, r.cited_lines as int, r.crossings as int)
}

pub open spec fn walk_view(r: Seq<(usize, &crate::store::NarrativeStepItem)>) -> Seq<(int, crate::store::NarrativeStepItem)> {
    r.map_values(|p: (usize, &crate::store::NarrativeStepItem)| (p.0 as int, *p.1))
}

fn walk_steps(units: &Vec<crate::store::NarrativeItem>) -> (r: Vec<(usize, &crate::store::NarrativeStepItem)>)
    ensures
        walk_view(r@) == walk(units@),
{
    let mut r: Vec<(usize, &crate::store::NarrativeStepItem)> = Vec::new();
    let mut i: usize = 0;
    while i < units.len()
        invariant
            i <= units@.len(),
            walk_view(r@) == walk(units@.take(i as int)),
        decreases units@.len() - i,
    {
        let steps = &units[i].steps;
        let ghost base = walk_view(r@);
        let mut j: usize = 0;
        while j < steps.len()
            invariant
                j <= steps@.len(),
                i < units@.len(),
                *steps == units@[i as int].steps,
                walk_view(r@) == base + steps@.take(j as int).map_values(|s: crate::store::NarrativeStepItem| (i as int, s)),
            decreases steps@.len() - j,
        {
            let ghost r0 = walk_view(r@);
            r.push((i, &steps[j]));
            assert(walk_view(r@) =~= base + steps@.take(j + 1).map_values(|s: crate::store::NarrativeStepItem| (i as int, s))) by {
                assert(walk_view(r@) =~= r0.push((i as int, steps@[j as int])));
            }
            j += 1;
        }
        assert(steps@.take(j as int) =~= steps@);
        assert(units@.take(i + 1).drop_last() =~= units@.take(i as int));
        assert(units@.take(i + 1).last() == units@[i as int]);
        i += 1;
    }
    assert(units@.take(i as int) =~= units@);
    r
}

fn last_step_index(flat: &Vec<(usize, &crate::store::NarrativeStepItem)>, upto: usize, id: &str) -> (r: Option<usize>)
    requires
        upto <= flat@.len(),
    ensures
        match r {
            Some(i) => last_step(walk_view(flat@).take(upto as int), id@) == i,
            None => last_step(walk_view(flat@).take(upto as int), id@) == -1,
        },
{
    let ghost fv = walk_view(flat@).take(upto as int);
    let mut k: usize = upto;
    assert(fv.take(k as int) =~= fv);
    while k > 0
        invariant
            k <= upto <= flat@.len(),
            fv == walk_view(flat@).take(upto as int),
            last_step(fv, id@) == last_step(fv.take(k as int), id@),
        decreases k,
    {
        assert(fv.take(k as int).drop_last() =~= fv.take(k - 1));
        assert(fv.take(k as int).last().1 == *flat@[k - 1].1);
        if crate::text::str_eq(flat[k - 1].1.step.id.as_str(), id) {
            return Some(k - 1);
        }
        k -= 1;
    }
    None
}

fn last_ann_of<'a>(anns: &'a Vec<crate::schema::Annotation>, id: &str) -> (r: Option<&'a crate::schema::Annotation>)
    ensures
        match r {
            Some(a) => last_ann(anns@, id@) == Some(*a),
            None => last_ann(anns@, id@) is None,
        },
{
    let mut k: usize = anns.len();
    assert(anns@.take(k as int) =~= anns@);
    while k > 0
        invariant
            k <= anns@.len(),
            last_ann(anns@, id@) == last_ann(anns@.take(k as int), id@),
        decreases k,
    {
        assert(anns@.take(k as int).drop_last() =~= anns@.take(k - 1));
        assert(anns@.take(k as int).last() == anns@[k - 1]);
        if crate::text::str_eq(anns[k - 1].id.as_str(), id) {
            return Some(&anns[k - 1]);
        }
        k -= 1;
    }
    None
}

fn opt_string_copy(o: &Option<String>) -> (r: Option<String>)
    ensures
        opt_text(r) == opt_text(*o),
{
    match o {
        Some(s) => Some(copy_text(s)),
        None => None,
    }
}

#[verifier::spinoff_prover]
fn check_step_text(s: &crate::schema::NarrativeStep, diag: &mut Diagnostics)
    ensures
        findings_view(final(diag).errors@) == findings_view(old(diag).errors@) + (if crate::text::trim(s.title@).len() == 0 || crate::text::trim(s.body@).len() == 0 {
            seq![FindingView::EmptyStepText(s.id@)]
        } else {
            Seq::<FindingView>::empty()
        }),
        final(diag).warnings@ == old(diag).warnings@,
{
    let ghost e0 = findings_view(diag.errors@);
    let t = crate::text::trimmed(chars_of(s.title.as_str()).as_slice());
    let b = crate::text::trimmed(chars_of(s.body.as_str()).as_slice());
    if t.len() == 0 || b.len() == 0 {
        diag.error(Finding::EmptyStepText { step: copy_text(&s.id) });
        assert(findings_view(diag.errors@) =~= e0.push(finding_view(diag.errors@.last())));
    } else {
        assert(findings_view(diag.errors@) =~= e0 + Seq::<FindingView>::empty());
    }
}

#[verifier::spinoff_prover]
fn check_glossary(s: &crate::schema::NarrativeStep, glossary: &Vec<String>, diag: &mut Diagnostics)
    ensures
        findings_view(final(diag).errors@) == findings_view(old(diag).errors@) + glossary_findings(s.id@, texts(s.glossary@), texts(glossary@)),
        final(diag).warnings@ == old(diag).warnings@,
{
    let ghost e1 = findings_view(diag.errors@);
    let mut g: usize = 0;
    assert(findings_view(diag.errors@) =~= e1 + glossary_findings(s.id@, texts(s.glossary@).take(0), texts(glossary@)));
    while g < s.glossary.len()
        invariant
            g <= s.glossary@.len(),
            findings_view(diag.errors@) == e1 + glossary_findings(s.id@, texts(s.glossary@).take(g as int), texts(glossary@)),
            diag.warnings@ == old(diag).warnings@,
        decreases s.glossary@.len() - g,
    {
        assert(texts(s.glossary@).take(g + 1).drop_last() =~= texts(s.glossary@).take(g as int));
        assert(texts(s.glossary@).take(g + 1).last() == s.glossary@[g as int]@);
        let ghost d0 = findings_view(diag.errors@);
        if !contains_text(glossary, s.glossary[g].as_str()) {
            diag.error(Finding::UnknownGlossary { who: copy_text(&s.id), id: copy_text(&s.glossary[g]) });
            assert(findings_view(diag.errors@) =~= d0.push(finding_view(diag.errors@.last())));
        }
        g += 1;
    }
    assert(texts(s.glossary@).take(g as int) =~= texts(s.glossary@));
}

#[verifier::spinoff_prover]
fn check_leans(
    units: &Vec<crate::store::NarrativeItem>,
    flat: &Vec<(usize, &crate::store::NarrativeStepItem)>,
    s: &crate::schema::NarrativeStep,
    diag: &mut Diagnostics,
)
    requires
        walk_view(flat@) == walk(units@),
        forall|k: int| 0 <= k < flat@.len() ==> (#[trigger] flat@[k]).0 < units@.len(),
    ensures
        findings_view(final(diag).errors@) == findings_view(old(diag).errors@) + leans_findings(units@, walk(units@), s.id@, texts(s.leans_on@)),
        final(diag).warnings@ == old(diag).warnings@,
{
    let ghost fv = walk(units@);
    let ghost e2 = findings_view(diag.errors@);
    let me = last_step_index(flat, flat.len(), s.id.as_str());
    assert(walk_view(flat@).take(flat@.len() as int) =~= walk_view(flat@));
    assert(findings_view(diag.errors@) =~= e2 + leans_findings(units@, fv, s.id@, texts(s.leans_on@).take(0)));
    let mut l: usize = 0;
    while l < s.leans_on.len()
        invariant
            l <= s.leans_on@.len(),
            walk_view(flat@) == fv,
            fv == walk(units@),
            walk_view(flat@).take(flat@.len() as int) == walk_view(flat@),
            forall|k: int| 0 <= k < flat@.len() ==> (#[trigger] flat@[k]).0 < units@.len(),
            match me {
                Some(i) => last_step(fv, s.id@) == i,
                None => last_step(fv, s.id@) == -1,
            },
            findings_view(diag.errors@) == e2 + leans_findings(units@, fv, s.id@, texts(s.leans_on@).take(l as int)),
            diag.warnings@ == old(diag).warnings@,
        decreases s.leans_on@.len() - l,
    {
        let p = &s.leans_on[l];
        assert(texts(s.leans_on@).take(l + 1).drop_last() =~= texts(s.leans_on@).take(l as int));
        assert(texts(s.leans_on@).take(l + 1).last() == p@);
        let ghost d0 = findings_view(diag.errors@);
        match last_step_index(flat, flat.len(), p.as_str()) {
            None => {
                diag.error(Finding::UnknownLeansOn { step: copy_text(&s.id), on: copy_text(p) });
                assert(findings_view(diag.errors@) =~= d0.push(finding_view(diag.errors@.last())));
            },
            Some(there) => {
                proof {
                    lemma_last_step_bound(fv, p@);
                    lemma_last_step_bound(fv, s.id@);
                }
                let later = match me {
                    Some(i) => there >= i,
                    None => true,
                };
                if later {
                    let ui = flat[there].0;
                    assert(fv[there as int].0 == ui);
                    diag.error(Finding::LeansForward { step: copy_text(&s.id), on: copy_text(p), unit: copy_text(&units[ui].unit.id) });
                    assert(findings_view(diag.errors@) =~= d0.push(finding_view(diag.errors@.last())));
                }
            },
        }
        l += 1;
    }
    assert(texts(s.leans_on@).take(l as int) =~= texts(s.leans_on@));
}

#[verifier::spinoff_prover]
fn check_crossing(anns: &Vec<crate::schema::Annotation>, item: &crate::store::NarrativeStepItem, diag: &mut Diagnostics) -> (r: Result<(), crate::schema::RangeError>)
    ensures
        match step_fault(anns@, *item) {
            Some(e) => r == Err::<(), crate::schema::RangeError>(e),
            None => r is Ok && findings_view(final(diag).errors@) == findings_view(old(diag).errors@) + crossing_findings(anns@, *item),
        },
        final(diag).warnings@ == old(diag).warnings@,
{
    let s = &item.step;
    let ghost e3 = findings_view(diag.errors@);
    match &s.annotation {
        None => {
            if item.claimed {
                diag.error(Finding::UnnamedCrossing { step: copy_text(&s.id), file: copy_text(&s.file) });
                assert(findings_view(diag.errors@) =~= e3.push(finding_view(diag.errors@.last())));
            } else {
                assert(findings_view(diag.errors@) =~= e3 + Seq::<FindingView>::empty());
            }
        },
        Some(aid) => {
            match last_ann_of(anns, aid.as_str()) {
                None => {
                    diag.error(Finding::UnknownAnnotation { step: copy_text(&s.id), id: copy_text(aid) });
                    assert(findings_view(diag.errors@) =~= e3.push(finding_view(diag.errors@.last())));
                },
                Some(a) => {
                    if !crate::text::str_eq(a.file.as_str(), s.file.as_str()) {
                        diag.error(Finding::AnnotationElsewhere { step: copy_text(&s.id), id: copy_text(aid), file: copy_text(&a.file), cited: copy_text(&s.file) });
                        assert(findings_view(diag.errors@) =~= e3.push(finding_view(diag.errors@.last())));
                    } else {
                        match crate::schema::LineRange::parse(a.lines.as_str()) {
                            Err(e) => {
                                return Err(e);
                            },
                            Ok(r) => {
                                if item.range.start < r.start || item.range.end > r.end {
                                    diag.error(Finding::CrossingOutside { step: copy_text(&s.id), file: copy_text(&s.file), lines: copy_text(&s.lines), id: copy_text(aid), claims: copy_text(&a.lines) });
                                    assert(findings_view(diag.errors@) =~= e3.push(finding_view(diag.errors@.last())));
                                } else {
                                    assert(findings_view(diag.errors@) =~= e3 + Seq::<FindingView>::empty());
                                }
                            },
                        }
                    }
                },
            }
        },
    }
    Ok(())
}

#[verifier::spinoff_prover]
fn check_emits(cases: &Vec<String>, u: &crate::schema::NarrativeUnit, s: &crate::schema::NarrativeStep, diag: &mut Diagnostics)
    ensures
        findings_view(final(diag).errors@) == findings_view(old(diag).errors@) + emits_findings(*u, *s, texts(cases@)),
        final(diag).warnings@ == old(diag).warnings@,
{
    let ghost e5 = findings_view(diag.errors@);
    let ghost pair: Seq<FindingView> = if s.emits is Some && s.emits_from is None {
        seq![FindingView::EmitsWithoutFrom(s.id@)]
    } else if s.emits is None && s.emits_from is Some {
        seq![FindingView::FromWithoutEmits(s.id@)]
    } else {
        Seq::empty()
    };
    if s.emits.is_some() && s.emits_from.is_none() {
        diag.error(Finding::EmitsWithoutFrom { step: copy_text(&s.id) });
        assert(findings_view(diag.errors@) =~= e5.push(finding_view(diag.errors@.last())));
    } else if s.emits.is_none() && s.emits_from.is_some() {
        diag.error(Finding::FromWithoutEmits { step: copy_text(&s.id) });
        assert(findings_view(diag.errors@) =~= e5.push(finding_view(diag.errors@.last())));
    }
    assert(findings_view(diag.errors@) =~= e5 + pair);
    let ghost e6 = findings_view(diag.errors@);
    let ghost case_spec = if s.emits_case is Some {
        opt_text(s.emits_case)
    } else {
        opt_text(u.expand_case)
    };
    let case = if s.emits_case.is_some() {
        opt_string_copy(&s.emits_case)
    } else {
        opt_string_copy(&u.expand_case)
    };
    assert(opt_text(case) == case_spec);
    let ghost mid: Seq<FindingView> = match case_spec {
        None => if s.emits is Some {
            seq![FindingView::NoCaseToQuote(s.id@, u.id@)]
        } else {
            Seq::empty()
        },
        Some(c) => if !texts(cases@).contains(c) {
            seq![FindingView::UnknownEmitsCase(s.id@, c)]
        } else {
            Seq::empty()
        },
    };
    match &case {
        None => {
            if s.emits.is_some() {
                diag.error(Finding::NoCaseToQuote { step: copy_text(&s.id), unit: copy_text(&u.id) });
                assert(findings_view(diag.errors@) =~= e6.push(finding_view(diag.errors@.last())));
            }
        },
        Some(c) => {
            if !contains_text(cases, c.as_str()) {
                diag.error(Finding::UnknownEmitsCase { step: copy_text(&s.id), case: copy_text(c) });
                assert(findings_view(diag.errors@) =~= e6.push(finding_view(diag.errors@.last())));
            }
        },
    }
    assert(findings_view(diag.errors@) =~= e6 + mid);
    let ghost e7 = findings_view(diag.errors@);
    let ghost last: Seq<FindingView> = if s.emits is None && s.emits_case is Some {
        seq![FindingView::CaseWithoutEmits(s.id@)]
    } else {
        Seq::empty()
    };
    if s.emits.is_none() && s.emits_case.is_some() {
        diag.error(Finding::CaseWithoutEmits { step: copy_text(&s.id) });
        assert(findings_view(diag.errors@) =~= e7.push(finding_view(diag.errors@.last())));
    }
    assert(findings_view(diag.errors@) =~= e7 + last);
    assert(emits_findings(*u, *s, texts(cases@)) == pair + mid + last);
    assert(findings_view(diag.errors@) =~= e5 + (pair + mid + last));
}

#[verifier::spinoff_prover]
#[verifier::rlimit(40)]
fn check_step(
    units: &Vec<crate::store::NarrativeItem>,
    flat: &Vec<(usize, &crate::store::NarrativeStepItem)>,
    anns: &Vec<crate::schema::Annotation>,
    glossary: &Vec<String>,
    cases: &Vec<String>,
    u: &crate::schema::NarrativeUnit,
    item: &crate::store::NarrativeStepItem,
    diag: &mut Diagnostics,
) -> (r: Result<(), crate::schema::RangeError>)
    requires
        walk_view(flat@) == walk(units@),
        forall|k: int| 0 <= k < flat@.len() ==> (#[trigger] flat@[k]).0 < units@.len(),
    ensures
        match step_fault(anns@, *item) {
            Some(e) => r == Err::<(), crate::schema::RangeError>(e),
            None => r is Ok && findings_view(final(diag).errors@) == findings_view(old(diag).errors@) + step_findings(units@, walk(units@), anns@, texts(glossary@), texts(cases@), *u, *item),
        },
        final(diag).warnings@ == old(diag).warnings@,
{
    let s = &item.step;
    let ghost e0 = findings_view(diag.errors@);
    let ghost g = texts(glossary@);
    let ghost c = texts(cases@);
    let ghost a: Seq<FindingView> = if crate::text::trim(s.title@).len() == 0 || crate::text::trim(s.body@).len() == 0 {
        seq![FindingView::EmptyStepText(s.id@)]
    } else {
        Seq::empty()
    };
    check_step_text(s, diag);
    check_glossary(s, glossary, diag);
    let ghost e2 = findings_view(diag.errors@);
    assert(e2 =~= e0 + (a + glossary_findings(s.id@, texts(s.glossary@), g)));
    check_leans(units, flat, s, diag);
    let ghost e3 = findings_view(diag.errors@);
    assert(e3 =~= e0 + (a + glossary_findings(s.id@, texts(s.glossary@), g) + leans_findings(units@, walk(units@), s.id@, texts(s.leans_on@))));
    let cr = check_crossing(anns, item, diag);
    if cr.is_err() {
        return cr;
    }
    let ghost e4 = findings_view(diag.errors@);
    let ghost p4 = a + glossary_findings(s.id@, texts(s.glossary@), g) + leans_findings(units@, walk(units@), s.id@, texts(s.leans_on@)) + crossing_findings(anns@, *item);
    assert(e4 =~= e0 + p4);
    let ghost na: Seq<FindingView> = if !item.is_coverage && s.annotation is Some {
        seq![FindingView::NotAnnotatedSource(s.id@, s.source@)]
    } else {
        Seq::empty()
    };
    if !item.is_coverage && s.annotation.is_some() {
        diag.error(Finding::NotAnnotatedSource { step: copy_text(&s.id), source: copy_text(&s.source) });
        assert(findings_view(diag.errors@) =~= e4.push(finding_view(diag.errors@.last())));
    } else {
        assert(findings_view(diag.errors@) =~= e4 + na);
    }
    let ghost e5 = findings_view(diag.errors@);
    assert(e5 =~= e0 + (p4 + na));
    check_emits(cases, u, s, diag);
    assert(findings_view(diag.errors@) =~= e0 + (p4 + na + emits_findings(*u, *s, c)));
    assert(step_findings(units@, walk(units@), anns@, g, c, *u, *item) == p4 + na + emits_findings(*u, *s, c));
    Ok(())
}

#[verifier::spinoff_prover]
fn check_unit_frame(item: &crate::store::NarrativeItem, cases: &Vec<String>, diag: &mut Diagnostics)
    ensures
        findings_view(final(diag).errors@) == findings_view(old(diag).errors@) + unit_frame_findings(*item, texts(cases@)),
        final(diag).warnings@ == old(diag).warnings@,
{
    let u = &item.unit;
    let ghost e0 = findings_view(diag.errors@);
    let t = crate::text::trimmed(chars_of(u.title.as_str()).as_slice());
    let m = crate::text::trimmed(chars_of(u.summary.as_str()).as_slice());
    let b = crate::text::trimmed(chars_of(u.body.as_str()).as_slice());
    let ghost a: Seq<FindingView> = if crate::text::trim(u.title@).len() == 0 || crate::text::trim(u.summary@).len() == 0 || crate::text::trim(u.body@).len() == 0 {
        seq![FindingView::EmptyNarrativeText(u.id@)]
    } else {
        Seq::empty()
    };
    if t.len() == 0 || m.len() == 0 || b.len() == 0 {
        diag.error(Finding::EmptyNarrativeText { unit: copy_text(&u.id) });
    }
    assert(findings_view(diag.errors@) =~= e0 + a);
    let ghost e1 = findings_view(diag.errors@);
    let ghost c: Seq<FindingView> = if item.steps@.len() == 0 {
        seq![FindingView::NoSteps(u.id@)]
    } else {
        Seq::empty()
    };
    if item.steps.len() == 0 {
        diag.error(Finding::NoSteps { unit: copy_text(&u.id) });
    }
    assert(findings_view(diag.errors@) =~= e1 + c);
    let ghost e2 = findings_view(diag.errors@);
    let ghost d: Seq<FindingView> = match opt_text(u.expand_case) {
        Some(x) => if !texts(cases@).contains(x) {
            seq![FindingView::UnknownExpandCase(u.id@, x)]
        } else {
            Seq::empty()
        },
        None => Seq::empty(),
    };
    match &u.expand_case {
        Some(x) => {
            if !contains_text(cases, x.as_str()) {
                diag.error(Finding::UnknownExpandCase { unit: copy_text(&u.id), case: copy_text(x) });
            }
        },
        None => {},
    }
    assert(findings_view(diag.errors@) =~= e2 + d);
    assert(findings_view(diag.errors@) =~= e0 + (a + c + d));
}

/// The step ranges are well formed: none is inverted.
pub open spec fn steps_ordered(steps: Seq<crate::store::NarrativeStepItem>) -> bool {
    forall|j: int| 0 <= j < steps.len() ==> (#[trigger] steps[j]).range.start <= steps[j].range.end
}

proof fn lemma_cited_prefix(steps: Seq<crate::store::NarrativeStepItem>, j: int)
    requires
        0 <= j <= steps.len(),
        steps_ordered(steps),
    ensures
        0 <= unit_cited(steps.take(j)) <= unit_cited(steps),
    decreases steps.len(),
{
    if j == steps.len() {
        assert(steps.take(j) =~= steps);
        lemma_cited_nonneg(steps);
    } else {
        assert(steps.take(j) =~= steps.drop_last().take(j));
        assert(steps_ordered(steps.drop_last())) by {
            assert forall|i: int| 0 <= i < steps.drop_last().len() implies (#[trigger] steps.drop_last()[i]).range.start <= steps.drop_last()[i].range.end by {
                assert(steps.drop_last()[i] == steps[i]);
            }
        }
        lemma_cited_prefix(steps.drop_last(), j);
        assert(steps.last() == steps[steps.len() - 1]);
    }
}

proof fn lemma_cited_nonneg(steps: Seq<crate::store::NarrativeStepItem>)
    requires
        steps_ordered(steps),
    ensures
        0 <= unit_cited(steps),
    decreases steps.len(),
{
    if steps.len() > 0 {
        assert(steps_ordered(steps.drop_last())) by {
            assert forall|i: int| 0 <= i < steps.drop_last().len() implies (#[trigger] steps.drop_last()[i]).range.start <= steps.drop_last()[i].range.end by {
                assert(steps.drop_last()[i] == steps[i]);
            }
        }
        lemma_cited_nonneg(steps.drop_last());
        assert(steps.last() == steps[steps.len() - 1]);
    }
}

proof fn lemma_walk_units(units: Seq<crate::store::NarrativeItem>)
    ensures
        forall|k: int| 0 <= k < walk(units).len() ==> 0 <= (#[trigger] walk(units)[k]).0 < units.len(),
    decreases units.len(),
{
    if units.len() > 0 {
        lemma_walk_units(units.drop_last());
        let i = units.len() - 1;
        let a = walk(units.drop_last());
        let b = units.last().steps@.map_values(|s: crate::store::NarrativeStepItem| (i, s));
        assert forall|k: int| 0 <= k < walk(units).len() implies 0 <= (#[trigger] walk(units)[k]).0 < units.len() by {
            if k < a.len() {
                assert(walk(units)[k] == a[k]);
            } else {
                assert(walk(units)[k] == b[k - a.len()]);
            }
        }
    }
}

fn check_unit_steps(
    units: &Vec<crate::store::NarrativeItem>,
    flat: &Vec<(usize, &crate::store::NarrativeStepItem)>,
    anns: &Vec<crate::schema::Annotation>,
    glossary: &Vec<String>,
    cases: &Vec<String>,
    ui: usize,
    diag: &mut Diagnostics,
) -> (r: Result<(u32, usize), crate::schema::RangeError>)
    requires
        ui < units@.len(),
        walk_view(flat@) == walk(units@),
        forall|k: int| 0 <= k < flat@.len() ==> (#[trigger] flat@[k]).0 < units@.len(),
        steps_ordered(units@[ui as int].steps@),
        unit_cited(units@[ui as int].steps@) <= u32::MAX,
    ensures
        match unit_pass(units@, anns@, texts(glossary@), texts(cases@), ui as int, units@[ui as int].steps@.len() as int) {
            Err(e) => r == Err::<(u32, usize), crate::schema::RangeError>(e),
            Ok((f, cr, cl)) => r matches Ok((c, n)) && c == cl && n == cr
                && findings_view(final(diag).errors@) == findings_view(old(diag).errors@) + f,
        },
        final(diag).warnings@ == old(diag).warnings@,
{
    let steps = &units[ui].steps;
    let u = &units[ui].unit;
    let ghost e0 = findings_view(diag.errors@);
    let ghost g = texts(glossary@);
    let ghost c = texts(cases@);
    let mut cited: u32 = 0;
    let mut crossings: usize = 0;
    let mut j: usize = 0;
    assert(steps@.take(0) =~= Seq::<crate::store::NarrativeStepItem>::empty());
    assert(findings_view(diag.errors@).skip(e0.len() as int) =~= Seq::<FindingView>::empty());
    assert(findings_view(diag.errors@).take(e0.len() as int) =~= e0);
    while j < steps.len()
        invariant
            ui < units@.len(),
            *steps == units@[ui as int].steps,
            *u == units@[ui as int].unit,
            j <= steps@.len(),
            walk_view(flat@) == walk(units@),
            forall|k: int| 0 <= k < flat@.len() ==> (#[trigger] flat@[k]).0 < units@.len(),
            steps_ordered(steps@),
            unit_cited(steps@) <= u32::MAX,
            g == texts(glossary@),
            c == texts(cases@),
            cited == unit_cited(steps@.take(j as int)),
            crossings <= j,
            unit_pass(units@, anns@, g, c, ui as int, j as int) == Ok::<(Seq<FindingView>, int, int), crate::schema::RangeError>((findings_view(diag.errors@).skip(e0.len() as int), crossings as int, cited as int)),
            findings_view(diag.errors@).take(e0.len() as int) == e0,
            e0.len() <= findings_view(diag.errors@).len(),
            diag.warnings@ == old(diag).warnings@,
        decreases steps@.len() - j,
    {
        let item = &steps[j];
        let ghost before = findings_view(diag.errors@);
        let res = check_step(units, flat, anns, glossary, cases, u, item, diag);
        match res {
            Err(e) => {
                proof {
                    lemma_unit_pass_stops(units@, anns@, g, c, ui as int, j + 1, steps@.len() as int);
                }
                return Err(e);
            },
            Ok(()) => {},
        }
        proof {
            lemma_cited_prefix(steps@, j + 1);
            assert(steps@.take(j + 1).drop_last() =~= steps@.take(j as int));
            assert(steps@.take(j + 1).last() == steps@[j as int]);
            assert(steps@[j as int].range.start <= steps@[j as int].range.end);
            let f = before.skip(e0.len() as int);
            let after = findings_view(diag.errors@);
            assert(after.skip(e0.len() as int) =~= f + step_findings(units@, walk(units@), anns@, g, c, *u, *item));
            assert(after.take(e0.len() as int) =~= e0);
        }
        cited = cited + (item.range.end - item.range.start + 1);
        if item.step.annotation.is_some() {
            crossings += 1;
        }
        j += 1;
    }
    assert(steps@.take(j as int) =~= steps@);
    assert(findings_view(diag.errors@) =~= e0 + findings_view(diag.errors@).skip(e0.len() as int));
    Ok((cited, crossings))
}

/// One narrative unit of the walk: its framing, then its steps, and its
/// report.
fn narrative_unit(
    units: &Vec<crate::store::NarrativeItem>,
    flat: &Vec<(usize, &crate::store::NarrativeStepItem)>,
    anns: &Vec<crate::schema::Annotation>,
    glossary: &Vec<String>,
    cases: &Vec<String>,
    i: usize,
    diag: &mut Diagnostics,
    out: &mut Vec<NarrativeUnitReport>,
) -> (r: Result<(), crate::schema::RangeError>)
    requires
        i < units@.len(),
        walk_view(flat@) == walk(units@),
        forall|k: int| 0 <= k < flat@.len() ==> (#[trigger] flat@[k]).0 < units@.len(),
        steps_ordered(units@[i as int].steps@),
        unit_cited(units@[i as int].steps@) <= u32::MAX,
    ensures
        match unit_pass(units@, anns@, texts(glossary@), texts(cases@), i as int, units@[i as int].steps@.len() as int) {
            Err(e) => r == Err::<(), crate::schema::RangeError>(e),
            Ok((sf, cr, cl)) => r is Ok
                && findings_view(final(diag).errors@) == findings_view(old(diag).errors@) + unit_frame_findings(units@[i as int], texts(cases@)) + sf
                && final(out)@.map_values(|x: NarrativeUnitReport| report_view(x)) == old(out)@.map_values(|x: NarrativeUnitReport| report_view(x)).push(
                    (units@[i as int].unit.id@, units@[i as int].unit.title@, units@[i as int].steps@.len() as int, cl, cr),
                ),
        },
        final(diag).warnings@ == old(diag).warnings@,
{
    let item = &units[i];
    let ghost before = findings_view(diag.errors@);
    check_unit_frame(item, cases, diag);
    let ghost mid = findings_view(diag.errors@);
    let res = check_unit_steps(units, flat, anns, glossary, cases, i, diag);
    match res {
        Err(e) => Err(e),
        Ok((cited, crossings)) => {
            let ghost o0 = out@.map_values(|x: NarrativeUnitReport| report_view(x));
            out.push(NarrativeUnitReport {
                id: copy_text(&item.unit.id),
                title: copy_text(&item.unit.title),
                steps: item.steps.len(),
                cited_lines: cited,
                crossings,
            });
            proof {
                assert(out@.map_values(|x: NarrativeUnitReport| report_view(x)) =~= o0.push((item.unit.id@, item.unit.title@, item.steps@.len() as int, cited as int, crossings as int)));
                let up = unit_pass(units@, anns@, texts(glossary@), texts(cases@), i as int, units@[i as int].steps@.len() as int);
                assert(up is Ok);
                let upf = up->Ok_0.0;
                assert(findings_view(diag.errors@) == mid + upf);
            }
            Ok(())
        },
    }
}

/// The narrative track's checks: step ids unique across the walk, units in
/// id order, each unit framed, and each step's text, glossary citations,
/// what it leans on, its crossing onto claimed ground and its claim about
/// emitted code. An empty narrative is nothing to check. `anns` holds every
/// annotation, a later one replacing an earlier one with the same id;
/// `cases` names the expansion inputs on disk.
#[verifier::spinoff_prover]
pub fn check_narrative(
    units: &Vec<crate::store::NarrativeItem>,
    anns: &Vec<crate::schema::Annotation>,
    glossary: &Vec<String>,
    cases: &Vec<String>,
    diag: &mut Diagnostics,
) -> (r: Result<Vec<NarrativeUnitReport>, crate::schema::RangeError>)
    requires
        forall|i: int| 0 <= i < units@.len() ==> steps_ordered(#[trigger] units@[i].steps@),
        forall|i: int| 0 <= i < units@.len() ==> unit_cited(#[trigger] units@[i].steps@) <= u32::MAX,
    ensures
        units@.len() == 0 ==> (r matches Ok(v) && v@.len() == 0 && final(diag).errors@ == old(diag).errors@),
        units@.len() > 0 ==> match walk_pass(units@, anns@, texts(glossary@), texts(cases@), units@.len() as int) {
            Err(e) => r matches Err(x) && x == e,
            Ok((f, reps)) => r matches Ok(v) && v@.map_values(|x: NarrativeUnitReport| report_view(x)) == reps
                && findings_view(final(diag).errors@) == findings_view(old(diag).errors@)
                    + dup_step_findings(walk(units@), walk(units@).len() as int)
                    + walk_order_findings(units@, units@.len() as int) + f,
        },
        final(diag).warnings@ == old(diag).warnings@,
{
    if units.len() == 0 {
        return Ok(Vec::new());
    }
    let ghost e0 = findings_view(diag.errors@);
    let ghost fv = walk(units@);
    let flat = walk_steps(units);
    proof {
        lemma_walk_units(units@);
        assert forall|k: int| 0 <= k < flat@.len() implies (#[trigger] flat@[k]).0 < units@.len() by {
            assert(walk_view(flat@)[k].0 == flat@[k].0 as int);
        }
    }
    // Step ids, once each across the walk.
    let mut k: usize = 0;
    while k < flat.len()
        invariant
            k <= flat@.len(),
            walk_view(flat@) == fv,
            fv == walk(units@),
            findings_view(diag.errors@) == e0 + dup_step_findings(fv, k as int),
            diag.warnings@ == old(diag).warnings@,
        decreases flat@.len() - k,
    {
        let id = &flat[k].1.step.id;
        assert(fv[k as int].1 == *flat@[k as int].1);
        let ghost d0 = findings_view(diag.errors@);
        match last_step_index(&flat, k, id.as_str()) {
            Some(_) => {
                diag.error(Finding::DuplicateStep { id: copy_text(id) });
                assert(findings_view(diag.errors@) =~= d0.push(finding_view(diag.errors@.last())));
            },
            None => {
                assert(findings_view(diag.errors@) =~= d0 + Seq::<FindingView>::empty());
            },
        }
        assert(fv.take(k as int) == walk_view(flat@).take(k as int));
        k += 1;
    }
    // Unit ids in order.
    let ghost e1 = findings_view(diag.errors@);
    let mut w: usize = 1;
    while w < units.len()
        invariant
            1 <= w <= units@.len(),
            findings_view(diag.errors@) == e1 + walk_order_findings(units@, w as int),
            diag.warnings@ == old(diag).warnings@,
        decreases units@.len() - w,
    {
        let ghost d0 = findings_view(diag.errors@);
        if !crate::text::lex_less(units[w - 1].unit.id.as_str(), units[w].unit.id.as_str()) {
            diag.error(Finding::NarrativeOutOfOrder { first: copy_text(&units[w - 1].unit.id), second: copy_text(&units[w].unit.id) });
            assert(findings_view(diag.errors@) =~= d0.push(finding_view(diag.errors@.last())));
        } else {
            assert(findings_view(diag.errors@) =~= d0 + Seq::<FindingView>::empty());
        }
        w += 1;
    }
    // Each unit and its steps.
    let ghost e2 = findings_view(diag.errors@);
    let ghost g = texts(glossary@);
    let ghost c = texts(cases@);
    let mut out: Vec<NarrativeUnitReport> = Vec::new();
    assert(findings_view(diag.errors@).skip(e2.len() as int) =~= Seq::<FindingView>::empty());
    assert(findings_view(diag.errors@).take(e2.len() as int) =~= e2);
    assert(out@.map_values(|x: NarrativeUnitReport| report_view(x)) =~= Seq::<(Seq<char>, Seq<char>, int, int, int)>::empty());
    let mut i: usize = 0;
    while i < units.len()
        invariant
            i <= units@.len(),
            walk_view(flat@) == walk(units@),
            forall|k: int| 0 <= k < flat@.len() ==> (#[trigger] flat@[k]).0 < units@.len(),
            forall|i: int| 0 <= i < units@.len() ==> steps_ordered(#[trigger] units@[i].steps@),
            forall|i: int| 0 <= i < units@.len() ==> unit_cited(#[trigger] units@[i].steps@) <= u32::MAX,
            g == texts(glossary@),
            c == texts(cases@),
            walk_pass(units@, anns@, g, c, i as int) == Ok::<(Seq<FindingView>, Seq<(Seq<char>, Seq<char>, int, int, int)>), crate::schema::RangeError>((findings_view(diag.errors@).skip(e2.len() as int), out@.map_values(|x: NarrativeUnitReport| report_view(x)))),
            findings_view(diag.errors@).take(e2.len() as int) == e2,
            e2.len() <= findings_view(diag.errors@).len(),
            diag.warnings@ == old(diag).warnings@,
        decreases units@.len() - i,
    {
        let ghost before = findings_view(diag.errors@);
        let ghost o0 = out@.map_values(|x: NarrativeUnitReport| report_view(x));
        let res = narrative_unit(units, &flat, anns, glossary, cases, i, diag, &mut out);
        match res {
            Err(e) => {
                proof {
                    lemma_walk_pass_stops(units@, anns@, g, c, i + 1, units@.len() as int);
                }
                return Err(e);
            },
            Ok(()) => {
                proof {
                    let after = findings_view(diag.errors@);
                    let item = units@[i as int];
                    let up = unit_pass(units@, anns@, g, c, i as int, item.steps@.len() as int);
                    let sf = up->Ok_0.0;
                    assert(after =~= before + unit_frame_findings(item, c) + sf);
                    assert(after.skip(e2.len() as int) =~= before.skip(e2.len() as int) + unit_frame_findings(item, c) + sf);
                    assert(after.take(e2.len() as int) =~= e2);
                }
            },
        }
        i += 1;
    }
    assert(findings_view(diag.errors@) =~= e2 + findings_view(diag.errors@).skip(e2.len() as int));
    Ok(out)
}

proof fn lemma_unit_pass_stops(
    units: Seq<crate::store::NarrativeItem>,
    anns: Seq<crate::schema::Annotation>,
    g: Seq<Seq<char>>,
    c: Seq<Seq<char>>,
    ui: int,
    j: int,
    n: int,
)
    requires
        unit_pass(units, anns, g, c, ui, j) is Err,
        0 < j <= n,
    ensures
        unit_pass(units, anns, g, c, ui, n) == unit_pass(units, anns, g, c, ui, j),
    decreases n - j,
{
    if j < n {
        lemma_unit_pass_stops(units, anns, g, c, ui, j, n - 1);
    }
}

proof fn lemma_walk_pass_stops(
    units: Seq<crate::store::NarrativeItem>,
    anns: Seq<crate::schema::Annotation>,
    g: Seq<Seq<char>>,
    c: Seq<Seq<char>>,
    k: int,
    n: int,
)
    requires
        walk_pass(units, anns, g, c, k) is Err,
        0 < k <= n,
    ensures
        walk_pass(units, anns, g, c, n) == walk_pass(units, anns, g, c, k),
    decreases n - k,
{
    if k < n {
        lemma_walk_pass_stops(units, anns, g, c, k, n - 1);
    }
}

proof fn lemma_last_step_bound(flat: Seq<(int, crate::store::NarrativeStepItem)>, id: Seq<char>)
    ensures
        -1 <= last_step(flat, id) < flat.len(),
    decreases flat.len(),
{
    if flat.len() > 0 {
        lemma_last_step_bound(flat.drop_last(), id);
    }
}

} // verus!
