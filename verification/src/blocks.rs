//! How one file's page is laid out: its annotations, the macro-use runs
//! among them and the gaps between them, each as a block; and the generated
//! code an annotation claims its span emits, quoted from a real expansion.
use crate::coverage::texts;
use crate::highlight::{balanced, pieces, HighlightError, Highlighter};
use crate::markdown::{markdown_html, render};
use crate::schema::{DeriveKind, Kind};
use crate::site::{
    gap, gap_ok, gloss_links, kind_label, kind_label_prefix, label, label_spec, lines_view, located_at, locate,
    macro_block, macro_block_ok, macro_run, continues_run, slice, slice_spec, wanted_lines, Block, EmitBlock,
    GlossLink, Line, MacroDef, Pages, GAP_PREVIEW_LINES,
};
use crate::store::Unit;
use crate::store_edit::{join_lines, join_nl};
use crate::text::{chars_of, copy_range, first_of, lines, split_lines, string_of, strip_cr, views};
use vstd::prelude::*;

verus! {

/// One expansion the build computed: what a derive emits for a case.
#[derive(Debug)]
pub struct Expansion {
    pub case: String,
    pub kind: DeriveKind,
    pub text: String,
}

/// Why a block could not be built.
#[derive(Debug)]
pub enum BlockError {
    /// No expansion was computed for the case and derive.
    NoExpansion { who: String, case: String },
    /// The code the claim says is emitted is not in the expansion.
    NotEmitted { who: String, derive: String, case: String },
    /// Highlighting the quoted expansion failed.
    Highlight { who: String, err: HighlightError },
}

/// The derive's name as written in `#[derive(..)]`.
pub open spec fn derive_name(k: DeriveKind) -> Seq<char> {
    match k {
        DeriveKind::Serialize => "Serialize"@,
        DeriveKind::Deserialize => "Deserialize"@,
    }
}

/// The position of the first expansion of `case` under `kind`, or -1.
pub open spec fn expansion_at(es: Seq<Expansion>, case: Seq<char>, kind: DeriveKind, k: int) -> int
    decreases k,
{
    if k <= 0 {
        -1
    } else if expansion_at(es, case, kind, k - 1) >= 0 {
        expansion_at(es, case, kind, k - 1)
    } else if es[k - 1].case@ == case && es[k - 1].kind == kind {
        k - 1
    } else {
        -1
    }
}

/// The expansion of `case` under `kind`, if one was computed.
pub open spec fn find_expansion_spec(es: Seq<Expansion>, case: Seq<char>, kind: DeriveKind) -> int {
    expansion_at(es, case, kind, es.len() as int)
}

/// `at` is where the snippet is first found in the text.
pub open spec fn first_located(text: Seq<char>, snippet: Seq<char>, at: int) -> bool {
    &&& located_at(text, snippet, at)
    &&& forall|k: int| 0 <= k < at ==> !located_at(text, snippet, k)
}

/// Highlighted lines renumbered to start after line `at`.
pub open spec fn renumbered(ls: Seq<(u32, Seq<char>)>, at: int) -> Seq<(u32, Seq<char>)> {
    ls.map(|i: int, x: (u32, Seq<char>)| ((at + i + 1) as u32, x.1))
}

/// The expansion's lines `at..at + n`, joined, as they are highlighted.
pub open spec fn quoted(text: Seq<char>, at: int, n: int) -> Seq<char> {
    join_nl(lines(text).subrange(at, at + n))
}

/// `b` quotes the `n` lines of the expansion from line `at`, highlighted
/// as a file of their own and numbered as they stand in the expansion.
pub open spec fn emitted_at(b: EmitBlock, text: Seq<char>, at: int, n: int, kind: DeriveKind, case: Seq<char>, hl: Highlighter) -> bool {
    &&& b.derive@ == derive_name(kind)
    &&& b.case@ == case
    &&& b.range_label@ == label_spec((at + 1) as u32, (at + n) as u32)
    &&& hl.classed(quoted(text, at, n)) matches Ok(raws) && lines_view(b.code@) == renumbered(balanced(raws), at)
}

/// Newlines in a text.
pub open spec fn count_nl(s: Seq<char>) -> nat
    decreases s.len(),
{
    if s.len() == 0 {
        0
    } else {
        count_nl(s.drop_last()) + if s.last() == '\n' {
            1nat
        } else {
            0nat
        }
    }
}

proof fn lemma_count_concat(a: Seq<char>, b: Seq<char>)
    ensures
        count_nl(a + b) == count_nl(a) + count_nl(b),
    decreases b.len(),
{
    if b.len() == 0 {
        assert(a + b =~= a);
    } else {
        assert((a + b).drop_last() =~= a + b.drop_last());
        lemma_count_concat(a, b.drop_last());
    }
}

proof fn lemma_count_none(s: Seq<char>)
    requires
        forall|i: int| 0 <= i < s.len() ==> s[i] != '\n',
    ensures
        count_nl(s) == 0,
    decreases s.len(),
{
    if s.len() > 0 {
        lemma_count_none(s.drop_last());
    }
}

proof fn lemma_first_of_facts(s: Seq<char>, c: char)
    ensures
        first_of(s, c) <= s.len(),
        forall|i: int| 0 <= i < first_of(s, c) ==> s[i] != c,
        first_of(s, c) < s.len() ==> s[first_of(s, c) as int] == c,
    decreases s.len(),
{
    if s.len() > 0 && s[0] != c {
        lemma_first_of_facts(s.drop_first(), c);
        assert forall|i: int| 0 <= i < first_of(s, c) implies s[i] != c by {
            if i > 0 {
                assert(s[i] == s.drop_first()[i - 1]);
            }
        }
    }
}

proof fn lemma_pieces_count(s: Seq<char>)
    ensures
        pieces(s).len() <= count_nl(s) + 1,
    decreases s.len(),
{
    if s.len() > 0 {
        let k = first_of(s, '\n');
        lemma_first_of_facts(s, '\n');
        if k < s.len() {
            lemma_pieces_count(s.skip(k as int + 1));
            assert(s =~= s.take(k as int + 1) + s.skip(k as int + 1));
            lemma_count_concat(s.take(k as int + 1), s.skip(k as int + 1));
            assert(s.take(k as int + 1).drop_last() =~= s.take(k as int));
        }
    }
}

/// No line of a text holds a newline.
pub open spec fn no_newlines(ls: Seq<Seq<char>>) -> bool {
    forall|j: int, i: int| 0 <= j < ls.len() && 0 <= i < ls[j].len() ==> #[trigger] ls[j][i] != '\n'
}

proof fn lemma_lines_no_newlines(s: Seq<char>)
    ensures
        no_newlines(lines(s)),
    decreases s.len(),
{
    if s.len() > 0 {
        let k = crate::text::first_newline(s);
        lemma_first_of_facts(s, '\n');
        if k < s.len() {
            lemma_lines_no_newlines(s.skip(k as int + 1));
            let head = strip_cr(s.take(k as int));
            assert forall|i: int| 0 <= i < head.len() implies head[i] != '\n' by {
                assert(head[i] == s[i]);
            }
            let ls = lines(s);
            assert(ls =~= seq![head] + lines(s.skip(k as int + 1)));
            assert forall|j: int, i: int| 0 <= j < ls.len() && 0 <= i < ls[j].len() implies #[trigger] ls[j][i] != '\n' by {
                if j > 0 {
                    assert(ls[j] == lines(s.skip(k as int + 1))[j - 1]);
                }
            }
        }
    }
}

proof fn lemma_join_count(ls: Seq<Seq<char>>)
    requires
        ls.len() > 0,
        no_newlines(ls),
    ensures
        count_nl(join_nl(ls)) == ls.len() - 1,
    decreases ls.len(),
{
    if ls.len() == 1 {
        lemma_count_none(ls[0]);
    } else {
        let d = ls.drop_last();
        assert forall|j: int, i: int| 0 <= j < d.len() && 0 <= i < d[j].len() implies #[trigger] d[j][i] != '\n' by {
            assert(d[j] == ls[j]);
        }
        lemma_join_count(d);
        assert forall|i: int| 0 <= i < ls.last().len() implies ls.last()[i] != '\n' by {
            assert(ls[ls.len() - 1][i] != '\n');
        }
        lemma_count_none(ls.last());
        assert(seq!['\n'].drop_last() =~= Seq::<char>::empty());
        assert(count_nl(Seq::<char>::empty()) == 0);
        assert(count_nl(seq!['\n']) == 1);
        lemma_count_concat(join_nl(d) + seq!['\n'], ls.last());
        lemma_count_concat(join_nl(d), seq!['\n']);
    }
}

proof fn lemma_quoted_pieces(text: Seq<char>, at: int, n: int)
    requires
        0 <= at,
        0 < n,
        at + n <= lines(text).len(),
    ensures
        pieces(quoted(text, at, n)).len() <= n,
{
    let sub = lines(text).subrange(at, at + n);
    lemma_lines_no_newlines(text);
    assert forall|j: int, i: int| 0 <= j < sub.len() && 0 <= i < sub[j].len() implies #[trigger] sub[j][i] != '\n' by {
        assert(sub[j] == lines(text)[at + j]);
    }
    lemma_join_count(sub);
    lemma_pieces_count(join_nl(sub));
}

/// The first expansion of `case` under `kind`.
fn find_expansion(expansions: &[Expansion], case: &str, kind: DeriveKind) -> (r: Option<usize>)
    ensures
        match r {
            Some(j) => j == find_expansion_spec(expansions@, case@, kind) && j < expansions@.len(),
            None => find_expansion_spec(expansions@, case@, kind) < 0,
        },
{
    let mut k: usize = 0;
    while k < expansions.len()
        invariant
            k <= expansions@.len(),
            expansion_at(expansions@, case@, kind, k as int) < 0,
        decreases expansions@.len() - k,
    {
        if expansions[k].kind == kind && crate::text::str_eq(expansions[k].case.as_str(), case) {
            proof {
                lemma_expansion_stays(expansions@, case@, kind, k + 1, expansions@.len() as int);
            }
            return Some(k);
        }
        k += 1;
    }
    None
}

proof fn lemma_expansion_stays(es: Seq<Expansion>, case: Seq<char>, kind: DeriveKind, k: int, n: int)
    requires
        0 < k <= n,
        expansion_at(es, case, kind, k) >= 0,
    ensures
        expansion_at(es, case, kind, n) == expansion_at(es, case, kind, k),
    decreases n - k,
{
    if k < n {
        lemma_expansion_stays(es, case, kind, k, n - 1);
    }
}

fn copy_str(s: &str) -> (r: String)
    ensures
        r@ == s@,
{
    string_of(chars_of(s).as_slice())
}

/// What `emit_block` gives for a claim: an error naming the claimant when
/// no expansion was computed for the case, when the snippet is not in it or
/// when highlighting fails; otherwise the quoted lines where the snippet is
/// first found.
pub open spec fn emit_result(
    r: Result<EmitBlock, BlockError>,
    expansions: Seq<Expansion>,
    who: Seq<char>,
    snippet: Seq<char>,
    kind: DeriveKind,
    case: Seq<char>,
    hl: Highlighter,
) -> bool {
    let j = find_expansion_spec(expansions, case, kind);
    match r {
        Err(BlockError::NoExpansion { who: w, case: c }) => j < 0 && w@ == who && c@ == case,
        Err(BlockError::NotEmitted { who: w, derive: d, case: c }) => j >= 0 && w@ == who && d@ == derive_name(kind)
            && c@ == case && (wanted_lines(snippet).len() == 0 || forall|k: int| !located_at(expansions[j].text@, snippet, k)),
        Err(BlockError::Highlight { who: w, err }) => j >= 0 && w@ == who && wanted_lines(snippet).len() > 0
            && exists|at: int| #[trigger] first_located(expansions[j].text@, snippet, at)
                && hl.classed(quoted(expansions[j].text@, at, wanted_lines(snippet).len() as int)) == Err::<Seq<Seq<char>>, HighlightError>(err),
        Ok(b) => j >= 0 && wanted_lines(snippet).len() > 0 && exists|at: int|
            #[trigger] first_located(expansions[j].text@, snippet, at) && emitted_at(
                b,
                expansions[j].text@,
                at,
                wanted_lines(snippet).len() as int,
                kind,
                case,
                hl,
            ),
    }
}

/// Every expansion has fewer lines than a line number can count.
pub open spec fn expansions_fit(expansions: Seq<Expansion>) -> bool {
    forall|j: int| 0 <= j < expansions.len() ==> lines(#[trigger] expansions[j].text@).len() < u32::MAX
}

/// One claim about generated code, quoted from the expansion rather than
/// from the claim: the snippet is found in the expansion of `case` under
/// `kind` as `locate` finds it, and those lines of the expansion are
/// highlighted and numbered as they stand there. `who` names whatever made
/// the claim, for the error when the crate has stopped emitting it.
pub fn emit_block(
    expansions: &[Expansion],
    hl: &Highlighter,
    who: &str,
    snippet: &str,
    kind: DeriveKind,
    case: &str,
) -> (r: Result<EmitBlock, BlockError>)
    requires
        expansions_fit(expansions@),
    ensures
        emit_result(r, expansions@, who@, snippet@, kind, case@, *hl),
{
    let j = match find_expansion(expansions, case, kind) {
        Some(j) => j,
        None => return Err(BlockError::NoExpansion { who: copy_str(who), case: copy_str(case) }),
    };
    let expansion = &expansions[j].text;
    let (start, len) = match locate(expansion.as_str(), snippet) {
        Some(found) => found,
        None => {
            return Err(BlockError::NotEmitted {
                who: copy_str(who),
                derive: copy_str(kind.label()),
                case: copy_str(case),
            });
        },
    };
    let ghost text = expansion@;
    assert(first_located(text, snippet@, start as int));
    assert(lines(text).len() < u32::MAX);
    assert(crate::site::trimmed_lines(text).len() == lines(text).len());
    let all = split_lines(chars_of(expansion.as_str()).as_slice());
    let mut sub: Vec<Vec<char>> = Vec::new();
    let stop = start + len;
    let mut k: usize = start;
    while k < stop
        invariant
            stop == start + len,
            start <= k <= stop <= all@.len(),
            views(all@) == lines(text),
            views(sub@) == lines(text).subrange(start as int, k as int),
        decreases stop - k,
    {
        let ghost before = views(sub@);
        sub.push(copy_range(all[k].as_slice(), 0, all[k].len()));
        assert(all[k as int]@.subrange(0, all[k as int]@.len() as int) =~= all[k as int]@);
        assert(views(sub@) =~= before.push(lines(text)[k as int]));
        k += 1;
    }
    let block = string_of(join_lines(&sub).as_slice());
    proof {
        lemma_quoted_pieces(text, start as int, len as int);
    }
    assert(block@ == quoted(text, start as int, len as int));
    let mut code = match hl.file(block.as_str()) {
        Ok(code) => code,
        Err(e) => {
            assert(first_located(text, snippet@, start as int));
            return Err(BlockError::Highlight { who: copy_str(who), err: e });
        },
    };
    let ghost hl_view = lines_view(code@);
    let ghost raws = hl.classed(block@)->Ok_0;
    proof {
        hl.lemma_classed(block@);
        crate::highlight::lemma_balanced_len(Seq::empty(), raws, 1);
    }
    let n = code.len();
    let mut i: usize = 0;
    while i < n
        invariant
            i <= n == code@.len() == hl_view.len(),
            start + hl_view.len() <= start + len < u32::MAX,
            lines_view(code@) == renumbered(hl_view, start as int).take(i as int) + hl_view.skip(i as int),
        decreases n - i,
    {
        let ghost before = code@;
        code[i].number = (start + i + 1) as u32;
        assert(code@.len() == before.len());
        assert(forall|k: int| 0 <= k < code@.len() && k != i ==> code@[k] == before[k]);
        assert(code@[i as int].html == before[i as int].html);
        assert(lines_view(before)[i as int] == hl_view[i as int]);
        assert(crate::site::line_view(code@[i as int]) == renumbered(hl_view, start as int)[i as int]);
        let ghost want = renumbered(hl_view, start as int).take(i + 1) + hl_view.skip(i + 1);
        assert forall|k: int| 0 <= k < code@.len() implies lines_view(code@)[k] == want[k] by {
            if k < i {
                assert(lines_view(before)[k] == renumbered(hl_view, start as int)[k]);
            } else if k > i {
                assert(lines_view(before)[k] == hl_view[k]);
            }
        }
        assert(lines_view(code@) =~= want);
        i += 1;
    }
    assert(lines_view(code@) =~= renumbered(hl_view, start as int));
    let b = EmitBlock {
        derive: copy_str(kind.label()),
        case: copy_str(case),
        range_label: label((start + 1) as u32, (start + len) as u32),
        code,
    };
    assert(emitted_at(b, text, start as int, len as int, kind, case@, *hl));
    Ok(b)
}

/// A kind's name as `{:?}` writes it.
pub open spec fn kind_debug(k: Kind) -> Seq<char> {
    match k {
        Kind::TraitItem => "TraitItem"@,
        Kind::MacroDef => "MacroDef"@,
        Kind::MacroUse => "MacroUse"@,
        Kind::Impl => "Impl"@,
        Kind::DocContract => "DocContract"@,
        Kind::Plumbing => "Plumbing"@,
        Kind::CfgGate => "CfgGate"@,
    }
}

/// A kind's name as `{:?}` writes it.
pub fn kind_debug_name(k: Kind) -> (r: &'static str)
    ensures
        r@ == kind_debug(k),
{
    match k {
        Kind::TraitItem => "TraitItem",
        Kind::MacroDef => "MacroDef",
        Kind::MacroUse => "MacroUse",
        Kind::Impl => "Impl",
        Kind::DocContract => "DocContract",
        Kind::Plumbing => "Plumbing",
        Kind::CfgGate => "CfgGate",
    }
}

/// The claim a unit makes about generated code: snippet, derive and case,
/// when it states all three.
pub open spec fn claim(u: Unit) -> Option<(Seq<char>, DeriveKind, Seq<char>)> {
    match (u.annotation.emits, u.annotation.emits_from, u.annotation.emits_case) {
        (Some(s), Some(k), Some(c)) => Some((s@, k, c@)),
        _ => None,
    }
}

/// The glossary links of `ids`, one per id, in order.
pub open spec fn gloss_ok(g: Seq<GlossLink>, ids: Seq<String>) -> bool {
    &&& g.len() == ids.len()
    &&& forall|i: int| 0 <= i < ids.len() ==> (#[trigger] g[i]).id@ == ids[i]@
        && g[i].anchor@ == crate::text::replace_all(ids[i]@, seq![':', ':'], seq!['-'])
}

/// `b` shows one annotation over its lines, with its prose rendered and
/// its claim about generated code, if it makes one, quoted; whatever links
/// it to a macro definition aside.
pub open spec fn annotated_core(b: Block, u: Unit, highlighted: Seq<Line>, expansions: Seq<Expansion>, hl: Highlighter) -> bool {
    let a = u.annotation;
    &&& b.annotated && b.hidden_lines == 0
    &&& b.id@ == a.id@ && b.title@ == a.title@
    &&& b.kind@ == kind_label_prefix(kind_debug(a.kind), kind_debug(a.kind).len() as int)
    &&& b.range_label@ == label_spec(u.range.start, u.range.end)
    &&& b.body_html@ == markdown_html(a.body@)
    &&& lines_view(b.code@) == slice_spec(highlighted, u.range.start, u.range.end)
    &&& texts(b.features@) == texts(a.rust_features@) && texts(b.examples@) == texts(a.examples@)
    &&& b.uses@.len() == 0
    &&& gloss_ok(b.glossary@, a.glossary@)
    &&& match claim(u) {
        None => b.emits@.len() == 0,
        Some((snippet, kind, case)) => b.emits@.len() == 1
            && emit_result(Ok(b.emits@[0]), expansions, a.id@, snippet, kind, case, hl),
    }
}

/// `b` shows one annotation, linked to nothing.
pub open spec fn annotated_ok(b: Block, u: Unit, highlighted: Seq<Line>, expansions: Seq<Expansion>, hl: Highlighter) -> bool {
    &&& annotated_core(b, u, highlighted, expansions, hl)
    &&& b.expands_name@.len() == 0 && b.expands_href@.len() == 0
}

/// What `annotated` gives for a unit.
pub open spec fn annotated_result(
    r: Result<Block, BlockError>,
    u: Unit,
    highlighted: Seq<Line>,
    expansions: Seq<Expansion>,
    hl: Highlighter,
) -> bool {
    match r {
        Ok(b) => annotated_ok(b, u, highlighted, expansions, hl),
        Err(e) => match claim(u) {
            None => false,
            Some((snippet, kind, case)) => emit_result(Err(e), expansions, u.annotation.id@, snippet, kind, case, hl),
        },
    }
}

fn copy_texts(v: &Vec<String>) -> (r: Vec<String>)
    ensures
        texts(r@) == texts(v@),
{
    let mut r: Vec<String> = Vec::new();
    let mut k: usize = 0;
    while k < v.len()
        invariant
            k <= v@.len(),
            texts(r@) == texts(v@).take(k as int),
        decreases v@.len() - k,
    {
        let ghost before = texts(r@);
        r.push(crate::coverage::copy_text(&v[k]));
        assert(texts(r@) =~= before.push(v@[k as int]@));
        assert(texts(v@).take(k + 1) =~= texts(v@).take(k as int).push(v@[k as int]@));
        k += 1;
    }
    assert(texts(v@).take(k as int) =~= texts(v@));
    r
}

/// One annotation as a block: its title, kind, lines and rendered prose,
/// and, for a claim about generated code, the quoted expansion.
pub fn annotated(unit: &Unit, highlighted: &[Line], expansions: &[Expansion], hl: &Highlighter) -> (r: Result<Block, BlockError>)
    requires
        expansions_fit(expansions@),
    ensures
        annotated_result(r, *unit, highlighted@, expansions@, *hl),
{
    let a = &unit.annotation;
    let mut emits: Vec<EmitBlock> = Vec::new();
    match (&a.emits, &a.emits_from, &a.emits_case) {
        (Some(snippet), Some(kind), Some(case)) => {
            match emit_block(expansions, hl, a.id.as_str(), snippet.as_str(), *kind, case.as_str()) {
                Ok(e) => emits.push(e),
                Err(e) => return Err(e),
            }
        },
        _ => {},
    }
    let b = Block {
        annotated: true,
        hidden_lines: 0,
        id: crate::coverage::copy_text(&a.id),
        title: crate::coverage::copy_text(&a.title),
        kind: kind_label(kind_debug_name(a.kind)),
        range_label: label(unit.range.start, unit.range.end),
        body_html: render(a.body.as_str()),
        code: slice(highlighted, unit.range.start, unit.range.end),
        features: copy_texts(&a.rust_features),
        examples: copy_texts(&a.examples),
        expands_name: String::new(),
        expands_href: String::new(),
        uses: Vec::new(),
        glossary: gloss_links(a.glossary.as_slice()),
        emits,
    };
    assert(b.expands_name@ =~= Seq::<char>::empty());
    assert(b.expands_href@ =~= Seq::<char>::empty());
    Ok(b)
}

/// One piece of a file's page, by position in its units.
pub enum Piece {
    /// Unannotated lines `start..=end`.
    Gap(u32, u32),
    /// Units `i..i + n`, one macro-use block.
    Run(int, int),
    /// Unit `i`, alone.
    Single(int),
}

/// The length of the macro-use run from unit `i`, counting from `m`.
pub open spec fn run_from(units: Seq<Unit>, i: int, m: int) -> int
    decreases units.len() - m,
{
    if 0 <= m < units.len() && continues_run(units, i, m) {
        run_from(units, i, m + 1)
    } else {
        m - i
    }
}

/// How many units from `i` share one block: the contiguous run of uses of
/// one definition, or 1 for anything that is not a macro use.
pub open spec fn run_len(units: Seq<Unit>, i: int) -> int {
    if units[i].annotation.kind == Kind::MacroUse {
        run_from(units, i, i + 1)
    } else {
        1
    }
}

/// The larger of two line numbers.
pub open spec fn max_u32(a: u32, b: u32) -> u32 {
    if a >= b {
        a
    } else {
        b
    }
}

/// The pieces of a page from unit `i` on, `cursor` being the first line
/// not yet shown: a gap before each unit that starts past it, one piece per
/// unit or macro-use run, and a gap for the lines after the last.
pub open spec fn layout(units: Seq<Unit>, total: u32, cursor: u32, i: int) -> Seq<Piece>
    decreases units.len() - i,
{
    if i < 0 || i >= units.len() {
        if cursor <= total {
            seq![Piece::Gap(cursor, total)]
        } else {
            Seq::empty()
        }
    } else {
        let u = units[i];
        let run = run_len(units, i);
        if run < 1 || i + run > units.len() {
            Seq::empty()
        } else {
            let pre = if u.range.start > cursor {
                seq![Piece::Gap(cursor, (u.range.start - 1) as u32)]
            } else {
                Seq::empty()
            };
            let piece = if run > 1 || u.annotation.kind == Kind::MacroUse {
                Piece::Run(i, run)
            } else {
                Piece::Single(i)
            };
            pre + seq![piece] + layout(units, total, max_u32(cursor, (units[i + run - 1].range.end + 1) as u32), i + run)
        }
    }
}

/// `b` is what `p` shows.
pub open spec fn piece_ok(
    b: Block,
    p: Piece,
    units: Seq<Unit>,
    highlighted: Seq<Line>,
    defs: Seq<(String, MacroDef)>,
    pages: Pages,
    file: Seq<char>,
    expansions: Seq<Expansion>,
    hl: Highlighter,
) -> bool {
    match p {
        Piece::Gap(start, end) => gap_ok(b, start, end, highlighted),
        Piece::Run(i, n) => macro_block_ok(b, units.subrange(i, i + n), highlighted, defs, pages, file),
        Piece::Single(i) => annotated_ok(b, units[i], highlighted, expansions, hl),
    }
}

/// Unit ranges a page can lay out: well formed, and ending early enough
/// that the lines after them can be counted and previewed.
pub open spec fn units_fit(units: Seq<Unit>) -> bool {
    forall|i: int| 0 <= i < units.len() ==> 1 <= (#[trigger] units[i]).range.start <= units[i].range.end
        && units[i].range.end + GAP_PREVIEW_LINES + 1 <= u32::MAX
}

proof fn lemma_run_from(units: Seq<Unit>, i: int, m: int, n: int)
    requires
        0 <= i < m <= i + n <= units.len(),
        forall|k: int| m <= k < i + n ==> continues_run(units, i, k),
        i + n < units.len() ==> !continues_run(units, i, i + n),
    ensures
        run_from(units, i, m) == n,
    decreases i + n - m,
{
    if m < i + n {
        lemma_run_from(units, i, m + 1, n);
    }
}

/// A file's page, block by block: each unit or macro-use run as a block,
/// and the unannotated lines before, between and after them as gaps, all
/// laid out as `layout` says. `units` are the file's units in line order
/// and `highlighted` its lines.
pub fn blocks_for(
    units: &[Unit],
    highlighted: &[Line],
    defs: &[(String, MacroDef)],
    pages: &Pages,
    expansions: &[Expansion],
    hl: &Highlighter,
    file: &str,
) -> (r: Result<Vec<Block>, BlockError>)
    requires
        units_fit(units@),
        highlighted@.len() + GAP_PREVIEW_LINES + 1 <= u32::MAX,
        expansions_fit(expansions@),
    ensures
        ({
            let pieces = layout(units@, highlighted@.len() as u32, 1, 0);
            match r {
                Ok(blocks) => blocks@.len() == pieces.len() && forall|k: int|
                    0 <= k < pieces.len() ==> piece_ok(
                        #[trigger] blocks@[k],
                        pieces[k],
                        units@,
                        highlighted@,
                        defs@,
                        *pages,
                        file@,
                        expansions@,
                        *hl,
                    ),
                Err(e) => exists|i: int|
                    0 <= i < units@.len() && #[trigger] annotated_result(Err(e), units@[i], highlighted@, expansions@, *hl),
            }
        }),
{
    let total = highlighted.len() as u32;
    let ghost all = layout(units@, total, 1, 0);
    let ghost done: Seq<Piece> = Seq::empty();
    let mut blocks: Vec<Block> = Vec::new();
    let mut cursor: u32 = 1;
    let mut i: usize = 0;
    while i < units.len()
        invariant
            i <= units@.len(),
            total == highlighted@.len(),
            units_fit(units@),
            expansions_fit(expansions@),
            highlighted@.len() + GAP_PREVIEW_LINES + 1 <= u32::MAX,
            1 <= cursor,
            cursor + GAP_PREVIEW_LINES <= u32::MAX,
            all == layout(units@, total, 1, 0),
            all == done + layout(units@, total, cursor, i as int),
            blocks@.len() == done.len(),
            forall|k: int| 0 <= k < done.len() ==> piece_ok(#[trigger] blocks@[k], done[k], units@, highlighted@, defs@, *pages, file@, expansions@, *hl),
        decreases units@.len() - i,
    {
        let unit = &units[i];
        let run = macro_run(units, i);
        proof {
            if units@[i as int].annotation.kind == Kind::MacroUse {
                lemma_run_from(units@, i as int, i + 1, run as int);
            }
            assert(run_len(units@, i as int) == run);
            assert(units@[i as int].range.start <= units@[i as int].range.end);
        }
        let ghost rest = layout(units@, total, cursor, i as int);
        let ghost pre = if unit.range.start > cursor {
            seq![Piece::Gap(cursor, (unit.range.start - 1) as u32)]
        } else {
            Seq::<Piece>::empty()
        };
        let ghost piece = if run > 1 || unit.annotation.kind == Kind::MacroUse {
            Piece::Run(i as int, run as int)
        } else {
            Piece::Single(i as int)
        };
        let last_end = units[i + run - 1].range.end;
        proof {
            assert(units_fit(units@));
            assert(1 <= units@[i + run - 1].range.start <= last_end);
        }
        let next_cursor: u32 = if cursor >= last_end + 1 { cursor } else { last_end + 1 };
        assert(rest == pre + seq![piece] + layout(units@, total, next_cursor, i + run));
        if unit.range.start > cursor {
            let g = gap(cursor, unit.range.start - 1, highlighted);
            blocks.push(g);
            proof {
                done = done.push(Piece::Gap(cursor, (unit.range.start - 1) as u32));
            }
        }
        let b = if run > 1 || unit.annotation.kind == Kind::MacroUse {
            let b = macro_block(&units[i..i + run], highlighted, defs, pages, file);
            assert(units@.subrange(i as int, i + run) =~= units@.subrange(i as int, (i + run) as int));
            b
        } else {
            match annotated(unit, highlighted, expansions, hl) {
                Ok(b) => b,
                Err(e) => {
                    assert(annotated_result(Err(e), units@[i as int], highlighted@, expansions@, *hl));
                    return Err(e);
                },
            }
        };
        blocks.push(b);
        proof {
            done = done.push(piece);
            assert(all =~= done + layout(units@, total, next_cursor, i + run));
        }
        cursor = next_cursor;
        i += run;
    }
    if cursor <= total {
        let g = gap(cursor, total, highlighted);
        blocks.push(g);
        proof {
            done = done.push(Piece::Gap(cursor, total));
        }
    }
    assert(all =~= done);
    Ok(blocks)
}

} // verus!
