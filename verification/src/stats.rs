//! Structural inventory of a source tree: per file, how many lines are doc,
//! code, items, macro definitions and uses, and `quote!` invocations, and
//! from those an estimate of how many annotations the file will take.
use crate::text::{chars_of, first_of, lines, split_lines, string_of, trim_start, views};
use vstd::prelude::*;

verus! {

/// How often `pat` occurs in `s`, left to right without overlap
/// (`str::matches(..).count()`, for a non-empty pattern).
pub open spec fn count_matches(s: Seq<char>, pat: Seq<char>) -> nat
    decreases s.len(),
{
    if s.len() == 0 || pat.len() == 0 {
        0
    } else if pat.is_prefix_of(s) {
        1 + count_matches(s.skip(pat.len() as int), pat)
    } else {
        count_matches(s.drop_first(), pat)
    }
}

proof fn lemma_count_bound(s: Seq<char>, pat: Seq<char>)
    ensures
        count_matches(s, pat) <= s.len(),
    decreases s.len(),
{
    if s.len() > 0 && pat.len() > 0 {
        if pat.is_prefix_of(s) {
            lemma_count_bound(s.skip(pat.len() as int), pat);
        } else {
            lemma_count_bound(s.drop_first(), pat);
        }
    }
}

fn starts(s: &[char], p: &str) -> (r: bool)
    ensures
        r == p@.is_prefix_of(s@),
{
    let pc = chars_of(p);
    if pc.len() > s.len() {
        return false;
    }
    let mut k: usize = 0;
    while k < pc.len()
        invariant
            pc@ == p@,
            pc@.len() <= s@.len(),
            k <= pc@.len(),
            forall|m: int| 0 <= m < k ==> s@[m] == pc@[m],
        decreases pc@.len() - k,
    {
        if s[k] != pc[k] {
            return false;
        }
        k += 1;
    }
    true
}

/// `str::matches(pat).count()` on characters.
fn count_in(s: &[char], pat: &str) -> (r: usize)
    requires
        pat@.len() > 0,
    ensures
        r == count_matches(s@, pat@),
{
    let pc = chars_of(pat);
    let len = s.len();
    let mut i: usize = 0;
    let mut n: usize = 0;
    assert(s@.skip(0) =~= s@);
    while i < s.len()
        invariant
            i <= s@.len(),
            len == s@.len(),
            pc@ == pat@,
            pc@.len() > 0,
            n + count_matches(s@.skip(i as int), pat@) == count_matches(s@, pat@),
            n <= i,
        decreases s@.len() - i,
    {
        let mut hit = pc.len() <= s.len() - i;
        let mut k: usize = 0;
        while hit && k < pc.len()
            invariant
                k <= pc@.len(),
                pc@ == pat@,
                len == s@.len(),
                hit ==> i + pc@.len() <= s@.len(),
                hit ==> forall|m: int| 0 <= m < k ==> s@[i + m] == pc@[m],
                !hit ==> !pat@.is_prefix_of(s@.skip(i as int)),
            decreases pc@.len() - k,
        {
            if s[i + k] != pc[k] {
                hit = false;
                assert(s@.skip(i as int).subrange(0, pc@.len() as int)[k as int] != pc@[k as int]);
            }
            k += 1;
        }
        let ghost t = s@.skip(i as int);
        if hit {
            assert(pat@ =~= t.subrange(0, pat@.len() as int));
            assert(t.skip(pat@.len() as int) =~= s@.skip(i + pc@.len()));
            proof {
                lemma_count_bound(t.skip(pat@.len() as int), pat@);
            }
            n += 1;
            i = i + pc.len();
        } else {
            assert(t.drop_first() =~= s@.skip(i + 1));
            i += 1;
        }
    }
    assert(s@.skip(i as int) =~= Seq::<char>::empty());
    n
}

/// An ASCII letter, digit or underscore.
pub open spec fn word_char(c: char) -> bool {
    ('a' <= c && c <= 'z') || ('A' <= c && c <= 'Z') || ('0' <= c && c <= '9') || c == '_'
}

/// A macro invocation: a name of word characters, a `!`, and, after any
/// whitespace, an opening bracket.
pub open spec fn macro_use_spec(t: Seq<char>) -> bool {
    let bang = first_of(t, '!');
    &&& bang < t.len()
    &&& bang > 0
    &&& forall|i: int| 0 <= i < bang ==> word_char(#[trigger] t[i])
    &&& {
        let rest = trim_start(t.skip(bang as int + 1));
        rest.len() > 0 && (rest[0] == '{' || rest[0] == '(' || rest[0] == '[')
    }
}

pub(crate) fn trim_start_from(s: &[char], p: usize) -> (r: usize)
    requires
        p <= s@.len(),
    ensures
        p <= r <= s@.len(),
        trim_start(s@.skip(p as int)) == s@.skip(r as int),
{
    let mut k: usize = p;
    while k < s.len() && crate::text::is_whitespace(s[k])
        invariant
            p <= k <= s@.len(),
            trim_start(s@.skip(p as int)) == trim_start(s@.skip(k as int)),
        decreases s@.len() - k,
    {
        assert(s@.skip(k as int).drop_first() =~= s@.skip(k + 1));
        k += 1;
    }
    if k < s.len() {
        assert(s@.skip(k as int)[0] == s@[k as int]);
    } else {
        assert(s@.skip(k as int).len() == 0);
    }
    k
}

/// Whether a trimmed line invokes a macro.
pub fn is_macro_use(t: &[char]) -> (r: bool)
    ensures
        r == macro_use_spec(t@),
{
    let bang = crate::text::find_char(t, '!');
    if bang >= t.len() || bang == 0 {
        return false;
    }
    let mut i: usize = 0;
    while i < bang
        invariant
            bang < t@.len(),
            bang == first_of(t@, '!'),
            i <= bang,
            forall|m: int| 0 <= m < i ==> word_char(#[trigger] t@[m]),
        decreases bang - i,
    {
        let c = t[i];
        if !(('a' <= c && c <= 'z') || ('A' <= c && c <= 'Z') || ('0' <= c && c <= '9') || c == '_') {
            assert(!word_char(t@[i as int]));
            return false;
        }
        i += 1;
    }
    let k = trim_start_from(t, bang + 1);
    k < t.len() && (t[k] == '{' || t[k] == '(' || t[k] == '[')
}

/// A line with its `pub(crate) ` or `pub ` prefix, then its `unsafe `
/// prefix, taken off.
pub open spec fn item_head(t: Seq<char>) -> Seq<char> {
    let a = if "pub(crate) "@.is_prefix_of(t) {
        t.skip(11)
    } else if "pub "@.is_prefix_of(t) {
        t.skip(4)
    } else {
        t
    };
    if "unsafe "@.is_prefix_of(a) {
        a.skip(7)
    } else {
        a
    }
}

/// A trimmed line that starts an item.
pub open spec fn item_spec(t: Seq<char>) -> bool {
    let h = item_head(t);
    ||| "fn "@.is_prefix_of(h)
    ||| "struct "@.is_prefix_of(h)
    ||| "enum "@.is_prefix_of(h)
    ||| "trait "@.is_prefix_of(h)
    ||| "impl "@.is_prefix_of(h)
    ||| "const "@.is_prefix_of(h)
    ||| "type "@.is_prefix_of(h)
    ||| "mod "@.is_prefix_of(h)
    ||| "macro_rules!"@.is_prefix_of(h)
}

/// Whether a trimmed line starts an item.
pub fn is_item(t: &[char]) -> (r: bool)
    ensures
        r == item_spec(t@),
{
    proof {
        reveal_strlit("pub(crate) ");
        reveal_strlit("pub ");
        reveal_strlit("unsafe ");
    }
    let a: Vec<char> = if starts(t, "pub(crate) ") {
        crate::text::copy_range(t, 11, t.len())
    } else if starts(t, "pub ") {
        crate::text::copy_range(t, 4, t.len())
    } else {
        crate::text::copy_range(t, 0, t.len())
    };
    assert(t@.skip(0) =~= t@);
    let h: Vec<char> = if starts(a.as_slice(), "unsafe ") {
        crate::text::copy_range(a.as_slice(), 7, a.len())
    } else {
        crate::text::copy_range(a.as_slice(), 0, a.len())
    };
    assert(a@.skip(0) =~= a@);
    let hs = h.as_slice();
    starts(hs, "fn ") || starts(hs, "struct ") || starts(hs, "enum ") || starts(hs, "trait ") || starts(hs, "impl ")
        || starts(hs, "const ") || starts(hs, "type ") || starts(hs, "mod ") || starts(hs, "macro_rules!")
}

/// A line opening an item, after any `pub `, `pub(crate) ` and `unsafe `.
pub open spec fn opens_with(kw: Seq<char>) -> bool {
    ||| kw == "impl "@
    ||| kw == "fn "@
    ||| kw == "struct "@
    ||| kw == "enum "@
    ||| kw == "trait "@
    ||| kw == "const "@
    ||| kw == "type "@
    ||| kw == "mod "@
    ||| kw == "macro_rules!"@
}

/// The visibility and safety words that may come before an item keyword.
pub open spec fn item_lead(lead: Seq<char>) -> bool {
    ||| lead == Seq::<char>::empty()
    ||| lead == "pub "@
    ||| lead == "pub(crate) "@
    ||| lead == "unsafe "@
    ||| lead == "pub unsafe "@
    ||| lead == "pub(crate) unsafe "@
}

/// Every line counts at most one item, and a line that, trimmed, reads
/// `impl `, `fn `, `struct `, `enum `, `trait `, `const `, `type `, `mod `
/// or `macro_rules!` after any `pub `/`pub(crate) ` and `unsafe ` counts
/// exactly one: `impl Serialize for S {` is an item.
pub proof fn law_a_line_opening_an_item_counts_one(ls: Seq<Seq<char>>, k: int, lead: Seq<char>, kw: Seq<char>, rest: Seq<char>)
    requires
        0 <= k < ls.len(),
        trim_start(ls[k]) == lead + kw + rest,
        item_lead(lead),
        opens_with(kw),
    ensures
        file_counts(ls, k + 1).3 == file_counts(ls, k).3 + 1,
{
    lemma_item_of(lead, kw, rest);
}

/// No line counts more than one item.
pub proof fn law_a_line_counts_at_most_one_item(ls: Seq<Seq<char>>, k: int)
    requires
        0 <= k < ls.len(),
    ensures
        file_counts(ls, k).3 <= file_counts(ls, k + 1).3 <= file_counts(ls, k).3 + 1,
{
}

/// A line whose trimmed text is empty or starts with a character that
/// begins none of `pub`, `unsafe` and the item keywords (a comment, an
/// attribute, a `let`, a closing brace) counts no item.
pub proof fn law_other_lines_count_no_item(ls: Seq<Seq<char>>, k: int)
    requires
        0 <= k < ls.len(),
        ({
            let t = trim_start(ls[k]);
            t.len() == 0 || !(t[0] == 'p' || t[0] == 'u' || t[0] == 'f' || t[0] == 's' || t[0] == 'e' || t[0] == 't'
                || t[0] == 'i' || t[0] == 'c' || t[0] == 'm')
        }),
    ensures
        file_counts(ls, k + 1).3 == file_counts(ls, k).3,
{
    let t = trim_start(ls[k]);
    reveal_strlit("impl ");
    reveal_strlit("fn ");
    reveal_strlit("struct ");
    reveal_strlit("enum ");
    reveal_strlit("trait ");
    reveal_strlit("const ");
    reveal_strlit("type ");
    reveal_strlit("mod ");
    reveal_strlit("macro_rules!");
    reveal_strlit("pub ");
    reveal_strlit("pub(crate) ");
    reveal_strlit("unsafe ");
    assert(!item_spec(t)) by {
        assert(forall|q: Seq<char>| q.len() > 0 && #[trigger] q.is_prefix_of(t) ==> t[0] == q[0]);
        assert(item_head(t) == t);
    }
}

proof fn lemma_item_of(lead: Seq<char>, kw: Seq<char>, rest: Seq<char>)
    requires
        item_lead(lead),
        opens_with(kw),
    ensures
        item_spec(lead + kw + rest),
{
    reveal_strlit("impl ");
    reveal_strlit("fn ");
    reveal_strlit("struct ");
    reveal_strlit("enum ");
    reveal_strlit("trait ");
    reveal_strlit("const ");
    reveal_strlit("type ");
    reveal_strlit("mod ");
    reveal_strlit("macro_rules!");
    reveal_strlit("pub ");
    reveal_strlit("pub(crate) ");
    reveal_strlit("unsafe ");
    reveal_strlit("pub unsafe ");
    reveal_strlit("pub(crate) unsafe ");
    let t = lead + kw + rest;
    let body = kw + rest;
    assert(kw.is_prefix_of(body));
    assert(t == lead + body);
    if lead.len() == 0 {
        assert(t =~= body);
        assert(!"pub(crate) "@.is_prefix_of(t)) by {
            if "pub(crate) "@.is_prefix_of(t) {
                assert(t[0] == 'p');
            }
        }
        assert(!"pub "@.is_prefix_of(t)) by {
            if "pub "@.is_prefix_of(t) {
                assert(t[0] == 'p');
            }
        }
        assert(!"unsafe "@.is_prefix_of(t)) by {
            if "unsafe "@.is_prefix_of(t) {
                assert(t[0] == 'u');
            }
        }
        assert(item_head(t) == body);
    } else if lead == "pub "@ {
        assert(t.skip(4) =~= body);
        assert(!"pub(crate) "@.is_prefix_of(t)) by {
            if "pub(crate) "@.is_prefix_of(t) {
                assert(t[3] == ' ');
                assert(t.subrange(0, 11)[3] == t[3]);
                assert("pub(crate) "@[3] == '(');
            }
        }
        assert("pub "@.is_prefix_of(t)) by {
            assert(t.subrange(0, 4) =~= "pub "@);
        }
        assert(!"unsafe "@.is_prefix_of(body)) by {
            if "unsafe "@.is_prefix_of(body) {
                assert(body[0] == 'u');
            }
        }
        assert(item_head(t) == body);
    } else if lead == "pub(crate) "@ {
        assert(t.skip(11) =~= body);
        assert("pub(crate) "@.is_prefix_of(t)) by {
            assert(t.subrange(0, 11) =~= "pub(crate) "@);
        }
        assert(!"unsafe "@.is_prefix_of(body)) by {
            if "unsafe "@.is_prefix_of(body) {
                assert(body[0] == 'u');
            }
        }
        assert(item_head(t) == body);
    } else if lead == "unsafe "@ {
        assert(t.skip(7) =~= body);
        assert(!"pub(crate) "@.is_prefix_of(t)) by {
            if "pub(crate) "@.is_prefix_of(t) {
                assert(t[0] == 'u');
                assert(t.subrange(0, 11)[0] == t[0]);
                assert("pub(crate) "@[0] == 'p');
            }
        }
        assert(!"pub "@.is_prefix_of(t)) by {
            if "pub "@.is_prefix_of(t) {
                assert(t[0] == 'u');
                assert(t.subrange(0, 4)[0] == t[0]);
                assert("pub "@[0] == 'p');
            }
        }
        assert("unsafe "@.is_prefix_of(t)) by {
            assert(t.subrange(0, 7) =~= "unsafe "@);
        }
        assert(item_head(t) == body);
    } else if lead == "pub unsafe "@ {
        let a = t.skip(4);
        assert(a =~= "unsafe "@ + body);
        assert(a.skip(7) =~= body);
        assert(!"pub(crate) "@.is_prefix_of(t)) by {
            if "pub(crate) "@.is_prefix_of(t) {
                assert(t[3] == ' ');
                assert(t.subrange(0, 11)[3] == t[3]);
                assert("pub(crate) "@[3] == '(');
            }
        }
        assert("pub "@.is_prefix_of(t)) by {
            assert(t.subrange(0, 4) =~= "pub "@);
        }
        assert("unsafe "@.is_prefix_of(a)) by {
            assert(a.subrange(0, 7) =~= "unsafe "@);
        }
        assert(item_head(t) == body);
    } else {
        let a = t.skip(11);
        assert(a =~= "unsafe "@ + body);
        assert(a.skip(7) =~= body);
        assert("pub(crate) "@.is_prefix_of(t)) by {
            assert(t.subrange(0, 11) =~= "pub(crate) "@);
        }
        assert("unsafe "@.is_prefix_of(a)) by {
            assert(a.subrange(0, 7) =~= "unsafe "@);
        }
        assert(item_head(t) == body);
    }
}

/// One file's measurements.
#[derive(Debug)]
pub struct FileStats {
    pub file: String,
    pub lines: u32,
    pub doc: u32,
    pub code: u32,
    pub items: u32,
    pub macro_defs: u32,
    pub macro_uses: u32,
    /// `quote!` and `quote_spanned!` invocations: each emits different code
    /// and needs its own explanation beside what it emits.
    pub quote_uses: u32,
}

/// What one line adds: (lines, doc, code, items, macro defs, macro uses,
/// quote uses).
pub open spec fn line_counts(line: Seq<char>) -> (int, int, int, int, int, int, int) {
    let t = trim_start(line);
    let doc = "///"@.is_prefix_of(t) || "//!"@.is_prefix_of(t);
    let quiet = t.len() == 0 || "//"@.is_prefix_of(t);
    let mdef = "macro_rules!"@.is_prefix_of(t);
    (
        1,
        if doc { 1 } else { 0 },
        if !doc && !quiet { 1 } else { 0 },
        if item_spec(t) { 1 } else { 0 },
        if mdef { 1 } else { 0 },
        if !mdef && macro_use_spec(t) { 1 } else { 0 },
        (count_matches(t, "quote!"@) + count_matches(t, "quote_spanned!"@)) as int,
    )
}

/// The totals over the first `k` lines.
pub open spec fn file_counts(ls: Seq<Seq<char>>, k: int) -> (int, int, int, int, int, int, int)
    decreases k,
{
    if k <= 0 {
        (0, 0, 0, 0, 0, 0, 0)
    } else {
        let a = file_counts(ls, k - 1);
        let b = line_counts(ls[k - 1]);
        (a.0 + b.0, a.1 + b.1, a.2 + b.2, a.3 + b.3, a.4 + b.4, a.5 + b.5, a.6 + b.6)
    }
}

/// Every total fits a `u32`.
pub open spec fn counts_fit(c: (int, int, int, int, int, int, int)) -> bool {
    c.0 <= u32::MAX && c.1 <= u32::MAX && c.2 <= u32::MAX && c.3 <= u32::MAX && c.4 <= u32::MAX && c.5 <= u32::MAX && c.6 <= u32::MAX
}

proof fn lemma_counts_grow(ls: Seq<Seq<char>>, j: int, k: int)
    requires
        0 <= j <= k,
    ensures
        ({
            let a = file_counts(ls, j);
            let b = file_counts(ls, k);
            0 <= a.0 <= b.0 && 0 <= a.1 <= b.1 && 0 <= a.2 <= b.2 && 0 <= a.3 <= b.3 && 0 <= a.4 <= b.4 && 0 <= a.5 <= b.5 && 0 <= a.6 <= b.6
        }),
    decreases k,
{
    if j < k {
        lemma_counts_grow(ls, j, k - 1);
    } else if k > 0 {
        lemma_counts_grow(ls, k - 1, k - 1);
    }
}

pub open spec fn stats_view(s: FileStats) -> (Seq<char>, (int, int, int, int, int, int, int)) {
    (s.file@, (s.lines as int, s.doc as int, s.code as int, s.items as int, s.macro_defs as int, s.macro_uses as int, s.quote_uses as int))
}

/// Measures one file, named `file`, holding `text`.
pub fn measure(file: &str, text: &str) -> (r: FileStats)
    requires
        counts_fit(file_counts(lines(text@), lines(text@).len() as int)),
    ensures
        stats_view(r) == (file@, file_counts(lines(text@), lines(text@).len() as int)),
{
    let ls = split_lines(chars_of(text).as_slice());
    let ghost lv = lines(text@);
    assert(views(ls@) == lv);
    let mut s = FileStats {
        file: string_of(chars_of(file).as_slice()),
        lines: 0,
        doc: 0,
        code: 0,
        items: 0,
        macro_defs: 0,
        macro_uses: 0,
        quote_uses: 0,
    };
    let mut k: usize = 0;
    while k < ls.len()
        invariant
            k <= ls@.len(),
            views(ls@) == lv,
            counts_fit(file_counts(lv, lv.len() as int)),
            s.file@ == file@,
            (s.lines as int, s.doc as int, s.code as int, s.items as int, s.macro_defs as int, s.macro_uses as int, s.quote_uses as int) == file_counts(lv, k as int),
        decreases ls@.len() - k,
    {
        proof {
            lemma_counts_grow(lv, k + 1, lv.len() as int);
        }
        let line = &ls[k];
        assert(line@ == lv[k as int]);
        let b = trim_start_from(line.as_slice(), 0);
        assert(line@.skip(0) =~= line@);
        let t = crate::text::copy_range(line.as_slice(), b, line.len());
        let ts = t.as_slice();
        proof {
            reveal_strlit("quote!");
            reveal_strlit("quote_spanned!");
        }
        s.lines = s.lines + 1;
        let doc = starts(ts, "///") || starts(ts, "//!");
        if doc {
            s.doc = s.doc + 1;
        } else if !(t.len() == 0 || starts(ts, "//")) {
            s.code = s.code + 1;
        }
        if starts(ts, "macro_rules!") {
            s.macro_defs = s.macro_defs + 1;
        } else if is_macro_use(ts) {
            s.macro_uses = s.macro_uses + 1;
        }
        let q1 = count_in(ts, "quote!");
        let q2 = count_in(ts, "quote_spanned!");
        proof {
            lemma_count_bound(t@, "quote!"@);
            lemma_count_bound(t@, "quote_spanned!"@);
        }
        s.quote_uses = s.quote_uses + (q1 + q2) as u32;
        if is_item(ts) {
            s.items = s.items + 1;
        }
        k += 1;
    }
    s
}

/// The estimate's arithmetic fits a `u32`.
pub open spec fn units_fit(s: FileStats) -> bool {
    s.macro_uses > 40 ==> s.macro_defs * 3 + s.macro_uses / 4 + s.items <= u32::MAX
}

/// How many annotations the file will take. Macro-driven files compress:
/// a `macro_rules!` body is explained once and its invocations cost a
/// reference each. Quote-driven files run one annotation per ~14 lines, the
/// rest one per ~18, and never fewer than their items.
pub open spec fn units_spec(s: FileStats) -> int {
    if s.macro_uses > 40 {
        s.macro_defs * 3 + s.macro_uses / 4 + s.items
    } else if s.quote_uses > 10 {
        if s.items >= s.lines / 14 { s.items as int } else { (s.lines / 14) as int }
    } else {
        if s.items >= s.lines / 18 { s.items as int } else { (s.lines / 18) as int }
    }
}

/// What kind of file it is, as the inventory names it.
pub open spec fn profile_spec(s: FileStats) -> Seq<char> {
    if s.macro_uses > 40 {
        "macro-driven"@
    } else if s.quote_uses > 10 {
        "quote-driven"@
    } else if s.lines > 0 && (s.doc * 10) as int / (s.lines as int) >= 4 {
        "doc-heavy"@
    } else {
        "logic"@
    }
}

impl FileStats {
    /// The annotation estimate.
    pub fn estimated_units(&self) -> (n: u32)
        requires
            units_fit(*self),
        ensures
            n == units_spec(*self),
    {
        if self.macro_uses > 40 {
            self.macro_defs * 3 + self.macro_uses / 4 + self.items
        } else if self.quote_uses > 10 {
            let l = self.lines / 14;
            if self.items >= l { self.items } else { l }
        } else {
            let l = self.lines / 18;
            if self.items >= l { self.items } else { l }
        }
    }

    /// The file's profile.
    pub fn profile(&self) -> (p: &'static str)
        requires
            self.doc * 10 <= u32::MAX,
        ensures
            p@ == profile_spec(*self),
    {
        if self.macro_uses > 40 {
            "macro-driven"
        } else if self.quote_uses > 10 {
            "quote-driven"
        } else if self.lines > 0 && self.doc * 10 / self.lines >= 4 {
            "doc-heavy"
        } else {
            "logic"
        }
    }
}

/// `x` placed after every element at least as long: largest first, ties
/// in the order they came.
pub open spec fn insert_by_size(s: Seq<(Seq<char>, (int, int, int, int, int, int, int))>, x: (Seq<char>, (int, int, int, int, int, int, int))) -> Seq<(Seq<char>, (int, int, int, int, int, int, int))>
    decreases s.len(),
{
    if s.len() == 0 {
        seq![x]
    } else if s.last().1.0 >= x.1.0 {
        s.push(x)
    } else {
        insert_by_size(s.drop_last(), x).push(s.last())
    }
}

/// The stable sort, largest file first.
pub open spec fn by_size_spec(s: Seq<(Seq<char>, (int, int, int, int, int, int, int))>) -> Seq<(Seq<char>, (int, int, int, int, int, int, int))>
    decreases s.len(),
{
    if s.len() == 0 {
        Seq::empty()
    } else {
        insert_by_size(by_size_spec(s.drop_last()), s.last())
    }
}

pub open spec fn stats_views(v: Seq<FileStats>) -> Seq<(Seq<char>, (int, int, int, int, int, int, int))> {
    v.map_values(|s: FileStats| stats_view(s))
}

fn insert_sized(v: &mut Vec<FileStats>, x: FileStats)
    ensures
        stats_views(final(v)@) == insert_by_size(stats_views(old(v)@), stats_view(x)),
{
    let ghost p0 = stats_views(v@);
    let ghost xv = stats_view(x);
    let mut p: usize = v.len();
    assert(p0.take(p as int) =~= p0);
    assert(insert_by_size(p0, xv) + p0.skip(p as int) =~= insert_by_size(p0, xv));
    while p > 0 && v[p - 1].lines < x.lines
        invariant
            p <= p0.len(),
            stats_views(v@) == p0,
            xv == stats_view(x),
            insert_by_size(p0, xv) == insert_by_size(p0.take(p as int), xv) + p0.skip(p as int),
        decreases p,
    {
        proof {
            let t = p0.take(p as int);
            assert(t.drop_last() =~= p0.take(p - 1));
            assert(t.last() == p0[p - 1]);
            assert(p0[p - 1] == stats_view(v@[p - 1]));
            assert(insert_by_size(t, xv) == insert_by_size(t.drop_last(), xv).push(t.last()));
            assert(insert_by_size(p0.take(p - 1), xv).push(p0[p - 1]) + p0.skip(p as int) =~= insert_by_size(p0.take(p - 1), xv) + p0.skip(p - 1));
        }
        p -= 1;
    }
    proof {
        let t = p0.take(p as int);
        if p > 0 {
            assert(t.last() == p0[p - 1]);
            assert(p0[p - 1] == stats_view(v@[p - 1]));
        }
    }
    let ghost v0 = v@;
    v.insert(p, x);
    assert(stats_views(v@) =~= p0.take(p as int).push(xv) + p0.skip(p as int)) by {
        assert(v@ =~= v0.insert(p as int, x));
    }
}

/// The files, largest first; files of equal size keep their order.
pub fn by_size(stats: Vec<FileStats>) -> (r: Vec<FileStats>)
    ensures
        stats_views(r@) == by_size_spec(stats_views(stats@)),
{
    let ghost sv = stats_views(stats@);
    let total = stats.len();
    let mut rest = crate::load::reversed(stats);
    let mut out: Vec<FileStats> = Vec::new();
    let mut k: usize = 0;
    assert(sv.take(0) =~= Seq::<(Seq<char>, (int, int, int, int, int, int, int))>::empty());
    while rest.len() > 0
        invariant
            k <= sv.len(),
            total == sv.len(),
            rest@.len() == sv.len() - k,
            forall|t: int| 0 <= t < rest@.len() ==> stats_view(#[trigger] rest@[t]) == sv[sv.len() - 1 - t],
            stats_views(out@) == by_size_spec(sv.take(k as int)),
        decreases rest@.len(),
    {
        let ghost before = rest@;
        let s = rest.pop().unwrap();
        assert(stats_view(s) == sv[k as int]);
        assert forall|t: int| 0 <= t < rest@.len() implies stats_view(#[trigger] rest@[t]) == sv[sv.len() - 1 - t] by {
            assert(rest@[t] == before[t]);
        }
        insert_sized(&mut out, s);
        assert(sv.take(k + 1).drop_last() =~= sv.take(k as int));
        assert(sv.take(k + 1).last() == sv[k as int]);
        k += 1;
    }
    assert(sv.take(k as int) =~= sv);
    out
}

/// Why `--dir` could not be used.
#[derive(Debug)]
pub enum DirArg {
    /// `--dir` came last, with no path.
    MissingPath,
    /// The path holds no `src/` directory.
    NoSrc { path: String },
}

/// What each `--dir` error says.
pub open spec fn dir_error_text(e: DirArg) -> Seq<char> {
    match e {
        DirArg::MissingPath => "--dir takes a path"@,
        DirArg::NoSrc { path } => path@ + " has no src/ directory"@,
    }
}

impl DirArg {
    /// The error as a sentence.
    pub fn message(&self) -> (r: String)
        ensures
            r@ == dir_error_text(*self),
    {
        match self {
            DirArg::MissingPath => String::from_str("--dir takes a path"),
            DirArg::NoSrc { path } => {
                let mut v = chars_of(path.as_str());
                let mut t = chars_of(" has no src/ directory");
                v.append(&mut t);
                string_of(v.as_slice())
            },
        }
    }
}

/// A tree to measure must hold a `src/` directory: one measured without it
/// would report a crate with no files and no error. `has_src` is whether
/// `path` holds one.
pub fn accept_dir(path: String, has_src: bool) -> (r: Result<String, DirArg>)
    ensures
        has_src ==> (r matches Ok(p) && p@ == path@),
        !has_src ==> (r matches Err(DirArg::NoSrc { path: p }) && p@ == path@),
{
    if has_src {
        Ok(path)
    } else {
        Err(DirArg::NoSrc { path })
    }
}

/// The path after the first `--dir`, if any; `--dir` without one is refused.
pub open spec fn dir_spec(args: Seq<Seq<char>>, i: int) -> Result<Option<Seq<char>>, DirArg>
    decreases args.len() - i,
{
    if i >= args.len() {
        Ok(None)
    } else if args[i] == "--dir"@ {
        if i + 1 < args.len() {
            Ok(Some(args[i + 1]))
        } else {
            Err(DirArg::MissingPath)
        }
    } else {
        dir_spec(args, i + 1)
    }
}

/// `--dir PATH` for `stats`, which can measure a tree outside the pin: a
/// candidate crate is measured before anyone decides to vendor it. Whether
/// the path holds a `src/` is for the caller to check.
pub fn dir_arg(args: &[String]) -> (r: Result<Option<String>, DirArg>)
    ensures
        match dir_spec(args@.map_values(|s: String| s@), 0) {
            Ok(Some(p)) => r matches Ok(Some(x)) && x@ == p,
            Ok(None) => r matches Ok(None),
            Err(_) => r matches Err(DirArg::MissingPath),
        },
{
    let ghost av = args@.map_values(|s: String| s@);
    let flag = String::from_str("--dir");
    let mut i: usize = 0;
    while i < args.len()
        invariant
            i <= args@.len(),
            av == args@.map_values(|s: String| s@),
            flag@ == "--dir"@,
            dir_spec(av, 0) == dir_spec(av, i as int),
        decreases args@.len() - i,
    {
        assert(av[i as int] == args@[i as int]@);
        if crate::text::str_eq(args[i].as_str(), flag.as_str()) {
            if i + 1 < args.len() {
                assert(av[i + 1] == args@[i + 1]@);
                return Ok(Some(string_of(chars_of(args[i + 1].as_str()).as_slice())));
            }
            return Err(DirArg::MissingPath);
        }
        i += 1;
    }
    Ok(None)
}

} // verus!
