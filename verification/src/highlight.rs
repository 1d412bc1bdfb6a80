//! Build-time syntax highlighting with class-based spans, one
//! self-contained fragment per source line.
//!
//! The file is parsed once with carried state, so that a line inside a
//! multi-line comment or raw string keeps its context; each line is then
//! re-balanced by reopening the tags left open by the lines before it and
//! closing them again at its end.
use crate::site::{line_view, lines_view, Line};
use crate::text::{chars_of, copy_range, decimal, decimal_chars, find_char, first_of, occurs_at, string_of};
use vstd::prelude::*;

verus! {

broadcast use vstd::seq_lib::group_seq_properties;

/// The closing tag of a span.
pub open spec fn close_tag() -> Seq<char> {
    seq!['<', '/', 's', 'p', 'a', 'n', '>']
}

/// How an opening span tag starts.
pub open spec fn open_head() -> Seq<char> {
    seq!['<', 's', 'p', 'a', 'n']
}

/// The open tags after one is closed; closing with nothing open changes
/// nothing.
pub open spec fn pop_tag(open: Seq<Seq<char>>) -> Seq<Seq<char>> {
    if open.len() > 0 {
        open.drop_last()
    } else {
        open
    }
}

/// The tags left open after reading `s` from position `i`, starting from
/// `open`: a closing tag closes the innermost, an opening tag up to its `>`
/// is pushed, and an opening tag with no `>` ends the reading.
pub open spec fn track_from(open: Seq<Seq<char>>, s: Seq<char>, i: int) -> Seq<Seq<char>>
    decreases s.len() - i,
{
    if i < 0 || i >= s.len() {
        open
    } else if s[i] != '<' {
        track_from(open, s, i + 1)
    } else if occurs_at(s, close_tag(), i) {
        track_from(pop_tag(open), s, i + 7)
    } else if occurs_at(s, open_head(), i) {
        let e = i + first_of(s.skip(i), '>');
        if e >= s.len() {
            open
        } else {
            track_from(open.push(s.subrange(i, e + 1)), s, e + 1)
        }
    } else {
        track_from(open, s, i + 1)
    }
}

/// `n` copies of `p`, one after the other.
pub open spec fn repeat(p: Seq<char>, n: nat) -> Seq<char>
    decreases n,
{
    if n == 0 {
        Seq::empty()
    } else {
        repeat(p, (n - 1) as nat) + p
    }
}

/// A line made to stand alone: the tags open before it reopened in front,
/// and every tag open after it closed at its end. Also gives the tags open
/// after it.
pub open spec fn balance_spec(open: Seq<Seq<char>>, raw: Seq<char>) -> (Seq<char>, Seq<Seq<char>>) {
    let after = track_from(open, raw, 0);
    (open.flatten() + raw + repeat(close_tag(), after.len()), after)
}

/// `s` without its trailing newlines.
pub open spec fn trim_newlines(s: Seq<char>) -> Seq<char>
    decreases s.len(),
{
    if s.len() > 0 && s.last() == '\n' {
        trim_newlines(s.drop_last())
    } else {
        s
    }
}

/// The lines of a text with their endings kept: the text is cut after each
/// `'\n'`, and a last piece without one is kept when it is not empty.
pub open spec fn pieces(s: Seq<char>) -> Seq<Seq<char>>
    decreases s.len(),
{
    if s.len() == 0 {
        Seq::empty()
    } else {
        let k = first_of(s, '\n');
        if k >= s.len() {
            seq![s]
        } else {
            seq![s.take(k as int + 1)] + pieces(s.skip(k as int + 1))
        }
    }
}

/// Balanced lines for the raw fragments of a file, numbered from 1, with
/// the tags open before the first line given by `open`.
pub open spec fn balanced_from(open: Seq<Seq<char>>, raws: Seq<Seq<char>>, first: int) -> Seq<(u32, Seq<char>)>
    decreases raws.len(),
{
    if raws.len() == 0 {
        Seq::empty()
    } else {
        let b = balance_spec(open, trim_newlines(raws[0]));
        seq![(first as u32, b.0)] + balanced_from(b.1, raws.drop_first(), first + 1)
    }
}

/// Every raw fragment gives one line.
pub proof fn lemma_balanced_len(open: Seq<Seq<char>>, raws: Seq<Seq<char>>, first: int)
    ensures
        balanced_from(open, raws, first).len() == raws.len(),
    decreases raws.len(),
{
    if raws.len() > 0 {
        let b = balance_spec(open, trim_newlines(raws[0]));
        lemma_balanced_len(b.1, raws.drop_first(), first + 1);
    }
}

/// Balanced lines for the raw fragments of a whole file.
pub open spec fn balanced(raws: Seq<Seq<char>>) -> Seq<(u32, Seq<char>)> {
    balanced_from(Seq::empty(), raws, 1)
}

/// Tracks the span tags left open from line to line.
pub struct Balancer {
    open: Vec<String>,
}

/// The open tags as plain values.
pub open spec fn tags_view(v: Seq<String>) -> Seq<Seq<char>> {
    v.map_values(|t: String| t@)
}

impl Balancer {
    /// The tags open so far, outermost first.
    pub closed spec fn open_tags(&self) -> Seq<Seq<char>> {
        tags_view(self.open@)
    }

    /// A balancer with nothing open.
    pub fn new() -> (b: Balancer)
        ensures
            b.open_tags() == Seq::<Seq<char>>::empty(),
    {
        let b = Balancer { open: Vec::new() };
        assert(b.open_tags() =~= Seq::<Seq<char>>::empty());
        b
    }

    /// Makes one line stand alone and remembers what it leaves open.
    pub fn balance(&mut self, raw: &str) -> (r: String)
        ensures
            r@ == balance_spec(old(self).open_tags(), raw@).0,
            final(self).open_tags() == balance_spec(old(self).open_tags(), raw@).1,
    {
        let prefix = self.opened();
        self.track(raw);
        let n = self.open.len();
        let mut out = prefix;
        let raw_chars = chars_of(raw);
        out.append(&mut raw_chars.clone());
        let close = close_chars();
        let mut k: usize = 0;
        while k < n
            invariant
                k <= n,
                close@ == close_tag(),
                out@ == old(self).open_tags().flatten() + raw@ + repeat(close_tag(), k as nat),
            decreases n - k,
        {
            let ghost before = out@;
            let mut c = close.clone();
            out.append(&mut c);
            k += 1;
            assert(out@ =~= before + close_tag());
        }
        string_of(out.as_slice())
    }

    /// The characters of all open tags, outermost first.
    fn opened(&self) -> (r: Vec<char>)
        ensures
            r@ == self.open_tags().flatten(),
    {
        let mut r: Vec<char> = Vec::new();
        let mut i: usize = 0;
        while i < self.open.len()
            invariant
                i <= self.open@.len(),
                r@ == tags_view(self.open@.take(i as int)).flatten(),
            decreases self.open@.len() - i,
        {
            let ghost before = tags_view(self.open@.take(i as int));
            let mut t = chars_of(self.open[i].as_str());
            r.append(&mut t);
            proof {
                assert(tags_view(self.open@.take(i + 1)) =~= before.push(self.open@[i as int]@));
                before.lemma_flatten_push(self.open@[i as int]@);
            }
            i += 1;
        }
        assert(self.open@.take(self.open@.len() as int) =~= self.open@);
        r
    }

    /// Reads one line's tags into the open stack.
    fn track(&mut self, html: &str)
        ensures
            final(self).open_tags() == track_from(old(self).open_tags(), html@, 0),
    {
        let cs = chars_of(html);
        let close = close_chars();
        let head = head_chars();
        let n = cs.len();
        let mut i: usize = 0;
        while i < n
            invariant
                i <= n == cs@.len(),
                cs@ == html@,
                close@ == close_tag(),
                head@ == open_head(),
                track_from(old(self).open_tags(), html@, 0) == track_from(self.open_tags(), html@, i as int),
            decreases n - i,
        {
            if cs[i] != '<' {
                i += 1;
            } else if occurs_here(&cs, &close, i) {
                let ghost before = self.open_tags();
                if self.open.len() > 0 {
                    self.open.pop();
                }
                assert(self.open_tags() =~= pop_tag(before));
                i += 7;
            } else if occurs_here(&cs, &head, i) {
                let rest = copy_range(cs.as_slice(), i, n);
                let f = find_char(rest.as_slice(), '>');
                assert(rest@ =~= cs@.skip(i as int));
                if f >= rest.len() {
                    i = n;
                } else {
                    let e = i + f;
                    let tag = copy_range(cs.as_slice(), i, e + 1);
                    let ghost before = self.open_tags();
                    self.open.push(string_of(tag.as_slice()));
                    assert(self.open_tags() =~= before.push(cs@.subrange(i as int, e + 1)));
                    i = e + 1;
                }
            } else {
                i += 1;
            }
        }
    }
}

/// The characters of a closing span tag.
fn close_chars() -> (r: Vec<char>)
    ensures
        r@ == close_tag(),
{
    let r = vec!['<', '/', 's', 'p', 'a', 'n', '>'];
    assert(r@ =~= close_tag());
    r
}

/// The characters that start an opening span tag.
fn head_chars() -> (r: Vec<char>)
    ensures
        r@ == open_head(),
{
    let r = vec!['<', 's', 'p', 'a', 'n'];
    assert(r@ =~= open_head());
    r
}

/// Whether `pat` occurs in `s` at `i`.
fn occurs_here(s: &Vec<char>, pat: &Vec<char>, i: usize) -> (r: bool)
    requires
        i <= s@.len(),
    ensures
        r == occurs_at(s@, pat@, i as int),
{
    let n = s.len();
    if pat.len() > n - i {
        return false;
    }
    let mut k: usize = 0;
    while k < pat.len()
        invariant
            n == s@.len(),
            i + pat@.len() <= n,
            k <= pat@.len(),
            forall|m: int| 0 <= m < k ==> s@[i + m] == pat@[m],
        decreases pat@.len() - k,
    {
        if s[i + k] != pat[k] {
            assert(s@.subrange(i as int, i + pat@.len())[k as int] != pat@[k as int]);
            return false;
        }
        k += 1;
    }
    assert(s@.subrange(i as int, i + pat@.len()) =~= pat@);
    true
}

/// Appends the characters of `s` to `v`.
fn append_str(v: &mut Vec<char>, s: &str)
    ensures
        final(v)@ == old(v)@ + s@,
{
    let mut t = chars_of(s);
    v.append(&mut t);
}

/// `s` without its trailing newlines (`str::trim_end_matches('\n')`).
pub fn trim_newline_end(s: &str) -> (r: String)
    ensures
        r@ == trim_newlines(s@),
{
    let cs = chars_of(s);
    let mut hi = cs.len();
    while hi > 0 && cs[hi - 1] == '\n'
        invariant
            hi <= cs@.len(),
            cs@ == s@,
            trim_newlines(s@) == trim_newlines(cs@.take(hi as int)),
        decreases hi,
    {
        assert(cs@.take(hi as int).drop_last() =~= cs@.take(hi - 1));
        hi -= 1;
    }
    assert(cs@.take(hi as int).len() == 0 || cs@.take(hi as int).last() != '\n');
    let out = copy_range(cs.as_slice(), 0, hi);
    assert(out@ =~= cs@.take(hi as int));
    string_of(out.as_slice())
}

proof fn lemma_pieces_step(s: Seq<char>, start: int, i: int)
    requires
        0 <= start <= i < s.len(),
        s[i] == '\n',
        forall|m: int| start <= m < i ==> s[m] != '\n',
    ensures
        pieces(s.skip(start)) == seq![s.subrange(start, i + 1)] + pieces(s.skip(i + 1)),
{
    let t = s.skip(start);
    crate::text::lemma_first_of(t, '\n', i - start);
    assert(t.take(i - start + 1) =~= s.subrange(start, i + 1));
    assert(t.skip(i - start + 1) =~= s.skip(i + 1));
}

proof fn lemma_pieces_last(s: Seq<char>, start: int)
    requires
        0 <= start <= s.len(),
        forall|m: int| start <= m < s.len() ==> s[m] != '\n',
    ensures
        pieces(s.skip(start)) == (if start < s.len() { seq![s.skip(start)] } else { Seq::<Seq<char>>::empty() }),
{
    let t = s.skip(start);
    if start < s.len() {
        crate::text::lemma_first_of(t, '\n', t.len() as int);
    } else {
        assert(t.len() == 0);
    }
}

/// The lines of a text with their endings kept, as
/// `syntect::util::LinesWithEndings` yields them.
#[verifier::spinoff_prover]
pub fn lines_with_endings(text: &str) -> (r: Vec<String>)
    ensures
        tags_view(r@) == pieces(text@),
{
    let cs = chars_of(text);
    let n = cs.len();
    let mut r: Vec<String> = Vec::new();
    let mut start: usize = 0;
    let mut i: usize = 0;
    while i < n
        invariant
            start <= i <= n == cs@.len(),
            cs@ == text@,
            forall|m: int| start <= m < i ==> cs@[m] != '\n',
            pieces(text@) == tags_view(r@) + pieces(cs@.skip(start as int)),
        decreases n - i,
    {
        if cs[i] == '\n' {
            let piece = copy_range(cs.as_slice(), start, i + 1);
            let ghost before = tags_view(r@);
            proof {
                lemma_pieces_step(cs@, start as int, i as int);
            }
            r.push(string_of(piece.as_slice()));
            assert(tags_view(r@) =~= before.push(cs@.subrange(start as int, i + 1)));
            start = i + 1;
        }
        i += 1;
    }
    proof {
        lemma_pieces_last(cs@, start as int);
    }
    if start < n {
        let piece = copy_range(cs.as_slice(), start, n);
        let ghost before = tags_view(r@);
        r.push(string_of(piece.as_slice()));
        assert(cs@.subrange(start as int, n as int) =~= cs@.skip(start as int));
        assert(tags_view(r@) =~= before.push(cs@.skip(start as int)));
    } else {
        assert(tags_view(r@) + Seq::<Seq<char>>::empty() =~= tags_view(r@));
    }
    r
}

proof fn lemma_balanced_step(open: Seq<Seq<char>>, raws: Seq<Seq<char>>, i: int)
    requires
        0 <= i < raws.len(),
    ensures
        balanced_from(open, raws.skip(i), i + 1) == seq![
            ((i + 1) as u32, balance_spec(open, trim_newlines(raws[i])).0),
        ] + balanced_from(balance_spec(open, trim_newlines(raws[i])).1, raws.skip(i + 1), i + 2),
{
    assert(raws.skip(i).drop_first() =~= raws.skip(i + 1));
    assert(raws.skip(i)[0] == raws[i]);
}

/// Balanced, numbered lines for the raw per-line fragments of a file: each
/// fragment loses its trailing newlines, gets the tags open before it
/// reopened in front and every tag open after it closed at its end.
pub fn balance_lines(raws: &[String]) -> (r: Vec<Line>)
    requires
        raws@.len() <= u32::MAX,
    ensures
        lines_view(r@) == balanced(tags_view(raws@)),
{
    let mut b = Balancer::new();
    let mut out: Vec<Line> = Vec::new();
    let ghost all = tags_view(raws@);
    let mut i: usize = 0;
    while i < raws.len()
        invariant
            i <= raws@.len() <= u32::MAX,
            all == tags_view(raws@),
            lines_view(out@) + balanced_from(b.open_tags(), all.skip(i as int), i + 1) == balanced(all),
        decreases raws@.len() - i,
    {
        proof {
            lemma_balanced_step(b.open_tags(), all, i as int);
            assert(all.skip(0) =~= all);
        }
        let ghost before = lines_view(out@);
        let t = trim_newline_end(raws[i].as_str());
        let html = b.balance(t.as_str());
        let line = Line { number: (i + 1) as u32, html };
        out.push(line);
        assert(lines_view(out@) =~= before.push(line_view(line)));
        i += 1;
    }
    proof {
        assert(all.skip(i as int).len() == 0);
        assert(lines_view(out@) + Seq::<(u32, Seq<char>)>::empty() =~= lines_view(out@));
    }
    out
}

#[verifier::external_type_specification]
#[verifier::external_body]
pub struct ExSyntaxSet(syntect::parsing::SyntaxSet);

#[verifier::external_type_specification]
#[verifier::external_body]
pub struct ExSyntaxReference(syntect::parsing::SyntaxReference);

#[verifier::external_type_specification]
#[verifier::external_body]
pub struct ExParseState(syntect::parsing::ParseState);

#[verifier::external_type_specification]
#[verifier::external_body]
pub struct ExScopeStack(syntect::parsing::ScopeStack);

#[verifier::external_type_specification]
#[verifier::external_body]
pub struct ExScopeStackOp(syntect::parsing::ScopeStackOp);

#[verifier::external_type_specification]
#[verifier::external_body]
pub struct ExParsingError(syntect::parsing::ParsingError);

#[verifier::external_type_specification]
#[verifier::external_body]
pub struct ExThemeSet(syntect::highlighting::ThemeSet);

#[verifier::external_type_specification]
#[verifier::external_body]
pub struct ExTheme(syntect::highlighting::Theme);

#[verifier::external_type_specification]
#[verifier::external_body]
pub struct ExSyntectError(syntect::Error);

/// How generated spans name their classes.
#[derive(Clone, Copy, Debug, PartialEq, Eq)]
pub enum ClassStyle {
    /// The atoms of a scope separated by spaces (`source.rust` becomes
    /// `source rust`).
    Spaced,
}

/// Class-based rather than inline styles, so that one rendering serves both
/// light and dark themes.
pub const CLASS_STYLE: ClassStyle = ClassStyle::Spaced;

/// The syntax that a set registers for a file extension, if any
/// (`SyntaxSet::find_syntax_by_extension`).
pub uninterp spec fn syntax_by_extension(set: syntect::parsing::SyntaxSet, extension: Seq<char>) -> Option<syntect::parsing::SyntaxReference>;

/// A parser positioned at the start of a file in a syntax (`ParseState::new`).
pub uninterp spec fn start_state(syntax: syntect::parsing::SyntaxReference) -> syntect::parsing::ParseState;

/// The scope changes `ParseState::parse_line` gives for one line, or
/// nothing when it fails.
pub uninterp spec fn line_ops(
    state: syntect::parsing::ParseState,
    line: Seq<char>,
    set: syntect::parsing::SyntaxSet,
) -> Option<Seq<(usize, syntect::parsing::ScopeStackOp)>>;

/// The parser's state after `ParseState::parse_line` has read one line.
pub uninterp spec fn next_state(
    state: syntect::parsing::ParseState,
    line: Seq<char>,
    set: syntect::parsing::SyntaxSet,
) -> syntect::parsing::ParseState;

/// The HTML of one line as class-based spans and the scope stack after it
/// (`syntect::html::line_tokens_to_classed_spans`), or nothing when it fails.
pub uninterp spec fn classed_line(
    line: Seq<char>,
    ops: Seq<(usize, syntect::parsing::ScopeStackOp)>,
    style: ClassStyle,
    stack: syntect::parsing::ScopeStack,
) -> Option<(Seq<char>, syntect::parsing::ScopeStack)>;

/// The stylesheet for a theme's classes
/// (`syntect::html::css_for_theme_with_class_style`).
pub uninterp spec fn stylesheet(theme: syntect::highlighting::Theme, style: ClassStyle) -> Seq<char>;

/// The theme a set holds under a name (`ThemeSet::themes[name]`).
pub uninterp spec fn theme_in(themes: syntect::highlighting::ThemeSet, name: Seq<char>) -> syntect::highlighting::Theme;

/// The parser after reading `ls`, one line after another, from the start
/// of a file in `syntax`.
pub open spec fn reached(
    set: syntect::parsing::SyntaxSet,
    syntax: syntect::parsing::SyntaxReference,
    ls: Seq<Seq<char>>,
) -> syntect::parsing::ParseState
    decreases ls.len(),
{
    if ls.len() == 0 {
        start_state(syntax)
    } else {
        next_state(reached(set, syntax, ls.drop_last()), ls.last(), set)
    }
}

/// The parser reached by reading `ls` in the syntax `set` registers for
/// `extension`.
pub open spec fn reached_from(
    set: syntect::parsing::SyntaxSet,
    extension: Seq<char>,
    ls: Seq<Seq<char>>,
) -> Option<syntect::parsing::ParseState> {
    match syntax_by_extension(set, extension) {
        Some(syntax) => Some(reached(set, syntax, ls)),
        None => None,
    }
}

/// `state` was started in a syntax of `set` and has read lines with `set`
/// alone: what `parse_line` asks of the set it is given.
pub open spec fn state_of_set(state: syntect::parsing::ParseState, set: syntect::parsing::SyntaxSet) -> bool {
    exists|extension: Seq<char>, ls: Seq<Seq<char>>| #[trigger] reached_from(set, extension, ls) == Some(state)
}

/// How many bytes a character takes in UTF-8.
pub open spec fn utf8_len(c: char) -> nat {
    if (c as u32) < 0x80 {
        1
    } else if (c as u32) < 0x800 {
        2
    } else if (c as u32) < 0x10000 {
        3
    } else {
        4
    }
}

/// How many bytes a text takes in UTF-8.
pub open spec fn utf8_bytes(s: Seq<char>) -> nat
    decreases s.len(),
{
    if s.len() == 0 {
        0
    } else {
        utf8_bytes(s.drop_last()) + utf8_len(s.last())
    }
}

/// `b` is a byte offset of `line` that falls between two characters.
pub open spec fn on_boundary(line: Seq<char>, b: int) -> bool {
    exists|k: int| 0 <= k <= line.len() && #[trigger] utf8_bytes(line.take(k)) == b
}

/// The offsets of `ops` fall between characters of `line`, in order.
pub open spec fn ops_fit(ops: Seq<(usize, syntect::parsing::ScopeStackOp)>, line: Seq<char>) -> bool {
    &&& forall|i: int| 0 <= i < ops.len() ==> on_boundary(line, (#[trigger] ops[i]).0 as int)
    &&& forall|i: int, j: int| 0 <= i <= j < ops.len() ==> (#[trigger] ops[i]).0 <= (#[trigger] ops[j]).0
}

/// The bundled syntax definitions for lines that keep their newlines
/// (`SyntaxSet::load_defaults_newlines`). Its documentation finds the Rust
/// syntax in it by the extension `rs`; it is claimed that one is there.
#[verifier::external_body]
fn load_syntaxes() -> (set: syntect::parsing::SyntaxSet)
    ensures
        syntax_by_extension(set, seq!['r', 's']) is Some,
{
    syntect::parsing::SyntaxSet::load_defaults_newlines()
}

/// The names under which a set of themes is keyed (the keys of
/// `ThemeSet::themes`).
pub uninterp spec fn theme_names(themes: syntect::highlighting::ThemeSet) -> Set<Seq<char>>;

/// The keys that `ThemeSet::load_defaults` documents for its bundled themes.
pub open spec fn default_theme_names() -> Set<Seq<char>> {
    set![
        "base16-ocean.dark"@,
        "base16-eighties.dark"@,
        "base16-mocha.dark"@,
        "base16-ocean.light"@,
        "InspiredGitHub"@,
        "Solarized (dark)"@,
        "Solarized (light)"@,
    ]
}

/// The bundled themes (`ThemeSet::load_defaults`), whose documentation
/// lists seven keys that the set includes; it is claimed that each of them
/// is a key of the result, and nothing of the themes themselves.
#[verifier::external_body]
fn load_themes() -> (themes: syntect::highlighting::ThemeSet)
    ensures
        default_theme_names().subset_of(theme_names(themes)),
{
    syntect::highlighting::ThemeSet::load_defaults()
}

/// The syntax a set registers for a file extension
/// (`SyntaxSet::find_syntax_by_extension`), as named.
#[verifier::external_body]
fn syntax_for_extension<'a>(set: &'a syntect::parsing::SyntaxSet, extension: &str) -> (found: Option<&'a syntect::parsing::SyntaxReference>)
    ensures
        match found {
            Some(syntax) => syntax_by_extension(*set, extension@) == Some(*syntax),
            None => syntax_by_extension(*set, extension@) is None,
        },
{
    set.find_syntax_by_extension(extension)
}

/// A parser positioned at the start of a file in a syntax (`ParseState::new`).
#[verifier::external_body]
fn start_parse(syntax: &syntect::parsing::SyntaxReference) -> (state: syntect::parsing::ParseState)
    ensures
        state == start_state(*syntax),
{
    syntect::parsing::ParseState::new(syntax)
}

/// An empty scope stack (`ScopeStack::new`); nothing is claimed of it.
#[verifier::external_body]
fn empty_scopes() -> (stack: syntect::parsing::ScopeStack) {
    syntect::parsing::ScopeStack::new()
}

/// A copy of a scope stack (its derived `Clone`), equal to it.
#[verifier::external_body]
fn copy_scopes(stack: &syntect::parsing::ScopeStack) -> (copy: syntect::parsing::ScopeStack)
    ensures
        copy == *stack,
{
    stack.clone()
}

/// The scope changes of one line, carrying the parser's state to the next
/// (`ParseState::parse_line`). Its documentation asks for the set that held
/// the syntax the parser was started in, or it may panic; so does this
/// `requires`. The changes come in order, at offsets between characters of
/// the line.
#[verifier::external_body]
fn parse_line(
    state: &mut syntect::parsing::ParseState,
    line: &str,
    set: &syntect::parsing::SyntaxSet,
) -> (ops: Result<Vec<(usize, syntect::parsing::ScopeStackOp)>, syntect::parsing::ParsingError>)
    requires
        state_of_set(*old(state), *set),
    ensures
        *final(state) == next_state(*old(state), line@, *set),
        match ops {
            Ok(v) => line_ops(*old(state), line@, *set) == Some(v@) && ops_fit(v@, line@),
            Err(_) => line_ops(*old(state), line@, *set) is None,
        },
{
    state.parse_line(line, set)
}

/// The HTML of one line as class-based spans, carrying the scope stack to
/// the next line (`syntect::html::line_tokens_to_classed_spans`). It slices
/// the line at each offset of `ops`, so they must fall between its
/// characters, in order.
#[verifier::external_body]
fn classed_spans(
    line: &str,
    ops: &[(usize, syntect::parsing::ScopeStackOp)],
    style: ClassStyle,
    stack: &mut syntect::parsing::ScopeStack,
) -> (html: Result<(String, isize), syntect::Error>)
    requires
        ops_fit(ops@, line@),
    ensures
        match html {
            Ok((h, _)) => classed_line(line@, ops@, style, *old(stack)) == Some((h@, *final(stack))),
            Err(_) => classed_line(line@, ops@, style, *old(stack)) is None,
        },
{
    let style = match style {
        ClassStyle::Spaced => syntect::html::ClassStyle::Spaced,
    };
    syntect::html::line_tokens_to_classed_spans(line, ops, style, stack)
}

/// The bundled theme of a name, if there is one (`BTreeMap::get` on
/// `ThemeSet::themes`): it is claimed that one is found exactly when the
/// name is a key, and that it is the theme held under it.
#[verifier::external_body]
fn theme_named<'a>(themes: &'a syntect::highlighting::ThemeSet, name: &str) -> (found: Option<&'a syntect::highlighting::Theme>)
    ensures
        found is Some <==> theme_names(*themes).contains(name@),
        found is Some ==> *found->Some_0 == theme_in(*themes, name@),
{
    themes.themes.get(name)
}

/// The stylesheet for a theme's classes
/// (`syntect::html::css_for_theme_with_class_style`), as named. Its source
/// only writes into a `String` and never returns its error.
#[verifier::external_body]
fn theme_stylesheet(theme: &syntect::highlighting::Theme, style: ClassStyle) -> (css: Result<String, syntect::Error>)
    ensures
        css is Ok,
        css is Ok ==> css->Ok_0@ == stylesheet(*theme, style),
{
    let style = match style {
        ClassStyle::Spaced => syntect::html::ClassStyle::Spaced,
    };
    syntect::html::css_for_theme_with_class_style(theme, style)
}

/// Why highlighting failed.
#[derive(Debug, Clone, PartialEq, Eq)]
pub enum HighlightError {
    /// The bundled syntaxes hold none for `.rs` files.
    NoRustSyntax,
    /// The parser failed on this line, 1-based.
    Parse { line: usize },
    /// Rendering this line, 1-based, failed.
    Render { line: usize },
    /// No bundled theme has this name.
    NoTheme { name: String },
    /// Generating the theme's stylesheet failed.
    Css,
}

impl HighlightError {
    /// The error as a sentence.
    pub fn message(&self) -> (r: String)
        ensures
            r@ == error_text(*self),
    {
        let mut v: Vec<char> = Vec::new();
        match self {
            HighlightError::NoRustSyntax => append_str(&mut v, "no Rust syntax definition"),
            HighlightError::Parse { line } => {
                append_str(&mut v, "parsing line ");
                let mut d = decimal_chars(*line as u64);
                v.append(&mut d);
            },
            HighlightError::Render { line } => {
                append_str(&mut v, "highlighting line ");
                let mut d = decimal_chars(*line as u64);
                v.append(&mut d);
            },
            HighlightError::NoTheme { name } => {
                append_str(&mut v, "no theme named ");
                append_str(&mut v, name.as_str());
            },
            HighlightError::Css => append_str(&mut v, "generating theme css"),
        }
        string_of(v.as_slice())
    }
}

/// What each error says.
pub open spec fn error_text(e: HighlightError) -> Seq<char> {
    match e {
        HighlightError::NoRustSyntax => "no Rust syntax definition"@,
        HighlightError::Parse { line } => "parsing line "@ + decimal(line as nat),
        HighlightError::Render { line } => "highlighting line "@ + decimal(line as nat),
        HighlightError::NoTheme { name } => "no theme named "@ + name@,
        HighlightError::Css => "generating theme css"@,
    }
}

/// Prefixes `acc` to a successful result; an error passes through.
pub open spec fn prefixed(acc: Seq<Seq<char>>, r: Result<Seq<Seq<char>>, HighlightError>) -> Result<Seq<Seq<char>>, HighlightError> {
    match r {
        Ok(rest) => Ok(acc + rest),
        Err(e) => Err(e),
    }
}

/// The classed HTML of each line of `ps`, read one after another by the
/// parser `state` with the set `set` and rendered over the scope stack
/// `stack`; numbered from `first`, the first line that fails to parse or
/// to render is the error.
pub open spec fn classed_from(
    set: syntect::parsing::SyntaxSet,
    state: syntect::parsing::ParseState,
    stack: syntect::parsing::ScopeStack,
    ps: Seq<Seq<char>>,
    first: int,
) -> Result<Seq<Seq<char>>, HighlightError>
    decreases ps.len(),
{
    if ps.len() == 0 {
        Ok(Seq::empty())
    } else {
        match line_ops(state, ps[0], set) {
            None => Err(HighlightError::Parse { line: first as usize }),
            Some(ops) => match classed_line(ps[0], ops, ClassStyle::Spaced, stack) {
                None => Err(HighlightError::Render { line: first as usize }),
                Some((h, after)) => prefixed(
                    seq![h],
                    classed_from(set, next_state(state, ps[0], set), after, ps.drop_first(), first + 1),
                ),
            },
        }
    }
}

/// A successful result has one fragment per line; an error is a parse or
/// render error on one of them.
pub proof fn lemma_classed_from(
    set: syntect::parsing::SyntaxSet,
    state: syntect::parsing::ParseState,
    stack: syntect::parsing::ScopeStack,
    ps: Seq<Seq<char>>,
    first: int,
)
    requires
        1 <= first,
        first + ps.len() <= usize::MAX + 1,
    ensures
        match classed_from(set, state, stack, ps, first) {
            Ok(raws) => raws.len() == ps.len(),
            Err(HighlightError::Parse { line }) => first <= line < first + ps.len(),
            Err(HighlightError::Render { line }) => first <= line < first + ps.len(),
            Err(_) => false,
        },
    decreases ps.len(),
{
    if ps.len() > 0 {
        match line_ops(state, ps[0], set) {
            None => {},
            Some(ops) => match classed_line(ps[0], ops, ClassStyle::Spaced, stack) {
                None => {},
                Some((h, after)) => {
                    lemma_classed_from(set, next_state(state, ps[0], set), after, ps.drop_first(), first + 1);
                },
            },
        }
    }
}

/// The bundled syntaxes and themes.
pub struct Highlighter {
    syntaxes: syntect::parsing::SyntaxSet,
    themes: syntect::highlighting::ThemeSet,
    scopes: syntect::parsing::ScopeStack,
}

impl Highlighter {
    /// The names of the themes it holds.
    pub closed spec fn theme_keys(&self) -> Set<Seq<char>> {
        theme_names(self.themes)
    }

    /// Its syntaxes hold one for `.rs` files.
    pub closed spec fn has_rust(&self) -> bool {
        syntax_by_extension(self.syntaxes, seq!['r', 's']) is Some
    }

    /// The classed HTML of each line of `text` under its Rust syntax, the
    /// file parsed once from its start with carried state; or the first
    /// failure.
    pub closed spec fn classed(&self, text: Seq<char>) -> Result<Seq<Seq<char>>, HighlightError> {
        match syntax_by_extension(self.syntaxes, seq!['r', 's']) {
            None => Err(HighlightError::NoRustSyntax),
            Some(syntax) => classed_from(self.syntaxes, start_state(syntax), self.scopes, pieces(text), 1),
        }
    }

    /// The stylesheet of the theme it holds under `name`.
    pub closed spec fn css_of(&self, name: Seq<char>) -> Seq<char> {
        stylesheet(theme_in(self.themes, name), ClassStyle::Spaced)
    }

    /// A successful highlighting has one fragment per line of the text; the
    /// Rust syntax is missing exactly when the highlighter has none, and any
    /// other failure names a line of the text.
    pub proof fn lemma_classed(&self, text: Seq<char>)
        requires
            pieces(text).len() <= usize::MAX,
        ensures
            match self.classed(text) {
                Ok(raws) => raws.len() == pieces(text).len(),
                Err(HighlightError::NoRustSyntax) => !self.has_rust(),
                Err(HighlightError::Parse { line }) => self.has_rust() && 1 <= line <= pieces(text).len(),
                Err(HighlightError::Render { line }) => self.has_rust() && 1 <= line <= pieces(text).len(),
                Err(_) => false,
            },
            !self.has_rust() ==> self.classed(text) == Err::<Seq<Seq<char>>, HighlightError>(HighlightError::NoRustSyntax),
    {
        match syntax_by_extension(self.syntaxes, seq!['r', 's']) {
            None => {},
            Some(syntax) => {
                lemma_classed_from(self.syntaxes, start_state(syntax), self.scopes, pieces(text), 1);
            },
        }
    }

    /// Loads the bundled syntaxes and themes: the syntaxes hold one for
    /// Rust, and every theme that syntect documents as bundled is there.
    pub fn new() -> (h: Highlighter)
        ensures
            h.has_rust(),
            default_theme_names().subset_of(h.theme_keys()),
    {
        Highlighter { syntaxes: load_syntaxes(), themes: load_themes(), scopes: empty_scopes() }
    }

    /// Highlights an entire file, returning one self-contained fragment per
    /// line, numbered from 1: the file is parsed once with carried state,
    /// each line rendered as classed spans, and the lines then balanced as
    /// `balance_lines` does. An error names the first line whose parsing or
    /// rendering failed.
    pub fn file(&self, text: &str) -> (r: Result<Vec<Line>, HighlightError>)
        requires
            pieces(text@).len() <= u32::MAX,
        ensures
            match r {
                Ok(lines) => self.classed(text@) matches Ok(raws) && lines_view(lines@) == balanced(raws),
                Err(e) => self.classed(text@) == Err::<Seq<Seq<char>>, HighlightError>(e),
            },
    {
        let syntax = match syntax_for_extension(&self.syntaxes, "rs") {
            Some(s) => s,
            None => {
                proof {
                    reveal_strlit("rs");
                }
                assert("rs"@ =~= seq!['r', 's']);
                return Err(HighlightError::NoRustSyntax);
            },
        };
        proof {
            reveal_strlit("rs");
        }
        assert("rs"@ =~= seq!['r', 's']);
        let ghost set = self.syntaxes;
        let ghost syn = *syntax;
        let ghost ps = pieces(text@);
        let mut parse = start_parse(syntax);
        let mut stack = copy_scopes(&self.scopes);
        let pieces_v = lines_with_endings(text);
        let mut raws: Vec<String> = Vec::new();
        assert(ps.skip(0) =~= ps);
        assert(ps.take(0) =~= Seq::<Seq<char>>::empty());
        assert(tags_view(raws@) =~= Seq::<Seq<char>>::empty());
        let mut i: usize = 0;
        while i < pieces_v.len()
            invariant
                i <= pieces_v@.len() == ps.len() <= u32::MAX,
                raws@.len() == i,
                ps == pieces(text@),
                tags_view(pieces_v@) == ps,
                set == self.syntaxes,
                syntax_by_extension(set, seq!['r', 's']) == Some(syn),
                self.classed(text@) == classed_from(set, start_state(syn), self.scopes, ps, 1),
                parse == reached(set, syn, ps.take(i as int)),
                classed_from(set, start_state(syn), self.scopes, ps, 1) == prefixed(
                    tags_view(raws@),
                    classed_from(set, parse, stack, ps.skip(i as int), i + 1),
                ),
            decreases pieces_v@.len() - i,
        {
            let ghost p0 = parse;
            let ghost s0 = stack;
            let ghost before = tags_view(raws@);
            let ghost line = ps[i as int];
            assert(pieces_v@[i as int]@ == line);
            assert(ps.skip(i as int)[0] == line);
            assert(ps.skip(i as int).drop_first() =~= ps.skip(i + 1));
            assert(ps.take(i + 1).drop_last() =~= ps.take(i as int));
            assert(ps.take(i + 1).last() == line);
            assert(reached_from(set, seq!['r', 's'], ps.take(i as int)) == Some(parse));
            let ops = match parse_line(&mut parse, pieces_v[i].as_str(), &self.syntaxes) {
                Ok(ops) => ops,
                Err(_) => return Err(HighlightError::Parse { line: i + 1 }),
            };
            let html = match classed_spans(pieces_v[i].as_str(), ops.as_slice(), CLASS_STYLE, &mut stack) {
                Ok((html, _delta)) => html,
                Err(_) => return Err(HighlightError::Render { line: i + 1 }),
            };
            let ghost h = html@;
            raws.push(html);
            proof {
                assert(tags_view(raws@) =~= before.push(h));
                let rest = classed_from(set, parse, stack, ps.skip(i + 1), i + 2);
                assert(classed_from(set, p0, s0, ps.skip(i as int), i + 1) == prefixed(seq![h], rest));
                match rest {
                    Ok(x) => {
                        assert(before + (seq![h] + x) =~= before.push(h) + x);
                    },
                    Err(_) => {},
                }
            }
            i += 1;
        }
        proof {
            assert(ps.skip(i as int).len() == 0);
            assert(tags_view(raws@) + Seq::<Seq<char>>::empty() =~= tags_view(raws@));
        }
        let lines = balance_lines(raws.as_slice());
        Ok(lines)
    }

    /// The stylesheet for the generated classes under a bundled theme:
    /// `NoTheme` exactly when no theme has that name, else the stylesheet
    /// syntect generates for that theme.
    pub fn theme_css(&self, name: &str) -> (r: Result<String, HighlightError>)
        ensures
            self.theme_keys().contains(name@) ==> (r matches Ok(css) && css@ == self.css_of(name@)),
            !self.theme_keys().contains(name@) ==> (r matches Err(HighlightError::NoTheme { name: n }) && n@ == name@),
    {
        let theme = match theme_named(&self.themes, name) {
            Some(t) => t,
            None => return Err(HighlightError::NoTheme { name: string_of(chars_of(name).as_slice()) }),
        };
        match theme_stylesheet(theme, CLASS_STYLE) {
            Ok(css) => Ok(css),
            Err(_) => Err(HighlightError::Css),
        }
    }
}

proof fn lemma_numbered_from(open: Seq<Seq<char>>, raws: Seq<Seq<char>>, first: int)
    requires
        1 <= first,
        first + raws.len() <= u32::MAX + 1,
    ensures
        balanced_from(open, raws, first).len() == raws.len(),
        forall|i: int| 0 <= i < raws.len() ==> #[trigger] balanced_from(open, raws, first)[i].0 == first + i,
    decreases raws.len(),
{
    if raws.len() > 0 {
        let b = balance_spec(open, trim_newlines(raws[0]));
        lemma_numbered_from(b.1, raws.drop_first(), first + 1);
        assert forall|i: int| 0 <= i < raws.len() implies #[trigger] balanced_from(open, raws, first)[i].0 == first + i by {
            if i > 0 {
                assert(balanced_from(open, raws, first)[i] == balanced_from(b.1, raws.drop_first(), first + 1)[i - 1]);
            }
        }
    }
}

/// A highlighted file has one line per line of text, numbered 1, 2, 3, …
/// with none skipped or repeated.
pub proof fn law_lines_are_numbered_from_one(raws: Seq<Seq<char>>)
    requires
        raws.len() <= u32::MAX,
    ensures
        balanced(raws).len() == raws.len(),
        forall|i: int| 0 <= i < raws.len() ==> #[trigger] balanced(raws)[i].0 == i + 1,
{
    lemma_numbered_from(Seq::empty(), raws, 1);
}

/// Every opening tag that starts in `s` is finished in it: a `>` follows.
pub open spec fn heads_closed(s: Seq<char>) -> bool {
    forall|p: int| #[trigger] occurs_at(s, open_head(), p) ==> first_of(s.skip(p), '>') < s.len() - p
}

/// A whole opening tag: `<span`, then anything up to its first `>`, which
/// ends it.
pub open spec fn tag_wf(t: Seq<char>) -> bool {
    &&& t.len() >= 5
    &&& t.take(5) == open_head()
    &&& first_of(t, '>') == t.len() - 1
}

/// No tag can be read across the seam between `a` and `b`.
pub open spec fn no_straddle(a: Seq<char>, b: Seq<char>) -> bool {
    a.len() == 0 || b.len() == 0 || b[0] == '<' || a.last() == '>'
}

proof fn lemma_first_of_concat(x: Seq<char>, y: Seq<char>, c: char)
    requires
        first_of(x, c) < x.len(),
    ensures
        first_of(x + y, c) == first_of(x, c),
    decreases x.len(),
{
    if x.len() > 0 && x[0] != c {
        assert((x + y).drop_first() =~= x.drop_first() + y);
        lemma_first_of_concat(x.drop_first(), y, c);
    }
}

proof fn lemma_first_of_bound(s: Seq<char>, c: char)
    ensures
        first_of(s, c) <= s.len(),
        first_of(s, c) < s.len() ==> s[first_of(s, c) as int] == c,
        forall|i: int| 0 <= i < first_of(s, c) ==> s[i] != c,
    decreases s.len(),
{
    if s.len() > 0 && s[0] != c {
        lemma_first_of_bound(s.drop_first(), c);
        assert forall|i: int| 0 <= i < first_of(s, c) implies s[i] != c by {
            if i > 0 {
                assert(s[i] == s.drop_first()[i - 1]);
            }
        }
    }
}

proof fn lemma_read_after(o: Seq<Seq<char>>, a: Seq<char>, b: Seq<char>, j: int)
    requires
        0 <= j <= b.len(),
    ensures
        track_from(o, a + b, a.len() + j) == track_from(o, b, j),
    decreases b.len() - j,
{
    let s = a + b;
    let i = a.len() + j;
    if j < b.len() {
        assert(s[i] == b[j]);
        assert(s.skip(i) =~= b.skip(j));
        assert(occurs_at(s, close_tag(), i) == occurs_at(b, close_tag(), j)) by {
            if i + 7 <= s.len() {
                assert(s.subrange(i, i + 7) =~= b.subrange(j, j + 7));
            }
        }
        assert(occurs_at(s, open_head(), i) == occurs_at(b, open_head(), j)) by {
            if i + 5 <= s.len() {
                assert(s.subrange(i, i + 5) =~= b.subrange(j, j + 5));
            }
        }
        if s[i] != '<' {
            lemma_read_after(o, a, b, j + 1);
        } else if occurs_at(b, close_tag(), j) {
            lemma_read_after(pop_tag(o), a, b, j + 7);
        } else if occurs_at(b, open_head(), j) {
            let e = j + first_of(b.skip(j), '>');
            lemma_first_of_bound(b.skip(j), '>');
            if e < b.len() {
                assert(s.subrange(i, a.len() + e + 1) =~= b.subrange(j, e + 1));
                lemma_read_after(o.push(b.subrange(j, e + 1)), a, b, e + 1);
            }
        } else {
            lemma_read_after(o, a, b, j + 1);
        }
    }
}

proof fn lemma_no_straddle_close(a: Seq<char>, b: Seq<char>, i: int)
    requires
        0 <= i < a.len(),
        i + 7 > a.len(),
        no_straddle(a, b),
    ensures
        !occurs_at(a + b, close_tag(), i),
{
    let s = a + b;
    if !occurs_at(s, close_tag(), i) {
        return;
    }
    assert(s.subrange(i, i + 7) == close_tag());
    if b.len() > 0 && b[0] == '<' {
        let k = a.len() - i;
        assert(s[a.len() as int] == '<');
        assert(s.subrange(i, i + 7)[k] == s[a.len() as int]);
        assert(1 <= k <= 6);
    } else {
        let k = a.len() - 1 - i;
        assert(s[a.len() - 1] == a.last());
        assert(s.subrange(i, i + 7)[k] == s[a.len() - 1]);
        assert(0 <= k <= 5);
    }
}

proof fn lemma_no_straddle_head(a: Seq<char>, b: Seq<char>, i: int)
    requires
        0 <= i < a.len(),
        i + 5 > a.len(),
        no_straddle(a, b),
    ensures
        !occurs_at(a + b, open_head(), i),
{
    let s = a + b;
    if !occurs_at(s, open_head(), i) {
        return;
    }
    assert(s.subrange(i, i + 5) == open_head());
    if b.len() > 0 && b[0] == '<' {
        let k = a.len() - i;
        assert(s[a.len() as int] == '<');
        assert(s.subrange(i, i + 5)[k] == s[a.len() as int]);
        assert(1 <= k <= 4);
    } else {
        let k = a.len() - 1 - i;
        assert(s[a.len() - 1] == a.last());
        assert(s.subrange(i, i + 5)[k] == s[a.len() - 1]);
        assert(0 <= k <= 4);
    }
}

/// Reading `a` then `b` is reading `a`, and then `b` from where `a` left
/// the stack, when no tag straddles the seam and `a` finishes its tags.
proof fn lemma_read_concat(o: Seq<Seq<char>>, a: Seq<char>, b: Seq<char>, i: int)
    requires
        0 <= i <= a.len(),
        heads_closed(a),
        no_straddle(a, b),
    ensures
        track_from(o, a + b, i) == track_from(track_from(o, a, i), b, 0),
    decreases a.len() - i,
{
    let s = a + b;
    if i == a.len() {
        lemma_read_after(o, a, b, 0);
    } else {
        assert(s[i] == a[i]);
        if occurs_at(a, close_tag(), i) {
            assert(s.subrange(i, i + 7) =~= a.subrange(i, i + 7));
        } else if occurs_at(s, close_tag(), i) {
            if i + 7 <= a.len() {
                assert(s.subrange(i, i + 7) =~= a.subrange(i, i + 7));
            } else {
                lemma_no_straddle_close(a, b, i);
            }
        }
        if occurs_at(a, open_head(), i) {
            assert(s.subrange(i, i + 5) =~= a.subrange(i, i + 5));
        } else if occurs_at(s, open_head(), i) {
            if i + 5 <= a.len() {
                assert(s.subrange(i, i + 5) =~= a.subrange(i, i + 5));
            } else {
                lemma_no_straddle_head(a, b, i);
            }
        }
        if a[i] != '<' {
            lemma_read_concat(o, a, b, i + 1);
        } else if occurs_at(a, close_tag(), i) {
            lemma_read_concat(pop_tag(o), a, b, i + 7);
        } else if occurs_at(a, open_head(), i) {
            let f = first_of(a.skip(i), '>');
            assert(f < a.len() - i);
            assert(s.skip(i) =~= a.skip(i) + b);
            lemma_first_of_concat(a.skip(i), b, '>');
            let e = i + f;
            assert(s.subrange(i, e + 1) =~= a.subrange(i, e + 1));
            lemma_read_concat(o.push(a.subrange(i, e + 1)), a, b, e + 1);
        } else {
            lemma_read_concat(o, a, b, i + 1);
        }
    }
}

proof fn lemma_read_tag(o: Seq<Seq<char>>, t: Seq<char>)
    requires
        tag_wf(t),
    ensures
        track_from(o, t, 0) == o.push(t),
{
    assert(t.subrange(0, 5) =~= t.take(5));
    assert(t[0] == '<');
    assert(!occurs_at(t, close_tag(), 0)) by {
        if occurs_at(t, close_tag(), 0) {
            assert(t.subrange(0, 7)[1] == t[1]);
            assert(t.take(5)[1] == t[1]);
        }
    }
    assert(occurs_at(t, open_head(), 0));
    assert(t.skip(0) =~= t);
    assert(first_of(t.skip(0), '>') == t.len() - 1);
    assert(t.subrange(0, t.len() as int) =~= t);
    assert(track_from(o.push(t), t, t.len() as int) == o.push(t));
}

proof fn lemma_tag_ends(t: Seq<char>)
    requires
        tag_wf(t),
    ensures
        t.last() == '>',
        heads_closed(t),
{
    lemma_first_of_bound(t, '>');
    assert forall|p: int| #[trigger] occurs_at(t, open_head(), p) implies first_of(t.skip(p), '>') < t.len() - p by {
        lemma_first_of_bound(t.skip(p), '>');
        assert(t.subrange(p, p + 5)[0] == t[p]);
        if first_of(t.skip(p), '>') >= t.len() - p {
            assert(t.skip(p)[t.len() - 1 - p] == t.last());
        }
    }
}

proof fn lemma_ends_closed(s: Seq<char>)
    requires
        s.len() == 0 || s.last() == '>',
    ensures
        heads_closed(s),
{
    assert forall|p: int| #[trigger] occurs_at(s, open_head(), p) implies first_of(s.skip(p), '>') < s.len() - p by {
        lemma_first_of_bound(s.skip(p), '>');
        assert(s.len() > 0);
        if first_of(s.skip(p), '>') >= s.len() - p {
            assert(s.skip(p)[s.len() - 1 - p] == s.last());
        }
    }
}

proof fn lemma_read_tags(o: Seq<Seq<char>>, tags: Seq<Seq<char>>)
    requires
        forall|k: int| 0 <= k < tags.len() ==> tag_wf(#[trigger] tags[k]),
    ensures
        track_from(o, tags.flatten(), 0) == o + tags,
        tags.flatten().len() == 0 || tags.flatten().last() == '>',
    decreases tags.len(),
{
    if tags.len() == 0 {
        assert(o + tags =~= o);
        assert(track_from(o, Seq::<char>::empty(), 0) == o);
    } else {
        let d = tags.drop_last();
        let t = tags.last();
        assert(tags =~= d.push(t));
        d.lemma_flatten_push(t);
        assert(forall|k: int| 0 <= k < d.len() ==> d[k] == tags[k]);
        lemma_read_tags(o, d);
        lemma_ends_closed(d.flatten());
        assert(tag_wf(t));
        lemma_tag_ends(t);
        assert(t[0] == '<') by {
            assert(t.take(5)[0] == t[0]);
        }
        lemma_read_concat(o, d.flatten(), t, 0);
        lemma_read_tag(o + d, t);
        assert(o + tags =~= (o + d).push(t));
        assert((d.flatten() + t).last() == t.last());
    }
}

proof fn lemma_read_closes(o: Seq<Seq<char>>, m: nat)
    requires
        m <= o.len(),
    ensures
        track_from(o, repeat(close_tag(), m), 0) == o.take(o.len() - m),
    decreases m,
{
    if m == 0 {
        assert(o.take(o.len() as int) =~= o);
    } else {
        let r = repeat(close_tag(), (m - 1) as nat);
        lemma_read_closes(o, (m - 1) as nat);
        lemma_ends_closed_closes((m - 1) as nat);
        lemma_read_concat(o, r, close_tag(), 0);
        let mid = o.take(o.len() - (m - 1));
        assert(close_tag()[0] == '<');
        assert(close_tag().subrange(0, 7) =~= close_tag());
        assert(track_from(pop_tag(mid), close_tag(), 7) == pop_tag(mid));
        assert(pop_tag(mid) =~= o.take(o.len() - m));
    }
}

proof fn lemma_ends_closed_closes(m: nat)
    ensures
        heads_closed(repeat(close_tag(), m)),
        repeat(close_tag(), m).len() == 0 || repeat(close_tag(), m).last() == '>',
    decreases m,
{
    if m > 0 {
        lemma_ends_closed_closes((m - 1) as nat);
    }
    lemma_ends_closed(repeat(close_tag(), m));
}

/// A line made to stand alone leaves no tag open: read by itself, it opens
/// the tags open before it, reads its own tags, and closes every tag open
/// after it — so long as the tags reopened are whole opening tags and every
/// opening tag the raw line starts is finished on it.
pub proof fn law_a_balanced_line_stands_alone(open: Seq<Seq<char>>, raw: Seq<char>)
    requires
        forall|k: int| 0 <= k < open.len() ==> tag_wf(#[trigger] open[k]),
        heads_closed(raw),
    ensures
        track_from(Seq::empty(), balance_spec(open, raw).0, 0) == Seq::<Seq<char>>::empty(),
{
    let f = open.flatten();
    let after = track_from(open, raw, 0);
    let c = repeat(close_tag(), after.len());
    lemma_read_tags(Seq::empty(), open);
    assert(Seq::<Seq<char>>::empty() + open =~= open);
    lemma_ends_closed(f);
    lemma_ends_closed_closes(after.len());
    assert(f + raw + c =~= f + (raw + c));
    assert(no_straddle(f, raw + c));
    lemma_read_concat(Seq::empty(), f, raw + c, 0);
    assert(no_straddle(raw, c)) by {
        if c.len() > 0 && raw.len() > 0 {
            assert(c.len() >= 7) by {
                lemma_repeat_len(close_tag(), after.len());
            }
            lemma_repeat_first(after.len());
        }
    }
    lemma_read_concat(open, raw, c, 0);
    lemma_read_closes(after, after.len());
    assert(after.take(0) =~= Seq::<Seq<char>>::empty());
}

proof fn lemma_track_tags(o: Seq<Seq<char>>, s: Seq<char>, i: int)
    requires
        forall|k: int| 0 <= k < o.len() ==> tag_wf(#[trigger] o[k]),
    ensures
        forall|k: int| 0 <= k < track_from(o, s, i).len() ==> tag_wf(#[trigger] track_from(o, s, i)[k]),
    decreases s.len() - i,
{
    let r = track_from(o, s, i);
    if 0 <= i < s.len() {
        if s[i] != '<' {
            lemma_track_tags(o, s, i + 1);
            assert(r == track_from(o, s, i + 1));
        } else if occurs_at(s, close_tag(), i) {
            assert forall|k: int| 0 <= k < pop_tag(o).len() implies tag_wf(#[trigger] pop_tag(o)[k]) by {
                assert(pop_tag(o)[k] == o[k]);
            }
            lemma_track_tags(pop_tag(o), s, i + 7);
            assert(r == track_from(pop_tag(o), s, i + 7));
        } else if occurs_at(s, open_head(), i) {
            let x = s.skip(i);
            let f = first_of(x, '>') as int;
            let e = i + f;
            if e < s.len() {
                lemma_first_of_bound(x, '>');
                let t = s.subrange(i, e + 1);
                assert(t =~= x.take(f + 1));
                assert(s.subrange(i, i + 5) == open_head());
                assert forall|j: int| 0 <= j < 5 implies x[j] == open_head()[j] by {
                    assert(x[j] == s.subrange(i, i + 5)[j]);
                }
                assert(f >= 5) by {
                    if f < 5 {
                        assert(x[f] == open_head()[f]);
                    }
                }
                assert(t.take(5) =~= open_head()) by {
                    assert forall|j: int| 0 <= j < 5 implies t.take(5)[j] == open_head()[j] by {
                        assert(t[j] == x[j]);
                    }
                }
                crate::text::lemma_first_of(t, '>', f);
                assert(tag_wf(t));
                let o2 = o.push(t);
                assert forall|k: int| 0 <= k < o2.len() implies tag_wf(#[trigger] o2[k]) by {
                    if k < o.len() {
                        assert(o2[k] == o[k]);
                    }
                }
                lemma_track_tags(o2, s, e + 1);
                assert(r == track_from(o2, s, e + 1));
            } else {
                assert(r == o);
            }
        } else {
            lemma_track_tags(o, s, i + 1);
            assert(r == track_from(o, s, i + 1));
        }
    } else {
        assert(r == o);
    }
}

proof fn lemma_file_stands_alone(open: Seq<Seq<char>>, raws: Seq<Seq<char>>, first: int)
    requires
        forall|k: int| 0 <= k < open.len() ==> tag_wf(#[trigger] open[k]),
        forall|i: int| 0 <= i < raws.len() ==> heads_closed(trim_newlines(#[trigger] raws[i])),
    ensures
        forall|i: int| 0 <= i < balanced_from(open, raws, first).len() ==>
            track_from(Seq::empty(), #[trigger] balanced_from(open, raws, first)[i].1, 0) == Seq::<Seq<char>>::empty(),
    decreases raws.len(),
{
    if raws.len() > 0 {
        let raw = trim_newlines(raws[0]);
        let b = balance_spec(open, raw);
        law_a_balanced_line_stands_alone(open, raw);
        lemma_track_tags(open, raw, 0);
        let rest = raws.drop_first();
        assert forall|i: int| 0 <= i < rest.len() implies heads_closed(trim_newlines(#[trigger] rest[i])) by {
            assert(rest[i] == raws[i + 1]);
        }
        lemma_file_stands_alone(b.1, rest, first + 1);
        let all = balanced_from(open, raws, first);
        assert forall|i: int| 0 <= i < all.len() implies
            track_from(Seq::empty(), #[trigger] all[i].1, 0) == Seq::<Seq<char>>::empty() by {
            if i > 0 {
                assert(all[i] == balanced_from(b.1, rest, first + 1)[i - 1]);
            }
        }
    }
}

/// Every line of a highlighted file stands alone: read by itself, each
/// leaves no tag open — so long as every opening tag a line's raw
/// fragment starts is finished on that line.
pub proof fn law_every_highlighted_line_stands_alone(raws: Seq<Seq<char>>)
    requires
        forall|i: int| 0 <= i < raws.len() ==> heads_closed(trim_newlines(#[trigger] raws[i])),
    ensures
        forall|i: int| 0 <= i < balanced(raws).len() ==>
            track_from(Seq::empty(), #[trigger] balanced(raws)[i].1, 0) == Seq::<Seq<char>>::empty(),
{
    lemma_file_stands_alone(Seq::empty(), raws, 1);
}

proof fn lemma_repeat_len(p: Seq<char>, m: nat)
    ensures
        repeat(p, m).len() == m * p.len(),
    decreases m,
{
    if m > 0 {
        lemma_repeat_len(p, (m - 1) as nat);
        assert(repeat(p, m).len() == (m - 1) * p.len() + p.len());
        assert((m - 1) * p.len() + p.len() == m * p.len()) by (nonlinear_arith);
    } else {
        assert(0 * p.len() == 0) by (nonlinear_arith);
    }
}

proof fn lemma_repeat_first(m: nat)
    requires
        m > 0,
    ensures
        repeat(close_tag(), m)[0] == '<',
    decreases m,
{
    let r = repeat(close_tag(), (m - 1) as nat);
    assert(repeat(close_tag(), m) == r + close_tag());
    if m > 1 {
        lemma_repeat_first((m - 1) as nat);
        lemma_repeat_len(close_tag(), (m - 1) as nat);
        assert((m - 1) * 7 >= 7) by (nonlinear_arith)
            requires
                m > 1;
        assert((r + close_tag())[0] == r[0]);
    } else {
        assert(r =~= Seq::<char>::empty());
        assert((r + close_tag())[0] == close_tag()[0]);
    }
}

/// Lines numbered from `start`, as they stand in the file they are cut from.
pub open spec fn numbered_from(ls: Seq<(u32, Seq<char>)>, start: int) -> Seq<(u32, Seq<char>)> {
    ls.map(|i: int, x: (u32, Seq<char>)| ((start + i) as u32, x.1))
}

/// What `highlight_at` gives: the lines highlighted as a file of their own
/// and numbered from `start`, or the highlighter's error.
pub open spec fn highlighted(hl: Highlighter, text: Seq<char>, start: int) -> Result<Seq<(u32, Seq<char>)>, HighlightError> {
    match hl.classed(text) {
        Ok(raws) => Ok(numbered_from(balanced(raws), start)),
        Err(e) => Err(e),
    }
}

/// Highlights lines cut from a file, highlighted as a file of their own
/// and then numbered from `start`, where they sit in the file they were cut
/// from, so the reader can check the citation there.
pub fn highlight_at(hl: &Highlighter, text: &str, start: u32) -> (r: Result<Vec<Line>, HighlightError>)
    requires
        1 <= start,
        start + pieces(text@).len() <= u32::MAX + 1,
    ensures
        match r {
            Ok(code) => highlighted(*hl, text@, start as int) matches Ok(v) && lines_view(code@) == v,
            Err(e) => highlighted(*hl, text@, start as int) == Err::<Seq<(u32, Seq<char>)>, HighlightError>(e),
        },
{
    let mut code = match hl.file(text) {
        Ok(c) => c,
        Err(e) => return Err(e),
    };
    let ghost raws = hl.classed(text@)->Ok_0;
    proof {
        hl.lemma_classed(text@);
        lemma_balanced_len(Seq::empty(), raws, 1);
    }
    let ghost hl_view = lines_view(code@);
    let ghost raws = choose|raws: Seq<Seq<char>>| raws.len() == pieces(text@).len() && lines_view(code@) == #[trigger] balanced(raws);
    proof {
        lemma_balanced_len(Seq::empty(), raws, 1);
    }
    let n = code.len();
    let mut i: usize = 0;
    while i < n
        invariant
            i <= n == code@.len() == hl_view.len(),
            start + hl_view.len() <= u32::MAX + 1,
            lines_view(code@) == numbered_from(hl_view, start as int).take(i as int) + hl_view.skip(i as int),
        decreases n - i,
    {
        let ghost before = code@;
        code[i].number = start + i as u32;
        let ghost want = numbered_from(hl_view, start as int).take(i + 1) + hl_view.skip(i + 1);
        assert(code@[i as int].html == before[i as int].html);
        assert(lines_view(before)[i as int] == hl_view[i as int]);
        assert forall|k: int| 0 <= k < code@.len() implies lines_view(code@)[k] == want[k] by {
            if k < i {
                assert(code@[k] == before[k]);
                assert(lines_view(before)[k] == numbered_from(hl_view, start as int)[k]);
            } else if k > i {
                assert(code@[k] == before[k]);
                assert(lines_view(before)[k] == hl_view[k]);
            }
        }
        assert(lines_view(code@) =~= want);
        i += 1;
    }
    assert(lines_view(code@) =~= numbered_from(hl_view, start as int));
    Ok(code)
}

} // verus!
