//! What the site generator computes before anything is rendered: labels,
//! anchors, page names, how a file splits into blocks, and where a claimed
//! snippet sits in generated code.
use crate::schema::{CourseUnit, Kind, Supplement, UnitStatus};
use crate::store::{Store, Unit};
use crate::text::{
    chars_of, decimal, decimal_chars, find, find_in, is_ws, lines, opt_pos, replace_all, replace_in,
    split_lines, string_of, trim, trimmed, views, words,
};
use vstd::prelude::*;

verus! {

/// One source line, highlighted and self-contained.
#[derive(Debug, Clone)]
pub struct Line {
    pub number: u32,
    pub html: String,
}

/// A line as plain values.
pub open spec fn line_view(l: Line) -> (u32, Seq<char>) {
    (l.number, l.html@)
}

/// Lines as plain values.
pub open spec fn lines_view(ls: Seq<Line>) -> Seq<(u32, Seq<char>)> {
    ls.map_values(|l: Line| line_view(l))
}

/// A link into the glossary page.
#[derive(Debug)]
pub struct GlossLink {
    pub id: String,
    pub anchor: String,
}

/// `syn::DeriveInput` becomes `syn-DeriveInput`, usable as a URL fragment.
pub fn gloss_anchor(id: &str) -> (r: String)
    ensures
        r@ == replace_all(id@, seq![':', ':'], seq!['-']),
{
    let mut pat: Vec<char> = Vec::new();
    pat.push(':');
    pat.push(':');
    let mut rep: Vec<char> = Vec::new();
    rep.push('-');
    assert(pat@ =~= seq![':', ':']);
    assert(rep@ =~= seq!['-']);
    let s = chars_of(id);
    let out = replace_in(&s, &pat, &rep);
    string_of(out.as_slice())
}

/// One link per cited glossary id, in order.
pub fn gloss_links(ids: &[String]) -> (r: Vec<GlossLink>)
    ensures
        r@.len() == ids@.len(),
        forall|i: int|
            0 <= i < ids@.len() ==> (#[trigger] r@[i]).id@ == ids@[i]@ && r@[i].anchor@ == replace_all(
                ids@[i]@,
                seq![':', ':'],
                seq!['-'],
            ),
{
    let mut r: Vec<GlossLink> = Vec::new();
    let mut i: usize = 0;
    while i < ids.len()
        invariant
            i <= ids@.len(),
            r@.len() == i,
            forall|k: int|
                0 <= k < i ==> (#[trigger] r@[k]).id@ == ids@[k]@ && r@[k].anchor@ == replace_all(
                    ids@[k]@,
                    seq![':', ':'],
                    seq!['-'],
                ),
        decreases ids@.len() - i,
    {
        let id = string_of(chars_of(ids[i].as_str()).as_slice());
        let anchor = gloss_anchor(ids[i].as_str());
        r.push(GlossLink { id, anchor });
        i += 1;
    }
    r
}

/// `line 7`, or `lines 7–9` with an en dash.
pub open spec fn label_spec(start: u32, end: u32) -> Seq<char> {
    if start == end {
        seq!['l', 'i', 'n', 'e', ' '] + decimal(start as nat)
    } else {
        seq!['l', 'i', 'n', 'e', 's', ' '] + decimal(start as nat) + seq!['\u{2013}'] + decimal(
            end as nat,
        )
    }
}

fn push_all(v: &mut Vec<char>, s: &Vec<char>)
    ensures
        final(v)@ == old(v)@ + s@,
{
    let ghost v0 = v@;
    let mut k: usize = 0;
    while k < s.len()
        invariant
            k <= s@.len(),
            v@ == v0 + s@.take(k as int),
        decreases s@.len() - k,
    {
        v.push(s[k]);
        k += 1;
        assert(s@.take(k as int) =~= s@.take(k - 1).push(s@[k - 1]));
    }
    assert(s@.take(k as int) =~= s@);
}

/// The label of a line range.
pub fn label(start: u32, end: u32) -> (r: String)
    ensures
        r@ == label_spec(start, end),
{
    let mut out: Vec<char> = Vec::new();
    out.push('l');
    out.push('i');
    out.push('n');
    out.push('e');
    if start != end {
        out.push('s');
    }
    out.push(' ');
    push_all(&mut out, &decimal_chars(start as u64));
    if start != end {
        out.push('\u{2013}');
        push_all(&mut out, &decimal_chars(end as u64));
    }
    assert(out@ =~= label_spec(start, end));
    string_of(out.as_slice())
}

/// Whether `char::is_uppercase` holds of `c`.
pub uninterp spec fn is_uppercase(c: char) -> bool;

/// The characters `char::to_lowercase` yields for `c`.
pub uninterp spec fn lowercase(c: char) -> Seq<char>;

/// `char::is_uppercase`: trusted to return `is_uppercase(c)`, and, as its
/// documentation gives for ASCII, true of `A` to `Z` and false of `a` to `z`.
#[verifier::external_body]
fn char_is_uppercase(c: char) -> (r: bool)
    ensures
        r == is_uppercase(c),
        'A' <= c <= 'Z' ==> r,
        'a' <= c <= 'z' ==> !r,
{
    c.is_uppercase()
}

/// `char::to_lowercase`, collected: trusted to return `lowercase(c)`, and,
/// as its documentation gives for ASCII, `c` shifted down for `A` to `Z`.
#[verifier::external_body]
fn char_to_lowercase(c: char) -> (r: Vec<char>)
    ensures
        r@ == lowercase(c),
        'A' <= c <= 'Z' ==> r@ == seq![((c as u32) + 32) as char],
{
    c.to_lowercase().collect()
}

/// `kind_label` over the first `n` characters.
pub open spec fn kind_label_prefix(s: Seq<char>, n: int) -> Seq<char>
    decreases n,
{
    if n <= 0 {
        Seq::empty()
    } else {
        kind_label_prefix(s, n - 1) + (if is_uppercase(s[n - 1]) && n - 1 > 0 {
            seq![' ']
        } else {
            Seq::empty()
        }) + lowercase(s[n - 1])
    }
}

/// `TraitItem` becomes `trait item`: a space before every uppercase letter
/// but the first, and everything lowercased.
pub fn kind_label(debug_name: &str) -> (r: String)
    ensures
        r@ == kind_label_prefix(debug_name@, debug_name@.len() as int),
{
    let cs = chars_of(debug_name);
    let mut out: Vec<char> = Vec::new();
    let mut i: usize = 0;
    while i < cs.len()
        invariant
            i <= cs@.len(),
            cs@ == debug_name@,
            out@ == kind_label_prefix(cs@, i as int),
        decreases cs@.len() - i,
    {
        let c = cs[i];
        let ghost before = out@;
        let up = char_is_uppercase(c);
        if up && i > 0 {
            out.push(' ');
        }
        let low = char_to_lowercase(c);
        push_all(&mut out, &low);
        assert(out@ =~= kind_label_prefix(cs@, i + 1));
        i += 1;
    }
    string_of(out.as_slice())
}

/// A macro definition's name, from a title that leads with it:
/// `primitive_impl! — one impl, sixteen times` gives `primitive_impl!`. A
/// title that does not lead with a macro name is kept whole.
pub open spec fn macro_name_spec(title: Seq<char>) -> Seq<char> {
    let ws = words(title);
    if ws.len() > 0 && ws[0].len() > 0 && ws[0].last() == '!' {
        ws[0]
    } else {
        title
    }
}

/// The first whitespace-separated word of `s`.
fn first_word(s: &Vec<char>) -> (r: Option<Vec<char>>)
    ensures
        match r {
            Some(w) => words(s@).len() > 0 && w@ == words(s@)[0],
            None => words(s@).len() == 0,
        },
{
    let mut i: usize = 0;
    assert(s@.skip(0) =~= s@);
    while i < s.len() && crate::text::is_whitespace(s[i])
        invariant
            i <= s@.len(),
            words(s@) == words(s@.skip(i as int)),
        decreases s@.len() - i,
    {
        assert(s@.skip(i as int).drop_first() =~= s@.skip(i + 1));
        i += 1;
    }
    if i == s.len() {
        assert(s@.skip(i as int) =~= Seq::<char>::empty());
        return None;
    }
    let mut j = i;
    while j < s.len() && !crate::text::is_whitespace(s[j])
        invariant
            i <= j <= s@.len(),
            forall|k: int| i <= k < j ==> !is_ws(s@[k]),
        decreases s@.len() - j,
    {
        j += 1;
    }
    proof {
        let ghost t = s@.skip(i as int);
        lemma_first_ws_at(t, j - i);
        crate::text::lemma_first_ws(t);
    }
    Some(crate::text::copy_range(s.as_slice(), i, j))
}

proof fn lemma_first_ws_at(t: Seq<char>, k: int)
    requires
        0 <= k <= t.len(),
        forall|m: int| 0 <= m < k ==> !is_ws(t[m]),
        k < t.len() ==> is_ws(t[k]),
    ensures
        crate::text::first_ws(t) == k,
    decreases k,
{
    if k > 0 {
        lemma_first_ws_at(t.drop_first(), k - 1);
    }
}

/// The macro name a `macro-def` title leads with, or the title itself.
pub fn macro_name(title: &str) -> (r: String)
    ensures
        r@ == macro_name_spec(title@),
{
    let cs = chars_of(title);
    match first_word(&cs) {
        Some(w) => {
            if w.len() > 0 && w[w.len() - 1] == '!' {
                string_of(w.as_slice())
            } else {
                string_of(cs.as_slice())
            }
        },
        None => string_of(cs.as_slice()),
    }
}

/// Lines with surrounding whitespace stripped.
pub open spec fn trimmed_lines(s: Seq<char>) -> Seq<Seq<char>> {
    lines(s).map_values(|l: Seq<char>| trim(l))
}

/// `s` without its leading empty lines.
pub open spec fn skip_empty_front(s: Seq<Seq<char>>) -> Seq<Seq<char>>
    decreases s.len(),
{
    if s.len() > 0 && s[0].len() == 0 {
        skip_empty_front(s.drop_first())
    } else {
        s
    }
}

/// `s` without its trailing empty lines.
pub open spec fn drop_empty_back(s: Seq<Seq<char>>) -> Seq<Seq<char>>
    decreases s.len(),
{
    if s.len() > 0 && s.last().len() == 0 {
        drop_empty_back(s.drop_last())
    } else {
        s
    }
}

/// The snippet's lines as they are compared: trimmed, without empty lines at
/// either end.
pub open spec fn wanted_lines(snippet: Seq<char>) -> Seq<Seq<char>> {
    drop_empty_back(skip_empty_front(trimmed_lines(snippet)))
}

/// The snippet's lines, trimmed, equal the text's trimmed lines from `at`.
pub open spec fn located_at(text: Seq<char>, snippet: Seq<char>, at: int) -> bool {
    let want = wanted_lines(snippet);
    let have = trimmed_lines(text);
    0 <= at && at + want.len() <= have.len() && have.subrange(at, at + want.len()) == want
}

fn trimmed_all(ls: &Vec<Vec<char>>) -> (r: Vec<Vec<char>>)
    ensures
        views(r@) == views(ls@).map_values(|l: Seq<char>| trim(l)),
{
    let mut r: Vec<Vec<char>> = Vec::new();
    let mut i: usize = 0;
    while i < ls.len()
        invariant
            i <= ls@.len(),
            views(r@) == views(ls@).take(i as int).map_values(|l: Seq<char>| trim(l)),
        decreases ls@.len() - i,
    {
        let t = trimmed(ls[i].as_slice());
        let ghost r0 = r@;
        r.push(t);
        assert(views(r@) =~= views(ls@).take(i + 1).map_values(|l: Seq<char>| trim(l))) by {
            assert(views(r@) =~= views(r0).push(t@));
        }
        i += 1;
    }
    assert(views(ls@).take(i as int) =~= views(ls@));
    r
}

/// Where a snippet sits in a text: `(first line index, line count)`.
///
/// Lines are compared with surrounding whitespace stripped, and blank lines
/// at the ends of the snippet are ignored, so re-indented generated code
/// still matches while a changed token does not. The first position wins; a
/// snippet with no non-blank line is found nowhere.
pub fn locate(text: &str, snippet: &str) -> (r: Option<(usize, usize)>)
    ensures
        match r {
            Some((at, n)) => n == wanted_lines(snippet@).len() && n > 0 && located_at(
                text@,
                snippet@,
                at as int,
            ) && forall|k: int| 0 <= k < at ==> !located_at(text@, snippet@, k),
            None => wanted_lines(snippet@).len() == 0 || forall|k: int|
                !located_at(text@, snippet@, k),
        },
{
    let sc = chars_of(snippet);
    let sl = split_lines(sc.as_slice());
    let mut want = trimmed_all(&sl);
    let ghost full = views(want@);
    assert(full == trimmed_lines(snippet@));
    // Leading empty lines.
    let mut lo: usize = 0;
    assert(full.skip(0) =~= full);
    while lo < want.len() && want[lo].len() == 0
        invariant
            lo <= want@.len(),
            full == views(want@),
            skip_empty_front(full) == skip_empty_front(full.skip(lo as int)),
        decreases want@.len() - lo,
    {
        assert(full.skip(lo as int).drop_first() =~= full.skip(lo + 1));
        lo += 1;
    }
    let ghost front = full.skip(lo as int);
    assert(skip_empty_front(front) == front);
    let mut hi: usize = want.len();
    while hi > lo && want[hi - 1].len() == 0
        invariant
            lo <= hi <= want@.len(),
            full == views(want@),
            drop_empty_back(front) == drop_empty_back(full.subrange(lo as int, hi as int)),
        decreases hi,
    {
        assert(full.subrange(lo as int, hi as int).drop_last() =~= full.subrange(lo as int, hi - 1));
        hi -= 1;
    }
    let ghost w = full.subrange(lo as int, hi as int);
    assert(drop_empty_back(w) == w);
    assert(w == wanted_lines(snippet@));
    let n = hi - lo;
    if n == 0 {
        return None;
    }
    let tc = chars_of(text);
    let tl = split_lines(tc.as_slice());
    let have = trimmed_all(&tl);
    let ghost hv = views(have@);
    assert(hv == trimmed_lines(text@));
    if n > have.len() {
        assert forall|k: int| !located_at(text@, snippet@, k) by {}
        return None;
    }
    let mut at: usize = 0;
    while at <= have.len() - n
        invariant
            n == hi - lo,
            0 < n <= have@.len(),
            lo <= hi <= want@.len(),
            full == views(want@),
            hv == views(have@),
            w == full.subrange(lo as int, hi as int),
            w == wanted_lines(snippet@),
            hv == trimmed_lines(text@),
            forall|k: int| 0 <= k < at ==> !located_at(text@, snippet@, k),
            at <= have@.len() - n + 1,
        decreases have@.len() - n + 1 - at,
    {
        let mut k: usize = 0;
        let mut same = true;
        while k < n
            invariant
                k <= n == hi - lo,
                lo <= hi <= want@.len(),
                at + n <= have.len(),
                full == views(want@),
                hv == views(have@),
                same == forall|x: int| at <= x < at + k ==> #[trigger] hv[x] == full[x - at + lo],
            decreases n - k,
        {
            let eq = crate::text::eq_chars(&have[at + k], &want[lo + k]);
            assert(hv[at + k] == have@[at + k]@);
            assert(full[lo + k] == want@[lo + k]@);
            if !eq {
                same = false;
            }
            k += 1;
        }
        if same {
            assert(hv.subrange(at as int, at + n) =~= w);
            return Some((at, n));
        }
        assert(!located_at(text@, snippet@, at as int)) by {
            if hv.subrange(at as int, at + n) == w {
                let x = choose|x: int| at <= x < at + n && #[trigger] hv[x] != full[x - at + lo];
                assert(hv.subrange(at as int, at + n)[x - at] == w[x - at]);
            }
        }
        at += 1;
    }
    assert forall|k: int| !located_at(text@, snippet@, k) by {
        if 0 <= k && k < at {
        }
    }
    None
}

/// Words joined by single spaces.
pub open spec fn join_words(ws: Seq<Seq<char>>) -> Seq<char>
    decreases ws.len(),
{
    if ws.len() == 0 {
        Seq::empty()
    } else if ws.len() == 1 {
        ws[0]
    } else {
        join_words(ws.drop_last()) + seq![' '] + ws.last()
    }
}

/// Bytes `c` takes in UTF-8.
pub open spec fn utf8_len(c: char) -> int {
    if (c as u32) < 0x80 {
        1
    } else if (c as u32) < 0x800 {
        2
    } else if (c as u32) < 0x10000 {
        3
    } else {
        4
    }
}

/// From character `i`, at byte offset `acc`: the last character whose byte
/// offset is below 200.
pub open spec fn cut_from(s: Seq<char>, i: int, acc: int) -> int
    decreases s.len() - i,
{
    if 0 <= i && i + 1 < s.len() && acc + utf8_len(s[i]) < 200 {
        cut_from(s, i + 1, acc + utf8_len(s[i]))
    } else {
        i
    }
}

/// Position of the last space in `s`, or -1.
pub open spec fn last_space(s: Seq<char>) -> int
    decreases s.len(),
{
    if s.len() == 0 {
        -1
    } else if s.last() == ' ' {
        s.len() - 1
    } else {
        last_space(s.drop_last())
    }
}

/// A text flattened to one line of single spaces; past 200 characters, cut
/// at the last space before byte 200 and ended with an ellipsis.
pub open spec fn one_line_spec(text: Seq<char>) -> Seq<char> {
    let flat = join_words(words(text));
    if flat.len() <= 200 {
        flat
    } else {
        let pre = flat.take(cut_from(flat, 0, 0));
        let sp = last_space(pre);
        (if sp >= 0 {
            pre.take(sp)
        } else {
            pre
        }) + seq!['\u{2026}']
    }
}

proof fn lemma_first_ws_stop(s: Seq<char>, i: int, j: int)
    requires
        0 <= i < j <= s.len(),
        forall|k: int| i <= k < j ==> !is_ws(s[k]),
        j < s.len() ==> is_ws(s[j]),
    ensures
        crate::text::first_ws(s.skip(i)) == j - i,
{
    lemma_first_ws_at(s.skip(i), j - i);
}

/// The whitespace-separated words of `s`.
fn words_of(s: &Vec<char>) -> (r: Vec<Vec<char>>)
    ensures
        views(r@) == words(s@),
{
    let mut r: Vec<Vec<char>> = Vec::new();
    let mut i: usize = 0;
    assert(s@.skip(0) =~= s@);
    while i < s.len()
        invariant
            i <= s@.len(),
            words(s@) == views(r@) + words(s@.skip(i as int)),
        decreases s@.len() - i,
    {
        let ghost t = s@.skip(i as int);
        if crate::text::is_whitespace(s[i]) {
            assert(t.drop_first() =~= s@.skip(i + 1));
            i += 1;
        } else {
            let mut j = i;
            while j < s.len() && !crate::text::is_whitespace(s[j])
                invariant
                    i <= j <= s@.len(),
                    forall|k: int| i <= k < j ==> !is_ws(s@[k]),
                decreases s@.len() - j,
            {
                j += 1;
            }
            proof {
                lemma_first_ws_stop(s@, i as int, j as int);
                crate::text::lemma_first_ws(t);
            }
            let w = crate::text::copy_range(s.as_slice(), i, j);
            assert(w@ =~= t.take(j - i));
            assert(t.skip(j - i) =~= s@.skip(j as int));
            let ghost r0 = r@;
            r.push(w);
            assert(views(r@) =~= views(r0).push(w@));
            i = j;
        }
    }
    assert(s@.skip(i as int) =~= Seq::<char>::empty());
    r
}

/// A text on one line of at most about 200 bytes, for `<meta>` descriptions.
pub fn one_line(text: &str) -> (r: String)
    ensures
        r@ == one_line_spec(text@),
{
    let cs = chars_of(text);
    let ws = words_of(&cs);
    let mut flat: Vec<char> = Vec::new();
    let mut k: usize = 0;
    while k < ws.len()
        invariant
            k <= ws@.len(),
            flat@ == join_words(views(ws@).take(k as int)),
        decreases ws@.len() - k,
    {
        let ghost f0 = flat@;
        if k > 0 {
            flat.push(' ');
        }
        push_all(&mut flat, &ws[k]);
        assert(views(ws@).take(k + 1).drop_last() =~= views(ws@).take(k as int));
        if k == 0 {
            assert(flat@ =~= join_words(views(ws@).take(1)));
        }
        k += 1;
    }
    assert(views(ws@).take(k as int) =~= views(ws@));
    if flat.len() <= 200 {
        return string_of(flat.as_slice());
    }
    let mut i: usize = 0;
    let mut acc: u32 = 0;
    while i < flat.len() - 1 && acc + utf8_bytes(flat[i]) < 200
        invariant
            i < flat@.len(),
            acc < 200,
            cut_from(flat@, 0, 0) == cut_from(flat@, i as int, acc as int),
        decreases flat@.len() - i,
    {
        acc = acc + utf8_bytes(flat[i]);
        i += 1;
    }
    let ghost pre = flat@.take(i as int);
    let mut sp: usize = i;
    while sp > 0 && flat[sp - 1] != ' '
        invariant
            sp <= i < flat@.len(),
            pre == flat@.take(i as int),
            last_space(pre) == last_space(flat@.take(sp as int)),
        decreases sp,
    {
        assert(flat@.take(sp as int).drop_last() =~= flat@.take(sp - 1));
        sp -= 1;
    }
    let keep = if sp > 0 {
        assert(flat@.take(sp as int).last() == ' ');
        sp - 1
    } else {
        i
    };
    let mut out = crate::text::copy_range(flat.as_slice(), 0, keep);
    out.push('\u{2026}');
    assert(out@ =~= one_line_spec(text@));
    string_of(out.as_slice())
}

fn utf8_bytes(c: char) -> (n: u32)
    ensures
        n == utf8_len(c),
{
    let v = c as u32;
    if v < 0x80 {
        1
    } else if v < 0x800 {
        2
    } else if v < 0x10000 {
        3
    } else {
        4
    }
}

/// The values of one double-quoted attribute, found by scanning for
/// `needle` (such as `href="`), each running to the next `"`.
pub open spec fn attr_vals(s: Seq<char>, needle: Seq<char>) -> Seq<Seq<char>>
    decreases s.len(),
{
    match find(s, needle) {
        None => Seq::empty(),
        Some(at) => {
            proof {
                crate::text::lemma_find_some(s, needle, 0);
            }
            let rest = s.skip(at + needle.len());
            match find(rest, seq!['"']) {
                None => Seq::empty(),
                Some(end) => {
                    proof {
                        crate::text::lemma_find_some(rest, seq!['"'], 0);
                    }
                    seq![rest.take(end)] + attr_vals(rest.skip(end + 1), needle)
                },
            }
        },
    }
}

/// Every value of the attribute `needle` opens, in order.
pub fn attr_values(html: &str, needle: &str) -> (r: Vec<String>)
    ensures
        r@.map_values(|s: String| s@) == attr_vals(html@, needle@),
{
    let nc = chars_of(needle);
    let mut quote: Vec<char> = Vec::new();
    quote.push('"');
    assert(quote@ =~= seq!['"']);
    let mut rest = chars_of(html);
    let mut out: Vec<String> = Vec::new();
    loop
        invariant
            nc@ == needle@,
            quote@ == seq!['"'],
            attr_vals(html@, needle@) == out@.map_values(|s: String| s@) + attr_vals(rest@, needle@),
        ensures
            attr_vals(html@, needle@) == out@.map_values(|s: String| s@),
        decreases rest@.len(),
    {
        let ghost r0 = rest@;
        match find_in(&rest, &nc) {
            None => {
                assert(out@.map_values(|s: String| s@) + Seq::<Seq<char>>::empty() =~= out@.map_values(|s: String| s@));
                break;
            },
            Some(at) => {
                proof {
                    crate::text::lemma_find_some(rest@, nc@, 0);
                }
                assert(find(rest@, nc@) == Some(at as int));
                let rl = rest.len();
                let nl = nc.len();
                assert(at + nl <= rl);
                let after = crate::text::copy_range(rest.as_slice(), at + nl, rl);
                assert(after@ =~= r0.skip(at + needle@.len()));
                match find_in(&after, &quote) {
                    None => {
                        assert(out@.map_values(|s: String| s@) + Seq::<Seq<char>>::empty() =~= out@.map_values(|s: String| s@));
                        break;
                    },
                    Some(end) => {
                        proof {
                            crate::text::lemma_find_some(after@, quote@, 0);
                        }
                        let value = crate::text::copy_range(after.as_slice(), 0, end);
                        let ghost o0 = out@.map_values(|s: String| s@);
                        out.push(string_of(value.as_slice()));
                        assert(out@.map_values(|s: String| s@) =~= o0.push(after@.take(end as int)));
                        rest = crate::text::copy_range(after.as_slice(), end + 1, after.len());
                        assert(rest@ =~= after@.skip(end + 1));
                        assert(attr_vals(html@, needle@) == out@.map_values(|s: String| s@) + attr_vals(rest@, needle@));
                    },
                }
            },
        }
    }
    out
}

/// A copy of a highlighted line.
fn copy_hl(l: &Line) -> (r: Line)
    ensures
        line_view(r) == line_view(*l),
{
    Line { number: l.number, html: string_of(chars_of(l.html.as_str()).as_slice()) }
}

/// The highlighted lines `start..=end` (1-based), clamped to what exists.
pub open spec fn slice_spec(h: Seq<Line>, start: u32, end: u32) -> Seq<(u32, Seq<char>)> {
    let lo = if start >= 1 {
        start - 1
    } else {
        0
    };
    let hi = if end <= h.len() {
        end as int
    } else {
        h.len() as int
    };
    if lo <= hi {
        lines_view(h.subrange(lo, hi))
    } else {
        Seq::empty()
    }
}

/// The highlighted lines of a 1-based closed range, clamped to the file.
pub fn slice(highlighted: &[Line], start: u32, end: u32) -> (r: Vec<Line>)
    ensures
        lines_view(r@) == slice_spec(highlighted@, start, end),
{
    let lo: usize = if start >= 1 {
        (start - 1) as usize
    } else {
        0
    };
    let hi: usize = if (end as usize) <= highlighted.len() {
        end as usize
    } else {
        highlighted.len()
    };
    let mut r: Vec<Line> = Vec::new();
    if lo > hi {
        assert(lines_view(r@) =~= Seq::<(u32, Seq<char>)>::empty());
        return r;
    }
    let mut i = lo;
    while i < hi
        invariant
            lo <= i <= hi <= highlighted@.len(),
            lines_view(r@) == lines_view(highlighted@.subrange(lo as int, i as int)),
        decreases hi - i,
    {
        let ghost r0 = r@;
        let c = copy_hl(&highlighted[i]);
        r.push(c);
        assert(r@ == r0.push(c));
        assert(lines_view(r@) =~= lines_view(r0).push(line_view(c)));
        assert(lines_view(r@) =~= lines_view(highlighted@.subrange(lo as int, i + 1)));
        i += 1;
    }
    r
}

/// One invocation inside a macro-use group.
#[derive(Debug)]
pub struct Use {
    pub id: String,
    pub label: String,
    pub range_label: String,
    pub body_html: String,
    pub start: u32,
    pub end: u32,
}

/// Generated code quoted from an expansion produced at build time.
#[derive(Debug)]
pub struct EmitBlock {
    pub derive: String,
    pub case: String,
    pub range_label: String,
    pub code: Vec<Line>,
}

/// A contiguous run of source lines shown as one row: code on the left,
/// explanation on the right. Unannotated runs are blocks too, so a partly
/// covered file renders honestly instead of hiding its gaps.
#[derive(Debug)]
pub struct Block {
    pub annotated: bool,
    /// Lines elided from a gap preview; zero when nothing was cut.
    pub hidden_lines: u32,
    pub id: String,
    pub title: String,
    pub kind: String,
    pub range_label: String,
    pub body_html: String,
    pub code: Vec<Line>,
    pub features: Vec<String>,
    pub examples: Vec<String>,
    /// Set on macro-use blocks: the macro's name and a link to the
    /// annotation that explains it; empty otherwise.
    pub expands_name: String,
    pub expands_href: String,
    pub uses: Vec<Use>,
    pub glossary: Vec<GlossLink>,
    pub emits: Vec<EmitBlock>,
}

/// How many lines of an unannotated run are previewed.
pub const GAP_PREVIEW_LINES: u32 = 6;

/// `b` previews the unannotated lines `start..=end`: at most its first
/// six, an honest count of the rest, and nothing else.
pub open spec fn gap_ok(b: Block, start: u32, end: u32, highlighted: Seq<Line>) -> bool {
    let total = end - start + 1;
    let shown_end = if end <= start + GAP_PREVIEW_LINES - 1 {
        end
    } else {
        (start + GAP_PREVIEW_LINES - 1) as u32
    };
    &&& !b.annotated
    &&& b.hidden_lines == total - (shown_end - start + 1)
    &&& b.id@ == seq!['L'] + decimal(start as nat)
    &&& b.title@ == decimal(total as nat) + " lines not yet explained"@
    &&& b.kind@ == "gap"@
    &&& b.range_label@ == label_spec(start, end)
    &&& b.body_html@.len() == 0
    &&& lines_view(b.code@) == slice_spec(highlighted, start, shown_end)
    &&& b.features@.len() == 0 && b.examples@.len() == 0
    &&& b.expands_name@.len() == 0 && b.expands_href@.len() == 0
    &&& b.uses@.len() == 0 && b.glossary@.len() == 0 && b.emits@.len() == 0
}

/// An unannotated run, previewed rather than rendered in full: its first
/// lines, and an honest count of how many it has.
pub fn gap(start: u32, end: u32, highlighted: &[Line]) -> (b: Block)
    requires
        start <= end,
        end - start < u32::MAX,
        start + GAP_PREVIEW_LINES <= u32::MAX,
    ensures
        gap_ok(b, start, end, highlighted@),
{
    let total = end - start + 1;
    let limit = start + GAP_PREVIEW_LINES - 1;
    let shown_end = if end <= limit {
        end
    } else {
        limit
    };
    let hidden = total - (shown_end - start + 1);
    let mut id: Vec<char> = Vec::new();
    id.push('L');
    push_all(&mut id, &decimal_chars(start as u64));
    let mut title = decimal_chars(total as u64);
    push_all(&mut title, &chars_of(" lines not yet explained"));
    Block {
        annotated: false,
        hidden_lines: hidden,
        id: string_of(id.as_slice()),
        title: string_of(title.as_slice()),
        kind: string_of(chars_of("gap").as_slice()),
        range_label: label(start, end),
        body_html: String::new(),
        code: slice(highlighted, start, shown_end),
        features: Vec::new(),
        examples: Vec::new(),
        expands_name: String::new(),
        expands_href: String::new(),
        uses: Vec::new(),
        glossary: Vec::new(),
        emits: Vec::new(),
    }
}

/// An optional text as plain values.
pub open spec fn opt_view(o: Option<String>) -> Option<Seq<char>> {
    match o {
        Some(s) => Some(s@),
        None => None,
    }
}

/// Unit `j` continues the macro-use run that unit `i` starts: it is a
/// macro use of the same definition, starting right after unit `j - 1`.
pub open spec fn continues_run(units: Seq<Unit>, i: int, j: int) -> bool {
    &&& units[j].annotation.kind == Kind::MacroUse
    &&& opt_view(units[j].annotation.macro_def) == opt_view(units[i].annotation.macro_def)
    &&& units[j].range.start == units[j - 1].range.end + 1
}

fn opt_str_eq(a: &Option<String>, b: &Option<String>) -> (r: bool)
    ensures
        r == (opt_view(*a) == opt_view(*b)),
{
    match (a, b) {
        (Some(x), Some(y)) => crate::text::str_eq(x.as_str(), y.as_str()),
        (None, None) => true,
        _ => false,
    }
}

/// How many units starting at `i` belong in one macro-use block: 1 for
/// anything that is not a macro use, otherwise the run of uses that share a
/// definition and are contiguous in the source. Merging across a hole would
/// hide unannotated lines.
pub fn macro_run(units: &[Unit], i: usize) -> (n: usize)
    requires
        i < units@.len(),
    ensures
        units@[i as int].annotation.kind != Kind::MacroUse ==> n == 1,
        units@[i as int].annotation.kind == Kind::MacroUse ==> {
            &&& 1 <= n && i + n <= units@.len()
            &&& forall|m: int| i < m < i + n ==> continues_run(units@, i as int, m)
            &&& i + n < units@.len() ==> !continues_run(units@, i as int, i + n)
        },
{
    let first = &units[i].annotation;
    if first.kind != Kind::MacroUse {
        return 1;
    }
    let mut n: usize = 1;
    while n < units.len() - i
        invariant
            i < units@.len(),
            1 <= n <= units@.len() - i,
            *first == units@[i as int].annotation,
            first.kind == Kind::MacroUse,
            forall|m: int| i < m < i + n ==> continues_run(units@, i as int, m),
        decreases units@.len() - i - n,
    {
        let next = &units[i + n];
        let prev_end = units[i + n - 1].range.end;
        let adjacent = next.range.start >= 1 && next.range.start - 1 == prev_end;
        if next.annotation.kind != Kind::MacroUse || !opt_str_eq(&next.annotation.macro_def, &first.macro_def) || !adjacent {
            return n;
        }
        n += 1;
    }
    n
}

/// Which list field of an annotation a group collects.
#[derive(Debug, Clone, Copy)]
pub enum ListField {
    RustFeatures,
    Examples,
}

/// The values of one list field of an annotation.
pub open spec fn field_of(a: crate::schema::Annotation, f: ListField) -> Seq<Seq<char>> {
    match f {
        ListField::RustFeatures => a.rust_features@.map_values(|s: String| s@),
        ListField::Examples => a.examples@.map_values(|s: String| s@),
    }
}

/// `acc` extended by the values of `vals` it does not hold yet, in order.
pub open spec fn add_new(acc: Seq<Seq<char>>, vals: Seq<Seq<char>>) -> Seq<Seq<char>>
    decreases vals.len(),
{
    if vals.len() == 0 {
        acc
    } else {
        let a = add_new(acc, vals.drop_last());
        if a.contains(vals.last()) {
            a
        } else {
            a.push(vals.last())
        }
    }
}

/// One list field collected across a group: de-duplicated, first-seen order.
pub open spec fn union_spec(units: Seq<Unit>, f: ListField) -> Seq<Seq<char>>
    decreases units.len(),
{
    if units.len() == 0 {
        Seq::empty()
    } else {
        add_new(union_spec(units.drop_last(), f), field_of(units.last().annotation, f))
    }
}

fn holds(out: &Vec<String>, v: &str) -> (r: bool)
    ensures
        r == out@.map_values(|s: String| s@).contains(v@),
{
    let ghost view = out@.map_values(|s: String| s@);
    let mut k: usize = 0;
    while k < out.len()
        invariant
            k <= out@.len(),
            view == out@.map_values(|s: String| s@),
            forall|m: int| 0 <= m < k ==> view[m] != v@,
        decreases out@.len() - k,
    {
        if crate::text::str_eq(out[k].as_str(), v) {
            assert(view[k as int] == v@);
            return true;
        }
        k += 1;
    }
    false
}

/// Collects one list field across a group, de-duplicated, first-seen order.
pub fn union(units: &[Unit], field: ListField) -> (r: Vec<String>)
    ensures
        r@.map_values(|s: String| s@) == union_spec(units@, field),
{
    let mut out: Vec<String> = Vec::new();
    let mut i: usize = 0;
    while i < units.len()
        invariant
            i <= units@.len(),
            out@.map_values(|s: String| s@) == union_spec(units@.take(i as int), field),
        decreases units@.len() - i,
    {
        let a = &units[i].annotation;
        let list = match field {
            ListField::RustFeatures => &a.rust_features,
            ListField::Examples => &a.examples,
        };
        let ghost vals = field_of(*a, field);
        assert(vals == list@.map_values(|s: String| s@));
        let ghost base = out@.map_values(|s: String| s@);
        let mut k: usize = 0;
        while k < list.len()
            invariant
                k <= list@.len(),
                vals == list@.map_values(|s: String| s@),
                out@.map_values(|s: String| s@) == add_new(base, vals.take(k as int)),
            decreases list@.len() - k,
        {
            assert(vals.take(k + 1).drop_last() =~= vals.take(k as int));
            assert(vals.take(k + 1).last() == list@[k as int]@);
            if !holds(&out, list[k].as_str()) {
                let ghost o0 = out@.map_values(|s: String| s@);
                out.push(string_of(chars_of(list[k].as_str()).as_slice()));
                assert(out@.map_values(|s: String| s@) =~= o0.push(list@[k as int]@));
            }
            k += 1;
        }
        assert(vals.take(k as int) =~= vals);
        assert(units@.take(i + 1).drop_last() =~= units@.take(i as int));
        assert(units@.take(i + 1).last() == units@[i as int]);
        i += 1;
    }
    assert(units@.take(i as int) =~= units@);
    out
}

/// How a `(source, file)` pair becomes a page name: the first annotated
/// source keeps unqualified names, every other is prefixed with its crate
/// name, since both crates have a `src/lib.rs`.
pub open spec fn page_name(first: Seq<char>, source: Seq<char>, file: Seq<char>) -> Seq<char> {
    let flat = replace_all(file, seq!['/'], seq!['-']);
    if source == first {
        flat + ".html"@
    } else {
        source + seq!['-'] + flat + ".html"@
    }
}

/// Page names for the store's files.
#[derive(Debug)]
pub struct Pages {
    first: String,
}

impl Pages {
    /// The source whose pages keep unqualified names.
    pub closed spec fn first_name(self) -> Seq<char> {
        self.first@
    }

    pub fn new(store: &Store) -> (p: Pages)
        requires
            store.sources@.len() > 0,
        ensures
            p.first_name() == store.sources@[0].name@,
    {
        Pages { first: string_of(chars_of(store.first().name.as_str()).as_slice()) }
    }

    /// `("serde_core", "src/ser/mod.rs")` gives `src-ser-mod.rs.html`, and
    /// `("serde_derive", "src/ser.rs")` gives `serde_derive-src-ser.rs.html`.
    pub fn name(&self, source: &str, file: &str) -> (r: String)
        ensures
            r@ == page_name(self.first_name(), source@, file@),
    {
        let mut slash: Vec<char> = Vec::new();
        slash.push('/');
        let mut dash: Vec<char> = Vec::new();
        dash.push('-');
        assert(slash@ =~= seq!['/']);
        assert(dash@ =~= seq!['-']);
        let flat = replace_in(&chars_of(file), &slash, &dash);
        let mut out: Vec<char> = Vec::new();
        if !crate::text::str_eq(source, self.first.as_str()) {
            push_all(&mut out, &chars_of(source));
            out.push('-');
        }
        push_all(&mut out, &flat);
        push_all(&mut out, &chars_of(".html"));
        assert(out@ =~= page_name(self.first_name(), source@, file@));
        string_of(out.as_slice())
    }

    /// The page of an annotation's file.
    pub fn unit(&self, unit: &Unit) -> (r: String)
        ensures
            r@ == page_name(self.first_name(), unit.source@, unit.annotation.file@),
    {
        self.name(unit.source.as_str(), unit.annotation.file.as_str())
    }
}

/// A course unit in the sidebar and on the index.
#[derive(Debug)]
pub struct NavUnit {
    pub id: String,
    pub number: String,
    pub name: String,
    pub title: String,
    pub href: String,
    pub summary_html: String,
    pub annotations: usize,
    pub supplement: String,
    pub supplement_class: String,
    pub supplement_note: String,
    pub planned: bool,
}

/// What the reader is told a unit's `supplement` means: its badge text.
pub open spec fn supplement_label(s: Supplement) -> Seq<char> {
    match s {
        Supplement::NotNeeded => "from serde_core"@,
        Supplement::Partial => "part supplementary"@,
        Supplement::Full => "supplementary"@,
    }
}

/// What the reader is told a unit's `supplement` means: its note.
pub open spec fn supplement_note(s: Supplement) -> Seq<char> {
    match s {
        Supplement::NotNeeded => "Every part of this unit is drawn from the crate."@,
        Supplement::Partial => "serde_core shows part of this. The rest is written material, labelled as such."@,
        Supplement::Full => "serde_core does not exercise this. The whole unit is written from scratch rather than pretending the crate teaches it."@,
    }
}

fn supplement_texts(s: Supplement) -> (r: (Vec<char>, Vec<char>))
    ensures
        r.0@ == supplement_label(s),
        r.1@ == supplement_note(s),
{
    match s {
        Supplement::NotNeeded => (chars_of("from serde_core"), chars_of("Every part of this unit is drawn from the crate.")),
        Supplement::Partial => (chars_of("part supplementary"), chars_of("serde_core shows part of this. The rest is written material, labelled as such.")),
        Supplement::Full => (chars_of("supplementary"), chars_of("serde_core does not exercise this. The whole unit is written from scratch rather than pretending the crate teaches it.")),
    }
}

/// A course unit's entry in the sidebar: its id split at the first `-`
/// into number and name, its page, its rendered summary, and what its
/// `supplement` claims, in words.
pub fn nav_unit(unit: &CourseUnit, annotations: usize) -> (n: NavUnit)
    ensures
        ({
            let id = unit.id@;
            let k = crate::text::first_of(id, '-') as int;
            &&& n.id@ == id
            &&& n.number@ == (if k < id.len() {
                id.take(k)
            } else {
                Seq::empty()
            })
            &&& n.name@ == (if k < id.len() {
                id.skip(k + 1)
            } else {
                id
            })
            &&& n.title@ == unit.title@
            &&& n.href@ == id + ".html"@
            &&& n.summary_html@ == crate::markdown::markdown_html(unit.summary@)
            &&& n.annotations == annotations
            &&& n.supplement@ == supplement_label(unit.supplement)
            &&& n.supplement_class@ == seq!['b', '-'] + replace_all(
                supplement_label(unit.supplement),
                seq![' '],
                seq!['-'],
            )
            &&& n.supplement_note@ == supplement_note(unit.supplement)
            &&& n.planned == (unit.status == UnitStatus::Planned)
        }),
{
    let id = chars_of(unit.id.as_str());
    let k = crate::text::find_char(id.as_slice(), '-');
    let (number, name) = if k < id.len() {
        (crate::text::copy_range(id.as_slice(), 0, k), crate::text::copy_range(id.as_slice(), k + 1, id.len()))
    } else {
        (Vec::new(), crate::text::copy_range(id.as_slice(), 0, id.len()))
    };
    assert(id@.subrange(0, k as int) =~= id@.take(k as int));
    assert(id@.subrange(0, id@.len() as int) =~= id@);
    let (label_chars, note) = supplement_texts(unit.supplement);
    let mut space: Vec<char> = Vec::new();
    space.push(' ');
    let mut dash: Vec<char> = Vec::new();
    dash.push('-');
    assert(space@ =~= seq![' ']);
    assert(dash@ =~= seq!['-']);
    let mut class: Vec<char> = Vec::new();
    class.push('b');
    class.push('-');
    push_all(&mut class, &replace_in(&label_chars, &space, &dash));
    let mut href = id.clone();
    assert(href@ == id@);
    push_all(&mut href, &chars_of(".html"));
    assert(class@ =~= seq!['b', '-'] + replace_all(supplement_label(unit.supplement), seq![' '], seq!['-']));
    NavUnit {
        id: string_of(id.as_slice()),
        number: string_of(number.as_slice()),
        name: string_of(name.as_slice()),
        title: string_of(chars_of(unit.title.as_str()).as_slice()),
        href: string_of(href.as_slice()),
        summary_html: crate::markdown::render(unit.summary.as_str()),
        annotations,
        supplement: string_of(label_chars.as_slice()),
        supplement_class: string_of(class.as_slice()),
        supplement_note: string_of(note.as_slice()),
        planned: unit.status == UnitStatus::Planned,
    }
}

/// A copy of a text.
fn copy_string(s: &String) -> (r: String)
    ensures
        r@ == s@,
{
    string_of(chars_of(s.as_str()).as_slice())
}

/// A copy of a sidebar entry.
pub fn clone_unit(u: &NavUnit) -> (r: NavUnit)
    ensures
        r.id@ == u.id@ && r.number@ == u.number@ && r.name@ == u.name@ && r.title@ == u.title@,
        r.href@ == u.href@ && r.summary_html@ == u.summary_html@ && r.annotations == u.annotations,
        r.supplement@ == u.supplement@ && r.supplement_class@ == u.supplement_class@,
        r.supplement_note@ == u.supplement_note@ && r.planned == u.planned,
{
    NavUnit {
        id: copy_string(&u.id),
        number: copy_string(&u.number),
        name: copy_string(&u.name),
        title: copy_string(&u.title),
        href: copy_string(&u.href),
        summary_html: copy_string(&u.summary_html),
        annotations: u.annotations,
        supplement: copy_string(&u.supplement),
        supplement_class: copy_string(&u.supplement_class),
        supplement_note: copy_string(&u.supplement_note),
        planned: u.planned,
    }
}

/// Where a `macro-def` annotation lives, and what it defines.
#[derive(Debug)]
pub struct MacroDef {
    pub source: String,
    pub file: String,
    pub name: String,
}

/// A definition as plain values: `(source, file, name)`.
pub open spec fn def_view(d: MacroDef) -> (Seq<char>, Seq<char>, Seq<char>) {
    (d.source@, d.file@, d.name@)
}

/// Definitions by id, as plain values.
pub open spec fn defs_view(defs: Seq<(String, MacroDef)>) -> Seq<(Seq<char>, (Seq<char>, Seq<char>, Seq<char>))> {
    defs.map_values(|p: (String, MacroDef)| (p.0@, def_view(p.1)))
}

/// Every `macro-def` annotation of `units`, in order, with its id.
pub open spec fn defs_of(units: Seq<Unit>) -> Seq<(Seq<char>, (Seq<char>, Seq<char>, Seq<char>))>
    decreases units.len(),
{
    if units.len() == 0 {
        Seq::empty()
    } else {
        let u = units.last();
        let before = defs_of(units.drop_last());
        if u.annotation.kind == Kind::MacroDef {
            before.push((u.annotation.id@, (u.source@, u.annotation.file@, macro_name_spec(u.annotation.title@))))
        } else {
            before
        }
    }
}

/// The definition recorded last for `id`, as a map keyed by id keeps it.
pub open spec fn last_def(dv: Seq<(Seq<char>, (Seq<char>, Seq<char>, Seq<char>))>, id: Seq<char>) -> Option<(Seq<char>, Seq<char>, Seq<char>)>
    decreases dv.len(),
{
    if dv.len() == 0 {
        None
    } else if dv.last().0 == id {
        Some(dv.last().1)
    } else {
        last_def(dv.drop_last(), id)
    }
}

/// Every `macro-def` annotation of the store, with its id: where it lives
/// and the macro it defines. A definition and its uses need not share a
/// file, so this is built once for the whole store.
pub fn macro_defs(store: &Store) -> (r: Vec<(String, MacroDef)>)
    ensures
        defs_view(r@) == defs_of(crate::store::store_units(store.sources@)),
{
    let all = store.all_units();
    let ghost us = crate::course::units(all@);
    assert(us == crate::store::store_units(store.sources@));
    let mut r: Vec<(String, MacroDef)> = Vec::new();
    let mut i: usize = 0;
    while i < all.len()
        invariant
            i <= all@.len(),
            us == crate::course::units(all@),
            defs_view(r@) == defs_of(us.take(i as int)),
        decreases all@.len() - i,
    {
        let u = all[i];
        assert(us.take(i + 1).drop_last() =~= us.take(i as int));
        assert(us.take(i + 1).last() == *u);
        if u.annotation.kind == Kind::MacroDef {
            let d = MacroDef {
                source: copy_string(&u.source),
                file: copy_string(&u.annotation.file),
                name: macro_name(u.annotation.title.as_str()),
            };
            let ghost r0 = r@;
            let id = copy_string(&u.annotation.id);
            r.push((id, d));
            assert(defs_view(r@) =~= defs_view(r0).push((u.annotation.id@, (u.source@, u.annotation.file@, macro_name_spec(u.annotation.title@)))));
        }
        i += 1;
    }
    assert(us.take(i as int) =~= us);
    r
}

/// The definition recorded last for `id`.
pub fn macro_def_for<'a>(defs: &'a [(String, MacroDef)], id: &str) -> (r: Option<&'a MacroDef>)
    ensures
        match r {
            Some(d) => last_def(defs_view(defs@), id@) == Some(def_view(*d)),
            None => last_def(defs_view(defs@), id@) is None,
        },
{
    let ghost dv = defs_view(defs@);
    let mut k: usize = defs.len();
    assert(dv.take(k as int) =~= dv);
    while k > 0
        invariant
            k <= defs@.len(),
            dv == defs_view(defs@),
            last_def(dv, id@) == last_def(dv.take(k as int), id@),
        decreases k,
    {
        assert(dv.take(k as int).drop_last() =~= dv.take(k - 1));
        assert(dv.take(k as int).last() == dv[k - 1]);
        if crate::text::str_eq(defs[k - 1].0.as_str(), id) {
            return Some(&defs[k - 1].1);
        }
        k -= 1;
    }
    assert(dv.take(0) =~= Seq::<(Seq<char>, (Seq<char>, Seq<char>, Seq<char>))>::empty());
    None
}

/// The name and link of the definition a macro-use group expands: by anchor
/// when it is in the same file, by page otherwise; nothing when unknown.
pub open spec fn def_link(
    dv: Seq<(Seq<char>, (Seq<char>, Seq<char>, Seq<char>))>,
    def_id: Seq<char>,
    first: Seq<char>,
    file: Seq<char>,
    source: Seq<char>,
) -> (Seq<char>, Seq<char>) {
    match last_def(dv, def_id) {
        Some((s, f, n)) => if f == file && s == source {
            (n, seq!['#'] + def_id)
        } else {
            (n, page_name(first, s, f) + seq!['#'] + def_id)
        },
        None => (Seq::empty(), Seq::empty()),
    }
}

/// One invocation row of a macro-use group, as plain values.
pub open spec fn use_matches(w: Use, u: Unit) -> bool {
    &&& w.id@ == u.annotation.id@
    &&& w.label@ == u.annotation.title@
    &&& w.range_label@ == label_spec(u.range.start, u.range.end)
    &&& w.body_html@ == crate::markdown::markdown_html(u.annotation.body@)
    &&& w.start == u.range.start && w.end == u.range.end
}

/// `b` shows the macro-use run `units` as one block: headed by the macro's
/// name, linked to the annotation that explains it, one row per invocation.
pub open spec fn macro_block_ok(
    b: Block,
    units: Seq<Unit>,
    highlighted: Seq<Line>,
    defs: Seq<(String, MacroDef)>,
    pages: Pages,
    file: Seq<char>,
) -> bool {
    let start = units[0].range.start;
    let end = units.last().range.end;
    let def_id = match units[0].annotation.macro_def {
        Some(s) => s@,
        None => Seq::empty(),
    };
    let link = def_link(defs_view(defs), def_id, pages.first_name(), file, units[0].source@);
    &&& b.annotated && b.hidden_lines == 0
    &&& b.id@ == seq!['u', 's', 'e', 's', '-', 'L'] + decimal(start as nat)
    &&& b.title@ == (if link.0.len() == 0 {
        "macro invocations"@
    } else {
        link.0
    })
    &&& b.kind@ == (if units.len() > 1 {
        seq!['m', 'a', 'c', 'r', 'o', ' ', 'u', 's', 'e', ' ', '\u{d7}'] + decimal(units.len())
    } else {
        seq!['m', 'a', 'c', 'r', 'o', ' ', 'u', 's', 'e']
    })
    &&& b.range_label@ == label_spec(start, end)
    &&& b.body_html@.len() == 0
    &&& lines_view(b.code@) == slice_spec(highlighted, start, end)
    &&& b.features@.map_values(|s: String| s@) == union_spec(units, ListField::RustFeatures)
    &&& b.examples@.map_values(|s: String| s@) == union_spec(units, ListField::Examples)
    &&& b.expands_name@ == link.0 && b.expands_href@ == link.1
    &&& b.uses@.len() == units.len()
    &&& forall|i: int| 0 <= i < units.len() ==> use_matches(#[trigger] b.uses@[i], units[i])
    &&& b.glossary@.len() == 0 && b.emits@.len() == 0
}

/// A run of macro invocations sharing one definition, as one block whose
/// rows are the invocations, headed by the macro's name and linked to the
/// annotation that explains it.
pub fn macro_block(
    units: &[Unit],
    highlighted: &[Line],
    defs: &[(String, MacroDef)],
    pages: &Pages,
    file: &str,
) -> (b: Block)
    requires
        units@.len() > 0,
    ensures
        macro_block_ok(b, units@, highlighted@, defs@, *pages, file@),
{
    let start = units[0].range.start;
    let end = units[units.len() - 1].range.end;
    let def_id: Vec<char> = match &units[0].annotation.macro_def {
        Some(s) => chars_of(s.as_str()),
        None => Vec::new(),
    };
    let def_str = string_of(def_id.as_slice());
    let (name, href): (Vec<char>, Vec<char>) = match macro_def_for(defs, def_str.as_str()) {
        Some(d) => {
            let n = chars_of(d.name.as_str());
            if crate::text::str_eq(d.file.as_str(), file) && crate::text::str_eq(d.source.as_str(), units[0].source.as_str()) {
                let mut h: Vec<char> = Vec::new();
                h.push('#');
                push_all(&mut h, &def_id);
                assert(h@ =~= seq!['#'] + def_id@);
                (n, h)
            } else {
                let mut h = chars_of(pages.name(d.source.as_str(), d.file.as_str()).as_str());
                let ghost h0 = h@;
                h.push('#');
                push_all(&mut h, &def_id);
                assert(h@ =~= h0 + seq!['#'] + def_id@);
                (n, h)
            }
        },
        None => (Vec::new(), Vec::new()),
    };
    let mut uses: Vec<Use> = Vec::new();
    let mut i: usize = 0;
    while i < units.len()
        invariant
            i <= units@.len(),
            uses@.len() == i,
            forall|k: int| 0 <= k < i ==> use_matches(#[trigger] uses@[k], units@[k]),
        decreases units@.len() - i,
    {
        let u = &units[i];
        uses.push(Use {
            id: copy_string(&u.annotation.id),
            label: copy_string(&u.annotation.title),
            range_label: label(u.range.start, u.range.end),
            body_html: crate::markdown::render(u.annotation.body.as_str()),
            start: u.range.start,
            end: u.range.end,
        });
        i += 1;
    }
    let mut kind: Vec<char> = Vec::new();
    kind.push('m');
    kind.push('a');
    kind.push('c');
    kind.push('r');
    kind.push('o');
    kind.push(' ');
    kind.push('u');
    kind.push('s');
    kind.push('e');
    if units.len() > 1 {
        kind.push(' ');
        kind.push('\u{d7}');
        push_all(&mut kind, &decimal_chars(units.len() as u64));
    }
    let mut id: Vec<char> = Vec::new();
    id.push('u');
    id.push('s');
    id.push('e');
    id.push('s');
    id.push('-');
    id.push('L');
    push_all(&mut id, &decimal_chars(start as u64));
    let title = if name.len() == 0 {
        chars_of("macro invocations")
    } else {
        name.clone()
    };
    let b = Block {
        annotated: true,
        hidden_lines: 0,
        id: string_of(id.as_slice()),
        title: string_of(title.as_slice()),
        kind: string_of(kind.as_slice()),
        range_label: label(start, end),
        body_html: String::new(),
        code: slice(highlighted, start, end),
        features: union(units, ListField::RustFeatures),
        examples: union(units, ListField::Examples),
        expands_name: string_of(name.as_slice()),
        expands_href: string_of(href.as_slice()),
        uses,
        glossary: Vec::new(),
        emits: Vec::new(),
    };
    assert(b.uses@.len() == units@.len());
    assert(b.id@ == seq!['u', 's', 'e', 's', '-', 'L'] + decimal(start as nat));
    assert(b.kind@ == (if units@.len() > 1 {
        seq!['m', 'a', 'c', 'r', 'o', ' ', 'u', 's', 'e', ' ', '\u{d7}'] + decimal(units@.len())
    } else {
        seq!['m', 'a', 'c', 'r', 'o', ' ', 'u', 's', 'e']
    }));
    b
}

} // verus!
