//! Rewriting annotation files in place.
//!
//! A bump changes two things in every annotation file, the `source` header
//! and most `lines` values, and must change nothing else: a round trip through
//! a TOML serializer would reflow every `body = """..."""` block and bury the
//! migration in noise. So the edit is textual, line by line, and the scanner
//! knows only as much as it needs: whether a line is inside a `"""` body
//! (where `lines = ` is prose, not a key) and which record it belongs to.
use crate::text::{
    lemma_lex_irreflexive, lemma_lex_total, lemma_lex_transitive, lex_lt, chars_of, copy_range, lines, split_lines, string_of, trim, trim_bounds, trim_end, trim_end_len,
    views,
};
use vstd::prelude::*;
use vstd::string::StrSliceExecFns;

verus! {

/// Why an annotation or registry file could not be edited.
#[derive(Debug)]
pub enum EditError {
    /// No top-level scalar assigns this key.
    NoKey { key: String },
    /// No top-level array assigns this key.
    NoArray { key: String },
    /// The array that assigns this key never closes.
    ArrayNotClosed { key: String },
    /// The `id` on this (1-based) line is not a quoted string.
    UnparsableId { line: usize },
    /// A record has a second `lines` key on this (1-based) line.
    TwoLinesKeys { line: usize, id: String },
    /// The record starting on this (1-based) line has no id.
    MissingId { line: usize },
    /// This record has no `lines` key.
    MissingLines { id: String },
    /// No edit was supplied for this record.
    NoEditFor { id: String },
    /// An edit was supplied for this id, which no record of the file has.
    NotInFile { id: String },
}

/// Number of spaces (`' '` only) at the start of `s`.
pub open spec fn leading_spaces(s: Seq<char>) -> nat
    decreases s.len(),
{
    if s.len() > 0 && s[0] == ' ' {
        1 + leading_spaces(s.drop_first())
    } else {
        0
    }
}

/// If `line` assigns `key` (the key, spaces, `=`, spaces), the length of
/// that prefix, which a caller keeps to preserve the file's alignment.
pub open spec fn key_prefix(line: Seq<char>, key: Seq<char>) -> Option<int> {
    if key.is_prefix_of(line) {
        let a: int = (key.len() + leading_spaces(line.skip(key.len() as int))) as int;
        if a < line.len() && line[a] == '=' {
            Some(a + 1 + leading_spaces(line.skip(a + 1)))
        } else {
            None
        }
    } else {
        None
    }
}

/// `line` with its value replaced by the quoted `value`.
pub open spec fn assigned(line: Seq<char>, p: int, value: Seq<char>) -> Seq<char> {
    line.take(p) + seq!['"'] + value + seq!['"']
}

/// The line closes a multi-line basic string: it is `"""`, up to trailing
/// whitespace.
pub open spec fn closes(line: Seq<char>) -> bool {
    let t = trim_end(line);
    t.len() == 3 && t[0] == '"' && t[1] == '"' && t[2] == '"'
}

/// The line opens a multi-line basic string: an assignment whose value
/// starts with `"""` at the end of the line.
pub open spec fn opens(line: Seq<char>) -> bool {
    let t = trim_end(line);
    &&& t.len() >= 3
    &&& t[t.len() - 1] == '"' && t[t.len() - 2] == '"' && t[t.len() - 3] == '"'
    &&& line.contains('=')
}

/// Whether the first `i` lines leave the reader inside a `"""` body.
pub open spec fn in_body(ls: Seq<Seq<char>>, i: int) -> bool
    decreases i,
{
    if i <= 0 {
        false
    } else if in_body(ls, i - 1) {
        !closes(ls[i - 1])
    } else {
        opens(ls[i - 1])
    }
}

/// Line `i` is TOML structure, not part of a `"""` body (nor the line that
/// opens one).
pub open spec fn top(ls: Seq<Seq<char>>, i: int) -> bool {
    !in_body(ls, i) && !opens(ls[i])
}

/// Lines joined by `'\n'`, as `join("\n")` does.
pub open spec fn join_nl(ls: Seq<Seq<char>>) -> Seq<char>
    decreases ls.len(),
{
    if ls.len() == 0 {
        Seq::empty()
    } else if ls.len() == 1 {
        ls[0]
    } else {
        join_nl(ls.drop_last()) + seq!['\n'] + ls.last()
    }
}

proof fn lemma_leading_spaces(s: Seq<char>, i: int, j: int)
    requires
        0 <= i <= j <= s.len(),
        forall|k: int| i <= k < j ==> s[k] == ' ',
        j < s.len() ==> s[j] != ' ',
    ensures
        leading_spaces(s.skip(i)) == j - i,
    decreases j - i,
{
    if i < j {
        lemma_leading_spaces(s, i + 1, j);
        assert(s.skip(i).drop_first() =~= s.skip(i + 1));
    }
}

fn skip_spaces(s: &Vec<char>, i: usize) -> (j: usize)
    requires
        i <= s@.len(),
    ensures
        i <= j <= s@.len(),
        leading_spaces(s@.skip(i as int)) == j - i,
{
    let mut j = i;
    while j < s.len() && s[j] == ' '
        invariant
            i <= j <= s@.len(),
            forall|k: int| i <= k < j ==> s@[k] == ' ',
        decreases s@.len() - j,
    {
        j += 1;
    }
    proof {
        lemma_leading_spaces(s@, i as int, j as int);
    }
    j
}

proof fn lemma_views_push(a: Seq<Vec<char>>, x: Vec<char>)
    ensures
        views(a.push(x)) == views(a).push(x@),
{
    assert(views(a.push(x)) =~= views(a).push(x@));
}

/// A copy of a line.
fn copy_line(l: &Vec<char>) -> (r: Vec<char>)
    ensures
        r@ == l@,
{
    let r = copy_range(l.as_slice(), 0, l.len());
    assert(l@.subrange(0, l@.len() as int) =~= l@);
    r
}

/// The integer view of an optional position.
pub open spec fn opt_int(o: Option<usize>) -> Option<int> {
    match o {
        Some(p) => Some(p as int),
        None => None,
    }
}

/// If `line` assigns `key`, the length of the prefix up to the value.
fn strip_key(line: &Vec<char>, key: &Vec<char>) -> (r: Option<usize>)
    ensures
        opt_int(r) == key_prefix(line@, key@),
        r matches Some(p) ==> p <= line@.len(),
{
    if key.len() > line.len() {
        return None;
    }
    let mut k: usize = 0;
    while k < key.len()
        invariant
            key@.len() <= line@.len(),
            k <= key@.len(),
            forall|m: int| 0 <= m < k ==> key@[m] == line@[m],
        decreases key@.len() - k,
    {
        if key[k] != line[k] {
            assert(!key@.is_prefix_of(line@)) by {
                assert(line@.subrange(0, key@.len() as int)[k as int] != key@[k as int]);
            }
            return None;
        }
        k += 1;
    }
    assert(key@.is_prefix_of(line@)) by {
        assert(key@ =~= line@.subrange(0, key@.len() as int));
    }
    let a = skip_spaces(line, key.len());
    if a < line.len() && line[a] == '=' {
        let b = skip_spaces(line, a + 1);
        Some(b)
    } else {
        None
    }
}

/// `line` with its value, after the prefix of length `p`, set to `"value"`.
fn assign(line: &Vec<char>, p: usize, value: &Vec<char>) -> (r: Vec<char>)
    requires
        p <= line@.len(),
    ensures
        r@ == assigned(line@, p as int, value@),
{
    let mut r = copy_range(line.as_slice(), 0, p);
    r.push('"');
    let mut k: usize = 0;
    while k < value.len()
        invariant
            k <= value@.len(),
            p <= line@.len(),
            r@ == line@.take(p as int) + seq!['"'] + value@.take(k as int),
        decreases value@.len() - k,
    {
        r.push(value[k]);
        k += 1;
        assert(value@.take(k as int) =~= value@.take(k - 1).push(value@[k - 1]));
    }
    r.push('"');
    assert(value@.take(k as int) =~= value@);
    assert(line@.subrange(0, p as int) =~= line@.take(p as int));
    r
}

fn closes_line(line: &Vec<char>) -> (b: bool)
    ensures
        b == closes(line@),
{
    let hi = trim_end_len(line.as_slice());
    hi == 3 && line[0] == '"' && line[1] == '"' && line[2] == '"'
}

fn has_char(line: &Vec<char>, c: char) -> (b: bool)
    ensures
        b == line@.contains(c),
{
    let mut k: usize = 0;
    while k < line.len()
        invariant
            k <= line@.len(),
            forall|m: int| 0 <= m < k ==> line@[m] != c,
        decreases line@.len() - k,
    {
        if line[k] == c {
            assert(line@[k as int] == c);
            return true;
        }
        k += 1;
    }
    false
}

fn opens_line(line: &Vec<char>) -> (b: bool)
    ensures
        b == opens(line@),
{
    let hi = trim_end_len(line.as_slice());
    let quotes = hi >= 3 && line[hi - 1] == '"' && line[hi - 2] == '"' && line[hi - 3] == '"';
    quotes && has_char(line, '=')
}

/// Which lines are TOML structure rather than the inside of a `"""` body.
fn top_level(ls: &Vec<Vec<char>>) -> (mask: Vec<bool>)
    ensures
        mask@.len() == ls@.len(),
        forall|i: int| 0 <= i < ls@.len() ==> mask@[i] == top(views(ls@), i),
{
    let ghost v = views(ls@);
    let mut mask: Vec<bool> = Vec::new();
    let mut inside = false;
    let mut i: usize = 0;
    while i < ls.len()
        invariant
            i <= ls@.len(),
            v == views(ls@),
            mask@.len() == i,
            inside == in_body(v, i as int),
            forall|k: int| 0 <= k < i ==> mask@[k] == top(v, k),
        decreases ls@.len() - i,
    {
        assert(v[i as int] == ls@[i as int]@);
        if inside {
            mask.push(false);
            if closes_line(&ls[i]) {
                inside = false;
            }
        } else {
            let o = opens_line(&ls[i]);
            mask.push(!o);
            inside = o;
        }
        i += 1;
    }
    mask
}

/// The text of `ls` joined by newlines.
pub(crate) fn join_lines(ls: &Vec<Vec<char>>) -> (r: Vec<char>)
    ensures
        r@ == join_nl(views(ls@)),
{
    let ghost v = views(ls@);
    let mut r: Vec<char> = Vec::new();
    let mut i: usize = 0;
    while i < ls.len()
        invariant
            i <= ls@.len(),
            v == views(ls@),
            r@ == join_nl(v.take(i as int)),
        decreases ls@.len() - i,
    {
        let ghost before = r@;
        if i > 0 {
            r.push('\n');
        }
        let line = &ls[i];
        let mut k: usize = 0;
        let ghost mid = r@;
        while k < line.len()
            invariant
                k <= line@.len(),
                r@ == mid + line@.take(k as int),
            decreases line@.len() - k,
        {
            r.push(line[k]);
            k += 1;
            assert(line@.take(k as int) =~= line@.take(k - 1).push(line@[k - 1]));
        }
        assert(line@.take(k as int) =~= line@);
        assert(v.take(i + 1).drop_last() =~= v.take(i as int));
        if i == 0 {
            assert(r@ =~= join_nl(v.take(1)));
        } else {
            assert(r@ =~= join_nl(v.take(i + 1)));
        }
        i += 1;
    }
    assert(v.take(i as int) =~= v);
    r
}

/// Line `i` is a top-level assignment of `key`.
pub open spec fn scalar_at(ls: Seq<Seq<char>>, key: Seq<char>, i: int) -> bool {
    0 <= i < ls.len() && top(ls, i) && key_prefix(ls[i], key) is Some
}

/// Replaces the value of the first top-level scalar `key` with `"value"`,
/// keeping the rest of that line and every other line character for
/// character; the result ends with a newline.
pub fn set_scalar(text: &str, key: &str, value: &str) -> (r: Result<String, EditError>)
    ensures
        match r {
            Ok(s) => exists|i: int|
                #[trigger] scalar_at(lines(text@), key@, i) && (forall|j: int|
                    0 <= j < i ==> !scalar_at(lines(text@), key@, j)) && s@ == join_nl(
                    lines(text@).update(
                        i,
                        assigned(lines(text@)[i], key_prefix(lines(text@)[i], key@)->0, value@),
                    ).push(Seq::empty()),
                ),
            Err(e) => (forall|i: int| !scalar_at(lines(text@), key@, i)) && (e matches EditError::NoKey {
                key: k,
            } && k@ == key@),
        },
{
    let tc = chars_of(text);
    let ls = split_lines(tc.as_slice());
    let ghost v = views(ls@);
    assert(v == lines(text@));
    let kc = chars_of(key);
    let vc = chars_of(value);
    let mask = top_level(&ls);
    let mut out: Vec<Vec<char>> = Vec::new();
    let mut done = false;
    let ghost mut at: int = -1;
    let mut i: usize = 0;
    while i < ls.len()
        invariant
            i <= ls@.len(),
            v == views(ls@),
            kc@ == key@,
            vc@ == value@,
            mask@.len() == ls@.len(),
            forall|k: int| 0 <= k < ls@.len() ==> mask@[k] == top(v, k),
            out@.len() == i,
            done <==> (0 <= at < i),
            !done ==> at == -1,
            done ==> scalar_at(v, key@, at),
            forall|j: int| 0 <= j < i && (!done || j < at) ==> !scalar_at(v, key@, j),
            forall|k: int|
                0 <= k < i ==> (#[trigger] out@[k])@ == if k == at {
                    assigned(v[k], key_prefix(v[k], key@)->0, value@)
                } else {
                    v[k]
                },
        decreases ls@.len() - i,
    {
        assert(v[i as int] == ls@[i as int]@);
        let p = if mask[i] && !done {
            strip_key(&ls[i], &kc)
        } else {
            None
        };
        let ghost o0 = out@;
        match p {
            Some(p) => {
                done = true;
                proof {
                    at = i as int;
                }
                out.push(assign(&ls[i], p, &vc));
            },
            None => {
                out.push(copy_line(&ls[i]));
                assert(!scalar_at(v, key@, i as int) || done);
            },
        }
        assert(out@ == o0.push(out@[i as int]));
        assert forall|k: int| 0 <= k < i implies out@[k] == o0[k] by {}
        assert(done <==> (0 <= at < i + 1));
        assert forall|k: int| 0 <= k < i + 1 implies (#[trigger] out@[k])@ == if k == at {
            assigned(v[k], key_prefix(v[k], key@)->0, value@)
        } else {
            v[k]
        } by {
            if k < i {
                assert(out@[k] == o0[k]);
            }
        }
        i += 1;
    }
    if !done {
        return Err(EditError::NoKey { key: string_of(kc.as_slice()) });
    }
    out.push(Vec::new());
    assert(views(out@) =~= v.update(at, assigned(v[at], key_prefix(v[at], key@)->0, value@)).push(
        Seq::empty(),
    ));
    let joined = join_lines(&out);
    Ok(string_of(joined.as_slice()))
}

/// Line `i` opens a top-level array assigned to `key`.
pub open spec fn array_start(ls: Seq<Seq<char>>, key: Seq<char>, i: int) -> bool {
    &&& 0 <= i < ls.len()
    &&& top(ls, i)
    &&& key_prefix(ls[i], key) matches Some(p) && {
        let rest = crate::text::trim_start(ls[i].skip(p));
        rest.len() > 0 && rest[0] == '['
    }
}

/// Line `i`, at or after `start`, is top-level and closes an array.
pub open spec fn array_end(ls: Seq<Seq<char>>, start: int, i: int) -> bool {
    &&& start <= i < ls.len()
    &&& top(ls, i)
    &&& {
        let t = trim_end(ls[i]);
        t.len() > 0 && t[t.len() - 1] == ']'
    }
}

/// One array item, written the way the committed files write it.
pub open spec fn item_line(item: Seq<char>) -> Seq<char> {
    seq![' ', ' ', ' ', ' ', '"'] + item + seq!['"', ',']
}

/// The lines that replace an array: its opening line, one line per item,
/// and the closing bracket.
pub open spec fn array_lines(key: Seq<char>, items: Seq<Seq<char>>) -> Seq<Seq<char>> {
    seq![key + seq![' ', '=', ' ', '[']] + items.map_values(|it: Seq<char>| item_line(it)) + seq![
        seq![']'],
    ]
}

fn first_array_line(ls: &Vec<Vec<char>>, mask: &Vec<bool>, kc: &Vec<char>) -> (r: Option<usize>)
    requires
        mask@.len() == ls@.len(),
        forall|k: int| 0 <= k < ls@.len() ==> mask@[k] == top(views(ls@), k),
    ensures
        r matches Some(s) ==> array_start(views(ls@), kc@, s as int) && forall|j: int|
            0 <= j < s ==> !array_start(views(ls@), kc@, j),
        r is None ==> forall|j: int| !array_start(views(ls@), kc@, j),
{
    let ghost v = views(ls@);
    let mut i: usize = 0;
    while i < ls.len()
        invariant
            i <= ls@.len(),
            v == views(ls@),
            mask@.len() == ls@.len(),
            forall|k: int| 0 <= k < ls@.len() ==> mask@[k] == top(v, k),
            forall|j: int| 0 <= j < i ==> !array_start(v, kc@, j),
        decreases ls@.len() - i,
    {
        assert(v[i as int] == ls@[i as int]@);
        if mask[i] {
            if let Some(p) = strip_key(&ls[i], kc) {
                let rest = copy_range(ls[i].as_slice(), p, ls[i].len());
                assert(rest@ =~= v[i as int].skip(p as int));
                let (lo, _hi) = trim_bounds(rest.as_slice());
                if lo < rest.len() && rest[lo] == '[' {
                    return Some(i);
                }
            }
        }
        i += 1;
    }
    None
}

fn first_array_end(ls: &Vec<Vec<char>>, mask: &Vec<bool>, start: usize) -> (r: Option<usize>)
    requires
        start <= ls@.len(),
        mask@.len() == ls@.len(),
        forall|k: int| 0 <= k < ls@.len() ==> mask@[k] == top(views(ls@), k),
    ensures
        r matches Some(e) ==> array_end(views(ls@), start as int, e as int) && forall|j: int|
            start <= j < e ==> !array_end(views(ls@), start as int, j),
        r is None ==> forall|j: int| !array_end(views(ls@), start as int, j),
{
    let ghost v = views(ls@);
    let mut i: usize = start;
    while i < ls.len()
        invariant
            start <= i <= ls@.len(),
            v == views(ls@),
            mask@.len() == ls@.len(),
            forall|k: int| 0 <= k < ls@.len() ==> mask@[k] == top(v, k),
            forall|j: int| start <= j < i ==> !array_end(v, start as int, j),
        decreases ls@.len() - i,
    {
        assert(v[i as int] == ls@[i as int]@);
        if mask[i] {
            let hi = trim_end_len(ls[i].as_slice());
            if hi > 0 && ls[i][hi - 1] == ']' {
                return Some(i);
            }
        }
        i += 1;
    }
    None
}

/// Replaces the contents of the first top-level array `key` with `items`,
/// one per line, keeping every line before and after the array; the result
/// ends with a newline.
pub fn set_string_array(text: &str, key: &str, items: &Vec<String>) -> (r: Result<
    String,
    EditError,
>)
    ensures
        match r {
            Ok(s) => exists|st: int, en: int|
                #[trigger] array_start(lines(text@), key@, st) && (forall|j: int|
                    0 <= j < st ==> !array_start(lines(text@), key@, j)) && #[trigger] array_end(
                    lines(text@),
                    st,
                    en,
                ) && (forall|j: int| st <= j < en ==> !array_end(lines(text@), st, j)) && s@
                    == join_nl(
                    lines(text@).take(st) + array_lines(key@, items@.map_values(|it: String| it@))
                        + lines(text@).skip(en + 1) + seq![Seq::<char>::empty()],
                ),
            Err(e) => {
                ||| (forall|j: int| !array_start(lines(text@), key@, j)) && (e matches EditError::NoArray {
                    key: k,
                } && k@ == key@)
                ||| exists|st: int|
                    #[trigger] array_start(lines(text@), key@, st) && (forall|j: int|
                        0 <= j < st ==> !array_start(lines(text@), key@, j)) && (forall|j: int|
                        !array_end(lines(text@), st, j)) && (e matches EditError::ArrayNotClosed {
                        key: k,
                    } && k@ == key@)
            },
        },
{
    let tc = chars_of(text);
    let ls = split_lines(tc.as_slice());
    let ghost v = views(ls@);
    assert(v == lines(text@));
    let kc = chars_of(key);
    let mask = top_level(&ls);
    let start = match first_array_line(&ls, &mask, &kc) {
        Some(s) => s,
        None => {
            return Err(EditError::NoArray { key: string_of(kc.as_slice()) });
        },
    };
    let end = match first_array_end(&ls, &mask, start) {
        Some(e) => e,
        None => {
            return Err(EditError::ArrayNotClosed { key: string_of(kc.as_slice()) });
        },
    };
    let ghost its = items@.map_values(|it: String| it@);
    let ghost want = v.take(start as int) + array_lines(key@, its) + v.skip(end + 1) + seq![
        Seq::<char>::empty(),
    ];
    let mut out: Vec<Vec<char>> = Vec::new();
    let mut i: usize = 0;
    while i < start
        invariant
            i <= start < ls@.len(),
            v == views(ls@),
            out@.len() == i,
            views(out@) == v.take(i as int),
        decreases start - i,
    {
        let ghost o0 = out@;
        out.push(copy_line(&ls[i]));
        proof {
            lemma_views_push(o0, out@[i as int]);
        }
        assert(views(out@) =~= v.take(i + 1));
        i += 1;
    }
    let mut head = kc.clone();
    assert(head@ == kc@);
    head.push(' ');
    head.push('=');
    head.push(' ');
    head.push('[');
    assert(head@ =~= key@ + seq![' ', '=', ' ', '[']);
    let ghost o0 = out@;
    out.push(head);
    proof {
        lemma_views_push(o0, out@[start as int]);
    }
    let ghost base = views(out@);
    assert(base =~= v.take(start as int) + seq![key@ + seq![' ', '=', ' ', '[']]);
    let mut k: usize = 0;
    while k < items.len()
        invariant
            k <= items@.len(),
            its == items@.map_values(|it: String| it@),
            views(out@) == base + its.take(k as int).map_values(|it: Seq<char>| item_line(it)),
        decreases items@.len() - k,
    {
        let ic = chars_of(items[k].as_str());
        let mut line: Vec<char> = Vec::new();
        line.push(' ');
        line.push(' ');
        line.push(' ');
        line.push(' ');
        line.push('"');
        let mut m: usize = 0;
        while m < ic.len()
            invariant
                m <= ic@.len(),
                line@ == seq![' ', ' ', ' ', ' ', '"'] + ic@.take(m as int),
            decreases ic@.len() - m,
        {
            line.push(ic[m]);
            m += 1;
            assert(ic@.take(m as int) =~= ic@.take(m - 1).push(ic@[m - 1]));
        }
        line.push('"');
        line.push(',');
        assert(ic@.take(m as int) =~= ic@);
        assert(line@ =~= item_line(its[k as int]));
        let ghost o0 = out@;
        out.push(line);
        proof {
            lemma_views_push(o0, out@[o0.len() as int]);
        }
        assert(its.take(k + 1) =~= its.take(k as int).push(its[k as int]));
        assert(views(out@) =~= base + its.take(k + 1).map_values(|it: Seq<char>| item_line(it)));
        k += 1;
    }
    let mut close: Vec<char> = Vec::new();
    close.push(']');
    let ghost o0 = out@;
    out.push(close);
    proof {
        lemma_views_push(o0, out@[o0.len() as int]);
        assert(close@ =~= seq![']']);
    }
    assert(its.take(k as int) =~= its);
    let ghost mid = views(out@);
    assert(mid =~= v.take(start as int) + array_lines(key@, its));
    assert(end < ls@.len());
    assert(ls@.len() == ls.len());
    let mut i: usize = end + 1;
    while i < ls.len()
        invariant
            end < i <= ls@.len(),
            v == views(ls@),
            views(out@) == mid + v.subrange(end + 1, i as int),
        decreases ls@.len() - i,
    {
        let ghost o0 = out@;
        out.push(copy_line(&ls[i]));
        proof {
            lemma_views_push(o0, out@[o0.len() as int]);
        }
        assert(views(out@) =~= mid + v.subrange(end + 1, i + 1));
        i += 1;
    }
    let ghost o0 = out@;
    out.push(Vec::new());
    proof {
        lemma_views_push(o0, out@[o0.len() as int]);
    }
    assert(views(out@) =~= want);
    let joined = join_lines(&out);
    Ok(string_of(joined.as_slice()))
}

/// One `[[annotation]]` record as the scanner sees it: its id, its
/// half-open span of lines (including the blank line that follows it), and
/// the line of its `lines` key.
pub struct Span {
    pub id: Seq<char>,
    pub start: int,
    pub end: int,
    pub lines_at: Option<int>,
}

/// What stops a scan.
pub enum Fault {
    UnparsableId(int),
    TwoLinesKeys(int, Seq<char>),
    MissingId(int),
    MissingLines(Seq<char>),
}

/// One scanned record.
#[derive(Debug)]
pub struct Record {
    pub id: String,
    /// Half-open line span, including the blank line that follows the record.
    pub start: usize,
    pub end: usize,
    /// Index of the record's `lines = ` line.
    pub lines_at: Option<usize>,
}

impl Record {
    pub open spec fn span(self) -> Span {
        Span { id: self.id@, start: self.start as int, end: self.end as int, lines_at: opt_int(self.lines_at) }
    }
}

/// The spans of scanned records.
pub open spec fn spans(recs: Seq<Record>) -> Seq<Span> {
    recs.map_values(|r: Record| r.span())
}

/// `e` is the error that reports `f`.
pub open spec fn reports(e: EditError, f: Fault) -> bool {
    match f {
        Fault::UnparsableId(l) => e matches EditError::UnparsableId { line } && line == l,
        Fault::TwoLinesKeys(l, i) => e matches EditError::TwoLinesKeys { line, id } && line == l && id@ == i,
        Fault::MissingId(l) => e matches EditError::MissingId { line } && line == l,
        Fault::MissingLines(i) => e matches EditError::MissingLines { id } && id@ == i,
    }
}

/// A value written as a double-quoted string, up to surrounding whitespace:
/// what is between the quotes.
pub open spec fn quoted(s: Seq<char>) -> Option<Seq<char>> {
    let t = trim(s);
    if t.len() >= 2 && t[0] == '"' && t[t.len() - 1] == '"' {
        Some(t.subrange(1, t.len() - 1))
    } else {
        None
    }
}

pub open spec fn with_end(s: Span, end: int) -> Span {
    Span { id: s.id, start: s.start, end, lines_at: s.lines_at }
}

pub open spec fn with_id(s: Span, id: Seq<char>) -> Span {
    Span { id, start: s.start, end: s.end, lines_at: s.lines_at }
}

pub open spec fn with_lines_at(s: Span, at: int) -> Span {
    Span { id: s.id, start: s.start, end: s.end, lines_at: Some(at) }
}

/// The scanner's step over line `i`: a top-level `[[annotation]]` closes the
/// current record and opens the next; inside a record, `id` and `lines` keys
/// are noted; everything else, and everything inside a body, is passed over.
pub open spec fn scan_line(ls: Seq<Seq<char>>, recs: Seq<Span>, i: int) -> Result<Seq<Span>, Fault> {
    let line = ls[i];
    if !top(ls, i) {
        Ok(recs)
    } else if trim(line) == "[[annotation]]"@ {
        let closed = if recs.len() > 0 {
            recs.update(recs.len() - 1, with_end(recs.last(), i))
        } else {
            recs
        };
        Ok(closed.push(Span { id: Seq::empty(), start: i, end: ls.len() as int, lines_at: None }))
    } else if recs.len() == 0 {
        Ok(recs)
    } else if key_prefix(line, "id"@) is Some {
        match quoted(line.skip(key_prefix(line, "id"@)->0)) {
            Some(q) => Ok(recs.update(recs.len() - 1, with_id(recs.last(), q))),
            None => Err(Fault::UnparsableId(i + 1)),
        }
    } else if key_prefix(line, "lines"@) is Some {
        if recs.last().lines_at is Some {
            Err(Fault::TwoLinesKeys(i + 1, recs.last().id))
        } else {
            Ok(recs.update(recs.len() - 1, with_lines_at(recs.last(), i)))
        }
    } else {
        Ok(recs)
    }
}

/// The scan of the first `n` lines.
pub open spec fn scan_prefix(ls: Seq<Seq<char>>, n: int) -> Result<Seq<Span>, Fault>
    decreases n,
{
    if n <= 0 {
        Ok(Seq::empty())
    } else {
        match scan_prefix(ls, n - 1) {
            Ok(recs) => scan_line(ls, recs, n - 1),
            Err(f) => Err(f),
        }
    }
}

/// The first record, in file order, with no id or no `lines` key.
pub open spec fn first_fault(recs: Seq<Span>) -> Option<Fault>
    decreases recs.len(),
{
    if recs.len() == 0 {
        None
    } else {
        match first_fault(recs.drop_last()) {
            Some(f) => Some(f),
            None => {
                let r = recs.last();
                if r.id.len() == 0 {
                    Some(Fault::MissingId(r.start + 1))
                } else if r.lines_at is None {
                    Some(Fault::MissingLines(r.id))
                } else {
                    None
                }
            },
        }
    }
}

/// A file split into its `[[annotation]]` records.
pub open spec fn scan_spec(ls: Seq<Seq<char>>) -> Result<Seq<Span>, Fault> {
    match scan_prefix(ls, ls.len() as int) {
        Err(f) => Err(f),
        Ok(recs) => match first_fault(recs) {
            Some(f) => Err(f),
            None => Ok(recs),
        },
    }
}

/// The records cover lines `recs[0].start..total` back to back, each span
/// non-empty, each `lines` key inside its record's span and assigning
/// `lines`.
pub open spec fn well_spanned(ls: Seq<Seq<char>>, recs: Seq<Span>, total: int) -> bool {
    &&& forall|k: int| 0 <= k < recs.len() ==> 0 <= (#[trigger] recs[k]).start < recs[k].end <= total
    &&& forall|j: int, k: int|
        0 <= j && k == j + 1 && k < recs.len() ==> (#[trigger] recs[j]).end == (#[trigger] recs[k]).start
    &&& recs.len() > 0 ==> recs.last().end == total
    &&& forall|k: int|
        0 <= k < recs.len() ==> ((#[trigger] recs[k]).lines_at matches Some(a) ==> recs[k].start <= a
            < recs[k].end && key_prefix(ls[a], "lines"@) is Some)
}

/// The scanner's invariant after `n` lines.
pub open spec fn scan_inv(ls: Seq<Seq<char>>, recs: Seq<Span>, n: int) -> bool {
    &&& well_spanned(ls, recs, ls.len() as int)
    &&& forall|k: int| 0 <= k < recs.len() ==> (#[trigger] recs[k]).start < n
    &&& forall|k: int| 0 <= k < recs.len() ==> ((#[trigger] recs[k]).lines_at matches Some(a) ==> a < n)
}

#[verifier::rlimit(40)]
proof fn lemma_inv_header(ls: Seq<Seq<char>>, recs: Seq<Span>, i: int)
    requires
        0 <= i < ls.len(),
        scan_inv(ls, recs, i),
    ensures
        ({
            let fresh = Span { id: Seq::empty(), start: i, end: ls.len() as int, lines_at: None };
            let closed = if recs.len() > 0 {
                recs.update(recs.len() - 1, with_end(recs.last(), i))
            } else {
                recs
            };
            scan_inv(ls, closed.push(fresh), i + 1)
        }),
{
    let fresh = Span { id: Seq::empty(), start: i, end: ls.len() as int, lines_at: None };
    if recs.len() > 0 {
        let closed = recs.update(recs.len() - 1, with_end(recs.last(), i));
        let out = closed.push(fresh);
        assert forall|j: int, k: int| 0 <= j && k == j + 1 && k < out.len() implies (#[trigger] out[j]).end
            == (#[trigger] out[k]).start by {
            if k < out.len() - 1 {
                assert(out[j] == recs[j] || j == recs.len() - 1);
                assert(recs[j].end == recs[k].start);
            }
        }
        assert forall|k: int| 0 <= k < out.len() implies 0 <= (#[trigger] out[k]).start < out[k].end
            <= ls.len() by {
            if k < out.len() - 2 {
                assert(out[k] == recs[k]);
                assert(recs[k].end == recs[k + 1].start);
            }
        }
        assert forall|k: int| 0 <= k < out.len() implies ((#[trigger] out[k]).lines_at matches Some(a)
            ==> out[k].start <= a < out[k].end && key_prefix(ls[a], "lines"@) is Some) by {
            if k < out.len() - 2 {
                assert(out[k] == recs[k]);
            }
        }
    } else {
        let out = recs.push(fresh);
        assert(out.len() == 1);
    }
}

proof fn lemma_inv_update(ls: Seq<Seq<char>>, recs: Seq<Span>, i: int, s: Span)
    requires
        0 <= i < ls.len(),
        scan_inv(ls, recs, i),
        recs.len() > 0,
        s.start == recs.last().start,
        s.end == recs.last().end,
        s.lines_at == recs.last().lines_at || (s.lines_at == Some(i) && key_prefix(ls[i], "lines"@) is Some),
    ensures
        scan_inv(ls, recs.update(recs.len() - 1, s), i + 1),
{
    let out = recs.update(recs.len() - 1, s);
    assert forall|j: int, k: int| 0 <= j && k == j + 1 && k < out.len() implies (#[trigger] out[j]).end
        == (#[trigger] out[k]).start by {
        assert(recs[j].end == recs[k].start);
    }
    assert forall|k: int| 0 <= k < out.len() implies 0 <= (#[trigger] out[k]).start < out[k].end
        <= ls.len() by {
        assert(0 <= recs[k].start < recs[k].end <= ls.len());
    }
}

proof fn lemma_scan_line_inv(ls: Seq<Seq<char>>, recs: Seq<Span>, i: int)
    requires
        0 <= i < ls.len(),
        scan_inv(ls, recs, i),
        scan_line(ls, recs, i) is Ok,
    ensures
        scan_inv(ls, scan_line(ls, recs, i)->Ok_0, i + 1),
{
    reveal(scan_line);
    if !top(ls, i) {
    } else if trim(ls[i]) == "[[annotation]]"@ {
        lemma_inv_header(ls, recs, i);
    } else if recs.len() == 0 {
    } else if key_prefix(ls[i], "id"@) is Some {
        let q = quoted(ls[i].skip(key_prefix(ls[i], "id"@)->0))->Some_0;
        lemma_inv_update(ls, recs, i, with_id(recs.last(), q));
    } else if key_prefix(ls[i], "lines"@) is Some {
        lemma_inv_update(ls, recs, i, with_lines_at(recs.last(), i));
    }
}

proof fn lemma_scan_prefix_inv(ls: Seq<Seq<char>>, n: int)
    requires
        0 <= n <= ls.len(),
        scan_prefix(ls, n) is Ok,
    ensures
        scan_inv(ls, scan_prefix(ls, n)->Ok_0, n),
    decreases n,
{
    if n > 0 {
        lemma_scan_prefix_inv(ls, n - 1);
        lemma_scan_line_inv(ls, scan_prefix(ls, n - 1)->Ok_0, n - 1);
    }
}

proof fn lemma_scan_prefix_err(ls: Seq<Seq<char>>, n: int, m: int)
    requires
        0 <= n <= m,
        scan_prefix(ls, n) is Err,
    ensures
        scan_prefix(ls, m) == scan_prefix(ls, n),
    decreases m - n,
{
    if m > n {
        lemma_scan_prefix_err(ls, n, m - 1);
    }
}

/// `line`, trimmed, is the header of a record.
fn is_header(line: &Vec<char>, header: &Vec<char>) -> (b: bool)
    requires
        header@ == "[[annotation]]"@,
    ensures
        b == (trim(line@) == "[[annotation]]"@),
{
    let t = crate::text::trimmed(line.as_slice());
    crate::text::eq_chars(&t, header)
}

/// The quoted value after position `p` of `line`, if it is one.
fn quoted_after(line: &Vec<char>, p: usize) -> (r: Option<Vec<char>>)
    requires
        p <= line@.len(),
    ensures
        match r {
            Some(q) => quoted(line@.skip(p as int)) == Some(q@),
            None => quoted(line@.skip(p as int)) is None,
        },
{
    let rest = copy_range(line.as_slice(), p, line.len());
    assert(rest@ =~= line@.skip(p as int));
    let (lo, hi) = trim_bounds(rest.as_slice());
    if hi - lo >= 2 && rest[lo] == '"' && rest[hi - 1] == '"' {
        let q = copy_range(rest.as_slice(), lo + 1, hi - 1);
        assert(q@ =~= trim(rest@).subrange(1, trim(rest@).len() - 1));
        Some(q)
    } else {
        None
    }
}

/// Splits a file into its `[[annotation]]` records, skipping over `"""`
/// bodies, and checks that each has an id and a `lines` key.
pub fn scan(text: &str) -> (r: Result<Vec<Record>, EditError>)
    ensures
        match r {
            Ok(recs) => scan_spec(lines(text@)) == Ok::<Seq<Span>, Fault>(spans(recs@)),
            Err(e) => scan_spec(lines(text@)) matches Err(f) && reports(e, f),
        },
{
    let tc = chars_of(text);
    let ls = split_lines(tc.as_slice());
    let ghost v = views(ls@);
    assert(v == lines(text@));
    let mask = top_level(&ls);
    let header = chars_of("[[annotation]]");
    let id_key = chars_of("id");
    let lines_key = chars_of("lines");
    let total = ls.len();
    let mut records: Vec<Record> = Vec::new();
    assert(spans(records@) =~= Seq::<Span>::empty());
    let mut i: usize = 0;
    while i < total
        invariant
            i <= total == ls@.len(),
            v == views(ls@),
            v == lines(text@),
            header@ == "[[annotation]]"@,
            id_key@ == "id"@,
            lines_key@ == "lines"@,
            mask@.len() == ls@.len(),
            forall|k: int| 0 <= k < ls@.len() ==> mask@[k] == top(v, k),
            scan_prefix(v, i as int) == Ok::<Seq<Span>, Fault>(spans(records@)),
        decreases total - i,
    {
        let line = &ls[i];
        assert(v[i as int] == line@);
        let ghost before = spans(records@);
        assert(scan_prefix(v, i + 1) == scan_line(v, before, i as int));
        if !mask[i] {
            proof {
                reveal(scan_line);
            }
            i += 1;
            continue;
        }
        if is_header(line, &header) {
            proof {
                reveal(scan_line);
            }
            let ghost closed = if before.len() > 0 {
                before.update(before.len() - 1, with_end(before.last(), i as int))
            } else {
                before
            };
            if records.len() > 0 {
                let mut last = records.pop().unwrap();
                last.end = i;
                records.push(last);
            }
            assert(spans(records@) =~= closed);
            records.push(Record { id: String::new(), start: i, end: total, lines_at: None });
            assert(spans(records@) =~= closed.push(Span { id: Seq::empty(), start: i as int, end: total as int, lines_at: None }));
            i += 1;
            continue;
        }
        if records.len() == 0 {
            proof {
                reveal(scan_line);
            }
            i += 1;
            continue;
        }
        proof {
            reveal(scan_line);
        }
        if let Some(p) = strip_key(line, &id_key) {
            match quoted_after(line, p) {
                Some(q) => {
                    let mut last = records.pop().unwrap();
                    last.id = string_of(q.as_slice());
                    records.push(last);
                    assert(spans(records@) =~= before.update(before.len() - 1, with_id(before.last(), q@)));
                },
                None => {
                    proof {
                        lemma_scan_prefix_err(v, i + 1, v.len() as int);
                    }
                    return Err(EditError::UnparsableId { line: i + 1 });
                },
            }
        } else if strip_key(line, &lines_key).is_some() {
            let n = records.len();
            if records[n - 1].lines_at.is_some() {
                let id = string_of(chars_of(records[n - 1].id.as_str()).as_slice());
                proof {
                    lemma_scan_prefix_err(v, i + 1, v.len() as int);
                }
                return Err(EditError::TwoLinesKeys { line: i + 1, id });
            }
            let mut last = records.pop().unwrap();
            last.lines_at = Some(i);
            records.push(last);
            assert(spans(records@) =~= before.update(before.len() - 1, with_lines_at(before.last(), i as int)));
        }
        i += 1;
    }
    let ghost recs = spans(records@);
    proof {
        lemma_scan_prefix_inv(v, v.len() as int);
    }
    let mut k: usize = 0;
    while k < records.len()
        invariant
            k <= records@.len(),
            recs == spans(records@),
            v == lines(text@),
            scan_prefix(v, v.len() as int) == Ok::<Seq<Span>, Fault>(recs),
            v.len() == total,
            forall|j: int| 0 <= j < recs.len() ==> (#[trigger] recs[j]).start < total,
            first_fault(recs.take(k as int)) is None,
        decreases records@.len() - k,
    {
        assert(recs.take(k + 1).drop_last() =~= recs.take(k as int));
        if records[k].id.as_str().unicode_len() == 0 {
            assert(recs[k as int].id.len() == 0);
            assert(recs[k as int].start < total);
            proof {
                lemma_first_fault_prefix(recs, k + 1);
            }
            return Err(EditError::MissingId { line: records[k].start + 1 });
        }
        if records[k].lines_at.is_none() {
            proof {
                lemma_first_fault_prefix(recs, k + 1);
            }
            let id = string_of(chars_of(records[k].id.as_str()).as_slice());
            return Err(EditError::MissingLines { id });
        }
        k += 1;
    }
    assert(recs.take(k as int) =~= recs);
    Ok(records)
}

proof fn lemma_first_fault_prefix(recs: Seq<Span>, k: int)
    requires
        0 <= k <= recs.len(),
        first_fault(recs.take(k)) is Some,
    ensures
        first_fault(recs) == first_fault(recs.take(k)),
    decreases recs.len() - k,
{
    if k < recs.len() {
        assert(recs.take(k + 1).drop_last() =~= recs.take(k));
        lemma_first_fault_prefix(recs, k + 1);
    } else {
        assert(recs.take(k) =~= recs);
    }
}

/// What to do with one annotation record.
#[derive(Debug, Clone)]
pub enum Edit {
    /// Give it this `lines` value.
    Retarget(String),
    /// Remove the record entirely. Its text goes to the migration report,
    /// since this is only chosen when the lines it claimed no longer exist.
    Drop,
}

/// What a rewrite did.
#[derive(Debug)]
pub struct Outcome {
    pub retargeted: usize,
    pub dropped: usize,
    /// The id and full text of every dropped record, so the migration report
    /// can carry the prose forward even though the file no longer does.
    pub dropped_text: Vec<(String, String)>,
}

impl Default for Outcome {
    fn default() -> (o: Outcome)
        ensures
            o.retargeted == 0,
            o.dropped == 0,
            o.dropped_text@.len() == 0,
    {
        Outcome { retargeted: 0, dropped: 0, dropped_text: Vec::new() }
    }
}

/// The map an id-sorted entry list stands for.
pub open spec fn map_of(es: Seq<(String, Edit)>) -> Map<Seq<char>, Edit>
    decreases es.len(),
{
    if es.len() == 0 {
        Map::empty()
    } else {
        map_of(es.drop_last()).insert(es.last().0@, es.last().1)
    }
}

/// Entries strictly ascending by id.
pub open spec fn sorted_keys(es: Seq<(String, Edit)>) -> bool {
    forall|i: int, j: int| 0 <= i < j < es.len() ==> lex_lt((#[trigger] es[i]).0@, (#[trigger] es[j]).0@)
}

proof fn lemma_map_of(es: Seq<(String, Edit)>)
    requires
        sorted_keys(es),
    ensures
        forall|i: int|
            0 <= i < es.len() ==> map_of(es).contains_key((#[trigger] es[i]).0@) && map_of(es)[es[i].0@]
                == es[i].1,
        forall|k: Seq<char>| #[trigger] map_of(es).contains_key(k) ==> exists|i: int| 0 <= i < es.len() && (#[trigger] es[i]).0@ == k,
    decreases es.len(),
{
    if es.len() > 0 {
        let init = es.drop_last();
        assert(sorted_keys(init)) by {
            assert forall|i: int, j: int| 0 <= i < j < init.len() implies lex_lt((#[trigger] init[i]).0@, (#[trigger] init[j]).0@) by {
                assert(init[i] == es[i] && init[j] == es[j]);
            }
        }
        lemma_map_of(init);
        assert forall|i: int| 0 <= i < es.len() implies map_of(es).contains_key((#[trigger] es[i]).0@) && map_of(es)[es[i].0@]
            == es[i].1 by {
            if i < es.len() - 1 {
                assert(init[i] == es[i]);
                assert(lex_lt(es[i].0@, es.last().0@));
                lemma_lex_irreflexive(es[i].0@);
            }
        }
        assert forall|k: Seq<char>| #[trigger] map_of(es).contains_key(k) implies exists|i: int| 0 <= i < es.len() && (#[trigger] es[i]).0@ == k by {
            if k != es.last().0@ {
                assert(map_of(init).contains_key(k));
                let i = choose|i: int| 0 <= i < init.len() && (#[trigger] init[i]).0@ == k;
                assert(es[i] == init[i]);
            } else {
                assert(es[es.len() - 1].0@ == k);
            }
        }
    }
}

/// The edits for one file, keyed by annotation id and kept in id order.
#[derive(Debug)]
pub struct Edits {
    entries: Vec<(String, Edit)>,
}

impl View for Edits {
    type V = Map<Seq<char>, Edit>;

    closed spec fn view(&self) -> Map<Seq<char>, Edit> {
        map_of(self.entries@)
    }
}

impl Edits {
    #[verifier::type_invariant]
    closed spec fn ordered(self) -> bool {
        sorted_keys(self.entries@)
    }

    /// The ids in order.
    pub closed spec fn keys(self) -> Seq<Seq<char>> {
        self.entries@.map_values(|e: (String, Edit)| e.0@)
    }

    /// No edits.
    pub fn new() -> (r: Edits)
        ensures
            r@ == Map::<Seq<char>, Edit>::empty(),
    {
        Edits { entries: Vec::new() }
    }

    /// Sets the edit for `id`, replacing any earlier one.
    pub fn insert(&mut self, id: String, edit: Edit)
        ensures
            final(self)@ == old(self)@.insert(id@, edit),
    {
        proof {
            use_type_invariant(&*self);
        }
        let ghost old_es = self.entries@;
        let mut p: usize = 0;
        while p < self.entries.len()
            invariant
                p <= self.entries@.len(),
                self.entries@ == old_es,
                sorted_keys(old_es),
                forall|j: int| 0 <= j < p ==> lex_lt((#[trigger] old_es[j]).0@, id@),
            ensures
                p <= old_es.len(),
                forall|j: int| 0 <= j < p ==> lex_lt((#[trigger] old_es[j]).0@, id@),
                p < old_es.len() ==> !lex_lt(old_es[p as int].0@, id@),
            decreases self.entries@.len() - p,
        {
            if !crate::text::lex_less(self.entries[p].0.as_str(), id.as_str()) {
                break;
            }
            p += 1;
        }
        proof {
            lemma_map_of(old_es);
        }
        if p < self.entries.len() && crate::text::str_eq(self.entries[p].0.as_str(), id.as_str()) {
            let ghost new_es = old_es.update(p as int, (id, edit));
            let mut entries = Vec::new();
            std::mem::swap(&mut entries, &mut self.entries);
            entries.set(p, (id, edit));
            assert(entries@ == new_es);
            assert(sorted_keys(new_es)) by {
                assert forall|i: int, j: int| 0 <= i < j < new_es.len() implies lex_lt((#[trigger] new_es[i]).0@, (#[trigger] new_es[j]).0@) by {
                    assert(old_es[i].0@ == new_es[i].0@);
                    assert(old_es[j].0@ == new_es[j].0@);
                }
            }
            proof {
                lemma_map_of(new_es);
                assert(map_of(new_es) =~= map_of(old_es).insert(id@, edit)) by {
                    assert forall|k: Seq<char>| #[trigger] map_of(new_es).contains_key(k) <==> map_of(old_es).insert(id@, edit).contains_key(k) by {
                        if map_of(new_es).contains_key(k) {
                            let i = choose|i: int| 0 <= i < new_es.len() && (#[trigger] new_es[i]).0@ == k;
                            assert(old_es[i].0@ == k);
                        }
                        if map_of(old_es).contains_key(k) {
                            let i = choose|i: int| 0 <= i < old_es.len() && (#[trigger] old_es[i]).0@ == k;
                            assert(new_es[i].0@ == k);
                        }
                    }
                    assert forall|k: Seq<char>| #[trigger] map_of(new_es).contains_key(k) implies map_of(new_es)[k] == map_of(old_es).insert(id@, edit)[k] by {
                        let i = choose|i: int| 0 <= i < new_es.len() && (#[trigger] new_es[i]).0@ == k;
                        if i != p {
                            assert(old_es[i] == new_es[i]);
                            if i < p {
                                assert(lex_lt(old_es[i].0@, old_es[p as int].0@));
                            } else {
                                assert(lex_lt(old_es[p as int].0@, old_es[i].0@));
                            }
                            lemma_lex_irreflexive(k);
                            assert(k != id@);
                        }
                    }
                }
            }
            self.entries = entries;
        } else {
            if p < self.entries.len() {
                proof {
                    lemma_lex_total(old_es[p as int].0@, id@);
                }
            }
            let ghost new_es = old_es.insert(p as int, (id, edit));
            let mut entries = Vec::new();
            std::mem::swap(&mut entries, &mut self.entries);
            entries.insert(p, (id, edit));
            assert(entries@ == new_es);
            assert(sorted_keys(new_es)) by {
                assert forall|i: int, j: int| 0 <= i < j < new_es.len() implies lex_lt((#[trigger] new_es[i]).0@, (#[trigger] new_es[j]).0@) by {
                    if j < p {
                        assert(new_es[i] == old_es[i] && new_es[j] == old_es[j]);
                    } else if j == p {
                        assert(new_es[i] == old_es[i]);
                    } else if i < p {
                        assert(new_es[i] == old_es[i] && new_es[j] == old_es[j - 1]);
                        assert(lex_lt(old_es[i].0@, id@));
                        assert(lex_lt(id@, old_es[p as int].0@));
                        if j - 1 > p {
                            lemma_lex_transitive(id@, old_es[p as int].0@, old_es[j - 1].0@);
                        }
                        lemma_lex_transitive(old_es[i].0@, id@, old_es[j - 1].0@);
                    } else if i == p {
                        assert(new_es[j] == old_es[j - 1]);
                        if j - 1 > p {
                            lemma_lex_transitive(id@, old_es[p as int].0@, old_es[j - 1].0@);
                        }
                    } else {
                        assert(new_es[i] == old_es[i - 1] && new_es[j] == old_es[j - 1]);
                    }
                }
            }
            proof {
                lemma_map_of(new_es);
                assert(map_of(new_es) =~= map_of(old_es).insert(id@, edit)) by {
                    assert forall|k: Seq<char>| #[trigger] map_of(new_es).contains_key(k) <==> map_of(old_es).insert(id@, edit).contains_key(k) by {
                        if map_of(new_es).contains_key(k) {
                            let i = choose|i: int| 0 <= i < new_es.len() && (#[trigger] new_es[i]).0@ == k;
                            if i < p {
                                assert(old_es[i].0@ == k);
                            } else if i > p {
                                assert(old_es[i - 1].0@ == k);
                            }
                        }
                        if map_of(old_es).contains_key(k) {
                            let i = choose|i: int| 0 <= i < old_es.len() && (#[trigger] old_es[i]).0@ == k;
                            if i < p {
                                assert(new_es[i].0@ == k);
                            } else {
                                assert(new_es[i + 1].0@ == k);
                            }
                        }
                        assert(new_es[p as int].0@ == id@);
                    }
                    assert forall|k: Seq<char>| #[trigger] map_of(new_es).contains_key(k) implies map_of(new_es)[k] == map_of(old_es).insert(id@, edit)[k] by {
                        let i = choose|i: int| 0 <= i < new_es.len() && (#[trigger] new_es[i]).0@ == k;
                        if i < p {
                            assert(old_es[i] == new_es[i]);
                            assert(lex_lt(k, id@));
                            lemma_lex_irreflexive(k);
                        } else if i > p {
                            assert(old_es[i - 1] == new_es[i]);
                            if p < old_es.len() {
                                assert(lex_lt(id@, old_es[p as int].0@));
                                if i - 1 > p {
                                    lemma_lex_transitive(id@, old_es[p as int].0@, old_es[i - 1].0@);
                                }
                                lemma_lex_irreflexive(k);
                            }
                        }
                    }
                }
            }
            self.entries = entries;
        }
    }

    /// Position of the entry for `id`, if there is one.
    fn position(&self, id: &str) -> (r: Option<usize>)
        ensures
            r matches Some(j) ==> j < self.entries@.len() && self.entries@[j as int].0@ == id@,
            r is None ==> !self@.contains_key(id@),
    {
        proof {
            use_type_invariant(self);
            lemma_map_of(self.entries@);
        }
        let mut j: usize = 0;
        while j < self.entries.len()
            invariant
                j <= self.entries@.len(),
                forall|i: int| 0 <= i < j ==> (#[trigger] self.entries@[i]).0@ != id@,
            decreases self.entries@.len() - j,
        {
            if crate::text::str_eq(self.entries[j].0.as_str(), id) {
                return Some(j);
            }
            j += 1;
        }
        None
    }
}

/// A header line with its `source` value, if it assigns one, set to
/// `new_source`.
pub open spec fn header_line(line: Seq<char>, new_source: Seq<char>) -> Seq<char> {
    match key_prefix(line, "source"@) {
        Some(p) => assigned(line, p, new_source),
        None => line,
    }
}

/// Where the first record starts: the end of the header.
pub open spec fn body_start(recs: Seq<Span>, total: int) -> int {
    if recs.len() > 0 {
        recs[0].start
    } else {
        total
    }
}

/// A record's lines with its `lines` value set to `value`.
pub open spec fn retargeted_span(ls: Seq<Seq<char>>, r: Span, value: Seq<char>) -> Seq<Seq<char>> {
    Seq::new(
        (r.end - r.start) as nat,
        |k: int|
            if r.lines_at == Some(r.start + k) {
                assigned(ls[r.start + k], key_prefix(ls[r.start + k], "lines"@)->0, value)
            } else {
                ls[r.start + k]
            },
    )
}

/// What a record becomes under its edit.
pub open spec fn record_out(ls: Seq<Seq<char>>, r: Span, e: Edit) -> Seq<Seq<char>> {
    match e {
        Edit::Retarget(v) => retargeted_span(ls, r, v@),
        Edit::Drop => Seq::empty(),
    }
}

/// Every record, under its edit, in file order.
pub open spec fn body_out(ls: Seq<Seq<char>>, recs: Seq<Span>, edits: Map<Seq<char>, Edit>) -> Seq<
    Seq<char>,
>
    decreases recs.len(),
{
    if recs.len() == 0 {
        Seq::empty()
    } else {
        body_out(ls, recs.drop_last(), edits) + record_out(ls, recs.last(), edits[recs.last().id])
    }
}

/// Lines without the blank (or whitespace-only) lines at their end.
pub open spec fn drop_blank_tail(s: Seq<Seq<char>>) -> Seq<Seq<char>>
    decreases s.len(),
{
    if s.len() > 0 && trim(s.last()).len() == 0 {
        drop_blank_tail(s.drop_last())
    } else {
        s
    }
}

/// The header with its `source` set, the records under their edits, blank
/// lines at the end removed, and a final newline.
pub open spec fn rewritten(
    ls: Seq<Seq<char>>,
    recs: Seq<Span>,
    new_source: Seq<char>,
    edits: Map<Seq<char>, Edit>,
) -> Seq<char> {
    let head = ls.take(body_start(recs, ls.len() as int)).map_values(
        |l: Seq<char>| header_line(l, new_source),
    );
    join_nl(drop_blank_tail(head + body_out(ls, recs, edits)).push(Seq::empty()))
}

/// How many records are retargeted.
pub open spec fn count_retargeted(recs: Seq<Span>, edits: Map<Seq<char>, Edit>) -> nat
    decreases recs.len(),
{
    if recs.len() == 0 {
        0
    } else {
        count_retargeted(recs.drop_last(), edits) + if edits[recs.last().id] is Retarget {
            1nat
        } else {
            0nat
        }
    }
}

/// The id and text of every dropped record, in file order.
pub open spec fn dropped_texts(ls: Seq<Seq<char>>, recs: Seq<Span>, edits: Map<Seq<char>, Edit>) -> Seq<
    (Seq<char>, Seq<char>),
>
    decreases recs.len(),
{
    if recs.len() == 0 {
        Seq::empty()
    } else {
        let before = dropped_texts(ls, recs.drop_last(), edits);
        let r = recs.last();
        if edits[r.id] is Drop {
            before.push((r.id, join_nl(ls.subrange(r.start, r.end))))
        } else {
            before
        }
    }
}

/// Some record carries this id.
pub open spec fn in_file(recs: Seq<Span>, id: Seq<char>) -> bool {
    exists|k: int| 0 <= k < recs.len() && (#[trigger] recs[k]).id == id
}

/// Record `k` is the first with no edit.
pub open spec fn first_unedited(recs: Seq<Span>, edits: Map<Seq<char>, Edit>, k: int) -> bool {
    &&& 0 <= k < recs.len()
    &&& !edits.contains_key(recs[k].id)
    &&& forall|j: int| 0 <= j < k ==> edits.contains_key((#[trigger] recs[j]).id)
}

/// `id` is the least edited id, in id order, that no record carries.
pub open spec fn least_stray(recs: Seq<Span>, edits: Map<Seq<char>, Edit>, id: Seq<char>) -> bool {
    &&& edits.contains_key(id)
    &&& !in_file(recs, id)
    &&& forall|k: Seq<char>| #[trigger] edits.contains_key(k) && lex_lt(k, id) ==> in_file(recs, k)
}

/// The views of the dropped texts.
pub open spec fn text_pairs(v: Seq<(String, String)>) -> Seq<(Seq<char>, Seq<char>)> {
    v.map_values(|p: (String, String)| (p.0@, p.1@))
}

/// A successful rewrite of the file whose lines are `ls`.
pub open spec fn rewrite_ok(
    ls: Seq<Seq<char>>,
    new_source: Seq<char>,
    edits: Map<Seq<char>, Edit>,
    out: Seq<char>,
    o: Outcome,
) -> bool {
    &&& scan_spec(ls) is Ok
    &&& {
        let recs = scan_spec(ls)->Ok_0;
        &&& forall|k: int| 0 <= k < recs.len() ==> edits.contains_key((#[trigger] recs[k]).id)
        &&& forall|id: Seq<char>| #[trigger] edits.contains_key(id) ==> in_file(recs, id)
        &&& out == rewritten(ls, recs, new_source, edits)
        &&& o.retargeted == count_retargeted(recs, edits)
        &&& o.dropped == recs.len() - count_retargeted(recs, edits)
        &&& text_pairs(o.dropped_text@) == dropped_texts(ls, recs, edits)
    }
}

/// The error a rewrite of the file whose lines are `ls` stops with: a scan
/// fault; else the first record without an edit; else the least stray id.
pub open spec fn rewrite_err(ls: Seq<Seq<char>>, edits: Map<Seq<char>, Edit>, e: EditError) -> bool {
    match scan_spec(ls) {
        Err(f) => reports(e, f),
        Ok(recs) => {
            ||| exists|k: int|
                #[trigger] first_unedited(recs, edits, k) && (e matches EditError::NoEditFor { id } && id@
                    == recs[k].id)
            ||| (forall|k: int| 0 <= k < recs.len() ==> edits.contains_key((#[trigger] recs[k]).id))
                && exists|id: Seq<char>|
                #[trigger] least_stray(recs, edits, id) && (e matches EditError::NotInFile { id: i } && i@
                    == id)
        },
    }
}

/// The edit for `id`, which `edits` holds at position `j`.
fn edit_at(edits: &Edits, j: usize) -> (r: &Edit)
    requires
        j < edits.entries@.len(),
    ensures
        *r == edits@[edits.entries@[j as int].0@],
        edits@.contains_key(edits.entries@[j as int].0@),
{
    proof {
        use_type_invariant(edits);
        lemma_map_of(edits.entries@);
    }
    &edits.entries[j].1
}

/// Copies lines `lo..hi` of `ls`.
fn copy_lines(ls: &Vec<Vec<char>>, lo: usize, hi: usize) -> (r: Vec<Vec<char>>)
    requires
        lo <= hi <= ls@.len(),
    ensures
        views(r@) == views(ls@).subrange(lo as int, hi as int),
{
    let mut r: Vec<Vec<char>> = Vec::new();
    let mut i = lo;
    while i < hi
        invariant
            lo <= i <= hi <= ls@.len(),
            views(r@) == views(ls@).subrange(lo as int, i as int),
        decreases hi - i,
    {
        let ghost r0 = r@;
        r.push(copy_line(&ls[i]));
        proof {
            lemma_views_push(r0, r@[r0.len() as int]);
        }
        assert(views(r@) =~= views(ls@).subrange(lo as int, i + 1));
        i += 1;
    }
    r
}

proof fn lemma_drop_blank_tail_step(s: Seq<Seq<char>>)
    requires
        s.len() > 0,
        trim(s.last()).len() == 0,
    ensures
        drop_blank_tail(s) == drop_blank_tail(s.drop_last()),
{
}

/// Applies `edits` to one annotation file's text: the header's `source` is
/// set to `new_source`, each record is retargeted or dropped as its edit
/// says, and nothing else changes. Every record must have an edit and every
/// edit must name a record: a silent mismatch would leave a line range
/// pointing at the previous version's source.
pub fn rewrite(text: &str, new_source: &str, edits: &Edits) -> (r: Result<(String, Outcome), EditError>)
    ensures
        match r {
            Ok((s, o)) => rewrite_ok(lines(text@), new_source@, edits@, s@, o),
            Err(e) => rewrite_err(lines(text@), edits@, e),
        },
{
    proof {
        use_type_invariant(edits);
        lemma_map_of(edits.entries@);
    }
    let records = match scan(text) {
        Ok(rs) => rs,
        Err(e) => {
            return Err(e);
        },
    };
    let ghost recs = spans(records@);
    let ghost l = lines(text@);
    let ghost em = edits@;
    assert(scan_spec(l) == Ok::<Seq<Span>, Fault>(recs));
    let n = records.len();
    // Every record has an edit, and which one it is.
    let mut which: Vec<usize> = Vec::new();
    let mut k: usize = 0;
    while k < n
        invariant
            k <= n == records@.len(),
            recs == spans(records@),
            em == edits@,
            em == map_of(edits.entries@),
            sorted_keys(edits.entries@),
            l == lines(text@),
            scan_spec(l) == Ok::<Seq<Span>, Fault>(recs),
            which@.len() == k,
            forall|j: int|
                0 <= j < k ==> (#[trigger] which@[j]) < edits.entries@.len() && edits.entries@[which@[j] as int].0@
                    == recs[j].id,
            forall|j: int| 0 <= j < k ==> em.contains_key((#[trigger] recs[j]).id),
        decreases n - k,
    {
        match edits.position(records[k].id.as_str()) {
            Some(j) => {
                proof {
                    lemma_map_of(edits.entries@);
                }
                which.push(j);
            },
            None => {
                let id = string_of(chars_of(records[k].id.as_str()).as_slice());
                assert(first_unedited(recs, em, k as int));
                return Err(EditError::NoEditFor { id });
            },
        }
        k += 1;
    }
    // Every edit names a record; the first that does not, in id order, is
    // the one reported.
    let mut j: usize = 0;
    while j < edits.entries.len()
        invariant
            j <= edits.entries@.len(),
            n == records@.len(),
            recs == spans(records@),
            em == edits@,
            em == map_of(edits.entries@),
            sorted_keys(edits.entries@),
            l == lines(text@),
            scan_spec(l) == Ok::<Seq<Span>, Fault>(recs),
            forall|i: int| 0 <= i < n ==> em.contains_key((#[trigger] recs[i]).id),
            forall|i: int| 0 <= i < j ==> in_file(recs, (#[trigger] edits.entries@[i]).0@),
        decreases edits.entries@.len() - j,
    {
        let key = edits.entries[j].0.as_str();
        let mut found = false;
        let mut k: usize = 0;
        while k < n
            invariant
                k <= n == records@.len(),
                recs == spans(records@),
                j < edits.entries@.len(),
                key@ == edits.entries@[j as int].0@,
                found ==> in_file(recs, key@),
                !found ==> forall|i: int| 0 <= i < k ==> (#[trigger] recs[i]).id != key@,
            decreases n - k,
        {
            if crate::text::str_eq(records[k].id.as_str(), key) {
                assert(recs[k as int].id == key@);
                found = true;
            }
            k += 1;
        }
        if !found {
            let id = string_of(chars_of(key).as_slice());
            assert(least_stray(recs, em, key@)) by {
                lemma_map_of(edits.entries@);
                assert(em.contains_key(edits.entries@[j as int].0@));
                assert(!in_file(recs, key@));
                assert forall|k2: Seq<char>| #[trigger] em.contains_key(k2) && lex_lt(k2, key@) implies in_file(recs, k2) by {
                    lemma_map_of(edits.entries@);
                    let i = choose|i: int| 0 <= i < edits.entries@.len() && (#[trigger] edits.entries@[i]).0@ == k2;
                    if i >= j {
                        if i > j {
                            assert(lex_lt(edits.entries@[j as int].0@, edits.entries@[i].0@));
                            lemma_lex_transitive(key@, k2, key@);
                        }
                        lemma_lex_irreflexive(key@);
                    }
                }
            }
            return Err(EditError::NotInFile { id });
        }
        j += 1;
    }
    assert forall|id: Seq<char>| #[trigger] em.contains_key(id) implies in_file(recs, id) by {
        lemma_map_of(edits.entries@);
        let i = choose|i: int| 0 <= i < edits.entries@.len() && (#[trigger] edits.entries@[i]).0@ == id;
    }
    // The header, with its `source` set.
    let tc = chars_of(text);
    let ls = split_lines(tc.as_slice());
    assert(views(ls@) == l);
    proof {
        lemma_scan_prefix_inv(l, l.len() as int);
    }
    let total = ls.len();
    let bs = if n > 0 {
        records[0].start
    } else {
        total
    };
    assert(bs == body_start(recs, total as int));
    let source_key = chars_of("source");
    let lines_key = chars_of("lines");
    let nsc = chars_of(new_source);
    let ghost head = l.take(bs as int).map_values(|x: Seq<char>| header_line(x, new_source@));
    let mut out: Vec<Vec<char>> = Vec::new();
    let mut i: usize = 0;
    while i < bs
        invariant
            i <= bs <= total == ls@.len(),
            views(ls@) == l,
            source_key@ == "source"@,
            nsc@ == new_source@,
            head == l.take(bs as int).map_values(|x: Seq<char>| header_line(x, new_source@)),
            views(out@) == head.take(i as int),
        decreases bs - i,
    {
        assert(l[i as int] == ls@[i as int]@);
        let line = match strip_key(&ls[i], &source_key) {
            Some(p) => assign(&ls[i], p, &nsc),
            None => copy_line(&ls[i]),
        };
        let ghost o0 = out@;
        out.push(line);
        proof {
            lemma_views_push(o0, out@[o0.len() as int]);
        }
        assert(views(out@) =~= head.take(i + 1));
        i += 1;
    }
    assert(head.take(bs as int) =~= head);
    // The records, under their edits.
    let mut outcome = Outcome { retargeted: 0, dropped: 0, dropped_text: Vec::new() };
    let mut k: usize = 0;
    while k < n
        invariant
            k <= n == records@.len(),
            recs == spans(records@),
            total == ls@.len(),
            views(ls@) == l,
            lines_key@ == "lines"@,
            em == edits@,
            which@.len() == n,
            forall|j: int|
                0 <= j < n ==> (#[trigger] which@[j]) < edits.entries@.len() && edits.entries@[which@[j] as int].0@
                    == recs[j].id,
            scan_inv(l, recs, total as int),
            views(out@) == head + body_out(l, recs.take(k as int), em),
            outcome.retargeted == count_retargeted(recs.take(k as int), em),
            outcome.dropped + outcome.retargeted == k,
            text_pairs(outcome.dropped_text@) == dropped_texts(l, recs.take(k as int), em),
        decreases n - k,
    {
        let rec = &records[k];
        let ghost r = recs[k as int];
        assert(r == rec.span());
        assert(0 <= r.start < r.end <= total);
        let e = edit_at(edits, which[k]);
        assert(*e == em[r.id]);
        let ghost before = views(out@);
        assert(recs.take(k + 1).drop_last() =~= recs.take(k as int));
        assert(recs.take(k + 1).last() == r);
        match e {
            Edit::Drop => {
                let span = copy_lines(&ls, rec.start, rec.end);
                let text_of = join_lines(&span);
                let id = string_of(chars_of(rec.id.as_str()).as_slice());
                let t = string_of(text_of.as_slice());
                let ghost d0 = outcome.dropped_text@;
                outcome.dropped_text.push((id, t));
                outcome.dropped = outcome.dropped + 1;
                assert(text_pairs(outcome.dropped_text@) =~= text_pairs(d0).push((r.id, join_nl(l.subrange(r.start, r.end)))));
                assert(views(out@) =~= head + body_out(l, recs.take(k + 1), em));
            },
            Edit::Retarget(value) => {
                let vc = chars_of(value.as_str());
                outcome.retargeted = outcome.retargeted + 1;
                let ghost want = retargeted_span(l, r, value@);
                let mut i = rec.start;
                while i < rec.end
                    invariant
                        r.start <= i <= r.end <= total == ls@.len(),
                        r == rec.span(),
                        views(ls@) == l,
                        lines_key@ == "lines"@,
                        vc@ == value@,
                        want == retargeted_span(l, r, value@),
                        r.lines_at matches Some(a) ==> r.start <= a < r.end && key_prefix(l[a], "lines"@) is Some,
                        views(out@) == before + want.take(i - r.start),
                    decreases rec.end - i,
                {
                    assert(l[i as int] == ls@[i as int]@);
                    let line = if rec.lines_at == Some(i) {
                        match strip_key(&ls[i], &lines_key) {
                            Some(p) => assign(&ls[i], p, &vc),
                            None => copy_line(&ls[i]),
                        }
                    } else {
                        copy_line(&ls[i])
                    };
                    let ghost o0 = out@;
                    out.push(line);
                    proof {
                        lemma_views_push(o0, out@[o0.len() as int]);
                    }
                    assert(want.take(i + 1 - r.start) =~= want.take(i - r.start).push(want[i - r.start]));
                    assert(views(out@) =~= before + want.take(i + 1 - r.start));
                    i += 1;
                }
                assert(want.take(r.end - r.start) =~= want);
                assert(views(out@) =~= head + body_out(l, recs.take(k + 1), em));
            },
        }
        k += 1;
    }
    assert(recs.take(n as int) =~= recs);
    // Dropping the last record would otherwise leave the blank line that
    // separated it from the one before.
    let ghost full = views(out@);
    loop
        invariant
            drop_blank_tail(views(out@)) == drop_blank_tail(full),
        ensures
            views(out@) == drop_blank_tail(full),
        decreases out@.len(),
    {
        if out.len() == 0 {
            break;
        }
        let last = out.len() - 1;
        let (lo, hi) = trim_bounds(out[last].as_slice());
        if hi > lo {
            assert(views(out@).last() == out@[last as int]@);
            break;
        }
        let ghost o0 = views(out@);
        proof {
            lemma_drop_blank_tail_step(o0);
        }
        out.pop();
        assert(views(out@) =~= o0.drop_last());
    }
    let ghost o0 = out@;
    out.push(Vec::new());
    proof {
        lemma_views_push(o0, out@[o0.len() as int]);
    }
    let joined = join_lines(&out);
    let s = string_of(joined.as_slice());
    assert(s@ == rewritten(l, recs, new_source@, em));
    Ok((s, outcome))
}

/// Some record has its `lines` key on line `i`.
pub open spec fn lines_key_line(recs: Seq<Span>, i: int) -> bool {
    exists|k: int| 0 <= k < recs.len() && (#[trigger] recs[k]).lines_at == Some(i)
}

proof fn lemma_body_tiles(ls: Seq<Seq<char>>, recs: Seq<Span>, edits: Map<Seq<char>, Edit>, m: int)
    requires
        scan_inv(ls, recs, ls.len() as int),
        recs.len() > 0,
        0 <= m <= recs.len(),
        forall|k: int| 0 <= k < recs.len() ==> edits[(#[trigger] recs[k]).id] is Retarget,
    ensures
        ({
            let b = body_out(ls, recs.take(m), edits);
            let lo = recs[0].start;
            let hi = if m == 0 {
                lo
            } else {
                recs[m - 1].end
            };
            &&& b.len() == hi - lo
            &&& forall|j: int|
                0 <= j < b.len() ==> (#[trigger] b[j] == ls[lo + j] || lines_key_line(recs, lo + j))
        }),
    decreases m,
{
    if m > 0 {
        lemma_body_tiles(ls, recs, edits, m - 1);
        let lo = recs[0].start;
        let prev = body_out(ls, recs.take(m - 1), edits);
        assert(recs.take(m).drop_last() =~= recs.take(m - 1));
        let r = recs[m - 1];
        assert(recs.take(m).last() == r);
        assert(edits[r.id] is Retarget);
        let v = edits[r.id]->Retarget_0;
        let span = retargeted_span(ls, r, v@);
        let b = body_out(ls, recs.take(m), edits);
        assert(b == prev + span);
        if m > 1 {
            assert(recs[m - 2].end == recs[m - 1].start);
        }
        assert(prev.len() == r.start - lo);
        assert forall|j: int| 0 <= j < b.len() implies (#[trigger] b[j] == ls[lo + j] || lines_key_line(recs, lo + j)) by {
            if j < prev.len() {
                assert(b[j] == prev[j]);
            } else {
                let kk = j - prev.len();
                assert(b[j] == span[kk]);
                if r.lines_at == Some(r.start + kk) {
                    assert(recs[m - 1].lines_at == Some(lo + j));
                }
            }
        }
    }
}

/// Retargeting changes only the `source` header and the `lines` keys: when
/// every record is retargeted, the header and records put together have one
/// line for each line of the file, and a line differs from the file's only
/// where the header assigns `source` or a record has its `lines` key. Only
/// blank lines at the very end are dropped after that.
pub proof fn law_retarget_touches_only_source_and_lines(
    ls: Seq<Seq<char>>,
    new_source: Seq<char>,
    edits: Map<Seq<char>, Edit>,
)
    requires
        scan_spec(ls) is Ok,
        forall|k: int|
            0 <= k < scan_spec(ls)->Ok_0.len() ==> edits[(#[trigger] scan_spec(ls)->Ok_0[k]).id] is Retarget,
    ensures
        ({
            let recs = scan_spec(ls)->Ok_0;
            let bs = body_start(recs, ls.len() as int);
            let all = ls.take(bs).map_values(|l: Seq<char>| header_line(l, new_source)) + body_out(
                ls,
                recs,
                edits,
            );
            &&& all.len() == ls.len()
            &&& forall|i: int|
                0 <= i < ls.len() && #[trigger] all[i] != ls[i] ==> (i < bs && key_prefix(
                    ls[i],
                    "source"@,
                ) is Some) || lines_key_line(recs, i)
        }),
{
    let recs = scan_spec(ls)->Ok_0;
    lemma_scan_prefix_inv(ls, ls.len() as int);
    let bs = body_start(recs, ls.len() as int);
    let head = ls.take(bs).map_values(|l: Seq<char>| header_line(l, new_source));
    let body = body_out(ls, recs, edits);
    let all = head + body;
    if recs.len() > 0 {
        lemma_body_tiles(ls, recs, edits, recs.len() as int);
        assert(recs.take(recs.len() as int) =~= recs);
        assert forall|i: int| 0 <= i < ls.len() && #[trigger] all[i] != ls[i] implies (i < bs && key_prefix(
            ls[i],
            "source"@,
        ) is Some) || lines_key_line(recs, i) by {
            if i >= bs {
                assert(all[i] == body[i - bs]);
            }
        }
    } else {
        assert(body =~= Seq::<Seq<char>>::empty());
    }
}

} // verus!
