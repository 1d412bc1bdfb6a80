use vstd::prelude::*;
use vstd::std_specs::iter::IteratorSpec;

verus! {

broadcast use vstd::string::group_string_axioms;

/// The characters of `s`, in order.
pub fn chars_of(s: &str) -> (v: Vec<char>)
    ensures
        v@ == s@,
{
    let mut v: Vec<char> = Vec::new();
    for c in it: s.chars()
        invariant
            v@ == it.seq().take(it.index()),
    {
        v.push(c);
    }
    assert(v@ =~= s@);
    v
}

/// Appends one character to a `String` (`String::push`).
#[verifier::external_body]
fn push_char(s: &mut String, c: char)
    ensures
        final(s)@ == old(s)@.push(c),
{
    s.push(c);
}

/// A `String` holding exactly the characters of `cs`.
pub fn string_of(cs: &[char]) -> (s: String)
    ensures
        s@ == cs@,
{
    let mut s = String::new();
    let mut i: usize = 0;
    while i < cs.len()
        invariant
            i <= cs.len(),
            s@ == cs@.take(i as int),
        decreases cs.len() - i,
    {
        push_char(&mut s, cs[i]);
        i += 1;
        assert(s@ =~= cs@.take(i as int));
    }
    assert(cs@.take(cs.len() as int) =~= cs@);
    s
}


/// Index of the first `c` in `s`, or `s.len()` when there is none.
pub open spec fn first_of(s: Seq<char>, c: char) -> nat
    decreases s.len(),
{
    if s.len() == 0 {
        0
    } else if s[0] == c {
        0
    } else {
        1 + first_of(s.drop_first(), c)
    }
}

/// Index of the first `'\n'` in `s`, or `s.len()` when there is none.
pub open spec fn first_newline(s: Seq<char>) -> nat {
    first_of(s, '\n')
}

/// A line with one trailing carriage return removed, the way `str::lines`
/// treats a `"\r\n"` ending.
pub open spec fn strip_cr(l: Seq<char>) -> Seq<char> {
    if l.len() > 0 && l.last() == '\r' {
        l.drop_last()
    } else {
        l
    }
}

/// The lines of a text, as `str::lines` yields them: split at `'\n'`, a
/// `'\r'` directly before a `'\n'` dropped, and a final line ending optional.
pub open spec fn lines(s: Seq<char>) -> Seq<Seq<char>>
    decreases s.len(),
{
    if s.len() == 0 {
        Seq::empty()
    } else {
        let k = first_newline(s);
        if k >= s.len() {
            seq![s]
        } else {
            seq![strip_cr(s.take(k as int))] + lines(s.skip(k as int + 1))
        }
    }
}

/// The views of a vector of character vectors.
pub open spec fn views(v: Seq<Vec<char>>) -> Seq<Seq<char>> {
    v.map_values(|l: Vec<char>| l@)
}

pub proof fn lemma_first_of(s: Seq<char>, c: char, j: int)
    requires
        0 <= j <= s.len(),
        j < s.len() ==> s[j] == c,
        forall|i: int| 0 <= i < j ==> s[i] != c,
    ensures
        first_of(s, c) == j,
    decreases s.len(),
{
    if s.len() > 0 && j > 0 {
        lemma_first_of(s.drop_first(), c, j - 1);
    }
}

/// Position of the first `c` in `s`, or `s.len()` when there is none.
pub fn find_char(s: &[char], c: char) -> (k: usize)
    ensures
        k == first_of(s@, c),
        k <= s@.len(),
        k < s@.len() ==> s@[k as int] == c,
        forall|i: int| 0 <= i < k ==> s@[i] != c,
{
    let mut k: usize = 0;
    while k < s.len() && s[k] != c
        invariant
            k <= s@.len(),
            forall|i: int| 0 <= i < k ==> s@[i] != c,
        decreases s@.len() - k,
    {
        k += 1;
    }
    proof {
        lemma_first_of(s@, c, k as int);
    }
    k
}

/// The characters `s[lo..hi]`, copied.
pub fn copy_range(s: &[char], lo: usize, hi: usize) -> (out: Vec<char>)
    requires
        lo <= hi <= s@.len(),
    ensures
        out@ == s@.subrange(lo as int, hi as int),
{
    let mut out: Vec<char> = Vec::new();
    let mut i = lo;
    while i < hi
        invariant
            lo <= i <= hi <= s@.len(),
            out@ == s@.subrange(lo as int, i as int),
        decreases hi - i,
    {
        out.push(s[i]);
        i += 1;
        assert(out@ =~= s@.subrange(lo as int, i as int));
    }
    out
}

/// Splits a text into lines exactly as `str::lines` does.
pub fn split_lines(s: &[char]) -> (out: Vec<Vec<char>>)
    ensures
        views(out@) == lines(s@),
{
    let mut out: Vec<Vec<char>> = Vec::new();
    let mut p: usize = 0;
    assert(s@.skip(0) =~= s@);
    while p < s.len()
        invariant
            p <= s@.len(),
            views(out@) + lines(s@.skip(p as int)) == lines(s@),
        decreases s@.len() - p,
    {
        let ghost t = s@.skip(p as int);
        let mut k = p;
        while k < s.len() && s[k] != '\n'
            invariant
                p <= k <= s@.len(),
                forall|i: int| p <= i < k ==> s@[i] != '\n',
            decreases s@.len() - k,
        {
            k += 1;
        }
        proof {
            lemma_first_of(t, '\n', k - p);
        }
        let mut line = copy_range(s, p, k);
        let ghost before = views(out@);
        if k < s.len() {
            if k > p && s[k - 1] == '\r' {
                line.pop();
            }
            assert(line@ == strip_cr(t.take(k - p)));
            assert(t.skip(k - p + 1) =~= s@.skip(k + 1));
            out.push(line);
            assert(views(out@) =~= before.push(strip_cr(t.take(k - p))));
            assert(seq![strip_cr(t.take(k - p))] + lines(s@.skip(k + 1)) == lines(t));
            assert(views(out@) + lines(s@.skip(k + 1)) =~= before + lines(t));
            p = k + 1;
        } else {
            assert(line@ =~= t);
            out.push(line);
            assert(views(out@) =~= before.push(t));
            assert(s@.skip(k as int) =~= Seq::<char>::empty());
            assert(lines(s@.skip(k as int)) =~= Seq::<Seq<char>>::empty());
            assert(views(out@) + lines(s@.skip(k as int)) =~= before + lines(t));
            p = k;
        }
    }
    assert(s@.skip(p as int) =~= Seq::<char>::empty());
    assert(views(out@) + lines(s@.skip(p as int)) =~= views(out@));
    out
}


/// `char::is_whitespace`: the Unicode `White_Space` property.
pub open spec fn is_ws(c: char) -> bool {
    ||| ('\u{9}' <= c && c <= '\u{d}')
    ||| c == ' '
    ||| c == '\u{85}'
    ||| c == '\u{a0}'
    ||| c == '\u{1680}'
    ||| ('\u{2000}' <= c && c <= '\u{200a}')
    ||| c == '\u{2028}'
    ||| c == '\u{2029}'
    ||| c == '\u{202f}'
    ||| c == '\u{205f}'
    ||| c == '\u{3000}'
}

/// Whether `c` is whitespace, as `char::is_whitespace` answers.
pub fn is_whitespace(c: char) -> (b: bool)
    ensures
        b == is_ws(c),
{
    ('\u{9}' <= c && c <= '\u{d}') || c == ' ' || c == '\u{85}' || c == '\u{a0}' || c
        == '\u{1680}' || ('\u{2000}' <= c && c <= '\u{200a}') || c == '\u{2028}' || c
        == '\u{2029}' || c == '\u{202f}' || c == '\u{205f}' || c == '\u{3000}'
}

/// `str::trim_start`.
pub open spec fn trim_start(s: Seq<char>) -> Seq<char>
    decreases s.len(),
{
    if s.len() > 0 && is_ws(s[0]) {
        trim_start(s.drop_first())
    } else {
        s
    }
}

/// `str::trim_end`.
pub open spec fn trim_end(s: Seq<char>) -> Seq<char>
    decreases s.len(),
{
    if s.len() > 0 && is_ws(s.last()) {
        trim_end(s.drop_last())
    } else {
        s
    }
}

/// `str::trim`.
pub open spec fn trim(s: Seq<char>) -> Seq<char> {
    trim_end(trim_start(s))
}

pub proof fn lemma_trim_start(s: Seq<char>, lo: int)
    requires
        0 <= lo <= s.len(),
        forall|i: int| 0 <= i < lo ==> is_ws(s[i]),
        lo < s.len() ==> !is_ws(s[lo]),
    ensures
        trim_start(s) == s.skip(lo),
    decreases lo,
{
    if lo > 0 {
        lemma_trim_start(s.drop_first(), lo - 1);
        assert(s.drop_first().skip(lo - 1) =~= s.skip(lo));
    } else {
        assert(s.skip(0) =~= s);
    }
}

pub proof fn lemma_trim_end(s: Seq<char>, hi: int)
    requires
        0 <= hi <= s.len(),
        forall|i: int| hi <= i < s.len() ==> is_ws(s[i]),
        hi > 0 ==> !is_ws(s[hi - 1]),
    ensures
        trim_end(s) == s.take(hi),
    decreases s.len() - hi,
{
    if hi < s.len() {
        lemma_trim_end(s.drop_last(), hi);
        assert(s.drop_last().take(hi) =~= s.take(hi));
    } else {
        assert(s.take(hi) =~= s);
    }
}

/// The bounds `(lo, hi)` of `s` with surrounding whitespace removed.
pub fn trim_bounds(s: &[char]) -> (r: (usize, usize))
    ensures
        r.0 <= r.1 <= s@.len(),
        trim(s@) == s@.subrange(r.0 as int, r.1 as int),
        trim_start(s@) == s@.skip(r.0 as int),
{
    let mut lo: usize = 0;
    while lo < s.len() && is_whitespace(s[lo])
        invariant
            lo <= s@.len(),
            forall|i: int| 0 <= i < lo ==> is_ws(s@[i]),
        decreases s@.len() - lo,
    {
        lo += 1;
    }
    let mut hi: usize = s.len();
    while hi > lo && is_whitespace(s[hi - 1])
        invariant
            lo <= hi <= s@.len(),
            forall|i: int| hi <= i < s@.len() ==> is_ws(s@[i]),
        decreases hi,
    {
        hi -= 1;
    }
    proof {
        lemma_trim_start(s@, lo as int);
        let t = s@.skip(lo as int);
        lemma_trim_end(t, hi - lo);
        assert(t.take(hi - lo) =~= s@.subrange(lo as int, hi as int));
    }
    (lo, hi)
}

/// The length of `s` with trailing whitespace removed (`str::trim_end`).
pub fn trim_end_len(s: &[char]) -> (hi: usize)
    ensures
        hi <= s@.len(),
        trim_end(s@) == s@.take(hi as int),
{
    let mut hi: usize = s.len();
    while hi > 0 && is_whitespace(s[hi - 1])
        invariant
            hi <= s@.len(),
            forall|i: int| hi <= i < s@.len() ==> is_ws(s@[i]),
        decreases hi,
    {
        hi -= 1;
    }
    proof {
        lemma_trim_end(s@, hi as int);
    }
    hi
}

/// `str::trim`, on characters.
pub fn trimmed(s: &[char]) -> (out: Vec<char>)
    ensures
        out@ == trim(s@),
{
    let (lo, hi) = trim_bounds(s);
    copy_range(s, lo, hi)
}

/// Whether every character of `d` is an ASCII digit.
pub open spec fn all_digits(d: Seq<char>) -> bool {
    forall|i: int| 0 <= i < d.len() ==> '0' <= #[trigger] d[i] && d[i] <= '9'
}

/// The decimal value of a run of ASCII digits.
pub open spec fn digits_value(d: Seq<char>) -> int
    decreases d.len(),
{
    if d.len() == 0 {
        0
    } else {
        digits_value(d.drop_last()) * 10 + (d.last() as int - '0' as int)
    }
}

/// `u32::from_str`: an optional `+`, then one or more ASCII digits, whose
/// value fits in a `u32`.
pub open spec fn parse_u32_spec(s: Seq<char>) -> Option<u32> {
    let d = if s.len() > 0 && s[0] == '+' {
        s.drop_first()
    } else {
        s
    };
    if d.len() == 0 || !all_digits(d) || digits_value(d) > u32::MAX {
        None
    } else {
        Some(digits_value(d) as u32)
    }
}

pub proof fn lemma_digits_monotone(d: Seq<char>, i: int)
    requires
        0 <= i <= d.len(),
        all_digits(d),
    ensures
        digits_value(d.take(i)) <= digits_value(d),
        0 <= digits_value(d.take(i)),
    decreases d.len() - i,
{
    if i < d.len() {
        lemma_digits_monotone(d, i + 1);
        assert(d.take(i + 1).drop_last() =~= d.take(i));
    } else {
        assert(d.take(i) =~= d);
        lemma_digits_nonneg(d);
    }
}

pub proof fn lemma_digits_nonneg(d: Seq<char>)
    requires
        all_digits(d),
    ensures
        0 <= digits_value(d),
    decreases d.len(),
{
    if d.len() > 0 {
        lemma_digits_nonneg(d.drop_last());
    }
}

/// Parses a decimal `u32` the way `str::parse::<u32>` does.
pub fn parse_u32(s: &[char]) -> (r: Option<u32>)
    ensures
        r == parse_u32_spec(s@),
{
    let start: usize = if s.len() > 0 && s[0] == '+' {
        1
    } else {
        0
    };
    let ghost d = s@.skip(start as int);
    assert(d =~= (if s@.len() > 0 && s@[0] == '+' { s@.drop_first() } else { s@ }));
    if start >= s.len() {
        return None;
    }
    let mut acc: u64 = 0;
    let mut i = start;
    while i < s.len()
        invariant
            start <= i <= s@.len(),
            start < s@.len(),
            d == s@.skip(start as int),
            d == (if s@.len() > 0 && s@[0] == '+' { s@.drop_first() } else { s@ }),
            all_digits(d.take(i - start)),
            acc as int == digits_value(d.take(i - start)),
            acc <= u32::MAX,
        decreases s@.len() - i,
    {
        let c = s[i];
        if c < '0' || c > '9' {
            assert(d[i - start] == c);
            return None;
        }
        let digit = (c as u32 - '0' as u32) as u64;
        assert(d.take(i - start + 1).drop_last() =~= d.take(i - start));
        assert(d.take(i - start + 1).last() == c);
        assert(all_digits(d.take(i - start + 1))) by {
            assert forall|j: int| 0 <= j < i - start + 1 implies '0' <= #[trigger] d.take(
                i - start + 1,
            )[j] && d.take(i - start + 1)[j] <= '9' by {
                if j < i - start {
                    assert(d.take(i - start + 1)[j] == d.take(i - start)[j]);
                }
            }
        }
        acc = acc * 10 + digit;
        i += 1;
        if acc > u32::MAX as u64 {
            proof {
                if all_digits(d) {
                    lemma_digits_monotone(d, i - start);
                }
            }
            return None;
        }
    }
    assert(d.take(i - start) =~= d);
    Some(acc as u32)
}


/// Whether two character vectors hold the same text.
pub fn eq_chars(a: &Vec<char>, b: &Vec<char>) -> (r: bool)
    ensures
        r == (a@ == b@),
{
    if a.len() != b.len() {
        return false;
    }
    let mut i: usize = 0;
    while i < a.len()
        invariant
            a@.len() == b@.len(),
            i <= a@.len(),
            forall|k: int| 0 <= k < i ==> a@[k] == b@[k],
        decreases a@.len() - i,
    {
        if a[i] != b[i] {
            return false;
        }
        i += 1;
    }
    assert(a@ =~= b@);
    true
}


/// String equality: equal exactly when the two hold the same characters.
pub fn str_eq(a: &str, b: &str) -> (r: bool)
    ensures
        r == (a@ == b@),
{
    let x = chars_of(a);
    let y = chars_of(b);
    eq_chars(&x, &y)
}


/// Lexicographic order on characters, which for UTF-8 text is the byte
/// order `str` compares by.
pub open spec fn lex_lt(a: Seq<char>, b: Seq<char>) -> bool
    decreases a.len(),
{
    if a.len() == 0 {
        b.len() > 0
    } else if b.len() == 0 {
        false
    } else if a[0] != b[0] {
        a[0] < b[0]
    } else {
        lex_lt(a.drop_first(), b.drop_first())
    }
}

/// No text sorts before itself.
pub proof fn lemma_lex_irreflexive(a: Seq<char>)
    ensures
        !lex_lt(a, a),
    decreases a.len(),
{
    if a.len() > 0 {
        lemma_lex_irreflexive(a.drop_first());
    }
}

/// The order on texts is transitive.
pub proof fn lemma_lex_transitive(a: Seq<char>, b: Seq<char>, c: Seq<char>)
    requires
        lex_lt(a, b),
        lex_lt(b, c),
    ensures
        lex_lt(a, c),
    decreases a.len(),
{
    if a.len() > 0 && b.len() > 0 && c.len() > 0 && a[0] == b[0] && b[0] == c[0] {
        lemma_lex_transitive(a.drop_first(), b.drop_first(), c.drop_first());
    }
}

/// Two different texts are ordered one way or the other.
pub proof fn lemma_lex_total(a: Seq<char>, b: Seq<char>)
    ensures
        a == b || lex_lt(a, b) || lex_lt(b, a),
    decreases a.len(),
{
    if a.len() > 0 && b.len() > 0 && a[0] == b[0] {
        lemma_lex_total(a.drop_first(), b.drop_first());
        if a.drop_first() == b.drop_first() {
            assert(a =~= seq![a[0]] + a.drop_first());
            assert(b =~= seq![b[0]] + b.drop_first());
        }
    } else if a.len() == 0 && b.len() == 0 {
        assert(a =~= b);
    }
}


/// Whether `a` sorts strictly before `b`.
pub fn lex_less(a: &str, b: &str) -> (r: bool)
    ensures
        r == lex_lt(a@, b@),
{
    let x = chars_of(a);
    let y = chars_of(b);
    let mut i: usize = 0;
    assert(x@.skip(0) =~= x@);
    assert(y@.skip(0) =~= y@);
    while i < x.len() && i < y.len() && x[i] == y[i]
        invariant
            i <= x@.len(),
            i <= y@.len(),
            forall|k: int| 0 <= k < i ==> x@[k] == y@[k],
                    lex_lt(x@, y@) == lex_lt(x@.skip(i as int), y@.skip(i as int)),
        decreases x@.len() - i,
    {
        assert(x@.skip(i as int).drop_first() =~= x@.skip(i + 1));
        assert(y@.skip(i as int).drop_first() =~= y@.skip(i + 1));
        i += 1;
    }
    if i == x.len() {
        i < y.len()
    } else if i == y.len() {
        false
    } else {
        x[i] < y[i]
    }
}


/// The decimal digit for `d` (0 to 9).
pub open spec fn digit_char(d: int) -> char {
    (d + 48) as char
}

/// The decimal numeral of `n`, as `to_string` writes it.
pub open spec fn decimal(n: nat) -> Seq<char>
    decreases n,
{
    if n < 10 {
        seq![digit_char(n as int)]
    } else {
        decimal(n / 10) + seq![digit_char((n % 10) as int)]
    }
}

/// The decimal numeral of `n`.
pub fn decimal_chars(n: u64) -> (r: Vec<char>)
    ensures
        r@ == decimal(n as nat),
    decreases n,
{
    if n < 10 {
        let c = char_of_digit(n);
        let mut r = Vec::new();
        r.push(c);
        assert(r@ =~= decimal(n as nat));
        r
    } else {
        let mut r = decimal_chars(n / 10);
        r.push(char_of_digit(n % 10));
        r
    }
}

fn char_of_digit(d: u64) -> (c: char)
    requires
        d < 10,
    ensures
        c == digit_char(d as int),
{
    if d == 0 { '0' } else if d == 1 { '1' } else if d == 2 { '2' } else if d == 3 { '3' } else if d == 4 { '4' } else if d == 5 { '5' } else if d == 6 { '6' } else if d == 7 { '7' } else if d == 8 { '8' } else { '9' }
}

/// `pat` occurs in `s` at `p`.
pub open spec fn occurs_at(s: Seq<char>, pat: Seq<char>, p: int) -> bool {
    0 <= p && p + pat.len() <= s.len() && s.subrange(p, p + pat.len()) == pat
}

/// The first position at or after `p` where `pat` occurs in `s`.
pub open spec fn find_from(s: Seq<char>, pat: Seq<char>, p: int) -> Option<int>
    decreases s.len() + 1 - p,
{
    if p < 0 || p + pat.len() > s.len() {
        None
    } else if occurs_at(s, pat, p) {
        Some(p)
    } else {
        find_from(s, pat, p + 1)
    }
}

/// The first position where `pat` occurs in `s` (`str::find`).
pub open spec fn find(s: Seq<char>, pat: Seq<char>) -> Option<int> {
    find_from(s, pat, 0)
}

proof fn lemma_find_from(s: Seq<char>, pat: Seq<char>, p: int, q: int)
    requires
        0 <= p <= q,
        forall|k: int| p <= k < q ==> !occurs_at(s, pat, k),
    ensures
        find_from(s, pat, p) == find_from(s, pat, q),
    decreases q - p,
{
    if p < q {
        lemma_find_from(s, pat, p + 1, q);
    }
}

/// `str::find` on characters.
pub fn find_in(s: &Vec<char>, pat: &Vec<char>) -> (r: Option<usize>)
    ensures
        opt_pos(r) == find(s@, pat@),
{
    if pat.len() > s.len() {
        return None;
    }
    let mut p: usize = 0;
    while p <= s.len() - pat.len()
        invariant
            pat@.len() <= s@.len(),
            forall|k: int| 0 <= k < p ==> !occurs_at(s@, pat@, k),
            p <= s@.len() - pat@.len() + 1,
        decreases s@.len() - pat@.len() + 1 - p,
    {
        let mut k: usize = 0;
        let mut same = true;
        while k < pat.len()
            invariant
                p + pat@.len() <= s.len(),
                k <= pat@.len(),
                same == forall|m: int| 0 <= m < k ==> s@[p + m] == pat@[m],
            decreases pat@.len() - k,
        {
            if s[p + k] != pat[k] {
                same = false;
            }
            k += 1;
        }
        if same {
            assert(s@.subrange(p as int, p + pat@.len()) =~= pat@);
            proof {
                lemma_find_from(s@, pat@, 0, p as int);
            }
            return Some(p);
        } else {
            assert(!occurs_at(s@, pat@, p as int)) by {
                let m = choose|m: int| 0 <= m < pat@.len() && s@[p + m] != pat@[m];
                assert(s@.subrange(p as int, p + pat@.len())[m] != pat@[m]);
            }
        }
        p += 1;
    }
    proof {
        lemma_find_from(s@, pat@, 0, p as int);
    }
    None
}

/// The integer view of an optional position.
pub open spec fn opt_pos(o: Option<usize>) -> Option<int> {
    match o {
        Some(p) => Some(p as int),
        None => None,
    }
}

/// `s` with every occurrence of `pat`, left to right, replaced by `rep`
/// (`str::replace`, for a non-empty pattern).
pub open spec fn replace_all(s: Seq<char>, pat: Seq<char>, rep: Seq<char>) -> Seq<char>
    decreases s.len(),
{
    if s.len() == 0 || pat.len() == 0 {
        s
    } else if pat.is_prefix_of(s) {
        rep + replace_all(s.skip(pat.len() as int), pat, rep)
    } else {
        seq![s[0]] + replace_all(s.drop_first(), pat, rep)
    }
}

proof fn lemma_replace_all_step(s: Seq<char>, pat: Seq<char>, rep: Seq<char>, i: int, done: Seq<char>)
    requires
        0 <= i <= s.len(),
        pat.len() > 0,
        replace_all(s, pat, rep) == done + replace_all(s.skip(i), pat, rep),
    ensures
        i < s.len() && pat.is_prefix_of(s.skip(i)) ==> replace_all(s, pat, rep) == (done + rep)
            + replace_all(s.skip(i + pat.len()), pat, rep),
        i < s.len() && !pat.is_prefix_of(s.skip(i)) ==> replace_all(s, pat, rep) == done.push(s[i])
            + replace_all(s.skip(i + 1), pat, rep),
{
    if i < s.len() {
        let t = s.skip(i);
        if pat.is_prefix_of(t) {
            assert(t.skip(pat.len() as int) =~= s.skip(i + pat.len()));
            assert((done + rep) + replace_all(s.skip(i + pat.len()), pat, rep) =~= done + (rep + replace_all(t.skip(pat.len() as int), pat, rep)));
        } else {
            assert(t.drop_first() =~= s.skip(i + 1));
            assert(t[0] == s[i]);
            assert(done.push(s[i]) + replace_all(s.skip(i + 1), pat, rep) =~= done + (seq![t[0]] + replace_all(t.drop_first(), pat, rep)));
        }
    }
}

/// `str::replace` on characters, for a non-empty pattern.
pub fn replace_in(s: &Vec<char>, pat: &Vec<char>, rep: &Vec<char>) -> (r: Vec<char>)
    requires
        pat@.len() > 0,
    ensures
        r@ == replace_all(s@, pat@, rep@),
{
    let mut r: Vec<char> = Vec::new();
    let mut i: usize = 0;
    assert(s@.skip(0) =~= s@);
    while i < s.len()
        invariant
            i <= s@.len(),
            pat@.len() > 0,
            replace_all(s@, pat@, rep@) == r@ + replace_all(s@.skip(i as int), pat@, rep@),
        decreases s@.len() - i,
    {
        let mut matches = pat.len() <= s.len() - i;
        let mut k: usize = 0;
        while matches && k < pat.len()
            invariant
                k <= pat@.len(),
                matches ==> i + pat@.len() <= s.len(),
                matches ==> forall|m: int| 0 <= m < k ==> s@[i + m] == pat@[m],
                !matches ==> !pat@.is_prefix_of(s@.skip(i as int)),
            decreases pat@.len() - k,
        {
            if s[i + k] != pat[k] {
                matches = false;
                assert(s@.skip(i as int).subrange(0, pat@.len() as int)[k as int] != pat@[k as int]);
            }
            k += 1;
        }
        proof {
            lemma_replace_all_step(s@, pat@, rep@, i as int, r@);
        }
        if matches {
            assert(pat@ =~= s@.skip(i as int).subrange(0, pat@.len() as int));
            let mut m: usize = 0;
            let ghost r0 = r@;
            while m < rep.len()
                invariant
                    m <= rep@.len(),
                    r@ == r0 + rep@.take(m as int),
                decreases rep@.len() - m,
            {
                r.push(rep[m]);
                m += 1;
                assert(rep@.take(m as int) =~= rep@.take(m - 1).push(rep@[m - 1]));
            }
            assert(rep@.take(m as int) =~= rep@);
            i = i + pat.len();
        } else {
            r.push(s[i]);
            i += 1;
        }
    }
    assert(s@.skip(i as int) =~= Seq::<char>::empty());
    r
}

/// Position of the first whitespace character of `s`, or its length.
pub open spec fn first_ws(s: Seq<char>) -> nat
    decreases s.len(),
{
    if s.len() == 0 {
        0
    } else if is_ws(s[0]) {
        0
    } else {
        1 + first_ws(s.drop_first())
    }
}

pub proof fn lemma_first_ws(s: Seq<char>)
    ensures
        first_ws(s) <= s.len(),
        s.len() > 0 && !is_ws(s[0]) ==> first_ws(s) >= 1,
    decreases s.len(),
{
    if s.len() > 0 {
        lemma_first_ws(s.drop_first());
    }
}

/// The whitespace-separated words of `s` (`str::split_whitespace`).
pub open spec fn words(s: Seq<char>) -> Seq<Seq<char>>
    decreases s.len(),
{
    if s.len() == 0 {
        Seq::empty()
    } else if is_ws(s[0]) {
        words(s.drop_first())
    } else {
        proof {
            lemma_first_ws(s);
        }
        let k = first_ws(s) as int;
        seq![s.take(k)] + words(s.skip(k))
    }
}


/// A position `find_from` returns is an occurrence at or after its start.
pub proof fn lemma_find_some(s: Seq<char>, pat: Seq<char>, p: int)
    ensures
        find_from(s, pat, p) matches Some(q) ==> p <= q && occurs_at(s, pat, q),
    decreases s.len() + 1 - p,
{
    if !(p < 0 || p + pat.len() > s.len()) && !occurs_at(s, pat, p) {
        lemma_find_some(s, pat, p + 1);
    }
}

} // verus!
