//! The browser modules' toolchain check: the exact `wasm-bindgen` version a
//! module's manifest pins, and the version the `wasm-bindgen` command line
//! reports. Both must agree before the modules are built.
use crate::text::{
    chars_of, copy_range, find, find_char, find_in, first_of, first_ws, is_whitespace, is_ws,
    lines, split_lines, string_of, trim, trimmed, views, words,
};
use vstd::prelude::*;

verus! {

/// Why a manifest gives no exact `wasm-bindgen` pin.
#[derive(Debug, PartialEq, Eq)]
pub enum PinnedError {
    /// Its `wasm-bindgen` line (shown trimmed) pins no exact `"=…"` version.
    NotExact { line: String },
    /// No line of it starts with `wasm-bindgen`.
    NoDependency,
}

/// The name a dependency line must start with.
pub open spec fn bindgen_name() -> Seq<char> {
    seq!['w', 'a', 's', 'm', '-', 'b', 'i', 'n', 'd', 'g', 'e', 'n']
}

/// What one manifest line says of the pin: nothing, when its trimmed text
/// does not start with `wasm-bindgen`; else that trimmed text, with the
/// version between the first `"=` after the name and the next `"`, if both
/// are there.
pub open spec fn pin_of_line(line: Seq<char>) -> Option<(Seq<char>, Option<Seq<char>>)> {
    let t = trim(line);
    if bindgen_name().is_prefix_of(t) {
        let rest = t.skip(bindgen_name().len() as int);
        match find(rest, seq!['"', '=']) {
            Some(s) => {
                let tail = rest.skip(s + 2);
                let k = first_of(tail, '"');
                if k < tail.len() {
                    Some((t, Some(tail.take(k as int))))
                } else {
                    Some((t, None))
                }
            },
            None => Some((t, None)),
        }
    } else {
        None
    }
}

/// What the first line that speaks of the pin says, if any does.
pub open spec fn pin_in(ls: Seq<Seq<char>>) -> Option<(Seq<char>, Option<Seq<char>>)>
    decreases ls.len(),
{
    if ls.len() == 0 {
        None
    } else {
        match pin_of_line(ls[0]) {
            Some(r) => Some(r),
            None => pin_in(ls.drop_first()),
        }
    }
}

fn starts_with_name(t: &Vec<char>) -> (b: bool)
    ensures
        b == bindgen_name().is_prefix_of(t@),
{
    let name = vec!['w', 'a', 's', 'm', '-', 'b', 'i', 'n', 'd', 'g', 'e', 'n'];
    assert(name@ =~= bindgen_name());
    if name.len() > t.len() {
        return false;
    }
    let mut k: usize = 0;
    while k < name.len()
        invariant
            name@ == bindgen_name(),
            name@.len() <= t@.len(),
            k <= name@.len(),
            forall|m: int| 0 <= m < k ==> t@[m] == name@[m],
        decreases name@.len() - k,
    {
        if t[k] != name[k] {
            return false;
        }
        k += 1;
    }
    true
}

fn line_pin(line: &Vec<char>) -> (r: Option<(Vec<char>, Option<Vec<char>>)>)
    ensures
        pin_of_line(line@) == match r {
            Some((t, v)) => Some((t@, match v {
                Some(x) => Some(x@),
                None => None,
            })),
            None => None,
        },
{
    let t = trimmed(line.as_slice());
    if !starts_with_name(&t) {
        return None;
    }
    let rest = copy_range(t.as_slice(), 12, t.len());
    assert(rest@ =~= t@.skip(12));
    let open = vec!['"', '='];
    assert(open@ =~= seq!['"', '=']);
    match find_in(&rest, &open) {
        Some(s) => {
            proof {
                crate::text::lemma_find_some(rest@, open@, 0);
            }
            let tail = copy_range(rest.as_slice(), s + 2, rest.len());
            assert(tail@ =~= rest@.skip(s + 2));
            let k = find_char(tail.as_slice(), '"');
            if k < tail.len() {
                let v = copy_range(tail.as_slice(), 0, k);
                assert(v@ =~= tail@.take(k as int));
                Some((t, Some(v)))
            } else {
                Some((t, None))
            }
        },
        None => Some((t, None)),
    }
}

/// The exact `wasm-bindgen` version a module's `Cargo.toml` pins: read from
/// the first line that, trimmed, starts with `wasm-bindgen`, as what stands
/// between `"=` and the next `"` after the name.
pub fn pinned_in(manifest: &str) -> (r: Result<String, PinnedError>)
    ensures
        match pin_in(lines(manifest@)) {
            Some((_, Some(v))) => r matches Ok(s) && s@ == v,
            Some((t, None)) => r matches Err(PinnedError::NotExact { line }) && line@ == t,
            None => r matches Err(PinnedError::NoDependency),
        },
{
    let ls = split_lines(chars_of(manifest).as_slice());
    let ghost lv = views(ls@);
    assert(lv.skip(0) =~= lv);
    let mut i: usize = 0;
    while i < ls.len()
        invariant
            i <= ls@.len(),
            lv == views(ls@),
            lv == lines(manifest@),
            pin_in(lv.skip(i as int)) == pin_in(lv),
        decreases ls@.len() - i,
    {
        assert(lv.skip(i as int)[0] == ls@[i as int]@);
        assert(lv.skip(i as int).drop_first() =~= lv.skip(i + 1));
        match line_pin(&ls[i]) {
            Some((_, Some(v))) => return Ok(string_of(v.as_slice())),
            Some((t, None)) => return Err(PinnedError::NotExact { line: string_of(t.as_slice()) }),
            None => {},
        }
        i += 1;
    }
    assert(lv.skip(i as int).len() == 0);
    Err(PinnedError::NoDependency)
}

/// `words` is unchanged by whitespace before the first word.
proof fn lemma_words_skip_ws(s: Seq<char>, p: int, q: int)
    requires
        0 <= p <= q <= s.len(),
        forall|i: int| p <= i < q ==> is_ws(s[i]),
    ensures
        words(s.skip(p)) == words(s.skip(q)),
    decreases q - p,
{
    if p < q {
        assert(s.skip(p)[0] == s[p]);
        assert(s.skip(p).drop_first() =~= s.skip(p + 1));
        lemma_words_skip_ws(s, p + 1, q);
    }
}

proof fn lemma_first_ws_at(s: Seq<char>, j: int)
    requires
        0 <= j <= s.len(),
        j < s.len() ==> is_ws(s[j]),
        forall|i: int| 0 <= i < j ==> !is_ws(s[i]),
    ensures
        first_ws(s) == j,
    decreases s.len(),
{
    if s.len() > 0 && j > 0 {
        lemma_first_ws_at(s.drop_first(), j - 1);
    }
}

/// The bounds of the first word of `s` at or after `p`, and where the scan
/// stopped: `words(s[p..])` is that word followed by `words(s[end..])`, or
/// empty when `start == end == s.len()`.
fn next_word(s: &Vec<char>, p: usize) -> (r: (usize, usize))
    requires
        p <= s@.len(),
    ensures
        r.0 <= r.1 <= s@.len(),
        r.0 == r.1 ==> r.1 == s@.len() && words(s@.skip(p as int)).len() == 0,
        r.0 < r.1 ==> words(s@.skip(p as int)) == seq![s@.subrange(r.0 as int, r.1 as int)] + words(s@.skip(r.1 as int)),
{
    let mut a = p;
    while a < s.len() && is_whitespace(s[a])
        invariant
            p <= a <= s@.len(),
            forall|i: int| p <= i < a ==> is_ws(s@[i]),
        decreases s@.len() - a,
    {
        a += 1;
    }
    proof {
        lemma_words_skip_ws(s@, p as int, a as int);
    }
    if a == s.len() {
        assert(s@.skip(a as int).len() == 0);
        return (a, a);
    }
    let mut b = a;
    while b < s.len() && !is_whitespace(s[b])
        invariant
            a <= b <= s@.len(),
            forall|i: int| a <= i < b ==> !is_ws(s@[i]),
        decreases s@.len() - b,
    {
        b += 1;
    }
    proof {
        let t = s@.skip(a as int);
        lemma_first_ws_at(t, b - a);
        assert(t[0] == s@[a as int]);
        assert(t.take(b - a) =~= s@.subrange(a as int, b as int));
        assert(t.skip(b - a) =~= s@.skip(b as int));
    }
    (a, b)
}

/// The version the `wasm-bindgen` command line reports in its
/// `--version` output: the second whitespace-separated word, if there is one.
pub fn cli_version_in(output: &str) -> (r: Option<String>)
    ensures
        match r {
            Some(v) => words(output@).len() >= 2 && v@ == words(output@)[1],
            None => words(output@).len() < 2,
        },
{
    let s = chars_of(output);
    let (a0, b0) = next_word(&s, 0);
    assert(s@.skip(0) =~= s@);
    if a0 == b0 {
        return None;
    }
    let (a1, b1) = next_word(&s, b0);
    if a1 == b1 {
        assert(words(s@) =~= seq![s@.subrange(a0 as int, b0 as int)]);
        return None;
    }
    Some(string_of(copy_range(s.as_slice(), a1, b1).as_slice()))
}

} // verus!
