//! The expansion harness, and the versions it actually compiles.
//!
//! `expand/` builds the pinned `serde_derive` against `syn`, `quote` and
//! `proc-macro2`, the sources the glossary quotes; nothing in Cargo connects
//! those two facts. So the requirement is pinned with `=`, a bump retargets
//! it, and the coverage gate checks it against the pin.
use crate::paths::{join, path_join};
use crate::text::{chars_of, find, find_in, first_of, lines, split_lines, string_of, trim, views};
use vstd::prelude::*;

verus! {

/// Repo-relative, for messages.
pub const MANIFEST: &'static str = "expand/Cargo.toml";

/// Where the harness manifest lives under `repo`.
pub fn manifest_path(repo: &str) -> (r: String)
    ensures
        r@ == path_join(path_join(repo@, "expand"@), "Cargo.toml"@),
{
    let dir = join(repo, "expand");
    join(dir.as_str(), "Cargo.toml")
}

/// `line` names the dependency `name`: it starts with the name, followed by
/// a space or `=`, so that a longer name sharing the prefix does not match.
pub open spec fn names_dep(line: Seq<char>, name: Seq<char>) -> bool {
    &&& name.is_prefix_of(line)
    &&& line.len() > name.len()
    &&& (line[name.len() as int] == ' ' || line[name.len() as int] == '=')
}

/// The text after the first `=` of `s`.
pub open spec fn after_eq(s: Seq<char>) -> Option<Seq<char>> {
    match find(s, seq!['=']) {
        Some(q) => Some(s.skip(q + 1)),
        None => None,
    }
}

/// The value a dependency line assigns: after the `=` that follows
/// `version` when the line opens a table before it (`name = { version =
/// "..." }`), else after the line's first `=`.
pub open spec fn dep_value(line: Seq<char>) -> Option<Seq<char>> {
    let version = seq!['v', 'e', 'r', 's', 'i', 'o', 'n'];
    match find(line, version) {
        Some(p) if line.take(p).contains('{') => after_eq(line.skip(p + 7)),
        _ => after_eq(line),
    }
}

/// `s` without its leading double quotes.
pub open spec fn skip_quotes(s: Seq<char>) -> Seq<char>
    decreases s.len(),
{
    if s.len() > 0 && s[0] == '"' {
        skip_quotes(s.drop_first())
    } else {
        s
    }
}

/// The requirement in a value: trimmed, leading quotes dropped, up to the
/// next quote.
pub open spec fn req_of(value: Seq<char>) -> Seq<char> {
    let t = skip_quotes(trim(value));
    t.take(first_of(t, '"') as int)
}

/// The first line of `ls` naming `name`.
pub open spec fn is_first_dep_line(ls: Seq<Seq<char>>, name: Seq<char>, i: int) -> bool {
    0 <= i < ls.len() && names_dep(ls[i], name) && forall|j: int| 0 <= j < i ==> !names_dep(ls[j], name)
}

fn line_names(line: &Vec<char>, name: &Vec<char>) -> (r: bool)
    ensures
        r == names_dep(line@, name@),
{
    if line.len() <= name.len() {
        return false;
    }
    let mut k: usize = 0;
    while k < name.len()
        invariant
            k <= name@.len() < line@.len(),
            forall|m: int| 0 <= m < k ==> name@[m] == line@[m],
        decreases name@.len() - k,
    {
        if name[k] != line[k] {
            assert(line@.subrange(0, name@.len() as int)[k as int] != name@[k as int]);
            return false;
        }
        k += 1;
    }
    assert(name@ =~= line@.subrange(0, name@.len() as int));
    let c = line[name.len()];
    c == ' ' || c == '='
}

fn after_first_eq(s: &Vec<char>) -> (r: Option<Vec<char>>)
    ensures
        match r {
            Some(v) => after_eq(s@) == Some(v@),
            None => after_eq(s@) is None,
        },
{
    let mut eq: Vec<char> = Vec::new();
    eq.push('=');
    assert(eq@ =~= seq!['=']);
    match find_in(s, &eq) {
        Some(q) => {
            proof {
                crate::text::lemma_find_some(s@, eq@, 0);
            }
            let sl = s.len();
            assert(q + 1 <= sl);
            Some(crate::text::copy_range(s.as_slice(), q + 1, sl))
        },
        None => None,
    }
}

fn line_value(line: &Vec<char>) -> (r: Option<Vec<char>>)
    ensures
        match r {
            Some(v) => dep_value(line@) == Some(v@),
            None => dep_value(line@) is None,
        },
{
    let mut vs: Vec<char> = Vec::new();
    vs.push('v');
    vs.push('e');
    vs.push('r');
    vs.push('s');
    vs.push('i');
    vs.push('o');
    vs.push('n');
    assert(vs@ =~= seq!['v', 'e', 'r', 's', 'i', 'o', 'n']);
    if let Some(p) = find_in(line, &vs) {
        proof {
            crate::text::lemma_find_some(line@, vs@, 0);
        }
        let before = crate::text::copy_range(line.as_slice(), 0, p);
        assert(before@ =~= line@.take(p as int));
        let mut brace: Vec<char> = Vec::new();
        brace.push('{');
        assert(brace@ =~= seq!['{']);
        let opens = find_in(&before, &brace).is_some();
        proof {
            crate::text::lemma_find_some(before@, brace@, 0);
            if before@.contains('{') {
                let m = choose|m: int| 0 <= m < before@.len() && before@[m] == '{';
                assert(crate::text::occurs_at(before@, brace@, m)) by {
                    assert(before@.subrange(m, m + 1) =~= brace@);
                }
                lemma_found_somewhere(before@, brace@, m);
            }
            if find(before@, brace@) is Some {
                let q = find(before@, brace@)->0;
                assert(before@.subrange(q, q + 1)[0] == '{');
                assert(before@[q] == '{');
            }
        }
        if opens {
            let ll = line.len();
            assert(p + 7 <= ll);
            let rest = crate::text::copy_range(line.as_slice(), p + 7, ll);
            assert(rest@ =~= line@.skip(p + 7));
            return after_first_eq(&rest);
        }
    }
    after_first_eq(line)
}

fn req_from(val: &Vec<char>) -> (r: Vec<char>)
    ensures
        r@ == req_of(val@),
{
    let (lo, hi) = crate::text::trim_bounds(val.as_slice());
    let t = crate::text::copy_range(val.as_slice(), lo, hi);
    let mut s: usize = 0;
    assert(t@.skip(0) =~= t@);
    while s < t.len() && t[s] == '"'
        invariant
            s <= t@.len(),
            skip_quotes(t@) == skip_quotes(t@.skip(s as int)),
        decreases t@.len() - s,
    {
        assert(t@.skip(s as int).drop_first() =~= t@.skip(s + 1));
        s += 1;
    }
    let u = crate::text::copy_range(t.as_slice(), s, t.len());
    assert(u@ =~= t@.skip(s as int));
    let e = crate::text::find_char(u.as_slice(), '"');
    let req = crate::text::copy_range(u.as_slice(), 0, e);
    assert(req@ =~= req_of(val@));
    req
}

/// The version requirement the harness gives one dependency, with the index
/// of the line carrying it. Both spellings the manifest uses are read:
/// `name = "req"` and `name = { version = "req", ... }`.
pub fn dep_req(text: &str, name: &str) -> (r: Option<(usize, String)>)
    ensures
        match r {
            Some((i, req)) => is_first_dep_line(lines(text@), name@, i as int) && (dep_value(
                lines(text@)[i as int],
            ) matches Some(v) && req@ == req_of(v)),
            None => (forall|i: int| !is_first_dep_line(lines(text@), name@, i)) || exists|i: int|
                is_first_dep_line(lines(text@), name@, i) && dep_value(lines(text@)[i]) is None,
        },
{
    let tc = chars_of(text);
    let ls = split_lines(tc.as_slice());
    let ghost v = views(ls@);
    assert(v == lines(text@));
    let nc = chars_of(name);
    let mut i: usize = 0;
    while i < ls.len()
        invariant
            i <= ls@.len(),
            v == views(ls@),
            v == lines(text@),
            nc@ == name@,
            forall|j: int| 0 <= j < i ==> !names_dep(v[j], name@),
        decreases ls@.len() - i,
    {
        assert(v[i as int] == ls@[i as int]@);
        if line_names(&ls[i], &nc) {
            assert(is_first_dep_line(v, name@, i as int));
            match line_value(&ls[i]) {
                None => {
                    return None;
                },
                Some(val) => {
                    let req = req_from(&val);
                    return Some((i, string_of(req.as_slice())));
                },
            }
        }
        i += 1;
    }
    assert forall|j: int| !is_first_dep_line(lines(text@), name@, j) by {}
    None
}

proof fn lemma_found_somewhere(s: Seq<char>, pat: Seq<char>, m: int)
    requires
        crate::text::occurs_at(s, pat, m),
    ensures
        find(s, pat) is Some,
{
    lemma_find_from_reaches(s, pat, 0, m);
}

proof fn lemma_find_from_reaches(s: Seq<char>, pat: Seq<char>, p: int, m: int)
    requires
        0 <= p <= m,
        crate::text::occurs_at(s, pat, m),
    ensures
        crate::text::find_from(s, pat, p) is Some,
    decreases m - p,
{
    if p < m && !crate::text::occurs_at(s, pat, p) {
        lemma_find_from_reaches(s, pat, p + 1, m);
    }
}

proof fn lemma_first_unique(ls: Seq<Seq<char>>, name: Seq<char>, i: int, j: int)
    requires
        is_first_dep_line(ls, name, i),
        is_first_dep_line(ls, name, j),
    ensures
        i == j,
{
    if i < j {
        assert(!names_dep(ls[i], name));
    } else if j < i {
        assert(!names_dep(ls[j], name));
    }
}

/// `x` in double quotes.
pub open spec fn quoted(x: Seq<char>) -> Seq<char> {
    seq!['"'] + x + seq!['"']
}

/// What retargeting the harness's requirement on `name` to exactly
/// `version` writes: `None` when the harness does not name it, or already
/// pins it there; else the manifest with that one line's quoted requirement
/// replaced, its lines joined by newlines and ended by one.
pub open spec fn retarget_spec(text: Seq<char>, name: Seq<char>, version: Seq<char>) -> Option<Seq<char>> {
    let ls = lines(text);
    if exists|i: int| is_first_dep_line(ls, name, i) {
        let i = choose|i: int| is_first_dep_line(ls, name, i);
        match dep_value(ls[i]) {
            None => None,
            Some(v) => {
                let req = req_of(v);
                let want = seq!['='] + version;
                if req == want {
                    None
                } else {
                    Some(crate::store_edit::join_nl(ls.update(i, crate::text::replace_all(ls[i], quoted(req), quoted(want)))) + seq!['\n'])
                }
            },
        }
    } else {
        None
    }
}

fn quote_chars(x: &Vec<char>) -> (r: Vec<char>)
    ensures
        r@ == quoted(x@),
{
    let mut r: Vec<char> = Vec::new();
    r.push('"');
    let mut k: usize = 0;
    while k < x.len()
        invariant
            k <= x@.len(),
            r@ == seq!['"'] + x@.take(k as int),
        decreases x@.len() - k,
    {
        r.push(x[k]);
        k += 1;
        assert(r@ =~= seq!['"'] + x@.take(k as int));
    }
    r.push('"');
    assert(x@.take(k as int) =~= x@);
    assert(r@ =~= quoted(x@));
    r
}

/// The manifest text with the harness's requirement on `name` retargeted
/// to exactly `version`, or `None` when there is nothing to write: most
/// bumps write nothing here, since the coverage source is not a harness
/// dependency.
pub fn retarget(text: &str, name: &str, version: &str) -> (r: Option<String>)
    ensures
        match r {
            Some(s) => retarget_spec(text@, name@, version@) == Some(s@),
            None => retarget_spec(text@, name@, version@) is None,
        },
{
    let ghost ls = lines(text@);
    let (i, req) = match dep_req(text, name) {
        None => {
            proof {
                if exists|i: int| is_first_dep_line(ls, name@, i) {
                    let j = choose|j: int| is_first_dep_line(ls, name@, j) && dep_value(ls[j]) is None;
                    let c = choose|i: int| is_first_dep_line(ls, name@, i);
                    lemma_first_unique(ls, name@, j, c);
                }
            }
            return None;
        },
        Some(x) => x,
    };
    proof {
        let c = choose|j: int| is_first_dep_line(ls, name@, j);
        lemma_first_unique(ls, name@, i as int, c);
    }
    let mut want: Vec<char> = Vec::new();
    want.push('=');
    let vc = chars_of(version);
    let mut k: usize = 0;
    while k < vc.len()
        invariant
            k <= vc@.len(),
            want@ == seq!['='] + vc@.take(k as int),
        decreases vc@.len() - k,
    {
        want.push(vc[k]);
        k += 1;
        assert(want@ =~= seq!['='] + vc@.take(k as int));
    }
    assert(vc@.take(k as int) =~= vc@);
    let rc = chars_of(req.as_str());
    if crate::text::eq_chars(&rc, &want) {
        return None;
    }
    let ls_exec = split_lines(chars_of(text).as_slice());
    assert(views(ls_exec@) == ls);
    let pat = quote_chars(&rc);
    let rep = quote_chars(&want);
    let mut out: Vec<Vec<char>> = Vec::new();
    let mut j: usize = 0;
    while j < ls_exec.len()
        invariant
            j <= ls_exec@.len(),
            views(ls_exec@) == ls,
            i < ls.len(),
            pat@.len() > 0,
            views(out@) == ls.update(i as int, crate::text::replace_all(ls[i as int], pat@, rep@)).take(j as int),
        decreases ls_exec@.len() - j,
    {
        let ghost o0 = views(out@);
        let ghost target = ls.update(i as int, crate::text::replace_all(ls[i as int], pat@, rep@));
        assert(o0 == target.take(j as int));
        if j == i {
            let line = crate::text::replace_in(&ls_exec[j], &pat, &rep);
            out.push(line);
        } else {
            let l = crate::text::copy_range(ls_exec[j].as_slice(), 0, ls_exec[j].len());
            assert(l@ =~= ls_exec@[j as int]@);
            out.push(l);
        }
        assert(views(out@) =~= o0.push(out@.last()@));
        assert(target[j as int] == out@.last()@);
        assert(views(out@) =~= target.take(j + 1));
        j += 1;
    }
    assert(ls.update(i as int, crate::text::replace_all(ls[i as int], pat@, rep@)).take(j as int) =~= ls.update(i as int, crate::text::replace_all(ls[i as int], pat@, rep@)));
    let mut joined = crate::store_edit::join_lines(&out);
    joined.push('\n');
    Some(string_of(joined.as_slice()))
}

/// Whether the lock, from line `i` on, has a `name` line followed directly
/// by a `version` line. A name line that is not so followed uses up the
/// line after it.
pub open spec fn lock_scan(ls: Seq<Seq<char>>, want_name: Seq<char>, want_version: Seq<char>, i: int) -> bool
    decreases ls.len() + 2 - i,
{
    if i < 0 || i >= ls.len() {
        false
    } else if trim(ls[i]) == want_name {
        if i + 1 < ls.len() && trim(ls[i + 1]) == want_version {
            true
        } else {
            lock_scan(ls, want_name, want_version, i + 2)
        }
    } else {
        lock_scan(ls, want_name, want_version, i + 1)
    }
}

/// `key = "value"`.
pub open spec fn toml_pair(key: Seq<char>, value: Seq<char>) -> Seq<char> {
    key + " = \""@ + value + seq!['"']
}

fn pair_chars(key: &str, value: &str) -> (r: Vec<char>)
    ensures
        r@ == toml_pair(key@, value@),
{
    let mut r = chars_of(key);
    let mid = chars_of(" = \"");
    let v = chars_of(value);
    let ghost r0 = r@;
    let mut k: usize = 0;
    while k < mid.len()
        invariant
            k <= mid@.len(),
            r@ == r0 + mid@.take(k as int),
        decreases mid@.len() - k,
    {
        r.push(mid[k]);
        k += 1;
        assert(r@ =~= r0 + mid@.take(k as int));
    }
    let ghost r1 = r@;
    let mut j: usize = 0;
    while j < v.len()
        invariant
            j <= v@.len(),
            r@ == r1 + v@.take(j as int),
        decreases v@.len() - j,
    {
        r.push(v[j]);
        j += 1;
        assert(r@ =~= r1 + v@.take(j as int));
    }
    r.push('"');
    assert(mid@.take(k as int) =~= mid@);
    assert(v@.take(j as int) =~= v@);
    assert(r@ =~= toml_pair(key@, value@));
    r
}

/// Whether the lock file `t` resolved `name` to exactly `version`. A crate
/// can be locked more than once, so this asks whether the version is among
/// its entries.
pub fn lock_has(t: &str, name: &str, version: &str) -> (r: bool)
    ensures
        r == lock_scan(lines(t@), toml_pair("name"@, name@), toml_pair("version"@, version@), 0),
{
    let ls = split_lines(chars_of(t).as_slice());
    let ghost lv = lines(t@);
    assert(views(ls@) == lv);
    let wn = pair_chars("name", name);
    let wv = pair_chars("version", version);
    let mut i: usize = 0;
    while i < ls.len()
        invariant
            views(ls@) == lv,
            lv == lines(t@),
            wn@ == toml_pair("name"@, name@),
            wv@ == toml_pair("version"@, version@),
            lock_scan(lv, wn@, wv@, 0) == lock_scan(lv, wn@, wv@, i as int),
        decreases ls@.len() - i,
    {
        let a = crate::text::trimmed(ls[i].as_slice());
        assert(lv[i as int] == ls@[i as int]@);
        if crate::text::eq_chars(&a, &wn) {
            if i + 1 < ls.len() {
                let b = crate::text::trimmed(ls[i + 1].as_slice());
                assert(lv[i + 1] == ls@[i + 1]@);
                if crate::text::eq_chars(&b, &wv) {
                    assert(lock_scan(lv, wn@, wv@, i as int));
                    assert(lock_scan(lv, wn@, wv@, 0));
                    return true;
                }
            }
            if i + 1 >= ls.len() {
                assert(!lock_scan(lv, wn@, wv@, i + 2));
                assert(!lock_scan(lv, wn@, wv@, i as int));
                return false;
            }
            i = i + 2;
        } else {
            i += 1;
        }
    }
    false
}

} // verus!
