//! Checking the built site's internal links: every `href` and `src` that
//! names a file of the site must reach one, and one carrying a fragment
//! must reach an `id` on that page. Paths are taken relative to the site's
//! root and resolved lexically, the way `Path::components` reads them.
use crate::site::{attr_vals, attr_values};
use crate::text::{chars_of, string_of};
use vstd::prelude::*;

verus! {

/// A link that names a file of the site.
#[derive(Debug)]
pub struct LinkRef {
    /// The link as written.
    pub text: String,
    /// The file it reaches, relative to the site's root.
    pub target: String,
    /// What follows its `#`, if anything.
    pub fragment: Option<String>,
}

/// The pieces of `s` between its `/`s, empty ones included (`str::split`).
pub open spec fn split_slash(s: Seq<char>) -> Seq<Seq<char>>
    decreases s.len(),
{
    if s.len() == 0 {
        seq![Seq::empty()]
    } else if s.last() == '/' {
        split_slash(s.drop_last()).push(Seq::empty())
    } else {
        let p = split_slash(s.drop_last());
        p.update(p.len() - 1, p.last().push(s.last()))
    }
}

/// One component read onto a path: nothing for an empty one or `.`; `..`
/// climbs out of the last directory, or is kept when there is none to
/// climb out of; anything else goes one level down.
pub open spec fn step(stack: Seq<Seq<char>>, part: Seq<char>) -> Seq<Seq<char>> {
    if part.len() == 0 || part == seq!['.'] {
        stack
    } else if part == seq!['.', '.'] {
        if stack.len() > 0 && stack.last() != seq!['.', '.'] {
            stack.drop_last()
        } else {
            stack.push(part)
        }
    } else {
        stack.push(part)
    }
}

/// Components read in order onto `stack`.
pub open spec fn normalized(stack: Seq<Seq<char>>, parts: Seq<Seq<char>>) -> Seq<Seq<char>>
    decreases parts.len(),
{
    if parts.len() == 0 {
        stack
    } else {
        step(normalized(stack, parts.drop_last()), parts.last())
    }
}

/// Components joined by `/`.
pub open spec fn join_slash(parts: Seq<Seq<char>>) -> Seq<char>
    decreases parts.len(),
{
    if parts.len() == 0 {
        Seq::empty()
    } else if parts.len() == 1 {
        parts[0]
    } else {
        join_slash(parts.drop_last()) + seq!['/'] + parts.last()
    }
}

/// Where `path`, written on `page`, leads: the page's directory joined with
/// the path, `.` and `..` resolved.
pub open spec fn resolved(page: Seq<char>, path: Seq<char>) -> Seq<char> {
    let dir = split_slash(page).drop_last();
    join_slash(normalized(normalized(Seq::empty(), dir), split_slash(path)))
}

/// A link that leaves the site: another scheme, or an absolute path.
pub open spec fn outside(r: Seq<char>) -> bool {
    ||| seq!['h', 't', 't', 'p'].is_prefix_of(r)
    ||| seq!['m', 'a', 'i', 'l', 't', 'o', ':'].is_prefix_of(r)
    ||| seq!['d', 'a', 't', 'a', ':'].is_prefix_of(r)
    ||| (r.len() > 0 && r[0] == '/')
}

/// What a link names: its path, and what follows its first `#`.
pub open spec fn split_fragment(r: Seq<char>) -> (Seq<char>, Option<Seq<char>>) {
    let k = crate::text::first_of(r, '#');
    if k < r.len() {
        (r.take(k as int), Some(r.skip(k as int + 1)))
    } else {
        (r, None)
    }
}

/// The site link written as `r` on `page`.
pub open spec fn link_of(page: Seq<char>, r: Seq<char>) -> (Seq<char>, Seq<char>, Option<Seq<char>>) {
    let (path, fragment) = split_fragment(r);
    (r, if path.len() == 0 { page } else { resolved(page, path) }, fragment)
}

/// The site links among the first `k` of `refs`.
pub open spec fn links_spec(page: Seq<char>, refs: Seq<Seq<char>>, k: int) -> Seq<(Seq<char>, Seq<char>, Option<Seq<char>>)>
    decreases k,
{
    if k <= 0 {
        Seq::empty()
    } else if outside(refs[k - 1]) {
        links_spec(page, refs, k - 1)
    } else {
        links_spec(page, refs, k - 1).push(link_of(page, refs[k - 1]))
    }
}

/// A link as plain values.
pub open spec fn link_view(l: LinkRef) -> (Seq<char>, Seq<char>, Option<Seq<char>>) {
    (l.text@, l.target@, match l.fragment {
        Some(f) => Some(f@),
        None => None,
    })
}

/// Every `href` and then every `src` of a page.
pub open spec fn page_refs(html: Seq<char>) -> Seq<Seq<char>> {
    attr_vals(html, "href=\""@) + attr_vals(html, "src=\""@)
}

proof fn lemma_split_nonempty(s: Seq<char>)
    ensures
        split_slash(s).len() >= 1,
    decreases s.len(),
{
    if s.len() > 0 {
        lemma_split_nonempty(s.drop_last());
    }
}

fn split_slash_of(s: &Vec<char>) -> (r: Vec<Vec<char>>)
    ensures
        r@.map_values(|p: Vec<char>| p@) == split_slash(s@),
{
    let mut r: Vec<Vec<char>> = Vec::new();
    r.push(Vec::new());
    assert(r@.map_values(|p: Vec<char>| p@) =~= split_slash(s@.take(0)));
    let mut i: usize = 0;
    while i < s.len()
        invariant
            i <= s@.len(),
            r@.len() >= 1,
            r@.map_values(|p: Vec<char>| p@) == split_slash(s@.take(i as int)),
        decreases s@.len() - i,
    {
        let ghost before = r@.map_values(|p: Vec<char>| p@);
        assert(s@.take(i + 1).drop_last() =~= s@.take(i as int));
        assert(s@.take(i + 1).last() == s@[i as int]);
        if s[i] == '/' {
            r.push(Vec::new());
            assert(r@.map_values(|p: Vec<char>| p@) =~= before.push(Seq::empty()));
        } else {
            let last = r.len() - 1;
            let mut cur = r.pop().unwrap();
            let ghost c0 = cur@;
            cur.push(s[i]);
            r.push(cur);
            assert(c0 == before.last());
            assert(r@.map_values(|p: Vec<char>| p@) =~= before.update(before.len() - 1, before.last().push(s@[i as int])));
        }
        i += 1;
    }
    assert(s@.take(i as int) =~= s@);
    r
}

fn is_dot(p: &Vec<char>) -> (r: bool)
    ensures
        r == (p@ == seq!['.']),
{
    if p.len() == 1 && p[0] == '.' {
        assert(p@ =~= seq!['.']);
        true
    } else {
        false
    }
}

fn is_dot_dot(p: &Vec<char>) -> (r: bool)
    ensures
        r == (p@ == seq!['.', '.']),
{
    if p.len() == 2 && p[0] == '.' && p[1] == '.' {
        assert(p@ =~= seq!['.', '.']);
        true
    } else {
        false
    }
}

fn normalize_onto(stack: &mut Vec<Vec<char>>, parts: &Vec<Vec<char>>)
    ensures
        final(stack)@.map_values(|p: Vec<char>| p@) == normalized(
            old(stack)@.map_values(|p: Vec<char>| p@),
            parts@.map_values(|p: Vec<char>| p@),
        ),
{
    let ghost s0 = stack@.map_values(|p: Vec<char>| p@);
    let ghost pv = parts@.map_values(|p: Vec<char>| p@);
    let mut i: usize = 0;
    while i < parts.len()
        invariant
            i <= parts@.len(),
            pv == parts@.map_values(|p: Vec<char>| p@),
            stack@.map_values(|p: Vec<char>| p@) == normalized(s0, pv.take(i as int)),
        decreases parts@.len() - i,
    {
        let ghost before = stack@.map_values(|p: Vec<char>| p@);
        assert(pv.take(i + 1).drop_last() =~= pv.take(i as int));
        assert(pv.take(i + 1).last() == parts@[i as int]@);
        let p = &parts[i];
        if p.len() == 0 || is_dot(p) {
        } else if is_dot_dot(p) {
            let n = stack.len();
            if n > 0 && !is_dot_dot(&stack[n - 1]) {
                stack.pop();
                assert(stack@.map_values(|p: Vec<char>| p@) =~= before.drop_last());
            } else {
                stack.push(p.clone());
                assert(stack@.map_values(|p: Vec<char>| p@) =~= before.push(parts@[i as int]@));
            }
        } else {
            stack.push(p.clone());
            assert(stack@.map_values(|p: Vec<char>| p@) =~= before.push(parts@[i as int]@));
        }
        i += 1;
    }
    assert(pv.take(i as int) =~= pv);
}

fn join_with_slash(parts: &Vec<Vec<char>>) -> (r: Vec<char>)
    ensures
        r@ == join_slash(parts@.map_values(|p: Vec<char>| p@)),
{
    let ghost pv = parts@.map_values(|p: Vec<char>| p@);
    let mut r: Vec<char> = Vec::new();
    let mut i: usize = 0;
    while i < parts.len()
        invariant
            i <= parts@.len(),
            pv == parts@.map_values(|p: Vec<char>| p@),
            r@ == join_slash(pv.take(i as int)),
        decreases parts@.len() - i,
    {
        assert(pv.take(i + 1).drop_last() =~= pv.take(i as int));
        assert(pv.take(i + 1).last() == parts@[i as int]@);
        if i > 0 {
            r.push('/');
        }
        let mut p = parts[i].clone();
        let ghost pc = p@;
        assert(pc == parts@[i as int]@);
        r.append(&mut p);
        if i == 0 {
            assert(pv.take(1) =~= seq![pc]);
        }
        i += 1;
    }
    assert(pv.take(i as int) =~= pv);
    r
}

/// Where `path`, written on `page`, leads, relative to the site's root.
pub fn resolve(page: &str, path: &str) -> (r: String)
    ensures
        r@ == resolved(page@, path@),
{
    let mut dir = split_slash_of(&chars_of(page));
    proof {
        lemma_split_nonempty(page@);
    }
    let ghost d0 = dir@.map_values(|p: Vec<char>| p@);
    dir.pop();
    let ghost dv = dir@.map_values(|p: Vec<char>| p@);
    assert(dv =~= split_slash(page@).drop_last());
    let mut stack: Vec<Vec<char>> = Vec::new();
    assert(stack@.map_values(|p: Vec<char>| p@) =~= Seq::<Seq<char>>::empty());
    normalize_onto(&mut stack, &dir);
    let parts = split_slash_of(&chars_of(path));
    normalize_onto(&mut stack, &parts);
    string_of(join_with_slash(&stack).as_slice())
}

fn starts_with(s: &Vec<char>, p: &Vec<char>) -> (r: bool)
    ensures
        r == p@.is_prefix_of(s@),
{
    if p.len() > s.len() {
        return false;
    }
    let mut k: usize = 0;
    while k < p.len()
        invariant
            p@.len() <= s@.len(),
            k <= p@.len(),
            forall|m: int| 0 <= m < k ==> s@[m] == p@[m],
        decreases p@.len() - k,
    {
        if s[k] != p[k] {
            return false;
        }
        k += 1;
    }
    true
}

fn is_outside(r: &Vec<char>) -> (b: bool)
    ensures
        b == outside(r@),
{
    let http = vec!['h', 't', 't', 'p'];
    let mail = vec!['m', 'a', 'i', 'l', 't', 'o', ':'];
    let data = vec!['d', 'a', 't', 'a', ':'];
    assert(http@ =~= seq!['h', 't', 't', 'p']);
    assert(mail@ =~= seq!['m', 'a', 'i', 'l', 't', 'o', ':']);
    assert(data@ =~= seq!['d', 'a', 't', 'a', ':']);
    starts_with(r, &http) || starts_with(r, &mail) || starts_with(r, &data) || (r.len() > 0 && r[0] == '/')
}

/// The links a page makes to files of the site, in the order its `href`s
/// and then its `src`s appear: each as written, the file it reaches
/// (the page itself for a bare fragment) and its fragment. `page` is the
/// page's path relative to the site's root.
pub fn page_links(page: &str, html: &str) -> (r: Vec<LinkRef>)
    ensures
        r@.map_values(|l: LinkRef| link_view(l)) == links_spec(page@, page_refs(html@), page_refs(html@).len() as int),
{
    let mut refs = attr_values(html, "href=\"");
    let mut more = attr_values(html, "src=\"");
    let ghost a = refs@.map_values(|s: String| s@);
    let ghost b = more@.map_values(|s: String| s@);
    refs.append(&mut more);
    let ghost rv = refs@.map_values(|s: String| s@);
    assert(rv =~= a + b);
    let mut out: Vec<LinkRef> = Vec::new();
    let mut k: usize = 0;
    while k < refs.len()
        invariant
            k <= refs@.len(),
            rv == refs@.map_values(|s: String| s@),
            rv == page_refs(html@),
            out@.map_values(|l: LinkRef| link_view(l)) == links_spec(page@, rv, k as int),
        decreases refs@.len() - k,
    {
        let r = chars_of(refs[k].as_str());
        assert(rv[k as int] == r@);
        let ghost before = out@.map_values(|l: LinkRef| link_view(l));
        if !is_outside(&r) {
            let h = crate::text::find_char(r.as_slice(), '#');
            let path = crate::text::copy_range(r.as_slice(), 0, h);
            assert(path@ =~= r@.take(h as int));
            let fragment = if h < r.len() {
                let f = crate::text::copy_range(r.as_slice(), h + 1, r.len());
                assert(f@ =~= r@.skip(h + 1));
                Some(string_of(f.as_slice()))
            } else {
                assert(path@ =~= r@);
                None
            };
            let target = if path.len() == 0 {
                string_of(chars_of(page).as_slice())
            } else {
                resolve(page, string_of(path.as_slice()).as_str())
            };
            let l = LinkRef { text: string_of(r.as_slice()), target, fragment };
            out.push(l);
            assert(out@.map_values(|l: LinkRef| link_view(l)) =~= before.push(link_view(l)));
        }
        k += 1;
    }
    out
}

/// What is wrong with a link, if anything: `exists` is whether the file it
/// reaches exists, and `ids` the `id`s of that file when it is a page.
pub open spec fn broken_spec(page: Seq<char>, l: (Seq<char>, Seq<char>, Option<Seq<char>>), exists: bool, ids: Seq<Seq<char>>) -> Option<Seq<char>> {
    if !exists {
        Some(page + ": "@ + l.0 + " -> missing file"@)
    } else {
        match l.2 {
            Some(f) => if ids.contains(f) {
                None
            } else {
                Some(page + ": "@ + l.0 + " -> no such id"@)
            },
            None => None,
        }
    }
}

/// Whether `f` is among `ids`.
fn has_id(ids: &Vec<String>, f: &String) -> (b: bool)
    ensures
        b == ids@.map_values(|s: String| s@).contains(f@),
{
    let ghost iv = ids@.map_values(|s: String| s@);
    let mut k: usize = 0;
    while k < ids.len()
        invariant
            k <= ids@.len(),
            iv == ids@.map_values(|s: String| s@),
            forall|m: int| 0 <= m < k ==> iv[m] != f@,
        decreases ids@.len() - k,
    {
        if crate::text::str_eq(ids[k].as_str(), f.as_str()) {
            assert(iv[k as int] == f@);
            return true;
        }
        k += 1;
    }
    false
}

/// What is wrong with one link of `page`: a file it reaches that does not
/// exist, or a fragment naming no `id` there.
pub fn broken(page: &str, link: &LinkRef, exists: bool, ids: &Vec<String>) -> (r: Option<String>)
    ensures
        match r {
            Some(m) => broken_spec(page@, link_view(*link), exists, ids@.map_values(|s: String| s@)) == Some(m@),
            None => broken_spec(page@, link_view(*link), exists, ids@.map_values(|s: String| s@)) is None,
        },
{
    let mut msg = chars_of(page);
    let mut sep = chars_of(": ");
    msg.append(&mut sep);
    let mut t = chars_of(link.text.as_str());
    msg.append(&mut t);
    if !exists {
        let mut tail = chars_of(" -> missing file");
        msg.append(&mut tail);
        return Some(string_of(msg.as_slice()));
    }
    match &link.fragment {
        None => None,
        Some(f) => {
            if has_id(ids, f) {
                None
            } else {
                let mut tail = chars_of(" -> no such id");
                msg.append(&mut tail);
                Some(string_of(msg.as_slice()))
            }
        },
    }
}

} // verus!
