//! The coverage run's checks on what surrounds the stores: the harness and
//! the examples pin the versions the pin names, every directory under
//! `vendor/` is pinned, the feature vocabulary is read from its doc, and
//! the glossary is consistent.
use crate::coverage::{
    contains_text, copy_text, declares, declares_spec, finding_view, findings_view, texts, Diagnostics, Finding,
    FindingView,
};
use crate::harness::{dep_req, dep_value, is_first_dep_line, lock_scan, req_of, toml_pair};
use crate::refs::flag;
use crate::store::GlossaryItem;
use crate::text::{chars_of, lines, split_lines, string_of, trim, trim_start, trimmed, views};
use crate::vendor::{source_id_spec, Pin, Role, Source};
use vstd::prelude::*;

verus! {

/// The requirement the harness manifest gives `name`, if it names it.
pub open spec fn dep_req_spec(text: Seq<char>, name: Seq<char>) -> Option<Seq<char>> {
    let ls = lines(text);
    if exists|i: int| is_first_dep_line(ls, name, i) {
        let i = choose|i: int| is_first_dep_line(ls, name, i);
        match dep_value(ls[i]) {
            Some(v) => Some(req_of(v)),
            None => None,
        }
    } else {
        None
    }
}

proof fn lemma_first_unique(ls: Seq<Seq<char>>, name: Seq<char>, i: int, j: int)
    requires
        is_first_dep_line(ls, name, i),
        is_first_dep_line(ls, name, j),
    ensures
        i == j,
{
    if i < j {
        assert(!crate::harness::names_dep(ls[i], name));
    } else if j < i {
        assert(!crate::harness::names_dep(ls[j], name));
    }
}

fn requirement(text: &str, name: &str) -> (r: Option<String>)
    ensures
        match r {
            Some(s) => dep_req_spec(text@, name@) == Some(s@),
            None => dep_req_spec(text@, name@) is None,
        },
{
    let ghost ls = lines(text@);
    match dep_req(text, name) {
        None => {
            proof {
                if exists|i: int| is_first_dep_line(ls, name@, i) {
                    let j = choose|j: int| is_first_dep_line(ls, name@, j) && dep_value(ls[j]) is None;
                    let c = choose|i: int| is_first_dep_line(ls, name@, i);
                    lemma_first_unique(ls, name@, j, c);
                }
            }
            None
        },
        Some((i, req)) => {
            proof {
                let c = choose|j: int| is_first_dep_line(ls, name@, j);
                lemma_first_unique(ls, name@, i as int, c);
            }
            Some(req)
        },
    }
}

/// The lock holds `name` at `version`; with no lock there is nothing to
/// contradict.
pub open spec fn lock_ok(lock: Option<String>, name: Seq<char>, version: Seq<char>) -> bool {
    match lock {
        None => true,
        Some(t) => lock_scan(lines(t@), toml_pair("name"@, name), toml_pair("version"@, version), 0),
    }
}

/// What the harness check reports for one pinned source.
pub open spec fn harness_finding(manifest: Seq<char>, lock: Option<String>, s: Source) -> Seq<FindingView> {
    match dep_req_spec(manifest, s.name@) {
        None => Seq::empty(),
        Some(req) => if req != seq!['='] + s.version@ {
            seq![FindingView::HarnessPin(s.name@, req, s.version@)]
        } else if !lock_ok(lock, s.name@, s.version@) {
            seq![FindingView::LockMissing(s.name@, s.version@)]
        } else {
            Seq::empty()
        },
    }
}

pub open spec fn harness_findings(manifest: Seq<char>, lock: Option<String>, s: Seq<Source>, k: int) -> Seq<FindingView>
    decreases k,
{
    if k <= 0 {
        Seq::empty()
    } else {
        harness_findings(manifest, lock, s, k - 1) + harness_finding(manifest, lock, s[k - 1])
    }
}

/// The expansion harness builds against the pinned trees: every pinned
/// source it depends on is required exactly (`=version`) in its manifest,
/// and the lock resolves it to that version. `lock` is the lock file's
/// text, if there is one.
#[verifier::spinoff_prover]
pub fn check_harness_pins(pin: &Pin, manifest: &str, lock: &Option<String>, diag: &mut Diagnostics)
    ensures
        findings_view(final(diag).errors@) == findings_view(old(diag).errors@) + harness_findings(manifest@, *lock, pin.sources@, pin.sources@.len() as int),
        final(diag).warnings@ == old(diag).warnings@,
{
    let ghost e0 = findings_view(diag.errors@);
    let mut k: usize = 0;
    while k < pin.sources.len()
        invariant
            k <= pin.sources@.len(),
            findings_view(diag.errors@) == e0 + harness_findings(manifest@, *lock, pin.sources@, k as int),
            diag.warnings@ == old(diag).warnings@,
        decreases pin.sources@.len() - k,
    {
        let s = &pin.sources[k];
        let ghost d0 = findings_view(diag.errors@);
        match requirement(manifest, s.name.as_str()) {
            None => {
                assert(findings_view(diag.errors@) =~= d0 + Seq::<FindingView>::empty());
            },
            Some(req) => {
                let mut want: Vec<char> = Vec::new();
                want.push('=');
                let vc = chars_of(s.version.as_str());
                let mut j: usize = 0;
                while j < vc.len()
                    invariant
                        j <= vc@.len(),
                        want@ == seq!['='] + vc@.take(j as int),
                    decreases vc@.len() - j,
                {
                    want.push(vc[j]);
                    j += 1;
                    assert(want@ =~= seq!['='] + vc@.take(j as int));
                }
                assert(vc@.take(j as int) =~= vc@);
                let rc = chars_of(req.as_str());
                if !crate::text::eq_chars(&rc, &want) {
                    diag.error(Finding::HarnessPin { name: copy_text(&s.name), req, version: copy_text(&s.version) });
                    assert(findings_view(diag.errors@) =~= d0.push(finding_view(diag.errors@.last())));
                } else {
                    let ok = match lock {
                        None => true,
                        Some(t) => crate::harness::lock_has(t.as_str(), s.name.as_str(), s.version.as_str()),
                    };
                    if !ok {
                        diag.error(Finding::LockMissing { name: copy_text(&s.name), version: copy_text(&s.version) });
                        assert(findings_view(diag.errors@) =~= d0.push(finding_view(diag.errors@.last())));
                    } else {
                        assert(findings_view(diag.errors@) =~= d0 + Seq::<FindingView>::empty());
                    }
                }
            },
        }
        k += 1;
    }
}

/// The first of the first `k` lines that, less its indentation, starts with
/// `p`; or -1.
pub open spec fn first_starting(ls: Seq<Seq<char>>, p: Seq<char>, k: int) -> int
    decreases k,
{
    if k <= 0 {
        -1
    } else if first_starting(ls, p, k - 1) >= 0 {
        first_starting(ls, p, k - 1)
    } else if p.is_prefix_of(trim_start(ls[k - 1])) {
        k - 1
    } else {
        -1
    }
}

/// `name = "=version"`, the line an example must carry.
pub open spec fn pin_line(name: Seq<char>, version: Seq<char>) -> Seq<char> {
    toml_pair(name, seq!['='] + version)
}

/// What the example check reports for one manifest, at `path`.
pub open spec fn example_finding(name: Seq<char>, version: Seq<char>, path: Seq<char>, text: Seq<char>) -> Seq<FindingView> {
    let ls = lines(text);
    let i = first_starting(ls, name + seq![' '], ls.len() as int);
    if i < 0 {
        Seq::empty()
    } else if trim(ls[i]) != pin_line(name, version) {
        seq![FindingView::ExamplePin(path, trim(ls[i]), version)]
    } else {
        Seq::empty()
    }
}

pub open spec fn example_findings(name: Seq<char>, version: Seq<char>, ms: Seq<(String, String)>, k: int) -> Seq<FindingView>
    decreases k,
{
    if k <= 0 {
        Seq::empty()
    } else {
        example_findings(name, version, ms, k - 1) + example_finding(name, version, ms[k - 1].0@, ms[k - 1].1@)
    }
}

fn prefixed(s: &[char], p: &Vec<char>) -> (r: bool)
    ensures
        r == p@.is_prefix_of(s@),
{
    if p.len() > s.len() {
        return false;
    }
    let mut k: usize = 0;
    while k < p.len()
        invariant
            p@.len() <= s@.len(),
            k <= p@.len(),
            forall|m: int| 0 <= m < k ==> s@[m] == p@[m],
        decreases p@.len() - k,
    {
        if s[k] != p[k] {
            return false;
        }
        k += 1;
    }
    true
}

fn chars_join(a: &Vec<char>, b: &Vec<char>) -> (r: Vec<char>)
    ensures
        r@ == a@ + b@,
{
    let mut r = crate::text::copy_range(a.as_slice(), 0, a.len());
    assert(r@ =~= a@);
    let mut k: usize = 0;
    while k < b.len()
        invariant
            k <= b@.len(),
            r@ == a@ + b@.take(k as int),
        decreases b@.len() - k,
    {
        r.push(b[k]);
        k += 1;
        assert(r@ =~= a@ + b@.take(k as int));
    }
    assert(b@.take(k as int) =~= b@);
    r
}

#[verifier::spinoff_prover]
fn example_pin(name: &str, version: &str, path: &String, text: &String, diag: &mut Diagnostics)
    ensures
        findings_view(final(diag).errors@) == findings_view(old(diag).errors@) + example_finding(name@, version@, path@, text@),
        final(diag).warnings@ == old(diag).warnings@,
{
    let ghost e0 = findings_view(diag.errors@);
    let ls = split_lines(chars_of(text.as_str()).as_slice());
    let ghost lv = lines(text@);
    assert(views(ls@) == lv);
    let mut sp: Vec<char> = Vec::new();
    sp.push(' ');
    let p = chars_join(&chars_of(name), &sp);
    assert(p@ =~= name@ + seq![' ']);
    let mut i: usize = 0;
    while i < ls.len()
        invariant
            i <= ls@.len(),
            views(ls@) == lv,
            lv == lines(text@),
            p@ == name@ + seq![' '],
            first_starting(lv, p@, i as int) == -1,
            e0 == findings_view(old(diag).errors@),
            findings_view(diag.errors@) == e0,
            diag.warnings@ == old(diag).warnings@,
        decreases ls@.len() - i,
    {
        let b = crate::stats::trim_start_from(ls[i].as_slice(), 0);
        assert(lv[i as int] == ls@[i as int]@);
        assert(ls@[i as int]@.skip(0) =~= ls@[i as int]@);
        let t = crate::text::copy_range(ls[i].as_slice(), b, ls[i].len());
        assert(t@ =~= trim_start(lv[i as int]));
        if prefixed(t.as_slice(), &p) {
            proof {
                lemma_first_starting_stays(lv, p@, i + 1, lv.len() as int);
                assert(first_starting(lv, name@ + seq![' '], lv.len() as int) == i as int);
            }
            let tt = trimmed(ls[i].as_slice());
            assert(tt@ == trim(lv[i as int]));
            let mut want = chars_of(name);
            let mid = chars_of(" = \"=");
            let want2 = chars_join(&want, &mid);
            let vv = chars_of(version);
            let want3 = chars_join(&want2, &vv);
            let mut q: Vec<char> = Vec::new();
            q.push('"');
            let want4 = chars_join(&want3, &q);
            proof {
                reveal_strlit(" = \"=");
                reveal_strlit(" = \"");
                assert(want4@ =~= pin_line(name@, version@));
            }
            if !crate::text::eq_chars(&tt, &want4) {
                diag.error(Finding::ExamplePin { path: copy_text(path), found: string_of(tt.as_slice()), version: string_of(chars_of(version).as_slice()) });
                assert(example_finding(name@, version@, path@, text@) == seq![FindingView::ExamplePin(path@, tt@, version@)]);
                assert(findings_view(diag.errors@) =~= e0.push(finding_view(diag.errors@.last())));
            } else {
                assert(example_finding(name@, version@, path@, text@) == Seq::<FindingView>::empty());
                assert(findings_view(diag.errors@) =~= e0 + Seq::<FindingView>::empty());
            }
            return;
        }
        i += 1;
    }
    assert(findings_view(diag.errors@) =~= e0 + Seq::<FindingView>::empty());
}

proof fn lemma_first_starting_stays(ls: Seq<Seq<char>>, p: Seq<char>, k: int, n: int)
    requires
        0 < k <= n,
        first_starting(ls, p, k) >= 0,
    ensures
        first_starting(ls, p, n) == first_starting(ls, p, k),
    decreases n - k,
{
    if k < n {
        lemma_first_starting_stays(ls, p, k, n - 1);
    }
}

/// Every example that depends on the crate `name` pins the version the
/// annotations describe: its first line naming the crate must read
/// `name = "=version"`. `manifests` pairs each example manifest's path with
/// its text, in path order.
pub fn check_example_pins(name: &str, version: &str, manifests: &Vec<(String, String)>, diag: &mut Diagnostics)
    ensures
        findings_view(final(diag).errors@) == findings_view(old(diag).errors@) + example_findings(name@, version@, manifests@, manifests@.len() as int),
        final(diag).warnings@ == old(diag).warnings@,
{
    let ghost e0 = findings_view(diag.errors@);
    let mut k: usize = 0;
    while k < manifests.len()
        invariant
            k <= manifests@.len(),
            findings_view(diag.errors@) == e0 + example_findings(name@, version@, manifests@, k as int),
            diag.warnings@ == old(diag).warnings@,
        decreases manifests@.len() - k,
    {
        example_pin(name, version, &manifests[k].0, &manifests[k].1, diag);
        k += 1;
    }
}

/// The slug a vocabulary line defines: a trimmed line `` - `slug` ... ``.
pub open spec fn slug_of(line: Seq<char>) -> Option<Seq<char>> {
    let t = trim(line);
    if seq!['-', ' ', '`'].is_prefix_of(t) {
        let rest = t.skip(3);
        let k = crate::text::first_of(rest, '`');
        if k < rest.len() {
            Some(rest.take(k as int))
        } else {
            None
        }
    } else {
        None
    }
}

/// The feature vocabulary doc defines no slug at all.
#[derive(Debug, PartialEq, Eq, Structural)]
pub enum NoSlugs {
    Empty,
}

/// The controlled vocabulary of Rust features, read from its doc: list
/// items of the form `` - `slug` - description ``, each slug once, in
/// ascending order. A doc that defines none is refused.
pub fn feature_slugs(text: &str) -> (r: Result<Vec<String>, NoSlugs>)
    ensures
        match r {
            Ok(v) => crate::cycle::ascending(texts(v@)) && v@.len() > 0
                && forall|x: Seq<char>| texts(v@).contains(x) <==> exists|i: int| 0 <= i < lines(text@).len() && slug_of(#[trigger] lines(text@)[i]) == Some(x),
            Err(_) => forall|i: int| 0 <= i < lines(text@).len() ==> slug_of(#[trigger] lines(text@)[i]) is None,
        },
{
    let ls = split_lines(chars_of(text).as_slice());
    let ghost lv = lines(text@);
    assert(views(ls@) == lv);
    let mut out: Vec<String> = Vec::new();
    let mut i: usize = 0;
    while i < ls.len()
        invariant
            i <= ls@.len(),
            views(ls@) == lv,
            lv == lines(text@),
            crate::cycle::ascending(texts(out@)),
            forall|x: Seq<char>| texts(out@).contains(x) <==> exists|j: int| 0 <= j < i && slug_of(#[trigger] lv[j]) == Some(x),
        decreases ls@.len() - i,
    {
        let t = trimmed(ls[i].as_slice());
        assert(lv[i as int] == ls@[i as int]@);
        let mut head: Vec<char> = Vec::new();
        head.push('-');
        head.push(' ');
        head.push('`');
        assert(head@ =~= seq!['-', ' ', '`']);
        if prefixed(t.as_slice(), &head) {
            let rest = crate::text::copy_range(t.as_slice(), 3, t.len());
            let k = crate::text::find_char(rest.as_slice(), '`');
            if k < rest.len() {
                let slug = string_of(crate::text::copy_range(rest.as_slice(), 0, k).as_slice());
                assert(slug@ =~= rest@.take(k as int));
                crate::cycle::insert_sorted(&mut out, &slug);
            }
        }
        proof {
            assert forall|x: Seq<char>| texts(out@).contains(x) <==> exists|j: int| 0 <= j < i + 1 && slug_of(#[trigger] lv[j]) == Some(x) by {
                if slug_of(lv[i as int]) == Some(x) {
                    assert(0 <= i < i + 1);
                }
            }
        }
        i += 1;
    }
    if out.len() == 0 {
        proof {
            assert forall|i: int| 0 <= i < lines(text@).len() implies slug_of(#[trigger] lines(text@)[i]) is None by {
                if slug_of(lv[i]) is Some {
                    let x = slug_of(lv[i])->0;
                    assert(exists|j: int| 0 <= j < lv.len() && slug_of(#[trigger] lv[j]) == Some(x));
                    assert(texts(out@).contains(x));
                }
            }
        }
        return Err(NoSlugs::Empty);
    }
    Ok(out)
}

/// Findings for the directories under `vendor/` the pin does not list.
pub open spec fn vendor_dir_findings(pin: Seq<Source>, dirs: Seq<Seq<char>>, k: int) -> Seq<FindingView>
    decreases k,
{
    if k <= 0 {
        Seq::empty()
    } else {
        vendor_dir_findings(pin, dirs, k - 1) + flag(
            crate::load::find_by_id(pin, dirs[k - 1], pin.len() as int) < 0,
            FindingView::UnpinnedVendorDir(dirs[k - 1]),
        )
    }
}

/// Every directory under `vendor/` is pinned: a tree nobody declared cannot
/// sit in the repo quoted by nothing and checked by nothing. `dirs` names
/// the directories.
#[verifier::spinoff_prover]
pub fn check_vendor_dirs(pin: &Pin, dirs: &Vec<String>, diag: &mut Diagnostics)
    ensures
        findings_view(final(diag).errors@) == findings_view(old(diag).errors@) + vendor_dir_findings(pin.sources@, texts(dirs@), dirs@.len() as int),
        final(diag).warnings@ == old(diag).warnings@,
{
    let ghost e0 = findings_view(diag.errors@);
    let mut k: usize = 0;
    while k < dirs.len()
        invariant
            k <= dirs@.len(),
            findings_view(diag.errors@) == e0 + vendor_dir_findings(pin.sources@, texts(dirs@), k as int),
            diag.warnings@ == old(diag).warnings@,
        decreases dirs@.len() - k,
    {
        let ghost d0 = findings_view(diag.errors@);
        assert(texts(dirs@)[k as int] == dirs@[k as int]@);
        if pin.find_id(dirs[k].as_str()).is_none() {
            diag.error(Finding::UnpinnedVendorDir { name: copy_text(&dirs[k]) });
            assert(findings_view(diag.errors@) =~= d0.push(finding_view(diag.errors@.last())));
        } else {
            assert(findings_view(diag.errors@) =~= d0 + Seq::<FindingView>::empty());
        }
        k += 1;
    }
}

/// What the pin asks of a source with this role, in words.
pub open spec fn promise(role: Role) -> Seq<char> {
    match role {
        Role::Coverage => "every line claimed"@,
        Role::Narrative => "annotated where the story goes"@,
        Role::Glossary => "quoted, never claimed"@,
    }
}

/// What the pin asks of a source with this role, in words.
pub fn role_promise(role: Role) -> (s: &'static str)
    ensures
        s@ == promise(role),
{
    match role {
        Role::Coverage => "every line claimed",
        Role::Narrative => "annotated where the story goes",
        Role::Glossary => "quoted, never claimed",
    }
}

/// The last position at or before `k` where `pat` occurs in `s`, or -1.
pub open spec fn rfind(s: Seq<char>, pat: Seq<char>, k: int) -> int
    decreases k + 1,
{
    if k < 0 {
        -1
    } else if crate::text::occurs_at(s, pat, k) {
        k
    } else {
        rfind(s, pat, k - 1)
    }
}

/// What follows the last `::` of an id, or the whole id.
pub open spec fn last_segment(s: Seq<char>) -> Seq<char> {
    let p = rfind(s, seq![':', ':'], s.len() - 2);
    if p >= 0 {
        s.skip(p + 2)
    } else {
        s
    }
}

pub(crate) fn last_segment_of(s: &String) -> (r: String)
    ensures
        r@ == last_segment(s@),
{
    let c = chars_of(s.as_str());
    let n = c.len();
    if n < 2 {
        assert(rfind(s@, seq![':', ':'], s@.len() - 2) == -1);
        return string_of(c.as_slice());
    }
    let mut k: usize = n - 2;
    loop
        invariant
            n == c@.len(),
            c@ == s@,
            n >= 2,
            k <= n - 2,
            rfind(s@, seq![':', ':'], s@.len() - 2) == rfind(s@, seq![':', ':'], k as int),
        decreases k,
    {
        if c[k] == ':' && c[k + 1] == ':' {
            assert(s@.subrange(k as int, k + 2) =~= seq![':', ':']);
            let t = crate::text::copy_range(c.as_slice(), k + 2, n);
            assert(t@ =~= s@.skip(k + 2));
            return string_of(t.as_slice());
        }
        assert(!crate::text::occurs_at(s@, seq![':', ':'], k as int)) by {
            if s@.subrange(k as int, k + 2) == seq![':', ':'] {
                assert(s@.subrange(k as int, k + 2)[0] == s@[k as int]);
                assert(s@.subrange(k as int, k + 2)[1] == s@[k + 1]);
            }
        }
        if k == 0 {
            assert(rfind(s@, seq![':', ':'], -1) == -1);
            return string_of(c.as_slice());
        }
        k -= 1;
    }
}

pub open spec fn item_ids(items: Seq<GlossaryItem>) -> Seq<Seq<char>> {
    items.map_values(|g: GlossaryItem| g.entry.id@)
}

/// What the glossary check reports for item `k`'s own entry.
pub open spec fn item_findings(items: Seq<GlossaryItem>, k: int) -> Seq<FindingView> {
    let e = items[k].entry;
    let name = last_segment(e.id@);
    flag(item_ids(items).take(k).contains(e.id@), FindingView::DuplicateGlossary(e.id@))
        + flag(trim(e.title@).len() == 0, FindingView::EmptyGlossaryTitle(e.id@))
        + flag(trim(e.body@).len() == 0, FindingView::EmptyGlossaryBody(e.id@))
        + flag(trim(items[k].quoted@).len() == 0, FindingView::BlankQuote(e.id@, e.file@, e.lines@))
        + flag(!declares_spec(items[k].quoted@, name), FindingView::NotDeclared(e.id@, e.file@, e.lines@, name))
}

pub open spec fn entries_findings(items: Seq<GlossaryItem>, k: int) -> Seq<FindingView>
    decreases k,
{
    if k <= 0 {
        Seq::empty()
    } else {
        entries_findings(items, k - 1) + item_findings(items, k - 1)
    }
}

/// Findings for `see_also` links that name no entry.
pub open spec fn see_also_findings(id: Seq<char>, others: Seq<Seq<char>>, ids: Seq<Seq<char>>) -> Seq<FindingView>
    decreases others.len(),
{
    if others.len() == 0 {
        Seq::empty()
    } else {
        see_also_findings(id, others.drop_last(), ids) + flag(!ids.contains(others.last()), FindingView::UnknownSeeAlso(id, others.last()))
    }
}

pub open spec fn links_findings(items: Seq<GlossaryItem>, k: int) -> Seq<FindingView>
    decreases k,
{
    if k <= 0 {
        Seq::empty()
    } else {
        links_findings(items, k - 1) + see_also_findings(items[k - 1].entry.id@, texts(items[k - 1].entry.see_also@), item_ids(items))
    }
}

fn is_blank(s: &String) -> (r: bool)
    ensures
        r == (trim(s@).len() == 0),
{
    trimmed(chars_of(s.as_str()).as_slice()).len() == 0
}

fn seen_before(items: &Vec<GlossaryItem>, k: usize) -> (r: bool)
    requires
        k < items@.len(),
    ensures
        r == item_ids(items@).take(k as int).contains(items@[k as int].entry.id@),
{
    let id = &items[k].entry.id;
    let mut seen = false;
    let mut j: usize = 0;
    while j < k
        invariant
            j <= k < items@.len(),
            *id == items@[k as int].entry.id,
            seen == item_ids(items@).take(j as int).contains(id@),
        decreases k - j,
    {
        proof {
            crate::coverage::lemma_push_contains(item_ids(items@).take(j as int), item_ids(items@)[j as int], id@);
            assert(item_ids(items@).take(j + 1) =~= item_ids(items@).take(j as int).push(item_ids(items@)[j as int]));
        }
        if crate::text::str_eq(items[j].entry.id.as_str(), id.as_str()) {
            seen = true;
        }
        j += 1;
    }
    seen
}

/// What one entry says of itself.
pub open spec fn entry_text_findings(e: crate::schema::GlossaryEntry, quoted: Seq<char>) -> Seq<FindingView> {
    let name = last_segment(e.id@);
    flag(trim(e.title@).len() == 0, FindingView::EmptyGlossaryTitle(e.id@))
        + flag(trim(e.body@).len() == 0, FindingView::EmptyGlossaryBody(e.id@))
        + flag(trim(quoted).len() == 0, FindingView::BlankQuote(e.id@, e.file@, e.lines@))
        + flag(!declares_spec(quoted, name), FindingView::NotDeclared(e.id@, e.file@, e.lines@, name))
}

#[verifier::spinoff_prover]
fn check_entry_text(e: &crate::schema::GlossaryEntry, quoted: &String, diag: &mut Diagnostics)
    ensures
        findings_view(final(diag).errors@) == findings_view(old(diag).errors@) + entry_text_findings(*e, quoted@),
        final(diag).warnings@ == old(diag).warnings@,
{
    let ghost d1 = findings_view(diag.errors@);
    if is_blank(&e.title) {
        diag.error(Finding::EmptyGlossaryTitle { id: copy_text(&e.id) });
    }
    let ghost d2 = findings_view(diag.errors@);
    let ghost p2 = flag(trim(e.title@).len() == 0, FindingView::EmptyGlossaryTitle(e.id@));
    assert(d2 =~= d1 + p2);
    if is_blank(&e.body) {
        diag.error(Finding::EmptyGlossaryBody { id: copy_text(&e.id) });
    }
    let ghost d3 = findings_view(diag.errors@);
    let ghost p3 = flag(trim(e.body@).len() == 0, FindingView::EmptyGlossaryBody(e.id@));
    assert(d3 =~= d2 + p3);
    if is_blank(quoted) {
        diag.error(Finding::BlankQuote { id: copy_text(&e.id), file: copy_text(&e.file), lines: copy_text(&e.lines) });
    }
    let ghost d4 = findings_view(diag.errors@);
    let ghost p4 = flag(trim(quoted@).len() == 0, FindingView::BlankQuote(e.id@, e.file@, e.lines@));
    assert(d4 =~= d3 + p4);
    let name = last_segment_of(&e.id);
    if !declares(quoted.as_str(), name.as_str()) {
        diag.error(Finding::NotDeclared { id: copy_text(&e.id), file: copy_text(&e.file), lines: copy_text(&e.lines), name });
    }
    let ghost d5 = findings_view(diag.errors@);
    let ghost p5 = flag(!declares_spec(quoted@, last_segment(e.id@)), FindingView::NotDeclared(e.id@, e.file@, e.lines@, last_segment(e.id@)));
    assert(d5 =~= d4 + p5);
    assert(d5 =~= d1 + (p2 + p3 + p4 + p5));
}

#[verifier::spinoff_prover]
fn check_entry(items: &Vec<GlossaryItem>, k: usize, diag: &mut Diagnostics)
    requires
        k < items@.len(),
    ensures
        findings_view(final(diag).errors@) == findings_view(old(diag).errors@) + item_findings(items@, k as int),
        final(diag).warnings@ == old(diag).warnings@,
{
    let ghost e0 = findings_view(diag.errors@);
    let e = &items[k].entry;
    let seen = seen_before(items, k);
    let ghost f1 = flag(item_ids(items@).take(k as int).contains(e.id@), FindingView::DuplicateGlossary(e.id@));
    if seen {
        diag.error(Finding::DuplicateGlossary { id: copy_text(&e.id) });
    }
    let ghost d1 = findings_view(diag.errors@);
    assert(d1 =~= e0 + f1);
    check_entry_text(e, &items[k].quoted, diag);
    assert(findings_view(diag.errors@) =~= e0 + (f1 + entry_text_findings(*e, items@[k as int].quoted@)));
}

#[verifier::spinoff_prover]
fn check_links(items: &Vec<GlossaryItem>, ids: &Vec<String>, k: usize, diag: &mut Diagnostics)
    requires
        k < items@.len(),
        texts(ids@) == item_ids(items@),
    ensures
        findings_view(final(diag).errors@) == findings_view(old(diag).errors@) + see_also_findings(items@[k as int].entry.id@, texts(items@[k as int].entry.see_also@), item_ids(items@)),
        final(diag).warnings@ == old(diag).warnings@,
{
    let ghost e0 = findings_view(diag.errors@);
    let e = &items[k].entry;
    let ghost sv = texts(e.see_also@);
    let mut j: usize = 0;
    while j < e.see_also.len()
        invariant
            j <= e.see_also@.len(),
            sv == texts(e.see_also@),
            texts(ids@) == item_ids(items@),
            findings_view(diag.errors@) == e0 + see_also_findings(e.id@, sv.take(j as int), item_ids(items@)),
            diag.warnings@ == old(diag).warnings@,
        decreases e.see_also@.len() - j,
    {
        assert(sv.take(j + 1).drop_last() =~= sv.take(j as int));
        assert(sv.take(j + 1).last() == e.see_also@[j as int]@);
        let ghost d0 = findings_view(diag.errors@);
        if !contains_text(ids, e.see_also[j].as_str()) {
            diag.error(Finding::UnknownSeeAlso { id: copy_text(&e.id), other: copy_text(&e.see_also[j]) });
            assert(findings_view(diag.errors@) =~= d0.push(finding_view(diag.errors@.last())));
        } else {
            assert(findings_view(diag.errors@) =~= d0 + Seq::<FindingView>::empty());
        }
        j += 1;
    }
    assert(sv.take(j as int) =~= sv);
}

/// The glossary's consistency, entry by entry: each id once, a title and
/// a body, a quotation that is not blank and that declares the name the id
/// ends in (a range that lands in the rustdoc above a definition still
/// resolves, and reads as one); then every `see_also` link names an entry.
/// Returns the ids.
pub fn check_glossary_items(items: &Vec<GlossaryItem>, diag: &mut Diagnostics) -> (ids: Vec<String>)
    ensures
        texts(ids@) == item_ids(items@),
        findings_view(final(diag).errors@) == findings_view(old(diag).errors@) + entries_findings(items@, items@.len() as int)
            + links_findings(items@, items@.len() as int),
        final(diag).warnings@ == old(diag).warnings@,
{
    let ghost e0 = findings_view(diag.errors@);
    let mut ids: Vec<String> = Vec::new();
    let mut k: usize = 0;
    while k < items.len()
        invariant
            k <= items@.len(),
            texts(ids@) == item_ids(items@).take(k as int),
            findings_view(diag.errors@) == e0 + entries_findings(items@, k as int),
            diag.warnings@ == old(diag).warnings@,
        decreases items@.len() - k,
    {
        check_entry(items, k, diag);
        let ghost i0 = texts(ids@);
        ids.push(copy_text(&items[k].entry.id));
        assert(texts(ids@) =~= item_ids(items@).take(k + 1)) by {
            assert(texts(ids@) =~= i0.push(items@[k as int].entry.id@));
        }
        k += 1;
    }
    assert(item_ids(items@).take(k as int) =~= item_ids(items@));
    let ghost e1 = findings_view(diag.errors@);
    let mut j: usize = 0;
    while j < items.len()
        invariant
            j <= items@.len(),
            texts(ids@) == item_ids(items@),
            findings_view(diag.errors@) == e1 + links_findings(items@, j as int),
            diag.warnings@ == old(diag).warnings@,
        decreases items@.len() - j,
    {
        check_links(items, &ids, j, diag);
        j += 1;
    }
    ids
}

/// How many items quote each source, for the first `k` items.
pub open spec fn count_source(items: Seq<GlossaryItem>, sid: Seq<char>, k: int) -> int
    decreases k,
{
    if k <= 0 {
        0
    } else {
        count_source(items, sid, k - 1) + if items[k - 1].source_id@ == sid { 1int } else { 0int }
    }
}

/// The quoted lines of the first `k` items.
pub open spec fn quoted_lines(items: Seq<GlossaryItem>, k: int) -> int
    decreases k,
{
    if k <= 0 {
        0
    } else {
        quoted_lines(items, k - 1) + (items[k - 1].range.end - items[k - 1].range.start + 1)
    }
}

proof fn lemma_count_bound(items: Seq<GlossaryItem>, sid: Seq<char>, k: int)
    requires
        0 <= k,
    ensures
        0 <= count_source(items, sid, k) <= k,
    decreases k,
{
    if k > 0 {
        lemma_count_bound(items, sid, k - 1);
    }
}

pub open spec fn key_names(v: Seq<(String, usize)>) -> Seq<Seq<char>> {
    v.map_values(|p: (String, usize)| p.0@)
}

proof fn lemma_quoted_grows(items: Seq<GlossaryItem>, j: int, k: int)
    requires
        0 <= j <= k <= items.len(),
        forall|i: int| 0 <= i < items.len() ==> (#[trigger] items[i]).range.start <= items[i].range.end,
    ensures
        0 <= quoted_lines(items, j) <= quoted_lines(items, k),
    decreases k,
{
    if j < k {
        lemma_quoted_grows(items, j, k - 1);
    } else if k > 0 {
        lemma_quoted_grows(items, k - 1, k - 1);
    }
}

/// The glossary in numbers: by source id, ascending, how many entries quote
/// it; and how many lines are quoted in all.
pub fn glossary_summary(items: &Vec<GlossaryItem>) -> (r: (Vec<(String, usize)>, u64))
    requires
        forall|k: int| 0 <= k < items@.len() ==> (#[trigger] items@[k]).range.start <= items@[k].range.end,
        quoted_lines(items@, items@.len() as int) <= u64::MAX,
    ensures
        crate::cycle::ascending(key_names(r.0@)),
        forall|x: Seq<char>| #[trigger] key_names(r.0@).contains(x) <==> exists|k: int| 0 <= k < items@.len() && (#[trigger] items@[k]).source_id@ == x,
        forall|j: int| 0 <= j < r.0@.len() ==> (#[trigger] r.0@[j]).1 == count_source(items@, r.0@[j].0@, items@.len() as int),
        r.1 == quoted_lines(items@, items@.len() as int),
{
    let mut keys: Vec<String> = Vec::new();
    let mut quoted: u64 = 0;
    let mut k: usize = 0;
    while k < items.len()
        invariant
            k <= items@.len(),
            forall|k: int| 0 <= k < items@.len() ==> (#[trigger] items@[k]).range.start <= items@[k].range.end,
            crate::cycle::ascending(texts(keys@)),
            forall|x: Seq<char>| texts(keys@).contains(x) <==> exists|j: int| 0 <= j < k && (#[trigger] items@[j]).source_id@ == x,
            quoted == quoted_lines(items@, k as int),
            quoted_lines(items@, items@.len() as int) <= u64::MAX,
        decreases items@.len() - k,
    {
        crate::cycle::insert_sorted(&mut keys, &items[k].source_id);
        proof {
            assert forall|x: Seq<char>| texts(keys@).contains(x) <==> exists|j: int| 0 <= j < k + 1 && (#[trigger] items@[j]).source_id@ == x by {
                if x == items@[k as int].source_id@ {
                    assert(0 <= k < k + 1);
                }
            }
            lemma_quoted_grows(items@, k + 1, items@.len() as int);
        }
        let r = items[k].range;
        quoted = quoted + (r.end - r.start) as u64 + 1;
        k += 1;
    }
    let mut out: Vec<(String, usize)> = Vec::new();
    let mut j: usize = 0;
    while j < keys.len()
        invariant
            j <= keys@.len(),
            key_names(out@) == texts(keys@).take(j as int),
            crate::cycle::ascending(texts(keys@)),
            forall|x: Seq<char>| texts(keys@).contains(x) <==> exists|j: int| 0 <= j < items@.len() && (#[trigger] items@[j]).source_id@ == x,
            forall|i: int| 0 <= i < out@.len() ==> (#[trigger] out@[i]).1 == count_source(items@, out@[i].0@, items@.len() as int),
        decreases keys@.len() - j,
    {
        let mut n: usize = 0;
        let mut t: usize = 0;
        while t < items.len()
            invariant
                t <= items@.len(),
                j < keys@.len(),
                n == count_source(items@, keys@[j as int]@, t as int),
            decreases items@.len() - t,
        {
            proof {
                lemma_count_bound(items@, keys@[j as int]@, t as int);
            }
            if crate::text::str_eq(items[t].source_id.as_str(), keys[j].as_str()) {
                n += 1;
            }
            t += 1;
        }
        let ghost o0 = key_names(out@);
        out.push((copy_text(&keys[j]), n));
        assert(key_names(out@) =~= texts(keys@).take(j + 1)) by {
            assert(key_names(out@) =~= o0.push(keys@[j as int]@));
        }
        j += 1;
    }
    assert(texts(keys@).take(j as int) =~= texts(keys@));
    (out, quoted)
}

} // verus!
