//! Moving the pinned source on purpose: the command line of a bump, and the
//! plan it makes before touching anything.
//!
//! Every annotation is keyed to `(file, line-range)` in a pinned tree, so a
//! dependency update must carry the ranges across. The plan does what can be
//! done mechanically and is loud about what cannot: prose describing code
//! that changed underneath it.
use crate::schema::LineRange;
use crate::text::{
    chars_of, decimal, decimal_chars, find, find_in, lemma_lex_irreflexive, lemma_lex_total,
    lemma_lex_transitive, lex_less, lex_lt, lines, replace_all, replace_in, split_lines, str_eq,
    string_of, views,
};
use crate::vendor::{source_id_spec, Source};
use vstd::prelude::*;

verus! {

/// What `bump` was asked to do.
#[derive(Debug)]
pub struct Options {
    pub version: String,
    /// The pinned source to move, by name; the primary one when absent.
    pub source: Option<String>,
    /// A local `.crate` archive to use instead of downloading one.
    pub archive: Option<String>,
    /// Expected sha256 of the archive; fetched from the index when absent.
    pub sha256: Option<String>,
    pub dry_run: bool,
    /// Permit dropping annotations whose lines no longer exist.
    pub allow_orphans: bool,
    /// Leave the outgoing vendored directory in place.
    pub keep_old: bool,
}

/// Why the arguments were refused.
#[derive(Debug)]
pub enum ArgError {
    /// A flag that takes a value came last.
    MissingValue { flag: String },
    /// A `-`-prefixed argument that is no flag of `bump`.
    UnknownFlag { flag: String },
    /// A second positional argument.
    Unexpected { arg: String },
    /// No version was given.
    Usage,
}

/// The options as plain values.
pub struct OptionsView {
    pub version: Seq<char>,
    pub source: Option<Seq<char>>,
    pub archive: Option<Seq<char>>,
    pub sha256: Option<Seq<char>>,
    pub dry_run: bool,
    pub allow_orphans: bool,
    pub keep_old: bool,
}

/// What stopped the parse, as plain values.
pub enum ArgFault {
    MissingValue(Seq<char>),
    UnknownFlag(Seq<char>),
    Unexpected(Seq<char>),
    Usage,
}

pub open spec fn opt_seq(o: Option<String>) -> Option<Seq<char>> {
    match o {
        Some(s) => Some(s@),
        None => None,
    }
}

pub open spec fn options_view(o: Options) -> OptionsView {
    OptionsView {
        version: o.version@,
        source: opt_seq(o.source),
        archive: opt_seq(o.archive),
        sha256: opt_seq(o.sha256),
        dry_run: o.dry_run,
        allow_orphans: o.allow_orphans,
        keep_old: o.keep_old,
    }
}

pub open spec fn arg_fault(e: ArgError) -> ArgFault {
    match e {
        ArgError::MissingValue { flag } => ArgFault::MissingValue(flag@),
        ArgError::UnknownFlag { flag } => ArgFault::UnknownFlag(flag@),
        ArgError::Unexpected { arg } => ArgFault::Unexpected(arg@),
        ArgError::Usage => ArgFault::Usage,
    }
}

/// Reads the arguments from position `i` on, with the options so far.
/// Flags may come in any order; the first positional argument is the
/// version, and a second is refused.
pub open spec fn parse_from(args: Seq<Seq<char>>, i: int, o: OptionsView) -> Result<OptionsView, ArgFault>
    decreases args.len() - i,
{
    if i < 0 || i >= args.len() {
        if o.version.len() == 0 {
            Err(ArgFault::Usage)
        } else {
            Ok(o)
        }
    } else {
        let a = args[i];
        if a == "--dry-run"@ {
            parse_from(args, i + 1, OptionsView { dry_run: true, ..o })
        } else if a == "--allow-orphans"@ {
            parse_from(args, i + 1, OptionsView { allow_orphans: true, ..o })
        } else if a == "--keep-old"@ {
            parse_from(args, i + 1, OptionsView { keep_old: true, ..o })
        } else if a == "--source"@ {
            if i + 1 < args.len() {
                parse_from(args, i + 2, OptionsView { source: Some(args[i + 1]), ..o })
            } else {
                Err(ArgFault::MissingValue("--source"@))
            }
        } else if a == "--archive"@ {
            if i + 1 < args.len() {
                parse_from(args, i + 2, OptionsView { archive: Some(args[i + 1]), ..o })
            } else {
                Err(ArgFault::MissingValue("--archive"@))
            }
        } else if a == "--sha256"@ {
            if i + 1 < args.len() {
                parse_from(args, i + 2, OptionsView { sha256: Some(args[i + 1]), ..o })
            } else {
                Err(ArgFault::MissingValue("--sha256"@))
            }
        } else if a.len() > 0 && a[0] == '-' {
            Err(ArgFault::UnknownFlag(a))
        } else if o.version.len() == 0 {
            parse_from(args, i + 1, OptionsView { version: a, ..o })
        } else {
            Err(ArgFault::Unexpected(a))
        }
    }
}

/// No options given yet.
pub open spec fn no_options() -> OptionsView {
    OptionsView {
        version: Seq::empty(),
        source: None,
        archive: None,
        sha256: None,
        dry_run: false,
        allow_orphans: false,
        keep_old: false,
    }
}

fn copy_str(s: &String) -> (r: String)
    ensures
        r@ == s@,
{
    string_of(chars_of(s.as_str()).as_slice())
}

/// Parses `bump`'s arguments: `[--source NAME] <version> [--dry-run]
/// [--allow-orphans] [--keep-old] [--archive PATH] [--sha256 HEX]`.
pub fn parse_args(args: &[String]) -> (r: Result<Options, ArgError>)
    ensures
        match r {
            Ok(o) => parse_from(args@.map_values(|s: String| s@), 0, no_options()) == Ok::<OptionsView, ArgFault>(options_view(o)),
            Err(e) => parse_from(args@.map_values(|s: String| s@), 0, no_options()) == Err::<OptionsView, ArgFault>(arg_fault(e)),
        },
{
    let ghost av = args@.map_values(|s: String| s@);
    let mut opts = Options {
        version: String::new(),
        source: None,
        archive: None,
        sha256: None,
        dry_run: false,
        allow_orphans: false,
        keep_old: false,
    };
    assert(options_view(opts) == no_options());
    let mut i: usize = 0;
    while i < args.len()
        invariant
            i <= args@.len(),
            av == args@.map_values(|s: String| s@),
            parse_from(av, 0, no_options()) == parse_from(av, i as int, options_view(opts)),
        decreases args@.len() - i,
    {
        let a = args[i].as_str();
        assert(av[i as int] == a@);
        if crate::text::str_eq(a, "--dry-run") {
            opts.dry_run = true;
            i += 1;
        } else if crate::text::str_eq(a, "--allow-orphans") {
            opts.allow_orphans = true;
            i += 1;
        } else if crate::text::str_eq(a, "--keep-old") {
            opts.keep_old = true;
            i += 1;
        } else if crate::text::str_eq(a, "--source") {
            if i + 1 >= args.len() {
                return Err(ArgError::MissingValue { flag: string_of(chars_of("--source").as_slice()) });
            }
            assert(av[i + 1] == args@[i + 1]@);
            opts.source = Some(copy_str(&args[i + 1]));
            i += 2;
        } else if crate::text::str_eq(a, "--archive") {
            if i + 1 >= args.len() {
                return Err(ArgError::MissingValue { flag: string_of(chars_of("--archive").as_slice()) });
            }
            assert(av[i + 1] == args@[i + 1]@);
            opts.archive = Some(copy_str(&args[i + 1]));
            i += 2;
        } else if crate::text::str_eq(a, "--sha256") {
            if i + 1 >= args.len() {
                return Err(ArgError::MissingValue { flag: string_of(chars_of("--sha256").as_slice()) });
            }
            assert(av[i + 1] == args@[i + 1]@);
            opts.sha256 = Some(copy_str(&args[i + 1]));
            i += 2;
        } else {
            let ac = chars_of(a);
            if ac.len() > 0 && ac[0] == '-' {
                return Err(ArgError::UnknownFlag { flag: string_of(ac.as_slice()) });
            }
            if opts.version.as_str().unicode_len() == 0 {
                opts.version = string_of(ac.as_slice());
                i += 1;
            } else {
                return Err(ArgError::Unexpected { arg: string_of(ac.as_slice()) });
            }
        }
    }
    if opts.version.as_str().unicode_len() == 0 {
        return Err(ArgError::Usage);
    }
    Ok(opts)
}

/// The crates.io sparse index path for an ASCII crate name: `1/a`, `2/ab`,
/// `3/a/abc`, or `se/rd/serde_core`.
pub open spec fn index_path_spec(name: Seq<char>) -> Seq<char> {
    if name.len() == 1 {
        seq!['1', '/'] + name
    } else if name.len() == 2 {
        seq!['2', '/'] + name
    } else if name.len() == 3 {
        seq!['3', '/'] + name.take(1) + seq!['/'] + name
    } else {
        name.take(2) + seq!['/'] + name.subrange(2, 4) + seq!['/'] + name
    }
}

/// The crates.io sparse index path for a crate name. Crate names are ASCII,
/// and not empty.
pub fn index_path(name: &str) -> (r: String)
    requires
        name@.len() > 0,
        forall|i: int| 0 <= i < name@.len() ==> (name@[i] as u32) < 128,
    ensures
        r@ == index_path_spec(name@),
{
    let n = chars_of(name);
    let mut out: Vec<char> = Vec::new();
    if n.len() == 1 {
        out.push('1');
        out.push('/');
    } else if n.len() == 2 {
        out.push('2');
        out.push('/');
    } else if n.len() == 3 {
        out.push('3');
        out.push('/');
        out.push(n[0]);
        out.push('/');
    } else {
        out.push(n[0]);
        out.push(n[1]);
        out.push('/');
        out.push(n[2]);
        out.push(n[3]);
        out.push('/');
    }
    let ghost o0 = out@;
    let mut k: usize = 0;
    while k < n.len()
        invariant
            k <= n@.len(),
            out@ == o0 + n@.take(k as int),
        decreases n@.len() - k,
    {
        out.push(n[k]);
        k += 1;
        assert(n@.take(k as int) =~= n@.take(k - 1).push(n@[k - 1]));
    }
    assert(n@.take(k as int) =~= n@);
    assert(out@ =~= index_path_spec(name@));
    string_of(out.as_slice())
}

/// A line range as the store writes it: `7`, or `7-9`.
pub open spec fn range_text(r: LineRange) -> Seq<char> {
    if r.start == r.end {
        decimal(r.start as nat)
    } else {
        decimal(r.start as nat) + seq!['-'] + decimal(r.end as nat)
    }
}

/// A decimal numeral is a non-empty run of digits that reads back as its
/// number.
proof fn lemma_decimal(n: nat)
    ensures
        decimal(n).len() >= 1,
        crate::text::all_digits(decimal(n)),
        crate::text::digits_value(decimal(n)) == n,
    decreases n,
{
    if n >= 10 {
        lemma_decimal(n / 10);
        let d = decimal(n);
        assert(d.drop_last() =~= decimal(n / 10));
        assert(d.last() == crate::text::digit_char((n % 10) as int));
        assert(crate::text::digit_char((n % 10) as int) as int == (n % 10) + 48);
        assert(n == (n / 10) * 10 + n % 10);
        assert(('0' as int) == 48);
        assert(crate::text::digits_value(d) == crate::text::digits_value(d.drop_last()) * 10 + (d.last() as int - '0' as int));
    } else {
        assert(crate::text::digit_char(n as int) as int == n + 48);
        assert(decimal(n).drop_last() =~= Seq::<char>::empty());
        assert(('0' as int) == 48);
        assert(crate::text::digits_value(decimal(n)) == crate::text::digits_value(decimal(n).drop_last()) * 10
            + (decimal(n).last() as int - '0' as int));
    }
}

/// A numeral of a line number is its own trim, holds no `-`, and parses
/// as that number.
proof fn lemma_numeral(n: u32)
    ensures
        crate::text::trim(decimal(n as nat)) == decimal(n as nat),
        forall|i: int| 0 <= i < decimal(n as nat).len() ==> #[trigger] decimal(n as nat)[i] != '-',
        crate::text::parse_u32_spec(decimal(n as nat)) == Some(n),
{
    let d = decimal(n as nat);
    lemma_decimal(n as nat);
    assert('0' <= d[0] && d[0] <= '9');
    assert('0' <= d.last() && d.last() <= '9');
    crate::text::lemma_trim_start(d, 0);
    assert(d.skip(0) =~= d);
    crate::text::lemma_trim_end(d, d.len() as int);
    assert(d.take(d.len() as int) =~= d);
    assert forall|i: int| 0 <= i < d.len() implies #[trigger] d[i] != '-' by {
        assert('0' <= d[i] && d[i] <= '9');
    }
}

/// A range written as the store writes it reads back as the same range,
/// and its text has no `-` exactly when it is a single line.
pub proof fn law_a_written_range_reads_back(r: LineRange)
    requires
        r.wf(),
    ensures
        crate::schema::parse_range_spec(range_text(r)) == Ok::<LineRange, crate::schema::RangeError>(r),
        (forall|i: int| 0 <= i < range_text(r).len() ==> #[trigger] range_text(r)[i] != '-') <==> r.start == r.end,
{
    let a = decimal(r.start as nat);
    let b = decimal(r.end as nat);
    lemma_numeral(r.start);
    lemma_numeral(r.end);
    let t = range_text(r);
    if r.start == r.end {
        crate::text::lemma_first_of(t, '-', t.len() as int);
    } else {
        assert(t == a + seq!['-'] + b);
        assert(t[a.len() as int] == '-');
        crate::text::lemma_first_of(t, '-', a.len() as int);
        assert(t.take(a.len() as int) =~= a);
        assert(t.skip(a.len() as int + 1) =~= b);
    }
}

/// A line range as the store writes it; a single line stays single.
pub fn fmt_range(r: LineRange) -> (s: String)
    ensures
        s@ == range_text(r),
{
    let t = crate::coverage::fmt_gap(r.start, r.end);
    assert(t@ == crate::coverage::gap_text(r.start, r.end));
    t
}


/// Appends the characters of `s` to `v`.
fn push_str(v: &mut Vec<char>, s: &str)
    ensures
        final(v)@ == old(v)@ + s@,
{
    let mut t = chars_of(s);
    v.append(&mut t);
}

/// The notice that sits beside the vendored tree.
pub open spec fn notice_text(s: Source) -> Seq<char> {
    let id = source_id_spec(s.name@, s.version@);
    "# Vendored third-party source\n\n## "@ + s.name@ + " "@ + s.version@
        + "\n\n- Upstream: https://github.com/serde-rs/serde\n- crates.io: https://crates.io/crates/"@
        + s.name@ + "/"@ + s.version@ + "\n- sha256: `"@ + s.crate_sha256@
        + "`\n- License: MIT OR Apache-2.0 (see `"@ + id + "/LICENSE-MIT`\n  and `"@ + id
        + "/LICENSE-APACHE`)\n- Copyright: Erick Tryzelaar and David Tolnay\n\nThis directory contains an **unmodified** copy of the published crate, vendored\nso that annotation line-ranges remain stable. It is checksum-verified in CI.\n\nDo not edit anything under `"@
        + id + "/`. All project-authored content\nlives in `annotations/`, `examples/`, `app/`, and `xtask/`.\n"@
}

/// The notice written beside a newly pinned tree: where it came from, its
/// checksum and licence, and that it is not to be edited.
pub fn notice(source: &Source) -> (r: String)
    ensures
        r@ == notice_text(*source),
{
    let id = source.source_id();
    let mut v: Vec<char> = Vec::new();
    push_str(&mut v, "# Vendored third-party source\n\n## ");
    push_str(&mut v, source.name.as_str());
    push_str(&mut v, " ");
    push_str(&mut v, source.version.as_str());
    push_str(&mut v, "\n\n- Upstream: https://github.com/serde-rs/serde\n- crates.io: https://crates.io/crates/");
    push_str(&mut v, source.name.as_str());
    push_str(&mut v, "/");
    push_str(&mut v, source.version.as_str());
    push_str(&mut v, "\n- sha256: `");
    push_str(&mut v, source.crate_sha256.as_str());
    push_str(&mut v, "`\n- License: MIT OR Apache-2.0 (see `");
    push_str(&mut v, id.as_str());
    push_str(&mut v, "/LICENSE-MIT`\n  and `");
    push_str(&mut v, id.as_str());
    push_str(&mut v, "/LICENSE-APACHE`)\n- Copyright: Erick Tryzelaar and David Tolnay\n\nThis directory contains an **unmodified** copy of the published crate, vendored\nso that annotation line-ranges remain stable. It is checksum-verified in CI.\n\nDo not edit anything under `");
    push_str(&mut v, id.as_str());
    push_str(&mut v, "/`. All project-authored content\nlives in `annotations/`, `examples/`, `app/`, and `xtask/`.\n");
    string_of(v.as_slice())
}

/// How an example crate pins the annotated crate: `name = "=version"`.
pub open spec fn example_pin(name: Seq<char>, version: Seq<char>) -> Seq<char> {
    name + " = \"="@ + version + "\""@
}

fn example_pin_chars(name: &str, version: &str) -> (r: Vec<char>)
    ensures
        r@ == example_pin(name@, version@),
{
    let mut v = chars_of(name);
    push_str(&mut v, " = \"=");
    push_str(&mut v, version);
    push_str(&mut v, "\"");
    v
}

/// An example manifest moved from `old` to `new`: every `name = "=old"`
/// becomes `name = "=new"`; a manifest that does not pin `old` is left
/// alone (`None`). The examples build against the published crate, and one
/// demonstrating a different release than the annotations describe is the
/// drift a bump exists to prevent.
pub fn retarget_example(text: &str, name: &str, old: &str, new: &str) -> (r: Option<String>)
    ensures
        find(text@, example_pin(name@, old@)) is Some ==> (r matches Some(t)
            && t@ == replace_all(text@, example_pin(name@, old@), example_pin(name@, new@))),
        find(text@, example_pin(name@, old@)) is None ==> r is None,
{
    let from = example_pin_chars(name, old);
    let to = example_pin_chars(name, new);
    proof {
        reveal_strlit(" = \"=");
        assert(from@.len() >= " = \"="@.len());
    }
    let t = chars_of(text);
    match find_in(&t, &from) {
        Some(_) => Some(string_of(replace_in(&t, &from, &to).as_slice())),
        None => None,
    }
}

/// A line where the outgoing version is still written out by hand.
#[derive(Debug)]
pub struct Mention {
    /// The file, relative to the repository.
    pub file: String,
    /// 1-based.
    pub line: usize,
    pub text: String,
}

/// A mention as plain values.
pub open spec fn mention_view(m: Mention) -> (Seq<char>, int, Seq<char>) {
    (m.file@, m.line as int, m.text@)
}

/// The mentions as plain values.
pub open spec fn mentions_view(v: Seq<Mention>) -> Seq<(Seq<char>, int, Seq<char>)> {
    v.map_values(|m: Mention| mention_view(m))
}

/// The mentions of `old` among the first `k` lines of a file.
pub open spec fn mentions_spec(file: Seq<char>, ls: Seq<Seq<char>>, old: Seq<char>, k: int) -> Seq<(Seq<char>, int, Seq<char>)>
    decreases k,
{
    if k <= 0 {
        Seq::empty()
    } else if find(ls[k - 1], old) is Some {
        mentions_spec(file, ls, old, k - 1).push((file, k, ls[k - 1]))
    } else {
        mentions_spec(file, ls, old, k - 1)
    }
}

/// Every line of a file that contains `old`, with its 1-based number.
pub fn mentions_in(file: &str, text: &str, old: &str) -> (r: Vec<Mention>)
    ensures
        mentions_view(r@) == mentions_spec(file@, lines(text@), old@, lines(text@).len() as int),
{
    let ls = split_lines(chars_of(text).as_slice());
    let pat = chars_of(old);
    let mut r: Vec<Mention> = Vec::new();
    let mut i: usize = 0;
    while i < ls.len()
        invariant
            i <= ls@.len(),
            views(ls@) == lines(text@),
            pat@ == old@,
            mentions_view(r@) == mentions_spec(file@, lines(text@), old@, i as int),
        decreases ls@.len() - i,
    {
        assert(views(ls@)[i as int] == ls@[i as int]@);
        if find_in(&ls[i], &pat).is_some() {
            let ghost before = mentions_view(r@);
            let m = Mention {
                file: string_of(chars_of(file).as_slice()),
                line: i + 1,
                text: string_of(ls[i].as_slice()),
            };
            r.push(m);
            assert(mentions_view(r@) =~= before.push(mention_view(m)));
        }
        i += 1;
    }
    r
}

/// Directories the scan for stale mentions does not enter: history,
/// build output, the generated site, the vendored trees, and the archive
/// of past migrations, which name the version they moved off on purpose.
pub open spec fn skipped_dir_spec(name: Seq<char>) -> bool {
    name == ".git"@ || name == "target"@ || name == "site"@ || name == "vendor"@ || name == "migrations"@
}

/// Whether the scan for stale mentions skips a directory of this name.
pub fn skipped_dir(name: &str) -> (r: bool)
    ensures
        r == skipped_dir_spec(name@),
{
    str_eq(name, ".git") || str_eq(name, "target") || str_eq(name, "site") || str_eq(name, "vendor")
        || str_eq(name, "migrations")
}

/// Files the scan reads: prose, code and configuration, but not the lock
/// file.
pub open spec fn scanned_spec(name: Seq<char>, extension: Option<Seq<char>>) -> bool {
    &&& name != "Cargo.lock"@
    &&& match extension {
        Some(e) => e == "md"@ || e == "rs"@ || e == "toml"@ || e == "html"@ || e == "yml"@ || e == "yaml"@,
        None => false,
    }
}

/// Whether the scan for stale mentions reads a file with this name and
/// extension.
pub fn scanned_file(name: &str, extension: Option<&str>) -> (r: bool)
    ensures
        r == scanned_spec(name@, match extension {
            Some(e) => Some(e@),
            None => None,
        }),
{
    if str_eq(name, "Cargo.lock") {
        return false;
    }
    match extension {
        Some(e) => str_eq(e, "md") || str_eq(e, "rs") || str_eq(e, "toml") || str_eq(e, "html")
            || str_eq(e, "yml") || str_eq(e, "yaml"),
        None => false,
    }
}

/// The order mentions are listed in: by file, then line, then text.
pub open spec fn mention_lt(a: (Seq<char>, int, Seq<char>), b: (Seq<char>, int, Seq<char>)) -> bool {
    ||| lex_lt(a.0, b.0)
    ||| (a.0 == b.0 && a.1 < b.1)
    ||| (a.0 == b.0 && a.1 == b.1 && lex_lt(a.2, b.2))
}

/// In order: no mention comes after one that sorts before it.
pub open spec fn mentions_sorted(v: Seq<(Seq<char>, int, Seq<char>)>) -> bool {
    forall|i: int, j: int| 0 <= i < j < v.len() ==> !mention_lt(v[j], v[i])
}

proof fn lemma_mention_transitive(a: (Seq<char>, int, Seq<char>), b: (Seq<char>, int, Seq<char>), c: (Seq<char>, int, Seq<char>))
    requires
        mention_lt(a, b),
        mention_lt(b, c),
    ensures
        mention_lt(a, c),
{
    if lex_lt(a.0, b.0) && lex_lt(b.0, c.0) {
        lemma_lex_transitive(a.0, b.0, c.0);
    }
    if a.0 == b.0 && b.0 == c.0 && a.1 == b.1 && b.1 == c.1 && lex_lt(a.2, b.2) && lex_lt(b.2, c.2) {
        lemma_lex_transitive(a.2, b.2, c.2);
    }
}

fn mention_less(a: &Mention, b: &Mention) -> (r: bool)
    ensures
        r == mention_lt(mention_view(*a), mention_view(*b)),
{
    if lex_less(a.file.as_str(), b.file.as_str()) {
        return true;
    }
    if !str_eq(a.file.as_str(), b.file.as_str()) {
        return false;
    }
    if a.line != b.line {
        return a.line < b.line;
    }
    lex_less(a.text.as_str(), b.text.as_str())
}

/// The mentions in order, by file, then line, then text; the same mentions,
/// each as often as it came.
pub fn sort_mentions(v: Vec<Mention>) -> (r: Vec<Mention>)
    ensures
        mentions_sorted(mentions_view(r@)),
        mentions_view(r@).to_multiset() == mentions_view(v@).to_multiset(),
{
    broadcast use vstd::seq_lib::group_to_multiset_ensures;
    let ghost input = mentions_view(v@);
    let mut rest = v;
    let mut out: Vec<Mention> = Vec::new();
    assert(mentions_view(out@) =~= Seq::<(Seq<char>, int, Seq<char>)>::empty());
    assert(mentions_view(out@).to_multiset() =~= vstd::multiset::Multiset::empty());
    while rest.len() > 0
        invariant
            mentions_sorted(mentions_view(out@)),
            mentions_view(out@).to_multiset().add(mentions_view(rest@).to_multiset()) == input.to_multiset(),
        decreases rest@.len(),
    {
        let ghost r0 = mentions_view(rest@);
        let m = rest.pop().unwrap();
        proof {
            assert(r0 =~= mentions_view(rest@).push(mention_view(m)));
        }
        let ghost o0 = mentions_view(out@);
        let mut p: usize = 0;
        while p < out.len() && !mention_less(&m, &out[p])
            invariant
                p <= out@.len(),
                o0 == mentions_view(out@),
                forall|i: int| 0 <= i < p ==> !mention_lt(mention_view(m), #[trigger] o0[i]),
            decreases out@.len() - p,
        {
            p += 1;
        }
        let ghost x = mention_view(m);
        out.insert(p, m);
        proof {
            let t = mentions_view(out@);
            assert(t =~= o0.insert(p as int, x));
            assert forall|i: int, j: int| 0 <= i < j < t.len() implies !mention_lt(t[j], t[i]) by {
                if j < p {
                    assert(t[i] == o0[i] && t[j] == o0[j]);
                } else if j == p {
                    assert(t[i] == o0[i]);
                } else if i < p {
                    assert(t[i] == o0[i] && t[j] == o0[j - 1]);
                    assert(mention_lt(x, o0[p as int]));
                    if mention_lt(o0[j - 1], o0[i]) {
                    } else if mention_lt(o0[j - 1], x) {
                        lemma_mention_transitive(o0[j - 1], x, o0[p as int]);
                    }
                    if mention_lt(t[j], t[i]) {
                        if p < j - 1 {
                            assert(!mention_lt(o0[j - 1], o0[p as int]));
                        }
                        lemma_mention_transitive(o0[j - 1], o0[i], x);
                        lemma_mention_transitive(o0[j - 1], x, o0[p as int]);
                    }
                } else if i == p {
                    assert(t[i] == x && t[j] == o0[j - 1]);
                    assert(mention_lt(x, o0[p as int]));
                    if mention_lt(o0[j - 1], x) {
                        lemma_mention_transitive(o0[j - 1], x, o0[p as int]);
                        if p < j - 1 {
                            assert(!mention_lt(o0[j - 1], o0[p as int]));
                        } else {
                            assert(o0[j - 1] == o0[p as int]);
                            mention_irreflexive(o0[p as int]);
                        }
                    }
                } else {
                    assert(t[i] == o0[i - 1] && t[j] == o0[j - 1]);
                }
            }
            assert(t.remove(p as int) =~= o0);
            assert(t[p as int] == x);
            t.to_multiset_ensures();
            mentions_view(rest@).to_multiset_ensures();
            assert(t.remove(p as int).to_multiset() =~= t.to_multiset().remove(t[p as int]));
            assert(t.contains(x));
            assert(t.to_multiset().count(x) > 0);
            assert(t.to_multiset() =~= o0.to_multiset().insert(x));
            assert(r0.to_multiset() =~= mentions_view(rest@).to_multiset().insert(x));
            assert(t.to_multiset().add(mentions_view(rest@).to_multiset()) =~= o0.to_multiset().add(r0.to_multiset()));
        }
    }
    proof {
        assert(mentions_view(rest@) =~= Seq::<(Seq<char>, int, Seq<char>)>::empty());
        assert(mentions_view(rest@).to_multiset() =~= vstd::multiset::Multiset::empty());
        assert(mentions_view(out@).to_multiset().add(vstd::multiset::Multiset::empty()) =~= mentions_view(out@).to_multiset());
    }
    out
}

proof fn mention_irreflexive(a: (Seq<char>, int, Seq<char>))
    ensures
        !mention_lt(a, a),
{
    lemma_lex_irreflexive(a.0);
    lemma_lex_irreflexive(a.2);
}

} // verus!
