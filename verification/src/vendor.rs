//! Vendor integrity.
//!
//! Annotations and glossary entries are keyed to line numbers in a pinned
//! source, so any drift in `vendor/` silently invalidates content. The pin
//! records a deterministic hash of every vendored tree, and the check fails
//! when one moves.
//!
//! Sources carry a [`Role`], because the gates ask different things of
//! them: a crate can be quoted without being claimed, so long as the pin says
//! which one it is.
use crate::paths::{join, path_join};
use crate::text::{chars_of, string_of};
use sha2::Digest;
use vstd::prelude::*;

verus! {

/// What the gates ask of a source.
#[derive(Debug, Clone, Copy, PartialEq, Eq, Structural)]
pub enum Role {
    /// Every line must be claimed once the manifest calls a file complete.
    Coverage,
    /// Annotated where the story goes, never asked to be exhaustive.
    Narrative,
    /// Never annotated; quoted verbatim by glossary entries.
    Glossary,
}

/// A role as the pin spells it.
pub open spec fn role_name(r: Role) -> Seq<char> {
    match r {
        Role::Coverage => "coverage"@,
        Role::Narrative => "narrative"@,
        Role::Glossary => "glossary"@,
    }
}

impl Role {
    /// The role as the pin spells it.
    pub fn name(&self) -> (s: String)
        ensures
            s@ == role_name(*self),
    {
        match self {
            Role::Coverage => String::from_str("coverage"),
            Role::Narrative => String::from_str("narrative"),
            Role::Glossary => String::from_str("glossary"),
        }
    }

    /// Reads a role as the pin spells it; any other word is no role.
    pub fn parse(s: &str) -> (r: Option<Role>)
        ensures
            match r {
                Some(x) => role_name(x) == s@,
                None => forall|x: Role| role_name(x) != s@,
            },
    {
        proof {
            reveal_strlit("coverage");
            reveal_strlit("narrative");
            reveal_strlit("glossary");
        }
        let c = String::from_str("coverage");
        let n = String::from_str("narrative");
        let g = String::from_str("glossary");
        if crate::text::str_eq(s, c.as_str()) {
            Some(Role::Coverage)
        } else if crate::text::str_eq(s, n.as_str()) {
            Some(Role::Narrative)
        } else if crate::text::str_eq(s, g.as_str()) {
            Some(Role::Glossary)
        } else {
            proof {
                assert forall|x: Role| role_name(x) != s@ by {
                    match x {
                        Role::Coverage => {},
                        Role::Narrative => {},
                        Role::Glossary => {},
                    }
                }
            }
            None
        }
    }
}

/// One pinned source.
#[derive(Debug, Clone)]
pub struct Source {
    /// The crates.io name, hyphens and all: "proc-macro2".
    pub name: String,
    pub version: String,
    pub role: Role,
    /// sha256 of the published .crate archive. Recorded for provenance; it
    /// cannot be recomputed from the extracted tree.
    pub crate_sha256: String,
    /// sha256 over the extracted source tree: the value that protects line
    /// ranges.
    pub src_tree_sha256: String,
}

/// `name-version`: the id annotation files carry, and the directory name
/// under `vendor/`.
pub open spec fn source_id_spec(name: Seq<char>, version: Seq<char>) -> Seq<char> {
    name + seq!['-'] + version
}

/// `("serde_core", "1.0.229")` gives `"serde_core-1.0.229"`.
pub fn source_id(name: &str, version: &str) -> (r: String)
    ensures
        r@ == source_id_spec(name@, version@),
{
    let mut v = chars_of(name);
    v.push('-');
    let w = chars_of(version);
    let ghost v0 = v@;
    let mut k: usize = 0;
    while k < w.len()
        invariant
            k <= w@.len(),
            v@ == v0 + w@.take(k as int),
        decreases w@.len() - k,
    {
        v.push(w[k]);
        k += 1;
        assert(v@ =~= v0 + w@.take(k as int));
    }
    assert(w@.take(k as int) =~= w@);
    assert(v@ =~= source_id_spec(name@, version@));
    string_of(v.as_slice())
}

/// Where a given version's tree lives, whether or not it is the pinned one.
pub fn crate_dir(repo: &str, name: &str, version: &str) -> (r: String)
    ensures
        r@ == path_join(path_join(repo@, "vendor"@), source_id_spec(name@, version@)),
{
    let v = join(repo, "vendor");
    let id = source_id(name, version);
    join(v.as_str(), id.as_str())
}

/// Where the pin lives.
pub fn pin_path(repo: &str) -> (r: String)
    ensures
        r@ == path_join(path_join(repo@, "vendor"@), "pin.toml"@),
{
    let v = join(repo, "vendor");
    join(v.as_str(), "pin.toml")
}

impl Source {
    /// The identifier annotation files carry in their `source` field.
    pub fn source_id(&self) -> (r: String)
        ensures
            r@ == source_id_spec(self.name@, self.version@),
    {
        source_id(self.name.as_str(), self.version.as_str())
    }

    /// This source's directory under `repo`.
    pub fn dir(&self, repo: &str) -> (r: String)
        ensures
            r@ == path_join(path_join(repo@, "vendor"@), source_id_spec(self.name@, self.version@)),
    {
        crate_dir(repo, self.name.as_str(), self.version.as_str())
    }
}

/// Every pinned source.
#[derive(Debug, Clone)]
pub struct Pin {
    pub sources: Vec<Source>,
}

/// Why a lookup in the pin failed.
#[derive(Debug)]
pub enum PinError {
    /// No source has role coverage.
    NoCoverage,
    /// Two sources have role coverage; exactly one is supported.
    TwoCoverage { first: String, second: String },
    /// No source has this name.
    Unknown { name: String },
}

/// What each pin error says.
pub open spec fn pin_error_text(e: PinError) -> Seq<char> {
    match e {
        PinError::NoCoverage => "vendor/pin.toml has no source with role = \"coverage\""@,
        PinError::TwoCoverage { first, second } => "vendor/pin.toml has two coverage sources ("@ + first@
            + " and "@ + second@ + "); exactly one is supported"@,
        PinError::Unknown { name } => "no source named \""@ + name@ + "\" in vendor/pin.toml"@,
    }
}

impl PinError {
    /// The error as a sentence.
    pub fn message(&self) -> (r: String)
        ensures
            r@ == pin_error_text(*self),
    {
        let mut v: Vec<char> = Vec::new();
        match self {
            PinError::NoCoverage => push_str(&mut v, "vendor/pin.toml has no source with role = \"coverage\""),
            PinError::TwoCoverage { first, second } => {
                push_str(&mut v, "vendor/pin.toml has two coverage sources (");
                push_str(&mut v, first.as_str());
                push_str(&mut v, " and ");
                push_str(&mut v, second.as_str());
                push_str(&mut v, "); exactly one is supported");
            },
            PinError::Unknown { name } => {
                push_str(&mut v, "no source named \"");
                push_str(&mut v, name.as_str());
                push_str(&mut v, "\" in vendor/pin.toml");
            },
        }
        string_of(v.as_slice())
    }
}

/// Appends the characters of `s` to `v`.
fn push_str(v: &mut Vec<char>, s: &str)
    ensures
        final(v)@ == old(v)@ + s@,
{
    let mut t = chars_of(s);
    v.append(&mut t);
}

/// The positions of the sources with role `r`, among the first `k`.
pub open spec fn with_role(s: Seq<Source>, r: Role, k: int) -> Seq<int>
    decreases k,
{
    if k <= 0 {
        Seq::empty()
    } else if s[k - 1].role == r {
        with_role(s, r, k - 1).push(k - 1)
    } else {
        with_role(s, r, k - 1)
    }
}

/// The first position of a source named `name` among the first `k`, or -1.
pub open spec fn first_named(s: Seq<Source>, name: Seq<char>, k: int) -> int
    decreases k,
{
    if k <= 0 {
        -1
    } else if first_named(s, name, k - 1) >= 0 {
        first_named(s, name, k - 1)
    } else if s[k - 1].name@ == name {
        k - 1
    } else {
        -1
    }
}

proof fn lemma_with_role_bound(s: Seq<Source>, r: Role, k: int)
    requires
        0 <= k <= s.len(),
    ensures
        with_role(s, r, k).len() <= k,
        forall|i: int| 0 <= i < with_role(s, r, k).len() ==> 0 <= #[trigger] with_role(s, r, k)[i] < k && s[with_role(s, r, k)[i]].role == r,
    decreases k,
{
    if k > 0 {
        lemma_with_role_bound(s, r, k - 1);
    }
}

impl Pin {
    /// The one coverage source. Exactly one is allowed: two crates each
    /// promising every line would make the coverage table ambiguous.
    pub fn primary(&self) -> (r: Result<&Source, PinError>)
        ensures
            ({
                let w = with_role(self.sources@, Role::Coverage, self.sources@.len() as int);
                match r {
                    Ok(s) => w.len() == 1 && *s == self.sources@[w[0]],
                    Err(PinError::NoCoverage) => w.len() == 0,
                    Err(PinError::TwoCoverage { first, second }) => w.len() >= 2
                        && first@ == self.sources@[w[0]].name@ && second@ == self.sources@[w[1]].name@,
                    Err(PinError::Unknown { .. }) => false,
                }
            }),
    {
        let ghost s = self.sources@;
        let mut first: Option<usize> = None;
        let mut k: usize = 0;
        while k < self.sources.len()
            invariant
                k <= s.len(),
                s == self.sources@,
                match first {
                    None => with_role(s, Role::Coverage, k as int).len() == 0,
                    Some(f) => with_role(s, Role::Coverage, k as int).len() == 1 && with_role(s, Role::Coverage, k as int)[0] == f && f < k,
                },
            decreases s.len() - k,
        {
            if self.sources[k].role == Role::Coverage {
                match first {
                    None => {
                        first = Some(k);
                    },
                    Some(f) => {
                        proof {
                            lemma_with_role_prefix(s, Role::Coverage, k + 1, s.len() as int);
                        }
                        return Err(PinError::TwoCoverage {
                            first: copy_string(&self.sources[f].name),
                            second: copy_string(&self.sources[k].name),
                        });
                    },
                }
            }
            k += 1;
        }
        match first {
            None => Err(PinError::NoCoverage),
            Some(f) => Ok(&self.sources[f]),
        }
    }

    /// The source named `name`: the first, should two share it.
    pub fn get(&self, name: &str) -> (r: Result<&Source, PinError>)
        ensures
            ({
                let i = first_named(self.sources@, name@, self.sources@.len() as int);
                match r {
                    Ok(s) => 0 <= i < self.sources@.len() && *s == self.sources@[i],
                    Err(PinError::Unknown { name: n }) => i == -1 && n@ == name@,
                    Err(_) => false,
                }
            }),
    {
        let ghost s = self.sources@;
        let mut k: usize = 0;
        while k < self.sources.len()
            invariant
                k <= s.len(),
                s == self.sources@,
                first_named(s, name@, k as int) == -1,
            decreases s.len() - k,
        {
            if crate::text::str_eq(self.sources[k].name.as_str(), name) {
                proof {
                    lemma_first_named_stays(s, name@, k + 1, s.len() as int);
                }
                return Ok(&self.sources[k]);
            }
            k += 1;
        }
        Err(PinError::Unknown { name: string_of(chars_of(name).as_slice()) })
    }

    /// The sources with this role, in pin order.
    pub fn by_role(&self, role: Role) -> (r: Vec<&Source>)
        ensures
            r@.len() == with_role(self.sources@, role, self.sources@.len() as int).len(),
            forall|i: int| 0 <= i < r@.len() ==> *(#[trigger] r@[i]) == self.sources@[with_role(self.sources@, role, self.sources@.len() as int)[i]],
    {
        let ghost s = self.sources@;
        let mut r: Vec<&Source> = Vec::new();
        let mut k: usize = 0;
        while k < self.sources.len()
            invariant
                k <= s.len(),
                s == self.sources@,
                r@.len() == with_role(s, role, k as int).len(),
                forall|i: int| 0 <= i < r@.len() ==> *(#[trigger] r@[i]) == s[with_role(s, role, k as int)[i]],
            decreases s.len() - k,
        {
            if self.sources[k].role == role {
                r.push(&self.sources[k]);
            }
            k += 1;
        }
        r
    }
}

proof fn lemma_with_role_prefix(s: Seq<Source>, r: Role, k: int, n: int)
    requires
        0 <= k <= n,
    ensures
        with_role(s, r, n).len() >= with_role(s, r, k).len(),
        forall|i: int| 0 <= i < with_role(s, r, k).len() ==> #[trigger] with_role(s, r, n)[i] == with_role(s, r, k)[i],
    decreases n - k,
{
    if k < n {
        lemma_with_role_prefix(s, r, k, n - 1);
    }
}

proof fn lemma_first_named_stays(s: Seq<Source>, name: Seq<char>, k: int, n: int)
    requires
        0 < k <= n,
        first_named(s, name, k) >= 0,
    ensures
        first_named(s, name, n) == first_named(s, name, k),
    decreases n - k,
{
    if k < n {
        lemma_first_named_stays(s, name, k, n - 1);
    }
}

fn copy_string(s: &String) -> (r: String)
    ensures
        r@ == s@,
{
    string_of(chars_of(s.as_str()).as_slice())
}

/// The comment block the pin file opens with.
pub const PIN_HEADER: &'static str = "# Regenerate with `cargo xtask pin`; change a version with `cargo xtask bump`.\n# src_tree_sha256 protects annotation and glossary line ranges: if it moves,\n# the coverage gate fails until the change is an explicit migration.\n#\n# role decides what the gates ask of a source:\n#   coverage  \u{2014} every line must be claimed once manifest.toml calls a file\n#               complete. The reference track's promise.\n#   narrative \u{2014} annotated where the story goes, never asked to be exhaustive\n#               (PLAN.md \u{a7}11).\n#   glossary  \u{2014} never annotated at all; quoted verbatim by glossary entries\n#               (D9). The pin is what keeps a quotation honest.\n";

/// One source's table in the pin file.
pub open spec fn source_block(s: Source) -> Seq<char> {
    "\n[[source]]\nname = \""@ + s.name@ + "\"\nversion = \""@ + s.version@ + "\"\nrole = \""@ + role_name(s.role)
        + "\"\ncrate_sha256 = \""@ + s.crate_sha256@ + "\"\nsrc_tree_sha256 = \""@ + s.src_tree_sha256@ + "\"\n"@
}

/// The tables of the first `k` sources.
pub open spec fn source_blocks(s: Seq<Source>, k: int) -> Seq<char>
    decreases k,
{
    if k <= 0 {
        Seq::empty()
    } else {
        source_blocks(s, k - 1) + source_block(s[k - 1])
    }
}

/// The pin file's text.
pub open spec fn pin_text(pin: Pin) -> Seq<char> {
    PIN_HEADER@ + source_blocks(pin.sources@, pin.sources@.len() as int)
}

/// Writes a pin in the committed format, comments and all.
pub fn render_pin(pin: &Pin) -> (r: String)
    ensures
        r@ == pin_text(*pin),
{
    let mut out = String::from_str(PIN_HEADER);
    let mut k: usize = 0;
    while k < pin.sources.len()
        invariant
            k <= pin.sources@.len(),
            out@ == PIN_HEADER@ + source_blocks(pin.sources@, k as int),
        decreases pin.sources@.len() - k,
    {
        let s = &pin.sources[k];
        let role = s.role.name();
        let ghost o0 = out@;
        out.append("\n[[source]]\nname = \"");
        out.append(s.name.as_str());
        out.append("\"\nversion = \"");
        out.append(s.version.as_str());
        out.append("\"\nrole = \"");
        out.append(role.as_str());
        out.append("\"\ncrate_sha256 = \"");
        out.append(s.crate_sha256.as_str());
        out.append("\"\nsrc_tree_sha256 = \"");
        out.append(s.src_tree_sha256.as_str());
        out.append("\"\n");
        assert(out@ =~= o0 + source_block(*s));
        k += 1;
    }
    out
}

/// The SHA-256 digest of some bytes, as `sha2` computes it.
pub uninterp spec fn sha256_of(data: Seq<u8>) -> Seq<u8>;

/// `sha2::Sha256::digest`: the SHA-256 of `data`, which is 32 bytes long.
#[verifier::external_body]
fn sha256(data: &[u8]) -> (r: Vec<u8>)
    ensures
        r@ == sha256_of(data@),
        r@.len() == 32,
{
    sha2::Sha256::digest(data).to_vec()
}

/// The SHA-256 of some bytes, in lowercase hex: how an archive's checksum
/// is written.
pub fn sha256_hex(data: &[u8]) -> (r: String)
    ensures
        r@ == hex(sha256_of(data@)),
{
    let d = sha256(data);
    to_hex(d.as_slice())
}

/// `n` as `k` little-endian bytes.
pub open spec fn le_bytes(n: nat, k: nat) -> Seq<u8>
    decreases k,
{
    if k == 0 {
        Seq::empty()
    } else {
        seq![(n % 256) as u8] + le_bytes(n / 256, (k - 1) as nat)
    }
}

/// What the tree hash reads for one file: its path, a zero byte, its length
/// as eight little-endian bytes, and its contents.
pub open spec fn file_record(rel: Seq<char>, bytes: Seq<u8>) -> Seq<u8> {
    vstd::utf8::encode_utf8(rel) + seq![0u8] + le_bytes(bytes.len(), 8) + bytes
}

/// What the tree hash reads for the first `k` files.
pub open spec fn tree_stream(files: Seq<(String, Vec<u8>)>, k: int) -> Seq<u8>
    decreases k,
{
    if k <= 0 {
        Seq::empty()
    } else {
        tree_stream(files, k - 1) + file_record(files[k - 1].0@, files[k - 1].1@)
    }
}

/// One lowercase hex digit.
pub open spec fn hex_digit(d: int) -> char {
    if d < 10 {
        ('0' as int + d) as char
    } else {
        ('a' as int + d - 10) as char
    }
}

/// Bytes as lowercase hex, two digits each.
pub open spec fn hex(bytes: Seq<u8>) -> Seq<char>
    decreases bytes.len(),
{
    if bytes.len() == 0 {
        Seq::empty()
    } else {
        hex(bytes.drop_last()) + seq![hex_digit(bytes.last() as int / 16), hex_digit(bytes.last() as int % 16)]
    }
}

fn hex_char(d: u8) -> (c: char)
    requires
        d < 16,
    ensures
        c == hex_digit(d as int),
{
    if d < 10 {
        ((48u8 + d) as char)
    } else {
        ((87u8 + d) as char)
    }
}

/// Bytes as lowercase hex.
pub fn to_hex(bytes: &[u8]) -> (r: String)
    ensures
        r@ == hex(bytes@),
{
    let mut out: Vec<char> = Vec::new();
    let mut k: usize = 0;
    while k < bytes.len()
        invariant
            k <= bytes@.len(),
            out@ == hex(bytes@.take(k as int)),
        decreases bytes@.len() - k,
    {
        let b = bytes[k];
        out.push(hex_char(b / 16));
        out.push(hex_char(b % 16));
        assert(bytes@.take(k + 1).drop_last() =~= bytes@.take(k as int));
        k += 1;
    }
    assert(bytes@.take(k as int) =~= bytes@);
    string_of(out.as_slice())
}

fn push_le(out: &mut Vec<u8>, n: u64)
    ensures
        final(out)@ == old(out)@ + le_bytes(n as nat, 8),
{
    let ghost o0 = out@;
    let mut x: u64 = n;
    let mut k: u64 = 0;
    while k < 8
        invariant
            k <= 8,
            out@ + le_bytes(x as nat, (8 - k) as nat) == o0 + le_bytes(n as nat, 8),
        decreases 8 - k,
    {
        let ghost before = out@;
        assert(le_bytes(x as nat, (8 - k) as nat) == seq![(x % 256) as u8] + le_bytes((x / 256) as nat, (8 - k - 1) as nat));
        out.push((x % 256) as u8);
        assert(out@ =~= before + seq![(x % 256) as u8]);
        x = x / 256;
        k += 1;
    }
    assert(le_bytes(x as nat, 0) =~= Seq::<u8>::empty());
    assert(out@ =~= o0 + le_bytes(n as nat, 8));
}

fn push_bytes(out: &mut Vec<u8>, b: &[u8])
    ensures
        final(out)@ == old(out)@ + b@,
{
    let ghost o0 = out@;
    let mut k: usize = 0;
    while k < b.len()
        invariant
            k <= b@.len(),
            out@ == o0 + b@.take(k as int),
        decreases b@.len() - k,
    {
        out.push(b[k]);
        k += 1;
        assert(out@ =~= o0 + b@.take(k as int));
    }
    assert(b@.take(k as int) =~= b@);
}

/// The number that little-endian bytes spell.
pub open spec fn le_value(b: Seq<u8>) -> int
    decreases b.len(),
{
    if b.len() == 0 {
        0
    } else {
        b[0] as int + 256 * le_value(b.drop_first())
    }
}

/// `256` to the power `k`.
pub open spec fn pow256(k: nat) -> int
    decreases k,
{
    if k == 0 {
        1
    } else {
        256 * pow256((k - 1) as nat)
    }
}

proof fn lemma_pow256_pos(k: nat)
    ensures
        pow256(k) >= 1,
    decreases k,
{
    if k > 0 {
        lemma_pow256_pos((k - 1) as nat);
    }
}

proof fn lemma_le_roundtrip(n: nat, k: nat)
    requires
        n < pow256(k),
    ensures
        le_bytes(n, k).len() == k,
        le_value(le_bytes(n, k)) == n,
    decreases k,
{
    if k == 0 {
        assert(n == 0);
    } else {
        let p = pow256((k - 1) as nat);
        lemma_pow256_pos((k - 1) as nat);
        assert(n / 256 < p) by (nonlinear_arith)
            requires
                n < 256 * p,
                p >= 1,
        ;
        lemma_le_roundtrip(n / 256, (k - 1) as nat);
        let b = le_bytes(n, k);
        assert(b.drop_first() =~= le_bytes(n / 256, (k - 1) as nat));
        assert(b[0] as int == n % 256);
        assert(n == n % 256 + 256 * (n / 256));
    }
}

/// What the tree hash reads starts empty and is each file framed in turn: after the records
/// of the files before it come the file's path in UTF-8, then a single zero
/// byte, then eight bytes that spell the file's length little-endian, then
/// the file's bytes, and nothing else.
pub proof fn law_each_file_is_framed(files: Seq<(String, Vec<u8>)>, k: int)
    requires
        0 <= k < files.len(),
    ensures
        tree_stream(files, 0).len() == 0,
        ({
            let before = tree_stream(files, k);
            let after = tree_stream(files, k + 1);
            let path = vstd::utf8::encode_utf8(files[k].0@);
            let bytes = files[k].1@;
            let p = (before.len() + path.len()) as int;
            &&& after.len() == p + 1 + 8 + bytes.len()
            &&& after.take(before.len() as int) == before
            &&& after.subrange(before.len() as int, p) == path
            &&& after[p] == 0u8
            &&& le_value(after.subrange(p + 1, p + 9)) == bytes.len()
            &&& after.skip(p + 9) == bytes
        }),
{
    let before = tree_stream(files, k);
    let after = tree_stream(files, k + 1);
    let path = vstd::utf8::encode_utf8(files[k].0@);
    let bytes = files[k].1@;
    let p = (before.len() + path.len()) as int;
    let len = files[k].1@.len();
    assert(files[k].1@.len() == files[k].1.len());
    assert(len <= usize::MAX);
    assert(pow256(8) == 0x1_0000_0000_0000_0000) by {
        reveal_with_fuel(pow256, 9);
    }
    lemma_le_roundtrip(len, 8);
    let le = le_bytes(len, 8);
    assert(after == before + (path + seq![0u8] + le + bytes));
    assert(after.take(before.len() as int) =~= before);
    assert(after.subrange(before.len() as int, p) =~= path);
    assert(after.subrange(p + 1, p + 9) =~= le);
    assert(after.skip(p + 9) =~= bytes);
}

/// The hex tree hash of a tree whose files (paths relative to the crate
/// root, in sorted order) hold these bytes.
pub open spec fn tree_hex(files: Seq<(String, Vec<u8>)>) -> Seq<char> {
    hex(sha256_of(tree_stream(files, files.len() as int)))
}

/// A deterministic hash over (relative path, byte length, contents) for
/// every file of a tree, in the order given.
pub fn tree_hash(files: &Vec<(String, Vec<u8>)>) -> (r: String)
    ensures
        r@ == tree_hex(files@),
{
    let mut stream: Vec<u8> = Vec::new();
    let mut k: usize = 0;
    while k < files.len()
        invariant
            k <= files@.len(),
            stream@ == tree_stream(files@, k as int),
        decreases files@.len() - k,
    {
        let (rel, bytes) = (&files[k].0, &files[k].1);
        let ghost s0 = stream@;
        push_bytes(&mut stream, rel.as_str().as_bytes());
        stream.push(0u8);
        push_le(&mut stream, bytes.len() as u64);
        push_bytes(&mut stream, bytes.as_slice());
        assert(stream@ =~= s0 + file_record(rel@, bytes@));
        k += 1;
    }
    let d = sha256(stream.as_slice());
    to_hex(d.as_slice())
}

/// Why a pinned tree failed its check.
#[derive(Debug)]
pub enum VerifyError {
    /// The pin lists the source but its directory is missing.
    Missing { id: String, role: Role },
    /// The tree no longer hashes to what the pin claims.
    Drifted { id: String, expected: String, actual: String },
}

/// The tree for source `s` is present and hashes to what the pin claims.
pub open spec fn tree_holds(s: Source, tree: Option<Vec<(String, Vec<u8>)>>) -> bool {
    match tree {
        Some(files) => tree_hex(files@) == s.src_tree_sha256@,
        None => false,
    }
}

/// The first of the first `k` sources whose tree fails, or -1.
pub open spec fn first_failing(s: Seq<Source>, trees: Seq<Option<Vec<(String, Vec<u8>)>>>, k: int) -> int
    decreases k,
{
    if k <= 0 {
        -1
    } else if first_failing(s, trees, k - 1) >= 0 {
        first_failing(s, trees, k - 1)
    } else if !tree_holds(s[k - 1], trees[k - 1]) {
        k - 1
    } else {
        -1
    }
}

proof fn lemma_first_failing_stays(s: Seq<Source>, trees: Seq<Option<Vec<(String, Vec<u8>)>>>, k: int, n: int)
    requires
        0 < k <= n,
        first_failing(s, trees, k) >= 0,
    ensures
        first_failing(s, trees, n) == first_failing(s, trees, k),
    decreases n - k,
{
    if k < n {
        lemma_first_failing_stays(s, trees, k, n - 1);
    }
}

/// Every pinned tree still hashes to what the pin claims. `trees[i]` is
/// the files of source `i`'s directory, or `None` when the directory is
/// missing. All roles are checked: a glossary quotation is a line range in
/// a pinned tree exactly as an annotation is.
pub fn verify(pin: &Pin, trees: &Vec<Option<Vec<(String, Vec<u8>)>>>) -> (r: Result<(), VerifyError>)
    requires
        trees@.len() == pin.sources@.len(),
    ensures
        ({
            let i = first_failing(pin.sources@, trees@, pin.sources@.len() as int);
            match r {
                Ok(()) => i == -1,
                Err(VerifyError::Missing { id, role }) => 0 <= i < pin.sources@.len() && trees@[i] is None
                    && id@ == source_id_spec(pin.sources@[i].name@, pin.sources@[i].version@) && role == pin.sources@[i].role,
                Err(VerifyError::Drifted { id, expected, actual }) => 0 <= i < pin.sources@.len() && trees@[i] is Some
                    && id@ == source_id_spec(pin.sources@[i].name@, pin.sources@[i].version@)
                    && expected@ == pin.sources@[i].src_tree_sha256@
                    && actual@ == tree_hex(trees@[i]->0@),
            }
        }),
{
    let mut k: usize = 0;
    while k < pin.sources.len()
        invariant
            k <= pin.sources@.len(),
            trees@.len() == pin.sources@.len(),
            first_failing(pin.sources@, trees@, k as int) == -1,
        decreases pin.sources@.len() - k,
    {
        let s = &pin.sources[k];
        match &trees[k] {
            None => {
                proof {
                    lemma_first_failing_stays(pin.sources@, trees@, k + 1, pin.sources@.len() as int);
                }
                return Err(VerifyError::Missing { id: s.source_id(), role: s.role });
            },
            Some(files) => {
                let actual = tree_hash(files);
                if !crate::text::str_eq(actual.as_str(), s.src_tree_sha256.as_str()) {
                    proof {
                        lemma_first_failing_stays(pin.sources@, trees@, k + 1, pin.sources@.len() as int);
                    }
                    return Err(VerifyError::Drifted { id: s.source_id(), expected: copy_string(&s.src_tree_sha256), actual });
                }
            },
        }
        k += 1;
    }
    Ok(())
}

} // verus!
