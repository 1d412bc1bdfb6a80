//! The crates.io index: the authority crates.io itself uses for a
//! version's checksum, a flat file of one JSON object per published version.
use crate::text::{chars_of, lines, split_lines, string_of, trim, trimmed, views};
use vstd::prelude::*;

verus! {

#[verifier::external_type_specification]
#[verifier::external_body]
pub struct ExJsonError(serde_json::Error);

/// What one index line says of its version: the version (empty when the
/// line names none), whether it is yanked, and its checksum.
#[derive(Debug)]
pub struct IndexEntry {
    pub vers: String,
    pub yanked: Option<bool>,
    pub cksum: Option<String>,
}

/// An entry as plain values.
pub open spec fn entry_view(e: IndexEntry) -> (Seq<char>, Option<bool>, Option<Seq<char>>) {
    (e.vers@, e.yanked, match e.cksum {
        Some(c) => Some(c@),
        None => None,
    })
}

/// What `serde_json` reads from one line of the index: the string at
/// `"vers"` (empty when absent), the boolean at `"yanked"` and the string at
/// `"cksum"`; no entry when the line is not JSON.
pub uninterp spec fn index_entry(line: Seq<char>) -> Option<(Seq<char>, Option<bool>, Option<Seq<char>>)>;

/// Parses one index line with `serde_json::from_str` into a
/// `serde_json::Value` and reads its `vers`, `yanked` and `cksum` fields.
/// Trusted to agree with `index_entry`, which names the parse.
#[verifier::external_body]
fn read_entry(line: &str) -> (r: Result<IndexEntry, serde_json::Error>)
    ensures
        match r {
            Ok(e) => index_entry(line@) == Some(entry_view(e)),
            Err(_) => index_entry(line@) is None,
        },
{
    let entry: serde_json::Value = serde_json::from_str(line)?;
    Ok(IndexEntry {
        vers: entry["vers"].as_str().unwrap_or_default().to_string(),
        yanked: entry["yanked"].as_bool(),
        cksum: entry["cksum"].as_str().map(|s| s.to_string()),
    })
}

/// Why the index gave no checksum.
#[derive(Debug)]
pub enum IndexError {
    /// A line of the index is not JSON.
    BadJson,
    /// The version is published but yanked.
    Yanked,
    /// The version's entry carries no checksum.
    NoChecksum,
    /// The version was never published; these were.
    NoVersion { known: Vec<String> },
}

/// An index failure as plain values.
pub enum IndexFault {
    BadJson,
    Yanked,
    NoChecksum,
    NoVersion(Seq<Seq<char>>),
}

/// An index result as plain values.
pub open spec fn index_result_view(r: Result<String, IndexError>) -> Result<Seq<char>, IndexFault> {
    match r {
        Ok(s) => Ok(s@),
        Err(IndexError::BadJson) => Err(IndexFault::BadJson),
        Err(IndexError::Yanked) => Err(IndexFault::Yanked),
        Err(IndexError::NoChecksum) => Err(IndexFault::NoChecksum),
        Err(IndexError::NoVersion { known }) => Err(IndexFault::NoVersion(known@.map_values(|s: String| s@))),
    }
}

/// `c` with an ASCII uppercase letter made lowercase.
pub open spec fn ascii_lower(c: char) -> char {
    if 'A' <= c && c <= 'Z' {
        ((c as u32) + 32) as char
    } else {
        c
    }
}

/// `str::to_ascii_lowercase`.
pub open spec fn ascii_lowercase(s: Seq<char>) -> Seq<char> {
    s.map_values(|c: char| ascii_lower(c))
}

/// The checksum of `version` among the entries from position `i`, with
/// `known` the versions read before it: the first entry naming the version
/// decides, and an unreadable line before it is an error.
pub open spec fn pick(
    entries: Seq<Option<(Seq<char>, Option<bool>, Option<Seq<char>>)>>,
    version: Seq<char>,
    i: int,
    known: Seq<Seq<char>>,
) -> Result<Seq<char>, IndexFault>
    decreases entries.len() - i,
{
    if i < 0 || i >= entries.len() {
        Err(IndexFault::NoVersion(known))
    } else {
        match entries[i] {
            None => Err(IndexFault::BadJson),
            Some((v, y, c)) => if v == version {
                if y == Some(true) {
                    Err(IndexFault::Yanked)
                } else {
                    match c {
                        Some(s) => Ok(ascii_lowercase(s)),
                        None => Err(IndexFault::NoChecksum),
                    }
                }
            } else {
                pick(entries, version, i + 1, known.push(v))
            },
        }
    }
}

/// The index's lines that are not blank.
pub open spec fn nonblank(body: Seq<char>) -> Seq<Seq<char>> {
    lines(body).filter(|l: Seq<char>| trim(l).len() > 0)
}

/// An optional entry as plain values.
pub open spec fn opt_entry_view(e: Option<IndexEntry>) -> Option<(Seq<char>, Option<bool>, Option<Seq<char>>)> {
    match e {
        Some(x) => Some(entry_view(x)),
        None => None,
    }
}

fn lower_char(c: char) -> (r: char)
    ensures
        r == ascii_lower(c),
{
    let u = c as u32;
    if 65 <= u && u <= 90 {
        let b: u8 = (u + 32) as u8;
        b as char
    } else {
        c
    }
}

/// `str::to_ascii_lowercase`.
pub fn lowercase_ascii(s: &str) -> (r: String)
    ensures
        r@ == ascii_lowercase(s@),
{
    let cs = chars_of(s);
    let mut out: Vec<char> = Vec::new();
    let mut i: usize = 0;
    while i < cs.len()
        invariant
            i <= cs@.len(),
            cs@ == s@,
            out@ == ascii_lowercase(s@.take(i as int)),
        decreases cs@.len() - i,
    {
        out.push(lower_char(cs[i]));
        i += 1;
        assert(out@ =~= ascii_lowercase(s@.take(i as int)));
    }
    assert(s@.take(i as int) =~= s@);
    string_of(out.as_slice())
}

fn copy_str(s: &String) -> (r: String)
    ensures
        r@ == s@,
{
    string_of(chars_of(s.as_str()).as_slice())
}

/// The checksum the index records for `version`, read from its entries in
/// order (`None` for a line that is not JSON): the first entry naming the
/// version decides; a yanked version, or one without a checksum, is an
/// error, and so is a version no entry names, which lists those that are.
/// The checksum comes back lowercased.
pub fn checksum_from(entries: &[Option<IndexEntry>], version: &str) -> (r: Result<String, IndexError>)
    ensures
        index_result_view(r) == pick(entries@.map_values(|e: Option<IndexEntry>| opt_entry_view(e)), version@, 0, Seq::empty()),
{
    let ghost ev = entries@.map_values(|e: Option<IndexEntry>| opt_entry_view(e));
    let mut known: Vec<String> = Vec::new();
    assert(known@.map_values(|s: String| s@) =~= Seq::<Seq<char>>::empty());
    let mut i: usize = 0;
    while i < entries.len()
        invariant
            i <= entries@.len(),
            ev == entries@.map_values(|e: Option<IndexEntry>| opt_entry_view(e)),
            pick(ev, version@, 0, Seq::empty()) == pick(ev, version@, i as int, known@.map_values(|s: String| s@)),
        decreases entries@.len() - i,
    {
        match &entries[i] {
            None => {
                return Err(IndexError::BadJson);
            },
            Some(e) => {
                if crate::text::str_eq(e.vers.as_str(), version) {
                    if e.yanked == Some(true) {
                        return Err(IndexError::Yanked);
                    }
                    match &e.cksum {
                        Some(c) => {
                            return Ok(lowercase_ascii(c.as_str()));
                        },
                        None => {
                            return Err(IndexError::NoChecksum);
                        },
                    }
                }
                let ghost k0 = known@.map_values(|s: String| s@);
                known.push(copy_str(&e.vers));
                assert(known@.map_values(|s: String| s@) =~= k0.push(e.vers@));
            },
        }
        i += 1;
    }
    Err(IndexError::NoVersion { known })
}

/// The checksum the index body records for `version`: its non-blank lines
/// are read as JSON entries, and `checksum_from` decides.
pub fn index_checksum(body: &str, version: &str) -> (r: Result<String, IndexError>)
    ensures
        index_result_view(r) == pick(nonblank(body@).map_values(|l: Seq<char>| index_entry(l)), version@, 0, Seq::empty()),
{
    let ls = split_lines(chars_of(body).as_slice());
    let ghost all = views(ls@);
    let ghost keep = |l: Seq<char>| trim(l).len() > 0;
    let mut entries: Vec<Option<IndexEntry>> = Vec::new();
    let mut i: usize = 0;
    while i < ls.len()
        invariant
            i <= ls@.len(),
            all == views(ls@),
            all == lines(body@),
            keep == (|l: Seq<char>| trim(l).len() > 0),
            entries@.map_values(|e: Option<IndexEntry>| opt_entry_view(e))
                == all.take(i as int).filter(keep).map_values(|l: Seq<char>| index_entry(l)),
        decreases ls@.len() - i,
    {
        let t = trimmed(ls[i].as_slice());
        let ghost before = entries@.map_values(|e: Option<IndexEntry>| opt_entry_view(e));
        proof {
            assert(all.take(i + 1) =~= all.take(i as int).push(all[i as int]));
            all.take(i as int).lemma_filter_push(all[i as int], keep);
            assert(all[i as int] == ls@[i as int]@);
        }
        if t.len() > 0 {
            let line = string_of(ls[i].as_slice());
            let e = match read_entry(line.as_str()) {
                Ok(e) => Some(e),
                Err(_) => None,
            };
            entries.push(e);
            assert(entries@.map_values(|e: Option<IndexEntry>| opt_entry_view(e)) =~= before.push(index_entry(all[i as int])));
        } else {
            assert(entries@.map_values(|e: Option<IndexEntry>| opt_entry_view(e)) =~= before);
        }
        i += 1;
    }
    assert(all.take(i as int) =~= all);
    checksum_from(entries.as_slice(), version)
}

} // verus!
