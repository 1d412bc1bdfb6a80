//! The annotation schema.
//!
//! Annotations are data, not pages. Each record claims a closed line range in
//! one pinned source file. The coverage gate relies on ranges within a file
//! being non-overlapping and, once a file is declared complete, collectively
//! exhaustive.
use crate::text::{chars_of, find_char, first_of, parse_u32, parse_u32_spec, trim, trimmed};
use vstd::prelude::*;

verus! {

pub const SCHEMA_VERSION: u32 = 1;

/// Drives rendering. `MacroUse` renders compactly and links back to its
/// `MacroDef` instead of repeating the explanation.
#[derive(Debug, Clone, Copy, PartialEq, Eq, Structural)]
pub enum Kind {
    TraitItem,
    MacroDef,
    MacroUse,
    Impl,
    DocContract,
    Plumbing,
    CfgGate,
}

#[derive(Debug, Clone, Copy, PartialEq, Eq, Structural)]
pub enum Track {
    Reference,
    Course,
}

/// A closed, 1-based range of lines.
#[derive(Debug, Clone, Copy, PartialEq, Eq, Structural)]
pub struct LineRange {
    pub start: u32,
    pub end: u32,
}

/// Why a line range failed to parse.
#[derive(Debug, Clone, Copy, PartialEq, Eq, Structural)]
pub enum RangeError {
    /// An endpoint is not a decimal `u32`.
    Malformed,
    /// The range starts at line 0; line numbers are 1-based.
    ZeroLine,
    /// The start comes after the end.
    Inverted,
}

/// The two endpoint texts of a range: split at the first `-`, each trimmed;
/// a text without `-` names one line and is both endpoints.
pub open spec fn range_parts(s: Seq<char>) -> (Seq<char>, Seq<char>) {
    let k = first_of(s, '-');
    if k < s.len() {
        (trim(s.take(k as int)), trim(s.skip(k as int + 1)))
    } else {
        (trim(s), trim(s))
    }
}

/// What `LineRange::parse` makes of a text: `"310-318"` or `"42"`.
pub open spec fn parse_range_spec(s: Seq<char>) -> Result<LineRange, RangeError> {
    let (a, b) = range_parts(s);
    match (parse_u32_spec(a), parse_u32_spec(b)) {
        (Some(start), Some(end)) => if start == 0 {
            Err(RangeError::ZeroLine)
        } else if start > end {
            Err(RangeError::Inverted)
        } else {
            Ok(LineRange { start, end })
        },
        _ => Err(RangeError::Malformed),
    }
}

impl LineRange {
    /// A range as the store writes one: 1-based and not inverted.
    pub open spec fn wf(self) -> bool {
        1 <= self.start <= self.end
    }

    /// Reads a closed range, `"310-318"`, or a single line, `"42"`.
    pub fn parse(s: &str) -> (r: Result<LineRange, RangeError>)
        ensures
            r == parse_range_spec(s@),
            r matches Ok(range) ==> range.wf(),
    {
        let cs = chars_of(s);
        let k = find_char(&cs, '-');
        let (a, b) = if k < cs.len() {
            let left = crate::text::copy_range(&cs, 0, k);
            let right = crate::text::copy_range(&cs, k + 1, cs.len());
            assert(left@ =~= cs@.take(k as int));
            assert(right@ =~= cs@.skip(k + 1));
            (trimmed(&left), trimmed(&right))
        } else {
            (trimmed(&cs), trimmed(&cs))
        };
        let start = match parse_u32(&a) {
            Some(v) => v,
            None => return Err(RangeError::Malformed),
        };
        let end = match parse_u32(&b) {
            Some(v) => v,
            None => return Err(RangeError::Malformed),
        };
        if start == 0 {
            return Err(RangeError::ZeroLine);
        }
        if start > end {
            return Err(RangeError::Inverted);
        }
        Ok(LineRange { start, end })
    }

    /// Number of lines the range covers.
    pub fn line_count(&self) -> (n: u32)
        requires
            self.start <= self.end,
            self.end - self.start < u32::MAX,
        ensures
            n == self.end - self.start + 1,
    {
        self.end - self.start + 1
    }

    /// Number of lines the range covers, as `line_count` counts them.
    pub fn len(&self) -> (n: u32)
        requires
            self.start <= self.end,
            self.end - self.start < u32::MAX,
        ensures
            n == self.end - self.start + 1,
    {
        self.end - self.start + 1
    }

    /// Whether the two closed ranges share a line.
    pub fn overlaps(&self, other: &LineRange) -> (b: bool)
        ensures
            b == (self.start <= other.end && other.start <= self.end),
    {
        self.start <= other.end && other.start <= self.end
    }
}


/// One annotation record, as the store holds it.
#[derive(Debug, Clone)]
pub struct Annotation {
    pub id: String,
    /// Path relative to the vendored crate root, e.g. "src/ser/mod.rs".
    pub file: String,
    /// Closed range, "310-318", or a single line, "42".
    pub lines: String,
    pub title: String,
    pub kind: Kind,
    pub tracks: Vec<Track>,
    pub course_unit: Option<String>,
    pub rust_features: Vec<String>,
    pub examples: Vec<String>,
    pub prereqs: Vec<String>,
    /// Glossary ids this annotation leans on: `["syn::DeriveInput"]`.
    pub glossary: Vec<String>,
    /// For `kind = "macro-use"` only: the id of the `macro-def` annotation
    /// this span expands.
    pub macro_def: Option<String>,
    /// Generated code this span claims to emit.
    pub emits: Option<String>,
    pub emits_from: Option<DeriveKind>,
    pub emits_case: Option<String>,
    pub body: String,
}

/// One annotation file: a schema version, the pinned source it is keyed to,
/// and its records.
#[derive(Debug, Clone)]
pub struct AnnotationFile {
    pub schema: u32,
    /// Must match the pinned source id, e.g. "serde_core-1.0.229".
    pub source: String,
    pub annotations: Vec<Annotation>,
}

/// Per-file completion status. A file listed as `complete` turns coverage
/// gaps from a warning into a hard failure.
#[derive(Debug, Clone)]
pub struct Manifest {
    pub source: String,
    pub complete: Vec<String>,
}

/// A glossary file (`glossary/<crate>.toml`).
#[derive(Debug, Clone)]
pub struct GlossaryFile {
    pub schema: u32,
    /// Must match a pinned source with `role = "glossary"`.
    pub source: String,
    pub entries: Vec<GlossaryEntry>,
}

#[derive(Debug, Clone)]
pub struct GlossaryEntry {
    /// The path an annotation cites: `"syn::DeriveInput"`.
    pub id: String,
    pub file: String,
    pub lines: String,
    pub title: String,
    pub see_also: Vec<String>,
    pub body: String,
}

/// The course track's unit registry (`annotations/course.toml`).
#[derive(Debug, Clone)]
pub struct CourseFile {
    pub schema: u32,
    pub source: String,
    /// Dependency order over the pinned source files.
    pub reading_order: Vec<String>,
    pub units: Vec<CourseUnit>,
}

#[derive(Debug, Clone)]
pub struct CourseUnit {
    /// Slug with a numeric prefix, e.g. "03-associated-types".
    pub id: String,
    pub title: String,
    pub supplement: Supplement,
    pub status: UnitStatus,
    pub prereqs: Vec<String>,
    pub glossary: Vec<String>,
    pub rust_features: Vec<String>,
    pub examples: Vec<String>,
    pub summary: String,
    pub body: String,
}

#[derive(Debug, Clone, Copy, PartialEq, Eq, Structural)]
pub enum Supplement {
    /// Taught entirely from the crate (written `"none"` in the store).
    NotNeeded,
    /// The crate shows part of it; written material fills the rest.
    Partial,
    /// The crate does not exercise this at all.
    Full,
}

#[derive(Debug, Clone, Copy, PartialEq, Eq, Structural)]
pub enum UnitStatus {
    Written,
    Planned,
}

/// One unit of the narrative track (`narrative/<id>.toml`).
#[derive(Debug, Clone)]
pub struct NarrativeFile {
    pub schema: u32,
    pub unit: NarrativeUnit,
    pub steps: Vec<NarrativeStep>,
}

#[derive(Debug, Clone)]
pub struct NarrativeUnit {
    /// Must equal the file's stem.
    pub id: String,
    pub title: String,
    pub summary: String,
    pub expand_case: Option<String>,
    pub body: String,
}

/// One stop on the walk: a range in a pinned tree, and why the reader is here.
#[derive(Debug, Clone)]
pub struct NarrativeStep {
    pub id: String,
    pub source: String,
    pub file: String,
    pub lines: String,
    pub title: String,
    pub leans_on: Vec<String>,
    pub glossary: Vec<String>,
    pub annotation: Option<String>,
    pub emits: Option<String>,
    pub emits_from: Option<DeriveKind>,
    pub emits_case: Option<String>,
    pub body: String,
}

#[derive(Debug, Clone, Copy, PartialEq, Eq, PartialOrd, Ord, Structural)]
pub enum DeriveKind {
    Serialize,
    Deserialize,
}

impl DeriveKind {
    /// The derive's name as written in `#[derive(..)]`.
    pub fn label(self) -> (s: &'static str)
        ensures
            self is Serialize ==> s@ == "Serialize"@,
            self is Deserialize ==> s@ == "Deserialize"@,
    {
        match self {
            DeriveKind::Serialize => "Serialize",
            DeriveKind::Deserialize => "Deserialize",
        }
    }

    /// The derive a name written in `#[derive(..)]` stands for, if it is
    /// one of the two.
    pub fn parse(name: &str) -> (r: Option<DeriveKind>)
        ensures
            r == (if name@ == "Serialize"@ {
                Some(DeriveKind::Serialize)
            } else if name@ == "Deserialize"@ {
                Some(DeriveKind::Deserialize)
            } else {
                None
            }),
    {
        if crate::text::str_eq(name, "Serialize") {
            Some(DeriveKind::Serialize)
        } else if crate::text::str_eq(name, "Deserialize") {
            Some(DeriveKind::Deserialize)
        } else {
            None
        }
    }
}

/// Why a loaded file was refused.
#[derive(Debug, Clone, Copy, PartialEq, Eq, Structural)]
pub enum SchemaError {
    /// The file declares a schema version this build does not understand.
    UnknownSchema { found: u32 },
    /// A narrative unit's id is not its file's name.
    IdNotStem,
}

/// A file's schema version is the one this build understands.
pub fn check_schema(schema: u32) -> (r: Result<(), SchemaError>)
    ensures
        r is Ok <==> schema == SCHEMA_VERSION,
        r matches Err(e) ==> e == (SchemaError::UnknownSchema { found: schema }),
{
    if schema != SCHEMA_VERSION {
        return Err(SchemaError::UnknownSchema { found: schema });
    }
    Ok(())
}

impl NarrativeFile {
    /// Accepts a parsed narrative unit read from a file named `stem`: its
    /// schema must be understood, and its id must be the file's stem, since
    /// the filename is what orders the narrative.
    pub fn validate(self, stem: &str) -> (r: Result<NarrativeFile, SchemaError>)
        ensures
            self.schema != SCHEMA_VERSION ==> r == Err::<NarrativeFile, SchemaError>(
                SchemaError::UnknownSchema { found: self.schema },
            ),
            self.schema == SCHEMA_VERSION && self.unit.id@ != stem@ ==> r == Err::<
                NarrativeFile,
                SchemaError,
            >(SchemaError::IdNotStem),
            self.schema == SCHEMA_VERSION && self.unit.id@ == stem@ ==> r == Ok::<
                NarrativeFile,
                SchemaError,
            >(self),
    {
        if self.schema != SCHEMA_VERSION {
            return Err(SchemaError::UnknownSchema { found: self.schema });
        }
        if !crate::text::str_eq(self.unit.id.as_str(), stem) {
            return Err(SchemaError::IdNotStem);
        }
        Ok(self)
    }
}

} // verus!
