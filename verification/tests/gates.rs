use slbl::audit::{check_example_pins, check_vendor_dirs, feature_slugs};
use slbl::coverage::{cover_source, Diagnostics, Finding, SourceInput};
use slbl::cycle::find_cycle;
use slbl::harness::{lock_has, retarget};
use slbl::load::{collect_annotations, quote, LoadError};
use slbl::schema::{Annotation, AnnotationFile, Kind, LineRange, Track};
use slbl::stats::{by_size, measure};
use slbl::vendor::{Pin, Role, Source};

fn ann(id: &str, file: &str, lines: &str, prereqs: &[&str]) -> Annotation {
    Annotation {
        id: id.to_string(),
        file: file.to_string(),
        lines: lines.to_string(),
        title: id.to_string(),
        kind: Kind::TraitItem,
        tracks: vec![Track::Reference],
        course_unit: None,
        rust_features: Vec::new(),
        examples: Vec::new(),
        prereqs: prereqs.iter().map(|s| s.to_string()).collect(),
        glossary: Vec::new(),
        macro_def: None,
        emits: None,
        emits_from: None,
        emits_case: None,
        body: "body".to_string(),
    }
}

fn input(annotations: Vec<Annotation>, files: &[(&str, u32)], complete: &[&str]) -> SourceInput {
    SourceInput {
        name: "serde_core".to_string(),
        source_id: "serde_core-1.0.229".to_string(),
        files: files.iter().map(|(f, n)| (f.to_string(), *n)).collect(),
        complete: complete.iter().map(|s| s.to_string()).collect(),
        annotations,
    }
}

fn source(name: &str, version: &str, role: Role) -> Source {
    Source {
        name: name.to_string(),
        version: version.to_string(),
        role,
        crate_sha256: String::new(),
        src_tree_sha256: String::new(),
    }
}

#[test]
fn a_prereq_cycle_is_found_and_named_from_its_start() {
    let loaded = vec![input(
        vec![ann("a", "src/lib.rs", "1", &["b"]), ann("b", "src/lib.rs", "2", &["c"]), ann("c", "src/lib.rs", "3", &["a"])],
        &[("src/lib.rs", 3)],
        &[],
    )];
    let cycle = find_cycle(&loaded).unwrap();
    assert_eq!(cycle, vec!["a", "b", "c", "a"]);
}

#[test]
fn an_acyclic_graph_has_no_cycle() {
    let loaded = vec![input(
        vec![ann("a", "src/lib.rs", "1", &[]), ann("b", "src/lib.rs", "2", &["a"]), ann("c", "src/lib.rs", "3", &["a", "b"])],
        &[("src/lib.rs", 3)],
        &[],
    )];
    assert!(find_cycle(&loaded).is_none());
}

#[test]
fn coverage_counts_claimed_lines_and_reports_the_gap() {
    let loaded = input(
        vec![ann("a", "src/lib.rs", "1-3", &[]), ann("b", "src/lib.rs", "6-10", &[])],
        &[("src/lib.rs", 10), ("src/de.rs", 4)],
        &["src/lib.rs"],
    );
    let mut diag = Diagnostics::new();
    let cov = cover_source(&loaded, &mut diag);
    assert_eq!(cov.total_lines, 14);
    assert_eq!(cov.claimed_lines, 8);
    assert_eq!(cov.annotations, 2);
    assert_eq!(diag.errors.len(), 1);
    match &diag.errors[0] {
        Finding::Unclaimed { file, count, gaps, complete, .. } => {
            assert_eq!(file, "src/lib.rs");
            assert_eq!(*count, 2);
            assert_eq!(gaps, "4-5");
            assert!(*complete);
        }
        other => panic!("{other:?}"),
    }
}

#[test]
fn overlapping_claims_are_an_error() {
    let loaded = input(
        vec![ann("a", "src/lib.rs", "1-5", &[]), ann("b", "src/lib.rs", "5-8", &[])],
        &[("src/lib.rs", 8)],
        &[],
    );
    let mut diag = Diagnostics::new();
    cover_source(&loaded, &mut diag);
    assert!(diag.errors.iter().any(|f| matches!(f, Finding::Overlap { first, second, .. } if first == "a" && second == "b")));
}

#[test]
fn a_harness_requirement_is_retargeted_once() {
    let text = "[dependencies]\nsyn = { version = \"=3.0.3\", default-features = false }\n";
    let out = retarget(text, "syn", "3.0.4").unwrap();
    assert_eq!(out, "[dependencies]\nsyn = { version = \"=3.0.4\", default-features = false }\n");
    assert!(retarget(&out, "syn", "3.0.4").is_none());
    assert!(retarget(text, "quote", "1.0.0").is_none());
}

#[test]
fn the_lock_is_read_for_an_exact_version() {
    let lock = "[[package]]\nname = \"syn\"\nversion = \"2.0.1\"\n\n[[package]]\nname = \"syn\"\nversion = \"3.0.3\"\n";
    assert!(lock_has(lock, "syn", "3.0.3"));
    assert!(lock_has(lock, "syn", "2.0.1"));
    assert!(!lock_has(lock, "syn", "3.0.4"));
    assert!(!lock_has(lock, "quote", "3.0.3"));
}

#[test]
fn files_are_measured_and_ordered_by_size() {
    let small = measure("src/a.rs", "//! doc\nfn a() {}\n");
    assert_eq!((small.lines, small.doc, small.items), (2, 1, 1));
    let big = measure("src/b.rs", "macro_rules! m {\n}\nm!(x);\nquote! { y }\nstruct S;\n");
    assert_eq!(big.lines, 5);
    assert_eq!(big.macro_defs, 1);
    assert!(big.macro_uses >= 1);
    let order: Vec<String> = by_size(vec![small, big]).into_iter().map(|s| s.file).collect();
    assert_eq!(order, vec!["src/b.rs", "src/a.rs"]);
}

#[test]
fn the_feature_vocabulary_is_read_from_its_doc() {
    let doc = "# Features\n\n- `traits` - traits\n- `generics` - generic types\nprose\n";
    assert_eq!(feature_slugs(doc).unwrap(), vec!["generics", "traits"]);
    assert!(feature_slugs("nothing here\n").is_err());
}

#[test]
fn an_unpinned_vendor_directory_is_an_error() {
    let pin = Pin { sources: vec![source("serde_core", "1.0.229", Role::Coverage)] };
    let mut diag = Diagnostics::new();
    check_vendor_dirs(&pin, &vec!["serde_core-1.0.229".to_string(), "stray-0.1.0".to_string()], &mut diag);
    assert_eq!(diag.errors.len(), 1);
    assert!(matches!(&diag.errors[0], Finding::UnpinnedVendorDir { name } if name == "stray-0.1.0"));
}

#[test]
fn an_example_pinned_to_another_version_is_an_error() {
    let manifests = vec![
        ("examples/a/Cargo.toml".to_string(), "[dependencies]\nserde_core = \"=1.0.229\"\n".to_string()),
        ("examples/b/Cargo.toml".to_string(), "[dependencies]\nserde_core = \"=1.0.228\"\n".to_string()),
    ];
    let mut diag = Diagnostics::new();
    check_example_pins("serde_core", "1.0.229", &manifests, &mut diag);
    assert_eq!(diag.errors.len(), 1);
    assert!(matches!(&diag.errors[0], Finding::ExamplePin { path, .. } if path == "examples/b/Cargo.toml"));
}

#[test]
fn a_quotation_is_the_cited_lines() {
    let text = "one\ntwo\nthree\n";
    assert_eq!(quote(text, LineRange { start: 2, end: 3 }).unwrap(), "two\nthree");
    assert!(quote(text, LineRange { start: 3, end: 4 }).is_none());
}

#[test]
fn annotation_files_must_name_the_source() {
    let file = |source: &str| AnnotationFile {
        schema: 1,
        source: source.to_string(),
        annotations: vec![ann("a", "src/lib.rs", "1", &[])],
    };
    let ok = collect_annotations(vec![("annotations/a.toml".to_string(), file("serde_core-1.0.229"))], "serde_core-1.0.229").unwrap();
    assert_eq!(ok.len(), 1);
    let err = collect_annotations(vec![("annotations/a.toml".to_string(), file("serde_core-1.0.1"))], "serde_core-1.0.229");
    assert!(matches!(err, Err(LoadError::SourceMismatch { .. })));
}

#[test]
fn a_file_claimed_once_per_line_passes_the_gate() {
    let loaded = input(
        vec![ann("a", "src/lib.rs", "1-3", &[]), ann("b", "src/lib.rs", "4-10", &[])],
        &[("src/lib.rs", 10)],
        &["src/lib.rs"],
    );
    let mut diag = Diagnostics::new();
    let cov = cover_source(&loaded, &mut diag);
    assert!(diag.errors.is_empty(), "{:?}", diag.errors);
    assert_eq!(cov.claimed_lines, 10);
    assert_eq!(cov.files[0].gaps.len(), 0);
}
