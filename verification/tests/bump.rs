use slbl::bump::{fmt_range, index_path, parse_args, ArgError};
use slbl::schema::LineRange;

fn args(list: &[&str]) -> Vec<String> {
    list.iter().map(|s| s.to_string()).collect()
}

#[test]
fn index_paths_follow_the_cargo_layout() {
    assert_eq!(index_path("a"), "1/a");
    assert_eq!(index_path("ab"), "2/ab");
    assert_eq!(index_path("abc"), "3/a/abc");
    assert_eq!(index_path("serde_core"), "se/rd/serde_core");
}

#[test]
fn a_single_line_range_stays_single() {
    assert_eq!(fmt_range(LineRange { start: 7, end: 7 }), "7");
    assert_eq!(fmt_range(LineRange { start: 7, end: 9 }), "7-9");
}

#[test]
fn flags_and_the_version_are_read_in_any_order() {
    let o = parse_args(&args(&["--dry-run", "1.0.230", "--sha256", "abc", "--keep-old"])).unwrap();
    assert_eq!(o.version, "1.0.230");
    assert!(o.dry_run && o.keep_old && !o.allow_orphans);
    assert_eq!(o.sha256.as_deref(), Some("abc"));
    assert!(o.archive.is_none());
}

#[test]
fn bad_arguments_are_refused() {
    assert!(matches!(parse_args(&args(&[])), Err(ArgError::Usage)));
    assert!(matches!(parse_args(&args(&["--archive"])), Err(ArgError::MissingValue { .. })));
    assert!(matches!(parse_args(&args(&["--fast", "1.0.0"])), Err(ArgError::UnknownFlag { .. })));
    assert!(matches!(parse_args(&args(&["1.0.0", "2.0.0"])), Err(ArgError::Unexpected { .. })));
}

use slbl::bump::{mentions_in, notice, retarget_example, scanned_file, skipped_dir, sort_mentions, Mention};
use slbl::plan::{FileOutcome, Orphan, OrphanWhy, Plan, Review};
use slbl::store_edit::Edits;
use slbl::vendor::{Role, Source};

#[test]
fn an_example_manifest_is_moved_to_the_new_version() {
    let text = "[dependencies]\nserde_core = \"=1.0.229\"\nother = \"1\"\n";
    let out = retarget_example(text, "serde_core", "1.0.229", "1.0.230").unwrap();
    assert_eq!(out, "[dependencies]\nserde_core = \"=1.0.230\"\nother = \"1\"\n");
    assert!(retarget_example("serde_core = \"1.0.229\"\n", "serde_core", "1.0.229", "1.0.230").is_none());
}

#[test]
fn mentions_are_found_by_line_and_sorted() {
    let found = mentions_in("README.md", "uses 1.0.229\nnothing\nstill 1.0.229 here\n", "1.0.229");
    assert_eq!(found.len(), 2);
    assert_eq!((found[0].line, found[0].text.as_str()), (1, "uses 1.0.229"));
    assert_eq!((found[1].line, found[1].text.as_str()), (3, "still 1.0.229 here"));
    let mut all = mentions_in("b.md", "1.0.229\n", "1.0.229");
    all.extend(found);
    all.push(Mention { file: "a.rs".to_string(), line: 9, text: "x".to_string() });
    let sorted = sort_mentions(all);
    let order: Vec<(&str, usize)> = sorted.iter().map(|m| (m.file.as_str(), m.line)).collect();
    assert_eq!(order, vec![("README.md", 1), ("README.md", 3), ("a.rs", 9), ("b.md", 1)]);
}

#[test]
fn the_scan_skips_history_output_and_migrations() {
    for d in [".git", "target", "site", "vendor", "migrations"] {
        assert!(skipped_dir(d));
    }
    assert!(!skipped_dir("docs"));
    assert!(scanned_file("README.md", Some("md")));
    assert!(scanned_file("ci.yaml", Some("yaml")));
    assert!(!scanned_file("Cargo.lock", Some("lock")));
    assert!(!scanned_file("logo.png", Some("png")));
    assert!(!scanned_file("Makefile", None));
}

#[test]
fn the_notice_names_the_source_and_its_checksum() {
    let s = Source {
        name: "serde_core".to_string(),
        version: "1.0.230".to_string(),
        role: Role::Coverage,
        crate_sha256: "abc".to_string(),
        src_tree_sha256: "def".to_string(),
    };
    let n = notice(&s);
    assert!(n.starts_with("# Vendored third-party source\n\n## serde_core 1.0.230\n\n"));
    assert!(n.contains("- crates.io: https://crates.io/crates/serde_core/1.0.230\n"));
    assert!(n.contains("- sha256: `abc`\n"));
    assert!(n.contains("(see `serde_core-1.0.230/LICENSE-MIT`\n  and `serde_core-1.0.230/LICENSE-APACHE`)"));
    assert!(n.ends_with("lives in `annotations/`, `examples/`, `app/`, and `xtask/`.\n"));
}

fn outcome(file: &str, old: u32, new: u32, shifted: usize, unclaimed: u32) -> FileOutcome {
    FileOutcome { file: file.to_string(), old_lines: old, new_lines: new, shifted, edited: 0, dropped: 0, unclaimed }
}

#[test]
fn the_summary_lists_only_files_that_moved() {
    let plan = Plan {
        old_version: "1.0.1".to_string(),
        new_version: "1.0.2".to_string(),
        edits: Vec::<(String, Edits)>::new(),
        files: vec![outcome("src/lib.rs", 10, 12, 1, 0), outcome("src/de.rs", 5, 5, 0, 0)],
        added: vec![("src/new.rs".to_string(), 4)],
        removed: vec!["src/old.rs".to_string()],
        reviews: vec![Review {
            id: "a-1".to_string(),
            file: "src/lib.rs".to_string(),
            from: "1-3".to_string(),
            to: "1-4".to_string(),
            deleted: 0,
            inserted: 1,
        }],
        orphans: vec![Orphan {
            id: "a-2".to_string(),
            file: "src/old.rs".to_string(),
            from: "2".to_string(),
            why: OrphanWhy::FileGone,
        }],
        reading_order: Vec::new(),
        complete: Vec::new(),
        now_incomplete: vec!["src/lib.rs".to_string()],
    };
    let text = plan.summary("serde_core");
    let expected = format!(
        "\nserde_core-1.0.1 -> serde_core-1.0.2\n\n\
         {:<26}{:>11}{:>9}{:>8}{:>8}{:>11}\n\
         {:<26}{:>11}{:>9}{:>8}{:>8}{:>11}\n\
         \n1 file(s) unchanged and left alone\n  \
         new file: src/new.rs (4 lines, none annotated)\n  \
         removed:  src/old.rs\n\
         \n1 annotation(s) still point at real code, but the code changed:\n  \
         {:<20} src/lib.rs 1-3 -> 1-4  (-0 +1)\n\
         \n1 annotation(s) have nothing left to point at:\n  \
         {:<20} src/old.rs 2  \u{2014} the file is gone from the new release\n\
         \n1 file(s) are marked complete but will have unclaimed lines; coverage will fail until they are annotated:\n  \
         src/lib.rs\n",
        "file", "lines", "shifted", "edited", "dropped", "unclaimed",
        "src/lib.rs", "10 -> 12", 1, 0, 0, 0,
        "a-1", "a-2",
    );
    assert_eq!(text, expected);
}

#[test]
fn a_named_source_is_carried() {
    let o = parse_args(&args(&["--source", "serde_derive", "1.0.230"])).unwrap();
    assert_eq!(o.version, "1.0.230");
    assert_eq!(o.source.as_deref(), Some("serde_derive"));
    assert!(!o.dry_run);
    assert!(o.archive.is_none() && o.sha256.is_none());
    let plain = parse_args(&args(&["1.0.230"])).unwrap();
    assert_eq!(plain.source, None);
    assert!(matches!(parse_args(&args(&["1.0.230", "--source"])), Err(ArgError::MissingValue { .. })));
}

#[test]
fn a_written_range_reads_back() {
    for (start, end) in [(1, 1), (7, 9), (310, 318), (4294967295, 4294967295)] {
        let r = LineRange { start, end };
        let text = fmt_range(r);
        assert_eq!(text.contains('-'), start != end);
        assert_eq!(LineRange::parse(&text), Ok(r));
    }
}
