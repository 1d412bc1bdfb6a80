use slbl::blocks::{blocks_for, emit_block, BlockError, Expansion};
use slbl::course_page::course_block;
use slbl::glossary_page::{gloss_entry, gloss_group};
use slbl::highlight::{highlight_at, Highlighter};
use slbl::narrative_page::{narrative_nav, step_block};
use slbl::schema::{
    Annotation, CourseUnit, DeriveKind, GlossaryEntry, Kind, LineRange, NarrativeStep, NarrativeUnit,
    Supplement, Track, UnitStatus,
};
use slbl::site::{macro_defs, Line, Pages};
use slbl::store::{GlossaryItem, NarrativeItem, NarrativeStepItem, SourceStore, Store, Unit};
use slbl::vendor::{Role, Source};

fn unit(id: &str, start: u32, end: u32, kind: Kind, macro_def: Option<&str>) -> Unit {
    Unit {
        range: LineRange { start, end },
        source: "serde_core".to_string(),
        annotation: Annotation {
            id: id.to_string(),
            file: "src/lib.rs".to_string(),
            lines: format!("{start}-{end}"),
            title: format!("Title {id}"),
            kind,
            tracks: vec![Track::Reference, Track::Course],
            course_unit: Some("02-second".to_string()),
            rust_features: vec!["traits".to_string()],
            examples: Vec::new(),
            prereqs: Vec::new(),
            glossary: vec!["syn::DeriveInput".to_string()],
            macro_def: macro_def.map(|s| s.to_string()),
            emits: None,
            emits_from: None,
            emits_case: None,
            body: "Some *prose*.".to_string(),
        },
    }
}

fn lines(n: u32) -> Vec<Line> {
    (1..=n).map(|i| Line { number: i, html: format!("l{i}") }).collect()
}

fn store_with(units: Vec<Unit>, course: Vec<CourseUnit>) -> Store {
    Store {
        sources: vec![SourceStore {
            name: "serde_core".to_string(),
            version: "1.0.229".to_string(),
            source_id: "serde_core-1.0.229".to_string(),
            by_file: vec![("src/lib.rs".to_string(), units)],
            files: vec![("src/lib.rs".to_string(), 20)],
            complete: Vec::new(),
        }],
        course,
        ..Store::default()
    }
}

fn course_unit(id: &str, title: &str) -> CourseUnit {
    CourseUnit {
        id: id.to_string(),
        title: title.to_string(),
        supplement: Supplement::NotNeeded,
        status: UnitStatus::Written,
        prereqs: Vec::new(),
        glossary: Vec::new(),
        rust_features: Vec::new(),
        examples: Vec::new(),
        summary: "s".to_string(),
        body: "b".to_string(),
    }
}

#[test]
fn a_file_is_laid_out_as_gaps_runs_and_annotations() {
    let units = vec![
        unit("def", 3, 4, Kind::MacroDef, None),
        unit("use-1", 6, 6, Kind::MacroUse, Some("def")),
        unit("use-2", 7, 8, Kind::MacroUse, Some("def")),
        unit("plain", 12, 12, Kind::TraitItem, None),
    ];
    let store = store_with(units.clone(), Vec::new());
    let pages = Pages::new(&store);
    let defs = macro_defs(&store);
    let hl = Highlighter::new();
    let blocks = blocks_for(&units, &lines(20), &defs, &pages, &[], &hl, "src/lib.rs").unwrap();
    let shape: Vec<(&str, &str)> = blocks.iter().map(|b| (b.id.as_str(), b.range_label.as_str())).collect();
    assert_eq!(
        shape,
        vec![
            ("L1", "lines 1\u{2013}2"),
            ("def", "lines 3\u{2013}4"),
            ("L5", "line 5"),
            ("uses-L6", "lines 6\u{2013}8"),
            ("L9", "lines 9\u{2013}11"),
            ("plain", "line 12"),
            ("L13", "lines 13\u{2013}20"),
        ]
    );
    let run = &blocks[3];
    assert_eq!(run.uses.len(), 2);
    assert_eq!(run.kind, "macro use \u{d7}2");
    assert_eq!(run.expands_href, "#def");
    let plain = &blocks[5];
    assert_eq!(plain.kind, "trait item");
    assert_eq!(plain.glossary[0].anchor, "syn-DeriveInput");
    assert!(plain.body_html.contains("<em>prose</em>"));
    let tail = &blocks[6];
    assert_eq!(tail.code.len(), 6);
    assert_eq!(tail.hidden_lines, 2);
}

#[test]
fn a_claim_is_quoted_from_the_expansion_with_its_line_numbers() {
    let hl = Highlighter::new();
    let expansions = vec![Expansion {
        case: "basic".to_string(),
        kind: DeriveKind::Serialize,
        text: "impl Serialize for S {\n    fn serialize(&self) {\n        todo()\n    }\n}\n".to_string(),
    }];
    let e = emit_block(&expansions, &hl, "a-1", "fn serialize(&self) {\n  todo()", DeriveKind::Serialize, "basic").unwrap();
    assert_eq!(e.derive, "Serialize");
    assert_eq!(e.range_label, "lines 2\u{2013}3");
    let nums: Vec<u32> = e.code.iter().map(|l| l.number).collect();
    assert_eq!(nums, vec![2, 3]);
    assert!(matches!(
        emit_block(&expansions, &hl, "a-1", "fn other()", DeriveKind::Serialize, "basic"),
        Err(BlockError::NotEmitted { .. })
    ));
    assert!(matches!(
        emit_block(&expansions, &hl, "a-1", "fn serialize", DeriveKind::Deserialize, "basic"),
        Err(BlockError::NoExpansion { .. })
    ));
}

#[test]
fn a_course_block_names_what_it_assumes_from_later_units() {
    let mut early = unit("early", 1, 2, Kind::TraitItem, None);
    early.annotation.prereqs = vec!["later".to_string()];
    early.annotation.course_unit = Some("01-first".to_string());
    let later = unit("later", 3, 4, Kind::TraitItem, None);
    let store = store_with(
        vec![early.clone(), later],
        vec![course_unit("01-first", "First"), course_unit("02-second", "Second")],
    );
    let pages = Pages::new(&store);
    let hl = Highlighter::new();
    let c = course_block(&early, &lines(20), &[], &pages, &[], &hl, 0, &store).unwrap();
    assert_eq!(c.href, "src-lib.rs.html#early");
    assert_eq!(c.assumes.len(), 1);
    assert_eq!(c.assumes[0].title, "Title later");
    assert_eq!(c.assumes[0].unit_title, "Second");
    assert_eq!(c.assumes[0].href, "02-second.html#later");
    let c2 = course_block(&early, &lines(20), &[], &pages, &[], &hl, 1, &store).unwrap();
    assert!(c2.assumes.is_empty());
}

fn step(id: &str, leans_on: &[&str]) -> NarrativeStepItem {
    NarrativeStepItem {
        step: NarrativeStep {
            id: id.to_string(),
            source: "serde_derive-1.0.228".to_string(),
            file: "src/ser.rs".to_string(),
            lines: "10-11".to_string(),
            title: format!("Step {id}"),
            leans_on: leans_on.iter().map(|s| s.to_string()).collect(),
            glossary: Vec::new(),
            annotation: None,
            emits: None,
            emits_from: None,
            emits_case: None,
            body: "Why.".to_string(),
        },
        range: LineRange { start: 10, end: 11 },
        crate_name: "serde_derive".to_string(),
        version: "1.0.228".to_string(),
        is_coverage: false,
        claimed: false,
        quoted: "let x = 1;\nlet y = 2;".to_string(),
    }
}

#[test]
fn a_step_is_numbered_where_it_sits_and_links_what_it_leans_on() {
    let unit_a = NarrativeItem {
        unit: NarrativeUnit {
            id: "01-input".to_string(),
            title: "Input".to_string(),
            summary: "The input.".to_string(),
            expand_case: None,
            body: "b".to_string(),
        },
        steps: vec![step("s-1", &[]), step("s-2", &["s-1", "nowhere"])],
    };
    let nav = narrative_nav(&unit_a);
    assert_eq!((nav.number.as_str(), nav.href.as_str(), nav.steps, nav.crossings), ("01", "01-input.html", 2, 0));
    let store = store_with(Vec::new(), Vec::new());
    let pages = Pages::new(&store);
    let hl = Highlighter::new();
    let units = vec![unit_a];
    let b = step_block(&units[0].steps[1], &units[0], &units, &store, &pages, &[], &hl).unwrap();
    assert_eq!(b.origin, "serde_derive 1.0.228");
    assert_eq!(b.code.iter().map(|l| l.number).collect::<Vec<_>>(), vec![10, 11]);
    assert_eq!(b.leans_on.len(), 1);
    assert_eq!(b.leans_on[0].href, "01-input.html#s-1");
    assert_eq!(b.leans_on[0].title, "Step s-1");
    assert!(b.annotation_href.is_empty());
}

#[test]
fn glossary_entries_are_grouped_by_the_crate_they_quote() {
    let item = |id: &str, source_id: &str| GlossaryItem {
        entry: GlossaryEntry {
            id: id.to_string(),
            file: "src/derive.rs".to_string(),
            lines: "5-6".to_string(),
            title: "The input".to_string(),
            see_also: vec!["syn::Data".to_string()],
            body: "b".to_string(),
        },
        range: LineRange { start: 5, end: 6 },
        source_id: source_id.to_string(),
        quoted: "pub struct DeriveInput {\n}".to_string(),
    };
    let syn = Source {
        name: "proc-macro2".to_string(),
        version: "1.0.107".to_string(),
        role: Role::Glossary,
        crate_sha256: String::new(),
        src_tree_sha256: String::new(),
    };
    let hl = Highlighter::new();
    let e = gloss_entry(&item("syn::DeriveInput", "proc-macro2-1.0.107"), &syn, &hl).unwrap();
    assert_eq!(e.short, "DeriveInput");
    assert_eq!(e.anchor, "syn-DeriveInput");
    assert_eq!(e.upstream, "https://docs.rs/proc-macro2/1.0.107/proc_macro2");
    assert_eq!(e.code.iter().map(|l| l.number).collect::<Vec<_>>(), vec![5, 6]);
    assert_eq!(e.see_also[0].anchor, "syn-Data");
    let items = vec![item("a::A", "proc-macro2-1.0.107"), item("b::B", "quote-1.0.0"), item("c::C", "proc-macro2-1.0.107")];
    let g = gloss_group(&items, &syn, &hl).unwrap().unwrap();
    assert_eq!(g.entries.iter().map(|e| e.id.as_str()).collect::<Vec<_>>(), vec!["a::A", "c::C"]);
    assert_eq!(g.anchor, "proc-macro2");
    let none = Source { name: "other".to_string(), ..syn.clone() };
    assert!(gloss_group(&items, &none, &hl).unwrap().is_none());
}

#[test]
fn highlighted_lines_can_start_anywhere() {
    let hl = Highlighter::new();
    let code = highlight_at(&hl, "a\nb\n", 41).unwrap();
    assert_eq!(code.iter().map(|l| l.number).collect::<Vec<_>>(), vec![41, 42]);
}
