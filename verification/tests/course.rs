use slbl::schema::{Annotation, Kind, LineRange, Track};
use slbl::store::{SourceStore, Store, Unit};

fn annotation(id: &str, file: &str, line: u32, prereqs: &[&str]) -> Unit {
    Unit {
        range: LineRange::parse(&line.to_string()).unwrap(),
        source: "serde_core".to_string(),
        annotation: Annotation {
            id: id.to_string(),
            file: file.to_string(),
            lines: line.to_string(),
            title: id.to_string(),
            kind: Kind::TraitItem,
            tracks: vec![Track::Course],
            course_unit: Some("01-unit".to_string()),
            rust_features: Vec::new(),
            examples: Vec::new(),
            prereqs: prereqs.iter().map(|s| s.to_string()).collect(),
            glossary: Vec::new(),
            macro_def: None,
            emits: None,
            emits_from: None,
            emits_case: None,
            body: "body".to_string(),
        },
    }
}

/// Puts `(file, units)` into a source keyed by file, in file order.
fn put(source: &mut SourceStore, file: &str, units: Vec<Unit>) {
    source.by_file.retain(|(f, _)| f != file);
    let at = source
        .by_file
        .iter()
        .position(|(f, _)| f.as_str() > file)
        .unwrap_or(source.by_file.len());
    source.by_file.insert(at, (file.to_string(), units));
}

fn store_of(name: &str, reading_order: &[&str], files: &[(&str, Vec<Unit>)]) -> Store {
    let mut source = SourceStore {
        name: name.to_string(),
        ..SourceStore::default()
    };
    for (file, units) in files {
        source.files.push((file.to_string(), 1000));
        put(&mut source, file, units.clone());
    }
    Store {
        sources: vec![source],
        reading_order: reading_order.iter().map(|s| s.to_string()).collect(),
        ..Store::default()
    }
}

fn order_of(store: &Store) -> Vec<String> {
    store
        .course_annotations("01-unit")
        .iter()
        .map(|u| u.annotation.id.clone())
        .collect()
}

#[test]
fn course_order_respects_prereqs_then_reading_order() {
    let store = store_of(
        "serde_core",
        &["src/ser/mod.rs", "src/de/impls.rs"],
        &[
            (
                "src/ser/mod.rs",
                vec![
                    annotation("c", "src/ser/mod.rs", 100, &["a"]),
                    annotation("b", "src/ser/mod.rs", 500, &[]),
                ],
            ),
            (
                "src/de/impls.rs",
                vec![annotation("a", "src/de/impls.rs", 10, &[])],
            ),
        ],
    );
    assert_eq!(order_of(&store), ["b", "a", "c"]);
}

#[test]
fn unlisted_files_sort_last() {
    let store = store_of(
        "serde_core",
        &["src/ser/mod.rs"],
        &[
            (
                "src/de/mod.rs",
                vec![annotation("x", "src/de/mod.rs", 1, &[])],
            ),
            (
                "src/ser/mod.rs",
                vec![annotation("y", "src/ser/mod.rs", 900, &[])],
            ),
        ],
    );
    assert_eq!(order_of(&store), ["y", "x"]);
}

#[test]
fn a_bare_reading_order_entry_does_not_rank_the_other_source() {
    let mut store = store_of(
        "serde_core",
        &["src/lib.rs", "serde_derive:src/ser.rs"],
        &[(
            "src/lib.rs",
            vec![annotation("core-lib", "src/lib.rs", 10, &[])],
        )],
    );
    let mut derive = SourceStore {
        name: "serde_derive".to_string(),
        ..SourceStore::default()
    };
    let mut lib = annotation("derive-lib", "src/lib.rs", 5, &[]);
    lib.source = "serde_derive".to_string();
    let mut ser = annotation("derive-ser", "src/ser.rs", 5, &[]);
    ser.source = "serde_derive".to_string();
    put(&mut derive, "src/lib.rs", vec![lib]);
    put(&mut derive, "src/ser.rs", vec![ser]);
    store.sources.push(derive);
    assert_eq!(order_of(&store), ["core-lib", "derive-ser", "derive-lib"]);
}

#[test]
fn a_cycle_falls_back_to_position_order() {
    let store = store_of(
        "serde_core",
        &["src/lib.rs"],
        &[(
            "src/lib.rs",
            vec![
                annotation("p", "src/lib.rs", 1, &["q"]),
                annotation("q", "src/lib.rs", 2, &["p"]),
            ],
        )],
    );
    assert_eq!(order_of(&store), ["p", "q"]);
}

#[test]
fn a_prereq_in_another_unit_does_not_hold_an_annotation_back() {
    let mut elsewhere = annotation("far", "src/lib.rs", 50, &[]);
    elsewhere.annotation.course_unit = Some("02-other".to_string());
    let store = store_of(
        "serde_core",
        &["src/lib.rs"],
        &[(
            "src/lib.rs",
            vec![annotation("near", "src/lib.rs", 1, &["far"]), elsewhere],
        )],
    );
    assert_eq!(order_of(&store), ["near"]);
}
