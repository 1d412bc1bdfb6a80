use slbl::remap::{Change, FileMap};
use slbl::schema::LineRange;

fn map(old: &str, new: &str) -> FileMap {
    FileMap::build(old, new).unwrap()
}

fn r(s: u32, e: u32) -> LineRange {
    LineRange { start: s, end: e }
}

fn span(m: &FileMap, s: u32, e: u32) -> (Option<(u32, u32)>, Change) {
    let out = m.remap(r(s, e)).unwrap();
    (out.range.map(|x| (x.start, x.end)), out.change)
}

#[test]
fn identical_files_map_to_themselves() {
    let text = "a\nb\nc\nd\n";
    let m = map(text, text);
    assert!(m.is_identity());
    assert_eq!(span(&m, 2, 3), (Some((2, 3)), Change::Unmoved));
}

#[test]
fn an_insertion_above_shifts_the_ranges_below_it() {
    let m = map("a\nb\nc\n", "a\nNEW\nNEW\nb\nc\n");
    assert!(!m.is_identity());
    assert_eq!(m.inserted_lines(), 2);
    assert_eq!(
        span(&m, 1, 1),
        (Some((1, 1)), Change::Unmoved),
        "line 1 did not move"
    );
    assert_eq!(
        span(&m, 2, 3),
        (
            Some((2, 5)),
            Change::Edited {
                deleted: 0,
                inserted: 2
            }
        )
    );
}

#[test]
fn a_deletion_inside_a_span_narrows_it() {
    let m = map("a\nb\nc\nd\n", "a\nb\nd\n");
    assert_eq!(m.deleted_lines(), 1);
    assert_eq!(
        span(&m, 2, 3),
        (
            Some((2, 2)),
            Change::Edited {
                deleted: 1,
                inserted: 0
            }
        ),
        "the span keeps b and loses c"
    );
    assert_eq!(
        span(&m, 4, 4),
        (Some((3, 3)), Change::Shifted),
        "d moved up but is otherwise untouched"
    );
}

#[test]
fn a_span_whose_lines_all_vanish_is_reported_not_guessed() {
    let m = map("keep\ngone\ngone\nkeep\n", "keep\nkeep\n");
    let out = m.remap(r(2, 3)).unwrap();
    assert!(out.range.is_none());
    assert_eq!(out.change, Change::Deleted);
    assert!(out.change.needs_review());
}

#[test]
fn a_tiling_partition_stays_tiling() {
    let old = "1\n2\n3\n4\n5\n6\n7\n8\n";
    let new = "1\n2\nX\n4\n5\n6\nY\nZ\n7\n8\nW\n";
    let m = map(old, new);

    let partition = [r(1, 2), r(3, 3), r(4, 6), r(7, 8)];
    let mut cursor = 1u32;
    for range in partition {
        let out = m.remap(range).unwrap();
        let got = out.range.expect("nothing was deleted outright");
        assert_eq!(got.start, cursor, "gap or overlap before {range:?}");
        cursor = got.end + 1;
    }
    assert_eq!(
        cursor as usize - 1,
        m.new_len(),
        "the last span must reach the end of the file"
    );
}

#[test]
fn trailing_insertions_extend_the_final_span() {
    let m = map("a\nb\n", "a\nb\nc\nd\n");
    assert_eq!(
        span(&m, 2, 2),
        (
            Some((2, 4)),
            Change::Edited {
                deleted: 0,
                inserted: 2
            }
        )
    );
}

#[test]
fn a_rewritten_line_is_flagged_rather_than_passed_through() {
    let m = map("a\nold\nc\n", "a\nnew\nc\n");
    assert_eq!(
        span(&m, 2, 2),
        (
            Some((2, 2)),
            Change::Edited {
                deleted: 1,
                inserted: 1
            }
        ),
        "same place, different code: the prose needs a look"
    );
}

#[test]
fn a_range_past_the_end_of_the_old_file_is_an_error() {
    let m = map("a\nb\n", "a\nb\nc\n");
    assert!(m.remap(r(2, 9)).is_err());
}

#[test]
fn a_file_too_large_to_align_is_refused() {
    let old: String = (0..3000).map(|i| format!("old {i}\n")).collect();
    let new: String = (0..3000).map(|i| format!("new {i}\n")).collect();
    assert!(FileMap::build(&old, &new).is_err());
}

#[test]
fn an_unchanged_file_reports_no_edits() {
    let m = map("x\ny\n", "x\ny\n");
    assert_eq!(m.old_len(), 2);
    assert_eq!(m.new_len(), 2);
    assert_eq!(m.inserted_lines(), 0);
    assert_eq!(m.deleted_lines(), 0);
}

#[test]
fn only_an_unchanged_file_is_reported_unchanged() {
    assert!(FileMap::build("a\nb\nc\n", "a\nb\nc\n").unwrap().is_identity());
    assert!(!FileMap::build("a\nb\nc\n", "a\nx\nc\n").unwrap().is_identity());
    assert!(!FileMap::build("a\nb\n", "a\nb\nb\n").unwrap().is_identity());
    assert!(!FileMap::build("a\nb\n", "b\na\n").unwrap().is_identity());
}
