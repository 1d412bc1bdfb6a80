use slbl::stats::{accept_dir, dir_arg, DirArg};

fn args(a: &[&str]) -> Vec<String> {
    a.iter().map(|s| s.to_string()).collect()
}

#[test]
fn stats_without_dir_measures_the_pin() {
    assert!(dir_arg(&args(&[])).unwrap().is_none());
}

#[test]
fn stats_dir_takes_any_tree_with_a_src() {
    let got = dir_arg(&args(&["--dir", "../core"])).unwrap();
    assert_eq!(got.as_deref(), Some("../core"));
    let kept = accept_dir(got.unwrap(), true).unwrap();
    assert_eq!(kept, "../core");
}

/// A typo'd path measured as if it were empty would report a crate with no
/// files and no error, which is the one outcome a scoping measurement must
/// not produce.
#[test]
fn stats_dir_rejects_a_tree_with_no_src() {
    let got = dir_arg(&args(&["--dir", "../docs"])).unwrap().unwrap();
    let err = accept_dir(got, false).unwrap_err();
    assert!(err.message().contains("no src/"), "{}", err.message());
}

#[test]
fn stats_dir_needs_a_path() {
    let err = dir_arg(&args(&["--dir"])).unwrap_err();
    assert!(matches!(err, DirArg::MissingPath));
    assert_eq!(err.message(), "--dir takes a path");
}

#[test]
fn the_first_dir_flag_wins() {
    let got = dir_arg(&args(&["x", "--dir", "a", "--dir", "b"])).unwrap();
    assert_eq!(got.as_deref(), Some("a"));
}
