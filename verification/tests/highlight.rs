use slbl::highlight::{balance_lines, lines_with_endings, trim_newline_end, Balancer, Highlighter};

#[test]
fn multi_line_block_comment_stays_highlighted() {
    let hl = Highlighter::new();
    let src = "fn a() {}\n/* comment\n   still comment\n   end */\nfn b() {}\n";
    let lines = hl.file(src).unwrap();
    assert_eq!(lines.len(), 5);
    // The interior line carries no `/*` of its own, so isolated
    // highlighting would treat it as code. With carried state it must be
    // marked as comment.
    assert!(
        lines[2].html.contains("comment"),
        "line 3 lost its comment scope: {}",
        lines[2].html
    );
}

#[test]
fn every_line_is_balanced() {
    let hl = Highlighter::new();
    let src = "/* a\n b\n c */\nlet s = \"x\";\n";
    for line in hl.file(src).unwrap() {
        let opens = line.html.matches("<span").count();
        let closes = line.html.matches("</span>").count();
        assert_eq!(
            opens, closes,
            "unbalanced on line {}: {}",
            line.number, line.html
        );
    }
}

#[test]
fn line_numbers_are_one_indexed_and_dense() {
    let hl = Highlighter::new();
    let lines = hl.file("a\nb\nc\n").unwrap();
    let nums: Vec<u32> = lines.iter().map(|l| l.number).collect();
    assert_eq!(nums, vec![1, 2, 3]);
}

#[test]
fn lines_keep_their_endings_and_a_last_unterminated_piece() {
    assert_eq!(lines_with_endings("foo\nbar\nbaz"), vec!["foo\n", "bar\n", "baz"]);
    assert_eq!(lines_with_endings("a\n\nb\n"), vec!["a\n", "\n", "b\n"]);
    assert!(lines_with_endings("").is_empty());
}

#[test]
fn trailing_newlines_are_all_trimmed() {
    assert_eq!(trim_newline_end("x\n\n"), "x");
    assert_eq!(trim_newline_end("\nx"), "\nx");
}

#[test]
fn an_open_span_is_reopened_on_the_next_line() {
    let mut b = Balancer::new();
    let first = b.balance("<span class=\"comment\">/* a");
    assert_eq!(first, "<span class=\"comment\">/* a</span>");
    let second = b.balance("b */</span> x");
    assert_eq!(second, "<span class=\"comment\">b */</span> x");
    let third = b.balance("y");
    assert_eq!(third, "y");
}

#[test]
fn a_stray_close_and_an_unfinished_tag_change_nothing_open() {
    let mut b = Balancer::new();
    assert_eq!(b.balance("</span>a"), "</span>a");
    assert_eq!(b.balance("<span class"), "<span class");
    assert_eq!(b.balance("z"), "z");
}

#[test]
fn balanced_lines_are_numbered_from_one() {
    let raws = vec![
        "<span class=\"s\">\"a\n".to_string(),
        "b\"</span>\n".to_string(),
    ];
    let lines = balance_lines(&raws);
    assert_eq!(lines.len(), 2);
    assert_eq!(lines[0].number, 1);
    assert_eq!(lines[0].html, "<span class=\"s\">\"a</span>");
    assert_eq!(lines[1].number, 2);
    assert_eq!(lines[1].html, "<span class=\"s\">b\"</span>");
}

#[test]
fn an_unknown_theme_is_named_in_the_error() {
    let hl = Highlighter::new();
    let err = hl.theme_css("no-such-theme").unwrap_err();
    assert_eq!(err.message(), "no theme named no-such-theme");
    assert!(hl.theme_css("InspiredGitHub").unwrap().contains(".comment"));
}
