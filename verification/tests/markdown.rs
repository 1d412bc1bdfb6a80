use slbl::markdown::render;

#[test]
fn renders_inline_code_and_emphasis() {
    let out = render("`type Ok` is **chosen** by the format.");
    assert!(out.contains("<code>type Ok</code>"), "{out}");
    assert!(out.contains("<strong>chosen</strong>"), "{out}");
}

#[test]
fn renders_lists() {
    let out = render("- one\n- two\n");
    assert!(out.contains("<ul>") && out.contains("<li>one</li>"), "{out}");
}

#[test]
fn renders_tables_and_strikethrough() {
    let out = render("| a | b |\n|---|---|\n| 1 | 2 |\n\n~~gone~~\n");
    assert!(out.contains("<table>"), "{out}");
    assert!(out.contains("<del>gone</del>"), "{out}");
}
