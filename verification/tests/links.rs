use slbl::links::{broken, page_links, resolve, LinkRef};

#[test]
fn a_parent_link_resolves_against_the_page_directory() {
    assert_eq!(resolve("course/x.html", "../index.html"), "index.html");
    assert_eq!(resolve("course/x.html", "y.html"), "course/y.html");
    assert_eq!(resolve("index.html", "./a/./b.html"), "a/b.html");
    assert_eq!(resolve("a/b/c.html", "../../d.html"), "d.html");
}

#[test]
fn a_link_above_the_root_keeps_its_climb() {
    assert_eq!(resolve("index.html", "../x.html"), "../x.html");
}

#[test]
fn outside_links_are_skipped_and_fragments_split() {
    let html = [
        "<a href=\"https://example.com\">e</a>",
        "<a href=\"/\">root</a>",
        "<a href=\"../index.html#top\">i</a>",
        "<a href=\"#here\">h</a>",
        "<img src=\"data:image/svg+xml,x\">",
        "<img src=\"pic.png\">",
    ]
    .join("");
    let links = page_links("course/x.html", &html);
    assert_eq!(links.len(), 3);
    assert_eq!(links[0].text, "../index.html#top");
    assert_eq!(links[0].target, "index.html");
    assert_eq!(links[0].fragment.as_deref(), Some("top"));
    assert_eq!(links[1].text, "#here");
    assert_eq!(links[1].target, "course/x.html");
    assert_eq!(links[1].fragment.as_deref(), Some("here"));
    assert_eq!(links[2].target, "course/pic.png");
    assert_eq!(links[2].fragment, None);
}

#[test]
fn a_missing_file_and_a_missing_id_are_reported() {
    let link = LinkRef {
        text: "y.html#a".to_string(),
        target: "course/y.html".to_string(),
        fragment: Some("a".to_string()),
    };
    let ids = vec!["b".to_string()];
    assert_eq!(
        broken("course/x.html", &link, false, &ids),
        Some("course/x.html: y.html#a -> missing file".to_string())
    );
    assert_eq!(
        broken("course/x.html", &link, true, &ids),
        Some("course/x.html: y.html#a -> no such id".to_string())
    );
    let found = vec!["b".to_string(), "a".to_string()];
    assert_eq!(broken("course/x.html", &link, true, &found), None);
    let plain = LinkRef { text: "y.html".to_string(), target: "course/y.html".to_string(), fragment: None };
    assert_eq!(broken("course/x.html", &plain, true, &ids), None);
}
