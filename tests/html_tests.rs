use sitegen::html::{build_header_links, build_toc, id_from_title, wrap_header_with_link, IdCounter};

#[test]
fn build_header_links_test() {
    let html = r#"
<h1 id="id1">title1</h1>
<h2>title2</h2>
<h3>title2</h3>
"#;
    let replaced = build_header_links(html);
    assert_eq!(
        replaced,
        r##"
<h1 id="id1"><a class="self-link" href="#id1">title1</a></h1>
<h2 id="title2"><a class="self-link" href="#title2">title2</a></h2>
<h3 id="title2-1"><a class="self-link" href="#title2-1">title2</a></h3>
"##
    );
}

#[test]
fn id_from_content_test() {
    assert_eq!(id_from_title("abc"), "abc");
    assert_eq!(id_from_title("  abc  "), "abc");
    assert_eq!(id_from_title("abc def"), "abc-def");
    assert_eq!(id_from_title("あいう abc えお def"), "abc-def");
}

#[test]
fn same_ids_are_numbered_in_document_order() {
    let html = "<h2>Intro</h2>\n<h1>Intro</h1>\n<h3>Intro</h3>";
    assert_eq!(
        build_header_links(html),
        "<h2 id=\"intro\"><a class=\"self-link\" href=\"#intro\">Intro</a></h2>\n\
<h1 id=\"intro-1\"><a class=\"self-link\" href=\"#intro-1\">Intro</a></h1>\n\
<h3 id=\"intro-2\"><a class=\"self-link\" href=\"#intro-2\">Intro</a></h3>"
    );
}

#[test]
fn declared_ids_count_too() {
    let html = "<h1 id=\"x\">A</h1><h2>X</h2>";
    assert_eq!(
        build_header_links(html),
        "<h1 id=\"x\"><a class=\"self-link\" href=\"#x\">A</a></h1>\
<h2 id=\"x-1\"><a class=\"self-link\" href=\"#x-1\">X</a></h2>"
    );
}

#[test]
fn other_content_is_kept() {
    assert_eq!(build_header_links("<p>text</p>"), "<p>text</p>");
    assert_eq!(build_header_links("<h1>a\n</h1>"), "<h1>a\n</h1>");
    assert_eq!(build_header_links("<h0>a</h0>"), "<h0>a</h0>");
    assert_eq!(build_header_links(""), "");
}

#[test]
fn id_edge_cases() {
    assert_eq!(id_from_title("あいう"), "a");
    assert_eq!(id_from_title(""), "a");
    assert_eq!(id_from_title("Tom &amp; Jerry"), "tom-jerry");
    assert_eq!(id_from_title("<code>Foo</code> Bar"), "foo-bar");
    assert_eq!(id_from_title("A--B"), "a-b");
}

#[test]
fn wrap_header_counts_per_counter() {
    let mut counter = IdCounter::new();
    assert_eq!(
        wrap_header_with_link(2, "Hello World", None, &mut counter),
        "<h2 id=\"hello-world\"><a class=\"self-link\" href=\"#hello-world\">Hello World</a></h2>"
    );
    assert_eq!(
        wrap_header_with_link(2, "Hello World", None, &mut counter),
        "<h2 id=\"hello-world-1\"><a class=\"self-link\" href=\"#hello-world-1\">Hello World</a></h2>"
    );
    assert_eq!(counter.count(&"hello-world".to_string()), 2);
    let mut fresh = IdCounter::new();
    assert_eq!(
        wrap_header_with_link(1, "T", Some("own"), &mut fresh),
        "<h1 id=\"own\"><a class=\"self-link\" href=\"#own\">T</a></h1>"
    );
}

#[test]
fn many_same_headings_get_distinct_ids() {
    let mut html = String::new();
    for _ in 0..12 {
        html.push_str("<h2>Same</h2>");
    }
    let out = build_header_links(&html);
    assert!(out.contains("id=\"same\""));
    assert!(out.contains("id=\"same-1\""));
    assert!(out.contains("id=\"same-11\""));
    assert!(!out.contains("id=\"same-12\""));
}

#[test]
fn toc_nests_second_item() {
    let html = build_header_links("<h1>A</h1><h1>B</h1><h2>C</h2>");
    assert_eq!(
        build_toc(&html, None),
        "<ol><li><a href=\"#a\">A</a></li><li><a href=\"#b\">B</a><ol><li><a href=\"#c\">C</a></li></ol></li></ol>"
    );
}

#[test]
fn toc_limited_to_level_one() {
    let html = build_header_links("<h1>A</h1><h1>B</h1><h2>C</h2>");
    assert_eq!(
        build_toc(&html, Some(1)),
        "<ol><li><a href=\"#a\">A</a></li><li><a href=\"#b\">B</a></li></ol>"
    );
}

#[test]
fn toc_of_no_headings_is_empty() {
    assert_eq!(build_toc("<p>nothing</p>", None), "");
}

#[test]
fn toc_of_one_deep_heading() {
    assert_eq!(
        build_toc("<h3 id=\"x\">X</h3>", None),
        "<ol><li><ol><li><ol><li><a href=\"#x\">X</a></li></ol></li></ol></li></ol>"
    );
}

#[test]
fn toc_closes_levels_going_up() {
    let html = build_header_links("<h2>A</h2><h3>B</h3><h1>C</h1>");
    assert_eq!(
        build_toc(&html, None),
        "<ol><li><ol><li><a href=\"#a\">A</a><ol><li><a href=\"#b\">B</a></li></ol></li></ol></li><li><a href=\"#c\">C</a></li></ol>"
    );
}
