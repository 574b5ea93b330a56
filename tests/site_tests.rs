use sitegen::document::{apply_org_entry, Markdown, Org};
use sitegen::metadata::{Date, Metadata, ParseError};
use sitegen::site::{
    article_index, classify_sources, select_articles, slug_to_url, url_to_filename, Article, BuildError, Config,
    MarkdownFile, OrgFile, Site, SourceFile,
};

fn date(year: i32, month: u32, day: u32) -> Date {
    Date { year, month, day }
}

#[test]
fn slug_to_url_test() {
    assert_eq!(slug_to_url("foo"), "foo/");
    assert_eq!(slug_to_url("foo/"), "foo/");
    assert_eq!(slug_to_url("feed.xml"), "feed.xml");
    assert_eq!(slug_to_url("feed.xml/"), "feed.xml/");
    assert_eq!(slug_to_url("index"), "");
    assert_eq!(slug_to_url(""), "");
    assert_eq!(slug_to_url("a/b"), "a/b/");
    assert_eq!(slug_to_url("a/b/"), "a/b/");
    assert_eq!(slug_to_url("a/b.html"), "a/b.html");
    assert_eq!(slug_to_url("a/b.html/"), "a/b.html/");
}

#[test]
fn url_to_filename_test() {
    assert_eq!(url_to_filename(""), "index.html");
    assert_eq!(url_to_filename("a"), "a");
    assert_eq!(url_to_filename("a/"), "a/index.html");
    assert_eq!(url_to_filename("a.html"), "a.html");
    assert_eq!(url_to_filename("a.html/"), "a.html/index.html");
    assert_eq!(url_to_filename("a/b"), "a/b");
    assert_eq!(url_to_filename("a/b/"), "a/b/index.html");
    assert_eq!(url_to_filename("a/b.html"), "a/b.html");
    assert_eq!(url_to_filename("a/b.html/"), "a/b.html/index.html");
}

#[test]
fn slug_edge_cases() {
    assert_eq!(slug_to_url(".hidden"), ".hidden/");
    assert_eq!(slug_to_url("a.b/."), "a.b/.");
    assert_eq!(slug_to_url("a/.."), "a/../");
    assert_eq!(slug_to_url("a.b/c"), "a.b/c/");
}

#[test]
fn parse_markdowne_metadata_test() {
    let s = r#"title = "Hello"
slug = "10th-anniversary"
date = "2018-01-11"
"#;
    assert_eq!(
        s.parse::<Metadata>().unwrap(),
        Metadata {
            title: "Hello".to_string(),
            slug: Some("10th-anniversary".to_string()),
            date: Some(date(2018, 1, 11)),
            ..Default::default()
        }
    );
}

#[test]
fn parse_markdown_test() {
    let s = r#"title = "Hello"
slug = "10th-anniversary"
date = "2018-01-11"

hello world
"#;

    assert_eq!(
        s.parse::<Markdown>().unwrap(),
        Markdown {
            metadata: Metadata {
                title: "Hello".to_string(),
                slug: Some("10th-anniversary".to_string()),
                date: Some(date(2018, 1, 11)),
                ..Default::default()
            },
            content: "hello world\n".to_string(),
        }
    );

    let s = r#"<!--
title = "Hello"
-->

hello world
"#;
    assert_eq!(
        s.parse::<Markdown>().unwrap(),
        Markdown {
            metadata: Metadata {
                title: "Hello".to_string(),
                ..Default::default()
            },
            content: "hello world\n".to_string(),
        }
    );

    let s = r#"<!-- prettier-ignore -->
title = "Hello"

hello world
"#;
    assert_eq!(
        s.parse::<Markdown>().unwrap(),
        Markdown {
            metadata: Metadata {
                title: "Hello".to_string(),
                ..Default::default()
            },
            content: "hello world\n".to_string(),
        }
    );

    // If the first line starts with "#", treat that as a title.
    let s = r#"# title

<!-- prettier-ignore -->
date = "2018-01-11"

hello world
"#;
    assert_eq!(
        s.parse::<Markdown>().unwrap(),
        Markdown {
            metadata: Metadata {
                title: "title".to_string(),
                date: Some(date(2018, 1, 11)),
                ..Default::default()
            },
            content: "hello world\n".to_string(),
        }
    );

    // If the first line starts with "<!--", Ignore that
    let s = r#"<!-- -*- apheleia-formatters: prettier -*-  -->

# title

<!-- prettier-ignore -->
date = "2018-01-11"

hello world
"#;
    assert_eq!(
        s.parse::<Markdown>().unwrap(),
        Markdown {
            metadata: Metadata {
                title: "title".to_string(),
                date: Some(date(2018, 1, 11)),
                ..Default::default()
            },
            content: "hello world\n".to_string(),
        }
    );
}

#[test]
fn markdown_front_matter_errors() {
    assert_eq!(
        Markdown::parse("title = \"A\"\nfoo = \"b\"\n\nbody"),
        Err(ParseError::UnknownKey("foo".to_string()))
    );
    assert_eq!(Markdown::parse("date = \"2018-01-11\"\n\nbody"), Err(ParseError::MissingTitle));
    assert_eq!(
        Markdown::parse("title = \"A\"\ndate = \"2018-02-30\"\n\nbody"),
        Err(ParseError::InvalidValue("date".to_string()))
    );
    assert_eq!(
        Markdown::parse("title = \"A\"\ndraft = \"yes\"\n\nbody"),
        Err(ParseError::InvalidValue("draft".to_string()))
    );
    assert_eq!(Markdown::parse("this is not toml\n\nbody"), Err(ParseError::Syntax));
}

#[test]
fn markdown_without_blank_line_has_empty_body() {
    let md = Markdown::parse("title = \"Only\"\ndraft = true").unwrap();
    assert_eq!(md.metadata.title, "Only");
    assert_eq!(md.metadata.draft, Some(true));
    assert_eq!(md.content, "");
}

#[test]
fn markdown_title_line_with_quote() {
    let md = Markdown::parse("# Say \"hi\"  \n\npage = true\n\nbody").unwrap();
    assert_eq!(md.metadata.title, "Say \"hi\"");
    assert_eq!(md.metadata.page, Some(true));
    assert_eq!(md.content, "body");
}

#[test]
fn markdown_render_anchors_headings() {
    let md = Markdown::parse("title = \"T\"\n\n# Hello World\n\nあいう\nえお\n").unwrap();
    let html = md.render();
    assert!(html.contains(
        "<h1 id=\"hello-world\"><a class=\"self-link\" href=\"#hello-world\">Hello World</a></h1>"
    ));
    assert!(html.contains("<p>あいうえお</p>"));
}

#[test]
fn parse_org_metadata_test() {
    let s = r#"#+TITLE: Org Title
#+AUTHOR: Test Author
#+DATE: 2024-01-01
#+SLUG: org-slug
#+DRAFT: true
#+TEMPLATE: custom_template.jinja
#+PAGE: true
#+MATH: true
"#;
    let org_struct: Org = s.parse().unwrap();
    let metadata = org_struct.metadata;
    assert_eq!(metadata.title, "Org Title");
    assert_eq!(metadata.author, Some("Test Author".to_string()));
    assert_eq!(metadata.date, Some(date(2024, 1, 1)));
    assert_eq!(metadata.slug, Some("org-slug".to_string()));
    assert_eq!(metadata.draft, Some(true));
    assert_eq!(metadata.template, Some("custom_template.jinja".to_string()));
    assert_eq!(metadata.page, Some(true));
    assert_eq!(metadata.math, Some(true));

    // Test partial metadata
    let s_partial = r#"#+TITLE: Partial Title
#+DATE: 2023-12-31
"#;
    let org_partial: Org = s_partial.parse().unwrap();
    assert_eq!(org_partial.metadata.title, "Partial Title");
    assert_eq!(org_partial.metadata.date, Some(date(2023, 12, 31)));
    assert_eq!(org_partial.metadata.author, None);
}

#[test]
fn parse_org_content_test() {
    let s = r#"#+TITLE: Content Test
#+DATE: 2024-01-02

* Heading 1
Some paragraph text.
- list item 1
- list item 2
"#;
    let org_struct: Org = s.parse().unwrap();
    assert_eq!(org_struct.metadata.title, "Content Test");
    assert_eq!(
        org_struct.content,
        "* Heading 1\nSome paragraph text.\n- list item 1\n- list item 2"
    );

    // Test without metadata: a document needs a title
    let s_content_only = r#"* Just Content
No metadata here.
"#;
    assert_eq!(s_content_only.parse::<Org>(), Err(ParseError::MissingTitle));

    // Test with empty lines between metadata and content
    let s_empty_lines = r#"#+TITLE: Empty Lines Test


* Content Starts Here
"#;
    let org_empty_lines: Org = s_empty_lines.parse().unwrap();
    assert_eq!(org_empty_lines.metadata.title, "Empty Lines Test");
    assert_eq!(org_empty_lines.content, "\n* Content Starts Here");
}

#[test]
fn org_keywords_ignore_case_and_unknowns() {
    let org = Org::parse("#+title:  Lower  \n#+options: toc:nil\n#+nocolon\n#+date: nope\nbody\r\nmore\n").unwrap();
    assert_eq!(org.metadata.title, "Lower");
    assert_eq!(org.metadata.date, None);
    assert_eq!(org.content, "body\nmore");
}

#[test]
fn render_org_html_test() {
    let org_document = Org {
        metadata: Metadata {
            title: "Render Test".to_string(),
            ..Default::default()
        },
        content: "* Hello Org\nThis is org content with a [[https://example.com][link]].".to_string(),
    };
    let html = org_document.render();
    assert!(html.contains(
        "<h1 id=\"hello-org\"><a class=\"self-link\" href=\"#hello-org\">Hello Org</a></h1>"
    ));
    assert!(html.contains("<p>This is org content with a <a href=\"https://example.com\">link</a>.</p>"));

    // Test with a list
    let org_list = Org {
        metadata: Metadata::default(),
        content: "- item 1\n- item 2".to_string(),
    };
    let html_list = org_list.render();
    assert!(html_list.contains("<ul>"));
    assert!(html_list.contains("<li><p>item 1</p></li>"));
    assert!(html_list.contains("<li><p>item 2</p></li>"));
    assert!(html_list.contains("</ul>"));
}

#[test]
fn article_from_org_test() {
    let org_content_str = r#"#+TITLE: Org Article Title
#+AUTHOR: Org Author
#+DATE: 2024-03-15
#+SLUG: my-org-article
#+DRAFT: false
#+PAGE: false
#+MATH: true

* Introduction
This is an article written in Org mode.
"#;
    let org_file = OrgFile {
        relative_path: "test_articles/my-org-article.org".to_string(),
        org: org_content_str.parse().unwrap(),
    };

    let article = Article::new(SourceFile::Org(org_file));

    assert_eq!(article.title, "Org Article Title");
    assert_eq!(article.author, Some("Org Author".to_string()));
    assert_eq!(article.date, Some(date(2024, 3, 15)));
    assert_eq!(article.slug, "my-org-article");
    assert_eq!(article.draft, false);
    assert_eq!(article.page, false);
    assert_eq!(article.math, true);
    assert_eq!(article.url, "test_articles/my-org-article/");
    assert!(article.content.contains(
        "<h1 id=\"introduction\"><a class=\"self-link\" href=\"#introduction\">Introduction</a></h1>"
    ));
    assert!(article.content.contains("<p>This is an article written in Org mode.</p>"));

    // Test with minimal metadata (relying on slug generation from filename)
    let org_minimal_str = r#"#+TITLE: Minimal Org
#+DATE: 2024-03-16

Minimal content.
"#;
    let org_file_minimal = OrgFile {
        relative_path: "another/minimal.org".to_string(),
        org: org_minimal_str.parse().unwrap(),
    };
    let article_minimal = Article::new(SourceFile::Org(org_file_minimal));
    assert_eq!(article_minimal.title, "Minimal Org");
    assert_eq!(article_minimal.date, Some(date(2024, 3, 16)));
    assert_eq!(article_minimal.slug, "minimal"); // auto-generated from filename
    assert_eq!(article_minimal.url, "another/minimal/");
    assert!(article_minimal.content.contains("<p>Minimal content.</p>"));
}

#[test]
fn article_urls_and_templates() {
    let md = Markdown::parse("title = \"Home\"\nslug = \"index\"\npage = true\n\nhi").unwrap();
    let home = Article::new(SourceFile::Markdown(MarkdownFile { relative_path: "index.md".to_string(), markdown: md }));
    assert_eq!(home.url, "");
    assert_eq!(home.template_name(), "page");
    let md = Markdown::parse("title = \"Feed\"\nslug = \"feed.xml\"\ntemplate = \"feed\"\n\n").unwrap();
    let feed = Article::new(SourceFile::Markdown(MarkdownFile { relative_path: "blog/x.md".to_string(), markdown: md }));
    assert_eq!(feed.url, "blog/feed.xml");
    assert_eq!(feed.template_name(), "feed");
    let md = Markdown::parse("title = \"Post\"\n\n").unwrap();
    let post = Article::new(SourceFile::Markdown(MarkdownFile { relative_path: "blog/post.md".to_string(), markdown: md }));
    assert_eq!(post.slug, "post");
    assert_eq!(post.url, "blog/post/");
    assert_eq!(post.template_name(), "article");
}

fn md_source(path: &str, text: &str) -> SourceFile {
    SourceFile::Markdown(MarkdownFile { relative_path: path.to_string(), markdown: Markdown::parse(text).unwrap() })
}

#[test]
fn undated_article_stops_the_build() {
    let sources = vec![
        md_source("a.md", "title = \"A\"\ndate = \"2020-01-01\"\n\nA"),
        md_source("b.md", "title = \"B\"\n\nB"),
        md_source("c.md", "title = \"C\"\ndate = \"2021-01-01\"\n\nC"),
    ];
    match classify_sources(sources) {
        Err(BuildError::MissingDate(p)) => assert_eq!(p, "b.md"),
        Ok(_) => panic!("an undated article must stop the build"),
    }
}

#[test]
fn pages_need_no_date() {
    let sources = vec![
        md_source("about.md", "title = \"About\"\npage = true\n\nx"),
        md_source("a.md", "title = \"A\"\ndate = \"2020-01-01\"\n\nA"),
    ];
    match classify_sources(sources) {
        Ok(c) => {
            assert_eq!(c.articles.len(), 1);
            assert_eq!(c.pages.len(), 1);
        },
        Err(_) => panic!("pages need no date"),
    }
}

fn article(title: &str, d: Date, draft: bool) -> Article {
    Article {
        title: title.to_string(),
        slug: title.to_string(),
        author: None,
        date: Some(d),
        update_date: None,
        draft,
        url: format!("{title}/"),
        page: false,
        math: false,
        template: None,
        content: String::new(),
        toc_html: None,
    }
}

fn titles(v: &[Article]) -> Vec<String> {
    v.iter().map(|a| a.title.clone()).collect()
}

#[test]
fn drafts_are_dropped_unless_kept() {
    let list = || {
        vec![
            article("old", date(2019, 5, 1), false),
            article("draft", date(2021, 1, 1), true),
            article("new", date(2020, 3, 2), false),
        ]
    };
    let dropped = select_articles(list(), false);
    assert_eq!(titles(&dropped), vec!["new", "old"]);
    let kept = select_articles(list(), true);
    assert_eq!(titles(&kept), vec!["draft", "new", "old"]);
}

#[test]
fn index_groups_years_newest_first() {
    let list = vec![
        article("a", date(2019, 5, 1), false),
        article("b", date(2020, 12, 31), false),
        article("c", date(2020, 1, 2), false),
        article("d", date(2018, 7, 7), true),
    ];
    let index = article_index(list, false);
    assert_eq!(titles(&index.articles), vec!["b", "c", "a"]);
    let years: Vec<i32> = index.by_year.iter().map(|g| g.year).collect();
    assert_eq!(years, vec![2020, 2019]);
    assert_eq!(index.by_year[0].articles, vec![0, 1]);
    assert_eq!(index.by_year[1].articles, vec![2]);
}

#[test]
fn config_override_wins() {
    let mut base = Config::read("title = \"Base\"\nauthor = \"Me\"\n").unwrap();
    let mut extra = Config::read("title = \"Override\"\n").unwrap();
    base.extend(&mut extra);
    assert_eq!(base.get("title"), Some("Override".to_string()));
    assert_eq!(base.get("author"), Some("Me".to_string()));
    assert_eq!(extra.get("title"), None);
    assert_eq!(Config::read("n = 3\n").err(), Some(ParseError::InvalidValue("n".to_string())));
    assert_eq!(Config::read("= broken").err(), Some(ParseError::Syntax));
}

#[test]
fn site_paths_and_settings() {
    let config = Config::read("keep_drafts = \"true\"\n").unwrap();
    let site = Site::new(config, "/root".to_string(), "out".to_string(), None);
    assert_eq!(site.src_dir, "/root/src");
    assert!(site.keeps_drafts());
    assert!(site.copies_assets());
    assert!(site.accepts("anything.md"));
    let a = article("post", date(2020, 1, 1), false);
    assert_eq!(site.output_path(&a), "out/post/index.html");
    let filtered = Site::new(Config::new(), "r".to_string(), "o".to_string(), Some("^keep".to_string()));
    assert!(!filtered.copies_assets());
    assert!(!filtered.keeps_drafts());
    assert!(filtered.accepts("keep/me.md"));
    assert!(!filtered.accepts("drop/me.md"));
}

#[test]
fn titles_must_not_be_empty() {
    assert_eq!(Markdown::parse("title = \"\"\n\nbody"), Err(ParseError::MissingTitle));
    assert_eq!(Org::parse("#+TITLE:   \n\nbody"), Err(ParseError::MissingTitle));
}

#[test]
fn invalid_pattern_accepts_nothing() {
    let site = Site::new(Config::new(), "r".to_string(), "o".to_string(), Some("(".to_string()));
    assert!(!site.accepts("a.md"));
}

#[test]
fn org_entries_apply_by_keyword() {
    let mut m = Metadata::default();
    apply_org_entry(&mut m, "TITLE", "T");
    apply_org_entry(&mut m, "DATE", "2024-02-29");
    apply_org_entry(&mut m, "DRAFT", "yes");
    apply_org_entry(&mut m, "TOC", "true");
    apply_org_entry(&mut m, "TOC_DEPTH", "2");
    apply_org_entry(&mut m, "title", "ignored");
    assert_eq!(m.title, "T");
    assert_eq!(m.date, Some(date(2024, 2, 29)));
    assert_eq!(m.draft, Some(false));
    assert_eq!(m.toc, Some(true));
    assert_eq!(m.toc_depth, Some(2));
    apply_org_entry(&mut m, "TOC_DEPTH", "12");
    assert_eq!(m.toc_depth, None);
}

#[test]
fn entry_carries_its_table_of_contents() {
    let md = Markdown::parse("title = \"T\"\ntoc = true\n\n# A\n\n# B\n\n## C\n").unwrap();
    let a = Article::new(SourceFile::Markdown(MarkdownFile { relative_path: "t.md".to_string(), markdown: md }));
    assert_eq!(
        a.toc_html,
        Some("<ol><li><a href=\"#a\">A</a></li><li><a href=\"#b\">B</a><ol><li><a href=\"#c\">C</a></li></ol></li></ol>".to_string())
    );
    let md = Markdown::parse("title = \"T\"\ntoc = true\ntoc_depth = 1\n\n# A\n\n# B\n\n## C\n").unwrap();
    let a = Article::new(SourceFile::Markdown(MarkdownFile { relative_path: "t.md".to_string(), markdown: md }));
    assert_eq!(a.toc_html, Some("<ol><li><a href=\"#a\">A</a></li><li><a href=\"#b\">B</a></li></ol>".to_string()));
    let md = Markdown::parse("title = \"T\"\n\n# A\n").unwrap();
    let a = Article::new(SourceFile::Markdown(MarkdownFile { relative_path: "t.md".to_string(), markdown: md }));
    assert_eq!(a.toc_html, None);
    assert_eq!(
        Markdown::parse("title = \"T\"\ntoc_depth = 10\n\n"),
        Err(ParseError::InvalidValue("toc_depth".to_string()))
    );
}
