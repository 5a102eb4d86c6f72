use sitegen::convert::{document_markup, document_to_html, document_to_html_with_links, Document, Inline,
    InlineObject, Paragraph, trim};
use sitegen::links::rewrite_md_google_links;
use sitegen::registry::SlugRegistry;

fn markup(d: &Document) -> (String, Vec<(String, String)>) {
    let reg = SlugRegistry::new();
    document_markup(d, &reg)
}

fn text_run(text: &str) -> Inline {
    Inline::TextRun { content: text.to_string(), link_url: None }
}

fn linked_run(text: &str, url: &str) -> Inline {
    Inline::TextRun { content: text.to_string(), link_url: Some(url.to_string()) }
}

fn para(bullet: bool, style: Option<&str>, elements: Vec<Inline>) -> Paragraph {
    Paragraph { bullet, named_style: style.map(|s| s.to_string()), elements }
}

fn doc(paragraphs: Vec<Paragraph>) -> Document {
    Document { paragraphs, objects: Vec::new() }
}

#[test]
fn heading_two_converts() {
    let d = doc(vec![para(false, Some("HEADING_2"), vec![text_run("Intro")])]);
    let (md, links) = markup(&d);
    assert_eq!(md, "## Intro\n");
    assert!(links.is_empty());
}

#[test]
fn heading_levels_and_bullets() {
    let d = doc(vec![
        para(false, Some("HEADING_1"), vec![text_run("One")]),
        para(false, Some("HEADING_3"), vec![text_run("Three")]),
        para(true, Some("HEADING_1"), vec![text_run("Bullet wins")]),
        para(false, Some("HEADING_9"), vec![text_run("Plain")]),
        para(false, None, vec![text_run("Also plain")]),
    ]);
    let (md, _) = markup(&d);
    assert_eq!(md, "# One\n### Three\n* Bullet wins\nPlain\nAlso plain\n");
}

#[test]
fn document_link_rewrites_and_collects() {
    let d = doc(vec![para(false, None, vec![
        linked_run("My Page", "https://docs.google.com/document/d/ABC123/edit"),
    ])]);
    let (md, links) = markup(&d);
    assert_eq!(md, "[My Page](/p/my-page/)\n");
    assert_eq!(links, vec![("ABC123".to_string(), "my-page".to_string())]);
}

#[test]
fn same_target_later_anchor_keeps_first_slug() {
    let mut reg = SlugRegistry::new();
    let first = reg.reserve("ABC123", "my-page");
    assert_eq!(first, "my-page");
    let later = reg.reserve("ABC123", "different-anchor");
    assert_eq!(later, "my-page");
}

#[test]
fn anchor_text_is_trimmed() {
    let d = doc(vec![para(false, None, vec![
        linked_run("  My Page  ", "https://docs.google.com/document/d/ABC123/edit"),
    ])]);
    let (md, _) = markup(&d);
    assert_eq!(md, "[My Page](/p/my-page/)\n");
}

#[test]
fn empty_anchor_falls_back_to_id() {
    let d = doc(vec![para(false, None, vec![
        linked_run("!!!", "https://docs.google.com/document/d/XYZ_9/edit"),
    ])]);
    let (md, links) = markup(&d);
    assert_eq!(md, "[!!!](/p/XYZ_9/)\n");
    assert_eq!(links, vec![("XYZ_9".to_string(), "XYZ_9".to_string())]);
}

#[test]
fn foreign_links_pass_through() {
    let d = doc(vec![para(false, None, vec![
        linked_run("Other", "https://example.com/page"),
    ])]);
    let (md, links) = markup(&d);
    assert_eq!(md, "[Other](https://example.com/page)\n");
    assert!(links.is_empty());
}

#[test]
fn user_segment_and_case_insensitive_host() {
    let d = doc(vec![para(false, None, vec![
        linked_run("A", "HTTPS://DOCS.GOOGLE.COM/document/u/0/d/AbC-1_2/edit?usp=sharing"),
    ])]);
    let (md, links) = markup(&d);
    assert_eq!(md, "[A](/p/a/)\n");
    assert_eq!(links, vec![("AbC-1_2".to_string(), "a".to_string())]);
}

#[test]
fn pattern_without_id_is_left_alone() {
    let d = doc(vec![para(false, None, vec![
        linked_run("A", "https://docs.google.com/document/d/"),
    ])]);
    let (md, links) = markup(&d);
    assert_eq!(md, "[A](https://docs.google.com/document/d/)\n");
    assert!(links.is_empty());
}

#[test]
fn inline_object_resolves_through_side_table() {
    let d = Document {
        paragraphs: vec![para(false, None, vec![
            text_run("before"),
            Inline::ObjectRef { object_id: "obj1".to_string() },
        ])],
        objects: vec![
            InlineObject { object_id: "other".to_string(), content_uri: Some("https://x/img0".to_string()) },
            InlineObject { object_id: "obj1".to_string(), content_uri: Some("https://x/img1".to_string()) },
        ],
    };
    let (md, _) = markup(&d);
    assert_eq!(md, "before\n![image](https://x/img1)\n\n");
}

#[test]
fn unresolvable_object_is_dropped() {
    let d = Document {
        paragraphs: vec![para(false, None, vec![
            text_run("x"),
            Inline::ObjectRef { object_id: "ghostly".to_string() },
            Inline::ObjectRef { object_id: "".to_string() },
            Inline::ObjectRef { object_id: "no-uri".to_string() },
        ])],
        objects: vec![InlineObject { object_id: "no-uri".to_string(), content_uri: None }],
    };
    let (md, _) = markup(&d);
    assert_eq!(md, "x\n");
}

#[test]
fn defensive_pass_rewrites_literal_links() {
    let reg = SlugRegistry::new();
    let mut links: Vec<(String, String)> = Vec::new();
    let md = "see [Here Now](https://docs.google.com/document/d/QQ77/view) please";
    let out = rewrite_md_google_links(md, &reg, &mut links);
    assert_eq!(out, "see [Here Now](/p/here-now/) please");
    assert_eq!(links, vec![("QQ77".to_string(), "here-now".to_string())]);
}

#[test]
fn defensive_pass_leaves_other_links() {
    let reg = SlugRegistry::new();
    let mut links: Vec<(String, String)> = Vec::new();
    let md = "[a](https://example.com) and ![image](https://img/x.png)";
    let out = rewrite_md_google_links(md, &reg, &mut links);
    assert_eq!(out, md);
    assert!(links.is_empty());
}

#[test]
fn both_passes_collect_in_order() {
    let d = doc(vec![para(false, None, vec![
        linked_run("First", "https://docs.google.com/document/d/AAA/edit"),
        text_run(" then [Second](https://docs.google.com/document/d/BBB/edit)"),
    ])]);
    let reg = SlugRegistry::new();
    let (_, links) = document_to_html_with_links(&d, &reg);
    assert_eq!(links, vec![
        ("AAA".to_string(), "first".to_string()),
        ("BBB".to_string(), "second".to_string()),
    ]);
}

#[test]
fn markdown_renders_to_html() {
    let d = doc(vec![para(false, Some("HEADING_2"), vec![text_run("Intro")])]);
    let reg = SlugRegistry::new();
    let html = document_to_html(&d, &reg);
    assert!(html.contains("<h2>Intro</h2>"));
    let d2 = doc(vec![para(true, None, vec![text_run("item")])]);
    let html2 = document_to_html(&d2, &reg);
    assert!(html2.contains("<li>item</li>"));
}

#[test]
fn trim_strips_ascii_whitespace() {
    assert_eq!(trim("  a b \t\n"), "a b");
    assert_eq!(trim(""), "");
    assert_eq!(trim(" \t "), "");
    assert_eq!(trim("solid"), "solid");
}


#[test]
fn assigned_slug_wins_over_later_anchor() {
    let mut reg = SlugRegistry::new();
    assert_eq!(reg.reserve("ABC123", "my-page"), "my-page");
    let d = doc(vec![para(false, None, vec![
        linked_run("Other Anchor", "https://docs.google.com/document/d/ABC123/edit"),
    ])]);
    let (md, links) = document_markup(&d, &reg);
    assert_eq!(md, "[Other Anchor](/p/my-page/)\n");
    // the recorded suggestion stays anchor-derived
    assert_eq!(links, vec![("ABC123".to_string(), "other-anchor".to_string())]);
}

#[test]
fn defensive_pass_uses_assigned_slug() {
    let mut reg = SlugRegistry::new();
    assert_eq!(reg.reserve("QQ77", "my-page"), "my-page");
    let mut links: Vec<(String, String)> = Vec::new();
    let md = "see [Here Now](https://docs.google.com/document/d/QQ77/view) please";
    let out = rewrite_md_google_links(md, &reg, &mut links);
    assert_eq!(out, "see [Here Now](/p/my-page/) please");
    assert_eq!(links, vec![("QQ77".to_string(), "here-now".to_string())]);
}

#[test]
fn unbound_target_takes_anchor_suggestion() {
    let mut reg = SlugRegistry::new();
    // a different document already owns the slug the anchor suggests
    assert_eq!(reg.reserve("OTHER", "intro"), "intro");
    let d = doc(vec![para(false, None, vec![
        linked_run("Intro", "https://docs.google.com/document/d/NEWDOC/edit"),
    ])]);
    let (md, links) = document_markup(&d, &reg);
    // NEWDOC has no assignment yet, so the href carries the suggestion
    assert_eq!(md, "[Intro](/p/intro/)\n");
    assert_eq!(links, vec![("NEWDOC".to_string(), "intro".to_string())]);
}
