use sitegen::assets::{AssetStore, UrlCache};
use sitegen::convert::{document_markup, Document, Inline, Paragraph};
use sitegen::crawl::Crawler;

fn doc_linking_to(targets: &[(&str, &str)]) -> Document {
    let elements = targets
        .iter()
        .map(|(id, anchor)| Inline::TextRun {
            content: anchor.to_string(),
            link_url: Some(format!("https://docs.google.com/document/d/{}/edit", id)),
        })
        .collect();
    Document {
        paragraphs: vec![Paragraph { bullet: false, named_style: None, elements }],
        objects: Vec::new(),
    }
}

#[test]
fn cycle_is_visited_exactly_once() {
    let docs = [
        ("A", doc_linking_to(&[("B", "To B")])),
        ("B", doc_linking_to(&[("A", "Back to A")])),
    ];
    let mut crawler = Crawler::new("A".to_string());
    let mut visited: Vec<String> = Vec::new();
    while let Some((id, hint)) = crawler.pop_next() {
        visited.push(id.clone());
        let d = &docs.iter().find(|(k, _)| *k == id).unwrap().1;
        let (_md, links) = document_markup(d, crawler.registry());
        let path = crawler.resolve_output_path(&id, &hint);
        if id == "A" && hint.is_none() {
            assert_eq!(path, "index.html");
        }
        crawler.enqueue_links(&links);
    }
    assert_eq!(visited, vec!["A".to_string(), "B".to_string()]);
}

#[test]
fn diamond_graph_visits_each_once() {
    let docs = [
        ("R", doc_linking_to(&[("L", "Left"), ("M", "Middle")])),
        ("L", doc_linking_to(&[("M", "Middle again"), ("R", "Home")])),
        ("M", doc_linking_to(&[("L", "Left again")])),
    ];
    let mut crawler = Crawler::new("R".to_string());
    let mut visited: Vec<String> = Vec::new();
    while let Some((id, hint)) = crawler.pop_next() {
        visited.push(id.clone());
        let d = &docs.iter().find(|(k, _)| *k == id).unwrap().1;
        let (_md, links) = document_markup(d, crawler.registry());
        crawler.resolve_output_path(&id, &hint);
        crawler.enqueue_links(&links);
    }
    assert_eq!(visited, vec!["R".to_string(), "L".to_string(), "M".to_string()]);
}

#[test]
fn slugs_are_reserved_at_discovery() {
    let mut crawler = Crawler::new("ROOT".to_string());
    let links = vec![("X1".to_string(), "my-page".to_string())];
    crawler.enqueue_links(&links);
    assert_eq!(crawler.assigned_slug("X1").as_deref(), Some("my-page"));
    let later = vec![("X1".to_string(), "different-anchor".to_string())];
    crawler.enqueue_links(&later);
    assert_eq!(crawler.assigned_slug("X1").as_deref(), Some("my-page"));
}

#[test]
fn colliding_suggestions_get_distinct_slugs() {
    let mut crawler = Crawler::new("ROOT".to_string());
    let links = vec![
        ("X1".to_string(), "intro".to_string()),
        ("X2".to_string(), "intro".to_string()),
    ];
    crawler.enqueue_links(&links);
    assert_eq!(crawler.assigned_slug("X1").as_deref(), Some("intro"));
    assert_eq!(crawler.assigned_slug("X2").as_deref(), Some("intro-2"));
    crawler.pop_next();
    let (x1, h1) = crawler.pop_next().unwrap();
    assert_eq!(x1, "X1");
    assert_eq!(h1.as_deref(), Some("intro"));
    let path = crawler.resolve_output_path(&x1, &h1);
    assert_eq!(path, "p/intro/index.html");
    let (x2, h2) = crawler.pop_next().unwrap();
    assert_eq!(x2, "X2");
    assert_eq!(h2.as_deref(), Some("intro-2"));
    let path2 = crawler.resolve_output_path(&x2, &h2);
    assert_eq!(path2, "p/intro-2/index.html");
}

#[test]
fn root_link_is_never_requeued() {
    let mut crawler = Crawler::new("ROOT".to_string());
    let links = vec![("ROOT".to_string(), "home".to_string())];
    crawler.enqueue_links(&links);
    let first = crawler.pop_next().unwrap();
    assert_eq!(first.0, "ROOT");
    assert!(crawler.pop_next().is_none());
    assert!(crawler.assigned_slug("ROOT").is_none());
}

#[test]
fn non_root_without_hint_falls_back() {
    let mut crawler = Crawler::new("ROOT".to_string());
    let path = crawler.resolve_output_path("LONER", &None);
    assert_eq!(path, "p/page/index.html");
    let path2 = crawler.resolve_output_path("LONER2", &None);
    assert_eq!(path2, "p/page-2/index.html");
}

#[test]
fn root_with_hint_renders_under_slug() {
    let mut crawler = Crawler::new("ROOT".to_string());
    let path = crawler.resolve_output_path("ROOT", &Some("home".to_string()));
    assert_eq!(path, "p/home/index.html");
}


#[test]
fn page_hrefs_match_final_assignments() {
    // Two same-page links whose anchors collide on one slug: the page's
    // hrefs must name the slugs the targets actually get.
    let d = doc_linking_to(&[("X1", "Intro"), ("X2", "Intro")]);
    let mut crawler = Crawler::new("R".to_string());
    let mut store = AssetStore::new();
    let cache = UrlCache::new();
    let (root_id, _hint) = crawler.pop_next().unwrap();
    assert_eq!(root_id, "R");
    let (html, writes) = crawler.process_document(&d, &mut store, &cache);
    assert!(writes.is_empty());
    assert!(html.contains("/p/intro/"));
    assert!(html.contains("/p/intro-2/"));
    assert_eq!(crawler.assigned_slug("X1").as_deref(), Some("intro"));
    assert_eq!(crawler.assigned_slug("X2").as_deref(), Some("intro-2"));
}

#[test]
fn revisited_target_keeps_assigned_href() {
    // A target assigned earlier in the run keeps its slug in every
    // later page, whatever the new anchor text says.
    let docs = [
        ("R", doc_linking_to(&[("T", "My Page")])),
        ("T", doc_linking_to(&[])),
        ("S", doc_linking_to(&[("T", "Different Anchor")])),
    ];
    let mut crawler = Crawler::new("R".to_string());
    let mut store = AssetStore::new();
    let cache = UrlCache::new();
    crawler.pop_next().unwrap();
    crawler.process_document(&docs[0].1, &mut store, &cache);
    assert_eq!(crawler.assigned_slug("T").as_deref(), Some("my-page"));
    // a later page reaches T under a different anchor
    let (html, _) = crawler.process_document(&docs[2].1, &mut store, &cache);
    assert!(html.contains("[Different Anchor](/p/my-page/)") || html.contains("/p/my-page/"));
    assert!(!html.contains("/p/different-anchor/"));
}
