use base64::Engine;
use sitegen::assets::{asset_filename, collect_image_sources, localize_images, media_ext, url_ext,
    AssetStore, UrlCache};
use sitegen::convert::{render_document, Document, Inline, InlineObject, Paragraph};
use sitegen::registry::SlugRegistry;
use sitegen::web::{content_type_from_ext, doc_id_from_query};

fn b64(bytes: &[u8]) -> String {
    base64::engine::general_purpose::STANDARD.encode(bytes)
}

#[test]
fn fnv_of_empty_bytes_is_the_basis() {
    assert_eq!(asset_filename(&Vec::new(), ".bin"), "cbf29ce484222325.bin");
}

#[test]
fn asset_names_are_deterministic() {
    let a = asset_filename(&vec![1, 2, 3], ".png");
    let b = asset_filename(&vec![1, 2, 3], ".png");
    let c = asset_filename(&vec![1, 2, 4], ".png");
    assert_eq!(a, b);
    assert_ne!(a, c);
    assert_eq!(a.len(), 16 + 4);
}

#[test]
fn inline_data_image_localizes_and_reuses_path() {
    let bytes: Vec<u8> = vec![137, 80, 78, 71, 13, 10, 26, 10, 7, 7];
    let payload = b64(&bytes);
    let md = format!(
        "![image](data:image/png;base64,{})\ntext\n![image](data:image/png;base64,{})\n",
        payload, payload
    );
    let mut store = AssetStore::new();
    let cache = UrlCache::new();
    let (out, writes) = localize_images(&md, &mut store, &cache);
    let name = asset_filename(&bytes, ".png");
    let path = format!("/static/images/{}", name);
    let expected = format!("![image]({})\ntext\n![image]({})\n", path, path);
    assert_eq!(out, expected);
    assert_eq!(writes.len(), 1);
    assert_eq!(writes[0].0, name);
    assert_eq!(writes[0].1, bytes);
}

#[test]
fn remote_and_inline_share_one_file() {
    let bytes: Vec<u8> = vec![42, 42, 1, 2, 3];
    let url = "https://example.com/pic.png";
    let mut store = AssetStore::new();
    let mut cache = UrlCache::new();
    let w = cache.ingest_remote_image(&mut store, url, Some((bytes.clone(), "image/png".to_string())));
    let name = asset_filename(&bytes, ".png");
    assert_eq!(w.as_ref().map(|p| p.0.clone()), Some(name.clone()));

    let md = format!(
        "![image]({})\n![image](data:image/png;base64,{})\n",
        url,
        b64(&bytes)
    );
    let (out, writes) = localize_images(&md, &mut store, &cache);
    let path = format!("/static/images/{}", name);
    let expected = format!("![image]({})\n![image]({})\n", path, path);
    assert_eq!(out, expected);
    assert!(writes.is_empty());
}

#[test]
fn failed_fetch_keeps_remote_url() {
    let url = "https://example.com/missing.png";
    let mut store = AssetStore::new();
    let mut cache = UrlCache::new();
    let w = cache.ingest_remote_image(&mut store, url, None);
    assert!(w.is_none());
    assert!(!cache.needs_fetch(url));
    let md = format!("![image]({})", url);
    let (out, writes) = localize_images(&md, &mut store, &cache);
    assert_eq!(out, md);
    assert!(writes.is_empty());
}

#[test]
fn unfetched_remote_is_left_in_place() {
    let md = "![image](http://example.com/a.gif)";
    let mut store = AssetStore::new();
    let cache = UrlCache::new();
    assert!(cache.needs_fetch("http://example.com/a.gif"));
    let (out, writes) = localize_images(md, &mut store, &cache);
    assert_eq!(out, md);
    assert!(writes.is_empty());
}

#[test]
fn url_is_fetched_once_per_run() {
    let url = "https://example.com/pic.png";
    let mut store = AssetStore::new();
    let mut cache = UrlCache::new();
    assert!(cache.needs_fetch(url));
    cache.ingest_remote_image(&mut store, url, Some((vec![9], "image/png".to_string())));
    assert!(!cache.needs_fetch(url));
    let w2 = cache.ingest_remote_image(&mut store, url, Some((vec![8, 8], "image/png".to_string())));
    assert!(w2.is_none());
    assert!(!cache.needs_fetch("data:image/png;base64,AAAA"));
    assert!(!cache.needs_fetch("/static/images/x.png"));
}

#[test]
fn local_and_malformed_sources_untouched() {
    let md = "![a](/static/css/site.css) ![b](data:image/png;base64,!!!bad!!!) ![c](data:nope) ![d](relative/x.png)";
    let mut store = AssetStore::new();
    let cache = UrlCache::new();
    let (out, writes) = localize_images(md, &mut store, &cache);
    assert_eq!(out, md);
    assert!(writes.is_empty());
}

#[test]
fn collect_sources_in_order() {
    let md = "![a](one.png) text ![b](data:two) ![](three)";
    let srcs = collect_image_sources(md);
    assert_eq!(srcs, vec!["one.png".to_string(), "data:two".to_string(), "three".to_string()]);
}

#[test]
fn extension_inference() {
    assert_eq!(media_ext("image/png"), ".png");
    assert_eq!(media_ext("image/jpeg"), ".jpg");
    assert_eq!(media_ext("text/plain"), ".bin");
    assert_eq!(url_ext("https://x/y/pic.PNG?v=1"), ".png");
    assert_eq!(url_ext("https://x/y/pic.jpeg"), ".jpeg");
    assert_eq!(url_ext("https://x/y/noext"), ".bin");
    assert_eq!(url_ext("https://x/y.dir/file"), ".bin");
    assert_eq!(url_ext("https://x/a.toolong1"), ".bin");
}

#[test]
fn remote_extension_prefers_content_type() {
    let bytes: Vec<u8> = vec![1];
    let mut store = AssetStore::new();
    let mut cache = UrlCache::new();
    let w = cache.ingest_remote_image(&mut store, "https://x/p.gif", Some((bytes.clone(), "image/png".to_string())));
    assert!(w.unwrap().0.ends_with(".png"));
    let w2 = cache.ingest_remote_image(&mut store, "https://x/q.GIF?a=b", Some((vec![2], "application/octet-stream".to_string())));
    assert!(w2.unwrap().0.ends_with(".gif"));
}

#[test]
fn content_types_for_extensions() {
    assert_eq!(content_type_from_ext("css"), "text/css; charset=utf-8");
    assert_eq!(content_type_from_ext("js"), "application/javascript");
    assert_eq!(content_type_from_ext("png"), "image/png");
    assert_eq!(content_type_from_ext("jpg"), "image/jpeg");
    assert_eq!(content_type_from_ext("jpeg"), "image/jpeg");
    assert_eq!(content_type_from_ext("gif"), "image/gif");
    assert_eq!(content_type_from_ext("svg"), "image/svg+xml");
    assert_eq!(content_type_from_ext("ico"), "image/x-icon");
    assert_eq!(content_type_from_ext("weird"), "application/octet-stream");
}

#[test]
fn doc_id_out_of_query() {
    assert_eq!(doc_id_from_query("a=1&id=ABC123&b=2"), Some("ABC123".to_string()));
    assert_eq!(doc_id_from_query("id=X"), Some("X".to_string()));
    assert_eq!(doc_id_from_query("id="), Some("".to_string()));
    assert_eq!(doc_id_from_query("idx=1&nid=2"), None);
    assert_eq!(doc_id_from_query(""), None);
    assert_eq!(doc_id_from_query("id=a=b&id=c"), Some("a=b".to_string()));
}

#[test]
fn full_pipeline_localizes_into_html() {
    let bytes: Vec<u8> = vec![5, 6, 7, 8];
    let data_uri = format!("data:image/png;base64,{}", b64(&bytes));
    let d = Document {
        paragraphs: vec![Paragraph {
            bullet: false,
            named_style: Some("HEADING_1".to_string()),
            elements: vec![
                Inline::TextRun { content: "Title".to_string(), link_url: None },
                Inline::ObjectRef { object_id: "img".to_string() },
            ],
        }],
        objects: vec![InlineObject { object_id: "img".to_string(), content_uri: Some(data_uri) }],
    };
    let mut store = AssetStore::new();
    let cache = UrlCache::new();
    let reg = SlugRegistry::new();
    let (html, links, writes) = render_document(&d, &reg, &mut store, &cache);
    let name = asset_filename(&bytes, ".png");
    assert!(html.contains(&format!("/static/images/{}", name)));
    assert!(html.contains("<h1>"));
    assert!(links.is_empty());
    assert_eq!(writes.len(), 1);
    assert_eq!(writes[0].0, name);
}
