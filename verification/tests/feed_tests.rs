use rss_rs::assets::{gen_image_name, gen_image_rel, AssetCache};
use rss_rs::feed::{
    fetch_feed, first_link, parse_feed, prefer_fetched, preprocess_image, sanitize_title,
    entry_fetch_link, entry_image_jobs, FetchedPage, ImageFetch,
};
use rss_rs::html::{extract, remove_elements};
use rss_rs::store::Store;

fn b(s: &str) -> Vec<u8> {
    s.as_bytes().to_vec()
}

fn text(v: &[u8]) -> String {
    String::from_utf8_lossy(v).into_owned()
}

#[test]
fn test_url_base() {
    assert!(gen_image_name(&b("http://abc/d/x/demo.png")).unwrap().ends_with(b".png"));
    assert!(gen_image_name(&b("http://abc/d/x/demo.png?ab=1&c=3")).unwrap().ends_with(b".png"));
    assert!(gen_image_name(&b("https://a/demo.png?ab=1&c=3")).unwrap().ends_with(b".png"));
    assert!(gen_image_name(&b("http://x.com/demo.jpg")).unwrap().ends_with(b".jpg"));
    assert!(gen_image_name(&b("http://abc.com/demo.jpg?/test/")).unwrap().ends_with(b"jpg"));
    assert!(gen_image_name(&b("http://abc.com/demo?/test/")).unwrap().ends_with(b"png"));
}

#[test]
fn image_name_is_stable_and_digest_based() {
    let uri = b("http://x.com/demo.jpg");
    let first = gen_image_name(&uri).unwrap();
    let second = gen_image_name(&uri).unwrap();
    assert_eq!(first, second);
    assert!(first.starts_with(b"./pages/images/"));
    // the stem is a digest prefix, not the URI's own bytes hex-encoded
    assert_ne!(first, b("./pages/images/687474703a.jpg"));
    // a different URI gets a different name
    assert_ne!(gen_image_name(&b("http://x.com/other.jpg")).unwrap(), first);
    // the relative path mirrors the on-disk path without the leading dot
    let rel = gen_image_rel(&uri);
    assert_eq!(text(&first), format!(".{}", text(&rel)));
}

#[test]
fn image_name_rejects_unparseable_uri() {
    assert!(gen_image_name(&b("not a uri")).is_none());
}

#[test]
fn test_article() {
    let html = r#"
        <!DOCTYPE html>
        <meta charset="utf-8">
        <article>Hello, world!</article>
        <h1 class="foo">Hello, <i>world!</i></h1>
    "#;
    let document = b(html);
    let article = extract(&document, &b("article"));
    assert!(article.is_some());
    assert_eq!(article.unwrap(), b("<article>Hello, world!</article>"));
}

#[test]
fn test_article_in_body() {
    let html = r#"
        <!DOCTYPE html>
        <body>
        <meta charset="utf-8">
        <article>Hello, world!</article>
        <h1 class="foo">Hello, <i>world!</i></h1>
        </body>
    "#;
    let document = b(html);
    let article = extract(&document, &b("article"));
    assert!(article.is_some());
    assert_eq!(article.unwrap(), b("<article>Hello, world!</article>"));
}

#[test]
fn test_remove_element() {
    let html = r#"
        <!DOCTYPE html>
        <body>
        <meta charset="utf-8">
        <footer>Hello, world!</footer>
        <comments>Comments</comments>
        <h1 class="foo">Hello, <i>world!</i></h1>
        </body>
    "#;
    let res = remove_elements(&b(html), &vec![b("footer"), b("comments")]);
    let s = text(&res);
    assert!(!s.contains("<footer>"));
    assert!(!s.contains("<comments>"));
}

#[test]
fn test_articles() {
    let html = r#"
        <!DOCTYPE html>
        <meta charset="utf-8">
        <article>Hello, world!</article>
        <article>Hello, world now!</article>
        <h1 class="foo">Hello, <i>world!</i></h1>
    "#;
    let document = b(html);
    let article = extract(&document, &b("article"));
    assert!(!article.is_none());
    assert_eq!(article.unwrap(), b("<article>Hello, world now!</article>"));
}

#[test]
fn test_process_image() {
    let img = "https://coderscat.com/css/images/logo.png";
    let html = format!(
        "<img src=\"{}\" alt=\"moores-law\" style=\"width: 50%; height: 100%;\">",
        img
    );
    let imgs = vec![ImageFetch { uri: b(img), ok: true }];
    let processed = preprocess_image(&b(&html), &b(""), &b(""), &imgs);
    let s = text(&processed);
    assert!(s.find(".png").is_some());
    assert!(s.contains("/pages/images/"));
    assert!(!s.contains(img));
}

#[test]
fn test_preprocess_image() {
    let content = r#"
        <!DOCTYPE html>
        <meta charset="utf-8">
        <article>Hello, world!</article>
        <article>Hello, world now!</article>
        <img src="/images/logo.png" alt="moores-law" style="width: 50%; height: 100%;">
        <h1 class="foo">Hello, <i>world!</i></h1>
        "#;
    let imgs = vec![ImageFetch { uri: b("http://demo.com/images/logo.png"), ok: true }];
    let res = preprocess_image(&b(content), &b("http://demo.com"), &b(""), &imgs);
    assert!(text(&res).contains(".png"));
    assert!(text(&res).contains("/pages/images/"));
}

#[test]
fn failed_localization_leaves_src_untouched() {
    let html = "<img src=\"https://a.example/pic.png\">";
    let imgs = vec![ImageFetch { uri: b("https://a.example/pic.png"), ok: false }];
    let res = preprocess_image(&b(html), &b(""), &b(""), &imgs);
    assert!(text(&res).contains("https://a.example/pic.png"));
}

#[test]
fn localize_fetches_at_most_once() {
    let mut cache = AssetCache::from_paths(vec![]);
    let uri = b("http://x.com/demo.jpg");
    let first = cache.localize(&uri).unwrap();
    assert!(first.fetch_needed);
    cache.confirm(first.path.clone());
    let second = cache.localize(&uri).unwrap();
    assert_eq!(first.path, second.path);
    assert!(!second.fetch_needed);
}

#[test]
fn heuristic_prefers_long_page() {
    let summary = vec![b'a'; 100];
    let page = vec![b'b'; 250];
    assert!(prefer_fetched(&page, &summary));
}

#[test]
fn heuristic_prefers_containing_page() {
    let summary = vec![b'a'; 100];
    let mut page = summary.clone();
    page.extend_from_slice(&vec![b'c'; 50]);
    assert_eq!(page.len(), 150);
    assert!(prefer_fetched(&page, &summary));
}

#[test]
fn heuristic_prefers_media_page() {
    let summary = vec![b'a'; 100];
    let mut page = vec![b'c'; 100];
    page.extend_from_slice(b"<video controls>");
    assert!(prefer_fetched(&page, &summary));
}

#[test]
fn heuristic_otherwise_prefers_summary() {
    let summary = vec![b'a'; 100];
    let page = vec![b'c'; 150];
    assert!(!prefer_fetched(&page, &summary));
}

#[test]
fn first_link_skips_invalid_urls() {
    let links = vec![b("notaurl"), b("http://ok.example/x")];
    assert_eq!(first_link(&links), b("http://ok.example/x"));
    let none: Vec<Vec<u8>> = vec![b("stillnot")];
    assert_eq!(first_link(&none), b(""));
}

#[test]
fn sanitize_title_encodes_path_separators() {
    assert_eq!(sanitize_title(&b("a/b/c")), b("a|b|c"));
    assert_eq!(sanitize_title(&b("plain")), b("plain"));
}

const FEED_XML: &str = r#"<?xml version="1.0" encoding="UTF-8"?>
<rss version="2.0"><channel>
<title>Demo</title><link>http://example.com/</link><description>demo feed</description>
<item><title>A1</title><link>http://example.com/a1</link><description>hello world</description></item>
<item><link>http://example.com/untitled</link><description>skipped</description></item>
</channel></rss>"#;

fn demo_pages() -> Vec<FetchedPage> {
    vec![FetchedPage {
        link: b("http://example.com/a1"),
        body: Some(b("<html><body><article>Full article body text, much longer than the summary it came with.</article></body></html>")),
    }]
}

#[test]
fn test_fetch_feed() {
    let mut store = Store::new();
    let body = b(FEED_XML);
    let res = fetch_feed(
        &mut store,
        &body,
        &b("http://example.com/feed"),
        &b("2024-01-01T00:00:00+00:00"),
        &demo_pages(),
        &vec![],
        false,
    );
    assert!(res.ok);
    assert_eq!(res.count, 1);
    assert_eq!(store.len(), 1);
    assert_eq!(res.writes.len(), 1);
    assert_eq!(res.writes[0].path, b("./pages/A1.html"));
    let stored = rss_rs::store::query_page_link(&store, &b("http://example.com/a1")).unwrap();
    assert_eq!(stored.title, b("A1"));
    assert_eq!(stored.source, b("http://example.com/feed"));
    assert_eq!(stored.publish_datetime, b("2024-01-01T00:00:00+00:00"));
    assert_eq!(stored.readed, false);
}

#[test]
fn ingest_twice_stores_once() {
    let mut store = Store::new();
    let body = b(FEED_XML);
    let pages = demo_pages();
    let now = b("2024-01-01T00:00:00+00:00");
    let src = b("http://example.com/feed");
    let first = fetch_feed(&mut store, &body, &src, &now, &pages, &vec![], false);
    assert!(first.ok);
    assert_eq!(store.len(), 1);
    let second = fetch_feed(&mut store, &body, &src, &now, &pages, &vec![], false);
    assert!(second.ok);
    assert_eq!(second.count, 0);
    assert_eq!(store.len(), 1);
}

#[test]
fn unparseable_feed_fails_cleanly() {
    let mut store = Store::new();
    let res = fetch_feed(
        &mut store,
        &b("this is not a feed"),
        &b("src"),
        &b("now"),
        &vec![],
        &vec![],
        false,
    );
    assert!(!res.ok);
    assert_eq!(res.count, 0);
    assert_eq!(store.len(), 0);
}

#[test]
fn missing_page_fetch_aborts_the_source() {
    let mut store = Store::new();
    let res = fetch_feed(
        &mut store,
        &b(FEED_XML),
        &b("src"),
        &b("now"),
        &vec![],
        &vec![],
        false,
    );
    assert!(!res.ok);
    assert_eq!(res.count, 0);
}

#[test]
fn parse_feed_extracts_entries() {
    let doc = parse_feed(&b(FEED_XML)).unwrap();
    assert_eq!(doc.entries.len(), 2);
    assert_eq!(doc.entries[0].title.as_ref().unwrap(), &b("A1"));
    assert!(doc.entries[1].title.is_none());
    assert_eq!(first_link(&doc.links), b("http://example.com/"));
}

#[test]
fn fetch_plan_names_needed_links() {
    let store = Store::new();
    let doc = parse_feed(&b(FEED_XML)).unwrap();
    let l = entry_fetch_link(&store, &doc.entries[0], false);
    assert_eq!(l.unwrap(), b("http://example.com/a1"));
    assert!(entry_fetch_link(&store, &doc.entries[1], false).is_none());
}

#[test]
fn image_jobs_name_paths() {
    let store = Store::new();
    let doc = parse_feed(&b(FEED_XML)).unwrap();
    let mut pages = demo_pages();
    pages[0].body = Some(b(
        "<html><body><article>Body long enough to beat the summary twice over, with <img src=\"/pic.png\"> inside.</article></body></html>",
    ));
    let jobs = entry_image_jobs(&store, &doc.entries[0], &b("http://example.com"), &pages, false);
    assert_eq!(jobs.len(), 1);
    assert_eq!(jobs[0].uri, b("http://example.com/pic.png"));
    assert!(jobs[0].path.starts_with(b"./pages/images/"));
    assert!(jobs[0].path.ends_with(b".png"));
}
