use rss_rs::store::{
    all_feeds, cleanup_pages, dump_new_page, mark_pages_read, query_page_link, query_pages,
    remove_pages_from_link, update_page_read, Filter, Page, Store,
};

fn b(s: &str) -> Vec<u8> {
    s.as_bytes().to_vec()
}

fn page(title: &str, link: &str, website: &str, time: &str, source: &str, readed: bool) -> Page {
    Page {
        title: b(title),
        publish_datetime: b(time),
        link: b(link),
        source: b(source),
        website: b(website),
        readed,
    }
}

#[test]
fn test_db() {
    let mut store = Store::new();
    dump_new_page(&mut store, &page("title", "link", "website", "publish_time", "source", true));
    assert_eq!(store.len(), 1);

    let new_page = page("title_new", "link_new", "website", "publish_time", "source", true);
    dump_new_page(&mut store, &new_page);

    let pages = query_pages(&store, &vec![]);
    assert_eq!(pages.len(), 2);

    let page_res = query_page_link(&store, &b("link_new"));
    assert_eq!(page_res.unwrap().link, b("link_new"));

    dump_new_page(&mut store, &page("title_new", "link_3", "website", "publish_time", "source3", true));

    let mut feeds = vec![b("source"), b("source3")];
    remove_pages_from_link(&mut store, &mut feeds, &b("link_new"));
    let pages = query_pages(&store, &vec![]);
    // only the page of the other source is left
    assert_eq!(pages.len(), 1);
    assert_eq!(pages[0].source, b("source3"));
    assert_eq!(feeds, vec![b("source3")]);
}

#[test]
fn test_update_read() {
    let mut store = Store::new();
    dump_new_page(&mut store, &page("title1", "link1", "website", "publish_time", "source1", false));

    let p = query_page_link(&store, &b("link1"));
    assert_eq!(p.unwrap().readed, false);

    update_page_read(&mut store, &b("link1"));
    let p = query_page_link(&store, &b("link1"));
    assert_eq!(p.unwrap().readed, true);
}

#[test]
fn insert_is_deduplicated_by_link() {
    let mut store = Store::new();
    dump_new_page(&mut store, &page("a", "L", "w", "t1", "s", false));
    dump_new_page(&mut store, &page("b", "L", "w", "t2", "s2", false));
    assert_eq!(store.len(), 1);
    let p = query_page_link(&store, &b("L")).unwrap();
    assert_eq!(p.title, b("a"));
}

#[test]
fn insert_starts_unread() {
    let mut store = Store::new();
    dump_new_page(&mut store, &page("a", "L", "w", "t", "s", true));
    assert_eq!(query_page_link(&store, &b("L")).unwrap().readed, false);
}

#[test]
fn query_filters_are_conjunctive() {
    let mut store = Store::new();
    dump_new_page(&mut store, &page("a", "l1", "w", "t", "s1", false));
    dump_new_page(&mut store, &page("b", "l2", "w", "t", "s2", false));
    update_page_read(&mut store, &b("l1"));
    let unread = query_pages(&store, &vec![Filter::Readed(false)]);
    assert_eq!(unread.len(), 1);
    assert_eq!(unread[0].link, b("l2"));
    let both = query_pages(&store, &vec![Filter::Readed(false), Filter::Source(b("s1"))]);
    assert_eq!(both.len(), 0);
}

#[test]
fn mark_many_read_takes_most_recent() {
    let mut store = Store::new();
    dump_new_page(&mut store, &page("p1", "l1", "w", "2023-01-01T00:00:00Z", "s", false));
    dump_new_page(&mut store, &page("p2", "l2", "w", "2023-03-01T00:00:00Z", "s", false));
    dump_new_page(&mut store, &page("p3", "l3", "w", "2023-02-01T00:00:00Z", "s", false));
    dump_new_page(&mut store, &page("p4", "l4", "w", "2023-05-01T00:00:00Z", "s", false));
    dump_new_page(&mut store, &page("p5", "l5", "w", "2023-04-01T00:00:00Z", "s", false));
    let n = mark_pages_read(&mut store, 3);
    assert_eq!(n, 3);
    // the three most recent are read, the two oldest stay unread
    assert!(query_page_link(&store, &b("l4")).unwrap().readed);
    assert!(query_page_link(&store, &b("l5")).unwrap().readed);
    assert!(query_page_link(&store, &b("l2")).unwrap().readed);
    assert!(!query_page_link(&store, &b("l1")).unwrap().readed);
    assert!(!query_page_link(&store, &b("l3")).unwrap().readed);
}

#[test]
fn mark_many_read_with_fewer_unread() {
    let mut store = Store::new();
    dump_new_page(&mut store, &page("p1", "l1", "w", "t1", "s", false));
    dump_new_page(&mut store, &page("p2", "l2", "w", "t2", "s", false));
    let n = mark_pages_read(&mut store, 5);
    assert_eq!(n, 2);
    assert!(query_page_link(&store, &b("l1")).unwrap().readed);
    assert!(query_page_link(&store, &b("l2")).unwrap().readed);
}

#[test]
fn prune_removes_exactly_missing_sources() {
    let mut store = Store::new();
    dump_new_page(&mut store, &page("a1", "la1", "w", "t", "A", false));
    dump_new_page(&mut store, &page("b1", "lb1", "w", "t", "B", false));
    dump_new_page(&mut store, &page("a2", "la2", "w", "t", "A", false));
    let feeds = vec![b("A")];
    cleanup_pages(&mut store, &feeds);
    let pages = query_pages(&store, &vec![]);
    assert_eq!(pages.len(), 2);
    assert!(pages.iter().all(|p| p.source == b("A")));
}

#[test]
fn remove_by_link_removes_whole_source() {
    let mut store = Store::new();
    dump_new_page(&mut store, &page("a1", "la1", "w", "t", "S", false));
    dump_new_page(&mut store, &page("a2", "la2", "w", "t", "S", false));
    dump_new_page(&mut store, &page("b1", "lb1", "w", "t", "T", false));
    let mut feeds = vec![b("S"), b("T")];
    let n = remove_pages_from_link(&mut store, &mut feeds, &b("la1"));
    assert_eq!(n, 2);
    assert!(query_page_link(&store, &b("la2")).is_none());
    assert!(query_page_link(&store, &b("lb1")).is_some());
    assert_eq!(feeds, vec![b("T")]);
}

#[test]
fn remove_by_absent_link_is_noop() {
    let mut store = Store::new();
    dump_new_page(&mut store, &page("a1", "la1", "w", "t", "S", false));
    let mut feeds = vec![b("S")];
    let n = remove_pages_from_link(&mut store, &mut feeds, &b("nothing"));
    assert_eq!(n, 0);
    assert_eq!(store.len(), 1);
    assert_eq!(feeds, vec![b("S")]);
}

#[test]
fn all_feeds_parses_nonblank_trimmed_lines() {
    let text = b("http://a.example/feed\n\n  http://b.example/feed  \n\t\n");
    let feeds = all_feeds(&text);
    assert_eq!(feeds, vec![b("http://a.example/feed"), b("http://b.example/feed")]);
}

#[test]
fn all_feeds_of_empty_text_is_empty() {
    assert_eq!(all_feeds(&b("")).len(), 0);
    assert_eq!(all_feeds(&b("\n\n")).len(), 0);
}
