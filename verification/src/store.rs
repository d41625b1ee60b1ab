//! The article store: a link-deduplicated collection of pages with
//! read/unread state, filtered queries, bulk marking, whole-source
//! removal and pruning of stale sources.

use vstd::prelude::*;
use crate::bytes::{bytes_eq, clone_bytes, lex_le, lex_leq, subvec};

verus! {

/// Mathematical model of one stored article.
pub ghost struct PageView {
    pub title: Seq<u8>,
    pub publish_datetime: Seq<u8>,
    pub link: Seq<u8>,
    pub source: Seq<u8>,
    pub website: Seq<u8>,
    pub readed: bool,
}

/// An item within a feed.
pub struct Page {
    pub title: Vec<u8>,
    pub publish_datetime: Vec<u8>,
    pub link: Vec<u8>,
    pub source: Vec<u8>,
    pub website: Vec<u8>,
    pub readed: bool,
}

impl View for Page {
    type V = PageView;

    open spec fn view(&self) -> PageView {
        PageView {
            title: self.title@,
            publish_datetime: self.publish_datetime@,
            link: self.link@,
            source: self.source@,
            website: self.website@,
            readed: self.readed,
        }
    }
}

impl Clone for Page {
    fn clone(&self) -> (r: Self)
        ensures
            r@ == self@,
    {
        Page {
            title: clone_bytes(&self.title),
            publish_datetime: clone_bytes(&self.publish_datetime),
            link: clone_bytes(&self.link),
            source: clone_bytes(&self.source),
            website: clone_bytes(&self.website),
            readed: self.readed,
        }
    }
}

/// No two stored pages share a link.
pub open spec fn links_unique(ps: Seq<PageView>) -> bool {
    forall|i: int, j: int| 0 <= i < j < ps.len() ==> ps[i].link != ps[j].link
}

/// Some stored page carries this link.
pub open spec fn has_link(ps: Seq<PageView>, link: Seq<u8>) -> bool {
    exists|i: int| 0 <= i < ps.len() && ps[i].link == link
}

/// Index of the page carrying this link (meaningful when `has_link`).
pub open spec fn link_idx(ps: Seq<PageView>, link: Seq<u8>) -> int {
    choose|i: int| 0 <= i < ps.len() && ps[i].link == link
}

/// Law: under the store invariant, at most one page carries any link.
pub proof fn lemma_link_unique(ps: Seq<PageView>, i: int, j: int)
    requires
        links_unique(ps),
        0 <= i < ps.len(),
        0 <= j < ps.len(),
        ps[i].link == ps[j].link,
    ensures
        i == j,
{
}

/// The same page with `readed` set.
pub open spec fn read_page(p: PageView) -> PageView {
    PageView {
        title: p.title,
        publish_datetime: p.publish_datetime,
        link: p.link,
        source: p.source,
        website: p.website,
        readed: true,
    }
}

/// The page as the insert stores it: `readed` defaults to false.
pub open spec fn stored_page(p: PageView) -> PageView {
    PageView {
        title: p.title,
        publish_datetime: p.publish_datetime,
        link: p.link,
        source: p.source,
        website: p.website,
        readed: false,
    }
}

/// One exact-match predicate of a query.
pub enum Filter {
    Link(Vec<u8>),
    Source(Vec<u8>),
    Title(Vec<u8>),
    Website(Vec<u8>),
    Readed(bool),
}

pub open spec fn filter_matches(p: PageView, f: Filter) -> bool {
    match f {
        Filter::Link(l) => p.link == l@,
        Filter::Source(s) => p.source == s@,
        Filter::Title(t) => p.title == t@,
        Filter::Website(w) => p.website == w@,
        Filter::Readed(b) => p.readed == b,
    }
}

pub open spec fn matches_all(p: PageView, fs: Seq<Filter>) -> bool {
    forall|k: int| 0 <= k < fs.len() ==> filter_matches(p, #[trigger] fs[k])
}

pub open spec fn query_pred(fs: Seq<Filter>) -> spec_fn(PageView) -> bool {
    |p: PageView| matches_all(p, fs)
}

/// Pages whose source is among the active feeds are kept by pruning.
pub open spec fn keep_pred(feeds: Seq<Seq<u8>>) -> spec_fn(PageView) -> bool {
    |p: PageView| feeds.contains(p.source)
}

/// Pages not from the removed source are kept by removal.
pub open spec fn other_source_pred(src: Seq<u8>) -> spec_fn(PageView) -> bool {
    |p: PageView| p.source != src
}

/// Feed entries other than the removed source are kept.
pub open spec fn other_feed_pred(src: Seq<u8>) -> spec_fn(Seq<u8>) -> bool {
    |f: Seq<u8>| f != src
}

/// Number of unread pages.
pub open spec fn unread_count(ps: Seq<PageView>) -> int
    decreases ps.len(),
{
    if ps.len() == 0 {
        0
    } else {
        unread_count(ps.drop_last()) + if ps.last().readed {
            0int
        } else {
            1int
        }
    }
}

pub proof fn lemma_unread_nonneg(ps: Seq<PageView>)
    ensures
        0 <= unread_count(ps) <= ps.len(),
    decreases ps.len(),
{
    if ps.len() > 0 {
        lemma_unread_nonneg(ps.drop_last());
    }
}

pub proof fn lemma_unread_all_read(ps: Seq<PageView>)
    requires
        forall|i: int| 0 <= i < ps.len() ==> ps[i].readed,
    ensures
        unread_count(ps) == 0,
    decreases ps.len(),
{
    if ps.len() > 0 {
        assert(forall|i: int| 0 <= i < ps.drop_last().len() ==> ps.drop_last()[i] == ps[i]);
        lemma_unread_all_read(ps.drop_last());
    }
}

pub proof fn lemma_unread_update(ps: Seq<PageView>, k: int)
    requires
        0 <= k < ps.len(),
        !ps[k].readed,
    ensures
        unread_count(ps.update(k, read_page(ps[k]))) == unread_count(ps) - 1,
    decreases ps.len(),
{
    let u = ps.update(k, read_page(ps[k]));
    if k == ps.len() - 1 {
        assert(u.drop_last() =~= ps.drop_last());
        assert(u.last() == read_page(ps[k]));
    } else {
        assert(u.drop_last() =~= ps.drop_last().update(k, read_page(ps.drop_last()[k])));
        lemma_unread_update(ps.drop_last(), k);
        assert(u.last() == ps.last());
    }
}

/// The persistent article store.
pub struct Store {
    pages: Vec<Page>,
}

impl View for Store {
    type V = Seq<PageView>;

    closed spec fn view(&self) -> Seq<PageView> {
        self.pages@.map_values(|p: Page| p@)
    }
}

impl Store {
    /// The store invariant: links are unique.
    pub open spec fn wf(&self) -> bool {
        links_unique(self@)
    }

    /// A fresh, empty store.
    pub fn new() -> (s: Store)
        ensures
            s@ =~= Seq::<PageView>::empty(),
            s.wf(),
    {
        Store { pages: Vec::new() }
    }

    /// Number of stored pages.
    pub fn len(&self) -> (n: usize)
        ensures
            n == self@.len(),
    {
        self.pages.len()
    }

    /// Rebuild a store from already-persisted pages, keeping only the
    /// first page of each link so that the invariant holds.
    pub fn from_pages(pages: Vec<Page>) -> (s: Store)
        ensures
            s.wf(),
            forall|i: int| 0 <= i < s@.len() ==> pages@.map_values(|p: Page| p@).contains(
                #[trigger] s@[i],
            ),
    {
        let ghost all = pages@.map_values(|p: Page| p@);
        let mut s = Store { pages: Vec::new() };
        let mut i: usize = 0;
        while i < pages.len()
            invariant
                0 <= i <= pages@.len(),
                all == pages@.map_values(|p: Page| p@),
                s.wf(),
                forall|k: int| 0 <= k < s@.len() ==> all.contains(#[trigger] s@[k]),
            decreases pages@.len() - i,
        {
            let p = pages[i].clone();
            dump_if_absent(&mut s, p);
            proof {
                assert(all.contains(all[i as int]));
            }
            i = i + 1;
        }
        s
    }
}

/// Insert the page unless its link is already present; helper for
/// rebuilding a store from persisted rows, keeping `readed` as given.
fn dump_if_absent(store: &mut Store, page: Page)
    requires
        old(store).wf(),
    ensures
        final(store).wf(),
        final(store)@ == if has_link(old(store)@, page@.link) {
            old(store)@
        } else {
            old(store)@.push(page@)
        },
{
    let exists_already = query_page_link(store, &page.link).is_some();
    if !exists_already {
        let ghost pre = store@;
        store.pages.push(page);
        proof {
            assert(store@ =~= pre.push(page@));
            assert forall|i: int, j: int| 0 <= i < j < store@.len() implies store@[i].link
                != store@[j].link by {
                if j == store@.len() - 1 {
                    assert(!has_link(pre, page@.link));
                    assert(store@[i] == pre[i]);
                }
            }
        }
    }
}

/// Query the pages matching every given filter, in store order.
pub fn query_pages(store: &Store, filters: &Vec<Filter>) -> (r: Vec<Page>)
    ensures
        r@.map_values(|p: Page| p@) == store@.filter(query_pred(filters@)),
{
    let ghost pred = query_pred(filters@);
    let mut r: Vec<Page> = Vec::new();
    let mut i: usize = 0;
    proof {
        assert(store@.take(0) =~= Seq::<PageView>::empty());
        assert(r@.map_values(|p: Page| p@) =~= Seq::<PageView>::empty().filter(pred));
    }
    while i < store.pages.len()
        invariant
            0 <= i <= store@.len(),
            store@.len() == store.pages@.len(),
            pred == query_pred(filters@),
            r@.map_values(|p: Page| p@) == store@.take(i as int).filter(pred),
        decreases store@.len() - i,
    {
        let ghost prefix = store@.take(i as int);
        proof {
            assert(store@.take(i + 1).drop_last() =~= prefix);
            assert(store@.take(i + 1).last() == store@[i as int]);
            reveal(Seq::filter);
        }
        if page_matches(&store.pages[i], filters) {
            let ghost rv = r@.map_values(|p: Page| p@);
            r.push(store.pages[i].clone());
            proof {
                assert(r@.map_values(|p: Page| p@) =~= rv.push(store@[i as int]));
            }
        }
        i = i + 1;
    }
    proof {
        assert(store@.take(store@.len() as int) =~= store@);
    }
    r
}

/// Whether a page satisfies every filter.
fn page_matches(page: &Page, filters: &Vec<Filter>) -> (r: bool)
    ensures
        r == matches_all(page@, filters@),
{
    let mut k: usize = 0;
    while k < filters.len()
        invariant
            0 <= k <= filters@.len(),
            forall|m: int| 0 <= m < k ==> filter_matches(page@, #[trigger] filters@[m]),
        decreases filters@.len() - k,
    {
        let ok = match &filters[k] {
            Filter::Link(l) => bytes_eq(&page.link, l),
            Filter::Source(s) => bytes_eq(&page.source, s),
            Filter::Title(t) => bytes_eq(&page.title, t),
            Filter::Website(w) => bytes_eq(&page.website, w),
            Filter::Readed(b) => page.readed == *b,
        };
        if !ok {
            return false;
        }
        k = k + 1;
    }
    true
}

/// The page stored under this link, if any; under the store invariant
/// there is at most one.
pub fn query_page_link(store: &Store, link: &Vec<u8>) -> (r: Option<Page>)
    ensures
        match r {
            Some(p) => has_link(store@, link@) && p@.link == link@ && store@.contains(p@),
            None => !has_link(store@, link@),
        },
{
    let mut i: usize = 0;
    while i < store.pages.len()
        invariant
            0 <= i <= store@.len(),
            store@.len() == store.pages@.len(),
            forall|j: int| 0 <= j < i ==> store@[j].link != link@,
        decreases store@.len() - i,
    {
        if bytes_eq(&store.pages[i].link, link) {
            let p = store.pages[i].clone();
            proof {
                assert(store@[i as int].link == link@);
                assert(store@.contains(store@[i as int]));
            }
            return Some(p);
        }
        i = i + 1;
    }
    None
}

/// Insert a new page; a page whose link is already stored is left
/// alone, and a new page starts unread.
pub fn dump_new_page(store: &mut Store, page: &Page)
    requires
        old(store).wf(),
    ensures
        final(store).wf(),
        final(store)@ == if has_link(old(store)@, page@.link) {
            old(store)@
        } else {
            old(store)@.push(stored_page(page@))
        },
{
    let mut fresh = page.clone();
    fresh.readed = false;
    assert(fresh@ == stored_page(page@));
    dump_if_absent(store, fresh);
}

/// Mark the page with this link as read; absent links are a no-op.
pub fn update_page_read(store: &mut Store, link: &Vec<u8>) -> (n: usize)
    requires
        old(store).wf(),
    ensures
        final(store).wf(),
        final(store)@ == Seq::new(
            old(store)@.len(),
            |i: int|
                if old(store)@[i].link == link@ {
                    read_page(old(store)@[i])
                } else {
                    old(store)@[i]
                },
        ),
        n as int == if has_link(old(store)@, link@) {
            1int
        } else {
            0int
        },
{
    let ghost orig = store@;
    let ghost goal = Seq::new(
        orig.len(),
        |i: int|
            if orig[i].link == link@ {
                read_page(orig[i])
            } else {
                orig[i]
            },
    );
    let mut n: usize = 0;
    let mut i: usize = 0;
    while i < store.pages.len()
        invariant
            old(store).wf(),
            orig == old(store)@,
            goal == Seq::new(
                orig.len(),
                |k: int|
                    if orig[k].link == link@ {
                        read_page(orig[k])
                    } else {
                        orig[k]
                    },
            ),
            0 <= i <= store@.len(),
            store@.len() == store.pages@.len(),
            store@.len() == orig.len(),
            forall|j: int| 0 <= j < i ==> store@[j] == goal[j],
            forall|j: int| i <= j < orig.len() ==> store@[j] == orig[j],
            n as int == if exists|j: int| 0 <= j < i && orig[j].link == link@ {
                1int
            } else {
                0int
            },
        decreases store@.len() - i,
    {
        let ghost pre = store@;
        if bytes_eq(&store.pages[i].link, link) {
            let mut p = store.pages[i].clone();
            p.readed = true;
            store.pages[i] = p;
            proof {
                assert(store@ =~= pre.update(i as int, read_page(orig[i as int])));
                assert forall|j: int, k: int| 0 <= j < k < orig.len() implies orig[j].link
                    != orig[k].link by {}
                if n == 1 {
                    let j = choose|j: int| 0 <= j < i && orig[j].link == link@;
                    assert(orig[j].link == orig[i as int].link);
                    assert(false);
                }
            }
            n = n + 1;
        }
        i = i + 1;
    }
    proof {
        assert(store@ =~= goal);
        assert forall|j: int, k: int| 0 <= j < k < store@.len() implies store@[j].link
            != store@[k].link by {
            assert(store@[j].link == orig[j].link);
            assert(store@[k].link == orig[k].link);
        }
        if n == 1 {
            let j = choose|j: int| 0 <= j < orig.len() && orig[j].link == link@;
            assert(has_link(orig, link@));
        }
    }
    n
}

/// First unread page with the lexicographically greatest publish time.
fn find_max_unread(pages: &Vec<Page>) -> (r: Option<usize>)
    ensures
        match r {
            Some(b) => 0 <= b < pages@.len() && pages@[b as int]@.readed == false && (forall|
                j: int,
            |
                0 <= j < pages@.len() && pages@[j]@.readed == false ==> lex_leq(
                    pages@[j]@.publish_datetime,
                    pages@[b as int]@.publish_datetime,
                )),
            None => forall|j: int| 0 <= j < pages@.len() ==> pages@[j]@.readed == true,
        },
{
    let mut best: Option<usize> = None;
    let mut i: usize = 0;
    while i < pages.len()
        invariant
            0 <= i <= pages@.len(),
            match best {
                Some(b) => 0 <= b < i && pages@[b as int]@.readed == false && forall|j: int|
                    0 <= j < i && pages@[j]@.readed == false ==> lex_leq(
                        pages@[j]@.publish_datetime,
                        pages@[b as int]@.publish_datetime,
                    ),
                None => forall|j: int| 0 <= j < i ==> pages@[j]@.readed == true,
            },
        decreases pages@.len() - i,
    {
        if !pages[i].readed {
            match best {
                None => {
                    proof {
                        crate::bytes::lemma_lex_refl(pages@[i as int]@.publish_datetime);
                    }
                    best = Some(i);
                },
                Some(b) => {
                    if lex_le(&pages[b].publish_datetime, &pages[i].publish_datetime) {
                        proof {
                            crate::bytes::lemma_lex_refl(pages@[i as int]@.publish_datetime);
                            assert forall|j: int|
                                0 <= j < i && pages@[j]@.readed == false implies lex_leq(
                                pages@[j]@.publish_datetime,
                                pages@[i as int]@.publish_datetime,
                            ) by {
                                crate::bytes::lemma_lex_trans(
                                    pages@[j]@.publish_datetime,
                                    pages@[b as int]@.publish_datetime,
                                    pages@[i as int]@.publish_datetime,
                                );
                            }
                        }
                        best = Some(i);
                    } else {
                        proof {
                            crate::bytes::lemma_lex_total(
                                pages@[b as int]@.publish_datetime,
                                pages@[i as int]@.publish_datetime,
                            );
                        }
                    }
                },
            }
        }
        i = i + 1;
    }
    best
}

/// Mark the `limit` most recently published unread pages as read,
/// ordered by publish time descending; with fewer unread than `limit`,
/// mark them all.
pub fn mark_pages_read(store: &mut Store, limit: usize) -> (n: usize)
    requires
        old(store).wf(),
    ensures
        final(store).wf(),
        final(store)@.len() == old(store)@.len(),
        forall|i: int|
            0 <= i < old(store)@.len() ==> final(store)@[i] == old(store)@[i] || (old(
                store,
            )@[i].readed == false && final(store)@[i] == read_page(old(store)@[i])),
        n as int == if limit as int <= unread_count(old(store)@) {
            limit as int
        } else {
            unread_count(old(store)@)
        },
        unread_count(final(store)@) == unread_count(old(store)@) - n,
        forall|i: int, j: int|
            0 <= i < old(store)@.len() && 0 <= j < old(store)@.len() && old(store)@[i].readed
                == false && final(store)@[i].readed == true && final(store)@[j].readed == false
                ==> lex_leq(
                old(store)@[j].publish_datetime,
                old(store)@[i].publish_datetime,
            ),
{
    let ghost orig = store@;
    let mut n: usize = 0;
    while n < limit
        invariant
            old(store).wf(),
            orig == old(store)@,
            store@.len() == store.pages@.len(),
            store@.len() == orig.len(),
            0 <= n <= limit,
            forall|i: int|
                0 <= i < orig.len() ==> store@[i] == orig[i] || (orig[i].readed == false
                    && store@[i] == read_page(orig[i])),
            unread_count(store@) == unread_count(orig) - n,
            forall|i: int, j: int|
                0 <= i < orig.len() && 0 <= j < orig.len() && orig[i].readed == false
                    && store@[i].readed == true && store@[j].readed == false ==> lex_leq(
                    orig[j].publish_datetime,
                    orig[i].publish_datetime,
                ),
        decreases limit - n,
    {
        let found = find_max_unread(&store.pages);
        match found {
            None => {
                proof {
                    assert forall|j: int| 0 <= j < store@.len() implies store@[j].readed by {
                        assert(store@[j] == store.pages@[j]@);
                    }
                    lemma_unread_all_read(store@);
                    lemma_unread_nonneg(orig);
                    assert forall|j: int, k: int| 0 <= j < k < store@.len() implies store@[j].link
                        != store@[k].link by {
                        assert(store@[j].link == orig[j].link);
                        assert(store@[k].link == orig[k].link);
                    }
                }
                return n;
            },
            Some(k) => {
                let ghost pre = store@;
                let mut p = store.pages[k].clone();
                p.readed = true;
                store.pages[k] = p;
                proof {
                    assert(pre[k as int].readed == false);
                    assert(pre[k as int] == orig[k as int]);
                    assert(store@ =~= pre.update(k as int, read_page(pre[k as int])));
                    lemma_unread_update(pre, k as int);
                    assert forall|i: int, j: int|
                        0 <= i < orig.len() && 0 <= j < orig.len() && orig[i].readed == false
                            && store@[i].readed == true && store@[j].readed == false implies
                        lex_leq(orig[j].publish_datetime, orig[i].publish_datetime) by {
                        if i == k {
                            assert(pre[j].readed == false);
                            assert(pre[j] == store@[j]);
                        } else {
                            assert(pre[i].readed == true);
                            assert(pre[j].readed == false);
                        }
                    }
                }
                n = n + 1;
            },
        }
    }
    proof {
        lemma_unread_nonneg(store@);
        lemma_unread_nonneg(orig);
        assert forall|j: int, k: int| 0 <= j < k < store@.len() implies store@[j].link
            != store@[k].link by {
            assert(store@[j].link == orig[j].link);
            assert(store@[k].link == orig[k].link);
        }
    }
    n
}

/// Delete every page whose source is not among the active feeds.
pub fn cleanup_pages(store: &mut Store, feeds: &Vec<Vec<u8>>)
    requires
        old(store).wf(),
    ensures
        final(store).wf(),
        final(store)@ == old(store)@.filter(keep_pred(feeds.deep_view())),
{
    let ghost pred = keep_pred(feeds.deep_view());
    let ghost orig = store@;
    let mut kept: Vec<Page> = Vec::new();
    let mut i: usize = 0;
    proof {
        assert(orig.take(0) =~= Seq::<PageView>::empty());
        assert(kept@.map_values(|p: Page| p@) =~= Seq::<PageView>::empty().filter(pred));
    }
    while i < store.pages.len()
        invariant
            old(store).wf(),
            orig == old(store)@,
            store@ == orig,
            pred == keep_pred(feeds.deep_view()),
            0 <= i <= store@.len(),
            store@.len() == store.pages@.len(),
            kept@.map_values(|p: Page| p@) == orig.take(i as int).filter(pred),
        decreases store@.len() - i,
    {
        let ghost prefix = orig.take(i as int);
        proof {
            assert(orig.take(i + 1).drop_last() =~= prefix);
            assert(orig.take(i + 1).last() == orig[i as int]);
            reveal(Seq::filter);
        }
        if source_in_feeds(&store.pages[i].source, feeds) {
            let ghost kv = kept@.map_values(|p: Page| p@);
            kept.push(store.pages[i].clone());
            proof {
                assert(kept@.map_values(|p: Page| p@) =~= kv.push(orig[i as int]));
            }
        }
        i = i + 1;
    }
    proof {
        assert(orig.take(orig.len() as int) =~= orig);
    }
    store.pages = kept;
    proof {
        lemma_filter_keeps_unique(orig, pred);
    }
}

/// Every element kept by `filter` stands in the original sequence.
proof fn lemma_filter_sub(ps: Seq<PageView>, pred: spec_fn(PageView) -> bool)
    ensures
        forall|i: int|
            0 <= i < ps.filter(pred).len() ==> ps.contains(#[trigger] ps.filter(pred)[i]),
    decreases ps.len(),
{
    reveal(Seq::filter);
    if ps.len() > 0 {
        let d = ps.drop_last();
        lemma_filter_sub(d, pred);
        let f = ps.filter(pred);
        let fd = d.filter(pred);
        assert forall|i: int| 0 <= i < f.len() implies ps.contains(f[i]) by {
            if pred(ps.last()) && i == f.len() - 1 {
                assert(ps[ps.len() - 1] == f[i]);
            } else {
                assert(f[i] == fd[i]);
                assert(d.contains(fd[i]));
                let m = choose|m: int| 0 <= m < d.len() && d[m] == fd[i];
                assert(ps[m] == f[i]);
            }
        }
    }
}

/// Uniqueness of links survives filtering.
proof fn lemma_filter_keeps_unique(ps: Seq<PageView>, pred: spec_fn(PageView) -> bool)
    requires
        links_unique(ps),
    ensures
        links_unique(ps.filter(pred)),
    decreases ps.len(),
{
    reveal(Seq::filter);
    if ps.len() > 0 {
        let d = ps.drop_last();
        assert(links_unique(d)) by {
            assert(forall|i: int| 0 <= i < d.len() ==> d[i] == ps[i]);
        }
        lemma_filter_keeps_unique(d, pred);
        let f = ps.filter(pred);
        let fd = d.filter(pred);
        if pred(ps.last()) {
            lemma_filter_sub(d, pred);
            assert forall|i: int, j: int| 0 <= i < j < f.len() implies f[i].link != f[j].link by {
                if j == f.len() - 1 {
                    assert(f[i] == fd[i]);
                    assert(d.contains(fd[i]));
                    let m = choose|m: int| 0 <= m < d.len() && d[m] == fd[i];
                    assert(ps[m] == f[i]);
                    assert(ps[m].link != ps[ps.len() - 1].link);
                } else {
                    assert(f[i] == fd[i]);
                    assert(f[j] == fd[j]);
                }
            }
        }
    }
}

/// Whether this source is one of the active feeds.
fn source_in_feeds(source: &Vec<u8>, feeds: &Vec<Vec<u8>>) -> (r: bool)
    ensures
        r == feeds.deep_view().contains(source@),
{
    let mut k: usize = 0;
    while k < feeds.len()
        invariant
            0 <= k <= feeds@.len(),
            feeds.deep_view().len() == feeds@.len(),
            forall|m: int| 0 <= m < feeds@.len() ==> feeds.deep_view()[m] == feeds@[m]@,
            forall|m: int| 0 <= m < k ==> feeds@[m]@ != source@,
        decreases feeds@.len() - k,
    {
        if bytes_eq(&feeds[k], source) {
            proof {
                assert(feeds.deep_view()[k as int] == source@);
            }
            return true;
        }
        k = k + 1;
    }
    proof {
        if feeds.deep_view().contains(source@) {
            let m = choose|m: int|
                0 <= m < feeds.deep_view().len() && feeds.deep_view()[m] == source@;
            assert(feeds@[m]@ == source@);
        }
    }
    false
}

/// Resolve the source of the page stored under `link`, then delete
/// every page of that source and drop the source from the feed list.
pub fn remove_pages_from_link(store: &mut Store, feeds: &mut Vec<Vec<u8>>, link: &Vec<u8>) -> (n:
    usize)
    requires
        old(store).wf(),
    ensures
        final(store).wf(),
        !has_link(old(store)@, link@) ==> final(store)@ == old(store)@ && final(feeds)@ == old(
            feeds,
        )@ && n == 0,
        has_link(old(store)@, link@) ==> {
            let src = old(store)@[link_idx(old(store)@, link@)].source;
            &&& final(store)@ == old(store)@.filter(other_source_pred(src))
            &&& final(feeds).deep_view() == old(feeds).deep_view().filter(other_feed_pred(src))
            &&& n as int == old(store)@.len() - final(store)@.len()
        },
{
    let ghost orig = store@;
    let found = query_page_link(store, link);
    match found {
        None => 0,
        Some(page) => {
            proof {
                let i = choose|i: int| 0 <= i < orig.len() && orig[i].link == link@;
                let j = link_idx(orig, link@);
                lemma_link_unique(orig, i, j);
                let k = choose|k: int| 0 <= k < orig.len() && orig[k] == page@;
                lemma_link_unique(orig, k, j);
                assert(page@.source == orig[link_idx(orig, link@)].source);
            }
            let before = store.pages.len();
            remove_source_pages(store, &page.source);
            remove_feed(feeds, &page.source);
            proof {
                orig.lemma_filter_len(other_source_pred(page@.source));
            }
            let after = store.pages.len();
            before - after
        },
    }
}

/// Delete every page with the given source.
fn remove_source_pages(store: &mut Store, src: &Vec<u8>)
    requires
        old(store).wf(),
    ensures
        final(store).wf(),
        final(store)@ == old(store)@.filter(other_source_pred(src@)),
{
    let ghost pred = other_source_pred(src@);
    let ghost orig = store@;
    let mut kept: Vec<Page> = Vec::new();
    let mut i: usize = 0;
    proof {
        assert(orig.take(0) =~= Seq::<PageView>::empty());
        assert(kept@.map_values(|p: Page| p@) =~= Seq::<PageView>::empty().filter(pred));
    }
    while i < store.pages.len()
        invariant
            old(store).wf(),
            orig == old(store)@,
            store@ == orig,
            pred == other_source_pred(src@),
            0 <= i <= store@.len(),
            store@.len() == store.pages@.len(),
            kept@.map_values(|p: Page| p@) == orig.take(i as int).filter(pred),
        decreases store@.len() - i,
    {
        let ghost prefix = orig.take(i as int);
        proof {
            assert(orig.take(i + 1).drop_last() =~= prefix);
            assert(orig.take(i + 1).last() == orig[i as int]);
            reveal(Seq::filter);
        }
        if !bytes_eq(&store.pages[i].source, src) {
            let ghost kv = kept@.map_values(|p: Page| p@);
            kept.push(store.pages[i].clone());
            proof {
                assert(kept@.map_values(|p: Page| p@) =~= kv.push(orig[i as int]));
            }
        }
        i = i + 1;
    }
    proof {
        assert(orig.take(orig.len() as int) =~= orig);
    }
    store.pages = kept;
    proof {
        lemma_filter_keeps_unique(orig, pred);
    }
}

/// Drop every feed equal to the removed source from the feed list.
fn remove_feed(feeds: &mut Vec<Vec<u8>>, src: &Vec<u8>)
    ensures
        final(feeds).deep_view() == old(feeds).deep_view().filter(other_feed_pred(src@)),
{
    let ghost pred = other_feed_pred(src@);
    let ghost orig = feeds.deep_view();
    let mut kept: Vec<Vec<u8>> = Vec::new();
    let mut i: usize = 0;
    proof {
        assert(orig.take(0) =~= Seq::<Seq<u8>>::empty());
        assert(kept.deep_view() =~= Seq::<Seq<u8>>::empty().filter(pred));
    }
    while i < feeds.len()
        invariant
            orig == old(feeds).deep_view(),
            feeds.deep_view() == orig,
            feeds@.len() == orig.len(),
            forall|m: int| 0 <= m < orig.len() ==> orig[m] == feeds@[m]@,
            pred == other_feed_pred(src@),
            0 <= i <= orig.len(),
            kept.deep_view() == orig.take(i as int).filter(pred),
        decreases orig.len() - i,
    {
        let ghost prefix = orig.take(i as int);
        proof {
            assert(orig.take(i + 1).drop_last() =~= prefix);
            assert(orig.take(i + 1).last() == orig[i as int]);
            reveal(Seq::filter);
        }
        if !bytes_eq(&feeds[i], src) {
            let ghost kv = kept.deep_view();
            kept.push(clone_bytes(&feeds[i]));
            proof {
                assert(kept.deep_view() =~= kv.push(orig[i as int]));
            }
        }
        i = i + 1;
    }
    proof {
        assert(orig.take(orig.len() as int) =~= orig);
    }
    *feeds = kept;
}

/// ASCII whitespace, as trimmed from feed-list lines.
pub open spec fn is_ws(b: u8) -> bool {
    b == 9 || b == 10 || b == 11 || b == 12 || b == 13 || b == 32
}

fn ws(b: u8) -> (r: bool)
    ensures
        r == is_ws(b),
{
    b == 9 || b == 10 || b == 11 || b == 12 || b == 13 || b == 32
}

pub open spec fn trim_front(s: Seq<u8>) -> Seq<u8>
    decreases s.len(),
{
    if s.len() > 0 && is_ws(s[0]) {
        trim_front(s.skip(1))
    } else {
        s
    }
}

pub open spec fn trim_back(s: Seq<u8>) -> Seq<u8>
    decreases s.len(),
{
    if s.len() > 0 && is_ws(s.last()) {
        trim_back(s.drop_last())
    } else {
        s
    }
}

/// The line with leading and trailing ASCII whitespace removed.
pub open spec fn trim_spec(s: Seq<u8>) -> Seq<u8> {
    trim_back(trim_front(s))
}

/// Index of the first newline in `s`, or `s.len()` if there is none.
pub open spec fn nl_idx(s: Seq<u8>) -> nat
    decreases s.len(),
{
    if s.len() == 0 {
        0
    } else if s[0] == 10 {
        0
    } else {
        1 + nl_idx(s.skip(1))
    }
}

proof fn lemma_nl_idx_is(s: Seq<u8>, m: nat)
    requires
        m <= s.len(),
        forall|j: int| 0 <= j < m ==> s[j] != 10,
        m < s.len() ==> s[m as int] == 10,
    ensures
        nl_idx(s) == m,
    decreases m,
{
    if m == 0 {
    } else {
        assert(s[0] != 10);
        lemma_nl_idx_is(s.skip(1), (m - 1) as nat);
    }
}

/// The newline-separated lines of `s`.
pub open spec fn lines_of(s: Seq<u8>) -> Seq<Seq<u8>>
    decreases s.len(),
{
    let i = nl_idx(s);
    if i >= s.len() {
        seq![s]
    } else {
        seq![s.take(i as int)] + lines_of(s.skip(i + 1 as int))
    }
}

pub open spec fn nonblank_pred() -> spec_fn(Seq<u8>) -> bool {
    |l: Seq<u8>| l.len() > 0
}

/// The active feed sources held in a feed-list text: one URL per line,
/// trimmed, blank lines ignored.
pub open spec fn feed_lines(s: Seq<u8>) -> Seq<Seq<u8>> {
    lines_of(s).map_values(|l: Seq<u8>| trim_spec(l)).filter(nonblank_pred())
}

/// Trim ASCII whitespace from both ends.
pub fn trim_bytes(s: &Vec<u8>) -> (r: Vec<u8>)
    ensures
        r@ == trim_spec(s@),
{
    let mut a: usize = 0;
    proof {
        assert(s@.skip(0) =~= s@);
    }
    while a < s.len() && ws(s[a])
        invariant
            0 <= a <= s@.len(),
            trim_front(s@) == trim_front(s@.skip(a as int)),
        decreases s@.len() - a,
    {
        proof {
            assert(s@.skip(a as int)[0] == s@[a as int]);
            assert(s@.skip(a as int).skip(1) =~= s@.skip(a + 1));
        }
        a = a + 1;
    }
    let ghost f = s@.skip(a as int);
    proof {
        if a < s@.len() {
            assert(f[0] == s@[a as int]);
        }
        assert(trim_front(f) == f);
    }
    let mut b: usize = s.len();
    proof {
        assert(f.take(s@.len() - a) =~= f);
    }
    while b > a && ws(s[b - 1])
        invariant
            a <= b <= s@.len(),
            f == s@.skip(a as int),
            trim_back(f) == trim_back(f.take(b - a)),
        decreases b,
    {
        proof {
            let g = f.take(b - a);
            assert(g.last() == s@[b - 1]);
            assert(g.drop_last() =~= f.take(b - 1 - a));
        }
        b = b - 1;
    }
    proof {
        let g = f.take(b - a);
        if b > a {
            assert(g.last() == s@[b - 1]);
        }
        assert(trim_back(g) == g);
        assert(s@.subrange(a as int, b as int) =~= g);
    }
    subvec(s, a, b)
}

/// Parse the feed-list text into the active source URLs.
pub fn all_feeds(text: &Vec<u8>) -> (r: Vec<Vec<u8>>)
    ensures
        r.deep_view() == feed_lines(text@),
{
    let mut r: Vec<Vec<u8>> = Vec::new();
    let mut pos: usize = 0;
    proof {
        assert(text@.skip(0) =~= text@);
        assert(r.deep_view() =~= Seq::<Seq<u8>>::empty());
        assert(Seq::<Seq<u8>>::empty() + feed_lines(text@) =~= feed_lines(text@));
    }
    loop
        invariant
            0 <= pos <= text@.len(),
            feed_lines(text@) == r.deep_view() + feed_lines(text@.skip(pos as int)),
        decreases text@.len() - pos,
    {
        let mut j: usize = pos;
        while j < text.len() && text[j] != 10
            invariant
                pos <= j <= text@.len(),
                forall|k: int| pos <= k < j ==> text@[k] != 10,
            decreases text@.len() - j,
        {
            j = j + 1;
        }
        let ghost tail = text@.skip(pos as int);
        proof {
            assert forall|k: int| 0 <= k < j - pos implies tail[k] != 10 by {
                assert(tail[k] == text@[pos + k]);
            }
            if j < text@.len() {
                assert(tail[j - pos] == text@[j as int]);
            }
            lemma_nl_idx_is(tail, (j - pos) as nat);
        }
        let line = subvec(text, pos, j);
        let t = trim_bytes(&line);
        let ghost rv = r.deep_view();
        let ghost single = seq![trim_spec(line@)].filter(nonblank_pred());
        proof {
            reveal_with_fuel(Seq::filter, 2);
            let one = seq![trim_spec(line@)];
            assert(one.drop_last() =~= Seq::<Seq<u8>>::empty());
            assert(one.last() == trim_spec(line@));
            assert(Seq::<Seq<u8>>::empty().filter(nonblank_pred()) =~= Seq::<Seq<u8>>::empty());
            assert(one.filter(nonblank_pred()) == if nonblank_pred()(trim_spec(line@)) {
                one.drop_last().filter(nonblank_pred()).push(trim_spec(line@))
            } else {
                one.drop_last().filter(nonblank_pred())
            });
            if trim_spec(line@).len() > 0 {
                assert(single =~= seq![trim_spec(line@)]);
            } else {
                assert(single =~= Seq::<Seq<u8>>::empty());
            }
        }
        if t.len() > 0 {
            r.push(t);
            proof {
                assert(r.deep_view() =~~= rv + single);
            }
        } else {
            proof {
                assert(r.deep_view() =~~= rv + single);
            }
        }
        if j == text.len() {
            proof {
                assert(tail =~= line@);
                assert(lines_of(tail) == seq![tail]);
                assert(lines_of(tail).map_values(|l: Seq<u8>| trim_spec(l)) =~= seq![
                    trim_spec(line@),
                ]);
                assert(feed_lines(tail) == single);
                assert(rv + feed_lines(tail) =~= r.deep_view());
            }
            return r;
        }
        proof {
            let rest = text@.skip(j + 1);
            assert(tail.take(j - pos) =~= line@);
            assert(tail.skip(j - pos + 1) =~= rest);
            assert(lines_of(tail) == seq![line@] + lines_of(rest));
            assert(lines_of(tail).map_values(|l: Seq<u8>| trim_spec(l)) =~= seq![
                trim_spec(line@),
            ] + lines_of(rest).map_values(|l: Seq<u8>| trim_spec(l)));
            Seq::filter_distributes_over_add(
                seq![trim_spec(line@)],
                lines_of(rest).map_values(|l: Seq<u8>| trim_spec(l)),
                nonblank_pred(),
            );
            assert(feed_lines(tail) == single + feed_lines(rest));
            assert(rv + (single + feed_lines(rest)) =~= (rv + single) + feed_lines(rest));
        }
        pos = j + 1;
    }
}

} // verus!
