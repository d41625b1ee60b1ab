//! Feed ingestion: parse a fetched feed document, decide per entry
//! whether the inline content suffices or the fetched page wins,
//! rewrite image references to localized copies, and persist new
//! articles deduplicated by link.
//!
//! Network and disk stay outside: callers hand in the fetched feed
//! bytes, the fetched pages keyed by link, and the localization
//! outcomes keyed by image URI.

use vstd::prelude::*;
use vstd::string::StringSliceAdditionalSpecFns;
use crate::bytes::{clone_bytes, contains_sub, has_sub, last_idx_of, replace_scan, replace_all,
    rfind_byte, starts_with, str_bytes, subvec};
use crate::store::{has_link, stored_page, dump_new_page, query_page_link, PageView, Page, Store};
use crate::html::{clean_page_spec, clean_page, img_srcs_of, remove_elements, remove_elements_spec,
    select_img_srcs};
use crate::assets::{asset_name, asset_rel, gen_image_name, gen_image_rel, scheme_of, url_scheme};

verus! {

/// Mathematical model of one feed entry.
pub ghost struct EntryView {
    pub title: Option<Seq<u8>>,
    pub links: Seq<Seq<u8>>,
    pub published: Option<Seq<u8>>,
    pub updated: Option<Seq<u8>>,
    pub content: Option<Seq<u8>>,
    pub summary: Option<Seq<u8>>,
}

/// One entry of a parsed feed, reduced to the fields ingestion reads.
pub struct FeedEntry {
    pub title: Option<Vec<u8>>,
    pub links: Vec<Vec<u8>>,
    pub published: Option<Vec<u8>>,
    pub updated: Option<Vec<u8>>,
    pub content: Option<Vec<u8>>,
    pub summary: Option<Vec<u8>>,
}

pub open spec fn opt_bytes(o: Option<Vec<u8>>) -> Option<Seq<u8>> {
    match o {
        Some(v) => Some(v@),
        None => None,
    }
}

impl View for FeedEntry {
    type V = EntryView;

    open spec fn view(&self) -> EntryView {
        EntryView {
            title: opt_bytes(self.title),
            links: self.links.deep_view(),
            published: opt_bytes(self.published),
            updated: opt_bytes(self.updated),
            content: opt_bytes(self.content),
            summary: opt_bytes(self.summary),
        }
    }
}

/// Mathematical model of a parsed feed document.
pub ghost struct DocView {
    pub links: Seq<Seq<u8>>,
    pub entries: Seq<EntryView>,
}

/// A parsed feed document, reduced to the fields ingestion reads.
pub struct FeedDoc {
    pub links: Vec<Vec<u8>>,
    pub entries: Vec<FeedEntry>,
}

impl View for FeedDoc {
    type V = DocView;

    open spec fn view(&self) -> DocView {
        DocView {
            links: self.links.deep_view(),
            entries: self.entries@.map_values(|e: FeedEntry| e@),
        }
    }
}

/// The projection of a feed document that ingestion reads, or `None`
/// when the bytes do not parse as a feed.
pub uninterp spec fn feed_doc_of(body: Seq<u8>) -> Option<DocView>;

#[verifier::external_type_specification]
#[verifier::external_body]
pub struct ExFeedRsEntry(feed_rs::model::Entry);

/// Relies on feed-rs's `model::Entry` and chrono's
/// `DateTime::to_rfc3339`: keeps the entry's title, link URLs,
/// publication and update timestamps, inline content body and summary,
/// each a function of the entry alone.
#[verifier::external_body]
fn conv_entry(e: feed_rs::model::Entry) -> (r: FeedEntry) {
    FeedEntry {
        title: e.title.map(|t| t.content.into_bytes()),
        links: e.links.into_iter().map(|l| l.href.into_bytes()).collect(),
        published: e.published.map(|d| d.to_rfc3339().into_bytes()),
        updated: e.updated.map(|d| d.to_rfc3339().into_bytes()),
        content: e.content.and_then(|c| c.body).map(|b| b.into_bytes()),
        summary: e.summary.map(|s| s.content.into_bytes()),
    }
}

/// Relies on feed-rs's `parser::parse`: the feed's link URLs and its
/// entries reduced through `conv_entry`.  Each kept field is a
/// function of the input bytes alone.
#[verifier::external_body]
pub fn parse_feed(body: &Vec<u8>) -> (r: Option<FeedDoc>)
    ensures
        match r {
            Some(d) => feed_doc_of(body@) == Some(d@),
            None => feed_doc_of(body@) is None,
        },
{
    match feed_rs::parser::parse(body.as_slice()) {
        Ok(f) => Some(FeedDoc {
            links: f.links.iter().map(|l| l.href.as_bytes().to_vec()).collect(),
            entries: f.entries.into_iter().map(conv_entry).collect(),
        }),
        Err(_) => None,
    }
}

/// A page fetched for one entry link; `body: None` records a failed
/// fetch.
pub struct FetchedPage {
    pub link: Vec<u8>,
    pub body: Option<Vec<u8>>,
}

pub ghost struct FetchedPageView {
    pub link: Seq<u8>,
    pub body: Option<Seq<u8>>,
}

impl View for FetchedPage {
    type V = FetchedPageView;

    open spec fn view(&self) -> FetchedPageView {
        FetchedPageView { link: self.link@, body: opt_bytes(self.body) }
    }
}

/// The outcome of localizing one image URI: `ok` records that the
/// local copy exists.
pub struct ImageFetch {
    pub uri: Vec<u8>,
    pub ok: bool,
}

pub ghost struct ImageFetchView {
    pub uri: Seq<u8>,
    pub ok: bool,
}

impl View for ImageFetch {
    type V = ImageFetchView;

    open spec fn view(&self) -> ImageFetchView {
        ImageFetchView { uri: self.uri@, ok: self.ok }
    }
}

pub open spec fn fpv(ps: Seq<FetchedPage>) -> Seq<FetchedPageView> {
    ps.map_values(|p: FetchedPage| p@)
}

pub open spec fn ifv(fs: Seq<ImageFetch>) -> Seq<ImageFetchView> {
    fs.map_values(|f: ImageFetch| f@)
}

/// The body fetched for a link: `None` when no fetch is recorded,
/// `Some(None)` when the fetch failed, `Some(Some(bytes))` otherwise.
pub open spec fn page_for(ps: Seq<FetchedPageView>, link: Seq<u8>) -> Option<Option<Seq<u8>>>
    decreases ps.len(),
{
    if ps.len() == 0 {
        None
    } else if ps[0].link == link {
        Some(ps[0].body)
    } else {
        page_for(ps.skip(1), link)
    }
}

fn lookup_page(pages: &Vec<FetchedPage>, link: &Vec<u8>) -> (r: Option<Option<Vec<u8>>>)
    ensures
        match r {
            None => page_for(fpv(pages@), link@) is None,
            Some(o) => page_for(fpv(pages@), link@) == Some(opt_bytes(o)),
        },
{
    let ghost fv = fpv(pages@);
    let mut i: usize = 0;
    proof {
        assert(fv.skip(0) =~= fv);
    }
    while i < pages.len()
        invariant
            0 <= i <= pages@.len(),
            fv == fpv(pages@),
            fv.len() == pages@.len(),
            forall|m: int| 0 <= m < pages@.len() ==> fv[m] == pages@[m]@,
            page_for(fv, link@) == page_for(fv.skip(i as int), link@),
        decreases pages@.len() - i,
    {
        proof {
            assert(fv.skip(i as int)[0] == fv[i as int]);
            assert(fv.skip(i as int).skip(1) =~= fv.skip(i + 1));
        }
        if crate::bytes::bytes_eq(&pages[i].link, link) {
            let body = match &pages[i].body {
                Some(b) => Some(clone_bytes(b)),
                None => None,
            };
            return Some(body);
        }
        i = i + 1;
    }
    proof {
        assert(fv.skip(fv.len() as int) =~= Seq::<FetchedPageView>::empty());
    }
    None
}

/// Whether the localized copy for this URI exists; `false` when no
/// outcome is recorded.
pub open spec fn image_ok_spec(imgs: Seq<ImageFetchView>, uri: Seq<u8>) -> bool
    decreases imgs.len(),
{
    if imgs.len() == 0 {
        false
    } else if imgs[0].uri == uri {
        imgs[0].ok
    } else {
        image_ok_spec(imgs.skip(1), uri)
    }
}

fn image_ok(imgs: &Vec<ImageFetch>, uri: &Vec<u8>) -> (r: bool)
    ensures
        r == image_ok_spec(ifv(imgs@), uri@),
{
    let ghost iv = ifv(imgs@);
    let mut i: usize = 0;
    proof {
        assert(iv.skip(0) =~= iv);
    }
    while i < imgs.len()
        invariant
            0 <= i <= imgs@.len(),
            iv == ifv(imgs@),
            iv.len() == imgs@.len(),
            forall|m: int| 0 <= m < imgs@.len() ==> iv[m] == imgs@[m]@,
            image_ok_spec(iv, uri@) == image_ok_spec(iv.skip(i as int), uri@),
        decreases imgs@.len() - i,
    {
        proof {
            assert(iv.skip(i as int)[0] == iv[i as int]);
            assert(iv.skip(i as int).skip(1) =~= iv.skip(i + 1));
        }
        if crate::bytes::bytes_eq(&imgs[i].uri, uri) {
            return imgs[i].ok;
        }
        i = i + 1;
    }
    proof {
        assert(iv.skip(iv.len() as int) =~= Seq::<ImageFetchView>::empty());
    }
    false
}

/// A URL the url crate accepts.
pub open spec fn url_ok(u: Seq<u8>) -> bool {
    scheme_of(u) is Some
}

/// The first link that parses as a URL, or empty.
pub open spec fn first_link_spec(links: Seq<Seq<u8>>) -> Seq<u8>
    decreases links.len(),
{
    if links.len() == 0 {
        Seq::<u8>::empty()
    } else if url_ok(links[0]) {
        links[0]
    } else {
        first_link_spec(links.skip(1))
    }
}

/// The first of the given link URLs that parses as a URL; the empty
/// string when none does.
pub fn first_link(links: &Vec<Vec<u8>>) -> (r: Vec<u8>)
    ensures
        r@ == first_link_spec(links.deep_view()),
{
    let ghost lv = links.deep_view();
    let mut i: usize = 0;
    proof {
        assert(lv.skip(0) =~= lv);
    }
    while i < links.len()
        invariant
            0 <= i <= links@.len(),
            lv == links.deep_view(),
            lv.len() == links@.len(),
            forall|m: int| 0 <= m < links@.len() ==> lv[m] == links@[m]@,
            first_link_spec(lv) == first_link_spec(lv.skip(i as int)),
        decreases links@.len() - i,
    {
        proof {
            assert(lv.skip(i as int)[0] == lv[i as int]);
            assert(lv.skip(i as int).skip(1) =~= lv.skip(i + 1));
        }
        if url_scheme(&links[i]).is_some() {
            return clone_bytes(&links[i]);
        }
        i = i + 1;
    }
    proof {
        assert(lv.skip(lv.len() as int) =~= Seq::<Seq<u8>>::empty());
    }
    Vec::new()
}

/// The title with every path separator replaced, safe as a file stem.
pub open spec fn sanitize_spec(t: Seq<u8>) -> Seq<u8> {
    t.map_values(
        |b: u8|
            if b == 47 {
                124u8
            } else {
                b
            },
    )
}

/// Replace every `/` in the title by `|`.
pub fn sanitize_title(t: &Vec<u8>) -> (r: Vec<u8>)
    ensures
        r@ == sanitize_spec(t@),
{
    let mut r: Vec<u8> = Vec::new();
    let mut i: usize = 0;
    while i < t.len()
        invariant
            0 <= i <= t@.len(),
            r@.len() == i,
            forall|m: int| 0 <= m < i ==> r@[m] == sanitize_spec(t@)[m],
        decreases t@.len() - i,
    {
        if t[i] == 47 {
            r.push(124);
        } else {
            r.push(t[i]);
        }
        i = i + 1;
    }
    proof {
        assert(r@ =~= sanitize_spec(t@));
    }
    r
}

/// An entry's publication time: published, else updated, else now.
pub open spec fn pub_time_spec(e: EntryView, now: Seq<u8>) -> Seq<u8> {
    match e.published {
        Some(p) => p,
        None => match e.updated {
            Some(u) => u,
            None => now,
        },
    }
}

fn pub_time(e: &FeedEntry, now: &Vec<u8>) -> (r: Vec<u8>)
    ensures
        r@ == pub_time_spec(e@, now@),
{
    match &e.published {
        Some(p) => clone_bytes(p),
        None => match &e.updated {
            Some(u) => clone_bytes(u),
            None => clone_bytes(now),
        },
    }
}

/// The content-sufficiency heuristic: the fetched page wins when it is
/// more than double the summary's length, or textually contains the
/// summary, or carries an audio, video or code element.
pub open spec fn prefers_page(page: Seq<u8>, summary: Seq<u8>) -> bool {
    ||| page.len() > summary.len() * 2
    ||| has_sub(page, summary)
    ||| has_sub(page, "<audio".spec_bytes())
    ||| has_sub(page, "<video".spec_bytes())
    ||| has_sub(page, "<code>".spec_bytes())
}

/// Decide between the fetched page and the feed's own summary.
pub fn prefer_fetched(page: &Vec<u8>, summary: &Vec<u8>) -> (r: bool)
    ensures
        r == prefers_page(page@, summary@),
{
    if (page.len() as u128) > 2 * (summary.len() as u128) {
        return true;
    }
    if contains_sub(page, summary) {
        return true;
    }
    if contains_sub(page, &str_bytes("<audio")) {
        return true;
    }
    if contains_sub(page, &str_bytes("<video")) {
        return true;
    }
    contains_sub(page, &str_bytes("<code>"))
}

/// The noise elements stripped from fetched pages.
pub open spec fn noise_selectors() -> Seq<Seq<u8>> {
    seq![
        "footer".spec_bytes(),
        "header".spec_bytes(),
        "script".spec_bytes(),
        "style".spec_bytes(),
        "comments".spec_bytes(),
    ]
}

/// A fetched page after the fallback-chain extraction and noise
/// removal.
pub open spec fn cleaned_page(raw: Seq<u8>) -> Seq<u8> {
    remove_elements_spec(clean_page_spec(raw), noise_selectors())
}

/// Run the extraction chain and strip noise elements from a fetched
/// page.
pub fn fetch_page_content(raw: &Vec<u8>) -> (r: Vec<u8>)
    ensures
        r@ == cleaned_page(raw@),
{
    let page = clean_page(raw);
    let mut ks: Vec<Vec<u8>> = Vec::new();
    ks.push(str_bytes("footer"));
    ks.push(str_bytes("header"));
    ks.push(str_bytes("script"));
    ks.push(str_bytes("style"));
    ks.push(str_bytes("comments"));
    proof {
        assert(ks.deep_view() =~~= noise_selectors());
    }
    remove_elements(&page, &ks)
}

/// Whether the URI already carries an http or https scheme.
pub open spec fn scheme_http(u: Seq<u8>) -> bool {
    match scheme_of(u) {
        Some(s) => "http".spec_bytes().is_prefix_of(s),
        None => false,
    }
}

/// The full URI an image reference resolves to: kept as-is with an
/// http scheme, prefixed with the site for path-absolute references,
/// resolved against the entry link's directory otherwise; `None` when
/// the entry link has no directory to resolve against.
pub open spec fn resolve_img_spec(src: Seq<u8>, website: Seq<u8>, cur_link: Seq<u8>) -> Option<
    Seq<u8>,
> {
    if scheme_http(src) {
        Some(src)
    } else if src.len() > 0 && src[0] == 47 {
        Some(website + src)
    } else if last_idx_of(cur_link, 47) >= 0 {
        Some(cur_link.take(last_idx_of(cur_link, 47)) + seq![47u8] + src)
    } else {
        None
    }
}

fn resolve_img(src: &Vec<u8>, website: &Vec<u8>, cur_link: &Vec<u8>) -> (r: Option<Vec<u8>>)
    ensures
        match r {
            Some(u) => resolve_img_spec(src@, website@, cur_link@) == Some(u@),
            None => resolve_img_spec(src@, website@, cur_link@) is None,
        },
{
    let http = match url_scheme(src) {
        Some(s) => starts_with(&s, &str_bytes("http")),
        None => false,
    };
    if http {
        Some(clone_bytes(src))
    } else if src.len() > 0 && src[0] == 47 {
        let mut r = clone_bytes(website);
        r.extend_from_slice(src.as_slice());
        proof {
            assert(r@ =~= website@ + src@);
        }
        Some(r)
    } else {
        match rfind_byte(cur_link, 47) {
            Some(d) => {
                proof {
                    crate::bytes::lemma_last_idx_of(cur_link@, 47);
                }
                let mut r = subvec(cur_link, 0, d);
                r.push(47);
                r.extend_from_slice(src.as_slice());
                proof {
                    assert(r@ =~= cur_link@.take(last_idx_of(cur_link@, 47)) + seq![47u8]
                        + src@);
                }
                Some(r)
            },
            None => None,
        }
    }
}

/// The content after rewriting one image reference: the reference is
/// substituted by the localized relative path exactly when the source
/// resolves, names an asset, and its localization succeeded.
pub open spec fn apply_one_img(
    content: Seq<u8>,
    srco: Option<Seq<u8>>,
    website: Seq<u8>,
    cur_link: Seq<u8>,
    imgs: Seq<ImageFetchView>,
) -> Seq<u8> {
    match srco {
        None => content,
        Some(src) => match resolve_img_spec(src, website, cur_link) {
            None => content,
            Some(uri) => if asset_name(uri) is Some && image_ok_spec(imgs, uri) {
                replace_scan(content, src, asset_rel(uri))
            } else {
                content
            },
        },
    }
}

pub open spec fn apply_images_spec(
    content: Seq<u8>,
    srcs: Seq<Option<Seq<u8>>>,
    website: Seq<u8>,
    cur_link: Seq<u8>,
    imgs: Seq<ImageFetchView>,
) -> Seq<u8>
    decreases srcs.len(),
{
    if srcs.len() == 0 {
        content
    } else {
        apply_images_spec(
            apply_one_img(content, srcs[0], website, cur_link, imgs),
            srcs.skip(1),
            website,
            cur_link,
            imgs,
        )
    }
}

/// The content with every image reference rewritten to its localized
/// copy, failures left untouched.
pub open spec fn localized_content(
    content: Seq<u8>,
    website: Seq<u8>,
    cur_link: Seq<u8>,
    imgs: Seq<ImageFetchView>,
) -> Seq<u8> {
    apply_images_spec(content, img_srcs_of(content), website, cur_link, imgs)
}

/// Rewrite every image reference of the content to its localized
/// relative path; an image whose localization failed keeps its
/// original reference.
pub fn preprocess_image(
    content: &Vec<u8>,
    website: &Vec<u8>,
    cur_link: &Vec<u8>,
    imgs: &Vec<ImageFetch>,
) -> (r: Vec<u8>)
    ensures
        r@ == localized_content(content@, website@, cur_link@, ifv(imgs@)),
{
    let srcs = select_img_srcs(content);
    let ghost sv = img_srcs_of(content@);
    let ghost iv = ifv(imgs@);
    let mut result = clone_bytes(content);
    let mut j: usize = 0;
    proof {
        assert(sv.skip(0) =~= sv);
        assert(srcs.deep_view().len() == srcs@.len());
        assert(forall|m: int| 0 <= m < srcs@.len() ==> srcs.deep_view()[m] == opt_bytes(
            srcs@[m],
        ));
    }
    while j < srcs.len()
        invariant
            0 <= j <= srcs@.len(),
            sv == img_srcs_of(content@),
            iv == ifv(imgs@),
            sv.len() == srcs@.len(),
            forall|m: int| 0 <= m < srcs@.len() ==> sv[m] == opt_bytes(srcs@[m]),
            localized_content(content@, website@, cur_link@, iv) == apply_images_spec(
                result@,
                sv.skip(j as int),
                website@,
                cur_link@,
                iv,
            ),
        decreases srcs@.len() - j,
    {
        proof {
            assert(sv.skip(j as int)[0] == sv[j as int]);
            assert(sv.skip(j as int).skip(1) =~= sv.skip(j + 1));
        }
        match &srcs[j] {
            None => {},
            Some(src) => {
                match resolve_img(src, website, cur_link) {
                    None => {},
                    Some(uri) => {
                        match gen_image_name(&uri) {
                            None => {},
                            Some(_path) => {
                                if image_ok(imgs, &uri) {
                                    let rel = gen_image_rel(&uri);
                                    result = replace_all(&result, src, &rel);
                                }
                            },
                        }
                    },
                }
            },
        }
        j = j + 1;
    }
    proof {
        assert(sv.skip(sv.len() as int) =~= Seq::<Option<Seq<u8>>>::empty());
    }
    result
}

/// An entry's body before image rewriting: the inline content
/// verbatim when the feed carries one; else the cleaned fetched page
/// or the feed summary, whichever the heuristic prefers; `None` when
/// the needed page fetch is missing or failed.
pub open spec fn entry_body_spec(
    e: EntryView,
    link: Seq<u8>,
    pages: Seq<FetchedPageView>,
) -> Option<Seq<u8>> {
    match e.content {
        Some(body) => Some(body),
        None => match page_for(pages, link) {
            Some(Some(raw)) => {
                let summary = match e.summary {
                    Some(s) => s,
                    None => Seq::<u8>::empty(),
                };
                let page = cleaned_page(raw);
                Some(
                    if prefers_page(page, summary) {
                        page
                    } else {
                        summary
                    },
                )
            },
            _ => None,
        },
    }
}

/// Resolve an entry's body from its inline content or its fetched
/// page.
pub fn resolve_entry_content(e: &FeedEntry, link: &Vec<u8>, pages: &Vec<FetchedPage>) -> (r:
    Option<Vec<u8>>)
    ensures
        match r {
            Some(b) => entry_body_spec(e@, link@, fpv(pages@)) == Some(b@),
            None => entry_body_spec(e@, link@, fpv(pages@)) is None,
        },
{
    match &e.content {
        Some(b) => Some(clone_bytes(b)),
        None => {
            match lookup_page(pages, link) {
                Some(Some(raw)) => {
                    let page = fetch_page_content(&raw);
                    let summary = match &e.summary {
                        Some(s) => clone_bytes(s),
                        None => Vec::new(),
                    };
                    if prefer_fetched(&page, &summary) {
                        Some(page)
                    } else {
                        Some(summary)
                    }
                },
                _ => None,
            }
        },
    }
}

/// One article body to be written to durable storage.
pub struct BodyWrite {
    pub path: Vec<u8>,
    pub content: Vec<u8>,
}

pub ghost struct BodyWriteView {
    pub path: Seq<u8>,
    pub content: Seq<u8>,
}

impl View for BodyWrite {
    type V = BodyWriteView;

    open spec fn view(&self) -> BodyWriteView {
        BodyWriteView { path: self.path@, content: self.content@ }
    }
}

pub open spec fn bwv(ws: Seq<BodyWrite>) -> Seq<BodyWriteView> {
    ws.map_values(|w: BodyWrite| w@)
}

/// Where an article body is written: under the sanitized title.
pub open spec fn body_path(title: Seq<u8>) -> Seq<u8> {
    "./pages/".spec_bytes() + sanitize_spec(title) + ".html".spec_bytes()
}

fn body_file(title_s: &Vec<u8>) -> (r: Vec<u8>)
    ensures
        r@ == "./pages/".spec_bytes() + title_s@ + ".html".spec_bytes(),
{
    let mut r = str_bytes("./pages/");
    r.extend_from_slice(title_s.as_slice());
    let tail = str_bytes(".html");
    r.extend_from_slice(tail.as_slice());
    proof {
        assert(r@ =~= "./pages/".spec_bytes() + title_s@ + ".html".spec_bytes());
    }
    r
}

/// The article record an entry persists as.
pub open spec fn entry_page_view(
    e: EntryView,
    link: Seq<u8>,
    website: Seq<u8>,
    source: Seq<u8>,
    now: Seq<u8>,
) -> PageView {
    PageView {
        title: match e.title {
            Some(t) => sanitize_spec(t),
            None => Seq::<u8>::empty(),
        },
        publish_datetime: pub_time_spec(e, now),
        link: link,
        source: source,
        website: website,
        readed: false,
    }
}

/// What one ingestion pass leaves behind.
pub ghost struct IngestOut {
    pub store: Seq<PageView>,
    pub count: int,
    pub writes: Seq<BodyWriteView>,
    pub ok: bool,
}

/// The meaning of ingesting a list of entries against a store:
/// untitled entries are skipped; an entry whose link is already
/// stored is skipped unless `force`; an entry whose needed page fetch
/// is missing aborts the pass, keeping what was already done; an
/// entry resolving to a nonempty body is counted, its body queued for
/// writing, and its record inserted (a no-op on a duplicate link).
pub open spec fn ingest_spec(
    s: Seq<PageView>,
    entries: Seq<EntryView>,
    website: Seq<u8>,
    source: Seq<u8>,
    now: Seq<u8>,
    pages: Seq<FetchedPageView>,
    imgs: Seq<ImageFetchView>,
    force: bool,
) -> IngestOut
    decreases entries.len(),
{
    if entries.len() == 0 {
        IngestOut { store: s, count: 0, writes: Seq::<BodyWriteView>::empty(), ok: true }
    } else {
        let e = entries[0];
        let rest = entries.skip(1);
        match e.title {
            None => ingest_spec(s, rest, website, source, now, pages, imgs, force),
            Some(t) => {
                let link = first_link_spec(e.links);
                if has_link(s, link) && !force {
                    ingest_spec(s, rest, website, source, now, pages, imgs, force)
                } else {
                    match entry_body_spec(e, link, pages) {
                        None => IngestOut {
                            store: s,
                            count: 0,
                            writes: Seq::<BodyWriteView>::empty(),
                            ok: false,
                        },
                        Some(body) => {
                            let content = localized_content(body, website, link, imgs);
                            if content.len() > 0 {
                                let pv = entry_page_view(e, link, website, source, now);
                                let s2 = if has_link(s, link) {
                                    s
                                } else {
                                    s.push(pv)
                                };
                                let out = ingest_spec(
                                    s2,
                                    rest,
                                    website,
                                    source,
                                    now,
                                    pages,
                                    imgs,
                                    force,
                                );
                                IngestOut {
                                    store: out.store,
                                    count: out.count + 1,
                                    writes: seq![
                                        BodyWriteView { path: body_path(t), content: content },
                                    ] + out.writes,
                                    ok: out.ok,
                                }
                            } else {
                                ingest_spec(s, rest, website, source, now, pages, imgs, force)
                            }
                        },
                    }
                }
            },
        }
    }
}

/// What `fetch_feed` reports: how many entries were persisted, the
/// bodies to write, and whether the pass ran to completion.
pub struct IngestResult {
    pub count: usize,
    pub writes: Vec<BodyWrite>,
    pub ok: bool,
}

/// Ingest one fetched feed document into the store.  `pages` holds
/// the fetched page for each entry link that needed one, `imgs` the
/// localization outcome for each image URI, and `now` the timestamp
/// for entries carrying none.  A feed that does not parse, or an
/// entry whose page fetch failed, ends the pass with `ok == false`,
/// keeping what was already ingested.
pub fn fetch_feed(
    store: &mut Store,
    body: &Vec<u8>,
    source: &Vec<u8>,
    now: &Vec<u8>,
    pages: &Vec<FetchedPage>,
    imgs: &Vec<ImageFetch>,
    force: bool,
) -> (r: IngestResult)
    requires
        old(store).wf(),
    ensures
        final(store).wf(),
        match feed_doc_of(body@) {
            None => final(store)@ == old(store)@ && r.count == 0 && r.writes@.len() == 0
                && !r.ok,
            Some(d) => ({
                let out = ingest_spec(
                    old(store)@,
                    d.entries,
                    first_link_spec(d.links),
                    source@,
                    now@,
                    fpv(pages@),
                    ifv(imgs@),
                    force,
                );
                final(store)@ == out.store && r.count as int == out.count && bwv(r.writes@)
                    == out.writes && r.ok == out.ok
            }),
        },
{
    let parsed = parse_feed(body);
    let doc = match parsed {
        None => {
            return IngestResult { count: 0, writes: Vec::new(), ok: false };
        },
        Some(d) => d,
    };
    let ghost dv = doc@;
    let website = first_link(&doc.links);
    let ghost wv = website@;
    let ghost pv = fpv(pages@);
    let ghost iv = ifv(imgs@);
    let ghost total = ingest_spec(old(store)@, dv.entries, wv, source@, now@, pv, iv, force);
    let mut count: usize = 0;
    let mut writes: Vec<BodyWrite> = Vec::new();
    let mut i: usize = 0;
    proof {
        assert(dv.entries.skip(0) =~= dv.entries);
        assert(bwv(writes@) =~= Seq::<BodyWriteView>::empty());
        assert(Seq::<BodyWriteView>::empty() + total.writes =~= total.writes);
    }
    while i < doc.entries.len()
        invariant
            store.wf(),
            dv == doc@,
            feed_doc_of(body@) == Some(dv),
            wv == website@,
            wv == first_link_spec(dv.links),
            pv == fpv(pages@),
            iv == ifv(imgs@),
            total == ingest_spec(old(store)@, dv.entries, wv, source@, now@, pv, iv, force),
            0 <= i <= doc.entries@.len(),
            dv.entries.len() == doc.entries@.len(),
            forall|m: int| 0 <= m < doc.entries@.len() ==> dv.entries[m] == doc.entries@[m]@,
            count <= i,
            ({
                let rem = ingest_spec(
                    store@,
                    dv.entries.skip(i as int),
                    wv,
                    source@,
                    now@,
                    pv,
                    iv,
                    force,
                );
                total.store == rem.store && total.count == count + rem.count && total.writes
                    == bwv(writes@) + rem.writes && total.ok == rem.ok
            }),
        decreases doc.entries@.len() - i,
    {
        let ghost ev = dv.entries.skip(i as int);
        proof {
            assert(ev[0] == dv.entries[i as int]);
            assert(ev.skip(1) =~= dv.entries.skip(i + 1));
        }
        let e = &doc.entries[i];
        proof {
            assert(e@ == dv.entries[i as int]);
        }
        match &e.title {
            None => {},
            Some(t) => {
                let link = first_link(&e.links);
                let prev = query_page_link(store, &link);
                let page_exist = prev.is_some();
                if page_exist && !force {
                } else {
                    match resolve_entry_content(e, &link, pages) {
                        None => {
                            proof {
                                let rem = ingest_spec(
                                    store@,
                                    ev,
                                    wv,
                                    source@,
                                    now@,
                                    pv,
                                    iv,
                                    force,
                                );
                                assert(ev[0].title == Some(t@));
                                assert(first_link_spec(ev[0].links) == link@);
                                assert(entry_body_spec(ev[0], link@, pv) is None);
                                assert(rem.store == store@ && rem.count == 0 && !rem.ok);
                                assert(rem.writes =~= Seq::<BodyWriteView>::empty());
                                assert(bwv(writes@) + Seq::<BodyWriteView>::empty() =~= bwv(
                                    writes@,
                                ));
                            }
                            return IngestResult { count, writes, ok: false };
                        },
                        Some(entry_body) => {
                            let content = preprocess_image(&entry_body, &website, &link, imgs);
                            if content.len() > 0 {
                                let title_s = sanitize_title(t);
                                let path = body_file(&title_s);
                                let page = Page {
                                    title: title_s,
                                    publish_datetime: pub_time(e, now),
                                    link: clone_bytes(&link),
                                    source: clone_bytes(source),
                                    website: clone_bytes(&website),
                                    readed: false,
                                };
                                proof {
                                    assert(page@ == entry_page_view(
                                        e@,
                                        link@,
                                        wv,
                                        source@,
                                        now@,
                                    ));
                                    assert(stored_page(page@) == page@);
                                }
                                let ghost wpre = bwv(writes@);
                                dump_new_page(store, &page);
                                writes.push(BodyWrite { path, content });
                                proof {
                                    assert(bwv(writes@) =~= wpre.push(
                                        BodyWriteView {
                                            path: body_path(t@),
                                            content: writes@.last().content@,
                                        },
                                    ));
                                    assert(bwv(writes@) + ingest_spec(
                                        store@,
                                        dv.entries.skip(i + 1),
                                        wv,
                                        source@,
                                        now@,
                                        pv,
                                        iv,
                                        force,
                                    ).writes =~= wpre + (seq![
                                        BodyWriteView {
                                            path: body_path(t@),
                                            content: writes@.last().content@,
                                        },
                                    ] + ingest_spec(
                                        store@,
                                        dv.entries.skip(i + 1),
                                        wv,
                                        source@,
                                        now@,
                                        pv,
                                        iv,
                                        force,
                                    ).writes));
                                }
                                count = count + 1;
                            }
                        },
                    }
                }
            },
        }
        i = i + 1;
    }
    proof {
        assert(dv.entries.skip(dv.entries.len() as int) =~= Seq::<EntryView>::empty());
        assert(bwv(writes@) + Seq::<BodyWriteView>::empty() =~= bwv(writes@));
    }
    IngestResult { count, writes, ok: true }
}

/// Whether ingesting this entry will need its page fetched, and which
/// link: a titled entry without inline content, not already stored
/// (unless `force`).  Judged against the store as it stands, so a
/// link that an earlier entry of the same pass inserts may be fetched
/// although ingestion then skips it.
pub open spec fn entry_fetch_link_spec(s: Seq<PageView>, e: EntryView, force: bool) -> Option<
    Seq<u8>,
> {
    match e.title {
        None => None,
        Some(t) => {
            let link = first_link_spec(e.links);
            if has_link(s, link) && !force {
                None
            } else if e.content is Some {
                None
            } else {
                Some(link)
            }
        },
    }
}

/// The link to fetch for this entry before ingesting it, if any.
pub fn entry_fetch_link(store: &Store, e: &FeedEntry, force: bool) -> (r: Option<Vec<u8>>)
    ensures
        match r {
            Some(l) => entry_fetch_link_spec(store@, e@, force) == Some(l@),
            None => entry_fetch_link_spec(store@, e@, force) is None,
        },
{
    match &e.title {
        None => None,
        Some(_) => {
            let link = first_link(&e.links);
            let exist = query_page_link(store, &link).is_some();
            if exist && !force {
                None
            } else {
                match &e.content {
                    Some(_) => None,
                    None => Some(link),
                }
            }
        },
    }
}

/// The full URIs of the images a content carries that can be
/// localized: each resolves against the site and entry link and names
/// an asset.
pub open spec fn srcs_to_uris(srcs: Seq<Option<Seq<u8>>>, website: Seq<u8>, link: Seq<u8>) -> Seq<
    Seq<u8>,
>
    decreases srcs.len(),
{
    if srcs.len() == 0 {
        Seq::<Seq<u8>>::empty()
    } else {
        let rest = srcs_to_uris(srcs.skip(1), website, link);
        match srcs[0] {
            None => rest,
            Some(src) => match resolve_img_spec(src, website, link) {
                None => rest,
                Some(uri) => if asset_name(uri) is Some {
                    seq![uri] + rest
                } else {
                    rest
                },
            },
        }
    }
}

/// The image URIs ingesting this entry will try to localize.
pub open spec fn entry_jobs_spec(
    s: Seq<PageView>,
    e: EntryView,
    website: Seq<u8>,
    pages: Seq<FetchedPageView>,
    force: bool,
) -> Seq<Seq<u8>> {
    match e.title {
        None => Seq::<Seq<u8>>::empty(),
        Some(t) => {
            let link = first_link_spec(e.links);
            if has_link(s, link) && !force {
                Seq::<Seq<u8>>::empty()
            } else {
                match entry_body_spec(e, link, pages) {
                    Some(body) => srcs_to_uris(img_srcs_of(body), website, link),
                    None => Seq::<Seq<u8>>::empty(),
                }
            }
        },
    }
}

/// One image to localize: where to download from and where the copy
/// lives.
pub struct ImageJob {
    pub uri: Vec<u8>,
    pub path: Vec<u8>,
}

pub open spec fn job_uris(js: Seq<ImageJob>) -> Seq<Seq<u8>> {
    js.map_values(|j: ImageJob| j.uri@)
}

/// The images that ingesting this entry will try to localize, each
/// with its on-disk path.
pub fn entry_image_jobs(
    store: &Store,
    e: &FeedEntry,
    website: &Vec<u8>,
    pages: &Vec<FetchedPage>,
    force: bool,
) -> (r: Vec<ImageJob>)
    ensures
        job_uris(r@) == entry_jobs_spec(store@, e@, website@, fpv(pages@), force),
        forall|k: int|
            0 <= k < r@.len() ==> asset_name((#[trigger] r@[k]).uri@) == Some(r@[k].path@),
{
    let ghost goal = entry_jobs_spec(store@, e@, website@, fpv(pages@), force);
    let mut r: Vec<ImageJob> = Vec::new();
    let title_present = e.title.is_some();
    if !title_present {
        proof {
            assert(job_uris(r@) =~= goal);
        }
        return r;
    }
    let link = first_link(&e.links);
    let exist = query_page_link(store, &link).is_some();
    if exist && !force {
        proof {
            assert(job_uris(r@) =~= goal);
        }
        return r;
    }
    let body = match resolve_entry_content(e, &link, pages) {
        None => {
            proof {
                assert(job_uris(r@) =~= goal);
            }
            return r;
        },
        Some(b) => b,
    };
    let srcs = select_img_srcs(&body);
    let ghost sv = img_srcs_of(body@);
    let mut j: usize = 0;
    proof {
        assert(sv.skip(0) =~= sv);
        assert(job_uris(r@) =~= Seq::<Seq<u8>>::empty());
        assert(Seq::<Seq<u8>>::empty() + goal =~= goal);
        assert(goal == srcs_to_uris(sv, website@, link@));
    }
    while j < srcs.len()
        invariant
            0 <= j <= srcs@.len(),
            sv.len() == srcs@.len(),
            forall|m: int| 0 <= m < srcs@.len() ==> sv[m] == opt_bytes(srcs@[m]),
            goal == job_uris(r@) + srcs_to_uris(sv.skip(j as int), website@, link@),
            forall|k: int|
                0 <= k < r@.len() ==> asset_name((#[trigger] r@[k]).uri@) == Some(r@[k].path@),
        decreases srcs@.len() - j,
    {
        proof {
            assert(sv.skip(j as int)[0] == sv[j as int]);
            assert(sv.skip(j as int).skip(1) =~= sv.skip(j + 1));
        }
        match &srcs[j] {
            None => {},
            Some(src) => {
                match resolve_img(src, website, &link) {
                    None => {},
                    Some(uri) => {
                        match gen_image_name(&uri) {
                            None => {},
                            Some(path) => {
                                let ghost pre = job_uris(r@);
                                let ghost uv = uri@;
                                r.push(ImageJob { uri, path });
                                proof {
                                    assert(job_uris(r@) =~= pre.push(uv));
                                    assert(pre + (seq![uv] + srcs_to_uris(
                                        sv.skip(j + 1),
                                        website@,
                                        link@,
                                    )) =~= pre.push(uv) + srcs_to_uris(
                                        sv.skip(j + 1),
                                        website@,
                                        link@,
                                    ));
                                }
                            },
                        }
                    },
                }
            },
        }
        j = j + 1;
    }
    proof {
        assert(sv.skip(sv.len() as int) =~= Seq::<Option<Seq<u8>>>::empty());
        assert(job_uris(r@) + Seq::<Seq<u8>>::empty() =~= job_uris(r@));
    }
    r
}

/// Ingestion never removes a page: a stored link stays stored.
proof fn lemma_ingest_monotone(
    s: Seq<PageView>,
    entries: Seq<EntryView>,
    website: Seq<u8>,
    source: Seq<u8>,
    now: Seq<u8>,
    pages: Seq<FetchedPageView>,
    imgs: Seq<ImageFetchView>,
    force: bool,
    l: Seq<u8>,
)
    requires
        has_link(s, l),
    ensures
        has_link(ingest_spec(s, entries, website, source, now, pages, imgs, force).store, l),
    decreases entries.len(),
{
    if entries.len() > 0 {
        let e = entries[0];
        let rest = entries.skip(1);
        match e.title {
            None => {
                lemma_ingest_monotone(s, rest, website, source, now, pages, imgs, force, l);
            },
            Some(t) => {
                let link = first_link_spec(e.links);
                if has_link(s, link) && !force {
                    lemma_ingest_monotone(s, rest, website, source, now, pages, imgs, force, l);
                } else {
                    match entry_body_spec(e, link, pages) {
                        None => {},
                        Some(body) => {
                            let content = localized_content(body, website, link, imgs);
                            if content.len() > 0 {
                                let pv = entry_page_view(e, link, website, source, now);
                                let s2 = if has_link(s, link) {
                                    s
                                } else {
                                    s.push(pv)
                                };
                                assert(has_link(s2, l)) by {
                                    let i = choose|i: int|
                                        0 <= i < s.len() && s[i].link == l;
                                    assert(s2[i].link == l);
                                };
                                lemma_ingest_monotone(
                                    s2,
                                    rest,
                                    website,
                                    source,
                                    now,
                                    pages,
                                    imgs,
                                    force,
                                    l,
                                );
                            } else {
                                lemma_ingest_monotone(
                                    s,
                                    rest,
                                    website,
                                    source,
                                    now,
                                    pages,
                                    imgs,
                                    force,
                                    l,
                                );
                            }
                        },
                    }
                }
            },
        }
    }
}

/// What holds of each entry once a pass over it has completed
/// against store `s`: nothing of it is left to do.
pub open spec fn entry_covered(
    e: EntryView,
    s: Seq<PageView>,
    website: Seq<u8>,
    now: Seq<u8>,
    pages: Seq<FetchedPageView>,
    imgs: Seq<ImageFetchView>,
) -> bool {
    ||| e.title is None
    ||| has_link(s, first_link_spec(e.links))
    ||| (entry_body_spec(e, first_link_spec(e.links), pages) matches Some(b)
        && localized_content(b, website, first_link_spec(e.links), imgs).len() == 0)
}

/// After a completed pass, every entry is covered by the store the
/// pass leaves behind.
proof fn lemma_ingest_covered(
    s: Seq<PageView>,
    entries: Seq<EntryView>,
    website: Seq<u8>,
    source: Seq<u8>,
    now: Seq<u8>,
    pages: Seq<FetchedPageView>,
    imgs: Seq<ImageFetchView>,
)
    requires
        ingest_spec(s, entries, website, source, now, pages, imgs, false).ok,
    ensures
        forall|k: int|
            0 <= k < entries.len() ==> entry_covered(
                #[trigger] entries[k],
                ingest_spec(s, entries, website, source, now, pages, imgs, false).store,
                website,
                now,
                pages,
                imgs,
            ),
    decreases entries.len(),
{
    if entries.len() > 0 {
        let e = entries[0];
        let rest = entries.skip(1);
        let out = ingest_spec(s, entries, website, source, now, pages, imgs, false);
        assert(forall|k: int| 1 <= k < entries.len() ==> entries[k] == rest[k - 1]);
        match e.title {
            None => {
                lemma_ingest_covered(s, rest, website, source, now, pages, imgs);
            },
            Some(t) => {
                let link = first_link_spec(e.links);
                if has_link(s, link) {
                    lemma_ingest_covered(s, rest, website, source, now, pages, imgs);
                    lemma_ingest_monotone(
                        s,
                        rest,
                        website,
                        source,
                        now,
                        pages,
                        imgs,
                        false,
                        link,
                    );
                } else {
                    match entry_body_spec(e, link, pages) {
                        None => {
                            assert(!out.ok);
                        },
                        Some(body) => {
                            let content = localized_content(body, website, link, imgs);
                            if content.len() > 0 {
                                let pv = entry_page_view(e, link, website, source, now);
                                let s2 = s.push(pv);
                                assert(has_link(s2, link)) by {
                                    assert(s2[s.len() as int].link == link);
                                };
                                lemma_ingest_covered(
                                    s2,
                                    rest,
                                    website,
                                    source,
                                    now,
                                    pages,
                                    imgs,
                                );
                                lemma_ingest_monotone(
                                    s2,
                                    rest,
                                    website,
                                    source,
                                    now,
                                    pages,
                                    imgs,
                                    false,
                                    link,
                                );
                            } else {
                                lemma_ingest_covered(s, rest, website, source, now, pages, imgs);
                            }
                        },
                    }
                }
            },
        }
    }
}

/// A pass over entries that are all covered changes nothing.
proof fn lemma_ingest_stable(
    s: Seq<PageView>,
    entries: Seq<EntryView>,
    website: Seq<u8>,
    source: Seq<u8>,
    now: Seq<u8>,
    pages: Seq<FetchedPageView>,
    imgs: Seq<ImageFetchView>,
)
    requires
        forall|k: int|
            0 <= k < entries.len() ==> entry_covered(
                #[trigger] entries[k],
                s,
                website,
                now,
                pages,
                imgs,
            ),
    ensures
        ({
            let out = ingest_spec(s, entries, website, source, now, pages, imgs, false);
            out.store == s && out.count == 0 && out.writes.len() == 0 && out.ok
        }),
    decreases entries.len(),
{
    if entries.len() > 0 {
        let e = entries[0];
        let rest = entries.skip(1);
        assert(entry_covered(entries[0], s, website, now, pages, imgs));
        assert(forall|k: int| 1 <= k < entries.len() ==> entries[k] == rest[k - 1]);
        lemma_ingest_stable(s, rest, website, source, now, pages, imgs);
    }
}

/// Law: ingesting an unchanged feed a second time without `force`,
/// with the same fetched pages and localization outcomes, leaves the
/// store exactly as the first ingestion left it and persists nothing.
pub proof fn lemma_ingest_idempotent(
    s: Seq<PageView>,
    entries: Seq<EntryView>,
    website: Seq<u8>,
    source: Seq<u8>,
    now: Seq<u8>,
    pages: Seq<FetchedPageView>,
    imgs: Seq<ImageFetchView>,
)
    requires
        ingest_spec(s, entries, website, source, now, pages, imgs, false).ok,
    ensures
        ({
            let s1 = ingest_spec(s, entries, website, source, now, pages, imgs, false).store;
            let out2 = ingest_spec(s1, entries, website, source, now, pages, imgs, false);
            out2.store == s1 && out2.count == 0 && out2.writes.len() == 0 && out2.ok
        }),
{
    lemma_ingest_covered(s, entries, website, source, now, pages, imgs);
    let s1 = ingest_spec(s, entries, website, source, now, pages, imgs, false).store;
    lemma_ingest_stable(s1, entries, website, source, now, pages, imgs);
}

} // verus!
