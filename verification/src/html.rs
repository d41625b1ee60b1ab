//! HTML content selection: pick the most substantive fragment matching
//! a selector, and excise noise elements from a document.

use vstd::prelude::*;
use vstd::string::StringSliceAdditionalSpecFns;
use crate::bytes::{clone_bytes, replace_all, replace_scan, str_bytes};

verus! {

/// The serialized HTML of every element of `doc` matching `sel`, in
/// document order.
pub uninterp spec fn fragments_of(doc: Seq<u8>, sel: Seq<u8>) -> Seq<Seq<u8>>;

/// Relies on scraper's `Html::parse_document`, `Selector::parse` and
/// `ElementRef::html`: serializes every element matching the selector,
/// in document order; a selector that does not parse matches nothing.
#[verifier::external_body]
pub(crate) fn select_fragments(doc: &Vec<u8>, sel: &Vec<u8>) -> (r: Vec<Vec<u8>>)
    ensures
        r.deep_view() == fragments_of(doc@, sel@),
{
    let html = scraper::Html::parse_document(&String::from_utf8_lossy(doc));
    match scraper::Selector::parse(&String::from_utf8_lossy(sel)) {
        Ok(s) => html.select(&s).map(|e| e.html().into_bytes()).collect(),
        Err(_) => Vec::new(),
    }
}

/// The serialized HTML of the document's root element.
pub uninterp spec fn root_html_of(doc: Seq<u8>) -> Seq<u8>;

/// Relies on scraper's `Html::parse_document` and `Html::html`: the
/// document re-serialized from its root element.
#[verifier::external_body]
pub(crate) fn parse_root_html(doc: &Vec<u8>) -> (r: Vec<u8>)
    ensures
        r@ == root_html_of(doc@),
{
    let html = scraper::Html::parse_document(&String::from_utf8_lossy(doc));
    html.root_element().html().into_bytes()
}

/// The `src` attribute of every `img` element of `doc`, in document
/// order; `None` stands for an `img` without a `src`.
pub uninterp spec fn img_srcs_of(doc: Seq<u8>) -> Seq<Option<Seq<u8>>>;

/// Relies on scraper's `Html::parse_document`, `Html::select` and
/// `Node::attr`: the `src` attribute of each `img` element, in document
/// order.
#[verifier::external_body]
pub(crate) fn select_img_srcs(doc: &Vec<u8>) -> (r: Vec<Option<Vec<u8>>>)
    ensures
        r.deep_view() == img_srcs_of(doc@),
{
    let html = scraper::Html::parse_document(&String::from_utf8_lossy(doc));
    let sel = scraper::Selector::parse("img").unwrap();
    html.select(&sel).map(|e| e.value().attr("src").map(|s| s.as_bytes().to_vec())).collect()
}

/// Index of the longest fragment, earliest among equals: the stable
/// descending sort by length puts this fragment first.
pub open spec fn best_idx(fr: Seq<Seq<u8>>) -> int
    decreases fr.len(),
{
    if fr.len() <= 1 {
        0
    } else {
        let b = best_idx(fr.drop_last());
        if fr.last().len() > fr[b].len() {
            fr.len() - 1
        } else {
            b
        }
    }
}

/// Law: among several matching fragments the chosen one is of maximal
/// length, and earliest in document order among those of that length.
pub proof fn lemma_best_idx(fr: Seq<Seq<u8>>)
    requires
        fr.len() > 0,
    ensures
        0 <= best_idx(fr) < fr.len(),
        forall|j: int| 0 <= j < fr.len() ==> (#[trigger] fr[j]).len() <= fr[best_idx(fr)].len(),
        forall|j: int| 0 <= j < best_idx(fr) ==> (#[trigger] fr[j]).len() < fr[best_idx(fr)].len(),
    decreases fr.len(),
{
    if fr.len() > 1 {
        let d = fr.drop_last();
        lemma_best_idx(d);
        assert(forall|j: int| 0 <= j < d.len() ==> d[j] == fr[j]);
    }
}

/// What `extract` returns: the best fragment matching the selector.
pub open spec fn extract_spec(doc: Seq<u8>, sel: Seq<u8>) -> Option<Seq<u8>> {
    let fr = fragments_of(doc, sel);
    if fr.len() == 0 {
        None
    } else {
        Some(fr[best_idx(fr)])
    }
}

/// Select the elements of `doc` matching `keyword` and return the one
/// with the longest serialized HTML, or `None` when nothing matches.
pub fn extract(doc: &Vec<u8>, keyword: &Vec<u8>) -> (r: Option<Vec<u8>>)
    ensures
        match r {
            Some(v) => extract_spec(doc@, keyword@) == Some(v@),
            None => extract_spec(doc@, keyword@) is None,
        },
{
    let frags = select_fragments(doc, keyword);
    let ghost fr = fragments_of(doc@, keyword@);
    proof {
        assert(frags.deep_view().len() == frags@.len());
        assert(forall|m: int| 0 <= m < frags@.len() ==> frags.deep_view()[m] == frags@[m]@);
    }
    if frags.len() == 0 {
        return None;
    }
    let mut best: usize = 0;
    let mut i: usize = 1;
    proof {
        assert(fr.take(1).len() == 1);
        assert(best_idx(fr.take(1)) == 0);
    }
    while i < frags.len()
        invariant
            1 <= i <= frags@.len(),
            frags@.len() == fr.len(),
            forall|m: int| 0 <= m < frags@.len() ==> fr[m] == frags@[m]@,
            0 <= best < i,
            best == best_idx(fr.take(i as int)),
        decreases frags@.len() - i,
    {
        proof {
            assert(fr.take(i + 1).drop_last() =~= fr.take(i as int));
            assert(fr.take(i + 1).last() == fr[i as int]);
            assert(fr.take(i + 1)[best as int] == fr[best as int]);
        }
        if frags[i].len() > frags[best].len() {
            best = i;
        }
        i = i + 1;
    }
    proof {
        assert(fr.take(fr.len() as int) =~= fr);
    }
    Some(clone_bytes(&frags[best]))
}

/// `r` with every listed fragment textually excised, in order.
pub open spec fn remove_frags_spec(r: Seq<u8>, frags: Seq<Seq<u8>>) -> Seq<u8>
    decreases frags.len(),
{
    if frags.len() == 0 {
        r
    } else {
        remove_frags_spec(replace_scan(r, frags[0], Seq::<u8>::empty()), frags.skip(1))
    }
}

pub open spec fn remove_all_spec(doc: Seq<u8>, r: Seq<u8>, ks: Seq<Seq<u8>>) -> Seq<u8>
    decreases ks.len(),
{
    if ks.len() == 0 {
        r
    } else {
        remove_all_spec(doc, remove_frags_spec(r, fragments_of(doc, ks[0])), ks.skip(1))
    }
}

/// What `remove_elements` returns: the document's root serialization
/// with every element matching any given selector textually excised.
pub open spec fn remove_elements_spec(doc: Seq<u8>, ks: Seq<Seq<u8>>) -> Seq<u8> {
    remove_all_spec(doc, root_html_of(doc), ks)
}

/// Excise every element of `content` matching any of the selectors; a
/// selector that matches nothing changes nothing.
pub fn remove_elements(content: &Vec<u8>, keywords: &Vec<Vec<u8>>) -> (r: Vec<u8>)
    ensures
        r@ == remove_elements_spec(content@, keywords.deep_view()),
{
    let ghost ks = keywords.deep_view();
    let mut result = parse_root_html(content);
    let mut i: usize = 0;
    proof {
        assert(ks.skip(0) =~= ks);
        assert(forall|m: int| 0 <= m < keywords@.len() ==> ks[m] == keywords@[m]@);
    }
    while i < keywords.len()
        invariant
            0 <= i <= keywords@.len(),
            ks == keywords.deep_view(),
            ks.len() == keywords@.len(),
            forall|m: int| 0 <= m < keywords@.len() ==> ks[m] == keywords@[m]@,
            remove_elements_spec(content@, ks) == remove_all_spec(
                content@,
                result@,
                ks.skip(i as int),
            ),
        decreases keywords@.len() - i,
    {
        proof {
            assert(ks.skip(i as int)[0] == ks[i as int]);
            assert(ks.skip(i as int).skip(1) =~= ks.skip(i + 1));
        }
        let frags = select_fragments(content, &keywords[i]);
        let ghost frd = fragments_of(content@, ks[i as int]);
        let mut j: usize = 0;
        proof {
            assert(frd.skip(0) =~= frd);
            assert(forall|m: int| 0 <= m < frags@.len() ==> frd[m] == frags@[m]@);
        }
        while j < frags.len()
            invariant
                0 <= j <= frags@.len(),
                frags@.len() == frd.len(),
                forall|m: int| 0 <= m < frags@.len() ==> frd[m] == frags@[m]@,
                remove_all_spec(content@, remove_frags_spec(result@, frd.skip(j as int)), ks.skip(i + 1))
                    == remove_elements_spec(content@, ks),
            decreases frags@.len() - j,
        {
            proof {
                assert(frd.skip(j as int)[0] == frd[j as int]);
                assert(frd.skip(j as int).skip(1) =~= frd.skip(j + 1));
            }
            let empty: Vec<u8> = Vec::new();
            result = replace_all(&result, &frags[j], &empty);
            j = j + 1;
        }
        proof {
            assert(frd.skip(frd.len() as int) =~= Seq::<Seq<u8>>::empty());
        }
        i = i + 1;
    }
    proof {
        assert(ks.skip(ks.len() as int) =~= Seq::<Seq<u8>>::empty());
    }
    result
}

/// What a fetched page reduces to before noise removal: the best
/// `article` fragment, else the best `body` fragment, else the raw page.
pub open spec fn clean_page_spec(raw: Seq<u8>) -> Seq<u8> {
    match extract_spec(raw, "article".spec_bytes()) {
        Some(c) => c,
        None => match extract_spec(raw, "body".spec_bytes()) {
            Some(c) => c,
            None => raw,
        },
    }
}

/// Reduce a fetched page through the fallback chain
/// `article` then `body` then the whole document.
pub fn clean_page(raw: &Vec<u8>) -> (r: Vec<u8>)
    ensures
        r@ == clean_page_spec(raw@),
{
    let article = extract(raw, &str_bytes("article"));
    match article {
        Some(c) => c,
        None => {
            let body = extract(raw, &str_bytes("body"));
            match body {
                Some(c) => c,
                None => clone_bytes(raw),
            }
        },
    }
}

} // verus!
