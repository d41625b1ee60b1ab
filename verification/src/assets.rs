//! Asset localization naming: a remote image URI maps to a stable
//! local path built from a digest prefix and the URI's file extension,
//! and a cache of present paths decides whether a download is needed.

use vstd::prelude::*;
use vstd::string::StringSliceAdditionalSpecFns;
use crate::bytes::{last_idx_of, rfind_byte, str_bytes, subvec};
use sha2::Digest;

verus! {

/// SHA-256 digest of the bytes.
pub uninterp spec fn sha256_of(data: Seq<u8>) -> Seq<u8>;

/// Relies on sha2's `Sha256::digest`: a 32-byte digest that is a
/// function of the input alone.
#[verifier::external_body]
fn sha256(data: &Vec<u8>) -> (r: Vec<u8>)
    ensures
        r@ == sha256_of(data@),
        r@.len() == 32,
{
    sha2::Sha256::digest(data.as_slice()).to_vec()
}

/// The scheme of the URI as the url crate parses it; `None` when the
/// URI does not parse.
pub uninterp spec fn scheme_of(uri: Seq<u8>) -> Option<Seq<u8>>;

/// Relies on url's `Url::parse` and `Url::scheme`; the result is a
/// function of the URI alone.
#[verifier::external_body]
pub(crate) fn url_scheme(uri: &Vec<u8>) -> (r: Option<Vec<u8>>)
    ensures
        match r {
            Some(s) => scheme_of(uri@) == Some(s@),
            None => scheme_of(uri@) is None,
        },
{
    match url::Url::parse(&String::from_utf8_lossy(uri)) {
        Ok(u) => Some(u.scheme().as_bytes().to_vec()),
        Err(_) => None,
    }
}

/// The last path segment of the URI; `None` when the URI does not
/// parse or cannot be a base.
pub uninterp spec fn last_segment_of(uri: Seq<u8>) -> Option<Seq<u8>>;

/// Relies on url's `Url::parse` and `Url::path_segments`; the result
/// is a function of the URI alone, and excludes any query string.
#[verifier::external_body]
fn url_last_segment(uri: &Vec<u8>) -> (r: Option<Vec<u8>>)
    ensures
        match r {
            Some(s) => last_segment_of(uri@) == Some(s@),
            None => last_segment_of(uri@) is None,
        },
{
    match url::Url::parse(&String::from_utf8_lossy(uri)) {
        Ok(u) => u.path_segments().and_then(|mut it| it.next_back()).map(
            |s| s.as_bytes().to_vec(),
        ),
        Err(_) => None,
    }
}

/// The lower-case hex digit of a value below 16.
pub open spec fn hex_digit(n: int) -> u8 {
    if n < 10 {
        (48 + n) as u8
    } else {
        (87 + n) as u8
    }
}

/// Lower-case hex encoding, two digits per byte.
pub open spec fn hex_of(data: Seq<u8>) -> Seq<u8>
    decreases data.len(),
{
    if data.len() == 0 {
        Seq::<u8>::empty()
    } else {
        seq![hex_digit(data[0] as int / 16), hex_digit(data[0] as int % 16)] + hex_of(data.skip(1))
    }
}

fn hexd(n: u8) -> (r: u8)
    requires
        n < 16,
    ensures
        r == hex_digit(n as int),
{
    if n < 10 {
        48 + n
    } else {
        87 + n
    }
}

/// Hex-encode the bytes.
fn to_hex(data: &Vec<u8>) -> (r: Vec<u8>)
    ensures
        r@ == hex_of(data@),
        r@.len() == 2 * data@.len(),
{
    let mut r: Vec<u8> = Vec::new();
    let mut i: usize = 0;
    proof {
        assert(data@.skip(0) =~= data@);
        assert(Seq::<u8>::empty() + hex_of(data@) =~= hex_of(data@));
    }
    while i < data.len()
        invariant
            0 <= i <= data@.len(),
            r@.len() == 2 * i,
            hex_of(data@) == r@ + hex_of(data@.skip(i as int)),
        decreases data@.len() - i,
    {
        let ghost pre = r@;
        let ghost tail = data@.skip(i as int);
        let b = data[i];
        r.push(hexd(b / 16));
        r.push(hexd(b % 16));
        proof {
            assert(tail[0] == data@[i as int]);
            assert(tail.skip(1) =~= data@.skip(i + 1));
            assert(r@ =~= pre + seq![
                hex_digit(data@[i as int] as int / 16),
                hex_digit(data@[i as int] as int % 16),
            ]);
            assert(pre + hex_of(tail) =~= r@ + hex_of(data@.skip(i + 1)));
        }
        i = i + 1;
    }
    proof {
        assert(data@.skip(data@.len() as int) =~= Seq::<u8>::empty());
        assert(r@ + Seq::<u8>::empty() =~= r@);
    }
    r
}

/// The file extension the local copy keeps: what follows the last dot
/// of the URI's last path segment, or `png` when there is no dot or no
/// segment.
pub open spec fn ext_of(uri: Seq<u8>) -> Seq<u8> {
    match last_segment_of(uri) {
        Some(seg) => if last_idx_of(seg, 46) >= 0 {
            seg.skip(last_idx_of(seg, 46) + 1)
        } else {
            "png".spec_bytes()
        },
        None => "png".spec_bytes(),
    }
}

/// The file name of the local copy: the first ten hex digits of the
/// URI's digest, a dot, and the extension.
pub open spec fn asset_core(uri: Seq<u8>) -> Seq<u8> {
    hex_of(sha256_of(uri)).take(10) + seq![46u8] + ext_of(uri)
}

/// The on-disk path of the local copy; `None` when the URI does not
/// parse.
pub open spec fn asset_name(uri: Seq<u8>) -> Option<Seq<u8>> {
    if scheme_of(uri) is Some {
        Some("./pages/images/".spec_bytes() + asset_core(uri))
    } else {
        None
    }
}

/// The path under which persisted article bodies refer to the copy.
pub open spec fn asset_rel(uri: Seq<u8>) -> Seq<u8> {
    "/pages/images/".spec_bytes() + asset_core(uri)
}

fn ext_bytes(uri: &Vec<u8>) -> (r: Vec<u8>)
    ensures
        r@ == ext_of(uri@),
{
    match url_last_segment(uri) {
        Some(seg) => {
            match rfind_byte(&seg, 46) {
                Some(d) => {
                    proof {
                        crate::bytes::lemma_last_idx_of(seg@, 46);
                    }
                    let r = subvec(&seg, d + 1, seg.len());
                    proof {
                        assert(seg@.subrange(d + 1, seg@.len() as int) =~= seg@.skip(d + 1));
                    }
                    r
                },
                None => str_bytes("png"),
            }
        },
        None => str_bytes("png"),
    }
}

fn core_bytes(uri: &Vec<u8>) -> (r: Vec<u8>)
    ensures
        r@ == asset_core(uri@),
{
    let digest = sha256(uri);
    let hex = to_hex(&digest);
    let mut core = subvec(&hex, 0, 10);
    proof {
        assert(hex@.subrange(0, 10) =~= hex_of(sha256_of(uri@)).take(10));
    }
    core.push(46);
    let ext = ext_bytes(uri);
    core.extend_from_slice(ext.as_slice());
    proof {
        assert(core@ =~= asset_core(uri@));
    }
    core
}

/// The deterministic local file name for a remote URI, or `None` when
/// the URI cannot be parsed.
pub fn gen_image_name(uri: &Vec<u8>) -> (r: Option<Vec<u8>>)
    ensures
        match r {
            Some(p) => asset_name(uri@) == Some(p@),
            None => asset_name(uri@) is None,
        },
{
    let scheme = url_scheme(uri);
    if scheme.is_none() {
        return None;
    }
    let core = core_bytes(uri);
    let mut name = str_bytes("./pages/images/");
    name.extend_from_slice(core.as_slice());
    proof {
        assert(name@ =~= "./pages/images/".spec_bytes() + asset_core(uri@));
    }
    Some(name)
}

/// The relative path substituted into article bodies for a localized
/// image.
pub fn gen_image_rel(uri: &Vec<u8>) -> (r: Vec<u8>)
    ensures
        r@ == asset_rel(uri@),
{
    let core = core_bytes(uri);
    let mut rel = str_bytes("/pages/images/");
    rel.extend_from_slice(core.as_slice());
    proof {
        assert(rel@ =~= "/pages/images/".spec_bytes() + asset_core(uri@));
    }
    rel
}

/// The outcome of deciding one localization.
pub struct LocalAsset {
    /// Where the copy lives on disk.
    pub path: Vec<u8>,
    /// How persisted bodies refer to it.
    pub relative: Vec<u8>,
    /// Whether a download is still needed: the copy is not yet present.
    pub fetch_needed: bool,
}

/// The set of asset paths already present on disk, write-once.
pub struct AssetCache {
    present: Vec<Vec<u8>>,
}

impl View for AssetCache {
    type V = Seq<Seq<u8>>;

    closed spec fn view(&self) -> Seq<Seq<u8>> {
        self.present.deep_view()
    }
}

impl AssetCache {
    /// A cache seeded with the paths already present.
    pub fn from_paths(paths: Vec<Vec<u8>>) -> (c: AssetCache)
        ensures
            c@ == paths.deep_view(),
    {
        AssetCache { present: paths }
    }

    /// Decide one localization: the stable path for the URI, and
    /// whether it still must be fetched.  The cache is not changed;
    /// `confirm` notes a path once its file exists.
    pub fn localize(&self, uri: &Vec<u8>) -> (r: Option<LocalAsset>)
        ensures
            match r {
                Some(a) => asset_name(uri@) == Some(a.path@) && a.relative@ == asset_rel(uri@)
                    && a.fetch_needed == !self@.contains(a.path@),
                None => asset_name(uri@) is None,
            },
    {
        match gen_image_name(uri) {
            None => None,
            Some(path) => {
                let relative = gen_image_rel(uri);
                let present = self.has_path(&path);
                Some(LocalAsset { path, relative, fetch_needed: !present })
            },
        }
    }

    /// Note that the file at this path now exists.
    pub fn confirm(&mut self, path: Vec<u8>)
        ensures
            final(self)@ == old(self)@.push(path@),
    {
        let ghost pre = self@;
        self.present.push(path);
        proof {
            assert(self.present.deep_view() =~~= pre.push(self.present@.last()@));
        }
    }

    fn has_path(&self, path: &Vec<u8>) -> (r: bool)
        ensures
            r == self@.contains(path@),
    {
        let mut k: usize = 0;
        while k < self.present.len()
            invariant
                0 <= k <= self.present@.len(),
                self@.len() == self.present@.len(),
                forall|m: int| 0 <= m < self.present@.len() ==> self@[m] == self.present@[m]@,
                forall|m: int| 0 <= m < k ==> self.present@[m]@ != path@,
            decreases self.present@.len() - k,
        {
            if crate::bytes::bytes_eq(&self.present[k], path) {
                proof {
                    assert(self@[k as int] == path@);
                }
                return true;
            }
            k = k + 1;
        }
        proof {
            if self@.contains(path@) {
                let m = choose|m: int| 0 <= m < self@.len() && self@[m] == path@;
                assert(self.present@[m]@ == path@);
            }
        }
        false
    }
}

/// Law: localizing a URI names the same path every time, and across
/// two localizations of one URI at most one download happens: once the
/// first is confirmed, the second finds the copy present.
pub proof fn lemma_localize_at_most_one_fetch(cache: Seq<Seq<u8>>, uri: Seq<u8>, p: Seq<u8>)
    requires
        asset_name(uri) == Some(p),
    ensures
        ({
            let first_fetch = !cache.contains(p);
            let cache2 = if first_fetch {
                cache.push(p)
            } else {
                cache
            };
            let second_fetch = !cache2.contains(p);
            !second_fetch && !(first_fetch && second_fetch)
        }),
{
    if !cache.contains(p) {
        assert(cache.push(p)[cache.len() as int] == p);
    }
}

} // verus!
