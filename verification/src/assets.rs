//! Localizing images into a content-addressed store: a filename is the
//! 64-bit FNV-1a hash of the bytes, written as sixteen hex digits, plus
//! an extension inferred from the declared media type or the source
//! URL. Identical bytes always map to one stored file, so writes are
//! idempotent.
use vstd::prelude::*;
use vstd::string::StrSliceExecFns;
use vstd::string::StringExecFns;
use base64::Engine;
use crate::text::{is_alnum_char, lower_char, str_eq, chars_to_string};
use crate::links::{find_from, find_from_x, ci_match_at, ci_match};

verus! {

/// FNV-1a offset basis.
pub open spec fn fnv_basis() -> u64 {
    0xcbf29ce484222325u64
}

/// One FNV-1a step: xor the byte in, multiply by the prime modulo 2^64.
pub open spec fn fnv_step(h: u64, b: u8) -> u64 {
    (((h ^ b as u64) as int * 0x100000001b3) % 0x10000000000000000) as u64
}

/// The 64-bit FNV-1a hash of a byte sequence.
pub open spec fn fnv64(bytes: Seq<u8>) -> u64
    decreases bytes.len(),
{
    if bytes.len() == 0 {
        fnv_basis()
    } else {
        fnv_step(fnv64(bytes.drop_last()), bytes.last())
    }
}

/// The hex digit character for a value below sixteen.
pub open spec fn hex_digit(d: nat) -> char {
    if d < 10 {
        ((48 + d) as u8) as char
    } else {
        ((87 + d) as u8) as char
    }
}

/// `k` hex digits of `n`, most significant first.
pub open spec fn hex_rep(n: nat, k: nat) -> Seq<char>
    decreases k,
{
    if k == 0 {
        Seq::empty()
    } else {
        hex_rep(n / 16, (k - 1) as nat).push(hex_digit(n % 16))
    }
}

/// The content-addressed filename for bytes with a given extension:
/// sixteen hex digits of the FNV-1a hash, then the extension.
pub open spec fn asset_name_spec(bytes: Seq<u8>, ext: Seq<char>) -> Seq<char> {
    hex_rep(fnv64(bytes) as nat, 16) + ext
}

/// The local path an image stored under `name` is served from.
pub open spec fn local_image_path(name: Seq<char>) -> Seq<char> {
    "/static/images/"@ + name
}

fn fnv64_x(bytes: &Vec<u8>) -> (h: u64)
    ensures
        h == fnv64(bytes@),
{
    let mut h: u64 = 0xcbf29ce484222325u64;
    let n = bytes.len();
    let mut i: usize = 0;
    proof {
        assert(bytes@.take(0) =~= Seq::<u8>::empty());
    }
    while i < n
        invariant
            n == bytes@.len(),
            i <= n,
            h == fnv64(bytes@.take(i as int)),
        decreases n - i,
    {
        let x: u128 = (h ^ (bytes[i] as u64)) as u128;
        let m: u128 = x * 0x100000001b3u128;
        let h2: u64 = (m % 0x10000000000000000u128) as u64;
        proof {
            assert(bytes@.take(i as int + 1).drop_last() =~= bytes@.take(i as int));
            assert(bytes@.take(i as int + 1).last() == bytes@[i as int]);
            assert(h2 == fnv_step(h, bytes@[i as int]));
        }
        h = h2;
        i = i + 1;
    }
    proof {
        assert(bytes@.take(n as int) =~= bytes@);
    }
    h
}

fn hex_rep_x(n: u64, k: usize) -> (v: Vec<char>)
    ensures
        v@ == hex_rep(n as nat, k as nat),
    decreases k,
{
    if k == 0 {
        let v: Vec<char> = Vec::new();
        proof {
            assert(v@ =~= hex_rep(n as nat, 0));
        }
        v
    } else {
        let d: u8 = (n % 16) as u8;
        let c: char = if d < 10 {
            (48 + d) as char
        } else {
            (87 + d) as char
        };
        let mut v = hex_rep_x(n / 16, k - 1);
        v.push(c);
        proof {
            assert(c == hex_digit((n as nat) % 16));
            assert(v@ =~= hex_rep(n as nat, k as nat));
        }
        v
    }
}

/// The content-addressed filename for these bytes and extension.
pub fn asset_filename(bytes: &Vec<u8>, ext: &str) -> (r: String)
    ensures
        r@ == asset_name_spec(bytes@, ext@),
{
    let h = fnv64_x(bytes);
    let v = hex_rep_x(h, 16);
    let mut s = chars_to_string(&v);
    s.append(ext);
    s
}

/// The extension a declared image media type calls for; an
/// unrecognized type falls back to the generic binary extension.
pub open spec fn media_ext_spec(mt: Seq<char>) -> Seq<char> {
    if mt == "image/png"@ {
        ".png"@
    } else if mt == "image/jpeg"@ {
        ".jpg"@
    } else if mt == "image/gif"@ {
        ".gif"@
    } else if mt == "image/svg+xml"@ {
        ".svg"@
    } else if mt == "image/webp"@ {
        ".webp"@
    } else if mt == "image/x-icon"@ {
        ".ico"@
    } else {
        ".bin"@
    }
}

pub fn media_ext(mt: &str) -> (r: &'static str)
    ensures
        r@ == media_ext_spec(mt@),
{
    if str_eq(mt, "image/png") {
        ".png"
    } else if str_eq(mt, "image/jpeg") {
        ".jpg"
    } else if str_eq(mt, "image/gif") {
        ".gif"
    } else if str_eq(mt, "image/svg+xml") {
        ".svg"
    } else if str_eq(mt, "image/webp") {
        ".webp"
    } else if str_eq(mt, "image/x-icon") {
        ".ico"
    } else {
        ".bin"
    }
}

/// Index of the last occurrence of `c` before `upto`, if any.
pub open spec fn rfind_before(s: Seq<char>, upto: int, c: char) -> Option<int>
    decreases upto when upto <= s.len()
{
    if !(0 < upto <= s.len()) {
        None
    } else if s[upto - 1] == c {
        Some(upto - 1)
    } else {
        rfind_before(s, upto - 1, c)
    }
}

fn rfind_before_x(s: &str, upto: usize, c: char) -> (r: Option<usize>)
    requires
        upto <= s@.len(),
    ensures
        match r {
            Some(k) => rfind_before(s@, upto as int, c) == Some(k as int) && k < upto,
            None => rfind_before(s@, upto as int, c).is_none(),
        },
    decreases upto,
{
    if upto == 0 {
        None
    } else if s.get_char(upto - 1) == c {
        Some(upto - 1)
    } else {
        rfind_before_x(s, upto - 1, c)
    }
}

/// Every character of `s` is ASCII alphanumeric.
pub open spec fn all_alnum(s: Seq<char>) -> bool {
    forall|k: int| 0 <= k < s.len() ==> is_alnum_char(#[trigger] s[k])
}

/// The extension taken from a URL's path: the lowercased run after the
/// last dot before any query part, when it is one to five alphanumeric
/// characters; otherwise the generic binary extension.
pub open spec fn url_ext_spec(url: Seq<char>) -> Seq<char> {
    let cut = match find_from(url, 0, '?') {
        Some(q) => q,
        None => url.len() as int,
    };
    match rfind_before(url, cut, '.') {
        None => ".bin"@,
        Some(d) => {
            let cand = url.subrange(d + 1, cut);
            if 1 <= cand.len() <= 5 && all_alnum(cand) {
                "."@ + cand.map_values(|ch: char| lower_char(ch))
            } else {
                ".bin"@
            }
        },
    }
}

/// The lowercased extension of a URL's path, or the binary fallback.
#[verifier::loop_isolation(false)]
pub fn url_ext(url: &str) -> (r: String)
    ensures
        r@ == url_ext_spec(url@),
{
    let n = url.unicode_len();
    let cut = match find_from_x(url, 0, '?') {
        Some(q) => q,
        None => n,
    };
    let d = match rfind_before_x(url, cut, '.') {
        None => {
            return String::from_str(".bin");
        },
        Some(d) => d,
    };
    let len = cut - (d + 1);
    if !(1 <= len && len <= 5) {
        return String::from_str(".bin");
    }
    let ghost cand = url@.subrange(d as int + 1, cut as int);
    let mut v: Vec<char> = Vec::new();
    let mut i = d + 1;
    while i < cut
        invariant
            d + 1 <= i <= cut <= n,
            n == url@.len(),
            cand == url@.subrange(d as int + 1, cut as int),
            v@.len() == i - (d + 1),
            forall|k: int| 0 <= k < v@.len() ==> v@[k] == lower_char(cand[k]),
            forall|k: int| 0 <= k < v@.len() ==> is_alnum_char(#[trigger] cand[k]),
        decreases cut - i,
    {
        let c = url.get_char(i);
        if !crate::text::is_alnum(c) {
            proof {
                assert(cand[i - (d + 1) as int] == url@[i as int]);
                assert(!is_alnum_char(cand[i - (d + 1) as int]));
                assert(!all_alnum(cand));
                assert(url_ext_spec(url@) == ".bin"@);
            }
            return String::from_str(".bin");
        }
        v.push(crate::text::to_lower(c));
        proof {
            assert(cand[i - (d + 1) as int] == url@[i as int]);
        }
        i = i + 1;
    }
    let mut s = String::from_str(".");
    let tail = chars_to_string(&v);
    s.append(tail.as_str());
    proof {
        assert(all_alnum(cand));
        assert(v@ =~= cand.map_values(|ch: char| lower_char(ch)));
        assert(s@ =~= url_ext_spec(url@));
    }
    s
}

/// The extension for a fetched image: from the declared content type
/// when it is recognized, else from the URL's file extension.
pub open spec fn remote_ext_spec(ct: Seq<char>, url: Seq<char>) -> Seq<char> {
    if media_ext_spec(ct) == ".bin"@ {
        url_ext_spec(url)
    } else {
        media_ext_spec(ct)
    }
}

pub fn remote_ext(ct: &str, url: &str) -> (r: String)
    ensures
        r@ == remote_ext_spec(ct@, url@),
{
    let m = media_ext(ct);
    if str_eq(m, ".bin") {
        url_ext(url)
    } else {
        String::from_str(m)
    }
}

/// What the base64 engine decodes a text to, when it decodes at all.
/// The result is a function of the text alone.
pub uninterp spec fn base64_decoded(s: Seq<char>) -> Option<Seq<u8>>;

/// Relies on base64's `STANDARD` engine `decode`: decoding a text is a
/// function of the text alone; a decode error becomes `None`.
#[verifier::external_body]
fn base64_decode(s: &str) -> (r: Option<Vec<u8>>)
    ensures
        match r {
            Some(v) => base64_decoded(s@) == Some(v@),
            None => base64_decoded(s@).is_none(),
        },
{
    match base64::engine::general_purpose::STANDARD.decode(s) {
        Ok(v) => Some(v),
        Err(_) => None,
    }
}

/// The characters of `pat` appear in `s` at `from`, compared exactly.
pub open spec fn eq_match_at(s: Seq<char>, from: int, pat: Seq<char>) -> bool {
    &&& 0 <= from
    &&& from + pat.len() <= s.len()
    &&& forall|k: int| 0 <= k < pat.len() ==> s[from + k] == pat[k]
}

pub fn eq_match(s: &str, from: usize, pat: &str) -> (r: bool)
    ensures
        r == eq_match_at(s@, from as int, pat@),
{
    let n = s.unicode_len();
    let m = pat.unicode_len();
    if from > n || m > n - from {
        return false;
    }
    let mut k: usize = 0;
    while k < m
        invariant
            n == s@.len(),
            m == pat@.len(),
            from + m <= n,
            k <= m,
            forall|j: int| 0 <= j < k ==> s@[from + j] == pat@[j],
        decreases m - k,
    {
        if s.get_char(from + k) != pat.get_char(k) {
            return false;
        }
        k = k + 1;
    }
    true
}

/// The media type and base64 payload of an inline data source of the
/// shape `data:<mediatype>;base64,<payload>`.
pub open spec fn data_uri_parts(src: Seq<char>) -> Option<(Seq<char>, Seq<char>)> {
    if !eq_match_at(src, 0, "data:"@) {
        None
    } else {
        match find_from(src, "data:"@.len() as int, ';') {
            None => None,
            Some(sc) => {
                if eq_match_at(src, sc, ";base64,"@) {
                    Some((src.subrange("data:"@.len() as int, sc), src.skip(sc + ";base64,"@.len())))
                } else {
                    None
                }
            },
        }
    }
}

/// Splits an inline data source into media type and base64 payload.
pub fn split_data_uri(src: &str) -> (r: Option<(String, String)>)
    ensures
        match r {
            Some(p) => data_uri_parts(src@) == Some((p.0@, p.1@)),
            None => data_uri_parts(src@).is_none(),
        },
{
    if !eq_match(src, 0, "data:") {
        return None;
    }
    let n = src.unicode_len();
    let p = "data:".unicode_len();
    let sc = match find_from_x(src, p, ';') {
        None => {
            return None;
        },
        Some(sc) => sc,
    };
    if !eq_match(src, sc, ";base64,") {
        return None;
    }
    let mt = src.substring_char(p, sc).to_owned();
    let tail_start = sc + ";base64,".unicode_len();
    let payload = src.substring_char(tail_start, n).to_owned();
    proof {
        assert(src@.skip(tail_start as int) =~= src@.subrange(tail_start as int, n as int));
    }
    Some((mt, payload))
}

/// The set of content-addressed files already written in this run.
pub struct AssetStore {
    names: Vec<String>,
}

impl AssetStore {
    /// The stored filenames.
    pub closed spec fn names_seq(&self) -> Seq<Seq<char>> {
        self.names@.map_values(|s: String| s@)
    }

    /// Whether a file of this name is already stored.
    pub open spec fn has(&self, name: Seq<char>) -> bool {
        self.names_seq().contains(name)
    }

    pub fn new() -> (r: Self)
        ensures
            r.names_seq() == Seq::<Seq<char>>::empty(),
    {
        let r = AssetStore { names: Vec::new() };
        proof {
            assert(r.names_seq() =~= Seq::<Seq<char>>::empty());
        }
        r
    }

    fn has_name(&self, name: &str) -> (r: bool)
        ensures
            r == self.has(name@),
    {
        let n = self.names.len();
        let mut i: usize = 0;
        while i < n
            invariant
                n == self.names@.len(),
                i <= n,
                forall|k: int| 0 <= k < i ==> self.names_seq()[k] != name@,
            decreases n - i,
        {
            proof {
                assert(self.names_seq()[i as int] == self.names@[i as int]@);
            }
            if str_eq(self.names[i].as_str(), name) {
                return true;
            }
            i = i + 1;
        }
        proof {
            if self.names_seq().contains(name@) {
                let k = choose|k: int| 0 <= k < self.names_seq().len() && self.names_seq()[k] == name@;
            }
        }
        false
    }

    /// Stores bytes under their content-addressed name: returns the
    /// local path the image is now served from, and the file to write
    /// where the name is new. A name already stored is not written
    /// again.
    pub fn store_bytes(&mut self, bytes: Vec<u8>, ext: &str) -> (r: (String, Option<(String, Vec<u8>)>))
        ensures
            r.0@ == local_image_path(asset_name_spec(bytes@, ext@)),
            old(self).has(asset_name_spec(bytes@, ext@)) ==> {
                &&& final(self).names_seq() == old(self).names_seq()
                &&& r.1.is_none()
            },
            !old(self).has(asset_name_spec(bytes@, ext@)) ==> {
                &&& final(self).names_seq() == old(self).names_seq().push(asset_name_spec(bytes@, ext@))
                &&& r.1.is_some()
                &&& r.1.unwrap().0@ == asset_name_spec(bytes@, ext@)
                &&& r.1.unwrap().1@ == bytes@
            },
            final(self).has(asset_name_spec(bytes@, ext@)),
    {
        let name = asset_filename(&bytes, ext);
        let mut path = String::from_str("/static/images/");
        path.append(name.as_str());
        if self.has_name(name.as_str()) {
            (path, None)
        } else {
            self.names.push(name.clone());
            proof {
                assert(self.names_seq() =~= old(self).names_seq().push(name@));
                assert(self.names_seq().last() == name@);
            }
            (path, Some((name, bytes)))
        }
    }
}

/// Identical bytes resolve to the same stored filename, however the
/// image arrived: an inline payload that decodes to the same bytes as
/// a fetched image, with the same inferred extension, is stored under
/// the very same name.
pub proof fn lemma_content_addressing(payload: Seq<char>, mt: Seq<char>, fetched: Seq<u8>, ct: Seq<char>, url: Seq<char>)
    requires
        base64_decoded(payload) == Some(fetched),
        media_ext_spec(mt) == remote_ext_spec(ct, url),
    ensures
        asset_name_spec(base64_decoded(payload).unwrap(), media_ext_spec(mt))
            == asset_name_spec(fetched, remote_ext_spec(ct, url)),
{
}


/// A remote image source: an absolute http or https URL.
pub open spec fn is_remote_src(src: Seq<char>) -> bool {
    ci_match_at(src, 0, "http://"@) || ci_match_at(src, 0, "https://"@)
}

pub fn is_remote(src: &str) -> (r: bool)
    ensures
        r == is_remote_src(src@),
{
    ci_match(src, 0, "http://") || ci_match(src, 0, "https://")
}

/// The url -> outcome map described by the cache's entries, later
/// entries winning (the cache never adds a duplicate url).
pub open spec fn cmap_of(ps: Seq<(Seq<char>, Option<Seq<char>>)>) -> Map<Seq<char>, Option<Seq<char>>>
    decreases ps.len(),
{
    if ps.len() == 0 {
        Map::empty()
    } else {
        cmap_of(ps.drop_last()).insert(ps.last().0, ps.last().1)
    }
}

proof fn lemma_cmap_of_contains(ps: Seq<(Seq<char>, Option<Seq<char>>)>, k: Seq<char>)
    ensures
        cmap_of(ps).contains_key(k) <==> exists|i: int| 0 <= i < ps.len() && (#[trigger] ps[i]).0 == k,
    decreases ps.len(),
{
    if ps.len() > 0 {
        lemma_cmap_of_contains(ps.drop_last(), k);
        assert(forall|i: int| 0 <= i < ps.len() - 1 ==> #[trigger] ps.drop_last()[i] == ps[i]);
        if cmap_of(ps).contains_key(k) {
            if ps.last().0 == k {
                assert((ps[ps.len() - 1]).0 == k);
            } else {
                let i = choose|i: int| 0 <= i < ps.drop_last().len() && (#[trigger] ps.drop_last()[i]).0 == k;
                assert((ps[i]).0 == k);
            }
        }
        if exists|i: int| 0 <= i < ps.len() && (#[trigger] ps[i]).0 == k {
            let i = choose|i: int| 0 <= i < ps.len() && (#[trigger] ps[i]).0 == k;
            if i < ps.len() - 1 {
                assert((ps.drop_last()[i]).0 == k);
            }
        }
    }
}

proof fn lemma_cmap_of_value(ps: Seq<(Seq<char>, Option<Seq<char>>)>, i: int)
    requires
        0 <= i < ps.len(),
        forall|a: int, b: int| #![trigger ps[a], ps[b]] 0 <= a < b < ps.len() ==> ps[a].0 != ps[b].0,
    ensures
        cmap_of(ps).contains_key(ps[i].0),
        cmap_of(ps)[ps[i].0] == ps[i].1,
    decreases ps.len(),
{
    assert(forall|a: int| 0 <= a < ps.len() - 1 ==> #[trigger] ps.drop_last()[a] == ps[a]);
    if i == ps.len() - 1 {
    } else {
        lemma_cmap_of_value(ps.drop_last(), i);
        assert(ps[i].0 != ps[ps.len() - 1].0);
    }
}

/// The per-run cache of remote image fetches: each URL is fetched at
/// most once; a fetched URL maps to the local path its bytes were
/// stored under, or to nothing when the fetch failed.
pub struct UrlCache {
    entries: Vec<(String, Option<String>)>,
}

impl UrlCache {
    pub closed spec fn pairs(&self) -> Seq<(Seq<char>, Option<Seq<char>>)> {
        self.entries@.map_values(|p: (String, Option<String>)| (p.0@, crate::convert::opt_view(p.1)))
    }

    /// The url -> outcome map.
    pub open spec fn map(&self) -> Map<Seq<char>, Option<Seq<char>>> {
        cmap_of(self.pairs())
    }

    /// Every url appears at most once.
    pub closed spec fn wf(&self) -> bool {
        let ps = self.pairs();
        forall|a: int, b: int| #![trigger ps[a], ps[b]] 0 <= a < b < ps.len() ==> ps[a].0 != ps[b].0
    }

    pub fn new() -> (r: Self)
        ensures
            r.wf(),
            r.map() == Map::<Seq<char>, Option<Seq<char>>>::empty(),
    {
        let r = UrlCache { entries: Vec::new() };
        proof {
            assert(r.pairs() =~= Seq::<(Seq<char>, Option<Seq<char>>)>::empty());
        }
        r
    }

    /// The cached outcome for a url: `None` when the url was never
    /// fetched, `Some(outcome)` when it was.
    pub fn lookup(&self, url: &str) -> (r: Option<Option<String>>)
        requires
            self.wf(),
        ensures
            r.is_some() == self.map().contains_key(url@),
            r.is_some() ==> crate::convert::opt_view(r.unwrap()) == self.map()[url@],
    {
        let ghost ps = self.pairs();
        let n = self.entries.len();
        let mut i: usize = 0;
        while i < n
            invariant
                self.wf(),
                ps == self.pairs(),
                n == self.entries@.len(),
                i <= n,
                forall|k: int| 0 <= k < i ==> (#[trigger] ps[k]).0 != url@,
            decreases n - i,
        {
            proof {
                assert(ps[i as int] == (self.entries@[i as int].0@,
                    crate::convert::opt_view(self.entries@[i as int].1)));
            }
            if str_eq(self.entries[i].0.as_str(), url) {
                let v = match &self.entries[i].1 {
                    Some(p) => Some(p.clone()),
                    None => None,
                };
                proof {
                    lemma_cmap_of_value(ps, i as int);
                }
                return Some(v);
            }
            i = i + 1;
        }
        proof {
            lemma_cmap_of_contains(ps, url@);
        }
        None
    }

    /// Whether this source still needs a network fetch: it is remote
    /// and has not been fetched in this run.
    pub fn needs_fetch(&self, src: &str) -> (r: bool)
        requires
            self.wf(),
        ensures
            r == (is_remote_src(src@) && !self.map().contains_key(src@)),
    {
        if !is_remote(src) {
            return false;
        }
        match self.lookup(src) {
            Some(_) => false,
            None => true,
        }
    }

    /// Records the outcome of one fetch: the local path the bytes were
    /// stored under, keyed by url. Returns the file to write when the
    /// bytes are new to the store. A url already recorded is left
    /// exactly as it was: the first fetch of a url is the only one.
    pub fn ingest_remote_image(&mut self, store: &mut AssetStore, url: &str, resp: Option<(Vec<u8>, String)>) -> (w: Option<(String, Vec<u8>)>)
        requires
            old(self).wf(),
        ensures
            final(self).wf(),
            old(self).map().contains_key(url@) ==> {
                &&& final(self).pairs() == old(self).pairs()
                &&& *final(store) == *old(store)
                &&& w.is_none()
            },
            !old(self).map().contains_key(url@) ==> match resp {
                None => {
                    &&& final(self).map() == old(self).map().insert(url@, None)
                    &&& *final(store) == *old(store)
                    &&& w.is_none()
                },
                Some(bc) => {
                    let name = asset_name_spec(bc.0@, remote_ext_spec(bc.1@, url@));
                    &&& final(self).map() == old(self).map().insert(url@, Some(local_image_path(name)))
                    &&& final(store).has(name)
                    &&& (old(store).has(name) ==> final(store).names_seq() == old(store).names_seq() && w.is_none())
                    &&& (!old(store).has(name) ==> {
                        &&& final(store).names_seq() == old(store).names_seq().push(name)
                        &&& w.is_some() && w.unwrap().0@ == name && w.unwrap().1@ == bc.0@
                    })
                },
            },
    {
        let ghost ps0 = self.pairs();
        if self.lookup(url).is_some() {
            return None;
        }
        proof {
            lemma_cmap_of_contains(ps0, url@);
        }
        match resp {
            None => {
                self.entries.push((String::from_str(url), None));
                proof {
                    assert(self.pairs() =~= ps0.push((url@, None)));
                    self.lemma_cache_push(ps0, url@, None);
                }
                None
            },
            Some((bytes, ct)) => {
                let ghost b0 = bytes@;
                let ext = remote_ext(ct.as_str(), url);
                let (path, w) = store.store_bytes(bytes, ext.as_str());
                self.entries.push((String::from_str(url), Some(path)));
                proof {
                    assert(self.pairs() =~= ps0.push((url@,
                        Some(local_image_path(asset_name_spec(b0, remote_ext_spec(ct@, url@)))))));
                    self.lemma_cache_push(ps0, url@,
                        Some(local_image_path(asset_name_spec(b0, remote_ext_spec(ct@, url@)))));
                }
                w
            },
        }
    }

    /// After pushing a fresh (url, outcome) pair the cache is still
    /// well formed and its map updates by one insertion.
    proof fn lemma_cache_push(&self, ps0: Seq<(Seq<char>, Option<Seq<char>>)>, url: Seq<char>, outcome: Option<Seq<char>>)
        requires
            self.pairs() == ps0.push((url, outcome)),
            forall|a: int, b: int| #![trigger ps0[a], ps0[b]] 0 <= a < b < ps0.len() ==> ps0[a].0 != ps0[b].0,
            !cmap_of(ps0).contains_key(url),
        ensures
            self.wf(),
            self.map() == cmap_of(ps0).insert(url, outcome),
    {
        let ps = self.pairs();
        assert(ps.drop_last() =~= ps0);
        assert(ps.last() == (url, outcome));
        lemma_cmap_of_contains(ps0, url);
        assert forall|a: int, b: int| #![trigger ps[a], ps[b]] 0 <= a < b < ps.len() implies ps[a].0 != ps[b].0 by {
            if b == ps.len() - 1 {
                assert(ps[a] == ps0[a]);
                assert(ps[b].0 == url);
            } else {
                assert(ps[a] == ps0[a]);
                assert(ps[b] == ps0[b]);
            }
        }
    }
}


/// Where a markdown image `![alt](src)` stands at `from`: the
/// positions (alt end, src start, src end, position past the closing
/// parenthesis). The alt text stops at the first `]` and may be empty;
/// the source runs to the first `)`.
pub open spec fn img_match_at(s: Seq<char>, from: int) -> Option<(int, int, int, int)> {
    if !(0 <= from && from + 1 < s.len() && s[from] == '!' && s[from + 1] == '[') {
        None
    } else {
        match find_from(s, from + 2, ']') {
            None => None,
            Some(tb) => {
                if !(tb + 1 < s.len() && s[tb + 1] == '(') {
                    None
                } else {
                    match find_from(s, tb + 2, ')') {
                        None => None,
                        Some(cp) => Some((tb, tb + 2, cp, cp + 1)),
                    }
                }
            },
        }
    }
}

/// Exec search for a markdown image at `from`.
fn img_try_match(s: &str, from: usize) -> (r: Option<(usize, usize, usize, usize)>)
    requires
        from <= s@.len(),
    ensures
        match r {
            Some(t) => {
                &&& img_match_at(s@, from as int) == Some((t.0 as int, t.1 as int, t.2 as int, t.3 as int))
                &&& from + 2 <= t.0
                &&& t.0 + 2 == t.1 <= t.2 < s@.len()
                &&& from < t.3 <= s@.len()
            },
            None => img_match_at(s@, from as int).is_none(),
        },
{
    let n = s.unicode_len();
    if from >= n || from + 1 >= n {
        return None;
    }
    if s.get_char(from) != '!' {
        return None;
    }
    if s.get_char(from + 1) != '[' {
        return None;
    }
    let tb = match find_from_x(s, from + 2, ']') {
        None => {
            return None;
        },
        Some(tb) => tb,
    };
    if !(tb + 1 < n) {
        return None;
    }
    if s.get_char(tb + 1) != '(' {
        return None;
    }
    let cp = match find_from_x(s, tb + 2, ')') {
        None => {
            return None;
        },
        Some(cp) => cp,
    };
    Some((tb, tb + 2, cp, cp + 1))
}

/// The image sources of a markup text, in order of appearance.
pub open spec fn img_srcs(s: Seq<char>, from: int) -> Seq<Seq<char>>
    decreases s.len() - from when 0 <= from
{
    if !(0 <= from < s.len()) {
        Seq::empty()
    } else {
        match img_match_at(s, from) {
            Some(m) => {
                let end = if m.3 <= from || m.3 > s.len() {
                    from + 1
                } else {
                    m.3
                };
                seq![s.subrange(m.1, m.2)] + img_srcs(s, end)
            },
            None => img_srcs(s, from + 1),
        }
    }
}

/// The views of a list of strings.
pub open spec fn str_views(v: Seq<String>) -> Seq<Seq<char>> {
    v.map_values(|s: String| s@)
}

/// Every image source of the markup, in order of appearance.
#[verifier::loop_isolation(false)]
pub fn collect_image_sources(md: &str) -> (r: Vec<String>)
    ensures
        str_views(r@) == img_srcs(md@, 0),
{
    let n = md.unicode_len();
    let mut out: Vec<String> = Vec::new();
    let mut i: usize = 0;
    proof {
        assert(str_views(out@) =~= Seq::<Seq<char>>::empty());
        assert(str_views(out@) + img_srcs(md@, 0) =~= img_srcs(md@, 0));
    }
    while i < n
        invariant
            i <= n,
            img_srcs(md@, 0) == str_views(out@) + img_srcs(md@, i as int),
        decreases n - i,
    {
        let ghost out0 = out@;
        match img_try_match(md, i) {
            Some((_tb, a, b, end)) => {
                let src = md.substring_char(a, b).to_owned();
                out.push(src);
                proof {
                    assert(str_views(out@) =~= str_views(out0).push(md@.subrange(a as int, b as int)));
                    assert(img_srcs(md@, i as int)
                        == seq![md@.subrange(a as int, b as int)] + img_srcs(md@, end as int));
                    assert(str_views(out0) + img_srcs(md@, i as int)
                        =~= str_views(out@) + img_srcs(md@, end as int));
                }
                i = end;
            },
            None => {
                i = i + 1;
            },
        }
    }
    out
}

/// What localizing one image source does to the source text and the
/// store: a source already under the static namespace is untouched; an
/// inline data payload is decoded and stored under its content
/// address; a remote source is replaced by its cached local path when
/// its fetch succeeded; everything else is untouched. The second
/// component is the store afterwards, the third the file to write.
pub open spec fn localize_src_spec(src: Seq<char>, store: Seq<Seq<char>>, cache: Map<Seq<char>, Option<Seq<char>>>)
    -> (Seq<char>, Seq<Seq<char>>, Option<(Seq<char>, Seq<u8>)>) {
    if eq_match_at(src, 0, "/static/"@) {
        (src, store, None)
    } else if eq_match_at(src, 0, "data:"@) {
        match data_uri_parts(src) {
            None => (src, store, None),
            Some(mp) => match base64_decoded(mp.1) {
                None => (src, store, None),
                Some(bytes) => {
                    let name = asset_name_spec(bytes, media_ext_spec(mp.0));
                    if store.contains(name) {
                        (local_image_path(name), store, None)
                    } else {
                        (local_image_path(name), store.push(name), Some((name, bytes)))
                    }
                },
            },
        }
    } else if is_remote_src(src) {
        if cache.contains_key(src) {
            match cache[src] {
                Some(p) => (p, store, None),
                None => (src, store, None),
            }
        } else {
            (src, store, None)
        }
    } else {
        (src, store, None)
    }
}

/// The whole localize pass from `from` on: every image source is
/// rewritten as `localize_src_spec` says, threading the store through
/// matches in text order; all other characters pass through.
pub open spec fn localize_spec(s: Seq<char>, from: int, store: Seq<Seq<char>>, cache: Map<Seq<char>, Option<Seq<char>>>)
    -> (Seq<char>, Seq<Seq<char>>, Seq<(Seq<char>, Seq<u8>)>)
    decreases s.len() - from when 0 <= from
{
    if !(0 <= from < s.len()) {
        (Seq::empty(), store, Seq::empty())
    } else {
        match img_match_at(s, from) {
            Some(m) => {
                let alt = s.subrange(from + 2, m.0);
                let src = s.subrange(m.1, m.2);
                let one = localize_src_spec(src, store, cache);
                let end = if m.3 <= from || m.3 > s.len() {
                    from + 1
                } else {
                    m.3
                };
                let rest = localize_spec(s, end, one.1, cache);
                ("!["@ + alt + "]("@ + one.0 + ")"@ + rest.0, rest.1, (match one.2 {
                    None => Seq::empty(),
                    Some(w) => seq![w],
                }) + rest.2)
            },
            None => {
                let rest = localize_spec(s, from + 1, store, cache);
                (seq![s[from]] + rest.0, rest.1, rest.2)
            },
        }
    }
}

/// The views of a list of pending writes.
pub open spec fn write_views(v: Seq<(String, Vec<u8>)>) -> Seq<(Seq<char>, Seq<u8>)> {
    v.map_values(|p: (String, Vec<u8>)| (p.0@, p.1@))
}

/// Localizes one image source against the store and the fetch cache.
fn localize_one_src(src: &str, store: &mut AssetStore, cache: &UrlCache) -> (r: (String, Option<(String, Vec<u8>)>))
    requires
        cache.wf(),
    ensures
        ({
            let one = localize_src_spec(src@, old(store).names_seq(), cache.map());
            &&& r.0@ == one.0
            &&& final(store).names_seq() == one.1
            &&& (match one.2 {
                None => r.1.is_none(),
                Some(w) => r.1.is_some() && r.1.unwrap().0@ == w.0 && r.1.unwrap().1@ == w.1,
            })
        }),
{
    if eq_match(src, 0, "/static/") {
        return (String::from_str(src), None);
    }
    if eq_match(src, 0, "data:") {
        match split_data_uri(src) {
            None => {
                return (String::from_str(src), None);
            },
            Some((mt, payload)) => {
                match base64_decode(payload.as_str()) {
                    None => {
                        return (String::from_str(src), None);
                    },
                    Some(bytes) => {
                        let ghost b0 = bytes@;
                        let ext = media_ext(mt.as_str());
                        let (path, w) = store.store_bytes(bytes, ext);
                        proof {
                            assert(old(store).has(asset_name_spec(b0, media_ext_spec(mt@)))
                                == old(store).names_seq().contains(asset_name_spec(b0, media_ext_spec(mt@))));
                        }
                        return (path, w);
                    },
                }
            },
        }
    }
    if is_remote(src) {
        match cache.lookup(src) {
            Some(Some(p)) => {
                return (p, None);
            },
            Some(None) => {
                return (String::from_str(src), None);
            },
            None => {
                return (String::from_str(src), None);
            },
        }
    }
    (String::from_str(src), None)
}

/// Rewrites every image source in the markup to its localized form,
/// storing inline data under its content address and substituting the
/// cached local path of every fetched remote image. Returns the
/// rewritten markup and the files to write, in discovery order.
#[verifier::loop_isolation(false)]
pub fn localize_images(md: &str, store: &mut AssetStore, cache: &UrlCache) -> (r: (String, Vec<(String, Vec<u8>)>))
    requires
        cache.wf(),
    ensures
        ({
            let l = localize_spec(md@, 0, old(store).names_seq(), cache.map());
            &&& r.0@ == l.0
            &&& final(store).names_seq() == l.1
            &&& write_views(r.1@) == l.2
        }),
{
    let n = md.unicode_len();
    let mut out = String::new();
    let mut writes: Vec<(String, Vec<u8>)> = Vec::new();
    let mut i: usize = 0;
    proof {
        assert(write_views(writes@) =~= Seq::<(Seq<char>, Seq<u8>)>::empty());
        assert(out@ + localize_spec(md@, 0, store.names_seq(), cache.map()).0
            =~= localize_spec(md@, 0, store.names_seq(), cache.map()).0);
        assert(write_views(writes@) + localize_spec(md@, 0, store.names_seq(), cache.map()).2
            =~= localize_spec(md@, 0, store.names_seq(), cache.map()).2);
    }
    while i < n
        invariant
            i <= n,
            localize_spec(md@, 0, old(store).names_seq(), cache.map()).0
                == out@ + localize_spec(md@, i as int, store.names_seq(), cache.map()).0,
            localize_spec(md@, 0, old(store).names_seq(), cache.map()).1
                == localize_spec(md@, i as int, store.names_seq(), cache.map()).1,
            localize_spec(md@, 0, old(store).names_seq(), cache.map()).2
                == write_views(writes@) + localize_spec(md@, i as int, store.names_seq(), cache.map()).2,
        decreases n - i,
    {
        let ghost out0 = out@;
        let ghost wr0 = writes@;
        let ghost names0 = store.names_seq();
        match img_try_match(md, i) {
            Some((tb, a, b, end)) => {
                let alt = md.substring_char(i + 2, tb);
                let src = md.substring_char(a, b).to_owned();
                out.append("![");
                out.append(alt);
                out.append("](");
                let (newsrc, w) = localize_one_src(src.as_str(), store, cache);
                out.append(newsrc.as_str());
                out.append(")");
                match w {
                    Some(wv) => {
                        writes.push(wv);
                    },
                    None => {
                    },
                }
                proof {
                    let m = img_match_at(md@, i as int).unwrap();
                    let one = localize_src_spec(md@.subrange(m.1, m.2), names0, cache.map());
                    assert(localize_spec(md@, i as int, names0, cache.map()).0
                        == "!["@ + md@.subrange(i as int + 2, m.0) + "]("@ + one.0 + ")"@
                            + localize_spec(md@, end as int, one.1, cache.map()).0);
                    assert(out@ =~= out0 + ("!["@ + md@.subrange(i as int + 2, m.0) + "]("@ + one.0 + ")"@));
                    assert(out@ + localize_spec(md@, end as int, store.names_seq(), cache.map()).0
                        =~= out0 + localize_spec(md@, i as int, names0, cache.map()).0);
                    match one.2 {
                        None => {
                            assert(write_views(writes@) =~= write_views(wr0));
                        },
                        Some(wspec) => {
                            assert(write_views(writes@) =~= write_views(wr0).push(wspec));
                        },
                    }
                    assert(write_views(writes@) + localize_spec(md@, end as int, store.names_seq(), cache.map()).2
                        =~= write_views(wr0) + localize_spec(md@, i as int, names0, cache.map()).2);
                }
                i = end;
            },
            None => {
                let ch = md.substring_char(i, i + 1);
                out.append(ch);
                proof {
                    assert(md@.subrange(i as int, i as int + 1) =~= seq![md@[i as int]]);
                    assert(out@ + localize_spec(md@, i as int + 1, store.names_seq(), cache.map()).0
                        =~= out0 + localize_spec(md@, i as int, store.names_seq(), cache.map()).0);
                }
                i = i + 1;
            },
        }
    }
    proof {
        assert(localize_spec(md@, n as int, store.names_seq(), cache.map()).0 =~= Seq::<char>::empty());
        assert(localize_spec(md@, n as int, store.names_seq(), cache.map()).2
            =~= Seq::<(Seq<char>, Seq<u8>)>::empty());
        assert(out@ =~= localize_spec(md@, 0, old(store).names_seq(), cache.map()).0);
        assert(write_views(writes@) =~= localize_spec(md@, 0, old(store).names_seq(), cache.map()).2);
    }
    (out, writes)
}

} // verus!
