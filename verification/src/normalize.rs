//! The identity normalizer: turns raw user input — a bare identifier or
//! one of several resource URL shapes — into the canonical 11-character
//! item identifier, and builds the canonical resource URL back from it.
//!
//! URL splitting (scheme, host, path, query) is the one outside call; all
//! decisions on the split parts are the library's own.

use vstd::prelude::*;

use crate::text::{first_at, split_all, split_fields, sub_chars, to_chars};

verus! {

/// The host, path and query of an absolute URL, as plain strings.
pub struct UrlParts {
    pub host: Option<String>,
    pub path: String,
    pub query: Option<String>,
}

/// The mathematical value of split URL parts.
pub ghost struct UrlPartsView {
    pub host: Option<Seq<char>>,
    pub path: Seq<char>,
    pub query: Option<Seq<char>>,
}

impl View for UrlParts {
    type V = UrlPartsView;

    open spec fn view(&self) -> UrlPartsView {
        UrlPartsView {
            host: match self.host {
                Some(ref h) => Some(h@),
                None => None,
            },
            path: self.path@,
            query: match self.query {
                Some(ref q) => Some(q@),
                None => None,
            },
        }
    }
}

/// What parsing an absolute URL yields: its host (absent for URLs that
/// cannot have one), path and query, or nothing when the text is not an
/// absolute URL. The result is a function of the input text alone.
pub uninterp spec fn url_split_of(s: Seq<char>) -> Option<
    (Option<Seq<char>>, Seq<char>, Option<Seq<char>>),
>;

/// Relies on `url::Url::parse` and its `host_str`, `path` and `query`
/// accessors: splits an absolute URL into host, path and query, `None`
/// when the text does not parse as an absolute URL.
#[verifier::external_body]
fn split_url(input: &str) -> (r: Option<UrlParts>)
    ensures
        match r {
            Some(p) => url_split_of(input@) == Some((p@.host, p@.path, p@.query)),
            None => url_split_of(input@) is None,
        },
{
    match url::Url::parse(input) {
        Ok(u) => Some(
            UrlParts {
                host: u.host_str().map(|h| h.to_string()),
                path: u.path().to_string(),
                query: u.query().map(|q| q.to_string()),
            },
        ),
        Err(_) => None,
    }
}

/// Why an input could not be normalized to an item identifier.
#[derive(Clone, Copy, Debug, PartialEq, Eq, Structural)]
pub enum IdError {
    /// The input is neither an identifier nor a parsable URL.
    InvalidUrlFormat,
    /// The URL has no host.
    InvalidUrl,
    /// The host is not a recognized video domain.
    NotVideoDomain,
    /// A short-link URL whose path does not carry a valid identifier.
    BadShortLinkId,
    /// A channel page, not a single video.
    ChannelUrl,
    /// A playlist page, not a single video.
    PlaylistUrl,
    /// A search results page, not a single video.
    SearchUrl,
    /// No identifier anywhere in the URL.
    MissingVideoId,
    /// The extracted candidate is not a valid 11-character identifier.
    InvalidExtractedId,
}

impl IdError {
    /// The user-facing description of the failure.
    pub fn message(&self) -> (r: String)
        ensures
            r@ == (match self {
                IdError::InvalidUrlFormat => "Invalid URL format"@,
                IdError::InvalidUrl => "Invalid URL"@,
                IdError::NotVideoDomain => "Not a YouTube domain"@,
                IdError::BadShortLinkId => "Invalid video ID in youtu.be URL"@,
                IdError::ChannelUrl => "Channel URLs are not supported. Please provide a direct video link (e.g., youtube.com/watch?v=ID)"@,
                IdError::PlaylistUrl => "Playlist URLs are not supported. Please provide a direct video link (e.g., youtube.com/watch?v=ID)"@,
                IdError::SearchUrl => "Search result URLs are not supported. Please provide a direct video link."@,
                IdError::MissingVideoId => "Could not find video ID. Supported formats: youtube.com/watch?v=ID, youtube.com/shorts/ID, youtube.com/live/ID, youtu.be/ID"@,
                IdError::InvalidExtractedId => "Extracted ID is invalid (must be exactly 11 characters: A-Z, a-z, 0-9, -, _)"@,
            }),
    {
        let s: &str = match self {
            IdError::InvalidUrlFormat => "Invalid URL format",
            IdError::InvalidUrl => "Invalid URL",
            IdError::NotVideoDomain => "Not a YouTube domain",
            IdError::BadShortLinkId => "Invalid video ID in youtu.be URL",
            IdError::ChannelUrl => "Channel URLs are not supported. Please provide a direct video link (e.g., youtube.com/watch?v=ID)",
            IdError::PlaylistUrl => "Playlist URLs are not supported. Please provide a direct video link (e.g., youtube.com/watch?v=ID)",
            IdError::SearchUrl => "Search result URLs are not supported. Please provide a direct video link.",
            IdError::MissingVideoId => "Could not find video ID. Supported formats: youtube.com/watch?v=ID, youtube.com/shorts/ID, youtube.com/live/ID, youtu.be/ID",
            IdError::InvalidExtractedId => "Extracted ID is invalid (must be exactly 11 characters: A-Z, a-z, 0-9, -, _)",
        };
        s.to_owned()
    }
}

/// Whether `c` may stand in an item identifier.
pub open spec fn is_id_char(c: char) -> bool {
    ('a' <= c && c <= 'z') || ('A' <= c && c <= 'Z') || ('0' <= c && c <= '9') || c == '-' || c
        == '_'
}

/// Whether `s` is a canonical item identifier: exactly eleven identifier
/// characters.
pub open spec fn valid_id(s: Seq<char>) -> bool {
    s.len() == 11 && (forall|i: int| 0 <= i < s.len() ==> is_id_char(#[trigger] s[i]))
}

/// Whether the text is a canonical 11-character item identifier.
pub fn is_valid_id_format(id: &str) -> (r: bool)
    ensures
        r == valid_id(id@),
{
    let chars = to_chars(id);
    if chars.len() != 11 {
        return false;
    }
    let mut i: usize = 0;
    while i < chars.len()
        invariant
            i <= chars@.len(),
            chars@ == id@,
            chars@.len() == 11,
            forall|j: int| 0 <= j < i ==> is_id_char(#[trigger] chars@[j]),
        decreases chars@.len() - i,
    {
        let c = chars[i];
        let ok = ('a' <= c && c <= 'z') || ('A' <= c && c <= 'Z') || ('0' <= c && c <= '9') || c
            == '-' || c == '_';
        if !ok {
            return false;
        }
        i = i + 1;
    }
    true
}

/// Whether `c` is blank space at the edges of user input.
pub open spec fn is_space(c: char) -> bool {
    c == ' ' || c == '\t' || c == '\n' || c == '\r'
}

/// The input with blank space stripped from both ends.
pub open spec fn trim_spec(s: Seq<char>) -> Seq<char>
    decreases s.len(),
{
    if s.len() == 0 {
        s
    } else if is_space(s[0]) {
        trim_spec(s.drop_first())
    } else if is_space(s.last()) {
        trim_spec(s.drop_last())
    } else {
        s
    }
}

/// The trimmed text is the slice between the blank edges.
proof fn lemma_trim_slice(s: Seq<char>, a: int, b: int)
    requires
        0 <= a <= b <= s.len(),
        forall|i: int| 0 <= i < a ==> is_space(#[trigger] s[i]),
        forall|i: int| b <= i < s.len() ==> is_space(#[trigger] s[i]),
        a < b ==> !is_space(s[a]) && !is_space(s[b - 1]),
    ensures
        trim_spec(s) == s.subrange(a, b),
    decreases s.len(),
{
    if a > 0 {
        let t = s.drop_first();
        assert(forall|i: int| 0 <= i < a - 1 ==> is_space(#[trigger] t[i]));
        assert(forall|i: int| b - 1 <= i < t.len() ==> is_space(#[trigger] t[i]));
        lemma_trim_slice(t, a - 1, b - 1);
        assert(t.subrange(a - 1, b - 1) =~= s.subrange(a, b));
    } else if b < s.len() {
        assert(is_space(s.last()));
        if s.len() > 0 && is_space(s[0]) {
            // a == 0 and b < len and s[0] blank: then a == b (else s[a] is
            // not blank), so the slice is empty either way.
            let t = s.drop_first();
            assert(a == b);
            assert(forall|i: int| 0 <= i < t.len() ==> is_space(#[trigger] t[i]));
            lemma_trim_slice(t, 0, 0);
            assert(t.subrange(0, 0) =~= s.subrange(a, b));
        } else if s.len() > 0 {
            let t = s.drop_last();
            assert(forall|i: int| b <= i < t.len() ==> is_space(#[trigger] t[i]));
            lemma_trim_slice(t, a, b);
            assert(t.subrange(a, b) =~= s.subrange(a, b));
        }
    } else {
        if s.len() == 0 {
        } else {
            assert(!is_space(s[0]) && !is_space(s.last()));
            assert(s.subrange(0, s.len() as int) =~= s);
        }
    }
}

/// Strips blank space from both ends of the input.
pub fn trim_input(s: &str) -> (r: Vec<char>)
    ensures
        r@ == trim_spec(s@),
{
    let chars = to_chars(s);
    let n = chars.len();
    let mut a: usize = 0;
    while a < n && (chars[a] == ' ' || chars[a] == '\t' || chars[a] == '\n' || chars[a] == '\r')
        invariant
            a <= n,
            n == chars@.len(),
            forall|i: int| 0 <= i < a ==> is_space(#[trigger] chars@[i]),
        decreases n - a,
    {
        a = a + 1;
    }
    let mut b: usize = n;
    while b > a && (chars[b - 1] == ' ' || chars[b - 1] == '\t' || chars[b - 1] == '\n' || chars[b
        - 1] == '\r')
        invariant
            a <= b <= n,
            n == chars@.len(),
            forall|i: int| b <= i < n ==> is_space(#[trigger] chars@[i]),
        decreases b,
    {
        b = b - 1;
    }
    proof {
        lemma_trim_slice(chars@, a as int, b as int);
    }
    sub_chars(&chars, a, b)
}

/// Whether the text carries a scheme separator `"://"`.
pub open spec fn has_scheme(s: Seq<char>) -> bool {
    exists|i: int|
        0 <= i && i + 3 <= s.len() && #[trigger] s[i] == ':' && s[i + 1] == '/' && s[i + 2] == '/'
}

/// Scans for a scheme separator.
pub fn contains_scheme(s: &Vec<char>) -> (r: bool)
    ensures
        r == has_scheme(s@),
{
    let n = s.len();
    if n < 3 {
        return false;
    }
    let mut i: usize = 0;
    while i <= n - 3
        invariant
            n == s@.len(),
            3 <= n,
            i <= n - 2,
            forall|j: int|
                0 <= j < i ==> !(#[trigger] s@[j] == ':' && s@[j + 1] == '/' && s@[j + 2] == '/'),
        decreases n - i,
    {
        if s[i] == ':' && s[i + 1] == '/' && s[i + 2] == '/' {
            return true;
        }
        i = i + 1;
    }
    false
}

/// Whether `pat` is a prefix of `s`.
pub open spec fn prefix_of(pat: Seq<char>, s: Seq<char>) -> bool {
    pat.len() <= s.len() && s.subrange(0, pat.len() as int) == pat
}

/// Whether `pat` occurs anywhere in `s`.
pub open spec fn has_sub(s: Seq<char>, pat: Seq<char>) -> bool {
    exists|i: int|
        0 <= i && i + pat.len() <= s.len() && #[trigger] s.subrange(i, i + pat.len() as int)
            == pat
}

/// Tests a prefix.
pub fn starts_with(s: &Vec<char>, pat: &Vec<char>) -> (r: bool)
    ensures
        r == prefix_of(pat@, s@),
{
    let m = pat.len();
    if m > s.len() {
        return false;
    }
    let mut i: usize = 0;
    while i < m
        invariant
            m == pat@.len(),
            m <= s@.len(),
            i <= m,
            forall|j: int| 0 <= j < i ==> s@[j] == pat@[j],
        decreases m - i,
    {
        if s[i] != pat[i] {
            proof {
                assert(s@.subrange(0, m as int)[i as int] != pat@[i as int]);
            }
            return false;
        }
        i = i + 1;
    }
    proof {
        assert(s@.subrange(0, m as int) =~= pat@);
    }
    true
}

/// Scans for an occurrence of `pat`.
pub fn contains_sub(s: &Vec<char>, pat: &Vec<char>) -> (r: bool)
    ensures
        r == has_sub(s@, pat@),
{
    let n = s.len();
    let m = pat.len();
    if m > n {
        return false;
    }
    if m == 0 {
        proof {
            assert(s@.subrange(0, 0 + pat@.len() as int) =~= pat@);
            assert(has_sub(s@, pat@));
        }
        return true;
    }
    let mut i: usize = 0;
    while i <= n - m
        invariant
            n == s@.len(),
            m == pat@.len(),
            1 <= m <= n,
            i <= n - m + 1,
            forall|j: int| 0 <= j < i ==> #[trigger] s@.subrange(j, j + m as int) != pat@,
        decreases n - i,
    {
        let mut k: usize = 0;
        let mut all_eq = true;
        while k < m
            invariant
                i + m <= n,
                n == s@.len(),
                m == pat@.len(),
                k <= m,
                all_eq ==> forall|j: int| 0 <= j < k ==> s@[i + j] == pat@[j],
                !all_eq ==> s@.subrange(i as int, i + m as int) != pat@,
            decreases m - k,
        {
            if s[i + k] != pat[k] {
                proof {
                    assert(s@.subrange(i as int, i + m as int)[k as int] != pat@[k as int]);
                }
                all_eq = false;
                k = m;
            } else {
                k = k + 1;
            }
        }
        if all_eq {
            proof {
                assert(s@.subrange(i as int, i + m as int) =~= pat@);
            }
            return true;
        }
        i = i + 1;
    }
    false
}

/// Whether `pat` is a suffix of `s`.
pub open spec fn suffix_of(pat: Seq<char>, s: Seq<char>) -> bool {
    pat.len() <= s.len() && s.subrange(s.len() - pat.len(), s.len() as int) == pat
}

/// Tests a suffix.
pub fn ends_with(s: &Vec<char>, pat: &Vec<char>) -> (r: bool)
    ensures
        r == suffix_of(pat@, s@),
{
    let m = pat.len();
    let n = s.len();
    if m > n {
        return false;
    }
    let tail = sub_chars(s, n - m, n);
    let mut i: usize = 0;
    while i < m
        invariant
            m == pat@.len(),
            tail@ == s@.subrange(s@.len() - m, s@.len() as int),
            tail@.len() == m,
            i <= m,
            forall|j: int| 0 <= j < i ==> tail@[j] == pat@[j],
        decreases m - i,
    {
        if tail[i] != pat[i] {
            proof {
                assert(s@.subrange(s@.len() - m, s@.len() as int)[i as int] != pat@[i as int]);
            }
            return false;
        }
        i = i + 1;
    }
    proof {
        assert(s@.subrange(s@.len() - m, s@.len() as int) =~= pat@);
    }
    true
}

/// The path with every leading slash removed.
pub open spec fn strip_slashes(s: Seq<char>) -> Seq<char>
    decreases s.len(),
{
    if s.len() > 0 && s[0] == '/' {
        strip_slashes(s.drop_first())
    } else {
        s
    }
}

/// The stripped path is the slice past the leading slashes.
proof fn lemma_strip_slice(s: Seq<char>, a: int)
    requires
        0 <= a <= s.len(),
        forall|i: int| 0 <= i < a ==> #[trigger] s[i] == '/',
        a < s.len() ==> s[a] != '/',
    ensures
        strip_slashes(s) == s.subrange(a, s.len() as int),
    decreases s.len(),
{
    if a > 0 {
        let t = s.drop_first();
        assert(forall|i: int| 0 <= i < a - 1 ==> #[trigger] t[i] == '/');
        lemma_strip_slice(t, a - 1);
        assert(t.subrange(a - 1, t.len() as int) =~= s.subrange(a, s.len() as int));
    } else {
        assert(s.subrange(0, s.len() as int) =~= s);
    }
}

/// The first eleven characters, or everything when shorter.
pub open spec fn take11(s: Seq<char>) -> Seq<char> {
    if s.len() <= 11 {
        s
    } else {
        s.subrange(0, 11)
    }
}

/// The candidate identifier found after a recognized path prefix: the
/// next eleven characters, when they form a valid identifier.
pub open spec fn try_path_prefix(pat: Seq<char>, path: Seq<char>) -> Option<Seq<char>> {
    if prefix_of(pat, path) {
        let cand = take11(path.subrange(pat.len() as int, path.len() as int));
        if valid_id(cand) {
            Some(cand)
        } else {
            None
        }
    } else {
        None
    }
}

/// The identifier embedded in a path-based URL: the eleven characters
/// after `/shorts/`, `/live/`, `/embed/`, `/v/`, `/e/` or `/watch/`.
pub open spec fn path_id(path: Seq<char>) -> Option<Seq<char>> {
    if try_path_prefix("/shorts/"@, path) is Some {
        try_path_prefix("/shorts/"@, path)
    } else if try_path_prefix("/live/"@, path) is Some {
        try_path_prefix("/live/"@, path)
    } else if try_path_prefix("/embed/"@, path) is Some {
        try_path_prefix("/embed/"@, path)
    } else if try_path_prefix("/v/"@, path) is Some {
        try_path_prefix("/v/"@, path)
    } else if try_path_prefix("/e/"@, path) is Some {
        try_path_prefix("/e/"@, path)
    } else {
        try_path_prefix("/watch/"@, path)
    }
}

/// The failure a URL of an unsupported page kind deserves: channel pages,
/// playlist pages (a playlist query without a video), and search results.
pub open spec fn unsupported_err(path: Seq<char>, query: Option<Seq<char>>) -> Option<IdError> {
    if prefix_of("/@"@, path) || prefix_of("/channel/"@, path) || prefix_of("/c/"@, path)
        || prefix_of("/user/"@, path) {
        Some(IdError::ChannelUrl)
    } else if prefix_of("/playlist"@, path) || (match query {
        Some(q) => has_sub(q, "list="@) && !has_sub(q, "v="@),
        None => false,
    }) {
        Some(IdError::PlaylistUrl)
    } else if prefix_of("/results"@, path) {
        Some(IdError::SearchUrl)
    } else {
        None
    }
}

/// The value of the first `v` parameter of a query string: fields are
/// separated by `'&'`, a field's key ends at its first `'='`, and a field
/// without `'='` has an empty value.
pub open spec fn find_v(fields: Seq<Seq<char>>) -> Option<Seq<char>>
    decreases fields.len(),
{
    if fields.len() == 0 {
        None
    } else {
        let f = fields[0];
        let k0 = first_at(f, 0, '=');
        let k = if k0 < 0 {
            0
        } else if k0 > f.len() {
            f.len() as int
        } else {
            k0
        };
        let key = f.subrange(0, k);
        let value = if k < f.len() {
            f.subrange(k + 1, f.len() as int)
        } else {
            Seq::empty()
        };
        if key == seq!['v'] {
            Some(value)
        } else {
            find_v(fields.drop_first())
        }
    }
}

/// The `v` parameter of a query string.
pub open spec fn query_v(q: Seq<char>) -> Option<Seq<char>> {
    find_v(split_fields(q, '&'))
}

/// What normalizing an input yields: the canonical identifier it names,
/// or the failure it deserves. A bare identifier stands for itself; a
/// URL — with `"https://"` assumed when no scheme is given — is split
/// and searched: the short-link host carries the identifier in its path,
/// the video domain in a recognized path shape or the `v` parameter.
pub open spec fn extract_spec(input: Seq<char>) -> Result<Seq<char>, IdError> {
    let t = trim_spec(input);
    if valid_id(t) {
        Ok(t)
    } else {
        let u = if has_scheme(t) {
            t
        } else {
            "https://"@ + t
        };
        match url_split_of(u) {
            None => Err(IdError::InvalidUrlFormat),
            Some(parts) => match parts.0 {
                None => Err(IdError::InvalidUrl),
                Some(h) => {
                    if h == "youtu.be"@ {
                        let cand = take11(strip_slashes(parts.1));
                        if valid_id(cand) {
                            Ok(cand)
                        } else {
                            Err(IdError::BadShortLinkId)
                        }
                    } else if suffix_of("youtube.com"@, h) {
                        match unsupported_err(parts.1, parts.2) {
                            Some(e) => Err(e),
                            None => match path_id(parts.1) {
                                Some(id) => Ok(id),
                                None => match parts.2 {
                                    Some(q) => match query_v(q) {
                                        Some(v) => if valid_id(v) {
                                            Ok(v)
                                        } else {
                                            Err(IdError::InvalidExtractedId)
                                        },
                                        None => Err(IdError::MissingVideoId),
                                    },
                                    None => Err(IdError::MissingVideoId),
                                },
                            },
                        }
                    } else {
                        Err(IdError::NotVideoDomain)
                    }
                },
            },
        }
    }
}

/// Whether the characters form a valid identifier.
fn valid_id_chars(v: &Vec<char>) -> (r: bool)
    ensures
        r == valid_id(v@),
{
    if v.len() != 11 {
        return false;
    }
    let mut i: usize = 0;
    while i < v.len()
        invariant
            i <= v@.len(),
            v@.len() == 11,
            forall|j: int| 0 <= j < i ==> is_id_char(#[trigger] v@[j]),
        decreases v@.len() - i,
    {
        let c = v[i];
        let ok = ('a' <= c && c <= 'z') || ('A' <= c && c <= 'Z') || ('0' <= c && c <= '9') || c
            == '-' || c == '_';
        if !ok {
            return false;
        }
        i = i + 1;
    }
    true
}

/// Tries one path prefix.
fn try_prefix_exec(pat: &str, path: &Vec<char>) -> (r: Option<Vec<char>>)
    ensures
        match r {
            Some(id) => try_path_prefix(pat@, path@) == Some(id@),
            None => try_path_prefix(pat@, path@) is None,
        },
{
    let p = to_chars(pat);
    if !starts_with(path, &p) {
        return None;
    }
    let rest_len = path.len() - p.len();
    let upto = if rest_len <= 11 {
        path.len()
    } else {
        p.len() + 11
    };
    let cand = sub_chars(path, p.len(), upto);
    proof {
        assert(cand@ =~= take11(path@.subrange(pat@.len() as int, path@.len() as int)));
    }
    if valid_id_chars(&cand) {
        Some(cand)
    } else {
        None
    }
}

/// Builds the canonical resource URL for an identifier: the standard
/// watch URL, the one shape every recognized input form redirects to.
pub fn build_canonical_url(video_id: &str) -> (r: String)
    ensures
        r@ == "https://www.youtube.com/watch?v="@ + video_id@,
{
    let mut out = String::from_str("https://www.youtube.com/watch?v=");
    out.append(video_id);
    out
}

/// Normalizes raw input — a bare identifier, a short link, or one of the
/// recognized video URL shapes — into the canonical identifier; the
/// failure names what kind of input could not be normalized.
pub fn extract_video_id(input: &str) -> (r: Result<String, IdError>)
    ensures
        match r {
            Ok(id) => extract_spec(input@) == Ok::<Seq<char>, IdError>(id@) && valid_id(id@),
            Err(e) => extract_spec(input@) == Err::<Seq<char>, IdError>(e),
        },
{
    let t = trim_input(input);
    if valid_id_chars(&t) {
        return Ok(crate::text::chars_to_string(&t));
    }
    let url_string: String = if contains_scheme(&t) {
        crate::text::chars_to_string(&t)
    } else {
        let mut u = String::from_str("https://");
        u.append(crate::text::chars_to_string(&t).as_str());
        u
    };
    let ghost uview = url_string@;
    let parts = match split_url(url_string.as_str()) {
        Some(p) => p,
        None => {
            return Err(IdError::InvalidUrlFormat);
        },
    };
    let host = match &parts.host {
        Some(h) => h,
        None => {
            return Err(IdError::InvalidUrl);
        },
    };
    let path = to_chars(parts.path.as_str());
    if host.as_str().eq("youtu.be") {
        // Short link: the identifier sits right after the leading slashes.
        let n = path.len();
        let mut a: usize = 0;
        while a < n && path[a] == '/'
            invariant
                a <= n,
                n == path@.len(),
                forall|i: int| 0 <= i < a ==> #[trigger] path@[i] == '/',
            decreases n - a,
        {
            a = a + 1;
        }
        proof {
            lemma_strip_slice(path@, a as int);
        }
        let upto = if n - a <= 11 {
            n
        } else {
            a + 11
        };
        let cand = sub_chars(&path, a, upto);
        proof {
            assert(cand@ =~= take11(strip_slashes(path@)));
        }
        if valid_id_chars(&cand) {
            return Ok(crate::text::chars_to_string(&cand));
        } else {
            return Err(IdError::BadShortLinkId);
        }
    }
    let host_chars = to_chars(host.as_str());
    if !ends_with(&host_chars, &to_chars("youtube.com")) {
        return Err(IdError::NotVideoDomain);
    }
    // Unsupported page kinds get their own failures.
    if starts_with(&path, &to_chars("/@")) || starts_with(&path, &to_chars("/channel/"))
        || starts_with(&path, &to_chars("/c/")) || starts_with(&path, &to_chars("/user/")) {
        return Err(IdError::ChannelUrl);
    }
    let playlist_query = match &parts.query {
        Some(q) => {
            let qc = to_chars(q.as_str());
            contains_sub(&qc, &to_chars("list=")) && !contains_sub(&qc, &to_chars("v="))
        },
        None => false,
    };
    if starts_with(&path, &to_chars("/playlist")) || playlist_query {
        return Err(IdError::PlaylistUrl);
    }
    if starts_with(&path, &to_chars("/results")) {
        return Err(IdError::SearchUrl);
    }
    // Path-based shapes carry the identifier right after their prefix.
    let from_path = if let Some(id) = try_prefix_exec("/shorts/", &path) {
        Some(id)
    } else if let Some(id) = try_prefix_exec("/live/", &path) {
        Some(id)
    } else if let Some(id) = try_prefix_exec("/embed/", &path) {
        Some(id)
    } else if let Some(id) = try_prefix_exec("/v/", &path) {
        Some(id)
    } else if let Some(id) = try_prefix_exec("/e/", &path) {
        Some(id)
    } else if let Some(id) = try_prefix_exec("/watch/", &path) {
        Some(id)
    } else {
        None
    };
    if let Some(id) = from_path {
        return Ok(crate::text::chars_to_string(&id));
    }
    // Otherwise the identifier must sit in the `v` query parameter.
    let q = match &parts.query {
        Some(q) => q,
        None => {
            return Err(IdError::MissingVideoId);
        },
    };
    let qc = to_chars(q.as_str());
    let fields = split_all(&qc, '&');
    let ghost fs = fields.deep_view();
    let mut i: usize = 0;
    proof {
        assert(fs.skip(0) =~= fs);
    }
    while i < fields.len()
        invariant
            i <= fields@.len(),
            fs == fields.deep_view(),
            find_v(fs) == find_v(fs.skip(i as int)),
            extract_spec(input@) == (match find_v(fs) {
                Some(v) => if valid_id(v) {
                    Ok::<Seq<char>, IdError>(v)
                } else {
                    Err::<Seq<char>, IdError>(IdError::InvalidExtractedId)
                },
                None => Err::<Seq<char>, IdError>(IdError::MissingVideoId),
            }),
        decreases fields@.len() - i,
    {
        let f = &fields[i];
        proof {
            assert(fs.skip(i as int)[0] == fs[i as int]);
            assert(fs.skip(i as int).drop_first() =~= fs.skip(i + 1 as int));
            assert(fs[i as int] == fields@[i as int]@);
            crate::text::lemma_first_at_range(fs[i as int], 0, '=');
        }
        let k = crate::text::find_sep(f, 0, '=');
        if k == 1 && f[0] == 'v' {
            proof {
                assert(fs[i as int].subrange(0, 1) =~= seq!['v']);
            }
            let value = if k < f.len() {
                sub_chars(f, k + 1, f.len())
            } else {
                let v: Vec<char> = Vec::new();
                proof {
                    assert(v@ =~= Seq::<char>::empty());
                }
                v
            };
            proof {
                assert(find_v(fs.skip(i as int)) == Some(value@));
            }
            if valid_id_chars(&value) {
                return Ok(crate::text::chars_to_string(&value));
            } else {
                return Err(IdError::InvalidExtractedId);
            }
        }
        proof {
            let fv = fs[i as int];
            let k0 = first_at(fv, 0, '=');
            let kk = if k0 < 0 {
                0
            } else if k0 > fv.len() {
                fv.len() as int
            } else {
                k0
            };
            assert(kk == k as int);
            if fv.subrange(0, kk) == seq!['v'] {
                assert(fv.subrange(0, kk).len() == 1);
                assert(kk == 1);
                assert(fv.subrange(0, 1)[0] == fv[0]);
                assert(fv[0] == 'v');
                assert(false);
            }
        }
        i = i + 1;
    }
    proof {
        assert(fs.skip(fields@.len() as int) =~= Seq::<Seq<char>>::empty());
    }
    Err(IdError::MissingVideoId)
}

} // verus!
