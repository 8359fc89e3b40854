//! What a scan decides before and after its one request: which URL to ask
//! for, and how a response's fields become a [`Headers`] set. The request
//! itself is I/O and is made by the program around this library.

use vstd::prelude::*;

use crate::headers::{valid_header_map, with_value, HeaderMap, Headers};
use crate::text::{
    chars_of, has_prefix, lemma_trim_noop, lemma_trim_shape, lower, push_chars, push_str, starts_with,
    to_lower, trim, trim_chars};

verus! {

/// Something that stopped a scan.
#[derive(Debug)]
pub enum FetchError {
    /// The URL could not be used.
    InvalidUrl(String),
    /// The request failed at the transport level.
    Transport(String),
}

impl FetchError {
    /// The text the error is displayed as.
    pub fn message(&self) -> (r: &str)
        ensures
            r@ == match self {
                FetchError::InvalidUrl(m) => m@,
                FetchError::Transport(m) => m@,
            },
    {
        match self {
            FetchError::InvalidUrl(message) => message.as_str(),
            FetchError::Transport(message) => message.as_str(),
        }
    }
}

/// One fetched response, reduced to what the checks need.
#[derive(Debug)]
pub struct Response {
    /// The final URL, after redirects.
    pub url: String,
    /// The HTTP status code.
    pub status: u16,
    /// Response headers.
    pub headers: Headers,
    /// Whether the final URL used TLS.
    pub is_https: bool,
}

/// Whether a URL begins with `scheme`, ignoring ASCII case: schemes are
/// case-insensitive.
pub open spec fn has_scheme(url: Seq<char>, scheme: Seq<char>) -> bool {
    starts_with(lower(url), scheme)
}

/// `input` trimmed, with `https://` added unless it already names the `http`
/// or `https` scheme, in any case; a scheme that is there is kept as written.
pub open spec fn normalized(input: Seq<char>) -> Seq<char> {
    let t = trim(input);
    if has_scheme(t, "http://"@) || has_scheme(t, "https://"@) {
        t
    } else {
        "https://"@ + t
    }
}

/// How many bytes `char::len_utf8` gives a character.
pub open spec fn utf8_width(c: char) -> nat {
    if (c as int) < 0x80 {
        1
    } else if (c as int) < 0x800 {
        2
    } else if (c as int) < 0x10000 {
        3
    } else {
        4
    }
}

/// The length of a string in UTF-8 bytes (`str::len`).
pub open spec fn utf8_len(s: Seq<char>) -> nat
    decreases s.len(),
{
    if s.len() == 0 {
        0
    } else {
        utf8_len(s.drop_last()) + utf8_width(s.last())
    }
}

/// The code point of a character.
fn code_point(c: char) -> (n: u32)
    ensures
        n == c as int,
{
    c as u32
}

/// Whether the UTF-8 encoding of `v` is longer than `limit` bytes.
fn utf8_longer_than(v: &[char], limit: u64) -> (r: bool)
    requires
        limit <= 1000,
    ensures
        r == (utf8_len(v@) > limit),
{
    let mut total: u64 = 0;
    let mut i: usize = 0;
    while i < v.len()
        invariant
            i <= v.len(),
            total == utf8_len(v@.take(i as int)),
            total <= limit,
            limit <= 1000,
        decreases v.len() - i,
    {
        assert(v@.take(i + 1).drop_last() =~= v@.take(i as int));
        let c: char = v[i];
        let n: u32 = code_point(c);
        let w: u64 = if n < 0x80 {
            1
        } else if n < 0x800 {
            2
        } else if n < 0x10000 {
            3
        } else {
            4
        };
        if total + w > limit {
            proof {
                lemma_utf8_len_prefix(v@, i + 1);
            }
            return true;
        }
        total = total + w;
        i = i + 1;
    }
    assert(v@.take(i as int) =~= v@);
    false
}

proof fn lemma_utf8_len_prefix(s: Seq<char>, i: int)
    requires
        0 <= i <= s.len(),
    ensures
        utf8_len(s.take(i)) <= utf8_len(s),
    decreases s.len() - i,
{
    if i < s.len() {
        lemma_utf8_len_prefix(s, i + 1);
        assert(s.take(i + 1).drop_last() =~= s.take(i));
    } else {
        assert(s.take(i) =~= s);
    }
}

/// Add a scheme when the user omitted one, as they usually do.
pub fn normalize_url(input: &str) -> (r: String)
    ensures
        r@ == normalized(input@),
{
    let v = chars_of(input);
    let trimmed = trim_chars(v.as_slice());
    let lowered = to_lower(trimmed.as_slice());
    let http = chars_of("http://");
    let https = chars_of("https://");
    let mut r = String::new();
    if has_prefix(lowered.as_slice(), http.as_slice()) || has_prefix(
        lowered.as_slice(),
        https.as_slice(),
    ) {
        push_chars(&mut r, trimmed.as_slice());
    } else {
        push_str(&mut r, "https://");
        push_chars(&mut r, trimmed.as_slice());
    }
    r
}

/// Whether a URL is HTTPS, its scheme compared without regard to case.
pub fn is_https(url: &str) -> (r: bool)
    ensures
        r == has_scheme(url@, "https://"@),
{
    let v = chars_of(url);
    let lowered = to_lower(v.as_slice());
    let https = chars_of("https://");
    has_prefix(lowered.as_slice(), https.as_slice())
}

/// The URL to request for `input`, or why there is none: after normalising,
/// a URL no longer (in UTF-8 bytes) than `https://` names no host.
pub fn request_url(input: &str) -> (r: Result<String, FetchError>)
    ensures
        match r {
            Ok(url) => url@ == normalized(input@) && utf8_len(normalized(input@)) > 8,
            Err(FetchError::InvalidUrl(message)) => utf8_len(normalized(input@)) <= 8
                && message@ == "not a usable URL: "@ + normalized(input@),
            Err(FetchError::Transport(_)) => false,
        },
{
    let url = normalize_url(input);
    // No longer than "https://" itself.
    let chars = chars_of(url.as_str());
    if !utf8_longer_than(chars.as_slice(), 8) {
        let mut message = String::new();
        push_str(&mut message, "not a usable URL: ");
        push_str(&mut message, url.as_str());
        assert(message@ == "not a usable URL: "@ + normalized(input@));
        return Err(FetchError::InvalidUrl(message));
    }
    Ok(url)
}

/// The header set built by inserting each name/value pair in order.
pub open spec fn fields_map(fields: Seq<(String, String)>) -> HeaderMap
    decreases fields.len(),
{
    if fields.len() == 0 {
        HeaderMap::empty()
    } else {
        with_value(fields_map(fields.drop_last()), fields.last().0@, fields.last().1@)
    }
}

/// A response reduced to what the checks need: every value of every field is
/// kept, repeated names included, and TLS is read off the final URL.
pub fn response_from(url: String, status: u16, fields: &[(String, String)]) -> (r: Response)
    ensures
        r.url@ == url@,
        r.status == status,
        r.headers@ == fields_map(fields@),
        valid_header_map(r.headers@),
        r.is_https == has_scheme(url@, "https://"@),
{
    let mut headers = Headers::new();
    let mut i: usize = 0;
    while i < fields.len()
        invariant
            i <= fields@.len(),
            headers@ == fields_map(fields@.take(i as int)),
            valid_header_map(headers@),
        decreases fields@.len() - i,
    {
        let (name, value) = &fields[i];
        headers.insert(name.as_str(), value.as_str());
        assert(fields@.take(i + 1).drop_last() =~= fields@.take(i as int));
        i = i + 1;
    }
    assert(fields@.take(i as int) =~= fields@);
    let https = is_https(url.as_str());
    Response { url, status, headers, is_https: https }
}

/// Normalising is idempotent, and its result always names the `http` or
/// `https` scheme (in any case).
pub proof fn law_normalize_idempotent(input: Seq<char>)
    ensures
        normalized(normalized(input)) == normalized(input),
        has_scheme(normalized(input), "http://"@) || has_scheme(normalized(input), "https://"@),
{
    reveal_strlit("https://");
    let t = trim(input);
    lemma_trim_shape(input);
    lemma_trim_noop(t);
    if !(has_scheme(t, "http://"@) || has_scheme(t, "https://"@)) {
        let n = "https://"@ + t;
        assert(n[0] == 'h');
        if t.len() > 0 {
            assert(n.last() == t.last());
        } else {
            assert(n.last() == '/');
        }
        lemma_trim_noop(n);
        assert(lower(n).take(8) =~= "https://"@);
    }
}

} // verus!
