//! Session target construction and endpoint resolution.
//!
//! A session's base target is the text `http://<host>/api/<token>/`; an
//! endpoint is that base joined with a relative reference such as
//! `./lights/3/state`. Joining is path-aware for the restricted relative
//! grammar the protocol uses (plain segments, an optional `./` prefix, no
//! parent references): for such references the joined URL is exactly the base
//! followed by the reference without its `./` prefix. References outside the
//! grammar are rejected rather than spliced into a malformed URL.

use vstd::prelude::*;

use crate::errors::ConstructionError;
use crate::methods::AllowedMethod;

verus! {

/// A fully resolved request descriptor: one URL paired with the method that
/// will be used on it. Built fresh per request and never mutated.
#[derive(Debug)]
pub struct RequestTarget {
    pub url: String,
    pub method: AllowedMethod,
}

/// ASCII letters and digits.
pub open spec fn is_alnum_char(c: char) -> bool {
    (48 <= c as u32 && c as u32 <= 57) || (65 <= c as u32 && c as u32 <= 90) || (97 <= c as u32
        && c as u32 <= 122)
}

/// Characters accepted in a credential token: the URL "unreserved" set.
pub open spec fn is_token_char(c: char) -> bool {
    is_alnum_char(c) || c == '-' || c == '_' || c == '~'
}

/// Characters accepted in the body of a relative reference: unreserved
/// segment characters and the segment separator.
pub open spec fn is_rel_char(c: char) -> bool {
    is_token_char(c) || c == '/'
}

/// A usable credential token: nonempty and made of token characters only.
pub open spec fn valid_token(t: Seq<char>) -> bool {
    t.len() >= 1 && (forall|i: int| 0 <= i < t.len() ==> is_token_char(t[i]))
}

/// What url::Host::parse accepts: whether `s` is a syntactically valid URL
/// host (a domain name, an IPv4 address, or a bracketed IPv6 address).
pub uninterp spec fn host_ok(s: Seq<char>) -> bool;

/// Relies on url::Host::parse (the WHATWG host parser): whether a string is a
/// valid URL host is a function of the string alone, and parsing never
/// panics.
#[verifier::external_body]
fn host_is_valid(s: &str) -> (r: bool)
    ensures
        r == host_ok(s@),
{
    url::Host::parse(s).is_ok()
}

/// The base URL text for a session against `host` with credential `token`.
pub open spec fn target_text(host: Seq<char>, token: Seq<char>) -> Seq<char> {
    "http://"@ + host + "/api/"@ + token + "/"@
}

/// A base URL this library resolves against: nonempty and ending in a path
/// separator, as every constructed session target does.
pub open spec fn valid_base(b: Seq<char>) -> bool {
    b.len() >= 1 && b.last() == '/'
}

/// Every constructed target is a valid base.
pub proof fn lemma_target_text_valid_base(host: Seq<char>, token: Seq<char>)
    ensures
        valid_base(target_text(host, token)),
{
    reveal_strlit("http://");
    reveal_strlit("/api/");
    reveal_strlit("/");
    assert(target_text(host, token).last() == '/');
}

/// Decides `valid_token(t@)`.
fn token_is_valid(t: &str) -> (b: bool)
    ensures
        b == valid_token(t@),
{
    let n = t.unicode_len();
    if n == 0 {
        return false;
    }
    let mut i: usize = 0;
    while i < n
        invariant
            n == t@.len(),
            i <= n,
            forall|k: int| 0 <= k < i ==> is_token_char(t@[k]),
        decreases n - i,
    {
        let c = t.get_char(i);
        let x = c as u32;
        let ok = (48 <= x && x <= 57) || (65 <= x && x <= 90) || (97 <= x && x <= 122) || c == '-'
            || c == '_' || c == '~';
        if !ok {
            assert(!is_token_char(t@[i as int]));
            return false;
        }
        i = i + 1;
    }
    true
}

/// Builds the base target URL for a session.
///
/// Succeeds exactly when `host` is a syntactically valid URL host and `token`
/// is a usable credential; the result is then the text
/// `http://<host>/api/<token>/`. Construction is atomic: on any malformed
/// input it fails without producing a partial target.
pub fn generate_target(host: &str, token: &str) -> (r: Result<String, ConstructionError>)
    ensures
        r is Ok <==> host_ok(host@) && valid_token(token@),
        r is Ok ==> r.unwrap()@ == target_text(host@, token@),
        r is Err ==> (r.unwrap_err() == ConstructionError::InvalidHost <==> !host_ok(host@)),
{
    if !host_is_valid(host) {
        return Err(ConstructionError::InvalidHost);
    }
    if !token_is_valid(token) {
        return Err(ConstructionError::InvalidToken);
    }
    let mut url = String::new();
    url.append("http://");
    url.append(host);
    url.append("/api/");
    url.append(token);
    url.append("/");
    Ok(url)
}

/// The body of a relative reference: the reference without its optional `./`
/// prefix.
pub open spec fn rel_body(r: Seq<char>) -> Seq<char> {
    if r.len() >= 2 && r[0] == '.' && r[1] == '/' {
        r.skip(2)
    } else {
        r
    }
}

/// Relative references this resolver accepts: after stripping an optional
/// `./` prefix, a nonempty run of segment characters that does not start with
/// a separator (so it can never escape or replace the base path).
pub open spec fn valid_rel(r: Seq<char>) -> bool {
    &&& rel_body(r).len() >= 1
    &&& rel_body(r)[0] != '/'
    &&& forall|i: int| 0 <= i < rel_body(r).len() ==> is_rel_char(rel_body(r)[i])
}

/// Resolves a relative reference against a base URL.
///
/// Pure and total except for malformed references: exactly the references in
/// the accepted relative grammar resolve, and the resolved URL is the base
/// text followed by the reference body - the correct URL join for this
/// grammar, not a blind splice.
pub fn resolve(base: &str, rel: &str, method: AllowedMethod) -> (r: Result<
    RequestTarget,
    ConstructionError,
>)
    requires
        valid_base(base@),
    ensures
        r is Ok <==> valid_rel(rel@),
        r is Ok ==> r.unwrap().url@ == base@ + rel_body(rel@),
        r is Ok ==> r.unwrap().method == method,
        r is Err ==> r.unwrap_err() == ConstructionError::InvalidPath,
{
    let n = rel.unicode_len();
    let start: usize = if n >= 2 && rel.get_char(0) == '.' && rel.get_char(1) == '/' {
        2
    } else {
        0
    };
    assert(rel_body(rel@) =~= rel@.skip(start as int));
    if start >= n {
        return Err(ConstructionError::InvalidPath);
    }
    if rel.get_char(start) == '/' {
        return Err(ConstructionError::InvalidPath);
    }
    let mut i: usize = start;
    while i < n
        invariant
            n == rel@.len(),
            start <= i <= n,
            rel_body(rel@) == rel@.skip(start as int),
            forall|k: int| start <= k < i ==> is_rel_char(rel@[k]),
        decreases n - i,
    {
        let c = rel.get_char(i);
        let x = c as u32;
        let ok = (48 <= x && x <= 57) || (65 <= x && x <= 90) || (97 <= x && x <= 122) || c == '-'
            || c == '_' || c == '~' || c == '/';
        if !ok {
            assert(rel_body(rel@)[i - start] == rel@[i as int]);
            return Err(ConstructionError::InvalidPath);
        }
        i = i + 1;
    }
    assert(forall|k: int|
        0 <= k < rel_body(rel@).len() ==> is_rel_char(#[trigger] rel_body(rel@)[k]));
    let body = rel.substring_char(start, n);
    let mut url = String::from_str(base);
    url.append(body);
    Ok(RequestTarget { url, method })
}

} // verus!
