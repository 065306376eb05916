//! What the landing-page handler serves: which file a request path names, and the
//! content type and cache lifetime of a file.

use vstd::prelude::*;

use crate::text::{chars_of, string_of};

verus! {

/// Largest accepted request body, in bytes.
pub const MAX_BODY_BYTES: usize = 1048576;

/// Seconds a request may take.
pub const REQUEST_TIMEOUT_SECS: u64 = 10;

/// `s` without its leading `/` characters.
pub open spec fn trim_slashes(s: Seq<char>) -> Seq<char>
    decreases s.len(),
{
    if s.len() > 0 && s[0] == '/' {
        trim_slashes(s.drop_first())
    } else {
        s
    }
}

/// `s` contains `..`.
pub open spec fn has_dot_dot(s: Seq<char>) -> bool {
    exists|i: int| 0 <= i && i + 1 < s.len() && s[i] == '.' && #[trigger] s[i + 1] == '.'
}

/// The file a request path names: the path without leading slashes, with `index.html`
/// appended to a directory (or to nothing); `None` for a path with `..`.
pub open spec fn static_path_of(uri_path: Seq<char>) -> Option<Seq<char>> {
    let p = trim_slashes(uri_path);
    let f = if p.len() == 0 || p.last() == '/' {
        p + "index.html"@
    } else {
        p
    };
    if has_dot_dot(f) {
        None
    } else {
        Some(f)
    }
}

/// The file to serve for a request path (see `static_path_of`).
pub fn static_path(uri_path: &str) -> (r: Option<String>)
    ensures
        match r {
            Some(s) => static_path_of(uri_path@) == Some(s@),
            None => static_path_of(uri_path@) is None,
        },
{
    let cs = chars_of(uri_path);
    let mut i: usize = 0;
    assert(cs@.skip(0) =~= cs@);
    while i < cs.len() && cs[i] == '/'
        invariant
            i <= cs.len(),
            cs@ == uri_path@,
            trim_slashes(cs@) == trim_slashes(cs@.skip(i as int)),
        decreases cs.len() - i,
    {
        assert(cs@.skip(i as int).drop_first() =~= cs@.skip(i + 1));
        i = i + 1;
    }
    let mut f: Vec<char> = Vec::new();
    let mut k: usize = i;
    while k < cs.len()
        invariant
            i <= k <= cs.len(),
            f@ == cs@.subrange(i as int, k as int),
        decreases cs.len() - k,
    {
        f.push(cs[k]);
        k = k + 1;
    }
    assert(f@ =~= cs@.skip(i as int));
    assert(i < cs.len() ==> cs@.skip(i as int)[0] == cs@[i as int]);
    assert(trim_slashes(cs@.skip(i as int)) == cs@.skip(i as int));
    let ghost p = f@;
    assert(p == trim_slashes(uri_path@));
    if f.len() == 0 || f[f.len() - 1] == '/' {
        let idx = chars_of("index.html");
        let mut j: usize = 0;
        let ghost f0 = f@;
        while j < idx.len()
            invariant
                j <= idx.len(),
                idx@ == "index.html"@,
                f@ == f0 + idx@.take(j as int),
            decreases idx.len() - j,
        {
            f.push(idx[j]);
            j = j + 1;
            assert(f@ =~= f0 + idx@.take(j as int));
        }
        assert(idx@.take(idx.len() as int) =~= idx@);
    }
    let ghost target = f@;
    assert(static_path_of(uri_path@) == if has_dot_dot(target) {
        None
    } else {
        Some(target)
    });
    let n = f.len();
    let mut j: usize = 0;
    while n > 1 && j < n - 1
        invariant
            n == f.len(),
            f@ == target,
            static_path_of(uri_path@) == if has_dot_dot(target) {
                None
            } else {
                Some(target)
            },
            forall|m: int| 0 <= m < j && m + 1 < n ==> !(f@[m] == '.' && #[trigger] f@[m + 1] == '.'),
        decreases n - j,
    {
        if f[j] == '.' && f[j + 1] == '.' {
            assert(has_dot_dot(f@));
            return None;
        }
        j = j + 1;
    }
    assert(!has_dot_dot(f@)) by {
        if has_dot_dot(f@) {
            let m = choose|m: int| 0 <= m && m + 1 < f@.len() && f@[m] == '.' && #[trigger] f@[m + 1] == '.';
            assert(m < j);
        }
    }
    Some(string_of(&f))
}

/// `s` ends with `p`.
pub open spec fn ends_with(s: Seq<char>, p: Seq<char>) -> bool {
    p.len() <= s.len() && s.skip(s.len() - p.len()) == p
}

/// Cache lifetime of a served file: five minutes for pages, a day for assets.
pub open spec fn cache_control_of(path: Seq<char>) -> Seq<char> {
    if ends_with(path, ".html"@) {
        "public, max-age=300"@
    } else {
        "public, max-age=86400"@
    }
}

/// The `Cache-Control` value for a served file (see `cache_control_of`).
pub fn cache_control(path: &str) -> (r: &'static str)
    ensures
        r@ == cache_control_of(path@),
{
    let cs = chars_of(path);
    let suffix = chars_of(".html");
    proof {
        reveal_strlit(".html");
    }
    let n = cs.len();
    let html = if n >= 5 {
        let mut k: usize = 0;
        let mut same = true;
        while k < 5
            invariant
                k <= 5,
                n == cs.len(),
                n >= 5,
                suffix@ == ".html"@,
                suffix@.len() == 5,
                same == (forall|m: int| 0 <= m < k ==> cs@[n - 5 + m] == suffix@[m]),
            decreases 5 - k,
        {
            same = same && cs[n - 5 + k] == suffix[k];
            k = k + 1;
        }
        assert(same == (cs@.skip(n - 5) =~= ".html"@));
        same
    } else {
        false
    };
    if html {
        "public, max-age=300"
    } else {
        "public, max-age=86400"
    }
}

/// The content type `mime_guess` gives a path (by its extension, `application/octet-stream`
/// when unknown).
pub uninterp spec fn mime_of(path: Seq<char>) -> Seq<char>;

/// `mime_guess::from_path(path).first_or_octet_stream()`, as text. The guess depends only
/// on the path's extension, looked up in the crate's table.
#[verifier::external_body]
fn guess_mime(path: &str) -> (r: String)
    ensures
        r@ == mime_of(path@),
{
    mime_guess::from_path(path).first_or_octet_stream().to_string()
}

/// The `Content-Type` and `Cache-Control` values of a served file.
pub fn file_headers(path: &str) -> (r: (String, &'static str))
    ensures
        r.0@ == mime_of(path@),
        r.1@ == cache_control_of(path@),
{
    (guess_mime(path), cache_control(path))
}

} // verus!
