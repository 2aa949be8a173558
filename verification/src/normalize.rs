//! Asset path normalization: rewriting a relative image reference into a
//! site-relative path, once, at ingestion time.

use vstd::prelude::*;

verus! {

/// Whether a URL starts with `http` (which covers `http://` and
/// `https://`).
pub open spec fn starts_http(s: Seq<char>) -> bool {
    s.len() >= 4 && s[0] == 'h' && s[1] == 't' && s[2] == 't' && s[3] == 'p'
}

/// Whether a path is already site-root-relative.
pub open spec fn starts_slash(s: Seq<char>) -> bool {
    s.len() >= 1 && s[0] == '/'
}

/// A path with one leading `./` removed, if it has one.
pub open spec fn strip_dot_slash(s: Seq<char>) -> Seq<char> {
    if s.len() >= 2 && s[0] == '.' && s[1] == '/' {
        s.subrange(2, s.len() as int)
    } else {
        s
    }
}

/// The render-time path for a raw image reference: external URLs and
/// root-relative paths unchanged, every other path rewritten under
/// `content/<collection>/<id>/`.
pub open spec fn spec_normalize(url: Seq<char>, collection: Seq<char>, id: Seq<char>) -> Seq<
    char,
> {
    if starts_http(url) || starts_slash(url) {
        url
    } else {
        "content/"@ + collection + "/"@ + id + "/"@ + strip_dot_slash(url)
    }
}

/// An absolute or root-relative URL is returned unchanged.
pub proof fn lemma_normalize_absolute(url: Seq<char>, collection: Seq<char>, id: Seq<char>)
    requires
        starts_http(url) || starts_slash(url),
    ensures
        spec_normalize(url, collection, id) == url,
{
}

/// Any other reference becomes `content/<collection>/<id>/` followed by
/// the reference with a single leading `./` removed.
pub proof fn lemma_normalize_relative(url: Seq<char>, collection: Seq<char>, id: Seq<char>)
    requires
        !starts_http(url),
        !starts_slash(url),
    ensures
        spec_normalize(url, collection, id) == "content/"@ + collection + "/"@ + id + "/"@
            + strip_dot_slash(url),
{
}

/// Normalization is not idempotent on relative inputs: applying it a
/// second time prefixes `content/<collection>/<id>/` again.  It is to be
/// applied exactly once, at ingestion time.
pub proof fn lemma_normalize_twice(url: Seq<char>, collection: Seq<char>, id: Seq<char>)
    requires
        !starts_http(url),
        !starts_slash(url),
    ensures
        spec_normalize(spec_normalize(url, collection, id), collection, id) == "content/"@
            + collection + "/"@ + id + "/"@ + spec_normalize(url, collection, id),
{
    reveal_strlit("content/");
    let once = spec_normalize(url, collection, id);
    assert(once[0] == 'c');
    assert(!starts_http(once));
    assert(!starts_slash(once));
    assert(strip_dot_slash(once) == once);
}

/// Rewrites a raw image reference for render time: external URLs
/// (starting `http`) and root-relative paths (starting `/`) are kept,
/// and any other reference is placed under `content/<collection>/<id>/`
/// with a single leading `./` removed first.
pub fn normalize_image_url(url: &str, collection: &str, id: &str) -> (r: String)
    ensures
        r@ == spec_normalize(url@, collection@, id@),
{
    let len = url.unicode_len();
    if len >= 4 && url.get_char(0) == 'h' && url.get_char(1) == 't' && url.get_char(2) == 't'
        && url.get_char(3) == 'p' {
        return url.to_owned();
    }
    if len >= 1 && url.get_char(0) == '/' {
        return url.to_owned();
    }
    let stripped: &str = if len >= 2 && url.get_char(0) == '.' && url.get_char(1) == '/' {
        url.substring_char(2, len)
    } else {
        url
    };
    let mut r = String::new();
    r.append("content/");
    r.append(collection);
    r.append("/");
    r.append(id);
    r.append("/");
    r.append(stripped);
    proof {
        assert(r@ =~= spec_normalize(url@, collection@, id@));
    }
    r
}

} // verus!
