//! The request-side helpers: the content type served for a static
//! file's extension, and pulling the document id out of a query
//! string.
use vstd::prelude::*;
use vstd::string::StrSliceExecFns;
use crate::text::str_eq;
use crate::links::{find_from, find_from_x};

verus! {

/// The content type served for a file extension; anything unknown is
/// served as a generic byte stream.
pub open spec fn content_type_spec(ext: Seq<char>) -> Seq<char> {
    if ext == "css"@ {
        "text/css; charset=utf-8"@
    } else if ext == "js"@ {
        "application/javascript"@
    } else if ext == "png"@ {
        "image/png"@
    } else if ext == "jpg"@ || ext == "jpeg"@ {
        "image/jpeg"@
    } else if ext == "gif"@ {
        "image/gif"@
    } else if ext == "svg"@ {
        "image/svg+xml"@
    } else if ext == "ico"@ {
        "image/x-icon"@
    } else {
        "application/octet-stream"@
    }
}

/// The content type for a static file's extension.
pub fn content_type_from_ext(ext: &str) -> (r: &'static str)
    ensures
        r@ == content_type_spec(ext@),
{
    if str_eq(ext, "css") {
        "text/css; charset=utf-8"
    } else if str_eq(ext, "js") {
        "application/javascript"
    } else if str_eq(ext, "png") {
        "image/png"
    } else if str_eq(ext, "jpg") || str_eq(ext, "jpeg") {
        "image/jpeg"
    } else if str_eq(ext, "gif") {
        "image/gif"
    } else if str_eq(ext, "svg") {
        "image/svg+xml"
    } else if str_eq(ext, "ico") {
        "image/x-icon"
    } else {
        "application/octet-stream"
    }
}

/// The value of the first `id` parameter of a query string, scanning
/// `&`-separated segments from `from`: a segment matches when its text
/// before its first `=` is exactly `id`; the value runs to the
/// segment's end.
pub open spec fn query_id_from(q: Seq<char>, from: int) -> Option<Seq<char>>
    decreases q.len() - from when 0 <= from
{
    if !(0 <= from <= q.len()) {
        None
    } else {
        let end = match find_from(q, from, '&') {
            Some(k) => k,
            None => q.len() as int,
        };
        let eq = find_from(q, from, '=');
        let hit = match eq {
            Some(e) => e < end && q.subrange(from, e) == "id"@,
            None => false,
        };
        if hit {
            Some(q.subrange(eq.unwrap() + 1, end))
        } else if end < q.len() {
            query_id_from(q, if end + 1 <= from { from + 1 } else { end + 1 })
        } else {
            None
        }
    }
}

/// The document id named by a request's query string, if any.
pub fn doc_id_from_query(query: &str) -> (r: Option<String>)
    ensures
        match r {
            Some(v) => query_id_from(query@, 0) == Some(v@),
            None => query_id_from(query@, 0).is_none(),
        },
{
    let n = query.unicode_len();
    let mut from: usize = 0;
    loop
        invariant
            from <= n,
            n == query@.len(),
            query_id_from(query@, 0) == query_id_from(query@, from as int),
        decreases n - from,
    {
        let end = match find_from_x(query, from, '&') {
            Some(k) => k,
            None => n,
        };
        let eq = find_from_x(query, from, '=');
        let hit = match eq {
            Some(e) => e < end && str_eq(query.substring_char(from, e), "id"),
            None => false,
        };
        if hit {
            let e = eq.unwrap();
            return Some(query.substring_char(e + 1, end).to_owned());
        }
        if end < n {
            from = end + 1;
        } else {
            return None;
        }
    }
}

} // verus!
