//! The canonical document-link pattern and the two link-rewriting passes:
//! rewriting a structured hyperlink target, and a defensive scan over the
//! finished markup for literal document links that the structured pass
//! did not see.
use vstd::prelude::*;
use vstd::string::StrSliceExecFns;
use vstd::string::StringExecFns;
use crate::text::{is_alnum_char, is_digit_char, is_space_char, lower_char, to_lower, is_space};
use crate::slug::{slugify_spec, slugify};
use crate::registry::SlugRegistry;

verus! {

/// A character allowed in a document id.
pub open spec fn is_id_char(c: char) -> bool {
    is_alnum_char(c) || c == '_' || c == '-'
}

pub fn is_id_char_x(c: char) -> (r: bool)
    ensures
        r == is_id_char(c),
{
    crate::text::is_alnum(c) || c == '_' || c == '-'
}

/// The characters of `pat` appear in `s` at position `from`, compared
/// ASCII-case-insensitively (`pat` is written in lowercase).
pub open spec fn ci_match_at(s: Seq<char>, from: int, pat: Seq<char>) -> bool {
    &&& 0 <= from
    &&& from + pat.len() <= s.len()
    &&& forall|k: int| 0 <= k < pat.len() ==> lower_char(s[from + k]) == pat[k]
}

/// Case-insensitive comparison of `pat` against `s` at `from`.
pub fn ci_match(s: &str, from: usize, pat: &str) -> (r: bool)
    ensures
        r == ci_match_at(s@, from as int, pat@),
{
    let n = s.unicode_len();
    let m = pat.unicode_len();
    if from > n || m > n - from {
        return false;
    }
    let mut k: usize = 0;
    while k < m
        invariant
            n == s@.len(),
            m == pat@.len(),
            from + m <= n,
            k <= m,
            forall|j: int| 0 <= j < k ==> lower_char(s@[from + j]) == pat@[j],
        decreases m - k,
    {
        if to_lower(s.get_char(from + k)) != pat.get_char(k) {
            return false;
        }
        k = k + 1;
    }
    true
}

/// Length of the run of id characters starting at `from`.
pub open spec fn id_run(s: Seq<char>, from: int) -> int
    decreases s.len() - from when 0 <= from
{
    if 0 <= from < s.len() && is_id_char(s[from]) {
        1 + id_run(s, from + 1)
    } else {
        0
    }
}

/// Length of the run of decimal digits starting at `from`.
pub open spec fn digit_run(s: Seq<char>, from: int) -> int
    decreases s.len() - from when 0 <= from
{
    if 0 <= from < s.len() && is_digit_char(s[from]) {
        1 + digit_run(s, from + 1)
    } else {
        0
    }
}

/// Length of the run of whitespace starting at `from`.
pub open spec fn space_run(s: Seq<char>, from: int) -> int
    decreases s.len() - from when 0 <= from
{
    if 0 <= from < s.len() && is_space_char(s[from]) {
        1 + space_run(s, from + 1)
    } else {
        0
    }
}

proof fn lemma_id_run_bounds(s: Seq<char>, from: int)
    requires
        0 <= from <= s.len(),
    ensures
        0 <= id_run(s, from) <= s.len() - from,
    decreases s.len() - from,
{
    if from < s.len() && is_id_char(s[from]) {
        lemma_id_run_bounds(s, from + 1);
    }
}

proof fn lemma_digit_run_bounds(s: Seq<char>, from: int)
    requires
        0 <= from <= s.len(),
    ensures
        0 <= digit_run(s, from) <= s.len() - from,
    decreases s.len() - from,
{
    if from < s.len() && is_digit_char(s[from]) {
        lemma_digit_run_bounds(s, from + 1);
    }
}

proof fn lemma_space_run_bounds(s: Seq<char>, from: int)
    requires
        0 <= from <= s.len(),
    ensures
        0 <= space_run(s, from) <= s.len() - from,
    decreases s.len() - from,
{
    if from < s.len() && is_space_char(s[from]) {
        lemma_space_run_bounds(s, from + 1);
    }
}

pub fn id_run_x(s: &str, from: usize) -> (r: usize)
    requires
        from <= s@.len(),
    ensures
        r == id_run(s@, from as int),
        from + r <= s@.len(),
    decreases s@.len() - from,
{
    proof {
        lemma_id_run_bounds(s@, from as int);
    }
    let n = s.unicode_len();
    if from < n && is_id_char_x(s.get_char(from)) {
        1 + id_run_x(s, from + 1)
    } else {
        0
    }
}

pub fn digit_run_x(s: &str, from: usize) -> (r: usize)
    requires
        from <= s@.len(),
    ensures
        r == digit_run(s@, from as int),
        from + r <= s@.len(),
    decreases s@.len() - from,
{
    proof {
        lemma_digit_run_bounds(s@, from as int);
    }
    let n = s.unicode_len();
    if from < n {
        let c = s.get_char(from);
        let u = c as u32;
        if 48 <= u && u <= 57 {
            return 1 + digit_run_x(s, from + 1);
        }
    }
    0
}

pub fn space_run_x(s: &str, from: usize) -> (r: usize)
    requires
        from <= s@.len(),
    ensures
        r == space_run(s@, from as int),
        from + r <= s@.len(),
    decreases s@.len() - from,
{
    proof {
        lemma_space_run_bounds(s@, from as int);
    }
    let n = s.unicode_len();
    if from < n && is_space(s.get_char(from)) {
        1 + space_run_x(s, from + 1)
    } else {
        0
    }
}

/// Index of the first occurrence of `c` at or after `from`, if any.
pub open spec fn find_from(s: Seq<char>, from: int, c: char) -> Option<int>
    decreases s.len() - from when 0 <= from
{
    if !(0 <= from < s.len()) {
        None
    } else if s[from] == c {
        Some(from)
    } else {
        find_from(s, from + 1, c)
    }
}

pub fn find_from_x(s: &str, from: usize, c: char) -> (r: Option<usize>)
    requires
        from <= s@.len(),
    ensures
        match r {
            Some(k) => find_from(s@, from as int, c) == Some(k as int) && from <= k < s@.len(),
            None => find_from(s@, from as int, c).is_none(),
        },
    decreases s@.len() - from,
{
    let n = s.unicode_len();
    if from >= n {
        None
    } else if s.get_char(from) == c {
        Some(from)
    } else {
        find_from_x(s, from + 1, c)
    }
}

/// Position just past an optional `u/<digits>/` path segment at `p`.
pub open spec fn user_seg_end(s: Seq<char>, p: int) -> int {
    if ci_match_at(s, p, "u/"@) {
        let q = p + "u/"@.len();
        let dl = digit_run(s, q);
        if dl > 0 && q + dl < s.len() && s[q + dl] == '/' {
            q + dl + 1
        } else {
            p
        }
    } else {
        p
    }
}

/// Where the canonical document-link pattern matches `s` at `from`,
/// the id's half-open character range. The pattern is an absolute URL:
/// an `http` or `https` scheme, the document host and kind, an optional
/// `u/<digits>/` segment, then `d/` and a nonempty run of id characters.
/// Letters of the fixed part match case-insensitively.
pub open spec fn doc_url_match(s: Seq<char>, from: int) -> Option<(int, int)> {
    let p1 = if ci_match_at(s, from, "https://"@) {
        Some(from + "https://"@.len())
    } else if ci_match_at(s, from, "http://"@) {
        Some(from + "http://"@.len())
    } else {
        None
    };
    match p1 {
        None => None,
        Some(p1) => {
            if ci_match_at(s, p1, "docs.google.com/document/"@) {
                let p2 = p1 + "docs.google.com/document/"@.len();
                let p3 = user_seg_end(s, p2);
                if ci_match_at(s, p3, "d/"@) {
                    let a = p3 + "d/"@.len();
                    let l = id_run(s, a);
                    if l > 0 {
                        Some((a, a + l))
                    } else {
                        None
                    }
                } else {
                    None
                }
            } else {
                None
            }
        },
    }
}

/// Exec form of `user_seg_end`.
fn user_seg_end_x(s: &str, p: usize) -> (r: usize)
    requires
        p <= s@.len(),
    ensures
        r == user_seg_end(s@, p as int),
        p <= r <= s@.len(),
{
    let n = s.unicode_len();
    if ci_match(s, p, "u/") {
        let q = p + "u/".unicode_len();
        let dl = digit_run_x(s, q);
        if dl > 0 && q + dl < n {
            if s.get_char(q + dl) == '/' {
                return q + dl + 1;
            }
        }
        p
    } else {
        p
    }
}

/// Where the document-link pattern matches at `from`, the id's range.
pub fn doc_url_match_x(s: &str, from: usize) -> (r: Option<(usize, usize)>)
    requires
        from <= s@.len(),
    ensures
        match r {
            Some(p) => doc_url_match(s@, from as int) == Some((p.0 as int, p.1 as int))
                && from <= p.0 <= p.1 <= s@.len(),
            None => doc_url_match(s@, from as int).is_none(),
        },
{
    let n = s.unicode_len();
    let p1 = if ci_match(s, from, "https://") {
        from + "https://".unicode_len()
    } else if ci_match(s, from, "http://") {
        from + "http://".unicode_len()
    } else {
        return None;
    };
    if !ci_match(s, p1, "docs.google.com/document/") {
        return None;
    }
    let p2 = p1 + "docs.google.com/document/".unicode_len();
    let p3 = user_seg_end_x(s, p2);
    if !ci_match(s, p3, "d/") {
        return None;
    }
    let a = p3 + "d/".unicode_len();
    let l = id_run_x(s, a);
    if l > 0 {
        Some((a, a + l))
    } else {
        None
    }
}

/// The views of a collected (id, slug) list.
pub open spec fn link_views(v: Seq<(String, String)>) -> Seq<(Seq<char>, Seq<char>)> {
    v.map_values(|p: (String, String)| (p.0@, p.1@))
}

/// The slug recorded for a link: derived from the anchor text, falling
/// back to the raw id when the anchor text slugifies to nothing.
pub open spec fn chosen_slug(anchor: Seq<char>, id: Seq<char>) -> Seq<char> {
    if slugify_spec(anchor).len() == 0 {
        id
    } else {
        slugify_spec(anchor)
    }
}

/// The slug an internal href uses for a target id: the slug already
/// assigned to that id wins — the first assignment is final for the
/// run — and only an id with no assignment yet takes the
/// anchor-derived suggestion.
pub open spec fn href_slug(assigned: Map<Seq<char>, Seq<char>>, anchor: Seq<char>, id: Seq<char>) -> Seq<char> {
    if assigned.contains_key(id) {
        assigned[id]
    } else {
        chosen_slug(anchor, id)
    }
}

/// What rewriting one hyperlink target does against the slugs already
/// assigned: a matching document link becomes the internal path
/// `/p/<slug>/`, where a target that already has an assigned slug keeps
/// it, and the link is recorded with its anchor-derived suggestion;
/// anything else passes through unchanged.
pub open spec fn link_rewrite_spec(url: Seq<char>, anchor: Seq<char>, assigned: Map<Seq<char>, Seq<char>>) -> (Seq<char>, Option<(Seq<char>, Seq<char>)>) {
    match doc_url_match(url, 0) {
        None => (url, None),
        Some(ab) => {
            let id = url.subrange(ab.0, ab.1);
            let sl = href_slug(assigned, anchor, id);
            ("/p/"@ + sl + "/"@, Some((id, chosen_slug(anchor, id))))
        },
    }
}

/// Rewrites a hyperlink target that matches the document-link pattern to
/// the internal `/p/<slug>/` route — the registry's assigned slug for
/// the target where it has one, the anchor-derived suggestion where it
/// has none — and records the discovered link with its suggestion; any
/// other target is returned unchanged.
pub fn maybe_rewrite_google_doc_link_collect(url: &str, link_text: &str, registry: &SlugRegistry, collector: &mut Vec<(String, String)>) -> (href: String)
    requires
        registry.wf(),
    ensures
        href@ == link_rewrite_spec(url@, link_text@, registry.id_map()).0,
        match link_rewrite_spec(url@, link_text@, registry.id_map()).1 {
            None => final(collector)@ == old(collector)@,
            Some(p) => link_views(final(collector)@) == link_views(old(collector)@).push(p),
        },
{
    match doc_url_match_x(url, 0) {
        Some((a, b)) => {
            let id = url.substring_char(a, b).to_owned();
            let mut suggestion = slugify(link_text);
            if suggestion.unicode_len() == 0 {
                suggestion = id.clone();
            }
            let sl = match registry.find_slug(id.as_str()) {
                Some(s) => s,
                None => suggestion.clone(),
            };
            let mut href = String::from_str("/p/");
            href.append(sl.as_str());
            href.append("/");
            collector.push((id, suggestion));
            proof {
                assert(link_views(collector@) =~= link_views(old(collector)@).push(
                    link_rewrite_spec(url@, link_text@, registry.id_map()).1.unwrap()));
            }
            href
        },
        None => String::from_str(url),
    }
}

/// Where a literal markdown link `[text](<document url>)` stands at
/// `from`: the positions (text end, id start, id end, position past the
/// closing parenthesis). The text is nonempty and stops at the first
/// `]`; only whitespace may stand between `(` and the url, which must
/// match the document-link pattern and runs to the first `)`.
pub open spec fn md_match_at(s: Seq<char>, from: int) -> Option<(int, int, int, int)> {
    if !(0 <= from < s.len() && s[from] == '[') {
        None
    } else {
        match find_from(s, from + 1, ']') {
            None => None,
            Some(tb) => {
                if !(from + 1 < tb && tb + 1 < s.len() && s[tb + 1] == '(') {
                    None
                } else {
                    let upos = tb + 2 + space_run(s, tb + 2);
                    match doc_url_match(s, upos) {
                        None => None,
                        Some(ab) => {
                            match find_from(s, upos, ')') {
                                None => None,
                                Some(cp) => Some((tb, ab.0, ab.1, cp + 1)),
                            }
                        },
                    }
                }
            },
        }
    }
}

/// The defensive pass over finished markup: every literal markdown link
/// whose target matches the document-link pattern is rewritten to the
/// internal route exactly as the structured pass would — an assigned
/// slug for the target wins over the anchor-derived one — and recorded
/// with its suggestion, in text order; all other characters pass
/// through unchanged.
pub open spec fn md_rewrite_spec(s: Seq<char>, from: int, assigned: Map<Seq<char>, Seq<char>>) -> (Seq<char>, Seq<(Seq<char>, Seq<char>)>)
    decreases s.len() - from when 0 <= from
{
    if !(0 <= from < s.len()) {
        (Seq::empty(), Seq::empty())
    } else {
        match md_match_at(s, from) {
            Some(m) => {
                let text = s.subrange(from + 1, m.0);
                let id = s.subrange(m.1, m.2);
                let sl = href_slug(assigned, text, id);
                let end = if m.3 <= from || m.3 > s.len() {
                    from + 1
                } else {
                    m.3
                };
                let rest = md_rewrite_spec(s, end, assigned);
                ("["@ + text + "](/p/"@ + sl + "/)"@ + rest.0, seq![(id, chosen_slug(text, id))] + rest.1)
            },
            None => {
                let rest = md_rewrite_spec(s, from + 1, assigned);
                (seq![s[from]] + rest.0, rest.1)
            },
        }
    }
}

/// Exec search for a literal markdown document link at `from`.
fn md_try_match(s: &str, from: usize) -> (r: Option<(usize, usize, usize, usize)>)
    requires
        from <= s@.len(),
    ensures
        match r {
            Some(t) => {
                &&& md_match_at(s@, from as int) == Some((t.0 as int, t.1 as int, t.2 as int, t.3 as int))
                &&& from + 1 < t.0
                &&& t.0 <= t.1 <= t.2 <= s@.len()
                &&& from < t.3 <= s@.len()
            },
            None => md_match_at(s@, from as int).is_none(),
        },
{
    let n = s.unicode_len();
    if from >= n {
        return None;
    }
    if s.get_char(from) != '[' {
        return None;
    }
    let tb = match find_from_x(s, from + 1, ']') {
        None => {
            return None;
        },
        Some(tb) => tb,
    };
    if !(from + 1 < tb) {
        return None;
    }
    if !(tb + 1 < n) {
        return None;
    }
    if s.get_char(tb + 1) != '(' {
        return None;
    }
    let ws = space_run_x(s, tb + 2);
    let upos = tb + 2 + ws;
    let ab = match doc_url_match_x(s, upos) {
        None => {
            return None;
        },
        Some(ab) => ab,
    };
    let cp = match find_from_x(s, upos, ')') {
        None => {
            return None;
        },
        Some(cp) => cp,
    };
    Some((tb, ab.0, ab.1, cp + 1))
}

/// The defensive literal-markup pass: rewrites every remaining markdown
/// link to a matching document url against the slugs already assigned,
/// recording each discovered link with its suggestion.
#[verifier::loop_isolation(false)]
pub fn rewrite_md_google_links(md: &str, registry: &SlugRegistry, collector: &mut Vec<(String, String)>) -> (r: String)
    requires
        registry.wf(),
    ensures
        r@ == md_rewrite_spec(md@, 0, registry.id_map()).0,
        link_views(final(collector)@) == link_views(old(collector)@) + md_rewrite_spec(md@, 0, registry.id_map()).1,
{
    let ghost assigned = registry.id_map();
    let n = md.unicode_len();
    let mut out = String::new();
    let ghost mut acc: Seq<(Seq<char>, Seq<char>)> = Seq::empty();
    let mut i: usize = 0;
    proof {
        assert(out@ + md_rewrite_spec(md@, 0, assigned).0 =~= md_rewrite_spec(md@, 0, assigned).0);
        assert(acc + md_rewrite_spec(md@, 0, assigned).1 =~= md_rewrite_spec(md@, 0, assigned).1);
        assert(link_views(collector@) =~= link_views(old(collector)@) + acc);
    }
    while i < n
        invariant
            i <= n,
            md_rewrite_spec(md@, 0, assigned).0 == out@ + md_rewrite_spec(md@, i as int, assigned).0,
            md_rewrite_spec(md@, 0, assigned).1 == acc + md_rewrite_spec(md@, i as int, assigned).1,
            link_views(collector@) == link_views(old(collector)@) + acc,
        decreases n - i,
    {
        let ghost out0 = out@;
        let ghost acc0 = acc;
        let ghost col0 = collector@;
        match md_try_match(md, i) {
            Some((tb, a, b, end)) => {
                let text = md.substring_char(i + 1, tb).to_owned();
                let id = md.substring_char(a, b).to_owned();
                let mut suggestion = slugify(text.as_str());
                if suggestion.unicode_len() == 0 {
                    suggestion = id.clone();
                }
                let sl = match registry.find_slug(id.as_str()) {
                    Some(s) => s,
                    None => suggestion.clone(),
                };
                out.append("[");
                out.append(text.as_str());
                out.append("](/p/");
                out.append(sl.as_str());
                out.append("/)");
                collector.push((id, suggestion));
                proof {
                    let m = md_match_at(md@, i as int).unwrap();
                    let spec_text = md@.subrange(i as int + 1, m.0);
                    let spec_id = md@.subrange(m.1, m.2);
                    let spec_sl = href_slug(assigned, spec_text, spec_id);
                    let spec_sug = chosen_slug(spec_text, spec_id);
                    assert(text@ == spec_text);
                    assert(sl@ == spec_sl);
                    assert(md_rewrite_spec(md@, i as int, assigned).0
                        == "["@ + spec_text + "](/p/"@ + spec_sl + "/)"@ + md_rewrite_spec(md@, end as int, assigned).0);
                    assert(md_rewrite_spec(md@, i as int, assigned).1
                        == seq![(spec_id, spec_sug)] + md_rewrite_spec(md@, end as int, assigned).1);
                    assert(out@ + md_rewrite_spec(md@, end as int, assigned).0
                        =~= out0 + md_rewrite_spec(md@, i as int, assigned).0);
                    acc = acc0 + seq![(spec_id, spec_sug)];
                    assert(acc + md_rewrite_spec(md@, end as int, assigned).1
                        =~= acc0 + md_rewrite_spec(md@, i as int, assigned).1);
                    assert(link_views(collector@) =~= link_views(col0).push((spec_id, spec_sug)));
                    assert(link_views(collector@) =~= link_views(old(collector)@) + acc);
                }
                i = end;
            },
            None => {
                let ch = md.substring_char(i, i + 1);
                out.append(ch);
                proof {
                    assert(md@.subrange(i as int, i as int + 1) =~= seq![md@[i as int]]);
                    assert(out@ + md_rewrite_spec(md@, i as int + 1, assigned).0
                        =~= out0 + md_rewrite_spec(md@, i as int, assigned).0);
                }
                i = i + 1;
            },
        }
    }
    proof {
        assert(md_rewrite_spec(md@, n as int, assigned).0 =~= Seq::<char>::empty());
        assert(md_rewrite_spec(md@, n as int, assigned).1 =~= Seq::<(Seq<char>, Seq<char>)>::empty());
        assert(out@ =~= md_rewrite_spec(md@, 0, assigned).0);
        assert(acc =~= md_rewrite_spec(md@, 0, assigned).1);
    }
    out
}


} // verus!
