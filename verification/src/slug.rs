//! Deriving URL-safe slugs from text: lowercase ASCII alphanumerics with
//! runs of everything else collapsed to single interior dashes.
use vstd::prelude::*;
use vstd::string::StrSliceExecFns;
use crate::text::{is_alnum_char, is_alnum, lower_char, to_lower, chars_to_string};

verus! {

/// A character that may appear in a slug.
pub open spec fn is_slug_char(c: char) -> bool {
    crate::text::is_digit_char(c) || crate::text::is_lower_char(c) || c == '-'
}

/// One left-to-right pass: keep alphanumerics (lowercased), collapse every
/// run of other characters to a single dash. `last_dash` says whether the
/// previous emitted character was a dash (or we are at the start).
pub open spec fn slug_collapse(s: Seq<char>, last_dash: bool) -> Seq<char>
    decreases s.len(),
{
    if s.len() == 0 {
        Seq::empty()
    } else if is_alnum_char(s[0]) {
        seq![lower_char(s[0])] + slug_collapse(s.skip(1), false)
    } else if last_dash {
        slug_collapse(s.skip(1), true)
    } else {
        seq!['-'] + slug_collapse(s.skip(1), true)
    }
}

/// The slug of a text: the collapsed pass with a trailing dash, if any,
/// removed. Starting the pass with `last_dash` set means no leading dash
/// is ever emitted.
pub open spec fn slugify_spec(s: Seq<char>) -> Seq<char> {
    let t = slug_collapse(s, true);
    if t.len() > 0 && t.last() == '-' {
        t.drop_last()
    } else {
        t
    }
}

/// Lowercases a text and collapses every run of non-alphanumeric
/// characters into a single dash, with no dash at either end. An empty
/// result is possible; callers fall back to another base then.
pub fn slugify(s: &str) -> (r: String)
    ensures
        r@ == slugify_spec(s@),
{
    let n = s.unicode_len();
    let mut out: Vec<char> = Vec::new();
    let mut last_dash = true;
    let mut i: usize = 0;
    proof {
        assert(s@.skip(0) =~= s@);
        assert(out@ + slug_collapse(s@, true) =~= slug_collapse(s@, true));
    }
    while i < n
        invariant
            n == s@.len(),
            i <= n,
            slug_collapse(s@, true) == out@ + slug_collapse(s@.skip(i as int), last_dash),
        decreases n - i,
    {
        let c = s.get_char(i);
        proof {
            assert(s@.skip(i as int)[0] == s@[i as int]);
            assert(s@.skip(i as int).skip(1) =~= s@.skip(i as int + 1));
        }
        if is_alnum(c) {
            let l = to_lower(c);
            out.push(l);
            proof {
                assert(out@ + slug_collapse(s@.skip(i as int + 1), false)
                    =~= without_last(out@, 1) + (seq![lower_char(c)] + slug_collapse(s@.skip(i as int + 1), false)));
            }
            last_dash = false;
        } else if !last_dash {
            out.push('-');
            proof {
                assert(out@ + slug_collapse(s@.skip(i as int + 1), true)
                    =~= without_last(out@, 1) + (seq!['-'] + slug_collapse(s@.skip(i as int + 1), true)));
            }
            last_dash = true;
        }
        i = i + 1;
    }
    proof {
        assert(s@.skip(n as int) =~= Seq::<char>::empty());
        assert(out@ + slug_collapse(s@.skip(n as int), last_dash) =~= out@);
    }
    if out.len() > 0 && out[out.len() - 1] == '-' {
        out.pop();
    }
    chars_to_string(&out)
}

/// The sequence without its last `k` elements.
spec fn without_last(s: Seq<char>, k: int) -> Seq<char> {
    s.take(s.len() - k)
}

/// Only slug characters appear in `s`.
pub open spec fn all_slug_chars(s: Seq<char>) -> bool {
    forall|k: int| 0 <= k < s.len() ==> is_slug_char(#[trigger] s[k])
}

/// No two dashes stand next to each other in `s`.
pub open spec fn no_adjacent_dashes(s: Seq<char>) -> bool {
    forall|k: int| 0 <= k < s.len() - 1 ==> !((#[trigger] s[k]) == '-' && s[k + 1] == '-')
}

/// Shape of a collapsed pass: only slug characters, no two adjacent
/// dashes, and (when the pass starts as if after a dash) no leading dash.
proof fn lemma_collapse_wf(s: Seq<char>, last_dash: bool)
    ensures
        all_slug_chars(slug_collapse(s, last_dash)),
        no_adjacent_dashes(slug_collapse(s, last_dash)),
        last_dash && slug_collapse(s, last_dash).len() > 0 ==> slug_collapse(s, last_dash)[0] != '-',
    decreases s.len(),
{
    if s.len() == 0 {
    } else if is_alnum_char(s[0]) {
        lemma_collapse_wf(s.skip(1), false);
        let rest = slug_collapse(s.skip(1), false);
        let whole = seq![lower_char(s[0])] + rest;
        assert forall|k: int| 0 <= k < whole.len() implies is_slug_char(#[trigger] whole[k]) by {
            if k > 0 {
                assert(whole[k] == rest[k - 1]);
            }
        }
        assert(all_slug_chars(whole));
        assert forall|k: int| 0 <= k < whole.len() - 1 implies !((#[trigger] whole[k]) == '-' && whole[k + 1] == '-') by {
            if k == 0 {
                assert(whole[0] == lower_char(s[0]));
            } else {
                assert(whole[k] == rest[k - 1]);
                assert(whole[k + 1] == rest[k]);
            }
        }
        assert(no_adjacent_dashes(whole));
    } else if last_dash {
        lemma_collapse_wf(s.skip(1), true);
    } else {
        lemma_collapse_wf(s.skip(1), true);
        let rest = slug_collapse(s.skip(1), true);
        let whole = seq!['-'] + rest;
        assert forall|k: int| 0 <= k < whole.len() implies is_slug_char(#[trigger] whole[k]) by {
            if k > 0 {
                assert(whole[k] == rest[k - 1]);
            }
        }
        assert(all_slug_chars(whole));
        assert forall|k: int| 0 <= k < whole.len() - 1 implies !((#[trigger] whole[k]) == '-' && whole[k + 1] == '-') by {
            if k == 0 {
                if rest.len() > 0 {
                    assert(whole[1] == rest[0]);
                    assert(rest[0] != '-');
                }
            } else {
                assert(whole[k] == rest[k - 1]);
                assert(whole[k + 1] == rest[k]);
            }
        }
        assert(no_adjacent_dashes(whole));
    }
}

/// A text that already has slug shape passes through the collapse
/// unchanged.
proof fn lemma_collapse_clean(s: Seq<char>, last_dash: bool)
    requires
        all_slug_chars(s),
        no_adjacent_dashes(s),
        last_dash && s.len() > 0 ==> s[0] != '-',
    ensures
        slug_collapse(s, last_dash) == s,
    decreases s.len(),
{
    if s.len() == 0 {
        assert(slug_collapse(s, last_dash) =~= s);
    } else if is_alnum_char(s[0]) {
        assert forall|k: int| 0 <= k < s.skip(1).len() implies is_slug_char(#[trigger] s.skip(1)[k]) by {
            assert(s.skip(1)[k] == s[k + 1]);
        }
        assert(all_slug_chars(s.skip(1)));
        assert forall|k: int| 0 <= k < s.skip(1).len() - 1 implies !((#[trigger] s.skip(1)[k]) == '-' && s.skip(1)[k + 1] == '-') by {
            assert(s.skip(1)[k] == s[k + 1]);
            assert(s.skip(1)[k + 1] == s[k + 2]);
        }
        assert(no_adjacent_dashes(s.skip(1)));
        lemma_collapse_clean(s.skip(1), false);
        assert(lower_char(s[0]) == s[0]);
        assert(slug_collapse(s, last_dash) =~= s);
    } else {
        // s[0] must be a dash, and last_dash must be false.
        assert(is_slug_char(s[0]));
        assert(s[0] == '-');
        assert(!last_dash);
        assert forall|k: int| 0 <= k < s.skip(1).len() implies is_slug_char(#[trigger] s.skip(1)[k]) by {
            assert(s.skip(1)[k] == s[k + 1]);
        }
        assert(all_slug_chars(s.skip(1)));
        assert forall|k: int| 0 <= k < s.skip(1).len() - 1 implies !((#[trigger] s.skip(1)[k]) == '-' && s.skip(1)[k + 1] == '-') by {
            assert(s.skip(1)[k] == s[k + 1]);
            assert(s.skip(1)[k + 1] == s[k + 2]);
        }
        assert(no_adjacent_dashes(s.skip(1)));
        if s.skip(1).len() > 0 {
            assert(s.skip(1)[0] == s[1]);
            assert(!(s[0] == '-' && s[1] == '-'));
        }
        lemma_collapse_clean(s.skip(1), true);
        assert(slug_collapse(s, last_dash) =~= s);
    }
}

/// The slug of a text contains only lowercase alphanumerics and single
/// interior dashes, with no dash at either end.
pub proof fn lemma_slugify_chars(s: Seq<char>)
    ensures
        all_slug_chars(slugify_spec(s)),
        no_adjacent_dashes(slugify_spec(s)),
        slugify_spec(s).len() > 0 ==> slugify_spec(s)[0] != '-',
        slugify_spec(s).len() > 0 ==> slugify_spec(s).last() != '-',
{
    lemma_collapse_wf(s, true);
    let t = slug_collapse(s, true);
    let r = slugify_spec(s);
    if t.len() > 0 && t.last() == '-' {
        assert(r == t.drop_last());
        assert forall|k: int| 0 <= k < r.len() implies is_slug_char(#[trigger] r[k]) by {
            assert(r[k] == t[k]);
        }
        if r.len() > 0 {
            assert(r.last() == t[t.len() - 2]);
            assert(!(t[t.len() - 2] == '-' && t[t.len() - 1] == '-'));
        }
    }
}

/// Slugifying is idempotent: the slug of a slug is itself.
pub proof fn lemma_slugify_idempotent(s: Seq<char>)
    ensures
        slugify_spec(slugify_spec(s)) == slugify_spec(s),
{
    lemma_slugify_chars(s);
    let r = slugify_spec(s);
    assert forall|k: int| 0 <= k < r.len() implies is_slug_char(#[trigger] r[k]) by {}
    lemma_collapse_clean(r, true);
    assert(slug_collapse(r, true) == r);
    if r.len() > 0 {
        assert(r.last() != '-');
    }
    assert(slugify_spec(r) == r);
}

} // verus!
