//! Converting a structured document into markdown markup while
//! discovering outbound document links and embedded images, then
//! rendering the markup to HTML.
use vstd::prelude::*;
use vstd::string::StrSliceExecFns;
use vstd::string::StringExecFns;
use crate::text::{is_space_char, str_eq};
use crate::links::{link_rewrite_spec, link_views, md_rewrite_spec, space_run, space_run_x,
    maybe_rewrite_google_doc_link_collect, rewrite_md_google_links};
use crate::registry::SlugRegistry;

verus! {

/// One inline element of a paragraph: a text run with an optional
/// hyperlink target, or a reference to an embedded object.
pub enum Inline {
    TextRun { content: String, link_url: Option<String> },
    ObjectRef { object_id: String },
}

/// One paragraph-equivalent block: an optional bullet marker, an
/// optional named style, and its inline elements in order.
pub struct Paragraph {
    pub bullet: bool,
    pub named_style: Option<String>,
    pub elements: Vec<Inline>,
}

/// A row of the side table mapping an embedded-object id to the
/// resolvable content URI of its image, when it has one.
pub struct InlineObject {
    pub object_id: String,
    pub content_uri: Option<String>,
}

/// The subset of a structured document the converter consumes: its
/// paragraphs in order and the embedded-object side table.
pub struct Document {
    pub paragraphs: Vec<Paragraph>,
    pub objects: Vec<InlineObject>,
}

/// The view of an optional string.
pub open spec fn opt_view(o: Option<String>) -> Option<Seq<char>> {
    match o {
        Some(s) => Some(s@),
        None => None,
    }
}

/// Count of trailing whitespace characters before position `upto`.
pub open spec fn space_run_back(s: Seq<char>, upto: int) -> int
    decreases upto when upto <= s.len()
{
    if 0 < upto <= s.len() && is_space_char(s[upto - 1]) {
        1 + space_run_back(s, upto - 1)
    } else {
        0
    }
}

/// The text with leading and trailing whitespace removed.
pub open spec fn trim_spec(s: Seq<char>) -> Seq<char> {
    let a = space_run(s, 0);
    if a == s.len() {
        Seq::empty()
    } else {
        s.subrange(a, s.len() - space_run_back(s, s.len() as int))
    }
}

proof fn lemma_space_run_stop(s: Seq<char>, from: int)
    requires
        0 <= from <= s.len(),
    ensures
        space_run(s, from) <= s.len() - from,
        from + space_run(s, from) < s.len() ==> !is_space_char(s[from + space_run(s, from)]),
    decreases s.len() - from,
{
    if from < s.len() && is_space_char(s[from]) {
        lemma_space_run_stop(s, from + 1);
    }
}

proof fn lemma_space_run_back_all(s: Seq<char>, upto: int)
    requires
        0 <= upto <= s.len(),
    ensures
        space_run_back(s, upto) <= upto,
        forall|k: int| upto - space_run_back(s, upto) <= k < upto ==> is_space_char(s[k]),
    decreases upto,
{
    if 0 < upto && is_space_char(s[upto - 1]) {
        lemma_space_run_back_all(s, upto - 1);
    }
}

fn space_run_back_x(s: &str, upto: usize) -> (r: usize)
    requires
        upto <= s@.len(),
    ensures
        r == space_run_back(s@, upto as int),
        r <= upto,
{
    proof {
        lemma_space_run_back_all(s@, upto as int);
    }
    let mut u = upto;
    let mut r: usize = 0;
    while u > 0 && crate::text::is_space(s.get_char(u - 1))
        invariant
            u <= upto <= s@.len(),
            r == upto - u,
            space_run_back(s@, upto as int) == r + space_run_back(s@, u as int),
        decreases u,
    {
        u = u - 1;
        r = r + 1;
    }
    proof {
        assert(space_run_back(s@, u as int) == 0);
    }
    r
}

/// Removes leading and trailing whitespace.
pub fn trim(s: &str) -> (r: String)
    ensures
        r@ == trim_spec(s@),
{
    let n = s.unicode_len();
    let a = space_run_x(s, 0);
    if a == n {
        return String::new();
    }
    let back = space_run_back_x(s, n);
    proof {
        lemma_space_run_stop(s@, 0);
        lemma_space_run_back_all(s@, n as int);
        if n - back <= a {
            assert(is_space_char(s@[a as int]));
            assert(false);
        }
    }
    s.substring_char(a, n - back).to_owned()
}

/// The content URI for an embedded-object id, where the side table has
/// one.
pub open spec fn object_uri(objs: Seq<InlineObject>, oid: Seq<char>) -> Option<Seq<char>>
    decreases objs.len(),
{
    if objs.len() == 0 {
        None
    } else if objs[0].object_id@ == oid {
        opt_view(objs[0].content_uri)
    } else {
        object_uri(objs.skip(1), oid)
    }
}

/// Markup and discovered link of one text run: a run without a
/// hyperlink passes through verbatim; one with a hyperlink becomes a
/// markdown link whose anchor is the trimmed text and whose target is
/// the rewritten hyperlink.
pub open spec fn text_run_markup(content: Seq<char>, link: Option<Seq<char>>, assigned: Map<Seq<char>, Seq<char>>) -> (Seq<char>, Seq<(Seq<char>, Seq<char>)>) {
    match link {
        None => (content, Seq::empty()),
        Some(u) => {
            let t = trim_spec(content);
            let hl = link_rewrite_spec(u, t, assigned);
            ("["@ + t + "]("@ + hl.0 + ")"@, match hl.1 {
                None => Seq::empty(),
                Some(p) => seq![p],
            })
        },
    }
}

/// Markup of one embedded-object reference: a standalone image element
/// for its resolved content URI, or nothing when the reference cannot
/// be resolved.
pub open spec fn object_markup(oid: Seq<char>, objs: Seq<InlineObject>) -> Seq<char> {
    if oid.len() == 0 {
        Seq::empty()
    } else {
        match object_uri(objs, oid) {
            None => Seq::empty(),
            Some(uri) => "\n![image]("@ + uri + ")\n"@,
        }
    }
}

/// Markup and discovered links of one inline element.
pub open spec fn inline_markup(el: Inline, objs: Seq<InlineObject>, assigned: Map<Seq<char>, Seq<char>>) -> (Seq<char>, Seq<(Seq<char>, Seq<char>)>) {
    match el {
        Inline::TextRun { content, link_url } => text_run_markup(content@, opt_view(link_url), assigned),
        Inline::ObjectRef { object_id } => (object_markup(object_id@, objs), Seq::empty()),
    }
}

/// Markup and discovered links of a sequence of inline elements.
pub open spec fn elements_markup(els: Seq<Inline>, objs: Seq<InlineObject>, assigned: Map<Seq<char>, Seq<char>>) -> (Seq<char>, Seq<(Seq<char>, Seq<char>)>)
    decreases els.len(),
{
    if els.len() == 0 {
        (Seq::empty(), Seq::empty())
    } else {
        let h = inline_markup(els[0], objs, assigned);
        let r = elements_markup(els.skip(1), objs, assigned);
        (h.0 + r.0, h.1 + r.1)
    }
}

/// The markdown prefix a paragraph's kind calls for: a bullet marker, a
/// heading marker of depth one to three, or nothing. An unrecognized
/// style degrades to a plain paragraph.
pub open spec fn paragraph_prefix_spec(p: Paragraph) -> Seq<char> {
    if p.bullet {
        "* "@
    } else {
        match p.named_style {
            Some(st) => if st@ == "HEADING_1"@ {
                "# "@
            } else if st@ == "HEADING_2"@ {
                "## "@
            } else if st@ == "HEADING_3"@ {
                "### "@
            } else {
                Seq::empty()
            },
            None => Seq::empty(),
        }
    }
}

/// Markup and discovered links of one paragraph: its prefix, its inline
/// elements in order, and a closing newline.
pub open spec fn paragraph_markup(p: Paragraph, objs: Seq<InlineObject>, assigned: Map<Seq<char>, Seq<char>>) -> (Seq<char>, Seq<(Seq<char>, Seq<char>)>) {
    let e = elements_markup(p.elements@, objs, assigned);
    (paragraph_prefix_spec(p) + e.0 + "\n"@, e.1)
}

/// Markup and discovered links of a whole document, paragraph by
/// paragraph in document order.
pub open spec fn document_markup_spec(paras: Seq<Paragraph>, objs: Seq<InlineObject>, assigned: Map<Seq<char>, Seq<char>>) -> (Seq<char>, Seq<(Seq<char>, Seq<char>)>)
    decreases paras.len(),
{
    if paras.len() == 0 {
        (Seq::empty(), Seq::empty())
    } else {
        let h = paragraph_markup(paras[0], objs, assigned);
        let r = document_markup_spec(paras.skip(1), objs, assigned);
        (h.0 + r.0, h.1 + r.1)
    }
}

/// The markdown prefix of a paragraph.
pub fn get_paragraph_prefix(par: &Paragraph) -> (r: String)
    ensures
        r@ == paragraph_prefix_spec(*par),
{
    if par.bullet {
        return String::from_str("* ");
    }
    match &par.named_style {
        Some(st) => {
            if str_eq(st.as_str(), "HEADING_1") {
                String::from_str("# ")
            } else if str_eq(st.as_str(), "HEADING_2") {
                String::from_str("## ")
            } else if str_eq(st.as_str(), "HEADING_3") {
                String::from_str("### ")
            } else {
                String::new()
            }
        },
        None => String::new(),
    }
}

/// Emits one text run: verbatim, or as a markdown link with a rewritten
/// target when the run carries a hyperlink.
pub fn process_text_run(content: &str, link_url: &Option<String>, registry: &SlugRegistry, out: &mut String, link_collector: &mut Vec<(String, String)>)
    requires
        registry.wf(),
    ensures
        final(out)@ == old(out)@ + text_run_markup(content@, opt_view(*link_url), registry.id_map()).0,
        ({
            let l = text_run_markup(content@, opt_view(*link_url), registry.id_map()).1;
            link_views(final(link_collector)@) == link_views(old(link_collector)@) + l
        }),
{
    let ghost assigned = registry.id_map();
    match link_url {
        None => {
            out.append(content);
            proof {
                assert(link_views(link_collector@) =~= link_views(old(link_collector)@)
                    + text_run_markup(content@, opt_view(*link_url), assigned).1);
            }
        },
        Some(url) => {
            let t = trim(content);
            let href = maybe_rewrite_google_doc_link_collect(url.as_str(), t.as_str(), registry, link_collector);
            out.append("[");
            out.append(t.as_str());
            out.append("](");
            out.append(href.as_str());
            out.append(")");
            proof {
                assert(out@ =~= old(out)@ + text_run_markup(content@, opt_view(*link_url), assigned).0);
                match link_rewrite_spec(url@, t@, assigned).1 {
                    None => {
                        assert(link_views(link_collector@) =~= link_views(old(link_collector)@)
                            + text_run_markup(content@, opt_view(*link_url), assigned).1);
                    },
                    Some(p) => {
                        assert(link_views(old(link_collector)@).push(p)
                            =~= link_views(old(link_collector)@) + seq![p]);
                    },
                }
            }
        },
    }
}

/// Emits one embedded-object reference as a standalone image element,
/// when the side table resolves it to a content URI.
pub fn process_inline_object(object_id: &str, objects: &Vec<InlineObject>, out: &mut String)
    ensures
        final(out)@ == old(out)@ + object_markup(object_id@, objects@),
{
    if object_id.unicode_len() == 0 {
        proof {
            assert(out@ =~= old(out)@ + object_markup(object_id@, objects@));
        }
        return;
    }
    let n = objects.len();
    let mut i: usize = 0;
    proof {
        assert(objects@.skip(0) =~= objects@);
    }
    while i < n
        invariant
            n == objects@.len(),
            i <= n,
            object_id@.len() > 0,
            out@ == old(out)@,
            object_uri(objects@, object_id@) == object_uri(objects@.skip(i as int), object_id@),
        decreases n - i,
    {
        proof {
            assert(objects@.skip(i as int)[0] == objects@[i as int]);
            assert(objects@.skip(i as int).skip(1) =~= objects@.skip(i as int + 1));
        }
        if str_eq(objects[i].object_id.as_str(), object_id) {
            match &objects[i].content_uri {
                Some(uri) => {
                    out.append("\n![image](");
                    out.append(uri.as_str());
                    out.append(")\n");
                    proof {
                        assert(out@ =~= old(out)@ + object_markup(object_id@, objects@));
                    }
                },
                None => {
                },
            }
            proof {
                assert(out@ =~= old(out)@ + object_markup(object_id@, objects@));
            }
            return;
        }
        i = i + 1;
    }
    proof {
        assert(objects@.skip(n as int) =~= Seq::<InlineObject>::empty());
        assert(out@ =~= old(out)@ + object_markup(object_id@, objects@));
    }
}

/// Emits one paragraph: its prefix, each inline element in order, and a
/// closing newline, collecting discovered links.
#[verifier::loop_isolation(false)]
pub fn process_paragraph(par: &Paragraph, objects: &Vec<InlineObject>, registry: &SlugRegistry, out: &mut String, link_collector: &mut Vec<(String, String)>)
    requires
        registry.wf(),
    ensures
        final(out)@ == old(out)@ + paragraph_markup(*par, objects@, registry.id_map()).0,
        link_views(final(link_collector)@) == link_views(old(link_collector)@) + paragraph_markup(*par, objects@, registry.id_map()).1,
{
    let ghost assigned = registry.id_map();
    let prefix = get_paragraph_prefix(par);
    out.append(prefix.as_str());
    let n = par.elements.len();
    let ghost els = par.elements@;
    let ghost emitted0 = out@;
    let ghost mut acc: Seq<(Seq<char>, Seq<char>)> = Seq::empty();
    let ghost mut done: Seq<char> = Seq::empty();
    proof {
        assert(els.skip(0) =~= els);
        assert(elements_markup(els, objects@, assigned).0 =~= done + elements_markup(els.skip(0), objects@, assigned).0);
        assert(elements_markup(els, objects@, assigned).1 =~= acc + elements_markup(els.skip(0), objects@, assigned).1);
        assert(out@ =~= emitted0 + done);
        assert(link_views(link_collector@) =~= link_views(old(link_collector)@) + acc);
    }
    let mut i: usize = 0;
    while i < n
        invariant
            i <= n,
            out@ == emitted0 + done,
            elements_markup(els, objects@, assigned).0 == done + elements_markup(els.skip(i as int), objects@, assigned).0,
            elements_markup(els, objects@, assigned).1 == acc + elements_markup(els.skip(i as int), objects@, assigned).1,
            link_views(link_collector@) == link_views(old(link_collector)@) + acc,
        decreases n - i,
    {
        let ghost acc0 = acc;
        let ghost done0 = done;
        proof {
            assert(els.skip(i as int)[0] == els[i as int]);
            assert(els.skip(i as int).skip(1) =~= els.skip(i as int + 1));
        }
        match &par.elements[i] {
            Inline::TextRun { content, link_url } => {
                process_text_run(content.as_str(), link_url, registry, out, link_collector);
            },
            Inline::ObjectRef { object_id } => {
                process_inline_object(object_id.as_str(), objects, out);
            },
        }
        proof {
            let step = inline_markup(els[i as int], objects@, assigned);
            done = done0 + step.0;
            acc = acc0 + step.1;
            assert(out@ =~= emitted0 + done);
            assert(elements_markup(els, objects@, assigned).0
                =~= done + elements_markup(els.skip(i as int + 1), objects@, assigned).0);
            assert(elements_markup(els, objects@, assigned).1
                =~= acc + elements_markup(els.skip(i as int + 1), objects@, assigned).1);
            assert(link_views(link_collector@) =~= link_views(old(link_collector)@) + acc);
        }
        i = i + 1;
    }
    out.append("\n");
    proof {
        assert(els.skip(n as int) =~= Seq::<Inline>::empty());
        assert(elements_markup(els, objects@, assigned).0 =~= done);
        assert(elements_markup(els, objects@, assigned).1 =~= acc);
        assert(out@ =~= old(out)@ + paragraph_markup(*par, objects@, assigned).0);
    }
}


/// Builds the whole document's markdown and the links found by the
/// structured pass, paragraph by paragraph.
#[verifier::loop_isolation(false)]
pub fn document_markup(doc: &Document, registry: &SlugRegistry) -> (r: (String, Vec<(String, String)>))
    requires
        registry.wf(),
    ensures
        r.0@ == document_markup_spec(doc.paragraphs@, doc.objects@, registry.id_map()).0,
        link_views(r.1@) == document_markup_spec(doc.paragraphs@, doc.objects@, registry.id_map()).1,
{
    let ghost assigned = registry.id_map();
    let mut out = String::new();
    let mut links: Vec<(String, String)> = Vec::new();
    let ghost paras = doc.paragraphs@;
    let ghost mut acc: Seq<(Seq<char>, Seq<char>)> = Seq::empty();
    let ghost mut done: Seq<char> = Seq::empty();
    proof {
        assert(paras.skip(0) =~= paras);
        assert(document_markup_spec(paras, doc.objects@, assigned).0 =~= done + document_markup_spec(paras.skip(0), doc.objects@, assigned).0);
        assert(document_markup_spec(paras, doc.objects@, assigned).1 =~= acc + document_markup_spec(paras.skip(0), doc.objects@, assigned).1);
        assert(out@ =~= done);
        assert(link_views(links@) =~= acc);
    }
    let n = doc.paragraphs.len();
    let mut i: usize = 0;
    while i < n
        invariant
            i <= n,
            out@ == done,
            link_views(links@) == acc,
            document_markup_spec(paras, doc.objects@, assigned).0 == done + document_markup_spec(paras.skip(i as int), doc.objects@, assigned).0,
            document_markup_spec(paras, doc.objects@, assigned).1 == acc + document_markup_spec(paras.skip(i as int), doc.objects@, assigned).1,
        decreases n - i,
    {
        let ghost done0 = done;
        let ghost acc0 = acc;
        proof {
            assert(paras.skip(i as int)[0] == paras[i as int]);
            assert(paras.skip(i as int).skip(1) =~= paras.skip(i as int + 1));
        }
        process_paragraph(&doc.paragraphs[i], &doc.objects, registry, &mut out, &mut links);
        proof {
            let step = paragraph_markup(paras[i as int], doc.objects@, assigned);
            done = done0 + step.0;
            acc = acc0 + step.1;
            assert(out@ =~= done);
            assert(link_views(links@) =~= acc);
            assert(document_markup_spec(paras, doc.objects@, assigned).0
                =~= done + document_markup_spec(paras.skip(i as int + 1), doc.objects@, assigned).0);
            assert(document_markup_spec(paras, doc.objects@, assigned).1
                =~= acc + document_markup_spec(paras.skip(i as int + 1), doc.objects@, assigned).1);
        }
        i = i + 1;
    }
    proof {
        assert(paras.skip(n as int) =~= Seq::<Paragraph>::empty());
        assert(out@ =~= document_markup_spec(paras, doc.objects@, assigned).0);
        assert(link_views(links@) =~= document_markup_spec(paras, doc.objects@, assigned).1);
    }
    (out, links)
}

/// What the markdown renderer returns for a given markdown text. The
/// result is a function of the text alone.
pub uninterp spec fn html_of(md: Seq<char>) -> Seq<char>;

/// Relies on pulldown_cmark: `Parser::new_ext` with tables and
/// footnotes enabled, rendered by `html::push_html` into an empty
/// string. The HTML produced depends on the markdown text alone.
#[verifier::external_body]
fn markdown_to_html(md: &str) -> (r: String)
    ensures
        r@ == html_of(md@),
{
    let mut options = pulldown_cmark::Options::empty();
    options.insert(pulldown_cmark::Options::ENABLE_TABLES);
    options.insert(pulldown_cmark::Options::ENABLE_FOOTNOTES);
    let parser = pulldown_cmark::Parser::new_ext(md, options);
    let mut html_out = String::new();
    pulldown_cmark::html::push_html(&mut html_out, parser);
    html_out
}

/// The document's markdown after both link passes: the structured pass
/// over its paragraphs, then the defensive literal pass over the full
/// markup.
pub open spec fn converted_markup(doc: Document, assigned: Map<Seq<char>, Seq<char>>) -> Seq<char> {
    md_rewrite_spec(document_markup_spec(doc.paragraphs@, doc.objects@, assigned).0, 0, assigned).0
}

/// Every link the conversion of `doc` discovers: those of the
/// structured pass, then those of the defensive pass, in order.
pub open spec fn converted_links(doc: Document, assigned: Map<Seq<char>, Seq<char>>) -> Seq<(Seq<char>, Seq<char>)> {
    document_markup_spec(doc.paragraphs@, doc.objects@, assigned).1
        + md_rewrite_spec(document_markup_spec(doc.paragraphs@, doc.objects@, assigned).0, 0, assigned).1
}

/// Converts a document to HTML, collecting every discovered document
/// link as an (id, suggested slug) pair.
pub fn document_to_html_with_links(doc: &Document, registry: &SlugRegistry) -> (r: (String, Vec<(String, String)>))
    requires
        registry.wf(),
    ensures
        r.0@ == html_of(converted_markup(*doc, registry.id_map())),
        link_views(r.1@) == converted_links(*doc, registry.id_map()),
{
    let (md, mut links) = document_markup(doc, registry);
    let md2 = rewrite_md_google_links(md.as_str(), registry, &mut links);
    let html = markdown_to_html(md2.as_str());
    (html, links)
}

/// Converts a document to HTML, dropping the discovered links.
pub fn document_to_html(doc: &Document, registry: &SlugRegistry) -> (r: String)
    requires
        registry.wf(),
    ensures
        r@ == html_of(converted_markup(*doc, registry.id_map())),
{
    let (html, _links) = document_to_html_with_links(doc, registry);
    html
}


/// One document's full page pipeline: build the markup, run both link
/// passes, localize every image against the store and fetch cache,
/// and render the result to HTML. Returns the HTML, the discovered
/// links, and the files the localization wants written.
pub fn render_document(doc: &Document, registry: &SlugRegistry, store: &mut crate::assets::AssetStore, cache: &crate::assets::UrlCache)
    -> (r: (String, Vec<(String, String)>, Vec<(String, Vec<u8>)>))
    requires
        registry.wf(),
        cache.wf(),
    ensures
        ({
            let l = crate::assets::localize_spec(converted_markup(*doc, registry.id_map()), 0, old(store).names_seq(), cache.map());
            &&& r.0@ == html_of(l.0)
            &&& link_views(r.1@) == converted_links(*doc, registry.id_map())
            &&& final(store).names_seq() == l.1
            &&& crate::assets::write_views(r.2@) == l.2
        }),
{
    let (md, mut links) = document_markup(doc, registry);
    let md2 = rewrite_md_google_links(md.as_str(), registry, &mut links);
    let (md3, writes) = crate::assets::localize_images(md2.as_str(), store, cache);
    let html = markdown_to_html(md3.as_str());
    (html, links, writes)
}

} // verus!
