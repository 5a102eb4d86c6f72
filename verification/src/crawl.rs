//! The breadth-first crawl over the document graph: a FIFO frontier of
//! (document id, slug hint) pairs, the slug registry, and the set of
//! ids already visited. A document id is enqueued at most once —
//! checked against the registry before enqueue — so every reachable id
//! is visited exactly once even when the link graph has cycles.
use vstd::prelude::*;
use vstd::string::StrSliceExecFns;
use vstd::string::StringExecFns;
use crate::text::str_eq;
use crate::registry::{SlugRegistry, is_least_free};
use crate::convert::{opt_view, converted_links, converted_markup, Document};
use crate::links::link_views;

verus! {

/// The sequence of ids a run over `links` enqueues, given the ids
/// already known: each link target not yet known, once, in link order.
pub open spec fn enqueue_ids(known: Set<Seq<char>>, root: Seq<char>, links: Seq<(Seq<char>, Seq<char>)>) -> Seq<Seq<char>>
    decreases links.len(),
{
    if links.len() == 0 {
        Seq::empty()
    } else {
        let id = links[0].0;
        if id == root || known.contains(id) {
            enqueue_ids(known, root, links.skip(1))
        } else {
            seq![id] + enqueue_ids(known.insert(id), root, links.skip(1))
        }
    }
}

/// Drives the crawl: owns the frontier, the slug registry and the set
/// of visited ids.
pub struct Crawler {
    root_id: String,
    frontier: Vec<(String, Option<String>)>,
    registry: SlugRegistry,
    visited: Ghost<Set<Seq<char>>>,
}

impl Crawler {
    /// The root document's id.
    pub closed spec fn root(&self) -> Seq<char> {
        self.root_id@
    }

    /// The frontier's (id, hint) pairs, front first.
    pub closed spec fn frontier_view(&self) -> Seq<(Seq<char>, Option<Seq<char>>)> {
        self.frontier@.map_values(|p: (String, Option<String>)| (p.0@, opt_view(p.1)))
    }

    /// The id -> slug assignments made so far.
    pub closed spec fn id_map(&self) -> Map<Seq<char>, Seq<char>> {
        self.registry.id_map()
    }

    /// The slugs handed out so far.
    pub closed spec fn used(&self) -> Set<Seq<char>> {
        self.registry.used()
    }

    /// The ids already popped from the frontier.
    pub closed spec fn visited_set(&self) -> Set<Seq<char>> {
        self.visited@
    }

    /// An id the crawl already knows: the root, or one with an
    /// assigned slug. Such an id is never enqueued again.
    pub open spec fn seen(&self, id: Seq<char>) -> bool {
        id == self.root() || self.id_map().contains_key(id)
    }

    /// The crawl's invariant: the registry is well formed, frontier
    /// ids are distinct, every frontier id is seen and not yet
    /// visited, and every visited id is seen.
    pub closed spec fn wf(&self) -> bool {
        let fv = self.frontier_view();
        &&& self.registry.wf()
        &&& (forall|a: int, b: int| #![trigger fv[a], fv[b]] 0 <= a < b < fv.len() ==> fv[a].0 != fv[b].0)
        &&& (forall|k: int| 0 <= k < fv.len() ==> self.seen((#[trigger] fv[k]).0))
        &&& (forall|k: int| 0 <= k < fv.len() ==> !self.visited_set().contains((#[trigger] fv[k]).0))
        &&& (forall|x: Seq<char>| self.visited_set().contains(x) ==> self.seen(x))
    }

    /// A crawl starting at the root: the frontier holds the root alone,
    /// with no hint; nothing is assigned or visited yet.
    pub fn new(root_id: String) -> (r: Self)
        ensures
            r.wf(),
            r.root() == root_id@,
            r.frontier_view() == seq![(root_id@, None::<Seq<char>>)],
            r.id_map() == Map::<Seq<char>, Seq<char>>::empty(),
            r.used() == Set::<Seq<char>>::empty(),
            r.visited_set() == Set::<Seq<char>>::empty(),
    {
        let mut frontier: Vec<(String, Option<String>)> = Vec::new();
        frontier.push((root_id.clone(), None));
        let r = Crawler {
            root_id,
            frontier,
            registry: SlugRegistry::new(),
            visited: Ghost(Set::empty()),
        };
        proof {
            assert(r.frontier_view() =~= seq![(r.root_id@, None::<Seq<char>>)]);
        }
        r
    }

    /// Takes the next pending (id, hint) pair off the frontier. The id
    /// handed out was never visited before and is marked visited now:
    /// over a whole run, each reachable document id is yielded exactly
    /// once, cycles notwithstanding.
    pub fn pop_next(&mut self) -> (r: Option<(String, Option<String>)>)
        requires
            old(self).wf(),
        ensures
            final(self).wf(),
            final(self).root() == old(self).root(),
            final(self).id_map() == old(self).id_map(),
            final(self).used() == old(self).used(),
            old(self).visited_set().subset_of(final(self).visited_set()),
            old(self).frontier_view().len() == 0 ==> {
                &&& r.is_none()
                &&& final(self).frontier_view() == old(self).frontier_view()
                &&& final(self).visited_set() == old(self).visited_set()
            },
            old(self).frontier_view().len() > 0 ==> {
                &&& r.is_some()
                &&& (r.unwrap().0@, opt_view(r.unwrap().1)) == old(self).frontier_view()[0]
                &&& final(self).frontier_view() == old(self).frontier_view().skip(1)
                &&& !old(self).visited_set().contains(r.unwrap().0@)
                &&& final(self).visited_set() == old(self).visited_set().insert(r.unwrap().0@)
            },
    {
        if self.frontier.len() == 0 {
            return None;
        }
        let it = self.frontier.remove(0);
        proof {
            assert(old(self).frontier_view()[0] == (it.0@, opt_view(it.1)));
            assert(self.frontier_view() =~= old(self).frontier_view().skip(1));
            self.visited@ = self.visited@.insert(it.0@);
            assert forall|k: int| 0 <= k < self.frontier_view().len()
                implies !self.visited_set().contains((#[trigger] self.frontier_view()[k]).0) by {
                assert(self.frontier_view()[k] == old(self).frontier_view()[k + 1]);
                assert(old(self).frontier_view()[k + 1].0 != old(self).frontier_view()[0].0);
            }
            assert forall|k: int| 0 <= k < self.frontier_view().len()
                implies self.seen((#[trigger] self.frontier_view()[k]).0) by {
                assert(self.frontier_view()[k] == old(self).frontier_view()[k + 1]);
                assert(old(self).seen(old(self).frontier_view()[k + 1].0));
            }
            let fv = self.frontier_view();
            assert forall|a: int, b: int| #![trigger fv[a], fv[b]] 0 <= a < b < fv.len()
                implies fv[a].0 != fv[b].0 by {
                assert(fv[a] == old(self).frontier_view()[a + 1]);
                assert(fv[b] == old(self).frontier_view()[b + 1]);
            }
            assert forall|x: Seq<char>| self.visited_set().contains(x) implies self.seen(x) by {
                if x != it.0@ {
                    assert(old(self).visited_set().contains(x));
                    assert(old(self).seen(x));
                } else {
                    assert(old(self).seen(old(self).frontier_view()[0].0));
                }
            }
        }
        Some(it)
    }

    /// Enqueues a discovered link target: an id already seen is left
    /// alone (the first assignment was final); a new id gets its slug
    /// reserved from `base_slug` immediately, so the slug is stable
    /// before the page is ever generated, and joins the frontier with
    /// that slug as its hint.
    pub fn try_enqueue(&mut self, id: &str, base_slug: &str) -> (r: bool)
        requires
            old(self).wf(),
        ensures
            final(self).wf(),
            final(self).root() == old(self).root(),
            final(self).visited_set() == old(self).visited_set(),
            old(self).seen(id@) ==> {
                &&& !r
                &&& final(self).frontier_view() == old(self).frontier_view()
                &&& final(self).id_map() == old(self).id_map()
                &&& final(self).used() == old(self).used()
            },
            !old(self).seen(id@) ==> {
                &&& r
                &&& final(self).id_map().contains_key(id@)
                &&& is_least_free(old(self).used(), base_slug@, final(self).id_map()[id@])
                &&& final(self).id_map() == old(self).id_map().insert(id@, final(self).id_map()[id@])
                &&& final(self).used() == old(self).used().insert(final(self).id_map()[id@])
                &&& final(self).frontier_view() == old(self).frontier_view().push(
                    (id@, Some(final(self).id_map()[id@])))
            },
    {
        if str_eq(id, self.root_id.as_str()) {
            return false;
        }
        if self.registry.find_slug(id).is_some() {
            return false;
        }
        let slug = self.registry.reserve(id, base_slug);
        self.frontier.push((String::from_str(id), Some(slug)));
        proof {
            let fv = self.frontier_view();
            let ov = old(self).frontier_view();
            assert(fv =~= ov.push((id@, Some(self.id_map()[id@]))));
            assert forall|a: int, b: int| #![trigger fv[a], fv[b]] 0 <= a < b < fv.len()
                implies fv[a].0 != fv[b].0 by {
                if b == fv.len() - 1 {
                    assert(fv[a] == ov[a]);
                    assert(old(self).seen(ov[a].0));
                } else {
                    assert(fv[a] == ov[a]);
                    assert(fv[b] == ov[b]);
                }
            }
            assert forall|k: int| 0 <= k < fv.len() implies self.seen((#[trigger] fv[k]).0) by {
                if k < fv.len() - 1 {
                    assert(fv[k] == ov[k]);
                    assert(old(self).seen(ov[k].0));
                }
            }
            assert forall|k: int| 0 <= k < fv.len()
                implies !self.visited_set().contains((#[trigger] fv[k]).0) by {
                if k < fv.len() - 1 {
                    assert(fv[k] == ov[k]);
                } else {
                    if old(self).visited_set().contains(id@) {
                        assert(old(self).seen(id@));
                    }
                }
            }
            assert forall|x: Seq<char>| self.visited_set().contains(x) implies self.seen(x) by {
                assert(old(self).seen(x));
            }
        }
        true
    }

    /// Enqueues every link target the registry does not yet know, in
    /// link order, reserving each one's slug from the suggestion the
    /// converter derived. The ids added to the frontier are exactly
    /// `enqueue_ids` of the links against the ids known before.
    #[verifier::loop_isolation(false)]
    pub fn enqueue_links(&mut self, links: &Vec<(String, String)>)
        requires
            old(self).wf(),
        ensures
            final(self).wf(),
            final(self).root() == old(self).root(),
            final(self).visited_set() == old(self).visited_set(),
            final(self).frontier_view().len() == old(self).frontier_view().len()
                + enqueue_ids(old(self).id_map().dom(), old(self).root(), link_views(links@)).len(),
            forall|j: int| 0 <= j < old(self).frontier_view().len()
                ==> final(self).frontier_view()[j] == old(self).frontier_view()[j],
            forall|j: int| old(self).frontier_view().len() <= j < final(self).frontier_view().len()
                ==> (#[trigger] final(self).frontier_view()[j]) == (
                    enqueue_ids(old(self).id_map().dom(), old(self).root(), link_views(links@))[
                        j - old(self).frontier_view().len()],
                    Some(final(self).id_map()[enqueue_ids(old(self).id_map().dom(), old(self).root(),
                        link_views(links@))[j - old(self).frontier_view().len()]])),
            forall|k: int| 0 <= k < links@.len() ==> final(self).seen((#[trigger] links@[k]).0@),
            forall|x: Seq<char>| #[trigger] old(self).id_map().contains_key(x) ==> final(self).id_map().contains_key(x)
                && final(self).id_map()[x] == old(self).id_map()[x],
    {
        let n = links.len();
        let mut i: usize = 0;
        proof {
            let base = old(self).frontier_view().len() as int;
            assert(link_views(links@).skip(0) =~= link_views(links@));
            assert(self.frontier_view().skip(base) =~= Seq::<(Seq<char>, Option<Seq<char>>)>::empty());
            assert(self.frontier_view().skip(base).map_values(|p: (Seq<char>, Option<Seq<char>>)| p.0)
                =~= Seq::<Seq<char>>::empty());
            assert(Seq::<Seq<char>>::empty()
                    + enqueue_ids(self.id_map().dom(), self.root(), link_views(links@))
                =~= enqueue_ids(self.id_map().dom(), self.root(), link_views(links@)));
        }
        while i < n
            invariant
                i <= n,
                self.wf(),
                self.root() == old(self).root(),
                self.visited_set() == old(self).visited_set(),
                self.frontier_view().len() >= old(self).frontier_view().len(),
                enqueue_ids(old(self).id_map().dom(), old(self).root(), link_views(links@))
                    == self.frontier_view().skip(old(self).frontier_view().len() as int)
                        .map_values(|p: (Seq<char>, Option<Seq<char>>)| p.0)
                    + enqueue_ids(self.id_map().dom(), self.root(), link_views(links@).skip(i as int)),
                forall|j: int| 0 <= j < old(self).frontier_view().len()
                    ==> self.frontier_view()[j] == old(self).frontier_view()[j],
                forall|j: int| old(self).frontier_view().len() <= j < self.frontier_view().len()
                    ==> (#[trigger] self.frontier_view()[j]).1
                        == Some(self.id_map()[self.frontier_view()[j].0]),
                forall|k: int| 0 <= k < i ==> self.seen((#[trigger] links@[k]).0@),
                forall|x: Seq<char>| #[trigger] old(self).id_map().contains_key(x) ==> self.id_map().contains_key(x)
                    && self.id_map()[x] == old(self).id_map()[x],
            decreases n - i,
        {
            let ghost st0 = *self;
            proof {
                assert(link_views(links@).skip(i as int)[0] == link_views(links@)[i as int]);
                assert(link_views(links@).skip(i as int).skip(1) =~= link_views(links@).skip(i as int + 1));
                assert(link_views(links@)[i as int] == (links@[i as int].0@, links@[i as int].1@));
            }
            let enq = self.try_enqueue(links[i].0.as_str(), links[i].1.as_str());
            proof {
                let lv = link_views(links@);
                let base = old(self).frontier_view().len() as int;
                if enq {
                    assert(!st0.seen(lv[i as int].0));
                    assert(!st0.id_map().dom().contains(lv[i as int].0));
                    assert(self.id_map().dom() =~= st0.id_map().dom().insert(lv[i as int].0));
                    assert(self.frontier_view().skip(base).map_values(|p: (Seq<char>, Option<Seq<char>>)| p.0)
                        =~= st0.frontier_view().skip(base).map_values(|p: (Seq<char>, Option<Seq<char>>)| p.0)
                            + seq![lv[i as int].0]);
                    assert(enqueue_ids(st0.id_map().dom(), st0.root(), lv.skip(i as int))
                        == seq![lv[i as int].0] + enqueue_ids(self.id_map().dom(), self.root(), lv.skip(i as int + 1)));
                    assert(st0.frontier_view().skip(base).map_values(|p: (Seq<char>, Option<Seq<char>>)| p.0)
                            + (seq![lv[i as int].0] + enqueue_ids(self.id_map().dom(), self.root(), lv.skip(i as int + 1)))
                        =~= self.frontier_view().skip(base).map_values(|p: (Seq<char>, Option<Seq<char>>)| p.0)
                            + enqueue_ids(self.id_map().dom(), self.root(), lv.skip(i as int + 1)));
                    assert forall|x: Seq<char>| #[trigger] old(self).id_map().contains_key(x)
                        implies self.id_map().contains_key(x) && self.id_map()[x] == old(self).id_map()[x] by {
                        assert(st0.id_map().contains_key(x));
                        assert(st0.id_map()[x] == old(self).id_map()[x]);
                        assert(x != lv[i as int].0);
                        assert(self.id_map() == st0.id_map().insert(lv[i as int].0, self.id_map()[lv[i as int].0]));
                    }
                } else {
                    assert(st0.seen(lv[i as int].0));
                    assert(lv[i as int].0 == st0.root() || st0.id_map().dom().contains(lv[i as int].0));
                    assert(enqueue_ids(st0.id_map().dom(), st0.root(), lv.skip(i as int))
                        == enqueue_ids(st0.id_map().dom(), st0.root(), lv.skip(i as int + 1)));
                }
            }
            i = i + 1;
        }
        proof {
            let lv = link_views(links@);
            assert(lv.skip(n as int) =~= Seq::<(Seq<char>, Seq<char>)>::empty());
            let base = old(self).frontier_view().len() as int;
            let tail_ids = self.frontier_view().skip(base).map_values(|p: (Seq<char>, Option<Seq<char>>)| p.0);
            assert(enqueue_ids(old(self).id_map().dom(), old(self).root(), lv) == tail_ids);
            assert forall|j: int| base <= j < self.frontier_view().len()
                implies (#[trigger] self.frontier_view()[j]) == (
                    enqueue_ids(old(self).id_map().dom(), old(self).root(), lv)[j - base],
                    Some(self.id_map()[enqueue_ids(old(self).id_map().dom(), old(self).root(), lv)[j - base]])) by {
                assert(tail_ids[j - base] == self.frontier_view()[j].0);
            }
        }
    }

    /// Resolves where a dequeued document's page is written: the root
    /// (reached with no hint) renders to the canonical top-level page;
    /// any other document renders under its assigned slug, reserving
    /// one first from the hint — or from a fixed fallback base — if the
    /// id has none yet.
    pub fn resolve_output_path(&mut self, doc_id: &str, slug_hint: &Option<String>) -> (r: String)
        requires
            old(self).wf(),
        ensures
            final(self).wf(),
            final(self).root() == old(self).root(),
            final(self).visited_set() == old(self).visited_set(),
            final(self).frontier_view() == old(self).frontier_view(),
            (doc_id@ == old(self).root() && slug_hint.is_none()) ==> {
                &&& r@ == "index.html"@
                &&& final(self).id_map() == old(self).id_map()
                &&& final(self).used() == old(self).used()
            },
            !(doc_id@ == old(self).root() && slug_hint.is_none()) ==> {
                let base = match *slug_hint {
                    Some(h) => h@,
                    None => "page"@,
                };
                &&& final(self).id_map().contains_key(doc_id@)
                &&& r@ == "p/"@ + final(self).id_map()[doc_id@] + "/index.html"@
                &&& (old(self).id_map().contains_key(doc_id@) ==> {
                    &&& final(self).id_map() == old(self).id_map()
                    &&& final(self).used() == old(self).used()
                })
                &&& (!old(self).id_map().contains_key(doc_id@) ==> {
                    &&& is_least_free(old(self).used(), base, final(self).id_map()[doc_id@])
                    &&& final(self).id_map() == old(self).id_map().insert(doc_id@, final(self).id_map()[doc_id@])
                    &&& final(self).used() == old(self).used().insert(final(self).id_map()[doc_id@])
                })
            },
    {
        if str_eq(doc_id, self.root_id.as_str()) && slug_hint.is_none() {
            return String::from_str("index.html");
        }
        let slug = match slug_hint {
            Some(h) => self.registry.reserve(doc_id, h.as_str()),
            None => self.registry.reserve(doc_id, "page"),
        };
        let mut r = String::from_str("p/");
        r.append(slug.as_str());
        r.append("/index.html");
        proof {
            let fv = self.frontier_view();
            assert(fv == old(self).frontier_view());
            assert forall|k: int| 0 <= k < fv.len()
                implies self.seen((#[trigger] fv[k]).0) by {
                assert(fv[k] == old(self).frontier_view()[k]);
                assert(old(self).seen(old(self).frontier_view()[k].0));
            }
            assert forall|a: int, b: int| #![trigger fv[a], fv[b]] 0 <= a < b < fv.len()
                implies fv[a].0 != fv[b].0 by {
                assert(fv[a] == old(self).frontier_view()[a]);
                assert(fv[b] == old(self).frontier_view()[b]);
            }
            assert forall|k: int| 0 <= k < fv.len()
                implies !self.visited_set().contains((#[trigger] fv[k]).0) by {
                assert(fv[k] == old(self).frontier_view()[k]);
            }
            assert forall|x: Seq<char>| self.visited_set().contains(x) implies self.seen(x) by {
                assert(old(self).seen(x));
            }
        }
        r
    }

    /// Converts one dequeued document into its final page. The links
    /// the conversion discovers are enqueued — and their slugs
    /// reserved — first, and only then is the page rendered, so every
    /// internal href names the slug its target actually got, whether
    /// the target was assigned earlier in the run or just now.
    /// Returns the page's HTML and the image files to write.
    pub fn process_document(&mut self, doc: &Document, store: &mut crate::assets::AssetStore, cache: &crate::assets::UrlCache)
        -> (r: (String, Vec<(String, Vec<u8>)>))
        requires
            old(self).wf(),
            cache.wf(),
        ensures
            final(self).wf(),
            final(self).root() == old(self).root(),
            final(self).visited_set() == old(self).visited_set(),
            forall|k: int| 0 <= k < converted_links(*doc, old(self).id_map()).len()
                ==> final(self).seen((#[trigger] converted_links(*doc, old(self).id_map())[k]).0),
            forall|x: Seq<char>| #[trigger] old(self).id_map().contains_key(x)
                ==> final(self).id_map().contains_key(x)
                    && final(self).id_map()[x] == old(self).id_map()[x],
            final(self).frontier_view().len() == old(self).frontier_view().len()
                + enqueue_ids(old(self).id_map().dom(), old(self).root(),
                    converted_links(*doc, old(self).id_map())).len(),
            forall|j: int| 0 <= j < old(self).frontier_view().len()
                ==> final(self).frontier_view()[j] == old(self).frontier_view()[j],
            ({
                let l = crate::assets::localize_spec(converted_markup(*doc, final(self).id_map()), 0,
                    old(store).names_seq(), cache.map());
                &&& r.0@ == crate::convert::html_of(l.0)
                &&& final(store).names_seq() == l.1
                &&& crate::assets::write_views(r.1@) == l.2
            }),
    {
        let (md, mut links) = crate::convert::document_markup(doc, &self.registry);
        let _rewritten = crate::links::rewrite_md_google_links(md.as_str(), &self.registry, &mut links);
        let ghost cl = converted_links(*doc, old(self).id_map());
        proof {
            assert(cl == link_views(links@));
        }
        self.enqueue_links(&links);
        proof {
            assert forall|k: int| 0 <= k < cl.len()
                implies self.seen((#[trigger] cl[k]).0) by {
                assert(cl[k] == link_views(links@)[k]);
                assert(link_views(links@)[k] == (links@[k].0@, links@[k].1@));
                assert(self.seen(links@[k].0@));
            }
        }
        let (html, _links2, writes) = crate::convert::render_document(doc, &self.registry, store, cache);
        (html, writes)
    }

    /// The slug registry the crawl owns, for the conversion passes to
    /// read: link rewriting consults it so that a target with an
    /// assigned slug keeps that slug in every later href.
    pub fn registry(&self) -> (r: &SlugRegistry)
        ensures
            r.id_map() == self.id_map(),
            r.used() == self.used(),
            self.wf() ==> r.wf(),
    {
        &self.registry
    }

    /// The slug assigned to an id so far, if any.
    pub fn assigned_slug(&self, id: &str) -> (r: Option<String>)
        requires
            self.wf(),
        ensures
            r.is_some() == self.id_map().contains_key(id@),
            r.is_some() ==> r.unwrap()@ == self.id_map()[id@],
    {
        self.registry.find_slug(id)
    }
}

/// Over a whole run, no document id is yielded twice. Each operation
/// of the crawl only grows the visited set — `pop_next` inserts the id
/// it yields, every other operation leaves the set unchanged — and
/// `pop_next` never yields an id already in it. So if one pop yielded
/// `a` (putting it in the visited set) and any chain of operations
/// leads to a later state whose visited set still lacks nothing, a
/// later pop yielding `b` with `b` absent from that state's visited
/// set cannot be the same id.
pub proof fn lemma_no_revisit(earlier: Set<Seq<char>>, later: Set<Seq<char>>, a: Seq<char>, b: Seq<char>)
    requires
        earlier.contains(a),
        earlier.subset_of(later),
        !later.contains(b),
    ensures
        a != b,
{
}

} // verus!
