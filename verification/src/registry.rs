//! The slug registry: a first-seen-wins map from document id to its
//! assigned slug, together with the set of all slugs handed out. `reserve`
//! probes `base`, `base-2`, `base-3`, ... until a free slug is found, so
//! every assigned slug is unique for the lifetime of a crawl.
use vstd::prelude::*;
use vstd::set_lib::lemma_len_subset;
use vstd::string::StrSliceExecFns;
use vstd::string::StringExecFns;
use crate::text::{dec_rep, lemma_dec_rep_len, lemma_dec_rep_injective, lemma_prepend_cancel, str_eq, chars_to_string};

verus! {

/// The id -> slug map described by a sequence of (id, slug) pairs,
/// later pairs winning (the registry never adds a duplicate id).
pub open spec fn map_of(ps: Seq<(Seq<char>, Seq<char>)>) -> Map<Seq<char>, Seq<char>>
    decreases ps.len(),
{
    if ps.len() == 0 {
        Map::empty()
    } else {
        map_of(ps.drop_last()).insert(ps.last().0, ps.last().1)
    }
}

/// The set of slugs handed out by a sequence of (id, slug) pairs.
pub open spec fn used_of(ps: Seq<(Seq<char>, Seq<char>)>) -> Set<Seq<char>>
    decreases ps.len(),
{
    if ps.len() == 0 {
        Set::empty()
    } else {
        used_of(ps.drop_last()).insert(ps.last().1)
    }
}

proof fn lemma_map_of_contains(ps: Seq<(Seq<char>, Seq<char>)>, k: Seq<char>)
    ensures
        map_of(ps).contains_key(k) <==> exists|i: int| 0 <= i < ps.len() && (#[trigger] ps[i]).0 == k,
    decreases ps.len(),
{
    if ps.len() > 0 {
        lemma_map_of_contains(ps.drop_last(), k);
        assert(forall|i: int| 0 <= i < ps.len() - 1 ==> #[trigger] ps.drop_last()[i] == ps[i]);
        if map_of(ps).contains_key(k) {
            if ps.last().0 == k {
                assert((ps[ps.len() - 1]).0 == k);
            } else {
                let i = choose|i: int| 0 <= i < ps.drop_last().len() && (#[trigger] ps.drop_last()[i]).0 == k;
                assert((ps[i]).0 == k);
            }
        }
        if exists|i: int| 0 <= i < ps.len() && (#[trigger] ps[i]).0 == k {
            let i = choose|i: int| 0 <= i < ps.len() && (#[trigger] ps[i]).0 == k;
            if i < ps.len() - 1 {
                assert((ps.drop_last()[i]).0 == k);
            }
        }
    }
}

proof fn lemma_used_of_contains(ps: Seq<(Seq<char>, Seq<char>)>, v: Seq<char>)
    ensures
        used_of(ps).contains(v) <==> exists|i: int| 0 <= i < ps.len() && (#[trigger] ps[i]).1 == v,
    decreases ps.len(),
{
    if ps.len() > 0 {
        lemma_used_of_contains(ps.drop_last(), v);
        assert(forall|i: int| 0 <= i < ps.len() - 1 ==> #[trigger] ps.drop_last()[i] == ps[i]);
        if used_of(ps).contains(v) {
            if ps.last().1 == v {
                assert((ps[ps.len() - 1]).1 == v);
            } else {
                let i = choose|i: int| 0 <= i < ps.drop_last().len() && (#[trigger] ps.drop_last()[i]).1 == v;
                assert((ps[i]).1 == v);
            }
        }
        if exists|i: int| 0 <= i < ps.len() && (#[trigger] ps[i]).1 == v {
            let i = choose|i: int| 0 <= i < ps.len() && (#[trigger] ps[i]).1 == v;
            if i < ps.len() - 1 {
                assert((ps.drop_last()[i]).1 == v);
            }
        }
    }
}

/// With distinct ids, each pair is present in the map as written.
proof fn lemma_map_of_value(ps: Seq<(Seq<char>, Seq<char>)>, i: int)
    requires
        0 <= i < ps.len(),
        forall|a: int, b: int| #![trigger ps[a], ps[b]] 0 <= a < b < ps.len() ==> ps[a].0 != ps[b].0,
    ensures
        map_of(ps).contains_key(ps[i].0),
        map_of(ps)[ps[i].0] == ps[i].1,
    decreases ps.len(),
{
    assert(forall|a: int| 0 <= a < ps.len() - 1 ==> #[trigger] ps.drop_last()[a] == ps[a]);
    if i == ps.len() - 1 {
    } else {
        lemma_map_of_value(ps.drop_last(), i);
        assert(ps[i].0 != ps[ps.len() - 1].0);
    }
}

proof fn lemma_used_of_finite(ps: Seq<(Seq<char>, Seq<char>)>)
    ensures
        used_of(ps).finite(),
        used_of(ps).len() <= ps.len(),
    decreases ps.len(),
{
    if ps.len() > 0 {
        lemma_used_of_finite(ps.drop_last());
    }
}

/// The probe candidate for index `i`: `base-i`.
pub open spec fn slug_cand(base: Seq<char>, i: nat) -> Seq<char> {
    base + "-"@ + dec_rep(i)
}

/// `r` is the first slug of the probe order `base`, `base-2`, `base-3`,
/// ... that is not yet in `used`.
pub open spec fn is_least_free(used: Set<Seq<char>>, base: Seq<char>, r: Seq<char>) -> bool {
    if !used.contains(base) {
        r == base
    } else {
        exists|i: nat|
            2 <= i && r == slug_cand(base, i) && !used.contains(#[trigger] slug_cand(base, i))
                && (forall|j: nat| 2 <= j < i ==> used.contains(#[trigger] slug_cand(base, j)))
    }
}

pub proof fn lemma_cand_ne_base(base: Seq<char>, i: nat)
    ensures
        slug_cand(base, i) != base,
        slug_cand(base, i).len() > base.len(),
{
    reveal_strlit("-");
    lemma_dec_rep_len(i);
}

proof fn lemma_cand_injective(base: Seq<char>, i: nat, j: nat)
    requires
        i != j,
    ensures
        slug_cand(base, i) != slug_cand(base, j),
{
    if slug_cand(base, i) == slug_cand(base, j) {
        lemma_prepend_cancel(base + "-"@, dec_rep(i), dec_rep(j));
        lemma_dec_rep_injective(i, j);
    }
}

/// Maps each document id to the slug first reserved for it, and remembers
/// every slug handed out.
pub struct SlugRegistry {
    entries: Vec<(String, String)>,
}

impl SlugRegistry {
    /// The (id, slug) pairs, in reservation order.
    pub closed spec fn pairs(&self) -> Seq<(Seq<char>, Seq<char>)> {
        self.entries@.map_values(|p: (String, String)| (p.0@, p.1@))
    }

    /// The id -> slug map.
    pub open spec fn id_map(&self) -> Map<Seq<char>, Seq<char>> {
        map_of(self.pairs())
    }

    /// All slugs handed out so far.
    pub open spec fn used(&self) -> Set<Seq<char>> {
        used_of(self.pairs())
    }

    /// Every id appears at most once and every slug is handed out at most
    /// once.
    pub closed spec fn wf(&self) -> bool {
        let ps = self.pairs();
        (forall|a: int, b: int| #![trigger ps[a], ps[b]] 0 <= a < b < ps.len() ==> ps[a].0 != ps[b].0)
            && (forall|a: int, b: int| #![trigger ps[a], ps[b]] 0 <= a < b < ps.len() ==> ps[a].1 != ps[b].1)
    }

    pub fn new() -> (r: Self)
        ensures
            r.wf(),
            r.id_map() == Map::<Seq<char>, Seq<char>>::empty(),
            r.used() == Set::<Seq<char>>::empty(),
    {
        let r = SlugRegistry { entries: Vec::new() };
        proof {
            assert(r.pairs() =~= Seq::<(Seq<char>, Seq<char>)>::empty());
        }
        r
    }

    /// The slug already assigned to `id`, if any.
    pub fn find_slug(&self, id: &str) -> (r: Option<String>)
        requires
            self.wf(),
        ensures
            r.is_some() == self.id_map().contains_key(id@),
            r.is_some() ==> r.unwrap()@ == self.id_map()[id@],
    {
        let ghost ps = self.pairs();
        let n = self.entries.len();
        let mut i: usize = 0;
        while i < n
            invariant
                self.wf(),
                ps == self.pairs(),
                n == self.entries@.len(),
                i <= n,
                forall|k: int| 0 <= k < i ==> (#[trigger] ps[k]).0 != id@,
            decreases n - i,
        {
            proof {
                assert(ps[i as int] == (self.entries@[i as int].0@, self.entries@[i as int].1@));
            }
            if str_eq(self.entries[i].0.as_str(), id) {
                let s = self.entries[i].1.clone();
                proof {
                    lemma_map_of_value(ps, i as int);
                }
                return Some(s);
            }
            i = i + 1;
        }
        proof {
            lemma_map_of_contains(ps, id@);
        }
        None
    }

    /// Whether `slug` has already been handed out.
    pub fn slug_in_use(&self, slug: &str) -> (r: bool)
        ensures
            r == self.used().contains(slug@),
    {
        let ghost ps = self.pairs();
        let n = self.entries.len();
        let mut i: usize = 0;
        while i < n
            invariant
                ps == self.pairs(),
                n == self.entries@.len(),
                i <= n,
                forall|k: int| 0 <= k < i ==> (#[trigger] ps[k]).1 != slug@,
            decreases n - i,
        {
            proof {
                assert(ps[i as int] == (self.entries@[i as int].0@, self.entries@[i as int].1@));
            }
            if str_eq(self.entries[i].1.as_str(), slug) {
                proof {
                    lemma_used_of_contains(ps, slug@);
                }
                return true;
            }
            i = i + 1;
        }
        proof {
            lemma_used_of_contains(ps, slug@);
        }
        false
    }

    /// Builds the probe candidate `base-i`.
    fn cand_string(base: &str, i: u128) -> (r: String)
        ensures
            r@ == slug_cand(base@, i as nat),
    {
        let mut s = String::from_str(base);
        s.append("-");
        let v = crate::text::u128_to_dec(i);
        let d = chars_to_string(&v);
        s.append(d.as_str());
        s
    }

    /// Returns the slug assigned to `id`, assigning one first if needed:
    /// the first assignment is final, and later calls return it whatever
    /// base they pass. A fresh assignment takes the first free probe
    /// candidate derived from `base`.
    #[verifier::loop_isolation(false)]
    pub fn reserve(&mut self, id: &str, base: &str) -> (slug: String)
        requires
            old(self).wf(),
        ensures
            final(self).wf(),
            old(self).id_map().contains_key(id@) ==> {
                &&& final(self).pairs() == old(self).pairs()
                &&& slug@ == old(self).id_map()[id@]
            },
            !old(self).id_map().contains_key(id@) ==> {
                &&& is_least_free(old(self).used(), base@, slug@)
                &&& !old(self).used().contains(slug@)
                &&& final(self).id_map() == old(self).id_map().insert(id@, slug@)
                &&& final(self).used() == old(self).used().insert(slug@)
                &&& final(self).id_map().contains_key(id@)
                &&& final(self).id_map()[id@] == slug@
            },
    {
        let ghost ps0 = self.pairs();
        if let Some(s) = self.find_slug(id) {
            return s;
        }
        proof {
            lemma_map_of_contains(ps0, id@);
        }
        if !self.slug_in_use(base) {
            let s = String::from_str(base);
            let key = String::from_str(id);
            self.entries.push((key, s.clone()));
            proof {
                assert(self.pairs() =~= ps0.push((id@, base@)));
                self.lemma_after_push(ps0, id@, base@);
            }
            return s;
        }
        let ghost used0 = used_of(ps0);
        proof {
            lemma_used_of_finite(ps0);
        }
        let ghost mut tried: Set<Seq<char>> = Set::empty().insert(base@);
        let n_entries = self.entries.len();
        let mut i: u128 = 2;
        loop
            invariant
                self.wf(),
                ps0 == self.pairs(),
                ps0.len() == n_entries,
                !map_of(ps0).contains_key(id@),
                used0 == used_of(ps0),
                used0.finite(),
                used0.len() <= ps0.len(),
                used0.contains(base@),
                2 <= i,
                tried.finite(),
                tried.subset_of(used0),
                tried.len() == i - 1,
                forall|j: nat| 2 <= j < i ==> used0.contains(#[trigger] slug_cand(base@, j)),
                forall|x: Seq<char>| tried.contains(x) ==> x == base@ || exists|j: nat|
                    2 <= j < i && x == #[trigger] slug_cand(base@, j),
            decreases used0.len() + 2 - i,
        {
            let cand = Self::cand_string(base, i);
            if !self.slug_in_use(cand.as_str()) {
                let key = String::from_str(id);
                self.entries.push((key, cand.clone()));
                proof {
                    assert(self.pairs() =~= ps0.push((id@, cand@)));
                    assert(is_least_free(used0, base@, cand@)) by {
                        lemma_cand_ne_base(base@, i as nat);
                        assert(2 <= i as nat && cand@ == slug_cand(base@, i as nat)
                            && !used0.contains(slug_cand(base@, i as nat)));
                    }
                    self.lemma_after_push(ps0, id@, cand@);
                }
                return cand;
            }
            proof {
                assert(!tried.contains(cand@)) by {
                    if tried.contains(cand@) {
                        lemma_cand_ne_base(base@, i as nat);
                        if cand@ != base@ {
                            let j = choose|j: nat| 2 <= j < i && cand@ == #[trigger] slug_cand(base@, j);
                            lemma_cand_injective(base@, i as nat, j);
                        }
                    }
                }
                tried = tried.insert(cand@);
                lemma_len_subset(tried, used0);
            }
            i = i + 1;
        }
    }

    /// After pushing a fresh (id, slug) pair the registry is still
    /// well formed and its views update by one insertion.
    proof fn lemma_after_push(&self, ps0: Seq<(Seq<char>, Seq<char>)>, id: Seq<char>, slug: Seq<char>)
        requires
            self.pairs().len() == ps0.len() + 1,
            self.pairs() == ps0.push((id, slug)),
            forall|a: int, b: int| #![trigger ps0[a], ps0[b]] 0 <= a < b < ps0.len() ==> ps0[a].0 != ps0[b].0,
            forall|a: int, b: int| #![trigger ps0[a], ps0[b]] 0 <= a < b < ps0.len() ==> ps0[a].1 != ps0[b].1,
            !map_of(ps0).contains_key(id),
            !used_of(ps0).contains(slug),
        ensures
            self.wf(),
            self.id_map() == map_of(ps0).insert(id, slug),
            self.used() == used_of(ps0).insert(slug),
            self.id_map().contains_key(id),
            self.id_map()[id] == slug,
    {
        let ps = self.pairs();
        assert(ps.drop_last() =~= ps0);
        assert(ps.last() == (id, slug));
        lemma_map_of_contains(ps0, id);
        lemma_used_of_contains(ps0, slug);
        assert forall|a: int, b: int| #![trigger ps[a], ps[b]] 0 <= a < b < ps.len() implies ps[a].0 != ps[b].0 by {
            if b == ps.len() - 1 {
                assert(ps[a] == ps0[a]);
                assert(ps[b].0 == id);
            } else {
                assert(ps[a] == ps0[a]);
                assert(ps[b] == ps0[b]);
            }
        }
        assert forall|a: int, b: int| #![trigger ps[a], ps[b]] 0 <= a < b < ps.len() implies ps[a].1 != ps[b].1 by {
            if b == ps.len() - 1 {
                assert(ps[a] == ps0[a]);
                assert(ps[b].1 == slug);
            } else {
                assert(ps[a] == ps0[a]);
                assert(ps[b] == ps0[b]);
            }
        }
    }
}

/// Distinct ids colliding on one base get distinct slugs, the second
/// probe yielding `base-2`: if `base` was free and taken by the first
/// reservation, the next reservation from the same base must take the
/// candidate `base-2`.
pub proof fn lemma_reserve_collision(used0: Set<Seq<char>>, base: Seq<char>, r1: Seq<char>, r2: Seq<char>)
    requires
        !used0.contains(base),
        !used0.contains(slug_cand(base, 2)),
        is_least_free(used0, base, r1),
        is_least_free(used0.insert(r1), base, r2),
    ensures
        r1 == base,
        r2 == slug_cand(base, 2),
        r1 != r2,
{
    let used1 = used0.insert(r1);
    assert(used1.contains(base));
    lemma_cand_ne_base(base, 2);
    assert(!used1.contains(slug_cand(base, 2)));
    let i = choose|i: nat|
        2 <= i && r2 == slug_cand(base, i) && !used1.contains(#[trigger] slug_cand(base, i))
            && (forall|j: nat| 2 <= j < i ==> used1.contains(#[trigger] slug_cand(base, j)));
    if i > 2 {
        assert(used1.contains(slug_cand(base, 2)));
    }
}

} // verus!
