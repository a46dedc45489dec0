//! Labeled category profiles and the classification store.
//!
//! A category associates a label with the ranked n-gram profile of one
//! training sample. The store owns an ordered list of categories plus a
//! runtime-only ambiguity threshold; classification ranks all categories by
//! rank distance to the sample's profile and reports a label only when
//! exactly one category lies within the threshold band of the best distance.
use vstd::prelude::*;
use vstd::relations::{sorted_by, total_ordering};
use vstd::seq_lib::lemma_sorted_unique;
use crate::ngram::{ranked_profile, rank_sum, Ngrams, PROFILE_CAP};

verus! {

/// N-gram lengths used by the store: lengths `1..PROFILE_DEPTH` are extracted.
pub const PROFILE_DEPTH: u8 = 5;

/// The ambiguity threshold is a fraction in parts per this scale.
pub const THRESHOLD_SCALE: u32 = 1000;

/// The default ambiguity threshold: 30 parts per thousand, that is 3%.
pub const DEFAULT_THRESHOLD: u32 = 30;

/// The version tag written into persisted documents.
pub const FORMAT_VERSION: &'static str = "1.0.0";

/// The mathematical value of a category: its label and its ranked profile.
pub type CategoryView = (Seq<char>, Seq<(Seq<char>, u64)>);

/// A label owning the ranked n-gram profile of one training sample.
#[derive(Debug)]
pub struct Category {
    name: String,
    ngrams: Ngrams,
}

impl View for Category {
    type V = CategoryView;

    closed spec fn view(&self) -> CategoryView {
        (self.name@, self.ngrams@)
    }
}

impl Category {
    /// Creates a category: the sample text profiled under the given label.
    pub fn new(name: String, sample: &str) -> (r: Category)
        ensures
            r@ == (name@, ranked_profile(sample@, PROFILE_DEPTH as int)),
    {
        Category { name, ngrams: Ngrams::new(sample, PROFILE_DEPTH) }
    }

    /// The out-of-place distance from the sample profile `ngrams` to this
    /// category's profile.
    pub fn distance(&self, ngrams: &Ngrams) -> (r: u64)
        requires
            rank_sum(ngrams@, self@.1) <= u64::MAX,
        ensures
            r == rank_sum(ngrams@, self@.1),
    {
        ngrams.distance(&self.ngrams)
    }

    /// Returns this category's ranked n-gram texts, most representative first.
    pub fn to_vec(&self) -> (r: Vec<&str>)
        ensures
            r.deep_view() == self@.1.map_values(|p: (Seq<char>, u64)| p.0),
    {
        self.ngrams.to_vec()
    }
}

/// The mathematical value of a store: format version, the categories in
/// training order, and the runtime ambiguity threshold.
pub struct StoreView {
    /// The format version tag.
    pub version: Seq<char>,
    /// The categories in insertion order.
    pub cats: Seq<CategoryView>,
    /// The ambiguity threshold, in parts per [`THRESHOLD_SCALE`].
    pub threshold: u32,
}

/// Whether every category's distance to the sample profile fits the result type.
pub open spec fn fits(cats: Seq<CategoryView>, prof: Seq<(Seq<char>, u64)>) -> bool {
    forall|i: int| 0 <= i < cats.len() ==> rank_sum(prof, cats[i].1) <= u64::MAX
}

/// The distances from the sample profile to every category, paired with the
/// category's position in training order.
pub open spec fn dist_pairs(cats: Seq<CategoryView>, prof: Seq<(Seq<char>, u64)>) -> Seq<
    (u64, usize),
> {
    Seq::new(cats.len(), |i: int| (rank_sum(prof, cats[i].1) as u64, i as usize))
}

/// The candidate order: ascending distance, ties in training order.
pub open spec fn pair_order() -> spec_fn((u64, usize), (u64, usize)) -> bool {
    |a: (u64, usize), b: (u64, usize)| a.0 < b.0 || (a.0 == b.0 && a.1 <= b.1)
}

/// The candidate order is a total order.
pub proof fn lemma_pair_order_total()
    ensures
        total_ordering(pair_order()),
{
}

/// The distance pairs sorted into candidate order.
pub open spec fn sorted_pairs(cats: Seq<CategoryView>, prof: Seq<(Seq<char>, u64)>) -> Seq<
    (u64, usize),
> {
    dist_pairs(cats, prof).sort_by(pair_order())
}

/// Whether a distance lies within the threshold band of the best distance:
/// `d <= (1 + t/SCALE) * best`, compared exactly in integers.
pub open spec fn qualifies(d: u64, best: u64, t: u32) -> bool {
    THRESHOLD_SCALE * d <= (THRESHOLD_SCALE + t) * best
}

/// The qualifying candidates in candidate order, as label/distance pairs.
pub open spec fn candidates_view(
    cats: Seq<CategoryView>,
    prof: Seq<(Seq<char>, u64)>,
    t: u32,
) -> Seq<(Seq<char>, u64)> {
    let sorted = sorted_pairs(cats, prof);
    sorted.filter(|p: (u64, usize)| qualifies(p.0, sorted[0].0, t)).map_values(
        |p: (u64, usize)| (cats[p.1 as int].0, p.0),
    )
}

/// Inserting a pair between the pairs below it and the pairs above it keeps
/// a sequence sorted in candidate order.
proof fn lemma_sorted_pair_insert(s: Seq<(u64, usize)>, x: (u64, usize), k: int)
    requires
        sorted_by(s, pair_order()),
        0 <= k <= s.len(),
        forall|m: int| 0 <= m < k ==> pair_order()(s[m], x),
        k < s.len() ==> !pair_order()(s[k], x),
    ensures
        sorted_by(s.insert(k, x), pair_order()),
{
    let leq = pair_order();
    lemma_pair_order_total();
    let t = s.insert(k, x);
    assert forall|i: int, j: int| 0 <= i < j < t.len() implies leq(t[i], t[j]) by {
        if i < k && j < k {
            assert(t[i] == s[i] && t[j] == s[j]);
        } else if i < k && j == k {
            assert(t[i] == s[i]);
        } else if i < k && j > k {
            assert(t[i] == s[i] && t[j] == s[j - 1]);
        } else if i == k && j > k {
            assert(t[j] == s[j - 1]);
            assert(leq(x, s[k]));
            if j - 1 > k {
                assert(leq(s[k], s[j - 1]));
            }
        } else {
            assert(t[i] == s[i - 1] && t[j] == s[j - 1]);
        }
    }
}

/// Every pair in the sorted distance list names a category position in bounds.
proof fn lemma_sorted_pairs_positions(cats: Seq<CategoryView>, prof: Seq<(Seq<char>, u64)>)
    ensures
        forall|q: int|
            0 <= q < sorted_pairs(cats, prof).len() ==> (#[trigger] sorted_pairs(cats, prof)[q]).1
                < cats.len(),
{
    broadcast use vstd::seq_lib::group_to_multiset_ensures;

    let dists = dist_pairs(cats, prof);
    let sorted = sorted_pairs(cats, prof);
    lemma_pair_order_total();
    dists.lemma_sort_by_ensures(pair_order());
    assert forall|q: int| 0 <= q < sorted.len() implies (#[trigger] sorted[q]).1 < cats.len() by {
        assert(sorted.contains(sorted[q]));
        assert(sorted.to_multiset().count(sorted[q]) > 0);
        assert(dists.to_multiset().count(sorted[q]) > 0);
        assert(dists.contains(sorted[q]));
        let w = choose|w: int| 0 <= w < dists.len() && dists[w] == sorted[q];
        assert(dists[w].1 == w as usize);
    }
}

/// A versioned, ordered collection of categories plus a runtime-only
/// ambiguity threshold. Training appends categories; classification compares
/// a sample against every category.
#[derive(Debug)]
pub struct Categories {
    version: String,
    categories: Vec<Category>,
    threshold: u32,
}

impl View for Categories {
    type V = StoreView;

    closed spec fn view(&self) -> StoreView {
        StoreView {
            version: self.version@,
            cats: self.categories.view().map_values(|c: Category| c@),
            threshold: self.threshold,
        }
    }
}

impl Categories {
    /// Creates an empty store with the default threshold.
    pub fn new() -> (r: Categories)
        ensures
            r@.cats.len() == 0,
            r@.threshold == DEFAULT_THRESHOLD,
            r@.version == FORMAT_VERSION@,
    {
        let r = Categories {
            version: FORMAT_VERSION.to_owned(),
            categories: Vec::new(),
            threshold: DEFAULT_THRESHOLD,
        };
        proof {
            assert(r@.cats =~= Seq::<CategoryView>::empty());
        }
        r
    }

    /// Learns a new category: the sample text is profiled and appended under
    /// the given label. Labels are not deduplicated; a re-added label becomes
    /// an independent candidate.
    pub fn add_category(&mut self, name: String, sample: &str)
        ensures
            final(self)@.cats == old(self)@.cats.push(
                (name@, ranked_profile(sample@, PROFILE_DEPTH as int)),
            ),
            final(self)@.version == old(self)@.version,
            final(self)@.threshold == old(self)@.threshold,
    {
        let ghost oldcats = self@.cats;
        let ngrams = Ngrams::new(sample, PROFILE_DEPTH);
        self.categories.push(Category { name, ngrams });
        proof {
            assert(self@.cats =~= oldcats.push(
                (name@, ranked_profile(sample@, PROFILE_DEPTH as int)),
            ));
        }
    }

    /// Returns all labels in training order.
    pub fn categories(&self) -> (r: Vec<String>)
        ensures
            r.deep_view() == self@.cats.map_values(|c: CategoryView| c.0),
    {
        let n = self.categories.len();
        let mut out: Vec<String> = Vec::new();
        let mut i: usize = 0;
        while i < n
            invariant
                0 <= i <= n,
                n == self@.cats.len(),
                out.deep_view() == self@.cats.map_values(|c: CategoryView| c.0).take(i as int),
            decreases n - i,
        {
            let ghost odv = out.deep_view();
            out.push(self.categories[i].name.clone());
            proof {
                assert(out.deep_view() =~= odv.push(self@.cats[i as int].0));
                assert(out.deep_view() =~= self@.cats.map_values(|c: CategoryView| c.0).take(
                    i + 1,
                ));
            }
            i = i + 1;
        }
        proof {
            assert(self@.cats.map_values(|c: CategoryView| c.0).take(n as int) =~= self@.cats
                .map_values(|c: CategoryView| c.0));
        }
        out
    }

    /// Exports every category as its label and full ranked n-gram texts.
    pub fn to_vec(&self) -> (r: Vec<(String, Vec<String>)>)
        ensures
            r.deep_view() == self@.cats.map_values(
                |c: CategoryView| (c.0, c.1.map_values(|p: (Seq<char>, u64)| p.0)),
            ),
    {
        let ghost f = |c: CategoryView| (c.0, c.1.map_values(|p: (Seq<char>, u64)| p.0));
        let n = self.categories.len();
        let mut out: Vec<(String, Vec<String>)> = Vec::new();
        let mut i: usize = 0;
        while i < n
            invariant
                0 <= i <= n,
                n == self@.cats.len(),
                f == (|c: CategoryView| (c.0, c.1.map_values(|p: (Seq<char>, u64)| p.0))),
                out.deep_view() == self@.cats.map_values(f).take(i as int),
            decreases n - i,
        {
            let ghost odv = out.deep_view();
            let cat = &self.categories[i];
            let texts = cat.ngrams.owned_texts();
            out.push((cat.name.clone(), texts));
            proof {
                assert(out.deep_view() =~= odv.push(f(self@.cats[i as int])));
                assert(out.deep_view() =~= self@.cats.map_values(f).take(i + 1));
            }
            i = i + 1;
        }
        proof {
            assert(self@.cats.map_values(f).take(n as int) =~= self@.cats.map_values(f));
        }
        out
    }

    /// Exports every category as its label and ranked n-gram texts truncated
    /// to the persisted cap: what a persisted document holds.
    pub fn to_persistable(&self) -> (r: Vec<(String, Vec<String>)>)
        ensures
            r.deep_view() == self@.cats.map_values(
                |c: CategoryView| (
                    c.0,
                    c.1.map_values(|p: (Seq<char>, u64)| p.0).take(
                        if c.1.len() < PROFILE_CAP {
                            c.1.len() as int
                        } else {
                            PROFILE_CAP as int
                        },
                    ),
                ),
            ),
    {
        let ghost f = |c: CategoryView| (
            c.0,
            c.1.map_values(|p: (Seq<char>, u64)| p.0).take(
                if c.1.len() < PROFILE_CAP {
                    c.1.len() as int
                } else {
                    PROFILE_CAP as int
                },
            ),
        );
        let n = self.categories.len();
        let mut out: Vec<(String, Vec<String>)> = Vec::new();
        let mut i: usize = 0;
        while i < n
            invariant
                0 <= i <= n,
                n == self@.cats.len(),
                f == (|c: CategoryView| (
                    c.0,
                    c.1.map_values(|p: (Seq<char>, u64)| p.0).take(
                        if c.1.len() < PROFILE_CAP {
                            c.1.len() as int
                        } else {
                            PROFILE_CAP as int
                        },
                    ),
                )),
                out.deep_view() == self@.cats.map_values(f).take(i as int),
            decreases n - i,
        {
            let ghost odv = out.deep_view();
            let cat = &self.categories[i];
            let texts = cat.ngrams.persisted_texts();
            out.push((cat.name.clone(), texts));
            proof {
                assert(out.deep_view() =~= odv.push(f(self@.cats[i as int])));
                assert(out.deep_view() =~= self@.cats.map_values(f).take(i + 1));
            }
            i = i + 1;
        }
        proof {
            assert(self@.cats.map_values(f).take(n as int) =~= self@.cats.map_values(f));
        }
        out
    }

    /// Returns the format version tag of this store.
    pub fn version(&self) -> (r: &str)
        ensures
            r@ == self@.version,
    {
        self.version.as_str()
    }

    /// Rebuilds a store from the parts of a persisted document: the version
    /// tag and, per category, its label and ranked n-gram texts in file
    /// order. Ranks are synthetic (file order); counts are not recoverable
    /// and are zero. The threshold is never persisted: it is reset to the
    /// default.
    pub fn from_parts(version: String, parts: Vec<(String, Vec<String>)>) -> (r: Categories)
        ensures
            r@.version == version@,
            r@.threshold == DEFAULT_THRESHOLD,
            r@.cats == parts.deep_view().map_values(
                |p: (Seq<char>, Seq<Seq<char>>)| (
                    p.0,
                    p.1.map_values(|t: Seq<char>| (t, 0u64)),
                ),
            ),
    {
        let ghost f = |p: (Seq<char>, Seq<Seq<char>>)| (
            p.0,
            p.1.map_values(|t: Seq<char>| (t, 0u64)),
        );
        let ghost pdv = parts.deep_view();
        let mut rest = parts;
        let mut categories: Vec<Category> = Vec::new();
        let ghost mut done: int = 0;
        while rest.len() > 0
            invariant
                0 <= done <= pdv.len(),
                rest.deep_view() == pdv.skip(done),
                f == (|p: (Seq<char>, Seq<Seq<char>>)| (
                    p.0,
                    p.1.map_values(|t: Seq<char>| (t, 0u64)),
                )),
                categories.view().map_values(|c: Category| c@) == pdv.take(done).map_values(f),
            decreases rest.len(),
        {
            let ghost restdv = rest.deep_view();
            let ghost prevv = rest@;
            let ghost cdv = categories.view().map_values(|c: Category| c@);
            let (name, texts) = rest.remove(0);
            proof {
                assert(restdv.len() > 0);
                assert(done < pdv.len());
                assert(prevv[0].deep_view() == restdv[0]);
                assert(pdv.skip(done) =~= pdv.subrange(done, pdv.len() as int));
                assert(pdv.subrange(done, pdv.len() as int)[0] == pdv[done]);
                assert((name@, texts.deep_view()) == pdv[done]);
                prevv.remove_ensures(0);
                assert forall|i: int| 0 <= i < rest.deep_view().len() implies rest.deep_view()[i]
                    == pdv.skip(done + 1)[i] by {
                    assert(rest@[i] == prevv[i + 1]);
                    assert(rest.deep_view()[i] == restdv[i + 1]);
                    assert(restdv[i + 1] == pdv.skip(done)[i + 1]);
                    assert(pdv.skip(done)[i + 1] == pdv[done + 1 + i]);
                }
                assert(rest.deep_view() =~= pdv.skip(done + 1));
            }
            let ghost textsdv = texts.deep_view();
            let ngrams = Ngrams::from_ranked_texts(texts);
            categories.push(Category { name, ngrams });
            proof {
                assert(ngrams@ == textsdv.map_values(|t: Seq<char>| (t, 0u64)));
                assert(categories.view().map_values(|c: Category| c@) =~= cdv.push(f(pdv[done])));
                assert(categories.view().map_values(|c: Category| c@) =~= pdv.take(done + 1)
                    .map_values(f));
                done = done + 1;
            }
        }
        proof {
            assert(pdv.take(done) =~= pdv);
        }
        let r = Categories {
            version,
            categories,
            threshold: DEFAULT_THRESHOLD,
        };
        r
    }

    /// Sorts distance/position pairs into candidate order: ascending
    /// distance, ties in training order.
    fn sort_pairs(v: Vec<(u64, usize)>) -> (r: Vec<(u64, usize)>)
        ensures
            r@ == v@.sort_by(pair_order()),
            r@.len() == v@.len(),
    {
        broadcast use vstd::seq_lib::group_to_multiset_ensures;

        proof {
            lemma_pair_order_total();
        }
        let n = v.len();
        let mut out: Vec<(u64, usize)> = Vec::new();
        let mut j: usize = 0;
        while j < n
            invariant
                0 <= j <= n,
                n == v@.len(),
                sorted_by(out@, pair_order()),
                out@.to_multiset() == v@.take(j as int).to_multiset(),
                out@.len() == j,
            decreases n - j,
        {
            let ghost outdv = out@;
            let x = v[j];
            let n_out = out.len();
            let mut k: usize = 0;
            while k < n_out && (out[k].0 < x.0 || (out[k].0 == x.0 && out[k].1 <= x.1))
                invariant
                    0 <= k <= n_out,
                    n_out == out@.len(),
                    out@ == outdv,
                    forall|m: int| 0 <= m < k ==> pair_order()(out@[m], x),
                decreases n_out - k,
            {
                k = k + 1;
            }
            proof {
                lemma_sorted_pair_insert(outdv, x, k as int);
            }
            out.insert(k, x);
            proof {
                assert(out@ =~= outdv.insert(k as int, x));
                vstd::seq_lib::to_multiset_insert(outdv, k as int, x);
                assert(v@.take(j + 1) =~= v@.take(j as int).push(v@[j as int]));
                vstd::seq_lib::to_multiset_build(v@.take(j as int), v@[j as int]);
            }
            j = j + 1;
        }
        proof {
            assert(v@.take(n as int) =~= v@);
            v@.lemma_sort_by_ensures(pair_order());
            vstd::seq_lib::to_multiset_len(out@);
            vstd::seq_lib::to_multiset_len(v@.sort_by(pair_order()));
            lemma_sorted_unique(out@, v@.sort_by(pair_order()), pair_order());
        }
        out
    }

    /// Classifies a sample: the distance from the sample's profile to every
    /// category, sorted ascending (ties in training order), filtered to the
    /// candidates within the threshold band of the best distance. `None`
    /// when the store is empty, and when a distance overflows the result
    /// type.
    pub fn get_categories(&self, sample: &str) -> (r: Option<Vec<(String, u64)>>)
        ensures
            ({
                let prof = ranked_profile(sample@, PROFILE_DEPTH as int);
                &&& (r is Some) == (self@.cats.len() > 0 && fits(self@.cats, prof))
                &&& r is Some ==> r->0.deep_view() == candidates_view(
                    self@.cats,
                    prof,
                    self@.threshold,
                )
            }),
    {
        broadcast use vstd::seq_lib::group_to_multiset_ensures;

        let ghost cats = self@.cats;
        let ghost prof = ranked_profile(sample@, PROFILE_DEPTH as int);
        let ngrams = Ngrams::new(sample, PROFILE_DEPTH);
        let n = self.categories.len();
        if n == 0 {
            return None;
        }
        let mut pairs: Vec<(u64, usize)> = Vec::new();
        let mut i: usize = 0;
        while i < n
            invariant
                0 <= i <= n,
                n == cats.len(),
                cats == self@.cats,
                prof == ngrams@,
                prof == ranked_profile(sample@, PROFILE_DEPTH as int),
                n == self.categories@.len(),
                self@.cats == self.categories@.map_values(|c: Category| c@),
                forall|j: int| 0 <= j < i ==> rank_sum(prof, cats[j].1) <= u64::MAX,
                pairs@ == dist_pairs(cats, prof).take(i as int),
            decreases n - i,
        {
            assert(self.categories@[i as int]@ == cats[i as int]);
            match ngrams.distance_checked(&self.categories[i].ngrams) {
                Some(d) => {
                    pairs.push((d, i));
                    proof {
                        assert(dist_pairs(cats, prof)[i as int] == (d, i as usize));
                        assert(pairs@ =~= dist_pairs(cats, prof).take(i + 1));
                    }
                },
                None => {
                    proof {
                        assert(rank_sum(prof, cats[i as int].1) > u64::MAX);
                        assert(!fits(cats, prof));
                    }
                    return None;
                },
            }
            i = i + 1;
        }
        proof {
            assert(dist_pairs(cats, prof).take(n as int) =~= dist_pairs(cats, prof));
        }
        let sorted = Self::sort_pairs(pairs);
        let ghost sortedv = sorted_pairs(cats, prof);
        proof {
            assert(sorted@ == sortedv);
            lemma_sorted_pairs_positions(cats, prof);
        }
        let best = sorted[0].0;
        assert(best == sortedv[0].0);
        let ghost pred = |p: (u64, usize)| qualifies(p.0, sortedv[0].0, self@.threshold);
        let ghost fmap = |p: (u64, usize)| (cats[p.1 as int].0, p.0);
        let m = sorted.len();
        let mut out: Vec<(String, u64)> = Vec::new();
        let mut k: usize = 0;
        while k < m
            invariant
                0 <= k <= m,
                m == sortedv.len(),
                sorted@ == sortedv,
                best == sortedv[0].0,
                m == n == cats.len(),
                cats == self@.cats,
                n == self.categories@.len(),
                self@.cats == self.categories@.map_values(|c: Category| c@),
                forall|q: int| 0 <= q < sortedv.len() ==> (#[trigger] sortedv[q]).1 < cats.len(),
                pred == (|p: (u64, usize)| qualifies(p.0, sortedv[0].0, self@.threshold)),
                fmap == (|p: (u64, usize)| (cats[p.1 as int].0, p.0)),
                out.deep_view() == sortedv.take(k as int).filter(pred).map_values(fmap),
            decreases m - k,
        {
            let (d, idx) = sorted[k];
            let t128 = THRESHOLD_SCALE as u128;
            let thr = self.threshold;
            proof {
                assert(t128 * (d as u128) < u128::MAX) by (nonlinear_arith)
                    requires
                        t128 == 1000,
                ;
                assert((t128 + (thr as u128)) * (best as u128) < u128::MAX) by (nonlinear_arith)
                    requires
                        t128 == 1000,
                ;
            }
            let qual = t128 * (d as u128) <= (t128 + (thr as u128)) * (best as u128);
            assert(qual == pred(sortedv[k as int]));
            let ghost odv = out.deep_view();
            if qual {
                assert(idx < self.categories@.len());
                out.push((self.categories[idx].name.clone(), d));
                proof {
                    assert(self.categories@[idx as int]@ == cats[idx as int]);
                    assert(out.deep_view() =~= odv.push(fmap(sortedv[k as int])));
                }
            }
            proof {
                reveal(Seq::filter);
                assert(sortedv.take(k + 1).drop_last() =~= sortedv.take(k as int));
                assert(sortedv.take(k + 1).last() == sortedv[k as int]);
                if pred(sortedv[k as int]) {
                    assert(sortedv.take(k + 1).filter(pred) == sortedv.take(k as int).filter(
                        pred,
                    ).push(sortedv[k as int]));
                    assert(out.deep_view() =~= sortedv.take(k + 1).filter(pred).map_values(fmap));
                } else {
                    assert(sortedv.take(k + 1).filter(pred) == sortedv.take(k as int).filter(
                        pred,
                    ));
                }
            }
            k = k + 1;
        }
        proof {
            assert(sortedv.take(m as int) =~= sortedv);
        }
        Some(out)
    }

    /// Classifies a sample to a single label: the label of the one category
    /// within the threshold band of the best distance. `None` when the store
    /// is empty and when two or more categories are too close to call —
    /// absence and ambiguity are indistinguishable here by design.
    pub fn get_category(&self, sample: &str) -> (r: Option<String>)
        ensures
            ({
                let prof = ranked_profile(sample@, PROFILE_DEPTH as int);
                let cands = candidates_view(self@.cats, prof, self@.threshold);
                &&& (r is Some) == (self@.cats.len() > 0 && fits(self@.cats, prof) && cands.len()
                    == 1)
                &&& r is Some ==> r->0@ == cands[0].0
            }),
    {
        match self.get_categories(sample) {
            Some(categories) => {
                if categories.len() == 1 {
                    let mut categories = categories;
                    let (name, _d) = categories.remove(0);
                    Some(name)
                } else {
                    None
                }
            },
            None => None,
        }
    }

    /// Updates the runtime ambiguity threshold, in parts per
    /// [`THRESHOLD_SCALE`]. A value outside the open unit interval is
    /// rejected and leaves the store unchanged.
    pub fn set_threshold(&mut self, threshold: u32) -> (r: Result<(), &'static str>)
        ensures
            threshold == 0 || threshold >= THRESHOLD_SCALE ==> r is Err && final(self)@
                == old(self)@,
            0 < threshold < THRESHOLD_SCALE ==> r is Ok && final(self)@ == (StoreView {
                threshold,
                ..old(self)@
            }),
    {
        if threshold == 0 || threshold >= THRESHOLD_SCALE {
            return Err("the threshold has to be between 0 and 1");
        }
        self.threshold = threshold;
        Ok(())
    }
}

} // verus!
