//! N-gram extraction, ranking and rank distance.
//!
//! A text is normalized, overlapping character n-grams of every length from 1
//! up to a requested maximum are extracted and counted, and the distinct
//! n-grams are ranked by descending count with a deterministic tie-break on
//! the text itself. The resulting profile supports rank lookup and an
//! out-of-place rank distance between two profiles.
use vstd::prelude::*;
use vstd::relations::{sorted_by, total_ordering};
use vstd::seq_lib::lemma_sorted_unique;
use crate::lexord::{lex_le, lemma_lex_le_antisymmetric, lemma_lex_le_total, lemma_lex_le_transitive, str_eq, str_lex_le};
use crate::normalize::{char_is_ascii_punct, is_ascii_punct, is_numeric_char, normal_text, normalize};

verus! {

/// Ranked n-gram lists persisted from a profile are truncated to this many entries.
pub const PROFILE_CAP: usize = 400;

/// Rank penalty added for a sample n-gram that is absent from the reference profile.
pub const ABSENT_PENALTY: u64 = 5000;

/// A single extracted n-gram: a text and its occurrence count within one text.
///
/// The count is meaningful only while a profile is built; once ranked, only
/// the relative order matters.
#[derive(Debug)]
pub struct Ngram {
    text: String,
    count: u64,
}

impl View for Ngram {
    type V = (Seq<char>, u64);

    closed spec fn view(&self) -> (Seq<char>, u64) {
        (self.text@, self.count)
    }
}

impl DeepView for Ngram {
    type V = (Seq<char>, u64);

    closed spec fn deep_view(&self) -> (Seq<char>, u64) {
        self.view()
    }
}

impl Ngram {
    /// Returns a reference to the n-gram text.
    pub fn ngram(&self) -> (r: &String)
        ensures
            r@ == self@.0,
    {
        &self.text
    }

    /// Returns the occurrence count of the n-gram.
    pub fn score(&self) -> (r: u64)
        ensures
            r == self@.1,
    {
        self.count
    }
}

/// Whether a single character is kept as a 1-gram: digits and ASCII
/// punctuation (the separator among them) carry no signal on their own.
pub open spec fn keep_unigram(c: char) -> bool {
    !is_numeric_char(c) && !is_ascii_punct(c)
}

/// The n-grams of length `l` of `t` whose starting position is below `n`, in
/// position order; 1-grams are filtered through [`keep_unigram`].
pub open spec fn grams_prefix(t: Seq<char>, l: int, n: int) -> Seq<Seq<char>>
    recommends
        1 <= l,
        n + l <= t.len() + 1,
    decreases n,
{
    if n <= 0 {
        Seq::empty()
    } else {
        grams_prefix(t, l, n - 1) + if l == 1 && !keep_unigram(t[n - 1]) {
            Seq::empty()
        } else {
            seq![t.subrange(n - 1, n - 1 + l)]
        }
    }
}

/// All n-grams of length `l` of `t`, in position order.
pub open spec fn grams_of_len(t: Seq<char>, l: int) -> Seq<Seq<char>> {
    if 1 <= l <= t.len() {
        grams_prefix(t, l, t.len() - l + 1)
    } else {
        Seq::empty()
    }
}

/// All n-grams of `t` of every length in `start..end`, grouped by length and
/// in position order within one length.
pub open spec fn grams_range(t: Seq<char>, start: int, end: int) -> Seq<Seq<char>>
    decreases end - start,
{
    if start >= end {
        Seq::empty()
    } else {
        grams_range(t, start, end - 1) + grams_of_len(t, end - 1)
    }
}

/// Whether some pair in `s` has `x` as its text.
pub open spec fn has_key(s: Seq<(Seq<char>, u64)>, x: Seq<char>) -> bool {
    exists|i: int| 0 <= i < s.len() && s[i].0 == x
}

/// The position of the first pair in `s` whose text is `x` (or `s.len()` if absent).
pub open spec fn key_index(s: Seq<(Seq<char>, u64)>, x: Seq<char>) -> int
    decreases s.len(),
{
    if s.len() == 0 {
        0
    } else if s[0].0 == x {
        0
    } else {
        1 + key_index(s.drop_first(), x)
    }
}

/// `s` with the count of n-gram `x` raised by one: the first pair with text
/// `x` is bumped, or a fresh pair with count 1 is appended.
pub open spec fn bump(s: Seq<(Seq<char>, u64)>, x: Seq<char>) -> Seq<(Seq<char>, u64)> {
    if has_key(s, x) {
        let i = key_index(s, x);
        s.update(i, (x, (s[i].1 + 1) as u64))
    } else {
        s.push((x, 1u64))
    }
}

/// The per-distinct-n-gram counts of the n-gram list `gs`, accumulated in
/// first-occurrence order.
pub open spec fn counts_of(gs: Seq<Seq<char>>) -> Seq<(Seq<char>, u64)>
    decreases gs.len(),
{
    if gs.len() == 0 {
        Seq::empty()
    } else {
        bump(counts_of(gs.drop_last()), gs.last())
    }
}

/// The number of occurrences of `x` in the n-gram list `gs`.
pub open spec fn count_in(gs: Seq<Seq<char>>, x: Seq<char>) -> int
    decreases gs.len(),
{
    if gs.len() == 0 {
        0
    } else {
        count_in(gs.drop_last(), x) + if gs.last() == x {
            1int
        } else {
            0int
        }
    }
}

/// An occurrence count never exceeds the length of the n-gram list.
pub proof fn lemma_count_in_le_len(gs: Seq<Seq<char>>, x: Seq<char>)
    ensures
        0 <= count_in(gs, x) <= gs.len(),
    decreases gs.len(),
{
    if gs.len() != 0 {
        lemma_count_in_le_len(gs.drop_last(), x);
    }
}

/// The first pair with text `x` indeed sits at `key_index`, and nothing with
/// text `x` sits before it.
pub proof fn lemma_key_index_ensures(s: Seq<(Seq<char>, u64)>, x: Seq<char>)
    ensures
        has_key(s, x) ==> {
            let i = key_index(s, x);
            &&& 0 <= i < s.len()
            &&& s[i].0 == x
            &&& forall|j: int| 0 <= j < i ==> s[j].0 != x
        },
        !has_key(s, x) ==> key_index(s, x) == s.len(),
    decreases s.len(),
{
    if s.len() != 0 && s[0].0 != x {
        lemma_key_index_ensures(s.drop_first(), x);
        assert(has_key(s, x) ==> has_key(s.drop_first(), x)) by {
            if has_key(s, x) {
                let i = choose|i: int| 0 <= i < s.len() && s[i].0 == x;
                assert(s.drop_first()[i - 1].0 == x);
            }
        }
        assert forall|j: int| 0 <= j < key_index(s, x) && has_key(s, x) implies s[j].0 != x by {
            if j > 0 {
                assert(s.drop_first()[j - 1].0 == s[j].0);
            }
        }
    }
}

/// What `counts_of` promises: pairwise distinct texts, each text's count is
/// its number of occurrences, and exactly the occurring n-grams are present.
pub proof fn lemma_counts_of_ensures(gs: Seq<Seq<char>>)
    requires
        gs.len() <= u64::MAX,
    ensures
        forall|i: int, j: int|
            0 <= i < j < counts_of(gs).len() ==> counts_of(gs)[i].0 != counts_of(gs)[j].0,
        forall|i: int|
            0 <= i < counts_of(gs).len() ==> counts_of(gs)[i].1 == count_in(gs, counts_of(gs)[i].0),
        forall|x: Seq<char>| has_key(counts_of(gs), x) <==> count_in(gs, x) > 0,
    decreases gs.len(),
{
    if gs.len() != 0 {
        let pre = gs.drop_last();
        let x = gs.last();
        let c = counts_of(pre);
        let cc = counts_of(gs);
        lemma_counts_of_ensures(pre);
        lemma_key_index_ensures(c, x);
        lemma_count_in_le_len(pre, x);
        if has_key(c, x) {
            let i = key_index(c, x);
            assert(cc =~= c.update(i, (x, (c[i].1 + 1) as u64)));
            assert(count_in(gs, x) == count_in(pre, x) + 1);
            assert forall|y: Seq<char>| has_key(cc, y) implies count_in(gs, y) > 0 by {
                let j = choose|j: int| 0 <= j < cc.len() && cc[j].0 == y;
                if j == i {
                    assert(y == x);
                } else {
                    assert(c[j].0 == y);
                    assert(has_key(c, y));
                    assert(count_in(pre, y) > 0);
                    assert(count_in(gs, y) == count_in(pre, y) + if y == x {
                        1int
                    } else {
                        0int
                    });
                }
            }
            assert forall|y: Seq<char>| count_in(gs, y) > 0 implies has_key(cc, y) by {
                if y == x {
                    assert(cc[i].0 == x);
                } else {
                    assert(count_in(gs, y) == count_in(pre, y));
                    assert(has_key(c, y));
                    let j = choose|j: int| 0 <= j < c.len() && c[j].0 == y;
                    assert(cc[j].0 == y);
                }
            }
            assert forall|j: int| 0 <= j < cc.len() implies cc[j].1 == count_in(gs, cc[j].0) by {
                if j != i {
                    assert(cc[j] == c[j]);
                    assert(c[j].0 != x);
                    assert(count_in(gs, c[j].0) == count_in(pre, c[j].0));
                } else {
                    assert(c[i].1 == count_in(pre, x));
                    assert(c[i].1 + 1 <= u64::MAX);
                    assert(cc[i].1 == count_in(pre, x) + 1);
                }
            }
        } else {
            assert(count_in(pre, x) == 0);
            assert(cc =~= c.push((x, 1u64)));
            assert forall|y: Seq<char>| has_key(cc, y) implies count_in(gs, y) > 0 by {
                let j = choose|j: int| 0 <= j < cc.len() && cc[j].0 == y;
                if j < c.len() {
                    assert(c[j].0 == y);
                    assert(has_key(c, y));
                    assert(count_in(pre, y) > 0);
                    assert(count_in(gs, y) == count_in(pre, y) + if y == x {
                        1int
                    } else {
                        0int
                    });
                } else {
                    assert(y == x);
                    assert(count_in(gs, x) == count_in(pre, x) + 1);
                }
            }
            assert forall|y: Seq<char>| count_in(gs, y) > 0 implies has_key(cc, y) by {
                if y == x {
                    assert(cc[cc.len() - 1].0 == x);
                } else {
                    assert(count_in(gs, y) == count_in(pre, y));
                    assert(has_key(c, y));
                    let j = choose|j: int| 0 <= j < c.len() && c[j].0 == y;
                    assert(cc[j].0 == y);
                }
            }
            assert forall|j: int| 0 <= j < cc.len() implies cc[j].1 == count_in(gs, cc[j].0) by {
                if j < c.len() {
                    assert(cc[j] == c[j]);
                    assert(c[j].0 != x) by {
                        if c[j].0 == x {
                            assert(has_key(c, x));
                        }
                    }
                    assert(count_in(gs, c[j].0) == count_in(pre, c[j].0));
                } else {
                    assert(cc[j] == (x, 1u64));
                    assert(count_in(gs, x) == count_in(pre, x) + 1);
                }
            }
            assert forall|j1: int, j2: int|
                0 <= j1 < j2 < cc.len() implies cc[j1].0 != cc[j2].0 by {
                if j2 == c.len() {
                    assert(cc[j1].0 == c[j1].0);
                    if c[j1].0 == x {
                        assert(has_key(c, x));
                    }
                }
            }
        }
    }
}

/// Set of n-grams extracted from one text, ranked by descending count with a
/// deterministic tie-break, or rebuilt from a persisted ranked list.
#[derive(Debug)]
pub struct Ngrams {
    ngrams: Vec<Ngram>,
}

impl View for Ngrams {
    type V = Seq<(Seq<char>, u64)>;

    closed spec fn view(&self) -> Seq<(Seq<char>, u64)> {
        self.ngrams.deep_view()
    }
}

/// The rank of the first pair in `s` whose text is `x`, or `None` if no pair
/// has that text.
pub open spec fn rank_of(s: Seq<(Seq<char>, u64)>, x: Seq<char>) -> Option<int>
    decreases s.len(),
{
    if s.len() == 0 {
        None
    } else if s[0].0 == x {
        Some(0int)
    } else {
        match rank_of(s.drop_first(), x) {
            Some(k) => Some(k + 1),
            None => None,
        }
    }
}

/// A found rank lies in bounds, names a pair with the sought text, and is
/// the first such; absence means no pair has the text.
pub proof fn lemma_rank_of_ensures(s: Seq<(Seq<char>, u64)>, x: Seq<char>)
    ensures
        match rank_of(s, x) {
            Some(k) => 0 <= k < s.len() && s[k].0 == x && forall|j: int| 0 <= j < k ==> s[j].0 != x,
            None => forall|j: int| 0 <= j < s.len() ==> s[j].0 != x,
        },
    decreases s.len(),
{
    if s.len() != 0 && s[0].0 != x {
        lemma_rank_of_ensures(s.drop_first(), x);
        match rank_of(s, x) {
            Some(k) => {
                assert(rank_of(s.drop_first(), x) == Some(k - 1));
                assert(s[k].0 == s.drop_first()[k - 1].0);
                assert forall|j: int| 0 <= j < k implies s[j].0 != x by {
                    if j > 0 {
                        assert(s.drop_first()[j - 1].0 != x);
                    }
                }
            },
            None => {
                assert forall|j: int| 0 <= j < s.len() implies s[j].0 != x by {
                    if j > 0 {
                        assert(s.drop_first()[j - 1].0 != x);
                    }
                }
            },
        }
    }
}

/// The position of the first matching entry, as a search finds it, is
/// exactly what `rank_of` names.
pub proof fn lemma_rank_of_first(s: Seq<(Seq<char>, u64)>, x: Seq<char>, r: Option<usize>)
    requires
        match r {
            Some(i) => i < s.len() && s[i as int].0 == x && forall|j: int|
                0 <= j < i ==> s[j].0 != x,
            None => forall|j: int| 0 <= j < s.len() ==> s[j].0 != x,
        },
    ensures
        rank_of(s, x) == match r {
            Some(i) => Some(i as int),
            None => None::<int>,
        },
{
    lemma_rank_of_ensures(s, x);
    match r {
        Some(i) => {
            match rank_of(s, x) {
                Some(k) => {
                    assert(!(k < i) && !(i < k));
                },
                None => {
                    assert(s[i as int].0 != x);
                },
            }
        },
        None => {
            match rank_of(s, x) {
                Some(k) => {
                    assert(s[k].0 != x);
                },
                None => {},
            }
        },
    }
}

/// The out-of-place contribution of one sample n-gram `g` against the
/// reference profile `refp`: its rank there, or the fixed penalty when absent.
pub open spec fn rank_term(refp: Seq<(Seq<char>, u64)>, g: Seq<char>) -> int {
    match rank_of(refp, g) {
        Some(k) => k,
        None => ABSENT_PENALTY as int,
    }
}

/// The out-of-place distance from the sample profile to the reference
/// profile: the sum, over the sample's ranked n-grams, of each n-gram's rank
/// in the reference, with the fixed penalty for n-grams absent there.
pub open spec fn rank_sum(sample: Seq<(Seq<char>, u64)>, refp: Seq<(Seq<char>, u64)>) -> int
    decreases sample.len(),
{
    if sample.len() == 0 {
        0
    } else {
        rank_sum(sample.drop_last(), refp) + rank_term(refp, sample.last().0)
    }
}

/// Every out-of-place contribution is non-negative.
pub proof fn lemma_rank_term_nonneg(refp: Seq<(Seq<char>, u64)>, g: Seq<char>)
    ensures
        rank_term(refp, g) >= 0,
{
    lemma_rank_of_ensures(refp, g);
}

/// A distance is non-negative, and grows with the sample prefix summed.
pub proof fn lemma_rank_sum_take(sample: Seq<(Seq<char>, u64)>, refp: Seq<(Seq<char>, u64)>, i: int)
    requires
        0 <= i <= sample.len(),
    ensures
        0 <= rank_sum(sample.take(i), refp) <= rank_sum(sample, refp),
    decreases sample.len(),
{
    if sample.len() == 0 {
        assert(sample.take(i) =~= sample);
    } else if i == sample.len() {
        assert(sample.take(i) =~= sample);
        lemma_rank_sum_take(sample.drop_last(), refp, i - 1);
        lemma_rank_term_nonneg(refp, sample.last().0);
    } else {
        assert(sample.take(i) =~= sample.drop_last().take(i));
        lemma_rank_sum_take(sample.drop_last(), refp, i);
        lemma_rank_term_nonneg(refp, sample.last().0);
    }
}

/// The profile order: by descending count, ties broken by descending
/// lexicographic order of the n-gram text itself.
pub open spec fn rank_le(a: (Seq<char>, u64), b: (Seq<char>, u64)) -> bool {
    b.1 < a.1 || (a.1 == b.1 && lex_le(b.0, a.0))
}

/// The profile order as a relation value.
pub open spec fn rank_order() -> spec_fn((Seq<char>, u64), (Seq<char>, u64)) -> bool {
    |a: (Seq<char>, u64), b: (Seq<char>, u64)| rank_le(a, b)
}

/// The profile order is a total order on n-gram/count pairs.
pub proof fn lemma_rank_order_total()
    ensures
        total_ordering(rank_order()),
{
    let leq = rank_order();
    assert forall|a: (Seq<char>, u64)| #[trigger] leq(a, a) by {
        lemma_lex_le_total(a.0, a.0);
    }
    assert forall|a: (Seq<char>, u64), b: (Seq<char>, u64)| #[trigger]
        leq(a, b) && #[trigger] leq(b, a) implies a == b by {
        lemma_lex_le_antisymmetric(a.0, b.0);
    }
    assert forall|a: (Seq<char>, u64), b: (Seq<char>, u64), c: (Seq<char>, u64)| #[trigger]
        leq(a, b) && #[trigger] leq(b, c) implies leq(a, c) by {
        if a.1 == b.1 && b.1 == c.1 {
            lemma_lex_le_transitive(c.0, b.0, a.0);
        }
    }
    assert forall|a: (Seq<char>, u64), b: (Seq<char>, u64)| #[trigger] leq(a, b) || #[trigger]
        leq(b, a) by {
        if a.1 == b.1 {
            lemma_lex_le_total(a.0, b.0);
        }
    }
}

/// The ranked profile of raw text `s` with n-gram lengths `1..max`: the
/// distinct n-grams with their counts, sorted by the profile order.
pub open spec fn ranked_profile(s: Seq<char>, max: int) -> Seq<(Seq<char>, u64)> {
    counts_of(grams_range(normal_text(s), 1, max)).sort_by(rank_order())
}

/// Inserting `x` between the elements below it and the elements above it
/// keeps a sequence sorted.
proof fn lemma_sorted_insert(
    s: Seq<(Seq<char>, u64)>,
    x: (Seq<char>, u64),
    k: int,
)
    requires
        sorted_by(s, rank_order()),
        0 <= k <= s.len(),
        forall|m: int| 0 <= m < k ==> rank_order()(s[m], x),
        k < s.len() ==> !rank_order()(s[k], x),
    ensures
        sorted_by(s.insert(k, x), rank_order()),
{
    let leq = rank_order();
    lemma_rank_order_total();
    let t = s.insert(k, x);
    assert forall|i: int, j: int| 0 <= i < j < t.len() implies leq(t[i], t[j]) by {
        if i < k && j < k {
            assert(t[i] == s[i] && t[j] == s[j]);
        } else if i < k && j == k {
            assert(t[i] == s[i]);
        } else if i < k && j > k {
            assert(t[i] == s[i] && t[j] == s[j - 1]);
        } else if i == k && j > k {
            assert(t[j] == s[j - 1]);
            assert(leq(x, s[k]));
            if j - 1 > k {
                assert(leq(s[k], s[j - 1]));
            }
        } else {
            assert(t[i] == s[i - 1] && t[j] == s[j - 1]);
        }
    }
}

/// Whether the texts of the pairs in `s` are pairwise distinct.
pub open spec fn distinct_keys(s: Seq<(Seq<char>, u64)>) -> bool {
    forall|i: int, j: int| 0 <= i < j < s.len() ==> s[i].0 != s[j].0
}

/// In a profile with distinct texts, every entry's rank is its own position.
pub proof fn lemma_rank_of_at(s: Seq<(Seq<char>, u64)>, i: int)
    requires
        distinct_keys(s),
        0 <= i < s.len(),
    ensures
        rank_of(s, s[i].0) == Some(i),
{
    lemma_rank_of_ensures(s, s[i].0);
    match rank_of(s, s[i].0) {
        Some(k) => {
            assert(!(i < k));
            assert(!(k < i));
        },
        None => {
            assert(s[i].0 == s[i].0);
        },
    }
}

/// A sequence of pairs with pairwise distinct texts holds each pair at most once.
proof fn lemma_distinct_pair_count(a: Seq<(Seq<char>, u64)>, x: (Seq<char>, u64))
    requires
        distinct_keys(a),
    ensures
        a.to_multiset().count(x) <= 1,
{
    broadcast use vstd::seq_lib::group_to_multiset_ensures;
    broadcast use vstd::multiset::group_multiset_axioms;

    if a.to_multiset().count(x) > 0 {
        assert(a.contains(x));
        let i = choose|i: int| 0 <= i < a.len() && a[i] == x;
        vstd::seq_lib::to_multiset_remove(a, i);
        if a.remove(i).to_multiset().count(x) > 0 {
            assert(a.remove(i).contains(x));
            let j = choose|j: int| 0 <= j < a.remove(i).len() && a.remove(i)[j] == x;
            a.remove_ensures(i);
            if j < i {
                assert(a[j] == x);
            } else {
                assert(a[j + 1] == x);
            }
            assert(false);
        }
    }
}

/// Reordering a sequence of pairs keeps its texts pairwise distinct.
proof fn lemma_permuted_distinct_keys(a: Seq<(Seq<char>, u64)>, b: Seq<(Seq<char>, u64)>)
    requires
        a.to_multiset() == b.to_multiset(),
        distinct_keys(a),
    ensures
        distinct_keys(b),
{
    broadcast use vstd::seq_lib::group_to_multiset_ensures;
    broadcast use vstd::multiset::group_multiset_axioms;

    assert forall|i: int, j: int| 0 <= i < j < b.len() implies b[i].0 != b[j].0 by {
        if b[i].0 == b[j].0 {
            if b[i] == b[j] {
                vstd::seq_lib::to_multiset_remove(b, i);
                b.remove_ensures(i);
                assert(b.remove(i)[j - 1] == b[j]);
                assert(b.remove(i).contains(b[j]));
                assert(b.remove(i).to_multiset().count(b[j]) > 0);
                assert(b.to_multiset().count(b[i]) >= 2);
                lemma_distinct_pair_count(a, b[i]);
            } else {
                assert(b.contains(b[i]) && b.contains(b[j]));
                assert(a.to_multiset().count(b[i]) > 0 && a.to_multiset().count(b[j]) > 0);
                assert(a.contains(b[i]) && a.contains(b[j]));
                let ia = choose|k: int| 0 <= k < a.len() && a[k] == b[i];
                let ja = choose|k: int| 0 <= k < a.len() && a[k] == b[j];
                assert(a[ia].0 == a[ja].0 && ia != ja);
            }
        }
    }
}

/// Tie-break determinism: a ranked profile is sorted by the profile order,
/// so n-grams of equal count always stand in descending lexicographic order
/// of their texts.
pub proof fn lemma_ranked_profile_sorted(s: Seq<char>, max: int)
    ensures
        sorted_by(ranked_profile(s, max), rank_order()),
        forall|i: int, j: int|
            0 <= i < j < ranked_profile(s, max).len() && ranked_profile(s, max)[i].1
                == ranked_profile(s, max)[j].1 ==> lex_le(
                ranked_profile(s, max)[j].0,
                ranked_profile(s, max)[i].0,
            ),
{
    let gs = grams_range(normal_text(s), 1, max);
    lemma_rank_order_total();
    counts_of(gs).lemma_sort_by_ensures(rank_order());
    let p = ranked_profile(s, max);
    assert forall|i: int, j: int|
        0 <= i < j < p.len() && p[i].1 == p[j].1 implies lex_le(p[j].0, p[i].0) by {
        assert(rank_order()(p[i], p[j]));
    }
}

/// A ranked profile holds exactly the n-grams that occur in the text, each
/// with its true occurrence count.
pub proof fn lemma_ranked_profile_counts(s: Seq<char>, max: int)
    requires
        grams_range(normal_text(s), 1, max).len() <= u64::MAX,
    ensures
        forall|i: int|
            0 <= i < ranked_profile(s, max).len() ==> (#[trigger] ranked_profile(s, max)[i]).1
                == count_in(grams_range(normal_text(s), 1, max), ranked_profile(s, max)[i].0),
        forall|x: Seq<char>|
            has_key(ranked_profile(s, max), x) <==> count_in(
                grams_range(normal_text(s), 1, max),
                x,
            ) > 0,
{
    broadcast use vstd::seq_lib::group_to_multiset_ensures;

    let gs = grams_range(normal_text(s), 1, max);
    let c = counts_of(gs);
    let p = ranked_profile(s, max);
    lemma_counts_of_ensures(gs);
    lemma_rank_order_total();
    c.lemma_sort_by_ensures(rank_order());
    assert forall|i: int| 0 <= i < p.len() implies (#[trigger] p[i]).1 == count_in(gs, p[i].0) by {
        assert(p.contains(p[i]));
        assert(c.to_multiset().count(p[i]) > 0);
        assert(c.contains(p[i]));
        let j = choose|j: int| 0 <= j < c.len() && c[j] == p[i];
        assert(c[j].1 == count_in(gs, c[j].0));
    }
    assert forall|x: Seq<char>| has_key(p, x) implies count_in(gs, x) > 0 by {
        let i = choose|i: int| 0 <= i < p.len() && p[i].0 == x;
        assert(p.contains(p[i]));
        assert(c.to_multiset().count(p[i]) > 0);
        assert(c.contains(p[i]));
        let j = choose|j: int| 0 <= j < c.len() && c[j] == p[i];
        assert(has_key(c, x));
    }
    assert forall|x: Seq<char>| count_in(gs, x) > 0 implies has_key(p, x) by {
        assert(has_key(c, x));
        let j = choose|j: int| 0 <= j < c.len() && c[j].0 == x;
        assert(c.contains(c[j]));
        assert(p.to_multiset().count(c[j]) > 0);
        assert(p.contains(c[j]));
        let i = choose|i: int| 0 <= i < p.len() && p[i] == c[j];
        assert(p[i].0 == x);
    }
}

/// A ranked profile built from a text carries pairwise distinct n-gram texts.
pub proof fn lemma_ranked_profile_distinct(s: Seq<char>, max: int)
    requires
        grams_range(normal_text(s), 1, max).len() <= u64::MAX,
    ensures
        distinct_keys(ranked_profile(s, max)),
{
    let gs = grams_range(normal_text(s), 1, max);
    let c = counts_of(gs);
    lemma_counts_of_ensures(gs);
    lemma_rank_order_total();
    c.lemma_sort_by_ensures(rank_order());
    lemma_permuted_distinct_keys(c, ranked_profile(s, max));
}

/// Self-distance is minimal and deterministic: a profile with distinct
/// texts, measured against itself, finds every n-gram at exactly its own
/// rank, so the distance is the sum of the ranks `0 + 1 + ... + (len - 1)`.
pub proof fn lemma_self_distance(p: Seq<(Seq<char>, u64)>)
    requires
        distinct_keys(p),
    ensures
        rank_sum(p, p) == p.len() * (p.len() - 1) / 2,
{
    lemma_self_distance_partial(p, p.len() as int);
    assert(p.take(p.len() as int) =~= p);
}

/// The sum of the first `m` self-ranks is the `m`-th triangular number.
proof fn lemma_self_distance_partial(p: Seq<(Seq<char>, u64)>, m: int)
    requires
        distinct_keys(p),
        0 <= m <= p.len(),
    ensures
        rank_sum(p.take(m), p) == m * (m - 1) / 2,
    decreases m,
{
    if m == 0 {
        assert(p.take(0).len() == 0);
        assert(rank_sum(p.take(0), p) == 0);
    } else {
        lemma_self_distance_partial(p, m - 1);
        assert(p.take(m).drop_last() =~= p.take(m - 1));
        assert(p.take(m).last() == p[m - 1]);
        lemma_rank_of_at(p, m - 1);
        assert(rank_term(p, p[m - 1].0) == m - 1);
        assert(rank_sum(p.take(m), p) == rank_sum(p.take(m - 1), p) + (m - 1));
        assert(rank_sum(p.take(m), p) == (m - 1) * (m - 2) / 2 + (m - 1));
        assert((m - 1) * (m - 2) / 2 + (m - 1) == m * (m - 1) / 2) by (nonlinear_arith);
    }
}

/// Monotonic penalty for absence: when two profiles share no n-grams, every
/// n-gram of the sample profile draws the fixed penalty, so the distance is
/// exactly the penalty times the sample profile's length.
pub proof fn lemma_disjoint_distance(a: Seq<(Seq<char>, u64)>, b: Seq<(Seq<char>, u64)>)
    requires
        forall|i: int| 0 <= i < a.len() ==> !has_key(b, a[i].0),
    ensures
        rank_sum(a, b) == ABSENT_PENALTY * a.len(),
    decreases a.len(),
{
    if a.len() > 0 {
        assert forall|i: int| 0 <= i < a.drop_last().len() implies !has_key(
            b,
            a.drop_last()[i].0,
        ) by {
            assert(a.drop_last()[i] == a[i]);
        }
        lemma_disjoint_distance(a.drop_last(), b);
        lemma_rank_of_ensures(b, a.last().0);
        match rank_of(b, a.last().0) {
            Some(k) => {
                assert(has_key(b, a[a.len() - 1].0));
            },
            None => {},
        }
    }
}

/// Truncation round-trip: persisting a profile of more than the cap of
/// ranked n-grams and rebuilding it from the persisted list yields exactly
/// the cap's worth of entries, in the original top order, with every rank
/// renumbered to the entry's position.
pub proof fn lemma_truncation_round_trip(p: Seq<(Seq<char>, u64)>)
    requires
        distinct_keys(p),
        p.len() > PROFILE_CAP,
    ensures
        ({
            let texts = p.map_values(|pr: (Seq<char>, u64)| pr.0).take(PROFILE_CAP as int);
            let rebuilt = texts.map_values(|t: Seq<char>| (t, 0u64));
            &&& rebuilt.len() == PROFILE_CAP
            &&& forall|i: int| 0 <= i < PROFILE_CAP ==> rebuilt[i].0 == p[i].0
            &&& forall|i: int| 0 <= i < PROFILE_CAP ==> rank_of(rebuilt, p[i].0) == Some(i)
        }),
{
    let texts = p.map_values(|pr: (Seq<char>, u64)| pr.0).take(PROFILE_CAP as int);
    let rebuilt = texts.map_values(|t: Seq<char>| (t, 0u64));
    assert forall|i: int| 0 <= i < PROFILE_CAP implies rebuilt[i].0 == p[i].0 by {}
    assert(distinct_keys(rebuilt));
    assert forall|i: int| 0 <= i < PROFILE_CAP implies rank_of(rebuilt, p[i].0) == Some(i) by {
        lemma_rank_of_at(rebuilt, i);
    }
}

impl Ngrams {
    /// Finds the position of the first entry of `v` whose text is `text`.
    fn find_first(v: &Vec<Ngram>, text: &str) -> (r: Option<usize>)
        ensures
            match r {
                Some(i) => i < v.deep_view().len() && v.deep_view()[i as int].0 == text@ && forall|
                    j: int,
                |
                    0 <= j < i ==> v.deep_view()[j].0 != text@,
                None => forall|j: int| 0 <= j < v.deep_view().len() ==> v.deep_view()[j].0 != text@,
            },
    {
        let n = v.len();
        let mut i: usize = 0;
        while i < n
            invariant
                0 <= i <= n,
                n == v.deep_view().len(),
                forall|j: int| 0 <= j < i ==> v.deep_view()[j].0 != text@,
            decreases n - i,
        {
            if str_eq(v[i].text.as_str(), text) {
                assert(v.deep_view()[i as int].0 == text@);
                return Some(i);
            }
            assert(v.deep_view()[i as int].0 != text@);
            i = i + 1;
        }
        None
    }

    /// Counts the n-grams of a text: every length from 1 up to excluding
    /// `length`, accumulated per distinct n-gram across all lengths and
    /// positions.
    pub fn parse_text(text: &str, length: usize) -> (r: Vec<Ngram>)
        ensures
            r.deep_view() == counts_of(grams_range(normal_text(text@), 1, length as int)),
    {
        let grams = Self::split(text, 1, length);
        let ghost gsv = grams.deep_view();
        let mut acc: Vec<Ngram> = Vec::new();
        let n = grams.len();
        let mut j: usize = 0;
        while j < n
            invariant
                0 <= j <= n,
                n == gsv.len(),
                gsv == grams.deep_view(),
                acc.deep_view() == counts_of(gsv.take(j as int)),
            decreases n - j,
        {
            let ghost prefix = gsv.take(j as int);
            let ghost accdv = acc.deep_view();
            proof {
                lemma_counts_of_ensures(prefix);
                assert(gsv.take(j + 1).drop_last() =~= prefix);
                assert(gsv.take(j + 1).last() == gsv[j as int]);
            }
            let g = &grams[j];
            assert(g@ == gsv[j as int]);
            match Self::find_first(&acc, g.as_str()) {
                Some(i) => {
                    proof {
                        assert(has_key(accdv, g@));
                        lemma_key_index_ensures(accdv, g@);
                        assert(key_index(accdv, g@) == i);
                        lemma_count_in_le_len(prefix, g@);
                        assert(accdv[i as int].1 == count_in(prefix, g@));
                    }
                    let c = acc[i].count;
                    acc[i].count = c + 1;
                    proof {
                        assert(acc.deep_view() =~= accdv.update(i as int, (g@, (c + 1) as u64)));
                        assert(acc.deep_view() == bump(accdv, g@));
                    }
                },
                None => {
                    assert(!has_key(accdv, g@));
                    acc.push(Ngram { text: g.clone(), count: 1 });
                    proof {
                        assert(acc.deep_view() =~= accdv.push((g@, 1u64)));
                        assert(acc.deep_view() == bump(accdv, g@));
                    }
                },
            }
            j = j + 1;
        }
        proof {
            assert(gsv.take(n as int) =~= gsv);
        }
        acc
    }

    /// Sorts extracted n-grams into profile order: descending count, ties
    /// broken by descending lexicographic order of the text.
    fn sort_ngrams(v: Vec<Ngram>) -> (r: Vec<Ngram>)
        ensures
            r.deep_view() == v.deep_view().sort_by(rank_order()),
    {
        broadcast use vstd::seq_lib::group_to_multiset_ensures;

        let ghost orig = v.deep_view();
        proof {
            lemma_rank_order_total();
        }
        let mut rest = v;
        let mut out: Vec<Ngram> = Vec::new();
        let ghost mut done: int = 0;
        while rest.len() > 0
            invariant
                0 <= done <= orig.len(),
                rest.deep_view() == orig.skip(done),
                sorted_by(out.deep_view(), rank_order()),
                out.deep_view().to_multiset() == orig.take(done).to_multiset(),
            decreases rest.len(),
        {
            let ghost outdv = out.deep_view();
            let ghost restdv = rest.deep_view();
            let ghost prevv = rest@;
            let x = rest.remove(0);
            proof {
                assert(restdv.len() > 0);
                assert(done < orig.len());
                assert(x@ == restdv[0]);
                assert(orig.skip(done) =~= orig.subrange(done, orig.len() as int));
                assert(orig.subrange(done, orig.len() as int)[0] == orig[done]);
                assert(x@ == orig[done]);
                prevv.remove_ensures(0);
                assert forall|i: int| 0 <= i < rest.deep_view().len() implies rest.deep_view()[i]
                    == orig.skip(done + 1)[i] by {
                    assert(rest@[i] == prevv[i + 1]);
                    assert(rest.deep_view()[i] == restdv[i + 1]);
                    assert(restdv[i + 1] == orig.skip(done)[i + 1]);
                    assert(orig.skip(done)[i + 1] == orig[done + 1 + i]);
                }
                assert(rest.deep_view() =~= orig.skip(done + 1));
            }
            let n_out = out.len();
            let mut k: usize = 0;
            while k < n_out && Self::rank_le_exec(&out[k], &x)
                invariant
                    0 <= k <= n_out,
                    n_out == out.deep_view().len(),
                    out.deep_view() == outdv,
                    forall|m: int| 0 <= m < k ==> rank_order()(out.deep_view()[m], x@),
                decreases n_out - k,
            {
                k = k + 1;
            }
            proof {
                lemma_sorted_insert(outdv, x@, k as int);
            }
            out.insert(k, x);
            proof {
                assert(out.deep_view() =~= outdv.insert(k as int, x@));
                vstd::seq_lib::to_multiset_insert(outdv, k as int, x@);
                assert(out.deep_view().to_multiset() == outdv.to_multiset().insert(x@));
                assert(orig.take(done + 1) =~= orig.take(done).push(orig[done]));
                vstd::seq_lib::to_multiset_build(orig.take(done), orig[done]);
                assert(orig.take(done + 1).to_multiset() == orig.take(done).to_multiset().insert(
                    orig[done],
                ));
                done = done + 1;
            }
        }
        proof {
            assert(done == orig.len());
            assert(orig.take(done) =~= orig);
            orig.lemma_sort_by_ensures(rank_order());
            lemma_sorted_unique(out.deep_view(), orig.sort_by(rank_order()), rank_order());
        }
        out
    }

    /// Creates a ranked profile from a text: n-grams of every length from 1
    /// up to excluding `length` are extracted from the normalized text,
    /// counted, and ranked by descending count with the deterministic
    /// tie-break on the text.
    pub fn new(text: &str, length: u8) -> (r: Ngrams)
        ensures
            r@ == ranked_profile(text@, length as int),
    {
        let counted = Self::parse_text(text, length as usize);
        let sorted = Self::sort_ngrams(counted);
        Ngrams { ngrams: sorted }
    }

    /// Rebuilds a profile from a persisted ranked list: the texts keep their
    /// file order as ranks, with synthetic zero counts.
    pub fn from_ranked_texts(texts: Vec<String>) -> (r: Ngrams)
        ensures
            r@ == texts.deep_view().map_values(|t: Seq<char>| (t, 0u64)),
    {
        let ghost tdv = texts.deep_view();
        let mut ngrams: Vec<Ngram> = Vec::new();
        let mut rest = texts;
        let ghost mut done: int = 0;
        while rest.len() > 0
            invariant
                0 <= done <= tdv.len(),
                rest.deep_view() == tdv.skip(done),
                ngrams.deep_view() == tdv.take(done).map_values(|t: Seq<char>| (t, 0u64)),
            decreases rest.len(),
        {
            let ghost restdv = rest.deep_view();
            let ghost prevv = rest@;
            let ghost ndv = ngrams.deep_view();
            let t = rest.remove(0);
            proof {
                assert(restdv.len() > 0);
                assert(done < tdv.len());
                assert(t@ == restdv[0]);
                assert(tdv.skip(done) =~= tdv.subrange(done, tdv.len() as int));
                assert(tdv.subrange(done, tdv.len() as int)[0] == tdv[done]);
                assert(t@ == tdv[done]);
                prevv.remove_ensures(0);
                assert forall|i: int| 0 <= i < rest.deep_view().len() implies rest.deep_view()[i]
                    == tdv.skip(done + 1)[i] by {
                    assert(rest@[i] == prevv[i + 1]);
                    assert(rest.deep_view()[i] == restdv[i + 1]);
                    assert(restdv[i + 1] == tdv.skip(done)[i + 1]);
                    assert(tdv.skip(done)[i + 1] == tdv[done + 1 + i]);
                }
                assert(rest.deep_view() =~= tdv.skip(done + 1));
            }
            ngrams.push(Ngram { text: t, count: 0 });
            proof {
                assert(ngrams.deep_view() =~= ndv.push((tdv[done], 0u64)));
                assert(ngrams.deep_view() =~= tdv.take(done + 1).map_values(
                    |t: Seq<char>| (t, 0u64),
                ));
                done = done + 1;
            }
        }
        proof {
            assert(tdv.take(done) =~= tdv);
        }
        Ngrams { ngrams }
    }

    /// Returns the ranked n-gram texts, most representative first.
    pub fn to_vec(&self) -> (r: Vec<&str>)
        ensures
            r.deep_view() == self@.map_values(|p: (Seq<char>, u64)| p.0),
    {
        let n = self.ngrams.len();
        let mut out: Vec<&str> = Vec::new();
        let mut i: usize = 0;
        while i < n
            invariant
                0 <= i <= n,
                n == self@.len(),
                out.deep_view() == self@.map_values(|p: (Seq<char>, u64)| p.0).take(i as int),
            decreases n - i,
        {
            let ghost odv = out.deep_view();
            out.push(self.ngrams[i].text.as_str());
            proof {
                assert(out.deep_view() =~= odv.push(self@[i as int].0));
                assert(out.deep_view() =~= self@.map_values(|p: (Seq<char>, u64)| p.0).take(
                    i + 1,
                ));
            }
            i = i + 1;
        }
        proof {
            assert(self@.map_values(|p: (Seq<char>, u64)| p.0).take(n as int) =~= self@.map_values(
                |p: (Seq<char>, u64)| p.0,
            ));
        }
        out
    }

    /// Returns the ranked n-gram texts, most representative first, as owned
    /// strings.
    pub fn owned_texts(&self) -> (r: Vec<String>)
        ensures
            r.deep_view() == self@.map_values(|p: (Seq<char>, u64)| p.0),
    {
        let n = self.ngrams.len();
        let mut out: Vec<String> = Vec::new();
        let mut i: usize = 0;
        while i < n
            invariant
                0 <= i <= n,
                n == self@.len(),
                out.deep_view() == self@.map_values(|p: (Seq<char>, u64)| p.0).take(i as int),
            decreases n - i,
        {
            let ghost odv = out.deep_view();
            out.push(self.ngrams[i].text.clone());
            proof {
                assert(out.deep_view() =~= odv.push(self@[i as int].0));
                assert(out.deep_view() =~= self@.map_values(|p: (Seq<char>, u64)| p.0).take(
                    i + 1,
                ));
            }
            i = i + 1;
        }
        proof {
            assert(self@.map_values(|p: (Seq<char>, u64)| p.0).take(n as int) =~= self@.map_values(
                |p: (Seq<char>, u64)| p.0,
            ));
        }
        out
    }

    /// Returns the ranked n-gram texts truncated to the persisted cap: only
    /// the first [`PROFILE_CAP`] entries are ever persisted.
    pub fn persisted_texts(&self) -> (r: Vec<String>)
        ensures
            r.deep_view() == self@.map_values(|p: (Seq<char>, u64)| p.0).take(
                if self@.len() < PROFILE_CAP {
                    self@.len() as int
                } else {
                    PROFILE_CAP as int
                },
            ),
    {
        let n = self.ngrams.len();
        let cap = if n < PROFILE_CAP {
            n
        } else {
            PROFILE_CAP
        };
        let mut out: Vec<String> = Vec::new();
        let mut i: usize = 0;
        while i < cap
            invariant
                0 <= i <= cap,
                cap <= n == self@.len(),
                out.deep_view() == self@.map_values(|p: (Seq<char>, u64)| p.0).take(i as int),
            decreases cap - i,
        {
            let ghost odv = out.deep_view();
            out.push(self.ngrams[i].text.clone());
            proof {
                assert(out.deep_view() =~= odv.push(self@[i as int].0));
                assert(out.deep_view() =~= self@.map_values(|p: (Seq<char>, u64)| p.0).take(
                    i + 1,
                ));
            }
            i = i + 1;
        }
        out
    }

    /// Gets an n-gram by its rank.
    pub fn get_by_position(&self, pos: usize) -> (r: Option<&Ngram>)
        ensures
            match r {
                Some(g) => pos < self@.len() && g@ == self@[pos as int],
                None => pos >= self@.len(),
            },
    {
        if pos < self.ngrams.len() {
            let g = &self.ngrams[pos];
            assert(g@ == self@[pos as int]);
            Some(g)
        } else {
            None
        }
    }

    /// Returns the number of ranked n-grams.
    pub fn len(&self) -> (r: usize)
        ensures
            r == self@.len(),
    {
        self.ngrams.len()
    }

    /// Returns true if the profile holds no n-grams.
    pub fn is_empty(&self) -> (r: bool)
        ensures
            r == (self@.len() == 0),
    {
        self.len() == 0
    }

    /// Returns the rank of an n-gram text in this profile, or `None` if it
    /// does not occur.
    pub fn position(&self, ngram: &str) -> (r: Option<usize>)
        ensures
            r == match rank_of(self@, ngram@) {
                Some(k) => Some(k as usize),
                None => None::<usize>,
            },
    {
        let r = Self::find_first(&self.ngrams, ngram);
        proof {
            lemma_rank_of_first(self@, ngram@, r);
        }
        r
    }

    /// Looks an n-gram up and returns its entry, or `None` if it is absent.
    pub fn ngram(&self, ngram: &str) -> (r: Option<&Ngram>)
        ensures
            match r {
                Some(g) => rank_of(self@, ngram@) is Some && g@ == self@[rank_of(self@, ngram@)->0],
                None => rank_of(self@, ngram@) is None,
            },
    {
        let r = Self::find_first(&self.ngrams, ngram);
        proof {
            lemma_rank_of_first(self@, ngram@, r);
        }
        match r {
            Some(i) => Some(&self.ngrams[i]),
            None => None,
        }
    }

    /// The out-of-place distance from this (sample) profile to the given
    /// reference profile: for every n-gram of this profile, its rank in the
    /// reference is added, or the fixed penalty when it is absent there.
    /// Lower means more similar. The measure is intentionally asymmetric.
    pub fn distance(&self, another: &Ngrams) -> (r: u64)
        requires
            rank_sum(self@, another@) <= u64::MAX,
        ensures
            r == rank_sum(self@, another@),
    {
        let n = self.ngrams.len();
        let mut acc: u64 = 0;
        let mut i: usize = 0;
        while i < n
            invariant
                0 <= i <= n,
                n == self@.len(),
                rank_sum(self@, another@) <= u64::MAX,
                acc == rank_sum(self@.take(i as int), another@),
            decreases n - i,
        {
            let term = self.term(another, i);
            proof {
                assert(self@.take(i + 1).drop_last() =~= self@.take(i as int));
                assert(self@.take(i + 1).last() == self@[i as int]);
                lemma_rank_sum_take(self@, another@, i + 1);
            }
            acc = acc + term;
            i = i + 1;
        }
        proof {
            assert(self@.take(n as int) =~= self@);
        }
        acc
    }

    /// The out-of-place distance, with the accumulation checked: `None` when
    /// the exact sum does not fit the result type.
    pub fn distance_checked(&self, another: &Ngrams) -> (r: Option<u64>)
        ensures
            match r {
                Some(d) => d == rank_sum(self@, another@),
                None => rank_sum(self@, another@) > u64::MAX,
            },
    {
        let n = self.ngrams.len();
        let mut acc: u64 = 0;
        let mut i: usize = 0;
        while i < n
            invariant
                0 <= i <= n,
                n == self@.len(),
                acc == rank_sum(self@.take(i as int), another@),
            decreases n - i,
        {
            let term = self.term(another, i);
            proof {
                assert(self@.take(i + 1).drop_last() =~= self@.take(i as int));
                assert(self@.take(i + 1).last() == self@[i as int]);
            }
            match acc.checked_add(term) {
                Some(next) => {
                    acc = next;
                },
                None => {
                    proof {
                        lemma_rank_sum_take(self@, another@, i + 1);
                    }
                    return None;
                },
            }
            i = i + 1;
        }
        proof {
            assert(self@.take(n as int) =~= self@);
        }
        Some(acc)
    }

    /// The out-of-place contribution of this profile's n-gram of rank `i`
    /// against the reference profile `another`.
    fn term(&self, another: &Ngrams, i: usize) -> (r: u64)
        requires
            i < self@.len(),
        ensures
            r == rank_term(another@, self@[i as int].0),
    {
        let g = &self.ngrams[i];
        match Self::find_first(&another.ngrams, g.text.as_str()) {
            Some(k) => {
                proof {
                    lemma_rank_of_first(another@, self@[i as int].0, Some(k));
                }
                k as u64
            },
            None => {
                proof {
                    lemma_rank_of_first(another@, self@[i as int].0, None);
                }
                ABSENT_PENALTY
            },
        }
    }

    /// Whether `a` comes no later than `b` in profile order.
    fn rank_le_exec(a: &Ngram, b: &Ngram) -> (r: bool)
        ensures
            r == rank_order()(a@, b@),
    {
        b.count < a.count || (a.count == b.count && str_lex_le(b.text.as_str(), a.text.as_str()))
    }

    /// Splits the normalized text into n-grams, one group per length from
    /// `start` up to excluding `end`, each group in position order.
    pub fn split_and_group_by_ngrams(text: &str, start: usize, end: usize) -> (r: Vec<Vec<String>>)
        ensures
            r.deep_view().len() == if start <= end { end - start } else { 0int },
            forall|k: int|
                0 <= k < r.deep_view().len() ==> r.deep_view()[k] == grams_of_len(
                    normal_text(text@),
                    start + k,
                ),
    {
        let t = normalize(text);
        let n = t.unicode_len();
        let mut groups: Vec<Vec<String>> = Vec::new();
        let mut len: usize = start;
        while len < end
            invariant
                start <= len <= end || (start >= end && len == start),
                n == normal_text(text@).len(),
                t@ == normal_text(text@),
                groups.deep_view().len() == len - start,
                forall|k: int|
                    0 <= k < groups.deep_view().len() ==> groups.deep_view()[k] == grams_of_len(
                        t@,
                        start + k,
                    ),
            decreases end - len,
        {
            let mut group: Vec<String> = Vec::new();
            if 1 <= len && len <= n {
                let count = n - len + 1;
                let mut i: usize = 0;
                while i < count
                    invariant
                        0 <= i <= count,
                        1 <= len <= n,
                        count == n - len + 1,
                        n == t@.len(),
                        group.deep_view() == grams_prefix(t@, len as int, i as int),
                    decreases count - i,
                {
                    let keep = if len == 1 {
                        let c = t.as_str().get_char(i);
                        !(c.is_numeric() || char_is_ascii_punct(c))
                    } else {
                        true
                    };
                    if keep {
                        let g = t.as_str().substring_char(i, i + len).to_owned();
                        group.push(g);
                    }
                    proof {
                        let gp = grams_prefix(t@, len as int, i + 1);
                        assert(gp == grams_prefix(t@, len as int, i as int) + if len == 1
                            && !keep_unigram(t@[i as int]) {
                            Seq::<Seq<char>>::empty()
                        } else {
                            seq![t@.subrange(i as int, i + len)]
                        });
                        if keep {
                            assert(group.deep_view() =~= gp);
                        } else {
                            assert(group.deep_view() =~= gp);
                        }
                    }
                    i = i + 1;
                }
                assert(group.deep_view() == grams_of_len(t@, len as int));
            } else {
                assert(group.deep_view() =~= grams_of_len(t@, len as int));
            }
            let ghost gdv = groups.deep_view();
            let ghost groupdv = group.deep_view();
            groups.push(group);
            proof {
                assert(groups.deep_view() =~= gdv.push(groupdv));
                assert(groups.deep_view().last() == grams_of_len(t@, start + (len - start)));
            }
            len = len + 1;
        }
        groups
    }

    /// Splits the normalized text into one flat list of n-grams: all lengths
    /// in `start..end`, grouped by length, in position order within a length.
    pub fn split(text: &str, start: usize, end: usize) -> (r: Vec<String>)
        ensures
            r.deep_view() == grams_range(normal_text(text@), start as int, end as int),
    {
        let groups = Self::split_and_group_by_ngrams(text, start, end);
        let ghost t = normal_text(text@);
        let mut out: Vec<String> = Vec::new();
        let mut g: usize = 0;
        if start >= end {
            assert(out.deep_view() =~= grams_range(t, start as int, end as int));
            return out;
        }
        let n_groups = groups.len();
        while g < n_groups
            invariant
                0 <= g <= n_groups,
                start < end,
                n_groups == groups.deep_view().len() == end - start,
                forall|k: int|
                    0 <= k < n_groups ==> groups.deep_view()[k] == grams_of_len(t, start + k),
                out.deep_view() == grams_range(t, start as int, start + g),
            decreases n_groups - g,
        {
            let group = &groups[g];
            let m = group.len();
            let mut j: usize = 0;
            while j < m
                invariant
                    0 <= j <= m,
                    0 <= g < n_groups,
                    m == group.deep_view().len(),
                    group.deep_view() == groups.deep_view()[g as int],
                    groups.deep_view()[g as int] == grams_of_len(t, start + g),
                    out.deep_view() == grams_range(t, start as int, start + g)
                        + group.deep_view().take(j as int),
                decreases m - j,
            {
                let ghost odv = out.deep_view();
                out.push(group[j].clone());
                proof {
                    assert(out.deep_view() =~= odv.push(group.deep_view()[j as int]));
                    assert(out.deep_view() =~= grams_range(t, start as int, start + g)
                        + group.deep_view().take(j + 1));
                }
                j = j + 1;
            }
            proof {
                assert(group.deep_view().take(m as int) =~= group.deep_view());
                assert(grams_range(t, start as int, start + g + 1) == grams_range(
                    t,
                    start as int,
                    start + g,
                ) + grams_of_len(t, start + g));
            }
            g = g + 1;
        }
        out
    }
}

} // verus!
