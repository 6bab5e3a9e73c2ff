//! Properties that hold across the index's operations.
use vstd::prelude::*;
use vstd::seq_lib::to_multiset_contains;
use crate::builder::FuzzyPhraseSetBuilder;
use crate::multi::query_tokens;
use crate::query::{QueryWord, path_distance, path_fits};
use crate::results::{FuzzyMatchResult, match_views};
use crate::set::FuzzyPhraseSet;
use crate::text::{lemma_between_prefix, small_distance, starts_with};

verus! {

impl FuzzyPhraseSet {
    proof fn lemma_first_with_prefix_exists(&self, t: Seq<char>, i: int)
        requires
            0 <= i < self.words().len(),
            starts_with(self.words()[i], t),
        ensures
            exists|lo: int| lo <= i && self.first_with_prefix(t, lo),
        decreases i,
    {
        if exists|j: int| 0 <= j < i && starts_with(self.words()[j], t) {
            let j = choose|j: int| 0 <= j < i && starts_with(self.words()[j], t);
            self.lemma_first_with_prefix_exists(t, j);
        } else {
            assert(self.first_with_prefix(t, i));
        }
    }

    proof fn lemma_last_with_prefix_exists(&self, t: Seq<char>, i: int)
        requires
            0 <= i < self.words().len(),
            starts_with(self.words()[i], t),
        ensures
            exists|hi: int| i <= hi && self.last_with_prefix(t, hi),
        decreases self.words().len() - i,
    {
        if exists|j: int| i < j < self.words().len() && starts_with(self.words()[j], t) {
            let j = choose|j: int| i < j < self.words().len() && starts_with(self.words()[j], t);
            self.lemma_last_with_prefix_exists(t, j);
        } else {
            assert(self.last_with_prefix(t, i));
        }
    }

    /// Every word that begins with `t` lies in the prefix range of `t`.
    pub proof fn lemma_in_prefix_range(&self, t: Seq<char>, i: int)
        requires
            0 <= i < self.words().len(),
            starts_with(self.words()[i], t),
        ensures
            self.in_prefix_range(t, i),
    {
        self.lemma_first_with_prefix_exists(t, i);
        self.lemma_last_with_prefix_exists(t, i);
        let lo = choose|lo: int| lo <= i && self.first_with_prefix(t, lo);
        let hi = choose|hi: int| i <= hi && self.last_with_prefix(t, hi);
        assert(self.first_with_prefix(t, lo) && self.last_with_prefix(t, hi) && lo <= i <= hi);
    }
}

/// Every phrase of the index, once the builder has finished, is contained
/// and contained as a prefix.
pub proof fn law_containment(b: FuzzyPhraseSetBuilder, s: FuzzyPhraseSet, p: Seq<Seq<char>>)
    requires
        s.wf(),
        forall|ph: Seq<Seq<char>>| s.has_text(ph) <==> #[trigger] b.phrase_texts().contains(ph),
        b.phrase_texts().contains(p),
        p.len() > 0,
    ensures
        s.holds_phrase(p),
        s.holds_prefix(p),
{
    assert(s.has_text(p));
    let i = choose|i: int| 0 <= i < s.phrase_ids().len() && s.text_of(s.phrase_ids()[i]) == p;
    let ph = s.phrase_ids()[i];
    let n = p.len();
    assert(s.text_of(ph)[n - 1] == s.words()[ph[n - 1] as int]);
    assert(starts_with(s.words()[ph[n - 1] as int], p.last())) by {
        assert(s.words()[ph[n - 1] as int].take(p.last().len() as int) =~= p.last());
    }
    s.lemma_in_prefix_range(p.last(), ph[n - 1] as int);
    assert forall|k: int| 0 <= k < n - 1 implies s.words()[ph[k] as int] == p[k] by {
        assert(s.text_of(ph)[k] == s.words()[ph[k] as int]);
    }
}

/// For every phrase `t1 … tn` of the index, every `1 <= k <= n` and every
/// beginning `q` of `tk`, the query `t1 … t(k-1) q` is contained as a prefix.
pub proof fn law_prefix_soundness(
    b: FuzzyPhraseSetBuilder,
    s: FuzzyPhraseSet,
    p: Seq<Seq<char>>,
    k: int,
    q: Seq<char>,
)
    requires
        s.wf(),
        forall|ph: Seq<Seq<char>>| s.has_text(ph) <==> #[trigger] b.phrase_texts().contains(ph),
        b.phrase_texts().contains(p),
        1 <= k <= p.len(),
        q.len() > 0,
        starts_with(p[k - 1], q),
    ensures
        s.holds_prefix(p.take(k - 1).push(q)),
{
    assert(s.has_text(p));
    let i = choose|i: int| 0 <= i < s.phrase_ids().len() && s.text_of(s.phrase_ids()[i]) == p;
    let ph = s.phrase_ids()[i];
    let query = p.take(k - 1).push(q);
    assert(s.text_of(ph)[k - 1] == s.words()[ph[k - 1] as int]);
    s.lemma_in_prefix_range(q, ph[k - 1] as int);
    assert(query.last() == q);
    assert forall|j: int| 0 <= j < query.len() - 1 implies s.words()[ph[j] as int] == query[j] by {
        assert(s.text_of(ph)[j] == s.words()[ph[j] as int]);
    }
}

/// The path of exact variants for the ids of `ph` has distance zero.
proof fn lemma_exact_path_distance(p: Seq<QueryWord>)
    requires
        forall|k: int| 0 <= k < p.len() ==> (#[trigger] p[k]) is Full && p[k]->edit_distance == 0,
    ensures
        path_distance(p) == 0,
    decreases p.len(),
{
    if p.len() > 0 {
        lemma_exact_path_distance(p.drop_last());
    }
}

/// A fuzzy query for a phrase of the index, with per-word distance one and
/// phrase distance zero, finds that phrase at distance zero.
pub proof fn law_fuzzy_reflexivity(s: FuzzyPhraseSet, p: Seq<Seq<char>>)
    requires
        s.wf(),
        s.holds_phrase(p),
    ensures
        s.fuzzy_result(p, 1, 0, false, (p, 0u8)),
{
    let i = choose|i: int| 0 <= i < s.phrase_ids().len() && s.text_of(s.phrase_ids()[i]) == p;
    let ph = s.phrase_ids()[i];
    let path = Seq::new(ph.len(), |k: int| QueryWord::Full { id: ph[k], edit_distance: 0 });
    lemma_exact_path_distance(path);
    assert forall|k: int| 0 <= k < path.len() implies s.slot_variant(
        p[k],
        1,
        false && k == p.len() - 1,
        #[trigger] path[k],
    ) by {
        assert(s.text_of(ph)[k] == s.words()[ph[k] as int]);
        assert(small_distance(p[k], s.words()[ph[k] as int]) == Some(0u8));
    }
    assert(path_fits(path, ph));
    assert(s.accepted_exact(path));
    assert(s.rendered(path, p, 0) =~= p) by {
        assert forall|k: int| 0 <= k < p.len() implies s.rendered(path, p, 0)[k] == p[k] by {
            assert(s.text_of(ph)[k] == s.words()[ph[k] as int]);
        }
    }
    assert(s.fuzzy_path(p, 1, 0, false, path));
}

/// Every result of a fuzzy query is within the phrase distance cap.
pub proof fn law_distance_bound(
    s: FuzzyPhraseSet,
    tokens: Seq<Seq<char>>,
    d: u8,
    max_d: u8,
    prefix: bool,
    x: (Seq<Seq<char>>, u8),
)
    requires
        s.fuzzy_result(tokens, d, max_d, prefix, x),
    ensures
        0 <= x.1 <= max_d,
{
    let p = choose|p: Seq<QueryWord>|
        s.fuzzy_path(tokens, d, max_d, prefix, p) && x == (
            s.rendered(p, tokens, 0),
            path_distance(p) as u8,
        );
    crate::query::lemma_path_distance_nonneg(p);
}

/// A single-query batch answers exactly the windows of that query that start
/// at its first token and cover all of it: the batch result for `(q, false)`
/// is the windowed result for `q` without prefix, restricted to start zero
/// and full length.
pub proof fn law_windows_and_multi(s: FuzzyPhraseSet, q: Seq<Seq<char>>, d: u8, max_d: u8, x: (
    Seq<Seq<char>>,
    u8,
))
    ensures
        s.fuzzy_result(q, d, max_d, false, x) <==> (s.window_result(
            q,
            d,
            max_d,
            false,
            (x.0, x.1, 0usize, false),
        ) && x.0.len() == q.len()),
{
    if s.fuzzy_result(q, d, max_d, false, x) {
        let p = choose|p: Seq<QueryWord>|
            s.fuzzy_path(q, d, max_d, false, p) && x == (
                s.rendered(p, q, 0),
                path_distance(p) as u8,
            );
        assert forall|k: int| 0 <= k < p.len() implies s.slot_variant(
            q[0 + k],
            d,
            false && 0 + k == q.len() - 1,
            #[trigger] p[k],
        ) by {
            assert(s.slot_variant(q[k], d, false && k == q.len() - 1, p[k]));
        }
        assert(s.window_path(q, d, max_d, false, 0, p, false));
    }
    if s.window_result(q, d, max_d, false, (x.0, x.1, 0usize, false)) && x.0.len() == q.len() {
        let p = choose|p: Seq<QueryWord>|
            s.window_path(q, d, max_d, false, 0, p, false) && x.0 == s.rendered(p, q, 0) && x.1
                == path_distance(p) as u8;
        assert forall|k: int| 0 <= k < p.len() implies s.slot_variant(
            q[k],
            d,
            false && k == q.len() - 1,
            #[trigger] p[k],
        ) by {
            assert(s.slot_variant(q[0 + k], d, false && 0 + k == q.len() - 1, p[k]));
        }
        assert(s.fuzzy_path(q, d, max_d, false, p));
    }
}

/// Two lists without repeats that hold the same elements are equal as
/// multisets.
pub proof fn lemma_same_multiset<A>(a: Seq<A>, b: Seq<A>)
    requires
        a.no_duplicates(),
        b.no_duplicates(),
        forall|x: A| #[trigger] a.contains(x) <==> b.contains(x),
    ensures
        a.to_multiset() == b.to_multiset(),
{
    a.lemma_multiset_has_no_duplicates();
    b.lemma_multiset_has_no_duplicates();
    assert forall|x: A| a.to_multiset().count(x) == b.to_multiset().count(x) by {
        to_multiset_contains(a, x);
        to_multiset_contains(b, x);
        if a.contains(x) {
            assert(b.contains(x));
        }
    }
    assert(a.to_multiset() =~= b.to_multiset());
}

/// The answer of a batch to each of its queries has the same results, as a
/// multiset, as the single query: `fuzzy_match` for a query without prefix
/// flag, `fuzzy_match_prefix` for one with it.
pub proof fn law_multi_equals_singles(
    s: FuzzyPhraseSet,
    queries: Seq<(Vec<&str>, bool)>,
    d: u8,
    max_d: u8,
    batch: Seq<Vec<FuzzyMatchResult>>,
    singles: Seq<Vec<FuzzyMatchResult>>,
)
    requires
        batch.len() == queries.len(),
        singles.len() == queries.len(),
        forall|i: int| 0 <= i < queries.len() ==> match_views(#[trigger] batch[i]@).no_duplicates(),
        forall|i: int| 0 <= i < queries.len() ==> match_views(#[trigger] singles[i]@).no_duplicates(),
        forall|i: int, x: (Seq<Seq<char>>, u8)|
            0 <= i < queries.len() ==> (#[trigger] match_views(batch[i]@).contains(x) <==> s.fuzzy_result(
                query_tokens(queries[i]),
                d,
                max_d,
                queries[i].1,
                x,
            )),
        forall|i: int, x: (Seq<Seq<char>>, u8)|
            0 <= i < queries.len() ==> (#[trigger] match_views(singles[i]@).contains(x) <==> s.fuzzy_result(
                query_tokens(queries[i]),
                d,
                max_d,
                queries[i].1,
                x,
            )),
    ensures
        forall|i: int|
            0 <= i < queries.len() ==> #[trigger] match_views(batch[i]@).to_multiset() == match_views(
                singles[i]@,
            ).to_multiset(),
{
    assert forall|i: int| 0 <= i < queries.len() implies #[trigger] match_views(batch[i]@).to_multiset()
        == match_views(singles[i]@).to_multiset() by {
        assert forall|x: (Seq<Seq<char>>, u8)| #[trigger] match_views(batch[i]@).contains(x)
            <==> match_views(singles[i]@).contains(x) by {
            assert(match_views(batch[i]@).contains(x) <==> s.fuzzy_result(
                query_tokens(queries[i]),
                d,
                max_d,
                queries[i].1,
                x,
            ));
            assert(match_views(singles[i]@).contains(x) <==> s.fuzzy_result(
                query_tokens(queries[i]),
                d,
                max_d,
                queries[i].1,
                x,
            ));
        }
        lemma_same_multiset(match_views(batch[i]@), match_views(singles[i]@));
    }
}

/// Two answers to the same fuzzy query on the same index hold the same
/// results, as multisets.
pub proof fn law_determinism(
    s: FuzzyPhraseSet,
    tokens: Seq<Seq<char>>,
    d: u8,
    max_d: u8,
    prefix: bool,
    first: Seq<FuzzyMatchResult>,
    second: Seq<FuzzyMatchResult>,
)
    requires
        match_views(first).no_duplicates(),
        match_views(second).no_duplicates(),
        forall|x: (Seq<Seq<char>>, u8)|
            #[trigger] match_views(first).contains(x) <==> s.fuzzy_result(tokens, d, max_d, prefix, x),
        forall|x: (Seq<Seq<char>>, u8)|
            #[trigger] match_views(second).contains(x) <==> s.fuzzy_result(tokens, d, max_d, prefix, x),
    ensures
        match_views(first).to_multiset() == match_views(second).to_multiset(),
{
    assert forall|x: (Seq<Seq<char>>, u8)| #[trigger] match_views(first).contains(x)
        <==> match_views(second).contains(x) by {
        assert(match_views(first).contains(x) <==> s.fuzzy_result(tokens, d, max_d, prefix, x));
        assert(match_views(second).contains(x) <==> s.fuzzy_result(tokens, d, max_d, prefix, x));
    }
    lemma_same_multiset(match_views(first), match_views(second));
}

/// A phrase with a token that is no word of the index is not contained.
pub proof fn law_missing_token(s: FuzzyPhraseSet, tokens: Seq<Seq<char>>, k: int)
    requires
        s.wf(),
        0 <= k < tokens.len(),
        !s.is_word(tokens[k]),
    ensures
        !s.holds_phrase(tokens),
{
    if s.holds_phrase(tokens) {
        let i = choose|i: int| 0 <= i < s.phrase_ids().len() && s.text_of(s.phrase_ids()[i]) == tokens;
        let ph = s.phrase_ids()[i];
        assert(s.text_of(ph)[k] == s.words()[ph[k] as int]);
        assert(s.is_word(s.words()[ph[k] as int]));
    }
}

/// The prefix range of `t` holds exactly the ids of the words that begin
/// with `t`.
pub proof fn law_prefix_range_is_exact(s: FuzzyPhraseSet, t: Seq<char>, id: int)
    requires
        s.wf(),
        0 <= id < s.words().len(),
    ensures
        s.in_prefix_range(t, id) <==> starts_with(s.words()[id], t),
{
    if starts_with(s.words()[id], t) {
        s.lemma_in_prefix_range(t, id);
    }
    if s.in_prefix_range(t, id) {
        let (lo, hi) = choose|lo: int, hi: int|
            s.first_with_prefix(t, lo) && s.last_with_prefix(t, hi) && lo <= id <= hi;
        if lo < id && id < hi {
            lemma_between_prefix(s.words()[lo], s.words()[id], s.words()[hi], t);
        }
    }
}

} // verus!
