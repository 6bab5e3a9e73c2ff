//! Batched fuzzy queries: each distinct token is resolved once, and a query
//! that is a proper, non-prefix-ending beginning of another is answered by the
//! longer one's walk.
use vstd::prelude::*;
use crate::api::{clamp_word_distance, word_distance_cap};
use crate::query::{QueryWord, chosen_from, lemma_contains_push, path_distance};
use crate::results::{FuzzyMatchResult, match_view, match_views, push_new_match};
use crate::set::{FuzzyPhraseSet, FuzzyPhraseSetError, token_views};
use crate::text::{chars_of, compare_chars, Order};
use crate::walk::{emitted_views, slot_views};

verus! {

/// The tokens of a query of a batch.
pub open spec fn query_tokens(q: (Vec<&str>, bool)) -> Seq<Seq<char>> {
    token_views(q.0@)
}

/// `a` is a proper beginning of `b`, token by token.
pub open spec fn proper_prefix(a: Seq<Seq<char>>, b: Seq<Seq<char>>) -> bool {
    a.len() < b.len() && b.take(a.len() as int) == a
}

/// Resolved variant lists, one per (token, terminal) pair seen.
pub open spec fn cache_ok(s: &FuzzyPhraseSet, cache: Seq<(String, bool, Vec<QueryWord>)>, d: u8) -> bool {
    forall|e: int, v: QueryWord|
        0 <= e < cache.len() ==> (#[trigger] cache[e].2@.contains(v) <==> s.slot_variant(
            cache[e].0@,
            d,
            cache[e].1,
            v,
        ))
}

/// Whether two strings are equal.
fn same_str(a: &str, b: &str) -> (r: bool)
    ensures
        r == (a@ == b@),
{
    let x = chars_of(a);
    let y = chars_of(b);
    compare_chars(&x, &y) == Order::Equal
}

/// Whether `a` is a proper beginning of `b`.
fn is_proper_prefix(a: &Vec<&str>, b: &Vec<&str>) -> (r: bool)
    ensures
        r == proper_prefix(token_views(a@), token_views(b@)),
{
    let ghost ta = token_views(a@);
    let ghost tb = token_views(b@);
    if a.len() >= b.len() {
        return false;
    }
    let mut k: usize = 0;
    while k < a.len()
        invariant
            ta == token_views(a@),
            tb == token_views(b@),
            a.len() < b.len(),
            k <= a.len(),
            forall|kk: int| 0 <= kk < k ==> tb[kk] == ta[kk],
        decreases a.len() - k,
    {
        if !same_str(a[k], b[k]) {
            assert(tb.take(ta.len() as int)[k as int] == tb[k as int]);
            return false;
        }
        k = k + 1;
    }
    assert(tb.take(ta.len() as int) =~= ta);
    true
}

/// Whether query `a` sorts before query `b`: by tokens, then by the prefix
/// flag, then by position.
fn query_before(a: &(Vec<&str>, bool), ia: usize, b: &(Vec<&str>, bool), ib: usize) -> bool {
    let mut k: usize = 0;
    while k < a.0.len() && k < b.0.len()
        decreases a.0.len() - k,
    {
        let x = chars_of(a.0[k]);
        let y = chars_of(b.0[k]);
        match compare_chars(&x, &y) {
            Order::Less => {
                return true;
            },
            Order::Greater => {
                return false;
            },
            Order::Equal => {},
        }
        k = k + 1;
    }
    if a.0.len() != b.0.len() {
        return a.0.len() < b.0.len();
    }
    if a.1 != b.1 {
        return !a.1;
    }
    ia < ib
}

/// The positions of the queries, sorted (an insertion sort).
fn sort_queries(phrases: &[(Vec<&str>, bool)]) -> (order: Vec<usize>)
    ensures
        order.len() == phrases@.len(),
        order@.no_duplicates(),
        forall|a: int| 0 <= a < order.len() ==> (#[trigger] order@[a]) < phrases@.len(),
        forall|t: usize| t < phrases@.len() ==> #[trigger] order@.contains(t),
{
    let n = phrases.len();
    let mut order: Vec<usize> = Vec::new();
    let mut i: usize = 0;
    while i < n
        invariant
            n == phrases@.len(),
            i <= n,
            order.len() == i,
            order@.no_duplicates(),
            forall|a: int| 0 <= a < i ==> (#[trigger] order@[a]) < i,
            forall|t: usize| t < i ==> #[trigger] order@.contains(t),
        decreases n - i,
    {
        let ghost prev = order@;
        order.push(i);
        proof {
            assert(order@[i as int] == i);
            assert forall|t: usize| t <= i implies #[trigger] order@.contains(t) by {
                lemma_contains_push(prev, i, t);
            }
        }
        let mut j: usize = i;
        while j > 0 && query_before(&phrases[order[j]], order[j], &phrases[order[j - 1]], order[j - 1])
            invariant
                n == phrases@.len(),
                i < n,
                j <= i,
                order.len() == i + 1,
                order@.no_duplicates(),
                forall|a: int| 0 <= a <= i ==> (#[trigger] order@[a]) <= i,
                forall|t: usize| t <= i ==> #[trigger] order@.contains(t),
            decreases j,
        {
            let ghost before = order@;
            let x = order[j];
            let y = order[j - 1];
            order.set(j, y);
            order.set(j - 1, x);
            proof {
                assert forall|t: usize| t <= i implies #[trigger] order@.contains(t) by {
                    assert(before.contains(t));
                    let a = choose|a: int| 0 <= a < before.len() && before[a] == t;
                    if a == j {
                        assert(order@[j - 1] == t);
                    } else if a == j - 1 {
                        assert(order@[j as int] == t);
                    } else {
                        assert(order@[a] == t);
                    }
                }
                assert forall|a: int, b: int| 0 <= a < order@.len() && 0 <= b < order@.len() && a != b implies order@[a]
                    != order@[b] by {
                    let sa = if a == j { j - 1 } else if a == j - 1 { j as int } else { a };
                    let sb = if b == j { j - 1 } else if b == j - 1 { j as int } else { b };
                    assert(order@[a] == before[sa]);
                    assert(order@[b] == before[sb]);
                }
            }
            j = j - 1;
        }
        i = i + 1;
    }
    order
}

impl FuzzyPhraseSet {
    /// The variants of `word` (terminal or not), from `cache` when resolved
    /// before, else resolved now and remembered.
    fn cached_variants(
        &self,
        cache: &mut Vec<(String, bool, Vec<QueryWord>)>,
        word: &str,
        terminal: bool,
        d: u8,
    ) -> (r: Vec<QueryWord>)
        requires
            self.wf(),
            cache_ok(self, old(cache)@, d),
        ensures
            cache_ok(self, final(cache)@, d),
            forall|v: QueryWord| r@.contains(v) <==> self.slot_variant(word@, d, terminal, v),
    {
        let mut e: usize = 0;
        while e < cache.len()
            invariant
                self.wf(),
                e <= cache.len(),
                cache_ok(self, cache@, d),
            decreases cache.len() - e,
        {
            if cache[e].1 == terminal && same_str(cache[e].0.as_str(), word) {
                let found = cache[e].2.clone();
                assert(found@ == cache@[e as int].2@);
                return found;
            }
            e = e + 1;
        }
        let found = if terminal {
            self.get_terminal_word_possibilities(word, d)
        } else {
            self.get_nonterminal_word_possibilities(word, d)
        };
        let list = match found {
            Some(l) => l,
            None => {
                let l: Vec<QueryWord> = Vec::new();
                l
            },
        };
        let ghost before = cache@;
        let key = word.to_owned();
        cache.push((key, terminal, list.clone()));
        proof {
            assert forall|e2: int, v: QueryWord|
                0 <= e2 < cache@.len() implies (#[trigger] cache@[e2].2@.contains(v) <==> self.slot_variant(
                    cache@[e2].0@,
                    d,
                    cache@[e2].1,
                    v,
                )) by {
                if e2 < before.len() {
                    assert(cache@[e2] == before[e2]);
                }
            }
        }
        list
    }
    /// A walk over the slots of query `q` (its last slot terminal when the
    /// query ends in a prefix) emits, at the length of a query `m` that is
    /// `q` itself or a proper non-prefix beginning of it, exactly the paths
    /// that a single fuzzy query for `m` finds.
    proof fn lemma_member_paths(
        &self,
        sv: Seq<Seq<QueryWord>>,
        q: Seq<Seq<char>>,
        q_prefix: bool,
        m: Seq<Seq<char>>,
        m_prefix: bool,
        d: u8,
        max_d: u8,
        p: Seq<QueryWord>,
    )
        requires
            q.len() >= 1,
            sv.len() == q.len(),
            forall|k: int, v: QueryWord|
                0 <= k < q.len() ==> (#[trigger] sv[k].contains(v) <==> self.slot_variant(
                    q[k],
                    d,
                    q_prefix && k == q.len() - 1,
                    v,
                )),
            (m == q && m_prefix == q_prefix) || (proper_prefix(m, q) && !m_prefix),
        ensures
            (self.window_emits(sv, max_d, q_prefix, p, m_prefix) && p.len() == m.len())
                <==> self.fuzzy_path(m, d, max_d, m_prefix, p),
    {
        if p.len() == m.len() {
            assert forall|k: int| 0 <= k < p.len() implies (sv[k].contains(p[k]) <==> self.slot_variant(
                m[k],
                d,
                m_prefix && k == m.len() - 1,
                p[k],
            )) by {
                if m != q {
                    assert(q.take(m.len() as int)[k] == q[k]);
                }
            }
            if self.fuzzy_path(m, d, max_d, m_prefix, p) {
                assert(chosen_from(p, sv));
            }
        }
    }

    /// Answers the queries of one cluster: `group` lists query positions whose
    /// last one is the longest, the others being proper beginnings of it that
    /// do not end in a prefix.
    fn run_cluster(
        &self,
        phrases: &[(Vec<&str>, bool)],
        group: &Vec<usize>,
        cache: &mut Vec<(String, bool, Vec<QueryWord>)>,
        d: u8,
        max_d: u8,
        results: &mut Vec<Vec<FuzzyMatchResult>>,
    )
        requires
            self.wf(),
            cache_ok(self, old(cache)@, d),
            group.len() >= 1,
            group@.no_duplicates(),
            forall|j: int| 0 <= j < group.len() ==> (#[trigger] group@[j]) < phrases@.len(),
            forall|j: int|
                0 <= j < group.len() - 1 ==> proper_prefix(
                    query_tokens(phrases@[#[trigger] group@[j] as int]),
                    query_tokens(phrases@[group@[group.len() - 1] as int]),
                ) && !phrases@[group@[j] as int].1,
            old(results).len() == phrases@.len(),
        ensures
            cache_ok(self, final(cache)@, d),
            final(results).len() == phrases@.len(),
            forall|i: int|
                0 <= i < phrases@.len() && !group@.contains(i as usize) ==> final(results)@[i]
                    == old(results)@[i],
            forall|j: int|
                0 <= j < group.len() ==> match_views(
                    final(results)@[#[trigger] group@[j] as int]@,
                ).no_duplicates(),
            forall|j: int, x: (Seq<Seq<char>>, u8)|
                0 <= j < group.len() ==> (#[trigger] match_views(
                    final(results)@[group@[j] as int]@,
                ).contains(x) <==> self.fuzzy_result(
                    query_tokens(phrases@[group@[j] as int]),
                    d,
                    max_d,
                    phrases@[group@[j] as int].1,
                    x,
                )),
    {
        let li = group[group.len() - 1];
        let longest = &phrases[li].0;
        let ends_in_prefix = phrases[li].1;
        let ghost lt = query_tokens(phrases@[li as int]);
        assert(lt == token_views(longest@));
        let n = longest.len();
        let mut slots: Vec<Vec<QueryWord>> = Vec::new();
        let mut k: usize = 0;
        while k < n
            invariant
                self.wf(),
                cache_ok(self, cache@, d),
                n == longest@.len() == lt.len(),
                lt == token_views(longest@),
                k <= n,
                slots.len() == k,
                forall|kk: int, v: QueryWord|
                    0 <= kk < k ==> (#[trigger] slots@[kk]@.contains(v) <==> self.slot_variant(
                        lt[kk],
                        d,
                        ends_in_prefix && kk == n - 1,
                        v,
                    )),
            decreases n - k,
        {
            let l = self.cached_variants(cache, longest[k], ends_in_prefix && k == n - 1, d);
            assert(lt[k as int] == longest@[k as int]@);
            slots.push(l);
            k = k + 1;
        }
        let emitted = self.walk_windows(&slots, max_d, ends_in_prefix);
        let ghost sv = slot_views(slots@);
        let ghost ev = emitted_views(emitted@);
        let ghost start_results = results@;
        let mut j: usize = 0;
        while j < group.len()
            invariant
                self.wf(),
                cache_ok(self, cache@, d),
                n == lt.len(),
                lt == query_tokens(phrases@[li as int]),
                li == group@[group.len() - 1],
                ends_in_prefix == phrases@[li as int].1,
                sv == slot_views(slots@),
                ev == emitted_views(emitted@),
                sv.len() == n,
                forall|kk: int, v: QueryWord|
                    0 <= kk < n ==> (#[trigger] sv[kk].contains(v) <==> self.slot_variant(
                        lt[kk],
                        d,
                        ends_in_prefix && kk == n - 1,
                        v,
                    )),
                forall|pp: Seq<QueryWord>, b: bool|
                    #[trigger] ev.contains((pp, b)) <==> self.window_emits(sv, max_d, ends_in_prefix, pp, b),
                group.len() >= 1,
                group@.no_duplicates(),
                forall|jj: int| 0 <= jj < group.len() ==> (#[trigger] group@[jj]) < phrases@.len(),
                forall|jj: int|
                    0 <= jj < group.len() - 1 ==> proper_prefix(
                        query_tokens(phrases@[#[trigger] group@[jj] as int]),
                        lt,
                    ) && !phrases@[group@[jj] as int].1,
                j <= group.len(),
                results.len() == phrases@.len(),
                forall|i: int|
                    0 <= i < phrases@.len() && !group@.take(j as int).contains(i as usize) ==> results@[i]
                        == start_results[i],
                forall|jj: int|
                    0 <= jj < j ==> match_views(results@[#[trigger] group@[jj] as int]@).no_duplicates(),
                forall|jj: int, x: (Seq<Seq<char>>, u8)|
                    0 <= jj < j ==> (#[trigger] match_views(results@[group@[jj] as int]@).contains(x)
                        <==> self.fuzzy_result(
                        query_tokens(phrases@[group@[jj] as int]),
                        d,
                        max_d,
                        phrases@[group@[jj] as int].1,
                        x,
                    )),
            decreases group.len() - j,
        {
            let g = group[j];
            let member = &phrases[g].0;
            let member_prefix = phrases[g].1;
            let ghost mt = query_tokens(phrases@[g as int]);
            assert(mt == token_views(member@));
            proof {
                if j == group.len() - 1 {
                    assert(g == li);
                } else {
                    assert(proper_prefix(mt, lt) && !member_prefix);
                }
            }
            let mut mine: Vec<FuzzyMatchResult> = Vec::new();
            let mut i: usize = 0;
            while i < emitted.len()
                invariant
                    self.wf(),
                    ev == emitted_views(emitted@),
                    mt == token_views(member@),
                    (mt == lt && member_prefix == ends_in_prefix) || (proper_prefix(mt, lt)
                        && !member_prefix),
                    n == lt.len(),
                    sv.len() == n,
                    forall|kk: int, v: QueryWord|
                        0 <= kk < n ==> (#[trigger] sv[kk].contains(v) <==> self.slot_variant(
                            lt[kk],
                            d,
                            ends_in_prefix && kk == n - 1,
                            v,
                        )),
                    forall|pp: Seq<QueryWord>, b: bool|
                        #[trigger] ev.contains((pp, b)) <==> self.window_emits(sv, max_d, ends_in_prefix, pp, b),
                    i <= emitted.len(),
                    match_views(mine@).no_duplicates(),
                    forall|x: (Seq<Seq<char>>, u8)|
                        #[trigger] match_views(mine@).contains(x) <==> exists|pp: Seq<QueryWord>|
                            ev.take(i as int).contains((pp, member_prefix)) && pp.len() == mt.len()
                                && x == (self.rendered(pp, mt, 0), path_distance(pp) as u8),
                decreases emitted.len() - i,
            {
                let p = &emitted[i].0;
                let b = emitted[i].1;
                assert(ev[i as int] == (p@, b));
                assert(ev.take(i + 1) =~= ev.take(i as int).push((p@, b)));
                let ghost before = match_views(mine@);
                let keep = b == member_prefix && p.len() == member.len();
                if keep {
                    proof {
                        assert(ev.contains((p@, b)));
                        if n >= 1 {
                            self.lemma_member_paths(sv, lt, ends_in_prefix, mt, member_prefix, d, max_d, p@);
                        }
                        assert(self.fuzzy_path(mt, d, max_d, member_prefix, p@));
                        assert forall|kk: int| 0 <= kk < p@.len() && (#[trigger] p@[kk]) is Full implies p@[kk]->id
                            < self.words().len() by {
                            assert(self.slot_variant(
                                mt[kk],
                                d,
                                member_prefix && kk == mt.len() - 1,
                                p@[kk],
                            ));
                        }
                    }
                    let words = self.render_path(p, member.as_slice(), 0);
                    let total = crate::query::distance_of(p);
                    let item = FuzzyMatchResult { phrase: words, edit_distance: total as u8 };
                    assert(match_view(item) == (self.rendered(p@, mt, 0), path_distance(p@) as u8));
                    push_new_match(&mut mine, item);
                }
                proof {
                    assert forall|x: (Seq<Seq<char>>, u8)|
                        #[trigger] match_views(mine@).contains(x) <==> exists|pp: Seq<QueryWord>|
                            ev.take(i + 1).contains((pp, member_prefix)) && pp.len() == mt.len()
                                && x == (self.rendered(pp, mt, 0), path_distance(pp) as u8) by {
                        assert(before.contains(x) <==> exists|pp: Seq<QueryWord>|
                            ev.take(i as int).contains((pp, member_prefix)) && pp.len() == mt.len()
                                && x == (self.rendered(pp, mt, 0), path_distance(pp) as u8));
                        if keep {
                            lemma_contains_push(ev.take(i as int), (p@, b), (p@, b));
                        }
                        if exists|pp: Seq<QueryWord>|
                            ev.take(i + 1).contains((pp, member_prefix)) && pp.len() == mt.len()
                                && x == (self.rendered(pp, mt, 0), path_distance(pp) as u8) {
                            let pp = choose|pp: Seq<QueryWord>|
                                ev.take(i + 1).contains((pp, member_prefix)) && pp.len() == mt.len()
                                    && x == (self.rendered(pp, mt, 0), path_distance(pp) as u8);
                            lemma_contains_push(ev.take(i as int), (p@, b), (pp, member_prefix));
                        }
                        if exists|pp: Seq<QueryWord>|
                            ev.take(i as int).contains((pp, member_prefix)) && pp.len() == mt.len()
                                && x == (self.rendered(pp, mt, 0), path_distance(pp) as u8) {
                            let pp = choose|pp: Seq<QueryWord>|
                                ev.take(i as int).contains((pp, member_prefix)) && pp.len() == mt.len()
                                    && x == (self.rendered(pp, mt, 0), path_distance(pp) as u8);
                            lemma_contains_push(ev.take(i as int), (p@, b), (pp, member_prefix));
                        }
                    }
                }
                i = i + 1;
            }
            proof {
                assert(ev.take(i as int) =~= ev);
                assert forall|x: (Seq<Seq<char>>, u8)|
                    #[trigger] match_views(mine@).contains(x) <==> self.fuzzy_result(
                        mt,
                        d,
                        max_d,
                        member_prefix,
                        x,
                    ) by {
                    if match_views(mine@).contains(x) {
                        let pp = choose|pp: Seq<QueryWord>|
                            ev.contains((pp, member_prefix)) && pp.len() == mt.len() && x == (
                                self.rendered(pp, mt, 0),
                                path_distance(pp) as u8,
                            );
                        if n >= 1 {
                            self.lemma_member_paths(sv, lt, ends_in_prefix, mt, member_prefix, d, max_d, pp);
                        }
                    }
                    if self.fuzzy_result(mt, d, max_d, member_prefix, x) {
                        let pp = choose|pp: Seq<QueryWord>|
                            self.fuzzy_path(mt, d, max_d, member_prefix, pp) && x == (
                                self.rendered(pp, mt, 0),
                                path_distance(pp) as u8,
                            );
                        if n >= 1 {
                            self.lemma_member_paths(sv, lt, ends_in_prefix, mt, member_prefix, d, max_d, pp);
                        }
                        assert(ev.contains((pp, member_prefix)));
                    }
                }
            }
            let ghost prev_results = results@;
            results.set(g, mine);
            proof {
                assert(group@.take(j + 1) =~= group@.take(j as int).push(g));
                assert forall|ii: int|
                    0 <= ii < phrases@.len() && !group@.take(j + 1).contains(ii as usize) implies results@[ii]
                        == start_results[ii] by {
                    lemma_contains_push(group@.take(j as int), g, ii as usize);
                }
                assert forall|jj: int| 0 <= jj < j + 1 implies match_views(
                    results@[#[trigger] group@[jj] as int]@,
                ).no_duplicates() by {
                    if jj < j {
                        assert(group@[jj] != g);
                        assert(results@[group@[jj] as int] == prev_results[group@[jj] as int]);
                    }
                }
                assert forall|jj: int, x: (Seq<Seq<char>>, u8)|
                    0 <= jj < j + 1 implies (#[trigger] match_views(results@[group@[jj] as int]@).contains(x)
                        <==> self.fuzzy_result(
                        query_tokens(phrases@[group@[jj] as int]),
                        d,
                        max_d,
                        phrases@[group@[jj] as int].1,
                        x,
                    )) by {
                    if jj < j {
                        assert(group@[jj] != g);
                        assert(results@[group@[jj] as int] == prev_results[group@[jj] as int]);
                    }
                }
            }
            j = j + 1;
        }
        proof {
            assert(group@.take(j as int) =~= group@);
        }
    }
    /// Answers a batch of fuzzy queries, positionally: each query gets what
    /// `fuzzy_match` (or, when its flag is set, `fuzzy_match_prefix`) would
    /// return for it.
    pub fn fuzzy_match_multi(
        &self,
        phrases: &[(Vec<&str>, bool)],
        max_word_dist: u8,
        max_phrase_dist: u8,
    ) -> (r: Result<Vec<Vec<FuzzyMatchResult>>, FuzzyPhraseSetError>)
        requires
            self.wf(),
        ensures
            r matches Ok(rs) && rs.len() == phrases@.len() && (forall|i: int|
                0 <= i < phrases@.len() ==> match_views(#[trigger] rs@[i]@).no_duplicates()) && forall|
                i: int,
                x: (Seq<Seq<char>>, u8),
            |
                0 <= i < phrases@.len() ==> (#[trigger] match_views(rs@[i]@).contains(x)
                    <==> self.fuzzy_result(
                    query_tokens(phrases@[i]),
                    word_distance_cap(max_word_dist),
                    max_phrase_dist,
                    phrases@[i].1,
                    x,
                )),
    {
        let n = phrases.len();
        let d = clamp_word_distance(max_word_dist);
        let mut cache: Vec<(String, bool, Vec<QueryWord>)> = Vec::new();
        let mut q: usize = 0;
        while q < n
            invariant
                self.wf(),
                n == phrases@.len(),
                q <= n,
                cache_ok(self, cache@, d),
            decreases n - q,
        {
            let words = &phrases[q].0;
            let ends_in_prefix = phrases[q].1;
            let mut k: usize = 0;
            while k < words.len()
                invariant
                    self.wf(),
                    cache_ok(self, cache@, d),
                    k <= words.len(),
                decreases words.len() - k,
            {
                let _ = self.cached_variants(&mut cache, words[k], ends_in_prefix && k == words.len() - 1, d);
                k = k + 1;
            }
            q = q + 1;
        }
        let order = sort_queries(phrases);
        let mut results: Vec<Vec<FuzzyMatchResult>> = Vec::new();
        let mut t: usize = 0;
        while t < n
            invariant
                t <= n,
                results.len() == t,
            decreases n - t,
        {
            results.push(Vec::new());
            t = t + 1;
        }
        let mut group: Vec<usize> = Vec::new();
        let mut gs: usize = 0;
        let mut m: usize = 0;
        while m < n
            invariant
                self.wf(),
                n == phrases@.len() == order.len(),
                cache_ok(self, cache@, d),
                order@.no_duplicates(),
                forall|a: int| 0 <= a < order.len() ==> (#[trigger] order@[a]) < phrases@.len(),
                forall|t2: usize| t2 < phrases@.len() ==> #[trigger] order@.contains(t2),
                gs <= m <= n,
                group@ == order@.subrange(gs as int, m as int),
                m < n ==> forall|jj: int|
                    0 <= jj < group.len() ==> proper_prefix(
                        query_tokens(phrases@[#[trigger] group@[jj] as int]),
                        query_tokens(phrases@[order@[m as int] as int]),
                    ) && !phrases@[group@[jj] as int].1,
                m == n ==> group.len() == 0,
                results.len() == n,
                forall|i: int|
                    0 <= i < n && order@.take(gs as int).contains(i as usize) ==> match_views(
                        #[trigger] results@[i]@,
                    ).no_duplicates(),
                forall|i: int, x: (Seq<Seq<char>>, u8)|
                    0 <= i < n && order@.take(gs as int).contains(i as usize) ==> (
                    #[trigger] match_views(results@[i]@).contains(x) <==> self.fuzzy_result(
                        query_tokens(phrases@[i]),
                        d,
                        max_phrase_dist,
                        phrases@[i].1,
                        x,
                    )),
            decreases n - m,
        {
            let item = order[m];
            group.push(item);
            let last = m + 1 == n;
            let done = last || phrases[item].1 || !is_proper_prefix(
                &phrases[item].0,
                &phrases[order[m + 1]].0,
            );
            proof {
                assert(group@ == order@.subrange(gs as int, m + 1));
                assert forall|a: int, b: int| 0 <= a < b < group.len() implies group@[a] != group@[b] by {
                    assert(group@[a] == order@[gs + a]);
                    assert(group@[b] == order@[gs + b]);
                }
                assert(group@.no_duplicates());
            }
            if done {
                let ghost before_results = results@;
                self.run_cluster(phrases, &group, &mut cache, d, max_phrase_dist, &mut results);
                proof {
                    assert(order@.take(m + 1) =~= order@.take(gs as int) + group@);
                    assert forall|i: int|
                        0 <= i < n && order@.take(m + 1).contains(i as usize) implies match_views(
                            #[trigger] results@[i]@,
                        ).no_duplicates() by {
                        if group@.contains(i as usize) {
                            let jj = choose|jj: int| 0 <= jj < group.len() && group@[jj] == i as usize;
                            assert(match_views(results@[group@[jj] as int]@).no_duplicates());
                        } else {
                            let tk = order@.take(m + 1);
                            let a = choose|a: int| 0 <= a < tk.len() && #[trigger] tk[a] == i as usize;
                            if a >= gs {
                                assert(group@[a - gs] == i as usize);
                            }
                            assert(order@.take(gs as int)[a] == i as usize);
                            assert(order@.take(gs as int).contains(i as usize));
                            assert(results@[i] == before_results[i]);
                        }
                    }
                    assert forall|i: int, x: (Seq<Seq<char>>, u8)|
                        0 <= i < n && order@.take(m + 1).contains(i as usize) implies (
                        #[trigger] match_views(results@[i]@).contains(x) <==> self.fuzzy_result(
                            query_tokens(phrases@[i]),
                            d,
                            max_phrase_dist,
                            phrases@[i].1,
                            x,
                        )) by {
                        if group@.contains(i as usize) {
                            let jj = choose|jj: int| 0 <= jj < group.len() && group@[jj] == i as usize;
                            assert(match_views(results@[group@[jj] as int]@).contains(x) <==> self.fuzzy_result(
                                query_tokens(phrases@[group@[jj] as int]),
                                d,
                                max_phrase_dist,
                                phrases@[group@[jj] as int].1,
                                x,
                            ));
                        } else {
                            let tk = order@.take(m + 1);
                            let a = choose|a: int| 0 <= a < tk.len() && #[trigger] tk[a] == i as usize;
                            if a >= gs {
                                assert(group@[a - gs] == i as usize);
                            }
                            assert(order@.take(gs as int)[a] == i as usize);
                            assert(order@.take(gs as int).contains(i as usize));
                            assert(results@[i] == before_results[i]);
                        }
                    }
                }
                group = Vec::new();
                gs = m + 1;
            } else {
                proof {
                    let nt = query_tokens(phrases@[order@[m + 1] as int]);
                    let it = query_tokens(phrases@[item as int]);
                    assert forall|jj: int|
                        0 <= jj < group.len() implies proper_prefix(
                            query_tokens(phrases@[#[trigger] group@[jj] as int]),
                            nt,
                        ) && !phrases@[group@[jj] as int].1 by {
                        if jj < group.len() - 1 {
                            let gt = query_tokens(phrases@[group@[jj] as int]);
                            assert(proper_prefix(gt, it));
                            assert(nt.take(gt.len() as int) =~= it.take(gt.len() as int)) by {
                                assert forall|kk: int| 0 <= kk < gt.len() implies nt[kk] == it[kk] by {
                                    assert(nt.take(it.len() as int)[kk] == it[kk]);
                                }
                            }
                        }
                    }
                }
            }
            m = m + 1;
        }
        proof {
            assert(order@.take(gs as int) =~= order@);
            assert forall|i: int| 0 <= i < n implies match_views(#[trigger] results@[i]@).no_duplicates() by {
                assert(order@.contains(i as usize));
            }
            assert forall|i: int, x: (Seq<Seq<char>>, u8)|
                0 <= i < n implies (#[trigger] match_views(results@[i]@).contains(x) <==> self.fuzzy_result(
                    query_tokens(phrases@[i]),
                    d,
                    max_phrase_dist,
                    phrases@[i].1,
                    x,
                )) by {
                assert(order@.contains(i as usize));
            }
        }
        Ok(results)
    }
}

} // verus!
