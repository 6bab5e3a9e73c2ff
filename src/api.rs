//! Fuzzy queries: per-slot resolution, the phrase walk, and the rendering of
//! the paths it finds.
use vstd::prelude::*;
use crate::query::{QueryWord, chosen_from, distance_of, path_distance};
use crate::results::{FuzzyMatchResult, match_view, match_views, push_new_match};
use crate::set::{FuzzyPhraseSet, FuzzyPhraseSetError, token_views};
use crate::text::{split_on_space, split_spaces};
use crate::walk::{path_views, slot_views};

verus! {

/// The per-word edit distance actually used: the index is built for at most one.
pub open spec fn word_distance_cap(d: u8) -> u8 {
    if d < 1 {
        d
    } else {
        1
    }
}

/// Lowers a requested per-word edit distance to what the index supports.
pub fn clamp_word_distance(d: u8) -> (r: u8)
    ensures
        r == word_distance_cap(d),
{
    if d < 1 {
        d
    } else {
        1
    }
}

impl FuzzyPhraseSet {
    /// A path that a fuzzy query over `tokens` finds: one variant per token
    /// (the last read as a prefix when `prefix`), within the phrase distance
    /// cap, and a whole phrase (or, when `prefix`, the beginning of one).
    pub open spec fn fuzzy_path(
        &self,
        tokens: Seq<Seq<char>>,
        d: u8,
        max_d: u8,
        prefix: bool,
        p: Seq<QueryWord>,
    ) -> bool {
        &&& tokens.len() >= 1
        &&& p.len() == tokens.len()
        &&& forall|k: int|
            0 <= k < p.len() ==> self.slot_variant(
                tokens[k],
                d,
                prefix && k == tokens.len() - 1,
                #[trigger] p[k],
            )
        &&& path_distance(p) <= max_d
        &&& if prefix {
            self.accepted_prefix(p)
        } else {
            self.accepted_exact(p)
        }
    }

    /// A result of a fuzzy query: the text and distance of a path it finds.
    pub open spec fn fuzzy_result(
        &self,
        tokens: Seq<Seq<char>>,
        d: u8,
        max_d: u8,
        prefix: bool,
        x: (Seq<Seq<char>>, u8),
    ) -> bool {
        exists|p: Seq<QueryWord>|
            self.fuzzy_path(tokens, d, max_d, prefix, p) && x == (
                self.rendered(p, tokens, 0),
                path_distance(p) as u8,
            )
    }

    /// Some variant can fill a slot holding `t`.
    pub open spec fn slot_fillable(&self, t: Seq<char>, d: u8, terminal: bool) -> bool {
        exists|v: QueryWord| self.slot_variant(t, d, terminal, v)
    }

    /// The variants of each slot, the last one read as a prefix when
    /// `prefix`; `None` as soon as one slot has none.
    pub fn resolve_slots(&self, phrase: &[&str], d: u8, prefix: bool) -> (r: Option<
        Vec<Vec<QueryWord>>,
    >)
        requires
            self.wf(),
        ensures
            r matches Some(slots) ==> slots.len() == phrase@.len() && forall|k: int, v: QueryWord|
                0 <= k < phrase@.len() ==> (#[trigger] slots@[k]@.contains(v) <==> self.slot_variant(
                    phrase@[k]@,
                    d,
                    prefix && k == phrase@.len() - 1,
                    v,
                )),
            r is None ==> exists|k: int|
                0 <= k < phrase@.len() && !self.slot_fillable(
                    #[trigger] phrase@[k]@,
                    d,
                    prefix && k == phrase@.len() - 1,
                ),
    {
        let n = phrase.len();
        let mut slots: Vec<Vec<QueryWord>> = Vec::new();
        let mut k: usize = 0;
        while k < n
            invariant
                self.wf(),
                n == phrase@.len(),
                k <= n,
                slots.len() == k,
                forall|kk: int, v: QueryWord|
                    0 <= kk < k ==> (#[trigger] slots@[kk]@.contains(v) <==> self.slot_variant(
                        phrase@[kk]@,
                        d,
                        prefix && kk == n - 1,
                        v,
                    )),
            decreases n - k,
        {
            let terminal = prefix && k == n - 1;
            let found = if terminal {
                self.get_terminal_word_possibilities(phrase[k], d)
            } else {
                self.get_nonterminal_word_possibilities(phrase[k], d)
            };
            match found {
                Some(l) => {
                    slots.push(l);
                },
                None => {
                    assert(!self.slot_fillable(phrase@[k as int]@, d, terminal));
                    return None;
                },
            }
            k = k + 1;
        }
        Some(slots)
    }

    /// The results for a list of paths: text from the word list (from the
    /// query's tokens, counted from `offset`, for prefix variants) and the
    /// summed distance.
    fn results_from(&self, paths: &Vec<Vec<QueryWord>>, phrase: &[&str], offset: usize) -> (r: Vec<
        FuzzyMatchResult,
    >)
        requires
            self.wf(),
            forall|i: int|
                0 <= i < paths.len() ==> offset + (#[trigger] paths@[i])@.len() <= phrase@.len()
                    && path_distance(paths@[i]@) <= 255 && forall|k: int|
                    0 <= k < paths@[i]@.len() && (#[trigger] paths@[i]@[k]) is Full
                        ==> paths@[i]@[k]->id < self.words().len(),
        ensures
            match_views(r@).no_duplicates(),
            forall|x: (Seq<Seq<char>>, u8)|
                #[trigger] match_views(r@).contains(x) <==> exists|p: Seq<QueryWord>|
                    path_views(paths@).contains(p) && x == (
                        self.rendered(p, token_views(phrase@), offset as int),
                        path_distance(p) as u8,
                    ),
    {
        let ghost tv = token_views(phrase@);
        let ghost pv = path_views(paths@);
        let mut out: Vec<FuzzyMatchResult> = Vec::new();
        let mut i: usize = 0;
        while i < paths.len()
            invariant
                self.wf(),
                tv == token_views(phrase@),
                pv == path_views(paths@),
                i <= paths.len(),
                forall|j: int|
                    0 <= j < paths.len() ==> offset + (#[trigger] paths@[j])@.len() <= phrase@.len()
                        && path_distance(paths@[j]@) <= 255 && forall|k: int|
                        0 <= k < paths@[j]@.len() && (#[trigger] paths@[j]@[k]) is Full
                            ==> paths@[j]@[k]->id < self.words().len(),
                match_views(out@).no_duplicates(),
                forall|x: (Seq<Seq<char>>, u8)|
                    #[trigger] match_views(out@).contains(x) <==> exists|j: int|
                        0 <= j < i && x == (
                            self.rendered(pv[j], tv, offset as int),
                            path_distance(pv[j]) as u8,
                        ),
            decreases paths.len() - i,
        {
            let p = &paths[i];
            assert(pv[i as int] == p@);
            let words = self.render_path(p, phrase, offset);
            let total = distance_of(p);
            let ghost before = match_views(out@);
            let item = FuzzyMatchResult { phrase: words, edit_distance: total as u8 };
            assert(match_view(item) == (self.rendered(pv[i as int], tv, offset as int), path_distance(pv[i as int]) as u8));
            push_new_match(&mut out, item);
            proof {
                assert forall|x: (Seq<Seq<char>>, u8)|
                    #[trigger] match_views(out@).contains(x) <==> exists|j: int|
                        0 <= j < i + 1 && x == (
                            self.rendered(pv[j], tv, offset as int),
                            path_distance(pv[j]) as u8,
                        ) by {
                    assert(before.contains(x) <==> exists|j: int|
                        0 <= j < i && x == (
                            self.rendered(pv[j], tv, offset as int),
                            path_distance(pv[j]) as u8,
                        ));
                }
            }
            i = i + 1;
        }
        proof {
            assert forall|x: (Seq<Seq<char>>, u8)|
                #[trigger] match_views(out@).contains(x) <==> exists|p: Seq<QueryWord>|
                    pv.contains(p) && x == (
                        self.rendered(p, tv, offset as int),
                        path_distance(p) as u8,
                    ) by {
                if match_views(out@).contains(x) {
                    let j = choose|j: int|
                        0 <= j < i && x == (
                            self.rendered(pv[j], tv, offset as int),
                            path_distance(pv[j]) as u8,
                        );
                    assert(pv.contains(pv[j]));
                }
                if exists|p: Seq<QueryWord>|
                    pv.contains(p) && x == (
                        self.rendered(p, tv, offset as int),
                        path_distance(p) as u8,
                    ) {
                    let p = choose|p: Seq<QueryWord>|
                        pv.contains(p) && x == (
                            self.rendered(p, tv, offset as int),
                            path_distance(p) as u8,
                        );
                    let j = choose|j: int| 0 <= j < pv.len() && pv[j] == p;
                }
            }
        }
        out
    }

    /// Phrases of the index within `max_word_dist` (at most one) of each
    /// token and within `max_phrase_dist` in total.
    pub fn fuzzy_match(&self, phrase: &[&str], max_word_dist: u8, max_phrase_dist: u8) -> (r:
        Result<Vec<FuzzyMatchResult>, FuzzyPhraseSetError>)
        requires
            self.wf(),
        ensures
            r matches Ok(rs) && match_views(rs@).no_duplicates() && forall|x: (Seq<Seq<char>>, u8)|
                #[trigger] match_views(rs@).contains(x) <==> self.fuzzy_result(
                    token_views(phrase@),
                    word_distance_cap(max_word_dist),
                    max_phrase_dist,
                    false,
                    x,
                ),
    {
        self.fuzzy_query(phrase, max_word_dist, max_phrase_dist, false)
    }

    /// Like `fuzzy_match`, with the last token read as the beginning of a word.
    pub fn fuzzy_match_prefix(&self, phrase: &[&str], max_word_dist: u8, max_phrase_dist: u8) -> (r:
        Result<Vec<FuzzyMatchResult>, FuzzyPhraseSetError>)
        requires
            self.wf(),
        ensures
            r matches Ok(rs) && match_views(rs@).no_duplicates() && forall|x: (Seq<Seq<char>>, u8)|
                #[trigger] match_views(rs@).contains(x) <==> self.fuzzy_result(
                    token_views(phrase@),
                    word_distance_cap(max_word_dist),
                    max_phrase_dist,
                    true,
                    x,
                ),
    {
        self.fuzzy_query(phrase, max_word_dist, max_phrase_dist, true)
    }

    fn fuzzy_query(&self, phrase: &[&str], max_word_dist: u8, max_phrase_dist: u8, prefix: bool) -> (r:
        Result<Vec<FuzzyMatchResult>, FuzzyPhraseSetError>)
        requires
            self.wf(),
        ensures
            r matches Ok(rs) && match_views(rs@).no_duplicates() && forall|x: (Seq<Seq<char>>, u8)|
                #[trigger] match_views(rs@).contains(x) <==> self.fuzzy_result(
                    token_views(phrase@),
                    word_distance_cap(max_word_dist),
                    max_phrase_dist,
                    prefix,
                    x,
                ),
    {
        let ghost tv = token_views(phrase@);
        let d = clamp_word_distance(max_word_dist);
        let slots = match self.resolve_slots(phrase, d, prefix) {
            Some(s) => s,
            None => {
                let ghost k = choose|k: int|
                    0 <= k < phrase@.len() && !self.slot_fillable(
                        #[trigger] phrase@[k]@,
                        d,
                        prefix && k == phrase@.len() - 1,
                    );
                let out: Vec<FuzzyMatchResult> = Vec::new();
                proof {
                    assert forall|x: (Seq<Seq<char>>, u8)|
                        !self.fuzzy_result(tv, d, max_phrase_dist, prefix, x) by {
                        if self.fuzzy_result(tv, d, max_phrase_dist, prefix, x) {
                            let p = choose|p: Seq<QueryWord>|
                                self.fuzzy_path(tv, d, max_phrase_dist, prefix, p) && x == (
                                    self.rendered(p, tv, 0),
                                    path_distance(p) as u8,
                                );
                            assert(tv[k] == phrase@[k]@);
                            assert(self.slot_variant(tv[k], d, prefix && k == tv.len() - 1, p[k]));
                        }
                    }
                    assert(match_views(out@) =~= Seq::empty());
                }
                return Ok(out);
            },
        };
        let ghost sv = slot_views(slots@);
        let paths = if prefix {
            self.walk_prefixes(&slots, max_phrase_dist)
        } else {
            self.walk_exact(&slots, max_phrase_dist)
        };
        proof {
            assert forall|p: Seq<QueryWord>|
                (slots.len() >= 1 && p.len() == slots.len() && chosen_from(p, sv) && path_distance(p)
                    <= max_phrase_dist && if prefix {
                    self.accepted_prefix(p)
                } else {
                    self.accepted_exact(p)
                }) <==> self.fuzzy_path(tv, d, max_phrase_dist, prefix, p) by {
                if p.len() == slots.len() {
                    assert forall|k: int| 0 <= k < p.len() implies (sv[k].contains(p[k])
                        <==> self.slot_variant(tv[k], d, prefix && k == tv.len() - 1, p[k])) by {
                        assert(sv[k] == slots@[k]@);
                        assert(tv[k] == phrase@[k]@);
                        assert(slots@[k]@.contains(p[k]) <==> self.slot_variant(
                            phrase@[k]@,
                            d,
                            prefix && k == phrase@.len() - 1,
                            p[k],
                        ));
                    }
                }
            }
            assert forall|i: int|
                0 <= i < paths.len() implies (#[trigger] paths@[i])@.len() <= phrase@.len()
                    && path_distance(paths@[i]@) <= 255 && forall|k: int|
                    0 <= k < paths@[i]@.len() && (#[trigger] paths@[i]@[k]) is Full
                        ==> paths@[i]@[k]->id < self.words().len() by {
                let p = paths@[i]@;
                assert(path_views(paths@)[i] == p);
                assert(path_views(paths@).contains(p));
                assert(self.fuzzy_path(tv, d, max_phrase_dist, prefix, p));
                assert forall|k: int| 0 <= k < p.len() && (#[trigger] p[k]) is Full implies p[k]->id
                    < self.words().len() by {
                    assert(self.slot_variant(tv[k], d, prefix && k == tv.len() - 1, p[k]));
                }
            }
        }
        let out = self.results_from(&paths, phrase, 0);
        proof {
            assert forall|x: (Seq<Seq<char>>, u8)|
                #[trigger] match_views(out@).contains(x) <==> self.fuzzy_result(
                    tv,
                    d,
                    max_phrase_dist,
                    prefix,
                    x,
                ) by {
                if match_views(out@).contains(x) {
                    let p = choose|p: Seq<QueryWord>|
                        path_views(paths@).contains(p) && x == (
                            self.rendered(p, tv, 0),
                            path_distance(p) as u8,
                        );
                    assert(self.fuzzy_path(tv, d, max_phrase_dist, prefix, p));
                }
                if self.fuzzy_result(tv, d, max_phrase_dist, prefix, x) {
                    let p = choose|p: Seq<QueryWord>|
                        self.fuzzy_path(tv, d, max_phrase_dist, prefix, p) && x == (
                            self.rendered(p, tv, 0),
                            path_distance(p) as u8,
                        );
                    assert(path_views(paths@).contains(p));
                }
            }
        }
        Ok(out)
    }

    /// `contains` on the pieces of `phrase` between single spaces.
    pub fn contains_str(&self, phrase: &str) -> (r: Result<bool, FuzzyPhraseSetError>)
        requires
            self.wf(),
        ensures
            r == Ok::<bool, FuzzyPhraseSetError>(self.holds_phrase(split_spaces(phrase@))),
    {
        let pieces = split_on_space(phrase);
        let refs = as_strs(&pieces);
        self.contains(refs.as_slice())
    }

    /// `contains_prefix` on the pieces of `phrase` between single spaces.
    pub fn contains_prefix_str(&self, phrase: &str) -> (r: Result<bool, FuzzyPhraseSetError>)
        requires
            self.wf(),
        ensures
            r == Ok::<bool, FuzzyPhraseSetError>(self.holds_prefix(split_spaces(phrase@))),
    {
        let pieces = split_on_space(phrase);
        let refs = as_strs(&pieces);
        self.contains_prefix(refs.as_slice())
    }

    /// `fuzzy_match` on the pieces of `phrase` between single spaces.
    pub fn fuzzy_match_str(&self, phrase: &str, max_word_dist: u8, max_phrase_dist: u8) -> (r: Result<
        Vec<FuzzyMatchResult>,
        FuzzyPhraseSetError,
    >)
        requires
            self.wf(),
        ensures
            r matches Ok(rs) && match_views(rs@).no_duplicates() && forall|x: (Seq<Seq<char>>, u8)|
                #[trigger] match_views(rs@).contains(x) <==> self.fuzzy_result(
                    split_spaces(phrase@),
                    word_distance_cap(max_word_dist),
                    max_phrase_dist,
                    false,
                    x,
                ),
    {
        let pieces = split_on_space(phrase);
        let refs = as_strs(&pieces);
        self.fuzzy_match(refs.as_slice(), max_word_dist, max_phrase_dist)
    }

    /// `fuzzy_match_prefix` on the pieces of `phrase` between single spaces.
    pub fn fuzzy_match_prefix_str(&self, phrase: &str, max_word_dist: u8, max_phrase_dist: u8) -> (r:
        Result<Vec<FuzzyMatchResult>, FuzzyPhraseSetError>)
        requires
            self.wf(),
        ensures
            r matches Ok(rs) && match_views(rs@).no_duplicates() && forall|x: (Seq<Seq<char>>, u8)|
                #[trigger] match_views(rs@).contains(x) <==> self.fuzzy_result(
                    split_spaces(phrase@),
                    word_distance_cap(max_word_dist),
                    max_phrase_dist,
                    true,
                    x,
                ),
    {
        let pieces = split_on_space(phrase);
        let refs = as_strs(&pieces);
        self.fuzzy_match_prefix(refs.as_slice(), max_word_dist, max_phrase_dist)
    }
}

/// Borrows each string of `v`.
pub fn as_strs(v: &Vec<String>) -> (r: Vec<&str>)
    ensures
        token_views(r@) == crate::text::string_views(v@),
{
    let mut out: Vec<&str> = Vec::new();
    let mut i: usize = 0;
    while i < v.len()
        invariant
            i <= v.len(),
            token_views(out@) == crate::text::string_views(v@).take(i as int),
        decreases v.len() - i,
    {
        let ghost before = token_views(out@);
        let s = v[i].as_str();
        out.push(s);
        assert(token_views(out@) =~= before.push(s@));
        assert(crate::text::string_views(v@).take(i + 1) =~= crate::text::string_views(v@).take(
            i as int,
        ).push(v@[i as int]@));
        i = i + 1;
    }
    assert(crate::text::string_views(v@).take(i as int) =~= crate::text::string_views(v@));
    out
}

} // verus!
