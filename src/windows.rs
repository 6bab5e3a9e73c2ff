//! Windowed search: every contiguous run of a long query that matches a
//! phrase of the index.
use vstd::prelude::*;
use crate::api::{clamp_word_distance, word_distance_cap};
use crate::query::{QueryWord, chosen_from, distance_of, path_distance};
use crate::query::lemma_contains_push;
use crate::results::{FuzzyWindowResult, push_new_window, window_view, window_views};
use crate::set::{FuzzyPhraseSet, FuzzyPhraseSetError, token_views};
use crate::walk::{emitted_views, slot_views};

verus! {

impl FuzzyPhraseSet {
    /// A window match: `p` fills the `p.len()` slots from `start` with their
    /// variants (the last slot of the query read as a prefix when
    /// `ends_in_prefix`), stays within the cap, and is a whole phrase, or,
    /// when it reaches the end of a prefix-ending query, the beginning of
    /// one (then flagged `b`).
    pub open spec fn window_path(
        &self,
        tokens: Seq<Seq<char>>,
        d: u8,
        max_d: u8,
        ends_in_prefix: bool,
        start: int,
        p: Seq<QueryWord>,
        b: bool,
    ) -> bool {
        &&& 0 <= start
        &&& 1 <= p.len()
        &&& start + p.len() <= tokens.len()
        &&& forall|k: int|
            0 <= k < p.len() ==> self.slot_variant(
                tokens[start + k],
                d,
                ends_in_prefix && start + k == tokens.len() - 1,
                #[trigger] p[k],
            )
        &&& path_distance(p) <= max_d
        &&& if ends_in_prefix && start + p.len() == tokens.len() {
            b && self.accepted_prefix(p)
        } else {
            !b && self.accepted_exact(p)
        }
    }

    /// A result of a windowed query.
    pub open spec fn window_result(
        &self,
        tokens: Seq<Seq<char>>,
        d: u8,
        max_d: u8,
        ends_in_prefix: bool,
        x: (Seq<Seq<char>>, u8, usize, bool),
    ) -> bool {
        exists|p: Seq<QueryWord>|
            self.window_path(tokens, d, max_d, ends_in_prefix, x.2 as int, p, x.3) && x.0
                == self.rendered(p, tokens, x.2 as int) && x.1 == path_distance(p) as u8
    }

    /// Appends one window result per emitted path, all starting at `start`.
    fn push_windows(
        &self,
        emitted: &Vec<(Vec<QueryWord>, bool)>,
        phrase: &[&str],
        start: usize,
        results: &mut Vec<FuzzyWindowResult>,
    )
        requires
            self.wf(),
            window_views(old(results)@).no_duplicates(),
            forall|i: int|
                0 <= i < emitted.len() ==> start + (#[trigger] emitted@[i]).0@.len()
                    <= phrase@.len() && path_distance(emitted@[i].0@) <= 255 && forall|k: int|
                    0 <= k < emitted@[i].0@.len() && (#[trigger] emitted@[i].0@[k]) is Full
                        ==> emitted@[i].0@[k]->id < self.words().len(),
        ensures
            window_views(final(results)@).no_duplicates(),
            forall|x: (Seq<Seq<char>>, u8, usize, bool)|
                #[trigger] window_views(final(results)@).contains(x) <==> (window_views(
                    old(results)@,
                ).contains(x) || exists|p: Seq<QueryWord>|
                    emitted_views(emitted@).contains((p, x.3)) && x == (
                        self.rendered(p, token_views(phrase@), start as int),
                        path_distance(p) as u8,
                        start,
                        x.3,
                    )),
    {
        let ghost tv = token_views(phrase@);
        let ghost ev = emitted_views(emitted@);
        let ghost initial = window_views(results@);
        let mut i: usize = 0;
        while i < emitted.len()
            invariant
                self.wf(),
                tv == token_views(phrase@),
                ev == emitted_views(emitted@),
                i <= emitted.len(),
                window_views(results@).no_duplicates(),
                forall|j: int|
                    0 <= j < emitted.len() ==> start + (#[trigger] emitted@[j]).0@.len()
                        <= phrase@.len() && path_distance(emitted@[j].0@) <= 255 && forall|k: int|
                        0 <= k < emitted@[j].0@.len() && (#[trigger] emitted@[j].0@[k]) is Full
                            ==> emitted@[j].0@[k]->id < self.words().len(),
                forall|x: (Seq<Seq<char>>, u8, usize, bool)|
                    #[trigger] window_views(results@).contains(x) <==> (initial.contains(x) || exists|
                        p: Seq<QueryWord>,
                    |
                        ev.take(i as int).contains((p, x.3)) && x == (
                            self.rendered(p, tv, start as int),
                            path_distance(p) as u8,
                            start,
                            x.3,
                        )),
            decreases emitted.len() - i,
        {
            let p = &emitted[i].0;
            let b = emitted[i].1;
            assert(ev[i as int] == (p@, b));
            assert(ev.take(i + 1) =~= ev.take(i as int).push((p@, b)));
            let words = self.render_path(p, phrase, start);
            let total = distance_of(p);
            let item = FuzzyWindowResult {
                phrase: words,
                edit_distance: total as u8,
                start_position: start,
                ends_in_prefix: b,
            };
            let ghost before = window_views(results@);
            let ghost iv = window_view(item);
            push_new_window(results, item);
            proof {
                assert forall|x: (Seq<Seq<char>>, u8, usize, bool)|
                    #[trigger] window_views(results@).contains(x) <==> (initial.contains(x) || exists|
                        other: Seq<QueryWord>,
                    |
                        ev.take(i + 1).contains((other, x.3)) && x == (
                            self.rendered(other, tv, start as int),
                            path_distance(other) as u8,
                            start,
                            x.3,
                        )) by {
                    assert(before.contains(x) <==> (initial.contains(x) || exists|other: Seq<QueryWord>|
                        ev.take(i as int).contains((other, x.3)) && x == (
                            self.rendered(other, tv, start as int),
                            path_distance(other) as u8,
                            start,
                            x.3,
                        )));
                    if x == iv {
                        lemma_contains_push(ev.take(i as int), (p@, b), (p@, b));
                        assert(ev.take(i + 1).contains((p@, b)));
                    }
                    if exists|other: Seq<QueryWord>|
                        ev.take(i + 1).contains((other, x.3)) && x == (
                            self.rendered(other, tv, start as int),
                            path_distance(other) as u8,
                            start,
                            x.3,
                        ) {
                        let other = choose|other: Seq<QueryWord>|
                            ev.take(i + 1).contains((other, x.3)) && x == (
                                self.rendered(other, tv, start as int),
                                path_distance(other) as u8,
                                start,
                                x.3,
                            );
                        lemma_contains_push(ev.take(i as int), (p@, b), (other, x.3));
                    }
                    if exists|other: Seq<QueryWord>|
                        ev.take(i as int).contains((other, x.3)) && x == (
                            self.rendered(other, tv, start as int),
                            path_distance(other) as u8,
                            start,
                            x.3,
                        ) {
                        let other = choose|other: Seq<QueryWord>|
                            ev.take(i as int).contains((other, x.3)) && x == (
                                self.rendered(other, tv, start as int),
                                path_distance(other) as u8,
                                start,
                                x.3,
                            );
                        lemma_contains_push(ev.take(i as int), (p@, b), (other, x.3));
                    }
                }
            }
            i = i + 1;
        }
        assert(ev.take(i as int) =~= ev);
    }
    /// Every window of `phrase` that matches a phrase of the index. Slots
    /// without any variant split the query; each window lies within one of
    /// the runs between them and may start at any of its slots.
    pub fn fuzzy_match_windows(
        &self,
        phrase: &[&str],
        max_word_dist: u8,
        max_phrase_dist: u8,
        ends_in_prefix: bool,
    ) -> (r: Result<Vec<FuzzyWindowResult>, FuzzyPhraseSetError>)
        requires
            self.wf(),
        ensures
            r matches Ok(rs) && window_views(rs@).no_duplicates() && forall|x: (Seq<Seq<char>>, u8, usize, bool)|
                #[trigger] window_views(rs@).contains(x) <==> self.window_result(
                    token_views(phrase@),
                    word_distance_cap(max_word_dist),
                    max_phrase_dist,
                    ends_in_prefix,
                    x,
                ),
    {
        let ghost tv = token_views(phrase@);
        let d = clamp_word_distance(max_word_dist);
        let n = phrase.len();
        let mut resolved: Vec<Vec<QueryWord>> = Vec::new();
        let mut k: usize = 0;
        while k < n
            invariant
                self.wf(),
                n == phrase@.len(),
                k <= n,
                resolved.len() == k,
                forall|kk: int, v: QueryWord|
                    0 <= kk < k ==> (#[trigger] resolved@[kk]@.contains(v) <==> self.slot_variant(
                        phrase@[kk]@,
                        d,
                        ends_in_prefix && kk == n - 1,
                        v,
                    )),
            decreases n - k,
        {
            let terminal = ends_in_prefix && k == n - 1;
            let found = if terminal {
                self.get_terminal_word_possibilities(phrase[k], d)
            } else {
                self.get_nonterminal_word_possibilities(phrase[k], d)
            };
            match found {
                Some(l) => {
                    resolved.push(l);
                },
                None => {
                    let empty: Vec<QueryWord> = Vec::new();
                    resolved.push(empty);
                    proof {
                        assert forall|v: QueryWord| !(#[trigger] resolved@[k as int]@.contains(v)) by {}
                    }
                },
            }
            k = k + 1;
        }
        let mut results: Vec<FuzzyWindowResult> = Vec::new();
        let mut start: usize = 0;
        while start < n
            invariant
                self.wf(),
                tv == token_views(phrase@),
                n == phrase@.len() == resolved.len(),
                start <= n,
                window_views(results@).no_duplicates(),
                forall|kk: int, v: QueryWord|
                    0 <= kk < n ==> (#[trigger] resolved@[kk]@.contains(v) <==> self.slot_variant(
                        tv[kk],
                        d,
                        ends_in_prefix && kk == n - 1,
                        v,
                    )),
                forall|x: (Seq<Seq<char>>, u8, usize, bool)|
                    #[trigger] window_views(results@).contains(x) <==> (self.window_result(
                        tv,
                        d,
                        max_phrase_dist,
                        ends_in_prefix,
                        x,
                    ) && x.2 < start),
            decreases n - start,
        {
            let mut e: usize = start;
            while e < n && resolved[e].len() > 0
                invariant
                    start <= e <= n,
                    n == resolved.len(),
                    forall|q: int| start <= q < e ==> resolved@[q]@.len() > 0,
                decreases n - e,
            {
                e = e + 1;
            }
            let mut slots: Vec<Vec<QueryWord>> = Vec::new();
            let mut q: usize = start;
            while q < e
                invariant
                    start <= q <= e <= n,
                    n == resolved.len(),
                    slots.len() == q - start,
                    forall|i: int| 0 <= i < slots.len() ==> (#[trigger] slots@[i])@ == resolved@[start + i]@,
                decreases e - q,
            {
                slots.push(resolved[q].clone());
                q = q + 1;
            }
            let walk_prefix = ends_in_prefix && e == n;
            let emitted = self.walk_windows(&slots, max_phrase_dist, walk_prefix);
            let ghost sv = slot_views(slots@);
            let ghost ev = emitted_views(emitted@);
            proof {
                assert forall|p: Seq<QueryWord>, b: bool|
                    self.window_emits(sv, max_phrase_dist, walk_prefix, p, b) <==> self.window_path(
                        tv,
                        d,
                        max_phrase_dist,
                        ends_in_prefix,
                        start as int,
                        p,
                        b,
                    ) by {
                    if self.window_emits(sv, max_phrase_dist, walk_prefix, p, b) {
                        assert forall|kk: int| 0 <= kk < p.len() implies self.slot_variant(
                            tv[start + kk],
                            d,
                            ends_in_prefix && start + kk == tv.len() - 1,
                            #[trigger] p[kk],
                        ) by {
                            assert(sv[kk] == slots@[kk]@);
                            assert(resolved@[start + kk]@.contains(p[kk]));
                        }
                    }
                    if self.window_path(tv, d, max_phrase_dist, ends_in_prefix, start as int, p, b) {
                        if start + p.len() > e {
                            let kk = e - start;
                            assert(self.slot_variant(
                                tv[start + kk],
                                d,
                                ends_in_prefix && start + kk == tv.len() - 1,
                                p[kk],
                            ));
                            assert(resolved@[e as int]@.contains(p[kk]));
                        }
                        assert forall|kk: int| 0 <= kk < p.len() implies sv[kk].contains(p[kk]) by {
                            assert(sv[kk] == slots@[kk]@);
                            assert(self.slot_variant(
                                tv[start + kk],
                                d,
                                ends_in_prefix && start + kk == tv.len() - 1,
                                p[kk],
                            ));
                        }
                        assert(chosen_from(p, sv));
                    }
                }
                assert forall|i: int|
                    0 <= i < emitted.len() implies start + (#[trigger] emitted@[i]).0@.len()
                        <= phrase@.len() && path_distance(emitted@[i].0@) <= 255 && forall|kk: int|
                        0 <= kk < emitted@[i].0@.len() && (#[trigger] emitted@[i].0@[kk]) is Full
                            ==> emitted@[i].0@[kk]->id < self.words().len() by {
                    let p = emitted@[i].0@;
                    let b = emitted@[i].1;
                    assert(ev[i] == (p, b));
                    assert(ev.contains((p, b)));
                    assert(self.window_path(tv, d, max_phrase_dist, ends_in_prefix, start as int, p, b));
                    assert forall|kk: int| 0 <= kk < p.len() && (#[trigger] p[kk]) is Full implies p[kk]->id
                        < self.words().len() by {
                        assert(self.slot_variant(
                            tv[start + kk],
                            d,
                            ends_in_prefix && start + kk == tv.len() - 1,
                            p[kk],
                        ));
                    }
                }
            }
            let ghost before = window_views(results@);
            self.push_windows(&emitted, phrase, start, &mut results);
            proof {
                assert forall|x: (Seq<Seq<char>>, u8, usize, bool)|
                    #[trigger] window_views(results@).contains(x) <==> (self.window_result(
                        tv,
                        d,
                        max_phrase_dist,
                        ends_in_prefix,
                        x,
                    ) && x.2 < start + 1) by {
                    assert(before.contains(x) <==> (self.window_result(
                        tv,
                        d,
                        max_phrase_dist,
                        ends_in_prefix,
                        x,
                    ) && x.2 < start));
                    if self.window_result(tv, d, max_phrase_dist, ends_in_prefix, x) && x.2 == start {
                        let p = choose|p: Seq<QueryWord>|
                            self.window_path(tv, d, max_phrase_dist, ends_in_prefix, x.2 as int, p, x.3)
                                && x.0 == self.rendered(p, tv, x.2 as int) && x.1 == path_distance(p) as u8;
                        assert(self.window_emits(sv, max_phrase_dist, walk_prefix, p, x.3));
                        assert(ev.contains((p, x.3)));
                        assert(x == (
                            self.rendered(p, tv, start as int),
                            path_distance(p) as u8,
                            start,
                            x.3,
                        ));
                    }
                    if exists|p: Seq<QueryWord>|
                        ev.contains((p, x.3)) && x == (
                            self.rendered(p, tv, start as int),
                            path_distance(p) as u8,
                            start,
                            x.3,
                        ) {
                        let p = choose|p: Seq<QueryWord>|
                            ev.contains((p, x.3)) && x == (
                                self.rendered(p, tv, start as int),
                                path_distance(p) as u8,
                                start,
                                x.3,
                            );
                        assert(self.window_path(tv, d, max_phrase_dist, ends_in_prefix, start as int, p, x.3));
                        assert(x.2 == start);
                        assert(x.0 == self.rendered(p, tv, x.2 as int));
                        assert(self.window_result(tv, d, max_phrase_dist, ends_in_prefix, x));
                    }
                }
            }
            start = start + 1;
        }
        proof {
            assert forall|x: (Seq<Seq<char>>, u8, usize, bool)|
                #[trigger] window_views(results@).contains(x) <==> self.window_result(
                    tv,
                    d,
                    max_phrase_dist,
                    ends_in_prefix,
                    x,
                ) by {
                if self.window_result(tv, d, max_phrase_dist, ends_in_prefix, x) {
                    let p = choose|p: Seq<QueryWord>|
                        self.window_path(tv, d, max_phrase_dist, ends_in_prefix, x.2 as int, p, x.3)
                            && x.0 == self.rendered(p, tv, x.2 as int) && x.1 == path_distance(p) as u8;
                }
            }
        }
        Ok(results)
    }
}

} // verus!
