//! The read-only phrase index: the sorted word list (token ids are positions
//! in it), the phrases as id sequences, and the lookups on them.
use vstd::prelude::*;
use crate::query::{QueryWord, lemma_contains_push, lemma_push_no_duplicates, path_fits, variant_matches};
use crate::script::{fuzzy_script_flags, in_fuzzy_scripts, word_in_fuzzy_scripts};
use crate::text::{
    chars_of,
    compare_chars,
    distance_within_one,
    has_prefix,
    lemma_lex_lt_irreflexive,
    lemma_between_prefix,
    lemma_lex_lt_transitive,
    lemma_prefixed_not_before,
    lex_lt,
    small_distance,
    string_views,
    starts_with,
    Order,
};

verus! {

/// The kinds of failure that building, opening or querying an index reports.
#[derive(PartialEq, Eq, Structural, Clone, Copy, Debug)]
pub enum FuzzyPhraseSetError {
    /// An expected file or directory is absent.
    NotFound,
    /// The build target exists and is not a directory.
    AlreadyExists,
    /// Stored data does not have the expected shape.
    InvalidData,
    /// A read or write failed.
    Io,
    /// Variant lists put a prefix variant where a walk does not allow one.
    QueryShape,
}

/// A phrase index: every token has the id of its position in a word list
/// sorted in code point order, and phrases are sequences of such ids.
pub struct FuzzyPhraseSet {
    word_list: Vec<String>,
    word_chars: Vec<Vec<char>>,
    fuzzy_eligible: Vec<bool>,
    phrases: Vec<Vec<u32>>,
}

/// The character views of a sequence of tokens.
pub open spec fn token_views(tokens: Seq<&str>) -> Seq<Seq<char>> {
    tokens.map_values(|t: &str| t@)
}

/// The id sequences of a list of phrases.
pub open spec fn id_views(ps: Seq<Vec<u32>>) -> Seq<Seq<u32>> {
    ps.map_values(|p: Vec<u32>| p@)
}

/// The words of `w` are in strictly ascending code point order.
pub open spec fn strictly_sorted(w: Seq<Seq<char>>) -> bool {
    forall|i: int, j: int| 0 <= i < j < w.len() ==> lex_lt(w[i], w[j])
}

pub proof fn lemma_sorted_distinct(w: Seq<Seq<char>>, i: int, j: int)
    requires
        strictly_sorted(w),
        0 <= i < w.len(),
        0 <= j < w.len(),
        i != j,
    ensures
        w[i] != w[j],
{
    lemma_lex_lt_irreflexive(w[i]);
}

impl FuzzyPhraseSet {
    /// The word list: the token with id `i` is `words()[i]`.
    pub closed spec fn words(&self) -> Seq<Seq<char>> {
        string_views(self.word_list@)
    }

    /// The indexed phrases as id sequences.
    pub closed spec fn phrase_ids(&self) -> Seq<Seq<u32>> {
        id_views(self.phrases@)
    }

    /// The per-word character copies and script flags match the word list.
    pub closed spec fn caches_agree(&self) -> bool {
        &&& self.word_chars.len() == self.word_list.len()
        &&& self.fuzzy_eligible.len() == self.word_list.len()
        &&& forall|i: int|
            0 <= i < self.word_list.len() ==> #[trigger] self.word_chars[i]@ == self.word_list[i]@
        &&& forall|i: int|
            0 <= i < self.word_list.len() ==> #[trigger] self.fuzzy_eligible[i] == in_fuzzy_scripts(
                self.word_list[i]@,
            )
    }

    proof fn lemma_word(&self, i: int)
        requires
            self.caches_agree(),
            0 <= i < self.word_list.len(),
        ensures
            self.words().len() == self.word_list.len(),
            self.words()[i] == self.word_chars[i]@,
            self.words()[i] == self.word_list[i]@,
            self.fuzzy_eligible[i] == in_fuzzy_scripts(self.words()[i]),
    {
        assert(self.words()[i] == self.word_list@[i]@);
        assert(self.word_chars[i]@ == self.word_list[i]@);
    }

    /// Well-formedness: ids fit in `u32`, the word list is strictly sorted,
    /// and every phrase names known ids.
    pub open spec fn wf(&self) -> bool {
        &&& self.words().len() <= u32::MAX
        &&& strictly_sorted(self.words())
        &&& forall|i: int, k: int|
            0 <= i < self.phrase_ids().len() && 0 <= k < self.phrase_ids()[i].len()
                ==> self.phrase_ids()[i][k] < self.words().len()
        &&& self.caches_agree()
    }

    /// The text of an id sequence.
    pub open spec fn text_of(&self, ph: Seq<u32>) -> Seq<Seq<char>> {
        Seq::new(ph.len(), |k: int| self.words()[ph[k] as int])
    }

    /// Some phrase of the index has the text `tokens`.
    pub open spec fn has_text(&self, tokens: Seq<Seq<char>>) -> bool {
        exists|i: int|
            0 <= i < self.phrase_ids().len() && self.text_of(self.phrase_ids()[i]) == tokens
    }

    /// The non-empty phrase `tokens` is in the index.
    pub open spec fn holds_phrase(&self, tokens: Seq<Seq<char>>) -> bool {
        tokens.len() > 0 && self.has_text(tokens)
    }

    /// Some phrase of the index has exactly the ids that `p` accepts.
    pub open spec fn accepted_exact(&self, p: Seq<QueryWord>) -> bool {
        exists|i: int|
            0 <= i < self.phrase_ids().len() && self.phrase_ids()[i].len() == p.len()
                && path_fits(p, self.phrase_ids()[i])
    }

    /// Some phrase of the index begins with ids that `p` accepts.
    pub open spec fn accepted_prefix(&self, p: Seq<QueryWord>) -> bool {
        exists|i: int| 0 <= i < self.phrase_ids().len() && path_fits(p, self.phrase_ids()[i])
    }

    /// `lo` is the first id whose word begins with `t`.
    pub open spec fn first_with_prefix(&self, t: Seq<char>, lo: int) -> bool {
        &&& 0 <= lo < self.words().len()
        &&& starts_with(self.words()[lo], t)
        &&& forall|i: int| 0 <= i < lo ==> !starts_with(self.words()[i], t)
    }

    /// `hi` is the last id whose word begins with `t`.
    pub open spec fn last_with_prefix(&self, t: Seq<char>, hi: int) -> bool {
        &&& 0 <= hi < self.words().len()
        &&& starts_with(self.words()[hi], t)
        &&& forall|i: int| hi < i < self.words().len() ==> !starts_with(self.words()[i], t)
    }

    /// Some word begins with `t`.
    pub open spec fn has_word_with_prefix(&self, t: Seq<char>) -> bool {
        exists|i: int| 0 <= i < self.words().len() && starts_with(self.words()[i], t)
    }

    /// The prefix variant for `t`: the id range of the words that begin with it.
    pub open spec fn prefix_variant_of(&self, t: Seq<char>, v: QueryWord) -> bool {
        match v {
            QueryWord::Prefix { start, end } => self.first_with_prefix(t, start as int)
                && self.last_with_prefix(t, end as int),
            QueryWord::Full { .. } => false,
        }
    }

    /// `v` is a hit of the fuzzy dictionary for `t` within per-word distance `d`:
    /// a fuzzy-eligible word within that distance, with its distance.
    pub open spec fn fuzzy_hit(&self, t: Seq<char>, d: u8, v: QueryWord) -> bool {
        match v {
            QueryWord::Full { id, edit_distance } => {
                &&& id < self.words().len()
                &&& in_fuzzy_scripts(self.words()[id as int])
                &&& small_distance(t, self.words()[id as int]) == Some(edit_distance)
                &&& edit_distance <= d
            },
            QueryWord::Prefix { .. } => false,
        }
    }

    /// `v` is the exact-match variant for `t`.
    pub open spec fn exact_variant(&self, t: Seq<char>, v: QueryWord) -> bool {
        match v {
            QueryWord::Full { id, edit_distance } => id < self.words().len() && self.words()[id as int]
                == t && edit_distance == 0,
            QueryWord::Prefix { .. } => false,
        }
    }

    /// The variants of a slot that is not the last of a prefix query.
    pub open spec fn nonterminal_variant(&self, t: Seq<char>, d: u8, v: QueryWord) -> bool {
        if in_fuzzy_scripts(t) {
            self.fuzzy_hit(t, d, v)
        } else {
            self.exact_variant(t, v)
        }
    }

    /// The variants of the last slot of a prefix query: the prefix range, and
    /// for fuzzy-eligible text the fuzzy hits, less the exact one when the
    /// prefix range already holds it.
    pub open spec fn terminal_variant(&self, t: Seq<char>, d: u8, v: QueryWord) -> bool {
        ||| self.prefix_variant_of(t, v)
        ||| (in_fuzzy_scripts(t) && self.fuzzy_hit(t, d, v) && !(self.has_word_with_prefix(t)
            && v->edit_distance == 0))
    }

    /// The variants of a slot, terminal or not.
    pub open spec fn slot_variant(&self, t: Seq<char>, d: u8, terminal: bool, v: QueryWord) -> bool {
        if terminal {
            self.terminal_variant(t, d, v)
        } else {
            self.nonterminal_variant(t, d, v)
        }
    }

    /// Builds an index from a word list and phrases over its ids, checking
    /// that the words are strictly sorted and the ids in range.
    pub fn from_parts(word_list: Vec<String>, phrases: Vec<Vec<u32>>) -> (r: Result<
        FuzzyPhraseSet,
        FuzzyPhraseSetError,
    >)
        ensures
            r is Ok <==> (word_list@.len() <= u32::MAX && strictly_sorted(
                string_views(word_list@),
            ) && forall|i: int, k: int|
                0 <= i < phrases@.len() && 0 <= k < phrases@[i]@.len() ==> phrases@[i]@[k]
                    < word_list@.len()),
            r is Err ==> r == Err::<FuzzyPhraseSet, _>(FuzzyPhraseSetError::InvalidData),
            r matches Ok(s) ==> s.wf() && s.words() == string_views(word_list@)
                && s.phrase_ids() == id_views(phrases@),
    {
        let ghost wv = string_views(word_list@);
        if word_list.len() > u32::MAX as usize {
            return Err(FuzzyPhraseSetError::InvalidData);
        }
        let mut word_chars: Vec<Vec<char>> = Vec::new();
        let flags = fuzzy_script_flags(&word_list);
        let mut fuzzy_eligible: Vec<bool> = Vec::new();
        let mut i: usize = 0;
        while i < word_list.len()
            invariant
                i <= word_list.len(),
                wv == string_views(word_list@),
                flags.len() == word_list.len(),
                forall|j: int| 0 <= j < word_list.len() ==> flags[j] == in_fuzzy_scripts(#[trigger] word_list[j]@),
                word_chars.len() == i,
                fuzzy_eligible.len() == i,
                forall|j: int| 0 <= j < i ==> #[trigger] word_chars[j]@ == word_list[j]@,
                forall|j: int|
                    0 <= j < i ==> #[trigger] fuzzy_eligible[j] == in_fuzzy_scripts(word_list[j]@),
                forall|a: int, b: int| 0 <= a < b < i ==> lex_lt(wv[a], wv[b]),
            decreases word_list.len() - i,
        {
            let c = chars_of(word_list[i].as_str());
            assert(wv[i as int] == c@);
            if i > 0 {
                assert(wv[i - 1] == word_chars[i - 1]@);
                if compare_chars(&word_chars[i - 1], &c) != Order::Less {
                    assert(!strictly_sorted(wv)) by {
                        assert(!lex_lt(wv[i - 1], wv[i as int]));
                    }
                    return Err(FuzzyPhraseSetError::InvalidData);
                }
                proof {
                    assert forall|a: int, b: int| 0 <= a < b < i + 1 implies lex_lt(
                        wv[a],
                        wv[b],
                    ) by {
                        if b == i && a < i - 1 {
                            lemma_lex_lt_transitive(wv[a], wv[i - 1], wv[b]);
                        }
                    }
                }
            }
            fuzzy_eligible.push(flags[i]);
            word_chars.push(c);
            i = i + 1;
        }
        let mut p: usize = 0;
        while p < phrases.len()
            invariant
                p <= phrases.len(),
                word_list.len() <= u32::MAX,
                forall|a: int, k: int|
                    0 <= a < p && 0 <= k < phrases@[a]@.len() ==> phrases@[a]@[k]
                        < word_list@.len(),
            decreases phrases.len() - p,
        {
            let mut k: usize = 0;
            while k < phrases[p].len()
                invariant
                    p < phrases.len(),
                    k <= phrases[p as int].len(),
                    word_list.len() <= u32::MAX,
                    forall|kk: int| 0 <= kk < k ==> phrases@[p as int]@[kk] < word_list@.len(),
                decreases phrases[p as int].len() - k,
            {
                if phrases[p][k] as usize >= word_list.len() {
                    return Err(FuzzyPhraseSetError::InvalidData);
                }
                k = k + 1;
            }
            p = p + 1;
        }
        let s = FuzzyPhraseSet { word_list, word_chars, fuzzy_eligible, phrases };
        Ok(s)
    }

    /// The word list, in id order.
    pub fn word_list(&self) -> (r: &Vec<String>)
        ensures
            string_views(r@) == self.words(),
    {
        &self.word_list
    }

    /// The phrases, as id sequences.
    pub fn phrase_list(&self) -> (r: &Vec<Vec<u32>>)
        ensures
            id_views(r@) == self.phrase_ids(),
    {
        &self.phrases
    }

    /// Whether every character of `word` belongs to a fuzzy-enabled script.
    pub fn can_fuzzy_match(&self, word: &str) -> (r: bool)
        ensures
            r == in_fuzzy_scripts(word@),
    {
        word_in_fuzzy_scripts(word)
    }

    /// The id of `w`, if it is a word of the index (a binary search over the
    /// sorted word list).
    pub fn get_id(&self, w: &Vec<char>) -> (r: Option<u32>)
        requires
            self.wf(),
        ensures
            r matches Some(id) ==> id < self.words().len() && self.words()[id as int] == w@,
            r is None ==> forall|i: int| 0 <= i < self.words().len() ==> self.words()[i] != w@,
    {
        let mut lo: usize = 0;
        let mut hi: usize = self.word_chars.len();
        while lo < hi
            invariant
                self.wf(),
                lo <= hi <= self.word_chars.len(),
                forall|j: int| 0 <= j < lo ==> lex_lt(self.words()[j], w@),
                forall|j: int| hi <= j < self.words().len() ==> lex_lt(w@, self.words()[j]),
            decreases hi - lo,
        {
            let mid = lo + (hi - lo) / 2;
            proof { self.lemma_word(mid as int); }
            match compare_chars(&self.word_chars[mid], w) {
                Order::Equal => {
                    return Some(mid as u32);
                },
                Order::Less => {
                    proof {
                        assert forall|j: int| 0 <= j < mid + 1 implies lex_lt(self.words()[j], w@) by {
                            if j < mid {
                                lemma_lex_lt_transitive(self.words()[j], self.words()[mid as int], w@);
                            }
                        }
                    }
                    lo = mid + 1;
                },
                Order::Greater => {
                    proof {
                        assert forall|j: int| mid <= j < self.words().len() implies lex_lt(w@, self.words()[j]) by {
                            if j > mid {
                                lemma_lex_lt_transitive(w@, self.words()[mid as int], self.words()[j]);
                            }
                        }
                    }
                    hi = mid;
                },
            }
        }
        proof {
            assert forall|i: int| 0 <= i < self.words().len() implies self.words()[i] != w@ by {
                lemma_lex_lt_irreflexive(w@);
            }
        }
        None
    }

    /// The first and last ids whose words begin with `p`, if any do: a
    /// binary search for the first word not before `p`, then a walk over the
    /// run of words that begin with it.
    pub fn get_prefix_range(&self, p: &Vec<char>) -> (r: Option<(u32, u32)>)
        requires
            self.wf(),
        ensures
            r matches Some((lo, hi)) ==> self.first_with_prefix(p@, lo as int)
                && self.last_with_prefix(p@, hi as int),
            r is None <==> !self.has_word_with_prefix(p@),
    {
        let n = self.word_chars.len();
        let mut lo: usize = 0;
        let mut top: usize = n;
        while lo < top
            invariant
                self.wf(),
                n == self.words().len(),
                lo <= top <= n,
                forall|j: int| 0 <= j < lo ==> lex_lt(self.words()[j], p@),
                forall|j: int| top <= j < n ==> self.words()[j] == p@ || lex_lt(p@, self.words()[j]),
            decreases top - lo,
        {
            let mid = lo + (top - lo) / 2;
            proof { self.lemma_word(mid as int); }
            match compare_chars(&self.word_chars[mid], p) {
                Order::Less => {
                    proof {
                        assert forall|j: int| 0 <= j < mid + 1 implies lex_lt(self.words()[j], p@) by {
                            if j < mid {
                                lemma_lex_lt_transitive(self.words()[j], self.words()[mid as int], p@);
                            }
                        }
                    }
                    lo = mid + 1;
                },
                _ => {
                    proof {
                        assert forall|j: int| mid <= j < n implies self.words()[j] == p@ || lex_lt(
                            p@,
                            self.words()[j],
                        ) by {
                            if j > mid && self.words()[mid as int] != p@ {
                                lemma_lex_lt_transitive(p@, self.words()[mid as int], self.words()[j]);
                            }
                        }
                    }
                    top = mid;
                },
            }
        }
        proof {
            assert forall|j: int| 0 <= j < lo implies !starts_with(self.words()[j], p@) by {
                if starts_with(self.words()[j], p@) {
                    lemma_prefixed_not_before(self.words()[j], p@);
                }
            }
        }
        if lo == n {
            return None;
        }
        proof { self.lemma_word(lo as int); }
        if !has_prefix(&self.word_chars[lo], p) {
            proof {
                assert forall|j: int| 0 <= j < n implies !starts_with(self.words()[j], p@) by {
                    if j > lo && starts_with(self.words()[j], p@) {
                        let w = self.words()[lo as int];
                        assert(w != p@) by {
                            assert(p@.take(p@.len() as int) =~= p@);
                        }
                        assert(lex_lt(p@, w));
                        assert(starts_with(p@, p@)) by {
                            assert(p@.take(p@.len() as int) =~= p@);
                        }
                        lemma_between_prefix(p@, w, self.words()[j], p@);
                    }
                }
            }
            return None;
        }
        let mut hi: usize = lo;
        while hi + 1 < n && has_prefix(&self.word_chars[hi + 1], p)
            invariant
                self.wf(),
                n == self.words().len(),
                lo <= hi < n,
                starts_with(self.words()[hi as int], p@),
            decreases n - hi,
        {
            proof { self.lemma_word(hi + 1); }
            hi = hi + 1;
            proof { self.lemma_word(hi as int); }
        }
        proof {
            if hi + 1 < n {
                self.lemma_word(hi + 1);
                assert forall|j: int| hi < j < n implies !starts_with(self.words()[j], p@) by {
                    if j > hi + 1 && starts_with(self.words()[j], p@) {
                        lemma_between_prefix(
                            self.words()[hi as int],
                            self.words()[hi + 1],
                            self.words()[j],
                            p@,
                        );
                    }
                }
            }
        }
        Some((lo as u32, hi as u32))
    }

    /// Every fuzzy-eligible word within distance `d` of `w`, with its distance.
    pub fn fuzzy_lookup(&self, w: &Vec<char>, d: u8) -> (r: Vec<QueryWord>)
        requires
            self.wf(),
        ensures
            r@.no_duplicates(),
            forall|v: QueryWord| r@.contains(v) <==> self.fuzzy_hit(w@, d, v),
    {
        let mut out: Vec<QueryWord> = Vec::new();
        let mut i: usize = 0;
        while i < self.word_chars.len()
            invariant
                self.wf(),
                i <= self.word_chars.len(),
                out@.no_duplicates(),
                forall|v: QueryWord|
                    out@.contains(v) <==> (self.fuzzy_hit(w@, d, v) && v->id < i),
            decreases self.word_chars.len() - i,
        {
            proof { self.lemma_word(i as int); }
            if self.fuzzy_eligible[i] {
                match distance_within_one(w, &self.word_chars[i]) {
                    Some(ed) => {
                        if ed <= d {
                            let v = QueryWord::Full { id: i as u32, edit_distance: ed };
                            let ghost before = out@;
                            out.push(v);
                            proof {
                                lemma_push_no_duplicates(before, v);
                                assert forall|x: QueryWord| out@.contains(x) <==> (self.fuzzy_hit(
                                    w@,
                                    d,
                                    x,
                                ) && x->id < i + 1) by {
                                    lemma_contains_push(before, v, x);
                                }
                            }
                        }
                    },
                    None => {},
                }
            }
            i = i + 1;
        }
        out
    }

    /// The variants of a slot that is not the last of a prefix query; `None`
    /// when there are none.
    pub fn get_nonterminal_word_possibilities(&self, word: &str, d: u8) -> (r: Option<Vec<QueryWord>>)
        requires
            self.wf(),
        ensures
            r is None <==> !exists|v: QueryWord| self.nonterminal_variant(word@, d, v),
            r matches Some(l) ==> l.len() > 0 && l@.no_duplicates() && forall|v: QueryWord|
                l@.contains(v) <==> self.nonterminal_variant(word@, d, v),
    {
        let w = chars_of(word);
        if self.can_fuzzy_match(word) {
            let hits = self.fuzzy_lookup(&w, d);
            if hits.len() == 0 {
                assert forall|v: QueryWord| !self.nonterminal_variant(word@, d, v) by {
                    if self.nonterminal_variant(word@, d, v) {
                        assert(hits@.contains(v));
                    }
                }
                None
            } else {
                assert(hits@.contains(hits@[0]));
                assert(self.nonterminal_variant(word@, d, hits@[0]));
                Some(hits)
            }
        } else {
            match self.get_id(&w) {
                Some(id) => {
                    let v = QueryWord::Full { id, edit_distance: 0 };
                    let l = vec![v];
                    proof {
                        assert(self.nonterminal_variant(word@, d, v));
                        assert(l@[0] == v);
                        assert forall|x: QueryWord| l@.contains(x) <==> self.nonterminal_variant(
                            word@,
                            d,
                            x,
                        ) by {
                            if self.nonterminal_variant(word@, d, x) {
                                if x->id != id {
                                    lemma_sorted_distinct(self.words(), x->id as int, id as int);
                                }
                                assert(x == v);
                            }
                        }
                    }
                    Some(l)
                },
                None => {
                    assert forall|v: QueryWord| !self.nonterminal_variant(word@, d, v) by {
                        if self.nonterminal_variant(word@, d, v) {
                            assert(self.words()[v->id as int] == w@);
                        }
                    }
                    None
                },
            }
        }
    }

    /// The variants of the last slot of a prefix query; `None` when there are
    /// none.
    pub fn get_terminal_word_possibilities(&self, word: &str, d: u8) -> (r: Option<Vec<QueryWord>>)
        requires
            self.wf(),
        ensures
            r is None <==> !exists|v: QueryWord| self.terminal_variant(word@, d, v),
            r matches Some(l) ==> l.len() > 0 && l@.no_duplicates() && forall|v: QueryWord|
                l@.contains(v) <==> self.terminal_variant(word@, d, v),
            r matches Some(l) ==> (self.has_word_with_prefix(word@) ==> l@[0] is Prefix),
            r matches Some(l) ==> forall|k: int| 0 < k < l.len() ==> (#[trigger] l@[k]) is Full,
            r matches Some(l) ==> (!in_fuzzy_scripts(word@) ==> l.len() == 1),
    {
        let w = chars_of(word);
        let mut out: Vec<QueryWord> = Vec::new();
        let range = self.get_prefix_range(&w);
        let found_prefix = range.is_some();
        match range {
            Some(rg) => {
                out.push(QueryWord::new_prefix(rg));
            },
            None => {},
        }
        proof {
            assert forall|v: QueryWord| #[trigger] self.prefix_variant_of(word@, v) implies out@.contains(v) by {
                let (lo, hi) = range->0;
                if v->start != lo {
                    assert(self.first_with_prefix(word@, lo as int));
                }
                if v->end != hi {
                    assert(self.last_with_prefix(word@, hi as int));
                }
                assert(out@[0] == v);
            }
        }
        let ghost prefix_part = out@;
        assert(found_prefix == self.has_word_with_prefix(word@));
        assert(prefix_part.len() == if found_prefix { 1int } else { 0int });
        assert(found_prefix ==> prefix_part[0] is Prefix);
        if self.can_fuzzy_match(word) {
            let hits = self.fuzzy_lookup(&w, d);
            let mut j: usize = 0;
            while j < hits.len()
                invariant
                    self.wf(),
                    hits@.no_duplicates(),
                    out@.no_duplicates(),
                    prefix_part.len() == if found_prefix { 1int } else { 0int },
                    found_prefix ==> prefix_part[0] is Prefix,
                    prefix_part.len() <= out@.len(),
                    forall|k: int| 0 <= k < prefix_part.len() ==> out@[k] == prefix_part[k],
                    forall|k: int| prefix_part.len() <= k < out@.len() ==> (#[trigger] out@[k]) is Full,
                    j <= hits.len(),
                    found_prefix == self.has_word_with_prefix(word@),
                    in_fuzzy_scripts(word@),
                    forall|v: QueryWord| hits@.contains(v) <==> self.fuzzy_hit(w@, d, v),
                    w@ == word@,
                    forall|v: QueryWord|
                        #[trigger] out@.contains(v) <==> (prefix_part.contains(v) || (hits@.take(
                            j as int,
                        ).contains(v) && !(found_prefix && v->edit_distance == 0))),
                decreases hits.len() - j,
            {
                let h = hits[j];
                let ghost before = out@;
                assert(forall|v: QueryWord|
                    #[trigger] before.contains(v) <==> (prefix_part.contains(v) || (hits@.take(
                        j as int,
                    ).contains(v) && !(found_prefix && v->edit_distance == 0))));
                let keep = match h {
                    QueryWord::Full { edit_distance, .. } => !(found_prefix && edit_distance == 0),
                    QueryWord::Prefix { .. } => false,
                };
                if keep {
                    proof {
                        if before.contains(h) {
                            if prefix_part.contains(h) {
                                let q = choose|q: int| 0 <= q < prefix_part.len() && prefix_part[q] == h;
                            } else {
                                let q = choose|q: int| 0 <= q < hits@.take(j as int).len() && hits@.take(j as int)[q] == h;
                                assert(hits@[q] == hits@[j as int]);
                            }
                        }
                        lemma_push_no_duplicates(before, h);
                    }
                    out.push(h);
                }
                proof {
                    assert(hits@.contains(h));
                    assert(hits@.take(j + 1) =~= hits@.take(j as int).push(h));
                    assert forall|v: QueryWord|
                        #[trigger] out@.contains(v) <==> (prefix_part.contains(v) || (hits@.take(
                            j + 1,
                        ).contains(v) && !(found_prefix && v->edit_distance == 0))) by {
                        lemma_contains_push(hits@.take(j as int), h, v);
                        if keep {
                            lemma_contains_push(before, h, v);
                            assert(out@ == before.push(h));
                        } else {
                            assert(out@ == before);
                            if v == h {
                                assert(found_prefix && v->edit_distance == 0);
                            }
                        }
                    }
                }
                j = j + 1;
            }
            proof {
                assert(hits@.take(j as int) =~= hits@);
                assert forall|v: QueryWord| out@.contains(v) <==> self.terminal_variant(word@, d, v) by {
                    if out@.contains(v) && !prefix_part.contains(v) {
                        assert(hits@.contains(v));
                    }
                    if self.prefix_variant_of(word@, v) {
                        assert(prefix_part.contains(v));
                    }
                }
            }
        } else {
            assert forall|v: QueryWord| out@.contains(v) <==> self.terminal_variant(word@, d, v) by {
                if out@.contains(v) {
                    assert(prefix_part.contains(v));
                }
            }
        }
        if out.len() == 0 {
            assert forall|v: QueryWord| !self.terminal_variant(word@, d, v) by {
                if self.terminal_variant(word@, d, v) {
                    assert(out@.contains(v));
                }
            }
            None
        } else {
            assert(out@.contains(out@[0]));
            Some(out)
        }
    }
    /// `t` is a word of the index.
    pub open spec fn is_word(&self, t: Seq<char>) -> bool {
        exists|i: int| 0 <= i < self.words().len() && self.words()[i] == t
    }

    /// The id of the last slot of a prefix query lies in the range of the
    /// words that begin with `t`.
    pub open spec fn in_prefix_range(&self, t: Seq<char>, id: int) -> bool {
        exists|lo: int, hi: int|
            self.first_with_prefix(t, lo) && self.last_with_prefix(t, hi) && lo <= id <= hi
    }

    /// Some phrase of the index begins with `tokens`, where the last token
    /// may stand for any word in the id range of the words it begins.
    pub open spec fn holds_prefix(&self, tokens: Seq<Seq<char>>) -> bool {
        tokens.len() > 0 && exists|i: int|
            0 <= i < self.phrase_ids().len() && self.phrase_ids()[i].len() >= tokens.len() && (
            forall|k: int|
                0 <= k < tokens.len() - 1 ==> self.words()[self.phrase_ids()[i][k] as int]
                    == tokens[k]) && self.in_prefix_range(
                tokens.last(),
                self.phrase_ids()[i][tokens.len() - 1] as int,
            )
    }

    /// Whether the variants of `p` accept the first ids of `ph`.
    fn fits(p: &Vec<QueryWord>, ph: &Vec<u32>) -> (r: bool)
        ensures
            r == path_fits(p@, ph@),
    {
        if p.len() > ph.len() {
            return false;
        }
        let mut k: usize = 0;
        while k < p.len()
            invariant
                k <= p.len() <= ph.len(),
                forall|kk: int| 0 <= kk < k ==> variant_matches(p@[kk], ph@[kk]),
            decreases p.len() - k,
        {
            let ok = match p[k] {
                QueryWord::Full { id, .. } => id == ph[k],
                QueryWord::Prefix { start, end } => start <= ph[k] && ph[k] <= end,
            };
            if !ok {
                return false;
            }
            k = k + 1;
        }
        true
    }

    /// Whether some phrase has exactly (`exact`) or begins with ids that the
    /// path accepts.
    pub fn phrase_accepts(&self, p: &Vec<QueryWord>, exact: bool) -> (r: bool)
        ensures
            r == if exact {
                self.accepted_exact(p@)
            } else {
                self.accepted_prefix(p@)
            },
    {
        let mut i: usize = 0;
        while i < self.phrases.len()
            invariant
                i <= self.phrases.len(),
                forall|j: int|
                    0 <= j < i ==> !(path_fits(p@, self.phrase_ids()[j]) && (exact
                        ==> self.phrase_ids()[j].len() == p@.len())),
            decreases self.phrases.len() - i,
        {
            assert(self.phrase_ids()[i as int] == self.phrases[i as int]@);
            if Self::fits(p, &self.phrases[i]) && (!exact || self.phrases[i].len() == p.len()) {
                return true;
            }
            i = i + 1;
        }
        false
    }

    proof fn lemma_exact_path_text(&self, tokens: Seq<Seq<char>>, p: Seq<QueryWord>, ph: Seq<u32>)
        requires
            self.wf(),
            p.len() == tokens.len(),
            forall|k: int| 0 <= k < ph.len() ==> ph[k] < self.words().len(),
            forall|k: int|
                0 <= k < p.len() ==> (#[trigger] p[k]) is Full && p[k]->id < self.words().len()
                    && self.words()[p[k]->id as int] == tokens[k],
        ensures
            (path_fits(p, ph) && ph.len() == p.len()) <==> self.text_of(ph) == tokens,
    {
        if self.text_of(ph) == tokens {
            assert forall|k: int| 0 <= k < p.len() implies variant_matches(p[k], ph[k]) by {
                assert(self.text_of(ph)[k] == self.words()[ph[k] as int]);
                if p[k]->id != ph[k] {
                    lemma_sorted_distinct(self.words(), p[k]->id as int, ph[k] as int);
                }
            }
        }
        if path_fits(p, ph) && ph.len() == p.len() {
            assert(self.text_of(ph) =~= tokens);
        }
    }

    /// The ids of `phrase`, each as an exact variant, if all are words.
    fn exact_path(&self, phrase: &[&str], n: usize) -> (r: Option<Vec<QueryWord>>)
        requires
            self.wf(),
            n <= phrase@.len(),
        ensures
            r matches Some(p) ==> p@.len() == n && forall|k: int|
                0 <= k < n ==> (#[trigger] p@[k]) is Full && p@[k]->id < self.words().len()
                    && self.words()[p@[k]->id as int] == phrase@[k]@ && p@[k]->edit_distance == 0,
            r is None ==> exists|k: int| 0 <= k < n && !self.is_word(#[trigger] phrase@[k]@),
    {
        let mut path: Vec<QueryWord> = Vec::new();
        let mut k: usize = 0;
        while k < n
            invariant
                self.wf(),
                n <= phrase@.len(),
                k <= n,
                path@.len() == k,
                forall|kk: int|
                    0 <= kk < k ==> (#[trigger] path@[kk]) is Full && path@[kk]->id
                        < self.words().len() && self.words()[path@[kk]->id as int]
                        == phrase@[kk]@ && path@[kk]->edit_distance == 0,
            decreases n - k,
        {
            let w = chars_of(phrase[k]);
            match self.get_id(&w) {
                Some(id) => {
                    path.push(QueryWord::Full { id, edit_distance: 0 });
                },
                None => {
                    assert(!self.is_word(phrase@[k as int]@));
                    return None;
                },
            }
            k = k + 1;
        }
        Some(path)
    }

    /// Whether the phrase is in the index. A token that is no word of the
    /// index answers `false` at once.
    pub fn contains(&self, phrase: &[&str]) -> (r: Result<bool, FuzzyPhraseSetError>)
        requires
            self.wf(),
        ensures
            r == Ok::<bool, FuzzyPhraseSetError>(self.holds_phrase(token_views(phrase@))),
    {
        let ghost tokens = token_views(phrase@);
        if phrase.len() == 0 {
            return Ok(false);
        }
        match self.exact_path(phrase, phrase.len()) {
            None => {
                proof {
                    let k = choose|k: int| 0 <= k < phrase@.len() && !self.is_word(#[trigger] phrase@[k]@);
                    if self.holds_phrase(tokens) {
                        let i = choose|i: int|
                            0 <= i < self.phrase_ids().len() && self.text_of(self.phrase_ids()[i])
                                == tokens;
                        assert(self.text_of(self.phrase_ids()[i])[k] == tokens[k]);
                    }
                }
                Ok(false)
            },
            Some(path) => {
                let found = self.phrase_accepts(&path, true);
                proof {
                    assert forall|i: int| 0 <= i < self.phrase_ids().len() implies ((path_fits(
                        path@,
                        self.phrase_ids()[i],
                    ) && self.phrase_ids()[i].len() == path@.len()) <==> self.text_of(
                        self.phrase_ids()[i],
                    ) == tokens) by {
                        self.lemma_exact_path_text(tokens, path@, self.phrase_ids()[i]);
                    }
                }
                Ok(found)
            },
        }
    }

    /// Whether some phrase begins with `phrase`, its last token read as the
    /// beginning of a word.
    pub fn contains_prefix(&self, phrase: &[&str]) -> (r: Result<bool, FuzzyPhraseSetError>)
        requires
            self.wf(),
        ensures
            r == Ok::<bool, FuzzyPhraseSetError>(self.holds_prefix(token_views(phrase@))),
    {
        let ghost tokens = token_views(phrase@);
        if phrase.len() == 0 {
            return Ok(false);
        }
        let last = phrase.len() - 1;
        match self.exact_path(phrase, last) {
            None => {
                proof {
                    let k = choose|k: int| 0 <= k < last && !self.is_word(#[trigger] phrase@[k]@);
                    if self.holds_prefix(tokens) {
                        let i = choose|i: int|
                            0 <= i < self.phrase_ids().len() && self.phrase_ids()[i].len()
                                >= tokens.len() && (forall|k: int|
                                0 <= k < tokens.len() - 1 ==> self.words()[self.phrase_ids()[i][k] as int]
                                    == tokens[k]) && self.in_prefix_range(
                                tokens.last(),
                                self.phrase_ids()[i][tokens.len() - 1] as int,
                            );
                        assert(self.words()[self.phrase_ids()[i][k] as int] == tokens[k]);
                    }
                }
                Ok(false)
            },
            Some(path) => {
                let w = chars_of(phrase[last]);
                match self.get_prefix_range(&w) {
                    None => {
                        proof {
                            if self.holds_prefix(tokens) {
                                let i = choose|i: int|
                                    0 <= i < self.phrase_ids().len() && self.phrase_ids()[i].len()
                                        >= tokens.len() && (forall|k: int|
                                        0 <= k < tokens.len() - 1 ==> self.words()[self.phrase_ids()[i][k] as int]
                                            == tokens[k]) && self.in_prefix_range(
                                        tokens.last(),
                                        self.phrase_ids()[i][tokens.len() - 1] as int,
                                    );
                                let id = self.phrase_ids()[i][tokens.len() - 1] as int;
                                let (lo, hi) = choose|lo: int, hi: int|
                                    self.first_with_prefix(tokens.last(), lo) && self.last_with_prefix(
                                        tokens.last(),
                                        hi,
                                    ) && lo <= id <= hi;
                                assert(starts_with(self.words()[lo], w@));
                            }
                        }
                        Ok(false)
                    },
                    Some(rg) => {
                        let mut query = path;
                        let ghost exact_part = query@;
                        query.push(QueryWord::new_prefix(rg));
                        let found = self.phrase_accepts(&query, false);
                        proof {
                            assert(tokens.last() == w@);
                            let lo = rg.0 as int;
                            let hi = rg.1 as int;
                            assert forall|i: int| 0 <= i < self.phrase_ids().len() implies (path_fits(
                                query@,
                                self.phrase_ids()[i],
                            ) <==> (self.phrase_ids()[i].len() >= tokens.len() && (forall|k: int|
                                0 <= k < tokens.len() - 1 ==> self.words()[self.phrase_ids()[i][k] as int]
                                    == tokens[k]) && self.in_prefix_range(
                                tokens.last(),
                                self.phrase_ids()[i][tokens.len() - 1] as int,
                            ))) by {
                                let ph = self.phrase_ids()[i];
                                if path_fits(query@, ph) {
                                    assert forall|k: int| 0 <= k < tokens.len() - 1 implies self.words()[ph[k] as int]
                                        == tokens[k] by {
                                        assert(query@[k] == exact_part[k]);
                                        assert(variant_matches(query@[k], ph[k]));
                                    }
                                    assert(variant_matches(query@[last as int], ph[last as int]));
                                    assert(self.in_prefix_range(tokens.last(), ph[last as int] as int));
                                }
                                if ph.len() >= tokens.len() && (forall|k: int|
                                    0 <= k < tokens.len() - 1 ==> self.words()[ph[k] as int]
                                        == tokens[k]) && self.in_prefix_range(
                                    tokens.last(),
                                    ph[tokens.len() - 1] as int,
                                ) {
                                    let (lo2, hi2) = choose|lo2: int, hi2: int|
                                        self.first_with_prefix(tokens.last(), lo2) && self.last_with_prefix(
                                            tokens.last(),
                                            hi2,
                                        ) && lo2 <= ph[tokens.len() - 1] <= hi2;
                                    if lo2 < lo {
                                        assert(starts_with(self.words()[lo2], w@));
                                    }
                                    if lo < lo2 {
                                        assert(starts_with(self.words()[lo], w@));
                                    }
                                    if hi2 < hi {
                                        assert(starts_with(self.words()[hi], w@));
                                    }
                                    if hi < hi2 {
                                        assert(starts_with(self.words()[hi2], w@));
                                    }
                                    assert forall|k: int| 0 <= k < query@.len() implies variant_matches(
                                        query@[k],
                                        ph[k],
                                    ) by {
                                        if k < last {
                                            assert(query@[k] == exact_part[k]);
                                            assert(tokens[k] == phrase@[k]@);
                                            let id = exact_part[k]->id;
                                            if id != ph[k] {
                                                lemma_sorted_distinct(self.words(), id as int, ph[k] as int);
                                            }
                                        } else {
                                            assert(k == last);
                                            assert(lo2 == lo && hi2 == hi);
                                            assert(query@[k] == QueryWord::Prefix { start: rg.0, end: rg.1 });
                                        }
                                    }
                                }
                            }
                        }
                        Ok(found)
                    },
                }
            },
        }
    }
    /// The text of a path: the word of each full variant, and for a prefix
    /// variant the query's own token at that position (counted from `offset`).
    pub open spec fn rendered(&self, p: Seq<QueryWord>, tokens: Seq<Seq<char>>, offset: int) -> Seq<
        Seq<char>,
    > {
        Seq::new(
            p.len(),
            |k: int|
                match p[k] {
                    QueryWord::Full { id, .. } => self.words()[id as int],
                    QueryWord::Prefix { .. } => tokens[offset + k],
                },
        )
    }

    /// The text of a path, in exec form.
    pub fn render_path(&self, p: &Vec<QueryWord>, tokens: &[&str], offset: usize) -> (r: Vec<String>)
        requires
            self.wf(),
            offset + p@.len() <= tokens@.len(),
            forall|k: int|
                0 <= k < p@.len() && (#[trigger] p@[k]) is Full ==> p@[k]->id < self.words().len(),
        ensures
            string_views(r@) == self.rendered(p@, token_views(tokens@), offset as int),
    {
        let ghost tv = token_views(tokens@);
        let mut out: Vec<String> = Vec::new();
        let mut k: usize = 0;
        let tl = tokens.len();
        while k < p.len()
            invariant
                tl == tokens@.len(),
                self.wf(),
                tv == token_views(tokens@),
                offset + p@.len() <= tokens@.len(),
                forall|kk: int|
                    0 <= kk < p@.len() && (#[trigger] p@[kk]) is Full ==> p@[kk]->id < self.words().len(),
                k <= p.len(),
                string_views(out@) == self.rendered(p@, tv, offset as int).take(k as int),
            decreases p.len() - k,
        {
            let ghost before = string_views(out@);
            let word = match p[k] {
                QueryWord::Full { id, .. } => {
                    proof { self.lemma_word(id as int); }
                    self.word_list[id as usize].clone()
                },
                QueryWord::Prefix { .. } => {
                    assert(tv[offset + k] == tokens@[offset + k]@);
                    tokens[offset + k].to_owned()
                },
            };
            assert(word@ == self.rendered(p@, tv, offset as int)[k as int]);
            let ghost wv = word@;
            out.push(word);
            assert(string_views(out@) =~= before.push(wv));
            assert(string_views(out@) =~= self.rendered(p@, tv, offset as int).take(k + 1));
            k = k + 1;
        }
        assert(self.rendered(p@, tv, offset as int).take(k as int) =~= self.rendered(
            p@,
            tv,
            offset as int,
        ));
        out
    }
}

} // verus!
