//! Collects phrases, then numbers their tokens in code point order and
//! produces the read-only index.
use vstd::prelude::*;
use crate::query::lemma_contains_push;
use crate::set::{FuzzyPhraseSet, FuzzyPhraseSetError, id_views, token_views};
use crate::ids::{compare_ids, ids_lt, lemma_ids_lt_transitive};
use crate::text::{
    chars_of,
    compare_chars,
    lemma_lex_lt_transitive,
    lex_lt,
    split_on_space,
    split_spaces,
    string_views,
    Order,
};

verus! {

/// Accumulates phrases; tokens get provisional ids in order of first sight.
pub struct FuzzyPhraseSetBuilder {
    words: Vec<String>,
    word_chars: Vec<Vec<char>>,
    phrases: Vec<Vec<u32>>,
}

/// The text of an id sequence over a token table.
pub open spec fn text_over(table: Seq<Seq<char>>, ph: Seq<u32>) -> Seq<Seq<char>> {
    Seq::new(ph.len(), |k: int| table[ph[k] as int])
}

impl FuzzyPhraseSetBuilder {
    /// The distinct tokens seen so far, by provisional id.
    pub closed spec fn tokens(&self) -> Seq<Seq<char>> {
        string_views(self.words@)
    }

    /// The phrases inserted so far, in order.
    pub closed spec fn phrase_texts(&self) -> Seq<Seq<Seq<char>>> {
        Seq::new(
            self.phrases@.len(),
            |i: int| text_over(string_views(self.words@), self.phrases@[i]@),
        )
    }

    /// Well-formedness: distinct tokens, ids that fit and that name tokens.
    pub closed spec fn wf(&self) -> bool {
        &&& self.words.len() <= u32::MAX
        &&& self.word_chars.len() == self.words.len()
        &&& forall|i: int| 0 <= i < self.words.len() ==> #[trigger] self.word_chars[i]@ == self.words[i]@
        &&& forall|i: int, j: int|
            0 <= i < j < self.words.len() ==> self.words[i]@ != self.words[j]@
        &&& forall|i: int, k: int|
            0 <= i < self.phrases.len() && 0 <= k < self.phrases[i]@.len()
                ==> self.phrases[i]@[k] < self.words.len()
    }

    proof fn lemma_tokens_distinct(&self)
        requires
            self.wf(),
        ensures
            self.tokens().no_duplicates(),
            self.tokens().len() == self.words.len(),
    {
        assert forall|a: int, b: int|
            0 <= a < self.tokens().len() && 0 <= b < self.tokens().len() && a != b implies self.tokens()[a]
                != self.tokens()[b] by {
            assert(self.tokens()[a] == self.words[a]@);
            assert(self.tokens()[b] == self.words[b]@);
        }
    }

    /// An empty builder.
    pub fn new() -> (r: FuzzyPhraseSetBuilder)
        ensures
            r.wf(),
            r.tokens().len() == 0,
            r.tokens().no_duplicates(),
            r.phrase_texts().len() == 0,
    {
        let r = FuzzyPhraseSetBuilder { words: Vec::new(), word_chars: Vec::new(), phrases: Vec::new() };
        assert(r.phrase_texts() =~= Seq::empty());
        r
    }

    /// The provisional id of `w`, adding it to the table if it is new.
    fn token_id(&mut self, word: &str) -> (r: u32)
        requires
            old(self).wf(),
            old(self).words.len() < u32::MAX,
        ensures
            final(self).wf(),
            final(self).phrases == old(self).phrases,
            final(self).words@.len() <= old(self).words@.len() + 1,
            old(self).tokens().is_prefix_of(final(self).tokens()),
            r < final(self).words.len(),
            final(self).tokens()[r as int] == word@,
            forall|t: Seq<char>|
                #[trigger] final(self).tokens().contains(t) <==> (old(self).tokens().contains(t) || t
                    == word@),
    {
        let c = chars_of(word);
        let mut i: usize = 0;
        while i < self.word_chars.len()
            invariant
                self.wf(),
                i <= self.word_chars.len(),
                self.words.len() < u32::MAX,
                c@ == word@,
                forall|j: int| 0 <= j < i ==> self.words[j]@ != word@,
            decreases self.word_chars.len() - i,
        {
            assert(self.word_chars[i as int]@ == self.words[i as int]@);
            if compare_chars(&self.word_chars[i], &c) == Order::Equal {
                assert(self.tokens()[i as int] == self.words[i as int]@);
                assert(self.tokens().contains(word@));
                return i as u32;
            }
            i = i + 1;
        }
        let id = self.words.len() as u32;
        self.words.push(word.to_owned());
        self.word_chars.push(c);
        proof {
            assert(self.tokens()[id as int] == word@);
            assert forall|a: int, b: int| 0 <= a < b < self.words.len() implies self.words[a]@
                != self.words[b]@ by {}
            assert(self.tokens() =~= old(self).tokens().push(word@)) by {
                assert forall|j: int| 0 <= j < old(self).tokens().len() implies old(self).tokens()[j]
                    == self.tokens()[j] by {
                    assert(old(self).tokens()[j] == old(self).words[j]@);
                    assert(self.tokens()[j] == self.words[j]@);
                }
            }
            assert forall|t: Seq<char>| #[trigger] self.tokens().contains(t) <==> (old(self).tokens().contains(t)
                || t == word@) by {
                lemma_contains_push(old(self).tokens(), word@, t);
            }
            assert(old(self).tokens().is_prefix_of(self.tokens())) by {
                assert forall|j: int| 0 <= j < old(self).tokens().len() implies old(self).tokens()[j]
                    == self.tokens()[j] by {
                    assert(old(self).tokens()[j] == old(self).words[j]@);
                    assert(self.tokens()[j] == self.words[j]@);
                }
            }
        }
        id
    }

    /// Adds a phrase. Fails, changing nothing, when the token table could
    /// outgrow 32-bit ids.
    pub fn insert(&mut self, phrase: &[&str]) -> (r: Result<(), FuzzyPhraseSetError>)
        requires
            old(self).wf(),
        ensures
            final(self).wf(),
            final(self).tokens().no_duplicates(),
            final(self).tokens().len() <= old(self).tokens().len() + phrase@.len(),
            r is Err <==> old(self).tokens().len() + phrase@.len() > u32::MAX,
            r is Err ==> final(self).tokens() == old(self).tokens() && final(self).phrase_texts()
                == old(self).phrase_texts(),
            r is Ok ==> final(self).phrase_texts() == old(self).phrase_texts().push(
                token_views(phrase@),
            ) && old(self).tokens().is_prefix_of(final(self).tokens()),
            r is Ok ==> forall|t: Seq<char>|
                #[trigger] final(self).tokens().contains(t) <==> (old(self).tokens().contains(t)
                    || token_views(phrase@).contains(t)),
    {
        proof { self.lemma_tokens_distinct(); }
        if phrase.len() > u32::MAX as usize || self.words.len() > u32::MAX as usize - phrase.len() {
            return Err(FuzzyPhraseSetError::InvalidData);
        }
        let ghost start = *self;
        let mut ids: Vec<u32> = Vec::new();
        let mut k: usize = 0;
        while k < phrase.len()
            invariant
                self.wf(),
                self.phrases == start.phrases,
                self.words@.len() <= start.words@.len() + k,
                start.words@.len() + phrase@.len() <= u32::MAX,
                start.tokens().is_prefix_of(self.tokens()),
                k <= phrase@.len(),
                ids@.len() == k,
                forall|kk: int| 0 <= kk < k ==> (#[trigger] ids@[kk]) < self.words.len(),
                text_over(self.tokens(), ids@) == token_views(phrase@).take(k as int),
                forall|t: Seq<char>|
                    #[trigger] self.tokens().contains(t) <==> (start.tokens().contains(t)
                        || token_views(phrase@).take(k as int).contains(t)),
            decreases phrase@.len() - k,
        {
            let ghost before_tokens = self.tokens();
            let ghost before_ids = ids@;
            let id = self.token_id(phrase[k]);
            ids.push(id);
            proof {
                assert(token_views(phrase@).take(k + 1) =~= token_views(phrase@).take(k as int).push(
                    phrase@[k as int]@,
                ));
                assert forall|t: Seq<char>| #[trigger] self.tokens().contains(t) <==> (
                start.tokens().contains(t) || token_views(phrase@).take(k + 1).contains(t)) by {
                    lemma_contains_push(token_views(phrase@).take(k as int), phrase@[k as int]@, t);
                    assert(before_tokens.contains(t) <==> (start.tokens().contains(t)
                        || token_views(phrase@).take(k as int).contains(t)));
                }
                assert(before_tokens.is_prefix_of(self.tokens()));
                assert(text_over(self.tokens(), ids@) =~= token_views(phrase@).take(k + 1)) by {
                    assert forall|kk: int| 0 <= kk < k implies text_over(self.tokens(), ids@)[kk]
                        == token_views(phrase@).take(k + 1)[kk] by {
                        assert(text_over(before_tokens, before_ids)[kk] == token_views(phrase@).take(
                            k as int,
                        )[kk]);
                    }
                }
            }
            k = k + 1;
        }
        assert(token_views(phrase@).take(k as int) =~= token_views(phrase@));
        proof { self.lemma_tokens_distinct(); }
        self.phrases.push(ids);
        proof {
            assert(self.phrase_texts() =~= start.phrase_texts().push(token_views(phrase@))) by {
                assert forall|i: int| 0 <= i < start.phrases.len() implies self.phrase_texts()[i]
                    == start.phrase_texts()[i] by {
                    assert(self.phrases@[i] == start.phrases@[i]);
                    assert(text_over(self.tokens(), self.phrases@[i]@) =~= text_over(
                        start.tokens(),
                        start.phrases@[i]@,
                    )) by {
                        assert forall|kk: int| 0 <= kk < self.phrases@[i]@.len() implies self.tokens()[self.phrases@[i]@[kk] as int]
                            == start.tokens()[self.phrases@[i]@[kk] as int] by {
                            assert(start.phrases[i]@[kk] < start.words.len());
                        }
                    }
                }
            }
        }
        Ok(())
    }

    /// Adds the phrase made of the pieces of `phrase` between single spaces.
    pub fn insert_str(&mut self, phrase: &str) -> (r: Result<(), FuzzyPhraseSetError>)
        requires
            old(self).wf(),
        ensures
            final(self).wf(),
            final(self).tokens().no_duplicates(),
            final(self).tokens().len() <= old(self).tokens().len() + split_spaces(phrase@).len(),
            r is Err <==> old(self).tokens().len() + split_spaces(phrase@).len() > u32::MAX,
            r is Err ==> final(self).tokens() == old(self).tokens() && final(self).phrase_texts()
                == old(self).phrase_texts(),
            r is Ok ==> final(self).phrase_texts() == old(self).phrase_texts().push(
                split_spaces(phrase@),
            ) && old(self).tokens().is_prefix_of(final(self).tokens()),
            r is Ok ==> forall|t: Seq<char>|
                #[trigger] final(self).tokens().contains(t) <==> (old(self).tokens().contains(t)
                    || split_spaces(phrase@).contains(t)),
    {
        let pieces = split_on_space(phrase);
        let refs = crate::api::as_strs(&pieces);
        self.insert(refs.as_slice())
    }
}

/// The character sequences of a list.
pub open spec fn char_views(v: Seq<Vec<char>>) -> Seq<Seq<char>> {
    v.map_values(|c: Vec<char>| c@)
}

/// The entries of `table` in the order that `order` gives.
pub open spec fn permuted(table: Seq<Seq<char>>, order: Seq<usize>) -> Seq<Seq<char>> {
    Seq::new(order.len(), |a: int| table[order[a] as int])
}

/// `order` lists each index below `n` and sorts them by their keys.
pub open spec fn sorted_permutation(keys: Seq<Seq<char>>, order: Seq<usize>) -> bool {
    &&& order.len() == keys.len()
    &&& forall|a: int| 0 <= a < order.len() ==> (#[trigger] order[a]) < keys.len()
    &&& forall|t: usize| t < keys.len() ==> #[trigger] order.contains(t)
    &&& forall|a: int, b: int|
        0 <= a < b < order.len() ==> lex_lt(keys[order[a] as int], keys[order[b] as int])
}

/// The indices of `keys` in ascending order of their keys (an insertion sort).
fn sort_order(keys: &Vec<Vec<char>>) -> (order: Vec<usize>)
    requires
        forall|i: int, j: int| 0 <= i < j < keys.len() ==> keys[i]@ != keys[j]@,
    ensures
        sorted_permutation(char_views(keys@), order@),
{
    let ghost kv = char_views(keys@);
    let mut order: Vec<usize> = Vec::new();
    let mut i: usize = 0;
    while i < keys.len()
        invariant
            kv == char_views(keys@),
            forall|a: int, b: int| 0 <= a < b < keys.len() ==> keys[a]@ != keys[b]@,
            i <= keys.len(),
            order.len() == i,
            forall|a: int| 0 <= a < i ==> (#[trigger] order@[a]) < i,
            forall|a: int, b: int| 0 <= a < b < i ==> order@[a] != order@[b],
            forall|t: usize| t < i ==> #[trigger] order@.contains(t),
            forall|a: int, b: int|
                0 <= a < b < i ==> lex_lt(kv[order@[a] as int], kv[order@[b] as int]),
        decreases keys.len() - i,
    {
        let ghost prev = order@;
        order.push(i);
        proof {
            assert(order@[i as int] == i);
            assert forall|t: usize| t <= i implies #[trigger] order@.contains(t) by {
                lemma_contains_push(prev, i, t);
            }
        }
        let mut j: usize = i;
        loop
            invariant
                kv == char_views(keys@),
                forall|a: int, b: int| 0 <= a < b < keys.len() ==> keys[a]@ != keys[b]@,
                i < keys.len(),
                j <= i,
                order.len() == i + 1,
                forall|a: int| 0 <= a <= i ==> (#[trigger] order@[a]) <= i,
                forall|a: int, b: int| 0 <= a < b <= i ==> order@[a] != order@[b],
                forall|t: usize| t <= i ==> #[trigger] order@.contains(t),
                forall|a: int, b: int|
                    0 <= a < b <= i && a != j && b != j ==> lex_lt(
                        kv[order@[a] as int],
                        kv[order@[b] as int],
                    ),
                forall|b: int| j < b <= i ==> lex_lt(kv[order@[j as int] as int], kv[order@[b] as int]),
            ensures
                j <= i,
                order.len() == i + 1,
                forall|a: int| 0 <= a <= i ==> (#[trigger] order@[a]) <= i,
                forall|a: int, b: int| 0 <= a < b <= i ==> order@[a] != order@[b],
                forall|t: usize| t <= i ==> #[trigger] order@.contains(t),
                forall|a: int, b: int|
                    0 <= a < b <= i && a != j && b != j ==> lex_lt(
                        kv[order@[a] as int],
                        kv[order@[b] as int],
                    ),
                forall|b: int| j < b <= i ==> lex_lt(kv[order@[j as int] as int], kv[order@[b] as int]),
                j > 0 ==> lex_lt(kv[order@[j - 1] as int], kv[order@[j as int] as int]),
            decreases j,
        {
            if j == 0 {
                break;
            }
            let x = order[j];
            let y = order[j - 1];
            assert(kv[x as int] == keys[x as int]@);
            assert(kv[y as int] == keys[y as int]@);
            let o = compare_chars(&keys[x], &keys[y]);
            if o != Order::Less {
                assert(x != y);
                if x < y {
                    assert(keys[x as int]@ != keys[y as int]@);
                } else {
                    assert(keys[y as int]@ != keys[x as int]@);
                }
                assert(lex_lt(kv[y as int], kv[x as int]));
                break;
            }
            let ghost before = order@;
            order.set(j, y);
            order.set(j - 1, x);
            proof {
                assert forall|t: usize| t <= i implies #[trigger] order@.contains(t) by {
                    assert(before.contains(t));
                    let a = choose|a: int| 0 <= a < before.len() && before[a] == t;
                    if a == j {
                        assert(order@[j - 1] == t);
                    } else if a == j - 1 {
                        assert(order@[j as int] == t);
                    } else {
                        assert(order@[a] == t);
                    }
                }
                assert forall|a: int, b: int|
                    0 <= a < b <= i && a != j - 1 && b != j - 1 implies lex_lt(
                        kv[order@[a] as int],
                        kv[order@[b] as int],
                    ) by {
                    if a == j {
                        assert(lex_lt(kv[before[j - 1] as int], kv[before[b] as int]));
                    } else if b == j {
                        assert(lex_lt(kv[before[a] as int], kv[before[j - 1] as int]));
                    }
                }
                assert forall|b: int| j - 1 < b <= i implies lex_lt(
                    kv[order@[j - 1] as int],
                    kv[#[trigger] order@[b] as int],
                ) by {
                    if b > j {
                        assert(lex_lt(kv[before[j as int] as int], kv[before[b] as int]));
                    }
                }
            }
            j = j - 1;
        }
        proof {
            assert forall|a: int, b: int| 0 <= a < b < i + 1 implies lex_lt(
                kv[order@[a] as int],
                kv[order@[b] as int],
            ) by {
                if b == j && a < j - 1 {
                    lemma_lex_lt_transitive(
                        kv[order@[a] as int],
                        kv[order@[j - 1] as int],
                        kv[order@[b] as int],
                    );
                }
            }
        }
        i = i + 1;
    }
    order
}

/// `order` lists each index below `n` and sorts them by their keys.
pub open spec fn sorted_id_permutation(keys: Seq<Seq<u32>>, order: Seq<usize>) -> bool {
    &&& order.len() == keys.len()
    &&& forall|a: int| 0 <= a < order.len() ==> (#[trigger] order[a]) < keys.len()
    &&& forall|t: usize| t < keys.len() ==> #[trigger] order.contains(t)
    &&& forall|a: int, b: int|
        0 <= a < b < order.len() ==> ids_lt(keys[order[a] as int], keys[order[b] as int])
}

/// The indices of `keys` in ascending order of their id sequences (an
/// insertion sort).
fn sort_id_order(keys: &Vec<Vec<u32>>) -> (order: Vec<usize>)
    requires
        forall|i: int, j: int| 0 <= i < j < keys.len() ==> keys[i]@ != keys[j]@,
    ensures
        sorted_id_permutation(id_views(keys@), order@),
{
    let ghost kv = id_views(keys@);
    let mut order: Vec<usize> = Vec::new();
    let mut i: usize = 0;
    while i < keys.len()
        invariant
            kv == id_views(keys@),
            forall|a: int, b: int| 0 <= a < b < keys.len() ==> keys[a]@ != keys[b]@,
            i <= keys.len(),
            order.len() == i,
            forall|a: int| 0 <= a < i ==> (#[trigger] order@[a]) < i,
            forall|a: int, b: int| 0 <= a < b < i ==> order@[a] != order@[b],
            forall|t: usize| t < i ==> #[trigger] order@.contains(t),
            forall|a: int, b: int|
                0 <= a < b < i ==> ids_lt(kv[order@[a] as int], kv[order@[b] as int]),
        decreases keys.len() - i,
    {
        let ghost prev = order@;
        order.push(i);
        proof {
            assert(order@[i as int] == i);
            assert forall|t: usize| t <= i implies #[trigger] order@.contains(t) by {
                lemma_contains_push(prev, i, t);
            }
        }
        let mut j: usize = i;
        loop
            invariant
                kv == id_views(keys@),
                forall|a: int, b: int| 0 <= a < b < keys.len() ==> keys[a]@ != keys[b]@,
                i < keys.len(),
                j <= i,
                order.len() == i + 1,
                forall|a: int| 0 <= a <= i ==> (#[trigger] order@[a]) <= i,
                forall|a: int, b: int| 0 <= a < b <= i ==> order@[a] != order@[b],
                forall|t: usize| t <= i ==> #[trigger] order@.contains(t),
                forall|a: int, b: int|
                    0 <= a < b <= i && a != j && b != j ==> ids_lt(
                        kv[order@[a] as int],
                        kv[order@[b] as int],
                    ),
                forall|b: int| j < b <= i ==> ids_lt(kv[order@[j as int] as int], kv[order@[b] as int]),
            ensures
                j <= i,
                order.len() == i + 1,
                forall|a: int| 0 <= a <= i ==> (#[trigger] order@[a]) <= i,
                forall|a: int, b: int| 0 <= a < b <= i ==> order@[a] != order@[b],
                forall|t: usize| t <= i ==> #[trigger] order@.contains(t),
                forall|a: int, b: int|
                    0 <= a < b <= i && a != j && b != j ==> ids_lt(
                        kv[order@[a] as int],
                        kv[order@[b] as int],
                    ),
                forall|b: int| j < b <= i ==> ids_lt(kv[order@[j as int] as int], kv[order@[b] as int]),
                j > 0 ==> ids_lt(kv[order@[j - 1] as int], kv[order@[j as int] as int]),
            decreases j,
        {
            if j == 0 {
                break;
            }
            let x = order[j];
            let y = order[j - 1];
            assert(kv[x as int] == keys[x as int]@);
            assert(kv[y as int] == keys[y as int]@);
            let o = compare_ids(&keys[x], &keys[y]);
            if o != Order::Less {
                assert(x != y);
                if x < y {
                    assert(keys[x as int]@ != keys[y as int]@);
                } else {
                    assert(keys[y as int]@ != keys[x as int]@);
                }
                assert(ids_lt(kv[y as int], kv[x as int]));
                break;
            }
            let ghost before = order@;
            order.set(j, y);
            order.set(j - 1, x);
            proof {
                assert forall|t: usize| t <= i implies #[trigger] order@.contains(t) by {
                    assert(before.contains(t));
                    let a = choose|a: int| 0 <= a < before.len() && before[a] == t;
                    if a == j {
                        assert(order@[j - 1] == t);
                    } else if a == j - 1 {
                        assert(order@[j as int] == t);
                    } else {
                        assert(order@[a] == t);
                    }
                }
                assert forall|a: int, b: int|
                    0 <= a < b <= i && a != j - 1 && b != j - 1 implies ids_lt(
                        kv[order@[a] as int],
                        kv[order@[b] as int],
                    ) by {
                    if a == j {
                        assert(ids_lt(kv[before[j - 1] as int], kv[before[b] as int]));
                    } else if b == j {
                        assert(ids_lt(kv[before[a] as int], kv[before[j - 1] as int]));
                    }
                }
                assert forall|b: int| j - 1 < b <= i implies ids_lt(
                    kv[order@[j - 1] as int],
                    kv[#[trigger] order@[b] as int],
                ) by {
                    if b > j {
                        assert(ids_lt(kv[before[j as int] as int], kv[before[b] as int]));
                    }
                }
            }
            j = j - 1;
        }
        proof {
            assert forall|a: int, b: int| 0 <= a < b < i + 1 implies ids_lt(
                kv[order@[a] as int],
                kv[order@[b] as int],
            ) by {
                if b == j && a < j - 1 {
                    lemma_ids_lt_transitive(
                        kv[order@[a] as int],
                        kv[order@[j - 1] as int],
                        kv[order@[b] as int],
                    );
                }
            }
        }
        i = i + 1;
    }
    order
}

/// Whether `list` already holds `ids`.
fn holds_ids(list: &Vec<Vec<u32>>, ids: &Vec<u32>) -> (r: bool)
    ensures
        r == id_views(list@).contains(ids@),
{
    let mut i: usize = 0;
    while i < list.len()
        invariant
            i <= list.len(),
            forall|j: int| 0 <= j < i ==> list@[j]@ != ids@,
        decreases list.len() - i,
    {
        let cand = &list[i];
        let mut same = cand.len() == ids.len();
        let mut k: usize = 0;
        while same && k < ids.len()
            invariant
                same ==> cand.len() == ids.len(),
                k <= ids.len(),
                same ==> forall|kk: int| 0 <= kk < k ==> cand@[kk] == ids@[kk],
                !same ==> cand@ != ids@,
            decreases ids.len() - k,
        {
            if cand[k] != ids[k] {
                same = false;
            }
            k = k + 1;
        }
        if same {
            assert(cand@ =~= ids@);
            assert(id_views(list@)[i as int] == ids@);
            return true;
        }
        i = i + 1;
    }
    proof {
        if id_views(list@).contains(ids@) {
            let j = choose|j: int| 0 <= j < id_views(list@).len() && id_views(list@)[j] == ids@;
            assert(list@[j]@ == ids@);
        }
    }
    false
}

impl FuzzyPhraseSetBuilder {
    /// Numbers the tokens in code point order and builds the index. Equal
    /// phrases are kept once.
    pub fn finish(self) -> (r: Result<FuzzyPhraseSet, FuzzyPhraseSetError>)
        requires
            self.wf(),
        ensures
            r matches Ok(s) && s.wf() && (forall|t: Seq<char>|
                s.is_word(t) <==> #[trigger] self.tokens().contains(t)) && (forall|
                ph: Seq<Seq<char>>,
            | s.has_text(ph) <==> #[trigger] self.phrase_texts().contains(ph)) && (forall|
                a: int,
                b: int,
            | 0 <= a < b < s.phrase_ids().len() ==> ids_lt(s.phrase_ids()[a], s.phrase_ids()[b]))
                && s.phrase_ids().no_duplicates(),
    {
        let ghost tokens = self.tokens();
        let n = self.words.len();
        proof {
            assert forall|a: int, b: int| 0 <= a < b < n implies self.word_chars@[a]@ != self.word_chars@[b]@ by {
                assert(self.word_chars[a]@ == self.words[a]@);
                assert(self.word_chars[b]@ == self.words[b]@);
            }
        }
        let order = sort_order(&self.word_chars);
        let ghost kv = char_views(self.word_chars@);
        assert(kv =~= tokens) by {
            assert forall|a: int| 0 <= a < n implies kv[a] == tokens[a] by {
                assert(self.word_chars[a]@ == self.words[a]@);
            }
        }
        let mut sorted: Vec<String> = Vec::new();
        let mut j: usize = 0;
        while j < n
            invariant
                n == self.words.len() == order.len(),
                j <= n,
                sorted_permutation(tokens, order@),
                tokens == self.tokens(),
                string_views(sorted@) == permuted(tokens, order@).take(j as int),
            decreases n - j,
        {
            let ghost before = string_views(sorted@);
            assert(order@[j as int] < n);
            let w = self.words[order[j]].clone();
            assert(tokens[order@[j as int] as int] == self.words@[order@[j as int] as int]@);
            assert(w@ == permuted(tokens, order@)[j as int]);
            let ghost wv = w@;
            sorted.push(w);
            assert(string_views(sorted@) =~= before.push(wv));
            assert(string_views(sorted@) =~= permuted(tokens, order@).take(j + 1));
            j = j + 1;
        }
        assert(permuted(tokens, order@).take(j as int) =~= permuted(tokens, order@));
        let mut tmp_to_id: Vec<u32> = Vec::new();
        let mut t: usize = 0;
        while t < n
            invariant
                t <= n,
                tmp_to_id.len() == t,
            decreases n - t,
        {
            tmp_to_id.push(0);
            t = t + 1;
        }
        let mut j: usize = 0;
        while j < n
            invariant
                n == self.words.len() == order.len() == tmp_to_id.len(),
                n <= u32::MAX,
                j <= n,
                sorted_permutation(tokens, order@),
                forall|u: usize|
                    #[trigger] order@.take(j as int).contains(u) ==> tmp_to_id@[u as int] < n
                        && order@[tmp_to_id@[u as int] as int] == u,
            decreases n - j,
        {
            let u = order[j];
            let ghost before = tmp_to_id@;
            tmp_to_id.set(u, j as u32);
            proof {
                assert(order@.take(j + 1) =~= order@.take(j as int).push(u));
                assert forall|x: usize| #[trigger] order@.take(j + 1).contains(x) implies tmp_to_id@[x as int]
                    < n && order@[tmp_to_id@[x as int] as int] == x by {
                    lemma_contains_push(order@.take(j as int), u, x);
                    if x != u {
                        assert(tmp_to_id@[x as int] == before[x as int]);
                    }
                }
            }
            j = j + 1;
        }
        assert(order@.take(j as int) =~= order@);
        proof {
            assert forall|u: usize| u < n implies #[trigger] tmp_to_id@[u as int] < n && permuted(tokens, order@)[tmp_to_id@[u as int] as int]
                == tokens[u as int] by {
                assert(order@.contains(u));
                assert(order@.take(j as int).contains(u));
            }
        }
        let mut phrases: Vec<Vec<u32>> = Vec::new();
        let mut p: usize = 0;
        while p < self.phrases.len()
            invariant
                self.wf(),
                n == self.words.len() == tmp_to_id.len(),
                tokens == self.tokens(),
                p <= self.phrases.len(),
                forall|u: usize| u < n ==> #[trigger] tmp_to_id@[u as int] < n && permuted(tokens, order@)[tmp_to_id@[u as int] as int]
                    == tokens[u as int],
                id_views(phrases@).no_duplicates(),
                forall|a: int, k: int|
                    0 <= a < phrases.len() && 0 <= k < phrases@[a]@.len() ==> phrases@[a]@[k] < n,
                forall|ph: Seq<Seq<char>>|
                    (exists|a: int| 0 <= a < phrases.len() && text_over(permuted(tokens, order@), phrases@[a]@) == ph)
                        <==> #[trigger] self.phrase_texts().take(p as int).contains(ph),
            decreases self.phrases.len() - p,
        {
            let src = &self.phrases[p];
            let mut ids: Vec<u32> = Vec::new();
            let mut k: usize = 0;
            while k < src.len()
                invariant
                    self.wf(),
                    p < self.phrases.len(),
                    src == self.phrases[p as int],
                    n == self.words.len() == tmp_to_id.len(),
                    forall|u: usize| u < n ==> #[trigger] tmp_to_id@[u as int] < n && permuted(tokens, order@)[tmp_to_id@[u as int] as int]
                        == tokens[u as int],
                    k <= src.len(),
                    ids.len() == k,
                    forall|kk: int| 0 <= kk < k ==> ids@[kk] < n && permuted(tokens, order@)[ids@[kk] as int]
                        == tokens[src@[kk] as int],
                decreases src.len() - k,
            {
                assert(src@[k as int] < n);
                let u = src[k] as usize;
                assert(tmp_to_id@[u as int] < n && permuted(tokens, order@)[tmp_to_id@[u as int] as int] == tokens[u as int]);
                ids.push(tmp_to_id[u]);
                k = k + 1;
            }
            proof {
                assert(text_over(permuted(tokens, order@), ids@) =~= text_over(tokens, src@));
                assert(self.phrase_texts()[p as int] == text_over(tokens, src@));
                assert(self.phrase_texts().take(p + 1) =~= self.phrase_texts().take(p as int).push(
                    text_over(tokens, src@),
                ));
            }
            let ghost before = phrases@;
            let ghost pv = permuted(tokens, order@);
            let ghost t_new = text_over(tokens, src@);
            assert(text_over(pv, ids@) == t_new);
            assert(forall|ph: Seq<Seq<char>>|
                (exists|a: int| 0 <= a < before.len() && text_over(pv, before[a]@) == ph)
                    <==> #[trigger] self.phrase_texts().take(p as int).contains(ph));
            let present = holds_ids(&phrases, &ids);
            if !present {
                phrases.push(ids);
                proof {
                    assert(id_views(phrases@) =~= id_views(before).push(ids@));
                    assert(phrases@[before.len() as int]@ == ids@);
                }
            } else {
                proof {
                    let a0 = choose|a0: int| 0 <= a0 < id_views(before).len() && id_views(before)[a0] == ids@;
                    assert(before[a0]@ == ids@);
                    assert(text_over(pv, before[a0]@) == t_new);
                }
            }
            proof {
                assert forall|ph: Seq<Seq<char>>|
                    (exists|a: int| 0 <= a < phrases.len() && text_over(pv, phrases@[a]@) == ph)
                        <==> #[trigger] self.phrase_texts().take(p + 1).contains(ph) by {
                    lemma_contains_push(self.phrase_texts().take(p as int), t_new, ph);
                    if exists|a: int| 0 <= a < phrases.len() && text_over(pv, phrases@[a]@) == ph {
                        let a = choose|a: int| 0 <= a < phrases.len() && text_over(pv, phrases@[a]@) == ph;
                        if a < before.len() {
                            assert(before[a] == phrases@[a]);
                        }
                    }
                    if self.phrase_texts().take(p as int).contains(ph) {
                        let a = choose|a: int| 0 <= a < before.len() && text_over(pv, before[a]@) == ph;
                        assert(phrases@[a] == before[a]);
                    }
                    if ph == t_new && !present {
                        assert(text_over(pv, phrases@[before.len() as int]@) == ph);
                    }
                    if ph == t_new && present {
                        let a0 = choose|a0: int| 0 <= a0 < id_views(before).len() && id_views(before)[a0] == ids@;
                        assert(before[a0]@ == ids@);
                        assert(phrases@[a0] == before[a0]);
                    }
                }
            }
            p = p + 1;
        }
        assert(self.phrase_texts().take(p as int) =~= self.phrase_texts());
        proof {
            assert(string_views(sorted@) == permuted(tokens, order@));
            assert forall|a: int, b: int| 0 <= a < b < permuted(tokens, order@).len() implies lex_lt(
                permuted(tokens, order@)[a],
                permuted(tokens, order@)[b],
            ) by {
                assert(kv[order@[a] as int] == tokens[order@[a] as int]);
            }
        }
        proof {
            assert forall|a: int, b: int| 0 <= a < b < phrases.len() implies phrases@[a]@ != phrases@[b]@ by {
                assert(id_views(phrases@)[a] == phrases@[a]@);
                assert(id_views(phrases@)[b] == phrases@[b]@);
            }
        }
        let porder = sort_id_order(&phrases);
        let ghost pk = id_views(phrases@);
        let mut ordered: Vec<Vec<u32>> = Vec::new();
        let mut a: usize = 0;
        while a < phrases.len()
            invariant
                porder.len() == phrases.len(),
                pk == id_views(phrases@),
                sorted_id_permutation(pk, porder@),
                a <= phrases.len(),
                ordered.len() == a,
                forall|c: int| 0 <= c < a ==> (#[trigger] ordered@[c])@ == pk[porder@[c] as int],
            decreases phrases.len() - a,
        {
            assert(porder@[a as int] < phrases.len());
            let ph = phrases[porder[a]].clone();
            assert(ph@ == pk[porder@[a as int] as int]);
            ordered.push(ph);
            a = a + 1;
        }
        let built = FuzzyPhraseSet::from_parts(sorted, ordered);
        match built {
            Ok(s) => {
                proof {
                    let pv = permuted(tokens, order@);
                    assert(s.words() == pv);
                    assert forall|t: Seq<char>| s.is_word(t) <==> #[trigger] tokens.contains(t) by {
                        if s.is_word(t) {
                            let a = choose|a: int| 0 <= a < s.words().len() && s.words()[a] == t;
                            assert(tokens[order@[a] as int] == t);
                        }
                        if tokens.contains(t) {
                            let u = choose|u: int| 0 <= u < tokens.len() && tokens[u] == t;
                            assert(tmp_to_id@[u] < n);
                            assert(s.words()[tmp_to_id@[u] as int] == t);
                        }
                    }
                    assert forall|c: int| 0 <= c < ordered.len() implies s.phrase_ids()[c] == pk[porder@[c] as int] by {
                        assert(s.phrase_ids()[c] == ordered@[c]@);
                    }
                    assert forall|ph: Seq<Seq<char>>| s.has_text(ph) <==> #[trigger] self.phrase_texts().contains(ph) by {
                        if s.has_text(ph) {
                            let i = choose|i: int| 0 <= i < s.phrase_ids().len() && s.text_of(s.phrase_ids()[i]) == ph;
                            let src = porder@[i] as int;
                            assert(pk[src] == phrases@[src]@);
                            assert(s.text_of(phrases@[src]@) =~= text_over(pv, phrases@[src]@));
                        }
                        if self.phrase_texts().contains(ph) {
                            let src = choose|src: int| 0 <= src < phrases.len() && text_over(pv, phrases@[src]@) == ph;
                            assert(porder@.contains(src as usize));
                            let c = choose|c: int| 0 <= c < porder@.len() && porder@[c] == src as usize;
                            assert(pk[src] == phrases@[src]@);
                            assert(s.phrase_ids()[c] == phrases@[src]@);
                            assert(s.text_of(phrases@[src]@) =~= text_over(pv, phrases@[src]@));
                        }
                    }
                    assert forall|a: int, b: int| 0 <= a < b < s.phrase_ids().len() implies ids_lt(
                        s.phrase_ids()[a],
                        s.phrase_ids()[b],
                    ) by {}
                    assert forall|a: int, b: int|
                        0 <= a < s.phrase_ids().len() && 0 <= b < s.phrase_ids().len() && a != b implies s.phrase_ids()[a]
                            != s.phrase_ids()[b] by {
                        crate::ids::lemma_ids_lt_irreflexive(s.phrase_ids()[a]);
                        crate::ids::lemma_ids_lt_irreflexive(s.phrase_ids()[b]);
                    }
                }
                Ok(s)
            },
            Err(e) => Err(e),
        }
    }
}

} // verus!
