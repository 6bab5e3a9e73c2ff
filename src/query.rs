//! Per-slot token variants and the paths that a phrase walk builds from them.
use vstd::prelude::*;

verus! {

/// One way of filling a slot of a query: a concrete token reached with some
/// edit distance, or any token whose id lies in `start..=end` (all tokens
/// that begin with the query's text there).
#[derive(PartialEq, Eq, Structural, Clone, Copy, Debug)]
pub enum QueryWord {
    Full { id: u32, edit_distance: u8 },
    Prefix { start: u32, end: u32 },
}

impl QueryWord {
    pub fn new_prefix(range: (u32, u32)) -> (r: QueryWord)
        ensures
            r == (QueryWord::Prefix { start: range.0, end: range.1 }),
    {
        QueryWord::Prefix { start: range.0, end: range.1 }
    }
}

/// Whether the variant accepts the token id `id`.
pub open spec fn variant_matches(v: QueryWord, id: u32) -> bool {
    match v {
        QueryWord::Full { id: vid, .. } => vid == id,
        QueryWord::Prefix { start, end } => start <= id <= end,
    }
}

/// What the variant adds to a phrase's edit distance.
pub open spec fn variant_distance(v: QueryWord) -> int {
    match v {
        QueryWord::Full { edit_distance, .. } => edit_distance as int,
        QueryWord::Prefix { .. } => 0,
    }
}

/// Sum of the edit distances along a path.
pub open spec fn path_distance(p: Seq<QueryWord>) -> int
    decreases p.len(),
{
    if p.len() == 0 {
        0
    } else {
        path_distance(p.drop_last()) + variant_distance(p.last())
    }
}

/// The path's variants accept the first `p.len()` ids of `ph`.
pub open spec fn path_fits(p: Seq<QueryWord>, ph: Seq<u32>) -> bool {
    p.len() <= ph.len() && forall|k: int| 0 <= k < p.len() ==> variant_matches(p[k], ph[k])
}

/// Each step of the path is one of the variants offered for its slot.
pub open spec fn chosen_from(p: Seq<QueryWord>, slots: Seq<Seq<QueryWord>>) -> bool {
    p.len() <= slots.len() && forall|k: int| 0 <= k < p.len() ==> slots[k].contains(p[k])
}

pub proof fn lemma_path_distance_push(p: Seq<QueryWord>, v: QueryWord)
    ensures
        path_distance(p.push(v)) == path_distance(p) + variant_distance(v),
{
    assert(p.push(v).drop_last() =~= p);
}

pub proof fn lemma_path_distance_nonneg(p: Seq<QueryWord>)
    ensures
        path_distance(p) >= 0,
    decreases p.len(),
{
    if p.len() > 0 {
        lemma_path_distance_nonneg(p.drop_last());
    }
}

pub proof fn lemma_contains_push<A>(s: Seq<A>, x: A, y: A)
    ensures
        s.push(x).contains(y) <==> (s.contains(y) || y == x),
{
    if s.contains(y) {
        let j = choose|j: int| 0 <= j < s.len() && s[j] == y;
        assert(s.push(x)[j] == y);
    }
    if y == x {
        assert(s.push(x)[s.len() as int] == x);
    }
    if s.push(x).contains(y) {
        let j = choose|j: int| 0 <= j < s.push(x).len() && s.push(x)[j] == y;
        if j < s.len() {
            assert(s[j] == y);
        }
    }
}

pub proof fn lemma_push_no_duplicates<A>(s: Seq<A>, x: A)
    requires
        s.no_duplicates(),
        !s.contains(x),
    ensures
        s.push(x).no_duplicates(),
{
    assert forall|a: int, b: int|
        0 <= a < s.push(x).len() && 0 <= b < s.push(x).len() && a != b implies s.push(x)[a]
            != s.push(x)[b] by {
        if a < s.len() && b == s.len() {
            assert(s[a] == s.push(x)[a]);
        } else if b < s.len() && a == s.len() {
            assert(s[b] == s.push(x)[b]);
        }
    }
}

/// Sum of the edit distances along a path, in exec form.
pub fn distance_of(p: &Vec<QueryWord>) -> (r: u128)
    ensures
        r == path_distance(p@),
{
    let mut total: u128 = 0;
    let mut i: usize = 0;
    while i < p.len()
        invariant
            i <= p.len(),
            total == path_distance(p@.take(i as int)),
            total <= 255 * i,
        decreases p.len() - i,
    {
        proof {
            lemma_path_distance_push(p@.take(i as int), p@[i as int]);
            assert(p@.take(i + 1) =~= p@.take(i as int).push(p@[i as int]));
        }
        match p[i] {
            QueryWord::Full { edit_distance, .. } => {
                total = total + edit_distance as u128;
            },
            QueryWord::Prefix { .. } => {},
        }
        i = i + 1;
    }
    assert(p@.take(i as int) =~= p@);
    total
}

} // verus!
