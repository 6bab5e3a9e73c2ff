//! Character-level helpers on tokens: splitting, ordering, prefixes and
//! bounded edit distance.
use vstd::prelude::*;
use vstd::std_specs::iter::IteratorSpec;

verus! {

/// The pieces of `s` between single spaces, as `str::split(' ')` yields them.
pub open spec fn split_spaces(s: Seq<char>) -> Seq<Seq<char>>
    decreases s.len(),
{
    if s.len() == 0 {
        seq![Seq::<char>::empty()]
    } else {
        let rest = split_spaces(s.drop_last());
        if s.last() == ' ' {
            rest.push(Seq::<char>::empty())
        } else if rest.len() == 0 {
            seq![seq![s.last()]]
        } else {
            rest.update(rest.len() - 1, rest.last().push(s.last()))
        }
    }
}

/// The character views of a sequence of strings.
pub open spec fn string_views(ws: Seq<String>) -> Seq<Seq<char>> {
    ws.map_values(|w: String| w@)
}

/// Relies on `str::split` with a `char` pattern: the pieces between the
/// occurrences of the space character, in order, empty pieces included.
#[verifier::external_body]
pub(crate) fn split_on_space(s: &str) -> (r: Vec<String>)
    ensures
        string_views(r@) == split_spaces(s@),
{
    s.split(' ').map(|t| t.to_string()).collect()
}

/// The characters of `s`, in order.
pub fn chars_of(s: &str) -> (r: Vec<char>)
    ensures
        r@ == s@,
{
    let mut it = s.chars();
    let mut out: Vec<char> = Vec::new();
    loop
        invariant
            out@ + it.remaining() == s@,
            it.decrease() is Some,
        ensures
            out@ == s@,
        decreases it.decrease()->0,
    {
        match it.next() {
            Some(c) => {
                out.push(c);
            },
            None => {
                assert(out@ + it.remaining() =~= out@);
                break;
            },
        }
    }
    out
}

/// `a` sorts strictly before `b` when both are compared code point by code
/// point (for UTF-8 text this is the byte-wise order of the encodings).
pub open spec fn lex_lt(a: Seq<char>, b: Seq<char>) -> bool {
    exists|i: int|
        0 <= i <= a.len() && i <= b.len() && a.take(i) == b.take(i) && ((i == a.len() && i
            < b.len()) || (i < a.len() && i < b.len() && a[i] < b[i]))
}

/// `p` is a prefix of `s`.
pub open spec fn starts_with(s: Seq<char>, p: Seq<char>) -> bool {
    p.len() <= s.len() && s.take(p.len() as int) == p
}

/// Outcome of a three-way comparison.
#[derive(PartialEq, Eq, Structural, Clone, Copy, Debug)]
pub enum Order {
    Less,
    Equal,
    Greater,
}

/// Compares two character sequences in code point order.
pub fn compare_chars(a: &Vec<char>, b: &Vec<char>) -> (r: Order)
    ensures
        r == Order::Less <==> lex_lt(a@, b@),
        r == Order::Greater <==> lex_lt(b@, a@),
        r == Order::Equal <==> a@ == b@,
{
    let mut i: usize = 0;
    while i < a.len() && i < b.len() && a[i] == b[i]
        invariant
            i <= a.len(),
            i <= b.len(),
            a@.take(i as int) == b@.take(i as int),
        decreases a.len() - i,
    {
        assert(a@.take(i + 1) =~= a@.take(i as int).push(a@[i as int]));
        assert(b@.take(i + 1) =~= b@.take(i as int).push(b@[i as int]));
        i = i + 1;
    }
    proof {
        if lex_lt(a@, b@) && lex_lt(b@, a@) {
            let j = choose|j: int|
                0 <= j <= a.len() && j <= b.len() && a@.take(j) == b@.take(j) && ((j == a.len()
                    && j < b.len()) || (j < a.len() && j < b.len() && a@[j] < b@[j]));
            lemma_not_both_lt(a@, b@, j);
        }
    }
    if i < a.len() && i < b.len() {
        if a[i] < b[i] {
            assert(lex_lt(a@, b@));
            proof { lemma_not_both_lt(a@, b@, i as int); }
            Order::Less
        } else {
            assert(lex_lt(b@, a@));
            proof { lemma_not_both_lt(b@, a@, i as int); }
            Order::Greater
        }
    } else if i < b.len() {
        assert(a@.take(i as int) =~= a@);
        assert(lex_lt(a@, b@));
        proof { lemma_not_both_lt(a@, b@, i as int); }
        Order::Less
    } else if i < a.len() {
        assert(b@.take(i as int) =~= b@);
        assert(lex_lt(b@, a@));
        proof { lemma_not_both_lt(b@, a@, i as int); }
        Order::Greater
    } else {
        assert(a@ =~= a@.take(i as int));
        assert(b@ =~= b@.take(i as int));
        assert(!lex_lt(a@, b@)) by {
            if lex_lt(a@, b@) {
                let j = choose|j: int|
                    0 <= j <= a.len() && j <= b.len() && a@.take(j) == b@.take(j) && ((j
                        == a.len() && j < b.len()) || (j < a.len() && j < b.len() && a@[j] < b@[j]));
                assert(a@.take(j + 1)[j] == a@[j]);
                assert(b@.take(j + 1)[j] == b@[j]);
            }
        }
        assert(!lex_lt(b@, a@)) by {
            if lex_lt(b@, a@) {
                let j = choose|j: int|
                    0 <= j <= b.len() && j <= a.len() && b@.take(j) == a@.take(j) && ((j
                        == b.len() && j < a.len()) || (j < b.len() && j < a.len() && b@[j] < a@[j]));
                assert(a@.take(j + 1)[j] == a@[j]);
                assert(b@.take(j + 1)[j] == b@[j]);
            }
        }
        Order::Equal
    }
}

/// A strict order witnessed at `i` excludes the opposite order.
proof fn lemma_not_both_lt(a: Seq<char>, b: Seq<char>, i: int)
    requires
        0 <= i <= a.len() && i <= b.len() && a.take(i) == b.take(i) && ((i == a.len() && i
            < b.len()) || (i < a.len() && i < b.len() && a[i] < b[i])),
    ensures
        !lex_lt(b, a),
{
    if lex_lt(b, a) {
        let k = choose|k: int|
            0 <= k <= b.len() && k <= a.len() && b.take(k) == a.take(k) && ((k == b.len() && k
                < a.len()) || (k < b.len() && k < a.len() && b[k] < a[k]));
        if i < k {
            assert(a.take(k)[i] == a[i]);
            assert(b.take(k)[i] == b[i]);
        } else if k < i {
            assert(a.take(i)[k] == a[k]);
            assert(b.take(i)[k] == b[k]);
        }
    }
}

/// Whether `p` is a prefix of `s`.
pub fn has_prefix(s: &Vec<char>, p: &Vec<char>) -> (r: bool)
    ensures
        r == starts_with(s@, p@),
{
    if p.len() > s.len() {
        return false;
    }
    let mut i: usize = 0;
    while i < p.len()
        invariant
            p.len() <= s.len(),
            i <= p.len(),
            s@.take(i as int) == p@.take(i as int),
        decreases p.len() - i,
    {
        if s[i] != p[i] {
            assert(s@.take(p.len() as int)[i as int] == s@[i as int]);
            return false;
        }
        assert(s@.take(i + 1) =~= s@.take(i as int).push(s@[i as int]));
        assert(p@.take(i + 1) =~= p@.take(i as int).push(p@[i as int]));
        i = i + 1;
    }
    assert(p@.take(i as int) =~= p@);
    true
}

/// `a` and `b` agree on `len` characters from `ai` and `bi` respectively.
pub open spec fn same_run(a: Seq<char>, ai: int, b: Seq<char>, bi: int, len: int) -> bool {
    0 <= ai && 0 <= bi && 0 <= len && ai + len <= a.len() && bi + len <= b.len()
        && a.subrange(ai, ai + len) == b.subrange(bi, bi + len)
}

/// `b` is `a` with the character at `i` replaced by another one.
pub open spec fn substituted_at(a: Seq<char>, b: Seq<char>, i: int) -> bool {
    a.len() == b.len() && 0 <= i < a.len() && a[i] != b[i] && same_run(a, 0, b, 0, i)
        && same_run(a, i + 1, b, i + 1, a.len() - i - 1)
}

/// `b` is `a` with one character inserted at `i`.
pub open spec fn inserted_at(a: Seq<char>, b: Seq<char>, i: int) -> bool {
    b.len() == a.len() + 1 && 0 <= i <= a.len() && same_run(a, 0, b, 0, i) && same_run(
        a,
        i,
        b,
        i + 1,
        a.len() - i,
    )
}

/// `b` is `a` with the distinct characters at `i` and `i + 1` swapped.
pub open spec fn transposed_at(a: Seq<char>, b: Seq<char>, i: int) -> bool {
    a.len() == b.len() && 0 <= i && i + 1 < a.len() && a[i] != a[i + 1] && a[i] == b[i + 1]
        && a[i + 1] == b[i] && same_run(a, 0, b, 0, i) && same_run(
        a,
        i + 2,
        b,
        i + 2,
        a.len() - i - 2,
    )
}

/// `a` and `b` are one edit apart: one substitution, insertion, deletion or
/// transposition of adjacent characters.
pub open spec fn one_edit(a: Seq<char>, b: Seq<char>) -> bool {
    (exists|i: int| substituted_at(a, b, i)) || (exists|i: int| inserted_at(a, b, i)) || (exists|
        i: int,
    | inserted_at(b, a, i)) || (exists|i: int| transposed_at(a, b, i))
}

/// The edit distance between `a` and `b` when it is at most one.
pub open spec fn small_distance(a: Seq<char>, b: Seq<char>) -> Option<u8> {
    if a == b {
        Some(0u8)
    } else if one_edit(a, b) {
        Some(1u8)
    } else {
        None
    }
}

/// Whether `a` and `b` agree on `len` characters from `ai` and `bi`.
fn run_equal(a: &Vec<char>, ai: usize, b: &Vec<char>, bi: usize, len: usize) -> (r: bool)
    requires
        ai + len <= a.len(),
        bi + len <= b.len(),
    ensures
        r == same_run(a@, ai as int, b@, bi as int, len as int),
{
    let mut k: usize = 0;
    while k < len
        invariant
            k <= len,
            ai + len <= a.len(),
            bi + len <= b.len(),
            a@.subrange(ai as int, ai + k) == b@.subrange(bi as int, bi + k),
        decreases len - k,
    {
        if a[ai + k] != b[bi + k] {
            assert(a@.subrange(ai as int, ai + len)[k as int] == a@[ai + k]);
            assert(b@.subrange(bi as int, bi + len)[k as int] == b@[bi + k]);
            return false;
        }
        assert(a@.subrange(ai as int, ai + k + 1) =~= a@.subrange(ai as int, ai + k).push(
            a@[ai + k],
        ));
        assert(b@.subrange(bi as int, bi + k + 1) =~= b@.subrange(bi as int, bi + k).push(
            b@[bi + k],
        ));
        k = k + 1;
    }
    true
}

/// Whether `b` is `a` with one character inserted.
fn has_insertion(a: &Vec<char>, b: &Vec<char>) -> (r: bool)
    ensures
        r == exists|i: int| inserted_at(a@, b@, i),
{
    if a.len() >= b.len() || b.len() - a.len() != 1 {
        return false;
    }
    let mut i: usize = 0;
    while i <= a.len()
        invariant
            b.len() == a.len() + 1,
            i <= a.len() + 1,
            forall|j: int| 0 <= j < i ==> !inserted_at(a@, b@, j),
        decreases a.len() + 1 - i,
    {
        if run_equal(a, 0, b, 0, i) && run_equal(a, i, b, i + 1, a.len() - i) {
            assert(inserted_at(a@, b@, i as int));
            return true;
        }
        i = i + 1;
    }
    false
}

/// The edit distance between `a` and `b` when it is at most one, else `None`.
pub fn distance_within_one(a: &Vec<char>, b: &Vec<char>) -> (r: Option<u8>)
    ensures
        r == small_distance(a@, b@),
{
    if compare_chars(a, b) == Order::Equal {
        return Some(0);
    }
    if has_insertion(a, b) || has_insertion(b, a) {
        return Some(1);
    }
    if a.len() != b.len() {
        assert(!exists|i: int| substituted_at(a@, b@, i));
        assert(!exists|i: int| transposed_at(a@, b@, i));
        return None;
    }
    let n = a.len();
    let mut i: usize = 0;
    while i < n
        invariant
            n == a.len() == b.len(),
            i <= n,
            forall|j: int| 0 <= j < i ==> !substituted_at(a@, b@, j),
            forall|j: int| 0 <= j < i ==> !transposed_at(a@, b@, j),
        decreases n - i,
    {
        if a[i] != b[i] && run_equal(a, 0, b, 0, i) && run_equal(a, i + 1, b, i + 1, n - i - 1) {
            assert(substituted_at(a@, b@, i as int));
            return Some(1);
        }
        if i + 1 < n && a[i] != a[i + 1] && a[i] == b[i + 1] && a[i + 1] == b[i] && run_equal(
            a,
            0,
            b,
            0,
            i,
        ) && run_equal(a, i + 2, b, i + 2, n - i - 2) {
            assert(transposed_at(a@, b@, i as int));
            return Some(1);
        }
        i = i + 1;
    }
    None
}

/// Code point order is transitive.
pub proof fn lemma_lex_lt_transitive(a: Seq<char>, b: Seq<char>, c: Seq<char>)
    requires
        lex_lt(a, b),
        lex_lt(b, c),
    ensures
        lex_lt(a, c),
{
    let i = choose|i: int|
        0 <= i <= a.len() && i <= b.len() && a.take(i) == b.take(i) && ((i == a.len() && i
            < b.len()) || (i < a.len() && i < b.len() && a[i] < b[i]));
    let j = choose|j: int|
        0 <= j <= b.len() && j <= c.len() && b.take(j) == c.take(j) && ((j == b.len() && j
            < c.len()) || (j < b.len() && j < c.len() && b[j] < c[j]));
    if i < j {
        assert(b.take(j).take(i) =~= b.take(i));
        assert(c.take(j).take(i) =~= c.take(i));
        assert(b.take(j)[i] == b[i]);
        assert(c.take(j)[i] == c[i]);
        assert(a.take(i) == c.take(i));
    } else if j < i {
        assert(a.take(i).take(j) =~= a.take(j));
        assert(b.take(i).take(j) =~= b.take(j));
        assert(a.take(i)[j] == a[j]);
        assert(b.take(i)[j] == b[j]);
        assert(a.take(j) == c.take(j));
    } else {
        assert(a.take(i) == c.take(i));
    }
}

/// Nothing sorts strictly before itself.
pub proof fn lemma_lex_lt_irreflexive(a: Seq<char>)
    ensures
        !lex_lt(a, a),
{
    if lex_lt(a, a) {
        let i = choose|i: int|
            0 <= i <= a.len() && i <= a.len() && a.take(i) == a.take(i) && ((i == a.len() && i
                < a.len()) || (i < a.len() && i < a.len() && a[i] < a[i]));
    }
}

/// In code point order, a word between two words that begin with `p` begins
/// with `p` too.
pub proof fn lemma_between_prefix(a: Seq<char>, b: Seq<char>, c: Seq<char>, p: Seq<char>)
    requires
        lex_lt(a, b),
        lex_lt(b, c),
        starts_with(a, p),
        starts_with(c, p),
    ensures
        starts_with(b, p),
{
    let n = p.len() as int;
    let i = choose|i: int|
        0 <= i <= a.len() && i <= b.len() && a.take(i) == b.take(i) && ((i == a.len() && i
            < b.len()) || (i < a.len() && i < b.len() && a[i] < b[i]));
    let j = choose|j: int|
        0 <= j <= b.len() && j <= c.len() && b.take(j) == c.take(j) && ((j == b.len() && j
            < c.len()) || (j < b.len() && j < c.len() && b[j] < c[j]));
    if i >= n {
        assert(b.take(n) =~= a.take(i).take(n));
        assert(a.take(i).take(n) =~= a.take(n));
        assert(b.take(i).take(n) =~= b.take(n));
    } else if j >= n {
        assert(b.take(j).take(n) =~= b.take(n));
        assert(c.take(j).take(n) =~= c.take(n));
    } else {
        assert(a.take(n)[i] == a[i]);
        assert(c.take(n)[j] == c[j]);
        if i < j {
            assert(b.take(j)[i] == b[i]);
            assert(c.take(j)[i] == c[i]);
            assert(c.take(n)[i] == c[i]);
        } else if j < i {
            assert(a.take(i)[j] == a[j]);
            assert(b.take(i)[j] == b[j]);
            assert(a.take(n)[j] == a[j]);
        } else {
            assert(c.take(n)[i] == c[i]);
        }
    }
}

/// A word that begins with `p` does not sort before `p`.
pub proof fn lemma_prefixed_not_before(a: Seq<char>, p: Seq<char>)
    requires
        starts_with(a, p),
    ensures
        !lex_lt(a, p),
{
    if lex_lt(a, p) {
        let i = choose|i: int|
            0 <= i <= a.len() && i <= p.len() && a.take(i) == p.take(i) && ((i == a.len() && i
                < p.len()) || (i < a.len() && i < p.len() && a[i] < p[i]));
        assert(a.take(p.len() as int)[i] == a[i]);
    }
}

} // verus!
