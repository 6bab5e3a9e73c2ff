//! Lexicographic order of id sequences.
use vstd::prelude::*;
use crate::text::Order;

verus! {

/// `a` sorts strictly before `b` in lexicographic order of ids.
pub open spec fn ids_lt(a: Seq<u32>, b: Seq<u32>) -> bool {
    exists|i: int|
        0 <= i <= a.len() && i <= b.len() && a.take(i) == b.take(i) && ((i == a.len() && i
            < b.len()) || (i < a.len() && i < b.len() && a[i] < b[i]))
}

/// Compares two id sequences lexicographically.
pub fn compare_ids(a: &Vec<u32>, b: &Vec<u32>) -> (r: Order)
    ensures
        r == Order::Less <==> ids_lt(a@, b@),
        r == Order::Greater <==> ids_lt(b@, a@),
        r == Order::Equal <==> a@ == b@,
{
    let mut i: usize = 0;
    while i < a.len() && i < b.len() && a[i] == b[i]
        invariant
            i <= a.len(),
            i <= b.len(),
            a@.take(i as int) == b@.take(i as int),
        decreases a.len() - i,
    {
        assert(a@.take(i + 1) =~= a@.take(i as int).push(a@[i as int]));
        assert(b@.take(i + 1) =~= b@.take(i as int).push(b@[i as int]));
        i = i + 1;
    }
    proof {
        if ids_lt(a@, b@) && ids_lt(b@, a@) {
            let j = choose|j: int|
                0 <= j <= a.len() && j <= b.len() && a@.take(j) == b@.take(j) && ((j == a.len()
                    && j < b.len()) || (j < a.len() && j < b.len() && a@[j] < b@[j]));
            lemma_ids_not_both_lt(a@, b@, j);
        }
    }
    if i < a.len() && i < b.len() {
        if a[i] < b[i] {
            assert(ids_lt(a@, b@));
            proof { lemma_ids_not_both_lt(a@, b@, i as int); }
            Order::Less
        } else {
            assert(ids_lt(b@, a@));
            proof { lemma_ids_not_both_lt(b@, a@, i as int); }
            Order::Greater
        }
    } else if i < b.len() {
        assert(a@.take(i as int) =~= a@);
        assert(ids_lt(a@, b@));
        proof { lemma_ids_not_both_lt(a@, b@, i as int); }
        Order::Less
    } else if i < a.len() {
        assert(b@.take(i as int) =~= b@);
        assert(ids_lt(b@, a@));
        proof { lemma_ids_not_both_lt(b@, a@, i as int); }
        Order::Greater
    } else {
        assert(a@ =~= a@.take(i as int));
        assert(b@ =~= b@.take(i as int));
        assert(!ids_lt(a@, b@)) by {
            if ids_lt(a@, b@) {
                let j = choose|j: int|
                    0 <= j <= a.len() && j <= b.len() && a@.take(j) == b@.take(j) && ((j
                        == a.len() && j < b.len()) || (j < a.len() && j < b.len() && a@[j] < b@[j]));
                assert(a@.take(j + 1)[j] == a@[j]);
                assert(b@.take(j + 1)[j] == b@[j]);
            }
        }
        assert(!ids_lt(b@, a@)) by {
            if ids_lt(b@, a@) {
                let j = choose|j: int|
                    0 <= j <= b.len() && j <= a.len() && b@.take(j) == a@.take(j) && ((j
                        == b.len() && j < a.len()) || (j < b.len() && j < a.len() && b@[j] < a@[j]));
                assert(a@.take(j + 1)[j] == a@[j]);
                assert(b@.take(j + 1)[j] == b@[j]);
            }
        }
        Order::Equal
    }
}

/// A strict order witnessed at `i` excludes the opposite order.
proof fn lemma_ids_not_both_lt(a: Seq<u32>, b: Seq<u32>, i: int)
    requires
        0 <= i <= a.len() && i <= b.len() && a.take(i) == b.take(i) && ((i == a.len() && i
            < b.len()) || (i < a.len() && i < b.len() && a[i] < b[i])),
    ensures
        !ids_lt(b, a),
{
    if ids_lt(b, a) {
        let k = choose|k: int|
            0 <= k <= b.len() && k <= a.len() && b.take(k) == a.take(k) && ((k == b.len() && k
                < a.len()) || (k < b.len() && k < a.len() && b[k] < a[k]));
        if i < k {
            assert(a.take(k)[i] == a[i]);
            assert(b.take(k)[i] == b[i]);
        } else if k < i {
            assert(a.take(i)[k] == a[k]);
            assert(b.take(i)[k] == b[k]);
        }
    }
}

/// Lexicographic order of ids is transitive.
pub proof fn lemma_ids_lt_transitive(a: Seq<u32>, b: Seq<u32>, c: Seq<u32>)
    requires
        ids_lt(a, b),
        ids_lt(b, c),
    ensures
        ids_lt(a, c),
{
    let i = choose|i: int|
        0 <= i <= a.len() && i <= b.len() && a.take(i) == b.take(i) && ((i == a.len() && i
            < b.len()) || (i < a.len() && i < b.len() && a[i] < b[i]));
    let j = choose|j: int|
        0 <= j <= b.len() && j <= c.len() && b.take(j) == c.take(j) && ((j == b.len() && j
            < c.len()) || (j < b.len() && j < c.len() && b[j] < c[j]));
    if i < j {
        assert(b.take(j).take(i) =~= b.take(i));
        assert(c.take(j).take(i) =~= c.take(i));
        assert(b.take(j)[i] == b[i]);
        assert(c.take(j)[i] == c[i]);
        assert(a.take(i) == c.take(i));
    } else if j < i {
        assert(a.take(i).take(j) =~= a.take(j));
        assert(b.take(i).take(j) =~= b.take(j));
        assert(a.take(i)[j] == a[j]);
        assert(b.take(i)[j] == b[j]);
        assert(a.take(j) == c.take(j));
    } else {
        assert(a.take(i) == c.take(i));
    }
}

/// Nothing sorts strictly before itself.
pub proof fn lemma_ids_lt_irreflexive(a: Seq<u32>)
    ensures
        !ids_lt(a, a),
{
    if ids_lt(a, a) {
        let i = choose|i: int|
            0 <= i <= a.len() && i <= a.len() && a.take(i) == a.take(i) && ((i == a.len() && i
                < a.len()) || (i < a.len() && i < a.len() && a[i] < a[i]));
    }
}

} // verus!
