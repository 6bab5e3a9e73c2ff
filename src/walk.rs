//! The phrase walk: explores the combinations of per-slot variants level by
//! level, keeping only paths that some phrase begins with and whose summed
//! edit distance stays within the cap.
use vstd::prelude::*;
use crate::query::{
    QueryWord,
    chosen_from,
    lemma_contains_push,
    lemma_path_distance_nonneg,
    lemma_path_distance_push,
    path_distance,
    path_fits,
    variant_distance,
};
use crate::set::{FuzzyPhraseSet, FuzzyPhraseSetError};

verus! {

/// The variant lists of a query, one per slot.
pub open spec fn slot_views(slots: Seq<Vec<QueryWord>>) -> Seq<Seq<QueryWord>> {
    slots.map_values(|l: Vec<QueryWord>| l@)
}

/// The paths of a frontier.
pub open spec fn frontier_views(f: Seq<(Vec<QueryWord>, u8)>) -> Seq<Seq<QueryWord>> {
    f.map_values(|x: (Vec<QueryWord>, u8)| x.0@)
}

/// The paths of a list.
pub open spec fn path_views(r: Seq<Vec<QueryWord>>) -> Seq<Seq<QueryWord>> {
    r.map_values(|x: Vec<QueryWord>| x@)
}

/// The paths of a walk's output, each with its prefix flag.
pub open spec fn emitted_views(r: Seq<(Vec<QueryWord>, bool)>) -> Seq<(Seq<QueryWord>, bool)> {
    r.map_values(|x: (Vec<QueryWord>, bool)| (x.0@, x.1))
}

impl FuzzyPhraseSet {
    /// A path of length `len` that the walk keeps: built from the slots,
    /// within the distance cap, and the beginning of some phrase.
    pub open spec fn viable(
        &self,
        slots: Seq<Seq<QueryWord>>,
        max_d: u8,
        len: int,
        p: Seq<QueryWord>,
    ) -> bool {
        &&& p.len() == len
        &&& chosen_from(p, slots)
        &&& path_distance(p) <= max_d
        &&& self.accepted_prefix(p)
    }

    /// What a windowed walk emits: a path of any length from one to the
    /// number of slots, flagged as a prefix match exactly when it fills every
    /// slot of a walk that ends in a prefix; otherwise it must be a whole phrase.
    pub open spec fn window_emits(
        &self,
        slots: Seq<Seq<QueryWord>>,
        max_d: u8,
        ends_in_prefix: bool,
        p: Seq<QueryWord>,
        b: bool,
    ) -> bool {
        &&& 1 <= p.len() <= slots.len()
        &&& chosen_from(p, slots)
        &&& path_distance(p) <= max_d
        &&& if p.len() == slots.len() && ends_in_prefix {
            b && self.accepted_prefix(p)
        } else {
            !b && self.accepted_exact(p)
        }
    }

    /// The viable paths one slot longer than those of `frontier`.
    fn extend_level(
        &self,
        frontier: &Vec<(Vec<QueryWord>, u8)>,
        slots: &Vec<Vec<QueryWord>>,
        k: usize,
        max_d: u8,
    ) -> (next: Vec<(Vec<QueryWord>, u8)>)
        requires
            k < slots.len(),
            forall|q: Seq<QueryWord>|
                frontier_views(frontier@).contains(q) <==> self.viable(
                    slot_views(slots@),
                    max_d,
                    k as int,
                    q,
                ),
            forall|i: int|
                0 <= i < frontier.len() ==> frontier@[i].1 == path_distance(
                    #[trigger] frontier@[i].0@,
                ),
        ensures
            forall|q: Seq<QueryWord>|
                frontier_views(next@).contains(q) <==> self.viable(
                    slot_views(slots@),
                    max_d,
                    k + 1,
                    q,
                ),
            forall|i: int| 0 <= i < next.len() ==> next@[i].1 == path_distance(#[trigger] next@[i].0@),
    {
        let ghost sv = slot_views(slots@);
        let ghost fv = frontier_views(frontier@);
        let options = &slots[k];
        assert(sv[k as int] == options@);
        let mut next: Vec<(Vec<QueryWord>, u8)> = Vec::new();
        let mut i: usize = 0;
        while i < frontier.len()
            invariant
                k < slots.len(),
                sv == slot_views(slots@),
                fv == frontier_views(frontier@),
                sv[k as int] == options@,
                i <= frontier.len(),
                forall|q: Seq<QueryWord>|
                    fv.contains(q) <==> self.viable(sv, max_d, k as int, q),
                forall|ii: int|
                    0 <= ii < frontier.len() ==> frontier@[ii].1 == path_distance(
                        #[trigger] frontier@[ii].0@,
                    ),
                forall|ii: int| 0 <= ii < next.len() ==> next@[ii].1 == path_distance(#[trigger] next@[ii].0@),
                forall|q: Seq<QueryWord>|
                    #[trigger] frontier_views(next@).contains(q) <==> (self.viable(
                        sv,
                        max_d,
                        k + 1,
                        q,
                    ) && exists|ii: int| 0 <= ii < i && fv[ii] == q.drop_last()),
            decreases frontier.len() - i,
        {
            let parent = &frontier[i].0;
            let pd = frontier[i].1;
            assert(fv[i as int] == parent@);
            assert(fv.contains(parent@));
            let mut j: usize = 0;
            while j < options.len()
                invariant
                    k < slots.len(),
                    sv == slot_views(slots@),
                    fv == frontier_views(frontier@),
                    sv[k as int] == options@,
                    i < frontier.len(),
                    j <= options.len(),
                    parent@ == fv[i as int],
                    self.viable(sv, max_d, k as int, parent@),
                    pd == path_distance(parent@),
                    forall|ii: int| 0 <= ii < next.len() ==> next@[ii].1 == path_distance(#[trigger] next@[ii].0@),
                    forall|q: Seq<QueryWord>|
                        #[trigger] frontier_views(next@).contains(q) <==> (self.viable(
                            sv,
                            max_d,
                            k + 1,
                            q,
                        ) && ((exists|ii: int| 0 <= ii < i && fv[ii] == q.drop_last()) || (
                        q.drop_last() == parent@ && exists|jj: int|
                            0 <= jj < j && options@[jj] == q.last()))),
                decreases options.len() - j,
            {
                let v = options[j];
                let vd: u8 = match v {
                    QueryWord::Full { edit_distance, .. } => edit_distance,
                    QueryWord::Prefix { .. } => 0,
                };
                let mut child = parent.clone();
                child.push(v);
                let ghost before = next@;
                proof {
                    assert(child@ == parent@.push(v));
                    lemma_path_distance_push(parent@, v);
                    assert(child@.drop_last() =~= parent@);
                }
                let total: u16 = pd as u16 + vd as u16;
                if total <= max_d as u16 && self.phrase_accepts(&child, false) {
                    next.push((child, total as u8));
                    proof {
                        assert(frontier_views(next@) =~= frontier_views(before).push(child@));
                        assert(options@.contains(v));
                        assert forall|kk: int| 0 <= kk < child@.len() implies sv[kk].contains(child@[kk]) by {
                            if kk < k {
                                assert(child@[kk] == parent@[kk]);
                            }
                        }
                        assert(self.viable(sv, max_d, k + 1, child@));
                    }
                }
                proof {
                    assert forall|q: Seq<QueryWord>|
                        #[trigger] frontier_views(next@).contains(q) <==> (self.viable(
                            sv,
                            max_d,
                            k + 1,
                            q,
                        ) && ((exists|ii: int| 0 <= ii < i && fv[ii] == q.drop_last()) || (
                        q.drop_last() == parent@ && exists|jj: int|
                            0 <= jj < j + 1 && options@[jj] == q.last()))) by {
                        assert(frontier_views(before).contains(q) <==> (self.viable(
                            sv,
                            max_d,
                            k + 1,
                            q,
                        ) && ((exists|ii: int| 0 <= ii < i && fv[ii] == q.drop_last()) || (
                        q.drop_last() == parent@ && exists|jj: int|
                            0 <= jj < j && options@[jj] == q.last()))));
                        if next@.len() > before.len() {
                            lemma_contains_push(frontier_views(before), child@, q);
                        }
                        if q.len() == k + 1 && q.drop_last() == parent@ && q.last() == v {
                            assert(q =~= child@);
                        }
                        if q == child@ && self.viable(sv, max_d, k + 1, q) {
                            let ph_i = choose|ph_i: int|
                                0 <= ph_i < self.phrase_ids().len() && path_fits(q, self.phrase_ids()[ph_i]);
                            assert(self.accepted_prefix(child@));
                        }
                    }
                }
                j = j + 1;
            }
            proof {
                assert forall|q: Seq<QueryWord>|
                    #[trigger] frontier_views(next@).contains(q) <==> (self.viable(
                        sv,
                        max_d,
                        k + 1,
                        q,
                    ) && exists|ii: int| 0 <= ii < i + 1 && fv[ii] == q.drop_last()) by {
                    if self.viable(sv, max_d, k + 1, q) && q.drop_last() == parent@ {
                        assert(sv[k as int].contains(q[k as int]));
                        let jj = choose|jj: int| 0 <= jj < options@.len() && options@[jj] == q[k as int];
                        assert(q.last() == q[k as int]);
                    }
                }
            }
            i = i + 1;
        }
        proof {
            assert forall|q: Seq<QueryWord>|
                #[trigger] frontier_views(next@).contains(q) <==> self.viable(
                    sv,
                    max_d,
                    k + 1,
                    q,
                ) by {
                if self.viable(sv, max_d, k + 1, q) {
                    let pq = q.drop_last();
                    lemma_path_distance_push(pq, q.last());
                    assert(pq.push(q.last()) =~= q);
                    lemma_path_distance_nonneg(pq);
                    assert(variant_distance(q.last()) >= 0) by {
                        match q.last() {
                            QueryWord::Full { edit_distance, .. } => {},
                            QueryWord::Prefix { .. } => {},
                        }
                    }
                    let ph_i = choose|ph_i: int|
                        0 <= ph_i < self.phrase_ids().len() && path_fits(q, self.phrase_ids()[ph_i]);
                    assert(path_fits(pq, self.phrase_ids()[ph_i]));
                    assert forall|kk: int| 0 <= kk < pq.len() implies sv[kk].contains(pq[kk]) by {
                        assert(pq[kk] == q[kk]);
                    }
                    assert(self.viable(sv, max_d, k as int, pq));
                    assert(fv.contains(pq));
                    let ii = choose|ii: int| 0 <= ii < fv.len() && fv[ii] == pq;
                }
            }
        }
        next
    }
    /// Appends the paths of `level`, flagged `as_prefix`; when not a prefix
    /// level, only those that are whole phrases.
    fn emit_level(
        &self,
        level: &Vec<(Vec<QueryWord>, u8)>,
        as_prefix: bool,
        results: &mut Vec<(Vec<QueryWord>, bool)>,
    )
        ensures
            forall|p: Seq<QueryWord>, b: bool|
                #[trigger] emitted_views(final(results)@).contains((p, b)) <==> (emitted_views(
                    old(results)@,
                ).contains((p, b)) || (frontier_views(level@).contains(p) && if as_prefix {
                    b
                } else {
                    !b && self.accepted_exact(p)
                })),
    {
        let ghost start = emitted_views(results@);
        let ghost lv = frontier_views(level@);
        let mut m: usize = 0;
        while m < level.len()
            invariant
                m <= level.len(),
                lv == frontier_views(level@),
                forall|p: Seq<QueryWord>, b: bool|
                    #[trigger] emitted_views(results@).contains((p, b)) <==> (start.contains((p, b))
                        || (lv.take(m as int).contains(p) && if as_prefix {
                        b
                    } else {
                        !b && self.accepted_exact(p)
                    })),
            decreases level.len() - m,
        {
            let path = &level[m].0;
            assert(lv[m as int] == path@);
            assert(lv.take(m + 1) =~= lv.take(m as int).push(path@));
            let ghost before = emitted_views(results@);
            let keep = as_prefix || self.phrase_accepts(path, true);
            if keep {
                results.push((path.clone(), as_prefix));
                assert(emitted_views(results@) =~= before.push((path@, as_prefix)));
            }
            proof {
                assert forall|p: Seq<QueryWord>, b: bool|
                    #[trigger] emitted_views(results@).contains((p, b)) <==> (start.contains((p, b))
                        || (lv.take(m + 1).contains(p) && if as_prefix {
                        b
                    } else {
                        !b && self.accepted_exact(p)
                    })) by {
                    assert(before.contains((p, b)) <==> (start.contains((p, b)) || (lv.take(
                        m as int,
                    ).contains(p) && if as_prefix {
                        b
                    } else {
                        !b && self.accepted_exact(p)
                    })));
                    lemma_contains_push(lv.take(m as int), path@, p);
                    if keep {
                        lemma_contains_push(before, (path@, as_prefix), (p, b));
                    }
                }
            }
            m = m + 1;
        }
        assert(lv.take(m as int) =~= lv);
    }

    /// Every path over `slots` that the windowed walk emits: at each length,
    /// the whole phrases, and at the full length of a walk that ends in a
    /// prefix, every phrase beginning (flagged `true`).
    pub(crate) fn walk_windows(
        &self,
        slots: &Vec<Vec<QueryWord>>,
        max_d: u8,
        ends_in_prefix: bool,
    ) -> (r: Vec<(Vec<QueryWord>, bool)>)
        ensures
            forall|p: Seq<QueryWord>, b: bool|
                #[trigger] emitted_views(r@).contains((p, b)) <==> self.window_emits(
                    slot_views(slots@),
                    max_d,
                    ends_in_prefix,
                    p,
                    b,
                ),
    {
        let ghost sv = slot_views(slots@);
        let mut results: Vec<(Vec<QueryWord>, bool)> = Vec::new();
        let count = self.phrase_list().len();
        assert(self.phrase_ids().len() == count);
        if count == 0 {
            assert forall|p: Seq<QueryWord>, b: bool|
                !self.window_emits(sv, max_d, ends_in_prefix, p, b) by {}
            return results;
        }
        let mut frontier: Vec<(Vec<QueryWord>, u8)> = Vec::new();
        frontier.push((Vec::new(), 0u8));
        proof {
            let e = Seq::<QueryWord>::empty();
            assert(path_fits(e, self.phrase_ids()[0]));
            assert(self.accepted_prefix(e));
            assert(path_distance(e) == 0);
            assert(chosen_from(e, sv));
            assert(frontier_views(frontier@) =~= seq![e]);
            assert forall|q: Seq<QueryWord>|
                frontier_views(frontier@).contains(q) <==> self.viable(sv, max_d, 0, q) by {
                if q.len() == 0 {
                    assert(q =~= e);
                }
                if frontier_views(frontier@).contains(q) {
                    assert(frontier_views(frontier@)[0] == q);
                }
            }
            assert(frontier@[0].0@ =~= e);
        }
        let mut k: usize = 0;
        while k < slots.len()
            invariant
                sv == slot_views(slots@),
                k <= slots.len(),
                forall|q: Seq<QueryWord>|
                    frontier_views(frontier@).contains(q) <==> self.viable(
                        sv,
                        max_d,
                        k as int,
                        q,
                    ),
                forall|i: int|
                    0 <= i < frontier.len() ==> frontier@[i].1 == path_distance(
                        #[trigger] frontier@[i].0@,
                    ),
                forall|p: Seq<QueryWord>, b: bool|
                    #[trigger] emitted_views(results@).contains((p, b)) <==> (self.window_emits(
                        sv,
                        max_d,
                        ends_in_prefix,
                        p,
                        b,
                    ) && p.len() <= k),
            decreases slots.len() - k,
        {
            let next = self.extend_level(&frontier, slots, k, max_d);
            let as_prefix = k + 1 == slots.len() && ends_in_prefix;
            let ghost before = emitted_views(results@);
            self.emit_level(&next, as_prefix, &mut results);
            proof {
                assert forall|p: Seq<QueryWord>, b: bool|
                    #[trigger] emitted_views(results@).contains((p, b)) <==> (self.window_emits(
                        sv,
                        max_d,
                        ends_in_prefix,
                        p,
                        b,
                    ) && p.len() <= k + 1) by {
                    assert(before.contains((p, b)) <==> (self.window_emits(
                        sv,
                        max_d,
                        ends_in_prefix,
                        p,
                        b,
                    ) && p.len() <= k));
                    if self.accepted_exact(p) {
                        let i = choose|i: int|
                            0 <= i < self.phrase_ids().len() && self.phrase_ids()[i].len() == p.len()
                                && path_fits(p, self.phrase_ids()[i]);
                        assert(self.accepted_prefix(p));
                    }
                }
            }
            frontier = next;
            k = k + 1;
        }
        results
    }

    /// The paths over all of `slots` that are whole phrases within the cap.
    pub(crate) fn walk_exact(&self, slots: &Vec<Vec<QueryWord>>, max_d: u8) -> (r: Vec<
        Vec<QueryWord>,
    >)
        ensures
            forall|p: Seq<QueryWord>|
                #[trigger] path_views(r@).contains(p) <==> (slots.len() >= 1 && p.len()
                    == slots.len() && chosen_from(p, slot_views(slots@)) && path_distance(p)
                    <= max_d && self.accepted_exact(p)),
    {
        let all = self.walk_windows(slots, max_d, false);
        self.keep_full_length(&all, slots.len(), false)
    }

    /// The paths over all of `slots` that begin some phrase, within the cap.
    pub(crate) fn walk_prefixes(&self, slots: &Vec<Vec<QueryWord>>, max_d: u8) -> (r: Vec<
        Vec<QueryWord>,
    >)
        ensures
            forall|p: Seq<QueryWord>|
                #[trigger] path_views(r@).contains(p) <==> (slots.len() >= 1 && p.len()
                    == slots.len() && chosen_from(p, slot_views(slots@)) && path_distance(p)
                    <= max_d && self.accepted_prefix(p)),
    {
        let all = self.walk_windows(slots, max_d, true);
        self.keep_full_length(&all, slots.len(), true)
    }

    /// The paths of length `n` flagged `flag`.
    fn keep_full_length(&self, all: &Vec<(Vec<QueryWord>, bool)>, n: usize, flag: bool) -> (r: Vec<
        Vec<QueryWord>,
    >)
        ensures
            forall|p: Seq<QueryWord>|
                #[trigger] path_views(r@).contains(p) <==> (p.len() == n && emitted_views(
                    all@,
                ).contains((p, flag))),
    {
        let ghost av = emitted_views(all@);
        let mut out: Vec<Vec<QueryWord>> = Vec::new();
        let mut i: usize = 0;
        while i < all.len()
            invariant
                i <= all.len(),
                av == emitted_views(all@),
                forall|p: Seq<QueryWord>|
                    #[trigger] path_views(out@).contains(p) <==> (p.len() == n && av.take(
                        i as int,
                    ).contains((p, flag))),
            decreases all.len() - i,
        {
            let ghost before = path_views(out@);
            assert(av[i as int] == (all@[i as int].0@, all@[i as int].1));
            assert(av.take(i + 1) =~= av.take(i as int).push(av[i as int]));
            let keep = all[i].1 == flag && all[i].0.len() == n;
            if keep {
                out.push(all[i].0.clone());
                assert(path_views(out@) =~= before.push(all@[i as int].0@));
            }
            proof {
                assert forall|p: Seq<QueryWord>|
                    #[trigger] path_views(out@).contains(p) <==> (p.len() == n && av.take(
                        i + 1,
                    ).contains((p, flag))) by {
                    assert(before.contains(p) <==> (p.len() == n && av.take(i as int).contains(
                        (p, flag),
                    )));
                    lemma_contains_push(av.take(i as int), av[i as int], (p, flag));
                    if keep {
                        lemma_contains_push(before, all@[i as int].0@, p);
                    }
                }
            }
            i = i + 1;
        }
        assert(av.take(i as int) =~= av);
        out
    }
}

/// Prefix variants occur, if at all, only in the last slot, and there only
/// when `allow_last`.
pub open spec fn prefixes_only_last(slots: Seq<Seq<QueryWord>>, allow_last: bool) -> bool {
    forall|k: int, j: int|
        0 <= k < slots.len() && 0 <= j < slots[k].len() && (#[trigger] slots[k][j]) is Prefix
            ==> allow_last && k == slots.len() - 1
}

/// Whether the slots have the shape that the walks accept.
fn shape_ok(slots: &Vec<Vec<QueryWord>>, allow_last: bool) -> (r: bool)
    ensures
        r == prefixes_only_last(slot_views(slots@), allow_last),
{
    let ghost sv = slot_views(slots@);
    let n = slots.len();
    let mut k: usize = 0;
    while k < n
        invariant
            n == slots.len(),
            sv == slot_views(slots@),
            k <= n,
            forall|kk: int, j: int|
                0 <= kk < k && 0 <= j < sv[kk].len() && (#[trigger] sv[kk][j]) is Prefix
                    ==> allow_last && kk == n - 1,
        decreases n - k,
    {
        let options = &slots[k];
        assert(sv[k as int] == options@);
        let mut j: usize = 0;
        while j < options.len()
            invariant
                n == slots.len(),
                sv == slot_views(slots@),
                k < n,
                sv[k as int] == options@,
                j <= options.len(),
                forall|kk: int, jj: int|
                    0 <= kk < k && 0 <= jj < sv[kk].len() && (#[trigger] sv[kk][jj]) is Prefix
                        ==> allow_last && kk == n - 1,
                forall|jj: int| 0 <= jj < j && (#[trigger] options@[jj]) is Prefix ==> allow_last && k == n - 1,
            decreases options.len() - j,
        {
            match options[j] {
                QueryWord::Prefix { .. } => {
                    if !(allow_last && k == n - 1) {
                        return false;
                    }
                },
                QueryWord::Full { .. } => {},
            }
            j = j + 1;
        }
        k = k + 1;
    }
    true
}

impl FuzzyPhraseSet {
    /// The paths over all of `slots` that are whole phrases within the cap.
    /// No slot may hold a prefix variant.
    pub fn match_combinations(&self, slots: &Vec<Vec<QueryWord>>, max_d: u8) -> (r: Result<
        Vec<Vec<QueryWord>>,
        FuzzyPhraseSetError,
    >)
        ensures
            r is Err <==> !prefixes_only_last(slot_views(slots@), false),
            r is Err ==> r == Err::<Vec<Vec<QueryWord>>, _>(FuzzyPhraseSetError::QueryShape),
            r matches Ok(paths) ==> forall|p: Seq<QueryWord>|
                #[trigger] path_views(paths@).contains(p) <==> (slots.len() >= 1 && p.len()
                    == slots.len() && chosen_from(p, slot_views(slots@)) && path_distance(p)
                    <= max_d && self.accepted_exact(p)),
    {
        if !shape_ok(slots, false) {
            return Err(FuzzyPhraseSetError::QueryShape);
        }
        Ok(self.walk_exact(slots, max_d))
    }

    /// The paths over all of `slots` that begin some phrase, within the cap.
    /// Only the last slot may hold a prefix variant.
    pub fn match_combinations_as_prefixes(&self, slots: &Vec<Vec<QueryWord>>, max_d: u8) -> (r: Result<
        Vec<Vec<QueryWord>>,
        FuzzyPhraseSetError,
    >)
        ensures
            r is Err <==> !prefixes_only_last(slot_views(slots@), true),
            r is Err ==> r == Err::<Vec<Vec<QueryWord>>, _>(FuzzyPhraseSetError::QueryShape),
            r matches Ok(paths) ==> forall|p: Seq<QueryWord>|
                #[trigger] path_views(paths@).contains(p) <==> (slots.len() >= 1 && p.len()
                    == slots.len() && chosen_from(p, slot_views(slots@)) && path_distance(p)
                    <= max_d && self.accepted_prefix(p)),
    {
        if !shape_ok(slots, true) {
            return Err(FuzzyPhraseSetError::QueryShape);
        }
        Ok(self.walk_prefixes(slots, max_d))
    }

    /// Every path over `slots` that the windowed walk emits: at each length,
    /// the whole phrases, and at the full length of a walk that ends in a
    /// prefix, every phrase beginning (flagged `true`). Only the last slot may
    /// hold a prefix variant.
    pub fn match_combinations_as_windows(
        &self,
        slots: &Vec<Vec<QueryWord>>,
        max_d: u8,
        ends_in_prefix: bool,
    ) -> (r: Result<Vec<(Vec<QueryWord>, bool)>, FuzzyPhraseSetError>)
        ensures
            r is Err <==> !prefixes_only_last(slot_views(slots@), true),
            r is Err ==> r == Err::<Vec<(Vec<QueryWord>, bool)>, _>(FuzzyPhraseSetError::QueryShape),
            r matches Ok(emitted) ==> forall|p: Seq<QueryWord>, b: bool|
                #[trigger] emitted_views(emitted@).contains((p, b)) <==> self.window_emits(
                    slot_views(slots@),
                    max_d,
                    ends_in_prefix,
                    p,
                    b,
                ),
    {
        if !shape_ok(slots, true) {
            return Err(FuzzyPhraseSetError::QueryShape);
        }
        Ok(self.walk_windows(slots, max_d, ends_in_prefix))
    }
}

} // verus!
