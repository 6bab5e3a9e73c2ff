//! What queries return.
use vstd::prelude::*;
use crate::text::string_views;

verus! {

/// A phrase of the index that matched a query, with its summed edit distance.
#[derive(Debug, Clone)]
pub struct FuzzyMatchResult {
    pub phrase: Vec<String>,
    pub edit_distance: u8,
}

/// A phrase of the index that matched a window of a longer query.
#[derive(Debug, Clone)]
pub struct FuzzyWindowResult {
    pub phrase: Vec<String>,
    pub edit_distance: u8,
    pub start_position: usize,
    pub ends_in_prefix: bool,
}

/// The text and distance of a match.
pub open spec fn match_view(r: FuzzyMatchResult) -> (Seq<Seq<char>>, u8) {
    (string_views(r.phrase@), r.edit_distance)
}

/// The views of a list of matches.
pub open spec fn match_views(rs: Seq<FuzzyMatchResult>) -> Seq<(Seq<Seq<char>>, u8)> {
    rs.map_values(|r: FuzzyMatchResult| match_view(r))
}

/// The text, distance, start and prefix flag of a window match.
pub open spec fn window_view(r: FuzzyWindowResult) -> (Seq<Seq<char>>, u8, usize, bool) {
    (string_views(r.phrase@), r.edit_distance, r.start_position, r.ends_in_prefix)
}

/// The views of a list of window matches.
pub open spec fn window_views(rs: Seq<FuzzyWindowResult>) -> Seq<(Seq<Seq<char>>, u8, usize, bool)> {
    rs.map_values(|r: FuzzyWindowResult| window_view(r))
}

/// Equality of two lists of strings.
fn strings_equal(a: &Vec<String>, b: &Vec<String>) -> (r: bool)
    ensures
        r == (string_views(a@) == string_views(b@)),
{
    if a.len() != b.len() {
        return false;
    }
    let mut i: usize = 0;
    while i < a.len()
        invariant
            a.len() == b.len(),
            i <= a.len(),
            forall|k: int| 0 <= k < i ==> a@[k]@ == b@[k]@,
        decreases a.len() - i,
    {
        if a[i] != b[i] {
            assert(string_views(a@)[i as int] == a@[i as int]@);
            assert(string_views(b@)[i as int] == b@[i as int]@);
            return false;
        }
        i = i + 1;
    }
    assert(string_views(a@) =~= string_views(b@));
    true
}

impl PartialEq for FuzzyMatchResult {
    fn eq(&self, other: &FuzzyMatchResult) -> (r: bool) {
        strings_equal(&self.phrase, &other.phrase) && self.edit_distance == other.edit_distance
    }
}

impl vstd::std_specs::cmp::PartialEqSpecImpl for FuzzyMatchResult {
    open spec fn obeys_eq_spec() -> bool {
        true
    }

    open spec fn eq_spec(&self, other: &FuzzyMatchResult) -> bool {
        match_view(*self) == match_view(*other)
    }
}

impl Eq for FuzzyMatchResult {
}

impl PartialEq for FuzzyWindowResult {
    fn eq(&self, other: &FuzzyWindowResult) -> (r: bool) {
        strings_equal(&self.phrase, &other.phrase) && self.edit_distance == other.edit_distance
            && self.start_position == other.start_position && self.ends_in_prefix
            == other.ends_in_prefix
    }
}

impl vstd::std_specs::cmp::PartialEqSpecImpl for FuzzyWindowResult {
    open spec fn obeys_eq_spec() -> bool {
        true
    }

    open spec fn eq_spec(&self, other: &FuzzyWindowResult) -> bool {
        window_view(*self) == window_view(*other)
    }
}

impl Eq for FuzzyWindowResult {
}

/// Appends `item` unless an equal result is already there.
pub fn push_new_match(out: &mut Vec<FuzzyMatchResult>, item: FuzzyMatchResult)
    requires
        match_views(old(out)@).no_duplicates(),
    ensures
        match_views(final(out)@).no_duplicates(),
        forall|x: (Seq<Seq<char>>, u8)|
            #[trigger] match_views(final(out)@).contains(x) <==> (match_views(old(out)@).contains(x)
                || x == match_view(item)),
{
    let ghost before = match_views(out@);
    let ghost iv = match_view(item);
    let mut i: usize = 0;
    while i < out.len()
        invariant
            before == match_views(out@),
            before.no_duplicates(),
            iv == match_view(item),
            i <= out.len(),
            forall|j: int| 0 <= j < i ==> before[j] != iv,
        decreases out.len() - i,
    {
        assert(before[i as int] == match_view(out@[i as int]));
        if out[i] == item {
            proof {
                assert forall|x: (Seq<Seq<char>>, u8)|
                    #[trigger] before.contains(x) <==> (before.contains(x) || x == iv) by {
                    if x == iv {
                        assert(before[i as int] == x);
                    }
                }
            }
            return;
        }
        i = i + 1;
    }
    out.push(item);
    proof {
        assert(match_views(out@) =~= before.push(iv));
        assert forall|x: (Seq<Seq<char>>, u8)|
            #[trigger] match_views(out@).contains(x) <==> (before.contains(x) || x == iv) by {
            crate::query::lemma_contains_push(before, iv, x);
        }
    }
}

/// Appends `item` unless an equal result is already there.
pub fn push_new_window(out: &mut Vec<FuzzyWindowResult>, item: FuzzyWindowResult)
    requires
        window_views(old(out)@).no_duplicates(),
    ensures
        window_views(final(out)@).no_duplicates(),
        forall|x: (Seq<Seq<char>>, u8, usize, bool)|
            #[trigger] window_views(final(out)@).contains(x) <==> (window_views(old(out)@).contains(x)
                || x == window_view(item)),
{
    let ghost before = window_views(out@);
    let ghost iv = window_view(item);
    let mut i: usize = 0;
    while i < out.len()
        invariant
            before == window_views(out@),
            before.no_duplicates(),
            iv == window_view(item),
            i <= out.len(),
            forall|j: int| 0 <= j < i ==> before[j] != iv,
        decreases out.len() - i,
    {
        assert(before[i as int] == window_view(out@[i as int]));
        if out[i] == item {
            proof {
                assert forall|x: (Seq<Seq<char>>, u8, usize, bool)|
                    #[trigger] before.contains(x) <==> (before.contains(x) || x == iv) by {
                    if x == iv {
                        assert(before[i as int] == x);
                    }
                }
            }
            return;
        }
        i = i + 1;
    }
    out.push(item);
    proof {
        assert(window_views(out@) =~= before.push(iv));
        assert forall|x: (Seq<Seq<char>>, u8, usize, bool)|
            #[trigger] window_views(out@).contains(x) <==> (before.contains(x) || x == iv) by {
            crate::query::lemma_contains_push(before, iv, x);
        }
    }
}

} // verus!
