//! Which tokens take part in fuzzy matching.
use vstd::prelude::*;

verus! {

/// Whether every character of the token belongs to the Latin, Greek or
/// Cyrillic script.
pub uninterp spec fn in_fuzzy_scripts(s: Seq<char>) -> bool;

/// Relies on `regex::Regex::new` and `regex::Regex::is_match`: the fixed
/// pattern, anchored at both ends, accepts runs of characters of the Latin,
/// Greek and Cyrillic scripts (it is valid, so building it does not fail),
/// and each answer depends on the characters of its word alone.
#[verifier::external_body]
pub(crate) fn fuzzy_script_flags(words: &Vec<String>) -> (r: Vec<bool>)
    ensures
        r.len() == words.len(),
        forall|i: int| 0 <= i < words.len() ==> r[i] == in_fuzzy_scripts(#[trigger] words[i]@),
{
    let re = regex::Regex::new(r"^[\p{Latin}\p{Greek}\p{Cyrillic}]*$").unwrap();
    words.iter().map(|w| re.is_match(w)).collect()
}

/// Whether every character of `word` belongs to a fuzzy-enabled script.
pub fn word_in_fuzzy_scripts(word: &str) -> (r: bool)
    ensures
        r == in_fuzzy_scripts(word@),
{
    let words = vec![word.to_owned()];
    let flags = fuzzy_script_flags(&words);
    flags[0]
}

} // verus!
