use fuzzy_phrase::{FuzzyPhraseSet, FuzzyPhraseSetBuilder};

const CORPUS: [&str; 12] = [
    "1 infinite loop cupertino",
    "1600 pennsylvania avenue washington",
    "221 baker street london",
    "742 evergreen terrace springfield",
    "10 downing street london",
    "350 fifth avenue new york",
    "4 privet drive little whinging",
    "31 spooner street quahog",
    "12 grimmauld place london",
    "124 conch street bikini bottom",
    "17 cherry tree lane london",
    "62 west wallaby street wigan",
];

fn fuzzy_set() -> FuzzyPhraseSet {
    let mut builder = FuzzyPhraseSetBuilder::new();
    for phrase in CORPUS.iter() {
        builder.insert_str(phrase).unwrap();
    }
    builder.finish().unwrap()
}

/// Drops the second letter of the longest word that can be matched fuzzily.
fn damaged(set: &FuzzyPhraseSet, phrase: &str) -> String {
    let words: Vec<&str> = phrase.split(' ').collect();
    let mut target = 0;
    for (i, w) in words.iter().enumerate() {
        if set.can_fuzzy_match(w) && w.len() > words[target].len() {
            target = i;
        }
    }
    let out: Vec<String> = words
        .iter()
        .enumerate()
        .map(|(i, w)| {
            if i == target {
                let mut chars: Vec<char> = w.chars().collect();
                chars.remove(1);
                chars.into_iter().collect()
            } else {
                w.to_string()
            }
        })
        .collect();
    out.join(" ")
}

#[test]
fn glue_fuzzy_build() -> () {
    let set = fuzzy_set();
    assert_eq!(set.phrase_list().len(), CORPUS.len());
    for phrase in CORPUS.iter() {
        assert!(set.contains_str(phrase).unwrap());
    }
}

#[test]
fn fuzzy_match_windowed_multi_equivalent_test() {
    let set = fuzzy_set();
    for phrase in CORPUS.iter() {
        let damaged_phrase = damaged(&set, phrase);
        assert_ne!(&damaged_phrase, phrase);
        let damaged_phrase_windows: Vec<&str> = damaged_phrase.split(' ').collect();
        let windowed_match_result = set.fuzzy_match_windows(&damaged_phrase_windows, 1, 1, false).unwrap();
        let windowed_match_multi_result = set.fuzzy_match_multi(&[(damaged_phrase_windows.clone(), false)], 1, 1).unwrap();
        assert_eq!(windowed_match_result[0].phrase, windowed_match_multi_result[0][0].phrase);
        let original: Vec<String> = phrase.split(' ').map(|w| w.to_string()).collect();
        assert_eq!(windowed_match_multi_result[0][0].phrase, original);
        assert_eq!(windowed_match_multi_result[0][0].edit_distance, 1);
    }
}
