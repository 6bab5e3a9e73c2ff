use fuzzy_phrase::codec::{decode_phrase, encode_phrase};
use fuzzy_phrase::{FuzzyMatchResult, FuzzyPhraseSet, FuzzyPhraseSetBuilder, FuzzyPhraseSetError, QueryWord};

fn build_set() -> FuzzyPhraseSet {
    let mut builder = FuzzyPhraseSetBuilder::new();
    builder.insert_str("100 main street").unwrap();
    builder.insert_str("200 main street").unwrap();
    builder.insert_str("100 main ave").unwrap();
    builder.insert_str("300 mlk blvd").unwrap();
    builder.finish().unwrap()
}

fn result(words: &[&str], edit_distance: u8) -> FuzzyMatchResult {
    FuzzyMatchResult { phrase: words.iter().map(|w| w.to_string()).collect(), edit_distance }
}

fn same_results(a: &[FuzzyMatchResult], b: &[FuzzyMatchResult]) -> bool {
    a.iter().all(|x| b.contains(x)) && b.iter().all(|x| a.contains(x))
}

const PHRASES: [&[&str]; 4] = [
    &["100", "main", "street"],
    &["200", "main", "street"],
    &["100", "main", "ave"],
    &["300", "mlk", "blvd"],
];

#[test]
fn every_inserted_phrase_is_contained() {
    let set = build_set();
    for p in PHRASES.iter() {
        assert!(set.contains(p).unwrap());
        assert!(set.contains_prefix(p).unwrap());
    }
}

#[test]
fn every_word_beginning_is_a_prefix() {
    let set = build_set();
    for p in PHRASES.iter() {
        for k in 1..=p.len() {
            let word = p[k - 1];
            for end in 1..=word.len() {
                let mut query: Vec<&str> = p[..k - 1].to_vec();
                query.push(&word[..end]);
                assert!(set.contains_prefix(&query).unwrap(), "{:?}", query);
            }
        }
    }
}

#[test]
fn fuzzy_match_finds_each_phrase_at_distance_zero() {
    let set = build_set();
    for p in PHRASES.iter() {
        let found = set.fuzzy_match(p, 1, 0).unwrap();
        assert!(found.contains(&result(p, 0)), "{:?}", found);
    }
}

#[test]
fn fuzzy_results_respect_the_phrase_cap() {
    let set = build_set();
    for cap in 0..3u8 {
        for r in set.fuzzy_match(&["100", "man", "stret"], 1, cap).unwrap() {
            assert!(r.edit_distance <= cap);
        }
        for r in set.fuzzy_match_prefix(&["200", "man", "st"], 1, cap).unwrap() {
            assert!(r.edit_distance <= cap);
        }
    }
    assert_eq!(set.fuzzy_match(&["100", "man", "stret"], 1, 1).unwrap(), vec![]);
}

#[test]
fn single_query_batch_matches_full_windows() {
    let set = build_set();
    let queries: [&[&str]; 3] = [&["100", "man", "street"], &["300", "mlk", "blvd"], &["100", "main"]];
    for q in queries.iter() {
        let windows = set.fuzzy_match_windows(q, 1, 1, false).unwrap();
        let full: Vec<FuzzyMatchResult> = windows
            .into_iter()
            .filter(|w| w.start_position == 0 && w.phrase.len() == q.len())
            .map(|w| FuzzyMatchResult { phrase: w.phrase, edit_distance: w.edit_distance })
            .collect();
        let multi = set.fuzzy_match_multi(&[(q.to_vec(), false)], 1, 1).unwrap();
        assert!(same_results(&multi[0], &full), "{:?} {:?}", multi[0], full);
    }
}

#[test]
fn batch_answers_like_single_queries() {
    let set = build_set();
    let queries: Vec<(Vec<&str>, bool)> = vec![
        (vec!["100", "man"], true),
        (vec!["100", "man", "street"], false),
        (vec!["100"], false),
        (vec!["300", "mlk", "bl"], true),
        (vec!["200", "main", "stret"], false),
        (vec![], false),
    ];
    let batch = set.fuzzy_match_multi(&queries, 1, 1).unwrap();
    assert_eq!(batch.len(), queries.len());
    for (i, (q, prefix)) in queries.iter().enumerate() {
        let single = if *prefix {
            set.fuzzy_match_prefix(q, 1, 1).unwrap()
        } else {
            set.fuzzy_match(q, 1, 1).unwrap()
        };
        assert!(same_results(&batch[i], &single), "{:?}", q);
    }
}

#[test]
fn repeated_queries_agree() {
    let set = build_set();
    let first = set.fuzzy_match_windows(&["100", "man", "street", "300"], 1, 1, true).unwrap();
    let second = set.fuzzy_match_windows(&["100", "man", "street", "300"], 1, 1, true).unwrap();
    assert_eq!(first, second);
}

#[test]
fn unknown_token_is_not_contained() {
    let set = build_set();
    assert!(!set.contains(&["100", "main", "boulevard"]).unwrap());
    assert!(!set.contains(&["zzz"]).unwrap());
}

#[test]
fn empty_queries_find_nothing() {
    let set = build_set();
    let empty: [&str; 0] = [];
    assert!(!set.contains(&empty).unwrap());
    assert!(!set.contains_prefix(&empty).unwrap());
    assert_eq!(set.fuzzy_match(&empty, 1, 1).unwrap(), vec![]);
    assert_eq!(set.fuzzy_match_prefix(&empty, 1, 1).unwrap(), vec![]);
    assert_eq!(set.fuzzy_match_windows(&empty, 1, 1, true).unwrap(), vec![]);
    assert_eq!(set.fuzzy_match_multi(&[], 1, 1).unwrap(), Vec::<Vec<FuzzyMatchResult>>::new());
}

#[test]
fn word_distance_is_clamped_to_one() {
    let set = build_set();
    assert_eq!(
        set.fuzzy_match(&["100", "man", "street"], 5, 1).unwrap(),
        vec![result(&["100", "main", "street"], 1)]
    );
    assert_eq!(set.fuzzy_match(&["100", "man", "street"], 0, 1).unwrap(), vec![]);
}

#[test]
fn transposed_letters_are_one_edit() {
    let set = build_set();
    assert_eq!(
        set.fuzzy_match(&["100", "mian", "street"], 1, 1).unwrap(),
        vec![result(&["100", "main", "street"], 1)]
    );
}

#[test]
fn numbers_are_matched_exactly() {
    let set = build_set();
    assert!(!set.can_fuzzy_match("100"));
    assert!(set.can_fuzzy_match("main"));
    assert!(set.can_fuzzy_match("улица"));
    assert!(!set.can_fuzzy_match("大街"));
    assert_eq!(set.fuzzy_match(&["10", "main", "street"], 1, 1).unwrap(), vec![]);
}

#[test]
fn prefix_match_keeps_the_query_token() {
    let set = build_set();
    assert_eq!(
        set.fuzzy_match_prefix(&["300", "mlk", "b"], 1, 0).unwrap(),
        vec![result(&["300", "mlk", "b"], 0)]
    );
}

#[test]
fn duplicate_phrases_are_stored_once() {
    let mut builder = FuzzyPhraseSetBuilder::new();
    builder.insert(&["a", "b"]).unwrap();
    builder.insert(&["a", "b"]).unwrap();
    builder.insert(&["b"]).unwrap();
    builder.insert(&["a"]).unwrap();
    let set = builder.finish().unwrap();
    assert_eq!(set.phrase_list().clone(), vec![vec![0], vec![0, 1], vec![1]]);
}

#[test]
fn unsorted_word_list_is_invalid_data() {
    let words = vec!["b".to_string(), "a".to_string()];
    assert_eq!(FuzzyPhraseSet::from_parts(words, vec![]).err(), Some(FuzzyPhraseSetError::InvalidData));
    let words = vec!["a".to_string(), "b".to_string()];
    assert_eq!(FuzzyPhraseSet::from_parts(words, vec![vec![2]]).err(), Some(FuzzyPhraseSetError::InvalidData));
    let words = vec!["a".to_string(), "b".to_string()];
    assert!(FuzzyPhraseSet::from_parts(words, vec![vec![1, 0]]).is_ok());
}

#[test]
fn phrase_keys_round_trip() {
    let ids = vec![0u32, 1, 258, 0x0102_0304, u32::MAX];
    let key = encode_phrase(&ids);
    assert_eq!(&key[8..12], &[0, 0, 1, 2]);
    assert_eq!(&key[12..16], &[1, 2, 3, 4]);
    assert_eq!(decode_phrase(&key), Some(ids));
    assert_eq!(decode_phrase(&[1, 2, 3]), None);
}

#[test]
fn walks_reject_misplaced_prefix_variants() {
    let set = build_set();
    let full = |id: u32| QueryWord::Full { id, edit_distance: 0 };
    let misplaced = vec![vec![QueryWord::Prefix { start: 0, end: 1 }], vec![full(5)], vec![full(7)]];
    assert_eq!(set.match_combinations(&misplaced, 0).err(), Some(FuzzyPhraseSetError::QueryShape));
    assert_eq!(set.match_combinations_as_prefixes(&misplaced, 0).err(), Some(FuzzyPhraseSetError::QueryShape));
    assert_eq!(set.match_combinations_as_windows(&misplaced, 0, true).err(), Some(FuzzyPhraseSetError::QueryShape));

    let ending_in_prefix = vec![vec![full(0)], vec![full(5)], vec![QueryWord::Prefix { start: 7, end: 7 }]];
    assert_eq!(set.match_combinations(&ending_in_prefix, 0).err(), Some(FuzzyPhraseSetError::QueryShape));
    assert_eq!(set.match_combinations_as_prefixes(&ending_in_prefix, 0).unwrap(), vec![ending_in_prefix.iter().map(|l| l[0]).collect::<Vec<QueryWord>>()]);

    let exact = vec![vec![full(0), full(1)], vec![full(5)], vec![full(7)]];
    assert_eq!(set.match_combinations(&exact, 0).unwrap().len(), 2);
    let windows = set.match_combinations_as_windows(&exact, 0, false).unwrap();
    assert_eq!(windows.len(), 2);
    assert!(windows.iter().all(|(p, b)| p.len() == 3 && !*b));
}

#[test]
fn window_prefix_slot_shows_the_callers_token() {
    let set = build_set();
    assert_eq!(
        set.fuzzy_match_windows(&["200", "300", "ml"], 1, 0, true).unwrap(),
        vec![fuzzy_phrase::FuzzyWindowResult {
            phrase: vec!["300".to_string(), "ml".to_string()],
            edit_distance: 0,
            start_position: 1,
            ends_in_prefix: true,
        }]
    );
}
