use fuzzy_phrase::{FuzzyMatchResult, FuzzyPhraseSet, FuzzyPhraseSetBuilder, FuzzyWindowResult};

fn build_set() -> FuzzyPhraseSet {
    let mut builder = FuzzyPhraseSetBuilder::new();
    builder.insert_str("100 main street").unwrap();
    builder.insert_str("200 main street").unwrap();
    builder.insert_str("100 main ave").unwrap();
    builder.insert_str("300 mlk blvd").unwrap();
    builder.finish().unwrap()
}

fn strings(words: &[&str]) -> Vec<String> {
    words.iter().map(|w| w.to_string()).collect()
}

#[test]
fn glue_build() -> () {
    let set = build_set();
    assert_eq!(set.word_list().len(), 8);
    assert_eq!(set.phrase_list().len(), 4);
}

#[test]
fn glue_contains() -> () {
    let set = build_set();
    assert!(set.contains_str("100 main street").unwrap());
    assert!(set.contains_str("200 main street").unwrap());
    assert!(set.contains_str("100 main ave").unwrap());
    assert!(set.contains_str("300 mlk blvd").unwrap());
}

#[test]
fn glue_test_asref() -> () {
    let set = build_set();
    assert!(set.contains_str("100 main street").unwrap());
    let phrase_static = ["100", "main", "street"];
    assert!(set.contains(&phrase_static).unwrap());
    let phrase_vec: Vec<String> = vec!["100".to_string(), "main".to_string(), "street".to_string()];
    let ref_phrase_vec: Vec<&str> = phrase_vec.iter().map(|s| s.as_str()).collect();
    assert!(set.contains(&ref_phrase_vec).unwrap());
    assert!(set.contains(ref_phrase_vec.as_slice()).unwrap());
}

#[test]
fn glue_doesnt_contain() -> () {
    let set = build_set();
    assert!(!set.contains_str("x").unwrap());
    assert!(!set.contains_str("100 main").unwrap());
    assert!(!set.contains_str("100 main s").unwrap());
    assert!(!set.contains_str("100 main streetr").unwrap());
    assert!(!set.contains_str("100 main street r").unwrap());
    assert!(!set.contains_str("100 main street ave").unwrap());
}

#[test]
fn glue_contains_prefix_exact() -> () {
    let set = build_set();
    assert!(set.contains_prefix_str("100 main street").unwrap());
    assert!(set.contains_prefix_str("200 main street").unwrap());
    assert!(set.contains_prefix_str("100 main ave").unwrap());
    assert!(set.contains_prefix_str("300 mlk blvd").unwrap());
}

#[test]
fn glue_contains_prefix_partial_word() -> () {
    let set = build_set();
    assert!(set.contains_prefix_str("100 main stree").unwrap());
    assert!(set.contains_prefix_str("200 main stree").unwrap());
    assert!(set.contains_prefix_str("100 main av").unwrap());
    assert!(set.contains_prefix_str("300 mlk blv").unwrap());
}

#[test]
fn glue_contains_prefix_dropped_word() -> () {
    let set = build_set();
    assert!(set.contains_prefix_str("100 main").unwrap());
    assert!(set.contains_prefix_str("200 main").unwrap());
    assert!(set.contains_prefix_str("100 main").unwrap());
    assert!(set.contains_prefix_str("300 mlk").unwrap());
}

#[test]
fn glue_doesnt_contain_prefix() -> () {
    let set = build_set();
    assert!(!set.contains_prefix_str("100 man").unwrap());
    assert!(!set.contains_prefix_str("400 main").unwrap());
    assert!(!set.contains_prefix_str("100 main street x").unwrap());
}

#[test]
fn glue_fuzzy_match() -> () {
    let set = build_set();
    assert_eq!(
        set.fuzzy_match(&["100", "man", "street"], 1, 1).unwrap(),
        vec![
            FuzzyMatchResult { phrase: vec!["100".to_string(), "main".to_string(), "street".to_string()], edit_distance: 1 },
        ]
    );

    assert_eq!(
        set.fuzzy_match(&["100", "man", "stret"], 1, 2).unwrap(),
        vec![
            FuzzyMatchResult { phrase: vec!["100".to_string(), "main".to_string(), "street".to_string()], edit_distance: 2 },
        ]
    );
}

#[test]
fn glue_fuzzy_match_prefix() -> () {
    let set = build_set();
    assert_eq!(
        set.fuzzy_match_prefix(&["100", "man"], 1, 1).unwrap(),
        vec![
            FuzzyMatchResult { phrase: vec!["100".to_string(), "main".to_string()], edit_distance: 1 },
        ]
    );

    assert_eq!(
        set.fuzzy_match_prefix(&["100", "man", "str"], 1, 1).unwrap(),
        vec![
            FuzzyMatchResult { phrase: vec!["100".to_string(), "main".to_string(), "str".to_string()], edit_distance: 1 },
        ]
    );
}

#[test]
fn glue_fuzzy_match_windows() -> () {
    let set = build_set();
    assert_eq!(
        set.fuzzy_match_windows(&["100", "main", "street", "washington", "300"], 1, 1, true).unwrap(),
        vec![
            FuzzyWindowResult { phrase: vec!["100".to_string(), "main".to_string(), "street".to_string()], edit_distance: 0, start_position: 0, ends_in_prefix: false },
            FuzzyWindowResult { phrase: vec!["300".to_string()], edit_distance: 0, start_position: 4, ends_in_prefix: true }
        ]
    );

    assert_eq!(
        set.fuzzy_match_windows(&["100", "main", "street", "washington", "300"], 1, 1, false).unwrap(),
        vec![
            FuzzyWindowResult { phrase: vec!["100".to_string(), "main".to_string(), "street".to_string()], edit_distance: 0, start_position: 0, ends_in_prefix: false },
        ]
    );
}

#[test]
fn glue_fuzzy_match_multi() -> () {
    let set = build_set();
    assert_eq!(
        set.fuzzy_match_multi(&[
            (vec!["100"], false),
            (vec!["100", "main"], false),
            (vec!["100", "main", "street"], true),
            (vec!["300"], false),
            (vec!["300", "mlk"], false),
            (vec!["300", "mlk", "blvd"], true),
        ], 1, 1).unwrap(),
        vec![
            vec![],
            vec![],
            vec![FuzzyMatchResult { phrase: vec!["100".to_string(), "main".to_string(), "street".to_string()], edit_distance: 0 }],
            vec![],
            vec![],
            vec![FuzzyMatchResult { phrase: vec!["300".to_string(), "mlk".to_string(), "blvd".to_string()], edit_distance: 0 }]
        ]
    );
}

#[test]
fn word_ids_follow_code_point_order() {
    let set = build_set();
    assert_eq!(
        set.word_list().clone(),
        strings(&["100", "200", "300", "ave", "blvd", "main", "mlk", "street"])
    );
}
