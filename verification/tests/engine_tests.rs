use anagramdr::codec::SearchType;
use anagramdr::index::{AddWordError, Index, SearchError, MAX_MATCHABLE_WORDS};
use anagramdr::search::MAX_QUERY_LETTERS;
use anagramdr::tags::{Morph, PosMorph, PosTag};

fn no_morph() -> Morph {
    Morph { gender: None, number: None, person: None }
}

fn two_word_index() -> Index {
    let mut index = Index::new();
    index.add_word("bien", PosTag::ADV, vec![no_morph()]).unwrap();
    index.add_word("jour", PosTag::NOUN, vec![no_morph()]).unwrap();
    index
}

#[test]
fn add_word_rejects_unsupported_characters() {
    let mut index = Index::new();
    assert_eq!(
        index.add_word("b1en", PosTag::NOUN, vec![]),
        Err(AddWordError::UnsupportedChar)
    );
}

#[test]
fn add_word_rejects_words_out_of_length_order() {
    let mut index = Index::new();
    index.add_word("jour", PosTag::NOUN, vec![]).unwrap();
    assert_eq!(index.add_word("a", PosTag::DET, vec![]), Err(AddWordError::OutOfOrder));
}

#[test]
fn process_input_is_case_insensitive() {
    let index = Index::new();
    assert_eq!(index.process_input("BIEN"), index.process_input("bien"));
    assert_eq!(index.process_input("Caf\u{c9} au lait!"), index.process_input("caf\u{e9}aulait"));
}

#[test]
fn two_word_query_returns_one_combined_expression() {
    // a vocabulary of exactly "bien" and "jour", queried with "bienjour"
    // under EXACT mode: exactly one complete candidate, both words in some
    // order, with a finite score rather than the single-word sentinel
    let index = two_word_index();
    let result = index
        .find_anagrams_reverse("bienjour", SearchType::EXACT, "")
        .unwrap();
    assert!(!result.was_truncated);
    assert_eq!(result.anagrams.len(), 1);
    let (text, score) = &result.anagrams[0];
    assert!(text == "bien jour" || text == "jour bien");
    assert!(*score < u128::MAX);
}

#[test]
fn single_word_query_returns_that_word_with_maximum_score() {
    // a single-word input matching exactly one vocabulary word floats to the
    // top with the maximum representable score, under EXACT mode
    let index = two_word_index();
    let result = index.find_anagrams_reverse("bien", SearchType::EXACT, "").unwrap();
    assert_eq!(result.anagrams.len(), 1);
    assert_eq!(result.anagrams[0].0, "bien");
    assert_eq!(result.anagrams[0].1, u128::MAX);
}

#[test]
fn adjacency_statistics_pick_the_word_order() {
    // with one observed adjacency "bien jour", that ordering must win over
    // "jour bien"; the normalized score is the square root of the count,
    // scaled by a thousand and divided by the squared word count times the
    // two-short-words penalty: 1000 * 1000 / (4 * 5196)
    let mut index = two_word_index();
    let first = PosMorph { pos: PosTag::ADV, morph: no_morph() };
    let second = PosMorph { pos: PosTag::NOUN, morph: no_morph() };
    index.add_adjacency(first, second, 1_000_000);
    let result = index
        .find_anagrams_reverse("bienjour", SearchType::EXACT, "")
        .unwrap();
    assert_eq!(result.anagrams.len(), 1);
    assert_eq!(result.anagrams[0].0, "bien jour");
    assert_eq!(result.anagrams[0].1, 1_000_000u128 / (4 * 5196));
}

#[test]
fn results_are_sorted_by_descending_score() {
    let mut index = Index::new();
    index.add_word("bien", PosTag::ADV, vec![no_morph()]).unwrap();
    index.add_word("jour", PosTag::NOUN, vec![no_morph()]).unwrap();
    index.add_word("bienjour", PosTag::NOUN, vec![no_morph()]).unwrap();
    let result = index
        .find_anagrams_reverse("bienjour", SearchType::EXACT, "")
        .unwrap();
    assert_eq!(result.anagrams.len(), 2);
    for pair in result.anagrams.windows(2) {
        assert!(pair[0].1 >= pair[1].1);
    }
    // the single-word match carries the sentinel score and comes first
    assert_eq!(result.anagrams[0].0, "bienjour");
    assert_eq!(result.anagrams[0].1, u128::MAX);
}

#[test]
fn query_over_the_letter_cap_is_rejected() {
    let index = two_word_index();
    let long_input = "abcdefghijklmnopqrstuvwxyz";
    assert_eq!(long_input.chars().count(), MAX_QUERY_LETTERS + 1);
    let result = index.find_anagrams_reverse(long_input, SearchType::ROOT, "");
    match result {
        Err(e) => assert_eq!(
            e,
            SearchError::TooManyLetters { letters: 26, maximum: MAX_QUERY_LETTERS }
        ),
        Ok(_) => panic!("an over-long query must be rejected"),
    }
}

#[test]
fn mandatory_word_anchors_every_expression() {
    let index = two_word_index();
    let result = index
        .find_anagrams_reverse("bienjour", SearchType::EXACT, "jour")
        .unwrap();
    assert!(!result.was_truncated);
    assert_eq!(result.anagrams.len(), 1);
    let (text, _) = &result.anagrams[0];
    assert!(text == "bien jour" || text == "jour bien");
}

#[test]
fn absent_mandatory_word_is_reported() {
    let index = two_word_index();
    let result = index.find_anagrams_reverse("bienjour", SearchType::EXACT, "nuit");
    match result {
        Err(e) => assert_eq!(e, SearchError::MandatoryWordNotFound),
        Ok(_) => panic!("an absent mandatory word must be reported"),
    }
}

#[test]
fn truncation_flag_follows_the_matchable_word_cap() {
    // more letter-compatible words than the cap: the selection is cut to the
    // cap, the longest words all survive, and the flag reports truncation;
    // at or below the cap the flag stays false
    let mut index = Index::new();
    for _ in 0..(MAX_MATCHABLE_WORDS + 1) {
        index.add_word("a", PosTag::DET, vec![]).unwrap();
    }
    for _ in 0..10 {
        index.add_word("aa", PosTag::NOUN, vec![]).unwrap();
    }
    let query = index.process_input("aa");
    let (selected, truncated) = index
        .get_matchable_words(&query, SearchType::EXACT, &[])
        .unwrap();
    assert!(truncated);
    assert_eq!(selected.len(), MAX_MATCHABLE_WORDS);
    // the ten longest words ("aa") all survive truncation
    for w in (MAX_MATCHABLE_WORDS + 1)..(MAX_MATCHABLE_WORDS + 1 + 10) {
        assert!(selected.contains(&w));
    }
    let small_index = two_word_index();
    let small_query = small_index.process_input("bienjour");
    let (_, small_truncated) = small_index
        .get_matchable_words(&small_query, SearchType::EXACT, &[])
        .unwrap();
    assert!(!small_truncated);
}

#[test]
fn mandatory_word_without_letters_is_treated_as_absent() {
    // a mandatory word with no supported letter can anchor nothing: the
    // query runs as if none had been given
    let index = two_word_index();
    let result = index.find_anagrams_reverse("bienjour", SearchType::EXACT, "123!").unwrap();
    assert!(!result.was_truncated);
    assert_eq!(result.anagrams.len(), 1);
}

#[test]
fn every_exactly_matching_word_is_returned() {
    // completeness on concrete values: each word whose letters are exactly
    // the query's letters appears with the sentinel score
    let mut index = Index::new();
    index.add_word("niche", PosTag::NOUN, vec![no_morph()]).unwrap();
    index.add_word("chien", PosTag::NOUN, vec![no_morph()]).unwrap();
    index.add_word("chine", PosTag::PROPN, vec![no_morph()]).unwrap();
    let result = index.find_anagrams_reverse("chien", SearchType::EXACT, "").unwrap();
    let texts: Vec<&str> = result.anagrams.iter().map(|e| e.0.as_str()).collect();
    assert!(texts.contains(&"niche"));
    assert!(texts.contains(&"chien"));
    assert!(texts.contains(&"chine"));
    for entry in &result.anagrams {
        assert_eq!(entry.1, u128::MAX);
    }
}

#[test]
fn root_mode_matches_across_diacritics() {
    let mut index = Index::new();
    index.add_word("caf\u{e9}", PosTag::NOUN, vec![no_morph()]).unwrap();
    let exact = index.find_anagrams_reverse("cafe", SearchType::EXACT, "").unwrap();
    assert_eq!(exact.anagrams.len(), 0);
    let root = index.find_anagrams_reverse("cafe", SearchType::ROOT, "").unwrap();
    assert_eq!(root.anagrams.len(), 1);
    assert_eq!(root.anagrams[0].0, "caf\u{e9}");
}
