use anagramdr::codec::{char_to_u8, str_to_u8, SearchType};
use anagramdr::index::Index;
use anagramdr::letters::encoded_letters_to_bloom_u32;

fn str_to_sorted_encoded(input: &str) -> Vec<u8> {
    let mut encoded = str_to_u8(input);
    encoded.sort();
    encoded
}

#[test]
fn encoded_comparison() {
    assert_eq!(
        Index::check_contains_all_letters(
            &str_to_sorted_encoded("efforça"),
            &str_to_sorted_encoded("efforça"),
            SearchType::EXACT
        ),
        true
    );
    assert_eq!(
        Index::check_contains_all_letters(
            &str_to_sorted_encoded("abcdefg"),
            &str_to_sorted_encoded("efg"),
            SearchType::EXACT
        ),
        true
    );
    assert_eq!(
        Index::check_contains_all_letters(
            &str_to_sorted_encoded("abcdefg"),
            &str_to_sorted_encoded("abc"),
            SearchType::EXACT
        ),
        true
    );
    assert_eq!(
        Index::check_contains_all_letters(
            &str_to_sorted_encoded("abcdefg"),
            &str_to_sorted_encoded("abh"),
            SearchType::EXACT
        ),
        false
    );
    assert_eq!(
        Index::check_contains_all_letters(
            &str_to_sorted_encoded("efforça"),
            &str_to_sorted_encoded("efforça"),
            SearchType::ROOT
        ),
        true
    );
    assert_eq!(
        Index::check_contains_all_letters(
            &str_to_sorted_encoded("efforca"),
            &str_to_sorted_encoded("efforça"),
            SearchType::ROOT
        ),
        true
    );
    assert_eq!(
        Index::check_contains_all_letters(
            &str_to_sorted_encoded("efforca"),
            &str_to_sorted_encoded("efforça"),
            SearchType::EXACT
        ),
        false
    );
}

#[test]
fn encoded_comparison_new_vec() {
    assert_eq!(
        Index::new_vec_removed_letters(
            &str_to_sorted_encoded("efforça"),
            &str_to_sorted_encoded("efforç"),
            SearchType::EXACT
        ),
        [0]
    );
    let missing = char_to_u8('ç');
    assert_eq!(
        Index::new_vec_removed_letters(
            &str_to_sorted_encoded("efforça"),
            &str_to_sorted_encoded("effora"),
            SearchType::EXACT
        ),
        [missing]
    );
}

#[test]
fn bloom_filter_test() {
    let bloom1 = encoded_letters_to_bloom_u32(&str_to_sorted_encoded("abcdef"));
    assert_eq!(bloom1, (2 as u32).pow(6) - 1);
    let bloom2 = encoded_letters_to_bloom_u32(&str_to_sorted_encoded("abcdef"));
    assert!((bloom1 & bloom2) == bloom1);
    let bloom2 = encoded_letters_to_bloom_u32(&str_to_sorted_encoded("bonjou"));
    assert!((bloom1 & bloom2) != bloom2);
    let bloom1 = encoded_letters_to_bloom_u32(&str_to_sorted_encoded("bonjouuuuu"));
    assert!((bloom1 & bloom2) == bloom2);

    let bloom1 = encoded_letters_to_bloom_u32(&str_to_sorted_encoded("deéélsu"));
    let bloom2 = encoded_letters_to_bloom_u32(&str_to_sorted_encoded("deelqsu"));
    assert!((bloom1 & bloom2) != bloom2);
}

#[test]
fn main_encoded_comparison() {
    assert_eq!(
        Index::check_contains_all_letters(
            &str_to_sorted_encoded("efforça"),
            &str_to_sorted_encoded("efforça"),
            SearchType::EXACT
        ),
        true
    );
    assert_eq!(
        Index::check_contains_all_letters(
            &str_to_sorted_encoded("abcdefg"),
            &str_to_sorted_encoded("efg"),
            SearchType::EXACT
        ),
        true
    );
    assert_eq!(
        Index::check_contains_all_letters(
            &str_to_sorted_encoded("abcdefg"),
            &str_to_sorted_encoded("abc"),
            SearchType::EXACT
        ),
        true
    );
    assert_eq!(
        Index::check_contains_all_letters(
            &str_to_sorted_encoded("abcdefg"),
            &str_to_sorted_encoded("abh"),
            SearchType::EXACT
        ),
        false
    );
    assert_eq!(
        Index::check_contains_all_letters(
            &str_to_sorted_encoded("efforça"),
            &str_to_sorted_encoded("efforça"),
            SearchType::ROOT
        ),
        true
    );
    assert_eq!(
        Index::check_contains_all_letters(
            &str_to_sorted_encoded("efforca"),
            &str_to_sorted_encoded("efforça"),
            SearchType::ROOT
        ),
        true
    );
    assert_eq!(
        Index::check_contains_all_letters(
            &str_to_sorted_encoded("efforca"),
            &str_to_sorted_encoded("efforça"),
            SearchType::EXACT
        ),
        false
    );
}

#[test]
fn main_encoded_comparison_new_vec() {
    assert_eq!(
        Index::new_vec_removed_letters(
            &str_to_sorted_encoded("efforça"),
            &str_to_sorted_encoded("efforç"),
            SearchType::EXACT
        ),
        [0]
    );
    let missing = char_to_u8('ç');
    assert_eq!(
        Index::new_vec_removed_letters(
            &str_to_sorted_encoded("efforça"),
            &str_to_sorted_encoded("effora"),
            SearchType::EXACT
        ),
        [missing]
    );
}

#[test]
fn main_bloom_filter_test() {
    let bloom1 = encoded_letters_to_bloom_u32(&str_to_sorted_encoded("abcdef"));
    assert_eq!(bloom1, (2 as u32).pow(6) - 1);
    let bloom2 = encoded_letters_to_bloom_u32(&str_to_sorted_encoded("abcdef"));
    assert!((bloom1 & bloom2) == bloom1);
    let bloom2 = encoded_letters_to_bloom_u32(&str_to_sorted_encoded("bonjou"));
    assert!((bloom1 & bloom2) != bloom2);
    let bloom1 = encoded_letters_to_bloom_u32(&str_to_sorted_encoded("bonjouuuuu"));
    assert!((bloom1 & bloom2) == bloom2);

    let bloom1 = encoded_letters_to_bloom_u32(&str_to_sorted_encoded("deéélsu"));
    let bloom2 = encoded_letters_to_bloom_u32(&str_to_sorted_encoded("deelqsu"));
    assert!((bloom1 & bloom2) != bloom2);
}

#[test]
fn complement_conserves_letters_under_root() {
    // the complement plus the consumed letters holds exactly the pool's
    // letters again, comparing base letters only
    let pool = str_to_sorted_encoded("caf\u{e9}s");
    let query = str_to_sorted_encoded("cafe");
    assert!(Index::check_contains_all_letters(&pool, &query, SearchType::ROOT));
    let rest = Index::new_vec_removed_letters(&pool, &query, SearchType::ROOT);
    assert_eq!(rest.len(), pool.len() - query.len());
    let mut reunion: Vec<u8> = rest.clone();
    reunion.extend_from_slice(&query);
    let mask = |v: &Vec<u8>| {
        let mut m: Vec<u8> = v.iter().map(|b| b & 0b11111000).collect();
        m.sort();
        m
    };
    let mut masked_pool = mask(&pool);
    masked_pool.sort();
    assert_eq!(mask(&reunion), masked_pool);
}

#[test]
fn exact_containment_implies_root_containment() {
    let pool = str_to_sorted_encoded("abcdefg");
    let query = str_to_sorted_encoded("bdf");
    assert!(Index::check_contains_all_letters(&pool, &query, SearchType::EXACT));
    assert!(Index::check_contains_all_letters(&pool, &query, SearchType::ROOT));
}

#[test]
fn longer_query_is_never_contained() {
    let pool = str_to_sorted_encoded("abc");
    let query = str_to_sorted_encoded("abcd");
    assert!(!Index::check_contains_all_letters(&pool, &query, SearchType::EXACT));
    assert!(!Index::check_contains_all_letters(&pool, &query, SearchType::ROOT));
}
