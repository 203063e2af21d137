use mvtr::index::{all_subsequences, counts_key, indexes_tag, stemmer_language, StemmerLanguage};
use mvtr::poi::prefix_strings;
use mvtr::text::{ascii_lower, split_on, string_of, to_chars, words};

#[test]
fn all_subsequences_lists_every_run() {
    let tokens: Vec<String> = vec!["a".to_string(), "b".to_string(), "c".to_string()];
    assert_eq!(
        all_subsequences(&tokens),
        vec![
            vec!["a"],
            vec!["a", "b"],
            vec!["a", "b", "c"],
            vec!["b"],
            vec!["b", "c"],
            vec!["c"],
        ]
    );
    assert!(all_subsequences(&[]).is_empty());
}

#[test]
fn prefix_strings_puts_the_prefix_first() {
    assert_eq!(
        prefix_strings("name", vec!["x".to_string(), String::new()]),
        vec!["name=x", "name="]
    );
    assert_eq!(prefix_strings("", vec!["y".to_string()]), vec!["=y"]);
    assert!(prefix_strings("k", vec![]).is_empty());
}

#[test]
fn splitting_keeps_empty_parts() {
    assert_eq!(split_on(&to_chars("a||b|"), '|'), vec!["a", "", "b", ""]);
    assert_eq!(split_on(&to_chars(""), '|'), vec![""]);
}

#[test]
fn words_are_runs_without_blanks() {
    assert_eq!(words(&to_chars("  ab\tc\n\r\u{c}d ")), vec!["ab", "c", "d"]);
    assert!(words(&to_chars(" \t")).is_empty());
}

#[test]
fn lower_case_touches_ascii_capitals_only() {
    assert_eq!(ascii_lower("AbZ[@É"), to_chars("abz[@É"));
    assert_eq!(string_of(&to_chars("hello"), 1, 3), "el");
}

#[test]
fn tags_with_letters_are_indexed() {
    assert!(indexes_tag("amenity", "cafe"));
    assert!(indexes_tag("addr:housenumber", "4b"));
    assert!(!indexes_tag("amenity", "42"));
    assert!(!indexes_tag("AMENITY", "cafe"));
    assert!(!indexes_tag("", ""));
}

#[test]
fn names_and_addresses_are_counted() {
    assert!(counts_key("name"));
    assert!(counts_key("old_name:en"));
    assert!(counts_key("addr:street"));
    assert!(!counts_key("addr"));
    assert!(!counts_key("amenity"));
    assert!(!counts_key(""));
}

fn samples() -> Vec<String> {
    let alphabet = ['a', 'B', ';', '|', ' ', '\t', '\n', '\r', '\u{c}', 'é', ':'];
    let mut found = vec![String::new()];
    let mut seed: u64 = 7;
    for _ in 0..400 {
        seed = seed.wrapping_mul(6_364_136_223_846_793_005).wrapping_add(1_442_695_040_888_963_407);
        let len = (seed >> 60) as usize;
        let mut text = String::new();
        let mut bits = seed;
        for _ in 0..len {
            text.push(alphabet[(bits % alphabet.len() as u64) as usize]);
            bits /= alphabet.len() as u64;
        }
        found.push(text);
    }
    found
}

#[test]
fn splitting_agrees_with_the_standard_library() {
    for text in samples() {
        let parts: Vec<String> = text.split('|').map(|part| part.to_string()).collect();
        assert_eq!(split_on(&to_chars(&text), '|'), parts);
        let found: Vec<String> = text.split_ascii_whitespace().map(|part| part.to_string()).collect();
        assert_eq!(words(&to_chars(&text)), found);
    }
}

#[test]
fn lower_case_agrees_with_the_standard_library() {
    for text in samples() {
        let lower: String = ascii_lower(&text).into_iter().collect();
        assert_eq!(lower, text.to_ascii_lowercase());
        if text.is_ascii() {
            assert_eq!(lower, text.to_lowercase());
        }
    }
}

#[test]
fn lines_agree_with_the_standard_library() {
    for text in samples() {
        let expected: Vec<String> = text.lines().map(|line| line.to_string()).collect();
        assert_eq!(mvtr::substitutions::lines(&text), expected);
    }
}

#[test]
fn tokens_agree_with_the_standard_library() {
    let list = samples();
    for (place, text) in list.iter().enumerate() {
        let token = &list[(place * 7 + 3) % list.len()];
        let expected = text.split(';').any(|part| part == token);
        assert_eq!(mvtr::costing::has_token(&to_chars(text), &to_chars(token)), expected);
        let short: String = text.chars().skip(1).take(2).collect();
        assert_eq!(
            mvtr::costing::has_token(&to_chars(text), &to_chars(&short)),
            text.split(';').any(|part| part == short)
        );
        assert_eq!(
            mvtr::poi::contains_text(&to_chars(text), &to_chars(&short)),
            text.contains(&short)
        );
    }
}

#[test]
fn joining_agrees_with_the_standard_library() {
    let list = samples();
    for window in list.chunks(3) {
        assert_eq!(mvtr::substitutions::join_words(window), window.join(" "));
    }
    assert_eq!(mvtr::substitutions::join_words(&[]), "");
}

#[test]
fn stemmers_are_chosen_by_language_code() {
    assert_eq!(stemmer_language("en"), Some(StemmerLanguage::English));
    assert_eq!(stemmer_language("ar"), Some(StemmerLanguage::Arabic));
    assert_eq!(stemmer_language("tr"), Some(StemmerLanguage::Turkish));
    assert_eq!(stemmer_language("no"), Some(StemmerLanguage::Norwegian));
    assert_eq!(stemmer_language("ca"), None);
    assert_eq!(stemmer_language("EN"), None);
    assert_eq!(stemmer_language(""), None);
}
