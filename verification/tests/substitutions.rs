use mvtr::languages::substitution_dict;
use mvtr::substitutions::{apply_subs, permute_road, sanitize, SubstitutionDict};

#[test]
fn test_permute_road() {
    let road = "fremont avenue north";
    let permutations = permute_road(road, "en");
    assert_eq!(permutations.len(), 27);
}

#[test]
fn test_permute_road_cat() {
    let road = "carrer de villarroel";
    let permutations = permute_road(road, "ca");
    assert_eq!(permutations.len(), 4);
}

#[test]
fn permutations_keep_the_order_of_the_substitutes() {
    let permutations = permute_road("carrer de villarroel", "ca");
    assert_eq!(
        permutations,
        vec![
            "carrer de villarroel".to_string(),
            "carrer de villarroel".to_string(),
            "c de villarroel".to_string(),
            "c/ de villarroel".to_string(),
        ]
    );
}

#[test]
fn unknown_language_substitutes_nothing() {
    assert_eq!(permute_road("fremont avenue north", "xx"), vec!["fremont avenue north".to_string()]);
    assert!(substitution_dict("xx").subs.is_empty());
}

#[test]
fn empty_road_has_one_empty_spelling() {
    assert_eq!(permute_road("", "en"), vec![String::new()]);
    assert_eq!(permute_road(" \t ", "en"), vec![String::new()]);
}

#[test]
fn sanitize_transliterates_to_ascii() {
    assert_eq!(sanitize("Märkische Straße"), "markische strasse");
    assert_eq!(sanitize("北京"), "bei jing");
}

#[test]
fn sanitize_lowers_and_joins_blanks() {
    assert_eq!(sanitize("Fremont  \t\r\n Avenue"), "fremont avenue");
    assert_eq!(sanitize("A\u{c}B"), "a\u{c}b");
}

#[test]
fn tokens_split_on_every_ascii_blank() {
    assert_eq!(permute_road("a\u{c}b", "xx"), vec!["a b".to_string()]);
}

#[test]
fn dictionary_lines_merge() {
    let dict = SubstitutionDict::from_str("a|b\nb|c\r\n\nlast");
    let sub = |token: &str| dict.substitute(token);
    assert_eq!(sub("a"), vec!["a", "a", "b"]);
    assert_eq!(sub("b"), vec!["b", "a", "b", "c"]);
    assert_eq!(sub("c"), vec!["c", "b", "c"]);
    assert_eq!(sub(""), vec!["", ""]);
    assert_eq!(sub("last"), vec!["last", "last"]);
    assert_eq!(sub("other"), vec!["other"]);
    assert_eq!(dict.subs.len(), 5);
}

#[test]
fn dictionary_keeps_a_lone_carriage_return() {
    let dict = SubstitutionDict::from_str("x|y\r");
    assert_eq!(dict.substitute("x"), vec!["x", "x", "y\r"]);
}

#[test]
fn empty_dictionary_substitutes_the_token_alone() {
    assert!(SubstitutionDict::empty().subs.is_empty());
    assert_eq!(SubstitutionDict::empty().substitute("road"), vec!["road"]);
    assert!(SubstitutionDict::from_str("").subs.is_empty());
}

#[test]
fn apply_subs_spells_out_every_choice() {
    let dict = SubstitutionDict::from_str("st|street\nn|north");
    let remaining = vec!["n".to_string(), "main".to_string(), "st".to_string()];
    let found = apply_subs(&["1".to_string()], &remaining, &dict);
    assert_eq!(
        found,
        vec![
            "1 n main st", "1 n main st", "1 n main street",
            "1 n main st", "1 n main st", "1 n main street",
            "1 north main st", "1 north main st", "1 north main street",
        ]
    );
    assert_eq!(apply_subs(&[], &[], &dict), vec![String::new()]);
}
