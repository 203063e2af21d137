use mvtr::poi::{cell_parents, contains_text, find_tag, InputPoi, SchemafiedPoi};

fn pairs(list: &[(&str, &str)]) -> Vec<(String, String)> {
    list.iter().map(|(k, v)| (k.to_string(), v.to_string())).collect()
}

fn chars(text: &str) -> Vec<char> {
    text.chars().collect()
}

#[test]
fn cell_parents_run_from_the_face_down() {
    assert_eq!(
        cell_parents(0x5100_0000_0000_0000),
        vec![0x5000_0000_0000_0000, 0x5400_0000_0000_0000]
    );
    assert_eq!(cell_parents(0x5000_0000_0000_0001).len(), 30);
    assert_eq!(cell_parents(0x5000_0000_0000_0001)[29], 0x5000_0000_0000_0004);
    assert!(cell_parents(0x5000_0000_0000_0000).is_empty());
}

#[test]
fn cells_without_a_level_have_no_parents() {
    assert!(cell_parents(0).is_empty());
    assert!(cell_parents(1 << 62).is_empty());
    assert!(cell_parents(1 << 63).is_empty());
}

#[test]
fn contains_text_finds_every_place() {
    assert!(contains_text(&chars("old_name:en"), &chars("name:")));
    assert!(contains_text(&chars("name:"), &chars("name:")));
    assert!(!contains_text(&chars("name"), &chars("name:")));
    assert!(!contains_text(&chars("nam:e"), &chars("name:")));
    assert!(contains_text(&chars("abc"), &chars("")));
    assert!(contains_text(&chars(""), &chars("")));
    assert!(!contains_text(&chars(""), &chars("a")));
    assert!(contains_text(&chars("aab"), &chars("ab")));
}

#[test]
fn find_tag_takes_the_last() {
    let tags = pairs(&[("a", "1"), ("b", "2"), ("a", "3")]);
    assert_eq!(find_tag(&tags, "a"), Some("3".to_string()));
    assert_eq!(find_tag(&tags, "c"), None);
}

#[test]
fn a_point_needs_a_name_or_an_address() {
    assert!(InputPoi::from_tags("en", 5, &pairs(&[("amenity", "cafe")])).is_none());
    assert!(InputPoi::from_tags("en", 5, &pairs(&[("addr:street", "Main St")])).is_none());
    assert!(InputPoi::from_tags("en", 5, &pairs(&[("addr:housenumber", "4")])).is_none());
    assert!(InputPoi::from_tags("en", 5, &pairs(&[("nickname", "x")])).is_none());
    let addressed = InputPoi::from_tags(
        "en",
        5,
        &pairs(&[("addr:housenumber", "400"), ("addr:street", "N 43rd St"), ("addr:unit", "B")]),
    )
    .unwrap();
    assert!(addressed.names.is_empty());
    assert_eq!(addressed.house_number.as_deref(), Some("400"));
    assert_eq!(addressed.road.as_deref(), Some("N 43rd St"));
    assert_eq!(addressed.unit.as_deref(), Some("B"));
    let named = InputPoi::from_tags(
        "ca",
        9,
        &pairs(&[("name", "Lighthouse Roasters"), ("amenity", "cafe"), ("name:es", "Faro")]),
    )
    .unwrap();
    assert_eq!(named.names, vec!["Lighthouse Roasters", "Faro"]);
    assert_eq!(named.house_number, None);
    assert_eq!(named.s2cell, 9);
    assert_eq!(named.languages, vec!["ca"]);
    assert_eq!(named.tags.len(), 3);
    assert!(named.admins.is_empty());
}

#[test]
fn indexed_content_lists_every_spelling() {
    let poi = InputPoi {
        names: vec!["Cafe".to_string()],
        house_number: Some("7".to_string()),
        road: Some("Carrer de Villarroel".to_string()),
        unit: None,
        admins: vec!["Barcelona".to_string()],
        s2cell: 0x5100_0000_0000_0000,
        tags: pairs(&[("cuisine", "coffee;tea"), ("name", "Cafe")]),
        languages: vec!["ca".to_string(), "xx".to_string()],
    };
    let indexed = SchemafiedPoi::from(poi);
    assert_eq!(
        indexed.content,
        vec![
            "=Cafe",
            "=7",
            "=carrer de villarroel",
            "=carrer de villarroel",
            "=c de villarroel",
            "=c/ de villarroel",
            "=carrer de villarroel",
            "=Barcelona",
            "=cuisine=coffee",
            "=cuisine=tea",
            "=name=Cafe",
        ]
    );
    assert_eq!(indexed.s2cell, 0x5100_0000_0000_0000);
    assert_eq!(indexed.s2cell_parents, vec![0x5000_0000_0000_0000, 0x5400_0000_0000_0000]);
    assert_eq!(indexed.tags, pairs(&[("cuisine", "coffee;tea"), ("name", "Cafe")]));
}

#[test]
fn a_point_without_a_road_has_no_spellings() {
    let poi = InputPoi {
        names: vec![],
        house_number: None,
        road: None,
        unit: Some("2".to_string()),
        admins: vec![],
        s2cell: 0,
        tags: vec![],
        languages: vec!["en".to_string()],
    };
    let indexed = SchemafiedPoi::from(poi);
    assert_eq!(indexed.content, vec!["=2"]);
    assert!(indexed.s2cell_parents.is_empty());
}
