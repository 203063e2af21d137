//! The dictionaries of street types that are built in, by language.

use crate::substitutions::SubstitutionDict;
use vstd::prelude::*;

verus! {

/// Street types and compass points in English, with their abbreviations.
pub const ENGLISH_STREET_TYPES: &'static str = "\
    alley|aly|ally\n\
    avenue|av|ave|aven|avenu|avn|avnue|avs\n\
    boulevard|blvd|boul|boulv\n\
    circle|cir|circ|crcl\n\
    court|ct|crt\n\
    drive|dr|drv|driv\n\
    expressway|expy|expwy|expr\n\
    freeway|fwy|frwy\n\
    highway|hwy|hiwy|hway\n\
    lane|ln\n\
    parkway|pkwy|pky|pkway\n\
    place|pl\n\
    road|rd\n\
    square|sq|sqr\n\
    street|st|str|strt\n\
    terrace|ter|terr\n\
    trail|trl\n\
    way|wy\n\
    north|n\n\
    south|s\n\
    east|e\n\
    west|w\n\
    northeast|ne\n\
    northwest|nw\n\
    southeast|se\n\
    southwest|sw\n\
    ";

/// Street types in Catalan, with their abbreviations.
pub const CATALAN_STREET_TYPES: &'static str = "\
    avinguda|av|avda\n\
    carrer|c|c/\n\
    carretera|ctra\n\
    passeig|pg\n\
    passatge|ptge\n\
    placa|pl\n\
    rambla|rbla\n\
    ronda|rda\n\
    travessera|trav\n\
    ";

/// The text of the dictionary built in for the language with the ISO 639
/// code `iso_639_code`: the empty text where none is built in.
pub open spec fn dictionary_text(iso_639_code: Seq<char>) -> Seq<char> {
    if iso_639_code == "en"@ {
        ENGLISH_STREET_TYPES@
    } else if iso_639_code == "ca"@ {
        CATALAN_STREET_TYPES@
    } else {
        Seq::empty()
    }
}

/// The text of the dictionary built in for a language.
pub fn substitution_text(iso_639_code: &str) -> (text: &'static str)
    ensures
        text@ == dictionary_text(iso_639_code@),
{
    let code = iso_639_code.to_owned();
    if code == "en".to_owned() {
        ENGLISH_STREET_TYPES
    } else if code == "ca".to_owned() {
        CATALAN_STREET_TYPES
    } else {
        proof {
            reveal_strlit("");
        }
        ""
    }
}

/// The dictionary built in for a language: the empty dictionary where none
/// is built in.
pub fn substitution_dict(iso_639_code: &str) -> (dict: SubstitutionDict)
    ensures
        dict@ == crate::substitutions::dictionary_of(
            crate::substitutions::lines_of(dictionary_text(iso_639_code@)),
            crate::substitutions::lines_of(dictionary_text(iso_639_code@)).len() as int,
        ),
{
    SubstitutionDict::from_str(substitution_text(iso_639_code))
}

} // verus!
