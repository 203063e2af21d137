//! Phrases of a query: the runs of its words.

use crate::patterns::{compile, is_match, pattern_compiles, pattern_matches};
use crate::poi::{contains_text, holds_text};
use crate::text::{to_chars, views};
use vstd::prelude::*;

verus! {

/// The runs of words that begin at the place `from` and end before `upto`,
/// the shorter first.
pub open spec fn runs_from(tokens: Seq<Seq<char>>, from: int, upto: int) -> Seq<Seq<Seq<char>>>
    decreases upto - from,
{
    if upto <= from {
        Seq::empty()
    } else {
        runs_from(tokens, from, upto - 1).push(tokens.subrange(from, upto))
    }
}

/// The runs of words that begin before the place `upto`: those that begin
/// at the first word, then those that begin at the second, and so on.
pub open spec fn runs(tokens: Seq<Seq<char>>, upto: int) -> Seq<Seq<Seq<char>>>
    decreases upto,
{
    if upto <= 0 {
        Seq::empty()
    } else {
        runs(tokens, upto - 1) + runs_from(tokens, upto - 1, tokens.len() as int)
    }
}

/// The views of the lists of strings, in order.
pub open spec fn list_views(lists: Seq<Vec<String>>) -> Seq<Seq<Seq<char>>> {
    Seq::new(lists.len(), |i: int| views(lists[i]@))
}

/// Every run of one or more words of `tokens` that follow one another:
/// those that begin at the first word, the shorter first, then those that
/// begin at the second, and so on.
pub fn all_subsequences(tokens: &[String]) -> (subsequences: Vec<Vec<String>>)
    ensures
        list_views(subsequences@) == runs(views(tokens@), tokens@.len() as int),
{
    let mut subsequences: Vec<Vec<String>> = Vec::new();
    let ghost words = views(tokens@);
    let mut i: usize = 0;
    proof {
        assert(list_views(subsequences@) =~= Seq::empty());
    }
    while i < tokens.len()
        invariant
            i <= tokens@.len(),
            words == views(tokens@),
            list_views(subsequences@) == runs(words, i as int),
        decreases tokens@.len() - i,
    {
        let ghost before = list_views(subsequences@);
        let mut run: Vec<String> = Vec::new();
        let mut j: usize = i;
        proof {
            assert(before + runs_from(words, i as int, i as int) =~= before);
        }
        while j < tokens.len()
            invariant
                i <= j <= tokens@.len(),
                words == views(tokens@),
                views(run@) == words.subrange(i as int, j as int),
                list_views(subsequences@) == before + runs_from(words, i as int, j as int),
            decreases tokens@.len() - j,
        {
            let word = tokens[j].clone();
            proof {
                assert(words[j as int] == tokens@[j as int]@);
                assert(views(run@.push(word)) =~= views(run@).push(word@));
                assert(words.subrange(i as int, j as int).push(word@) =~= words.subrange(
                    i as int,
                    j + 1,
                ));
            }
            run.push(word);
            let mut copy: Vec<String> = Vec::new();
            let mut c: usize = 0;
            while c < run.len()
                invariant
                    c <= run@.len(),
                    copy@.len() == c,
                    forall|k: int| 0 <= k < c ==> (#[trigger] copy@[k])@ == run@[k]@,
                decreases run@.len() - c,
            {
                copy.push(run[c].clone());
                c += 1;
            }
            proof {
                assert(views(copy@) =~= views(run@));
                assert(list_views(subsequences@.push(copy)) =~= list_views(subsequences@).push(
                    views(copy@),
                ));
                assert((before + runs_from(words, i as int, j as int)).push(
                    words.subrange(i as int, j + 1),
                ) =~= before + runs_from(words, i as int, j + 1));
            }
            subsequences.push(copy);
            j += 1;
        }
        i += 1;
    }
    subsequences
}

/// The pattern of a run of lower-case letters.
pub const LETTERS: &'static str = "[a-z]+";

/// A tag is indexed as text where its key and its value both hold a
/// lower-case letter.
pub open spec fn is_indexed_tag(key: Seq<char>, value: Seq<char>) -> bool {
    pattern_compiles(LETTERS@) && pattern_matches(LETTERS@, key) && pattern_matches(
        LETTERS@,
        value,
    )
}

/// Whether a tag is indexed as text.
pub fn indexes_tag(key: &str, value: &str) -> (indexed: bool)
    ensures
        indexed == is_indexed_tag(key@, value@),
{
    match compile(LETTERS) {
        Some(letters) => is_match(&letters, key) && is_match(&letters, value),
        None => false,
    }
}

/// The values of a tag are counted in the token bitmaps where its key holds
/// `name` or `addr:`.
pub open spec fn is_counted_key(key: Seq<char>) -> bool {
    holds_text(key, "name"@) || holds_text(key, "addr:"@)
}

/// Whether the values of a tag are counted in the token bitmaps.
pub fn counts_key(key: &str) -> (counted: bool)
    ensures
        counted == is_counted_key(key@),
{
    let key_chars = to_chars(key);
    let name = to_chars("name");
    let address = to_chars("addr:");
    contains_text(&key_chars, &name) || contains_text(&key_chars, &address)
}

/// A language for which words are reduced to their stems.
#[derive(Debug, Clone, Copy, PartialEq, Eq, Structural)]
pub enum StemmerLanguage {
    Arabic,
    Danish,
    Dutch,
    English,
    Finnish,
    French,
    German,
    Greek,
    Hungarian,
    Italian,
    Norwegian,
    Portuguese,
    Romanian,
    Russian,
    Spanish,
    Swedish,
    Tamil,
    Turkish,
}

/// The language of the stemmer for the language with the ISO 639 code
/// `lang`: `None` where words are indexed as they are.
pub open spec fn stemmer_of(lang: Seq<char>) -> Option<StemmerLanguage> {
    if lang == "ar"@ {
        Some(StemmerLanguage::Arabic)
    } else if lang == "da"@ {
        Some(StemmerLanguage::Danish)
    } else if lang == "nl"@ {
        Some(StemmerLanguage::Dutch)
    } else if lang == "en"@ {
        Some(StemmerLanguage::English)
    } else if lang == "fi"@ {
        Some(StemmerLanguage::Finnish)
    } else if lang == "fr"@ {
        Some(StemmerLanguage::French)
    } else if lang == "de"@ {
        Some(StemmerLanguage::German)
    } else if lang == "el"@ {
        Some(StemmerLanguage::Greek)
    } else if lang == "hu"@ {
        Some(StemmerLanguage::Hungarian)
    } else if lang == "it"@ {
        Some(StemmerLanguage::Italian)
    } else if lang == "no"@ {
        Some(StemmerLanguage::Norwegian)
    } else if lang == "pt"@ {
        Some(StemmerLanguage::Portuguese)
    } else if lang == "ro"@ {
        Some(StemmerLanguage::Romanian)
    } else if lang == "ru"@ {
        Some(StemmerLanguage::Russian)
    } else if lang == "es"@ {
        Some(StemmerLanguage::Spanish)
    } else if lang == "sv"@ {
        Some(StemmerLanguage::Swedish)
    } else if lang == "ta"@ {
        Some(StemmerLanguage::Tamil)
    } else if lang == "tr"@ {
        Some(StemmerLanguage::Turkish)
    } else {
        None
    }
}

/// The language of the stemmer for the language with the ISO 639 code
/// `lang`.
pub fn stemmer_language(lang: &str) -> (language: Option<StemmerLanguage>)
    ensures
        language == stemmer_of(lang@),
{
    let code = lang.to_owned();
    if code == "ar".to_owned() {
        Some(StemmerLanguage::Arabic)
    } else if code == "da".to_owned() {
        Some(StemmerLanguage::Danish)
    } else if code == "nl".to_owned() {
        Some(StemmerLanguage::Dutch)
    } else if code == "en".to_owned() {
        Some(StemmerLanguage::English)
    } else if code == "fi".to_owned() {
        Some(StemmerLanguage::Finnish)
    } else if code == "fr".to_owned() {
        Some(StemmerLanguage::French)
    } else if code == "de".to_owned() {
        Some(StemmerLanguage::German)
    } else if code == "el".to_owned() {
        Some(StemmerLanguage::Greek)
    } else if code == "hu".to_owned() {
        Some(StemmerLanguage::Hungarian)
    } else if code == "it".to_owned() {
        Some(StemmerLanguage::Italian)
    } else if code == "no".to_owned() {
        Some(StemmerLanguage::Norwegian)
    } else if code == "pt".to_owned() {
        Some(StemmerLanguage::Portuguese)
    } else if code == "ro".to_owned() {
        Some(StemmerLanguage::Romanian)
    } else if code == "ru".to_owned() {
        Some(StemmerLanguage::Russian)
    } else if code == "es".to_owned() {
        Some(StemmerLanguage::Spanish)
    } else if code == "sv".to_owned() {
        Some(StemmerLanguage::Swedish)
    } else if code == "ta".to_owned() {
        Some(StemmerLanguage::Tamil)
    } else if code == "tr".to_owned() {
        Some(StemmerLanguage::Turkish)
    } else {
        None
    }
}

} // verus!
