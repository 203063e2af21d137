//! Spelling out the ways in which the name of a road may be written: each
//! word of the name may stand as it is or be replaced by one of the words
//! that a dictionary gives for it.

use crate::languages::{dictionary_text, substitution_dict};
use crate::patterns::{all_replaced, compile, pattern_compiles, replace_all};
use crate::text::{
    ascii_lower, joined, lowered, split_from, split_on, string_of, to_chars, views, words,
    words_from,
};
use vstd::prelude::*;
use vstd::string::StringExecFns;

verus! {

/// What `deunicode::deunicode` makes of a text: its transliteration into
/// ASCII.
pub uninterp spec fn deunicoded(text: Seq<char>) -> Seq<char>;

/// `deunicode::deunicode`: the transliteration of `text` into ASCII.
#[verifier::external_body]
fn transliterate(text: &str) -> (ascii: String)
    ensures
        ascii@ == deunicoded(text@),
{
    deunicode::deunicode(text)
}

/// A dictionary of words that may stand for one another. Each entry holds
/// a word and the words that may stand for it.
#[derive(Debug)]
pub struct SubstitutionDict {
    pub subs: Vec<(String, Vec<String>)>,
}

/// An entry of a dictionary, by value.
pub type EntryView = (Seq<char>, Seq<Seq<char>>);

impl View for SubstitutionDict {
    type V = Seq<EntryView>;

    open spec fn view(&self) -> Seq<EntryView> {
        Seq::new(self.subs@.len(), |i: int| (self.subs@[i].0@, views(self.subs@[i].1@)))
    }
}

/// The words that may stand in place of `token`: the token itself, and the
/// words of each entry for it.
pub open spec fn substitutes(entries: Seq<EntryView>, token: Seq<char>) -> Seq<Seq<char>>
    decreases entries.len(),
{
    if entries.len() == 0 {
        seq![token]
    } else if entries.last().0 == token {
        substitutes(entries.drop_last(), token) + entries.last().1
    } else {
        substitutes(entries.drop_last(), token)
    }
}

/// The place of the first entry for `word`.
pub open spec fn entry_place(entries: Seq<EntryView>, word: Seq<char>) -> Option<int> {
    if exists|i: int| 0 <= i < entries.len() && (#[trigger] entries[i]).0 == word {
        Some(
            choose|i: int|
                0 <= i < entries.len() && (#[trigger] entries[i]).0 == word && forall|j: int|
                    0 <= j < i ==> (#[trigger] entries[j]).0 != word,
        )
    } else {
        None
    }
}

/// `known` with those of the first `upto` words of `more` added, in order,
/// that it does not hold yet.
pub open spec fn with_missing(known: Seq<Seq<char>>, more: Seq<Seq<char>>, upto: int) -> Seq<Seq<char>>
    decreases upto,
{
    if upto <= 0 {
        known
    } else {
        let before = with_missing(known, more, upto - 1);
        if before.contains(more[upto - 1]) {
            before
        } else {
            before.push(more[upto - 1])
        }
    }
}

/// The dictionary after the first `upto` words of a line have been entered:
/// a word that has an entry gets the words of the line that the entry lacks;
/// a word without one gets an entry with all the words of the line.
pub open spec fn with_line(entries: Seq<EntryView>, line: Seq<Seq<char>>, upto: int) -> Seq<EntryView>
    decreases upto,
{
    if upto <= 0 {
        entries
    } else {
        let before = with_line(entries, line, upto - 1);
        match entry_place(before, line[upto - 1]) {
            Some(place) => before.update(
                place,
                (before[place].0, with_missing(before[place].1, line, line.len() as int)),
            ),
            None => before.push((line[upto - 1], line)),
        }
    }
}

/// A line without the carriage return at its end, if it has one.
pub open spec fn without_return(line: Seq<char>) -> Seq<char> {
    if line.len() > 0 && line.last() == '\r' {
        line.drop_last()
    } else {
        line
    }
}

/// The lines of a text: the parts between line feeds, each without a
/// carriage return before the line feed; what follows the last line feed is
/// a line unless it is empty.
pub open spec fn lines_of(text: Seq<char>) -> Seq<Seq<char>> {
    let parts = split_from(text, '\n', 0);
    if parts.len() == 0 {
        Seq::empty()
    } else {
        let ended = Seq::new((parts.len() - 1) as nat, |i: int| without_return(parts[i]));
        if parts.last().len() == 0 {
            ended
        } else {
            ended.push(parts.last())
        }
    }
}

/// The dictionary that the first `upto` lines make: the words of a line,
/// divided by `|`, may stand for one another.
pub open spec fn dictionary_of(lines: Seq<Seq<char>>, upto: int) -> Seq<EntryView>
    decreases upto,
{
    if upto <= 0 {
        Seq::empty()
    } else {
        let line = split_from(lines[upto - 1], '|', 0);
        with_line(dictionary_of(lines, upto - 1), line, line.len() as int)
    }
}

/// The lines of a text.
pub fn lines(text: &str) -> (found: Vec<String>)
    ensures
        views(found@) == lines_of(text@),
{
    let chars = to_chars(text);
    let parts = split_on(&chars, '\n');
    let mut found: Vec<String> = Vec::new();
    if parts.len() == 0 {
        proof {
            assert(views(found@) =~= Seq::empty());
        }
        return found;
    }
    let ghost part_views = views(parts@);
    let mut i: usize = 0;
    let ended = parts.len() - 1;
    while i < ended
        invariant
            parts@.len() >= 1,
            ended == parts@.len() - 1,
            i <= ended,
            part_views == views(parts@),
            found@.len() == i,
            forall|j: int| 0 <= j < i ==> (#[trigger] found@[j])@ == without_return(part_views[j]),
        decreases ended - i,
    {
        let line = to_chars(parts[i].as_str());
        let end = if line.len() > 0 && line[line.len() - 1] == '\r' {
            line.len() - 1
        } else {
            line.len()
        };
        let stripped = string_of(&line, 0, end);
        proof {
            assert(part_views[i as int] == parts@[i as int]@);
            assert(stripped@ =~= without_return(part_views[i as int]));
        }
        found.push(stripped);
        i += 1;
    }
    let last = &parts[parts.len() - 1];
    let last_chars = to_chars(last.as_str());
    if last_chars.len() > 0 {
        let kept = string_of(&last_chars, 0, last_chars.len());
        proof {
            assert(kept@ =~= part_views.last());
        }
        found.push(kept);
    }
    proof {
        assert(part_views.last() == parts@[parts@.len() - 1]@);
        assert(views(found@) =~= lines_of(text@));
    }
    found
}

impl SubstitutionDict {
    /// The dictionary without entries.
    pub fn empty() -> (dict: SubstitutionDict)
        ensures
            dict@ == Seq::<EntryView>::empty(),
    {
        let dict = SubstitutionDict { subs: Vec::new() };
        proof {
            assert(dict@ =~= Seq::<EntryView>::empty());
        }
        dict
    }

    /// Reads a dictionary: each line of `contents` holds words that may
    /// stand for one another, divided by `|`.
    pub fn from_str(contents: &str) -> (dict: SubstitutionDict)
        ensures
            dict@ == dictionary_of(lines_of(contents@), lines_of(contents@).len() as int),
    {
        let all_lines = lines(contents);
        let mut dict = SubstitutionDict::empty();
        let mut i: usize = 0;
        while i < all_lines.len()
            invariant
                i <= all_lines@.len(),
                views(all_lines@) == lines_of(contents@),
                dict@ == dictionary_of(lines_of(contents@), i as int),
            decreases all_lines@.len() - i,
        {
            let line_chars = to_chars(all_lines[i].as_str());
            let components = split_on(&line_chars, '|');
            proof {
                assert(lines_of(contents@)[i as int] == all_lines@[i as int]@);
            }
            dict.enter_line(&components);
            i += 1;
        }
        dict
    }

    /// Enters a line of words that may stand for one another.
    pub fn enter_line(&mut self, components: &Vec<String>)
        ensures
            final(self)@ == with_line(old(self)@, views(components@), components@.len() as int),
    {
        let ghost line = views(components@);
        let mut k: usize = 0;
        while k < components.len()
            invariant
                k <= components@.len(),
                line == views(components@),
                self@ == with_line(old(self)@, line, k as int),
            decreases components@.len() - k,
        {
            let ghost before = self@;
            proof {
                assert(line[k as int] == components@[k as int]@);
            }
            match self.find(&components[k]) {
                Some(place) => {
                    let mut c: usize = 0;
                    let ghost known = before[place as int].1;
                    while c < components.len()
                        invariant
                            c <= components@.len(),
                            line == views(components@),
                            place < self.subs@.len(),
                            self@.len() == before.len(),
                            forall|e: int|
                                0 <= e < before.len() && e != place ==> self@[e] == before[e],
                            self@[place as int].0 == before[place as int].0,
                            self@[place as int].1 == with_missing(known, line, c as int),
                        decreases components@.len() - c,
                    {
                        proof {
                            assert(line[c as int] == components@[c as int]@);
                        }
                        if !holds_word(&self.subs[place].1, &components[c]) {
                            let word = components[c].clone();
                            let ghost earlier = self@;
                            self.subs[place].1.push(word);
                            proof {
                                assert(self@[place as int].1 =~= earlier[place as int].1.push(word@));
                                assert forall|e: int|
                                    0 <= e < before.len() && e != place implies self@[e] == before[e] by {
                                    assert(self@[e] == earlier[e]);
                                }
                            }
                        }
                        c += 1;
                    }
                    proof {
                        assert(self@ =~= before.update(
                            place as int,
                            (
                                before[place as int].0,
                                with_missing(before[place as int].1, line, line.len() as int),
                            ),
                        ));
                    }
                },
                None => {
                    let key = components[k].clone();
                    let mut all: Vec<String> = Vec::new();
                    let mut c: usize = 0;
                    while c < components.len()
                        invariant
                            c <= components@.len(),
                            all@.len() == c,
                            forall|j: int| 0 <= j < c ==> (#[trigger] all@[j])@ == components@[j]@,
                        decreases components@.len() - c,
                    {
                        all.push(components[c].clone());
                        c += 1;
                    }
                    proof {
                        assert(views(all@) =~= line);
                    }
                    self.subs.push((key, all));
                    proof {
                        assert(self@ =~= before.push((line[k as int], line)));
                    }
                },
            }
            k += 1;
        }
    }

    /// The place of the first entry for `word`.
    pub fn find(&self, word: &String) -> (place: Option<usize>)
        ensures
            match place {
                Some(found) => entry_place(self@, word@) == Some(found as int) && found
                    < self.subs@.len(),
                None => entry_place(self@, word@) is None,
            },
    {
        let mut i: usize = 0;
        while i < self.subs.len()
            invariant
                i <= self.subs@.len(),
                forall|j: int| 0 <= j < i ==> (#[trigger] self@[j]).0 != word@,
            decreases self.subs@.len() - i,
        {
            if self.subs[i].0 == *word {
                proof {
                    assert(self@[i as int].0 == word@);
                    let found = choose|k: int|
                        0 <= k < self@.len() && (#[trigger] self@[k]).0 == word@ && forall|j: int|
                            0 <= j < k ==> (#[trigger] self@[j]).0 != word@;
                    assert(found == i) by {
                        if found < i {
                            assert(self@[found].0 != word@);
                        }
                        if i < found {
                            assert(self@[i as int].0 != word@);
                        }
                    }
                }
                return Some(i);
            }
            i += 1;
        }
        None
    }

    /// The words that may stand in place of `token`: the token itself, and
    /// the words of each entry for it.
    pub fn substitute(&self, token: &str) -> (substitutions: Vec<String>)
        ensures
            views(substitutions@) == substitutes(self@, token@),
    {
        let wanted = token.to_owned();
        let mut substitutions: Vec<String> = Vec::new();
        substitutions.push(token.to_owned());
        let mut i: usize = 0;
        proof {
            assert(self@.take(0) =~= Seq::empty());
            assert(views(substitutions@) =~= seq![token@]);
        }
        while i < self.subs.len()
            invariant
                i <= self.subs@.len(),
                wanted@ == token@,
                views(substitutions@) == substitutes(self@.take(i as int), token@),
            decreases self.subs@.len() - i,
        {
            proof {
                assert(self@.take(i + 1).drop_last() =~= self@.take(i as int));
                assert(self@.take(i + 1).last() == self@[i as int]);
            }
            if self.subs[i].0 == wanted {
                let ghost earlier = views(substitutions@);
                let mut c: usize = 0;
                while c < self.subs[i].1.len()
                    invariant
                        i < self.subs@.len(),
                        c <= self.subs@[i as int].1@.len(),
                        views(substitutions@) == earlier + views(self.subs@[i as int].1@).take(
                            c as int,
                        ),
                    decreases self.subs@[i as int].1@.len() - c,
                {
                    let word = self.subs[i].1[c].clone();
                    proof {
                        assert(views(substitutions@.push(word)) =~= views(substitutions@).push(
                            word@,
                        ));
                        assert(views(self.subs@[i as int].1@).take(c + 1) =~= views(
                            self.subs@[i as int].1@,
                        ).take(c as int).push(word@));
                        assert(earlier + views(self.subs@[i as int].1@).take(c + 1) =~= (earlier
                            + views(self.subs@[i as int].1@).take(c as int)).push(word@));
                    }
                    substitutions.push(word);
                    c += 1;
                }
                proof {
                    assert(views(self.subs@[i as int].1@).take(c as int) =~= views(
                        self.subs@[i as int].1@,
                    ));
                }
            }
            i += 1;
        }
        proof {
            assert(self@.take(i as int) =~= self@);
        }
        substitutions
    }
}

/// Whether `word` is among `known`.
pub fn holds_word(known: &Vec<String>, word: &String) -> (found: bool)
    ensures
        found == views(known@).contains(word@),
{
    let mut i: usize = 0;
    while i < known.len()
        invariant
            i <= known@.len(),
            forall|j: int| 0 <= j < i ==> (#[trigger] views(known@)[j]) != word@,
        decreases known@.len() - i,
    {
        if known[i] == *word {
            proof {
                assert(views(known@)[i as int] == word@);
            }
            return true;
        }
        i += 1;
    }
    false
}

/// The pattern of a run of blanks.
pub const BLANKS: &'static str = r"[ \t\r\n]+";

/// A text made fit for comparison: transliterated into ASCII, in lower
/// case, each run of blanks replaced by one space.
pub open spec fn sanitized(field: Seq<char>) -> Seq<char> {
    let lower = deunicoded(field).map_values(|c: char| lowered(c));
    if pattern_compiles(BLANKS@) {
        all_replaced(BLANKS@, lower, " "@)
    } else {
        lower
    }
}

/// Makes a text fit for comparison: transliterated into ASCII, in lower
/// case, each run of blanks replaced by one space.
pub fn sanitize(field: &str) -> (clean: String)
    ensures
        clean@ == sanitized(field@),
{
    let ascii = transliterate(field);
    let lower_chars = ascii_lower(ascii.as_str());
    let lower = string_of(&lower_chars, 0, lower_chars.len());
    proof {
        assert(lower@ =~= lower_chars@);
    }
    match compile(BLANKS) {
        Some(blanks) => replace_all(&blanks, lower.as_str(), " "),
        None => lower,
    }
}

/// The strings put together, with a space between each two.
pub fn join_words(parts: &[String]) -> (text: String)
    ensures
        text@ == joined(views(parts@), " "@),
{
    let mut text = String::new();
    let mut i: usize = 0;
    proof {
        assert(views(parts@).take(0) =~= Seq::empty());
    }
    while i < parts.len()
        invariant
            i <= parts@.len(),
            text@ == joined(views(parts@).take(i as int), " "@),
        decreases parts@.len() - i,
    {
        proof {
            assert(views(parts@).take(i + 1).drop_last() =~= views(parts@).take(i as int));
            assert(views(parts@).take(i + 1).last() == parts@[i as int]@);
            reveal_strlit(" ");
        }
        if i > 0 {
            text.append(" ");
        }
        text.append(parts[i].as_str());
        proof {
            if i == 0 {
                assert(text@ =~= parts@[0]@);
                assert(views(parts@).take(1)[0] == parts@[0]@);
            }
        }
        i += 1;
    }
    proof {
        assert(views(parts@).take(i as int) =~= views(parts@));
    }
    text
}

/// The ways of writing the words of `remaining` after the words of
/// `prefix`: each word may stand as it is or be replaced by one of its
/// substitutes; the words are joined by spaces. The ways stand in the order
/// of the substitutes, those of the first word counting most.
pub open spec fn permutations(
    prefix: Seq<Seq<char>>,
    remaining: Seq<Seq<char>>,
    entries: Seq<EntryView>,
) -> Seq<Seq<char>>
    decreases remaining.len(), 0nat,
{
    if remaining.len() == 0 {
        seq![joined(prefix, " "@)]
    } else {
        let subs = substitutes(entries, remaining[0]);
        permutations_over(prefix, remaining.drop_first(), entries, subs, subs.len())
    }
}

/// The ways of writing the words of `rest` after the words of `prefix` and
/// one of the first `upto` words of `subs`.
pub open spec fn permutations_over(
    prefix: Seq<Seq<char>>,
    rest: Seq<Seq<char>>,
    entries: Seq<EntryView>,
    subs: Seq<Seq<char>>,
    upto: nat,
) -> Seq<Seq<char>>
    decreases rest.len(), upto + 1,
{
    if upto == 0 {
        Seq::empty()
    } else {
        permutations_over(prefix, rest, entries, subs, (upto - 1) as nat) + permutations(
            prefix.push(subs[upto - 1]),
            rest,
            entries,
        )
    }
}

/// The ways of writing the words of `remaining` after the words of
/// `prefix`, by the dictionary `dict`.
pub fn apply_subs(prefix: &[String], remaining: &[String], dict: &SubstitutionDict) -> (found: Vec<
    String,
>)
    ensures
        views(found@) == permutations(views(prefix@), views(remaining@), dict@),
    decreases remaining@.len(),
{
    if remaining.len() == 0 {
        let mut found: Vec<String> = Vec::new();
        let text = join_words(prefix);
        found.push(text);
        proof {
            assert(views(found@) =~= seq![text@]);
        }
        return found;
    }
    let mut rest: Vec<String> = Vec::new();
    let mut r: usize = 1;
    while r < remaining.len()
        invariant
            1 <= r <= remaining@.len(),
            rest@.len() == r - 1,
            forall|j: int| 0 <= j < r - 1 ==> (#[trigger] rest@[j])@ == remaining@[j + 1]@,
        decreases remaining@.len() - r,
    {
        rest.push(remaining[r].clone());
        r += 1;
    }
    proof {
        assert(views(rest@) =~= views(remaining@).drop_first());
    }
    let subs = dict.substitute(remaining[0].as_str());
    let mut found: Vec<String> = Vec::new();
    let mut s: usize = 0;
    proof {
        assert(views(remaining@)[0] == remaining@[0]@);
        assert(views(found@) =~= Seq::empty());
    }
    while s < subs.len()
        invariant
            s <= subs@.len(),
            remaining@.len() > 0,
            rest@.len() < remaining@.len(),
            views(rest@) == views(remaining@).drop_first(),
            views(subs@) == substitutes(dict@, views(remaining@)[0]),
            views(found@) == permutations_over(
                views(prefix@),
                views(rest@),
                dict@,
                views(subs@),
                s as nat,
            ),
        decreases subs@.len() - s,
    {
        let mut longer: Vec<String> = Vec::new();
        let mut p: usize = 0;
        while p < prefix.len()
            invariant
                p <= prefix@.len(),
                longer@.len() == p,
                forall|j: int| 0 <= j < p ==> (#[trigger] longer@[j])@ == prefix@[j]@,
            decreases prefix@.len() - p,
        {
            longer.push(prefix[p].clone());
            p += 1;
        }
        longer.push(subs[s].clone());
        proof {
            assert(views(longer@) =~= views(prefix@).push(views(subs@)[s as int]));
        }
        let mut more = apply_subs(longer.as_slice(), rest.as_slice(), dict);
        proof {
            assert(views(found@) + views(more@) =~= permutations_over(
                views(prefix@),
                views(rest@),
                dict@,
                views(subs@),
                (s + 1) as nat,
            ));
        }
        let ghost before = views(found@);
        let ghost added = views(more@);
        found.append(&mut more);
        proof {
            assert(views(found@) =~= before + added);
        }
        s += 1;
    }
    found
}

/// The ways of writing the name of a road in a language: the name is made
/// fit for comparison and divided into words, and each word may stand as it
/// is or be replaced by one of the words that the built-in dictionary of
/// the language gives for it.
pub open spec fn road_spellings(road: Seq<char>, lang_code: Seq<char>) -> Seq<Seq<char>> {
    permutations(
        Seq::empty(),
        words_from(sanitized(road), 0),
        dictionary_of(
            lines_of(dictionary_text(lang_code)),
            lines_of(dictionary_text(lang_code)).len() as int,
        ),
    )
}

/// The ways of writing the name of a road in the language with the ISO 639
/// code `lang_code`.
pub fn permute_road(road: &str, lang_code: &str) -> (found: Vec<String>)
    ensures
        views(found@) == road_spellings(road@, lang_code@),
{
    let sub_dict = substitution_dict(lang_code);
    let clean = sanitize(road);
    let clean_chars = to_chars(clean.as_str());
    let road_tokens = words(&clean_chars);
    let prefix: Vec<String> = Vec::new();
    proof {
        assert(views(prefix@) =~= Seq::empty());
    }
    apply_subs(prefix.as_slice(), road_tokens.as_slice(), &sub_dict)
}

} // verus!
