//! The text by which a point of interest is found.

use crate::substitutions::{permute_road, road_spellings};
use crate::text::{split_from, split_on, to_chars, views};
use vstd::prelude::*;
use vstd::std_specs::bits::u64_trailing_zeros;
use vstd::string::StringExecFns;

verus! {

/// Each string with `prefix` and an equals sign before it.
pub open spec fn prefixed(prefix: Seq<char>, strings: Seq<Seq<char>>) -> Seq<Seq<char>> {
    Seq::new(strings.len(), |i: int| prefix + "="@ + strings[i])
}

/// Each of `strings` with `prefix` and an equals sign before it.
pub fn prefix_strings(prefix: &str, strings: Vec<String>) -> (found: Vec<String>)
    ensures
        views(found@) == prefixed(prefix@, views(strings@)),
{
    let mut found: Vec<String> = Vec::new();
    let mut i: usize = 0;
    while i < strings.len()
        invariant
            i <= strings@.len(),
            found@.len() == i,
            forall|j: int|
                0 <= j < i ==> (#[trigger] found@[j])@ == prefix@ + "="@ + strings@[j]@,
        decreases strings@.len() - i,
    {
        let mut text = String::from_str(prefix);
        text.append("=");
        text.append(strings[i].as_str());
        found.push(text);
        i += 1;
    }
    proof {
        assert(views(found@) =~= prefixed(prefix@, views(strings@)));
    }
    found
}

/// The deepest level of a cell of the sphere.
pub const MAX_LEVEL: u64 = 30;

/// The lowest bit that is set in the id of a cell of the level `level`.
pub open spec fn level_bit(level: u64) -> u64 {
    1u64 << ((2 * (MAX_LEVEL - level)) as u64)
}

/// `s2::cellid::CellID::level`: the level of the cell, thirty less half the
/// number of zero bits at the low end of its id. The id must have a bit set
/// among its low 62.
#[verifier::external_body]
fn cell_level(cell: u64) -> (level: u64)
    requires
        cell % 0x4000_0000_0000_0000 != 0,
    ensures
        level == MAX_LEVEL - u64_trailing_zeros(cell) / 2,
{
    s2::cellid::CellID(cell).level()
}

/// `s2::cellid::CellID::parent`: the id of the cell of the level `level`
/// that holds the cell: its id with the bit of the level set and the bits
/// below cleared.
#[verifier::external_body]
fn cell_parent(cell: u64, level: u64) -> (parent: u64)
    requires
        level <= MAX_LEVEL,
    ensures
        parent == (cell & !((level_bit(level) - 1) as u64)) | level_bit(level),
{
    s2::cellid::CellID(cell).parent(level).0
}

/// The cell has a level: its id has a bit set among its low 62.
pub open spec fn has_level(cell: u64) -> bool {
    cell % 0x4000_0000_0000_0000 != 0
}

/// The ids of the cells that hold the cell, from the level 0 down to the
/// level above its own; none where the cell has no level.
pub open spec fn parents_of(cell: u64) -> Seq<u64> {
    if has_level(cell) {
        Seq::new(
            (MAX_LEVEL - u64_trailing_zeros(cell) / 2) as nat,
            |level: int|
                (cell & !((level_bit(level as u64) - 1) as u64)) | level_bit(level as u64),
        )
    } else {
        Seq::empty()
    }
}

/// The ids of the cells that hold the cell, from the level 0 down to the
/// level above its own.
pub fn cell_parents(cell: u64) -> (parents: Vec<u64>)
    ensures
        parents@ == parents_of(cell),
{
    let mut parents: Vec<u64> = Vec::new();
    if cell % 0x4000_0000_0000_0000 == 0 {
        return parents;
    }
    proof {
        vstd::std_specs::bits::axiom_u64_trailing_zeros(cell);
    }
    let own = cell_level(cell);
    let mut level: u64 = 0;
    while level < own
        invariant
            level <= own <= MAX_LEVEL,
            has_level(cell),
            own == MAX_LEVEL - u64_trailing_zeros(cell) / 2,
            parents@.len() == level,
            forall|l: int| 0 <= l < level ==> parents@[l] == parents_of(cell)[l],
        decreases own - level,
    {
        let parent = cell_parent(cell, level);
        proof {
            assert(parents_of(cell).len() == own);
            assert(parents_of(cell)[level as int] == parent);
        }
        parents.push(parent);
        level += 1;
    }
    proof {
        assert(parents@ =~= parents_of(cell));
    }
    parents
}

/// `needle` stands somewhere in `text`.
pub open spec fn holds_text(text: Seq<char>, needle: Seq<char>) -> bool {
    exists|at: int|
        0 <= at && at + needle.len() <= text.len() && #[trigger] text.subrange(
            at,
            at + needle.len(),
        ) == needle
}

/// Whether `needle` stands somewhere in `text`.
pub fn contains_text(text: &Vec<char>, needle: &Vec<char>) -> (found: bool)
    ensures
        found == holds_text(text@, needle@),
{
    if needle.len() > text.len() {
        return false;
    }
    if needle.len() == 0 {
        proof {
            assert(text@.subrange(0, 0int + needle@.len()) =~= needle@);
        }
        return true;
    }
    let last = text.len() - needle.len();
    let mut at: usize = 0;
    while at <= last
        invariant
            at <= last + 1,
            needle@.len() >= 1,
            text@.len() <= usize::MAX,
            last == text@.len() - needle@.len(),
            forall|earlier: int|
                0 <= earlier < at ==> #[trigger] text@.subrange(earlier, earlier + needle@.len())
                    != needle@,
        decreases last + 1 - at,
    {
        let mut k: usize = 0;
        let mut same = true;
        while k < needle.len()
            invariant_except_break
                same,
                forall|j: int| 0 <= j < k ==> text@[at + j] == needle@[j],
            invariant
                k <= needle@.len(),
                at <= last,
                text@.len() <= usize::MAX,
                last == text@.len() - needle@.len(),
            ensures
                same ==> k == needle@.len() && forall|j: int|
                    0 <= j < k ==> text@[at + j] == needle@[j],
                !same ==> k < needle@.len() && text@[at + k] != needle@[k as int],
            decreases needle@.len() - k,
        {
            if text[at + k] != needle[k] {
                same = false;
                break ;
            }
            k += 1;
        }
        if same {
            proof {
                assert(text@.subrange(at as int, at + needle@.len()) =~= needle@);
            }
            return true;
        }
        proof {
            assert(text@.subrange(at as int, at + needle@.len())[k as int] == text@[at + k]);
        }
        at += 1;
    }
    false
}

/// A point of interest as it is read from a tile: its names, the parts of
/// its address, the cell of the sphere that holds it, its tags, and the
/// languages in which it is indexed.
#[derive(Debug)]
pub struct InputPoi {
    pub names: Vec<String>,
    pub house_number: Option<String>,
    pub road: Option<String>,
    pub unit: Option<String>,
    pub admins: Vec<String>,
    pub s2cell: u64,
    pub tags: Vec<(String, String)>,
    pub languages: Vec<String>,
}

/// The value of the last tag with the key `key`.
pub open spec fn tag_value(tags: Seq<(String, String)>, key: Seq<char>) -> Option<Seq<char>>
    decreases tags.len(),
{
    if tags.len() == 0 {
        None
    } else if tags.last().0@ == key {
        Some(tags.last().1@)
    } else {
        tag_value(tags.drop_last(), key)
    }
}

/// The key of a tag names the point: it is `name` or holds `name:`.
pub open spec fn is_name_key(key: Seq<char>) -> bool {
    key == "name"@ || holds_text(key, "name:"@)
}

/// The values of the tags whose keys name the point, in order.
pub open spec fn names_of(tags: Seq<(String, String)>) -> Seq<Seq<char>>
    decreases tags.len(),
{
    if tags.len() == 0 {
        Seq::empty()
    } else if is_name_key(tags.last().0@) {
        names_of(tags.drop_last()).push(tags.last().1@)
    } else {
        names_of(tags.drop_last())
    }
}

/// The view of an optional string.
pub open spec fn text_of(text: Option<String>) -> Option<Seq<char>> {
    match text {
        Some(found) => Some(found@),
        None => None,
    }
}

/// The value of the last tag with the key `key`.
pub fn find_tag(tags: &Vec<(String, String)>, key: &str) -> (value: Option<String>)
    ensures
        text_of(value) == tag_value(tags@, key@),
{
    let wanted = key.to_owned();
    let mut i: usize = tags.len();
    proof {
        assert(tags@.take(i as int) =~= tags@);
    }
    while i > 0
        invariant
            i <= tags@.len(),
            wanted@ == key@,
            tag_value(tags@, key@) == tag_value(tags@.take(i as int), key@),
        decreases i,
    {
        i -= 1;
        proof {
            assert(tags@.take(i + 1).drop_last() =~= tags@.take(i as int));
        }
        if tags[i].0 == wanted {
            return Some(tags[i].1.clone());
        }
    }
    None
}

impl InputPoi {
    /// The point of interest that the tags describe, in the cell `s2cell`
    /// and indexed in the language `lang`: `None` where the point has no
    /// name and lacks a house number or a street.
    pub fn from_tags(lang: &str, s2cell: u64, tags: &Vec<(String, String)>) -> (poi: Option<InputPoi>)
        ensures
            poi is Some <==> names_of(tags@).len() > 0 || (tag_value(tags@, "addr:housenumber"@)
                is Some && tag_value(tags@, "addr:street"@) is Some),
            poi matches Some(found) ==> {
                &&& views(found.names@) == names_of(tags@)
                &&& text_of(found.house_number) == tag_value(tags@, "addr:housenumber"@)
                &&& text_of(found.road) == tag_value(tags@, "addr:street"@)
                &&& text_of(found.unit) == tag_value(tags@, "addr:unit"@)
                &&& found.admins@.len() == 0
                &&& found.s2cell == s2cell
                &&& found.tags@.len() == tags@.len()
                &&& forall|i: int|
                    0 <= i < tags@.len() ==> (#[trigger] found.tags@[i]).0@ == tags@[i].0@
                        && found.tags@[i].1@ == tags@[i].1@
                &&& views(found.languages@) == seq![lang@]
            },
    {
        let house_number = find_tag(tags, "addr:housenumber");
        let road = find_tag(tags, "addr:street");
        let unit = find_tag(tags, "addr:unit");
        let name_key = to_chars("name");
        let name_prefix = to_chars("name:");
        let mut names: Vec<String> = Vec::new();
        let mut copy: Vec<(String, String)> = Vec::new();
        let mut i: usize = 0;
        proof {
            assert(tags@.take(0) =~= Seq::empty());
            assert(views(names@) =~= Seq::empty());
        }
        while i < tags.len()
            invariant
                i <= tags@.len(),
                name_key@ == "name"@,
                name_prefix@ == "name:"@,
                views(names@) == names_of(tags@.take(i as int)),
                copy@.len() == i,
                forall|j: int|
                    0 <= j < i ==> (#[trigger] copy@[j]).0@ == tags@[j].0@ && copy@[j].1@
                        == tags@[j].1@,
            decreases tags@.len() - i,
        {
            let key = to_chars(tags[i].0.as_str());
            proof {
                assert(tags@.take(i + 1).drop_last() =~= tags@.take(i as int));
            }
            let same = key.len() == name_key.len() && contains_text(&key, &name_key);
            proof {
                if key@.len() == name_key@.len() {
                    if holds_text(key@, name_key@) {
                        let at = choose|at: int|
                            0 <= at && at + name_key@.len() <= key@.len() && #[trigger] key@.subrange(
                                at,
                                at + name_key@.len(),
                            ) == name_key@;
                        assert(key@.subrange(0, key@.len() as int) =~= key@);
                    }
                    if key@ == name_key@ {
                        assert(key@.subrange(0, 0int + name_key@.len()) =~= name_key@);
                    }
                }
            }
            if same || contains_text(&key, &name_prefix) {
                let name = tags[i].1.clone();
                proof {
                    assert(views(names@.push(name)) =~= views(names@).push(name@));
                }
                names.push(name);
            }
            copy.push((tags[i].0.clone(), tags[i].1.clone()));
            i += 1;
        }
        proof {
            assert(tags@.take(i as int) =~= tags@);
        }
        if (house_number.is_none() || road.is_none()) && names.len() == 0 {
            return None;
        }
        let mut languages: Vec<String> = Vec::new();
        languages.push(lang.to_owned());
        proof {
            assert(views(languages@) =~= seq![lang@]);
        }
        Some(
            InputPoi {
                names,
                house_number,
                road,
                unit,
                admins: Vec::new(),
                s2cell,
                tags: copy,
                languages,
            },
        )
    }
}

/// A point of interest as it is indexed: the text by which it is found,
/// its cell, the cells that hold its cell, and its tags.
#[derive(Debug)]
pub struct SchemafiedPoi {
    pub content: Vec<String>,
    pub s2cell: u64,
    pub s2cell_parents: Vec<u64>,
    pub tags: Vec<(String, String)>,
}

/// The spellings of a road in each of the first `upto` languages, each
/// with an equals sign before it.
pub open spec fn road_content(road: Seq<char>, languages: Seq<Seq<char>>, upto: int) -> Seq<Seq<char>>
    decreases upto,
{
    if upto <= 0 {
        Seq::empty()
    } else {
        road_content(road, languages, upto - 1) + prefixed(
            Seq::empty(),
            road_spellings(road, languages[upto - 1]),
        )
    }
}

/// Each part into which `;` divides the value, with the key and an equals
/// sign before it.
pub open spec fn keyed(key: Seq<char>, value: Seq<char>) -> Seq<Seq<char>> {
    let parts = split_from(value, ';', 0);
    Seq::new(parts.len(), |i: int| key + "="@ + parts[i])
}

/// The text of the first `upto` tags: each token of each value with its
/// key, and an equals sign before all.
pub open spec fn tag_content(tags: Seq<(String, String)>, upto: int) -> Seq<Seq<char>>
    decreases upto,
{
    if upto <= 0 {
        Seq::empty()
    } else {
        tag_content(tags, upto - 1) + prefixed(
            Seq::empty(),
            keyed(tags[upto - 1].0@, tags[upto - 1].1@),
        )
    }
}

/// Zero or one string.
pub open spec fn optional(text: Option<Seq<char>>) -> Seq<Seq<char>> {
    match text {
        Some(found) => seq![found],
        None => Seq::empty(),
    }
}

/// The text by which a point of interest is found: its names, its house
/// number, the spellings of its road in each of its languages, its unit, its
/// administrative areas, and its tags, token by token; each with an equals
/// sign before it.
pub open spec fn content_of(poi: InputPoi) -> Seq<Seq<char>> {
    prefixed(Seq::empty(), views(poi.names@)) + prefixed(
        Seq::empty(),
        optional(text_of(poi.house_number)),
    ) + (match poi.road {
        Some(road) => road_content(road@, views(poi.languages@), poi.languages@.len() as int),
        None => Seq::empty(),
    }) + prefixed(Seq::empty(), optional(text_of(poi.unit))) + prefixed(
        Seq::empty(),
        views(poi.admins@),
    ) + tag_content(poi.tags@, poi.tags@.len() as int)
}

/// Zero or one string as a list.
fn list_of(text: Option<String>) -> (list: Vec<String>)
    ensures
        views(list@) == optional(text_of(text)),
{
    let mut list: Vec<String> = Vec::new();
    match text {
        Some(found) => {
            list.push(found);
            proof {
                assert(views(list@) =~= seq![found@]);
            }
        },
        None => {
            proof {
                assert(views(list@) =~= Seq::empty());
            }
        },
    }
    list
}

/// Appends `more` to `content`.
fn extend(content: &mut Vec<String>, more: Vec<String>)
    ensures
        views(final(content)@) == views(old(content)@) + views(more@),
{
    let ghost before = views(content@);
    let ghost added = views(more@);
    let mut more = more;
    content.append(&mut more);
    proof {
        assert(views(content@) =~= before + added);
    }
}

impl SchemafiedPoi {
    /// The point of interest as it is indexed.
    pub fn from(poi: InputPoi) -> (indexed: SchemafiedPoi)
        ensures
            views(indexed.content@) == content_of(poi),
            indexed.s2cell == poi.s2cell,
            indexed.s2cell_parents@ == parents_of(poi.s2cell),
            indexed.tags == poi.tags,
    {
        let ghost input = poi;
        let InputPoi { names, house_number, road, unit, admins, s2cell, tags, languages } = poi;
        let mut content: Vec<String> = Vec::new();
        proof {
            reveal_strlit("");
            assert(views(content@) =~= Seq::empty());
        }
        extend(&mut content, prefix_strings("", names));
        extend(&mut content, prefix_strings("", list_of(house_number)));
        let ghost head = views(content@);
        match &road {
            Some(road) => {
                let mut l: usize = 0;
                proof {
                    assert(head + road_content(road@, views(languages@), 0) =~= head);
                }
                while l < languages.len()
                    invariant
                        l <= languages@.len(),
                        ""@ == Seq::<char>::empty(),
                        views(content@) == head + road_content(road@, views(languages@), l as int),
                    decreases languages@.len() - l,
                {
                    let spellings = permute_road(road.as_str(), languages[l].as_str());
                    proof {
                        assert(views(languages@)[l as int] == languages@[l as int]@);
                        assert(head + road_content(road@, views(languages@), l as int) + prefixed(
                            Seq::empty(),
                            road_spellings(road@, languages@[l as int]@),
                        ) =~= head + road_content(road@, views(languages@), l + 1));
                    }
                    extend(&mut content, prefix_strings("", spellings));
                    l += 1;
                }
            },
            None => {
                proof {
                    assert(head + Seq::<Seq<char>>::empty() =~= head);
                }
            },
        }
        extend(&mut content, prefix_strings("", list_of(unit)));
        extend(&mut content, prefix_strings("", admins));
        let ghost body = views(content@);
        let mut t: usize = 0;
        proof {
            assert(body + tag_content(tags@, 0) =~= body);
        }
        while t < tags.len()
            invariant
                t <= tags@.len(),
                ""@ == Seq::<char>::empty(),
                views(content@) == body + tag_content(tags@, t as int),
            decreases tags@.len() - t,
        {
            let value = to_chars(tags[t].1.as_str());
            let parts = split_on(&value, ';');
            let tokens = prefix_strings(tags[t].0.as_str(), parts);
            proof {
                assert(views(tokens@) =~= keyed(tags@[t as int].0@, tags@[t as int].1@));
                assert(body + tag_content(tags@, t as int) + prefixed(
                    Seq::empty(),
                    keyed(tags@[t as int].0@, tags@[t as int].1@),
                ) =~= body + tag_content(tags@, t + 1));
            }
            extend(&mut content, prefix_strings("", tokens));
            t += 1;
        }
        let s2cell_parents = cell_parents(s2cell);
        SchemafiedPoi { content, s2cell, s2cell_parents, tags }
    }
}

} // verus!
