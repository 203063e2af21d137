//! Strings as sequences of characters: what the library needs of splitting,
//! joining and lower case.

use vstd::prelude::*;

verus! {

/// `String::push` appends one character.
pub assume_specification[ std::string::String::push ](text: &mut std::string::String, c: char)
    ensures
        final(text)@ == old(text)@.push(c),
;

/// The characters of `text`, in order.
pub fn to_chars(text: &str) -> (chars: Vec<char>)
    ensures
        chars@ == text@,
{
    let mut chars: Vec<char> = Vec::new();
    for c in it: text.chars()
        invariant
            it.seq() == text@,
            chars@ == it.seq().take(it.index() as int),
    {
        assert(it.seq().take(it.index() + 1) =~= it.seq().take(it.index() as int).push(c));
        chars.push(c);
    }
    assert(chars@ =~= text@);
    chars
}

/// The string of the characters from `from` up to `to`.
pub fn string_of(chars: &Vec<char>, from: usize, to: usize) -> (text: String)
    requires
        from <= to <= chars@.len(),
    ensures
        text@ == chars@.subrange(from as int, to as int),
{
    let mut text = String::new();
    let mut i: usize = from;
    while i < to
        invariant
            from <= i <= to <= chars@.len(),
            text@ == chars@.subrange(from as int, i as int),
        decreases to - i,
    {
        text.push(chars[i]);
        assert(chars@.subrange(from as int, i + 1) =~= chars@.subrange(from as int, i as int).push(
            chars@[i as int],
        ));
        i += 1;
    }
    text
}

/// The parts into which `separator` divides `text`, from the place `from`
/// on: one part more than there are separators.
pub open spec fn split_from(text: Seq<char>, separator: char, from: int) -> Seq<Seq<char>>
    decreases text.len() - from,
{
    if from < 0 || from > text.len() {
        Seq::empty()
    } else {
        let end = next_at(text, separator, from);
        if end < from {
            Seq::empty()
        } else if end >= text.len() {
            seq![text.subrange(from, text.len() as int)]
        } else {
            seq![text.subrange(from, end)] + split_from(text, separator, end + 1)
        }
    }
}

/// The first place at or after `from` that holds `separator`, or the length
/// of `text` where there is none.
pub open spec fn next_at(text: Seq<char>, separator: char, from: int) -> int
    decreases text.len() - from,
{
    if from < 0 || from >= text.len() {
        text.len() as int
    } else if text[from] == separator {
        from
    } else {
        next_at(text, separator, from + 1)
    }
}

proof fn lemma_next_at(text: Seq<char>, separator: char, from: int)
    requires
        0 <= from <= text.len(),
    ensures
        from <= next_at(text, separator, from) <= text.len(),
        next_at(text, separator, from) < text.len() ==> text[next_at(text, separator, from)]
            == separator,
        forall|i: int| from <= i < next_at(text, separator, from) ==> text[i] != separator,
    decreases text.len() - from,
{
    if from < text.len() && text[from] != separator {
        lemma_next_at(text, separator, from + 1);
    }
}

/// The views of the strings, in order.
pub open spec fn views(strings: Seq<String>) -> Seq<Seq<char>> {
    Seq::new(strings.len(), |i: int| strings[i]@)
}

/// The parts into which `separator` divides `text`.
pub fn split_on(text: &Vec<char>, separator: char) -> (parts: Vec<String>)
    ensures
        views(parts@) == split_from(text@, separator, 0),
{
    let mut parts: Vec<String> = Vec::new();
    let mut start: usize = 0;
    proof {
        assert(views(parts@) =~= Seq::empty());
    }
    loop
        invariant
            start <= text@.len(),
            views(parts@) + split_from(text@, separator, start as int) == split_from(
                text@,
                separator,
                0,
            ),
        decreases text@.len() - start,
    {
        let mut end: usize = start;
        while end < text.len() && text[end] != separator
            invariant
                start <= end <= text@.len(),
                next_at(text@, separator, start as int) == next_at(text@, separator, end as int),
            decreases text@.len() - end,
        {
            end += 1;
        }
        let part = string_of(text, start, end);
        proof {
            lemma_next_at(text@, separator, end as int);
            assert(next_at(text@, separator, start as int) == end);
            assert(views(parts@.push(part)) =~= views(parts@).push(part@));
        }
        let ghost earlier = views(parts@);
        parts.push(part);
        if end == text.len() {
            proof {
                assert(earlier + seq![text@.subrange(start as int, text@.len() as int)] =~= views(
                    parts@,
                ));
            }
            return parts;
        }
        proof {
            assert(earlier + (seq![text@.subrange(start as int, end as int)] + split_from(
                text@,
                separator,
                end + 1,
            )) =~= views(parts@) + split_from(text@, separator, end + 1));
        }
        start = end + 1;
    }
}

/// A blank of ASCII: space, tab, line feed, form feed or carriage return.
pub open spec fn is_blank(c: char) -> bool {
    c == ' ' || c == '\t' || c == '\n' || c == '\x0C' || c == '\r'
}

/// The first place at or after `from` that holds a blank, or the length of
/// `text` where there is none.
pub open spec fn next_blank(text: Seq<char>, from: int) -> int
    decreases text.len() - from,
{
    if from < 0 || from >= text.len() {
        text.len() as int
    } else if is_blank(text[from]) {
        from
    } else {
        next_blank(text, from + 1)
    }
}

/// The words of `text` from the place `from` on: the runs of characters
/// that are not blanks.
pub open spec fn words_from(text: Seq<char>, from: int) -> Seq<Seq<char>>
    decreases text.len() - from,
{
    if from < 0 || from >= text.len() {
        Seq::empty()
    } else if is_blank(text[from]) {
        words_from(text, from + 1)
    } else {
        let end = next_blank(text, from);
        if from < end <= text.len() {
            seq![text.subrange(from, end)] + words_from(text, end)
        } else {
            Seq::empty()
        }
    }
}

proof fn lemma_next_blank(text: Seq<char>, from: int)
    requires
        0 <= from <= text.len(),
    ensures
        from <= next_blank(text, from) <= text.len(),
        from < text.len() && !is_blank(text[from]) ==> from < next_blank(text, from),
    decreases text.len() - from,
{
    if from < text.len() && !is_blank(text[from]) {
        lemma_next_blank(text, from + 1);
    }
}

/// The words of `text`: the runs of characters that are not blanks.
pub fn words(text: &Vec<char>) -> (found: Vec<String>)
    ensures
        views(found@) == words_from(text@, 0),
{
    let mut found: Vec<String> = Vec::new();
    let mut start: usize = 0;
    proof {
        assert(views(found@) =~= Seq::empty());
    }
    while start < text.len()
        invariant
            start <= text@.len(),
            views(found@) + words_from(text@, start as int) == words_from(text@, 0),
        decreases text@.len() - start,
    {
        let c = text[start];
        if c == ' ' || c == '\t' || c == '\n' || c == '\x0C' || c == '\r' {
            start += 1;
        } else {
            let mut end: usize = start + 1;
            proof {
                lemma_next_blank(text@, start as int);
            }
            while end < text.len() && !(text[end] == ' ' || text[end] == '\t' || text[end] == '\n'
                || text[end] == '\x0C' || text[end] == '\r')
                invariant
                    start < end <= text@.len(),
                    next_blank(text@, start as int) == next_blank(text@, end as int),
                decreases text@.len() - end,
            {
                end += 1;
            }
            let word = string_of(text, start, end);
            proof {
                assert(next_blank(text@, start as int) == end);
                assert(views(found@.push(word)) =~= views(found@).push(word@));
                assert(views(found@) + (seq![text@.subrange(start as int, end as int)] + words_from(
                    text@,
                    end as int,
                )) =~= views(found@).push(word@) + words_from(text@, end as int));
            }
            found.push(word);
            start = end;
        }
    }
    proof {
        assert(views(found@) + words_from(text@, start as int) =~= views(found@));
    }
    found
}

/// The lower-case form of an ASCII capital; any other character as it is.
pub open spec fn lowered(c: char) -> char {
    if 'A' <= c && c <= 'Z' {
        ((c as u8) + 32) as char
    } else {
        c
    }
}

/// `text` with its ASCII capitals in lower case.
pub fn ascii_lower(text: &str) -> (lower: Vec<char>)
    ensures
        lower@ == text@.map_values(|c: char| lowered(c)),
{
    let chars = to_chars(text);
    let mut lower: Vec<char> = Vec::new();
    let mut i: usize = 0;
    while i < chars.len()
        invariant
            i <= chars@.len(),
            chars@ == text@,
            lower@ == chars@.take(i as int).map_values(|c: char| lowered(c)),
        decreases chars@.len() - i,
    {
        let c = chars[i];
        let low = if 'A' <= c && c <= 'Z' {
            ((c as u8) + 32) as char
        } else {
            c
        };
        proof {
            assert(chars@.take(i + 1).map_values(|c: char| lowered(c)) =~= chars@.take(
                i as int,
            ).map_values(|c: char| lowered(c)).push(lowered(c)));
        }
        lower.push(low);
        i += 1;
    }
    proof {
        assert(chars@.take(i as int) =~= chars@);
    }
    lower
}

/// The strings put together, with `separator` between each two.
pub open spec fn joined(parts: Seq<Seq<char>>, separator: Seq<char>) -> Seq<char>
    decreases parts.len(),
{
    if parts.len() == 0 {
        Seq::empty()
    } else if parts.len() == 1 {
        parts[0]
    } else {
        joined(parts.drop_last(), separator) + separator + parts.last()
    }
}

} // verus!
