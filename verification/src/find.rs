//! Looking for one text in another.

use vstd::prelude::*;

use crate::text::to_chars;

verus! {

/// Whether `needle` stands in `hay` at position `at`.
pub open spec fn occurs_at(hay: Seq<char>, needle: Seq<char>, at: int) -> bool {
    &&& 0 <= at
    &&& at + needle.len() <= hay.len()
    &&& hay.subrange(at, at + needle.len()) == needle
}

/// Whether `needle` stands anywhere in `hay`.
pub open spec fn contains_text(hay: Seq<char>, needle: Seq<char>) -> bool {
    exists|at: int| occurs_at(hay, needle, at)
}

/// Whether `at` is the first position at which `needle` stands in `hay`.
pub open spec fn first_at(hay: Seq<char>, needle: Seq<char>, at: int) -> bool {
    &&& occurs_at(hay, needle, at)
    &&& forall|j: int| 0 <= j < at ==> !occurs_at(hay, needle, j)
}

/// The position at which `needle` first stands in `hay`, if it does.
pub open spec fn first_occurrence(hay: Seq<char>, needle: Seq<char>) -> Option<int> {
    if contains_text(hay, needle) {
        Some(choose|at: int| first_at(hay, needle, at))
    } else {
        None
    }
}

/// Where `needle` occurs, `first_occurrence` gives the one first position.
pub(crate) proof fn lemma_first_at(hay: Seq<char>, needle: Seq<char>, at: int)
    requires
        first_at(hay, needle, at),
    ensures
        first_occurrence(hay, needle) == Some(at),
{
    let other = choose|j: int| first_at(hay, needle, j);
    assert(first_at(hay, needle, other));
    if other < at {
        assert(!occurs_at(hay, needle, other));
    }
    if at < other {
        assert(!occurs_at(hay, needle, at));
    }
}

/// Where a text occurs at all, it has a first occurrence.
pub(crate) proof fn lemma_first_occurrence(hay: Seq<char>, needle: Seq<char>)
    ensures
        first_occurrence(hay, needle) matches Some(at) ==> first_at(hay, needle, at),
{
    if contains_text(hay, needle) {
        let at = choose|at: int| occurs_at(hay, needle, at);
        lemma_first_below(hay, needle, at);
    }
}

proof fn lemma_first_below(hay: Seq<char>, needle: Seq<char>, at: int)
    requires
        occurs_at(hay, needle, at),
    ensures
        exists|j: int| first_at(hay, needle, j),
    decreases at,
{
    if exists|j: int| 0 <= j < at && occurs_at(hay, needle, j) {
        let j = choose|j: int| 0 <= j < at && occurs_at(hay, needle, j);
        lemma_first_below(hay, needle, j);
    } else {
        assert(first_at(hay, needle, at));
    }
}

/// A text contains what it is put together from.
pub proof fn law_parts_are_contained(before: Seq<char>, part: Seq<char>, after: Seq<char>)
    ensures
        contains_text(before + part + after, part),
        first_occurrence(before + part + after, part) is Some,
        first_occurrence(before + part + after, part)->0 <= before.len(),
{
    let hay = before + part + after;
    let at = before.len() as int;
    assert(hay.subrange(at, at + part.len()) =~= part);
    assert(occurs_at(hay, part, at));
    lemma_first_occurrence(hay, part);
    let first = first_occurrence(hay, part)->0;
    if at < first {
        assert(!occurs_at(hay, part, at));
    }
}

/// What a text contains is a part of it, and where it first occurs it is found: no earlier
/// position has the same characters from there on.
pub proof fn law_first_occurrence_is_the_first(hay: Seq<char>, needle: Seq<char>)
    ensures
        contains_text(hay, needle) <==> exists|at: int|
            0 <= at <= hay.len() - needle.len() && hay == hay.take(at) + needle + #[trigger] hay.skip(
                at + needle.len(),
            ),
        first_occurrence(hay, needle) is Some <==> contains_text(hay, needle),
        first_occurrence(hay, needle) matches Some(at) ==> {
            &&& 0 <= at <= hay.len() - needle.len()
            &&& hay == hay.take(at) + needle + hay.skip(at + needle.len())
            &&& forall|j: int|
                0 <= j < at ==> #[trigger] hay.subrange(j, j + needle.len()) != needle
        },
{
    lemma_first_occurrence(hay, needle);
    if contains_text(hay, needle) {
        let at = choose|at: int| occurs_at(hay, needle, at);
        lemma_split_at(hay, needle, at);
        let first = first_occurrence(hay, needle)->0;
        lemma_split_at(hay, needle, first);
        assert forall|j: int| 0 <= j < first implies #[trigger] hay.subrange(j, j + needle.len())
            != needle by {
            assert(!occurs_at(hay, needle, j));
        }
    }
    if exists|at: int|
        0 <= at <= hay.len() - needle.len() && hay == hay.take(at) + needle + #[trigger] hay.skip(
            at + needle.len(),
        ) {
        let at = choose|at: int|
            0 <= at <= hay.len() - needle.len() && hay == hay.take(at) + needle
                + #[trigger] hay.skip(at + needle.len());
        law_parts_are_contained(hay.take(at), needle, hay.skip(at + needle.len()));
    }
}

proof fn lemma_split_at(hay: Seq<char>, needle: Seq<char>, at: int)
    requires
        occurs_at(hay, needle, at),
    ensures
        hay == hay.take(at) + needle + hay.skip(at + needle.len()),
{
    let window = hay.subrange(at, at + needle.len());
    assert(hay =~= hay.take(at) + window + hay.skip(at + needle.len()));
}

fn occurs(hay: &Vec<char>, needle: &Vec<char>, at: usize) -> (r: bool)
    requires
        at + needle@.len() <= hay@.len(),
    ensures
        r == occurs_at(hay@, needle@, at as int),
{
    let ghost window = hay@.subrange(at as int, at + needle@.len());
    let total: usize = hay.len();
    for i in 0..needle.len()
        invariant
            at + needle@.len() <= total,
            total == hay@.len(),
            window == hay@.subrange(at as int, at + needle@.len()),
            forall|j: int| 0 <= j < i ==> window[j] == needle@[j],
    {
        if hay[at + i] != needle[i] {
            assert(window[i as int] != needle@[i as int]);
            return false;
        }
    }
    assert(window =~= needle@);
    true
}

/// The position at which the characters of `needle` first stand in `hay`.
pub fn find_chars(hay: &Vec<char>, needle: &Vec<char>) -> (at: Option<usize>)
    ensures
        match at {
            Some(i) => first_at(hay@, needle@, i as int) && first_occurrence(hay@, needle@) == Some(
                i as int,
            ),
            None => first_occurrence(hay@, needle@) is None,
        },
{
    if needle.len() > hay.len() {
        return None;
    }
    let last: usize = hay.len() - needle.len();
    let mut i: usize = 0;
    loop
        invariant
            last + needle@.len() == hay@.len(),
            i <= last,
            forall|j: int| 0 <= j < i ==> !occurs_at(hay@, needle@, j),
        decreases last - i,
    {
        if occurs(hay, needle, i) {
            proof {
                lemma_first_at(hay@, needle@, i as int);
            }
            return Some(i);
        }
        if i == last {
            assert forall|j: int| !occurs_at(hay@, needle@, j) by {}
            return None;
        }
        i = i + 1;
    }
}

/// Whether one text stands in another.
pub fn text_contains(hay: &str, needle: &str) -> (found: bool)
    ensures
        found == contains_text(hay@, needle@),
{
    let h = to_chars(hay);
    let n = to_chars(needle);
    match find_chars(&h, &n) {
        Some(_) => true,
        None => false,
    }
}

// ---------------------------------------------------------------------------
// Lower case
// ---------------------------------------------------------------------------

/// An ASCII capital becomes the small letter; every other character stays.
pub open spec fn ascii_lower_char(c: char) -> char {
    if 'A' <= c <= 'Z' {
        (c as u8 + 32) as char
    } else {
        c
    }
}

/// `s` with each ASCII capital replaced by the small letter.
pub open spec fn ascii_lower(s: Seq<char>) -> Seq<char> {
    Seq::new(s.len(), |i: int| ascii_lower_char(s[i]))
}

fn lower_char(c: char) -> (r: char)
    ensures
        r == ascii_lower_char(c),
{
    if 'A' <= c && c <= 'Z' {
        ((c as u8) + 32) as char
    } else {
        c
    }
}

/// A text with each ASCII capital replaced by the small letter.
pub fn lower_text(s: &str) -> (lower: String)
    ensures
        lower@ == ascii_lower(s@),
{
    let chars = to_chars(s);
    let mut out = String::new();
    for i in 0..chars.len()
        invariant
            chars@ == s@,
            out@ == ascii_lower(s@).take(i as int),
    {
        out.push(lower_char(chars[i]));
        assert(ascii_lower(s@).take(i as int).push(ascii_lower_char(s@[i as int]))
            =~= ascii_lower(s@).take(i + 1));
    }
    assert(ascii_lower(s@).take(chars@.len() as int) =~= ascii_lower(s@));
    out
}

/// Lower case changes the 26 capitals of ASCII, each to the letter 32 places on, and nothing
/// else; a text keeps its length, and its characters change one by one.
pub proof fn law_only_capitals_change(s: Seq<char>, c: char)
    ensures
        ascii_lower(Seq::empty()) == Seq::<char>::empty(),
        ascii_lower(s.push(c)) == ascii_lower(s).push(
            if 65 <= c as int && c as int <= 90 {
                (c as int + 32) as char
            } else {
                c
            },
        ),
        ascii_lower(ascii_lower(s)) == ascii_lower(s),
{
    assert(ascii_lower(Seq::empty()) =~= Seq::<char>::empty());
    assert(ascii_lower(s.push(c)) =~= ascii_lower(s).push(ascii_lower_char(c)));
    assert(ascii_lower(ascii_lower(s)) =~= ascii_lower(s));
}

} // verus!
