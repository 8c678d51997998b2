//! Text as a sequence of characters.
//!
//! Every function here has a specification over `Seq<char>`; the other modules
//! state what they do with lines, words, numbers and paths in these terms.

use vstd::prelude::*;
use vstd::utf8::*;

verus! {

/// `String::push` appends one character to the end of the string.
pub assume_specification[ String::push ](s: &mut String, c: char)
    ensures
        final(s)@ == old(s)@.push(c),
;

/// The contents of a list of strings.
pub open spec fn texts(list: Seq<String>) -> Seq<Seq<char>> {
    Seq::new(list.len(), |i: int| list[i]@)
}

/// The contents of an optional string.
pub open spec fn opt_text(text: Option<String>) -> Option<Seq<char>> {
    match text {
        Some(t) => Some(t@),
        None => None,
    }
}

/// The contents of an optional list of strings.
pub open spec fn opt_texts(list: Option<Vec<String>>) -> Option<Seq<Seq<char>>> {
    match list {
        Some(l) => Some(texts(l@)),
        None => None,
    }
}

/// What is said of a list of strings is said of each in its place.
pub proof fn law_texts_are_those_of_the_strings(list: Seq<String>, at: int, text: String)
    ensures
        texts(list).len() == list.len(),
        0 <= at < list.len() ==> texts(list)[at] == list[at]@,
        opt_text(Some(text)) == Some(text@),
        opt_text(None) is None,
{
}

/// Adding a string to a list adds its contents to the list's contents.
pub(crate) proof fn lemma_texts_push(list: Seq<String>, item: String)
    ensures
        texts(list.push(item)) == texts(list).push(item@),
{
    assert(texts(list.push(item)) =~= texts(list).push(item@));
}

// ---------------------------------------------------------------------------
// Characters in, characters out
// ---------------------------------------------------------------------------

/// The characters of a text, in order.
pub fn to_chars(s: &str) -> (chars: Vec<char>)
    ensures
        chars@ == s@,
{
    let mut out: Vec<char> = Vec::new();
    for c in it: s.chars()
        invariant
            out@ == it.seq().take(it.index() as int),
            it.seq() == s@,
    {
        out.push(c);
    }
    out
}

/// The text made of the characters from `from` up to `to`.
pub fn slice_text(chars: &Vec<char>, from: usize, to: usize) -> (text: String)
    requires
        from <= to <= chars@.len(),
    ensures
        text@ == chars@.subrange(from as int, to as int),
{
    let mut out = String::new();
    for i in from..to
        invariant
            from <= to <= chars@.len(),
            out@ == chars@.subrange(from as int, i as int),
    {
        out.push(chars[i]);
        assert(chars@.subrange(from as int, i as int).push(chars@[i as int])
            =~= chars@.subrange(from as int, i + 1));
    }
    out
}

/// A copy of a text.
pub fn copy_text(s: &str) -> (text: String)
    ensures
        text@ == s@,
{
    String::from_str(s)
}

/// Whether two texts hold the same characters.
pub fn same_text(a: &str, b: &str) -> (same: bool)
    ensures
        same == (a@ == b@),
{
    let x = a.as_bytes();
    let y = b.as_bytes();
    proof {
        encode_utf8_decode_utf8(a@);
        encode_utf8_decode_utf8(b@);
    }
    if x.len() != y.len() {
        return false;
    }
    for i in 0..x.len()
        invariant
            x@ == encode_utf8(a@),
            y@ == encode_utf8(b@),
            x@.len() == y@.len(),
            forall|j: int| 0 <= j < i ==> x@[j] == y@[j],
    {
        if x[i] != y[i] {
            return false;
        }
    }
    assert(x@ =~= y@);
    true
}

/// The number of bytes of a text in UTF-8.
pub open spec fn byte_len(s: Seq<char>) -> nat {
    encode_utf8(s).len()
}

/// The number of bytes that a text takes in UTF-8.
pub fn text_byte_len(s: &str) -> (n: usize)
    ensures
        n == byte_len(s@),
{
    s.as_bytes().len()
}

/// The bytes of two texts add up when the texts are joined.
pub proof fn lemma_byte_len_add(a: Seq<char>, b: Seq<char>)
    ensures
        byte_len(a + b) == byte_len(a) + byte_len(b),
    decreases a.len(),
{
    if a.len() == 0 {
        assert(a + b =~= b);
    } else {
        lemma_byte_len_add(a.drop_first(), b);
        assert((a + b).drop_first() =~= a.drop_first() + b);
        assert((a + b)[0] == a[0]);
    }
}

/// A text takes no byte exactly when it has no character.
pub proof fn lemma_byte_len_zero(s: Seq<char>)
    ensures
        byte_len(s) == 0 <==> s.len() == 0,
        s.len() <= byte_len(s),
    decreases s.len(),
{
    if s.len() > 0 {
        lemma_byte_len_zero(s.drop_first());
        assert(encode_scalar(s[0] as u32).len() > 0);
    }
}

/// A character takes one byte below 128, two below 2048, three below 65536 and four above,
/// and the bytes of a text are those of its characters.
pub proof fn law_bytes_are_counted_by_character(s: Seq<char>, c: char)
    ensures
        byte_len(Seq::empty()) == 0,
        byte_len(s.push(c)) == byte_len(s) + (if (c as int) < 128 {
            1int
        } else if (c as int) < 2048 {
            2
        } else if (c as int) < 65536 {
            3
        } else {
            4
        }),
{
    let one = seq![c];
    lemma_byte_len_add(s, one);
    assert(s.push(c) =~= s + one);
    assert(one.drop_first() =~= Seq::<char>::empty());
    assert(one[0] == c);
    char_is_scalar(c);
    assert(encode_utf8(one) == encode_scalar(c as u32) + encode_utf8(one.drop_first()));
}

/// Whether `wanted` is one of `list`.
pub open spec fn one_of(list: Seq<Seq<char>>, wanted: Seq<char>) -> bool {
    exists|i: int| 0 <= i < list.len() && list[i] == wanted
}

/// A text is one of a list exactly when the list contains it.
pub proof fn law_one_of_is_membership(list: Seq<Seq<char>>, wanted: Seq<char>)
    ensures
        one_of(list, wanted) <==> list.contains(wanted),
{
}

/// Whether a text is one of the texts of a list.
pub fn is_one_of(list: &Vec<String>, wanted: &str) -> (found: bool)
    ensures
        found == one_of(texts(list@), wanted@),
{
    for i in 0..list.len()
        invariant
            forall|j: int| 0 <= j < i ==> list@[j]@ != wanted@,
    {
        if same_text(list[i].as_str(), wanted) {
            assert(texts(list@)[i as int] == wanted@);
            return true;
        }
    }
    assert forall|j: int| 0 <= j < texts(list@).len() implies texts(list@)[j] != wanted@ by {
        assert(list@[j]@ != wanted@);
    }
    false
}

// ---------------------------------------------------------------------------
// Trimming
// ---------------------------------------------------------------------------

/// A set of characters to trim from a text.
#[derive(Clone, Copy, Debug, PartialEq, Eq)]
pub enum CharClass {
    /// The characters with the Unicode property `White_Space`.
    Whitespace,
    /// A single character.
    One(char),
}

/// The characters with the Unicode property `White_Space`.
pub open spec fn is_white_space(c: char) -> bool {
    ||| '\u{9}' <= c <= '\u{d}'
    ||| c == '\u{20}'
    ||| c == '\u{85}'
    ||| c == '\u{a0}'
    ||| c == '\u{1680}'
    ||| '\u{2000}' <= c <= '\u{200a}'
    ||| c == '\u{2028}'
    ||| c == '\u{2029}'
    ||| c == '\u{202f}'
    ||| c == '\u{205f}'
    ||| c == '\u{3000}'
}

/// Whether a character is white space.
pub fn white_space(c: char) -> (r: bool)
    ensures
        r == is_white_space(c),
{
    ('\u{9}' <= c && c <= '\u{d}') || c == '\u{20}' || c == '\u{85}' || c == '\u{a0}' || c
        == '\u{1680}' || ('\u{2000}' <= c && c <= '\u{200a}') || c == '\u{2028}' || c
        == '\u{2029}' || c == '\u{202f}' || c == '\u{205f}' || c == '\u{3000}'
}

/// Whether `c` belongs to the class.
pub open spec fn class_has(class: CharClass, c: char) -> bool {
    match class {
        CharClass::Whitespace => is_white_space(c),
        CharClass::One(x) => c == x,
    }
}

fn in_class(class: CharClass, c: char) -> (r: bool)
    ensures
        r == class_has(class, c),
{
    match class {
        CharClass::Whitespace => white_space(c),
        CharClass::One(x) => c == x,
    }
}

/// What is left of `s` without its leading characters of the class.
pub open spec fn trim_start_class(s: Seq<char>, class: CharClass) -> Seq<char>
    decreases s.len(),
{
    if s.len() > 0 && class_has(class, s[0]) {
        trim_start_class(s.drop_first(), class)
    } else {
        s
    }
}

/// What is left of `s` without its trailing characters of the class.
pub open spec fn trim_end_class(s: Seq<char>, class: CharClass) -> Seq<char>
    decreases s.len(),
{
    if s.len() > 0 && class_has(class, s.last()) {
        trim_end_class(s.drop_last(), class)
    } else {
        s
    }
}

/// What is left of `s` without the characters of the class at both ends.
pub open spec fn trim_class(s: Seq<char>, class: CharClass) -> Seq<char> {
    trim_end_class(trim_start_class(s, class), class)
}

/// `s` without the white space at both ends.
pub open spec fn trim(s: Seq<char>) -> Seq<char> {
    trim_class(s, CharClass::Whitespace)
}

/// A text that holds nothing but white space.
pub open spec fn is_blank(s: Seq<char>) -> bool {
    trim(s).len() == 0
}

/// Skipping a run of characters of the class does not change what trimming leaves.
proof fn lemma_trim_start_skip(s: Seq<char>, class: CharClass, n: int)
    requires
        0 <= n <= s.len(),
        forall|j: int| 0 <= j < n ==> class_has(class, #[trigger] s[j]),
    ensures
        trim_start_class(s, class) == trim_start_class(s.skip(n), class),
    decreases n,
{
    if n > 0 {
        lemma_trim_start_skip(s.drop_first(), class, n - 1);
        assert(s.drop_first().skip(n - 1) =~= s.skip(n));
    } else {
        assert(s.skip(0) =~= s);
    }
}

/// Dropping a run of characters of the class at the end does not change what trimming leaves.
proof fn lemma_trim_end_take(s: Seq<char>, class: CharClass, n: int)
    requires
        0 <= n <= s.len(),
        forall|j: int| n <= j < s.len() ==> class_has(class, #[trigger] s[j]),
    ensures
        trim_end_class(s, class) == trim_end_class(s.take(n), class),
    decreases s.len() - n,
{
    if n < s.len() {
        lemma_trim_end_take(s.drop_last(), class, n);
        assert(s.drop_last().take(n) =~= s.take(n));
    } else {
        assert(s.take(n) =~= s);
    }
}

/// What trimming the front leaves is an end of the text that does not start with the class.
pub(crate) proof fn lemma_trim_start_shape(s: Seq<char>, class: CharClass) -> (n: int)
    ensures
        0 <= n <= s.len(),
        trim_start_class(s, class) == s.skip(n),
        forall|j: int| 0 <= j < n ==> class_has(class, #[trigger] s[j]),
        n < s.len() ==> !class_has(class, s[n]),
    decreases s.len(),
{
    if s.len() > 0 && class_has(class, s[0]) {
        let m = lemma_trim_start_shape(s.drop_first(), class);
        assert(s.drop_first().skip(m) =~= s.skip(m + 1));
        assert forall|j: int| 0 <= j < m + 1 implies class_has(class, #[trigger] s[j]) by {
            if j > 0 {
                assert(s.drop_first()[j - 1] == s[j]);
            }
        }
        if m + 1 < s.len() {
            assert(s.drop_first()[m] == s[m + 1]);
        }
        m + 1
    } else {
        assert(s.skip(0) =~= s);
        0
    }
}

/// What trimming the end leaves is a start of the text that does not end with the class.
pub(crate) proof fn lemma_trim_end_shape(s: Seq<char>, class: CharClass) -> (n: int)
    ensures
        0 <= n <= s.len(),
        trim_end_class(s, class) == s.take(n),
        forall|j: int| n <= j < s.len() ==> class_has(class, #[trigger] s[j]),
        n > 0 ==> !class_has(class, s[n - 1]),
    decreases s.len(),
{
    if s.len() > 0 && class_has(class, s.last()) {
        let m = lemma_trim_end_shape(s.drop_last(), class);
        assert(s.drop_last().take(m) =~= s.take(m));
        assert forall|j: int| m <= j < s.len() implies class_has(class, #[trigger] s[j]) by {
            if j < s.len() - 1 {
                assert(s.drop_last()[j] == s[j]);
            }
        }
        m
    } else {
        assert(s.take(s.len() as int) =~= s);
        s.len() as int
    }
}

/// A text is blank exactly when every character of it is white space.
pub proof fn law_blank_is_all_white_space(s: Seq<char>)
    ensures
        is_blank(s) <==> (forall|i: int| 0 <= i < s.len() ==> is_white_space(#[trigger] s[i])),
{
    let class = CharClass::Whitespace;
    let n = lemma_trim_start_shape(s, class);
    let t = s.skip(n);
    let m = lemma_trim_end_shape(t, class);
    if is_blank(s) {
        assert(m == 0);
        assert forall|i: int| 0 <= i < s.len() implies is_white_space(#[trigger] s[i]) by {
            if i < n {
                assert(class_has(class, s[i]));
            } else {
                assert(class_has(class, t[i - n]));
            }
        }
    } else {
        assert(t[m - 1] == s[n + m - 1]);
        assert(!is_white_space(s[n + m - 1]));
    }
}

/// Trimming twice is trimming once, and what is left starts and ends with a character
/// outside the class.
pub proof fn law_trim_is_final(s: Seq<char>, class: CharClass)
    ensures
        trim_class(trim_class(s, class), class) == trim_class(s, class),
        trim_class(s, class).len() > 0 ==> !class_has(class, trim_class(s, class)[0])
            && !class_has(class, trim_class(s, class).last()),
{
    let n = lemma_trim_start_shape(s, class);
    let t = s.skip(n);
    let m = lemma_trim_end_shape(t, class);
    let r = t.take(m);
    assert(trim_class(s, class) == r);
    if r.len() > 0 {
        assert(r[0] == s[n]);
        assert(r.last() == t[m - 1]);
    }
}

/// What trimming leaves of a text that neither starts nor ends with the class, with
/// characters of the class around it.
proof fn lemma_trim_around(before: Seq<char>, s: Seq<char>, after: Seq<char>, class: CharClass)
    requires
        forall|i: int| 0 <= i < before.len() ==> class_has(class, #[trigger] before[i]),
        forall|i: int| 0 <= i < after.len() ==> class_has(class, #[trigger] after[i]),
        s.len() > 0 ==> !class_has(class, s[0]) && !class_has(class, s.last()),
    ensures
        trim_class(before + s + after, class) == s,
        trim_start_class(before + s, class) == s,
        trim_end_class(s + after, class) == s,
{
    let all = before + s + after;
    let n = before.len() as int;
    assert forall|j: int| 0 <= j < n implies class_has(class, #[trigger] all[j]) by {
        assert(all[j] == before[j]);
    }
    lemma_trim_start_skip(all, class, n);
    let t = s + after;
    assert(all.skip(n) =~= t);
    assert forall|j: int| s.len() <= j < t.len() implies class_has(class, #[trigger] t[j]) by {
        assert(t[j] == after[j - s.len()]);
    }
    lemma_trim_end_take(t, class, s.len() as int);
    assert(t.take(s.len() as int) =~= s);
    assert(trim_end_class(s, class) == s);
    if s.len() > 0 {
        assert(t[0] == s[0]);
        assert(trim_start_class(t, class) == t);
    } else {
        assert forall|j: int| 0 <= j < t.len() implies class_has(class, #[trigger] t[j]) by {
            assert(t[j] == after[j]);
        }
        lemma_trim_start_skip(t, class, t.len() as int);
        assert(t.skip(t.len() as int) =~= s);
    }
    let front = before + s;
    assert forall|j: int| 0 <= j < n implies class_has(class, #[trigger] front[j]) by {
        assert(front[j] == before[j]);
    }
    lemma_trim_start_skip(front, class, n);
    assert(front.skip(n) =~= s);
    assert(trim_start_class(s, class) == s);
}

/// White space around a text that neither starts nor ends with white space is what
/// trimming takes away.
pub(crate) proof fn lemma_trim_padded(before: Seq<char>, s: Seq<char>, after: Seq<char>)
    requires
        forall|i: int| 0 <= i < before.len() ==> is_white_space(#[trigger] before[i]),
        forall|i: int| 0 <= i < after.len() ==> is_white_space(#[trigger] after[i]),
        s.len() > 0,
        !is_white_space(s[0]),
        !is_white_space(s.last()),
    ensures
        trim(before + s + after) == s,
{
    lemma_trim_around(before, s, after, CharClass::Whitespace);
}

/// Trimming takes off the white space around a text, all of it and nothing else.
pub proof fn law_trimming_takes_off_white_space(
    before: Seq<char>,
    s: Seq<char>,
    after: Seq<char>,
)
    requires
        forall|i: int| 0 <= i < before.len() ==> is_white_space(#[trigger] before[i]),
        forall|i: int| 0 <= i < after.len() ==> is_white_space(#[trigger] after[i]),
        s.len() > 0 ==> !is_white_space(s[0]) && !is_white_space(s.last()),
    ensures
        trim(before + s + after) == s,
        is_blank(before + s + after) <==> s.len() == 0,
        trim_start_class(before + s, CharClass::Whitespace) == s,
        trim_end_class(s + after, CharClass::Whitespace) == s,
{
    lemma_trim_around(before, s, after, CharClass::Whitespace);
}

/// Trimming by one character takes off the run of it at the ends, all of it and nothing
/// else.
pub proof fn law_trimming_takes_off_a_character(
    before: Seq<char>,
    s: Seq<char>,
    after: Seq<char>,
    c: char,
)
    requires
        forall|i: int| 0 <= i < before.len() ==> #[trigger] before[i] == c,
        forall|i: int| 0 <= i < after.len() ==> #[trigger] after[i] == c,
        s.len() > 0 ==> s[0] != c && s.last() != c,
    ensures
        trim_class(before + s + after, CharClass::One(c)) == s,
        trim_start_class(before + s, CharClass::One(c)) == s,
        trim_end_class(s + after, CharClass::One(c)) == s,
{
    lemma_trim_around(before, s, after, CharClass::One(c));
}

/// Trimming the end takes off the run of the character there, whatever the text starts with.
pub proof fn law_trimming_the_end_keeps_the_rest(s: Seq<char>, after: Seq<char>, c: char)
    requires
        forall|i: int| 0 <= i < after.len() ==> #[trigger] after[i] == c,
        s.len() > 0 ==> s.last() != c,
    ensures
        trim_end_class(s + after, CharClass::One(c)) == s,
{
    let class = CharClass::One(c);
    let t = s + after;
    assert forall|j: int| s.len() <= j < t.len() implies class_has(class, #[trigger] t[j]) by {
        assert(t[j] == after[j - s.len()]);
    }
    lemma_trim_end_take(t, class, s.len() as int);
    assert(t.take(s.len() as int) =~= s);
}

/// The bounds of what is left of `chars` when both ends are trimmed.
fn trim_bounds(chars: &Vec<char>, class: CharClass) -> (bounds: (usize, usize))
    ensures
        bounds.0 <= bounds.1 <= chars@.len(),
        chars@.subrange(bounds.0 as int, bounds.1 as int) == trim_class(chars@, class),
{
    let mut lo: usize = 0;
    while lo < chars.len() && in_class(class, chars[lo])
        invariant
            lo <= chars@.len(),
            forall|j: int| 0 <= j < lo ==> class_has(class, #[trigger] chars@[j]),
        decreases chars@.len() - lo,
    {
        lo = lo + 1;
    }
    let mut hi: usize = chars.len();
    while hi > lo && in_class(class, chars[hi - 1])
        invariant
            lo <= hi <= chars@.len(),
            forall|j: int| hi <= j < chars@.len() ==> class_has(class, #[trigger] chars@[j]),
        decreases hi,
    {
        hi = hi - 1;
    }
    proof {
        let s = chars@;
        lemma_trim_start_skip(s, class, lo as int);
        let t = s.skip(lo as int);
        assert(trim_start_class(t, class) == t) by {
            if t.len() > 0 {
                assert(t[0] == s[lo as int]);
            }
        }
        assert forall|j: int| hi - lo <= j < t.len() implies class_has(class, #[trigger] t[j]) by {
            assert(t[j] == s[lo + j]);
        }
        lemma_trim_end_take(t, class, hi - lo);
        let r = t.take(hi - lo);
        assert(trim_end_class(r, class) == r) by {
            if r.len() > 0 {
                assert(r.last() == s[hi - 1]);
            }
        }
        assert(r =~= s.subrange(lo as int, hi as int));
    }
    (lo, hi)
}

/// A text without the characters of the class at both ends.
pub fn trim_text_class(s: &str, class: CharClass) -> (trimmed: String)
    ensures
        trimmed@ == trim_class(s@, class),
{
    let chars = to_chars(s);
    let (lo, hi) = trim_bounds(&chars, class);
    slice_text(&chars, lo, hi)
}

/// A text without the white space at both ends.
pub fn trim_text(s: &str) -> (trimmed: String)
    ensures
        trimmed@ == trim(s@),
{
    trim_text_class(s, CharClass::Whitespace)
}

/// Whether a text holds nothing but white space.
pub fn text_is_blank(s: &str) -> (blank: bool)
    ensures
        blank == is_blank(s@),
{
    let chars = to_chars(s);
    let (lo, hi) = trim_bounds(&chars, CharClass::Whitespace);
    lo == hi
}

/// A text without the characters of the class at its end.
pub fn trim_text_end(s: &str, class: CharClass) -> (trimmed: String)
    ensures
        trimmed@ == trim_end_class(s@, class),
{
    let chars = to_chars(s);
    let mut hi: usize = chars.len();
    while hi > 0 && in_class(class, chars[hi - 1])
        invariant
            hi <= chars@.len(),
            forall|j: int| hi <= j < chars@.len() ==> class_has(class, #[trigger] chars@[j]),
        decreases hi,
    {
        hi = hi - 1;
    }
    proof {
        lemma_trim_end_take(chars@, class, hi as int);
        let r = chars@.take(hi as int);
        assert(trim_end_class(r, class) == r) by {
            if r.len() > 0 {
                assert(r.last() == chars@[hi - 1]);
            }
        }
        assert(r =~= chars@.subrange(0, hi as int));
    }
    slice_text(&chars, 0, hi)
}

} // verus!
