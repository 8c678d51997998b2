//! Lines and words of a text.

use vstd::prelude::*;

use crate::text::{
    is_white_space, lemma_texts_push, slice_text, texts, to_chars, trim_start_class, white_space,
    CharClass,
};

verus! {

// ---------------------------------------------------------------------------
// Lines
// ---------------------------------------------------------------------------

/// The position of the first `c` in `s`, or the length of `s` if it has none.
pub open spec fn index_of_char(s: Seq<char>, c: char) -> nat
    decreases s.len(),
{
    if s.len() == 0 || s[0] == c {
        0
    } else {
        1 + index_of_char(s.drop_first(), c)
    }
}

/// `index_of_char` is the end of the longest start of `s` without `c`.
pub(crate) proof fn lemma_index_of_char(s: Seq<char>, c: char, n: int)
    requires
        0 <= n <= s.len(),
        forall|j: int| 0 <= j < n ==> #[trigger] s[j] != c,
        n < s.len() ==> s[n] == c,
    ensures
        index_of_char(s, c) == n,
    decreases n,
{
    if n > 0 {
        assert(s[0] != c);
        assert forall|j: int| 0 <= j < n - 1 implies #[trigger] s.drop_first()[j] != c by {
            assert(s[j + 1] != c);
        }
        lemma_index_of_char(s.drop_first(), c, n - 1);
    }
}

/// A line without the carriage return that its line feed may follow.
pub open spec fn strip_carriage_return(line: Seq<char>) -> Seq<char> {
    if line.len() > 0 && line.last() == '\r' {
        line.drop_last()
    } else {
        line
    }
}

/// The lines of a text. A line ends with a line feed or with a carriage return and a
/// line feed, neither of which belongs to it; the end of the last line may be missing.
pub open spec fn lines(s: Seq<char>) -> Seq<Seq<char>>
    decreases s.len(),
{
    if s.len() == 0 {
        Seq::empty()
    } else {
        let end = index_of_char(s, '\n') as int;
        if end < s.len() {
            seq![strip_carriage_return(s.take(end))] + lines(s.skip(end + 1))
        } else {
            seq![s]
        }
    }
}

/// The first position from `from` on that holds `c`, or the length of `chars`.
fn find_char(chars: &Vec<char>, from: usize, c: char) -> (at: usize)
    requires
        from <= chars@.len(),
    ensures
        from <= at <= chars@.len(),
        at - from == index_of_char(chars@.skip(from as int), c),
{
    let mut at: usize = from;
    while at < chars.len() && chars[at] != c
        invariant
            from <= at <= chars@.len(),
            forall|j: int| from <= j < at ==> #[trigger] chars@[j] != c,
        decreases chars@.len() - at,
    {
        at = at + 1;
    }
    proof {
        let rest = chars@.skip(from as int);
        assert forall|j: int| 0 <= j < at - from implies #[trigger] rest[j] != c by {
            assert(chars@[from + j] != c);
        }
        lemma_index_of_char(rest, c, at - from);
    }
    at
}

/// The lines of a text.
pub fn text_lines(s: &str) -> (list: Vec<String>)
    ensures
        texts(list@) == lines(s@),
{
    let chars = to_chars(s);
    let mut out: Vec<String> = Vec::new();
    let mut at: usize = 0;
    assert(chars@.skip(0) =~= s@);
    assert(texts(out@) + lines(s@) =~= lines(s@));
    while at < chars.len()
        invariant
            chars@ == s@,
            at <= chars@.len(),
            texts(out@) + lines(chars@.skip(at as int)) == lines(s@),
        decreases chars@.len() - at,
    {
        let ghost rest = chars@.skip(at as int);
        let ghost before = out@;
        let end = find_char(&chars, at, '\n');
        if end < chars.len() {
            let mut stop: usize = end;
            if end > at && chars[end - 1] == '\r' {
                stop = end - 1;
            }
            let line = slice_text(&chars, at, stop);
            proof {
                let taken = rest.take(end - at);
                assert(taken =~= chars@.subrange(at as int, end as int));
                assert(line@ =~= strip_carriage_return(taken));
                assert(rest.skip(end - at + 1) =~= chars@.skip(end + 1));
                lemma_texts_push(before, line);
                assert(lines(rest) == seq![line@] + lines(chars@.skip(end + 1)));
                assert(texts(before) + (seq![line@] + lines(chars@.skip(end + 1)))
                    =~= texts(before).push(line@) + lines(chars@.skip(end + 1)));
            }
            out.push(line);
            at = end + 1;
        } else {
            let line = slice_text(&chars, at, end);
            proof {
                assert(line@ =~= rest);
                lemma_texts_push(before, line);
                assert(lines(rest) == seq![rest]);
                assert(lines(chars@.skip(end as int)) =~= Seq::<Seq<char>>::empty());
                assert(texts(before) + seq![line@] =~= texts(before).push(line@) + lines(
                    chars@.skip(end as int),
                ));
            }
            out.push(line);
            at = end;
        }
    }
    assert(lines(chars@.skip(at as int)) =~= Seq::<Seq<char>>::empty());
    assert(texts(out@) =~= lines(s@));
    out
}

// ---------------------------------------------------------------------------
// Line feeds
// ---------------------------------------------------------------------------

/// The number of line feeds in `s`.
pub open spec fn newlines(s: Seq<char>) -> nat
    decreases s.len(),
{
    if s.len() == 0 {
        0
    } else {
        newlines(s.drop_last()) + if s.last() == '\n' {
            1nat
        } else {
            0nat
        }
    }
}

/// The line feeds of two texts add up when the texts are joined.
pub(crate) proof fn lemma_newlines_add(a: Seq<char>, b: Seq<char>)
    ensures
        newlines(a + b) == newlines(a) + newlines(b),
    decreases b.len(),
{
    if b.len() == 0 {
        assert(a + b =~= a);
    } else {
        lemma_newlines_add(a, b.drop_last());
        assert((a + b).drop_last() =~= a + b.drop_last());
        assert((a + b).last() == b.last());
    }
}

/// The number of line feeds among the first `to` characters.
pub fn count_newlines(chars: &Vec<char>, to: usize) -> (n: usize)
    requires
        to <= chars@.len(),
    ensures
        n == newlines(chars@.take(to as int)),
        n <= to,
{
    let mut n: usize = 0;
    assert(chars@.take(0) =~= Seq::<char>::empty());
    for i in 0..to
        invariant
            to <= chars@.len(),
            n == newlines(chars@.take(i as int)),
            n <= i,
    {
        assert(chars@.take(i + 1).drop_last() =~= chars@.take(i as int));
        if chars[i] == '\n' {
            n = n + 1;
        }
    }
    n
}

// ---------------------------------------------------------------------------
// Words
// ---------------------------------------------------------------------------

/// The length of the run of characters other than white space that `s` starts with.
pub open spec fn word_len(s: Seq<char>) -> nat
    decreases s.len(),
{
    if s.len() == 0 || is_white_space(s[0]) {
        0
    } else {
        1 + word_len(s.drop_first())
    }
}

/// The first word of `s` and what follows it: a word is a longest run of characters
/// other than white space. There is none in a blank text.
pub open spec fn next_word(s: Seq<char>) -> Option<(Seq<char>, Seq<char>)> {
    let t = trim_start_class(s, CharClass::Whitespace);
    if t.len() == 0 {
        None
    } else {
        Some((t.take(word_len(t) as int), t.skip(word_len(t) as int)))
    }
}

proof fn lemma_word_len(s: Seq<char>, n: int)
    requires
        0 <= n <= s.len(),
        forall|j: int| 0 <= j < n ==> !is_white_space(#[trigger] s[j]),
        n < s.len() ==> is_white_space(s[n]),
    ensures
        word_len(s) == n,
    decreases n,
{
    if n > 0 {
        assert(!is_white_space(s[0]));
        assert forall|j: int| 0 <= j < n - 1 implies !is_white_space(
            #[trigger] s.drop_first()[j],
        ) by {
            assert(!is_white_space(s[j + 1]));
        }
        lemma_word_len(s.drop_first(), n - 1);
    }
}

/// The bounds of the first word from `from` on.
fn word_bounds(chars: &Vec<char>, from: usize) -> (bounds: Option<(usize, usize)>)
    requires
        from <= chars@.len(),
    ensures
        match bounds {
            Some((lo, hi)) => {
                &&& from <= lo < hi <= chars@.len()
                &&& next_word(chars@.skip(from as int)) == Some(
                    (chars@.subrange(lo as int, hi as int), chars@.skip(hi as int)),
                )
            },
            None => next_word(chars@.skip(from as int)) is None,
        },
{
    let mut lo: usize = from;
    while lo < chars.len() && white_space(chars[lo])
        invariant
            from <= lo <= chars@.len(),
            forall|j: int| from <= j < lo ==> is_white_space(#[trigger] chars@[j]),
        decreases chars@.len() - lo,
    {
        lo = lo + 1;
    }
    let mut hi: usize = lo;
    while hi < chars.len() && !white_space(chars[hi])
        invariant
            lo <= hi <= chars@.len(),
            forall|j: int| lo <= j < hi ==> !is_white_space(#[trigger] chars@[j]),
        decreases chars@.len() - hi,
    {
        hi = hi + 1;
    }
    proof {
        let s = chars@.skip(from as int);
        let n = crate::text::lemma_trim_start_shape(s, CharClass::Whitespace);
        let t = chars@.skip(lo as int);
        assert(n == lo - from) by {
            if n < lo - from {
                assert(s[n] == chars@[from + n]);
            } else if n > lo - from {
                assert(s[lo - from] == chars@[lo as int]);
            }
        }
        assert(s.skip(n) =~= t);
        assert forall|j: int| 0 <= j < hi - lo implies !is_white_space(#[trigger] t[j]) by {
            assert(!is_white_space(chars@[lo + j]));
        }
        lemma_word_len(t, hi - lo);
        assert(t.take(hi - lo) =~= chars@.subrange(lo as int, hi as int));
        assert(t.skip(hi - lo) =~= chars@.skip(hi as int));
    }
    if lo == chars.len() {
        None
    } else {
        Some((lo, hi))
    }
}

/// The first two words of a text, if it has two.
pub open spec fn first_two_words(s: Seq<char>) -> Option<(Seq<char>, Seq<char>)> {
    match next_word(s) {
        Some((first, rest)) => match next_word(rest) {
            Some((second, _)) => Some((first, second)),
            None => None,
        },
        None => None,
    }
}

/// The first two words of a text, if it has two.
pub fn text_first_two_words(s: &str) -> (words: Option<(String, String)>)
    ensures
        match words {
            Some((a, b)) => first_two_words(s@) == Some((a@, b@)),
            None => first_two_words(s@) is None,
        },
{
    let chars = to_chars(s);
    assert(chars@.skip(0) =~= s@);
    match word_bounds(&chars, 0) {
        Some((lo, hi)) => match word_bounds(&chars, hi) {
            Some((lo2, hi2)) => Some((slice_text(&chars, lo, hi), slice_text(&chars, lo2, hi2))),
            None => None,
        },
        None => None,
    }
}

// ---------------------------------------------------------------------------
// What holds of lines and words
// ---------------------------------------------------------------------------

/// A line feed ends a line: what stands before it is the line, without a carriage return at
/// its end, and the lines of what stands behind it follow. What no line feed ends is a line
/// as it is, if it is anything.
pub proof fn law_line_feeds_end_lines(line: Seq<char>, rest: Seq<char>)
    requires
        !line.contains('\n'),
    ensures
        lines(line + seq!['\n'] + rest) == seq![
            if line.len() > 0 && line.last() == '\r' {
                line.drop_last()
            } else {
                line
            },
        ] + lines(rest),
        line.len() > 0 ==> lines(line) == seq![line],
        lines(Seq::empty()) == Seq::<Seq<char>>::empty(),
{
    let all = line + seq!['\n'] + rest;
    let n = line.len() as int;
    assert forall|j: int| 0 <= j < n implies #[trigger] all[j] != '\n' by {
        assert(all[j] == line[j]);
        assert(line.contains(line[j]));
    }
    lemma_index_of_char(all, '\n', n);
    assert(all.take(n) =~= line);
    assert(all.skip(n + 1) =~= rest);
    if line.len() > 0 {
        assert forall|j: int| 0 <= j < n implies #[trigger] line[j] != '\n' by {
            assert(line.contains(line[j]));
        }
        lemma_index_of_char(line, '\n', n);
    }
}

/// The line feeds of a text are counted one by one.
pub proof fn law_line_feeds_are_counted(a: Seq<char>, b: Seq<char>, c: char)
    ensures
        newlines(a + b) == newlines(a) + newlines(b),
        newlines(seq![c]) == if c == '\n' {
            1nat
        } else {
            0nat
        },
        newlines(Seq::empty()) == 0,
{
    lemma_newlines_add(a, b);
    assert(seq![c].drop_last() =~= Seq::<char>::empty());
    assert(newlines(seq![c].drop_last()) == 0);
}

/// Whether a text is made of white space alone.
spec fn all_white(s: Seq<char>) -> bool {
    forall|i: int| 0 <= i < s.len() ==> is_white_space(#[trigger] s[i])
}

/// Whether no character of a text is white space.
spec fn all_black(s: Seq<char>) -> bool {
    forall|i: int| 0 <= i < s.len() ==> !is_white_space(#[trigger] s[i])
}

proof fn lemma_next_word(gap: Seq<char>, word: Seq<char>, rest: Seq<char>)
    requires
        all_white(gap),
        word.len() > 0,
        all_black(word),
        rest.len() > 0 ==> is_white_space(rest[0]),
    ensures
        next_word(gap + word + rest) == Some((word, rest)),
{
    let s = gap + word + rest;
    let n = crate::text::lemma_trim_start_shape(s, CharClass::Whitespace);
    let g = gap.len() as int;
    assert(n == g) by {
        if n < g {
            assert(s[n] == gap[n]);
        } else if n > g {
            assert(s[g] == word[0]);
        }
    }
    let t = s.skip(n);
    assert(t =~= word + rest);
    assert forall|j: int| 0 <= j < word.len() implies !is_white_space(#[trigger] t[j]) by {
        assert(t[j] == word[j]);
    }
    lemma_word_len(t, word.len() as int);
    assert(t.take(word.len() as int) =~= word);
    assert(t.skip(word.len() as int) =~= rest);
}

proof fn lemma_no_next_word(gap: Seq<char>)
    requires
        all_white(gap),
    ensures
        next_word(gap) is None,
{
    let n = crate::text::lemma_trim_start_shape(gap, CharClass::Whitespace);
    if n < gap.len() {
        assert(is_white_space(gap[n]));
    }
}

/// The first two words of a text are what they are whatever white space stands before,
/// between and behind them.
pub proof fn law_words_stand_between_white_space(
    gap: Seq<char>,
    first: Seq<char>,
    between: Seq<char>,
    second: Seq<char>,
    rest: Seq<char>,
)
    requires
        forall|i: int| 0 <= i < gap.len() ==> is_white_space(#[trigger] gap[i]),
        first.len() > 0,
        forall|i: int| 0 <= i < first.len() ==> !is_white_space(#[trigger] first[i]),
        between.len() > 0,
        forall|i: int| 0 <= i < between.len() ==> is_white_space(#[trigger] between[i]),
        second.len() > 0,
        forall|i: int| 0 <= i < second.len() ==> !is_white_space(#[trigger] second[i]),
        rest.len() > 0 ==> is_white_space(rest[0]),
    ensures
        first_two_words(gap + first + between + second + rest) == Some((first, second)),
{
    let behind = between + second + rest;
    assert(behind[0] == between[0]);
    lemma_next_word(gap, first, behind);
    assert(gap + first + behind =~= gap + first + between + second + rest);
    lemma_next_word(between, second, rest);
}

/// A text with at most one word has no first two words.
pub proof fn law_one_word_is_not_two(gap: Seq<char>, word: Seq<char>, rest: Seq<char>)
    requires
        forall|i: int| 0 <= i < gap.len() ==> is_white_space(#[trigger] gap[i]),
        forall|i: int| 0 <= i < word.len() ==> !is_white_space(#[trigger] word[i]),
        forall|i: int| 0 <= i < rest.len() ==> is_white_space(#[trigger] rest[i]),
    ensures
        first_two_words(gap + word + rest) is None,
{
    if word.len() > 0 {
        lemma_next_word(gap, word, rest);
        lemma_no_next_word(rest);
    } else {
        let s = gap + word + rest;
        assert forall|i: int| 0 <= i < s.len() implies is_white_space(#[trigger] s[i]) by {
            if i < gap.len() {
                assert(s[i] == gap[i]);
            } else {
                assert(s[i] == rest[i - gap.len()]);
            }
        }
        lemma_no_next_word(s);
    }
}

} // verus!
