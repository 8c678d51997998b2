//! Cutting source files into chunks.

use vstd::prelude::*;
use vstd::utf8::is_ascii_chars;

use opencodesearchparser::recursive_character_text_splitter::RecursiveCharacterTextSplitter;
use opencodesearchparser::{parse_str, CodeLanguage};
use regex::Regex;

use crate::chunking_laws::{
    lemma_merged_blocks, lemma_nonblank_pieces, lemma_trimmed_blocks, none_blank,
};
use crate::find::{ascii_lower, contains_text, find_chars, first_occurrence, lower_text};
use crate::lines::{count_newlines, newlines};
use crate::number::{decimal, decimal_text};
use crate::paths::{extension, name_extension};
use crate::text::{
    byte_len, copy_text, is_blank, lemma_byte_len_add, lemma_byte_len_zero, lemma_texts_push,
    opt_texts, same_text, text_byte_len, text_is_blank, texts, to_chars, trim, trim_text,
};
use crate::types::{chunk_views, lemma_chunk_views_push, ChunkView, CodeChunk};

verus! {

// ---------------------------------------------------------------------------
// Languages
// ---------------------------------------------------------------------------

/// The languages that source files are parsed in.
#[derive(Debug, Clone, Copy, PartialEq, Eq, Structural)]
pub enum SourceLanguage {
    Rust,
    Python,
    JavaScript,
    C,
    Cpp,
}

/// The language that an extension in lower case stands for.
pub open spec fn extension_language(ext: Seq<char>) -> Option<SourceLanguage> {
    if ext == "rs"@ {
        Some(SourceLanguage::Rust)
    } else if ext == "py"@ {
        Some(SourceLanguage::Python)
    } else if ext == "js"@ {
        Some(SourceLanguage::JavaScript)
    } else if ext == "c"@ {
        Some(SourceLanguage::C)
    } else if ext == "cpp"@ || ext == "cc"@ || ext == "cxx"@ {
        Some(SourceLanguage::Cpp)
    } else {
        None
    }
}

/// The language of a file, by the extension of its name in any case.
pub open spec fn language_of(file_name: Seq<char>) -> Option<SourceLanguage> {
    match extension(file_name) {
        Some(ext) => extension_language(ascii_lower(ext)),
        None => None,
    }
}

/// The language of a file, by its name.
pub fn guess_language(file_name: &str) -> (language: Option<SourceLanguage>)
    ensures
        language == language_of(file_name@),
{
    match name_extension(file_name) {
        Some(raw) => {
            let ext = lower_text(raw.as_str());
            let ext = ext.as_str();
            if same_text(ext, "rs") {
                Some(SourceLanguage::Rust)
            } else if same_text(ext, "py") {
                Some(SourceLanguage::Python)
            } else if same_text(ext, "js") {
                Some(SourceLanguage::JavaScript)
            } else if same_text(ext, "c") {
                Some(SourceLanguage::C)
            } else if same_text(ext, "cpp") || same_text(ext, "cc") || same_text(ext, "cxx") {
                Some(SourceLanguage::Cpp)
            } else {
                None
            }
        },
        None => None,
    }
}

// ---------------------------------------------------------------------------
// What the parser, the regular expressions and the splitter give
// ---------------------------------------------------------------------------

/// The white space before the first other character of a line.
#[verifier::ext_equal]
pub struct Indent {
    /// Its columns; a tab counts eight.
    pub columns: nat,
    /// Whether no other character came yet.
    pub leading: bool,
}

/// The indentation after one more character. What follows a null character can count as the
/// start of a line too.
pub open spec fn indent_after(indent: Indent, c: char) -> Indent {
    if c == '\n' || c == '\0' {
        Indent { columns: 0, leading: true }
    } else if c == '\r' || c == '\u{c}' {
        Indent { columns: 0, ..indent }
    } else if c == '\\' {
        indent
    } else if c == ' ' && indent.leading {
        Indent { columns: indent.columns + 1, ..indent }
    } else if c == '\t' && indent.leading {
        Indent { columns: indent.columns + 8, ..indent }
    } else {
        Indent { columns: 0, leading: false }
    }
}

/// The indentation at the end of a text.
pub open spec fn indent_at_end(text: Seq<char>) -> Indent
    decreases text.len(),
{
    if text.len() == 0 {
        Indent { columns: 0, leading: true }
    } else {
        indent_after(indent_at_end(text.drop_last()), text.last())
    }
}

/// Whether a character ends the indentation of a line that is not blank.
pub open spec fn ends_indent(c: char) -> bool {
    c != ' ' && c != '\t' && c != '\n' && c != '\r' && c != '\u{c}' && c != '\\'
}

/// The widths by which lines are indented.
pub open spec fn indent_widths(text: Seq<char>) -> Set<nat>
    decreases text.len(),
{
    if text.len() == 0 {
        Set::empty()
    } else {
        let before = indent_widths(text.drop_last());
        let indent = indent_at_end(text.drop_last());
        if indent.leading && indent.columns > 0 && ends_indent(text.last()) {
            before.insert(indent.columns)
        } else {
            before
        }
    }
}

/// The number of backslashes within the indentation of lines. Each can join two lines to one
/// of another width.
pub open spec fn indent_joins(text: Seq<char>) -> nat
    decreases text.len(),
{
    if text.len() == 0 {
        0
    } else {
        indent_joins(text.drop_last()) + if text.last() == '\\' && indent_at_end(
            text.drop_last(),
        ).leading {
            1nat
        } else {
            0nat
        }
    }
}

/// The largest number of levels of indentation in Python source that is handed to the parser.
/// Its scanner keeps two bytes for each open level, and up to 257 others, in a buffer of 1024.
pub const MAX_LEVELS: usize = 383;

/// Whether no more than `MAX_LEVELS` levels of indentation can be open at once: each is wider
/// than the one around it, so there are no more of them than widths.
pub open spec fn levels_fit(text: Seq<char>) -> bool {
    indent_widths(text).len() + indent_joins(text) <= MAX_LEVELS
}

/// Whether source is handed to the parser of its language, which counts bytes in 32 bits.
pub open spec fn parser_takes(source: Seq<char>, language: SourceLanguage) -> bool {
    &&& byte_len(source) <= u32::MAX
    &&& language == SourceLanguage::Python ==> levels_fit(source)
}

/// Whether the parser sees the same in a source text everywhere. Those for Rust, JavaScript
/// and C++ ask the C library, which goes by the locale, for the class of characters beyond
/// ASCII.
pub open spec fn locale_free(source: Seq<char>, language: SourceLanguage) -> bool {
    language == SourceLanguage::Python || language == SourceLanguage::C || is_ascii_chars(source)
}

/// Whether texts can be segments of a source text: each stands in it and holds more than
/// white space.
pub open spec fn are_segments(source: Seq<char>, segments: Seq<Seq<char>>) -> bool {
    forall|i: int|
        0 <= i < segments.len() ==> !is_blank(#[trigger] segments[i]) && contains_text(
            source,
            segments[i],
        )
}

/// The top-level segments that `opencodesearchparser::parse_str` finds in a source text in
/// which it sees the same everywhere.
pub uninterp spec fn parsed_segments(source: Seq<char>, language: SourceLanguage) -> Seq<Seq<char>>;

/// `opencodesearchparser::parse_str`, with the language as that crate names it. Where it
/// succeeds, each segment stands in the source text and holds more than white space; the
/// segments follow from source text and language alone unless the locale has a say. It can
/// fail on any input, since it starts threads of its own. It is only called on source that
/// its parsers take.
#[verifier::external_body]
fn parse_source(source: &str, language: SourceLanguage, threads: u16) -> (segments: Option<
    Vec<String>,
>)
    requires
        parser_takes(source@, language),
    ensures
        segments matches Some(list) ==> are_segments(source@, texts(list@)) && (locale_free(
            source@,
            language,
        ) ==> texts(list@) == parsed_segments(source@, language)),
{
    let lang = match language {
        SourceLanguage::Rust => CodeLanguage::Rust,
        SourceLanguage::Python => CodeLanguage::Python,
        SourceLanguage::JavaScript => CodeLanguage::JavaScript,
        SourceLanguage::C => CodeLanguage::C,
        SourceLanguage::Cpp => CodeLanguage::Cpp,
    };
    parse_str(source, lang, threads).ok()
}

/// The texts that a pattern of the `regex` crate matches one after the other in a text;
/// `None` for a pattern that the crate rejects.
pub uninterp spec fn regex_matches(pattern: Seq<char>, text: Seq<char>) -> Option<Seq<Seq<char>>>;

/// `regex::Regex::new` and, on the pattern that it compiles, `captures_iter`: the whole
/// match of each capture, in order.
#[verifier::external_body]
fn find_regex_matches(pattern: &str, text: &str) -> (found: Option<Vec<String>>)
    ensures
        match found {
            Some(list) => regex_matches(pattern@, text@) == Some(texts(list@)),
            None => regex_matches(pattern@, text@) is None,
        },
{
    let regex = Regex::new(pattern).ok()?;
    Some(regex.captures_iter(text).map(|capture| capture[0].to_string()).collect())
}

/// The pieces that a `RecursiveCharacterTextSplitter` with its default separators cuts a
/// text into, for a chunk size and an overlap.
pub uninterp spec fn split_pieces(text: Seq<char>, chunk_size: nat, overlap: nat) -> Seq<Seq<char>>;

/// `RecursiveCharacterTextSplitter::new` with the default separators, and `split_text`.
/// Each piece holds more than white space, and a text that does so gives a piece.
#[verifier::external_body]
fn split_text(text: &str, chunk_size: usize, overlap: usize) -> (pieces: Vec<String>)
    ensures
        texts(pieces@) == split_pieces(text@, chunk_size as nat, overlap as nat),
        forall|i: int| 0 <= i < pieces@.len() ==> !is_blank(#[trigger] texts(pieces@)[i]),
        !is_blank(text@) ==> pieces@.len() > 0,
{
    RecursiveCharacterTextSplitter::new(None, chunk_size, overlap).split_text(text)
}

// ---------------------------------------------------------------------------
// Blocks
// ---------------------------------------------------------------------------

/// The blocks with the white space around them taken away, without those that are blank.
pub open spec fn trimmed_blocks(blocks: Seq<Seq<char>>) -> Seq<Seq<char>>
    decreases blocks.len(),
{
    if blocks.len() == 0 {
        Seq::empty()
    } else if is_blank(blocks[0]) {
        trimmed_blocks(blocks.drop_first())
    } else {
        seq![trim(blocks[0])] + trimmed_blocks(blocks.drop_first())
    }
}

/// The pattern of a block that starts with a definition and reaches up to the next one. It
/// looks ahead, which `regex` 1.13 does not take: there it finds nothing.
pub const BLOCK_PATTERN: &'static str =
    r"(?ms)(^\s*(?:def|fn|function|class|impl)\s+[^\n\{\(]+[\{\(:]?.*?)(?=^\s*(?:def|fn|function|class|impl)\s+|\z)";

/// The blocks that are left of what a pattern matched.
pub open spec fn matched_blocks(found: Option<Seq<Seq<char>>>) -> Seq<Seq<char>> {
    match found {
        Some(list) => trimmed_blocks(list),
        None => Seq::empty(),
    }
}

/// What is left of a list of matches: each without the white space around it, the blank
/// ones left out; nothing where the pattern was rejected.
pub fn blocks_of_matches(found: Option<Vec<String>>) -> (blocks: Vec<String>)
    ensures
        texts(blocks@) == matched_blocks(
            opt_texts(found),
        ),
{
    let mut out: Vec<String> = Vec::new();
    match found {
        Some(list) => {
            let ghost all = texts(list@);
            assert(all.skip(0) =~= all);
            assert(texts(out@) + trimmed_blocks(all) =~= trimmed_blocks(all));
            for i in 0..list.len()
                invariant
                    all == texts(list@),
                    texts(out@) + trimmed_blocks(all.skip(i as int)) == trimmed_blocks(all),
            {
                let ghost rest = all.skip(i as int);
                let ghost before = out@;
                assert(rest[0] == list@[i as int]@);
                assert(rest.drop_first() =~= all.skip(i + 1));
                let block = trim_text(list[i].as_str());
                if text_byte_len(block.as_str()) > 0 {
                    proof {
                        lemma_byte_len_zero(block@);
                        lemma_texts_push(before, block);
                        let tail = trimmed_blocks(all.skip(i + 1));
                        assert(texts(before) + (seq![block@] + tail) =~= texts(before).push(block@)
                            + tail);
                    }
                    out.push(block);
                } else {
                    proof {
                        lemma_byte_len_zero(block@);
                    }
                }
            }
            assert(all.skip(list@.len() as int) =~= Seq::<Seq<char>>::empty());
            assert(texts(out@) =~= trimmed_blocks(all));
        },
        None => {
            assert(texts(out@) =~= Seq::<Seq<char>>::empty());
        },
    }
    out
}

/// The blocks of a text that `BLOCK_PATTERN` finds.
pub open spec fn fallback_blocks(content: Seq<char>) -> Seq<Seq<char>> {
    matched_blocks(regex_matches(BLOCK_PATTERN@, content))
}

/// The blocks that the pattern finds are not blank.
proof fn lemma_fallback_blocks(content: Seq<char>)
    ensures
        none_blank(fallback_blocks(content)),
{
    match regex_matches(BLOCK_PATTERN@, content) {
        Some(list) => {
            lemma_trimmed_blocks(list);
        },
        None => {},
    }
}

/// The blocks of a text for which no parser is at hand.
pub fn regex_fallback_blocks(content: &str) -> (blocks: Vec<String>)
    ensures
        texts(blocks@) == fallback_blocks(content@),
{
    blocks_of_matches(find_regex_matches(BLOCK_PATTERN, content))
}

/// The blocks that a file starts from: what the parser found, unless it found nothing or
/// failed; then what the pattern found; and the whole file where that is nothing either.
pub open spec fn initial_blocks(
    content: Seq<char>,
    parsed: Option<Seq<Seq<char>>>,
    fallback: Seq<Seq<char>>,
) -> Seq<Seq<char>> {
    if parsed is Some && parsed->0.len() > 0 {
        parsed->0
    } else if fallback.len() > 0 {
        fallback
    } else {
        seq![content]
    }
}

/// The blocks that a file starts from.
pub fn select_blocks(content: &str, parsed: Option<Vec<String>>) -> (blocks: Vec<String>)
    ensures
        texts(blocks@) == initial_blocks(
            content@,
            opt_texts(parsed),
            fallback_blocks(content@),
        ),
{
    if let Some(items) = parsed {
        if items.len() > 0 {
            return items;
        }
    }
    let mut blocks = regex_fallback_blocks(content);
    if blocks.len() == 0 {
        blocks.push(copy_text(content));
        assert(texts(blocks@) =~= seq![content@]);
    }
    blocks
}

// ---------------------------------------------------------------------------
// Merging neighbours
// ---------------------------------------------------------------------------

/// The empty line that separates blocks that were merged.
pub open spec fn separator() -> Seq<char> {
    seq!['\n', '\n']
}

/// A block added to what has been merged so far.
pub open spec fn extended(current: Seq<char>, block: Seq<char>) -> Seq<char> {
    if current.len() == 0 {
        block
    } else {
        current + separator() + block
    }
}

/// A text as a list of its own, nothing for the empty text.
pub open spec fn unless_empty(current: Seq<char>) -> Seq<Seq<char>> {
    if current.len() == 0 {
        Seq::empty()
    } else {
        seq![current]
    }
}

/// Blocks merged greedily: a block joins the ones before it as long as the result takes no
/// more than `target` bytes, and starts a new result otherwise. A block that alone takes
/// more is a result of its own.
pub open spec fn pack(blocks: Seq<Seq<char>>, current: Seq<char>, target: nat) -> Seq<Seq<char>>
    decreases blocks.len(),
{
    if blocks.len() == 0 {
        unless_empty(current)
    } else {
        let block = blocks[0];
        let rest = blocks.drop_first();
        if byte_len(extended(current, block)) <= target {
            pack(rest, extended(current, block), target)
        } else if byte_len(block) > target {
            unless_empty(current) + seq![block] + pack(rest, Seq::empty(), target)
        } else {
            unless_empty(current) + pack(rest, block, target)
        }
    }
}

/// The size towards which blocks are merged.
pub open spec fn merge_target(context_size: usize) -> nat {
    if context_size == 0 {
        1
    } else {
        context_size as nat
    }
}

/// The blocks of a file merged towards a context size.
pub open spec fn merged_blocks(blocks: Seq<Seq<char>>, context_size: usize) -> Seq<Seq<char>> {
    pack(trimmed_blocks(blocks), Seq::empty(), merge_target(context_size))
}

/// A block adds its own bytes and, behind another, the two of the separator.
pub(crate) proof fn lemma_byte_len_extended(current: Seq<char>, block: Seq<char>)
    ensures
        byte_len(extended(current, block)) == byte_len(current) + byte_len(block) + if current.len()
            == 0 {
            0nat
        } else {
            2nat
        },
{
    lemma_byte_len_zero(current);
    lemma_byte_len_add(current, separator());
    lemma_byte_len_add(current + separator(), block);
    assert(byte_len(separator()) == 2) by {
        reveal_with_fuel(vstd::utf8::encode_utf8, 3);
        assert(separator().drop_first() =~= seq!['\n']);
        assert(seq!['\n'].drop_first() =~= Seq::<char>::empty());
    }
}

/// Merges neighbouring blocks so that the results come close to the context size.
pub fn merge_neighboring_blocks(blocks: Vec<String>, context_size: usize) -> (merged: Vec<String>)
    ensures
        texts(merged@) == merged_blocks(texts(blocks@), context_size),
{
    let target: usize = if context_size == 0 {
        1
    } else {
        context_size
    };
    let mut merged: Vec<String> = Vec::new();
    let mut current = String::new();
    let ghost all = texts(blocks@);
    let ghost want = merged_blocks(all, context_size);
    proof {
        assert(all.skip(0) =~= all);
        assert(texts(merged@) + want =~= want);
    }
    for i in 0..blocks.len()
        invariant
            all == texts(blocks@),
            want == texts(merged@) + pack(
                trimmed_blocks(all.skip(i as int)),
                current@,
                target as nat,
            ),
    {
        let ghost rest = all.skip(i as int);
        let ghost done = texts(merged@);
        let ghost was = current@;
        proof {
            assert(rest[0] == blocks@[i as int]@);
            assert(rest.drop_first() =~= all.skip(i + 1));
        }
        if !text_is_blank(blocks[i].as_str()) {
            let block = trim_text(blocks[i].as_str());
            let ghost later = trimmed_blocks(all.skip(i + 1));
            proof {
                assert(trimmed_blocks(rest) == seq![block@] + later);
                assert((seq![block@] + later).drop_first() =~= later);
                lemma_byte_len_extended(was, block@);
                lemma_byte_len_zero(was);
            }
            let current_len = text_byte_len(current.as_str());
            let block_len = text_byte_len(block.as_str());
            if fits(current_len, block_len, target) {
                if current_len > 0 {
                    current.push('\n');
                    current.push('\n');
                    assert(current@ =~= was + separator());
                }
                current.append(block.as_str());
                assert(current@ =~= extended(was, block@));
            } else {
                if current_len > 0 {
                    proof {
                        lemma_texts_push(merged@, current);
                    }
                    merged.push(current);
                    current = String::new();
                }
                assert(texts(merged@) =~= done + unless_empty(was));
                if block_len > target {
                    let ghost before = merged@;
                    merged.push(block);
                    proof {
                        lemma_texts_push(before, block);
                        assert(current@ =~= Seq::<char>::empty());
                        let tail = pack(later, Seq::empty(), target as nat);
                        assert(done + (unless_empty(was) + seq![block@] + tail) =~= texts(merged@)
                            + tail);
                    }
                } else {
                    assert(current@ =~= Seq::<char>::empty());
                    current.append(block.as_str());
                    proof {
                        assert(current@ =~= block@);
                        let tail = pack(later, block@, target as nat);
                        assert(done + (unless_empty(was) + tail) =~= texts(merged@) + tail);
                    }
                }
            }
        }
    }
    proof {
        assert(all.skip(blocks@.len() as int) =~= Seq::<Seq<char>>::empty());
        lemma_byte_len_zero(current@);
    }
    if text_byte_len(current.as_str()) > 0 {
        proof {
            lemma_texts_push(merged@, current);
        }
        merged.push(current);
    }
    assert(texts(merged@) =~= want);
    merged
}

/// Whether a block still fits behind what has been merged so far.
fn fits(current_len: usize, block_len: usize, target: usize) -> (r: bool)
    ensures
        r == (current_len + block_len + (if current_len == 0 {
            0int
        } else {
            2int
        }) <= target),
{
    let gap: usize = if current_len == 0 {
        0
    } else {
        2
    };
    match current_len.checked_add(block_len) {
        Some(sum) => match sum.checked_add(gap) {
            Some(total) => total <= target,
            None => false,
        },
        None => false,
    }
}

// ---------------------------------------------------------------------------
// Cutting what is too large
// ---------------------------------------------------------------------------

/// The smallest chunk size that the splitter is asked for.
pub const MIN_SPLIT_SIZE: usize = 128;

/// The overlap that the splitter is asked for.
pub const SPLIT_OVERLAP: usize = 64;

/// The chunk size that the splitter is asked for.
pub open spec fn split_size(context_size: usize) -> nat {
    if context_size < MIN_SPLIT_SIZE {
        MIN_SPLIT_SIZE as nat
    } else {
        context_size as nat
    }
}

/// The pieces that hold more than white space, in their order.
pub open spec fn nonblank_pieces(pieces: Seq<Seq<char>>) -> Seq<Seq<char>>
    decreases pieces.len(),
{
    if pieces.len() == 0 {
        Seq::empty()
    } else if is_blank(pieces.last()) {
        nonblank_pieces(pieces.drop_last())
    } else {
        nonblank_pieces(pieces.drop_last()).push(pieces.last())
    }
}

/// What a block becomes: the pieces of the splitter if it takes more bytes than the
/// context size, itself otherwise; what is blank is left out.
pub open spec fn cut_block(block: Seq<char>, context_size: usize) -> Seq<Seq<char>> {
    if byte_len(block) > context_size {
        nonblank_pieces(split_pieces(block, split_size(context_size), SPLIT_OVERLAP as nat))
    } else {
        nonblank_pieces(seq![block])
    }
}

/// What a list of blocks becomes, one after the other.
pub open spec fn cut_blocks(blocks: Seq<Seq<char>>, context_size: usize) -> Seq<Seq<char>>
    decreases blocks.len(),
{
    if blocks.len() == 0 {
        Seq::empty()
    } else {
        cut_blocks(blocks.drop_last(), context_size) + cut_block(blocks.last(), context_size)
    }
}

/// Adds the pieces that hold more than white space to a list.
pub fn push_nonblank(snippets: &mut Vec<String>, pieces: Vec<String>)
    ensures
        texts(final(snippets)@) == texts(old(snippets)@) + nonblank_pieces(texts(pieces@)),
{
    let ghost before = texts(snippets@);
    let ghost all = texts(pieces@);
    assert(all.take(0) =~= Seq::<Seq<char>>::empty());
    assert(texts(snippets@) =~= before + nonblank_pieces(all.take(0)));
    for i in 0..pieces.len()
        invariant
            all == texts(pieces@),
            texts(snippets@) == before + nonblank_pieces(all.take(i as int)),
    {
        proof {
            assert(all.take(i + 1).drop_last() =~= all.take(i as int));
            assert(all.take(i + 1).last() == pieces@[i as int]@);
        }
        if !text_is_blank(pieces[i].as_str()) {
            let piece = copy_text(pieces[i].as_str());
            proof {
                lemma_texts_push(snippets@, piece);
                assert(before + nonblank_pieces(all.take(i as int)).push(piece@) =~= (before
                    + nonblank_pieces(all.take(i as int))).push(piece@));
            }
            snippets.push(piece);
        }
    }
    assert(all.take(all.len() as int) =~= all);
}

/// Cuts every block that takes more bytes than the context size.
pub fn cut_oversized_blocks(blocks: Vec<String>, context_size: usize) -> (snippets: Vec<String>)
    ensures
        texts(snippets@) == cut_blocks(texts(blocks@), context_size),
        none_blank(texts(blocks@)) ==> snippets@.len() >= blocks@.len(),
{
    let size: usize = if context_size < MIN_SPLIT_SIZE {
        MIN_SPLIT_SIZE
    } else {
        context_size
    };
    let mut snippets: Vec<String> = Vec::new();
    let ghost all = texts(blocks@);
    assert(all.take(0) =~= Seq::<Seq<char>>::empty());
    assert(texts(snippets@) =~= Seq::<Seq<char>>::empty());
    for i in 0..blocks.len()
        invariant
            all == texts(blocks@),
            size == split_size(context_size),
            texts(snippets@) == cut_blocks(all.take(i as int), context_size),
            none_blank(all) ==> snippets@.len() >= i,
    {
        let ghost before = texts(snippets@);
        proof {
            assert(all.take(i + 1).drop_last() =~= all.take(i as int));
            assert(all.take(i + 1).last() == blocks@[i as int]@);
        }
        let block = blocks[i].as_str();
        if text_byte_len(block) > context_size {
            let pieces = split_text(block, size, SPLIT_OVERLAP);
            proof {
                lemma_nonblank_pieces(texts(pieces@));
                assert(none_blank(all) ==> !is_blank(all[i as int]));
            }
            push_nonblank(&mut snippets, pieces);
            assert(texts(snippets@).len() == snippets@.len());
        } else {
            let mut whole: Vec<String> = Vec::new();
            whole.push(copy_text(block));
            proof {
                assert(texts(whole@) =~= seq![block@]);
                lemma_nonblank_pieces(seq![block@]);
                assert(none_blank(all) ==> !is_blank(all[i as int]));
            }
            push_nonblank(&mut snippets, whole);
            assert(texts(snippets@).len() == snippets@.len());
        }
    }
    assert(all.take(all.len() as int) =~= all);
    snippets
}

// ---------------------------------------------------------------------------
// Line ranges and identifiers
// ---------------------------------------------------------------------------

/// The first and last line of a snippet where it first stands in the file, counted from
/// one; the first line for a snippet that does not stand in it as a whole.
pub open spec fn line_range(content: Seq<char>, snippet: Seq<char>) -> (nat, nat) {
    match first_occurrence(content, snippet) {
        Some(at) => {
            let start = newlines(content.take(at)) + 1;
            (start, start + newlines(snippet))
        },
        None => (1, 1),
    }
}

/// The first and last line of a snippet.
pub fn line_range_for_snippet(content: &str, snippet: &str) -> (range: (usize, usize))
    requires
        content@.len() < usize::MAX,
    ensures
        range.0 == line_range(content@, snippet@).0,
        range.1 == line_range(content@, snippet@).1,
{
    let hay = to_chars(content);
    let needle = to_chars(snippet);
    match find_chars(&hay, &needle) {
        Some(at) => {
            let above = count_newlines(&hay, at);
            let inside = count_newlines(&needle, needle.len());
            assert(needle@.take(needle@.len() as int) =~= needle@);
            (above + 1, above + 1 + inside)
        },
        None => (1, 1),
    }
}

/// The identifier of a chunk: the path, the number of the chunk in the file and its line
/// range, with colons between them.
pub open spec fn chunk_id(path: Seq<char>, index: nat, start: nat, end: nat) -> Seq<char> {
    path.push(':') + decimal(index).push(':') + decimal(start).push(':') + decimal(end)
}

/// The chunk that a snippet becomes.
pub open spec fn chunk_of(
    path: Seq<char>,
    content: Seq<char>,
    snippet: Seq<char>,
    index: nat,
) -> ChunkView {
    let (start, end) = line_range(content, snippet);
    ChunkView {
        id: chunk_id(path, index, start, end),
        path: path,
        snippet: snippet,
        start_line: start as usize,
        end_line: end as usize,
    }
}

/// The chunks that a list of snippets becomes.
pub open spec fn chunks_of(
    path: Seq<char>,
    content: Seq<char>,
    snippets: Seq<Seq<char>>,
) -> Seq<ChunkView> {
    Seq::new(snippets.len(), |i: int| chunk_of(path, content, snippets[i], i as nat))
}

/// The identifier of a chunk.
pub fn chunk_id_text(path: &str, index: usize, start: usize, end: usize) -> (id: String)
    ensures
        id@ == chunk_id(path@, index as nat, start as nat, end as nat),
{
    let mut id = copy_text(path);
    id.push(':');
    id.append(decimal_text(index).as_str());
    id.push(':');
    id.append(decimal_text(start).as_str());
    id.push(':');
    id.append(decimal_text(end).as_str());
    assert(id@ =~= chunk_id(path@, index as nat, start as nat, end as nat));
    id
}

/// Gives each snippet its identifier and its line range.
pub fn describe_chunks(path: &str, content: &str, snippets: Vec<String>) -> (chunks: Vec<CodeChunk>)
    requires
        content@.len() < usize::MAX,
    ensures
        chunk_views(chunks@) == chunks_of(path@, content@, texts(snippets@)),
{
    let mut chunks: Vec<CodeChunk> = Vec::new();
    let ghost want = chunks_of(path@, content@, texts(snippets@));
    assert(chunk_views(chunks@) =~= want.take(0));
    for i in 0..snippets.len()
        invariant
            content@.len() < usize::MAX,
            want == chunks_of(path@, content@, texts(snippets@)),
            chunk_views(chunks@) == want.take(i as int),
    {
        let snippet = copy_text(snippets[i].as_str());
        let (start_line, end_line) = line_range_for_snippet(content, snippet.as_str());
        let chunk = CodeChunk {
            id: chunk_id_text(path, i, start_line, end_line),
            path: copy_text(path),
            snippet,
            start_line,
            end_line,
        };
        proof {
            lemma_chunk_views_push(chunks@, chunk);
            assert(chunk@ =~= want[i as int]);
            assert(want.take(i as int).push(want[i as int]) =~= want.take(i + 1));
        }
        chunks.push(chunk);
    }
    assert(want.take(want.len() as int) =~= want);
    chunks
}

// ---------------------------------------------------------------------------
// Whole files
// ---------------------------------------------------------------------------

/// The snippets of a file, given what the parser made of it.
pub open spec fn file_snippets(
    content: Seq<char>,
    parsed: Option<Seq<Seq<char>>>,
    context_size: usize,
) -> Seq<Seq<char>> {
    if is_blank(content) {
        Seq::empty()
    } else {
        cut_blocks(
            merged_blocks(
                initial_blocks(content, parsed, fallback_blocks(content)),
                context_size,
            ),
            context_size,
        )
    }
}

/// What the parser can make of a file: segments or nothing, and nothing for a file in none of
/// the languages or one that the parser does not take. The segments are open only as far as
/// the locale has a say.
pub open spec fn parse_outcome(
    content: Seq<char>,
    language: Option<SourceLanguage>,
    parsed: Option<Seq<Seq<char>>>,
) -> bool {
    parsed is Some ==> {
        &&& language is Some
        &&& parser_takes(content, language->0)
        &&& are_segments(content, parsed->0)
        &&& locale_free(content, language->0) ==> parsed->0 == parsed_segments(
            content,
            language->0,
        )
    }
}

/// The number of threads that the parser is given.
pub const PARSER_THREADS: u16 = 4;

/// The chunks of a file, given what the parser made of it.
pub fn chunk_parsed(
    path: &str,
    content: &str,
    parsed: Option<Vec<String>>,
    context_size: usize,
) -> (chunks: Vec<CodeChunk>)
    requires
        content@.len() < usize::MAX,
    ensures
        chunk_views(chunks@) == chunks_of(
            path@,
            content@,
            file_snippets(content@, opt_texts(parsed), context_size),
        ),
        !is_blank(content@) && (opt_texts(parsed) matches Some(segments) ==> none_blank(segments))
            ==> chunks@.len() > 0,
{
    if text_is_blank(content) {
        let none: Vec<CodeChunk> = Vec::new();
        assert(chunk_views(none@) =~= chunks_of(path@, content@, Seq::empty()));
        return none;
    }
    let blocks = select_blocks(content, parsed);
    let ghost start = texts(blocks@);
    let merged = merge_neighboring_blocks(blocks, context_size);
    proof {
        lemma_merged_blocks(start, context_size);
        lemma_fallback_blocks(content@);
        assert(texts(merged@).len() == merged@.len());
    }
    let snippets = cut_oversized_blocks(merged, context_size);
    let chunks = describe_chunks(path, content, snippets);
    proof {
        assert(texts(snippets@).len() == snippets@.len());
        assert(chunk_views(chunks@).len() == chunks@.len());
    }
    chunks
}

proof fn lemma_levels_grow(text: Seq<char>, n: int)
    requires
        0 <= n <= text.len(),
    ensures
        indent_widths(text).finite(),
        indent_widths(text.take(n)).len() <= indent_widths(text).len(),
        indent_joins(text.take(n)) <= indent_joins(text),
    decreases text.len(),
{
    if text.len() > 0 {
        if n < text.len() {
            lemma_levels_grow(text.drop_last(), n);
            assert(text.drop_last().take(n) =~= text.take(n));
        } else {
            lemma_levels_grow(text.drop_last(), n - 1);
            assert(text.take(n) =~= text);
        }
    } else {
        assert(text.take(n) =~= text);
    }
}

fn has_width(widths: &Vec<u128>, width: u128) -> (r: bool)
    ensures
        r == widths@.contains(width),
{
    for i in 0..widths.len()
        invariant
            forall|j: int| 0 <= j < i ==> #[trigger] widths@[j] != width,
    {
        if widths[i] == width {
            return true;
        }
    }
    false
}

/// Whether no more than `MAX_LEVELS` levels of indentation can be open at once.
fn has_fitting_levels(content: &str) -> (r: bool)
    ensures
        r == levels_fit(content@),
{
    let chars = to_chars(content);
    let mut columns: u128 = 0;
    let mut leading = true;
    let mut widths: Vec<u128> = Vec::new();
    let mut joins: usize = 0;
    assert(chars@.take(0) =~= Seq::empty());
    for i in 0..chars.len()
        invariant
            chars@ == content@,
            columns <= 8 * i,
            widths@.len() + joins <= MAX_LEVELS,
            indent_at_end(chars@.take(i as int)) == (Indent { columns: columns as nat, leading }),
            indent_widths(chars@.take(i as int)).finite(),
            indent_widths(chars@.take(i as int)).len() == widths@.len(),
            forall|width: u128|
                #[trigger] widths@.contains(width) <==> indent_widths(
                    chars@.take(i as int),
                ).contains(width as nat),
            indent_joins(chars@.take(i as int)) == joins,
    {
        let c = chars[i];
        let ghost known = indent_widths(chars@.take(i as int));
        let ghost before = widths@;
        proof {
            assert(chars@.take(i + 1).drop_last() =~= chars@.take(i as int));
            assert(chars@.take(i + 1).last() == c);
        }
        if leading && columns > 0 && c != ' ' && c != '\t' && c != '\n' && c != '\r' && c
            != '\u{c}' && c != '\\' && !has_width(&widths, columns) {
            widths.push(columns);
            proof {
                assert forall|width: u128| #[trigger] widths@.contains(width) <==> known.insert(
                    columns as nat,
                ).contains(width as nat) by {
                    if before.contains(width) {
                        let k = choose|k: int| 0 <= k < before.len() && before[k] == width;
                        assert(widths@[k] == width);
                    }
                    if width == columns {
                        assert(widths@[before.len() as int] == width);
                    }
                    if widths@.contains(width) && width != columns {
                        let k = choose|k: int| 0 <= k < widths@.len() && widths@[k] == width;
                        assert(before[k] == width);
                    }
                }
            }
        } else {
            proof {
                if leading && columns > 0 && ends_indent(c) {
                    assert(widths@.contains(columns));
                    assert(known.insert(columns as nat) =~= known);
                }
            }
        }
        if c == '\\' && leading {
            joins = joins + 1;
        }
        if c == '\n' || c == '\0' {
            columns = 0;
            leading = true;
        } else if c == '\r' || c == '\u{c}' {
            columns = 0;
        } else if c == '\\' {
        } else if c == ' ' && leading {
            columns = columns + 1;
        } else if c == '\t' && leading {
            columns = columns + 8;
        } else {
            columns = 0;
            leading = false;
        }
        if widths.len() + joins > MAX_LEVELS {
            proof {
                lemma_levels_grow(chars@, i + 1);
            }
            return false;
        }
    }
    assert(chars@.take(chars@.len() as int) =~= chars@);
    true
}

/// Whether source is handed to the parser of its language.
fn fits_parser(content: &str, language: SourceLanguage) -> (r: bool)
    ensures
        r == parser_takes(content@, language),
{
    if text_byte_len(content) > u32::MAX as usize {
        return false;
    }
    match language {
        SourceLanguage::Python => has_fitting_levels(content),
        _ => true,
    }
}

/// Cuts a source file into chunks. The language is told by the name of the file, and each
/// chunk carries the path. A file that the parser of its language does not take is cut like
/// one without a parser.
pub fn chunk_file(file_name: &str, path: &str, content: &str, context_size: usize) -> (chunks: Vec<
    CodeChunk,
>)
    requires
        content@.len() < usize::MAX,
    ensures
        exists|parsed: Option<Seq<Seq<char>>>|
            {
                &&& #[trigger] parse_outcome(content@, language_of(file_name@), parsed)
                &&& chunk_views(chunks@) == chunks_of(
                    path@,
                    content@,
                    file_snippets(content@, parsed, context_size),
                )
            },
        chunks@.len() == 0 <==> is_blank(content@),
{
    let parsed = if text_is_blank(content) {
        None
    } else {
        match guess_language(file_name) {
            Some(language) => if fits_parser(content, language) {
                parse_source(content, language, PARSER_THREADS)
            } else {
                None
            },
            None => None,
        }
    };
    assert(parse_outcome(content@, language_of(file_name@), opt_texts(parsed)));
    let chunks = chunk_parsed(path, content, parsed, context_size);
    assert(chunk_views(chunks@).len() == chunks@.len());
    chunks
}

} // verus!
