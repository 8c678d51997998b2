//! What holds of the cutting of files as a whole.

use vstd::prelude::*;
use vstd::utf8::is_ascii_chars;

use crate::chunking::{
    chunk_id, chunks_of, cut_block, cut_blocks, extended, fallback_blocks,
    file_snippets, indent_at_end, indent_joins, indent_widths, initial_blocks, language_of,
    lemma_byte_len_extended, line_range, matched_blocks, merge_target, merged_blocks,
    nonblank_pieces, pack, parse_outcome, parsed_segments, parser_takes, regex_matches, separator,
    split_pieces, trimmed_blocks, unless_empty, Indent, SourceLanguage, BLOCK_PATTERN,
};
use crate::find::{
    ascii_lower, contains_text, first_at, first_occurrence, law_first_occurrence_is_the_first,
    law_parts_are_contained, lemma_first_at, lemma_first_occurrence,
};
use crate::lines::{lemma_newlines_add, newlines};
use crate::number::{decimal, is_digit, law_decimal_is_injective, lemma_decimal};
use crate::paths::{extension, law_extension_follows_the_last_dot};
use crate::text::{
    byte_len, is_blank, is_white_space, law_blank_is_all_white_space, law_trim_is_final,
    lemma_byte_len_add, lemma_byte_len_zero, trim, CharClass,
};

verus! {

/// The blocks in a row, with the separator between them.
pub open spec fn joined(blocks: Seq<Seq<char>>) -> Seq<char>
    decreases blocks.len(),
{
    if blocks.len() == 0 {
        Seq::empty()
    } else {
        extended(joined(blocks.drop_last()), blocks.last())
    }
}

/// None of the texts is empty.
pub open spec fn none_empty(blocks: Seq<Seq<char>>) -> bool {
    forall|i: int| 0 <= i < blocks.len() ==> (#[trigger] blocks[i]).len() > 0
}

/// None of the texts is blank.
pub open spec fn none_blank(blocks: Seq<Seq<char>>) -> bool {
    forall|i: int| 0 <= i < blocks.len() ==> !is_blank(#[trigger] blocks[i])
}

/// What two texts become in a row, either of which may be empty.
spec fn row(a: Seq<char>, b: Seq<char>) -> Seq<char> {
    if b.len() == 0 {
        a
    } else {
        extended(a, b)
    }
}

proof fn lemma_joined_one(block: Seq<char>)
    ensures
        joined(seq![block]) == block,
        joined(Seq::empty()) == Seq::<char>::empty(),
{
    let one = seq![block];
    assert(one.drop_last() =~= Seq::<Seq<char>>::empty());
    assert(joined(one.drop_last()) == Seq::<char>::empty());
}

proof fn lemma_joined_add(a: Seq<Seq<char>>, b: Seq<Seq<char>>)
    requires
        none_empty(b),
    ensures
        joined(a + b) == row(joined(a), joined(b)),
        b.len() > 0 ==> joined(b).len() > 0,
    decreases b.len(),
{
    if b.len() == 0 {
        assert(a + b =~= a);
    } else {
        let c = b.drop_last();
        assert(none_empty(c));
        lemma_joined_add(a, c);
        assert((a + b).drop_last() =~= a + c);
        assert((a + b).last() == b.last());
        let x = joined(a);
        let y = joined(c);
        let z = b.last();
        assert(b[b.len() - 1].len() > 0);
        assert(joined(b) == extended(y, z));
        if c.len() == 0 {
            assert(y.len() == 0);
        } else if x.len() > 0 {
            assert((x + separator() + y) + separator() + z =~= x + separator() + (y + separator()
                + z));
        }
    }
}

/// Trimmed blocks are neither empty nor blank, and trimming leaves them alone.
pub(crate) proof fn lemma_trimmed_blocks(blocks: Seq<Seq<char>>)
    ensures
        none_empty(trimmed_blocks(blocks)),
        none_blank(trimmed_blocks(blocks)),
        forall|i: int|
            0 <= i < trimmed_blocks(blocks).len() ==> trim(#[trigger] trimmed_blocks(blocks)[i])
                == trimmed_blocks(blocks)[i],
    decreases blocks.len(),
{
    if blocks.len() > 0 {
        lemma_trimmed_blocks(blocks.drop_first());
        law_trim_is_final(blocks[0], CharClass::Whitespace);
        let tail = trimmed_blocks(blocks.drop_first());
        if !is_blank(blocks[0]) {
            let all = trimmed_blocks(blocks);
            assert forall|i: int| 0 <= i < all.len() implies (#[trigger] all[i]).len() > 0
                && !is_blank(all[i]) && trim(all[i]) == all[i] by {
                if i > 0 {
                    assert(all[i] == tail[i - 1]);
                }
            }
        }
    }
}

/// A block that is not blank is left by trimming.
pub(crate) proof fn lemma_trimmed_not_empty(blocks: Seq<Seq<char>>, at: int)
    requires
        0 <= at < blocks.len(),
        !is_blank(blocks[at]),
    ensures
        trimmed_blocks(blocks).len() > 0,
    decreases blocks.len(),
{
    if is_blank(blocks[0]) {
        assert(blocks.drop_first()[at - 1] == blocks[at]);
        lemma_trimmed_not_empty(blocks.drop_first(), at - 1);
    }
}

proof fn lemma_pack_joined(blocks: Seq<Seq<char>>, current: Seq<char>, target: nat)
    requires
        none_empty(blocks),
    ensures
        joined(pack(blocks, current, target)) == row(current, joined(blocks)),
        none_empty(pack(blocks, current, target)),
        blocks.len() > 0 || current.len() > 0 ==> pack(blocks, current, target).len() > 0,
    decreases blocks.len(),
{
    let own = unless_empty(current);
    lemma_joined_one(current);
    assert(joined(own) =~= current);
    if blocks.len() > 0 {
        let block = blocks[0];
        let rest = blocks.drop_first();
        assert forall|i: int| 0 <= i < rest.len() implies (#[trigger] rest[i]).len() > 0 by {
            assert(blocks[i + 1].len() > 0);
        }
        assert(block.len() > 0);
        let one = seq![block];
        lemma_joined_one(block);
        assert(blocks =~= one + rest);
        lemma_joined_add(one, rest);
        if byte_len(extended(current, block)) <= target {
            lemma_pack_joined(rest, extended(current, block), target);
            if joined(rest).len() > 0 && current.len() > 0 {
                assert((current + separator() + block) + separator() + joined(rest) =~= current
                    + separator() + (block + separator() + joined(rest)));
            }
        } else if byte_len(block) > target {
            lemma_pack_joined(rest, Seq::empty(), target);
            let tail = pack(rest, Seq::empty(), target);
            lemma_joined_add(own + one, tail);
            lemma_joined_add(own, one);
            if joined(tail).len() > 0 && current.len() > 0 {
                assert((current + separator() + block) + separator() + joined(tail) =~= current
                    + separator() + (block + separator() + joined(tail)));
            }
        } else {
            lemma_pack_joined(rest, block, target);
            lemma_joined_add(own, pack(rest, block, target));
        }
    }
}

/// Merging loses, adds and reorders nothing: in a row, the merged blocks are the trimmed
/// blocks in a row.
pub proof fn law_merging_keeps_the_text(blocks: Seq<Seq<char>>, context_size: usize)
    ensures
        joined(merged_blocks(blocks, context_size)) == joined(trimmed_blocks(blocks)),
{
    lemma_trimmed_blocks(blocks);
    let target = merge_target(context_size);
    lemma_pack_joined(trimmed_blocks(blocks), Seq::empty(), target);
}

proof fn lemma_pack_sizes(blocks: Seq<Seq<char>>, current: Seq<char>, target: nat, at: int)
    requires
        byte_len(current) <= target,
        0 <= at < pack(blocks, current, target).len(),
    ensures
        byte_len(pack(blocks, current, target)[at]) <= target || blocks.contains(
            pack(blocks, current, target)[at],
        ),
    decreases blocks.len(),
{
    if blocks.len() > 0 {
        let block = blocks[0];
        let rest = blocks.drop_first();
        let own = unless_empty(current);
        let all = pack(blocks, current, target);
        let empty = Seq::<char>::empty();
        if byte_len(extended(current, block)) <= target {
            lemma_pack_sizes(rest, extended(current, block), target, at);
            lemma_rest_contained(blocks, all[at]);
        } else if byte_len(block) > target {
            let tail = pack(rest, empty, target);
            if at == own.len() {
                assert(all[at] == block);
                assert(blocks.contains(block));
            } else if at > own.len() {
                assert(all[at] == tail[at - own.len() - 1]);
                lemma_byte_len_zero(empty);
                lemma_pack_sizes(rest, empty, target, at - own.len() - 1);
                lemma_rest_contained(blocks, all[at]);
            }
        } else {
            let tail = pack(rest, block, target);
            if at >= own.len() {
                assert(all[at] == tail[at - own.len()]);
                lemma_pack_sizes(rest, block, target, at - own.len());
                lemma_rest_contained(blocks, all[at]);
            }
        }
    }
}

proof fn lemma_rest_contained(blocks: Seq<Seq<char>>, item: Seq<char>)
    requires
        blocks.len() > 0,
    ensures
        blocks.drop_first().contains(item) ==> blocks.contains(item),
{
    if blocks.drop_first().contains(item) {
        let i = choose|i: int|
            0 <= i < blocks.drop_first().len() && blocks.drop_first()[i] == item;
        assert(blocks[i + 1] == item);
    }
}

/// A merged block takes at most the context size, unless it is a single block that alone
/// takes more.
pub proof fn law_merged_blocks_fit(blocks: Seq<Seq<char>>, context_size: usize, at: int)
    requires
        0 <= at < merged_blocks(blocks, context_size).len(),
    ensures
        byte_len(merged_blocks(blocks, context_size)[at]) <= context_size || trimmed_blocks(
            blocks,
        ).contains(merged_blocks(blocks, context_size)[at]),
{
    let empty = Seq::<char>::empty();
    lemma_byte_len_zero(empty);
    if context_size > 0 {
        lemma_pack_sizes(trimmed_blocks(blocks), empty, context_size as nat, at);
    } else {
        lemma_trimmed_blocks(blocks);
        lemma_pack_sizes_of_one(trimmed_blocks(blocks), empty, at);
    }
}

/// With room for one byte nothing is ever merged.
proof fn lemma_pack_sizes_of_one(blocks: Seq<Seq<char>>, current: Seq<char>, at: int)
    requires
        none_empty(blocks),
        byte_len(current) <= 1,
        0 <= at < pack(blocks, current, 1).len(),
    ensures
        pack(blocks, current, 1)[at] == current || blocks.contains(pack(blocks, current, 1)[at]),
    decreases blocks.len(),
{
    if blocks.len() > 0 {
        let block = blocks[0];
        let rest = blocks.drop_first();
        let own = unless_empty(current);
        let all = pack(blocks, current, 1);
        let empty = Seq::<char>::empty();
        assert forall|i: int| 0 <= i < rest.len() implies (#[trigger] rest[i]).len() > 0 by {
            assert(blocks[i + 1].len() > 0);
        }
        assert(blocks.contains(block));
        lemma_byte_len_zero(block);
        lemma_byte_len_zero(current);
        lemma_byte_len_zero(empty);
        if byte_len(extended(current, block)) <= 1 {
            lemma_byte_len_extended(current, block);
            assert(current.len() == 0);
            lemma_pack_sizes_of_one(rest, block, at);
            lemma_rest_contained(blocks, all[at]);
        } else if byte_len(block) > 1 {
            let tail = pack(rest, empty, 1);
            if at == own.len() {
                assert(all[at] == block);
            } else if at > own.len() {
                assert(all[at] == tail[at - own.len() - 1]);
                lemma_pack_joined(rest, empty, 1);
                assert(tail[at - own.len() - 1].len() > 0);
                lemma_pack_sizes_of_one(rest, empty, at - own.len() - 1);
                lemma_rest_contained(blocks, all[at]);
            }
        } else {
            let tail = pack(rest, block, 1);
            if at >= own.len() {
                assert(all[at] == tail[at - own.len()]);
                lemma_pack_sizes_of_one(rest, block, at - own.len());
                lemma_rest_contained(blocks, all[at]);
            }
        }
    }
}

/// The first result of packing holds what was merged so far.
proof fn lemma_pack_first(blocks: Seq<Seq<char>>, current: Seq<char>, target: nat)
    requires
        current.len() > 0,
    ensures
        pack(blocks, current, target).len() > 0,
        byte_len(pack(blocks, current, target)[0]) >= byte_len(current),
    decreases blocks.len(),
{
    if blocks.len() > 0 {
        let next = extended(current, blocks[0]);
        if byte_len(next) <= target {
            lemma_byte_len_extended(current, blocks[0]);
            lemma_pack_first(blocks.drop_first(), next, target);
        }
    }
}

/// What is left over when packing starts anew is at least as large as the block that it
/// starts with.
proof fn lemma_pack_neighbours(blocks: Seq<Seq<char>>, current: Seq<char>, target: nat, at: int)
    requires
        none_empty(blocks),
        0 <= at < pack(blocks, current, target).len() - 1,
    ensures
        byte_len(pack(blocks, current, target)[at]) + 2 + byte_len(
            pack(blocks, current, target)[at + 1],
        ) > target,
    decreases blocks.len(),
{
    if blocks.len() > 0 {
        let block = blocks[0];
        let rest = blocks.drop_first();
        assert forall|i: int| 0 <= i < rest.len() implies (#[trigger] rest[i]).len() > 0 by {
            assert(blocks[i + 1].len() > 0);
        }
        assert(block.len() > 0);
        let own = unless_empty(current);
        let all = pack(blocks, current, target);
        let empty = Seq::<char>::empty();
        lemma_byte_len_extended(current, block);
        if byte_len(extended(current, block)) <= target {
            lemma_pack_neighbours(rest, extended(current, block), target, at);
        } else if byte_len(block) > target {
            let tail = pack(rest, empty, target);
            if at < own.len() {
                assert(all[at + 1] == block);
            } else if at == own.len() {
                assert(all[at] == block);
            } else {
                assert(all[at] == tail[at - own.len() - 1]);
                assert(all[at + 1] == tail[at - own.len()]);
                lemma_pack_neighbours(rest, empty, target, at - own.len() - 1);
            }
        } else {
            let tail = pack(rest, block, target);
            lemma_pack_first(rest, block, target);
            if at < own.len() {
                assert(all[at] == current);
                assert(all[at + 1] == tail[0]);
            } else {
                assert(all[at] == tail[at - own.len()]);
                assert(all[at + 1] == tail[at - own.len() + 1]);
                lemma_pack_neighbours(rest, block, target, at - own.len());
            }
        }
    }
}

/// Merging goes as far as it can: two merged blocks that follow each other take more
/// than the context size together with the separator.
pub proof fn law_merged_neighbours_do_not_fit(
    blocks: Seq<Seq<char>>,
    context_size: usize,
    at: int,
)
    requires
        0 <= at < merged_blocks(blocks, context_size).len() - 1,
    ensures
        byte_len(merged_blocks(blocks, context_size)[at]) + 2 + byte_len(
            merged_blocks(blocks, context_size)[at + 1],
        ) > context_size,
{
    lemma_trimmed_blocks(blocks);
    let target = merge_target(context_size);
    lemma_pack_neighbours(trimmed_blocks(blocks), Seq::empty(), target, at);
}

/// Whether a text starts with a character other than white space.
spec fn starts_solid(s: Seq<char>) -> bool {
    s.len() > 0 && !is_white_space(s[0])
}

proof fn lemma_pack_solid(blocks: Seq<Seq<char>>, current: Seq<char>, target: nat)
    requires
        forall|i: int| 0 <= i < blocks.len() ==> starts_solid(#[trigger] blocks[i]),
        current.len() > 0 ==> starts_solid(current),
    ensures
        forall|i: int|
            0 <= i < pack(blocks, current, target).len() ==> starts_solid(
                #[trigger] pack(blocks, current, target)[i],
            ),
    decreases blocks.len(),
{
    if blocks.len() > 0 {
        let block = blocks[0];
        let rest = blocks.drop_first();
        assert(starts_solid(block));
        assert forall|i: int| 0 <= i < rest.len() implies starts_solid(#[trigger] rest[i]) by {
            assert(starts_solid(blocks[i + 1]));
        }
        let own = unless_empty(current);
        let all = pack(blocks, current, target);
        let empty = Seq::<char>::empty();
        if byte_len(extended(current, block)) <= target {
            assert(extended(current, block)[0] == if current.len() == 0 {
                block[0]
            } else {
                current[0]
            });
            lemma_pack_solid(rest, extended(current, block), target);
            assert(all == pack(rest, extended(current, block), target));
        } else if byte_len(block) > target {
            let tail = pack(rest, empty, target);
            lemma_pack_solid(rest, empty, target);
            assert(all == own + seq![block] + tail);
            assert forall|i: int| 0 <= i < all.len() implies starts_solid(#[trigger] all[i]) by {
                if i > own.len() {
                    assert(all[i] == tail[i - own.len() - 1]);
                }
            }
        } else {
            let tail = pack(rest, block, target);
            lemma_pack_solid(rest, block, target);
            assert(all == own + tail);
            assert forall|i: int| 0 <= i < all.len() implies starts_solid(#[trigger] all[i]) by {
                if i >= own.len() {
                    assert(all[i] == tail[i - own.len()]);
                }
            }
        }
    }
}

/// Merged blocks are not blank, and there is one wherever a block is not blank.
pub(crate) proof fn lemma_merged_blocks(blocks: Seq<Seq<char>>, context_size: usize)
    ensures
        none_blank(merged_blocks(blocks, context_size)),
        forall|i: int|
            0 <= i < blocks.len() && !is_blank(#[trigger] blocks[i]) ==> merged_blocks(
                blocks,
                context_size,
            ).len() > 0,
{
    let target = merge_target(context_size);
    let solid = trimmed_blocks(blocks);
    let merged = merged_blocks(blocks, context_size);
    lemma_trimmed_blocks(blocks);
    assert forall|i: int| 0 <= i < solid.len() implies starts_solid(#[trigger] solid[i]) by {
        law_trim_is_final(solid[i], CharClass::Whitespace);
    }
    lemma_pack_solid(solid, Seq::empty(), target);
    lemma_pack_joined(solid, Seq::empty(), target);
    assert forall|i: int| 0 <= i < merged.len() implies !is_blank(#[trigger] merged[i]) by {
        assert(starts_solid(merged[i]));
        law_blank_is_all_white_space(merged[i]);
    }
    assert forall|i: int| 0 <= i < blocks.len() && !is_blank(#[trigger] blocks[i]) implies
        merged.len() > 0 by {
        lemma_trimmed_not_empty(blocks, i);
    }
}

/// Pieces none of which is blank all stay.
pub(crate) proof fn lemma_nonblank_pieces(pieces: Seq<Seq<char>>)
    ensures
        none_blank(nonblank_pieces(pieces)),
        none_blank(pieces) ==> nonblank_pieces(pieces) == pieces,
    decreases pieces.len(),
{
    if pieces.len() > 0 {
        lemma_nonblank_pieces(pieces.drop_last());
        if none_blank(pieces) {
            assert forall|i: int| 0 <= i < pieces.drop_last().len() implies !is_blank(
                #[trigger] pieces.drop_last()[i],
            ) by {
                assert(pieces[i] == pieces.drop_last()[i]);
            }
            assert(!is_blank(pieces[pieces.len() - 1]));
            assert(pieces.drop_last().push(pieces.last()) =~= pieces);
        }
    }
}

/// No snippet of a file is blank.
pub proof fn law_snippets_are_not_blank(
    content: Seq<char>,
    parsed: Option<Seq<Seq<char>>>,
    context_size: usize,
)
    ensures
        none_blank(file_snippets(content, parsed, context_size)),
{
    let blocks = merged_blocks(
        crate::chunking::initial_blocks(
            content,
            parsed,
            crate::chunking::fallback_blocks(content),
        ),
        context_size,
    );
    lemma_cut_blocks(blocks, context_size);
}

proof fn lemma_cut_blocks(blocks: Seq<Seq<char>>, context_size: usize)
    ensures
        none_blank(cut_blocks(blocks, context_size)),
    decreases blocks.len(),
{
    if blocks.len() > 0 {
        lemma_cut_blocks(blocks.drop_last(), context_size);
        let last = blocks.last();
        let cut = cut_block(last, context_size);
        lemma_nonblank_pieces(seq![last]);
        lemma_nonblank_pieces(
            crate::chunking::split_pieces(
                last,
                crate::chunking::split_size(context_size),
                crate::chunking::SPLIT_OVERLAP as nat,
            ),
        );
        assert(none_blank(cut));
    }
}

/// A line range starts at the first line or below it and does not end before it starts;
/// where the snippet stands in the file, it ends within the file.
pub proof fn law_line_range_is_in_the_file(content: Seq<char>, snippet: Seq<char>)
    ensures
        1 <= line_range(content, snippet).0 <= line_range(content, snippet).1 <= newlines(content)
            + 1,
{
    match first_occurrence(content, snippet) {
        Some(at) => {
            lemma_first_occurrence(content, snippet);
            assert(content =~= content.take(at) + content.skip(at));
            assert(content.skip(at) =~= snippet + content.skip(at + snippet.len()));
            lemma_newlines_add(content.take(at), content.skip(at));
            lemma_newlines_add(snippet, content.skip(at + snippet.len()));
        },
        None => {},
    }
}

/// The number of the line that a position of the file stands on.
pub open spec fn line_number(content: Seq<char>, at: int) -> nat {
    newlines(content.take(at)) + 1
}

/// The line range of a snippet that stands in the file goes from the line of its first
/// character to the line on which it ends.
pub proof fn law_line_range_spans_the_snippet(content: Seq<char>, snippet: Seq<char>, at: int)
    requires
        first_at(content, snippet, at),
    ensures
        line_range(content, snippet) == (
            line_number(content, at),
            line_number(content, at + snippet.len()),
        ),
{
    lemma_first_at(content, snippet, at);
    assert(content.take(at + snippet.len()) =~= content.take(at) + snippet);
    lemma_newlines_add(content.take(at), snippet);
}

/// Two chunks of a file have different identifiers, whatever their line ranges.
pub proof fn law_chunk_ids_differ(
    path: Seq<char>,
    content: Seq<char>,
    snippets: Seq<Seq<char>>,
    i: int,
    j: int,
)
    requires
        0 <= i < j < snippets.len(),
    ensures
        chunks_of(path, content, snippets)[i].id != chunks_of(path, content, snippets)[j].id,
{
    let a = line_range(content, snippets[i]);
    let b = line_range(content, snippets[j]);
    let x = decimal(i as nat);
    let y = decimal(j as nat);
    let left = chunk_id(path, i as nat, a.0, a.1);
    let right = chunk_id(path, j as nat, b.0, b.1);
    lemma_decimal(i as nat);
    lemma_decimal(j as nat);
    if left == right {
        let n = path.len() as int + 1;
        assert(left[n + x.len()] == ':');
        assert(right[n + y.len()] == ':');
        if x.len() < y.len() {
            assert(right[n + x.len()] == y[x.len() as int]);
            assert(is_digit(y[x.len() as int]));
        } else if y.len() < x.len() {
            assert(left[n + y.len()] == x[y.len() as int]);
            assert(is_digit(x[y.len() as int]));
        } else {
            assert forall|k: int| 0 <= k < x.len() implies x[k] == y[k] by {
                assert(left[n + k] == x[k]);
                assert(right[n + k] == y[k]);
            }
            assert(x =~= y);
            law_decimal_is_injective(i as nat, j as nat);
        }
    }
}

// ---------------------------------------------------------------------------
// Cutting
// ---------------------------------------------------------------------------

/// Blocks are cut one after the other, each without regard to the others.
pub proof fn law_cutting_goes_block_by_block(
    a: Seq<Seq<char>>,
    b: Seq<Seq<char>>,
    context_size: usize,
)
    ensures
        cut_blocks(a + b, context_size) == cut_blocks(a, context_size) + cut_blocks(
            b,
            context_size,
        ),
        cut_blocks(Seq::empty(), context_size) == Seq::<Seq<char>>::empty(),
    decreases b.len(),
{
    if b.len() == 0 {
        assert(a + b =~= a);
        assert(cut_blocks(a, context_size) + cut_blocks(b, context_size) =~= cut_blocks(
            a,
            context_size,
        ));
    } else {
        law_cutting_goes_block_by_block(a, b.drop_last(), context_size);
        assert((a + b).drop_last() =~= a + b.drop_last());
        assert((a + b).last() == b.last());
        let x = cut_blocks(a, context_size);
        let y = cut_blocks(b.drop_last(), context_size);
        let z = cut_block(b.last(), context_size);
        assert(x + y + z =~= x + (y + z));
    }
}

proof fn lemma_nonblank_is_filter(pieces: Seq<Seq<char>>)
    ensures
        nonblank_pieces(pieces) == pieces.filter(|piece: Seq<char>| !is_blank(piece)),
    decreases pieces.len(),
{
    reveal(Seq::filter);
    if pieces.len() > 0 {
        lemma_nonblank_is_filter(pieces.drop_last());
    } else {
        assert(nonblank_pieces(pieces) =~= pieces.filter(|piece: Seq<char>| !is_blank(piece)));
    }
}

proof fn lemma_nonblank_contained(pieces: Seq<Seq<char>>, at: int)
    requires
        0 <= at < nonblank_pieces(pieces).len(),
    ensures
        pieces.contains(nonblank_pieces(pieces)[at]),
    decreases pieces.len(),
{
    let rest = pieces.drop_last();
    let left = nonblank_pieces(rest);
    if at < left.len() {
        assert(nonblank_pieces(pieces)[at] == left[at]);
        lemma_nonblank_contained(rest, at);
        let k = choose|k: int| 0 <= k < rest.len() && rest[k] == left[at];
        assert(pieces[k] == left[at]);
    } else {
        assert(pieces[pieces.len() - 1] == nonblank_pieces(pieces)[at]);
    }
}

proof fn lemma_cut_one(block: Seq<char>, context_size: usize)
    ensures
        cut_blocks(seq![block], context_size) == cut_block(block, context_size),
{
    let one = seq![block];
    assert(one.drop_last() =~= Seq::<Seq<char>>::empty());
    assert(one.last() == block);
    assert(cut_blocks(one.drop_last(), context_size) =~= Seq::<Seq<char>>::empty());
    assert(cut_blocks(one, context_size) =~= cut_block(block, context_size));
}

/// A block that takes more bytes than the context size becomes the pieces that the splitter
/// makes of it, for at least 128 characters and an overlap of 64: all that are not blank, in
/// their order. Any other block stays whole, unless it is blank.
pub proof fn law_cutting_keeps_every_piece(block: Seq<char>, context_size: usize)
    ensures
        byte_len(block) > context_size ==> cut_blocks(seq![block], context_size) == split_pieces(
            block,
            if context_size < 128 {
                128
            } else {
                context_size as nat
            },
            64,
        ).filter(|piece: Seq<char>| !is_blank(piece)),
        byte_len(block) <= context_size && !is_blank(block) ==> cut_blocks(
            seq![block],
            context_size,
        ) == seq![block],
        byte_len(block) <= context_size && is_blank(block) ==> cut_blocks(
            seq![block],
            context_size,
        ) == Seq::<Seq<char>>::empty(),
{
    lemma_cut_one(block, context_size);
    let size: nat = if context_size < 128 {
        128
    } else {
        context_size as nat
    };
    lemma_nonblank_is_filter(split_pieces(block, size, 64));
    let one = seq![block];
    assert(one.drop_last() =~= Seq::<Seq<char>>::empty());
    assert(nonblank_pieces(one.drop_last()) =~= Seq::<Seq<char>>::empty());
    assert(Seq::<Seq<char>>::empty().push(block) =~= one);
}

/// Cutting loses no code: of a block that is cut every piece that is not blank is among the
/// snippets, and a block that is not cut is there as a whole, wherever the block stands.
pub proof fn law_cutting_loses_no_code(
    blocks: Seq<Seq<char>>,
    context_size: usize,
    at: int,
    piece: Seq<char>,
)
    requires
        0 <= at < blocks.len(),
        !is_blank(piece),
        byte_len(blocks[at]) > context_size ==> split_pieces(
            blocks[at],
            if context_size < 128 {
                128
            } else {
                context_size as nat
            },
            64,
        ).contains(piece),
        byte_len(blocks[at]) <= context_size ==> piece == blocks[at],
    ensures
        cut_blocks(blocks, context_size).contains(piece),
{
    let block = blocks[at];
    let before = blocks.take(at);
    let one = seq![block];
    let after = blocks.skip(at + 1);
    assert(blocks =~= before + one + after);
    law_cutting_goes_block_by_block(before + one, after, context_size);
    law_cutting_goes_block_by_block(before, one, context_size);
    law_cutting_keeps_every_piece(block, context_size);
    let cut = cut_blocks(one, context_size);
    assert(cut.contains(piece)) by {
        if byte_len(block) > context_size {
            let pieces = split_pieces(
                block,
                if context_size < 128 {
                    128
                } else {
                    context_size as nat
                },
                64,
            );
            let i = choose|i: int| 0 <= i < pieces.len() && pieces[i] == piece;
            pieces.filter_lemma(|p: Seq<char>| !is_blank(p));
            assert(pieces.filter(|p: Seq<char>| !is_blank(p)).contains(pieces[i]));
        } else {
            assert(cut[0] == piece);
        }
    }
    let k = choose|k: int| 0 <= k < cut.len() && cut[k] == piece;
    let front = cut_blocks(before, context_size);
    assert(cut_blocks(blocks, context_size)[front.len() + k] == piece);
}

/// A snippet is a block that is not cut or a piece of one that is, and never blank.
pub proof fn law_snippets_come_from_blocks(
    blocks: Seq<Seq<char>>,
    context_size: usize,
    snippet: Seq<char>,
)
    requires
        cut_blocks(blocks, context_size).contains(snippet),
    ensures
        !is_blank(snippet),
        exists|at: int|
            0 <= at < blocks.len() && if byte_len(#[trigger] blocks[at]) > context_size {
                split_pieces(
                    blocks[at],
                    if context_size < 128 {
                        128
                    } else {
                        context_size as nat
                    },
                    64,
                ).contains(snippet)
            } else {
                snippet == blocks[at]
            },
    decreases blocks.len(),
{
    let rest = blocks.drop_last();
    let last = blocks.last();
    let all = cut_blocks(blocks, context_size);
    lemma_cut_blocks(blocks, context_size);
    let k = choose|k: int| 0 <= k < all.len() && all[k] == snippet;
    let front = cut_blocks(rest, context_size);
    if k < front.len() {
        assert(front[k] == snippet);
        law_snippets_come_from_blocks(rest, context_size, snippet);
        let at = choose|at: int|
            0 <= at < rest.len() && if byte_len(#[trigger] rest[at]) > context_size {
                split_pieces(
                    rest[at],
                    if context_size < 128 {
                        128
                    } else {
                        context_size as nat
                    },
                    64,
                ).contains(snippet)
            } else {
                snippet == rest[at]
            };
        assert(blocks[at] == rest[at]);
    } else {
        let cut = cut_block(last, context_size);
        assert(cut[k - front.len()] == snippet);
        lemma_cut_one(last, context_size);
        law_cutting_keeps_every_piece(last, context_size);
        assert(blocks[blocks.len() - 1] == last);
        if byte_len(last) > context_size {
            let pieces = split_pieces(
                last,
                if context_size < 128 {
                    128
                } else {
                    context_size as nat
                },
                64,
            );
            lemma_nonblank_is_filter(pieces);
            lemma_nonblank_contained(pieces, k - front.len());
        }
    }
}

// ---------------------------------------------------------------------------
// Blocks and files
// ---------------------------------------------------------------------------

/// The language of a file goes by what follows the last dot of its name, in any case: one of
/// five languages for seven extensions, none for every other.
pub proof fn law_languages_go_by_the_extension(stem: Seq<char>, ext: Seq<char>)
    requires
        stem.len() > 0,
        !ext.contains('.'),
        !(stem == seq!['.'] && ext.len() == 0),
    ensures
        ({
            let found = language_of(stem + seq!['.'] + ext);
            let lower = ascii_lower(ext);
            &&& found == Some(SourceLanguage::Rust) <==> lower == "rs"@
            &&& found == Some(SourceLanguage::Python) <==> lower == "py"@
            &&& found == Some(SourceLanguage::JavaScript) <==> lower == "js"@
            &&& found == Some(SourceLanguage::C) <==> lower == "c"@
            &&& found == Some(SourceLanguage::Cpp) <==> lower == "cpp"@ || lower == "cc"@ || lower
                == "cxx"@
        }),
{
    law_extension_follows_the_last_dot(stem, ext);
    reveal_strlit("rs");
    reveal_strlit("py");
    reveal_strlit("js");
    reveal_strlit("c");
    reveal_strlit("cpp");
    reveal_strlit("cc");
    reveal_strlit("cxx");
    assert("rs"@.len() == 2 && "py"@.len() == 2 && "js"@.len() == 2 && "cc"@.len() == 2);
    assert("rs"@[0] == 'r' && "py"@[0] == 'p' && "js"@[0] == 'j' && "cc"@[0] == 'c');
    assert("c"@.len() == 1 && "cpp"@.len() == 3 && "cxx"@.len() == 3);
}

/// A file whose name has no extension is in none of the languages.
pub proof fn law_no_extension_no_language(name: Seq<char>)
    requires
        extension(name) is None,
    ensures
        language_of(name) is None,
{
}

/// Blocks are trimmed one by one and in order, and those that are blank are left out.
pub proof fn law_blocks_are_trimmed_one_by_one(a: Seq<Seq<char>>, b: Seq<Seq<char>>, block: Seq<char>)
    ensures
        trimmed_blocks(a + b) == trimmed_blocks(a) + trimmed_blocks(b),
        trimmed_blocks(Seq::empty()) == Seq::<Seq<char>>::empty(),
        is_blank(block) ==> trimmed_blocks(seq![block]) == Seq::<Seq<char>>::empty(),
        !is_blank(block) ==> trimmed_blocks(seq![block]) == seq![trim(block)],
        matched_blocks(Some(a)) == trimmed_blocks(a),
        matched_blocks(None) == Seq::<Seq<char>>::empty(),
    decreases a.len(),
{
    let one = seq![block];
    assert(one.drop_first() =~= Seq::<Seq<char>>::empty());
    assert(trimmed_blocks(one.drop_first()) =~= Seq::<Seq<char>>::empty());
    assert(seq![trim(block)] + Seq::<Seq<char>>::empty() =~= seq![trim(block)]);
    if a.len() == 0 {
        assert(a + b =~= b);
        assert(trimmed_blocks(a) + trimmed_blocks(b) =~= trimmed_blocks(b));
    } else {
        law_blocks_are_trimmed_one_by_one(a.drop_first(), b, block);
        assert((a + b).drop_first() =~= a.drop_first() + b);
        assert((a + b)[0] == a[0]);
        let x = trimmed_blocks(a.drop_first());
        let y = trimmed_blocks(b);
        assert(seq![trim(a[0])] + (x + y) =~= seq![trim(a[0])] + x + y);
    }
}

/// A file starts from what the parser found, all of it; from what the pattern found where
/// the parser failed or found nothing; and from the whole text where neither found anything.
pub proof fn law_blocks_of_a_file(
    content: Seq<char>,
    segments: Seq<Seq<char>>,
    fallback: Seq<Seq<char>>,
)
    ensures
        segments.len() > 0 ==> initial_blocks(content, Some(segments), fallback) == segments,
        fallback.len() > 0 ==> initial_blocks(content, None, fallback) == fallback,
        fallback.len() > 0 ==> initial_blocks(content, Some(Seq::empty()), fallback) == fallback,
        initial_blocks(content, None, Seq::empty()) == seq![content],
        initial_blocks(content, Some(Seq::empty()), Seq::empty()) == seq![content],
{
}

/// Two neighbours become one block, with an empty line between them, exactly when together
/// they take no more bytes than the context size. A block alone stays what it is.
pub proof fn law_neighbours_are_merged_if_they_fit(a: Seq<char>, b: Seq<char>, context_size: usize)
    requires
        !is_blank(a),
        !is_blank(b),
    ensures
        byte_len(trim(a)) + 2 + byte_len(trim(b)) <= context_size ==> merged_blocks(
            seq![a, b],
            context_size,
        ) == seq![trim(a) + seq!['\n', '\n'] + trim(b)],
        byte_len(trim(a)) + 2 + byte_len(trim(b)) > context_size ==> merged_blocks(
            seq![a, b],
            context_size,
        ) == seq![trim(a), trim(b)],
        merged_blocks(seq![a], context_size) == seq![trim(a)],
{
    let x = trim(a);
    let y = trim(b);
    let target = merge_target(context_size);
    let empty = Seq::<char>::empty();
    let none = Seq::<Seq<char>>::empty();
    law_blocks_are_trimmed_one_by_one(seq![a], seq![b], a);
    law_blocks_are_trimmed_one_by_one(seq![a], seq![b], b);
    assert(seq![a] + seq![b] =~= seq![a, b]);
    let two = seq![x, y];
    assert(seq![x] + seq![y] =~= two);
    assert(two.drop_first() =~= seq![y]);
    assert(seq![y].drop_first() =~= none);
    assert(seq![x].drop_first() =~= none);
    lemma_byte_len_zero(x);
    lemma_byte_len_zero(y);
    lemma_byte_len_zero(empty);
    lemma_byte_len_extended(x, y);
    assert(extended(empty, x) == x && extended(empty, y) == y);
    let both = extended(x, y);
    assert(pack(none, both, target) == seq![both]);
    assert(pack(none, x, target) == seq![x]);
    assert(pack(none, y, target) == seq![y]);
    assert(pack(none, empty, target) == none);
    assert(unless_empty(empty) + seq![y] + none =~= seq![y]);
    assert(unless_empty(empty) + seq![y] =~= seq![y]);
    assert(pack(seq![y], empty, target) =~= seq![y]);
    assert(seq![x] + seq![y] + none =~= two);
    assert(unless_empty(empty) + seq![x] + none =~= seq![x]);
    assert(unless_empty(empty) + seq![x] + seq![y] =~= two);
    assert(unless_empty(empty) + seq![x] =~= seq![x]);
    assert(pack(seq![x], empty, target) =~= seq![x]);
    if byte_len(both) <= target {
        assert(pack(seq![y], x, target) =~= seq![both]);
        assert(pack(two, empty, target) =~= seq![both]);
    } else {
        assert(pack(seq![y], x, target) =~= two);
        if byte_len(x) > target {
            assert(pack(two, empty, target) =~= two);
        } else {
            assert(pack(two, empty, target) =~= two);
        }
    }
}

/// Whether a text starts with another.
spec fn starts_with(s: Seq<char>, part: Seq<char>) -> bool {
    part.len() <= s.len() && s.take(part.len() as int) == part
}

proof fn lemma_pack_keeps_current(blocks: Seq<Seq<char>>, current: Seq<char>, target: nat)
    requires
        current.len() > 0,
    ensures
        pack(blocks, current, target).len() > 0,
        starts_with(pack(blocks, current, target)[0], current),
        byte_len(current) <= target ==> byte_len(pack(blocks, current, target)[0]) <= target,
    decreases blocks.len(),
{
    assert(current.take(current.len() as int) =~= current);
    if blocks.len() > 0 {
        let next = extended(current, blocks[0]);
        if byte_len(next) <= target {
            lemma_pack_keeps_current(blocks.drop_first(), next, target);
            let first = pack(blocks, current, target)[0];
            assert(next.take(current.len() as int) =~= current);
            assert(first.take(current.len() as int) =~= first.take(next.len() as int).take(
                current.len() as int,
            ));
        }
    }
}

proof fn lemma_starts_with_contains(s: Seq<char>, before: Seq<char>, part: Seq<char>)
    requires
        starts_with(s, before + part),
    ensures
        contains_text(s, part),
{
    let n = (before + part).len() as int;
    law_parts_are_contained(before, part, s.skip(n));
    assert(s =~= before + part + s.skip(n)) by {
        assert(s =~= s.take(n) + s.skip(n));
    }
}

proof fn lemma_pack_keeps_block(
    blocks: Seq<Seq<char>>,
    current: Seq<char>,
    target: nat,
    at: int,
) -> (k: int)
    requires
        none_empty(blocks),
        byte_len(current) <= target,
        0 <= at < blocks.len(),
    ensures
        0 <= k < pack(blocks, current, target).len(),
        contains_text(pack(blocks, current, target)[k], blocks[at]),
        byte_len(pack(blocks, current, target)[k]) <= target || pack(blocks, current, target)[k]
            == blocks[at],
    decreases blocks.len(),
{
    let block = blocks[0];
    let rest = blocks.drop_first();
    assert forall|i: int| 0 <= i < rest.len() implies (#[trigger] rest[i]).len() > 0 by {
        assert(blocks[i + 1].len() > 0);
    }
    assert(block.len() > 0);
    let own = unless_empty(current);
    let all = pack(blocks, current, target);
    let empty = Seq::<char>::empty();
    let next = extended(current, block);
    lemma_byte_len_zero(empty);
    if at > 0 {
        assert(rest[at - 1] == blocks[at]);
    }
    if byte_len(next) <= target {
        if at == 0 {
            lemma_pack_keeps_current(rest, next, target);
            let before = if current.len() == 0 {
                empty
            } else {
                current + separator()
            };
            assert(next =~= before + block);
            lemma_starts_with_contains(all[0], before, block);
            0
        } else {
            lemma_pack_keeps_block(rest, next, target, at - 1)
        }
    } else if byte_len(block) > target {
        if at == 0 {
            let k = own.len() as int;
            assert(all[k] == block);
            law_parts_are_contained(empty, block, empty);
            assert(empty + block + empty =~= block);
            k
        } else {
            let k = lemma_pack_keeps_block(rest, empty, target, at - 1);
            assert(all[own.len() + 1 + k] == pack(rest, empty, target)[k]);
            own.len() + 1 + k
        }
    } else {
        let tail = pack(rest, block, target);
        if at == 0 {
            lemma_pack_keeps_current(rest, block, target);
            assert(empty + block =~= block);
            lemma_starts_with_contains(tail[0], empty, block);
            assert(all[own.len() as int] == tail[0]);
            own.len() as int
        } else {
            let k = lemma_pack_keeps_block(rest, block, target, at - 1);
            assert(all[own.len() + k] == tail[k]);
            own.len() + k
        }
    }
}

proof fn lemma_trimmed_contains(blocks: Seq<Seq<char>>, at: int) -> (k: int)
    requires
        0 <= at < blocks.len(),
        !is_blank(blocks[at]),
    ensures
        0 <= k < trimmed_blocks(blocks).len(),
        trimmed_blocks(blocks)[k] == trim(blocks[at]),
{
    let front = blocks.take(at);
    let back = blocks.skip(at + 1);
    let one = seq![blocks[at]];
    assert(blocks =~= front + one + back);
    law_blocks_are_trimmed_one_by_one(front + one, back, blocks[at]);
    law_blocks_are_trimmed_one_by_one(front, one, blocks[at]);
    trimmed_blocks(front).len() as int
}

/// Merging keeps every block whole: what is left of it without the white space around it
/// stands in one of the merged blocks, which is that block alone unless it fits.
pub proof fn law_merging_keeps_blocks_whole(
    blocks: Seq<Seq<char>>,
    context_size: usize,
    at: int,
)
    requires
        0 <= at < blocks.len(),
        !is_blank(blocks[at]),
    ensures
        exists|k: int|
            0 <= k < merged_blocks(blocks, context_size).len() && contains_text(
                #[trigger] merged_blocks(blocks, context_size)[k],
                trim(blocks[at]),
            ) && (byte_len(merged_blocks(blocks, context_size)[k]) <= if context_size == 0 {
                1
            } else {
                context_size as int
            } || merged_blocks(blocks, context_size)[k] == trim(blocks[at])),
{
    lemma_trimmed_blocks(blocks);
    let i = lemma_trimmed_contains(blocks, at);
    lemma_byte_len_zero(Seq::empty());
    let k = lemma_pack_keeps_block(
        trimmed_blocks(blocks),
        Seq::empty(),
        merge_target(context_size),
        i,
    );
    assert(contains_text(merged_blocks(blocks, context_size)[k], trim(blocks[at])));
}

/// No segment that the parser found is lost. One that takes no more bytes than the context
/// size stands, without the white space around it, in one of the snippets of the file.
pub proof fn law_segments_are_in_the_snippets(
    content: Seq<char>,
    segments: Seq<Seq<char>>,
    context_size: usize,
    at: int,
)
    requires
        !is_blank(content),
        0 <= at < segments.len(),
        !is_blank(segments[at]),
        byte_len(trim(segments[at])) <= context_size,
    ensures
        exists|k: int|
            0 <= k < file_snippets(content, Some(segments), context_size).len() && contains_text(
                #[trigger] file_snippets(content, Some(segments), context_size)[k],
                trim(segments[at]),
            ),
{
    let merged = merged_blocks(segments, context_size);
    let snippets = file_snippets(content, Some(segments), context_size);
    let part = trim(segments[at]);
    let m = lemma_merged_segment(segments, context_size, at);
    lemma_byte_len_zero(part);
    law_cutting_loses_no_code(merged, context_size, m, merged[m]);
    let k = choose|k: int| 0 <= k < snippets.len() && snippets[k] == merged[m];
    assert(contains_text(snippets[k], part));
}

/// Of a segment that takes more bytes than the context size every piece that the splitter
/// makes is a snippet of the file, unless it is blank.
pub proof fn law_pieces_of_segments_are_snippets(
    content: Seq<char>,
    segments: Seq<Seq<char>>,
    context_size: usize,
    at: int,
    piece: Seq<char>,
)
    requires
        !is_blank(content),
        0 <= at < segments.len(),
        !is_blank(segments[at]),
        byte_len(trim(segments[at])) > context_size,
        split_pieces(
            trim(segments[at]),
            if context_size < 128 {
                128
            } else {
                context_size as nat
            },
            64,
        ).contains(piece),
        !is_blank(piece),
    ensures
        file_snippets(content, Some(segments), context_size).contains(piece),
{
    let m = lemma_merged_segment(segments, context_size, at);
    law_cutting_loses_no_code(merged_blocks(segments, context_size), context_size, m, piece);
}

/// The merged block that a segment stands in.
proof fn lemma_merged_segment(segments: Seq<Seq<char>>, context_size: usize, at: int) -> (m: int)
    requires
        0 <= at < segments.len(),
        !is_blank(segments[at]),
    ensures
        0 <= m < merged_blocks(segments, context_size).len(),
        !is_blank(merged_blocks(segments, context_size)[m]),
        contains_text(merged_blocks(segments, context_size)[m], trim(segments[at])),
        byte_len(trim(segments[at])) <= context_size ==> byte_len(
            merged_blocks(segments, context_size)[m],
        ) <= context_size,
        byte_len(trim(segments[at])) > context_size ==> merged_blocks(segments, context_size)[m]
            == trim(segments[at]),
{
    let merged = merged_blocks(segments, context_size);
    let part = trim(segments[at]);
    law_merging_keeps_blocks_whole(segments, context_size, at);
    let m = choose|k: int|
        0 <= k < merged.len() && contains_text(#[trigger] merged[k], part) && (byte_len(merged[k])
            <= if context_size == 0 {
            1
        } else {
            context_size as int
        } || merged[k] == part);
    lemma_merged_blocks(segments, context_size);
    lemma_byte_len_part(merged[m], part);
    lemma_byte_len_zero(part);
    m
}

/// A file without a parser in which the pattern finds nothing is one snippet, without the
/// white space around it, if that takes no more bytes than the context size.
pub proof fn law_small_file_is_one_snippet(content: Seq<char>, context_size: usize)
    requires
        !is_blank(content),
        fallback_blocks(content).len() == 0,
        byte_len(trim(content)) <= context_size,
    ensures
        file_snippets(content, None, context_size) == seq![trim(content)],
{
    law_neighbours_are_merged_if_they_fit(content, content, context_size);
    lemma_merged_blocks(seq![content], context_size);
    let merged = merged_blocks(seq![content], context_size);
    assert(!is_blank(merged[0]));
    law_cutting_keeps_every_piece(trim(content), context_size);
}

/// A blank file has no snippets.
pub proof fn law_blank_file_has_no_snippets(
    content: Seq<char>,
    parsed: Option<Seq<Seq<char>>>,
    context_size: usize,
)
    requires
        forall|i: int| 0 <= i < content.len() ==> is_white_space(#[trigger] content[i]),
    ensures
        file_snippets(content, parsed, context_size).len() == 0,
{
    law_blank_is_all_white_space(content);
}

/// There is a chunk for each snippet, in order. It carries the path of the file, the snippet
/// itself and its line range, and its identifier is made of the path, its place among the
/// chunks and the range.
pub proof fn law_each_snippet_becomes_a_chunk(
    path: Seq<char>,
    content: Seq<char>,
    snippets: Seq<Seq<char>>,
    at: int,
)
    requires
        content.len() < usize::MAX,
    ensures
        chunks_of(path, content, snippets).len() == snippets.len(),
        0 <= at < snippets.len() ==> {
            let chunk = chunks_of(path, content, snippets)[at];
            &&& chunk.path == path
            &&& chunk.snippet == snippets[at]
            &&& chunk.start_line == line_range(content, snippets[at]).0
            &&& chunk.end_line == line_range(content, snippets[at]).1
            &&& chunk.id == path + seq![':'] + decimal(at as nat) + seq![':'] + decimal(
                chunk.start_line as nat,
            ) + seq![':'] + decimal(chunk.end_line as nat)
        },
{
    if 0 <= at < snippets.len() {
        let chunk = chunks_of(path, content, snippets)[at];
        law_line_range_is_in_the_file(content, snippets[at]);
        lemma_newlines_bound(content);
        assert(chunk.id =~= path + seq![':'] + decimal(at as nat) + seq![':'] + decimal(
            chunk.start_line as nat,
        ) + seq![':'] + decimal(chunk.end_line as nat));
    }
}

proof fn lemma_newlines_bound(s: Seq<char>)
    ensures
        newlines(s) <= s.len(),
    decreases s.len(),
{
    if s.len() > 0 {
        lemma_newlines_bound(s.drop_last());
    }
}

/// A snippet that is no part of the file as a whole counts for its first line, and one that
/// is starts behind as many line feeds as stand before its first occurrence and ends as many
/// lines later as it has line feeds itself.
pub proof fn law_line_ranges_count_line_feeds(
    before: Seq<char>,
    snippet: Seq<char>,
    after: Seq<char>,
)
    ensures
        !contains_text(before, snippet) ==> line_range(before, snippet) == (1nat, 1nat),
        (forall|i: int|
            0 <= i < before.len() ==> #[trigger] (before + snippet + after).subrange(
                i,
                i + snippet.len(),
            ) != snippet) ==> line_range(before + snippet + after, snippet) == (
            newlines(before) + 1,
            newlines(before) + 1 + newlines(snippet),
        ),
{
    let content = before + snippet + after;
    law_parts_are_contained(before, snippet, after);
    lemma_first_occurrence(content, snippet);
    let at = first_occurrence(content, snippet)->0;
    if forall|i: int|
        0 <= i < before.len() ==> #[trigger] content.subrange(i, i + snippet.len()) != snippet {
        if at < before.len() {
            assert(content.subrange(at, at + snippet.len()) == snippet);
        }
        assert(content.take(at) =~= before);
    }
}

/// A part takes no more bytes than the whole, and is the whole where that is one character.
proof fn lemma_byte_len_part(s: Seq<char>, part: Seq<char>)
    requires
        contains_text(s, part),
    ensures
        byte_len(part) <= byte_len(s),
        byte_len(s) <= 1 && part.len() > 0 ==> s == part,
{
    law_first_occurrence_is_the_first(s, part);
    let at = first_occurrence(s, part)->0;
    let back = s.skip(at + part.len());
    lemma_byte_len_add(s.take(at) + part, back);
    lemma_byte_len_add(s.take(at), part);
    lemma_byte_len_zero(s);
    if byte_len(s) <= 1 && part.len() > 0 {
        assert(s.take(at) + part + back =~= part);
    }
}

/// Whether a text holds neither a backslash nor a null character.
spec fn plain_lines(s: Seq<char>) -> bool {
    forall|i: int| 0 <= i < s.len() ==> #[trigger] s[i] != '\\' && s[i] != '\0'
}

proof fn lemma_levels_by_line(s: Seq<char>)
    requires
        plain_lines(s),
    ensures
        indent_joins(s) == 0,
        indent_widths(s).finite(),
        indent_widths(s).len() <= newlines(s) + if indent_at_end(s).leading {
            0nat
        } else {
            1nat
        },
    decreases s.len(),
{
    if s.len() > 0 {
        let rest = s.drop_last();
        assert forall|i: int| 0 <= i < rest.len() implies #[trigger] rest[i] != '\\' && rest[i]
            != '\0' by {
            assert(s[i] == rest[i]);
        }
        lemma_levels_by_line(rest);
        assert(s[s.len() - 1] != '\\' && s[s.len() - 1] != '\0');
    }
}

/// Source of up to four gigabytes is handed to the parser of its language, in Python as long
/// as it cannot be indented too deeply, which takes more than 382 line feeds.
pub proof fn law_source_is_parsed(source: Seq<char>, language: SourceLanguage)
    ensures
        language != SourceLanguage::Python ==> (parser_takes(source, language) <==> byte_len(source)
            <= 0xffff_ffff),
        language == SourceLanguage::Python ==> (parser_takes(source, language) <==> byte_len(source)
            <= 0xffff_ffff && indent_widths(source).len() + indent_joins(source) <= 383),
        byte_len(source) <= 0xffff_ffff && newlines(source) <= 382 && (forall|i: int|
            0 <= i < source.len() ==> #[trigger] source[i] != '\\' && source[i] != '\0')
            ==> parser_takes(source, language),
        parser_takes(source, language) ==> byte_len(source) <= 0xffff_ffff,
{
    if plain_lines(source) {
        lemma_levels_by_line(source);
    }
}

/// Spaces at the start of a line are indentation: after a line feed and as many spaces, a
/// character that ends the indentation adds their number to the widths, and a character in
/// the middle of a line adds none.
pub proof fn law_leading_spaces_are_indentation(text: Seq<char>, spaces: Seq<char>, c: char)
    requires
        spaces.len() > 0,
        forall|i: int| 0 <= i < spaces.len() ==> #[trigger] spaces[i] == ' ',
        c == 'x' || c == 'd' || c == '#' || c == '@',
    ensures
        indent_widths(text + seq!['\n'] + spaces + seq![c]) == indent_widths(text).insert(
            spaces.len(),
        ),
        indent_widths(text + seq![c] + spaces + seq![c]) == indent_widths(text + seq![c]),
        indent_widths(text + seq!['\n'] + seq![c]) == indent_widths(text),
{
    lemma_spaces_indent(text + seq!['\n'], spaces);
    lemma_spaces_indent(text + seq![c], spaces);
    let a = text + seq!['\n'];
    let b = text + seq![c];
    assert(a.drop_last() =~= text && a.last() == '\n');
    assert(b.drop_last() =~= text && b.last() == c);
    let x = a + spaces + seq![c];
    assert(x.drop_last() =~= a + spaces && x.last() == c);
    let y = b + spaces + seq![c];
    assert(y.drop_last() =~= b + spaces && y.last() == c);
    let z = a + seq![c];
    assert(z.drop_last() =~= a && z.last() == c);
}

proof fn lemma_spaces_indent(text: Seq<char>, spaces: Seq<char>)
    requires
        forall|i: int| 0 <= i < spaces.len() ==> #[trigger] spaces[i] == ' ',
    ensures
        indent_widths(text + spaces) == indent_widths(text),
        indent_at_end(text).leading ==> indent_at_end(text + spaces) == (Indent {
            columns: indent_at_end(text).columns + spaces.len(),
            leading: true,
        }),
        !indent_at_end(text).leading ==> !indent_at_end(text + spaces).leading,
    decreases spaces.len(),
{
    if spaces.len() == 0 {
        assert(text + spaces =~= text);
    } else {
        let less = spaces.drop_last();
        assert forall|i: int| 0 <= i < less.len() implies #[trigger] less[i] == ' ' by {
            assert(spaces[i] == ' ');
        }
        assert(spaces[spaces.len() - 1] == ' ');
        lemma_spaces_indent(text, less);
        assert((text + spaces).drop_last() =~= text + less);
        assert((text + spaces).last() == ' ');
    }
}

/// What the parser can make of a file: nothing, always; segments in one of the languages
/// alone, of a file that the parser takes, each of them a part of the file and not blank; and
/// those that the parser finds, for Python, for C and for ASCII.
pub proof fn law_outcomes_of_the_parser(
    content: Seq<char>,
    language: SourceLanguage,
    segments: Seq<Seq<char>>,
    at: int,
)
    ensures
        parse_outcome(content, None, None),
        parse_outcome(content, Some(language), None),
        !parse_outcome(content, None, Some(segments)),
        parse_outcome(content, Some(language), Some(segments)) ==> {
            &&& byte_len(content) <= 0xffff_ffff
            &&& 0 <= at < segments.len() ==> !is_blank(segments[at]) && contains_text(
                content,
                segments[at],
            )
            &&& language == SourceLanguage::Python || language == SourceLanguage::C
                || is_ascii_chars(content) ==> segments == parsed_segments(content, language)
        },
{
}

/// A file that is not blank is cut into blocks, the blocks are merged, and what they were
/// merged into is cut; the blocks of the pattern are what is left of its matches when the
/// white space around them is gone.
pub proof fn law_files_are_cut_in_three_steps(
    content: Seq<char>,
    parsed: Option<Seq<Seq<char>>>,
    context_size: usize,
)
    ensures
        !is_blank(content) ==> file_snippets(content, parsed, context_size) == cut_blocks(
            merged_blocks(
                initial_blocks(content, parsed, fallback_blocks(content)),
                context_size,
            ),
            context_size,
        ),
        regex_matches(BLOCK_PATTERN@, content) matches Some(list) ==> fallback_blocks(content)
            == trimmed_blocks(list),
        regex_matches(BLOCK_PATTERN@, content) is None ==> fallback_blocks(content).len() == 0,
{
}

/// At the start of a line a space is one column and a tab is eight, and a backslash there can
/// join two lines; a letter ends the indentation.
pub proof fn law_columns_of_an_indentation(text: Seq<char>)
    requires
        indent_at_end(text).leading,
    ensures
        indent_at_end(text.push(' ')).columns == indent_at_end(text).columns + 1,
        indent_at_end(text.push('\t')).columns == indent_at_end(text).columns + 8,
        indent_at_end(text.push(' ')).leading && indent_at_end(text.push('\t')).leading,
        indent_joins(text.push('\\')) == indent_joins(text) + 1,
        indent_at_end(text.push('\\')) == indent_at_end(text),
        !indent_at_end(text.push('x')).leading,
        indent_joins(text.push('x')) == indent_joins(text),
{
    assert(text.push(' ').drop_last() =~= text);
    assert(text.push('\t').drop_last() =~= text);
    assert(text.push('\\').drop_last() =~= text);
    assert(text.push('x').drop_last() =~= text);
}

} // verus!
