//! What holds of the keyword index as a whole.

use vstd::prelude::*;

use crate::find::{
    ascii_lower, contains_text, law_first_occurrence_is_the_first, law_parts_are_contained,
    occurs_at,
};
use crate::lines::{lemma_index_of_char, lines, strip_carriage_return};
use crate::json::{json_document, json_elements, json_member, json_number, json_string};
use crate::quickwit::{
    appends_chunks, chunk_matches, found_hits, framed, index_lines, ingest_lines, item_of,
    kept_lines, lemma_matching_prefix, line_record, local_hit, local_hits, matching_hits,
    nonblank_lines, record_of, record_stays, remote_hit, reply_items, shadow_records,
    shadow_texts, with_remote, without_paths, DeleteRequest, QuickwitStore,
    RemoteView,
};
use crate::text::{
    is_blank, is_white_space, law_blank_is_all_white_space, law_trimming_the_end_keeps_the_rest,
    one_of,
};
use crate::types::{ChunkView, HitView};

verus! {

/// A line that can stand in a shadow index: it is not blank, holds no line feed and does
/// not end with a carriage return.
pub open spec fn is_index_line(line: Seq<char>) -> bool {
    &&& !is_blank(line)
    &&& forall|i: int| 0 <= i < line.len() ==> #[trigger] line[i] != '\n'
    &&& line.last() != '\r'
}

/// A text between braces without a line feed can stand in a shadow index.
pub(crate) proof fn lemma_object_is_index_line(line: Seq<char>)
    requires
        line.len() > 0,
        line[0] == '{',
        line.last() == '}',
        forall|i: int| 0 <= i < line.len() ==> #[trigger] line[i] != '\n',
    ensures
        is_index_line(line),
{
    law_blank_is_all_white_space(line);
    assert(!is_white_space(line[0]));
}

// ---------------------------------------------------------------------------
// Lines that are written and read
// ---------------------------------------------------------------------------

/// A text that is empty or ends with a line feed.
pub open spec fn whole_lines(content: Seq<char>) -> bool {
    content.len() > 0 ==> content.last() == '\n'
}

/// Every text of a list can stand in a shadow index.
pub open spec fn all_index_lines(list: Seq<Seq<char>>) -> bool {
    forall|i: int| 0 <= i < list.len() ==> is_index_line(#[trigger] list[i])
}

/// Behind a line feed, the lines of two texts follow each other.
proof fn lemma_lines_add(a: Seq<char>, b: Seq<char>)
    requires
        whole_lines(a),
    ensures
        lines(a + b) == lines(a) + lines(b),
    decreases a.len(),
{
    if a.len() == 0 {
        assert(a + b =~= b);
        assert(lines(a) + lines(b) =~= lines(b));
    } else {
        let end = lemma_first_newline(a);
        let rest = a.skip(end + 1);
        if rest.len() > 0 {
            assert(rest.last() == a.last());
        }
        lemma_lines_add(rest, b);
        let all = a + b;
        assert forall|j: int| 0 <= j < end implies #[trigger] all[j] != '\n' by {
            assert(a[j] != '\n');
        }
        lemma_index_of_char(a, '\n', end);
        lemma_index_of_char(all, '\n', end);
        assert(all.take(end) =~= a.take(end));
        assert(all.skip(end + 1) =~= rest + b);
        let head = seq![strip_carriage_return(a.take(end))];
        assert(lines(a) == head + lines(rest));
        assert(lines(all) == head + (lines(rest) + lines(b)));
        assert(head + (lines(rest) + lines(b)) =~= (head + lines(rest)) + lines(b));
    }
}

/// The first line feed of a text that ends with one.
proof fn lemma_first_newline(a: Seq<char>) -> (end: int)
    requires
        a.len() > 0,
        a.last() == '\n',
    ensures
        0 <= end < a.len(),
        a[end] == '\n',
        forall|j: int| 0 <= j < end ==> #[trigger] a[j] != '\n',
    decreases a.len(),
{
    if a[0] == '\n' {
        0
    } else {
        let rest = a.drop_first();
        assert(rest.last() == a.last());
        let end = lemma_first_newline(rest);
        assert forall|j: int| 0 <= j < end + 1 implies #[trigger] a[j] != '\n' by {
            if j > 0 {
                assert(rest[j - 1] == a[j]);
            }
        }
        end + 1
    }
}

/// The one line of a text that holds one line feed, at its end.
proof fn lemma_lines_of_one(line: Seq<char>)
    requires
        is_index_line(line),
    ensures
        lines(line.push('\n')) == seq![line],
        line.len() > 0,
{
    let text = line.push('\n');
    law_blank_is_all_white_space(line);
    assert(line.len() > 0);
    lemma_index_of_char(text, '\n', line.len() as int);
    assert(text.take(line.len() as int) =~= line);
    assert(text.skip(line.len() as int + 1) =~= Seq::<char>::empty());
    assert(lines(Seq::<char>::empty()) =~= Seq::<Seq<char>>::empty());
    assert(seq![line] + Seq::<Seq<char>>::empty() =~= seq![line]);
}

proof fn lemma_framed_lines(list: Seq<Seq<char>>)
    requires
        all_index_lines(list),
    ensures
        lines(framed(list)) == list,
        whole_lines(framed(list)),
    decreases list.len(),
{
    if list.len() > 0 {
        let before = list.drop_last();
        assert forall|i: int| 0 <= i < before.len() implies is_index_line(#[trigger] before[i]) by {
            assert(is_index_line(list[i]));
        }
        lemma_framed_lines(before);
        assert(is_index_line(list[list.len() - 1]));
        lemma_lines_of_one(list.last());
        lemma_lines_add(framed(before), list.last().push('\n'));
        assert(before + seq![list.last()] =~= list);
    } else {
        assert(lines(framed(list)) =~= list);
    }
}

proof fn lemma_nonblank_add(a: Seq<Seq<char>>, b: Seq<Seq<char>>)
    ensures
        nonblank_lines(a + b) == nonblank_lines(a) + nonblank_lines(b),
    decreases b.len(),
{
    if b.len() == 0 {
        assert(a + b =~= a);
        assert(nonblank_lines(a) + nonblank_lines(b) =~= nonblank_lines(a));
    } else {
        lemma_nonblank_add(a, b.drop_last());
        assert((a + b).drop_last() =~= a + b.drop_last());
        assert((a + b).last() == b.last());
        if !is_blank(b.last()) {
            assert((nonblank_lines(a) + nonblank_lines(b.drop_last())).push(b.last())
                =~= nonblank_lines(a) + nonblank_lines(b.drop_last()).push(b.last()));
        }
    }
}

proof fn lemma_nonblank_same(list: Seq<Seq<char>>)
    requires
        all_index_lines(list),
    ensures
        nonblank_lines(list) == list,
    decreases list.len(),
{
    if list.len() > 0 {
        let before = list.drop_last();
        assert forall|i: int| 0 <= i < before.len() implies is_index_line(#[trigger] before[i]) by {
            assert(is_index_line(list[i]));
        }
        lemma_nonblank_same(before);
        assert(is_index_line(list[list.len() - 1]));
        assert(before.push(list.last()) =~= list);
    } else {
        assert(nonblank_lines(list) =~= list);
    }
}

/// Lines that are appended to a shadow index are read back behind those that it held.
pub proof fn law_appended_lines_are_read_back(content: Seq<char>, list: Seq<Seq<char>>)
    requires
        whole_lines(content),
        all_index_lines(list),
    ensures
        index_lines(content + framed(list)) == index_lines(content) + list,
        whole_lines(content + framed(list)),
{
    lemma_framed_lines(list);
    lemma_lines_add(content, framed(list));
    lemma_nonblank_add(lines(content), list);
    lemma_nonblank_same(list);
    let all = content + framed(list);
    if framed(list).len() > 0 {
        assert(all.last() == framed(list).last());
    } else {
        assert(all =~= content);
    }
}

// ---------------------------------------------------------------------------
// Chunks that are indexed, found and deleted
// ---------------------------------------------------------------------------

/// Lines that hold chunks append those chunks to any shadow index.
pub(crate) proof fn lemma_lines_append_chunks(list: Seq<Seq<char>>, chunks: Seq<ChunkView>)
    requires
        list.len() == chunks.len(),
        forall|i: int|
            0 <= i < list.len() ==> is_index_line(#[trigger] list[i]) && line_record(list[i])
                == Some(chunks[i]),
    ensures
        appends_chunks(framed(list), chunks),
{
    let append = framed(list);
    let added = Seq::new(chunks.len(), |i: int| Some(chunks[i]));
    lemma_framed_lines(list);
    assert forall|content: Seq<char>| whole_lines(content) implies #[trigger] shadow_records(
        content + append,
    ) == shadow_records(content) + added by {
        law_appended_lines_are_read_back(content, list);
        let n = index_lines(content).len() as int;
        let all = shadow_records(content + append);
        assert forall|i: int| 0 <= i < all.len() implies all[i] == (shadow_records(content)
            + added)[i] by {
            if i >= n {
                assert(index_lines(content + append)[i] == list[i - n]);
            } else {
                assert(index_lines(content + append)[i] == index_lines(content)[i]);
            }
        }
        assert(all =~= shadow_records(content) + added);
    }
}

proof fn lemma_matching_contains(
    records: Seq<Option<ChunkView>>,
    query: Seq<char>,
    at: int,
)
    requires
        0 <= at < records.len(),
        records[at] is Some,
        chunk_matches(records[at]->0, query),
    ensures
        matching_hits(records, query).contains(local_hit(records[at]->0)),
{
    lemma_matching_prefix(records, query, at + 1);
    let upto = records.take(at + 1);
    let short = matching_hits(upto, query);
    assert(upto.last() == records[at]);
    assert(short.last() == local_hit(records[at]->0));
    let all = matching_hits(records, query);
    assert(all.take(short.len() as int)[short.len() - 1] == short.last());
    assert(all[short.len() - 1] == local_hit(records[at]->0));
}

/// A chunk that was indexed is found: every query that it matches has it among the matching
/// hits, whatever the shadow index held before.
pub proof fn law_indexed_chunk_is_found(
    content: Seq<char>,
    append: Seq<char>,
    chunks: Seq<ChunkView>,
    at: int,
    query: Seq<char>,
)
    requires
        whole_lines(content),
        appends_chunks(append, chunks),
        0 <= at < chunks.len(),
        chunk_matches(chunks[at], query),
    ensures
        matching_hits(shadow_records(content + append), query).contains(local_hit(chunks[at])),
        whole_lines(content + append),
{
    let records = shadow_records(content + append);
    let n = shadow_records(content).len();
    assert(records[n + at] == Some(chunks[at]));
    lemma_matching_contains(records, query, n + at);
    let all = content + append;
    if append.len() > 0 {
        assert(all.last() == append.last());
    } else {
        assert(all =~= content);
    }
}

/// The only chunk of a shadow index is the only hit of every query that it matches, when the
/// server does not answer, with the path, the snippet and the lines that were indexed.
pub proof fn law_only_chunk_is_the_only_hit(
    append: Seq<char>,
    chunk: ChunkView,
    query: Seq<char>,
    limit: usize,
)
    requires
        appends_chunks(append, seq![chunk]),
        chunk_matches(chunk, query),
        limit > 0,
    ensures
        found_hits(Some(append), None, query, limit) == seq![local_hit(chunk)],
{
    let none = Seq::<char>::empty();
    let records = shadow_records(append);
    assert(none + append =~= append);
    assert(index_lines(none) =~= Seq::<Seq<char>>::empty());
    assert(shadow_records(none + append) == shadow_records(none) + Seq::new(
        1,
        |i: int| Some(seq![chunk][i]),
    ));
    assert(records =~= seq![Some(chunk)]);
    assert(records.drop_last() =~= Seq::<Option<ChunkView>>::empty());
    assert(records.last() == Some(chunk));
    assert(matching_hits(records.drop_last(), query) =~= Seq::<HitView>::empty());
    assert(matching_hits(records, query) =~= seq![local_hit(chunk)]);
}

/// A chunk matches what stands in its path or in its snippet, regardless of the case of
/// ASCII letters.
pub proof fn law_path_and_snippet_are_searched(chunk: ChunkView, query: Seq<char>)
    requires
        contains_text(ascii_lower(chunk.path), ascii_lower(query)) || contains_text(
            ascii_lower(chunk.snippet),
            ascii_lower(query),
        ),
    ensures
        chunk_matches(chunk, query),
{
    let needle = ascii_lower(query);
    let path = ascii_lower(chunk.path);
    let snippet = ascii_lower(chunk.snippet);
    let hay = ascii_lower(chunk.path.push('\n') + chunk.snippet);
    if contains_text(path, needle) {
        let at = choose|at: int| occurs_at(path, needle, at);
        assert(hay.subrange(at, at + needle.len()) =~= path.subrange(at, at + needle.len()));
        assert(occurs_at(hay, needle, at));
    } else {
        let at = choose|at: int| occurs_at(snippet, needle, at);
        let to = chunk.path.len() + 1 + at;
        assert(hay.subrange(to, to + needle.len()) =~= snippet.subrange(at, at + needle.len()));
        assert(occurs_at(hay, needle, to));
    }
}

/// The hits whose path is none of the given ones.
pub open spec fn hits_outside(hits: Seq<HitView>, paths: Seq<Seq<char>>) -> Seq<HitView>
    decreases hits.len(),
{
    if hits.len() == 0 {
        Seq::empty()
    } else if one_of(paths, hits.last().path) {
        hits_outside(hits.drop_last(), paths)
    } else {
        hits_outside(hits.drop_last(), paths).push(hits.last())
    }
}

proof fn lemma_hits_outside(hits: Seq<HitView>, paths: Seq<Seq<char>>)
    ensures
        forall|i: int|
            0 <= i < hits_outside(hits, paths).len() ==> !one_of(
                paths,
                (#[trigger] hits_outside(hits, paths)[i]).path,
            ),
    decreases hits.len(),
{
    if hits.len() > 0 {
        lemma_hits_outside(hits.drop_last(), paths);
        let before = hits_outside(hits.drop_last(), paths);
        let all = hits_outside(hits, paths);
        assert forall|i: int| 0 <= i < all.len() implies !one_of(
            paths,
            (#[trigger] all[i]).path,
        ) by {
            if i < before.len() {
                assert(all[i] == before[i]);
            }
        }
    }
}

proof fn lemma_kept(
    list: Seq<Seq<char>>,
    records: Seq<Option<ChunkView>>,
    paths: Seq<Seq<char>>,
    query: Seq<char>,
)
    requires
        all_index_lines(list),
        list.len() <= records.len(),
        forall|i: int| 0 <= i < list.len() ==> records[i] == line_record(#[trigger] list[i]),
    ensures
        all_index_lines(kept_lines(list, records, paths)),
        matching_hits(
            Seq::new(
                kept_lines(list, records, paths).len(),
                |i: int| line_record(kept_lines(list, records, paths)[i]),
            ),
            query,
        ) == hits_outside(matching_hits(records.take(list.len() as int), query), paths),
    decreases list.len(),
{
    let kept = kept_lines(list, records, paths);
    let after = Seq::new(kept.len(), |i: int| line_record(kept[i]));
    if list.len() == 0 {
        assert(records.take(0) =~= Seq::<Option<ChunkView>>::empty());
        assert(after =~= Seq::<Option<ChunkView>>::empty());
        assert(hits_outside(matching_hits(records.take(0), query), paths) =~= matching_hits(
            after,
            query,
        ));
    } else {
        let n = list.len() as int;
        let before = list.drop_last();
        assert forall|i: int| 0 <= i < before.len() implies is_index_line(#[trigger] before[i])
            && records[i] == line_record(before[i]) by {
            assert(is_index_line(list[i]));
            assert(records[i] == line_record(list[i]));
        }
        lemma_kept(before, records, paths, query);
        let kept_before = kept_lines(before, records, paths);
        let after_before = Seq::new(kept_before.len(), |i: int| line_record(kept_before[i]));
        assert(is_index_line(list[n - 1]));
        assert(records[n - 1] == line_record(list[n - 1]));
        assert(records.take(n).drop_last() =~= records.take(n - 1));
        assert(records.take(n).last() == records[n - 1]);
        let hits_before = matching_hits(records.take(n - 1), query);
        let hits = matching_hits(records.take(n), query);
        if record_stays(records[n - 1], paths) {
            assert(kept == kept_before.push(list[n - 1]));
            assert(after.drop_last() =~= after_before);
            assert(after.last() == records[n - 1]);
            let chunk = records[n - 1]->0;
            if chunk_matches(chunk, query) {
                assert(hits == hits_before.push(local_hit(chunk)));
                assert(hits.drop_last() =~= hits_before);
                assert(hits.last() == local_hit(chunk));
            }
        } else {
            assert(kept == kept_before);
            assert(after =~= after_before);
            if records[n - 1] is Some {
                let chunk = records[n - 1]->0;
                if chunk_matches(chunk, query) {
                    assert(hits == hits_before.push(local_hit(chunk)));
                    assert(hits.drop_last() =~= hits_before);
                    assert(hits.last() == local_hit(chunk));
                }
            }
        }
    }
}

/// Lines that can stand in a shadow index are the lines of the index that they make.
proof fn lemma_framed_index_lines(list: Seq<Seq<char>>)
    requires
        all_index_lines(list),
    ensures
        index_lines(framed(list)) == list,
{
    lemma_framed_lines(list);
    lemma_nonblank_same(list);
}

proof fn lemma_kept_again(
    list: Seq<Seq<char>>,
    records: Seq<Option<ChunkView>>,
    paths: Seq<Seq<char>>,
)
    requires
        list.len() <= records.len(),
        forall|i: int| 0 <= i < list.len() ==> record_stays(#[trigger] records[i], paths),
    ensures
        kept_lines(list, records, paths) == list,
    decreases list.len(),
{
    if list.len() > 0 {
        lemma_kept_again(list.drop_last(), records, paths);
        assert(record_stays(records[list.len() - 1], paths));
        assert(list.drop_last().push(list.last()) =~= list);
    } else {
        assert(kept_lines(list, records, paths) =~= list);
    }
}

proof fn lemma_kept_stay(
    list: Seq<Seq<char>>,
    records: Seq<Option<ChunkView>>,
    paths: Seq<Seq<char>>,
)
    requires
        list.len() <= records.len(),
        forall|i: int| 0 <= i < list.len() ==> records[i] == line_record(#[trigger] list[i]),
    ensures
        forall|i: int|
            0 <= i < kept_lines(list, records, paths).len() ==> record_stays(
                line_record(#[trigger] kept_lines(list, records, paths)[i]),
                paths,
            ),
    decreases list.len(),
{
    if list.len() > 0 {
        let before = list.drop_last();
        assert forall|i: int| 0 <= i < before.len() implies records[i] == line_record(
            #[trigger] before[i],
        ) by {
            assert(before[i] == list[i]);
        }
        lemma_kept_stay(before, records, paths);
        let kept_before = kept_lines(before, records, paths);
        let kept = kept_lines(list, records, paths);
        assert(records[list.len() - 1] == line_record(list[list.len() - 1]));
        assert forall|i: int| 0 <= i < kept.len() implies record_stays(
            line_record(#[trigger] kept[i]),
            paths,
        ) by {
            if i < kept_before.len() {
                assert(kept[i] == kept_before[i]);
            }
        }
    }
}

/// Deleting the same paths again changes nothing, unless a line that was kept ends with a
/// carriage return of its own.
pub proof fn law_deleting_twice_is_deleting_once(content: Seq<char>, paths: Seq<Seq<char>>)
    requires
        all_index_lines(kept_lines(index_lines(content), shadow_records(content), paths)),
    ensures
        without_paths(without_paths(content, paths), paths) == without_paths(content, paths),
{
    let list = index_lines(content);
    let records = shadow_records(content);
    let kept = kept_lines(list, records, paths);
    let rewritten = without_paths(content, paths);
    lemma_framed_index_lines(kept);
    lemma_kept_stay(list, records, paths);
    let again = shadow_records(rewritten);
    assert forall|i: int| 0 <= i < kept.len() implies record_stays(#[trigger] again[i], paths) by {
        assert(again[i] == line_record(kept[i]));
    }
    lemma_kept_again(kept, again, paths);
}

/// After paths have been deleted from a shadow index, a query finds what it found before
/// without the hits of those paths.
pub proof fn law_deleted_paths_are_not_found(
    content: Seq<char>,
    paths: Seq<Seq<char>>,
    query: Seq<char>,
)
    requires
        all_index_lines(index_lines(content)),
    ensures
        ({
            let before = matching_hits(shadow_records(content), query);
            let after = matching_hits(shadow_records(without_paths(content, paths)), query);
            &&& after == hits_outside(before, paths)
            &&& forall|i: int| 0 <= i < after.len() ==> !one_of(paths, (#[trigger] after[i]).path)
        }),
{
    let list = index_lines(content);
    let records = shadow_records(content);
    lemma_kept(list, records, paths, query);
    let kept = kept_lines(list, records, paths);
    let rewritten = framed(kept);
    lemma_framed_index_lines(kept);
    assert(shadow_records(rewritten) =~= Seq::new(kept.len(), |i: int| line_record(kept[i])));
    assert(records.take(list.len() as int) =~= records);
    lemma_hits_outside(matching_hits(records, query), paths);
}

/// Deleting no path leaves what can be found as it was.
pub proof fn law_deleting_nothing_changes_nothing(
    content: Seq<char>,
    query: Seq<char>,
)
    requires
        all_index_lines(index_lines(content)),
    ensures
        matching_hits(shadow_records(without_paths(content, Seq::empty())), query)
            == matching_hits(shadow_records(content), query),
{
    law_deleted_paths_are_not_found(content, Seq::empty(), query);
    lemma_nothing_outside(matching_hits(shadow_records(content), query));
}

proof fn lemma_nothing_outside(hits: Seq<HitView>)
    ensures
        hits_outside(hits, Seq::empty()) == hits,
    decreases hits.len(),
{
    if hits.len() > 0 {
        lemma_nothing_outside(hits.drop_last());
        assert(hits.drop_last().push(hits.last()) =~= hits);
    } else {
        assert(hits_outside(hits, Seq::empty()) =~= hits);
    }
}

/// With a limit above zero the shadow index gives at most that many hits, and the server
/// adds what is missing to the limit, or one hit.
pub proof fn law_keyword_hits_are_limited(
    records: Seq<Option<ChunkView>>,
    items: Option<Seq<RemoteView>>,
    query: Seq<char>,
    limit: usize,
)
    requires
        limit > 0,
    ensures
        local_hits(records, query, limit).len() <= limit,
        with_remote(local_hits(records, query, limit), items, limit).len() <= limit + 1,
        local_hits(records, query, limit).len() < limit ==> with_remote(
            local_hits(records, query, limit),
            items,
            limit,
        ).len() <= limit,
{
}

// ---------------------------------------------------------------------------
// Hits of the server
// ---------------------------------------------------------------------------

/// Whether a JSON value is an object whose members are those of the document of a chunk.
pub open spec fn is_document_of(value: serde_json::Value, chunk: ChunkView) -> bool {
    &&& json_member(value, "path"@) is Some
    &&& json_string(json_member(value, "path"@)->0) == Some(chunk.path)
    &&& json_member(value, "snippet"@) is Some
    &&& json_string(json_member(value, "snippet"@)->0) == Some(chunk.snippet)
    &&& json_member(value, "start_line"@) is Some
    &&& json_number(json_member(value, "start_line"@)->0) == Some(chunk.start_line as u64)
    &&& json_member(value, "end_line"@) is Some
    &&& json_number(json_member(value, "end_line"@)->0) == Some(chunk.end_line as u64)
}

/// A hit taken from the server gives back the document: the path, the snippet and the lines
/// of the chunk, with the score one.
pub proof fn law_server_hit_gives_back_the_document(value: serde_json::Value, chunk: ChunkView)
    requires
        is_document_of(value, chunk),
        chunk.start_line <= i64::MAX,
        chunk.end_line <= i64::MAX,
    ensures
        ({
            let hit = remote_hit(item_of(value));
            &&& hit.path == chunk.path
            &&& hit.snippet == chunk.snippet
            &&& hit.start_line == chunk.start_line
            &&& hit.end_line == chunk.end_line
            &&& hit.score_bits == 0x3f80_0000
            &&& hit.source == "quickwit"@
        }),
{
}

/// Of an item of the server each member counts for itself: the text of the member `path`
/// is the path of the hit and that of `snippet` its snippet, and where a text or a line is
/// missing the hit has the empty text or line zero.
pub proof fn law_members_of_an_item_are_kept_apart(value: serde_json::Value)
    ensures
        ({
            let hit = remote_hit(item_of(value));
            &&& json_member(value, "path"@) is None ==> hit.path.len() == 0
            &&& json_member(value, "path"@) matches Some(member) ==> hit.path == (
            match json_string(member) {
                Some(text) => text,
                None => Seq::empty(),
            })
            &&& json_member(value, "snippet"@) is None ==> hit.snippet.len() == 0
            &&& json_member(value, "snippet"@) matches Some(member) ==> hit.snippet == (
            match json_string(member) {
                Some(text) => text,
                None => Seq::empty(),
            })
            &&& json_member(value, "start_line"@) is None ==> hit.start_line == 0
            &&& json_member(value, "start_line"@) matches Some(member) ==> match json_number(
                member,
            ) {
                Some(n) => n <= i64::MAX && n <= usize::MAX ==> hit.start_line == n,
                None => hit.start_line == 0,
            }
            &&& json_member(value, "end_line"@) is None ==> hit.end_line == 0
            &&& json_member(value, "end_line"@) matches Some(member) ==> match json_number(member) {
                Some(n) => n <= i64::MAX && n <= usize::MAX ==> hit.end_line == n,
                None => hit.end_line == 0,
            }
            &&& hit.score_bits == 0x3f80_0000
            &&& hit.source == "quickwit"@
        }),
{
}

/// The items of an answer are the elements of its array `hits`, one for each and in order;
/// without such an array there are none.
pub proof fn law_answers_are_read_item_by_item(body: Seq<u8>, at: int)
    ensures
        json_document(body) is None ==> reply_items(body) is None,
        json_document(body) matches Some(document) ==> match json_member(document, "hits"@) {
            Some(member) => match json_elements(member) {
                Some(list) => {
                    &&& reply_items(body) is Some
                    &&& reply_items(body)->0.len() == list.len()
                    &&& 0 <= at < list.len() ==> reply_items(body)->0[at] == item_of(list[at])
                },
                None => reply_items(body) is None,
            },
            None => reply_items(body) is None,
        },
{
}

/// The hits of the server stand behind those of the shadow index, in the order of the
/// answer, as many as are missing to the limit and at least one; without an answer the hits
/// stay as they are.
pub proof fn law_server_hits_follow(
    hits: Seq<HitView>,
    items: Seq<RemoteView>,
    limit: usize,
    at: int,
)
    ensures
        with_remote(hits, None, limit) == hits,
        with_remote(hits, Some(items), limit).len() == hits.len() + (if hits.len() + items.len()
            <= limit {
            items.len() as int
        } else if items.len() == 0 {
            0
        } else if hits.len() < limit {
            limit - hits.len()
        } else {
            1
        }),
        0 <= at < hits.len() ==> with_remote(hits, Some(items), limit)[at] == hits[at],
        hits.len() <= at < with_remote(hits, Some(items), limit).len() ==> with_remote(
            hits,
            Some(items),
            limit,
        )[at] == remote_hit(items[at - hits.len()]),
{
}

/// A document of the server is found without a shadow index: it is the hit at its place in
/// the answer, as far as the limit reaches, with the path, the snippet and the lines of its
/// chunk.
pub proof fn law_documents_of_the_server_are_found(
    body: Seq<u8>,
    document: serde_json::Value,
    member: serde_json::Value,
    list: Seq<serde_json::Value>,
    at: int,
    chunk: ChunkView,
    query: Seq<char>,
    limit: usize,
)
    requires
        json_document(body) == Some(document),
        json_member(document, "hits"@) == Some(member),
        json_elements(member) == Some(list),
        0 <= at < list.len(),
        at < limit,
        is_document_of(list[at], chunk),
        chunk.start_line <= i64::MAX,
        chunk.end_line <= i64::MAX,
    ensures
        ({
            let hits = found_hits(None, Some(body), query, limit);
            &&& at < hits.len()
            &&& hits[at].path == chunk.path
            &&& hits[at].snippet == chunk.snippet
            &&& hits[at].start_line == chunk.start_line
            &&& hits[at].end_line == chunk.end_line
        }),
{
    let none = Seq::<Option<ChunkView>>::empty();
    assert(matching_hits(none, query) =~= Seq::<HitView>::empty());
    assert(local_hits(none, query, limit) =~= Seq::<HitView>::empty());
    law_answers_are_read_item_by_item(body, at);
    law_server_hits_follow(Seq::empty(), reply_items(body)->0, limit, at);
    law_server_hit_gives_back_the_document(list[at], chunk);
}

// ---------------------------------------------------------------------------
// Hits of the shadow index
// ---------------------------------------------------------------------------

/// A hit of the shadow index gives back the chunk: its path, its snippet and its lines, with
/// the score one.
pub proof fn law_shadow_hit_gives_back_the_chunk(chunk: ChunkView)
    requires
        chunk.start_line <= i64::MAX,
        chunk.end_line <= i64::MAX,
    ensures
        local_hit(chunk).path == chunk.path,
        local_hit(chunk).snippet == chunk.snippet,
        local_hit(chunk).start_line == chunk.start_line,
        local_hit(chunk).end_line == chunk.end_line,
        local_hit(chunk).score_bits == 0x3f80_0000,
        local_hit(chunk).source == "quickwit-shadow"@,
{
}

/// A chunk matches exactly the queries that are a part of its path, a line feed and its
/// snippet, all in lower case.
pub proof fn law_matches_are_parts(chunk: ChunkView, query: Seq<char>)
    ensures
        chunk_matches(chunk, query) <==> exists|before: Seq<char>, after: Seq<char>|
            ascii_lower(chunk.path + seq!['\n'] + chunk.snippet) == #[trigger] (before + ascii_lower(
                query,
            ) + after),
{
    let hay = ascii_lower(chunk.path + seq!['\n'] + chunk.snippet);
    let needle = ascii_lower(query);
    assert(chunk.path.push('\n') + chunk.snippet =~= chunk.path + seq!['\n'] + chunk.snippet);
    if chunk_matches(chunk, query) {
        law_first_occurrence_is_the_first(hay, needle);
        let at = choose|at: int|
            0 <= at <= hay.len() - needle.len() && hay == hay.take(at) + needle
                + #[trigger] hay.skip(at + needle.len());
        assert(hay == hay.take(at) + needle + hay.skip(at + needle.len()));
    }
    if exists|before: Seq<char>, after: Seq<char>| hay == #[trigger] (before + needle + after) {
        let (before, after) = choose|before: Seq<char>, after: Seq<char>|
            hay == #[trigger] (before + needle + after);
        law_parts_are_contained(before, needle, after);
    }
}

/// The lines of a shadow index are searched one by one and in order: each chunk that matches
/// is a hit, and nothing else is.
pub proof fn law_records_are_searched_one_by_one(
    a: Seq<Option<ChunkView>>,
    b: Seq<Option<ChunkView>>,
    chunk: ChunkView,
    query: Seq<char>,
)
    ensures
        matching_hits(a + b, query) == matching_hits(a, query) + matching_hits(b, query),
        matching_hits(Seq::empty(), query) == Seq::<HitView>::empty(),
        matching_hits(seq![None], query) == Seq::<HitView>::empty(),
        chunk_matches(chunk, query) ==> matching_hits(seq![Some(chunk)], query) == seq![
            local_hit(chunk),
        ],
        !chunk_matches(chunk, query) ==> matching_hits(seq![Some(chunk)], query) == Seq::<
            HitView,
        >::empty(),
    decreases b.len(),
{
    let none = Seq::<Option<ChunkView>>::empty();
    let no_hits = Seq::<HitView>::empty();
    assert(matching_hits(none, query) =~= no_hits);
    assert(seq![None::<ChunkView>].drop_last() =~= none);
    assert(seq![Some(chunk)].drop_last() =~= none);
    assert(seq![Some(chunk)].last() == Some(chunk));
    assert(no_hits.push(local_hit(chunk)) =~= seq![local_hit(chunk)]);
    if b.len() == 0 {
        assert(a + b =~= a);
        assert(matching_hits(a, query) + matching_hits(b, query) =~= matching_hits(a, query));
    } else {
        let rest = b.drop_last();
        law_records_are_searched_one_by_one(a, rest, chunk, query);
        assert((a + b).drop_last() =~= a + rest);
        assert((a + b).last() == b.last());
        if b.last() is Some {
            let hit = local_hit(b.last()->0);
            assert((matching_hits(a, query) + matching_hits(rest, query)).push(hit)
                =~= matching_hits(a, query) + matching_hits(rest, query).push(hit));
        }
    }
}

/// The shadow index answers with the first of all matching hits, as many as the limit says;
/// with a limit of zero its first line alone counts.
pub proof fn law_first_matches_are_answered(
    records: Seq<Option<ChunkView>>,
    query: Seq<char>,
    limit: usize,
)
    ensures
        limit > 0 && matching_hits(records, query).len() <= limit ==> local_hits(
            records,
            query,
            limit,
        ) == matching_hits(records, query),
        limit > 0 && matching_hits(records, query).len() > limit ==> local_hits(
            records,
            query,
            limit,
        ) == matching_hits(records, query).take(limit as int),
        records.len() > 0 ==> local_hits(records, query, 0) == matching_hits(
            seq![records[0]],
            query,
        ),
{
    if records.len() > 0 {
        if records.len() == 1 {
            assert(records =~= seq![records[0]]);
        } else {
            assert(records.take(1) =~= seq![records[0]]);
        }
    }
}

/// A search looks at the shadow index where there is one, and at the answer of the server
/// where there is one.
pub proof fn law_both_sources_are_searched(
    content: Seq<char>,
    body: Seq<u8>,
    query: Seq<char>,
    limit: usize,
)
    ensures
        found_hits(None, None, query, limit) == Seq::<HitView>::empty(),
        found_hits(Some(content), None, query, limit) == local_hits(
            shadow_records(content),
            query,
            limit,
        ),
        reply_items(body) is None ==> found_hits(Some(content), Some(body), query, limit)
            == local_hits(shadow_records(content), query, limit),
        reply_items(body) matches Some(items) ==> found_hits(
            Some(content),
            Some(body),
            query,
            limit,
        ) == with_remote(local_hits(shadow_records(content), query, limit), Some(items), limit),
{
    let none = Seq::<Option<ChunkView>>::empty();
    assert(matching_hits(none, query) =~= Seq::<HitView>::empty());
    assert(local_hits(none, query, limit) =~= Seq::<HitView>::empty());
}

/// A line holds the chunk whose members its object has, or whose values are the five elements
/// of its array, in the order identifier, path, snippet, first line and last line.
pub proof fn law_lines_hold_chunks(line: Seq<char>, value: serde_json::Value, chunk: ChunkView)
    requires
        json_document(vstd::utf8::encode_utf8(line)) == Some(value),
    ensures
        is_document_of(value, chunk) && json_member(value, "id"@) is Some && json_string(
            json_member(value, "id"@)->0,
        ) == Some(chunk.id) ==> line_record(line) == Some(chunk),
        json_member(value, "id"@) is None && json_elements(value) is Some && json_elements(
            value,
        )->0.len() == 5 && json_string(json_elements(value)->0[0]) == Some(chunk.id)
            && json_string(json_elements(value)->0[1]) == Some(chunk.path) && json_string(
            json_elements(value)->0[2],
        ) == Some(chunk.snippet) && json_number(json_elements(value)->0[3]) == Some(
            chunk.start_line as u64,
        ) && json_number(json_elements(value)->0[4]) == Some(chunk.end_line as u64)
            ==> line_record(line) == Some(chunk),
        json_elements(value) is None && json_member(value, "id"@) is None ==> line_record(line)
            is None,
        json_elements(value) is None && json_member(value, "path"@) is None ==> line_record(line)
            is None,
        json_elements(value) is None && json_member(value, "snippet"@) is None ==> line_record(
            line,
        ) is None,
        json_elements(value) is None && json_member(value, "start_line"@) is None ==> line_record(
            line,
        ) is None,
        json_elements(value) is None && json_member(value, "end_line"@) is None ==> line_record(
            line,
        ) is None,
{
    if is_document_of(value, chunk) && json_member(value, "id"@) is Some && json_string(
        json_member(value, "id"@)->0,
    ) == Some(chunk.id) {
        assert(record_of(value)->0 =~= chunk);
    }
    if json_member(value, "id"@) is None && record_of(value) is Some && json_string(
        json_elements(value)->0[0],
    ) == Some(chunk.id) && json_string(json_elements(value)->0[1]) == Some(chunk.path)
        && json_string(json_elements(value)->0[2]) == Some(chunk.snippet) && json_number(
        json_elements(value)->0[3],
    ) == Some(chunk.start_line as u64) && json_number(json_elements(value)->0[4]) == Some(
        chunk.end_line as u64,
    ) {
        assert(record_of(value)->0 =~= chunk);
    }
}

/// A line holds a chunk in no other way: every text and number of the chunk is the member of
/// its name in an object, or stands at its place in an array of exactly five elements.
pub proof fn law_chunks_are_held_in_two_ways(
    line: Seq<char>,
    value: serde_json::Value,
    chunk: ChunkView,
)
    requires
        json_document(vstd::utf8::encode_utf8(line)) == Some(value),
        line_record(line) == Some(chunk),
    ensures
        ({
            ||| {
                &&& is_document_of(value, chunk)
                &&& json_member(value, "id"@) is Some
                &&& json_string(json_member(value, "id"@)->0) == Some(chunk.id)
            }
            ||| {
                &&& json_elements(value) is Some
                &&& json_elements(value)->0.len() == 5
                &&& json_string(json_elements(value)->0[0]) == Some(chunk.id)
                &&& json_string(json_elements(value)->0[1]) == Some(chunk.path)
                &&& json_string(json_elements(value)->0[2]) == Some(chunk.snippet)
                &&& json_number(json_elements(value)->0[3]) == Some(chunk.start_line as u64)
                &&& json_number(json_elements(value)->0[4]) == Some(chunk.end_line as u64)
            }
        }),
{
}

/// A line that is no JSON holds no chunk.
pub proof fn law_other_lines_hold_nothing(line: Seq<char>)
    requires
        json_document(vstd::utf8::encode_utf8(line)) is None,
    ensures
        line_record(line) is None,
{
}

// ---------------------------------------------------------------------------
// Lines of the shadow index
// ---------------------------------------------------------------------------

/// Lines are framed one by one, each as it is and with a line feed behind it.
pub proof fn law_lines_are_framed_one_by_one(
    a: Seq<Seq<char>>,
    b: Seq<Seq<char>>,
    line: Seq<char>,
)
    ensures
        framed(a + b) == framed(a) + framed(b),
        framed(seq![line]) == line + seq!['\n'],
        framed(Seq::empty()) == Seq::<char>::empty(),
    decreases b.len(),
{
    let none = Seq::<Seq<char>>::empty();
    assert(seq![line].drop_last() =~= none);
    assert(framed(none) =~= Seq::<char>::empty());
    assert(framed(seq![line]) =~= line + seq!['\n']);
    if b.len() == 0 {
        assert(a + b =~= a);
        assert(framed(a) + framed(b) =~= framed(a));
    } else {
        law_lines_are_framed_one_by_one(a, b.drop_last(), line);
        assert((a + b).drop_last() =~= a + b.drop_last());
        assert((a + b).last() == b.last());
        let end = b.last().push('\n');
        assert(framed(a) + framed(b.drop_last()) + end =~= framed(a) + (framed(b.drop_last())
            + end));
    }
}

/// The lines of a shadow index are all lines of its text but the blank ones, in order.
pub proof fn law_blank_lines_are_passed_over(content: Seq<char>)
    ensures
        index_lines(content) == lines(content).filter(|line: Seq<char>| !is_blank(line)),
{
    lemma_nonblank_filter(lines(content));
}

proof fn lemma_nonblank_filter(list: Seq<Seq<char>>)
    ensures
        nonblank_lines(list) == list.filter(|line: Seq<char>| !is_blank(line)),
    decreases list.len(),
{
    reveal(Seq::filter);
    if list.len() > 0 {
        lemma_nonblank_filter(list.drop_last());
    } else {
        assert(nonblank_lines(list) =~= list.filter(|line: Seq<char>| !is_blank(line)));
    }
}

/// There is a record for each line of a shadow index, and it is what that line holds.
pub proof fn law_each_line_is_a_record(content: Seq<char>, at: int)
    ensures
        shadow_records(content).len() == index_lines(content).len(),
        0 <= at < index_lines(content).len() ==> shadow_records(content)[at] == line_record(
            index_lines(content)[at],
        ),
{
}

/// There is a document for the server and a line for the shadow index for each chunk, in the
/// order of the chunks, and that of a chunk is what it is alone.
pub proof fn law_each_chunk_is_written(chunks: Seq<ChunkView>, at: int)
    ensures
        ingest_lines(chunks).len() == chunks.len(),
        shadow_texts(chunks).len() == chunks.len(),
        0 <= at < chunks.len() ==> ingest_lines(chunks)[at] == ingest_lines(seq![chunks[at]])[0],
        0 <= at < chunks.len() ==> shadow_texts(chunks)[at] == shadow_texts(seq![chunks[at]])[0],
{
}

// ---------------------------------------------------------------------------
// What deleting leaves
// ---------------------------------------------------------------------------

proof fn lemma_kept_add(
    a: Seq<Seq<char>>,
    r: Seq<Option<ChunkView>>,
    b: Seq<Seq<char>>,
    q: Seq<Option<ChunkView>>,
    paths: Seq<Seq<char>>,
)
    requires
        a.len() == r.len(),
        b.len() <= q.len(),
    ensures
        kept_lines(a + b, r + q, paths) == kept_lines(a, r, paths) + kept_lines(b, q, paths),
    decreases b.len(),
{
    if b.len() == 0 {
        assert(a + b =~= a);
        lemma_kept_records(a, r, r + q, paths);
        assert(kept_lines(a, r, paths) + kept_lines(b, q, paths) =~= kept_lines(a, r, paths));
    } else {
        let rest = b.drop_last();
        lemma_kept_add(a, r, rest, q, paths);
        assert((a + b).drop_last() =~= a + rest);
        assert((a + b).last() == b.last());
        assert((r + q)[(a + b).len() - 1] == q[b.len() - 1]);
        assert((kept_lines(a, r, paths) + kept_lines(rest, q, paths)).push(b.last())
            =~= kept_lines(a, r, paths) + kept_lines(rest, q, paths).push(b.last()));
    }
}

proof fn lemma_kept_records(
    list: Seq<Seq<char>>,
    a: Seq<Option<ChunkView>>,
    b: Seq<Option<ChunkView>>,
    paths: Seq<Seq<char>>,
)
    requires
        list.len() <= a.len(),
        list.len() <= b.len(),
        forall|i: int| 0 <= i < list.len() ==> a[i] == b[i],
    ensures
        kept_lines(list, a, paths) == kept_lines(list, b, paths),
    decreases list.len(),
{
    if list.len() > 0 {
        lemma_kept_records(list.drop_last(), a, b, paths);
        assert(a[list.len() - 1] == b[list.len() - 1]);
    }
}

/// Lines are kept or deleted one by one and in order: a line that holds a chunk of none of
/// the paths is kept as it is, and every other line goes.
pub proof fn law_lines_are_deleted_one_by_one(
    a: Seq<char>,
    b: Seq<char>,
    line: Seq<char>,
    paths: Seq<Seq<char>>,
)
    requires
        whole_lines(a),
        is_index_line(line),
    ensures
        without_paths(a + b, paths) == without_paths(a, paths) + without_paths(b, paths),
        without_paths(Seq::empty(), paths) == Seq::<char>::empty(),
        line_record(line) is None ==> without_paths(line + seq!['\n'], paths) == Seq::<
            char,
        >::empty(),
        line_record(line) matches Some(chunk) ==> {
            &&& paths.contains(chunk.path) ==> without_paths(line + seq!['\n'], paths) == Seq::<
                char,
            >::empty()
            &&& !paths.contains(chunk.path) ==> without_paths(line + seq!['\n'], paths) == line
                + seq!['\n']
        },
{
    lemma_lines_add(a, b);
    lemma_nonblank_add(lines(a), lines(b));
    let x = index_lines(a);
    let y = index_lines(b);
    assert(shadow_records(a + b) =~= shadow_records(a) + shadow_records(b));
    lemma_kept_add(x, shadow_records(a), y, shadow_records(b), paths);
    law_lines_are_framed_one_by_one(
        kept_lines(x, shadow_records(a), paths),
        kept_lines(y, shadow_records(b), paths),
        line,
    );
    let none = Seq::<Seq<char>>::empty();
    assert(index_lines(Seq::empty()) =~= none);
    assert(without_paths(Seq::empty(), paths) =~= Seq::<char>::empty());
    let one = line + seq!['\n'];
    assert(one =~= line.push('\n'));
    lemma_lines_of_one(line);
    let list = seq![line];
    assert(all_index_lines(list));
    lemma_nonblank_same(list);
    let records = shadow_records(one);
    assert(records[0] == line_record(line));
    assert(list.drop_last() =~= none);
    assert(kept_lines(none, records, paths) =~= none);
    assert(none.push(line) =~= list);
    assert(framed(none) =~= Seq::<char>::empty());
}

/// The hits outside the paths are all the hits whose path is none of them, in order.
pub proof fn law_hits_outside_are_all_others(hits: Seq<HitView>, paths: Seq<Seq<char>>)
    ensures
        hits_outside(hits, paths) == hits.filter(|hit: HitView| !paths.contains(hit.path)),
    decreases hits.len(),
{
    reveal(Seq::filter);
    if hits.len() > 0 {
        law_hits_outside_are_all_others(hits.drop_last(), paths);
    } else {
        assert(hits_outside(hits, paths) =~= hits.filter(
            |hit: HitView| !paths.contains(hit.path),
        ));
    }
}

// ---------------------------------------------------------------------------
// Addresses
// ---------------------------------------------------------------------------

/// The addresses of a store are made of the address of its server, whether or not slashes
/// stand behind that, and of the name of its index.
pub proof fn law_addresses_of_a_store(
    store: QuickwitStore,
    root: Seq<char>,
    slashes: Seq<char>,
    operation: Seq<char>,
    request: DeleteRequest,
)
    requires
        store.base_url@ == root + slashes,
        root.len() > 0 ==> root.last() != '/',
        forall|i: int| 0 <= i < slashes.len() ==> #[trigger] slashes[i] == '/',
    ensures
        store.health_address() == root + "/health/livez"@,
        store.operation_address(operation) == root + "/api/v1/"@ + store.index_id@ + seq!['/']
            + operation,
        store.index_address() == root + "/api/v1/indexes/"@ + store.index_id@,
        request.empties(store) ==> {
            &&& request.shadow@.len() == 0
            &&& request.index_url@ == root + "/api/v1/indexes/"@ + store.index_id@
            &&& request.documents_url@ == root + "/api/v1/"@ + store.index_id@ + seq!['/']
                + "delete"@
        },
{
    reveal_strlit("/");
    assert("/"@ =~= seq!['/']);
    law_trimming_the_end_keeps_the_rest(root, slashes, '/');
}

/// A record stays exactly when it is a chunk of none of the paths.
pub proof fn law_chunks_of_other_paths_stay(chunk: ChunkView, paths: Seq<Seq<char>>)
    ensures
        record_stays(Some(chunk), paths) <==> !paths.contains(chunk.path),
        !record_stays(None, paths),
{
}

} // verus!
