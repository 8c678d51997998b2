//! The keyword index: a Quickwit server and, beside it, a local shadow index with one
//! JSON document per line.

use vstd::prelude::*;

use crate::find::{ascii_lower, contains_text, lower_text, text_contains};
use crate::json::{
    field_views, get_elements, get_member, get_number, get_string, holds_field, json_document,
    json_elements, json_member, json_number, json_object_text, json_string, object_text,
    parse_json, Scalar, ScalarView,
};
use crate::lines::{lines, text_lines};
use crate::paths::{join_path, joined_path};
use crate::quickwit_laws::{
    is_document_of, is_index_line, lemma_lines_append_chunks, lemma_object_is_index_line,
    whole_lines,
};
use crate::text::{
    copy_text, is_blank, is_one_of, lemma_texts_push, one_of, opt_text, text_is_blank, texts,
    trim_end_class, trim_text_end, CharClass,
};
use crate::types::{
    chunk_views, hit_views, lemma_hit_views_push, ChunkView, CodeChunk, HitView, SearchHit,
};

verus! {

// ---------------------------------------------------------------------------
// The store and its addresses
// ---------------------------------------------------------------------------

/// Where the keyword index is kept.
#[derive(Debug, Clone)]
pub struct QuickwitStore {
    pub base_url: String,
    pub index_id: String,
    pub shadow_path: String,
}

/// The path of the shadow index.
pub open spec fn shadow_index_path() -> Seq<char> {
    join_path(".opencodesearch"@, "quickwit_shadow.jsonl"@)
}

/// The address of the server without slashes at its end.
pub open spec fn server_root(base_url: Seq<char>) -> Seq<char> {
    trim_end_class(base_url, CharClass::One('/'))
}

impl QuickwitStore {
    /// The address that tells whether the server is alive.
    pub open spec fn health_address(self) -> Seq<char> {
        server_root(self.base_url@) + "/health/livez"@
    }

    /// The address of an operation on the documents of the index.
    pub open spec fn operation_address(self, operation: Seq<char>) -> Seq<char> {
        server_root(self.base_url@) + "/api/v1/"@ + self.index_id@ + "/"@ + operation
    }

    /// The address of the index itself.
    pub open spec fn index_address(self) -> Seq<char> {
        server_root(self.base_url@) + "/api/v1/indexes/"@ + self.index_id@
    }

    /// The store of an index on a server.
    pub fn new(base_url: String, index_id: String) -> (store: QuickwitStore)
        ensures
            store.base_url@ == base_url@,
            store.index_id@ == index_id@,
            store.shadow_path@ == shadow_index_path(),
    {
        QuickwitStore {
            base_url,
            index_id,
            shadow_path: joined_path(".opencodesearch", "quickwit_shadow.jsonl"),
        }
    }

    /// The address that tells whether the server is alive.
    pub fn health_url(&self) -> (url: String)
        ensures
            url@ == self.health_address(),
    {
        let mut url = trim_text_end(self.base_url.as_str(), CharClass::One('/'));
        url.append("/health/livez");
        url
    }

    /// The address of an operation on the documents of the index.
    pub fn operation_url(&self, operation: &str) -> (url: String)
        ensures
            url@ == self.operation_address(operation@),
    {
        let mut url = trim_text_end(self.base_url.as_str(), CharClass::One('/'));
        url.append("/api/v1/");
        url.append(self.index_id.as_str());
        url.append("/");
        url.append(operation);
        url
    }

    /// The address of the index itself.
    pub fn index_url(&self) -> (url: String)
        ensures
            url@ == self.index_address(),
    {
        let mut url = trim_text_end(self.base_url.as_str(), CharClass::One('/'));
        url.append("/api/v1/indexes/");
        url.append(self.index_id.as_str());
        url
    }

    /// Judges the status with which the server answers at its health address: it is
    /// healthy exactly when it answers 200. The error is the status.
    pub fn health_check(&self, status: u16) -> (verdict: Result<(), u16>)
        ensures
            verdict == (if status == 200 {
                Ok::<(), u16>(())
            } else {
                Err::<(), u16>(status)
            }),
    {
        if status == 200 {
            Ok(())
        } else {
            Err(status)
        }
    }
}

// ---------------------------------------------------------------------------
// Framing
// ---------------------------------------------------------------------------

/// Lines one after the other, each with a line feed behind it.
pub open spec fn framed(list: Seq<Seq<char>>) -> Seq<char>
    decreases list.len(),
{
    if list.len() == 0 {
        Seq::empty()
    } else {
        framed(list.drop_last()) + list.last().push('\n')
    }
}

/// Lines one after the other, each with a line feed behind it.
pub fn frame_lines(list: &Vec<String>) -> (text: String)
    ensures
        text@ == framed(texts(list@)),
{
    let mut out = String::new();
    let ghost all = texts(list@);
    assert(all.take(0) =~= Seq::<Seq<char>>::empty());
    for i in 0..list.len()
        invariant
            all == texts(list@),
            out@ == framed(all.take(i as int)),
    {
        let ghost before = out@;
        assert(all.take(i + 1).drop_last() =~= all.take(i as int));
        out.append(list[i].as_str());
        out.push('\n');
        assert(out@ =~= before + list@[i as int]@.push('\n'));
    }
    assert(all.take(all.len() as int) =~= all);
    out
}

/// The lines that are not blank, in their order.
pub open spec fn nonblank_lines(list: Seq<Seq<char>>) -> Seq<Seq<char>>
    decreases list.len(),
{
    if list.len() == 0 {
        Seq::empty()
    } else if is_blank(list.last()) {
        nonblank_lines(list.drop_last())
    } else {
        nonblank_lines(list.drop_last()).push(list.last())
    }
}

/// The lines of a shadow index that can hold a document.
pub open spec fn index_lines(content: Seq<char>) -> Seq<Seq<char>> {
    nonblank_lines(lines(content))
}

/// The lines of a shadow index that can hold a document.
pub fn shadow_lines(content: &str) -> (list: Vec<String>)
    ensures
        texts(list@) == index_lines(content@),
{
    let all = text_lines(content);
    let mut out: Vec<String> = Vec::new();
    let ghost views = texts(all@);
    assert(views.take(0) =~= Seq::<Seq<char>>::empty());
    assert(texts(out@) =~= Seq::<Seq<char>>::empty());
    for i in 0..all.len()
        invariant
            views == texts(all@),
            texts(out@) == nonblank_lines(views.take(i as int)),
    {
        proof {
            assert(views.take(i + 1).drop_last() =~= views.take(i as int));
            assert(views.take(i + 1).last() == all@[i as int]@);
        }
        if !text_is_blank(all[i].as_str()) {
            let line = copy_text(all[i].as_str());
            proof {
                lemma_texts_push(out@, line);
            }
            out.push(line);
        }
    }
    assert(views.take(views.len() as int) =~= views);
    out
}

// ---------------------------------------------------------------------------
// Indexing
// ---------------------------------------------------------------------------

/// The members of the document that is sent to the server for a chunk.
pub open spec fn ingest_fields(chunk: ChunkView) -> Seq<(Seq<char>, ScalarView)> {
    seq![
        ("path"@, ScalarView::Text(chunk.path)),
        ("snippet"@, ScalarView::Text(chunk.snippet)),
        ("start_line"@, ScalarView::Number(chunk.start_line)),
        ("end_line"@, ScalarView::Number(chunk.end_line)),
    ]
}

/// The documents that are sent to the server, one on each line.
pub open spec fn ingest_lines(chunks: Seq<ChunkView>) -> Seq<Seq<char>> {
    Seq::new(chunks.len(), |i: int| json_object_text(ingest_fields(chunks[i])))
}

/// The document that is sent to the server for a chunk.
pub fn ingest_line(chunk: &CodeChunk) -> (line: String)
    ensures
        line@ == json_object_text(ingest_fields(chunk@)),
        is_index_line(line@),
        forall|i: int|
            0 <= i < 4 ==> holds_field(
                json_document(vstd::utf8::encode_utf8(line@)),
                (#[trigger] ingest_fields(chunk@)[i]).0,
                ingest_fields(chunk@)[i].1,
            ),
        ({
            let document = json_document(vstd::utf8::encode_utf8(line@));
            &&& document is Some
            &&& is_document_of(document->0, chunk@)
        }),
{
    let mut fields: Vec<(String, Scalar)> = Vec::new();
    fields.push((copy_text("path"), Scalar::Text(copy_text(chunk.path.as_str()))));
    fields.push((copy_text("snippet"), Scalar::Text(copy_text(chunk.snippet.as_str()))));
    fields.push((copy_text("start_line"), Scalar::Number(chunk.start_line)));
    fields.push((copy_text("end_line"), Scalar::Number(chunk.end_line)));
    proof {
        assert(field_views(fields@) =~= ingest_fields(chunk@));
        reveal_strlit("path");
        reveal_strlit("snippet");
        reveal_strlit("start_line");
        reveal_strlit("end_line");
        assert("path"@.len() == 4);
        assert("snippet"@.len() == 7);
        assert("start_line"@.len() == 10);
        assert("end_line"@.len() == 8);
    }
    let line = object_text(fields);
    proof {
        lemma_object_is_index_line(line@);
        let views = ingest_fields(chunk@);
        let document = json_document(vstd::utf8::encode_utf8(line@));
        assert(holds_field(document, views[0].0, views[0].1));
        assert(holds_field(document, views[1].0, views[1].1));
        assert(holds_field(document, views[2].0, views[2].1));
        assert(holds_field(document, views[3].0, views[3].1));
    }
    line
}

/// The members of the line of a chunk in the shadow index.
pub open spec fn shadow_fields(chunk: ChunkView) -> Seq<(Seq<char>, ScalarView)> {
    seq![
        ("id"@, ScalarView::Text(chunk.id)),
        ("path"@, ScalarView::Text(chunk.path)),
        ("snippet"@, ScalarView::Text(chunk.snippet)),
        ("start_line"@, ScalarView::Number(chunk.start_line)),
        ("end_line"@, ScalarView::Number(chunk.end_line)),
    ]
}

/// The lines of chunks in the shadow index.
pub open spec fn shadow_texts(chunks: Seq<ChunkView>) -> Seq<Seq<char>> {
    Seq::new(chunks.len(), |i: int| json_object_text(shadow_fields(chunks[i])))
}

/// The chunk with the given members, if none is missing and the line numbers fit.
pub open spec fn chunk_from(
    id: Option<Seq<char>>,
    path: Option<Seq<char>>,
    snippet: Option<Seq<char>>,
    start_line: Option<u64>,
    end_line: Option<u64>,
) -> Option<ChunkView> {
    if id is Some && path is Some && snippet is Some && start_line is Some && end_line is Some
        && start_line->0 <= usize::MAX && end_line->0 <= usize::MAX {
        Some(
            ChunkView {
                id: id->0,
                path: path->0,
                snippet: snippet->0,
                start_line: start_line->0 as usize,
                end_line: end_line->0 as usize,
            },
        )
    } else {
        None
    }
}

/// The chunk that a JSON value stands for: an object with the members of a chunk, among
/// others or not, or an array of their values.
pub open spec fn record_of(value: serde_json::Value) -> Option<ChunkView> {
    let named = chunk_from(
        member_text(value, "id"@),
        member_text(value, "path"@),
        member_text(value, "snippet"@),
        member_number(value, "start_line"@),
        member_number(value, "end_line"@),
    );
    if named is Some {
        named
    } else {
        match json_elements(value) {
            Some(list) => if list.len() == 5 {
                chunk_from(
                    json_string(list[0]),
                    json_string(list[1]),
                    json_string(list[2]),
                    json_number(list[3]),
                    json_number(list[4]),
                )
            } else {
                None
            },
            None => None,
        }
    }
}

/// The chunk that a line of the shadow index holds, if it holds one.
pub open spec fn line_record(line: Seq<char>) -> Option<ChunkView> {
    match json_document(vstd::utf8::encode_utf8(line)) {
        Some(document) => record_of(document),
        None => None,
    }
}

/// What the lines of a shadow index hold: a chunk, or nothing where a line is no chunk.
pub open spec fn shadow_records(content: Seq<char>) -> Seq<Option<ChunkView>> {
    Seq::new(index_lines(content).len(), |i: int| line_record(index_lines(content)[i]))
}

/// The line of a chunk in the shadow index. It is read back as the chunk.
pub fn shadow_line(chunk: &CodeChunk) -> (line: String)
    ensures
        line@ == json_object_text(shadow_fields(chunk@)),
        is_index_line(line@),
        line_record(line@) == Some(chunk@),
        ({
            let document = json_document(vstd::utf8::encode_utf8(line@));
            &&& document is Some
            &&& is_document_of(document->0, chunk@)
            &&& holds_field(document, "id"@, ScalarView::Text(chunk.id@))
        }),
{
    let mut fields: Vec<(String, Scalar)> = Vec::new();
    fields.push((copy_text("id"), Scalar::Text(copy_text(chunk.id.as_str()))));
    fields.push((copy_text("path"), Scalar::Text(copy_text(chunk.path.as_str()))));
    fields.push((copy_text("snippet"), Scalar::Text(copy_text(chunk.snippet.as_str()))));
    fields.push((copy_text("start_line"), Scalar::Number(chunk.start_line)));
    fields.push((copy_text("end_line"), Scalar::Number(chunk.end_line)));
    let ghost views = shadow_fields(chunk@);
    proof {
        assert(field_views(fields@) =~= views);
        reveal_strlit("id");
        reveal_strlit("path");
        reveal_strlit("snippet");
        reveal_strlit("start_line");
        reveal_strlit("end_line");
        assert("id"@.len() == 2);
        assert("path"@.len() == 4);
        assert("snippet"@.len() == 7);
        assert("start_line"@.len() == 10);
        assert("end_line"@.len() == 8);
    }
    let line = object_text(fields);
    proof {
        lemma_object_is_index_line(line@);
        let document = json_document(vstd::utf8::encode_utf8(line@));
        assert(holds_field(document, views[0].0, views[0].1));
        assert(holds_field(document, views[1].0, views[1].1));
        assert(holds_field(document, views[2].0, views[2].1));
        assert(holds_field(document, views[3].0, views[3].1));
        assert(holds_field(document, views[4].0, views[4].1));
    }
    line
}

fn make_chunk(
    id: Option<String>,
    path: Option<String>,
    snippet: Option<String>,
    start_line: Option<u64>,
    end_line: Option<u64>,
) -> (chunk: Option<CodeChunk>)
    ensures
        opt_chunk(chunk) == chunk_from(
            opt_text(id),
            opt_text(path),
            opt_text(snippet),
            start_line,
            end_line,
        ),
{
    match (id, path, snippet, start_line, end_line) {
        (Some(id), Some(path), Some(snippet), Some(start), Some(end)) => {
            if start <= usize::MAX as u64 && end <= usize::MAX as u64 {
                Some(
                    CodeChunk {
                        id,
                        path,
                        snippet,
                        start_line: start as usize,
                        end_line: end as usize,
                    },
                )
            } else {
                None
            }
        },
        _ => None,
    }
}

fn element_text(list: &Vec<serde_json::Value>, at: usize) -> (text: Option<String>)
    requires
        at < list@.len(),
    ensures
        opt_text(text) == json_string(list@[at as int]),
{
    match get_string(&list[at]) {
        Some(text) => Some(copy_text(text)),
        None => None,
    }
}

/// The chunk that a line of the shadow index holds, if it holds one. Of a member that an
/// object has twice, the last counts. Members that a chunk does not have are passed over, but
/// the line must be JSON that `serde_json` takes as a whole: it holds no chunk where such a
/// member has a number out of range or is nested more than 127 levels deep, or where the first
/// key of an object is one that the crate keeps for itself and its value is not what the crate
/// expects there.
pub fn read_shadow_line(line: &str) -> (chunk: Option<CodeChunk>)
    ensures
        opt_chunk(chunk) == line_record(line@),
{
    let document = match parse_json(line.as_bytes()) {
        Some(document) => document,
        None => {
            return None;
        },
    };
    let named = make_chunk(
        read_text(&document, "id"),
        read_text(&document, "path"),
        read_text(&document, "snippet"),
        read_number(&document, "start_line"),
        read_number(&document, "end_line"),
    );
    if named.is_some() {
        return named;
    }
    match get_elements(&document) {
        Some(list) => {
            if list.len() == 5 {
                make_chunk(
                    element_text(list, 0),
                    element_text(list, 1),
                    element_text(list, 2),
                    get_number(&list[3]),
                    get_number(&list[4]),
                )
            } else {
                None
            }
        },
        None => None,
    }
}

/// What the lines of a shadow index hold.
pub fn read_shadow(content: &str) -> (records: Vec<Option<CodeChunk>>)
    ensures
        record_views(records@) == shadow_records(content@),
{
    let list = shadow_lines(content);
    let mut records: Vec<Option<CodeChunk>> = Vec::new();
    for i in 0..list.len()
        invariant
            texts(list@) == index_lines(content@),
            records@.len() == i,
            forall|j: int|
                0 <= j < i ==> opt_chunk(#[trigger] records@[j]) == line_record(
                    index_lines(content@)[j],
                ),
    {
        assert(texts(list@)[i as int] == list@[i as int]@);
        let record = read_shadow_line(list[i].as_str());
        records.push(record);
    }
    assert(texts(list@).len() == list@.len());
    assert(record_views(records@) =~= shadow_records(content@));
    records
}

/// What is to be written and sent for a list of chunks.
#[derive(Debug, Clone)]
pub struct IndexRequest {
    /// What is appended to the shadow index.
    pub append: String,
    /// Where the documents are sent.
    pub ingest_url: String,
    /// The documents that are sent.
    pub body: String,
}

/// Whether texts are the documents of chunks: each is the JSON of the document of its chunk.
pub open spec fn are_documents_of(list: Seq<Seq<char>>, chunks: Seq<ChunkView>) -> bool {
    &&& list.len() == chunks.len()
    &&& forall|i: int|
        0 <= i < list.len() ==> {
            &&& json_document(vstd::utf8::encode_utf8(#[trigger] list[i])) is Some
            &&& is_document_of(json_document(vstd::utf8::encode_utf8(list[i]))->0, chunks[i])
        }
}

/// The documents that are sent to the server for a list of chunks.
pub fn ingest_body(chunks: &Vec<CodeChunk>) -> (body: String)
    ensures
        body@ == framed(ingest_lines(chunk_views(chunks@))),
        are_documents_of(ingest_lines(chunk_views(chunks@)), chunk_views(chunks@)),
{
    let mut list: Vec<String> = Vec::new();
    let ghost want = ingest_lines(chunk_views(chunks@));
    assert(texts(list@) =~= want.take(0));
    for i in 0..chunks.len()
        invariant
            want == ingest_lines(chunk_views(chunks@)),
            texts(list@) == want.take(i as int),
            are_documents_of(want.take(i as int), chunk_views(chunks@).take(i as int)),
    {
        let line = ingest_line(&chunks[i]);
        proof {
            lemma_texts_push(list@, line);
            let done = want.take(i as int);
            let views = chunk_views(chunks@);
            let more = want.take(i + 1);
            assert(done.push(want[i as int]) =~= more);
            assert forall|j: int| 0 <= j < more.len() implies {
                &&& json_document(vstd::utf8::encode_utf8(#[trigger] more[j])) is Some
                &&& is_document_of(
                    json_document(vstd::utf8::encode_utf8(more[j]))->0,
                    views.take(i + 1)[j],
                )
            } by {
                if j < i {
                    assert(more[j] == done[j]);
                    assert(views.take(i as int)[j] == views.take(i + 1)[j]);
                }
            }
        }
        list.push(line);
    }
    assert(want.take(want.len() as int) =~= want);
    assert(chunk_views(chunks@).take(want.len() as int) =~= chunk_views(chunks@));
    frame_lines(&list)
}

/// Whether a text is what is appended to a shadow index for chunks: wherever it is appended,
/// the records of the index are followed by the chunks.
pub open spec fn appends_chunks(append: Seq<char>, chunks: Seq<ChunkView>) -> bool {
    &&& whole_lines(append)
    &&& forall|content: Seq<char>|
        whole_lines(content) ==> #[trigger] shadow_records(content + append) == shadow_records(
            content,
        ) + Seq::new(chunks.len(), |i: int| Some(chunks[i]))
}

/// The lines of a list of chunks in the shadow index.
fn append_text(chunks: &Vec<CodeChunk>) -> (text: String)
    ensures
        text@ == framed(shadow_texts(chunk_views(chunks@))),
        appends_chunks(text@, chunk_views(chunks@)),
{
    let mut list: Vec<String> = Vec::new();
    let ghost want = shadow_texts(chunk_views(chunks@));
    assert(texts(list@) =~= want.take(0));
    for i in 0..chunks.len()
        invariant
            want == shadow_texts(chunk_views(chunks@)),
            texts(list@) == want.take(i as int),
            forall|j: int|
                0 <= j < i ==> is_index_line(#[trigger] want[j]) && line_record(want[j]) == Some(
                    chunks@[j]@,
                ),
    {
        let line = shadow_line(&chunks[i]);
        proof {
            lemma_texts_push(list@, line);
            assert(want.take(i as int).push(want[i as int]) =~= want.take(i + 1));
        }
        list.push(line);
    }
    proof {
        assert(want.take(want.len() as int) =~= want);
        lemma_lines_append_chunks(want, chunk_views(chunks@));
    }
    frame_lines(&list)
}

impl QuickwitStore {
    /// What is to be written and sent for a list of chunks; nothing for no chunks.
    pub fn index_chunks(&self, chunks: &Vec<CodeChunk>) -> (request: Option<IndexRequest>)
        ensures
            match request {
                Some(r) => {
                    &&& chunks@.len() > 0
                    &&& r.append@ == framed(shadow_texts(chunk_views(chunks@)))
                    &&& appends_chunks(r.append@, chunk_views(chunks@))
                    &&& r.ingest_url@ == self.operation_address("ingest"@)
                    &&& r.body@ == framed(ingest_lines(chunk_views(chunks@)))
                    &&& are_documents_of(ingest_lines(chunk_views(chunks@)), chunk_views(chunks@))
                },
                None => chunks@.len() == 0,
            },
    {
        if chunks.len() == 0 {
            return None;
        }
        Some(
            IndexRequest {
                append: append_text(chunks),
                ingest_url: self.operation_url("ingest"),
                body: ingest_body(chunks),
            },
        )
    }
}

// ---------------------------------------------------------------------------
// Searching the shadow index
// ---------------------------------------------------------------------------

/// The bits of the score of a keyword hit, which is one.
pub const KEYWORD_SCORE_BITS: u32 = 0x3f80_0000;

/// Whether a chunk matches a query: path and snippet, with a line feed between them, hold
/// the query, regardless of the case of ASCII letters.
pub open spec fn chunk_matches(chunk: ChunkView, query: Seq<char>) -> bool {
    contains_text(ascii_lower(chunk.path.push('\n') + chunk.snippet), ascii_lower(query))
}

/// Whether a chunk matches a query.
pub fn matches_query(chunk: &CodeChunk, query: &str) -> (r: bool)
    ensures
        r == chunk_matches(chunk@, query@),
{
    let mut hay = copy_text(chunk.path.as_str());
    hay.push('\n');
    hay.append(chunk.snippet.as_str());
    text_contains(lower_text(hay.as_str()).as_str(), lower_text(query).as_str())
}

/// The hit that a chunk of the shadow index becomes.
pub open spec fn local_hit(chunk: ChunkView) -> HitView {
    HitView {
        path: chunk.path,
        snippet: chunk.snippet,
        start_line: chunk.start_line as i64,
        end_line: chunk.end_line as i64,
        score_bits: KEYWORD_SCORE_BITS,
        source: "quickwit-shadow"@,
    }
}

/// What the lines of a shadow index hold: a chunk, or nothing where a line is no chunk.
pub open spec fn record_views(records: Seq<Option<CodeChunk>>) -> Seq<Option<ChunkView>> {
    Seq::new(records.len(), |i: int| opt_chunk(records[i]))
}

/// What a line of a shadow index holds.
pub open spec fn opt_chunk(record: Option<CodeChunk>) -> Option<ChunkView> {
    match record {
        Some(chunk) => Some(chunk@),
        None => None,
    }
}

/// The hits of all records that match a query, in their order.
pub open spec fn matching_hits(records: Seq<Option<ChunkView>>, query: Seq<char>) -> Seq<HitView>
    decreases records.len(),
{
    if records.len() == 0 {
        Seq::empty()
    } else {
        let before = matching_hits(records.drop_last(), query);
        match records.last() {
            Some(chunk) => if chunk_matches(chunk, query) {
                before.push(local_hit(chunk))
            } else {
                before
            },
            None => before,
        }
    }
}

/// The first `n` of a list, or all of it.
pub open spec fn first_n<T>(list: Seq<T>, n: int) -> Seq<T> {
    if list.len() <= n {
        list
    } else {
        list.take(n)
    }
}

/// The hits of the shadow index: the first ones, up to the limit. With a limit of zero
/// the first record alone is looked at.
pub open spec fn local_hits(
    records: Seq<Option<ChunkView>>,
    query: Seq<char>,
    limit: usize,
) -> Seq<HitView> {
    if limit == 0 {
        matching_hits(first_n(records, 1), query)
    } else {
        first_n(matching_hits(records, query), limit as int)
    }
}

/// The hits of the first records are the first hits.
pub(crate) proof fn lemma_matching_prefix(
    records: Seq<Option<ChunkView>>,
    query: Seq<char>,
    n: int,
)
    requires
        0 <= n <= records.len(),
    ensures
        matching_hits(records.take(n), query).len() <= matching_hits(records, query).len(),
        matching_hits(records.take(n), query) == matching_hits(records, query).take(
            matching_hits(records.take(n), query).len() as int,
        ),
    decreases records.len() - n,
{
    if n < records.len() {
        lemma_matching_prefix(records.drop_last(), query, n);
        assert(records.drop_last().take(n) =~= records.take(n));
        let short = matching_hits(records.take(n), query);
        let before = matching_hits(records.drop_last(), query);
        let all = matching_hits(records, query);
        assert(all.take(short.len() as int) =~= before.take(short.len() as int));
    } else {
        assert(records.take(n) =~= records);
        let all = matching_hits(records, query);
        assert(all.take(all.len() as int) =~= all);
    }
}

/// The hits of the shadow index, given what its lines hold.
pub fn search_shadow(records: &Vec<Option<CodeChunk>>, query: &str, limit: usize) -> (hits: Vec<
    SearchHit,
>)
    ensures
        hit_views(hits@) == local_hits(record_views(records@), query@, limit),
{
    let mut hits: Vec<SearchHit> = Vec::new();
    let ghost all = record_views(records@);
    assert(all.take(0) =~= Seq::<Option<ChunkView>>::empty());
    assert(hit_views(hits@) =~= matching_hits(all.take(0), query@));
    for i in 0..records.len()
        invariant
            all == record_views(records@),
            hit_views(hits@) == matching_hits(all.take(i as int), query@),
            i > 0 ==> hits@.len() < limit,
    {
        proof {
            assert(all.take(i + 1).drop_last() =~= all.take(i as int));
            assert(all.take(i + 1).last() == all[i as int]);
        }
        match &records[i] {
            Some(chunk) => {
                if matches_query(chunk, query) {
                    let hit = SearchHit {
                        path: copy_text(chunk.path.as_str()),
                        snippet: copy_text(chunk.snippet.as_str()),
                        start_line: chunk.start_line as i64,
                        end_line: chunk.end_line as i64,
                        score_bits: KEYWORD_SCORE_BITS,
                        source: copy_text("quickwit-shadow"),
                    };
                    proof {
                        lemma_hit_views_push(hits@, hit);
                        assert(hit@ =~= local_hit(chunk@));
                    }
                    hits.push(hit);
                }
            },
            None => {},
        }
        if hits.len() >= limit {
            proof {
                lemma_matching_prefix(all, query@, i + 1);
                assert(hit_views(hits@).len() == hits@.len());
                if limit == 0 {
                    assert(all.take(i + 1) =~= first_n(all, 1)) by {
                        assert(i == 0);
                    }
                }
            }
            return hits;
        }
    }
    proof {
        assert(all.take(all.len() as int) =~= all);
        assert(hit_views(hits@).len() == hits@.len());
        if limit == 0 {
            assert(first_n(all, 1) =~= all);
        }
    }
    hits
}

// ---------------------------------------------------------------------------
// Searching the server
// ---------------------------------------------------------------------------

/// The members of the request that is sent to the server.
pub open spec fn search_fields(query: Seq<char>, limit: usize) -> Seq<(Seq<char>, ScalarView)> {
    seq![("query"@, ScalarView::Text(query)), ("max_hits"@, ScalarView::Number(limit))]
}

/// The members of the request that deletes all documents.
pub open spec fn delete_fields() -> Seq<(Seq<char>, ScalarView)> {
    seq![("query"@, ScalarView::Text("*"@))]
}

/// The body of the request that is sent to the server for a query.
pub fn search_body(query: &str, limit: usize) -> (body: String)
    ensures
        body@ == json_object_text(search_fields(query@, limit)),
        holds_field(
            json_document(vstd::utf8::encode_utf8(body@)),
            "query"@,
            ScalarView::Text(query@),
        ),
        holds_field(
            json_document(vstd::utf8::encode_utf8(body@)),
            "max_hits"@,
            ScalarView::Number(limit),
        ),
{
    let mut fields: Vec<(String, Scalar)> = Vec::new();
    fields.push((copy_text("query"), Scalar::Text(copy_text(query))));
    fields.push((copy_text("max_hits"), Scalar::Number(limit)));
    let ghost views = search_fields(query@, limit);
    proof {
        assert(field_views(fields@) =~= views);
        reveal_strlit("query");
        reveal_strlit("max_hits");
        assert("query"@.len() == 5 && "max_hits"@.len() == 8);
    }
    let body = object_text(fields);
    proof {
        let document = json_document(vstd::utf8::encode_utf8(body@));
        assert(holds_field(document, views[0].0, views[0].1));
        assert(holds_field(document, views[1].0, views[1].1));
    }
    body
}

/// What is read of a hit in the answer of the server; `None` where a member is missing or
/// of another kind.
#[derive(Debug, Clone)]
pub struct RemoteItem {
    pub path: Option<String>,
    pub snippet: Option<String>,
    pub start_line: Option<u64>,
    pub end_line: Option<u64>,
}

/// What a `RemoteItem` holds.
#[verifier::ext_equal]
pub struct RemoteView {
    pub path: Option<Seq<char>>,
    pub snippet: Option<Seq<char>>,
    pub start_line: Option<u64>,
    pub end_line: Option<u64>,
}

impl View for RemoteItem {
    type V = RemoteView;

    open spec fn view(&self) -> RemoteView {
        RemoteView {
            path: opt_text(self.path),
            snippet: opt_text(self.snippet),
            start_line: self.start_line,
            end_line: self.end_line,
        }
    }
}

/// What a list of items holds.
pub open spec fn item_views(items: Seq<RemoteItem>) -> Seq<RemoteView> {
    Seq::new(items.len(), |i: int| items[i]@)
}

/// The text of a member of a JSON object.
pub open spec fn member_text(value: serde_json::Value, key: Seq<char>) -> Option<Seq<char>> {
    match json_member(value, key) {
        Some(member) => json_string(member),
        None => None,
    }
}

/// The number of a member of a JSON object.
pub open spec fn member_number(value: serde_json::Value, key: Seq<char>) -> Option<u64> {
    match json_member(value, key) {
        Some(member) => json_number(member),
        None => None,
    }
}

/// What is read of a hit in the answer of the server.
pub open spec fn item_of(value: serde_json::Value) -> RemoteView {
    RemoteView {
        path: member_text(value, "path"@),
        snippet: member_text(value, "snippet"@),
        start_line: member_number(value, "start_line"@),
        end_line: member_number(value, "end_line"@),
    }
}

/// What is read of the answer of the server: the elements of the array `hits`; `None` for
/// an answer without one.
pub open spec fn reply_items(body: Seq<u8>) -> Option<Seq<RemoteView>> {
    match json_document(body) {
        Some(document) => match json_member(document, "hits"@) {
            Some(member) => match json_elements(member) {
                Some(list) => Some(Seq::new(list.len(), |i: int| item_of(list[i]))),
                None => None,
            },
            None => None,
        },
        None => None,
    }
}

fn read_text(value: &serde_json::Value, key: &str) -> (text: Option<String>)
    ensures
        opt_text(text) == member_text(*value, key@),
{
    match get_member(value, key) {
        Some(member) => match get_string(member) {
            Some(text) => Some(copy_text(text)),
            None => None,
        },
        None => None,
    }
}

fn read_number(value: &serde_json::Value, key: &str) -> (number: Option<u64>)
    ensures
        number == member_number(*value, key@),
{
    match get_member(value, key) {
        Some(member) => get_number(member),
        None => None,
    }
}

fn read_item(value: &serde_json::Value) -> (item: RemoteItem)
    ensures
        item@ == item_of(*value),
{
    RemoteItem {
        path: read_text(value, "path"),
        snippet: read_text(value, "snippet"),
        start_line: read_number(value, "start_line"),
        end_line: read_number(value, "end_line"),
    }
}

/// Reads the answer of the server.
pub fn read_reply(body: &[u8]) -> (items: Option<Vec<RemoteItem>>)
    ensures
        match items {
            Some(list) => reply_items(body@) == Some(item_views(list@)),
            None => reply_items(body@) is None,
        },
{
    let document = match parse_json(body) {
        Some(document) => document,
        None => {
            return None;
        },
    };
    let member = match get_member(&document, "hits") {
        Some(member) => member,
        None => {
            return None;
        },
    };
    let list = match get_elements(member) {
        Some(list) => list,
        None => {
            return None;
        },
    };
    let mut out: Vec<RemoteItem> = Vec::new();
    for i in 0..list.len()
        invariant
            out@.len() == i,
            forall|j: int| 0 <= j < i ==> (#[trigger] out@[j])@ == item_of(list@[j]),
    {
        out.push(read_item(&list[i]));
    }
    assert(item_views(out@) =~= Seq::new(list@.len(), |i: int| item_of(list@[i])));
    Some(out)
}

/// A text, or the empty one.
pub open spec fn text_or_empty(text: Option<Seq<char>>) -> Seq<char> {
    match text {
        Some(t) => t,
        None => Seq::empty(),
    }
}

/// A number, or zero.
pub open spec fn number_or_zero(number: Option<u64>) -> u64 {
    match number {
        Some(n) => n,
        None => 0,
    }
}

/// The hit that an item of the answer becomes.
pub open spec fn remote_hit(item: RemoteView) -> HitView {
    HitView {
        path: text_or_empty(item.path),
        snippet: text_or_empty(item.snippet),
        start_line: (number_or_zero(item.start_line) as usize) as i64,
        end_line: (number_or_zero(item.end_line) as usize) as i64,
        score_bits: KEYWORD_SCORE_BITS,
        source: "quickwit"@,
    }
}

/// The hits that the items of an answer become.
pub open spec fn remote_hits(items: Seq<RemoteView>) -> Seq<HitView> {
    Seq::new(items.len(), |i: int| remote_hit(items[i]))
}

/// The number of hits that are taken from the server when there are `found` already:
/// those that are missing to the limit, and at least one.
pub open spec fn remote_room(found: nat, limit: usize) -> int {
    if found < limit {
        limit - found
    } else {
        1
    }
}

/// The hits of the shadow index with those of the server behind them.
pub open spec fn with_remote(
    hits: Seq<HitView>,
    items: Option<Seq<RemoteView>>,
    limit: usize,
) -> Seq<HitView> {
    match items {
        Some(list) => hits + first_n(remote_hits(list), remote_room(hits.len(), limit)),
        None => hits,
    }
}

fn text_or_default(text: &Option<String>) -> (r: String)
    ensures
        r@ == text_or_empty(opt_text(*text)),
{
    match text {
        Some(t) => copy_text(t.as_str()),
        None => String::new(),
    }
}

fn number_or_default(number: Option<u64>) -> (r: u64)
    ensures
        r == number_or_zero(number),
{
    match number {
        Some(n) => n,
        None => 0,
    }
}

/// Adds the hits of the server to those of the shadow index, up to the limit; the first
/// of them is always taken.
pub fn add_remote_hits(hits: &mut Vec<SearchHit>, items: &Option<Vec<RemoteItem>>, limit: usize)
    ensures
        hit_views(final(hits)@) == with_remote(
            hit_views(old(hits)@),
            match *items {
                Some(list) => Some(item_views(list@)),
                None => None,
            },
            limit,
        ),
{
    let list = match items {
        Some(list) => list,
        None => {
            return;
        },
    };
    let ghost start = hit_views(hits@);
    let ghost all = remote_hits(item_views(list@));
    let ghost room = remote_room(start.len(), limit);
    assert(start + all.take(0) =~= start);
    for i in 0..list.len()
        invariant
            *items == Some(*list),
            start == hit_views(old(hits)@),
            all == remote_hits(item_views(list@)),
            room == remote_room(start.len(), limit),
            i < room,
            hit_views(hits@) == start + all.take(i as int),
    {
        let item = &list[i];
        let hit = SearchHit {
            path: text_or_default(&item.path),
            snippet: text_or_default(&item.snippet),
            start_line: (number_or_default(item.start_line) as usize) as i64,
            end_line: (number_or_default(item.end_line) as usize) as i64,
            score_bits: KEYWORD_SCORE_BITS,
            source: copy_text("quickwit"),
        };
        proof {
            lemma_hit_views_push(hits@, hit);
            assert(hit@ =~= all[i as int]);
            assert((start + all.take(i as int)).push(all[i as int]) =~= start + all.take(i + 1));
        }
        hits.push(hit);
        assert(hit_views(hits@).len() == hits@.len());
        if hits.len() >= limit {
            proof {
                assert(i + 1 == room);
                assert(first_n(all, room) =~= all.take(i + 1));
            }
            return;
        }
    }
    assert(first_n(all, room) =~= all.take(all.len() as int));
}

impl QuickwitStore {
    /// The hits for a query: those of the shadow index, given its content, if there is one,
    /// and behind them those of the server, given its answer, if it gave one.
    pub fn keyword_search(
        &self,
        query: &str,
        limit: usize,
        shadow: Option<&str>,
        reply: Option<Vec<u8>>,
    ) -> (hits: Vec<SearchHit>)
        ensures
            hit_views(hits@) == found_hits(
                match shadow {
                    Some(content) => Some(content@),
                    None => None,
                },
                match reply {
                    Some(body) => Some(body@),
                    None => None,
                },
                query@,
                limit,
            ),
    {
        let records = match shadow {
            Some(content) => read_shadow(content),
            None => Vec::new(),
        };
        assert(shadow is None ==> record_views(records@) =~= Seq::empty());
        let mut hits = search_shadow(&records, query, limit);
        if let Some(body) = reply {
            let items = read_reply(body.as_slice());
            add_remote_hits(&mut hits, &items, limit);
        }
        hits
    }
}

/// The hits for a query, given the content of the shadow index and the answer of the server,
/// where there is one.
pub open spec fn found_hits(
    shadow: Option<Seq<char>>,
    reply: Option<Seq<u8>>,
    query: Seq<char>,
    limit: usize,
) -> Seq<HitView> {
    let records = match shadow {
        Some(content) => shadow_records(content),
        None => Seq::empty(),
    };
    let items = match reply {
        Some(body) => reply_items(body),
        None => None,
    };
    with_remote(local_hits(records, query, limit), items, limit)
}

// ---------------------------------------------------------------------------
// Deleting
// ---------------------------------------------------------------------------

/// Whether a record stays when paths are deleted: it is a chunk, and of another path.
pub open spec fn record_stays(record: Option<ChunkView>, paths: Seq<Seq<char>>) -> bool {
    record is Some && !one_of(paths, record->0.path)
}

/// The lines that stay when paths are deleted.
pub open spec fn kept_lines(
    list: Seq<Seq<char>>,
    records: Seq<Option<ChunkView>>,
    paths: Seq<Seq<char>>,
) -> Seq<Seq<char>>
    decreases list.len(),
{
    if list.len() == 0 {
        Seq::empty()
    } else {
        let before = kept_lines(list.drop_last(), records, paths);
        if record_stays(records[list.len() - 1], paths) {
            before.push(list.last())
        } else {
            before
        }
    }
}

/// The lines that stay when paths are deleted, given what the lines hold, as a text.
pub fn keep_lines(
    list: &Vec<String>,
    records: &Vec<Option<CodeChunk>>,
    paths: &Vec<String>,
) -> (rewritten: String)
    requires
        list@.len() == records@.len(),
    ensures
        rewritten@ == framed(kept_lines(texts(list@), record_views(records@), texts(paths@))),
{
    let mut kept: Vec<String> = Vec::new();
    let ghost all = texts(list@);
    let ghost views = record_views(records@);
    assert(all.take(0) =~= Seq::<Seq<char>>::empty());
    assert(texts(kept@) =~= Seq::<Seq<char>>::empty());
    for i in 0..list.len()
        invariant
            list@.len() == records@.len(),
            all == texts(list@),
            views == record_views(records@),
            texts(kept@) == kept_lines(all.take(i as int), views, texts(paths@)),
    {
        proof {
            assert(all.take(i + 1).drop_last() =~= all.take(i as int));
            assert(all.take(i + 1).last() == list@[i as int]@);
            assert(all.take(i + 1).len() - 1 == i);
        }
        let stays = match &records[i] {
            Some(chunk) => !is_one_of(paths, chunk.path.as_str()),
            None => false,
        };
        if stays {
            let line = copy_text(list[i].as_str());
            proof {
                lemma_texts_push(kept@, line);
            }
            kept.push(line);
        }
    }
    assert(all.take(all.len() as int) =~= all);
    frame_lines(&kept)
}

/// A shadow index without the chunks of the given paths. Lines that hold no chunk go too.
pub open spec fn without_paths(content: Seq<char>, paths: Seq<Seq<char>>) -> Seq<char> {
    framed(kept_lines(index_lines(content), shadow_records(content), paths))
}

impl QuickwitStore {
    /// The shadow index without the chunks of the given paths, given its content.
    pub fn delete_paths(&self, shadow: &str, paths: &Vec<String>) -> (rewritten: String)
        ensures
            rewritten@ == without_paths(shadow@, texts(paths@)),
    {
        let list = shadow_lines(shadow);
        let records = read_shadow(shadow);
        assert(texts(list@).len() == record_views(records@).len());
        keep_lines(&list, &records, paths)
    }

    /// What empties the index: the address of the index to be deleted, the address at
    /// which all documents are deleted, and the body of that request. The shadow index
    /// becomes empty.
    pub fn delete_all_code(&self) -> (request: DeleteRequest)
        ensures
            request.empties(*self),
            holds_field(
                json_document(vstd::utf8::encode_utf8(request.body@)),
                "query"@,
                ScalarView::Text("*"@),
            ),
    {
        let mut fields: Vec<(String, Scalar)> = Vec::new();
        fields.push((copy_text("query"), Scalar::Text(copy_text("*"))));
        proof {
            assert(field_views(fields@) =~= delete_fields());
            reveal_strlit("query");
        }
        let body = object_text(fields);
        proof {
            let views = delete_fields();
            assert(holds_field(
                json_document(vstd::utf8::encode_utf8(body@)),
                views[0].0,
                views[0].1,
            ));
        }
        DeleteRequest {
            shadow: String::new(),
            index_url: self.index_url(),
            documents_url: self.operation_url("delete"),
            body,
        }
    }
}

/// What is to be written and sent to empty the index.
#[derive(Debug, Clone)]
pub struct DeleteRequest {
    /// What the shadow index is replaced by.
    pub shadow: String,
    /// The index that is to be deleted.
    pub index_url: String,
    /// Where all documents are deleted.
    pub documents_url: String,
    /// The body of the request that deletes all documents.
    pub body: String,
}

impl DeleteRequest {
    /// Whether this is what empties an index.
    pub open spec fn empties(self, store: QuickwitStore) -> bool {
        &&& self.shadow@ == Seq::<char>::empty()
        &&& self.index_url@ == store.index_address()
        &&& self.documents_url@ == store.operation_address("delete"@)
        &&& self.body@ == json_object_text(delete_fields())
    }
}

} // verus!
