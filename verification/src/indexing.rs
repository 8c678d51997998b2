//! Indexing: which files are indexed, and in which order the backends are fed.

use vstd::prelude::*;

use ollama_rs::Ollama;

use crate::chunking::{
    chunk_file, chunks_of, fallback_blocks, file_snippets, language_of, line_range, parse_outcome,
};
use crate::chunking_laws::{law_each_snippet_becomes_a_chunk, law_small_file_is_one_snippet};
use crate::config::AppConfig;
use crate::find::{ascii_lower, lower_text};
use crate::number::{decimal, decimal_text};
use crate::paths::{extension, law_extension_follows_the_last_dot, name_extension};
use crate::qdrant_store::{usable_key, PointDeletion, QdrantStore};
use crate::quickwit::{shadow_index_path, without_paths, DeleteRequest, QuickwitStore};
use crate::text::{byte_len, copy_text, is_blank, opt_text, same_text, texts, trim};
use crate::types::{chunk_views, ChunkView, CodeChunk};
use crate::url::url_parts;

verus! {

// ---------------------------------------------------------------------------
// The runtime
// ---------------------------------------------------------------------------

/// The client of the embedding service, of the `ollama_rs` crate.
#[verifier::external_type_specification]
#[verifier::external_body]
pub struct ExOllama(ollama_rs::Ollama);

/// The copy of a client is a client for the same URL.
pub assume_specification[ <Ollama as Clone>::clone ](client: &Ollama) -> (copy: Ollama)
    ensures
        client_url(copy) == client_url(*client),
;

/// What indexing and searching work with.
#[derive(Clone)]
pub struct IndexingRuntime {
    pub config: AppConfig,
    pub qdrant: QdrantStore,
    pub quickwit: QuickwitStore,
    pub ollama: Ollama,
}

/// Why there is no runtime for a configuration: the address of the embedding service is no
/// URL.
#[derive(Debug, Clone, Copy, PartialEq, Eq, Structural)]
pub struct InvalidOllamaUrl;

impl InvalidOllamaUrl {
    /// The message for the error.
    pub fn message(&self) -> (text: String)
        ensures
            text@ == "invalid ollama server url"@,
    {
        copy_text("invalid ollama server url")
    }
}

/// The URL at which a client finds the embedding service.
pub uninterp spec fn client_url(client: Ollama) -> Seq<char>;

/// `Ollama::try_new`: there is a client for an address exactly when the address is a URL, and
/// it is a client for that URL. What the client does there is not stated.
#[verifier::external_body]
fn ollama_client(server_url: &str) -> (client: Option<Ollama>)
    ensures
        client is Some <==> url_parts(server_url@) is Some,
        client matches Some(c) ==> client_url(c) == url_parts(server_url@)->0.text,
{
    Ollama::try_new(server_url).ok()
}

impl IndexingRuntime {
    /// Whether the runtime works with the stores that the configuration names. Both keep
    /// their data under the name of the keyword index.
    pub open spec fn fits_config(self) -> bool {
        &&& self.qdrant.url@ == self.config.qdrant.server_url@
        &&& opt_text(self.qdrant.api_key) == usable_key(opt_text(self.config.qdrant.api_key))
        &&& self.qdrant.collection@ == self.config.quickwit.quickwit_index_id@
        &&& self.quickwit.base_url@ == self.config.quickwit.quickwit_url@
        &&& self.quickwit.index_id@ == self.config.quickwit.quickwit_index_id@
        &&& self.quickwit.shadow_path@ == shadow_index_path()
    }

    /// The runtime for a configuration.
    pub fn from_config(config: AppConfig) -> (runtime: Result<IndexingRuntime, InvalidOllamaUrl>)
        ensures
            match runtime {
                Ok(r) => {
                    &&& url_parts(config.ollama.server_url@) is Some
                    &&& client_url(r.ollama) == url_parts(config.ollama.server_url@)->0.text
                    &&& r.config == config
                    &&& r.fits_config()
                    &&& r.qdrant.url@ == config.qdrant.server_url@
                    &&& opt_text(r.qdrant.api_key) == usable_key(opt_text(config.qdrant.api_key))
                    &&& r.qdrant.collection@ == config.quickwit.quickwit_index_id@
                    &&& r.quickwit.base_url@ == config.quickwit.quickwit_url@
                    &&& r.quickwit.index_id@ == config.quickwit.quickwit_index_id@
                },
                Err(_) => url_parts(config.ollama.server_url@) is None,
            },
    {
        let client = ollama_client(config.ollama.server_url.as_str());
        IndexingRuntime::with_client(config, client)
    }

    /// The runtime for a configuration, given the client of the embedding service, if there
    /// is one.
    pub fn with_client(config: AppConfig, client: Option<Ollama>) -> (runtime: Result<
        IndexingRuntime,
        InvalidOllamaUrl,
    >)
        ensures
            match runtime {
                Ok(r) => {
                    &&& client == Some(r.ollama)
                    &&& r.config == config
                    &&& r.fits_config()
                    &&& r.qdrant.url@ == config.qdrant.server_url@
                    &&& opt_text(r.qdrant.api_key) == usable_key(opt_text(config.qdrant.api_key))
                    &&& r.qdrant.collection@ == config.quickwit.quickwit_index_id@
                    &&& r.quickwit.base_url@ == config.quickwit.quickwit_url@
                    &&& r.quickwit.index_id@ == config.quickwit.quickwit_index_id@
                },
                Err(_) => client is None,
            },
    {
        match client {
            Some(ollama) => {
                let key = match &config.qdrant.api_key {
                    Some(text) => Some(text.as_str()),
                    None => None,
                };
                let qdrant = QdrantStore::new(
                    config.qdrant.server_url.as_str(),
                    key,
                    config.quickwit.quickwit_index_id.as_str(),
                );
                let quickwit = QuickwitStore::new(
                    copy_text(config.quickwit.quickwit_url.as_str()),
                    copy_text(config.quickwit.quickwit_index_id.as_str()),
                );
                Ok(IndexingRuntime { config, qdrant, quickwit, ollama })
            },
            None => Err(InvalidOllamaUrl),
        }
    }
}

// ---------------------------------------------------------------------------
// Which files are indexed
// ---------------------------------------------------------------------------

/// What is known of an entry that a walk through the code base came across.
#[derive(Debug, Clone)]
pub struct WalkEntry {
    /// The names of the directories between the root of the walk and the entry.
    pub dirs: Vec<String>,
    /// The last component of the path, where the path has one.
    pub name: Option<String>,
    pub is_dir: bool,
}

/// Whether a directory holds the data of version control or what tools have made or fetched.
pub open spec fn is_skipped_dir(name: Seq<char>) -> bool {
    ||| name == ".git"@
    ||| name == "node_modules"@
    ||| name == "target"@
    ||| name == ".venv"@
    ||| name == "dist"@
}

/// Whether one of the directories is skipped.
pub open spec fn in_skipped_dir(dirs: Seq<Seq<char>>) -> bool {
    exists|i: int| 0 <= i < dirs.len() && is_skipped_dir(#[trigger] dirs[i])
}

/// Whether an extension is one of a source file.
pub open spec fn is_source_extension(ext: Seq<char>) -> bool {
    ||| ext == "rs"@
    ||| ext == "py"@
    ||| ext == "js"@
    ||| ext == "ts"@
    ||| ext == "c"@
    ||| ext == "cpp"@
    ||| ext == "h"@
    ||| ext == "hpp"@
    ||| ext == "java"@
    ||| ext == "go"@
}

/// Whether a file of this name is indexed.
pub open spec fn is_source_name(name: Option<Seq<char>>) -> bool {
    match name {
        Some(n) => match extension(n) {
            Some(ext) => is_source_extension(ascii_lower(ext)),
            None => false,
        },
        None => false,
    }
}

/// Whether an entry is indexed. What could not be read never is, nor is a directory or what
/// lies in a directory that is skipped.
pub open spec fn is_candidate(entry: Option<WalkEntry>) -> bool {
    match entry {
        Some(e) => !e.is_dir && !in_skipped_dir(texts(e.dirs@)) && is_source_name(opt_text(e.name)),
        None => false,
    }
}

/// Whether an extension is one of a source file.
fn source_extension(ext: &str) -> (r: bool)
    ensures
        r == is_source_extension(ext@),
{
    same_text(ext, "rs") || same_text(ext, "py") || same_text(ext, "js") || same_text(ext, "ts")
        || same_text(ext, "c") || same_text(ext, "cpp") || same_text(ext, "h") || same_text(
        ext,
        "hpp",
    ) || same_text(ext, "java") || same_text(ext, "go")
}

fn skipped_dir(name: &str) -> (r: bool)
    ensures
        r == is_skipped_dir(name@),
{
    same_text(name, ".git") || same_text(name, "node_modules") || same_text(name, "target")
        || same_text(name, ".venv") || same_text(name, "dist")
}

fn below_skipped_dir(dirs: &Vec<String>) -> (r: bool)
    ensures
        r == in_skipped_dir(texts(dirs@)),
{
    for i in 0..dirs.len()
        invariant
            forall|j: int| 0 <= j < i ==> !is_skipped_dir(#[trigger] texts(dirs@)[j]),
    {
        assert(texts(dirs@)[i as int] == dirs@[i as int]@);
        if skipped_dir(dirs[i].as_str()) {
            return true;
        }
    }
    false
}

/// Whether an entry is indexed.
pub fn candidate(entry: &Option<WalkEntry>) -> (r: bool)
    ensures
        r == is_candidate(*entry),
{
    match entry {
        Some(e) => {
            if e.is_dir || below_skipped_dir(&e.dirs) {
                return false;
            }
            match &e.name {
                Some(name) => match name_extension(name.as_str()) {
                    Some(ext) => {
                        let lower = lower_text(ext.as_str());
                        source_extension(lower.as_str())
                    },
                    None => false,
                },
                None => false,
            }
        },
        None => false,
    }
}

/// The positions of the entries that are indexed, in their order.
pub open spec fn candidate_positions(entries: Seq<Option<WalkEntry>>) -> Seq<usize>
    decreases entries.len(),
{
    if entries.len() == 0 {
        Seq::empty()
    } else {
        let before = candidate_positions(entries.drop_last());
        if is_candidate(entries.last()) {
            before.push((entries.len() - 1) as usize)
        } else {
            before
        }
    }
}

/// The positions of the entries that are indexed, in the order of the walk.
pub fn collect_candidate_files(entries: &Vec<Option<WalkEntry>>) -> (files: Vec<usize>)
    ensures
        files@ == candidate_positions(entries@),
{
    let mut files: Vec<usize> = Vec::new();
    assert(entries@.take(0) =~= Seq::empty());
    for i in 0..entries.len()
        invariant
            files@ == candidate_positions(entries@.take(i as int)),
    {
        proof {
            assert(entries@.take(i + 1).drop_last() =~= entries@.take(i as int));
            assert(entries@.take(i + 1).last() == entries@[i as int]);
        }
        if candidate(&entries[i]) {
            files.push(i);
        }
    }
    assert(entries@.take(entries@.len() as int) =~= entries@);
    files
}

/// Exactly the entries of source files are indexed, each of them once and in order.
pub proof fn law_candidates_are_the_source_files(entries: Seq<Option<WalkEntry>>)
    requires
        entries.len() <= usize::MAX,
    ensures
        forall|i: int|
            0 <= i < entries.len() ==> (is_candidate(#[trigger] entries[i])
                <==> candidate_positions(entries).contains(i as usize)),
        forall|i: int|
            0 <= i < candidate_positions(entries).len() ==> (#[trigger] candidate_positions(
                entries,
            )[i]) < entries.len(),
        forall|i: int, j: int|
            0 <= i < j < candidate_positions(entries).len() ==> candidate_positions(entries)[i]
                < candidate_positions(entries)[j],
    decreases entries.len(),
{
    if entries.len() > 0 {
        let rest = entries.drop_last();
        let before = candidate_positions(rest);
        let all = candidate_positions(entries);
        law_candidates_are_the_source_files(rest);
        let last = (entries.len() - 1) as usize;
        assert forall|i: int| 0 <= i < entries.len() implies (is_candidate(#[trigger] entries[i])
            <==> all.contains(i as usize)) by {
            if i < rest.len() {
                assert(rest[i] == entries[i]);
                if before.contains(i as usize) {
                    let k = choose|k: int| 0 <= k < before.len() && before[k] == i as usize;
                    assert(all[k] == i as usize);
                }
                if all.contains(i as usize) {
                    let k = choose|k: int| 0 <= k < all.len() && all[k] == i as usize;
                    assert(k < before.len());
                    assert(before[k] == i as usize);
                }
            } else {
                if is_candidate(entries.last()) {
                    assert(all[before.len() as int] == last);
                } else if before.contains(last) {
                    let k = choose|k: int| 0 <= k < before.len() && before[k] == last;
                    assert(before[k] < rest.len());
                }
            }
        }
    }
}

/// A file whose name is a stem, a dot and an extension is indexed exactly when the extension
/// is, in any case, one of the ten of source files and no directory above it is one of the
/// five that are skipped. A directory never is.
pub proof fn law_source_files_are_indexed(entry: WalkEntry, stem: Seq<char>, ext: Seq<char>)
    requires
        stem.len() > 0,
        !ext.contains('.'),
        !(stem == seq!['.'] && ext.len() == 0),
        entry.name is Some,
        entry.name->0@ == stem + seq!['.'] + ext,
    ensures
        is_candidate(Some(entry)) <==> {
            &&& !entry.is_dir
            &&& forall|i: int|
                0 <= i < entry.dirs@.len() ==> (#[trigger] entry.dirs@[i])@ != ".git"@
                    && entry.dirs@[i]@ != "node_modules"@ && entry.dirs@[i]@ != "target"@
                    && entry.dirs@[i]@ != ".venv"@ && entry.dirs@[i]@ != "dist"@
            &&& {
                ||| ascii_lower(ext) == "rs"@
                ||| ascii_lower(ext) == "py"@
                ||| ascii_lower(ext) == "js"@
                ||| ascii_lower(ext) == "ts"@
                ||| ascii_lower(ext) == "c"@
                ||| ascii_lower(ext) == "cpp"@
                ||| ascii_lower(ext) == "h"@
                ||| ascii_lower(ext) == "hpp"@
                ||| ascii_lower(ext) == "java"@
                ||| ascii_lower(ext) == "go"@
            }
        },
{
    law_extension_follows_the_last_dot(stem, ext);
    let dirs = texts(entry.dirs@);
    if in_skipped_dir(dirs) {
        let i = choose|i: int| 0 <= i < dirs.len() && is_skipped_dir(#[trigger] dirs[i]);
        assert(dirs[i] == entry.dirs@[i]@);
    } else {
        assert forall|i: int| 0 <= i < entry.dirs@.len() implies (#[trigger] entry.dirs@[i])@
            != ".git"@ && entry.dirs@[i]@ != "node_modules"@ && entry.dirs@[i]@ != "target"@
            && entry.dirs@[i]@ != ".venv"@ && entry.dirs@[i]@ != "dist"@ by {
            assert(dirs[i] == entry.dirs@[i]@);
            assert(!is_skipped_dir(dirs[i]));
        }
    }
}

/// A file without an extension is not indexed, nor is an entry without a name or one that
/// could not be read.
pub proof fn law_other_entries_are_not_indexed(entry: WalkEntry)
    requires
        entry.name is None || extension(entry.name->0@) is None,
    ensures
        !is_candidate(Some(entry)),
        !is_candidate(None),
{
}

/// What follows in a walk does not change which of the entries before are indexed.
pub proof fn law_entries_are_judged_one_by_one(
    entries: Seq<Option<WalkEntry>>,
    entry: Option<WalkEntry>,
)
    requires
        entries.len() <= usize::MAX,
    ensures
        candidate_positions(Seq::empty()) == Seq::<usize>::empty(),
        is_candidate(entry) ==> candidate_positions(entries.push(entry)) == candidate_positions(
            entries,
        ).push(entries.len() as usize),
        !is_candidate(entry) ==> candidate_positions(entries.push(entry)) == candidate_positions(
            entries,
        ),
{
    assert(entries.push(entry).drop_last() =~= entries);
}

// ---------------------------------------------------------------------------
// Embeddings
// ---------------------------------------------------------------------------

/// The vectors of a list of answers, the first of each; `None` where an answer has none.
pub open spec fn first_vectors<T>(replies: Seq<Seq<T>>) -> Option<Seq<T>>
    decreases replies.len(),
{
    if replies.len() == 0 {
        Some(Seq::empty())
    } else if replies.last().len() == 0 {
        None
    } else {
        match first_vectors(replies.drop_last()) {
            Some(before) => Some(before.push(replies.last()[0])),
            None => None,
        }
    }
}

/// The vector that is kept of an answer of the embedding service: the first.
pub fn first_vector<T>(reply: Vec<T>) -> (vector: Option<T>)
    ensures
        match vector {
            Some(v) => reply@.len() > 0 && v == reply@[0],
            None => reply@.len() == 0,
        },
{
    let mut rest = reply;
    if rest.len() == 0 {
        None
    } else {
        Some(rest.swap_remove(0))
    }
}

/// Adds the vector of one more answer to those of the answers before it, and tells whether
/// the answer had one.
pub fn keep_vector<T>(vectors: &mut Vec<T>, reply: Vec<T>) -> (kept: bool)
    ensures
        kept == (reply@.len() > 0),
        kept ==> final(vectors)@ == old(vectors)@.push(reply@[0]),
        !kept ==> final(vectors)@ == old(vectors)@,
        forall|replies: Seq<Seq<T>>|
            #[trigger] first_vectors(replies) == Some(old(vectors)@) ==> first_vectors(
                replies.push(reply@),
            ) == (if kept {
                Some(final(vectors)@)
            } else {
                None
            }),
{
    proof {
        assert forall|replies: Seq<Seq<T>>|
            #[trigger] first_vectors(replies) == Some(vectors@) implies first_vectors(
            replies.push(reply@),
        ) == (if reply@.len() > 0 {
            Some(vectors@.push(reply@[0]))
        } else {
            None
        }) by {
            assert(replies.push(reply@).drop_last() =~= replies);
        }
    }
    match first_vector(reply) {
        Some(vector) => {
            vectors.push(vector);
            true
        },
        None => false,
    }
}

/// Where there are vectors, there is one for each answer, in order: the first of the answer.
/// There are none exactly when an answer is empty.
pub proof fn law_one_vector_for_each_answer<T>(replies: Seq<Seq<T>>)
    ensures
        first_vectors(replies) is Some <==> (forall|i: int|
            0 <= i < replies.len() ==> (#[trigger] replies[i]).len() > 0),
        first_vectors(replies) is Some ==> first_vectors(replies)->0.len() == replies.len(),
        first_vectors(replies) is Some ==> (forall|i: int|
            0 <= i < replies.len() ==> first_vectors(replies)->0[i] == (#[trigger] replies[i])[0]),
    decreases replies.len(),
{
    if replies.len() > 0 {
        let rest = replies.drop_last();
        law_one_vector_for_each_answer(rest);
        if first_vectors(replies) is Some {
            assert forall|i: int| 0 <= i < replies.len() implies (#[trigger] replies[i]).len() > 0
                && first_vectors(replies)->0[i] == replies[i][0] by {
                if i < rest.len() {
                    assert(rest[i] == replies[i]);
                }
            }
        }
        if forall|i: int| 0 <= i < replies.len() ==> (#[trigger] replies[i]).len() > 0 {
            assert(replies[replies.len() - 1].len() > 0);
            assert forall|i: int| 0 <= i < rest.len() implies (#[trigger] rest[i]).len() > 0 by {
                assert(rest[i] == replies[i]);
            }
        }
    }
}

/// The message for a text to which the embedding service gave no vector.
pub fn no_vector_message() -> (text: String)
    ensures
        text@ == "ollama returned no embedding vector"@,
{
    copy_text("ollama returned no embedding vector")
}

/// The message for a chunk that could not be embedded.
pub open spec fn embedding_failure(chunk: ChunkView) -> Seq<char> {
    "ollama embedding request failed for "@ + chunk.path + ":"@ + decimal(chunk.start_line as nat)
        + "-"@ + decimal(chunk.end_line as nat)
}

/// The message for a chunk that could not be embedded.
pub fn embedding_failure_message(chunk: &CodeChunk) -> (text: String)
    ensures
        text@ == embedding_failure(chunk@),
{
    let mut text = copy_text("ollama embedding request failed for ");
    text.append(chunk.path.as_str());
    text.append(":");
    let start = decimal_text(chunk.start_line);
    text.append(start.as_str());
    text.append("-");
    let end = decimal_text(chunk.end_line);
    text.append(end.as_str());
    text
}

// ---------------------------------------------------------------------------
// Feeding the backends
// ---------------------------------------------------------------------------

/// The size of the vectors of a collection where there is no vector to tell it.
pub const DEFAULT_VECTOR_SIZE: u64 = 1024;

/// A file that was read.
#[derive(Debug, Clone)]
pub struct SourceFile {
    /// The last component of its path, which tells the language.
    pub name: String,
    /// The path under which its chunks are stored.
    pub path: String,
    pub content: String,
}

/// Whether the lines of a file can be counted.
pub open spec fn can_be_chunked(file: SourceFile) -> bool {
    file.content@.len() < usize::MAX
}

/// Whether these can be the chunks of a file: those that follow from something that the
/// parser can make of it. Exactly a blank file has none.
pub open spec fn is_chunked(
    file: SourceFile,
    context_size: usize,
    chunks: Seq<ChunkView>,
) -> bool {
    &&& exists|parsed: Option<Seq<Seq<char>>>|
        {
            &&& #[trigger] parse_outcome(file.content@, language_of(file.name@), parsed)
            &&& chunks == chunks_of(
                file.path@,
                file.content@,
                file_snippets(file.content@, parsed, context_size),
            )
        }
    &&& chunks.len() == 0 <==> is_blank(file.content@)
}

/// Whether these can be the chunks of each of a list of files.
pub open spec fn all_chunked(
    files: Seq<SourceFile>,
    context_size: usize,
    parts: Seq<Seq<ChunkView>>,
) -> bool {
    &&& parts.len() == files.len()
    &&& forall|i: int|
        0 <= i < files.len() ==> is_chunked(files[i], context_size, #[trigger] parts[i])
}

/// Whether all files are blank.
pub open spec fn all_blank(files: Seq<SourceFile>) -> bool {
    forall|i: int| 0 <= i < files.len() ==> is_blank((#[trigger] files[i]).content@)
}

/// What an indexing job does next.
#[derive(Debug, Clone, Copy, PartialEq, Eq, Structural)]
pub enum IndexStage {
    /// Cut the files into chunks.
    Chunk,
    /// Get a vector for each chunk.
    Embed,
    /// Create the collection for vectors of this size unless it exists.
    EnsureCollection { vector_size: u64 },
    /// Write the vectors.
    Upsert,
    /// Write the texts.
    IndexText,
    /// Nothing: all was done.
    Done,
    /// Nothing: something failed.
    Failed,
}

/// What happened to an indexing job.
#[derive(Debug, Clone)]
pub enum IndexEvent {
    /// A file was cut into these chunks.
    FileChunked(Vec<CodeChunk>),
    /// There are no more files.
    NoMoreFiles,
    /// There are vectors, the first of which has this length.
    Embedded { first_len: Option<usize> },
    /// The collection is there, or the vectors or the texts are written.
    Succeeded,
    /// What was to be done failed.
    Failed,
}

/// An indexing job: what it does next, and all chunks so far.
#[derive(Debug, Clone)]
pub struct IndexJob {
    pub stage: IndexStage,
    pub chunks: Vec<CodeChunk>,
}

/// What an `IndexEvent` holds.
#[verifier::ext_equal]
pub enum IndexEventView {
    FileChunked(Seq<ChunkView>),
    NoMoreFiles,
    Embedded { first_len: Option<usize> },
    Succeeded,
    Failed,
}

impl View for IndexEvent {
    type V = IndexEventView;

    open spec fn view(&self) -> IndexEventView {
        match self {
            IndexEvent::FileChunked(chunks) => IndexEventView::FileChunked(chunk_views(chunks@)),
            IndexEvent::NoMoreFiles => IndexEventView::NoMoreFiles,
            IndexEvent::Embedded { first_len } => IndexEventView::Embedded { first_len: *first_len },
            IndexEvent::Succeeded => IndexEventView::Succeeded,
            IndexEvent::Failed => IndexEventView::Failed,
        }
    }
}

/// What an `IndexJob` holds.
#[verifier::ext_equal]
pub struct JobView {
    pub stage: IndexStage,
    pub chunks: Seq<ChunkView>,
}

impl View for IndexJob {
    type V = JobView;

    open spec fn view(&self) -> JobView {
        JobView { stage: self.stage, chunks: chunk_views(self.chunks@) }
    }
}

/// Where a job starts.
pub open spec fn new_job() -> JobView {
    JobView { stage: IndexStage::Chunk, chunks: Seq::empty() }
}

/// The job after an event. An event that its stage does not wait for changes nothing.
pub open spec fn job_after(job: JobView, event: IndexEventView) -> JobView {
    match (job.stage, event) {
        (IndexStage::Done, _) => job,
        (_, IndexEventView::Failed) => JobView { stage: IndexStage::Failed, ..job },
        (IndexStage::Chunk, IndexEventView::FileChunked(chunks)) => JobView {
            chunks: job.chunks + chunks,
            ..job
        },
        (IndexStage::Chunk, IndexEventView::NoMoreFiles) => JobView {
            stage: if job.chunks.len() == 0 {
                IndexStage::Done
            } else {
                IndexStage::Embed
            },
            ..job
        },
        (IndexStage::Embed, IndexEventView::Embedded { first_len }) => JobView {
            stage: IndexStage::EnsureCollection { vector_size: collection_size(first_len) },
            ..job
        },
        (IndexStage::EnsureCollection { .. }, IndexEventView::Succeeded) => JobView {
            stage: IndexStage::Upsert,
            ..job
        },
        (IndexStage::Upsert, IndexEventView::Succeeded) => JobView {
            stage: IndexStage::IndexText,
            ..job
        },
        (IndexStage::IndexText, IndexEventView::Succeeded) => JobView {
            stage: IndexStage::Done,
            ..job
        },
        _ => job,
    }
}

/// The size of the vectors of the collection: that of the first vector, where there is one.
pub open spec fn collection_size(first_len: Option<usize>) -> u64 {
    match first_len {
        Some(len) => len as u64,
        None => DEFAULT_VECTOR_SIZE,
    }
}

impl IndexingRuntime {
    /// The job that indexes a list of files, after they were cut into chunks of the context
    /// size of the configuration. It has the chunks of all files in order, and goes on with
    /// their vectors, unless all files are blank.
    pub fn index_files(&self, files: &Vec<SourceFile>) -> (job: IndexJob)
        requires
            forall|i: int| 0 <= i < files@.len() ==> can_be_chunked(#[trigger] files@[i]),
        ensures
            exists|parts: Seq<Seq<ChunkView>>|
                {
                    &&& #[trigger] all_chunked(files@, self.config.ollama.context_size, parts)
                    &&& job@ == job_run(
                        new_job(),
                        file_events(parts).push(IndexEventView::NoMoreFiles),
                    )
                    &&& job@.chunks == all_chunks(parts)
                },
            job@.stage == (if all_blank(files@) {
                IndexStage::Done
            } else {
                IndexStage::Embed
            }),
    {
        let context_size = self.config.ollama.context_size;
        let mut job = IndexJob { stage: IndexStage::Chunk, chunks: Vec::new() };
        let ghost mut parts: Seq<Seq<ChunkView>> = Seq::empty();
        assert(job@ =~= new_job());
        assert(file_events(parts) =~= Seq::empty());
        for i in 0..files.len()
            invariant
                context_size == self.config.ollama.context_size,
                forall|j: int| 0 <= j < files@.len() ==> can_be_chunked(#[trigger] files@[j]),
                parts.len() == i,
                forall|j: int|
                    0 <= j < i ==> is_chunked(files@[j], context_size, #[trigger] parts[j]),
                job@ == job_run(new_job(), file_events(parts)),
        {
            let file = &files[i];
            assert(can_be_chunked(files@[i as int]));
            let chunks = chunk_file(
                file.name.as_str(),
                file.path.as_str(),
                file.content.as_str(),
                context_size,
            );
            proof {
                assert(chunk_views(chunks@).len() == chunks@.len());
                lemma_file_event(new_job(), parts, chunk_views(chunks@));
                parts = parts.push(chunk_views(chunks@));
            }
            job.on_event(IndexEvent::FileChunked(chunks));
        }
        proof {
            assert(all_chunked(files@, context_size, parts));
            let events = file_events(parts);
            let end = seq![IndexEventView::NoMoreFiles];
            assert(events.push(IndexEventView::NoMoreFiles) =~= events + end);
            lemma_job_run_add(new_job(), events, end);
            lemma_job_run_one(job@, IndexEventView::NoMoreFiles);
            law_all_chunks_are_written(parts, None);
            lemma_blank_files_have_no_chunks(files@, context_size, parts);
        }
        job.on_event(IndexEvent::NoMoreFiles);
        job
    }

    /// What deleting paths does: the points of the vector store that go, and the shadow index
    /// that is left, where there is one.
    pub fn delete_paths(&self, shadow: Option<&str>, paths: &Vec<String>) -> (outcome: (
        Option<PointDeletion>,
        Option<String>,
    ))
        ensures
            match outcome.0 {
                Some(d) => {
                    &&& paths@.len() > 0
                    &&& d.collection@ == self.qdrant.collection@
                    &&& d.key@ == "path"@
                    &&& texts(d.paths@) == texts(paths@)
                },
                None => paths@.len() == 0,
            },
            opt_text(outcome.1) == (match shadow {
                Some(content) => Some(without_paths(content@, texts(paths@))),
                None => None,
            }),
    {
        let left = match shadow {
            Some(content) => Some(self.quickwit.delete_paths(content, paths)),
            None => None,
        };
        (self.qdrant.delete_paths(paths), left)
    }

    /// What empties both stores: the collection to drop, where it exists, and the requests
    /// that empty the keyword index.
    pub fn delete_all_stored_code(&self, collection_exists: bool) -> (outcome: (
        Option<String>,
        DeleteRequest,
    ))
        ensures
            opt_text(outcome.0) == (if collection_exists {
                Some(self.qdrant.collection@)
            } else {
                None
            }),
            outcome.1.empties(self.quickwit),
    {
        (self.qdrant.delete_all_code(collection_exists), self.quickwit.delete_all_code())
    }
}

impl IndexJob {
    /// Takes note of an event.
    pub fn on_event(&mut self, event: IndexEvent)
        ensures
            final(self)@ == job_after(old(self)@, event@),
    {
        match (self.stage, event) {
            (IndexStage::Done, _) => {},
            (_, IndexEvent::Failed) => {
                self.stage = IndexStage::Failed;
            },
            (IndexStage::Chunk, IndexEvent::FileChunked(chunks)) => {
                let mut more = chunks;
                let ghost before = self.chunks@;
                let ghost added = more@;
                self.chunks.append(&mut more);
                assert(chunk_views(self.chunks@) =~= chunk_views(before) + chunk_views(added));
            },
            (IndexStage::Chunk, IndexEvent::NoMoreFiles) => {
                self.stage = if self.chunks.len() == 0 {
                    IndexStage::Done
                } else {
                    IndexStage::Embed
                };
            },
            (IndexStage::Embed, IndexEvent::Embedded { first_len }) => {
                let vector_size: u64 = match first_len {
                    Some(len) => len as u64,
                    None => DEFAULT_VECTOR_SIZE,
                };
                self.stage = IndexStage::EnsureCollection { vector_size };
            },
            (IndexStage::EnsureCollection { .. }, IndexEvent::Succeeded) => {
                self.stage = IndexStage::Upsert;
            },
            (IndexStage::Upsert, IndexEvent::Succeeded) => {
                self.stage = IndexStage::IndexText;
            },
            (IndexStage::IndexText, IndexEvent::Succeeded) => {
                self.stage = IndexStage::Done;
            },
            _ => {},
        }
    }
}

/// A job after a list of events.
pub open spec fn job_run(job: JobView, events: Seq<IndexEventView>) -> JobView
    decreases events.len(),
{
    if events.len() == 0 {
        job
    } else {
        job_run(job_after(job, events[0]), events.drop_first())
    }
}

/// One event for each file that was cut into chunks.
pub open spec fn file_events(files: Seq<Seq<ChunkView>>) -> Seq<IndexEventView> {
    Seq::new(files.len(), |i: int| IndexEventView::FileChunked(files[i]))
}

/// The chunks of all files, in order.
pub open spec fn all_chunks(files: Seq<Seq<ChunkView>>) -> Seq<ChunkView>
    decreases files.len(),
{
    if files.len() == 0 {
        Seq::empty()
    } else {
        files[0] + all_chunks(files.drop_first())
    }
}

proof fn lemma_job_run_add(job: JobView, first: Seq<IndexEventView>, second: Seq<IndexEventView>)
    ensures
        job_run(job, first + second) == job_run(job_run(job, first), second),
    decreases first.len(),
{
    if first.len() == 0 {
        assert(first + second =~= second);
    } else {
        assert((first + second).drop_first() =~= first.drop_first() + second);
        lemma_job_run_add(job_after(job, first[0]), first.drop_first(), second);
    }
}

proof fn lemma_job_run_one(job: JobView, event: IndexEventView)
    ensures
        job_run(job, seq![event]) == job_after(job, event),
{
    assert(seq![event].drop_first() =~= Seq::empty());
    assert(job_run(job, seq![event]) == job_run(
        job_after(job, event),
        seq![event].drop_first(),
    ));
}

proof fn lemma_file_event(job: JobView, parts: Seq<Seq<ChunkView>>, chunks: Seq<ChunkView>)
    ensures
        job_run(job, file_events(parts.push(chunks))) == job_after(
            job_run(job, file_events(parts)),
            IndexEventView::FileChunked(chunks),
        ),
{
    let event = IndexEventView::FileChunked(chunks);
    assert(file_events(parts.push(chunks)) =~= file_events(parts) + seq![event]);
    lemma_job_run_add(job, file_events(parts), seq![event]);
    lemma_job_run_one(job_run(job, file_events(parts)), event);
}

proof fn lemma_no_chunks(parts: Seq<Seq<ChunkView>>)
    ensures
        all_chunks(parts).len() == 0 <==> (forall|i: int|
            0 <= i < parts.len() ==> (#[trigger] parts[i]).len() == 0),
    decreases parts.len(),
{
    if parts.len() > 0 {
        let rest = parts.drop_first();
        lemma_no_chunks(rest);
        if all_chunks(parts).len() == 0 {
            assert forall|i: int| 0 <= i < parts.len() implies (#[trigger] parts[i]).len() == 0 by {
                if i > 0 {
                    assert(rest[i - 1] == parts[i]);
                }
            }
        }
        if forall|i: int| 0 <= i < parts.len() ==> (#[trigger] parts[i]).len() == 0 {
            assert(parts[0].len() == 0);
            assert forall|i: int| 0 <= i < rest.len() implies (#[trigger] rest[i]).len() == 0 by {
                assert(rest[i] == parts[i + 1]);
            }
        }
    }
}

proof fn lemma_blank_files_have_no_chunks(
    files: Seq<SourceFile>,
    context_size: usize,
    parts: Seq<Seq<ChunkView>>,
)
    requires
        all_chunked(files, context_size, parts),
    ensures
        all_chunks(parts).len() == 0 <==> all_blank(files),
{
    lemma_no_chunks(parts);
    if all_blank(files) {
        assert forall|i: int| 0 <= i < parts.len() implies (#[trigger] parts[i]).len() == 0 by {
            assert(is_blank(files[i].content@));
        }
    }
    if forall|i: int| 0 <= i < parts.len() ==> (#[trigger] parts[i]).len() == 0 {
        assert forall|i: int| 0 <= i < files.len() implies is_blank(
            (#[trigger] files[i]).content@,
        ) by {
            assert(parts[i].len() == 0);
        }
    }
}

proof fn lemma_files_are_gathered(job: JobView, files: Seq<Seq<ChunkView>>)
    requires
        job.stage == IndexStage::Chunk,
    ensures
        job_run(job, file_events(files)) == (JobView {
            stage: IndexStage::Chunk,
            chunks: job.chunks + all_chunks(files),
        }),
    decreases files.len(),
{
    if files.len() == 0 {
        assert(job.chunks + all_chunks(files) =~= job.chunks);
    } else {
        let next = job_after(job, IndexEventView::FileChunked(files[0]));
        assert(file_events(files).drop_first() =~= file_events(files.drop_first()));
        assert(file_events(files)[0] == IndexEventView::FileChunked(files[0]));
        lemma_files_are_gathered(next, files.drop_first());
        assert(next.chunks + all_chunks(files.drop_first()) =~= job.chunks + all_chunks(files));
    }
}

/// When all goes well, the chunks of all files are embedded and then written, first to the
/// vector store and then to the keyword index. Without chunks nothing is.
pub proof fn law_all_chunks_are_written(files: Seq<Seq<ChunkView>>, first_len: Option<usize>)
    ensures
        ({
            let read = job_run(new_job(), file_events(files).push(IndexEventView::NoMoreFiles));
            let sized = job_after(read, IndexEventView::Embedded { first_len });
            let ready = job_after(sized, IndexEventView::Succeeded);
            let vectors = job_after(ready, IndexEventView::Succeeded);
            let texts = job_after(vectors, IndexEventView::Succeeded);
            let chunks = all_chunks(files);
            if chunks.len() == 0 {
                read == (JobView { stage: IndexStage::Done, chunks })
            } else {
                &&& read == (JobView { stage: IndexStage::Embed, chunks })
                &&& sized == (JobView {
                    stage: IndexStage::EnsureCollection { vector_size: collection_size(first_len) },
                    chunks,
                })
                &&& ready == (JobView { stage: IndexStage::Upsert, chunks })
                &&& vectors == (JobView { stage: IndexStage::IndexText, chunks })
                &&& texts == (JobView { stage: IndexStage::Done, chunks })
            }
        }),
{
    let events = file_events(files);
    lemma_files_are_gathered(new_job(), files);
    assert(new_job().chunks + all_chunks(files) =~= all_chunks(files));
    let end = seq![IndexEventView::NoMoreFiles];
    assert(events.push(IndexEventView::NoMoreFiles) =~= events + end);
    lemma_job_run_add(new_job(), events, end);
    let gathered = job_run(new_job(), events);
    lemma_job_run_one(gathered, IndexEventView::NoMoreFiles);
}

/// Nothing happens after a failure or after the end, whatever is reported, and a text is
/// only indexed after its vector was written.
pub proof fn law_failed_job_stops(job: JobView, event: IndexEventView)
    ensures
        job.stage == IndexStage::Failed ==> job_after(job, event) == job,
        job.stage == IndexStage::Done ==> job_after(job, event) == job,
        event is Failed && job.stage != IndexStage::Done ==> job_after(job, event).stage
            == IndexStage::Failed,
        job.stage != IndexStage::Chunk ==> job_after(job, event).chunks == job.chunks,
        job_after(job, event).stage == IndexStage::IndexText && job.stage != IndexStage::IndexText
            ==> job.stage == IndexStage::Upsert && event is Succeeded,
        job_after(job, event).stage == IndexStage::Upsert && job.stage != IndexStage::Upsert
            ==> job.stage is EnsureCollection && event is Succeeded,
{
}

// ---------------------------------------------------------------------------
// What holds of files and jobs
// ---------------------------------------------------------------------------

/// Every chunk of a file carries the path of the file, and its lines are those at which its
/// snippet stands in the file.
pub proof fn law_chunks_carry_their_file(
    file: SourceFile,
    context_size: usize,
    chunks: Seq<ChunkView>,
    at: int,
)
    requires
        is_chunked(file, context_size, chunks),
        file.content@.len() < usize::MAX,
        0 <= at < chunks.len(),
    ensures
        chunks[at].path == file.path@,
        chunks[at].start_line == line_range(file.content@, chunks[at].snippet).0,
        chunks[at].end_line == line_range(file.content@, chunks[at].snippet).1,
{
    let parsed = choose|parsed: Option<Seq<Seq<char>>>|
        {
            &&& #[trigger] parse_outcome(file.content@, language_of(file.name@), parsed)
            &&& chunks == chunks_of(
                file.path@,
                file.content@,
                file_snippets(file.content@, parsed, context_size),
            )
        };
    law_each_snippet_becomes_a_chunk(
        file.path@,
        file.content@,
        file_snippets(file.content@, parsed, context_size),
        at,
    );
}

/// A file in none of the languages in which the pattern finds nothing is one chunk, which
/// holds all of it but the white space around it, if that takes no more bytes than the
/// context size.
pub proof fn law_small_file_is_one_chunk(
    file: SourceFile,
    context_size: usize,
    chunks: Seq<ChunkView>,
)
    requires
        is_chunked(file, context_size, chunks),
        language_of(file.name@) is None,
        fallback_blocks(file.content@).len() == 0,
        !is_blank(file.content@),
        byte_len(trim(file.content@)) <= context_size,
        file.content@.len() < usize::MAX,
    ensures
        chunks.len() == 1,
        chunks[0].path == file.path@,
        chunks[0].snippet == trim(file.content@),
{
    law_small_file_is_one_snippet(file.content@, context_size);
    let parsed = choose|parsed: Option<Seq<Seq<char>>>|
        {
            &&& #[trigger] parse_outcome(file.content@, language_of(file.name@), parsed)
            &&& chunks == chunks_of(
                file.path@,
                file.content@,
                file_snippets(file.content@, parsed, context_size),
            )
        };
    assert(parsed is None);
    law_each_snippet_becomes_a_chunk(
        file.path@,
        file.content@,
        file_snippets(file.content@, parsed, context_size),
        0,
    );
}

/// A file is left to be chunked unless it has as many characters as a number can count.
pub proof fn law_files_can_be_chunked(file: SourceFile)
    ensures
        can_be_chunked(file) <==> file.content@.len() < usize::MAX,
{
}

/// The chunks of two lists of files follow each other, and the chunks of one file are all of
/// its own.
pub proof fn law_chunks_of_files_follow_each_other(
    a: Seq<Seq<ChunkView>>,
    b: Seq<Seq<ChunkView>>,
    chunks: Seq<ChunkView>,
)
    ensures
        all_chunks(a + b) == all_chunks(a) + all_chunks(b),
        all_chunks(seq![chunks]) == chunks,
        all_chunks(Seq::empty()) == Seq::<ChunkView>::empty(),
    decreases a.len(),
{
    let none = Seq::<Seq<ChunkView>>::empty();
    assert(seq![chunks].drop_first() =~= none);
    assert(all_chunks(none) =~= Seq::<ChunkView>::empty());
    assert(all_chunks(seq![chunks]) =~= chunks);
    if a.len() == 0 {
        assert(a + b =~= b);
        assert(all_chunks(a) + all_chunks(b) =~= all_chunks(b));
    } else {
        law_chunks_of_files_follow_each_other(a.drop_first(), b, chunks);
        assert((a + b).drop_first() =~= a.drop_first() + b);
        assert(a[0] + (all_chunks(a.drop_first()) + all_chunks(b)) =~= a[0] + all_chunks(
            a.drop_first(),
        ) + all_chunks(b));
    }
}

/// A job starts with no chunks and takes those of each file behind those that it has; it
/// goes on to the vectors when there are no more files, and is done at once if no file had
/// chunks. A collection is made for vectors as long as the first, and for 1024 numbers where
/// there is none.
pub proof fn law_steps_of_a_job(job: JobView, chunks: Seq<ChunkView>, len: usize)
    ensures
        new_job().stage == IndexStage::Chunk,
        new_job().chunks.len() == 0,
        job.stage == IndexStage::Chunk ==> {
            &&& job_after(job, IndexEventView::FileChunked(chunks)).stage == IndexStage::Chunk
            &&& job_after(job, IndexEventView::FileChunked(chunks)).chunks == job.chunks + chunks
            &&& job_after(job, IndexEventView::NoMoreFiles).chunks == job.chunks
            &&& job_after(job, IndexEventView::NoMoreFiles).stage == (if job.chunks.len() == 0 {
                IndexStage::Done
            } else {
                IndexStage::Embed
            })
        },
        job.stage == IndexStage::Embed ==> {
            &&& job_after(job, IndexEventView::Embedded { first_len: Some(len) }).stage == (
            IndexStage::EnsureCollection { vector_size: len as u64 })
            &&& job_after(job, IndexEventView::Embedded { first_len: None }).stage == (
            IndexStage::EnsureCollection { vector_size: 1024 })
        },
{
}

/// A report that a job does not wait for changes nothing.
pub proof fn law_reports_out_of_turn_change_nothing(job: JobView, event: IndexEventView)
    requires
        !(event is Failed),
        job.stage == IndexStage::Chunk ==> !(event is FileChunked) && !(event is NoMoreFiles),
        job.stage == IndexStage::Embed ==> !(event is Embedded),
        job.stage is EnsureCollection || job.stage == IndexStage::Upsert || job.stage
            == IndexStage::IndexText ==> !(event is Succeeded),
    ensures
        job_after(job, event) == job,
{
}

/// A job takes note of events one after the other.
pub proof fn law_events_are_noted_one_by_one(
    job: JobView,
    first: Seq<IndexEventView>,
    second: Seq<IndexEventView>,
    event: IndexEventView,
)
    ensures
        job_run(job, first + second) == job_run(job_run(job, first), second),
        job_run(job, seq![event]) == job_after(job, event),
        job_run(job, Seq::empty()) == job,
{
    lemma_job_run_add(job, first, second);
    lemma_job_run_one(job, event);
}

/// There is an event for each file, in order, with the chunks of that file.
pub proof fn law_each_file_is_an_event(files: Seq<Seq<ChunkView>>, at: int)
    ensures
        file_events(files).len() == files.len(),
        0 <= at < files.len() ==> file_events(files)[at] == IndexEventView::FileChunked(files[at]),
{
}

/// The message for a chunk that could not be embedded names its path and its lines.
pub proof fn law_embedding_failure_names_the_chunk(chunk: ChunkView)
    ensures
        embedding_failure(chunk) == "ollama embedding request failed for "@ + chunk.path + seq![':']
            + decimal(chunk.start_line as nat) + seq!['-'] + decimal(chunk.end_line as nat),
{
    reveal_strlit(":");
    reveal_strlit("-");
    assert(":"@ =~= seq![':']);
    assert("-"@ =~= seq!['-']);
}

} // verus!
