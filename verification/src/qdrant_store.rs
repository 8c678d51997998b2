//! The vector store: what is written to Qdrant for a chunk and what is read from a point.

use std::collections::hash_map::DefaultHasher;
use std::hash::{Hash, Hasher};

use vstd::prelude::*;
use vstd::std_specs::hash::DefaultHasherAdditionalSpecFns;

use qdrant_client::qdrant::ScoredPoint;
use qdrant_client::Payload;

use crate::json::{field_keys, field_views, Scalar, ScalarView};
use crate::number::{decimal, decimal_text, law_parse_reads_decimal, parse_number, parse_usize};
use crate::quickwit::record_stays;
use crate::text::{
    class_has, copy_text, law_trimming_takes_off_a_character, lemma_texts_push, one_of, opt_text,
    texts, trim_class, trim_end_class, trim_start_class, trim_text_class, CharClass,
};
use crate::types::{ChunkView, CodeChunk, HitView, SearchHit};

verus! {

/// A payload value of the `qdrant_client` crate.
#[verifier::external_type_specification]
#[verifier::external_body]
pub struct ExPayloadValue(qdrant_client::qdrant::Value);

/// A point of the `qdrant_client` crate that a query found.
#[verifier::external_type_specification]
#[verifier::external_body]
pub struct ExScoredPoint(qdrant_client::qdrant::ScoredPoint);

/// The payload of a point to be written, of the `qdrant_client` crate.
#[verifier::external_type_specification]
#[verifier::external_body]
pub struct ExPayload(qdrant_client::Payload);

// ---------------------------------------------------------------------------
// What the crate's values hold
// ---------------------------------------------------------------------------

/// The number of a payload value that is an integer.
pub uninterp spec fn value_integer(value: qdrant_client::qdrant::Value) -> Option<i64>;

/// The text of a payload value that is a string.
pub uninterp spec fn value_string(value: qdrant_client::qdrant::Value) -> Option<Seq<char>>;

/// The truth value of a payload value that is one.
pub uninterp spec fn value_bool(value: qdrant_client::qdrant::Value) -> Option<bool>;

/// Whether a payload value is null or holds no kind of value at all.
pub uninterp spec fn value_is_null(value: qdrant_client::qdrant::Value) -> bool;

/// The text that the formatter `{:?}` makes of a string.
pub uninterp spec fn debug_text(text: Seq<char>) -> Seq<char>;

/// The value that the payload of a point holds under a key.
pub uninterp spec fn point_value(point: ScoredPoint, key: Seq<char>) -> Option<
    qdrant_client::qdrant::Value,
>;

/// The bits of the score of a point.
pub uninterp spec fn point_score_bits(point: ScoredPoint) -> u32;

/// The value that a payload holds under a key.
pub uninterp spec fn payload_value(payload: Payload, key: Seq<char>) -> Option<
    qdrant_client::qdrant::Value,
>;

/// The keys under which a payload holds values.
pub uninterp spec fn payload_keys(payload: Payload) -> Set<Seq<char>>;

/// An integer in decimal notation, with a minus sign where it is negative.
pub open spec fn integer_text(n: int) -> Seq<char> {
    if n < 0 {
        seq!['-'] + decimal((-n) as nat)
    } else {
        decimal(n as nat)
    }
}

/// Whether a text consists of printable ASCII characters that need no escape between
/// quotation marks.
pub open spec fn is_plain(text: Seq<char>) -> bool {
    forall|i: int| 0 <= i < text.len() ==> is_plain_char(#[trigger] text[i])
}

/// Whether a character is printable ASCII and needs no escape between quotation marks.
pub open spec fn is_plain_char(c: char) -> bool {
    ' ' <= c <= '~' && c != '"' && c != '\'' && c != '\\'
}

/// A text between quotation marks.
pub open spec fn quoted(text: Seq<char>) -> Seq<char> {
    seq!['"'] + text + seq!['"']
}

/// The word for a truth value.
pub open spec fn bool_text(value: bool) -> Seq<char> {
    if value {
        "true"@
    } else {
        "false"@
    }
}

/// Whether a text can be what the crate displays for a value. The text is fixed for
/// integers, strings, truth values and null.
pub open spec fn displays(value: qdrant_client::qdrant::Value, text: Seq<char>) -> bool {
    &&& value_integer(value) matches Some(n) ==> text == integer_text(n as int)
    &&& value_string(value) matches Some(s) ==> text == debug_text(s) && (is_plain(s) ==> text
        == quoted(s))
    &&& value_bool(value) matches Some(b) ==> text == bool_text(b)
    &&& value_is_null(value) ==> text == "null"@
}

/// The `Display` of `qdrant_client::qdrant::Value`: decimal notation for an integer, the
/// debug format for a string, which puts a plain text between quotation marks as it is, and a
/// word for a truth value and for null. Nothing is claimed for floating-point numbers, lists
/// and structures; a structure shows its members in an order that can differ from one copy to
/// the next.
#[verifier::external_body]
fn display_value(value: &qdrant_client::qdrant::Value) -> (text: String)
    ensures
        value_integer(*value) matches Some(n) ==> text@ == integer_text(n as int),
        value_string(*value) matches Some(s) ==> text@ == debug_text(s) && (is_plain(s) ==> text@
            == quoted(s)),
        value_bool(*value) matches Some(b) ==> text@ == bool_text(b),
        value_is_null(*value) ==> text@ == "null"@,
{
    value.to_string()
}

/// `ScoredPoint::try_get`: the value in the payload of the point under a key.
#[verifier::external_body]
fn get_point_value<'a>(point: &'a ScoredPoint, key: &str) -> (value: Option<
    &'a qdrant_client::qdrant::Value,
>)
    ensures
        match value {
            Some(v) => point_value(*point, key@) == Some(*v),
            None => point_value(*point, key@) is None,
        },
{
    point.try_get(key)
}

/// The field `score` of a `ScoredPoint`, as its bits.
#[verifier::external_body]
fn get_point_score(point: &ScoredPoint) -> (bits: u32)
    ensures
        bits == point_score_bits(*point),
{
    point.score.to_bits()
}

/// Whether a payload value holds what was to be written. A number that does not fit in 63
/// bits is not kept as an integer.
pub open spec fn value_holds(
    value: Option<qdrant_client::qdrant::Value>,
    scalar: ScalarView,
) -> bool {
    &&& value is Some
    &&& match scalar {
        ScalarView::Text(text) => value_string(value->0) == Some(text),
        ScalarView::Number(number) => number <= i64::MAX ==> value_integer(value->0) == Some(
            number as i64,
        ),
    }
}

/// `Payload::try_from` on a JSON object with the given members. It succeeds on every
/// object, and the payload holds each member under its key and nothing else.
#[verifier::external_body]
fn make_payload(fields: Vec<(String, Scalar)>) -> (payload: Option<Payload>)
    ensures
        payload is Some,
        payload_keys(payload->0) == field_keys(field_views(fields@)),
        crate::json::distinct_keys(field_views(fields@)) ==> forall|i: int|
            0 <= i < fields@.len() ==> value_holds(
                payload_value(payload->0, (#[trigger] field_views(fields@)[i]).0),
                field_views(fields@)[i].1,
            ),
{
    let mut object = serde_json::Map::new();
    for (key, scalar) in fields {
        let value = match scalar {
            Scalar::Text(text) => serde_json::Value::from(text),
            Scalar::Number(number) => serde_json::Value::from(number),
        };
        object.insert(key, value);
    }
    Payload::try_from(serde_json::Value::Object(object)).ok()
}

/// What `str::hash` feeds to a hasher for a text.
pub uninterp spec fn hash_writes(text: Seq<char>) -> Seq<Seq<u8>>;

/// `str::hash`: the same text is always fed to a hasher in the same way.
#[verifier::external_body]
fn feed_hasher(text: &str, hasher: &mut DefaultHasher)
    ensures
        final(hasher)@ == old(hasher)@ + hash_writes(text@),
{
    text.hash(hasher)
}

// ---------------------------------------------------------------------------
// The store
// ---------------------------------------------------------------------------

/// Where the vectors are kept.
#[derive(Debug, Clone)]
pub struct QdrantStore {
    pub url: String,
    pub api_key: Option<String>,
    pub collection: String,
}

/// A key, unless it is empty.
pub open spec fn usable_key(api_key: Option<Seq<char>>) -> Option<Seq<char>> {
    match api_key {
        Some(key) => if key.len() == 0 {
            None
        } else {
            Some(key)
        },
        None => None,
    }
}

/// A collection that is to be created.
#[derive(Debug, Clone)]
pub struct NewCollection {
    pub name: String,
    pub vector_size: u64,
}

/// Points that are to be deleted: those whose payload has one of the paths under the key.
#[derive(Debug, Clone)]
pub struct PointDeletion {
    pub collection: String,
    pub key: String,
    pub paths: Vec<String>,
}

impl QdrantStore {
    /// The store of a collection on a server. An empty key counts as none.
    pub fn new(url: &str, api_key: Option<&str>, collection: &str) -> (store: QdrantStore)
        ensures
            store.url@ == url@,
            opt_text(store.api_key) == usable_key(
                match api_key {
                    Some(key) => Some(key@),
                    None => None,
                },
            ),
            store.collection@ == collection@,
    {
        let key = match api_key {
            Some(key) => if key.is_empty() {
                None
            } else {
                Some(copy_text(key))
            },
            None => None,
        };
        QdrantStore { url: copy_text(url), api_key: key, collection: copy_text(collection) }
    }

    /// The collection that is to be created before points are written: the store's own
    /// where it does not exist yet.
    pub fn ensure_collection(&self, exists: bool, vector_size: u64) -> (create: Option<
        NewCollection,
    >)
        ensures
            match create {
                Some(c) => !exists && c.name@ == self.collection@ && c.vector_size == vector_size,
                None => exists,
            },
    {
        if exists {
            None
        } else {
            Some(NewCollection { name: copy_text(self.collection.as_str()), vector_size })
        }
    }

    /// The points that go when paths are deleted: those of the store's collection whose
    /// payload has one of the paths. Nothing is to be done for no paths.
    pub fn delete_paths(&self, paths: &Vec<String>) -> (deletion: Option<PointDeletion>)
        ensures
            match deletion {
                Some(d) => {
                    &&& paths@.len() > 0
                    &&& d.collection@ == self.collection@
                    &&& d.key@ == "path"@
                    &&& texts(d.paths@) == texts(paths@)
                },
                None => paths@.len() == 0,
            },
    {
        if paths.len() == 0 {
            return None;
        }
        let mut wanted: Vec<String> = Vec::new();
        for i in 0..paths.len()
            invariant
                texts(wanted@) == texts(paths@).take(i as int),
        {
            let path = copy_text(paths[i].as_str());
            proof {
                lemma_texts_push(wanted@, path);
                assert(texts(paths@).take(i + 1) =~= texts(paths@).take(i as int).push(path@));
            }
            wanted.push(path);
        }
        assert(texts(paths@).take(paths@.len() as int) =~= texts(paths@));
        Some(
            PointDeletion {
                collection: copy_text(self.collection.as_str()),
                key: copy_text("path"),
                paths: wanted,
            },
        )
    }

    /// The collection that is to be dropped so that no vector is left: the store's own
    /// where it exists.
    pub fn delete_all_code(&self, exists: bool) -> (drop: Option<String>)
        ensures
            opt_text(drop) == (if exists {
                Some(self.collection@)
            } else {
                None
            }),
    {
        if exists {
            Some(copy_text(self.collection.as_str()))
        } else {
            None
        }
    }
}

// ---------------------------------------------------------------------------
// Writing points
// ---------------------------------------------------------------------------

/// The number that stands for a text: the hash that a new default hasher gives for it.
pub open spec fn stable_id(text: Seq<char>) -> u64 {
    DefaultHasher::spec_finish(hash_writes(text))
}

/// The number under which a chunk is stored. The same text always has the same number, so
/// that writing a chunk again replaces its point.
pub fn stable_u64_id(input: &str) -> (id: u64)
    ensures
        id == stable_id(input@),
{
    let mut hasher = DefaultHasher::new();
    feed_hasher(input, &mut hasher);
    assert(hasher@ =~= hash_writes(input@));
    hasher.finish()
}

/// The members of the payload of a chunk.
pub open spec fn payload_fields(chunk: ChunkView) -> Seq<(Seq<char>, ScalarView)> {
    seq![
        ("path"@, ScalarView::Text(chunk.path)),
        ("snippet"@, ScalarView::Text(chunk.snippet)),
        ("start_line"@, ScalarView::Number(chunk.start_line)),
        ("end_line"@, ScalarView::Number(chunk.end_line)),
        ("chunk_id"@, ScalarView::Text(chunk.id)),
    ]
}

/// Whether a payload holds the members of a chunk and nothing else.
pub open spec fn payload_of(payload: Payload, chunk: ChunkView) -> bool {
    &&& payload_keys(payload) == field_keys(payload_fields(chunk))
    &&& forall|i: int|
        0 <= i < 5 ==> value_holds(
            payload_value(payload, (#[trigger] payload_fields(chunk)[i]).0),
            payload_fields(chunk)[i].1,
        )
}

/// A point to be written, but for its vector.
pub struct PointRecord {
    pub id: u64,
    pub payload: Payload,
}

/// Why points cannot be written.
#[derive(Debug, Clone, Copy, PartialEq, Eq, Structural)]
pub enum UpsertError {
    /// There are not as many vectors as chunks.
    CountMismatch { chunks: usize, embeddings: usize },
    /// A payload was refused.
    Payload,
}

/// The message for an error.
pub open spec fn upsert_message(error: UpsertError) -> Seq<char> {
    match error {
        UpsertError::CountMismatch { chunks, embeddings } => "embedding count mismatch: chunks="@
            + decimal(chunks as nat) + " embeddings="@ + decimal(embeddings as nat),
        UpsertError::Payload => "failed converting payload for qdrant point"@,
    }
}

impl UpsertError {
    /// The message for the error.
    pub fn message(&self) -> (text: String)
        ensures
            text@ == upsert_message(*self),
    {
        match self {
            UpsertError::CountMismatch { chunks, embeddings } => {
                let mut text = copy_text("embedding count mismatch: chunks=");
                text.append(decimal_text(*chunks).as_str());
                text.append(" embeddings=");
                text.append(decimal_text(*embeddings).as_str());
                text
            },
            UpsertError::Payload => copy_text("failed converting payload for qdrant point"),
        }
    }
}

/// The payload of a chunk.
pub fn chunk_payload(chunk: &CodeChunk) -> (payload: Option<Payload>)
    ensures
        payload is Some,
        payload_of(payload->0, chunk@),
{
    let mut fields: Vec<(String, Scalar)> = Vec::new();
    fields.push((copy_text("path"), Scalar::Text(copy_text(chunk.path.as_str()))));
    fields.push((copy_text("snippet"), Scalar::Text(copy_text(chunk.snippet.as_str()))));
    fields.push((copy_text("start_line"), Scalar::Number(chunk.start_line)));
    fields.push((copy_text("end_line"), Scalar::Number(chunk.end_line)));
    fields.push((copy_text("chunk_id"), Scalar::Text(copy_text(chunk.id.as_str()))));
    proof {
        assert(field_views(fields@) =~= payload_fields(chunk@));
        reveal_strlit("path");
        reveal_strlit("snippet");
        reveal_strlit("start_line");
        reveal_strlit("end_line");
        reveal_strlit("chunk_id");
        assert("path"@.len() == 4);
        assert("snippet"@.len() == 7);
        assert("start_line"@.len() == 10);
        assert("end_line"@.len() == 8);
        assert("end_line"@[0] != "chunk_id"@[0]);
        assert(crate::json::distinct_keys(payload_fields(chunk@)));
    }
    make_payload(fields)
}

impl QdrantStore {
    /// The points that are written for a list of chunks with the given number of vectors,
    /// one for each chunk in order. Chunks without as many vectors are an error, but no
    /// chunks never are.
    pub fn upsert_chunks(&self, chunks: &Vec<CodeChunk>, embeddings: usize) -> (points: Result<
        Vec<PointRecord>,
        UpsertError,
    >)
        ensures
            match points {
                Ok(list) => {
                    &&& chunks@.len() == 0 || chunks@.len() == embeddings
                    &&& list@.len() == chunks@.len()
                    &&& forall|i: int|
                        0 <= i < list@.len() ==> (#[trigger] list@[i]).id == stable_id(
                            chunks@[i].id@,
                        ) && payload_of(list@[i].payload, chunks@[i]@)
                },
                Err(error) => {
                    &&& chunks@.len() > 0 && chunks@.len() != embeddings
                    &&& error == UpsertError::CountMismatch {
                        chunks: chunks@.len() as usize,
                        embeddings,
                    }
                },
            },
    {
        let mut list: Vec<PointRecord> = Vec::new();
        if chunks.len() == 0 {
            return Ok(list);
        }
        if chunks.len() != embeddings {
            return Err(UpsertError::CountMismatch { chunks: chunks.len(), embeddings });
        }
        for i in 0..chunks.len()
            invariant
                chunks@.len() > 0,
                chunks@.len() == embeddings,
                list@.len() == i,
                forall|j: int|
                    0 <= j < i ==> (#[trigger] list@[j]).id == stable_id(chunks@[j].id@)
                        && payload_of(list@[j].payload, chunks@[j]@),
        {
            match chunk_payload(&chunks[i]) {
                Some(payload) => {
                    list.push(PointRecord { id: stable_u64_id(chunks[i].id.as_str()), payload });
                },
                None => {
                    return Err(UpsertError::Payload);
                },
            }
        }
        Ok(list)
    }
}

// ---------------------------------------------------------------------------
// Reading points
// ---------------------------------------------------------------------------

/// A displayed value without the quotation marks around it.
pub open spec fn unquoted(text: Seq<char>) -> Seq<char> {
    trim_class(text, CharClass::One('"'))
}

/// The number that a displayed value stands for.
pub open spec fn displayed_number(text: Seq<char>) -> Option<nat> {
    parse_number(unquoted(text), usize::MAX as nat)
}

/// The number that a displayed value stands for.
pub fn parse_displayed(text: &str) -> (number: Option<usize>)
    ensures
        match number {
            Some(n) => displayed_number(text@) == Some(n as nat),
            None => displayed_number(text@) is None,
        },
{
    let plain = trim_text_class(text, CharClass::One('"'));
    parse_usize(plain.as_str())
}

/// The number that a payload value stands for, read from what the crate displays for it.
/// An integer is read as itself, unless it is negative or too large.
pub fn value_to_usize(value: &qdrant_client::qdrant::Value) -> (number: Option<usize>)
    ensures
        exists|text: Seq<char>|
            {
                &&& #[trigger] displays(*value, text)
                &&& match number {
                    Some(n) => displayed_number(text) == Some(n as nat),
                    None => displayed_number(text) is None,
                }
            },
        value_integer(*value) matches Some(n) ==> number == (if 0 <= n <= usize::MAX {
            Some(n as usize)
        } else {
            None
        }),
        value_bool(*value) is Some || value_is_null(*value) ==> number is None,
{
    let text = display_value(value);
    proof {
        lemma_words_are_no_numbers();
        assert(displays(*value, text@));
        if value_integer(*value) is Some {
            lemma_integer_is_read(value_integer(*value)->0 as int);
        }
    }
    parse_displayed(text.as_str())
}

/// Reading the display of an integer gives the integer, if it is one of the numbers that
/// can be read.
pub proof fn lemma_integer_is_read(n: int)
    ensures
        displayed_number(integer_text(n)) == (if 0 <= n <= usize::MAX {
            Some(n as nat)
        } else {
            None
        }),
{
    let class = CharClass::One('"');
    let text = integer_text(n);
    if n < 0 {
        crate::number::lemma_decimal((-n) as nat);
        let digits = decimal((-n) as nat);
        assert(text[0] == '-');
        assert(text.last() == digits.last());
        assert(crate::number::is_digit(digits[digits.len() - 1]));
        assert(unquoted(text) == text);
        assert(!crate::number::is_digit(text[0]));
    } else {
        crate::number::lemma_decimal(n as nat);
        assert(crate::number::is_digit(text[0]));
        assert(crate::number::is_digit(text[text.len() - 1]));
        assert(unquoted(text) == text);
        if n <= usize::MAX {
            law_parse_reads_decimal(n as nat, usize::MAX as nat);
        }
    }
}

/// The words that are displayed for truth values and null are no numbers.
proof fn lemma_words_are_no_numbers()
    ensures
        displayed_number("true"@) is None,
        displayed_number("false"@) is None,
        displayed_number("null"@) is None,
{
    reveal_strlit("true");
    reveal_strlit("false");
    reveal_strlit("null");
    lemma_word_is_no_number("true"@);
    lemma_word_is_no_number("false"@);
    lemma_word_is_no_number("null"@);
}

proof fn lemma_word_is_no_number(word: Seq<char>)
    requires
        word.len() > 0,
        'a' <= word[0] <= 'z',
        'a' <= word.last() <= 'z',
    ensures
        displayed_number(word) is None,
{
    assert(unquoted(word) == word);
    assert(!crate::number::is_digit(word[0]));
}

/// A line that is null, a truth value or missing in the payload of a point is line zero of
/// its hit.
pub proof fn law_lines_without_a_number_are_zero(point: ScoredPoint, hit: HitView)
    requires
        is_hit_of(point, hit),
    ensures
        no_number(point_value(point, "start_line"@)) ==> hit.start_line == 0,
        no_number(point_value(point, "end_line"@)) ==> hit.end_line == 0,
{
    lemma_words_are_no_numbers();
}

/// Whether a value is missing, null or a truth value.
pub open spec fn no_number(value: Option<qdrant_client::qdrant::Value>) -> bool {
    match value {
        Some(v) => value_is_null(v) || value_bool(v) is Some,
        None => true,
    }
}

/// What is displayed of a point: the values of its payload as text, where they are there,
/// and the score.
#[derive(Debug, Clone)]
pub struct DisplayedPoint {
    pub path: Option<String>,
    pub snippet: Option<String>,
    pub start_line: Option<String>,
    pub end_line: Option<String>,
    pub score_bits: u32,
}

/// What a `DisplayedPoint` holds.
#[verifier::ext_equal]
pub struct DisplayedView {
    pub path: Option<Seq<char>>,
    pub snippet: Option<Seq<char>>,
    pub start_line: Option<Seq<char>>,
    pub end_line: Option<Seq<char>>,
    pub score_bits: u32,
}

impl View for DisplayedPoint {
    type V = DisplayedView;

    open spec fn view(&self) -> DisplayedView {
        DisplayedView {
            path: opt_text(self.path),
            snippet: opt_text(self.snippet),
            start_line: opt_text(self.start_line),
            end_line: opt_text(self.end_line),
            score_bits: self.score_bits,
        }
    }
}

/// Whether a text can be what is displayed for a value that may be missing.
pub open spec fn displays_opt(
    value: Option<qdrant_client::qdrant::Value>,
    text: Option<Seq<char>>,
) -> bool {
    match value {
        Some(v) => text is Some && displays(v, text->0),
        None => text is None,
    }
}

/// Whether this can be what is displayed of a point.
pub open spec fn displays_point(point: ScoredPoint, view: DisplayedView) -> bool {
    &&& displays_opt(point_value(point, "path"@), view.path)
    &&& displays_opt(point_value(point, "snippet"@), view.snippet)
    &&& displays_opt(point_value(point, "start_line"@), view.start_line)
    &&& displays_opt(point_value(point, "end_line"@), view.end_line)
    &&& view.score_bits == point_score_bits(point)
}

/// The text of a hit for a displayed value that may be missing.
pub open spec fn displayed_text(text: Option<Seq<char>>) -> Seq<char> {
    match text {
        Some(t) => unquoted(t),
        None => Seq::empty(),
    }
}

/// The line of a hit for a displayed value that may be missing or no number.
pub open spec fn displayed_line(text: Option<Seq<char>>) -> i64 {
    match text {
        Some(t) => match displayed_number(t) {
            Some(n) => (n as usize) as i64,
            None => 0,
        },
        None => 0,
    }
}

/// The hit that a point becomes, given what is displayed of it.
pub open spec fn displayed_hit(view: DisplayedView) -> HitView {
    HitView {
        path: displayed_text(view.path),
        snippet: displayed_text(view.snippet),
        start_line: displayed_line(view.start_line),
        end_line: displayed_line(view.end_line),
        score_bits: view.score_bits,
        source: "qdrant"@,
    }
}

fn text_of_display(text: &Option<String>) -> (r: String)
    ensures
        r@ == displayed_text(opt_text(*text)),
{
    match text {
        Some(t) => trim_text_class(t.as_str(), CharClass::One('"')),
        None => String::new(),
    }
}

fn line_of_display(text: &Option<String>) -> (r: i64)
    ensures
        r == displayed_line(opt_text(*text)),
{
    match text {
        Some(t) => match parse_displayed(t.as_str()) {
            Some(n) => n as i64,
            None => 0,
        },
        None => 0,
    }
}

/// The hit that a point becomes, given what is displayed of it.
pub fn hit_of_display(point: &DisplayedPoint) -> (hit: SearchHit)
    ensures
        hit@ == displayed_hit(point@),
{
    SearchHit {
        path: text_of_display(&point.path),
        snippet: text_of_display(&point.snippet),
        start_line: line_of_display(&point.start_line),
        end_line: line_of_display(&point.end_line),
        score_bits: point.score_bits,
        source: copy_text("qdrant"),
    }
}

fn display_member(point: &ScoredPoint, key: &str) -> (text: Option<String>)
    ensures
        displays_opt(point_value(*point, key@), opt_text(text)),
{
    match get_point_value(point, key) {
        Some(value) => Some(display_value(value)),
        None => None,
    }
}

/// What is displayed of a point.
pub fn display_point(point: &ScoredPoint) -> (displayed: DisplayedPoint)
    ensures
        displays_point(*point, displayed@),
{
    DisplayedPoint {
        path: display_member(point, "path"),
        snippet: display_member(point, "snippet"),
        start_line: display_member(point, "start_line"),
        end_line: display_member(point, "end_line"),
        score_bits: get_point_score(point),
    }
}

/// Whether a hit can be what a point becomes.
pub open spec fn is_hit_of(point: ScoredPoint, hit: HitView) -> bool {
    exists|view: DisplayedView| #[trigger] displays_point(point, view) && hit == displayed_hit(view)
}

impl QdrantStore {
    /// The hits that the points of an answer become, in their order.
    pub fn semantic_search(&self, points: &Vec<ScoredPoint>) -> (hits: Vec<SearchHit>)
        ensures
            hits@.len() == points@.len(),
            forall|i: int| 0 <= i < hits@.len() ==> is_hit_of(points@[i], (#[trigger] hits@[i])@),
    {
        let mut hits: Vec<SearchHit> = Vec::new();
        for i in 0..points.len()
            invariant
                hits@.len() == i,
                forall|j: int| 0 <= j < i ==> is_hit_of(points@[j], (#[trigger] hits@[j])@),
        {
            let displayed = display_point(&points[i]);
            let hit = hit_of_display(&displayed);
            assert(displays_point(points@[i as int], displayed@));
            hits.push(hit);
        }
        hits
    }
}

/// A plain text is read back from between quotation marks.
proof fn lemma_plain_is_unquoted(text: Seq<char>)
    requires
        is_plain(text),
    ensures
        unquoted(quoted(text)) == text,
{
    let class = CharClass::One('"');
    let all = quoted(text);
    let tail = text + seq!['"'];
    assert(all.drop_first() =~= tail);
    assert(class_has(class, all[0]));
    if text.len() == 0 {
        assert(tail =~= seq!['"']);
        assert(class_has(class, tail[0]));
        assert(tail.drop_first() =~= Seq::<char>::empty());
        assert(trim_start_class(tail, class) == trim_start_class(tail.drop_first(), class));
        assert(trim_start_class(all, class) =~= Seq::<char>::empty());
    } else {
        assert(is_plain_char(text[0]) && is_plain_char(text[text.len() - 1]));
        assert(tail[0] == text[0]);
        assert(trim_start_class(tail, class) == tail);
        assert(trim_start_class(all, class) == tail);
        assert(tail.drop_last() =~= text);
        assert(class_has(class, tail.last()));
        assert(trim_end_class(text, class) == text);
        assert(trim_end_class(tail, class) == text);
    }
    assert(unquoted(all) =~= text);
}

/// A point with the payload of a chunk becomes a hit with the lines of the chunk and with
/// the score of the point; its texts are those of the chunk in the debug format, without
/// the quotation marks around them, which leaves a plain text as it is.
pub proof fn law_point_of_a_chunk_gives_it_back(
    chunk: ChunkView,
    payload: Payload,
    point: ScoredPoint,
    hit: HitView,
)
    requires
        payload_of(payload, chunk),
        forall|key: Seq<char>| #[trigger]
            point_value(point, key) == payload_value(payload, key),
        is_hit_of(point, hit),
        chunk.start_line <= i64::MAX,
        chunk.end_line <= i64::MAX,
    ensures
        hit.start_line == chunk.start_line,
        hit.end_line == chunk.end_line,
        hit.path == unquoted(debug_text(chunk.path)),
        hit.snippet == unquoted(debug_text(chunk.snippet)),
        is_plain(chunk.path) ==> hit.path == chunk.path,
        is_plain(chunk.snippet) ==> hit.snippet == chunk.snippet,
        hit.score_bits == point_score_bits(point),
        hit.source == "qdrant"@,
{
    let view = choose|view: DisplayedView| #[trigger]
        displays_point(point, view) && hit == displayed_hit(view);
    let fields = payload_fields(chunk);
    assert(value_holds(payload_value(payload, fields[0].0), fields[0].1));
    assert(value_holds(payload_value(payload, fields[1].0), fields[1].1));
    assert(value_holds(payload_value(payload, fields[2].0), fields[2].1));
    assert(value_holds(payload_value(payload, fields[3].0), fields[3].1));
    assert(point_value(point, "path"@) == payload_value(payload, "path"@));
    assert(point_value(point, "snippet"@) == payload_value(payload, "snippet"@));
    assert(point_value(point, "start_line"@) == payload_value(payload, "start_line"@));
    assert(point_value(point, "end_line"@) == payload_value(payload, "end_line"@));
    lemma_integer_is_read(chunk.start_line as int);
    lemma_integer_is_read(chunk.end_line as int);
    if is_plain(chunk.path) {
        lemma_plain_is_unquoted(chunk.path);
    }
    if is_plain(chunk.snippet) {
        lemma_plain_is_unquoted(chunk.snippet);
    }
}

/// Whether a payload has one of the paths.
pub open spec fn has_path(payload: Payload, paths: Seq<Seq<char>>) -> bool {
    match payload_value(payload, "path"@) {
        Some(value) => match value_string(value) {
            Some(path) => one_of(paths, path),
            None => false,
        },
        None => false,
    }
}

/// When paths are deleted, the points of a chunk go exactly when the chunk goes from the
/// keyword index.
pub proof fn law_stores_delete_the_same_chunks(
    chunk: ChunkView,
    payload: Payload,
    paths: Seq<Seq<char>>,
)
    requires
        payload_of(payload, chunk),
    ensures
        has_path(payload, paths) <==> !record_stays(Some(chunk), paths),
{
    let fields = payload_fields(chunk);
    assert(value_holds(payload_value(payload, fields[0].0), fields[0].1));
}

/// Of a displayed value the quotation marks at both ends are taken off, all of them and
/// nothing else, and a number is read without them.
pub proof fn law_quotation_marks_are_taken_off(
    before: Seq<char>,
    text: Seq<char>,
    after: Seq<char>,
    n: nat,
)
    requires
        forall|i: int| 0 <= i < before.len() ==> #[trigger] before[i] == '"',
        forall|i: int| 0 <= i < after.len() ==> #[trigger] after[i] == '"',
        text.len() > 0 ==> text[0] != '"' && text.last() != '"',
        n <= usize::MAX,
    ensures
        unquoted(before + text + after) == text,
        displayed_number(before + decimal(n) + after) == Some(n),
        displayed_number(before + text + after) == parse_number(text, usize::MAX as nat),
{
    law_trimming_takes_off_a_character(before, text, after, '"');
    let digits = decimal(n);
    crate::number::lemma_decimal(n);
    assert(crate::number::is_digit(digits[0]));
    assert(crate::number::is_digit(digits[digits.len() - 1]));
    law_trimming_takes_off_a_character(before, digits, after, '"');
    law_parse_reads_decimal(n, usize::MAX as nat);
}

/// A hit takes each of its values from the member that is named for it, and its score from
/// the point. What is missing is the empty text or line zero, and so is a line that is no
/// number.
pub proof fn law_members_of_a_point_are_kept_apart(view: DisplayedView)
    ensures
        displayed_hit(view).path == (match view.path {
            Some(text) => unquoted(text),
            None => Seq::empty(),
        }),
        displayed_hit(view).snippet == (match view.snippet {
            Some(text) => unquoted(text),
            None => Seq::empty(),
        }),
        view.start_line is None ==> displayed_hit(view).start_line == 0,
        view.start_line matches Some(text) ==> (match displayed_number(text) {
            Some(n) => n <= i64::MAX && n <= usize::MAX ==> displayed_hit(view).start_line == n,
            None => displayed_hit(view).start_line == 0,
        }),
        view.end_line is None ==> displayed_hit(view).end_line == 0,
        view.end_line matches Some(text) ==> (match displayed_number(text) {
            Some(n) => n <= i64::MAX && n <= usize::MAX ==> displayed_hit(view).end_line == n,
            None => displayed_hit(view).end_line == 0,
        }),
        displayed_hit(view).score_bits == view.score_bits,
        displayed_hit(view).source == "qdrant"@,
{
}

/// The payload of a chunk holds its path, its snippet, its lines and its identifier, each
/// under its own key, and no other key.
pub proof fn law_payload_holds_the_chunk(payload: Payload, chunk: ChunkView, key: Seq<char>)
    requires
        payload_of(payload, chunk),
    ensures
        payload_value(payload, "path"@) is Some,
        value_string(payload_value(payload, "path"@)->0) == Some(chunk.path),
        payload_value(payload, "snippet"@) is Some,
        value_string(payload_value(payload, "snippet"@)->0) == Some(chunk.snippet),
        payload_value(payload, "chunk_id"@) is Some,
        value_string(payload_value(payload, "chunk_id"@)->0) == Some(chunk.id),
        payload_value(payload, "start_line"@) is Some,
        chunk.start_line <= i64::MAX ==> value_integer(payload_value(payload, "start_line"@)->0)
            == Some(chunk.start_line as i64),
        payload_value(payload, "end_line"@) is Some,
        chunk.end_line <= i64::MAX ==> value_integer(payload_value(payload, "end_line"@)->0)
            == Some(chunk.end_line as i64),
        payload_keys(payload).contains(key) <==> key == "path"@ || key == "snippet"@ || key
            == "start_line"@ || key == "end_line"@ || key == "chunk_id"@,
{
    let fields = payload_fields(chunk);
    assert(value_holds(payload_value(payload, fields[0].0), fields[0].1));
    assert(value_holds(payload_value(payload, fields[1].0), fields[1].1));
    assert(value_holds(payload_value(payload, fields[2].0), fields[2].1));
    assert(value_holds(payload_value(payload, fields[3].0), fields[3].1));
    assert(value_holds(payload_value(payload, fields[4].0), fields[4].1));
    if field_keys(fields).contains(key) {
        let i = choose|i: int| 0 <= i < fields.len() && (#[trigger] fields[i]).0 == key;
        assert(i == 0 || i == 1 || i == 2 || i == 3 || i == 4);
    }
}

/// A key is used as it is, unless it is empty.
pub proof fn law_empty_key_is_no_key(key: Seq<char>)
    ensures
        key.len() > 0 ==> usable_key(Some(key)) == Some(key),
        usable_key(Some(Seq::empty())) is None,
        usable_key(None) is None,
{
}

/// The message for vectors that do not fit the chunks holds both numbers.
pub proof fn law_mismatch_names_both_numbers(chunks: usize, embeddings: usize)
    ensures
        upsert_message(UpsertError::CountMismatch { chunks, embeddings })
            == "embedding count mismatch: chunks="@ + decimal(chunks as nat) + " embeddings="@
            + decimal(embeddings as nat),
        upsert_message(UpsertError::Payload) == "failed converting payload for qdrant point"@,
{
}

/// A payload counts for deleting by the text under its key `path` alone.
pub proof fn law_paths_are_deleted_by_payload(payload: Payload, paths: Seq<Seq<char>>)
    ensures
        payload_value(payload, "path"@) is None ==> !has_path(payload, paths),
        payload_value(payload, "path"@) matches Some(value) ==> {
            &&& value_string(value) is None ==> !has_path(payload, paths)
            &&& value_string(value) matches Some(path) ==> (has_path(payload, paths)
                <==> paths.contains(path))
        },
{
}

} // verus!
