//! The data that the processes of the server exchange.

use vstd::prelude::*;
use vstd::utf8::*;

use crate::text::{
    is_white_space, lemma_trim_padded, same_text, trim, trim_text,
};

verus! {

// ---------------------------------------------------------------------------
// Chunks and hits
// ---------------------------------------------------------------------------

/// One indexed piece of a source file.
#[derive(Debug, Clone)]
pub struct CodeChunk {
    pub id: String,
    pub path: String,
    pub snippet: String,
    pub start_line: usize,
    pub end_line: usize,
}

/// What a `CodeChunk` holds.
#[verifier::ext_equal]
pub struct ChunkView {
    pub id: Seq<char>,
    pub path: Seq<char>,
    pub snippet: Seq<char>,
    pub start_line: usize,
    pub end_line: usize,
}

impl View for CodeChunk {
    type V = ChunkView;

    open spec fn view(&self) -> ChunkView {
        ChunkView {
            id: self.id@,
            path: self.path@,
            snippet: self.snippet@,
            start_line: self.start_line,
            end_line: self.end_line,
        }
    }
}

/// What a list of chunks holds.
pub open spec fn chunk_views(chunks: Seq<CodeChunk>) -> Seq<ChunkView> {
    Seq::new(chunks.len(), |i: int| chunks[i]@)
}

/// One search result, from either backend. The score is the bit pattern of a
/// single-precision number.
#[derive(Debug, Clone)]
pub struct SearchHit {
    pub path: String,
    pub snippet: String,
    pub start_line: i64,
    pub end_line: i64,
    pub score_bits: u32,
    pub source: String,
}

/// What a `SearchHit` holds.
#[verifier::ext_equal]
pub struct HitView {
    pub path: Seq<char>,
    pub snippet: Seq<char>,
    pub start_line: i64,
    pub end_line: i64,
    pub score_bits: u32,
    pub source: Seq<char>,
}

impl View for SearchHit {
    type V = HitView;

    open spec fn view(&self) -> HitView {
        HitView {
            path: self.path@,
            snippet: self.snippet@,
            start_line: self.start_line,
            end_line: self.end_line,
            score_bits: self.score_bits,
            source: self.source@,
        }
    }
}

/// What a list of hits holds.
pub open spec fn hit_views(hits: Seq<SearchHit>) -> Seq<HitView> {
    Seq::new(hits.len(), |i: int| hits[i]@)
}

pub(crate) proof fn lemma_hit_views_push(hits: Seq<SearchHit>, hit: SearchHit)
    ensures
        hit_views(hits.push(hit)) == hit_views(hits).push(hit@),
{
    assert(hit_views(hits.push(hit)) =~= hit_views(hits).push(hit@));
}

pub(crate) proof fn lemma_chunk_views_push(chunks: Seq<CodeChunk>, chunk: CodeChunk)
    ensures
        chunk_views(chunks.push(chunk)) == chunk_views(chunks).push(chunk@),
{
    assert(chunk_views(chunks.push(chunk)) =~= chunk_views(chunks).push(chunk@));
}

// ---------------------------------------------------------------------------
// Update signals
// ---------------------------------------------------------------------------

/// The notification that the watchdog sends to the orchestrator around an update.
#[derive(Debug, Clone, Copy, PartialEq, Eq, Structural)]
pub enum UpdateSignal {
    UpdateStart,
    UpdateEnd,
}

/// The word that stands for a signal in a datagram.
pub open spec fn signal_name(signal: UpdateSignal) -> Seq<char> {
    match signal {
        UpdateSignal::UpdateStart => "UPDATE_START"@,
        UpdateSignal::UpdateEnd => "UPDATE_END"@,
    }
}

/// What stands before the first null byte.
pub open spec fn until_nul(bytes: Seq<u8>) -> Seq<u8>
    decreases bytes.len(),
{
    if bytes.len() == 0 || bytes[0] == 0 {
        Seq::empty()
    } else {
        seq![bytes[0]] + until_nul(bytes.drop_first())
    }
}

/// The signal that a datagram carries: the bytes before the first null byte must be
/// UTF-8 and, apart from white space around it, the name of the signal.
pub open spec fn signal_of(input: Seq<u8>) -> Option<UpdateSignal> {
    let payload = until_nul(input);
    if !valid_utf8(payload) {
        None
    } else if trim(decode_utf8(payload)) == "UPDATE_START"@ {
        Some(UpdateSignal::UpdateStart)
    } else if trim(decode_utf8(payload)) == "UPDATE_END"@ {
        Some(UpdateSignal::UpdateEnd)
    } else {
        None
    }
}

/// `String::from_utf8` turns bytes into text exactly when they are valid UTF-8, and the
/// text is the one that they encode.
#[verifier::external_body]
pub(crate) fn utf8_text(bytes: Vec<u8>) -> (text: Option<String>)
    ensures
        match text {
            Some(t) => valid_utf8(bytes@) && t@ == decode_utf8(bytes@),
            None => !valid_utf8(bytes@),
        },
{
    String::from_utf8(bytes).ok()
}

proof fn lemma_until_nul(bytes: Seq<u8>, n: int)
    requires
        0 <= n <= bytes.len(),
        forall|j: int| 0 <= j < n ==> #[trigger] bytes[j] != 0,
        n < bytes.len() ==> bytes[n] == 0,
    ensures
        until_nul(bytes) == bytes.take(n),
    decreases n,
{
    if n > 0 {
        assert(bytes[0] != 0);
        assert forall|j: int| 0 <= j < n - 1 implies #[trigger] bytes.drop_first()[j] != 0 by {
            assert(bytes[j + 1] != 0);
        }
        lemma_until_nul(bytes.drop_first(), n - 1);
        assert(bytes.take(n) =~= seq![bytes[0]] + bytes.drop_first().take(n - 1));
    } else {
        assert(bytes.take(0) =~= Seq::<u8>::empty());
    }
}

impl UpdateSignal {
    /// The datagram that carries the signal.
    pub fn as_bytes(&self) -> (bytes: &'static [u8])
        ensures
            bytes@ == encode_utf8(signal_name(*self)),
    {
        match self {
            UpdateSignal::UpdateStart => "UPDATE_START".as_bytes(),
            UpdateSignal::UpdateEnd => "UPDATE_END".as_bytes(),
        }
    }

    /// The signal that a datagram carries, if it carries one.
    pub fn parse(input: &[u8]) -> (signal: Option<UpdateSignal>)
        ensures
            signal == signal_of(input@),
    {
        let mut payload: Vec<u8> = Vec::new();
        let mut i: usize = 0;
        while i < input.len() && input[i] != 0
            invariant
                i <= input@.len(),
                payload@ == input@.take(i as int),
                forall|j: int| 0 <= j < i ==> #[trigger] input@[j] != 0,
            decreases input@.len() - i,
        {
            payload.push(input[i]);
            assert(input@.take(i as int).push(input@[i as int]) =~= input@.take(i + 1));
            i = i + 1;
        }
        proof {
            lemma_until_nul(input@, i as int);
        }
        match utf8_text(payload) {
            Some(text) => {
                let word = trim_text(text.as_str());
                if same_text(word.as_str(), "UPDATE_START") {
                    Some(UpdateSignal::UpdateStart)
                } else if same_text(word.as_str(), "UPDATE_END") {
                    Some(UpdateSignal::UpdateEnd)
                } else {
                    None
                }
            },
            None => None,
        }
    }
}

/// The encoding of a character other than the null character holds no null byte.
proof fn lemma_scalar_without_nul(scalar: u32)
    requires
        is_scalar(scalar),
        scalar != 0,
    ensures
        forall|i: int|
            0 <= i < encode_scalar(scalar).len() ==> #[trigger] encode_scalar(scalar)[i] != 0,
{
    assert(scalar != 0 && scalar <= 0x7f ==> (scalar & 0x7f) as u8 != 0) by (bit_vector);
    assert((0xC0 | (((scalar >> 6) & 0x1F) as u8)) != 0) by (bit_vector);
    assert((0xE0 | (((scalar >> 12) & 0x0F) as u8)) != 0) by (bit_vector);
    assert((0xF0 | (((scalar >> 18) & 0x07) as u8)) != 0) by (bit_vector);
    assert((0x80 | ((scalar & 0x3F) as u8)) != 0) by (bit_vector);
    assert((0x80 | (((scalar >> 6) & 0x3F) as u8)) != 0) by (bit_vector);
    assert((0x80 | (((scalar >> 12) & 0x3F) as u8)) != 0) by (bit_vector);
}

/// Text without null characters is encoded without null bytes.
proof fn lemma_encoding_without_nul(chars: Seq<char>)
    requires
        forall|i: int| 0 <= i < chars.len() ==> #[trigger] chars[i] != '\0',
    ensures
        forall|i: int| 0 <= i < encode_utf8(chars).len() ==> #[trigger] encode_utf8(chars)[i] != 0,
    decreases chars.len(),
{
    if chars.len() > 0 {
        let rest = chars.drop_first();
        assert forall|i: int| 0 <= i < rest.len() implies #[trigger] rest[i] != '\0' by {
            assert(chars[i + 1] != '\0');
        }
        lemma_encoding_without_nul(rest);
        let scalar = chars[0] as u32;
        char_is_scalar(chars[0]);
        char_u32_cast(chars[0], scalar);
        assert(scalar != 0) by {
            assert(chars[0] != '\0');
        }
        lemma_scalar_without_nul(scalar);
        let head = encode_scalar(scalar);
        assert forall|i: int| 0 <= i < encode_utf8(chars).len() implies #[trigger] encode_utf8(
            chars,
        )[i] != 0 by {
            if i < head.len() {
                assert(encode_utf8(chars)[i] == head[i]);
            } else {
                assert(encode_utf8(chars)[i] == encode_utf8(rest)[i - head.len()]);
            }
        }
    }
}

/// A signal is read back from its datagram, also when white space surrounds the name
/// and when a null byte, with anything behind it, follows.
pub proof fn law_signal_is_read_back(
    signal: UpdateSignal,
    before: Seq<char>,
    after: Seq<char>,
    tail: Seq<u8>,
)
    requires
        forall|i: int| 0 <= i < before.len() ==> is_white_space(#[trigger] before[i]),
        forall|i: int| 0 <= i < after.len() ==> is_white_space(#[trigger] after[i]),
        tail.len() > 0 ==> tail[0] == 0,
    ensures
        signal_of(encode_utf8(before + signal_name(signal) + after) + tail) == Some(signal),
{
    reveal_strlit("UPDATE_START");
    reveal_strlit("UPDATE_END");
    let name = signal_name(signal);
    let chars = before + name + after;
    assert(name.len() > 0 && !is_white_space(name[0]) && !is_white_space(name.last()));
    assert forall|i: int| 0 <= i < chars.len() implies #[trigger] chars[i] != '\0' by {
        if i < before.len() {
            assert(chars[i] == before[i]);
        } else if i < before.len() + name.len() {
            assert(chars[i] == name[i - before.len()]);
        } else {
            assert(chars[i] == after[i - before.len() - name.len()]);
        }
    }
    lemma_encoding_without_nul(chars);
    let payload = encode_utf8(chars);
    let input = payload + tail;
    assert forall|j: int| 0 <= j < payload.len() implies #[trigger] input[j] != 0 by {
        assert(input[j] == payload[j]);
    }
    lemma_until_nul(input, payload.len() as int);
    assert(input.take(payload.len() as int) =~= payload);
    encode_utf8_valid_utf8(chars);
    encode_utf8_decode_utf8(chars);
    lemma_trim_padded(before, name, after);
    assert("UPDATE_START"@.len() != "UPDATE_END"@.len());
}

/// A datagram carries a signal exactly when what stands before its first null byte, or all of
/// it where it has none, is text that without the white space around it is the word for that
/// signal.
pub proof fn law_signals_are_whole_words(input: Seq<u8>, n: int)
    requires
        0 <= n <= input.len(),
        forall|i: int| 0 <= i < n ==> #[trigger] input[i] != 0,
        n < input.len() ==> input[n] == 0,
    ensures
        signal_of(input) == Some(UpdateSignal::UpdateStart) <==> valid_utf8(input.take(n)) && trim(
            decode_utf8(input.take(n)),
        ) == "UPDATE_START"@,
        signal_of(input) == Some(UpdateSignal::UpdateEnd) <==> valid_utf8(input.take(n)) && trim(
            decode_utf8(input.take(n)),
        ) == "UPDATE_END"@,
        signal_name(UpdateSignal::UpdateStart) == "UPDATE_START"@,
        signal_name(UpdateSignal::UpdateEnd) == "UPDATE_END"@,
{
    reveal_strlit("UPDATE_START");
    reveal_strlit("UPDATE_END");
    assert("UPDATE_START"@.len() == 12 && "UPDATE_END"@.len() == 10);
    lemma_until_nul(input, n);
}

/// What is said of a chunk or of a hit is said of its fields, and what is said of a list of
/// them of each in its place.
pub proof fn law_views_hold_the_fields(
    chunks: Seq<CodeChunk>,
    hits: Seq<SearchHit>,
    i: int,
    j: int,
)
    requires
        0 <= i < chunks.len(),
        0 <= j < hits.len(),
    ensures
        chunk_views(chunks).len() == chunks.len(),
        chunk_views(chunks)[i].id == chunks[i].id@,
        chunk_views(chunks)[i].path == chunks[i].path@,
        chunk_views(chunks)[i].snippet == chunks[i].snippet@,
        chunk_views(chunks)[i].start_line == chunks[i].start_line,
        chunk_views(chunks)[i].end_line == chunks[i].end_line,
        hit_views(hits).len() == hits.len(),
        hit_views(hits)[j].path == hits[j].path@,
        hit_views(hits)[j].snippet == hits[j].snippet@,
        hit_views(hits)[j].start_line == hits[j].start_line,
        hit_views(hits)[j].end_line == hits[j].end_line,
        hit_views(hits)[j].score_bits == hits[j].score_bits,
        hit_views(hits)[j].source == hits[j].source@,
{
}

} // verus!
