//! The search tool and the address that it is served at.

use vstd::prelude::*;

use crate::indexing::IndexingRuntime;
use crate::number::{decimal, decimal_text};
use crate::text::{copy_text, same_text, trim_class, trim_text_class, CharClass};
use crate::types::{hit_views, lemma_hit_views_push, HitView, SearchHit};
use crate::url::{parse_url, url_parts, UrlParts, UrlView};

verus! {

// ---------------------------------------------------------------------------
// Ranking
// ---------------------------------------------------------------------------

/// The rank of a score among all single-precision numbers in their total order: negative
/// numbers before positive ones, and every pattern of bits in one place.
pub open spec fn score_rank(bits: u32) -> int {
    if bits < 0x8000_0000 {
        bits as int
    } else {
        0x7fff_ffff - bits
    }
}

fn rank(bits: u32) -> (r: i64)
    ensures
        r == score_rank(bits),
{
    if bits < 0x8000_0000 {
        bits as i64
    } else {
        0x7fff_ffff - bits as i64
    }
}

/// The number of hits at the start of a list whose score is not below the given one.
pub open spec fn place_for(sorted: Seq<HitView>, bits: u32) -> nat
    decreases sorted.len(),
{
    if sorted.len() == 0 || score_rank(sorted[0].score_bits) < score_rank(bits) {
        0
    } else {
        1 + place_for(sorted.drop_first(), bits)
    }
}

/// The hits by falling score; hits of the same score keep their order.
pub open spec fn ranked(hits: Seq<HitView>) -> Seq<HitView>
    decreases hits.len(),
{
    if hits.len() == 0 {
        Seq::empty()
    } else {
        let before = ranked(hits.drop_last());
        before.insert(place_for(before, hits.last().score_bits) as int, hits.last())
    }
}

pub(crate) proof fn lemma_place_for(sorted: Seq<HitView>, bits: u32, n: int)
    requires
        0 <= n <= sorted.len(),
        forall|j: int|
            0 <= j < n ==> score_rank((#[trigger] sorted[j]).score_bits) >= score_rank(bits),
        n < sorted.len() ==> score_rank(sorted[n].score_bits) < score_rank(bits),
    ensures
        place_for(sorted, bits) == n,
    decreases n,
{
    if n > 0 {
        assert(score_rank(sorted[0].score_bits) >= score_rank(bits));
        let rest = sorted.drop_first();
        assert forall|j: int| 0 <= j < n - 1 implies score_rank((#[trigger] rest[j]).score_bits)
            >= score_rank(bits) by {
            assert(rest[j] == sorted[j + 1]);
        }
        lemma_place_for(rest, bits, n - 1);
    }
}

/// `place_for` lies in the list.
pub(crate) proof fn lemma_place_bound(sorted: Seq<HitView>, bits: u32)
    ensures
        place_for(sorted, bits) <= sorted.len(),
        forall|j: int|
            0 <= j < place_for(sorted, bits) ==> score_rank((#[trigger] sorted[j]).score_bits)
                >= score_rank(bits),
        place_for(sorted, bits) < sorted.len() ==> score_rank(
            sorted[place_for(sorted, bits) as int].score_bits,
        ) < score_rank(bits),
    decreases sorted.len(),
{
    if sorted.len() > 0 && score_rank(sorted[0].score_bits) >= score_rank(bits) {
        let rest = sorted.drop_first();
        lemma_place_bound(rest, bits);
        let n = place_for(sorted, bits) as int;
        assert forall|j: int| 0 <= j < n implies score_rank((#[trigger] sorted[j]).score_bits)
            >= score_rank(bits) by {
            if j > 0 {
                assert(rest[j - 1] == sorted[j]);
            }
        }
        if n < sorted.len() {
            assert(rest[n - 1] == sorted[n]);
        }
    }
}

fn copy_hit(hit: &SearchHit) -> (copy: SearchHit)
    ensures
        copy@ == hit@,
{
    SearchHit {
        path: copy_text(hit.path.as_str()),
        snippet: copy_text(hit.snippet.as_str()),
        start_line: hit.start_line,
        end_line: hit.end_line,
        score_bits: hit.score_bits,
        source: copy_text(hit.source.as_str()),
    }
}

/// Sorts hits by falling score; hits of the same score keep their order.
pub fn rank_hits(hits: &Vec<SearchHit>) -> (sorted: Vec<SearchHit>)
    ensures
        hit_views(sorted@) == ranked(hit_views(hits@)),
{
    let mut sorted: Vec<SearchHit> = Vec::new();
    let ghost all = hit_views(hits@);
    assert(all.take(0) =~= Seq::<HitView>::empty());
    assert(hit_views(sorted@) =~= Seq::<HitView>::empty());
    for i in 0..hits.len()
        invariant
            all == hit_views(hits@),
            hit_views(sorted@) == ranked(all.take(i as int)),
    {
        let hit = copy_hit(&hits[i]);
        let key = rank(hit.score_bits);
        let ghost before = hit_views(sorted@);
        let mut at: usize = 0;
        while at < sorted.len() && rank(sorted[at].score_bits) >= key
            invariant
                at <= sorted@.len(),
                key == score_rank(hit.score_bits),
                before == hit_views(sorted@),
                forall|j: int|
                    0 <= j < at ==> score_rank((#[trigger] before[j]).score_bits) >= key,
            decreases sorted@.len() - at,
        {
            assert(before[at as int] == sorted@[at as int]@);
            at = at + 1;
        }
        proof {
            if at < sorted@.len() {
                assert(before[at as int] == sorted@[at as int]@);
            }
            lemma_place_for(before, hit.score_bits, at as int);
            assert(all.take(i + 1).drop_last() =~= all.take(i as int));
            assert(all.take(i + 1).last() == hit@);
            assert(hit_views(sorted@.insert(at as int, hit)) =~= before.insert(at as int, hit@));
        }
        sorted.insert(at, hit);
    }
    assert(all.take(all.len() as int) =~= all);
    sorted
}

// ---------------------------------------------------------------------------
// Leaving out duplicates
// ---------------------------------------------------------------------------

/// Whether two hits stand for the same lines of the same file.
pub open spec fn same_span(a: HitView, b: HitView) -> bool {
    a.path == b.path && a.start_line == b.start_line && a.end_line == b.end_line
}

/// Whether a list has a hit for the same lines.
pub open spec fn has_span(hits: Seq<HitView>, hit: HitView) -> bool {
    exists|i: int| 0 <= i < hits.len() && same_span(#[trigger] hits[i], hit)
}

/// The hits without those for whose lines an earlier hit stands.
pub open spec fn deduped(hits: Seq<HitView>) -> Seq<HitView>
    decreases hits.len(),
{
    if hits.len() == 0 {
        Seq::empty()
    } else {
        let before = deduped(hits.drop_last());
        if has_span(before, hits.last()) {
            before
        } else {
            before.push(hits.last())
        }
    }
}

/// The first hits without duplicates, up to the limit, and at least one where there is one.
pub open spec fn best_hits(hits: Seq<HitView>, limit: usize) -> Seq<HitView> {
    let all = deduped(hits);
    let room: int = if limit == 0 {
        1
    } else {
        limit as int
    };
    if all.len() <= room {
        all
    } else {
        all.take(room)
    }
}

/// Of the first hits, those without duplicates come first.
pub(crate) proof fn lemma_deduped_prefix(hits: Seq<HitView>, n: int)
    requires
        0 <= n <= hits.len(),
    ensures
        deduped(hits.take(n)).len() <= deduped(hits).len(),
        deduped(hits.take(n)) == deduped(hits).take(deduped(hits.take(n)).len() as int),
    decreases hits.len() - n,
{
    if n < hits.len() {
        lemma_deduped_prefix(hits.drop_last(), n);
        assert(hits.drop_last().take(n) =~= hits.take(n));
        let short = deduped(hits.take(n));
        let before = deduped(hits.drop_last());
        assert(deduped(hits).take(short.len() as int) =~= before.take(short.len() as int));
    } else {
        assert(hits.take(n) =~= hits);
        assert(deduped(hits).take(deduped(hits).len() as int) =~= deduped(hits));
    }
}

fn contains_span(hits: &Vec<SearchHit>, hit: &SearchHit) -> (found: bool)
    ensures
        found == has_span(hit_views(hits@), hit@),
{
    for i in 0..hits.len()
        invariant
            forall|j: int| 0 <= j < i ==> !same_span(#[trigger] hit_views(hits@)[j], hit@),
    {
        let other = &hits[i];
        assert(hit_views(hits@)[i as int] == other@);
        if same_text(other.path.as_str(), hit.path.as_str()) && other.start_line == hit.start_line
            && other.end_line == hit.end_line {
            return true;
        }
    }
    false
}

/// The first hits without duplicates, up to the limit.
pub fn take_best(hits: &Vec<SearchHit>, limit: usize) -> (best: Vec<SearchHit>)
    ensures
        hit_views(best@) == best_hits(hit_views(hits@), limit),
{
    let mut best: Vec<SearchHit> = Vec::new();
    let ghost all = hit_views(hits@);
    assert(all.take(0) =~= Seq::<HitView>::empty());
    assert(hit_views(best@) =~= Seq::<HitView>::empty());
    for i in 0..hits.len()
        invariant
            all == hit_views(hits@),
            hit_views(best@) == deduped(all.take(i as int)),
            i > 0 ==> 0 < best@.len() < limit,
    {
        proof {
            assert(all.take(i + 1).drop_last() =~= all.take(i as int));
            assert(all.take(i + 1).last() == hits@[i as int]@);
        }
        if !contains_span(&best, &hits[i]) {
            let hit = copy_hit(&hits[i]);
            proof {
                lemma_hit_views_push(best@, hit);
            }
            best.push(hit);
        }
        proof {
            assert(hit_views(best@).len() == best@.len());
            assert(best@.len() > 0) by {
                if i == 0 {
                    assert(all.take(0) =~= Seq::<HitView>::empty());
                    assert(!has_span(deduped(all.take(0)), all[0]));
                }
            }
        }
        if best.len() >= limit {
            proof {
                lemma_deduped_prefix(all, i + 1);
                if limit == 0 {
                    assert(i == 0);
                    assert(best@.len() == 1);
                }
            }
            return best;
        }
    }
    assert(all.take(all.len() as int) =~= all);
    assert(hit_views(best@).len() == best@.len());
    best
}

// ---------------------------------------------------------------------------
// Searching
// ---------------------------------------------------------------------------

/// What a search asks for.
#[derive(Debug, Clone)]
pub struct SearchRequest {
    pub query: String,
    pub limit: Option<usize>,
}

/// What a search answers.
#[derive(Debug, Clone)]
pub struct SearchResponse {
    pub hits: Vec<SearchHit>,
}

/// The number of hits when a request names none.
pub const DEFAULT_LIMIT: usize = 8;

/// The largest number of hits.
pub const MAX_LIMIT: usize = 50;

/// The number of hits that a request gets at most: what it names, but at least one and at
/// most `MAX_LIMIT`.
pub open spec fn search_limit(limit: Option<usize>) -> usize {
    match limit {
        Some(n) => if n < 1 {
            1
        } else if n > MAX_LIMIT {
            MAX_LIMIT
        } else {
            n
        },
        None => DEFAULT_LIMIT,
    }
}

impl SearchRequest {
    /// The number of hits that the request gets at most.
    pub fn effective_limit(&self) -> (limit: usize)
        ensures
            limit == search_limit(self.limit),
    {
        match self.limit {
            Some(n) => if n < 1 {
                1
            } else if n > MAX_LIMIT {
                MAX_LIMIT
            } else {
                n
            },
            None => DEFAULT_LIMIT,
        }
    }
}

/// The hits of a search: those of the vector store and then those of the keyword index, by
/// falling score, each span of lines once, up to the limit.
pub open spec fn merged_hits(
    semantic: Seq<HitView>,
    keyword: Seq<HitView>,
    limit: usize,
) -> Seq<HitView> {
    best_hits(ranked(semantic + keyword), limit)
}

/// Merges the hits of the two backends.
pub fn merge_hits(
    semantic: &Vec<SearchHit>,
    keyword: &Vec<SearchHit>,
    limit: usize,
) -> (hits: Vec<SearchHit>)
    ensures
        hit_views(hits@) == merged_hits(hit_views(semantic@), hit_views(keyword@), limit),
{
    let mut all: Vec<SearchHit> = Vec::new();
    for i in 0..semantic.len()
        invariant
            hit_views(all@) == hit_views(semantic@).take(i as int),
    {
        let hit = copy_hit(&semantic[i]);
        proof {
            lemma_hit_views_push(all@, hit);
            assert(hit_views(semantic@).take(i + 1) =~= hit_views(semantic@).take(i as int).push(
                hit@,
            ));
        }
        all.push(hit);
    }
    assert(hit_views(semantic@).take(semantic@.len() as int) =~= hit_views(semantic@));
    assert(hit_views(semantic@) + hit_views(keyword@).take(0) =~= hit_views(semantic@));
    for i in 0..keyword.len()
        invariant
            hit_views(all@) == hit_views(semantic@) + hit_views(keyword@).take(i as int),
    {
        let hit = copy_hit(&keyword[i]);
        proof {
            lemma_hit_views_push(all@, hit);
            assert(hit_views(semantic@) + hit_views(keyword@).take(i + 1) =~= (hit_views(semantic@)
                + hit_views(keyword@).take(i as int)).push(hit@));
        }
        all.push(hit);
    }
    assert(hit_views(keyword@).take(keyword@.len() as int) =~= hit_views(keyword@));
    let sorted = rank_hits(&all);
    take_best(&sorted, limit)
}

/// The description of the search tool.
pub open spec fn tool_description(server_name: Seq<char>) -> Seq<char> {
    "Largescale codebase search for "@ + server_name
        + " and return snippets + path + line ranges"@
}

/// The hits of a backend, or none where it failed.
pub open spec fn hits_or_none(outcome: Result<Vec<SearchHit>, String>) -> Seq<HitView> {
    match outcome {
        Ok(hits) => hit_views(hits@),
        Err(_) => Seq::empty(),
    }
}

/// The server of the search tool.
#[derive(Clone)]
pub struct OpenCodeSearchMcpServer {
    pub indexing: IndexingRuntime,
    /// What clients are told of the tool.
    pub description: String,
}

impl OpenCodeSearchMcpServer {
    /// The server of a code base. The description of its tool names the code base.
    pub fn new(indexing: IndexingRuntime) -> (server: OpenCodeSearchMcpServer)
        ensures
            server.indexing == indexing,
            server.description@ == tool_description(indexing.config.codebase.mcp_server_name@),
    {
        let mut description = copy_text("Largescale codebase search for ");
        description.append(indexing.config.codebase.mcp_server_name.as_str());
        description.append(" and return snippets + path + line ranges");
        OpenCodeSearchMcpServer { indexing, description }
    }

    /// The hits of a search, given what the backends answered. It fails where the vector
    /// store failed, and with its error; without the keyword index it goes on.
    pub fn search_internal(
        &self,
        semantic: Result<Vec<SearchHit>, String>,
        keyword: Result<Vec<SearchHit>, String>,
        limit: usize,
    ) -> (hits: Result<Vec<SearchHit>, String>)
        ensures
            match hits {
                Ok(list) => semantic is Ok && hit_views(list@) == merged_hits(
                    hit_views(semantic->Ok_0@),
                    hits_or_none(keyword),
                    limit,
                ),
                Err(error) => semantic is Err && error@ == semantic->Err_0@,
            },
    {
        match semantic {
            Ok(found) => {
                let more = match keyword {
                    Ok(list) => list,
                    Err(_) => Vec::new(),
                };
                assert(hit_views(more@) =~= hits_or_none(keyword));
                Ok(merge_hits(&found, &more, limit))
            },
            Err(error) => Err(error),
        }
    }

    /// The answer to a request, given what the backends answered.
    pub fn search_code(
        &self,
        input: &SearchRequest,
        semantic: Result<Vec<SearchHit>, String>,
        keyword: Result<Vec<SearchHit>, String>,
    ) -> (response: Result<SearchResponse, String>)
        ensures
            match response {
                Ok(r) => semantic is Ok && hit_views(r.hits@) == merged_hits(
                    hit_views(semantic->Ok_0@),
                    hits_or_none(keyword),
                    search_limit(input.limit),
                ),
                Err(error) => semantic is Err && error@ == semantic->Err_0@,
            },
    {
        match self.search_internal(semantic, keyword, input.effective_limit()) {
            Ok(hits) => Ok(SearchResponse { hits }),
            Err(error) => Err(error),
        }
    }
}

// ---------------------------------------------------------------------------
// The address of the server
// ---------------------------------------------------------------------------

/// The protocol that the server speaks.
#[derive(Debug, Clone, Copy, PartialEq, Eq, Structural)]
pub enum BindScheme {
    Http,
    Https,
}

/// The port of a protocol.
pub open spec fn default_port(scheme: BindScheme) -> u16 {
    match scheme {
        BindScheme::Http => 80,
        BindScheme::Https => 443,
    }
}

/// Where the server listens.
#[derive(Debug, Clone)]
pub struct ParsedMcpServerUrl {
    pub scheme: BindScheme,
    pub host: String,
    pub port: u16,
    pub path: String,
}

/// What a `ParsedMcpServerUrl` holds.
#[verifier::ext_equal]
pub struct ServerUrlView {
    pub scheme: BindScheme,
    pub host: Seq<char>,
    pub port: u16,
    pub path: Seq<char>,
}

impl View for ParsedMcpServerUrl {
    type V = ServerUrlView;

    open spec fn view(&self) -> ServerUrlView {
        ServerUrlView {
            scheme: self.scheme,
            host: self.host@,
            port: self.port,
            path: self.path@,
        }
    }
}

/// Why the server cannot listen at a URL.
#[derive(Debug, Clone)]
pub enum ServerUrlError {
    /// The text is no URL.
    Invalid(String),
    /// The URL is for another protocol.
    UnsupportedScheme(String),
    /// The URL names no host.
    MissingHost,
}

/// What a `ServerUrlError` holds.
#[verifier::ext_equal]
pub enum ServerUrlErrorView {
    Invalid(Seq<char>),
    UnsupportedScheme(Seq<char>),
    MissingHost,
}

impl View for ServerUrlError {
    type V = ServerUrlErrorView;

    open spec fn view(&self) -> ServerUrlErrorView {
        match self {
            ServerUrlError::Invalid(text) => ServerUrlErrorView::Invalid(text@),
            ServerUrlError::UnsupportedScheme(scheme) => ServerUrlErrorView::UnsupportedScheme(
                scheme@,
            ),
            ServerUrlError::MissingHost => ServerUrlErrorView::MissingHost,
        }
    }
}

/// The message for an error.
pub open spec fn server_url_message(error: ServerUrlErrorView) -> Seq<char> {
    match error {
        ServerUrlErrorView::Invalid(text) => "invalid mcp_server_url "@ + text,
        ServerUrlErrorView::UnsupportedScheme(scheme) =>
        "mcp_server_url must use http or https scheme, got '"@ + scheme + "'"@,
        ServerUrlErrorView::MissingHost => "mcp_server_url is missing host"@,
    }
}

impl ServerUrlError {
    /// The message for the error.
    pub fn message(&self) -> (text: String)
        ensures
            text@ == server_url_message(self@),
    {
        match self {
            ServerUrlError::Invalid(url) => {
                let mut text = copy_text("invalid mcp_server_url ");
                text.append(url.as_str());
                text
            },
            ServerUrlError::UnsupportedScheme(scheme) => {
                let mut text = copy_text("mcp_server_url must use http or https scheme, got '");
                text.append(scheme.as_str());
                text.append("'");
                text
            },
            ServerUrlError::MissingHost => copy_text("mcp_server_url is missing host"),
        }
    }
}

/// The path at which the server is mounted for the path of its URL: one `/` in front, none
/// behind.
pub open spec fn mount_path(raw: Seq<char>) -> Seq<char> {
    if raw.len() == 0 || raw == "/"@ {
        "/"@
    } else {
        "/"@ + trim_class(raw, CharClass::One('/'))
    }
}

/// The protocol for the scheme of a URL.
pub open spec fn bind_scheme(scheme: Seq<char>) -> Option<BindScheme> {
    if scheme == "http"@ {
        Some(BindScheme::Http)
    } else if scheme == "https"@ {
        Some(BindScheme::Https)
    } else {
        None
    }
}

/// Where the server listens for a URL, given the parts of the URL.
pub open spec fn server_address(text: Seq<char>, parts: Option<UrlView>) -> Result<
    ServerUrlView,
    ServerUrlErrorView,
> {
    match parts {
        None => Err(ServerUrlErrorView::Invalid(text)),
        Some(url) => match bind_scheme(url.scheme) {
            None => Err(ServerUrlErrorView::UnsupportedScheme(url.scheme)),
            Some(scheme) => match url.host {
                None => Err(ServerUrlErrorView::MissingHost),
                Some(host) => Ok(
                    ServerUrlView {
                        scheme,
                        host,
                        port: match url.port {
                            Some(port) => port,
                            None => default_port(scheme),
                        },
                        path: mount_path(url.path),
                    },
                ),
            },
        },
    }
}

/// Whether an outcome is the given one.
pub open spec fn is_address(
    outcome: Result<ParsedMcpServerUrl, ServerUrlError>,
    expected: Result<ServerUrlView, ServerUrlErrorView>,
) -> bool {
    match outcome {
        Ok(address) => expected == Ok::<ServerUrlView, ServerUrlErrorView>(address@),
        Err(error) => expected == Err::<ServerUrlView, ServerUrlErrorView>(error@),
    }
}

/// The path at which the server is mounted for the path of its URL.
pub fn mounted_path(raw: &str) -> (path: String)
    ensures
        path@ == mount_path(raw@),
{
    if raw.is_empty() || same_text(raw, "/") {
        copy_text("/")
    } else {
        let mut path = copy_text("/");
        let rest = trim_text_class(raw, CharClass::One('/'));
        path.append(rest.as_str());
        path
    }
}

/// Where the server listens for a URL, given the parts of the URL.
pub fn address_of_parts(text: &str, parts: Option<UrlParts>) -> (address: Result<
    ParsedMcpServerUrl,
    ServerUrlError,
>)
    ensures
        is_address(
            address,
            server_address(
                text@,
                match parts {
                    Some(p) => Some(p@),
                    None => None,
                },
            ),
        ),
{
    match parts {
        None => Err(ServerUrlError::Invalid(copy_text(text))),
        Some(url) => {
            let scheme = if same_text(url.scheme.as_str(), "http") {
                BindScheme::Http
            } else if same_text(url.scheme.as_str(), "https") {
                BindScheme::Https
            } else {
                return Err(ServerUrlError::UnsupportedScheme(url.scheme));
            };
            let path = mounted_path(url.path.as_str());
            let port = match url.port {
                Some(port) => port,
                None => match scheme {
                    BindScheme::Http => 80,
                    BindScheme::Https => 443,
                },
            };
            match url.host {
                Some(host) => Ok(ParsedMcpServerUrl { scheme, host, port, path }),
                None => Err(ServerUrlError::MissingHost),
            }
        },
    }
}

/// Where the server listens for the URL of the configuration.
pub fn parse_mcp_server_url(mcp_server_url: &str) -> (address: Result<
    ParsedMcpServerUrl,
    ServerUrlError,
>)
    ensures
        is_address(address, server_address(mcp_server_url@, url_parts(mcp_server_url@))),
{
    let parts = parse_url(mcp_server_url);
    address_of_parts(mcp_server_url, parts)
}

/// How the service is put into the router.
#[derive(Debug, Clone)]
pub enum Mount {
    /// At the root.
    Root,
    /// Under a path.
    Nested(String),
}

/// How the service is put into the router for its path.
pub fn build_mcp_router(path: &str) -> (mount: Mount)
    ensures
        match mount {
            Mount::Root => path@ == "/"@,
            Mount::Nested(p) => path@ != "/"@ && p@ == path@,
        },
{
    if same_text(path, "/") {
        Mount::Root
    } else {
        Mount::Nested(copy_text(path))
    }
}

/// The line that tells where the server listens.
pub open spec fn listening_text(
    scheme: BindScheme,
    ip: Seq<char>,
    port: u16,
    path: Seq<char>,
) -> Seq<char> {
    let start = match scheme {
        BindScheme::Http => "MCP HTTP server listening on http://"@,
        BindScheme::Https => "MCP HTTPS server listening on https://"@,
    };
    start + ip + ":"@ + decimal(port as nat) + path
}

/// The line that tells where the server listens.
pub fn listening_line(scheme: BindScheme, ip: &str, port: u16, path: &str) -> (line: String)
    ensures
        line@ == listening_text(scheme, ip@, port, path@),
{
    let mut line = match scheme {
        BindScheme::Http => copy_text("MCP HTTP server listening on http://"),
        BindScheme::Https => copy_text("MCP HTTPS server listening on https://"),
    };
    line.append(ip);
    line.append(":");
    let number = decimal_text(port as usize);
    line.append(number.as_str());
    line.append(path);
    line
}

/// The file of the certificate and the file of its key: what the environment names, else
/// the files for a local server.
pub fn tls_files(cert: Option<String>, key: Option<String>) -> (files: (String, String))
    ensures
        files.0@ == (match cert {
            Some(path) => path@,
            None => "certs/localhost-cert.pem"@,
        }),
        files.1@ == (match key {
            Some(path) => path@,
            None => "certs/localhost-key.pem"@,
        }),
{
    let cert_file = match cert {
        Some(path) => path,
        None => copy_text("certs/localhost-cert.pem"),
    };
    let key_file = match key {
        Some(path) => path,
        None => copy_text("certs/localhost-key.pem"),
    };
    (cert_file, key_file)
}

} // verus!
