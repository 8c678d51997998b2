//! What holds of every search and of every address of the server.

use vstd::prelude::*;
use vstd::seq_lib::to_multiset_insert;

use qdrant_client::qdrant::ScoredPoint;
use qdrant_client::Payload;

use crate::mcp::{
    best_hits, deduped, has_span, hits_or_none, lemma_place_bound, listening_text, merged_hits,
    mount_path, place_for, ranked, same_span, score_rank, search_limit, server_address,
    server_url_message, tool_description, BindScheme, ServerUrlErrorView, ServerUrlView, MAX_LIMIT,
};
use crate::number::decimal;
use crate::qdrant_store::{
    is_hit_of, is_plain, law_point_of_a_chunk_gives_it_back, payload_of, payload_value,
    point_value,
};
use crate::quickwit::local_hit;
use crate::text::{
    law_trim_is_final, law_trimming_takes_off_a_character, trim_class, trim_end_class,
    trim_start_class, CharClass,
};
use crate::types::{hit_views, ChunkView, HitView, SearchHit};
use crate::url::UrlView;

verus! {

// ---------------------------------------------------------------------------
// Ranking
// ---------------------------------------------------------------------------

/// Different scores have different ranks.
pub proof fn law_rank_is_injective(a: u32, b: u32)
    requires
        score_rank(a) == score_rank(b),
    ensures
        a == b,
{
}

/// The rank follows the order of the numbers: among those without the sign bit more bits
/// stand for a larger number, among those with it for a smaller one, and every number with
/// it comes before every number without.
pub proof fn law_rank_follows_the_numbers(a: u32, b: u32)
    ensures
        a < b && b < 0x8000_0000 ==> score_rank(a) < score_rank(b),
        0x8000_0000 <= a && a < b ==> score_rank(a) > score_rank(b),
        b < 0x8000_0000 && 0x8000_0000 <= a ==> score_rank(a) < score_rank(b),
{
}

/// Whether no hit has a higher score than one before it.
pub open spec fn falling(hits: Seq<HitView>) -> bool {
    forall|i: int, j: int|
        0 <= i < j < hits.len() ==> score_rank((#[trigger] hits[i]).score_bits) >= score_rank(
            (#[trigger] hits[j]).score_bits,
        )
}

/// The hits are ranked by falling score.
pub proof fn law_ranked_hits_fall(hits: Seq<HitView>)
    ensures
        falling(ranked(hits)),
    decreases hits.len(),
{
    if hits.len() > 0 {
        law_ranked_hits_fall(hits.drop_last());
        let before = ranked(hits.drop_last());
        let hit = hits.last();
        lemma_place_bound(before, hit.score_bits);
        let p = place_for(before, hit.score_bits) as int;
        let all = before.insert(p, hit);
        assert forall|i: int, j: int| 0 <= i < j < all.len() implies score_rank(
            (#[trigger] all[i]).score_bits,
        ) >= score_rank((#[trigger] all[j]).score_bits) by {
            let a = if i < p {
                i
            } else {
                i - 1
            };
            let b = if j < p {
                j
            } else {
                j - 1
            };
            if i != p {
                assert(all[i] == before[a]);
            }
            if j != p {
                assert(all[j] == before[b]);
            }
            if i == p {
                if p < b {
                    assert(score_rank(before[p].score_bits) >= score_rank(before[b].score_bits));
                }
            }
        }
    }
}

/// Ranking neither loses nor adds a hit.
pub proof fn law_ranking_keeps_the_hits(hits: Seq<HitView>)
    ensures
        ranked(hits).to_multiset() == hits.to_multiset(),
        ranked(hits).len() == hits.len(),
    decreases hits.len(),
{
    if hits.len() > 0 {
        let rest = hits.drop_last();
        law_ranking_keeps_the_hits(rest);
        let before = ranked(rest);
        let hit = hits.last();
        lemma_place_bound(before, hit.score_bits);
        let p = place_for(before, hit.score_bits) as int;
        to_multiset_insert(before, p, hit);
        vstd::seq_lib::to_multiset_build(rest, hit);
        assert(rest.push(hit) =~= hits);
    } else {
        assert(ranked(hits) =~= hits);
    }
}

/// The hits with a given score.
pub open spec fn with_score(hits: Seq<HitView>, bits: u32) -> Seq<HitView> {
    hits.filter(|hit: HitView| hit.score_bits == bits)
}

proof fn lemma_with_score_add(a: Seq<HitView>, b: Seq<HitView>, bits: u32)
    ensures
        with_score(a + b, bits) == with_score(a, bits) + with_score(b, bits),
{
    Seq::filter_distributes_over_add(a, b, |hit: HitView| hit.score_bits == bits);
}

proof fn lemma_with_score_none(hits: Seq<HitView>, bits: u32)
    requires
        forall|i: int| 0 <= i < hits.len() ==> (#[trigger] hits[i]).score_bits != bits,
    ensures
        with_score(hits, bits) == Seq::<HitView>::empty(),
    decreases hits.len(),
{
    reveal(Seq::filter);
    if hits.len() > 0 {
        assert(hits[hits.len() - 1].score_bits != bits);
        assert forall|i: int| 0 <= i < hits.drop_last().len() implies (
        #[trigger] hits.drop_last()[i]).score_bits != bits by {
            assert(hits.drop_last()[i] == hits[i]);
        }
        lemma_with_score_none(hits.drop_last(), bits);
    }
}

proof fn lemma_with_score_one(hit: HitView, bits: u32)
    ensures
        with_score(seq![hit], bits) == (if hit.score_bits == bits {
            seq![hit]
        } else {
            Seq::<HitView>::empty()
        }),
{
    reveal(Seq::filter);
    assert(seq![hit].drop_last() =~= Seq::<HitView>::empty());
    assert(seq![hit].last() == hit);
    assert(with_score(Seq::empty(), bits) =~= Seq::<HitView>::empty());
    assert(Seq::<HitView>::empty().push(hit) =~= seq![hit]);
}

/// Hits of the same score keep their order.
pub proof fn law_ranking_is_stable(hits: Seq<HitView>, bits: u32)
    ensures
        with_score(ranked(hits), bits) == with_score(hits, bits),
    decreases hits.len(),
{
    if hits.len() > 0 {
        let rest = hits.drop_last();
        let hit = hits.last();
        law_ranking_is_stable(rest, bits);
        law_ranked_hits_fall(rest);
        let before = ranked(rest);
        lemma_place_bound(before, hit.score_bits);
        let p = place_for(before, hit.score_bits) as int;
        let front = before.take(p);
        let back = before.skip(p);
        assert(before.insert(p, hit) =~= front + seq![hit] + back);
        assert(before =~= front + back);
        lemma_with_score_add(front + seq![hit], back, bits);
        lemma_with_score_add(front, seq![hit], bits);
        lemma_with_score_add(front, back, bits);
        lemma_with_score_one(hit, bits);
        assert(hits =~= rest + seq![hit]);
        lemma_with_score_add(rest, seq![hit], bits);
        if hit.score_bits == bits {
            assert forall|i: int| 0 <= i < back.len() implies (#[trigger] back[i]).score_bits
                != bits by {
                assert(back[i] == before[p + i]);
                assert(score_rank(before[p].score_bits) < score_rank(hit.score_bits));
                if i > 0 {
                    assert(score_rank(before[p].score_bits) >= score_rank(
                        before[p + i].score_bits,
                    ));
                }
            }
            lemma_with_score_none(back, bits);
        }
        assert(with_score(ranked(hits), bits) =~= with_score(hits, bits));
    } else {
        assert(ranked(hits) =~= hits);
    }
}

// ---------------------------------------------------------------------------
// Leaving out duplicates
// ---------------------------------------------------------------------------

/// Whether no two hits are for the same lines.
pub open spec fn spans_differ(hits: Seq<HitView>) -> bool {
    forall|i: int, j: int|
        0 <= i < j < hits.len() ==> !same_span(#[trigger] hits[i], #[trigger] hits[j])
}

/// What leaving out duplicates does to ranked hits: every hit that stays was there, no two
/// that stay are for the same lines, and for every hit one stays that is for the same lines
/// and has no lower score.
proof fn lemma_deduped(hits: Seq<HitView>)
    requires
        falling(hits),
    ensures
        forall|i: int|
            0 <= i < deduped(hits).len() ==> hits.contains(#[trigger] deduped(hits)[i]),
        spans_differ(deduped(hits)),
        falling(deduped(hits)),
        forall|k: int| 0 <= k < hits.len() ==> stays_for(deduped(hits), #[trigger] hits[k]),
    decreases hits.len(),
{
    if hits.len() > 0 {
        let rest = hits.drop_last();
        let hit = hits.last();
        assert(falling(rest)) by {
            assert forall|i: int, j: int| 0 <= i < j < rest.len() implies score_rank(
                (#[trigger] rest[i]).score_bits,
            ) >= score_rank((#[trigger] rest[j]).score_bits) by {
                assert(rest[i] == hits[i] && rest[j] == hits[j]);
            }
        }
        lemma_deduped(rest);
        let before = deduped(rest);
        let all = deduped(hits);
        assert forall|i: int| 0 <= i < before.len() implies score_rank(
            (#[trigger] before[i]).score_bits,
        ) >= score_rank(hit.score_bits) && hits.contains(before[i]) by {
            let k = choose|k: int| 0 <= k < rest.len() && rest[k] == before[i];
            assert(hits[k] == before[i]);
            assert(hits[hits.len() - 1] == hit);
        }
        assert forall|i: int| 0 <= i < all.len() implies hits.contains(#[trigger] all[i]) by {
            if i < before.len() {
                assert(all[i] == before[i]);
            } else {
                assert(hits[hits.len() - 1] == all[i]);
            }
        }
        assert forall|i: int, j: int| 0 <= i < j < all.len() implies !same_span(
            #[trigger] all[i],
            #[trigger] all[j],
        ) && score_rank(all[i].score_bits) >= score_rank(all[j].score_bits) by {
            assert(all[i] == before[i]);
            if j < before.len() {
                assert(all[j] == before[j]);
            }
        }
        assert forall|k: int| 0 <= k < hits.len() implies stays_for(all, #[trigger] hits[k]) by {
            if k < rest.len() {
                assert(rest[k] == hits[k]);
                assert(stays_for(before, rest[k]));
                let i = choose|i: int|
                    0 <= i < before.len() && same_span(#[trigger] before[i], rest[k]) && score_rank(
                        before[i].score_bits,
                    ) >= score_rank(rest[k].score_bits);
                assert(all[i] == before[i]);
            } else if has_span(before, hit) {
                let i = choose|i: int| 0 <= i < before.len() && same_span(#[trigger] before[i], hit);
                assert(all[i] == before[i]);
            } else {
                assert(all[before.len() as int] == hit);
            }
        }
    }
}

/// Whether a list has a hit for the lines of the given one, with no lower score.
pub open spec fn stays_for(hits: Seq<HitView>, hit: HitView) -> bool {
    exists|i: int|
        0 <= i < hits.len() && same_span(#[trigger] hits[i], hit) && score_rank(
            hits[i].score_bits,
        ) >= score_rank(hit.score_bits)
}

// ---------------------------------------------------------------------------
// Searching
// ---------------------------------------------------------------------------

/// Whether all hits of a list have at least the score of the given one.
pub open spec fn none_below(hits: Seq<HitView>, hit: HitView) -> bool {
    forall|i: int|
        0 <= i < hits.len() ==> score_rank((#[trigger] hits[i]).score_bits) >= score_rank(
            hit.score_bits,
        )
}

proof fn lemma_merged(semantic: Seq<HitView>, keyword: Seq<HitView>, limit: usize)
    ensures
        ({
            let found = semantic + keyword;
            let all = deduped(ranked(found));
            let best = merged_hits(semantic, keyword, limit);
            let room: int = if limit == 0 {
                1
            } else {
                limit as int
            };
            &&& best.len() <= room
            &&& best.len() <= all.len()
            &&& best == all.take(best.len() as int)
            &&& best.len() < room ==> best == all
            &&& forall|i: int| 0 <= i < all.len() ==> found.contains(#[trigger] all[i])
            &&& spans_differ(all)
            &&& falling(all)
            &&& forall|hit: HitView| #[trigger] found.contains(hit) ==> stays_for(all, hit)
        }),
{
    let found = semantic + keyword;
    let sorted = ranked(found);
    law_ranked_hits_fall(found);
    law_ranking_keeps_the_hits(found);
    lemma_deduped(sorted);
    let all = deduped(sorted);
    assert(all.take(all.len() as int) =~= all);
    assert forall|i: int| 0 <= i < all.len() implies found.contains(#[trigger] all[i]) by {
        assert(sorted.contains(all[i]));
        vstd::seq_lib::to_multiset_contains(sorted, all[i]);
        vstd::seq_lib::to_multiset_contains(found, all[i]);
    }
    assert forall|hit: HitView| #[trigger] found.contains(hit) implies stays_for(all, hit) by {
        vstd::seq_lib::to_multiset_contains(found, hit);
        vstd::seq_lib::to_multiset_contains(sorted, hit);
        assert(sorted.contains(hit));
        let k = choose|k: int| 0 <= k < sorted.len() && sorted[k] == hit;
        assert(stays_for(all, sorted[k]));
    }
}

/// A search answers with hits of the backends, by falling score and for different lines.
pub proof fn law_search_answers_with_hits_of_the_backends(
    semantic: Seq<HitView>,
    keyword: Seq<HitView>,
    limit: usize,
)
    ensures
        forall|i: int|
            0 <= i < merged_hits(semantic, keyword, limit).len() ==> (semantic.contains(
                #[trigger] merged_hits(semantic, keyword, limit)[i],
            ) || keyword.contains(merged_hits(semantic, keyword, limit)[i])),
        falling(merged_hits(semantic, keyword, limit)),
        spans_differ(merged_hits(semantic, keyword, limit)),
{
    lemma_merged(semantic, keyword, limit);
    let found = semantic + keyword;
    let all = deduped(ranked(found));
    let best = merged_hits(semantic, keyword, limit);
    assert forall|i: int| 0 <= i < best.len() implies (semantic.contains(#[trigger] best[i])
        || keyword.contains(best[i])) by {
        assert(best[i] == all[i]);
        let k = choose|k: int| 0 <= k < found.len() && found[k] == all[i];
        if k < semantic.len() {
            assert(semantic[k] == best[i]);
        } else {
            assert(keyword[k - semantic.len()] == best[i]);
        }
    }
    assert forall|i: int, j: int| 0 <= i < j < best.len() implies score_rank(
        (#[trigger] best[i]).score_bits,
    ) >= score_rank((#[trigger] best[j]).score_bits) && !same_span(best[i], best[j]) by {
        assert(best[i] == all[i] && best[j] == all[j]);
    }
}

/// No hit of a backend is passed over: either one for the same lines and with no lower score
/// is in the answer, or the answer is full and has no hit with a lower score.
pub proof fn law_search_passes_over_no_better_hit(
    semantic: Seq<HitView>,
    keyword: Seq<HitView>,
    limit: usize,
    hit: HitView,
)
    requires
        semantic.contains(hit) || keyword.contains(hit),
    ensures
        stays_for(merged_hits(semantic, keyword, limit), hit) || (merged_hits(
            semantic,
            keyword,
            limit,
        ).len() >= limit && none_below(merged_hits(semantic, keyword, limit), hit)),
        merged_hits(semantic, keyword, limit).len() > 0,
{
    lemma_merged(semantic, keyword, limit);
    let found = semantic + keyword;
    let all = deduped(ranked(found));
    let best = merged_hits(semantic, keyword, limit);
    assert(found.contains(hit)) by {
        if semantic.contains(hit) {
            let k = choose|k: int| 0 <= k < semantic.len() && semantic[k] == hit;
            assert(found[k] == hit);
        } else {
            let k = choose|k: int| 0 <= k < keyword.len() && keyword[k] == hit;
            assert(found[semantic.len() + k] == hit);
        }
    }
    assert(stays_for(all, hit));
    let i = choose|i: int|
        0 <= i < all.len() && same_span(#[trigger] all[i], hit) && score_rank(all[i].score_bits)
            >= score_rank(hit.score_bits);
    if i < best.len() {
        assert(best[i] == all[i]);
    } else {
        assert forall|j: int| 0 <= j < best.len() implies score_rank(
            (#[trigger] best[j]).score_bits,
        ) >= score_rank(hit.score_bits) by {
            assert(best[j] == all[j]);
            assert(score_rank(all[j].score_bits) >= score_rank(all[i].score_bits));
        }
    }
}

/// A request is answered with at most as many hits as it asks for, never with more than
/// `MAX_LIMIT`, and with at least one where the backends have one.
pub proof fn law_answers_are_limited(
    semantic: Seq<HitView>,
    keyword: Seq<HitView>,
    limit: Option<usize>,
)
    ensures
        1 <= search_limit(limit) <= MAX_LIMIT,
        merged_hits(semantic, keyword, search_limit(limit)).len() <= search_limit(limit),
        limit is Some && limit->0 >= 1 ==> merged_hits(
            semantic,
            keyword,
            search_limit(limit),
        ).len() <= limit->0,
        semantic.len() + keyword.len() > 0 ==> merged_hits(
            semantic,
            keyword,
            search_limit(limit),
        ).len() > 0,
{
    lemma_merged(semantic, keyword, search_limit(limit));
    if semantic.len() > 0 {
        assert(semantic.contains(semantic[0]));
        law_search_passes_over_no_better_hit(semantic, keyword, search_limit(limit), semantic[0]);
    } else if keyword.len() > 0 {
        assert(keyword.contains(keyword[0]));
        law_search_passes_over_no_better_hit(semantic, keyword, search_limit(limit), keyword[0]);
    }
}

/// A chunk that both backends find is for the same lines in both, so that it is answered
/// once. The path must be plain: the vector store gives others back with escapes.
pub proof fn law_backends_agree_on_the_lines(
    chunk: ChunkView,
    payload: Payload,
    point: ScoredPoint,
    hit: HitView,
)
    requires
        payload_of(payload, chunk),
        forall|key: Seq<char>| #[trigger]
            point_value(point, key) == payload_value(payload, key),
        is_hit_of(point, hit),
        chunk.start_line <= i64::MAX,
        chunk.end_line <= i64::MAX,
        is_plain(chunk.path),
    ensures
        same_span(hit, local_hit(chunk)),
{
    law_point_of_a_chunk_gives_it_back(chunk, payload, point, hit);
}

/// Whether the bits of one score stand for a smaller number than those of another: the first
/// is negative and the second is not, or neither is and the first has fewer bits, or both are
/// and the first has more.
pub open spec fn is_below(a: u32, b: u32) -> bool {
    ||| a >= 0x8000_0000 && b < 0x8000_0000
    ||| a < b && b < 0x8000_0000
    ||| a > b && b >= 0x8000_0000
}

/// No hit of an answer stands behind one with a smaller score, and no two have the same path,
/// the same first and the same last line.
pub proof fn law_answers_are_in_order(
    semantic: Seq<HitView>,
    keyword: Seq<HitView>,
    limit: usize,
    i: int,
    j: int,
)
    requires
        0 <= i < j < merged_hits(semantic, keyword, limit).len(),
    ensures
        ({
            let a = merged_hits(semantic, keyword, limit)[i];
            let b = merged_hits(semantic, keyword, limit)[j];
            &&& !is_below(a.score_bits, b.score_bits)
            &&& a.path != b.path || a.start_line != b.start_line || a.end_line != b.end_line
        }),
{
    law_search_answers_with_hits_of_the_backends(semantic, keyword, limit);
    let best = merged_hits(semantic, keyword, limit);
    law_rank_follows_the_numbers(best[i].score_bits, best[j].score_bits);
    law_rank_follows_the_numbers(best[j].score_bits, best[i].score_bits);
    assert(!same_span(best[i], best[j]));
}

/// Whether a list has a hit with the path and the lines of the given one whose score is not
/// smaller.
pub open spec fn stands_in(hits: Seq<HitView>, hit: HitView) -> bool {
    exists|i: int|
        0 <= i < hits.len() && (#[trigger] hits[i]).path == hit.path && hits[i].start_line
            == hit.start_line && hits[i].end_line == hit.end_line && !is_below(
            hits[i].score_bits,
            hit.score_bits,
        )
}

/// While an answer has room, it has a hit for the path and the lines of every hit of the
/// backends, and its score is not smaller. A full answer leaves out only hits whose score is
/// not larger than any in it.
pub proof fn law_hits_are_answered(
    semantic: Seq<HitView>,
    keyword: Seq<HitView>,
    limit: usize,
    hit: HitView,
)
    requires
        semantic.contains(hit) || keyword.contains(hit),
    ensures
        merged_hits(semantic, keyword, limit).len() < limit ==> stands_in(
            merged_hits(semantic, keyword, limit),
            hit,
        ),
        !stands_in(merged_hits(semantic, keyword, limit), hit) ==> forall|i: int|
            0 <= i < merged_hits(semantic, keyword, limit).len() ==> !is_below(
                (#[trigger] merged_hits(semantic, keyword, limit)[i]).score_bits,
                hit.score_bits,
            ),
{
    let best = merged_hits(semantic, keyword, limit);
    law_search_passes_over_no_better_hit(semantic, keyword, limit, hit);
    if stays_for(best, hit) {
        let i = choose|i: int|
            0 <= i < best.len() && same_span(#[trigger] best[i], hit) && score_rank(
                best[i].score_bits,
            ) >= score_rank(hit.score_bits);
        law_rank_follows_the_numbers(best[i].score_bits, hit.score_bits);
        law_rank_follows_the_numbers(hit.score_bits, best[i].score_bits);
        assert(best[i].path == hit.path && best[i].start_line == hit.start_line && best[i].end_line
            == hit.end_line && !is_below(best[i].score_bits, hit.score_bits));
    } else {
        assert forall|i: int| 0 <= i < best.len() implies !is_below(
            (#[trigger] best[i]).score_bits,
            hit.score_bits,
        ) by {
            assert(score_rank(best[i].score_bits) >= score_rank(hit.score_bits));
            law_rank_follows_the_numbers(best[i].score_bits, hit.score_bits);
        }
    }
}

/// For every hit one stays that is for the same lines.
proof fn lemma_span_stays(hits: Seq<HitView>, at: int)
    requires
        0 <= at < hits.len(),
    ensures
        has_span(deduped(hits), hits[at]),
    decreases hits.len(),
{
    let rest = hits.drop_last();
    let before = deduped(rest);
    let all = deduped(hits);
    if at < rest.len() {
        lemma_span_stays(rest, at);
        let i = choose|i: int| 0 <= i < before.len() && same_span(#[trigger] before[i], rest[at]);
        assert(all[i] == before[i]);
    } else if !has_span(before, hits.last()) {
        assert(all[before.len() as int] == hits[at]);
    }
}

/// A later hit for the same lines makes no difference.
proof fn lemma_deduped_insert(hits: Seq<HitView>, at: int, p: int, hit: HitView)
    requires
        0 <= at < p <= hits.len(),
        same_span(hits[at], hit),
    ensures
        deduped(hits.insert(p, hit)) == deduped(hits),
    decreases hits.len(),
{
    let more = hits.insert(p, hit);
    if p == hits.len() {
        assert(more.drop_last() =~= hits);
        assert(more.last() == hit);
        lemma_span_stays(hits, at);
        let before = deduped(hits);
        let i = choose|i: int| 0 <= i < before.len() && same_span(#[trigger] before[i], hits[at]);
        assert(same_span(before[i], hit));
    } else {
        lemma_deduped_insert(hits.drop_last(), at, p, hit);
        assert(more.drop_last() =~= hits.drop_last().insert(p, hit));
        assert(more.last() == hits.last());
    }
}

/// A duplicate changes nothing: a hit of the keyword index for whose path and lines there is
/// a hit already, with a score that is not smaller, leaves the answer as it is.
pub proof fn law_duplicates_change_nothing(
    semantic: Seq<HitView>,
    keyword: Seq<HitView>,
    limit: usize,
    known: HitView,
    hit: HitView,
)
    requires
        semantic.contains(known) || keyword.contains(known),
        known.path == hit.path,
        known.start_line == hit.start_line,
        known.end_line == hit.end_line,
        !is_below(known.score_bits, hit.score_bits),
    ensures
        merged_hits(semantic, keyword.push(hit), limit) == merged_hits(semantic, keyword, limit),
{
    let found = semantic + keyword;
    let more = semantic + keyword.push(hit);
    assert(more.drop_last() =~= found);
    assert(more.last() == hit);
    let sorted = ranked(found);
    lemma_place_bound(sorted, hit.score_bits);
    let p = place_for(sorted, hit.score_bits) as int;
    assert(ranked(more) == sorted.insert(p, hit));
    assert(found.contains(known)) by {
        if semantic.contains(known) {
            let k = choose|k: int| 0 <= k < semantic.len() && semantic[k] == known;
            assert(found[k] == known);
        } else {
            let k = choose|k: int| 0 <= k < keyword.len() && keyword[k] == known;
            assert(found[semantic.len() + k] == known);
        }
    }
    law_ranking_keeps_the_hits(found);
    law_ranked_hits_fall(found);
    vstd::seq_lib::to_multiset_contains(found, known);
    vstd::seq_lib::to_multiset_contains(sorted, known);
    let at = choose|at: int| 0 <= at < sorted.len() && sorted[at] == known;
    law_rank_follows_the_numbers(known.score_bits, hit.score_bits);
    law_rank_follows_the_numbers(hit.score_bits, known.score_bits);
    if p <= at {
        assert(score_rank(sorted[p].score_bits) < score_rank(hit.score_bits));
        assert(score_rank(sorted[p].score_bits) >= score_rank(sorted[at].score_bits));
    }
    lemma_deduped_insert(sorted, at, p, hit);
    assert(best_hits(ranked(more), limit) == best_hits(sorted, limit));
}

/// Hits are gone through one by one: one stays exactly when no earlier hit has its path, its
/// first and its last line.
pub proof fn law_first_hit_for_its_lines_stays(hits: Seq<HitView>, hit: HitView)
    ensures
        deduped(Seq::empty()) == Seq::<HitView>::empty(),
        (exists|i: int|
            0 <= i < hits.len() && (#[trigger] hits[i]).path == hit.path && hits[i].start_line
                == hit.start_line && hits[i].end_line == hit.end_line) ==> deduped(hits.push(hit))
            == deduped(hits),
        !(exists|i: int|
            0 <= i < hits.len() && (#[trigger] hits[i]).path == hit.path && hits[i].start_line
                == hit.start_line && hits[i].end_line == hit.end_line) ==> deduped(hits.push(hit))
            == deduped(hits).push(hit),
{
    let more = hits.push(hit);
    assert(more.drop_last() =~= hits);
    assert(more.last() == hit);
    let before = deduped(hits);
    if exists|i: int|
        0 <= i < hits.len() && (#[trigger] hits[i]).path == hit.path && hits[i].start_line
            == hit.start_line && hits[i].end_line == hit.end_line {
        let i = choose|i: int|
            0 <= i < hits.len() && (#[trigger] hits[i]).path == hit.path && hits[i].start_line
                == hit.start_line && hits[i].end_line == hit.end_line;
        lemma_span_stays(hits, i);
        let k = choose|k: int| 0 <= k < before.len() && same_span(#[trigger] before[k], hits[i]);
        assert(same_span(before[k], hit));
    } else if has_span(before, hit) {
        let k = choose|k: int| 0 <= k < before.len() && same_span(#[trigger] before[k], hit);
        lemma_deduped_contained(hits, k);
        let i = choose|i: int| 0 <= i < hits.len() && hits[i] == before[k];
        assert(hits[i].path == hit.path);
    }
}

proof fn lemma_deduped_contained(hits: Seq<HitView>, at: int)
    requires
        0 <= at < deduped(hits).len(),
    ensures
        hits.contains(deduped(hits)[at]),
    decreases hits.len(),
{
    let rest = hits.drop_last();
    let before = deduped(rest);
    if at < before.len() {
        assert(deduped(hits)[at] == before[at]);
        lemma_deduped_contained(rest, at);
        let k = choose|k: int| 0 <= k < rest.len() && rest[k] == before[at];
        assert(hits[k] == before[at]);
    } else {
        assert(hits[hits.len() - 1] == deduped(hits)[at]);
    }
}

/// An answer is the start of the hits of both backends, those of the vector store first, by
/// rank and without duplicates: as many as the limit says, and at least one.
pub proof fn law_answer_is_the_start_of_the_ranking(
    semantic: Seq<HitView>,
    keyword: Seq<HitView>,
    limit: usize,
)
    ensures
        ({
            let all = deduped(ranked(semantic + keyword));
            let room: int = if limit == 0 {
                1
            } else {
                limit as int
            };
            &&& all.len() <= room ==> merged_hits(semantic, keyword, limit) == all
            &&& all.len() > room ==> merged_hits(semantic, keyword, limit) == all.take(room)
        }),
{
}

/// Without a number a request gets up to eight hits; a number counts up to fifty, and zero
/// counts as one.
pub proof fn law_limits_of_requests(n: usize)
    ensures
        search_limit(None) == 8,
        search_limit(Some(0)) == 1,
        1 <= n <= 50 ==> search_limit(Some(n)) == n,
        n > 50 ==> search_limit(Some(n)) == 50,
{
}

/// Of a backend that answered all hits count, of one that failed none.
pub proof fn law_failed_backends_add_nothing(hits: Vec<SearchHit>, error: String, at: int)
    ensures
        hits_or_none(Ok(hits)).len() == hits@.len(),
        0 <= at < hits@.len() ==> hits_or_none(Ok(hits))[at] == hits@[at]@,
        hits_or_none(Err(error)) == Seq::<HitView>::empty(),
{
    assert(hits_or_none(Ok(hits)) == hit_views(hits@));
}

/// The description of the tool names the code base.
pub proof fn law_description_names_the_code_base(server_name: Seq<char>)
    ensures
        tool_description(server_name) == "Largescale codebase search for "@ + server_name
            + " and return snippets + path + line ranges"@,
{
}

// ---------------------------------------------------------------------------
// The address of the server
// ---------------------------------------------------------------------------

/// Slashes around the path of a URL do not matter: it is mounted with one in front.
pub proof fn law_mount_path_takes_off_slashes(
    before: Seq<char>,
    path: Seq<char>,
    after: Seq<char>,
)
    requires
        forall|i: int| 0 <= i < before.len() ==> #[trigger] before[i] == '/',
        forall|i: int| 0 <= i < after.len() ==> #[trigger] after[i] == '/',
        path.len() > 0 ==> path[0] != '/' && path.last() != '/',
    ensures
        mount_path(before + path + after) == seq!['/'] + path,
{
    reveal_strlit("/");
    let raw = before + path + after;
    law_trimming_takes_off_a_character(before, path, after, '/');
    assert("/"@ =~= seq!['/']);
    assert("/"@ + path =~= seq!['/'] + path);
    if raw.len() == 0 {
        assert(seq!['/'] + path =~= seq!['/']);
    } else if raw == "/"@ {
        assert(raw.len() == 1 && raw[0] == '/');
        if path.len() > 0 {
            assert(path[0] == raw[before.len() as int]);
        }
        assert(seq!['/'] + path =~= seq!['/']);
    }
}

/// The server listens at the host of its URL, for `http` and `https` alone: at the port that
/// the URL names, else at 80 and 443. Any other URL is refused with what is wrong with it.
pub proof fn law_server_listens_where_its_url_says(
    text: Seq<char>,
    url: UrlView,
    host: Seq<char>,
    port: u16,
)
    ensures
        server_address(text, None) == Err::<ServerUrlView, ServerUrlErrorView>(
            ServerUrlErrorView::Invalid(text),
        ),
        url.scheme != "http"@ && url.scheme != "https"@ ==> server_address(text, Some(url)) == Err::<
            ServerUrlView,
            ServerUrlErrorView,
        >(ServerUrlErrorView::UnsupportedScheme(url.scheme)),
        (url.scheme == "http"@ || url.scheme == "https"@) && url.host is None ==> server_address(
            text,
            Some(url),
        ) == Err::<ServerUrlView, ServerUrlErrorView>(ServerUrlErrorView::MissingHost),
        (url.scheme == "http"@ || url.scheme == "https"@) && url.host == Some(host) ==> {
            &&& server_address(text, Some(url)) is Ok
            &&& server_address(text, Some(url))->Ok_0.host == host
            &&& server_address(text, Some(url))->Ok_0.path == mount_path(url.path)
            &&& server_address(text, Some(url))->Ok_0.scheme == BindScheme::Http <==> url.scheme
                == "http"@
            &&& url.port == Some(port) ==> server_address(text, Some(url))->Ok_0.port == port
            &&& url.port is None && url.scheme == "http"@ ==> server_address(
                text,
                Some(url),
            )->Ok_0.port == 80
            &&& url.port is None && url.scheme == "https"@ ==> server_address(
                text,
                Some(url),
            )->Ok_0.port == 443
        },
{
    reveal_strlit("http");
    reveal_strlit("https");
    assert("http"@.len() == 4 && "https"@.len() == 5);
}

/// What is told of the address and of a URL that is refused.
pub proof fn law_address_messages(
    ip: Seq<char>,
    port: u16,
    path: Seq<char>,
    text: Seq<char>,
)
    ensures
        listening_text(BindScheme::Http, ip, port, path)
            == "MCP HTTP server listening on http://"@ + ip + seq![':'] + decimal(port as nat)
            + path,
        listening_text(BindScheme::Https, ip, port, path)
            == "MCP HTTPS server listening on https://"@ + ip + seq![':'] + decimal(port as nat)
            + path,
        server_url_message(ServerUrlErrorView::Invalid(text)) == "invalid mcp_server_url "@ + text,
        server_url_message(ServerUrlErrorView::UnsupportedScheme(text))
            == "mcp_server_url must use http or https scheme, got '"@ + text + seq!['\''],
        server_url_message(ServerUrlErrorView::MissingHost) == "mcp_server_url is missing host"@,
{
    reveal_strlit(":");
    reveal_strlit("'");
    assert(":"@ =~= seq![':']);
    assert("'"@ =~= seq!['\'']);
}

/// The server is mounted at a path that starts with `/` and, unless it is `/` itself, goes
/// on with another character and does not end with `/`; such a path is mounted as it is.
pub proof fn law_mount_path_has_one_slash_in_front(raw: Seq<char>)
    ensures
        mount_path(raw).len() > 0,
        mount_path(raw)[0] == '/',
        mount_path(raw).len() > 1 ==> mount_path(raw)[1] != '/' && mount_path(raw).last() != '/',
        mount_path(mount_path(raw)) == mount_path(raw),
{
    reveal_strlit("/");
    let class = CharClass::One('/');
    let inner = trim_class(raw, class);
    let path = mount_path(raw);
    law_trim_is_final(raw, class);
    if path.len() > 1 {
        assert(path =~= seq!['/'] + inner);
        assert(path[1] == inner[0]);
        assert(path.last() == inner.last());
        assert(path.drop_first() =~= inner);
        assert(trim_start_class(inner, class) == inner);
        assert(trim_start_class(path, class) == inner);
        assert(trim_end_class(inner, class) == inner);
        assert(path != "/"@);
    } else {
        assert(path =~= "/"@);
    }
}

} // verus!
