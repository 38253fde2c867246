//! Hybrid retrieval: two ways of searching nominate passages, their ranks are fused, and a
//! cross-encoder may score the fused pool anew.

use vstd::prelude::*;
use vstd::slice::slice_subrange;

use crate::config::{DEFAULT_K, HYBRID_CANDIDATES};
use crate::score::{
    best, descending, fuse_one, fuse_two, fused, push_two_decimals, ranked, ranking_sorts,
    take_best, two_decimals, Score,
};
use crate::store::{
    candidates, candidates_are_in_scope, chunk_data, file_names, in_scope, scope_names, stats_of,
    strange_scope_has_no_candidates, Chunk, ChunkData, Index,
};
use crate::text::{
    contains_text, decimal, ends_with, join_strings, joined, occurs_at, owned, push_decimal,
    push_signed, signed_decimal, starts_with, strings, trim, trimmed,
};
use crate::text_map::{lemma_ordered_names, names_of, ordered_names};

verus! {

/// How many passages a question gets where nothing else is said.
pub const DEFAULT_RESULTS: usize = DEFAULT_K;

/// A passage that was found.
#[derive(Debug)]
pub struct SearchResult {
    /// The id of the chunk, so that a citation lands on the exact passage.
    pub id: String,
    pub score: Score,
    /// "rerank" where a cross-encoder scored the pool, "rrf" for fused ranks only.
    pub score_kind: &'static str,
    pub filename: String,
    pub page: i32,
    pub text: String,
    /// A vision model's description of a figure, and no printed text.
    pub figure: bool,
}

#[verifier::ext_equal]
pub struct ResultData {
    pub id: Seq<char>,
    pub score: Score,
    pub score_kind: Seq<char>,
    pub filename: Seq<char>,
    pub page: i32,
    pub text: Seq<char>,
    pub figure: bool,
}

impl View for SearchResult {
    type V = ResultData;

    open spec fn view(&self) -> ResultData {
        ResultData {
            id: self.id@,
            score: self.score,
            score_kind: self.score_kind@,
            filename: self.filename@,
            page: self.page,
            text: self.text@,
            figure: self.figure,
        }
    }
}

/// Passages have the same contents exactly when all their parts are the same.
pub proof fn contents_tell_passages_apart(a: SearchResult, b: SearchResult)
    ensures
        a@ == b@ <==> a.id@ == b.id@ && a.score == b.score && a.score_kind@ == b.score_kind@
            && a.filename@ == b.filename@ && a.page == b.page && a.text@ == b.text@ && a.figure
            == b.figure,
{
}

/// The contents of a list of passages.
pub open spec fn result_data(results: Seq<SearchResult>) -> Seq<ResultData> {
    Seq::new(results.len(), |i: int| results[i]@)
}

// ---------------------------------------------------------------------------------------------
// Fusion

/// The first rank, from `from` on, at which a list has the chunk.
pub open spec fn rank_from(list: Seq<(usize, Score)>, chunk: usize, from: int) -> Option<nat>
    decreases list.len() - from,
{
    if from >= list.len() {
        None
    } else if list[from].0 == chunk {
        Some(from as nat)
    } else {
        rank_from(list, chunk, from + 1)
    }
}

/// The rank of a chunk in a list.
pub open spec fn rank_in(list: Seq<(usize, Score)>, chunk: usize) -> Option<nat> {
    rank_from(list, chunk, 0)
}

/// A chunk with its fused score.
pub open spec fn fused_entry(
    dense: Seq<(usize, Score)>,
    lexical: Seq<(usize, Score)>,
    chunk: usize,
) -> (usize, Score) {
    (chunk, Score { bits: fused(rank_in(dense, chunk), rank_in(lexical, chunk)) as u32 })
}

/// The chunks among the first `end` of the lexical list that the dense list does not have.
pub open spec fn lexical_only(
    dense: Seq<(usize, Score)>,
    lexical: Seq<(usize, Score)>,
    end: int,
) -> Seq<(usize, Score)>
    decreases end,
{
    if end <= 0 {
        Seq::empty()
    } else {
        let front = lexical_only(dense, lexical, end - 1);
        let chunk = lexical[end - 1].0;
        if rank_in(dense, chunk) is None {
            front.push(fused_entry(dense, lexical, chunk))
        } else {
            front
        }
    }
}

/// All nominated chunks with their fused scores: those of the dense list in its order, then those
/// that only the lexical list has.
pub open spec fn nominated(
    dense: Seq<(usize, Score)>,
    lexical: Seq<(usize, Score)>,
) -> Seq<(usize, Score)> {
    Seq::new(dense.len(), |i: int| fused_entry(dense, lexical, dense[i].0)) + lexical_only(
        dense,
        lexical,
        lexical.len() as int,
    )
}

/// No chunk occurs twice.
pub open spec fn distinct(list: Seq<(usize, Score)>) -> bool {
    forall|i: int, j: int|
        0 <= i < j < list.len() ==> (#[trigger] list[i]).0 != (#[trigger] list[j]).0
}

proof fn lemma_rank_from(list: Seq<(usize, Score)>, chunk: usize, from: int)
    requires
        0 <= from,
    ensures
        rank_from(list, chunk, from) matches Some(k) ==> from <= k < list.len() && list[k as int].0
            == chunk,
        rank_from(list, chunk, from) is None ==> forall|i: int|
            from <= i < list.len() ==> (#[trigger] list[i]).0 != chunk,
    decreases list.len() - from,
{
    if from < list.len() && list[from].0 != chunk {
        lemma_rank_from(list, chunk, from + 1);
    }
}

proof fn lemma_own_rank(list: Seq<(usize, Score)>, i: int)
    requires
        distinct(list),
        0 <= i < list.len(),
    ensures
        rank_in(list, list[i].0) == Some(i as nat),
{
    lemma_rank_from(list, list[i].0, 0);
    match rank_in(list, list[i].0) {
        Some(k) => {
            if k != i {
                if k < i {
                    assert(list[k as int].0 != list[i].0);
                } else {
                    assert(list[i].0 != list[k as int].0);
                }
            }
        },
        None => {
            assert(list[i].0 != list[i].0);
        },
    }
}

fn rank_of(list: &[(usize, Score)], chunk: usize) -> (r: Option<usize>)
    ensures
        match r {
            Some(k) => rank_in(list@, chunk) == Some(k as nat) && k < list@.len(),
            None => rank_in(list@, chunk) is None,
        },
{
    let mut i: usize = 0;
    while i < list.len()
        invariant
            i <= list.len(),
            rank_from(list@, chunk, i as int) == rank_in(list@, chunk),
        decreases list.len() - i,
    {
        if list[i].0 == chunk {
            return Some(i);
        }
        i += 1;
    }
    None
}

/// Reciprocal rank fusion: the chunks of both lists, each with a score that depends on its ranks
/// alone, from the highest score down.
pub fn fuse(dense: &[(usize, Score)], lexical: &[(usize, Score)]) -> (r: Vec<(usize, Score)>)
    requires
        distinct(dense@),
        distinct(lexical@),
        dense@.len() <= HYBRID_CANDIDATES,
        lexical@.len() <= HYBRID_CANDIDATES,
    ensures
        r@ == ranked(nominated(dense@, lexical@)),
{
    let mut pool: Vec<(usize, Score)> = Vec::new();
    let ghost firsts = Seq::new(
        dense@.len(),
        |i: int| fused_entry(dense@, lexical@, dense@[i].0),
    );
    let mut i: usize = 0;
    while i < dense.len()
        invariant
            i <= dense.len(),
            distinct(dense@),
            dense@.len() <= HYBRID_CANDIDATES,
            lexical@.len() <= HYBRID_CANDIDATES,
            firsts == Seq::new(
                dense@.len(),
                |i: int| fused_entry(dense@, lexical@, dense@[i].0),
            ),
            pool@ == firsts.take(i as int),
        decreases dense.len() - i,
    {
        let chunk: usize = dense[i].0;
        proof {
            lemma_own_rank(dense@, i as int);
        }
        let score = match rank_of(lexical, chunk) {
            Some(k) => fuse_two(i as u32, k as u32),
            None => fuse_one(i as u32),
        };
        pool.push((chunk, score));
        assert(pool@ =~= firsts.take(i + 1));
        i += 1;
    }
    assert(pool@ =~= firsts);
    let mut j: usize = 0;
    while j < lexical.len()
        invariant
            j <= lexical.len(),
            distinct(lexical@),
            lexical@.len() <= HYBRID_CANDIDATES,
            pool@ == firsts + lexical_only(dense@, lexical@, j as int),
        decreases lexical.len() - j,
    {
        let chunk: usize = lexical[j].0;
        let ghost before = lexical_only(dense@, lexical@, j as int);
        if rank_of(dense, chunk).is_none() {
            proof {
                lemma_own_rank(lexical@, j as int);
            }
            pool.push((chunk, fuse_one(j as u32)));
            assert(pool@ =~= firsts + before.push(fused_entry(dense@, lexical@, chunk)));
        }
        j += 1;
    }
    let count: usize = pool.len();
    let out = take_best(pool.as_slice(), count);
    proof {
        ranking_sorts(pool@);
    }
    out
}

// ---------------------------------------------------------------------------------------------
// Searching

/// How many candidates each way of searching nominates.
pub open spec fn nomination_limit(chunks: nat) -> int {
    if chunks < HYBRID_CANDIDATES {
        chunks as int
    } else {
        HYBRID_CANDIDATES as int
    }
}

/// Each way of searching nominates 20 chunks, or all where there are fewer.
pub proof fn twenty_are_nominated(chunks: nat)
    ensures
        nomination_limit(chunks) <= 20,
        chunks <= 20 ==> nomination_limit(chunks) == chunks,
        chunks >= 20 ==> nomination_limit(chunks) == 20,
{
}

/// The chunks that are nominated by their scores.
pub open spec fn nominees(
    chunks: Seq<ChunkData>,
    scores: Seq<Score>,
    scope: Option<Seq<Seq<char>>>,
    positive: bool,
) -> Seq<(usize, Score)> {
    best(
        candidates(chunks, scores, scope, positive, chunks.len() as int),
        nomination_limit(chunks.len()),
    )
}

/// The fused pool of a search, from the highest score down.
pub open spec fn search_pool(
    chunks: Seq<ChunkData>,
    similarities: Seq<Score>,
    lexical: Seq<Score>,
    scope: Option<Seq<Seq<char>>>,
) -> Seq<(usize, Score)> {
    ranked(
        nominated(
            nominees(chunks, similarities, scope, false),
            nominees(chunks, lexical, scope, true),
        ),
    )
}

/// The first `k` items.
pub open spec fn first<T>(list: Seq<T>, k: int) -> Seq<T> {
    if k < list.len() {
        list.take(k)
    } else {
        list
    }
}

/// The first of what is ranked are the best of it.
pub proof fn the_first_of_the_ranked_are_the_best(list: Seq<(usize, Score)>, k: int)
    requires
        0 <= k,
    ensures
        first(ranked(list), k) == best(list, k),
        first(list, k) == list.take(first(list, k).len() as int),
        first(list, k).len() == (if k < list.len() {
            k
        } else {
            list.len() as int
        }),
{
    assert(list.take(list.len() as int) =~= list);
}

/// The passages that the scored chunks stand for.
pub open spec fn passages(
    chunks: Seq<ChunkData>,
    scored: Seq<(usize, Score)>,
    kind: Seq<char>,
) -> Seq<ResultData> {
    Seq::new(
        scored.len(),
        |i: int|
            {
                let c = chunks[scored[i].0 as int];
                ResultData {
                    id: c.id,
                    score: scored[i].1,
                    score_kind: kind,
                    filename: c.filename,
                    page: c.page,
                    text: c.text,
                    figure: c.figure,
                }
            },
    )
}

/// The chunks of a pool, without their scores.
pub open spec fn pool_chunks(pool: Seq<(usize, Score)>) -> Seq<usize> {
    Seq::new(pool.len(), |i: int| pool[i].0)
}

/// The chunks of a pool with new scores.
pub open spec fn rescored(pool: Seq<usize>, scores: Seq<Score>) -> Seq<(usize, Score)> {
    Seq::new(pool.len(), |i: int| (pool[i], scores[i]))
}

/// What a search comes to.
#[derive(Debug)]
pub enum SearchStep {
    /// The passages, where fused ranks are all there is to go by.
    Finished(Vec<SearchResult>),
    /// The chunks of the fused pool, whose texts a cross-encoder scores next.
    Rerank(Vec<usize>),
}

proof fn lemma_from_candidates(
    chunks: Seq<ChunkData>,
    scores: Seq<Score>,
    scope: Option<Seq<Seq<char>>>,
    positive: bool,
)
    requires
        scores.len() == chunks.len(),
        chunks.len() <= usize::MAX,
    ensures
        ({
            let list = nominees(chunks, scores, scope, positive);
            &&& list.len() <= HYBRID_CANDIDATES
            &&& distinct(list)
            &&& forall|i: int|
                #![trigger list[i]]
                0 <= i < list.len() ==> list[i].0 < chunks.len() && in_scope(
                    chunks[list[i].0 as int].filename,
                    scope,
                )
        }),
{
    let found = candidates(chunks, scores, scope, positive, chunks.len() as int);
    let all = ranked(found);
    let list = nominees(chunks, scores, scope, positive);
    candidates_are_in_scope(chunks, scores, scope, positive, chunks.len() as int);
    ranking_sorts(found);
    lemma_ranked_members(found);
    assert(list.len() <= nomination_limit(chunks.len()));
    assert forall|i: int, j: int| 0 <= i < j < list.len() implies (#[trigger] list[i]).0 != (
    #[trigger] list[j]).0 by {
        assert(list[i] == all[i] && list[j] == all[j]);
    }
    assert forall|i: int|
        #![trigger list[i]]
        0 <= i < list.len() implies list[i].0 < chunks.len() && in_scope(
        chunks[list[i].0 as int].filename,
        scope,
    ) by {
        assert(list[i] == all[i]);
        let k = choose|k: int| 0 <= k < found.len() && found[k] == all[i];
        assert(found[k].0 < chunks.len());
    }
}

/// Ranking adds nothing and keeps chunks apart.
proof fn lemma_ranked_members(list: Seq<(usize, Score)>)
    ensures
        forall|i: int|
            0 <= i < ranked(list).len() ==> exists|k: int|
                0 <= k < list.len() && list[k] == #[trigger] ranked(list)[i],
        distinct(list) ==> distinct(ranked(list)),
    decreases list.len(),
{
    if list.len() > 0 {
        let front = list.drop_last();
        let x = list.last();
        lemma_ranked_members(front);
        ranking_sorts(front);
        let inner = ranked(front);
        let k = crate::score::slot(inner, x.1.place());
        crate::score::lemma_slot(inner, x.1.place());
        let out = inner.insert(k, x);
        assert(out == ranked(list));
        assert forall|i: int| 0 <= i < out.len() implies exists|m: int|
            0 <= m < list.len() && list[m] == #[trigger] out[i] by {
            if i == k {
                assert(list[list.len() - 1] == out[i]);
            } else {
                let a = if i < k {
                    i
                } else {
                    i - 1
                };
                assert(out[i] == inner[a]);
                let m = choose|m: int| 0 <= m < front.len() && front[m] == inner[a];
                assert(list[m] == out[i]);
            }
        }
        if distinct(list) {
            assert(distinct(front)) by {
                assert forall|i: int, j: int| 0 <= i < j < front.len() implies (
                #[trigger] front[i]).0 != (#[trigger] front[j]).0 by {
                    assert(front[i] == list[i] && front[j] == list[j]);
                }
            }
            assert forall|i: int| 0 <= i < inner.len() implies (#[trigger] inner[i]).0 != x.0 by {
                let m = choose|m: int| 0 <= m < front.len() && front[m] == inner[i];
                assert(list[m] == inner[i]);
                assert(list[m].0 != list[list.len() - 1].0);
            }
            assert forall|i: int, j: int| 0 <= i < j < out.len() implies (#[trigger] out[i]).0 != (
            #[trigger] out[j]).0 by {
                if i < k {
                    assert(out[i] == inner[i]);
                } else if i > k {
                    assert(out[i] == inner[i - 1]);
                }
                if j < k {
                    assert(out[j] == inner[j]);
                } else if j > k {
                    assert(out[j] == inner[j - 1]);
                }
            }
        }
    }
}

proof fn lemma_lexical_only(
    dense: Seq<(usize, Score)>,
    lexical: Seq<(usize, Score)>,
    end: int,
)
    requires
        0 <= end <= lexical.len(),
    ensures
        ({
            let list = lexical_only(dense, lexical, end);
            &&& list.len() <= end
            &&& forall|i: int|
                0 <= i < list.len() ==> rank_in(dense, (#[trigger] list[i]).0) is None && exists|
                    k: int,
                |
                    0 <= k < end && (#[trigger] lexical[k]).0 == list[i].0
            &&& distinct(lexical) ==> distinct(list)
        }),
    decreases end,
{
    if end > 0 {
        lemma_lexical_only(dense, lexical, end - 1);
        let front = lexical_only(dense, lexical, end - 1);
        let list = lexical_only(dense, lexical, end);
        assert forall|i: int| 0 <= i < list.len() implies rank_in(dense, (#[trigger] list[i]).0) is None
            && exists|k: int| 0 <= k < end && (#[trigger] lexical[k]).0 == list[i].0 by {
            if i < front.len() {
                assert(list[i] == front[i]);
                let k = choose|k: int| 0 <= k < end - 1 && (#[trigger] lexical[k]).0 == front[i].0;
                assert(lexical[k].0 == list[i].0);
            } else {
                assert(lexical[end - 1].0 == list[i].0);
            }
        }
        if distinct(lexical) {
            assert forall|i: int, j: int| 0 <= i < j < list.len() implies (#[trigger] list[i]).0 != (
            #[trigger] list[j]).0 by {
                assert(list[i] == front[i]);
                if j < front.len() {
                    assert(list[j] == front[j]);
                } else {
                    let k = choose|k: int|
                        0 <= k < end - 1 && (#[trigger] lexical[k]).0 == front[i].0;
                    assert(lexical[k].0 != lexical[end - 1].0);
                }
            }
        }
    }
}

/// The pool holds each nominated chunk once, and nothing from outside the scope.
pub proof fn pool_stays_in_scope(
    chunks: Seq<ChunkData>,
    similarities: Seq<Score>,
    lexical: Seq<Score>,
    scope: Option<Seq<Seq<char>>>,
)
    requires
        similarities.len() == chunks.len(),
        lexical.len() == chunks.len(),
        chunks.len() <= usize::MAX,
    ensures
        ({
            let pool = search_pool(chunks, similarities, lexical, scope);
            &&& pool.len() <= 2 * HYBRID_CANDIDATES
            &&& descending(pool)
            &&& distinct(pool)
            &&& forall|i: int|
                #![trigger pool[i]]
                0 <= i < pool.len() ==> pool[i].0 < chunks.len() && in_scope(
                    chunks[pool[i].0 as int].filename,
                    scope,
                )
        }),
{
    let a = nominees(chunks, similarities, scope, false);
    let b = nominees(chunks, lexical, scope, true);
    lemma_from_candidates(chunks, similarities, scope, false);
    lemma_from_candidates(chunks, lexical, scope, true);
    let all = nominated(a, b);
    let rest = lexical_only(a, b, b.len() as int);
    lemma_lexical_only(a, b, b.len() as int);
    ranking_sorts(all);
    lemma_ranked_members(all);
    assert forall|i: int, j: int| 0 <= i < j < all.len() implies (#[trigger] all[i]).0 != (
    #[trigger] all[j]).0 by {
        if j < a.len() {
            assert(all[i].0 == a[i].0 && all[j].0 == a[j].0);
        } else if i >= a.len() {
            assert(all[i] == rest[i - a.len()] && all[j] == rest[j - a.len()]);
        } else {
            assert(all[j] == rest[j - a.len()]);
            lemma_rank_from(a, all[j].0, 0);
            assert(a[i].0 != all[j].0);
        }
    }
    let pool = search_pool(chunks, similarities, lexical, scope);
    assert forall|i: int|
        #![trigger pool[i]]
        0 <= i < pool.len() implies pool[i].0 < chunks.len() && in_scope(
        chunks[pool[i].0 as int].filename,
        scope,
    ) by {
        let k = choose|k: int| 0 <= k < all.len() && all[k] == pool[i];
        if k < a.len() {
            assert(all[k].0 == a[k].0);
        } else {
            assert(all[k] == rest[k - a.len()]);
            let m = choose|m: int|
                0 <= m < b.len() && (#[trigger] b[m]).0 == rest[k - a.len()].0;
            assert(b[m].0 < chunks.len());
        }
    }
}

/// How many of the chunks before `end` are in scope.
pub open spec fn scope_size(
    chunks: Seq<ChunkData>,
    scope: Option<Seq<Seq<char>>>,
    end: int,
) -> nat
    decreases end,
{
    if end <= 0 {
        0
    } else {
        scope_size(chunks, scope, end - 1) + (if in_scope(chunks[end - 1].filename, scope) {
            1nat
        } else {
            0nat
        })
    }
}

/// Without a condition on the score, every chunk in scope is a candidate.
proof fn lemma_all_in_scope(
    chunks: Seq<ChunkData>,
    scores: Seq<Score>,
    scope: Option<Seq<Seq<char>>>,
    end: int,
)
    requires
        0 <= end <= chunks.len() <= usize::MAX,
    ensures
        ({
            let list = candidates(chunks, scores, scope, false, end);
            &&& list.len() == scope_size(chunks, scope, end) <= end
            &&& forall|c: int|
                0 <= c < end && in_scope((#[trigger] chunks[c]).filename, scope)
                    ==> list.contains((c as usize, scores[c]))
        }),
    decreases end,
{
    if end > 0 {
        lemma_all_in_scope(chunks, scores, scope, end - 1);
        let front = candidates(chunks, scores, scope, false, end - 1);
        let list = candidates(chunks, scores, scope, false, end);
        assert forall|c: int|
            0 <= c < end && in_scope((#[trigger] chunks[c]).filename, scope) implies list.contains(
            (c as usize, scores[c]),
        ) by {
            if c < end - 1 {
                let i = choose|i: int| 0 <= i < front.len() && front[i] == (c as usize, scores[c]);
                assert(list[i] == (c as usize, scores[c]));
            } else {
                assert(list[list.len() - 1] == (c as usize, scores[c]));
            }
        }
    }
}

proof fn lemma_ranked_keeps(list: Seq<(usize, Score)>, x: (usize, Score))
    requires
        list.contains(x),
    ensures
        ranked(list).contains(x),
{
    broadcast use vstd::seq_lib::group_to_multiset_ensures;

    ranking_sorts(list);
    assert(list.to_multiset().count(x) > 0);
    assert(ranked(list).to_multiset().count(x) > 0);
}

proof fn lemma_none_only_lexical(
    dense: Seq<(usize, Score)>,
    lexical: Seq<(usize, Score)>,
    end: int,
)
    requires
        0 <= end <= lexical.len(),
        forall|i: int| 0 <= i < lexical.len() ==> rank_in(dense, (#[trigger] lexical[i]).0) is Some,
    ensures
        lexical_only(dense, lexical, end).len() == 0,
    decreases end,
{
    if end > 0 {
        lemma_none_only_lexical(dense, lexical, end - 1);
        assert(rank_in(dense, lexical[end - 1].0) is Some);
    }
}

/// A question with a scope still gets its passages: the pool holds every chunk in scope where there
/// are fewer than `HYBRID_CANDIDATES`, and at least that many where there are more. Up to that
/// number, `k` passages come back, or all in scope where there are fewer, whether or not the pool is
/// scored anew.
pub proof fn scoped_questions_get_their_passages(
    chunks: Seq<ChunkData>,
    similarities: Seq<Score>,
    lexical: Seq<Score>,
    scope: Option<Seq<Seq<char>>>,
    scores: Seq<Score>,
    k: int,
    kind: Seq<char>,
)
    requires
        similarities.len() == chunks.len(),
        lexical.len() == chunks.len(),
        chunks.len() <= usize::MAX,
        scores.len() == search_pool(chunks, similarities, lexical, scope).len(),
        0 <= k,
    ensures
        ({
            let m = scope_size(chunks, scope, chunks.len() as int);
            let pool = search_pool(chunks, similarities, lexical, scope);
            let anew = ranked(rescored(pool_chunks(pool), scores));
            let wanted = if k < m {
                k
            } else {
                m as int
            };
            &&& m < HYBRID_CANDIDATES ==> pool.len() == m
            &&& m >= HYBRID_CANDIDATES ==> pool.len() >= HYBRID_CANDIDATES
            &&& k <= HYBRID_CANDIDATES || m < HYBRID_CANDIDATES ==> passages(
                chunks,
                first(pool, k),
                kind,
            ).len() == wanted && passages(chunks, first(anew, k), kind).len() == wanted
        }),
{
    let n = chunks.len() as int;
    let m = scope_size(chunks, scope, n);
    let found = candidates(chunks, similarities, scope, false, n);
    let a = nominees(chunks, similarities, scope, false);
    let b = nominees(chunks, lexical, scope, true);
    let all = nominated(a, b);
    lemma_all_in_scope(chunks, similarities, scope, n);
    ranking_sorts(found);
    ranking_sorts(all);
    if m < HYBRID_CANDIDATES {
        assert(a == ranked(found));
        lemma_from_candidates(chunks, lexical, scope, true);
        assert forall|i: int| 0 <= i < b.len() implies rank_in(a, (#[trigger] b[i]).0) is Some by {
            let c = b[i].0 as int;
            assert(in_scope(chunks[c].filename, scope));
            let x = (c as usize, similarities[c]);
            lemma_ranked_keeps(found, x);
            let j = choose|j: int| 0 <= j < a.len() && a[j] == x;
            lemma_rank_from(a, b[i].0, 0);
            assert(a[j].0 == b[i].0);
        }
        lemma_none_only_lexical(a, b, b.len() as int);
    }
    let pool = search_pool(chunks, similarities, lexical, scope);
    ranking_sorts(rescored(pool_chunks(pool), scores));
}

/// The pool holds what either way of searching nominates and nothing else, each with the score that
/// its ranks in the two lists give. Each list has the best of its own scores: the similarities of
/// all chunks in scope, and the lexical scores over zero.
pub proof fn the_pool_holds_the_best_of_both(
    chunks: Seq<ChunkData>,
    similarities: Seq<Score>,
    lexical: Seq<Score>,
    scope: Option<Seq<Seq<char>>>,
)
    requires
        similarities.len() == chunks.len(),
        lexical.len() == chunks.len(),
        chunks.len() <= usize::MAX,
    ensures
        ({
            let n = chunks.len() as int;
            let limit = if n < HYBRID_CANDIDATES {
                n
            } else {
                HYBRID_CANDIDATES as int
            };
            let a = best(candidates(chunks, similarities, scope, false, n), limit);
            let b = best(candidates(chunks, lexical, scope, true, n), limit);
            let pool = search_pool(chunks, similarities, lexical, scope);
            &&& forall|i: int|
                0 <= i < a.len() ==> pool.contains(
                    (
                        (#[trigger] a[i]).0,
                        Score { bits: fused(Some(i as nat), rank_in(b, a[i].0)) as u32 },
                    ),
                )
            &&& forall|i: int|
                0 <= i < b.len() ==> pool.contains(
                    (
                        (#[trigger] b[i]).0,
                        Score { bits: fused(rank_in(a, b[i].0), Some(i as nat)) as u32 },
                    ),
                )
            &&& forall|k: int|
                0 <= k < pool.len() ==> rank_in(a, (#[trigger] pool[k]).0) is Some || rank_in(
                    b,
                    pool[k].0,
                ) is Some
        }),
{
    let a = nominees(chunks, similarities, scope, false);
    let b = nominees(chunks, lexical, scope, true);
    let all = nominated(a, b);
    let rest = lexical_only(a, b, b.len() as int);
    let pool = search_pool(chunks, similarities, lexical, scope);
    lemma_from_candidates(chunks, similarities, scope, false);
    lemma_from_candidates(chunks, lexical, scope, true);
    lemma_lexical_only(a, b, b.len() as int);
    lemma_ranked_members(all);
    assert forall|i: int| 0 <= i < a.len() implies pool.contains(
        (
            (#[trigger] a[i]).0,
            Score { bits: fused(Some(i as nat), rank_in(b, a[i].0)) as u32 },
        ),
    ) by {
        lemma_own_rank(a, i);
        assert(all[i] == fused_entry(a, b, a[i].0));
        lemma_ranked_keeps(all, all[i]);
    }
    assert forall|i: int| 0 <= i < b.len() implies pool.contains(
        (
            (#[trigger] b[i]).0,
            Score { bits: fused(rank_in(a, b[i].0), Some(i as nat)) as u32 },
        ),
    ) by {
        lemma_own_rank(b, i);
        let c = b[i].0;
        lemma_rank_from(a, c, 0);
        match rank_in(a, c) {
            Some(k) => {
                assert(all[k as int] == fused_entry(a, b, c));
                lemma_ranked_keeps(all, all[k as int]);
            },
            None => {
                lemma_lexical_only_keeps(a, b, b.len() as int, i);
                let k = choose|k: int| 0 <= k < rest.len() && rest[k] == fused_entry(a, b, c);
                assert(all[a.len() + k] == fused_entry(a, b, c));
                lemma_ranked_keeps(all, all[a.len() + k]);
            },
        }
    }
    assert forall|k: int| 0 <= k < pool.len() implies rank_in(a, (#[trigger] pool[k]).0) is Some
        || rank_in(b, pool[k].0) is Some by {
        let m = choose|m: int| 0 <= m < all.len() && all[m] == pool[k];
        if m < a.len() {
            lemma_own_rank(a, m);
            assert(all[m].0 == a[m].0);
        } else {
            assert(all[m] == rest[m - a.len()]);
            let j = choose|j: int| 0 <= j < b.len() && (#[trigger] b[j]).0 == rest[m - a.len()].0;
            lemma_own_rank(b, j);
        }
    }
}

proof fn lemma_lexical_only_keeps(
    dense: Seq<(usize, Score)>,
    lexical: Seq<(usize, Score)>,
    end: int,
    i: int,
)
    requires
        0 <= i < end <= lexical.len(),
        rank_in(dense, lexical[i].0) is None,
    ensures
        lexical_only(dense, lexical, end).contains(fused_entry(dense, lexical, lexical[i].0)),
    decreases end,
{
    let front = lexical_only(dense, lexical, end - 1);
    let list = lexical_only(dense, lexical, end);
    let x = fused_entry(dense, lexical, lexical[i].0);
    if i == end - 1 {
        assert(list[list.len() - 1] == x);
    } else {
        lemma_lexical_only_keeps(dense, lexical, end - 1, i);
        let k = choose|k: int| 0 <= k < front.len() && front[k] == x;
        assert(list[k] == x);
    }
}

/// The rank of a chunk is the first position at which a list has it.
pub proof fn ranks_are_positions(list: Seq<(usize, Score)>, chunk: usize)
    ensures
        rank_in(list, chunk) matches Some(k) ==> k < list.len() && list[k as int].0 == chunk
            && forall|i: int| 0 <= i < k ==> (#[trigger] list[i]).0 != chunk,
        rank_in(list, chunk) is None ==> forall|i: int|
            0 <= i < list.len() ==> (#[trigger] list[i]).0 != chunk,
{
    lemma_first_rank(list, chunk, 0);
}

proof fn lemma_first_rank(list: Seq<(usize, Score)>, chunk: usize, from: int)
    requires
        0 <= from,
    ensures
        rank_from(list, chunk, from) matches Some(k) ==> from <= k < list.len() && list[k as int].0
            == chunk && forall|i: int| from <= i < k ==> (#[trigger] list[i]).0 != chunk,
        rank_from(list, chunk, from) is None ==> forall|i: int|
            from <= i < list.len() ==> (#[trigger] list[i]).0 != chunk,
    decreases list.len() - from,
{
    if from < list.len() && list[from].0 != chunk {
        lemma_first_rank(list, chunk, from + 1);
    }
}

/// Names are matched in full: a scope that names none of the documents grounds against nothing, and
/// so does a scope without names.
pub proof fn strange_scope_finds_nothing(
    chunks: Seq<ChunkData>,
    similarities: Seq<Score>,
    lexical: Seq<Score>,
    names: Seq<Seq<char>>,
)
    requires
        forall|i: int| 0 <= i < chunks.len() ==> !names.contains((#[trigger] chunks[i]).filename),
    ensures
        search_pool(chunks, similarities, lexical, Some(names)).len() == 0,
{
    let none = Some(names);
    strange_scope_has_no_candidates(chunks, similarities, names, false, chunks.len() as int);
    strange_scope_has_no_candidates(chunks, lexical, names, true, chunks.len() as int);
    let a = candidates(chunks, similarities, none, false, chunks.len() as int);
    let b = candidates(chunks, lexical, none, true, chunks.len() as int);
    assert(a =~= Seq::empty());
    assert(b =~= Seq::empty());
    let all = nominated(
        nominees(chunks, similarities, none, false),
        nominees(chunks, lexical, none, true),
    );
    assert(all.len() == 0);
}

fn collect(chunks: &[Chunk], scored: &[(usize, Score)], kind: &'static str) -> (r: Vec<SearchResult>)
    requires
        forall|i: int| 0 <= i < scored@.len() ==> (#[trigger] scored@[i]).0 < chunks@.len(),
    ensures
        result_data(r@) == passages(chunk_data(chunks@), scored@, kind@),
        r@.len() == scored@.len(),
        forall|i: int|
            #![trigger r@[i]]
            0 <= i < r@.len() ==> {
                let c = chunks@[scored@[i].0 as int];
                &&& r@[i].id@ == c.id@
                &&& r@[i].filename@ == c.filename@
                &&& r@[i].page == c.page
                &&& r@[i].text@ == c.text@
                &&& r@[i].figure == c.figure
                &&& r@[i].score == scored@[i].1
                &&& r@[i].score_kind@ == kind@
            },
{
    let ghost all = passages(chunk_data(chunks@), scored@, kind@);
    let mut out: Vec<SearchResult> = Vec::new();
    let mut i: usize = 0;
    while i < scored.len()
        invariant
            i <= scored.len(),
            forall|i: int| 0 <= i < scored@.len() ==> (#[trigger] scored@[i]).0 < chunks@.len(),
            all == passages(chunk_data(chunks@), scored@, kind@),
            result_data(out@) == all.take(i as int),
            out@.len() == i,
            forall|j: int|
                #![trigger out@[j]]
                0 <= j < i ==> {
                    let c = chunks@[scored@[j].0 as int];
                    &&& out@[j].id@ == c.id@
                    &&& out@[j].filename@ == c.filename@
                    &&& out@[j].page == c.page
                    &&& out@[j].text@ == c.text@
                    &&& out@[j].figure == c.figure
                    &&& out@[j].score == scored@[j].1
                    &&& out@[j].score_kind@ == kind@
                },
        decreases scored.len() - i,
    {
        assert(scored@[i as int].0 < chunks@.len());
        let chunk = &chunks[scored[i].0];
        let ghost before = result_data(out@);
        let result = SearchResult {
            id: chunk.id.clone(),
            score: scored[i].1,
            score_kind: kind,
            filename: chunk.filename.clone(),
            page: chunk.page,
            text: chunk.text.clone(),
            figure: chunk.figure,
        };
        out.push(result);
        assert(result_data(out@) =~= before.push(result@));
        assert(result@ == all[i as int]);
        assert(result_data(out@) =~= all.take(i + 1));
        i += 1;
    }
    assert(result_data(out@) =~= all);
    out
}

/// Searches an index, given the similarity and the lexical score of every chunk for the question.
/// `scope` narrows the candidates to a set of documents before anything is ranked, so that a scoped
/// question still gets its `k` passages.
pub fn search(
    index: &Index,
    similarities: &[Score],
    lexical: &[Score],
    reranking: bool,
    k: usize,
    scope: Option<&[String]>,
) -> (r: SearchStep)
    requires
        similarities@.len() == index.chunks@.len(),
        lexical@.len() == index.chunks@.len(),
    ensures
        ({
            let chunks = chunk_data(index.chunks@);
            let pool = search_pool(chunks, similarities@, lexical@, scope_names(scope));
            match r {
                SearchStep::Finished(results) => (pool.len() == 0 || !reranking) && result_data(
                    results@,
                ) == passages(chunks, first(pool, k as int), "rrf"@),
                SearchStep::Rerank(list) => pool.len() > 0 && reranking && list@ == pool_chunks(
                    pool,
                ),
            }
        }),
        r matches SearchStep::Rerank(list) ==> forall|i: int|
            0 <= i < list@.len() ==> #[trigger] list@[i] < index.chunks@.len(),
        r matches SearchStep::Rerank(list) ==> ({
            let pool = search_pool(
                chunk_data(index.chunks@),
                similarities@,
                lexical@,
                scope_names(scope),
            );
            &&& list@.len() == pool.len()
            &&& forall|i: int| 0 <= i < list@.len() ==> (#[trigger] list@[i]) == pool[i].0
        }),
        r matches SearchStep::Finished(results) ==> ({
            let pool = search_pool(
                chunk_data(index.chunks@),
                similarities@,
                lexical@,
                scope_names(scope),
            );
            &&& results@.len() == (if k < pool.len() {
                k as nat
            } else {
                pool.len()
            })
            &&& forall|i: int|
                #![trigger results@[i]]
                0 <= i < results@.len() ==> {
                    let c = index.chunks@[pool[i].0 as int];
                    &&& pool[i].0 < index.chunks@.len()
                    &&& results@[i].id@ == c.id@
                    &&& results@[i].filename@ == c.filename@
                    &&& results@[i].page == c.page
                    &&& results@[i].text@ == c.text@
                    &&& results@[i].figure == c.figure
                    &&& results@[i].score == pool[i].1
                    &&& results@[i].score_kind@ == "rrf"@
                }
        }),
{
    let ghost chunks = chunk_data(index.chunks@);
    let ghost names = scope_names(scope);
    let limit: usize = if index.chunks.len() < HYBRID_CANDIDATES {
        index.chunks.len()
    } else {
        HYBRID_CANDIDATES
    };
    let dense = index.dense_search(similarities, limit, scope);
    let words = index.lexical_search(lexical, limit, scope);
    proof {
        lemma_from_candidates(chunks, similarities@, names, false);
        lemma_from_candidates(chunks, lexical@, names, true);
        pool_stays_in_scope(chunks, similarities@, lexical@, names);
    }
    let pool = fuse(dense.as_slice(), words.as_slice());
    if reranking && pool.len() > 0 {
        let mut list: Vec<usize> = Vec::new();
        let mut i: usize = 0;
        while i < pool.len()
            invariant
                i <= pool.len(),
                list@ == pool_chunks(pool@).take(i as int),
            decreases pool.len() - i,
        {
            list.push(pool[i].0);
            assert(list@ =~= pool_chunks(pool@).take(i + 1));
            i += 1;
        }
        assert(list@ =~= pool_chunks(pool@));
        return SearchStep::Rerank(list);
    }
    let count: usize = if k < pool.len() {
        k
    } else {
        pool.len()
    };
    let top = slice_subrange(pool.as_slice(), 0, count);
    assert(top@ =~= first(pool@, k as int));
    SearchStep::Finished(collect(index.chunks.as_slice(), top, "rrf"))
}

/// Finishes a search whose pool was scored anew, given the score of every chunk of the pool.
pub fn finish_search(index: &Index, pool: &[usize], scores: &[Score], k: usize) -> (r: Vec<
    SearchResult,
>)
    requires
        pool@.len() == scores@.len(),
        forall|i: int| 0 <= i < pool@.len() ==> #[trigger] pool@[i] < index.chunks@.len(),
    ensures
        result_data(r@) == passages(
            chunk_data(index.chunks@),
            first(ranked(rescored(pool@, scores@)), k as int),
            "rerank"@,
        ),
        r@.len() == (if k < pool@.len() {
            k as nat
        } else {
            pool@.len()
        }),
        forall|i: int|
            #![trigger r@[i]]
            0 <= i < r@.len() ==> exists|m: int|
                #![trigger pool@[m]]
                0 <= m < pool@.len() && r@[i].score == scores@[m] && ({
                    let c = index.chunks@[pool@[m] as int];
                    &&& r@[i].id@ == c.id@
                    &&& r@[i].filename@ == c.filename@
                    &&& r@[i].page == c.page
                    &&& r@[i].text@ == c.text@
                    &&& r@[i].figure == c.figure
                }),
        forall|i: int, j: int|
            0 <= i < j < r@.len() ==> (#[trigger] r@[i]).score.place() >= (
            #[trigger] r@[j]).score.place(),
        forall|i: int| 0 <= i < r@.len() ==> (#[trigger] r@[i]).score_kind@ == "rerank"@,
{
    let ghost all = rescored(pool@, scores@);
    let mut list: Vec<(usize, Score)> = Vec::new();
    let mut i: usize = 0;
    while i < pool.len()
        invariant
            i <= pool.len(),
            pool@.len() == scores@.len(),
            all == rescored(pool@, scores@),
            list@ == all.take(i as int),
        decreases pool.len() - i,
    {
        list.push((pool[i], scores[i]));
        assert(list@ =~= all.take(i + 1));
        i += 1;
    }
    assert(list@ =~= all);
    let top = take_best(list.as_slice(), k);
    proof {
        lemma_ranked_members(all);
        assert forall|i: int| 0 <= i < top@.len() implies (#[trigger] top@[i]).0
            < index.chunks@.len() by {
            assert(top@[i] == ranked(all)[i]);
            let m = choose|m: int| 0 <= m < all.len() && all[m] == ranked(all)[i];
            assert(pool@[m] < index.chunks@.len());
        }
    }
    let out = collect(index.chunks.as_slice(), top.as_slice(), "rerank");
    proof {
        ranking_sorts(all);
        assert forall|i: int|
            #![trigger out@[i]]
            0 <= i < out@.len() implies exists|m: int|
            #![trigger pool@[m]]
            0 <= m < pool@.len() && out@[i].score == scores@[m] && ({
                let c = index.chunks@[pool@[m] as int];
                &&& out@[i].id@ == c.id@
                &&& out@[i].filename@ == c.filename@
                &&& out@[i].page == c.page
                &&& out@[i].text@ == c.text@
                &&& out@[i].figure == c.figure
            }) by {
            assert(top@[i] == ranked(all)[i]);
            let m = choose|m: int| 0 <= m < all.len() && all[m] == ranked(all)[i];
            assert(pool@[m] == all[m].0);
        }
        assert forall|i: int, j: int| 0 <= i < j < out@.len() implies (#[trigger] out@[i]).score.place()
            >= (#[trigger] out@[j]).score.place() by {
            assert(top@[i] == ranked(all)[i] && top@[j] == ranked(all)[j]);
        }
    }
    out
}

// ---------------------------------------------------------------------------------------------
// Printing

/// Where a passage stands. A caption is a model's reading of a drawing and never presents itself
/// as printed text.
pub open spec fn citation(r: ResultData) -> Seq<char> {
    let place = if r.page == -1 {
        r.filename
    } else {
        r.filename + " p."@ + signed_decimal(r.page as int)
    };
    if r.figure {
        place + " · figure"@
    } else {
        place
    }
}

/// A passage as it is printed; where passages are numbered, the number that an answer cites comes
/// first.
pub open spec fn printed(r: ResultData, position: int, numbered: bool) -> Seq<char> {
    let number = if numbered {
        seq!['['] + decimal((position + 1) as nat) + "] "@
    } else {
        Seq::empty()
    };
    number + seq!['['] + citation(r) + " | "@ + r.score_kind + seq![' '] + two_decimals(
        r.score.bits,
    ) + "]\n"@ + trim(r.text)
}

/// A citation names the file, the page where there is one, and marks a figure: it begins with the
/// name of the file, ends in the page, and in the mark behind it exactly where the passage describes
/// a figure.
pub proof fn citations_name_file_and_page(r: ResultData)
    ensures
        starts_with(citation(r), r.filename),
        r.page == -1 && !r.figure ==> citation(r) == r.filename,
        r.page == -1 && r.figure ==> citation(r) == r.filename + " · figure"@,
        r.page != -1 && !r.figure ==> citation(r) == r.filename + " p."@ + signed_decimal(
            r.page as int,
        ),
        r.page != -1 && r.figure ==> citation(r) == r.filename + " p."@ + signed_decimal(
            r.page as int,
        ) + " · figure"@,
{
    assert(citation(r).subrange(0, r.filename.len() as int) =~= r.filename);
}

/// A printed passage is its citation, its score and its text without the white space around it; a
/// numbered one is the same with its number, counted from one, in front.
pub proof fn printed_passages_cite_and_quote(r: ResultData, position: nat)
    ensures
        starts_with(printed(r, position as int, false), seq!['['] + citation(r) + " | "@),
        ends_with(printed(r, position as int, false), "]\n"@ + trim(r.text)),
        printed(r, position as int, false) == seq!['['] + citation(r) + " | "@ + r.score_kind + seq![
            ' ',
        ] + two_decimals(r.score.bits) + "]\n"@ + trim(r.text),
        printed(r, position as int, true) == seq!['['] + decimal(position + 1) + "] "@ + printed(
            r,
            position as int,
            false,
        ),
{
    let plain = printed(r, position as int, false);
    let head = seq!['['] + citation(r) + " | "@;
    let tail = "]\n"@ + trim(r.text);
    let whole = seq!['['] + citation(r) + " | "@ + r.score_kind + seq![' '] + two_decimals(
        r.score.bits,
    ) + "]\n"@ + trim(r.text);
    assert(plain =~= whole);
    assert(plain.subrange(0, head.len() as int) =~= head);
    assert(plain.subrange(plain.len() - tail.len(), plain.len() as int) =~= tail);
    assert(printed(r, position as int, true) =~= seq!['['] + decimal(position + 1) + "] "@ + plain);
}

/// Passages are printed in their order: one more comes behind the others, with the next number.
pub proof fn passages_are_printed_in_order(
    results: Seq<ResultData>,
    next: ResultData,
    numbered: bool,
)
    ensures
        printed_results(seq![next], numbered) == printed(next, 0, numbered),
        results.len() > 0 ==> printed_results(results.push(next), numbered) == printed_results(
            results,
            numbered,
        ) + "\n\n---\n\n"@ + printed(next, results.len() as int, numbered),
{
    let one = Seq::new(1, |i: int| printed(seq![next][i], i, numbered));
    assert(one[0] == printed(next, 0, numbered));
    let few = Seq::new(results.len(), |i: int| printed(results[i], i, numbered));
    let more = results.push(next);
    let all = Seq::new(more.len(), |i: int| printed(more[i], i, numbered));
    assert(all.drop_last() =~= few);
    assert(all.last() == printed(next, results.len() as int, numbered));
}

/// A list of passages as it is printed.
pub open spec fn printed_results(results: Seq<ResultData>, numbered: bool) -> Seq<char> {
    if results.len() == 0 {
        "No relevant passages found in the indexed documents."@
    } else {
        joined(
            Seq::new(results.len(), |i: int| printed(results[i], i, numbered)),
            "\n\n---\n\n"@,
        )
    }
}

fn print_one(result: &SearchResult, position: usize, numbered: bool) -> (r: String)
    ensures
        r@ == printed(result@, position as int, numbered),
{
    let mut out = String::new();
    if numbered {
        out.push('[');
        push_decimal(&mut out, position as u128 + 1);
        out.push_str("] ");
    }
    let ghost number = out@;
    proof {
        if numbered {
            assert(number =~= seq!['['] + decimal((position + 1) as nat) + "] "@);
        } else {
            assert(number =~= Seq::<char>::empty());
        }
    }
    out.push('[');
    out.push_str(result.filename.as_str());
    if result.page != -1 {
        out.push_str(" p.");
        push_signed(&mut out, result.page);
    }
    if result.figure {
        out.push_str(" · figure");
    }
    assert(out@ =~= number + seq!['['] + citation(result@));
    out.push_str(" | ");
    out.push_str(result.score_kind);
    out.push(' ');
    push_two_decimals(&mut out, result.score);
    out.push_str("]\n");
    out.push_str(trimmed(result.text.as_str()).as_str());
    assert(out@ =~= printed(result@, position as int, numbered));
    out
}

fn format_results_with(results: &[SearchResult], numbered: bool) -> (r: String)
    ensures
        r@ == printed_results(result_data(results@), numbered),
{
    if results.len() == 0 {
        return owned("No relevant passages found in the indexed documents.");
    }
    let ghost all = Seq::new(
        results@.len(),
        |i: int| printed(result_data(results@)[i], i, numbered),
    );
    let mut parts: Vec<String> = Vec::new();
    let mut i: usize = 0;
    while i < results.len()
        invariant
            i <= results.len(),
            all == Seq::new(
                results@.len(),
                |i: int| printed(result_data(results@)[i], i, numbered),
            ),
            strings(parts@) == all.take(i as int),
        decreases results.len() - i,
    {
        let ghost before = strings(parts@);
        let part = print_one(&results[i], i, numbered);
        parts.push(part);
        assert(strings(parts@) =~= before.push(part@));
        assert(strings(parts@) =~= all.take(i + 1));
        i += 1;
    }
    assert(strings(parts@) =~= all);
    join_strings(parts.as_slice(), "\n\n---\n\n")
}

/// The passages with their citations, as clients read them.
pub fn format_results(results: &[SearchResult]) -> (r: String)
    ensures
        r@ == printed_results(result_data(results@), false),
{
    format_results_with(results, false)
}

/// The passages for a chat prompt: each opens with the number that the model is asked to cite, so
/// that a `[2]` in an answer is the second passage.
pub fn format_results_numbered(results: &[SearchResult]) -> (r: String)
    ensures
        r@ == printed_results(result_data(results@), true),
{
    format_results_with(results, true)
}

/// One document in the list of documents.
pub open spec fn document_line(name: Seq<char>, counts: (nat, nat)) -> Seq<char> {
    "  "@ + name + "  —  "@ + decimal(counts.0) + " chunks, "@ + (if counts.1 == 0 {
        "no pages tracked"@
    } else {
        decimal(counts.1) + " pages"@
    })
}

/// A line of the document list gives the name, the number of chunks and that of pages; a document
/// without pages says so.
pub proof fn document_lines_tell_counts(name: Seq<char>, chunks: nat, pages: nat)
    ensures
        pages > 0 ==> document_line(name, (chunks, pages)) == "  "@ + name + "  —  "@ + decimal(
            chunks,
        ) + " chunks, "@ + decimal(pages) + " pages"@,
        document_line(name, (chunks, 0)) == "  "@ + name + "  —  "@ + decimal(chunks)
            + " chunks, no pages tracked"@,
{
    reveal_strlit(" chunks, ");
    reveal_strlit("no pages tracked");
    reveal_strlit(" chunks, no pages tracked");
    assert(" chunks, "@ + "no pages tracked"@ =~= " chunks, no pages tracked"@);
    assert(document_line(name, (chunks, 0)) =~= "  "@ + name + "  —  "@ + decimal(chunks)
        + " chunks, no pages tracked"@);
    if pages > 0 {
        assert(document_line(name, (chunks, pages)) =~= "  "@ + name + "  —  "@ + decimal(chunks)
            + " chunks, "@ + decimal(pages) + " pages"@);
    }
}

/// The list opens with how many documents there are, has the line of every document, and ends in how
/// many chunks there are.
pub proof fn every_document_is_printed(chunks: Seq<ChunkData>, total: nat, i: int)
    requires
        0 <= i < ordered_names(file_names(chunks)).len(),
    ensures
        ({
            let names = ordered_names(file_names(chunks));
            let text = printed_documents(chunks, total);
            &&& starts_with(text, decimal(names.len()) + " document(s) indexed:\n"@)
            &&& ends_with(text, decimal(total) + " chunks total."@)
            &&& contains_text(text, document_line(names[i], stats_of(chunks, names[i])))
        }),
{
    let names = ordered_names(file_names(chunks));
    let head = decimal(names.len()) + " document(s) indexed:\n"@;
    let middle = Seq::new(
        names.len(),
        |i: int| document_line(names[i], stats_of(chunks, names[i])),
    );
    let tail = "\n"@ + decimal(total) + " chunks total."@;
    let lines = seq![head] + middle + seq![tail];
    lemma_joined_ends(lines, "\n"@);
    assert(lines[0] == head);
    assert(lines.last() == tail);
    let text = joined(lines, "\n"@);
    let end = decimal(total) + " chunks total."@;
    assert(tail =~= "\n"@ + end);
    assert(text.subrange(text.len() - end.len(), text.len() as int) =~= text.subrange(
        text.len() - tail.len(),
        text.len() as int,
    ).skip("\n"@.len() as int));
    assert(tail.skip("\n"@.len() as int) =~= end);
    lemma_part_stands(lines, "\n"@, i + 1);
    assert(lines[i + 1] == middle[i]);
}

proof fn lemma_part_stands(parts: Seq<Seq<char>>, sep: Seq<char>, i: int)
    requires
        0 <= i < parts.len(),
    ensures
        contains_text(joined(parts, sep), parts[i]),
    decreases parts.len(),
{
    let text = joined(parts, sep);
    if i == parts.len() - 1 {
        lemma_joined_ends(parts, sep);
        assert(occurs_at(text, parts[i], text.len() - parts[i].len()));
    } else {
        let front = parts.drop_last();
        lemma_part_stands(front, sep, i);
        let p = choose|p: int| occurs_at(joined(front, sep), parts[i], p);
        assert(text.subrange(p, p + parts[i].len()) =~= joined(front, sep).subrange(
            p,
            p + parts[i].len(),
        ));
        assert(occurs_at(text, parts[i], p));
    }
}

proof fn lemma_joined_ends(parts: Seq<Seq<char>>, sep: Seq<char>)
    requires
        parts.len() > 0,
    ensures
        starts_with(joined(parts, sep), parts[0]),
        ends_with(joined(parts, sep), parts.last()),
    decreases parts.len(),
{
    let text = joined(parts, sep);
    if parts.len() == 1 {
        assert(text.subrange(0, text.len() as int) =~= text);
    } else {
        let front = parts.drop_last();
        lemma_joined_ends(front, sep);
        let head = joined(front, sep);
        assert(text.subrange(0, parts[0].len() as int) =~= head.subrange(0, parts[0].len() as int));
        assert(text.subrange(text.len() - parts.last().len(), text.len() as int)
            =~= parts.last());
    }
}

/// The list of documents as it is printed.
pub open spec fn printed_documents(chunks: Seq<ChunkData>, total: nat) -> Seq<char> {
    let names = ordered_names(file_names(chunks));
    if names.len() == 0 {
        "No documents indexed. Run `rag index <documents dir>` first."@
    } else {
        joined(
            seq![decimal(names.len()) + " document(s) indexed:\n"@] + Seq::new(
                names.len(),
                |i: int| document_line(names[i], stats_of(chunks, names[i])),
            ) + seq!["\n"@ + decimal(total) + " chunks total."@],
            "\n"@,
        )
    }
}

/// The documents of an index with the number of their chunks and pages.
pub fn format_documents(index: &Index) -> (r: String)
    ensures
        r@ == printed_documents(chunk_data(index.chunks@), index.metadata.chunks as nat),
        index.chunks@.len() == 0 ==> r@
            == "No documents indexed. Run `rag index <documents dir>` first."@,
{
    let ghost chunks = chunk_data(index.chunks@);
    let stats = index.document_stats();
    let count: usize = stats.len();
    let ghost list = stats.list();
    let ghost names = ordered_names(file_names(chunks));
    proof {
        lemma_ordered_names(list);
        assert(names == names_of(list));
    }
    proof {
        if index.chunks@.len() == 0 {
            crate::text_map::lemma_map_size(list);
            assert(stats@.dom() =~= Set::<Seq<char>>::empty());
        }
    }
    if count == 0 {
        return owned("No documents indexed. Run `rag index <documents dir>` first.");
    }
    let mut lines: Vec<String> = Vec::new();
    let mut head = String::new();
    push_decimal(&mut head, count as u128);
    head.push_str(" document(s) indexed:\n");
    let ghost heading = decimal(names.len()) + " document(s) indexed:\n"@;
    assert(head@ =~= heading);
    lines.push(head);
    let ghost middle = Seq::new(
        names.len(),
        |i: int| document_line(names[i], stats_of(chunks, names[i])),
    );
    assert(strings(lines@) =~= seq![heading] + middle.take(0));
    let mut i: usize = 0;
    while i < count
        invariant
            i <= count,
            count == list.len(),
            list == stats.list(),
            crate::text_map::ascending(list),
            names == names_of(list),
            chunks == chunk_data(index.chunks@),
            middle == Seq::new(
                names.len(),
                |i: int| document_line(names[i], stats_of(chunks, names[i])),
            ),
            forall|name: Seq<char>| #[trigger]
                stats@.contains_key(name) ==> (stats@[name].0 as nat, stats@[name].1 as nat)
                    == stats_of(chunks, name),
            strings(lines@) == seq![heading] + middle.take(i as int),
        decreases count - i,
    {
        proof {
            crate::text_map::lemma_map_of(list, i as int);
            assert(stats@.contains_key(names[i as int]));
        }
        let name = stats.key_at(i);
        let entry = stats.value_at(i);
        let mut line = owned("  ");
        line.push_str(name.as_str());
        line.push_str("  —  ");
        push_decimal(&mut line, entry.0 as u128);
        line.push_str(" chunks, ");
        if entry.1 == 0 {
            line.push_str("no pages tracked");
        } else {
            push_decimal(&mut line, entry.1 as u128);
            line.push_str(" pages");
        }
        assert(line@ =~= middle[i as int]);
        let ghost before = strings(lines@);
        lines.push(line);
        assert(strings(lines@) =~= before.push(line@));
        assert(strings(lines@) =~= seq![heading] + middle.take(i + 1));
        i += 1;
    }
    assert(middle.take(count as int) =~= middle);
    let mut tail = owned("\n");
    push_decimal(&mut tail, index.metadata.chunks as u128);
    tail.push_str(" chunks total.");
    let ghost before = strings(lines@);
    lines.push(tail);
    assert(strings(lines@) =~= seq![heading] + middle + seq![tail@]);
    join_strings(lines.as_slice(), "\n")
}

} // verus!
