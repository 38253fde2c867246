//! What holds of the vectors and scores that models give back.

use vstd::prelude::*;

use crate::config::{EMBED_DIM, NORMALIZATION};
use crate::score::Score;
use crate::text::{decimal, owned, push_decimal};

verus! {

/// How vectors are made, recorded in the metadata of an index so that a change is seen.
pub fn normalization_policy() -> (r: &'static str)
    ensures
        r@ == NORMALIZATION@,
{
    NORMALIZATION
}

/// The first of the vectors from `i` on that does not have the dimension of the index.
pub open spec fn first_misfit(lens: Seq<usize>, i: int) -> Option<usize>
    decreases lens.len() - i,
{
    if i >= lens.len() {
        None
    } else if lens[i] != EMBED_DIM {
        Some(lens[i])
    } else {
        first_misfit(lens, i + 1)
    }
}

/// What is said of vectors with another dimension.
pub open spec fn misfit_text(dim: usize) -> Seq<char> {
    "model returned "@ + decimal(dim as nat) + "-dim vectors, index expects "@ + decimal(
        EMBED_DIM as nat,
    ) + "-dim"@
}

/// Refuses vectors that do not have the dimension of the index, given how long each is.
pub fn check_dimensions(lens: &[usize]) -> (r: Result<(), String>)
    ensures
        match r {
            Ok(()) => first_misfit(lens@, 0) is None,
            Err(reason) => first_misfit(lens@, 0) matches Some(dim) && reason@ == misfit_text(dim),
        },
        r is Ok <==> forall|i: int| 0 <= i < lens@.len() ==> (#[trigger] lens@[i]) == 768,
        r matches Err(reason) ==> exists|i: int|
            0 <= i < lens@.len() && (#[trigger] lens@[i]) != 768 && (forall|j: int|
                0 <= j < i ==> (#[trigger] lens@[j]) == 768) && reason@ == "model returned "@
                + decimal(lens@[i] as nat) + "-dim vectors, index expects "@ + decimal(768)
                + "-dim"@,
{
    let mut i: usize = 0;
    while i < lens.len()
        invariant
            i <= lens@.len(),
            first_misfit(lens@, i as int) == first_misfit(lens@, 0),
            forall|j: int| 0 <= j < i ==> (#[trigger] lens@[j]) == 768,
        decreases lens.len() - i,
    {
        if lens[i] != EMBED_DIM {
            let mut reason = owned("model returned ");
            push_decimal(&mut reason, lens[i] as u128);
            reason.push_str("-dim vectors, index expects ");
            push_decimal(&mut reason, EMBED_DIM as u128);
            reason.push_str("-dim");
            return Err(reason);
        }
        i += 1;
    }
    Ok(())
}

/// The scores of `n` documents, where the first `end` results each give one of them; the others are
/// zero.
pub open spec fn scattered(results: Seq<(usize, Score)>, n: nat, end: int) -> Seq<Score>
    decreases end,
{
    if end <= 0 {
        Seq::new(n, |i: int| Score { bits: 0 })
    } else {
        scattered(results, n, end - 1).update(results[end - 1].0 as int, results[end - 1].1)
    }
}

/// The scores of `n` documents in their order, from results that come in any order.
pub fn scatter_scores(results: &[(usize, Score)], n: usize) -> (r: Vec<Score>)
    requires
        forall|i: int| 0 <= i < results@.len() ==> (#[trigger] results@[i]).0 < n,
    ensures
        r@ == scattered(results@, n as nat, results@.len() as int),
        r@.len() == n,
{
    let mut out: Vec<Score> = Vec::new();
    let mut k: usize = 0;
    while k < n
        invariant
            k <= n,
            out@.len() == k,
            forall|j: int| 0 <= j < k ==> #[trigger] out@[j] == (Score { bits: 0 }),
        decreases n - k,
    {
        out.push(Score { bits: 0 });
        k += 1;
    }
    assert(out@ =~= scattered(results@, n as nat, 0));
    let mut i: usize = 0;
    while i < results.len()
        invariant
            i <= results@.len(),
            forall|i: int| 0 <= i < results@.len() ==> (#[trigger] results@[i]).0 < n,
            out@.len() == n,
            out@ == scattered(results@, n as nat, i as int),
        decreases results.len() - i,
    {
        assert(results@[i as int].0 < n);
        out.set(results[i].0, results[i].1);
        i += 1;
    }
    out
}

/// Where every document has one result, its score is the one that was given for it.
pub proof fn scores_keep_the_order_of_documents(
    results: Seq<(usize, Score)>,
    n: nat,
    end: int,
    k: int,
)
    requires
        0 <= k < end <= results.len(),
        forall|i: int| 0 <= i < results.len() ==> (#[trigger] results[i]).0 < n,
        forall|i: int, j: int|
            0 <= i < j < results.len() ==> (#[trigger] results[i]).0 != (#[trigger] results[j]).0,
    ensures
        scattered(results, n, end).len() == n,
        scattered(results, n, end)[results[k].0 as int] == results[k].1,
    decreases end,
{
    lemma_scattered_len(results, n, end - 1);
    if k < end - 1 {
        scores_keep_the_order_of_documents(results, n, end - 1, k);
        assert(results[k].0 != results[end - 1].0);
    }
    assert(results[end - 1].0 < n);
    assert(results[k].0 < n);
}

proof fn lemma_scattered_len(results: Seq<(usize, Score)>, n: nat, end: int)
    requires
        end <= results.len(),
        forall|i: int| 0 <= i < results.len() ==> (#[trigger] results[i]).0 < n,
    ensures
        scattered(results, n, end).len() == n,
    decreases end,
{
    if end > 0 {
        assert(results[end - 1].0 < n);
        lemma_scattered_len(results, n, end - 1);
    }
}

/// A document without a result has the score zero.
pub proof fn unscored_documents_are_zero(
    results: Seq<(usize, Score)>,
    n: nat,
    end: int,
    doc: int,
)
    requires
        0 <= end <= results.len(),
        0 <= doc < n,
        forall|i: int| 0 <= i < results.len() ==> (#[trigger] results[i]).0 < n,
        forall|i: int| 0 <= i < end ==> (#[trigger] results[i]).0 != doc,
    ensures
        scattered(results, n, end)[doc].bits == 0,
    decreases end,
{
    if end > 0 {
        lemma_scattered_len(results, n, end - 1);
        unscored_documents_are_zero(results, n, end - 1, doc);
        assert(results[end - 1].0 != doc);
        assert(results[end - 1].0 < n);
    }
}

} // verus!
