//! Relevance scores: single-precision numbers, held by their bit patterns.
//!
//! The library compares, ranks and prints scores and fuses ranks into them; it never has to
//! compute with them otherwise.

use vstd::arithmetic::power2::{lemma_pow2_pos, lemma_pow2_strictly_increases, lemma_pow2_unfold, pow2};
use vstd::prelude::*;

use crate::config::{HYBRID_CANDIDATES, RRF_K};
use crate::text::{decimal, digit, digit_char, digits_value, push_decimal};

verus! {

/// A single-precision number in the binary interchange format of IEEE 754.
#[derive(Clone, Copy, Debug, PartialEq, Eq, Structural)]
pub struct Score {
    pub bits: u32,
}

// ---------------------------------------------------------------------------------------------
// Order

/// The place of a bit pattern in the total order of single-precision numbers.
pub open spec fn place(bits: u32) -> int {
    if bits < 0x8000_0000 {
        bits as int
    } else {
        0x8000_0000 - bits - 1
    }
}

impl Score {
    /// The place of the score in the total order.
    pub open spec fn place(self) -> int {
        place(self.bits)
    }

    /// The score is a number over zero.
    pub open spec fn above_zero(self) -> bool {
        0 < self.bits <= 0x7f80_0000
    }

    /// The place of the score in the total order.
    pub fn order(self) -> (r: i64)
        ensures
            r == self.place(),
    {
        if self.bits < 0x8000_0000 {
            self.bits as i64
        } else {
            0x8000_0000i64 - (self.bits as i64) - 1
        }
    }

    /// Whether the score is a number over zero.
    pub fn is_positive(self) -> (r: bool)
        ensures
            r == self.above_zero(),
    {
        self.bits > 0 && self.bits <= 0x7f80_0000
    }
}

/// Different bit patterns have different places in the order.
pub proof fn places_differ(a: u32, b: u32)
    ensures
        place(a) == place(b) <==> a == b,
{
}

/// Scores are ordered as the numbers are that they stand for: positive ones by their bit patterns,
/// negative ones the other way round and below all positive ones. A number over zero lies behind
/// both zeros and not behind infinity.
pub proof fn scores_are_ordered_as_numbers(a: u32, b: u32)
    ensures
        a < 0x8000_0000 && b < 0x8000_0000 ==> (place(a) < place(b) <==> a < b),
        a >= 0x8000_0000 && b >= 0x8000_0000 ==> (place(a) < place(b) <==> a > b),
        a >= 0x8000_0000 && b < 0x8000_0000 ==> place(a) < place(b),
        (Score { bits: a }).place() == place(a),
        (Score { bits: a }).above_zero() <==> place(0) < place(a) <= place(0x7f80_0000),
{
}

// ---------------------------------------------------------------------------------------------
// Ranking

/// The list holds scores from the highest down.
pub open spec fn descending(list: Seq<(usize, Score)>) -> bool {
    forall|i: int, j: int|
        0 <= i < j < list.len() ==> (#[trigger] list[i]).1.place() >= (
        #[trigger] list[j]).1.place()
}

/// Where an item with the place `at` goes in a list that runs down: behind everything that ranks
/// as high.
pub open spec fn slot(list: Seq<(usize, Score)>, at: int) -> int
    decreases list.len(),
{
    if list.len() == 0 || list.last().1.place() >= at {
        list.len() as int
    } else {
        slot(list.drop_last(), at)
    }
}

/// The items from the highest score down; equal scores keep their order.
pub open spec fn ranked(list: Seq<(usize, Score)>) -> Seq<(usize, Score)>
    decreases list.len(),
{
    if list.len() == 0 {
        Seq::empty()
    } else {
        let front = ranked(list.drop_last());
        front.insert(slot(front, list.last().1.place()), list.last())
    }
}

/// The first `limit` of the ranked items.
pub open spec fn best(list: Seq<(usize, Score)>, limit: int) -> Seq<(usize, Score)> {
    let all = ranked(list);
    if limit < all.len() {
        all.take(limit)
    } else {
        all
    }
}

pub proof fn lemma_slot(list: Seq<(usize, Score)>, at: int)
    requires
        descending(list),
    ensures
        0 <= slot(list, at) <= list.len(),
        forall|i: int| 0 <= i < slot(list, at) ==> (#[trigger] list[i]).1.place() >= at,
        forall|i: int| slot(list, at) <= i < list.len() ==> (#[trigger] list[i]).1.place() < at,
    decreases list.len(),
{
    if list.len() > 0 && list.last().1.place() < at {
        let front = list.drop_last();
        assert(descending(front)) by {
            assert forall|i: int, j: int| 0 <= i < j < front.len() implies (
            #[trigger] front[i]).1.place() >= (#[trigger] front[j]).1.place() by {
                assert(front[i] == list[i] && front[j] == list[j]);
            }
        }
        lemma_slot(front, at);
        assert forall|i: int| 0 <= i < slot(list, at) implies (#[trigger] list[i]).1.place()
            >= at by {
            assert(front[i] == list[i]);
        }
        assert forall|i: int| slot(list, at) <= i < list.len() implies (
        #[trigger] list[i]).1.place() < at by {
            if i < front.len() {
                assert(front[i] == list[i]);
            }
        }
    }
}

/// Ranking gives back the items that went in, with their scores running down.
pub proof fn ranking_sorts(list: Seq<(usize, Score)>)
    ensures
        descending(ranked(list)),
        ranked(list).len() == list.len(),
        ranked(list).to_multiset() == list.to_multiset(),
    decreases list.len(),
{
    if list.len() > 0 {
        let front = list.drop_last();
        ranking_sorts(front);
        let inner = ranked(front);
        let x = list.last();
        let k = slot(inner, x.1.place());
        lemma_slot(inner, x.1.place());
        let out = inner.insert(k, x);
        assert forall|i: int, j: int| 0 <= i < j < out.len() implies (
        #[trigger] out[i]).1.place() >= (#[trigger] out[j]).1.place() by {
            let a = if i < k {
                i
            } else {
                i - 1
            };
            let b = if j < k {
                j
            } else {
                j - 1
            };
            if i != k {
                assert(out[i] == inner[a]);
            }
            if j != k {
                assert(out[j] == inner[b]);
            }
        }
        vstd::seq_lib::to_multiset_insert(inner, k, x);
        assert(list =~= front.push(x));
        vstd::seq_lib::to_multiset_build(front, x);
    } else {
        assert(ranked(list) =~= list);
    }
}

/// Ranked items that were numbered upwards stay so where their scores are equal.
pub proof fn ranking_is_stable(list: Seq<(usize, Score)>)
    requires
        forall|i: int, j: int|
            0 <= i < j < list.len() ==> (#[trigger] list[i]).0 < (#[trigger] list[j]).0,
    ensures
        forall|i: int, j: int|
            0 <= i < j < ranked(list).len() && (#[trigger] ranked(list)[i]).1 == (
            #[trigger] ranked(list)[j]).1 ==> ranked(list)[i].0 < ranked(list)[j].0,
        forall|i: int|
            0 <= i < ranked(list).len() ==> exists|k: int|
                0 <= k < list.len() && list[k] == #[trigger] ranked(list)[i],
    decreases list.len(),
{
    if list.len() > 0 {
        let front = list.drop_last();
        assert forall|i: int, j: int| 0 <= i < j < front.len() implies (#[trigger] front[i]).0 < (
        #[trigger] front[j]).0 by {
            assert(list[i].0 < list[j].0);
        }
        ranking_is_stable(front);
        ranking_sorts(front);
        let inner = ranked(front);
        let x = list.last();
        let k = slot(inner, x.1.place());
        lemma_slot(inner, x.1.place());
        let out = inner.insert(k, x);
        assert(out == ranked(list));
        assert forall|i: int| 0 <= i < inner.len() implies (#[trigger] inner[i]).0 < x.0 by {
            let m = choose|m: int| 0 <= m < front.len() && front[m] == inner[i];
            assert(list[m] == inner[i]);
            assert(list[m].0 < list[list.len() - 1].0);
        }
        assert forall|i: int, j: int|
            0 <= i < j < out.len() && (#[trigger] out[i]).1 == (#[trigger] out[j]).1 implies out[i].0
            < out[j].0 by {
            if i < k {
                assert(out[i] == inner[i]);
            } else if i > k {
                assert(out[i] == inner[i - 1]);
            }
            if j < k {
                assert(out[j] == inner[j]);
            } else if j > k {
                assert(out[j] == inner[j - 1]);
            }
        }
        assert forall|i: int| 0 <= i < out.len() implies exists|m: int|
            0 <= m < list.len() && list[m] == #[trigger] out[i] by {
            if i == k {
                assert(list[list.len() - 1] == out[i]);
            } else {
                let a = if i < k {
                    i
                } else {
                    i - 1
                };
                assert(out[i] == inner[a]);
                let m = choose|m: int| 0 <= m < front.len() && front[m] == inner[a];
                assert(list[m] == out[i]);
            }
        }
    }
}

/// The best are taken: as many as there are up to the limit, each of them from the list, the highest
/// first, and nothing that is left out ranks above any of them.
pub proof fn the_best_are_taken(list: Seq<(usize, Score)>, limit: int)
    requires
        0 <= limit,
    ensures
        ({
            let out = best(list, limit);
            &&& out.len() == (if limit < list.len() {
                limit
            } else {
                list.len() as int
            })
            &&& forall|i: int| 0 <= i < out.len() ==> list.contains(#[trigger] out[i])
            &&& forall|i: int, j: int|
                0 <= i < j < out.len() ==> place((#[trigger] out[i]).1.bits) >= place(
                    (#[trigger] out[j]).1.bits,
                )
            &&& forall|m: int|
                #![trigger list[m]]
                0 <= m < list.len() ==> out.contains(list[m]) || forall|i: int|
                    0 <= i < out.len() ==> place((#[trigger] out[i]).1.bits) >= place(
                        list[m].1.bits,
                    )
            &&& list.len() <= limit ==> out.to_multiset() == list.to_multiset()
        }),
{
    broadcast use vstd::seq_lib::group_to_multiset_ensures;

    let all = ranked(list);
    let out = best(list, limit);
    ranking_sorts(list);
    assert forall|i: int| 0 <= i < out.len() implies list.contains(#[trigger] out[i]) by {
        assert(all[i] == out[i]);
        assert(all.to_multiset().count(out[i]) > 0);
    }
    assert forall|i: int, j: int| 0 <= i < j < out.len() implies place(
        (#[trigger] out[i]).1.bits,
    ) >= place((#[trigger] out[j]).1.bits) by {
        assert(all[i] == out[i] && all[j] == out[j]);
    }
    assert forall|m: int|
        #![trigger list[m]]
        0 <= m < list.len() implies out.contains(list[m]) || forall|i: int|
        0 <= i < out.len() ==> place((#[trigger] out[i]).1.bits) >= place(list[m].1.bits) by {
        assert(list.to_multiset().count(list[m]) > 0);
        assert(all.contains(list[m]));
        let k = choose|k: int| 0 <= k < all.len() && all[k] == list[m];
        if k < out.len() {
            assert(out[k] == list[m]);
        } else {
            assert forall|i: int| 0 <= i < out.len() implies place((#[trigger] out[i]).1.bits)
                >= place(list[m].1.bits) by {
                assert(all[i] == out[i]);
                assert(all[i].1.place() >= all[k].1.place());
            }
        }
    }
}

proof fn lemma_slot_take(list: Seq<(usize, Score)>, limit: int, at: int)
    requires
        descending(list),
        0 <= limit <= list.len(),
    ensures
        slot(list.take(limit), at) == (if slot(list, at) < limit {
            slot(list, at)
        } else {
            limit
        }),
{
    let part = list.take(limit);
    assert forall|i: int, j: int| 0 <= i < j < part.len() implies (#[trigger] part[i]).1.place()
        >= (#[trigger] part[j]).1.place() by {
        assert(part[i] == list[i] && part[j] == list[j]);
    }
    lemma_slot(list, at);
    lemma_slot(part, at);
    let a = slot(list, at);
    let b = slot(part, at);
    if b < limit {
        assert(part[b] == list[b]);
        if a > b {
            assert(list[b].1.place() >= at);
        }
        if a < b {
            assert(part[a] == list[a]);
        }
    } else if a < limit {
        assert(part[a] == list[a]);
    }
}

/// The `limit` highest scores of the list, from the highest down; equal scores keep their order.
pub fn take_best(list: &[(usize, Score)], limit: usize) -> (r: Vec<(usize, Score)>)
    ensures
        r@ == best(list@, limit as int),
{
    let mut out: Vec<(usize, Score)> = Vec::new();
    let mut i: usize = 0;
    assert(list@.take(0) =~= Seq::<(usize, Score)>::empty());
    while i < list.len()
        invariant
            i <= list.len(),
            out@ == best(list@.take(i as int), limit as int),
        decreases list.len() - i,
    {
        let ghost seen = list@.take(i as int);
        let ghost all = ranked(seen);
        let x = list[i];
        proof {
            ranking_sorts(seen);
            lemma_slot(all, x.1.place());
            assert(list@.take(i + 1).drop_last() =~= seen);
            assert(list@.take(i + 1).last() == x);
            ranking_sorts(list@.take(i + 1));
            if limit < all.len() {
                lemma_slot_take(all, limit as int, x.1.place());
            }
        }
        let ghost before = out@;
        assert(descending(before)) by {
            assert forall|a: int, b: int| 0 <= a < b < before.len() implies (
            #[trigger] before[a]).1.place() >= (#[trigger] before[b]).1.place() by {
                assert(before[a] == all[a] && before[b] == all[b]);
            }
        }
        let key: i64 = x.1.order();
        let mut k: usize = out.len();
        assert(before.take(before.len() as int) =~= before);
        while k > 0 && out[k - 1].1.order() < key
            invariant
                k <= out@.len(),
                out@ == before,
                key == x.1.place(),
                slot(before.take(k as int), key as int) == slot(before, key as int),
            decreases k,
        {
            assert(before.take(k as int).drop_last() =~= before.take(k - 1));
            assert(before.take(k as int).last() == before[k - 1]);
            k -= 1;
        }
        proof {
            if k > 0 {
                assert(before.take(k as int).last() == before[k - 1]);
            }
            assert(slot(before, key as int) == k);
        }
        if k < limit {
            let full: bool = out.len() >= limit;
            out.insert(k, x);
            if full {
                out.truncate(limit);
            }
        }
        assert(out@ =~= best(list@.take(i + 1), limit as int));
        i += 1;
    }
    assert(list@.take(list.len() as int) =~= list@);
    out
}

// ---------------------------------------------------------------------------------------------
// Reciprocal rank fusion

/// The integer nearest to `n / d`; of two equally near ones, the even one.
pub open spec fn nearest(n: nat, d: nat) -> nat {
    let q = n / d;
    let r = n % d;
    if 2 * r < d || (2 * r == d && q % 2 == 0) {
        q
    } else {
        q + 1
    }
}

/// The nearest integer is within half of one, and of two equally near ones it is the even one.
pub proof fn nearest_is_nearest(n: nat, d: nat)
    requires
        d > 0,
    ensures
        2 * n <= (2 * nearest(n, d) + 1) * d,
        (2 * nearest(n, d) - 1) * d <= 2 * n,
        2 * n == (2 * nearest(n, d) + 1) * d || 2 * n == (2 * nearest(n, d) - 1) * d ==> nearest(
            n,
            d,
        ) % 2 == 0,
{
    let q = n / d;
    let r = n % d;
    vstd::arithmetic::div_mod::lemma_fundamental_div_mod(n as int, d as int);
    assert(n == d * q + r && r < d);
    assert((2 * q + 1) * d == 2 * (d * q) + d) by (nonlinear_arith);
    assert((2 * q - 1) * d == 2 * (d * q) - d) by (nonlinear_arith);
    assert((2 * (q + 1) + 1) * d == 2 * (d * q) + 3 * d) by (nonlinear_arith);
    assert((2 * (q + 1) - 1) * d == 2 * (d * q) + d) by (nonlinear_arith);
}

/// What rank `rank` (counted from zero) contributes: the single-precision number nearest to
/// `1 / (RRF_K + rank + 1)`, in units of two to the power of minus thirty.
///
/// Up to the denominator 64 the numbers of that size lie two units apart, behind it one unit.
pub open spec fn share(rank: nat) -> nat {
    let d = RRF_K as nat + rank + 1;
    if d <= 64 {
        2 * nearest(0x2000_0000, d)
    } else {
        nearest(0x4000_0000, d)
    }
}

/// The sum of two shares, rounded to a single-precision number: below `2^25` units those lie two
/// units apart, from there on four.
pub open spec fn share_sum(a: nat, b: nat) -> nat {
    if a + b < 0x200_0000 {
        2 * nearest(a + b, 2)
    } else {
        4 * nearest(a + b, 4)
    }
}

/// The bit pattern of a number of units.
pub open spec fn unit_bits(units: nat) -> nat {
    if units < 0x100_0000 {
        0x3c00_0000 + (units - 0x80_0000) as nat
    } else if units < 0x200_0000 {
        0x3c80_0000 + (units / 2 - 0x80_0000) as nat
    } else {
        0x3d00_0000 + (units / 4 - 0x80_0000) as nat
    }
}

/// The fused score of an item that stands at these ranks in one or both of two ranked lists.
pub open spec fn fused(first: Option<nat>, second: Option<nat>) -> nat {
    match (first, second) {
        (Some(a), Some(b)) => unit_bits(share_sum(share(a), share(b))),
        (Some(a), None) => unit_bits(share(a)),
        (None, Some(b)) => unit_bits(share(b)),
        (None, None) => 0,
    }
}

fn round_quotient(n: u32, d: u32) -> (r: u32)
    requires
        d > 0,
        n < u32::MAX,
        d <= 0x7fff_ffff,
    ensures
        r == nearest(n as nat, d as nat),
{
    let q: u32 = n / d;
    let rest: u32 = n % d;
    if 2 * rest < d || (2 * rest == d && q % 2 == 0) {
        q
    } else {
        q + 1
    }
}

proof fn lemma_share_bounds(rank: nat)
    requires
        rank < HYBRID_CANDIDATES,
    ensures
        0x80_0000 <= share(rank) < 0x120_0000,
        share(rank) >= 0x100_0000 ==> share(rank) % 2 == 0,
{
    let d = RRF_K as nat + rank + 1;
    if d <= 64 {
        assert(d == 61 || d == 62 || d == 63 || d == 64);
    } else {
        let q = 0x4000_0000nat / d;
        assert(0xc0_0000 <= q <= 0xfc_1000) by (nonlinear_arith)
            requires
                q == 0x4000_0000nat / d,
                65 <= d <= 80,
        ;
    }
}

fn share_of(rank: u32) -> (r: u32)
    requires
        rank < HYBRID_CANDIDATES,
    ensures
        r == share(rank as nat),
        0x80_0000 <= r < 0x120_0000,
{
    proof {
        lemma_share_bounds(rank as nat);
    }
    let d: u32 = RRF_K + rank + 1;
    if d <= 64 {
        let half = round_quotient(0x2000_0000, d);
        2 * half
    } else {
        round_quotient(0x4000_0000, d)
    }
}

fn bits_of(units: u32) -> (r: u32)
    requires
        0x80_0000 <= units <= 0x400_0000,
    ensures
        r == unit_bits(units as nat),
{
    if units < 0x100_0000 {
        0x3c00_0000 + (units - 0x80_0000)
    } else if units < 0x200_0000 {
        0x3c80_0000 + (units / 2 - 0x80_0000)
    } else {
        0x3d00_0000 + (units / 4 - 0x80_0000)
    }
}

/// The score of an item that is in one ranked list only, at this rank.
pub fn fuse_one(rank: u32) -> (r: Score)
    requires
        rank < HYBRID_CANDIDATES,
    ensures
        r.bits == fused(Some(rank as nat), None),
        r.bits == fused(None, Some(rank as nat)),
{
    Score { bits: bits_of(share_of(rank)) }
}

/// The score of an item that is in both ranked lists, at these ranks.
pub fn fuse_two(first: u32, second: u32) -> (r: Score)
    requires
        first < HYBRID_CANDIDATES,
        second < HYBRID_CANDIDATES,
    ensures
        r.bits == fused(Some(first as nat), Some(second as nat)),
{
    let total: u32 = share_of(first) + share_of(second);
    let rounded: u32 = if total < 0x200_0000 {
        2 * round_quotient(total, 2)
    } else {
        4 * round_quotient(total, 4)
    };
    Score { bits: bits_of(rounded) }
}

proof fn lemma_nearest_down(n: nat, a: nat, b: nat)
    requires
        0 < a <= b,
    ensures
        nearest(n, b) <= nearest(n, a),
{
    let qa = n / a;
    let ra = n % a;
    let qb = n / b;
    let rb = n % b;
    assert(n == a * qa + ra && ra < a && n == b * qb + rb && rb < b) by (nonlinear_arith)
        requires
            0 < a <= b,
            qa == n / a,
            ra == n % a,
            qb == n / b,
            rb == n % b,
    ;
    assert(qb <= qa) by (nonlinear_arith)
        requires
            n == a * qa + ra,
            ra < a,
            n == b * qb + rb,
            0 < a <= b,
    ;
    if qb == qa {
        assert(rb <= ra) by (nonlinear_arith)
            requires
                n == a * qa + ra,
                n == b * qb + rb,
                qa == qb,
                0 < a <= b,
        ;
    }
}

proof fn lemma_share_down(a: nat, b: nat)
    requires
        a <= b < HYBRID_CANDIDATES,
    ensures
        share(b) <= share(a),
{
    let da = RRF_K as nat + a + 1;
    let db = RRF_K as nat + b + 1;
    if db <= 64 {
        lemma_nearest_down(0x2000_0000, da, db);
    } else if da > 64 {
        lemma_nearest_down(0x4000_0000, da, db);
    } else {
        lemma_nearest_down(0x2000_0000, da, 64);
        lemma_nearest_down(0x4000_0000, 64, db);
    }
}

proof fn lemma_units_down(a: nat, b: nat)
    requires
        0x80_0000 <= a <= b <= 0x400_0000,
    ensures
        unit_bits(a) <= unit_bits(b),
{
}

/// A better rank never lowers the fused score.
#[verifier::spinoff_prover]
#[verifier::rlimit(40)]
pub proof fn better_ranks_score_higher(a: nat, b: nat, other: nat)
    requires
        a <= b < HYBRID_CANDIDATES,
        other < HYBRID_CANDIDATES,
    ensures
        fused(Some(b), None) <= fused(Some(a), None),
        fused(Some(b), Some(other)) <= fused(Some(a), Some(other)),
        fused(Some(other), Some(b)) <= fused(Some(other), Some(a)),
{
    lemma_share_down(a, b);
    lemma_share_bounds(a);
    lemma_share_bounds(b);
    lemma_share_bounds(other);
    lemma_units_down(share(b), share(a));
    lemma_units_down(share_sum(share(b), share(other)), share_sum(share(a), share(other)));
}

/// An item that both lists nominate scores higher than any that only one list nominates.
pub proof fn agreement_scores_higher(a: nat, b: nat, alone: nat)
    requires
        a < HYBRID_CANDIDATES,
        b < HYBRID_CANDIDATES,
        alone < HYBRID_CANDIDATES,
    ensures
        fused(Some(alone), None) < fused(Some(a), Some(b)),
        fused(None, Some(alone)) < fused(Some(a), Some(b)),
{
    lemma_share_down(0, alone);
    lemma_share_down(a, 19);
    lemma_share_down(b, 19);
    assert(nearest(0x2000_0000, 61) == 8801162);
    assert(nearest(0x4000_0000, 80) == 13421773);
    assert(share(0) == 2 * nearest(0x2000_0000, 61));
    assert(share(19) == nearest(0x4000_0000, 80));
    lemma_share_bounds(a);
    lemma_share_bounds(b);
    lemma_share_bounds(alone);
    let sum = share_sum(share(a), share(b));
    assert(26843546 <= sum <= 0x400_0000);
    lemma_units_down(26843546, sum);
    lemma_units_down(share(alone), 17602324);
    assert(unit_bits(17602324) < unit_bits(26843546));
}

/// Fused scores are numbers over zero, so that their bit patterns compare as the numbers do.
pub proof fn fused_scores_are_positive(first: Option<nat>, second: Option<nat>)
    requires
        first matches Some(a) ==> a < HYBRID_CANDIDATES,
        second matches Some(b) ==> b < HYBRID_CANDIDATES,
        first is Some || second is Some,
    ensures
        0 < fused(first, second) <= 0x7f80_0000,
{
    if first is Some {
        lemma_share_bounds(first->0);
    }
    if second is Some {
        lemma_share_bounds(second->0);
    }
}

/// A share is the reciprocal of the rank's denominator within half the distance of single-precision
/// numbers: in units of two to the power of minus thirty within one up to the denominator 64, and
/// within a half behind it.
pub proof fn shares_are_reciprocals(rank: nat)
    ensures
        ({
            let d = 60 + rank + 1;
            let off = share(rank) * d - 0x4000_0000;
            if d <= 64 {
                -d <= off <= d
            } else {
                -d <= 2 * off <= d
            }
        }),
{
    let d = (60 + rank + 1) as nat;
    let n = if d <= 64 {
        nearest(0x2000_0000, d)
    } else {
        nearest(0x4000_0000, d)
    };
    nearest_is_nearest(0x2000_0000, d);
    nearest_is_nearest(0x4000_0000, d);
    assert((2 * n + 1) * d == 2 * (n * d) + d) by (nonlinear_arith);
    assert((2 * n - 1) * d == 2 * (n * d) - d) by (nonlinear_arith);
    assert((2 * n) * d == 2 * (n * d)) by (nonlinear_arith);
}

/// The order of the two lists does not matter for a fused score.
pub proof fn fusion_is_even_handed(a: Option<nat>, b: Option<nat>)
    ensures
        fused(a, b) == fused(b, a),
{
}

/// The sum of two shares is rounded to the nearest single-precision number, so that it is off by at
/// most half the distance of those: one unit below `2^25` units, two from there on.
pub proof fn sums_of_shares_are_near(a: nat, b: nat)
    ensures
        a + b < 0x200_0000 ==> -1 <= share_sum(a, b) - (a + b) <= 1,
        a + b >= 0x200_0000 ==> -2 <= share_sum(a, b) - (a + b) <= 2,
{
    nearest_is_nearest(a + b, 2);
    nearest_is_nearest(a + b, 4);
}

// ---------------------------------------------------------------------------------------------
// Printing

/// The factor of a finite number `fraction * 2^power`.
pub open spec fn fraction(bits: u32) -> nat {
    if (bits / 0x80_0000) % 256 == 0 {
        (bits % 0x80_0000) as nat
    } else {
        (bits % 0x80_0000) as nat + 0x80_0000
    }
}

/// The power of a finite number `fraction * 2^power`.
pub open spec fn power(bits: u32) -> int {
    let e = (bits / 0x80_0000) % 256;
    if e == 0 {
        -149
    } else {
        e - 150
    }
}

/// The hundredths nearest to the size of a finite number; of two equally near ones, the even one.
pub open spec fn hundredths(bits: u32) -> nat {
    if power(bits) >= 0 {
        100 * fraction(bits) * pow2(power(bits) as nat)
    } else {
        nearest(100 * fraction(bits), pow2((-power(bits)) as nat))
    }
}

/// A score with two decimals.
pub open spec fn two_decimals(bits: u32) -> Seq<char> {
    let sign = if bits >= 0x8000_0000 {
        seq!['-']
    } else {
        Seq::empty()
    };
    if (bits / 0x80_0000) % 256 == 255 {
        if bits % 0x80_0000 == 0 {
            sign + "inf"@
        } else {
            "NaN"@
        }
    } else {
        let h = hundredths(bits);
        sign + decimal(h / 100) + seq![
            '.',
            digit(((h / 10) % 10) as int),
            digit((h % 10) as int),
        ]
    }
}

/// The whole part and the hundredths behind it of a finite number's size.
fn parts_of(bits: u32) -> (r: (u128, u8))
    requires
        (bits / 0x80_0000) % 256 != 255,
    ensures
        r.0 == hundredths(bits) / 100,
        r.1 == hundredths(bits) % 100,
{
    let e: u32 = (bits / 0x80_0000) % 256;
    let m: u32 = if e == 0 {
        bits % 0x80_0000
    } else {
        bits % 0x80_0000 + 0x80_0000
    };
    if e >= 150 {
        let n: u32 = e - 150;
        let mut whole: u128 = m as u128;
        let mut i: u32 = 0;
        proof {
            vstd::arithmetic::power2::lemma2_to64();
            vstd::arithmetic::power2::lemma2_to64_rest();
            assert(m * pow2(0) == m);
        }
        while i < n
            invariant
                i <= n <= 104,
                m < 0x100_0000,
                whole == m * pow2(i as nat),
            decreases n - i,
        {
            proof {
                lemma_pow2_unfold((i + 1) as nat);
                assert(m * pow2((i + 1) as nat) == 2 * (m * pow2(i as nat))) by (nonlinear_arith)
                    requires
                        pow2((i + 1) as nat) == 2 * pow2(i as nat),
                ;
                lemma_pow2_pos((i + 1) as nat);
                if i + 1 < 104 {
                    lemma_pow2_strictly_increases((i + 1) as nat, 104);
                }
                vstd::arithmetic::power2::lemma2_to64();
                vstd::arithmetic::power2::lemma2_to64_rest();
                vstd::arithmetic::power2::lemma_pow2_adds(52, 52);
                assert(pow2(104) == 0x10_0000_0000_0000 * 0x10_0000_0000_0000) by {
                    assert(pow2(52) == 0x10_0000_0000_0000);
                }
                assert(m * pow2((i + 1) as nat) < 0x100_0000 * pow2(104)) by (nonlinear_arith)
                    requires
                        m < 0x100_0000,
                        0 < pow2((i + 1) as nat) <= pow2(104),
                ;
            }
            whole = 2 * whole;
            i += 1;
        }
        proof {
            let v = m * pow2(n as nat);
            assert(100 * fraction(bits) * pow2(n as nat) == 100 * v) by (nonlinear_arith)
                requires
                    fraction(bits) == m,
                    v == m * pow2(n as nat),
            ;
        }
        (whole, 0)
    } else {
        let n: u32 = 150 - if e == 0 {
            1
        } else {
            e
        };
        let top: u64 = 100 * (m as u64);
        if n > 32 {
            proof {
                vstd::arithmetic::power2::lemma2_to64();
                lemma_pow2_strictly_increases(32, n as nat);
                let d = pow2(n as nat);
                assert(top as nat / d == 0 && top as nat % d == top) by {
                    vstd::arithmetic::div_mod::lemma_basic_div(top as int, d as int);
                    vstd::arithmetic::div_mod::lemma_small_mod(top as nat, d);
                }
            }
            (0, 0)
        } else {
            let mut d: u64 = 1;
            let mut i: u32 = 0;
            proof {
                vstd::arithmetic::power2::lemma2_to64();
            }
            while i < n
                invariant
                    i <= n <= 32,
                    d == pow2(i as nat),
                decreases n - i,
            {
                proof {
                    lemma_pow2_unfold((i + 1) as nat);
                    vstd::arithmetic::power2::lemma2_to64();
                    if i + 1 < 32 {
                        lemma_pow2_strictly_increases((i + 1) as nat, 32);
                    }
                }
                d = 2 * d;
                i += 1;
            }
            proof {
                lemma_pow2_pos(n as nat);
                vstd::arithmetic::power2::lemma2_to64();
                if n < 32 {
                    lemma_pow2_strictly_increases(n as nat, 32);
                }
            }
            let q: u64 = top / d;
            let rest: u64 = top % d;
            assert(q <= top) by (nonlinear_arith)
                requires
                    q == top / d,
                    d > 0,
            ;
            let h: u64 = if 2 * rest < d || (2 * rest == d && q % 2 == 0) {
                q
            } else {
                q + 1
            };
            assert(h == hundredths(bits));
            ((h / 100) as u128, (h % 100) as u8)
        }
    }
}

/// Appends a score with two decimals.
pub fn push_two_decimals(out: &mut String, score: Score)
    ensures
        final(out)@ == old(out)@ + two_decimals(score.bits),
{
    let bits: u32 = score.bits;
    let special: bool = (bits / 0x80_0000) % 256 == 255;
    if special && bits % 0x80_0000 != 0 {
        out.push_str("NaN");
        return;
    }
    if bits >= 0x8000_0000 {
        out.push('-');
    }
    let ghost sign: Seq<char> = if bits >= 0x8000_0000 {
        seq!['-']
    } else {
        Seq::empty()
    };
    assert(out@ =~= old(out)@ + sign);
    if special {
        out.push_str("inf");
        assert(out@ =~= old(out)@ + two_decimals(bits));
        return;
    }
    let (whole, rest) = parts_of(bits);
    push_decimal(out, whole);
    out.push('.');
    out.push(digit_char(rest / 10));
    out.push(digit_char(rest % 10));
    proof {
        let h = hundredths(bits);
        assert((h / 10) % 10 == (h % 100) / 10);
        assert(h % 10 == (h % 100) % 10);
        assert(out@ =~= old(out)@ + two_decimals(bits));
    }
}

/// A score is printed with the hundredths that are nearest to it: a whole part, a point and two
/// digits, with a sign in front of what is negative.
pub proof fn printed_scores_are_near(bits: u32)
    requires
        (bits / 0x80_0000) % 256 != 255,
    ensures
        ({
            let text = two_decimals(bits);
            let h = hundredths(bits);
            let n = (-power(bits)) as nat;
            let start: int = if bits >= 0x8000_0000 {
                1
            } else {
                0
            };
            &&& text.len() >= start + 4
            &&& start == 1 ==> text[0] == '-'
            &&& text[text.len() - 3] == '.'
            &&& digits_value(text.subrange(start, text.len() - 3)) == h / 100
            &&& digits_value(text.subrange(text.len() - 2, text.len() as int)) == h % 100
            &&& power(bits) < 0 ==> (2 * h - 1) * pow2(n) <= 2 * (100 * fraction(bits)) <= (2 * h + 1)
                * pow2(n)
            &&& power(bits) >= 0 ==> h == 100 * fraction(bits) * pow2(power(bits) as nat)
        }),
{
    let text = two_decimals(bits);
    let h = hundredths(bits);
    let start: int = if bits >= 0x8000_0000 {
        1
    } else {
        0
    };
    let whole = decimal(h / 100);
    let tens = digit(((h / 10) % 10) as int);
    let ones = digit((h % 10) as int);
    crate::text::lemma_decimal(h / 100);
    assert(text.subrange(start, text.len() - 3) =~= whole);
    let last = text.subrange(text.len() - 2, text.len() as int);
    assert(last =~= seq![tens, ones]);
    assert(last.drop_last() =~= seq![tens]);
    assert(seq![tens].drop_last() =~= Seq::<char>::empty());
    assert(digits_value(seq![tens].drop_last()) == 0);
    assert(digits_value(last.drop_last()) == (h / 10) % 10);
    assert(digits_value(last) == ((h / 10) % 10) * 10 + h % 10);
    assert(((h / 10) % 10) * 10 + h % 10 == h % 100);
    if power(bits) < 0 {
        let n = (-power(bits)) as nat;
        lemma_pow2_pos(n);
        nearest_is_nearest(100 * fraction(bits), pow2(n));
    }
}

/// The bit pattern of a number of units is that of the number itself: its factor times its power of
/// two is so many times two to the power of minus thirty.
pub proof fn bits_stand_for_their_units(units: nat)
    requires
        0x80_0000 <= units < 0x400_0000,
        units >= 0x100_0000 ==> units % 2 == 0,
        units >= 0x200_0000 ==> units % 4 == 0,
    ensures
        ({
            let bits = unit_bits(units) as u32;
            &&& unit_bits(units) == bits
            &&& units < 0x100_0000 ==> fraction(bits) == units && power(bits) == -30
            &&& 0x100_0000 <= units < 0x200_0000 ==> fraction(bits) * 2 == units && power(bits)
                == -29
            &&& 0x200_0000 <= units ==> fraction(bits) * 4 == units && power(bits) == -28
        }),
{
    let bits = unit_bits(units) as u32;
    if units < 0x100_0000 {
        let m = units - 0x80_0000;
        assert(bits == 0x3c00_0000 + m);
        assert(bits / 0x80_0000 == 120 && bits % 0x80_0000 == m);
    } else if units < 0x200_0000 {
        let m = units / 2 - 0x80_0000;
        assert(bits == 0x3c80_0000 + m);
        assert(bits / 0x80_0000 == 121 && bits % 0x80_0000 == m);
    } else {
        let m = units / 4 - 0x80_0000;
        assert(bits == 0x3d00_0000 + m);
        assert(bits / 0x80_0000 == 122 && bits % 0x80_0000 == m);
    }
}

} // verus!
