//! The rank scorer: one score from a small, ordered set of optional ranks.
//!
//! Each slot that holds a strictly positive rank `r` adds `1 / (k + r)`. A slot
//! that is absent, zero or negative adds nothing. When no slot adds anything
//! there is no score at all, which is not the same as a score of zero.
//!
//! A score is returned as an [`RrfSum`]: the constant and the contributing
//! ranks in slot order. Its value is the real number [`Terms::value`]; adding
//! the terms in the order they are held gives the same rounded number on every
//! call.

use vstd::prelude::*;
use crate::error::{check_constant, RrfError};

verus! {

/// The rank that a slot adds to a score, if it adds one.
pub open spec fn contribution(slot: Option<i64>) -> Option<i64> {
    match slot {
        Some(rank) => if rank > 0 {
            Some(rank)
        } else {
            None
        },
        None => None,
    }
}

/// The ranks that count toward a score, in slot order.
pub open spec fn contributing(slots: Seq<Option<i64>>) -> Seq<i64> {
    slots.filter_map(|slot: Option<i64>| contribution(slot))
}

/// The term that one rank adds under the constant `k`.
pub open spec fn reciprocal(k: int, rank: int) -> real {
    (1 as real) / ((k + rank) as real)
}

/// The sum of the terms of `ranks` under `k`, added from the first rank to the last.
pub open spec fn reciprocal_sum(k: int, ranks: Seq<i64>) -> real
    decreases ranks.len(),
{
    if ranks.len() == 0 {
        0 as real
    } else {
        reciprocal_sum(k, ranks.drop_last()) + reciprocal(k, ranks.last() as int)
    }
}

/// The mathematical content of an exact score.
pub struct Terms {
    /// The smoothing constant.
    pub k: i64,
    /// The contributing ranks, in slot order.
    pub ranks: Seq<i64>,
}

impl Terms {
    /// Whether the constant and every rank are strictly positive, so that each
    /// term is the reciprocal of a positive number.
    pub open spec fn well_formed(self) -> bool {
        &&& self.k > 0
        &&& forall|i: int| 0 <= i < self.ranks.len() ==> self.ranks[i] > 0
    }

    /// The number that the terms add up to.
    pub open spec fn value(self) -> real {
        reciprocal_sum(self.k as int, self.ranks)
    }
}

/// An exact score: the terms `1 / (k + r)` it is made of, one for each
/// contributing rank and in slot order, rather than a rounded number.
#[derive(Debug, PartialEq, Eq)]
pub struct RrfSum {
    /// The smoothing constant.
    pub k: i64,
    /// The contributing ranks, in slot order.
    pub ranks: Vec<i64>,
}

impl View for RrfSum {
    type V = Terms;

    open spec fn view(&self) -> Terms {
        Terms { k: self.k, ranks: self.ranks@ }
    }
}

/// The score that the slots have under an accepted `k`: none when no slot
/// contributes.
pub open spec fn terms_of(slots: Seq<Option<i64>>, k: i64) -> Option<Terms> {
    let ranks = contributing(slots);
    if ranks.len() == 0 {
        None
    } else {
        Some(Terms { k, ranks })
    }
}

/// What a scoring call returns: a refusal when `k` is not strictly positive,
/// whatever the slots hold, and otherwise the score of the slots.
pub open spec fn score(slots: Seq<Option<i64>>, k: i64) -> Result<Option<Terms>, RrfError> {
    if k <= 0 {
        Err(RrfError::InvalidConstant)
    } else {
        Ok(terms_of(slots, k))
    }
}

/// The mathematical content of what a scoring call returned.
pub open spec fn scored(res: Result<Option<RrfSum>, RrfError>) -> Result<
    Option<Terms>,
    RrfError,
> {
    match res {
        Ok(Some(sum)) => Ok(Some(sum@)),
        Ok(None) => Ok(None),
        Err(refusal) => Err(refusal),
    }
}

/// Scores `slots` under a constant that has been accepted already.
pub(crate) fn accumulate(slots: &[Option<i64>], k: i64) -> (sum: Option<RrfSum>)
    requires
        k > 0,
    ensures
        scored(Ok(sum)) == score(slots@, k),
{
    let mut ranks: Vec<i64> = Vec::new();
    for i in 0..slots.len()
        invariant
            ranks@ == contributing(slots@.take(i as int)),
    {
        proof {
            slots@.lemma_filter_map_take_succ(|slot: Option<i64>| contribution(slot), i as int);
        }
        if let Some(rank) = slots[i] {
            if rank > 0 {
                ranks.push(rank);
            }
        }
    }
    assert(slots@.take(slots.len() as int) =~= slots@);
    if ranks.len() == 0 {
        None
    } else {
        Some(RrfSum { k, ranks })
    }
}

/// Scores an ordered sequence of optional ranks under the constant `k`.
///
/// The call is refused exactly when `k` is zero or negative, whatever the
/// slots hold. Otherwise there is no score when no slot holds a strictly
/// positive rank, and else the score is made of the strictly positive ranks in
/// slot order.
pub fn rrf_sum(slots: &[Option<i64>], k: i64) -> (res: Result<Option<RrfSum>, RrfError>)
    ensures
        scored(res) == score(slots@, k),
        res is Err <==> k <= 0,
{
    match check_constant(k) {
        Err(refusal) => Err(refusal),
        Ok(()) => Ok(accumulate(slots, k)),
    }
}

/// Scores two rank slots.
pub fn rrf(rank_a: Option<i64>, rank_b: Option<i64>, k: i64) -> (res: Result<
    Option<RrfSum>,
    RrfError,
>)
    ensures
        scored(res) == score(seq![rank_a, rank_b], k),
        res is Err <==> k <= 0,
{
    let slots = [rank_a, rank_b];
    rrf_sum(&slots, k)
}

/// Scores three rank slots.
pub fn rrf3(
    rank_a: Option<i64>,
    rank_b: Option<i64>,
    rank_c: Option<i64>,
    k: i64,
) -> (res: Result<Option<RrfSum>, RrfError>)
    ensures
        scored(res) == score(seq![rank_a, rank_b, rank_c], k),
        res is Err <==> k <= 0,
{
    let slots = [rank_a, rank_b, rank_c];
    rrf_sum(&slots, k)
}

/// With both slots ranked, the score is `1 / (k + r1) + 1 / (k + r2)`.
pub proof fn lemma_two_ranked_slots(r1: i64, r2: i64, k: i64)
    requires
        k > 0,
        r1 > 0,
        r2 > 0,
    ensures
        score(seq![Some(r1), Some(r2)], k) == Ok::<Option<Terms>, RrfError>(
            Some(Terms { k, ranks: seq![r1, r2] }),
        ),
        (Terms { k, ranks: seq![r1, r2] }).value() == reciprocal(k as int, r1 as int)
            + reciprocal(k as int, r2 as int),
{
    let slots = seq![Some(r1), Some(r2)];
    let ranks = seq![r1, r2];
    reveal_with_fuel(Seq::filter_map, 3);
    assert(contributing(slots) =~= ranks);
    reveal_with_fuel(reciprocal_sum, 3);
}

/// With all three slots ranked, the score is the sum of the three reciprocals,
/// added in slot order.
pub proof fn lemma_three_ranked_slots(r1: i64, r2: i64, r3: i64, k: i64)
    requires
        k > 0,
        r1 > 0,
        r2 > 0,
        r3 > 0,
    ensures
        score(seq![Some(r1), Some(r2), Some(r3)], k) == Ok::<Option<Terms>, RrfError>(
            Some(Terms { k, ranks: seq![r1, r2, r3] }),
        ),
        (Terms { k, ranks: seq![r1, r2, r3] }).value() == reciprocal(k as int, r1 as int)
            + reciprocal(k as int, r2 as int) + reciprocal(k as int, r3 as int),
{
    let slots = seq![Some(r1), Some(r2), Some(r3)];
    let ranks = seq![r1, r2, r3];
    reveal_with_fuel(Seq::filter_map, 4);
    assert(contributing(slots) =~= ranks);
    reveal_with_fuel(reciprocal_sum, 4);
}

/// Two absent slots have no score, whatever the valid constant.
pub proof fn lemma_absent_slots_have_no_score(k: i64)
    requires
        k > 0,
    ensures
        score(seq![None, None], k) == Ok::<Option<Terms>, RrfError>(None),
{
    lemma_contributing_ranks(seq![None, None]);
}

/// There is no score exactly when no slot holds a strictly positive rank.
pub proof fn lemma_no_score_iff_nothing_contributes(slots: Seq<Option<i64>>, k: i64)
    requires
        k > 0,
    ensures
        score(slots, k) == Ok::<Option<Terms>, RrfError>(None) <==> forall|i: int|
            0 <= i < slots.len() ==> contribution(slots[i]) is None,
{
    lemma_contributing_ranks(slots);
}

/// A slot that holds zero or a negative rank counts as an absent slot: putting
/// an absent slot in its place changes nothing, whatever the other slots and
/// the constant are.
pub proof fn lemma_non_positive_rank_counts_as_absent(slots: Seq<Option<i64>>, i: int, k: i64)
    requires
        0 <= i < slots.len(),
        slots[i] matches Some(rank) && rank <= 0,
    ensures
        score(slots, k) == score(slots.update(i, None), k),
{
    lemma_contributing_alike(slots, slots.update(i, None));
}

/// The same for the first of two slots: a first rank of zero or less scores as
/// an absent first slot does.
pub proof fn lemma_non_positive_first_rank_counts_as_absent(
    rank: i64,
    slot_b: Option<i64>,
    k: i64,
)
    requires
        rank <= 0,
    ensures
        score(seq![Some(rank), slot_b], k) == score(seq![None, slot_b], k),
{
    let slots = seq![Some(rank), slot_b];
    lemma_non_positive_rank_counts_as_absent(slots, 0, k);
    assert(slots.update(0, None) =~= seq![None, slot_b]);
}

/// A constant of zero or less is refused whatever the slots hold.
pub proof fn lemma_invalid_constant_is_refused(slots: Seq<Option<i64>>, k: i64)
    requires
        k <= 0,
    ensures
        score(slots, k) == Err::<Option<Terms>, RrfError>(RrfError::InvalidConstant),
{
}

/// A score has at least one term, each term is the reciprocal of a positive
/// number, and so the score is never zero.
pub proof fn lemma_score_is_positive(slots: Seq<Option<i64>>, k: i64)
    ensures
        score(slots, k) matches Ok(Some(terms)) ==> {
            &&& terms.well_formed()
            &&& terms.ranks.len() > 0
            &&& terms.value() > 0 as real
        },
{
    if k > 0 {
        lemma_contributing_ranks(slots);
        lemma_reciprocal_sum_positive(k as int, contributing(slots));
    }
}

/// Two sequences whose slots contribute alike, slot by slot, have the same
/// contributing ranks.
proof fn lemma_contributing_alike(s1: Seq<Option<i64>>, s2: Seq<Option<i64>>)
    requires
        s1.len() == s2.len(),
        forall|i: int| 0 <= i < s1.len() ==> contribution(s1[i]) == contribution(s2[i]),
    ensures
        contributing(s1) == contributing(s2),
    decreases s1.len(),
{
    if s1.len() > 0 {
        lemma_contributing_alike(s1.drop_last(), s2.drop_last());
    }
}

/// Every contributing rank is strictly positive, and there is one exactly when
/// some slot contributes.
proof fn lemma_contributing_ranks(slots: Seq<Option<i64>>)
    ensures
        forall|j: int| 0 <= j < contributing(slots).len() ==> contributing(slots)[j] > 0,
        contributing(slots).len() == 0 <==> forall|i: int|
            0 <= i < slots.len() ==> contribution(slots[i]) is None,
    decreases slots.len(),
{
    if slots.len() > 0 {
        let rest = slots.drop_last();
        lemma_contributing_ranks(rest);
        if contributing(slots).len() == 0 {
            assert forall|i: int| 0 <= i < slots.len() implies contribution(slots[i]) is None by {
                if i < rest.len() {
                    assert(contribution(rest[i]) is None);
                }
            }
        } else if contributing(rest).len() > 0 {
            let i = choose|i: int| 0 <= i < rest.len() && contribution(rest[i]) is Some;
            assert(contribution(slots[i]) is Some);
        }
    }
}

/// A sum of reciprocals of positive numbers is positive, unless it is empty.
proof fn lemma_reciprocal_sum_positive(k: int, ranks: Seq<i64>)
    requires
        k > 0,
        forall|j: int| 0 <= j < ranks.len() ==> ranks[j] > 0,
    ensures
        reciprocal_sum(k, ranks) >= 0 as real,
        ranks.len() > 0 ==> reciprocal_sum(k, ranks) > 0 as real,
    decreases ranks.len(),
{
    if ranks.len() > 0 {
        lemma_reciprocal_sum_positive(k, ranks.drop_last());
        let d = (k + ranks.last()) as real;
        assert((1 as real) / d > 0 as real) by (nonlinear_arith)
            requires
                d > 0 as real,
        ;
    }
}

} // verus!
