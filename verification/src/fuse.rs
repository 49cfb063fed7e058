//! The list fuser: two ranked lists merged into one row per identifier.
//!
//! Every identifier that stands in at least one of the two lists gets exactly
//! one row. The row holds the identifier's best rank in each list and the
//! score that the scorer gives to those two ranks. The order of the rows is
//! left open, so rows are to be found by their identifier.

use vstd::prelude::*;
use std::collections::HashMap;
use std::collections::HashSet;
use crate::error::{check_constant, RrfError};
use crate::rank::{
    best_rank, best_ranks, held_rank, is_rank_map, lemma_best_rank_is_least,
    lemma_ranked_iff_listed, MAX_LIST_LEN,
};
use crate::score::{
    accumulate, lemma_no_score_iff_nothing_contributes, lemma_score_is_positive, score, terms_of,
    RrfSum, Terms,
};

verus! {

/// The smoothing constant to fuse with when the caller has no reason to pick another.
pub const DEFAULT_K: i64 = 60;

/// One fused result: an identifier, its exact score and its best rank in each list.
#[derive(Debug, PartialEq, Eq)]
pub struct FusionRow {
    /// The identifier the row is about.
    pub id: i64,
    /// The fused score of the identifier.
    pub score: RrfSum,
    /// The best rank of the identifier in the first list, if it stands there.
    pub rank_a: Option<i32>,
    /// The best rank of the identifier in the second list, if it stands there.
    pub rank_b: Option<i32>,
}

/// The list that an optional argument stands for: an absent list is an empty one.
pub open spec fn list_of(ids: Option<Vec<Option<i64>>>) -> Seq<Option<i64>> {
    match ids {
        Some(list) => list@,
        None => Seq::empty(),
    }
}

/// Whether every position of the list can be told as a rank. An absent list
/// always can.
pub open spec fn ranks_fit(ids: Option<Vec<Option<i64>>>) -> bool {
    list_of(ids).len() <= MAX_LIST_LEN
}

/// A row's rank as a mathematical integer.
pub open spec fn rank_of(rank: Option<i32>) -> Option<int> {
    match rank {
        Some(r) => Some(r as int),
        None => None,
    }
}

/// A row's rank as the scorer takes it.
pub open spec fn widened(rank: Option<i32>) -> Option<i64> {
    match rank {
        Some(r) => Some(r as i64),
        None => None,
    }
}

/// The score of an identifier with the given best ranks. Should the scorer
/// find no contributing rank, the score is the empty sum, whose value is zero.
pub open spec fn fused_score(rank_a: Option<i32>, rank_b: Option<i32>, k: i64) -> Terms {
    match terms_of(seq![widened(rank_a), widened(rank_b)], k) {
        Some(terms) => terms,
        None => Terms { k, ranks: Seq::empty() },
    }
}

/// Whether `row` is the row that its identifier has in the fusion of `a` and `b`.
pub open spec fn is_row_of(
    row: FusionRow,
    a: Seq<Option<i64>>,
    b: Seq<Option<i64>>,
    k: i64,
) -> bool {
    &&& rank_of(row.rank_a) == best_rank(a, row.id)
    &&& rank_of(row.rank_b) == best_rank(b, row.id)
    &&& row.score@ == fused_score(row.rank_a, row.rank_b, k)
}

/// The identifiers that stand in at least one of the two lists.
pub open spec fn fused_ids(a: Seq<Option<i64>>, b: Seq<Option<i64>>) -> Set<i64> {
    Set::new(|id: i64| a.contains(Some(id)) || b.contains(Some(id)))
}

/// The identifiers of the rows, in row order.
pub open spec fn row_ids(rows: Seq<FusionRow>) -> Seq<i64> {
    rows.map_values(|row: FusionRow| row.id)
}

/// Whether `rows` is a fusion of `a` and `b` under `k`: exactly one row for each
/// identifier of either list, each holding that identifier's ranks and score.
/// The order of the rows is left open.
pub open spec fn is_fusion(
    rows: Seq<FusionRow>,
    a: Seq<Option<i64>>,
    b: Seq<Option<i64>>,
    k: i64,
) -> bool {
    &&& row_ids(rows).no_duplicates()
    &&& row_ids(rows).to_set() == fused_ids(a, b)
    &&& forall|i: int| 0 <= i < rows.len() ==> is_row_of(#[trigger] rows[i], a, b, k)
}

/// Whether `res` is what fusing `a` and `b` under `k` is owed: a refusal
/// exactly when `k` is zero or negative, and otherwise a fusion of the lists.
pub open spec fn is_outcome(
    res: Result<Vec<FusionRow>, RrfError>,
    a: Seq<Option<i64>>,
    b: Seq<Option<i64>>,
    k: i64,
) -> bool {
    match res {
        Ok(rows) => k > 0 && is_fusion(rows@, a, b, k),
        Err(refusal) => k <= 0 && refusal == RrfError::InvalidConstant,
    }
}

/// Tells whether a list is short enough to be fused.
pub fn can_rank(ids: &Option<Vec<Option<i64>>>) -> (fits: bool)
    ensures
        fits == ranks_fit(*ids),
{
    match ids {
        Some(list) => list.len() <= MAX_LIST_LEN,
        None => true,
    }
}

/// Fuses two ranked lists of any length: the lists are fused when each is short
/// enough for its positions to be told as ranks, and else nothing is done and
/// there is no result.
pub fn rrf_fuse_checked(
    ids_a: Option<Vec<Option<i64>>>,
    ids_b: Option<Vec<Option<i64>>>,
    k: i64,
) -> (res: Option<Result<Vec<FusionRow>, RrfError>>)
    ensures
        res is Some <==> ranks_fit(ids_a) && ranks_fit(ids_b),
        res matches Some(fused) ==> is_outcome(fused, list_of(ids_a), list_of(ids_b), k),
{
    if can_rank(&ids_a) && can_rank(&ids_b) {
        Some(rrf_fuse(ids_a, ids_b, k))
    } else {
        None
    }
}

/// Fuses two ranked lists under the constant `k`.
///
/// The call is refused exactly when `k` is zero or negative, before any row is
/// made. Otherwise the result holds one row for each identifier that stands in
/// at least one list, in no particular order; an absent list counts as empty.
pub fn rrf_fuse(
    ids_a: Option<Vec<Option<i64>>>,
    ids_b: Option<Vec<Option<i64>>>,
    k: i64,
) -> (res: Result<Vec<FusionRow>, RrfError>)
    requires
        ranks_fit(ids_a),
        ranks_fit(ids_b),
    ensures
        is_outcome(res, list_of(ids_a), list_of(ids_b), k),
        res is Err <==> k <= 0,
        res matches Ok(rows) ==> rows@.len() == fused_ids(list_of(ids_a), list_of(ids_b)).len(),
{
    match check_constant(k) {
        Err(refusal) => {
            return Err(refusal);
        },
        Ok(()) => {},
    }
    let ghost a = list_of(ids_a);
    let ghost b = list_of(ids_b);
    let ranks_a = source_ranks(&ids_a);
    let ranks_b = source_ranks(&ids_b);

    let mut ids = HashSet::<i64>::new();
    add_keys(&mut ids, &ranks_a);
    add_keys(&mut ids, &ranks_b);
    proof {
        lemma_rank_map_keys(ranks_a@, a);
        lemma_rank_map_keys(ranks_b@, b);
    }

    let mut rows: Vec<FusionRow> = Vec::with_capacity(ids.len());
    for id in it: ids.iter()
        invariant
            k > 0,
            is_rank_map(ranks_a@, a),
            is_rank_map(ranks_b@, b),
            it.seq().unref().no_duplicates(),
            it.seq().unref().to_set() == fused_ids(a, b),
            row_ids(rows@) == it.seq().unref().take(it.index()),
            it.index() == it.seq().len() ==> row_ids(rows@) == it.seq().unref(),
            forall|i: int| 0 <= i < rows@.len() ==> is_row_of(#[trigger] rows@[i], a, b, k),
    {
        let rank_a = lookup(&ranks_a, *id);
        let rank_b = lookup(&ranks_b, *id);
        let slots = [widen(rank_a), widen(rank_b)];
        let sum = match accumulate(&slots, k) {
            Some(sum) => sum,
            None => RrfSum { k, ranks: Vec::new() },
        };
        let row = FusionRow { id: *id, score: sum, rank_a, rank_b };
        proof {
            let keys = it.seq().unref();
            let read = it.index();
            assert(keys.take(read + 1) =~= keys.take(read).push(row.id));
            assert(read + 1 == keys.len() ==> keys.take(read + 1) =~= keys);
        }
        rows.push(row);
    }
    Ok(rows)
}

/// Builds the best-rank map of a list that may be absent.
fn source_ranks(ids: &Option<Vec<Option<i64>>>) -> (ranks: HashMap<i64, i32>)
    requires
        ranks_fit(*ids),
    ensures
        is_rank_map(ranks@, list_of(*ids)),
{
    match ids {
        Some(list) => best_ranks(list.as_slice()),
        None => {
            let ranks = HashMap::<i64, i32>::new();
            assert forall|id: i64| held_rank(ranks@, id) == best_rank(list_of(*ids), id) by {
                lemma_best_rank_is_least(list_of(*ids), id);
            }
            ranks
        },
    }
}

/// Adds the keys of `ranks` to `ids`.
fn add_keys(ids: &mut HashSet<i64>, ranks: &HashMap<i64, i32>)
    ensures
        final(ids)@ == old(ids)@.union(ranks@.dom()),
{
    let ghost start = ids@;
    for key in it: ranks.keys()
        invariant
            ids@ == start.union(it.seq().unref().take(it.index()).to_set()),
            it.seq().unref().to_set() == ranks@.dom(),
            it.index() == it.seq().len() ==> ids@ == start.union(ranks@.dom()),
    {
        proof {
            let keys = it.seq().unref();
            let read = it.index();
            assert(keys.take(read + 1) =~= keys.take(read).push(*key));
            keys.take(read).lemma_push_to_set_commute(*key);
            assert(read + 1 == keys.len() ==> keys.take(read + 1) =~= keys);
        }
        ids.insert(*key);
    }
}

/// Looks up the rank that a map holds for `id`.
fn lookup(ranks: &HashMap<i64, i32>, id: i64) -> (rank: Option<i32>)
    ensures
        rank_of(rank) == held_rank(ranks@, id),
{
    match ranks.get(&id) {
        Some(rank) => Some(*rank),
        None => None,
    }
}

/// Hands a rank to the scorer.
fn widen(rank: Option<i32>) -> (wide: Option<i64>)
    ensures
        wide == widened(rank),
{
    match rank {
        Some(r) => Some(r as i64),
        None => None,
    }
}

/// A fusion has as many rows as there are distinct identifiers in the two lists.
pub proof fn lemma_fusion_row_count(
    rows: Seq<FusionRow>,
    a: Seq<Option<i64>>,
    b: Seq<Option<i64>>,
    k: i64,
)
    requires
        is_fusion(rows, a, b, k),
    ensures
        rows.len() == fused_ids(a, b).len(),
{
    row_ids(rows).unique_seq_to_set();
}

/// Every row of a fusion holds a rank of one or more from at least one list.
/// So the scorer always finds a score for it: the row's score is the one that
/// the two-slot scorer gives to the row's ranks, it has a term, and it is not
/// zero.
pub proof fn lemma_fusion_rows_are_scored(
    rows: Seq<FusionRow>,
    a: Seq<Option<i64>>,
    b: Seq<Option<i64>>,
    k: i64,
    i: int,
)
    requires
        k > 0,
        is_fusion(rows, a, b, k),
        0 <= i < rows.len(),
    ensures
        rows[i].rank_a is Some || rows[i].rank_b is Some,
        rows[i].rank_a matches Some(rank) ==> rank >= 1,
        rows[i].rank_b matches Some(rank) ==> rank >= 1,
        score(seq![widened(rows[i].rank_a), widened(rows[i].rank_b)], k) == Ok::<
            Option<Terms>,
            RrfError,
        >(Some(rows[i].score@)),
        rows[i].score@.well_formed(),
        rows[i].score@.ranks.len() > 0,
        rows[i].score@.value() > 0 as real,
{
    let row = rows[i];
    let slots = seq![widened(row.rank_a), widened(row.rank_b)];
    assert(row_ids(rows)[i] == row.id);
    assert(fused_ids(a, b).contains(row.id));
    lemma_best_rank_is_least(a, row.id);
    lemma_best_rank_is_least(b, row.id);
    lemma_ranked_iff_listed(a, row.id);
    lemma_ranked_iff_listed(b, row.id);
    lemma_no_score_iff_nothing_contributes(slots, k);
    lemma_score_is_positive(slots, k);
}

/// The rows of a fusion are fixed by the two lists and the constant; only
/// their order is open. Two fusions of the same lists agree on the row of
/// every identifier.
pub proof fn lemma_fusions_agree(
    rows1: Seq<FusionRow>,
    rows2: Seq<FusionRow>,
    a: Seq<Option<i64>>,
    b: Seq<Option<i64>>,
    k: i64,
    i: int,
)
    requires
        is_fusion(rows1, a, b, k),
        is_fusion(rows2, a, b, k),
        0 <= i < rows1.len(),
    ensures
        exists|j: int|
            {
                &&& 0 <= j < rows2.len()
                &&& (#[trigger] rows2[j]).id == rows1[i].id
                &&& rows2[j].rank_a == rows1[i].rank_a
                &&& rows2[j].rank_b == rows1[i].rank_b
                &&& rows2[j].score@ == rows1[i].score@
            },
{
    let id = rows1[i].id;
    assert(row_ids(rows1)[i] == id);
    assert(row_ids(rows2).to_set().contains(id));
    let j = choose|j: int| 0 <= j < rows2.len() && row_ids(rows2)[j] == id;
    assert(rows2[j].id == id);
}

/// Every identifier that a rank map holds stands in the list, and the other way round.
proof fn lemma_rank_map_keys(ranks: Map<i64, i32>, ids: Seq<Option<i64>>)
    requires
        is_rank_map(ranks, ids),
    ensures
        forall|id: i64| ranks.contains_key(id) <==> ids.contains(Some(id)),
{
    assert forall|id: i64| ranks.contains_key(id) <==> ids.contains(Some(id)) by {
        lemma_ranked_iff_listed(ids, id);
    }
}

} // verus!
