//! Best ranks: where each identifier of one ranked list stands first.
//!
//! A ranked list is a sequence of optional identifiers. The position of a slot,
//! counted from one, is the rank it gives to the identifier it holds. An empty
//! slot gives no rank to anything, but it still takes up its position. An
//! identifier that stands at several positions keeps the smallest of them.

use vstd::prelude::*;
use std::collections::hash_map::Entry;
use std::collections::HashMap;

verus! {

/// The longest list whose positions all fit the 32-bit rank that a row holds.
pub const MAX_LIST_LEN: usize = 2147483647;

/// Whether `id` stands at position `p` of `ids`, counted from one.
pub open spec fn occurs_at(ids: Seq<Option<i64>>, id: i64, p: int) -> bool {
    1 <= p <= ids.len() && ids[p - 1] == Some(id)
}

/// The best rank of `id` in `ids`: the position of its first occurrence,
/// counted from one, or none when it stands nowhere.
pub open spec fn best_rank(ids: Seq<Option<i64>>, id: i64) -> Option<int> {
    match ids.index_of_first(Some(id)) {
        Some(i) => Some(i + 1),
        None => None,
    }
}

/// The rank a map holds for `id`, as a mathematical integer.
pub(crate) open spec fn held_rank(ranks: Map<i64, i32>, id: i64) -> Option<int> {
    if ranks.contains_key(id) {
        Some(ranks[id] as int)
    } else {
        None
    }
}

/// Whether `ranks` maps every identifier of `ids` to its best rank, and holds
/// nothing else.
pub(crate) open spec fn is_rank_map(ranks: Map<i64, i32>, ids: Seq<Option<i64>>) -> bool {
    forall|id: i64| held_rank(ranks, id) == best_rank(ids, id)
}

/// Builds the best-rank map of one list.
///
/// The list is read from its first position on. An identifier that is met
/// again keeps the rank it has unless the new one is smaller.
pub(crate) fn best_ranks(ids: &[Option<i64>]) -> (ranks: HashMap<i64, i32>)
    requires
        ids.len() <= MAX_LIST_LEN,
    ensures
        is_rank_map(ranks@, ids@),
{
    let mut ranks = HashMap::<i64, i32>::new();
    assert forall|id: i64| held_rank(ranks@, id) == best_rank(ids@.take(0), id) by {
        lemma_best_rank_is_least(ids@.take(0), id);
    }
    for idx in 0..ids.len()
        invariant
            ids.len() <= MAX_LIST_LEN,
            is_rank_map(ranks@, ids@.take(idx as int)),
    {
        let ghost seen = ids@.take(idx as int);
        assert(ids@.take(idx + 1) =~= seen.push(ids@[idx as int]));
        if let Some(id) = ids[idx] {
            let rank: i32 = (idx + 1) as i32;
            match ranks.entry(id) {
                Entry::Occupied(mut held) => {
                    if rank < *held.get() {
                        held.insert(rank);
                    }
                },
                Entry::Vacant(free) => {
                    free.insert(rank);
                },
            }
        }
        assert forall|other: i64| held_rank(ranks@, other) == best_rank(
            ids@.take(idx + 1),
            other,
        ) by {
            lemma_best_rank_push(seen, ids@[idx as int], other);
            lemma_best_rank_is_least(seen, other);
        }
    }
    assert(ids@.take(ids.len() as int) =~= ids@);
    ranks
}

/// The best rank is the least position of the identifier, and there is none
/// exactly when the identifier has no position. So the rank that is kept for
/// an identifier does not depend on the order in which its positions are met.
pub proof fn lemma_best_rank_is_least(ids: Seq<Option<i64>>, id: i64)
    ensures
        match best_rank(ids, id) {
            Some(p) => occurs_at(ids, id, p) && forall|q: int| occurs_at(ids, id, q) ==> p <= q,
            None => forall|q: int| !occurs_at(ids, id, q),
        },
{
    ids.index_of_first_ensures(Some(id));
}

/// What one more slot at the end does to a best rank: a rank already held
/// stays, so a later occurrence never takes the place of an earlier one.
pub proof fn lemma_best_rank_push(ids: Seq<Option<i64>>, slot: Option<i64>, id: i64)
    ensures
        best_rank(ids.push(slot), id) == (match best_rank(ids, id) {
            Some(p) => Some(p),
            None => if slot == Some(id) {
                Some(ids.len() as int + 1)
            } else {
                None
            },
        }),
{
    let longer = ids.push(slot);
    lemma_best_rank_is_least(ids, id);
    lemma_best_rank_is_least(longer, id);
    let first: int = match best_rank(ids, id) {
        Some(p) => p,
        None => ids.len() as int + 1,
    };
    if best_rank(ids, id) is Some || slot == Some(id) {
        assert forall|q: int| occurs_at(longer, id, q) implies first <= q by {
            if q <= ids.len() {
                assert(occurs_at(ids, id, q));
            }
        }
        lemma_least_position_is_best(longer, id, first);
    } else if let Some(b) = best_rank(longer, id) {
        assert(occurs_at(ids, id, b));
    }
}

/// An identifier has a best rank exactly when it stands in the list.
pub proof fn lemma_ranked_iff_listed(ids: Seq<Option<i64>>, id: i64)
    ensures
        best_rank(ids, id) is Some <==> ids.contains(Some(id)),
{
    ids.index_of_first_ensures(Some(id));
}

/// A position that holds the identifier and has none before it is the best rank.
proof fn lemma_least_position_is_best(ids: Seq<Option<i64>>, id: i64, p: int)
    requires
        occurs_at(ids, id, p),
        forall|q: int| occurs_at(ids, id, q) ==> p <= q,
    ensures
        best_rank(ids, id) == Some(p),
{
    lemma_best_rank_is_least(ids, id);
}

} // verus!
