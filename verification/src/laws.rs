//! What holds of the clustering of every row.
use crate::cluster::{
    chunk_bound, cluster, cluster_row, group_ends_below, group_ends_of, group_starts_below,
    group_starts_of, groups_below, groups_len, groups_of, row_singles, singles_below, singles_of,
};
use vstd::prelude::*;

verus! {

/// Whether `p` is an index of the row `[lo, hi)` that holds the chunk `v`.
pub open spec fn holds_chunk(chunks: Seq<usize>, lo: int, hi: int, p: usize, v: usize) -> bool {
    lo <= p < hi && chunks[p as int] == v
}

/// Whether `p` is an index of the row `[lo, hi)` whose chunk is nonzero,
/// below `bound`, and held by at least one other index of the row.
pub open spec fn is_group_member(chunks: Seq<usize>, lo: int, hi: int, bound: int, p: usize) -> bool {
    &&& lo <= p < hi
    &&& 1 <= chunks[p as int] < bound
    &&& cluster(chunks, lo, hi, chunks[p as int]).len() >= 2
}

/// Whether `p` is an index of the row `[lo, hi)` whose chunk is nonzero,
/// below `bound`, and held by no other index of the row.
pub open spec fn is_singleton(chunks: Seq<usize>, lo: int, hi: int, bound: int, p: usize) -> bool {
    &&& lo <= p < hi
    &&& 1 <= chunks[p as int] < bound
    &&& cluster(chunks, lo, hi, chunks[p as int]).len() == 1
}

/// Every member of a cluster lies in the row and holds the cluster's chunk
/// value, the members ascend, and no index of the row with that value is
/// left out.
pub proof fn lemma_cluster_members(chunks: Seq<usize>, lo: int, hi: int, v: usize)
    requires
        0 <= lo <= hi <= chunks.len() <= usize::MAX,
    ensures
        cluster(chunks, lo, hi, v).len() <= hi - lo,
        forall|k: int|
            0 <= k < cluster(chunks, lo, hi, v).len() ==> holds_chunk(
                chunks,
                lo,
                hi,
                #[trigger] cluster(chunks, lo, hi, v)[k],
                v,
            ),
        forall|a: int, b: int|
            0 <= a < b < cluster(chunks, lo, hi, v).len() ==> cluster(chunks, lo, hi, v)[a]
                < cluster(chunks, lo, hi, v)[b],
        forall|p: usize|
            holds_chunk(chunks, lo, hi, p, v) ==> cluster(chunks, lo, hi, v).contains(p),
    decreases hi - lo,
{
    if hi > lo {
        lemma_cluster_members(chunks, lo, hi - 1, v);
        let before = cluster(chunks, lo, hi - 1, v);
        let all = cluster(chunks, lo, hi, v);
        assert forall|p: usize| holds_chunk(chunks, lo, hi, p, v) implies all.contains(p) by {
            if p < hi - 1 {
                assert(holds_chunk(chunks, lo, hi - 1, p, v));
                let k = choose|k: int| 0 <= k < before.len() && before[k] == p;
                assert(all[k] == p);
            } else {
                assert(all[all.len() - 1] == p);
            }
        }
    }
}

/// Chunk values that nothing in the row holds add nothing to the groups,
/// the singletons or the group boundaries.
pub proof fn lemma_absent_values(chunks: Seq<usize>, lo: int, hi: int, from: int, to: int)
    requires
        1 <= from <= to <= chunk_bound(),
        forall|v: usize| from <= v < to ==> (#[trigger] cluster(chunks, lo, hi, v)).len() == 0,
    ensures
        groups_below(chunks, lo, hi, to) == groups_below(chunks, lo, hi, from),
        singles_below(chunks, lo, hi, to) == singles_below(chunks, lo, hi, from),
        group_starts_below(chunks, lo, hi, to) == group_starts_below(chunks, lo, hi, from),
        group_ends_below(chunks, lo, hi, to) == group_ends_below(chunks, lo, hi, from),
    decreases to - from,
{
    if from < to {
        lemma_absent_values(chunks, lo, hi, from, to - 1);
        assert(cluster(chunks, lo, hi, (to - 1) as usize).len() == 0);
    }
}

/// The number of indices in `[lo, hi)` whose chunk `v` has `1 <= v < bound`.
pub open spec fn count_below(chunks: Seq<usize>, lo: int, hi: int, bound: int) -> nat
    decreases hi - lo,
{
    if hi <= lo {
        0
    } else if 1 <= chunks[hi - 1] < bound {
        count_below(chunks, lo, hi - 1, bound) + 1
    } else {
        count_below(chunks, lo, hi - 1, bound)
    }
}

/// Raising the bound by one counts the cluster of the value that came in.
pub proof fn lemma_count_step(chunks: Seq<usize>, lo: int, hi: int, bound: int)
    requires
        2 <= bound <= chunk_bound(),
    ensures
        count_below(chunks, lo, hi, bound) == count_below(chunks, lo, hi, bound - 1) + cluster(
            chunks,
            lo,
            hi,
            (bound - 1) as usize,
        ).len(),
    decreases hi - lo,
{
    if hi > lo {
        lemma_count_step(chunks, lo, hi - 1, bound);
    }
}

/// The indices of a row are those that hold zero and those counted below
/// the full bound.
pub proof fn lemma_count_all(chunks: Seq<usize>, lo: int, hi: int)
    requires
        lo <= hi,
    ensures
        count_below(chunks, lo, hi, chunk_bound()) + cluster(chunks, lo, hi, 0).len() == hi - lo,
    decreases hi - lo,
{
    if hi > lo {
        lemma_count_all(chunks, lo, hi - 1);
    }
}

/// The count never exceeds the width of the row.
pub proof fn lemma_count_bounded(chunks: Seq<usize>, lo: int, hi: int, bound: int)
    requires
        lo <= hi,
    ensures
        count_below(chunks, lo, hi, bound) <= hi - lo,
    decreases hi - lo,
{
    if hi > lo {
        lemma_count_bounded(chunks, lo, hi - 1, bound);
    }
}

/// Groups and singletons below a bound hold between them as many indices
/// as the row has chunks below that bound.
pub proof fn lemma_len_below(chunks: Seq<usize>, lo: int, hi: int, bound: int)
    requires
        bound <= chunk_bound(),
    ensures
        groups_below(chunks, lo, hi, bound).len() + singles_below(chunks, lo, hi, bound).len()
            == count_below(chunks, lo, hi, bound),
    decreases bound,
{
    if bound <= 1 {
        lemma_count_none(chunks, lo, hi, bound);
    } else {
        lemma_len_below(chunks, lo, hi, bound - 1);
        lemma_count_step(chunks, lo, hi, bound);
    }
}

/// No chunk lies below the bound one.
pub proof fn lemma_count_none(chunks: Seq<usize>, lo: int, hi: int, bound: int)
    requires
        bound <= 1,
    ensures
        count_below(chunks, lo, hi, bound) == 0,
    decreases hi - lo,
{
    if hi > lo {
        lemma_count_none(chunks, lo, hi - 1, bound);
    }
}

/// The members of the groups below a bound lie in the row and hold a chunk
/// value below the bound that two or more indices of the row share.
pub proof fn lemma_groups_members(chunks: Seq<usize>, lo: int, hi: int, bound: int)
    requires
        0 <= lo <= hi <= chunks.len() <= usize::MAX,
        bound <= chunk_bound(),
    ensures
        forall|j: int|
            0 <= j < groups_below(chunks, lo, hi, bound).len() ==> is_group_member(
                chunks,
                lo,
                hi,
                bound,
                #[trigger] groups_below(chunks, lo, hi, bound)[j],
            ),
    decreases bound,
{
    if bound > 1 {
        let v = (bound - 1) as usize;
        let before = groups_below(chunks, lo, hi, bound - 1);
        let members = cluster(chunks, lo, hi, v);
        let all = groups_below(chunks, lo, hi, bound);
        lemma_groups_members(chunks, lo, hi, bound - 1);
        lemma_cluster_members(chunks, lo, hi, v);
        assert forall|j: int| 0 <= j < all.len() implies is_group_member(
            chunks,
            lo,
            hi,
            bound,
            #[trigger] all[j],
        ) by {
            if j < before.len() {
                assert(is_group_member(chunks, lo, hi, bound - 1, before[j]));
            } else {
                assert(holds_chunk(chunks, lo, hi, members[j - before.len()], v));
            }
        }
    }
}

/// The singletons below a bound lie in the row and hold a chunk value below
/// the bound that no other index of the row holds.
pub proof fn lemma_singles_members(chunks: Seq<usize>, lo: int, hi: int, bound: int)
    requires
        0 <= lo <= hi <= chunks.len() <= usize::MAX,
        bound <= chunk_bound(),
    ensures
        forall|j: int|
            0 <= j < singles_below(chunks, lo, hi, bound).len() ==> is_singleton(
                chunks,
                lo,
                hi,
                bound,
                #[trigger] singles_below(chunks, lo, hi, bound)[j],
            ),
    decreases bound,
{
    if bound > 1 {
        let v = (bound - 1) as usize;
        let before = singles_below(chunks, lo, hi, bound - 1);
        let members = cluster(chunks, lo, hi, v);
        let all = singles_below(chunks, lo, hi, bound);
        lemma_singles_members(chunks, lo, hi, bound - 1);
        lemma_cluster_members(chunks, lo, hi, v);
        assert forall|j: int| 0 <= j < all.len() implies is_singleton(
            chunks,
            lo,
            hi,
            bound,
            #[trigger] all[j],
        ) by {
            if j < before.len() {
                assert(is_singleton(chunks, lo, hi, bound - 1, before[j]));
            } else {
                assert(holds_chunk(chunks, lo, hi, members[j - before.len()], v));
            }
        }
    }
}

/// Whether the ranges `[starts[k], ends[k])` lie one after the other, each at
/// least `least` long, and cover `[0, total)` between them.
pub open spec fn ranges_tile(starts: Seq<usize>, ends: Seq<usize>, least: int, total: int) -> bool {
    &&& starts.len() == ends.len()
    &&& forall|k: int| 0 <= k < starts.len() ==> #[trigger] starts[k] + least <= ends[k]
    &&& forall|k: int|
        0 <= k < ends.len() ==> (#[trigger] ends[k]) == if k + 1 < starts.len() {
            starts[k + 1] as int
        } else {
            total
        }
    &&& starts.len() > 0 ==> starts[0] == 0
    &&& starts.len() == 0 ==> total == 0
}

/// Ranges that tile `[0, total)` end no earlier than their least lengths
/// add up to, so there are at most `total / least` of them.
pub proof fn lemma_tiles_count(starts: Seq<usize>, ends: Seq<usize>, least: int, total: int)
    requires
        ranges_tile(starts, ends, least, total),
        least >= 1,
    ensures
        starts.len() * least <= total,
        starts.len() <= total,
        forall|k: int| 0 <= k < starts.len() ==> 0 <= #[trigger] starts[k] < ends[k] <= total,
{
    lemma_tiles_reach(starts, ends, least, total, 0);
    if starts.len() == 0 {
        assert(starts.len() * least == 0) by (nonlinear_arith)
            requires
                starts.len() == 0,
        ;
    }
    assert(starts.len() * least >= starts.len()) by (nonlinear_arith)
        requires
            least >= 1,
            starts.len() >= 0,
    ;
    assert forall|k: int| 0 <= k < starts.len() implies 0 <= #[trigger] starts[k] < ends[k]
        <= total by {
        assert(starts[k] + least <= ends[k]);
        if k + 1 < starts.len() {
            lemma_tiles_reach(starts, ends, least, total, k + 1);
            assert((starts.len() - (k + 1)) * least >= 0) by (nonlinear_arith)
                requires
                    least >= 1,
                    starts.len() - (k + 1) >= 0,
            ;
        }
    }
}

/// From the start of range `k` on, tiling ranges need as much room as
/// their least lengths add up to.
pub proof fn lemma_tiles_reach(starts: Seq<usize>, ends: Seq<usize>, least: int, total: int, k: int)
    requires
        ranges_tile(starts, ends, least, total),
        0 <= k <= starts.len(),
    ensures
        k < starts.len() ==> starts[k] + (starts.len() - k) * least <= total,
        k == starts.len() ==> 0 <= total,
    decreases starts.len() - k,
{
    if k < starts.len() {
        lemma_tiles_reach(starts, ends, least, total, k + 1);
        assert(starts[k] + least <= ends[k]);
        assert((starts.len() - k) * least == (starts.len() - (k + 1)) * least + least)
            by (nonlinear_arith);
        if k + 1 == starts.len() {
            assert((starts.len() - (k + 1)) * least == 0) by (nonlinear_arith)
                requires
                    starts.len() - (k + 1) == 0,
            ;
        }
    } else if starts.len() > 0 {
        assert(starts[starts.len() - 1] + least <= ends[starts.len() - 1]);
    }
}

/// The groups below a bound fit in the row.
pub proof fn lemma_groups_fit(chunks: Seq<usize>, lo: int, hi: int, bound: int)
    requires
        lo <= hi,
        bound <= chunk_bound(),
    ensures
        groups_below(chunks, lo, hi, bound).len() + singles_below(chunks, lo, hi, bound).len()
            <= hi - lo,
{
    lemma_len_below(chunks, lo, hi, bound);
    lemma_count_bounded(chunks, lo, hi, bound);
}

/// The boundaries of the groups below a bound lie one after the other, two
/// or more apart, and cover the groups.
pub proof fn lemma_boundaries_tile(chunks: Seq<usize>, lo: int, hi: int, bound: int)
    requires
        0 <= lo <= hi <= chunks.len() <= usize::MAX,
        bound <= chunk_bound(),
    ensures
        ranges_tile(
            group_starts_below(chunks, lo, hi, bound),
            group_ends_below(chunks, lo, hi, bound),
            2,
            groups_below(chunks, lo, hi, bound).len() as int,
        ),
    decreases bound,
{
    if bound > 1 {
        lemma_boundaries_tile(chunks, lo, hi, bound - 1);
        lemma_groups_fit(chunks, lo, hi, bound);
        lemma_groups_fit(chunks, lo, hi, bound - 1);
    }
}

/// Each pair of group boundaries below a bound encloses one whole cluster:
/// that of the chunk value found at its start.
pub proof fn lemma_group_is_cluster(chunks: Seq<usize>, lo: int, hi: int, bound: int, k: int)
    requires
        0 <= lo <= hi <= chunks.len() <= usize::MAX,
        bound <= chunk_bound(),
        0 <= k < group_starts_below(chunks, lo, hi, bound).len(),
    ensures
        ({
            let groups = groups_below(chunks, lo, hi, bound);
            let start = group_starts_below(chunks, lo, hi, bound)[k] as int;
            let end = group_ends_below(chunks, lo, hi, bound)[k] as int;
            &&& 0 <= start < end <= groups.len()
            &&& groups.subrange(start, end) == cluster(chunks, lo, hi, chunks[groups[start] as int])
        }),
    decreases bound,
{
    lemma_boundaries_tile(chunks, lo, hi, bound);
    if bound > 1 {
        let v = (bound - 1) as usize;
        let before = groups_below(chunks, lo, hi, bound - 1);
        let members = cluster(chunks, lo, hi, v);
        let groups = groups_below(chunks, lo, hi, bound);
        let start = group_starts_below(chunks, lo, hi, bound)[k] as int;
        let end = group_ends_below(chunks, lo, hi, bound)[k] as int;
        lemma_boundaries_tile(chunks, lo, hi, bound - 1);
        lemma_groups_fit(chunks, lo, hi, bound);
        lemma_groups_fit(chunks, lo, hi, bound - 1);
        if k < group_starts_below(chunks, lo, hi, bound - 1).len() {
            lemma_group_is_cluster(chunks, lo, hi, bound - 1, k);
            assert(groups.subrange(start, end) =~= before.subrange(start, end));
        } else {
            lemma_cluster_members(chunks, lo, hi, v);
            assert(groups.subrange(start, end) =~= members);
            assert(holds_chunk(chunks, lo, hi, members[0], v));
        }
    }
}

/// Whether the index `p` comes before the index `q` when indices are
/// ordered by their chunk and, among equal chunks, by themselves.
pub open spec fn chunk_order(chunks: Seq<usize>, p: usize, q: usize) -> bool {
    chunks[p as int] < chunks[q as int] || (chunks[p as int] == chunks[q as int] && p < q)
}

/// The members of the groups below a bound stand in ascending order of
/// chunk value, and in ascending order among those of one chunk value.
pub proof fn lemma_groups_ordered(chunks: Seq<usize>, lo: int, hi: int, bound: int)
    requires
        0 <= lo <= hi <= chunks.len() <= usize::MAX,
        bound <= chunk_bound(),
    ensures
        forall|a: int, b: int|
            0 <= a < b < groups_below(chunks, lo, hi, bound).len() ==> chunk_order(
                chunks,
                #[trigger] groups_below(chunks, lo, hi, bound)[a],
                #[trigger] groups_below(chunks, lo, hi, bound)[b],
            ),
    decreases bound,
{
    if bound > 1 {
        let v = (bound - 1) as usize;
        let before = groups_below(chunks, lo, hi, bound - 1);
        let members = cluster(chunks, lo, hi, v);
        let all = groups_below(chunks, lo, hi, bound);
        lemma_groups_ordered(chunks, lo, hi, bound - 1);
        lemma_groups_members(chunks, lo, hi, bound - 1);
        lemma_cluster_members(chunks, lo, hi, v);
        assert forall|a: int, b: int| 0 <= a < b < all.len() implies chunk_order(
            chunks,
            #[trigger] all[a],
            #[trigger] all[b],
        ) by {
            if b < before.len() {
                assert(chunk_order(chunks, before[a], before[b]));
            } else {
                assert(holds_chunk(chunks, lo, hi, members[b - before.len()], v));
                if a < before.len() {
                    assert(is_group_member(chunks, lo, hi, bound - 1, before[a]));
                } else {
                    assert(holds_chunk(chunks, lo, hi, members[a - before.len()], v));
                    assert(members[a - before.len()] < members[b - before.len()]);
                }
            }
        }
    }
}

/// The singletons below a bound stand in ascending order of chunk value.
pub proof fn lemma_singles_ordered(chunks: Seq<usize>, lo: int, hi: int, bound: int)
    requires
        0 <= lo <= hi <= chunks.len() <= usize::MAX,
        bound <= chunk_bound(),
    ensures
        forall|a: int, b: int|
            0 <= a < b < singles_below(chunks, lo, hi, bound).len() ==> chunks[(
            #[trigger] singles_below(chunks, lo, hi, bound)[a]) as int] < chunks[(
            #[trigger] singles_below(chunks, lo, hi, bound)[b]) as int],
    decreases bound,
{
    if bound > 1 {
        let v = (bound - 1) as usize;
        let before = singles_below(chunks, lo, hi, bound - 1);
        let members = cluster(chunks, lo, hi, v);
        let all = singles_below(chunks, lo, hi, bound);
        lemma_singles_ordered(chunks, lo, hi, bound - 1);
        lemma_singles_members(chunks, lo, hi, bound - 1);
        lemma_cluster_members(chunks, lo, hi, v);
        assert forall|a: int, b: int| 0 <= a < b < all.len() implies chunks[(#[trigger] all[a]) as int]
            < chunks[(#[trigger] all[b]) as int] by {
            if b < before.len() {
                assert(chunks[before[a] as int] < chunks[before[b] as int]);
            } else {
                assert(holds_chunk(chunks, lo, hi, members[b - before.len()], v));
                assert(is_singleton(chunks, lo, hi, bound - 1, before[a]));
            }
        }
    }
}

/// No index of the row whose chunk is nonzero and below a bound is left
/// out: it stands among the groups if another index shares its chunk, and
/// among the singletons if none does.
pub proof fn lemma_below_complete(chunks: Seq<usize>, lo: int, hi: int, bound: int, p: usize)
    requires
        0 <= lo <= hi <= chunks.len() <= usize::MAX,
        bound <= chunk_bound(),
    ensures
        is_group_member(chunks, lo, hi, bound, p) ==> groups_below(chunks, lo, hi, bound).contains(p),
        is_singleton(chunks, lo, hi, bound, p) ==> singles_below(chunks, lo, hi, bound).contains(p),
    decreases bound,
{
    if bound > 1 {
        let v = (bound - 1) as usize;
        let members = cluster(chunks, lo, hi, v);
        lemma_below_complete(chunks, lo, hi, bound - 1, p);
        lemma_cluster_members(chunks, lo, hi, v);
        if lo <= p < hi && chunks[p as int] == v {
            assert(holds_chunk(chunks, lo, hi, p, v));
            let k = choose|k: int| 0 <= k < members.len() && members[k] == p;
            if members.len() >= 2 {
                let before = groups_below(chunks, lo, hi, bound - 1);
                assert(groups_below(chunks, lo, hi, bound)[before.len() + k] == p);
            } else {
                let before = singles_below(chunks, lo, hi, bound - 1);
                assert(singles_below(chunks, lo, hi, bound)[before.len() + k] == p);
            }
        } else {
            if is_group_member(chunks, lo, hi, bound, p) {
                assert(is_group_member(chunks, lo, hi, bound - 1, p));
                let before = groups_below(chunks, lo, hi, bound - 1);
                let k = choose|k: int| 0 <= k < before.len() && before[k] == p;
                assert(groups_below(chunks, lo, hi, bound)[k] == p);
            }
            if is_singleton(chunks, lo, hi, bound, p) {
                assert(is_singleton(chunks, lo, hi, bound - 1, p));
                let before = singles_below(chunks, lo, hi, bound - 1);
                let k = choose|k: int| 0 <= k < before.len() && before[k] == p;
                assert(singles_below(chunks, lo, hi, bound)[k] == p);
            }
        }
    }
}

/// The nonzero chunk values below a bound that the row holds.
pub open spec fn distinct_chunks(chunks: Seq<usize>, lo: int, hi: int, bound: int) -> Set<usize> {
    Set::new(|v: usize| 1 <= v < bound && cluster(chunks, lo, hi, v).len() > 0)
}

/// There are as many groups and singletons below a bound as the row holds
/// distinct nonzero chunk values below it.
pub proof fn lemma_distinct_count(chunks: Seq<usize>, lo: int, hi: int, bound: int)
    requires
        bound <= chunk_bound(),
    ensures
        distinct_chunks(chunks, lo, hi, bound).finite(),
        distinct_chunks(chunks, lo, hi, bound).len() == group_starts_below(
            chunks,
            lo,
            hi,
            bound,
        ).len() + singles_below(chunks, lo, hi, bound).len(),
    decreases bound,
{
    if bound <= 1 {
        assert(distinct_chunks(chunks, lo, hi, bound) =~= Set::<usize>::empty());
    } else {
        let v = (bound - 1) as usize;
        lemma_distinct_count(chunks, lo, hi, bound - 1);
        if cluster(chunks, lo, hi, v).len() > 0 {
            assert(distinct_chunks(chunks, lo, hi, bound) =~= distinct_chunks(
                chunks,
                lo,
                hi,
                bound - 1,
            ).insert(v));
        } else {
            assert(distinct_chunks(chunks, lo, hi, bound) =~= distinct_chunks(
                chunks,
                lo,
                hi,
                bound - 1,
            ));
        }
    }
}

/// The lengths of the ranges `[starts[k], ends[k])`, added up.
pub open spec fn covered_length(starts: Seq<usize>, ends: Seq<usize>) -> int
    decreases starts.len(),
{
    if starts.len() == 0 || ends.len() != starts.len() {
        0
    } else {
        covered_length(starts.drop_last(), ends.drop_last()) + (ends.last() - starts.last())
    }
}

/// Ranges that tile `[0, total)` are `total` long between them.
pub proof fn lemma_tiles_cover(starts: Seq<usize>, ends: Seq<usize>, least: int, total: int)
    requires
        ranges_tile(starts, ends, least, total),
    ensures
        covered_length(starts, ends) == total,
    decreases starts.len(),
{
    if starts.len() > 0 {
        let n = starts.len() - 1;
        let fewer_starts = starts.drop_last();
        let fewer_ends = ends.drop_last();
        assert(ends[n] == total);
        if n > 0 {
            assert(ends[n - 1] == starts[n]);
        }
        assert forall|k: int| 0 <= k < fewer_ends.len() implies (#[trigger] fewer_ends[k]) == if k
            + 1 < fewer_starts.len() {
            fewer_starts[k + 1] as int
        } else {
            starts[n] as int
        } by {
            assert(fewer_ends[k] == ends[k]);
        }
        assert forall|k: int| 0 <= k < fewer_starts.len() implies #[trigger] fewer_starts[k] + least
            <= fewer_ends[k] by {
            assert(starts[k] + least <= ends[k]);
        }
        lemma_tiles_cover(fewer_starts, fewer_ends, least, starts[n] as int);
    }
}

/// What holds of the clustering of every row.
///
/// The clustering lists as many indices as the row holds nonzero chunks.
/// The group boundaries lie one after the other, two or more apart, and
/// cover the indices that stand before the singletons, so that the lengths
/// they enclose and the number of singletons add up to the number of
/// indices listed.  There are as many clusters as the row holds distinct
/// nonzero chunk values.
pub proof fn lemma_row_laws(chunks: Seq<usize>, lo: int, hi: int)
    requires
        0 <= lo <= hi <= chunks.len() <= usize::MAX,
    ensures
        ({
            let row = cluster_row(chunks, lo, hi);
            let starts = row.cluster_start_indices;
            let ends = row.cluster_end_indices;
            &&& row.new_point_indices.len() + cluster(chunks, lo, hi, 0).len() == hi - lo
            &&& ranges_tile(starts, ends, 2, groups_len(row))
            &&& 0 <= groups_len(row) <= row.new_point_indices.len()
            &&& row.num_non_zero == starts.len() + row_singles(row).len()
            &&& covered_length(starts, ends) + (row.num_non_zero - starts.len())
                == row.new_point_indices.len()
            &&& row.num_non_zero == distinct_chunks(chunks, lo, hi, chunk_bound()).len()
        }),
{
    let row = cluster_row(chunks, lo, hi);
    let groups = groups_below(chunks, lo, hi, chunk_bound());
    let singles = singles_below(chunks, lo, hi, chunk_bound());
    lemma_len_below(chunks, lo, hi, chunk_bound());
    lemma_count_all(chunks, lo, hi);
    lemma_groups_fit(chunks, lo, hi, chunk_bound());
    lemma_boundaries_tile(chunks, lo, hi, chunk_bound());
    lemma_tiles_count(row.cluster_start_indices, row.cluster_end_indices, 2, groups.len() as int);
    lemma_tiles_cover(row.cluster_start_indices, row.cluster_end_indices, 2, groups.len() as int);
    lemma_distinct_count(chunks, lo, hi, chunk_bound());
    assert(row_singles(row) =~= singles);
}

/// The order in which the clustering of a row lists its indices.
///
/// Before the singletons stand the indices whose chunk another index of
/// the row shares, in ascending order of chunk and, among those of one
/// chunk, in ascending order.  Then stand the indices whose chunk no other
/// index of the row holds, in ascending order of chunk.  No index of the
/// row with a nonzero chunk is left out.
pub proof fn lemma_row_order(chunks: Seq<usize>, lo: int, hi: int)
    requires
        0 <= lo <= hi <= chunks.len() <= usize::MAX,
    ensures
        ({
            let row = cluster_row(chunks, lo, hi);
            let points = row.new_point_indices;
            let split = groups_len(row);
            &&& 0 <= split <= points.len()
            &&& forall|k: int|
                0 <= k < split ==> is_group_member(chunks, lo, hi, chunk_bound(), #[trigger] points[k])
            &&& forall|k: int|
                split <= k < points.len() ==> is_singleton(
                    chunks,
                    lo,
                    hi,
                    chunk_bound(),
                    #[trigger] points[k],
                )
            &&& forall|a: int, b: int|
                0 <= a < b < split ==> chunk_order(chunks, #[trigger] points[a], #[trigger] points[b])
            &&& forall|a: int, b: int|
                split <= a < b < points.len() ==> chunks[(#[trigger] points[a]) as int] < chunks[(
                #[trigger] points[b]) as int]
            &&& forall|p: usize|
                lo <= p < hi && chunks[p as int] != 0 ==> #[trigger] points.contains(p)
        }),
{
    let row = cluster_row(chunks, lo, hi);
    let points = row.new_point_indices;
    let groups = groups_below(chunks, lo, hi, chunk_bound());
    let singles = singles_below(chunks, lo, hi, chunk_bound());
    lemma_groups_fit(chunks, lo, hi, chunk_bound());
    lemma_groups_members(chunks, lo, hi, chunk_bound());
    lemma_singles_members(chunks, lo, hi, chunk_bound());
    lemma_groups_ordered(chunks, lo, hi, chunk_bound());
    lemma_singles_ordered(chunks, lo, hi, chunk_bound());
    assert forall|k: int| 0 <= k < groups.len() implies is_group_member(
        chunks,
        lo,
        hi,
        chunk_bound(),
        #[trigger] points[k],
    ) by {
        assert(points[k] == groups[k]);
    }
    assert forall|k: int| groups.len() <= k < points.len() implies is_singleton(
        chunks,
        lo,
        hi,
        chunk_bound(),
        #[trigger] points[k],
    ) by {
        assert(points[k] == singles[k - groups.len()]);
    }
    assert forall|a: int, b: int| 0 <= a < b < groups.len() implies chunk_order(
        chunks,
        #[trigger] points[a],
        #[trigger] points[b],
    ) by {
        assert(points[a] == groups[a] && points[b] == groups[b]);
    }
    assert forall|a: int, b: int| groups.len() <= a < b < points.len() implies chunks[(
    #[trigger] points[a]) as int] < chunks[(#[trigger] points[b]) as int] by {
        assert(points[a] == singles[a - groups.len()]);
        assert(points[b] == singles[b - groups.len()]);
    }
    assert forall|p: usize| lo <= p < hi && chunks[p as int] != 0 implies #[trigger] points.contains(
        p,
    ) by {
        lemma_below_complete(chunks, lo, hi, chunk_bound(), p);
        lemma_cluster_members(chunks, lo, hi, chunks[p as int]);
        assert(holds_chunk(chunks, lo, hi, p, chunks[p as int]));
        if cluster(chunks, lo, hi, chunks[p as int]).len() >= 2 {
            let k = choose|k: int| 0 <= k < groups.len() && groups[k] == p;
            assert(points[k] == p);
        } else {
            let k = choose|k: int| 0 <= k < singles.len() && singles[k] == p;
            assert(points[groups.len() + k] == p);
        }
    }
}

/// The bound below which the first `n` of the ascending values `keys`, and
/// every value between them, lie.
pub open spec fn bound_after(keys: Seq<usize>, n: int) -> int {
    if n <= 0 {
        1
    } else {
        keys[n - 1] + 1
    }
}

/// The clustering of a row can be read off its chunk values: where `keys`
/// lists in ascending order the nonzero chunk values that the row holds,
/// the groups, the singletons and the group boundaries below the bound
/// after the first `n` keys are those of the first `n` keys.
pub proof fn lemma_keys_suffice(chunks: Seq<usize>, lo: int, hi: int, keys: Seq<usize>, n: int)
    requires
        0 <= n <= keys.len(),
        forall|i: int, j: int| 0 <= i < j < keys.len() ==> keys[i] < keys[j],
        forall|i: int| 0 <= i < keys.len() ==> #[trigger] keys[i] != 0,
        forall|v: usize|
            v != 0 && (#[trigger] cluster(chunks, lo, hi, v)).len() > 0 ==> keys.contains(v),
    ensures
        groups_below(chunks, lo, hi, bound_after(keys, n)) == groups_of(chunks, lo, hi, keys.take(n)),
        singles_below(chunks, lo, hi, bound_after(keys, n)) == singles_of(
            chunks,
            lo,
            hi,
            keys.take(n),
        ),
        group_starts_below(chunks, lo, hi, bound_after(keys, n)) == group_starts_of(
            chunks,
            lo,
            hi,
            keys.take(n),
        ),
        group_ends_below(chunks, lo, hi, bound_after(keys, n)) == group_ends_of(
            chunks,
            lo,
            hi,
            keys.take(n),
        ),
        n == keys.len() ==> groups_below(chunks, lo, hi, chunk_bound()) == groups_of(
            chunks,
            lo,
            hi,
            keys,
        ),
        n == keys.len() ==> singles_below(chunks, lo, hi, chunk_bound()) == singles_of(
            chunks,
            lo,
            hi,
            keys,
        ),
        n == keys.len() ==> group_starts_below(chunks, lo, hi, chunk_bound()) == group_starts_of(
            chunks,
            lo,
            hi,
            keys,
        ),
        n == keys.len() ==> group_ends_below(chunks, lo, hi, chunk_bound()) == group_ends_of(
            chunks,
            lo,
            hi,
            keys,
        ),
    decreases n,
{
    if n > 0 {
        let key = keys[n - 1];
        let below = bound_after(keys, n - 1);
        lemma_keys_suffice(chunks, lo, hi, keys, n - 1);
        if n > 1 {
            assert(keys[n - 2] < keys[n - 1]);
        }
        assert forall|v: usize| below <= v < key implies (#[trigger] cluster(chunks, lo, hi, v)).len()
            == 0 by {
            lemma_gap_has_no_key(keys, n - 1, v);
        }
        lemma_absent_values(chunks, lo, hi, below, key as int);
        assert(keys.take(n).drop_last() =~= keys.take(n - 1));
    }
    if n == keys.len() {
        assert forall|v: usize| bound_after(keys, n) <= v < chunk_bound() implies (
        #[trigger] cluster(chunks, lo, hi, v)).len() == 0 by {
            lemma_gap_has_no_key(keys, n, v);
        }
        lemma_absent_values(chunks, lo, hi, bound_after(keys, n), chunk_bound());
        assert(keys.take(n) =~= keys);
    }
}

/// None of the ascending values `keys` lies in the gap between the first
/// `n` of them and the next one.
pub proof fn lemma_gap_has_no_key(keys: Seq<usize>, n: int, v: usize)
    requires
        0 <= n <= keys.len(),
        forall|i: int, j: int| 0 <= i < j < keys.len() ==> keys[i] < keys[j],
        bound_after(keys, n) <= v,
        n < keys.len() ==> v < keys[n],
    ensures
        !keys.contains(v),
{
    if keys.contains(v) {
        let j = choose|j: int| 0 <= j < keys.len() && keys[j] == v;
        if j < n {
            if j < n - 1 {
                assert(keys[j] < keys[n - 1]);
            }
        } else {
            if j > n {
                assert(keys[n] < keys[j]);
            }
        }
    }
}

} // verus!
