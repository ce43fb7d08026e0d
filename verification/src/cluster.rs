//! The mathematical model of clustering one row of a chunk matrix.
//!
//! A row is the range `[lo, hi)` of flat indices into the chunk sequence.
//! The cluster of a chunk value is the ascending sequence of the flat
//! indices in that range that hold it.  A cluster with two or more members
//! is a group, a cluster with exactly one member is a singleton.
use vstd::prelude::*;

verus! {

/// Whether `len` chunks can be laid out as a matrix of `num_rows` rows.
pub open spec fn shape_is_valid(len: nat, num_rows: nat) -> bool {
    num_rows > 0 && len % num_rows == 0
}

/// The number of columns of a matrix of `len` chunks in `num_rows` rows.
pub open spec fn row_width(len: nat, num_rows: nat) -> nat {
    len / num_rows
}

/// The flat index at which row `row_idx` begins.
pub open spec fn row_start(len: nat, num_rows: nat, row_idx: nat) -> int {
    (row_idx * row_width(len, num_rows)) as int
}

/// The flat index just past the end of row `row_idx`.
pub open spec fn row_end(len: nat, num_rows: nat, row_idx: nat) -> int {
    (row_idx * row_width(len, num_rows) + row_width(len, num_rows)) as int
}

/// One more than the largest chunk value.
pub open spec fn chunk_bound() -> int {
    usize::MAX + 1
}

/// The flat indices in `[lo, hi)` whose chunk is `v`, in ascending order.
pub open spec fn cluster(chunks: Seq<usize>, lo: int, hi: int, v: usize) -> Seq<usize>
    decreases hi - lo,
{
    if hi <= lo {
        Seq::empty()
    } else if chunks[hi - 1] == v {
        cluster(chunks, lo, hi - 1, v).push((hi - 1) as usize)
    } else {
        cluster(chunks, lo, hi - 1, v)
    }
}

/// The groups of the chunk values `1 <= v < bound`, one after the other in
/// ascending order of `v`.
pub open spec fn groups_below(chunks: Seq<usize>, lo: int, hi: int, bound: int) -> Seq<usize>
    decreases bound,
{
    if bound <= 1 {
        Seq::empty()
    } else {
        let members = cluster(chunks, lo, hi, (bound - 1) as usize);
        let before = groups_below(chunks, lo, hi, bound - 1);
        if members.len() >= 2 {
            before + members
        } else {
            before
        }
    }
}

/// The members of the singletons of the chunk values `1 <= v < bound`, in
/// ascending order of `v`.
pub open spec fn singles_below(chunks: Seq<usize>, lo: int, hi: int, bound: int) -> Seq<usize>
    decreases bound,
{
    if bound <= 1 {
        Seq::empty()
    } else {
        let members = cluster(chunks, lo, hi, (bound - 1) as usize);
        let before = singles_below(chunks, lo, hi, bound - 1);
        if members.len() == 1 {
            before + members
        } else {
            before
        }
    }
}

/// For each group of a chunk value `1 <= v < bound`, the offset in
/// `groups_below` at which it begins.
pub open spec fn group_starts_below(chunks: Seq<usize>, lo: int, hi: int, bound: int) -> Seq<usize>
    decreases bound,
{
    if bound <= 1 {
        Seq::empty()
    } else {
        let members = cluster(chunks, lo, hi, (bound - 1) as usize);
        let before = group_starts_below(chunks, lo, hi, bound - 1);
        if members.len() >= 2 {
            before.push(groups_below(chunks, lo, hi, bound - 1).len() as usize)
        } else {
            before
        }
    }
}

/// For each group of a chunk value `1 <= v < bound`, the offset in
/// `groups_below` just past its last member.
pub open spec fn group_ends_below(chunks: Seq<usize>, lo: int, hi: int, bound: int) -> Seq<usize>
    decreases bound,
{
    if bound <= 1 {
        Seq::empty()
    } else {
        let members = cluster(chunks, lo, hi, (bound - 1) as usize);
        let before = group_ends_below(chunks, lo, hi, bound - 1);
        if members.len() >= 2 {
            before.push(groups_below(chunks, lo, hi, bound).len() as usize)
        } else {
            before
        }
    }
}

/// The groups of the chunk values `keys`, one after the other in the order
/// of `keys`.
pub open spec fn groups_of(chunks: Seq<usize>, lo: int, hi: int, keys: Seq<usize>) -> Seq<usize>
    decreases keys.len(),
{
    if keys.len() == 0 {
        Seq::empty()
    } else {
        let members = cluster(chunks, lo, hi, keys.last());
        let before = groups_of(chunks, lo, hi, keys.drop_last());
        if members.len() >= 2 {
            before + members
        } else {
            before
        }
    }
}

/// The members of the singletons of the chunk values `keys`, in the order
/// of `keys`.
pub open spec fn singles_of(chunks: Seq<usize>, lo: int, hi: int, keys: Seq<usize>) -> Seq<usize>
    decreases keys.len(),
{
    if keys.len() == 0 {
        Seq::empty()
    } else {
        let members = cluster(chunks, lo, hi, keys.last());
        let before = singles_of(chunks, lo, hi, keys.drop_last());
        if members.len() == 1 {
            before + members
        } else {
            before
        }
    }
}

/// For each group of a chunk value of `keys`, the offset in `groups_of` at
/// which it begins.
pub open spec fn group_starts_of(chunks: Seq<usize>, lo: int, hi: int, keys: Seq<usize>) -> Seq<
    usize,
>
    decreases keys.len(),
{
    if keys.len() == 0 {
        Seq::empty()
    } else {
        let members = cluster(chunks, lo, hi, keys.last());
        let before = group_starts_of(chunks, lo, hi, keys.drop_last());
        if members.len() >= 2 {
            before.push(groups_of(chunks, lo, hi, keys.drop_last()).len() as usize)
        } else {
            before
        }
    }
}

/// For each group of a chunk value of `keys`, the offset in `groups_of`
/// just past its last member.
pub open spec fn group_ends_of(chunks: Seq<usize>, lo: int, hi: int, keys: Seq<usize>) -> Seq<
    usize,
>
    decreases keys.len(),
{
    if keys.len() == 0 {
        Seq::empty()
    } else {
        let members = cluster(chunks, lo, hi, keys.last());
        let before = group_ends_of(chunks, lo, hi, keys.drop_last());
        if members.len() >= 2 {
            before.push(groups_of(chunks, lo, hi, keys).len() as usize)
        } else {
            before
        }
    }
}

/// What clustering a row yields, as plain sequences.
pub struct RowView {
    /// Members of the groups, then members of the singletons.
    pub new_point_indices: Seq<usize>,
    /// Where each group begins in `new_point_indices`.
    pub cluster_start_indices: Seq<usize>,
    /// Where each group ends in `new_point_indices`.
    pub cluster_end_indices: Seq<usize>,
    /// Where the singletons begin in `new_point_indices`, if there are any.
    pub singles_start: Option<usize>,
    /// The number of clusters.
    pub num_non_zero: usize,
}

/// The clustering of the row `[lo, hi)`.
pub open spec fn cluster_row(chunks: Seq<usize>, lo: int, hi: int) -> RowView {
    let groups = groups_below(chunks, lo, hi, chunk_bound());
    let singles = singles_below(chunks, lo, hi, chunk_bound());
    let starts = group_starts_below(chunks, lo, hi, chunk_bound());
    RowView {
        new_point_indices: groups + singles,
        cluster_start_indices: starts,
        cluster_end_indices: group_ends_below(chunks, lo, hi, chunk_bound()),
        singles_start: if singles.len() > 0 {
            Some(groups.len() as usize)
        } else {
            None
        },
        num_non_zero: (starts.len() + singles.len()) as usize,
    }
}

/// The number of indices that stand among a row's groups.
pub open spec fn groups_len(row: RowView) -> int {
    match row.singles_start {
        Some(start) => start as int,
        None => row.new_point_indices.len() as int,
    }
}

/// The singletons of a row.
pub open spec fn row_singles(row: RowView) -> Seq<usize> {
    row.new_point_indices.skip(groups_len(row))
}

/// Whether the row `[lo, hi)` holds no nonzero chunk.
pub open spec fn row_is_empty(chunks: Seq<usize>, lo: int, hi: int) -> bool {
    forall|p: int| lo <= p < hi ==> chunks[p] == 0
}

} // verus!
