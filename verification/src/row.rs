//! Clustering one row of a chunk matrix.
use crate::cluster::{
    cluster, cluster_row, group_ends_of, group_starts_of, groups_len, groups_of, row_end,
    row_is_empty, row_start, row_width, shape_is_valid, singles_of, RowView,
};
use crate::error::PrecomputeError;
use crate::laws::{
    covered_length, holds_chunk, lemma_cluster_members, lemma_keys_suffice, lemma_row_laws,
    ranges_tile,
};
use crate::order::lemma_entries_ascend;
use std::collections::BTreeMap;
use vstd::prelude::*;
use vstd::std_specs::iter::IteratorSpec;

verus! {

/// The clustering of one row: the row's points regrouped by chunk value.
#[derive(Debug)]
pub struct RowResult {
    /// The flat indices of the row's nonzero chunks: the groups in ascending
    /// order of chunk value, each in column order, then the singletons in
    /// ascending order of chunk value.
    pub new_point_indices: Vec<usize>,
    /// For each group, the offset in `new_point_indices` of its first member.
    pub cluster_start_indices: Vec<usize>,
    /// For each group, the offset in `new_point_indices` past its last member.
    pub cluster_end_indices: Vec<usize>,
    /// The offset in `new_point_indices` of the first singleton, if any.
    pub singles_start: Option<usize>,
    /// The number of distinct nonzero chunk values in the row.
    pub num_non_zero: usize,
}

impl View for RowResult {
    type V = RowView;

    open spec fn view(&self) -> RowView {
        RowView {
            new_point_indices: self.new_point_indices@,
            cluster_start_indices: self.cluster_start_indices@,
            cluster_end_indices: self.cluster_end_indices@,
            singles_start: self.singles_start,
            num_non_zero: self.num_non_zero,
        }
    }
}

/// Every row of a matrix of valid shape lies within the chunk sequence.
pub proof fn lemma_row_in_bounds(len: nat, num_rows: nat, row_idx: nat)
    requires
        shape_is_valid(len, num_rows),
        row_idx < num_rows,
    ensures
        0 <= row_start(len, num_rows, row_idx) <= row_end(len, num_rows, row_idx) <= len,
        len == num_rows * row_width(len, num_rows),
{
    let w = row_width(len, num_rows);
    assert(len == num_rows * w) by (nonlinear_arith)
        requires
            num_rows > 0,
            len % num_rows == 0,
            w == len / num_rows,
    ;
    assert(0 <= row_idx * w && row_idx * w + w <= num_rows * w) by (nonlinear_arith)
        requires
            row_idx < num_rows,
    ;
}

/// Clusters the row `row_idx` of the `num_rows`-row matrix `scalar_chunks`.
///
/// The row's nonzero chunks are grouped by value.  The result lists the
/// members of the groups (two or more members) in ascending order of chunk
/// value, then the singletons, together with the boundaries of the groups.
/// It fails with `InvalidShape` when `num_rows` does not divide the number
/// of chunks, and with `EmptyRow` when the row holds no nonzero chunk.
pub fn precompute_with_cluster_method(
    scalar_chunks: &[usize],
    row_idx: usize,
    num_rows: usize,
) -> (res: Result<RowResult, PrecomputeError>)
    requires
        row_idx < num_rows,
    ensures
        match res {
            Ok(row) => {
                let len = scalar_chunks@.len();
                let lo = row_start(len, num_rows as nat, row_idx as nat);
                let hi = row_end(len, num_rows as nat, row_idx as nat);
                &&& shape_is_valid(len, num_rows as nat)
                &&& !row_is_empty(scalar_chunks@, lo, hi)
                &&& row@ == cluster_row(scalar_chunks@, lo, hi)
                &&& row.new_point_indices@.len() + cluster(scalar_chunks@, lo, hi, 0).len() == hi
                    - lo
                &&& ranges_tile(
                    row.cluster_start_indices@,
                    row.cluster_end_indices@,
                    2,
                    groups_len(row@),
                )
                &&& covered_length(row.cluster_start_indices@, row.cluster_end_indices@) + (
                row.num_non_zero - row.cluster_start_indices@.len())
                    == row.new_point_indices@.len()
            },
            Err(PrecomputeError::InvalidShape) => !shape_is_valid(
                scalar_chunks@.len(),
                num_rows as nat,
            ),
            Err(PrecomputeError::EmptyRow) => {
                let len = scalar_chunks@.len();
                let lo = row_start(len, num_rows as nat, row_idx as nat);
                let hi = row_end(len, num_rows as nat, row_idx as nat);
                &&& shape_is_valid(len, num_rows as nat)
                &&& row_is_empty(scalar_chunks@, lo, hi)
            },
            Err(PrecomputeError::MalformedInput) => false,
        },
{
    if scalar_chunks.len() % num_rows != 0 {
        return Err(PrecomputeError::InvalidShape);
    }
    let num_cols = scalar_chunks.len() / num_rows;
    let ghost chunks = scalar_chunks@;
    proof {
        lemma_row_in_bounds(chunks.len(), num_rows as nat, row_idx as nat);
    }
    let base = row_idx * num_cols;
    let ghost lo = base as int;
    let ghost hi = base + num_cols;

    let mut clusters: BTreeMap<usize, Vec<usize>> = BTreeMap::new();
    let mut i: usize = 0;
    let ghost mut pos = lo;
    while i < num_cols
        invariant
            i <= num_cols,
            chunks == scalar_chunks@,
            lo == base,
            pos == lo + i,
            hi == base + num_cols,
            hi <= scalar_chunks.len(),
            forall|v: usize|
                v != 0 && (#[trigger] cluster(chunks, lo, pos, v)).len() > 0
                    ==> clusters@.contains_key(v),
            forall|v: usize| #[trigger] clusters@.contains_key(v) ==> v != 0,
            forall|v: usize|
                clusters@.contains_key(v) ==> clusters@[v]@ == #[trigger] cluster(
                    chunks,
                    lo,
                    pos,
                    v,
                ),
            forall|v: usize|
                clusters@.contains_key(v) ==> (#[trigger] cluster(chunks, lo, pos, v)).len() > 0,
        decreases num_cols - i,
    {
        let pt_idx = base + i;
        let chunk = scalar_chunks[pt_idx];
        let ghost next = pos + 1;
        let ghost before = clusters@;
        assert forall|v: usize| #[trigger]
            cluster(chunks, lo, next, v) == (if chunk == v {
                cluster(chunks, lo, pos, v).push(pt_idx)
            } else {
                cluster(chunks, lo, pos, v)
            }) by {}
        if chunk != 0 {
            let mut members = match clusters.remove(&chunk) {
                Some(found) => found,
                None => Vec::new(),
            };
            assert(members@ =~= cluster(chunks, lo, pos, chunk));
            members.push(pt_idx);
            clusters.insert(chunk, members);
            assert forall|v: usize| clusters@.contains_key(v) implies clusters@[v]@
                == #[trigger] cluster(chunks, lo, next, v) by {
                if v != chunk {
                    assert(before.contains_key(v));
                }
            }
        }
        i += 1;
        proof {
            pos = next;
        }
    }
    assert(pos == hi);
    if clusters.is_empty() {
        proof {
            assert forall|p: int| lo <= p < hi implies chunks[p] == 0 by {
                if chunks[p] != 0 {
                    lemma_cluster_members(chunks, lo, hi, chunks[p]);
                    assert(holds_chunk(chunks, lo, hi, p as usize, chunks[p]));
                }
            }
        }
        return Err(PrecomputeError::EmptyRow);
    }
    proof {
        let v = choose|v: usize| clusters@.contains_key(v);
        lemma_cluster_members(chunks, lo, hi, v);
        assert(holds_chunk(chunks, lo, hi, cluster(chunks, lo, hi, v)[0], v));
    }

    let mut cluster_start_indices: Vec<usize> = Vec::new();
    let mut cluster_end_indices: Vec<usize> = Vec::new();
    let mut new_point_indices: Vec<usize> = Vec::new();
    let mut singles: Vec<usize> = Vec::new();

    let entries = clusters.iter();
    let ghost es = entries.remaining();
    let ghost keys = Seq::new(es.len(), |k: int| *es[k].0);
    proof {
        lemma_entries_ascend(es);
    }
    for (key, members) in it: entries
        invariant
            it.seq() == es,
            keys == Seq::new(es.len(), |k: int| *es[k].0),
            es.len() == clusters@.dom().len(),
            forall|k: int| 0 <= k < es.len() ==> clusters@.contains_key(*(#[trigger] es[k]).0),
            forall|k: int| 0 <= k < es.len() ==> clusters@[*(#[trigger] es[k]).0] == *es[k].1,
            forall|v: usize|
                clusters@.contains_key(v) ==> (#[trigger] cluster(chunks, lo, hi, v)) == clusters@[v]@,
            forall|v: usize|
                clusters@.contains_key(v) ==> (#[trigger] cluster(chunks, lo, hi, v)).len() > 0,
            new_point_indices@ == groups_of(chunks, lo, hi, keys.take(it.index())),
            singles@ == singles_of(chunks, lo, hi, keys.take(it.index())),
            cluster_start_indices@ == group_starts_of(chunks, lo, hi, keys.take(it.index())),
            cluster_end_indices@ == group_ends_of(chunks, lo, hi, keys.take(it.index())),
            cluster_start_indices@.len() + singles@.len() == it.index(),
    {
        let ghost n = it.index();
        proof {
            assert(keys.take(n + 1).drop_last() =~= keys.take(n));
            assert(keys.take(n + 1).last() == *key);
            assert(members@ == cluster(chunks, lo, hi, *key));
        }
        if members.len() == 1 {
            singles.push(members[0]);
        } else {
            cluster_start_indices.push(new_point_indices.len());
            new_point_indices.extend_from_slice(members.as_slice());
            cluster_end_indices.push(new_point_indices.len());
        }
        proof {
            assert(new_point_indices@ =~= groups_of(chunks, lo, hi, keys.take(n + 1)));
            assert(singles@ =~= singles_of(chunks, lo, hi, keys.take(n + 1)));
            assert(cluster_start_indices@ =~= group_starts_of(chunks, lo, hi, keys.take(n + 1)));
            assert(cluster_end_indices@ =~= group_ends_of(chunks, lo, hi, keys.take(n + 1)));
        }
    }
    proof {
        assert(keys.take(keys.len() as int) =~= keys);
        assert forall|v: usize|
            v != 0 && (#[trigger] cluster(chunks, lo, hi, v)).len() > 0 implies keys.contains(v) by {
            let k = choose|k: int| 0 <= k < es.len() && *(#[trigger] es[k]).0 == v;
            assert(keys[k] == v);
        }
        lemma_keys_suffice(chunks, lo, hi, keys, keys.len() as int);
        lemma_row_laws(chunks, lo, hi);
    }
    let singles_start = if singles.len() > 0 {
        Some(new_point_indices.len())
    } else {
        None
    };
    let num_non_zero = clusters.len();
    new_point_indices.append(&mut singles);
    Ok(
        RowResult {
            new_point_indices,
            cluster_start_indices,
            cluster_end_indices,
            singles_start,
            num_non_zero,
        },
    )
}

} // verus!
