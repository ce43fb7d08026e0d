//! Assembling the clusterings of all rows into flat arrays.
use crate::cluster::{
    chunk_bound, cluster, cluster_row, groups_below, groups_len, row_end, row_is_empty,
    row_singles, row_start, row_width, shape_is_valid, singles_below, RowView,
};
use crate::error::PrecomputeError;
use crate::laws::{
    distinct_chunks, holds_chunk, is_group_member, is_singleton, lemma_boundaries_tile,
    lemma_cluster_members, lemma_distinct_count, lemma_group_is_cluster, lemma_groups_fit,
    lemma_groups_members, lemma_singles_members, lemma_tiles_count, ranges_tile,
};
use crate::row::{lemma_row_in_bounds, precompute_with_cluster_method, RowResult};
use vstd::prelude::*;

verus! {

/// The clusterings of all rows of a chunk matrix, laid out in flat arrays.
#[derive(Debug)]
pub struct AllPrecomputeResult {
    /// The `new_point_indices` of the rows, one row after the other.
    pub all_new_point_indices: Vec<usize>,
    /// For each group of each row, the offset in `all_new_point_indices` of
    /// its first member.
    pub all_cluster_start_indices: Vec<usize>,
    /// For each group of each row, the offset in `all_new_point_indices`
    /// past its last member.
    pub all_cluster_end_indices: Vec<usize>,
    /// The singletons of the rows, one row after the other.
    pub all_single_point_indices: Vec<usize>,
    /// The chunk of each entry of `all_single_point_indices`.
    pub all_single_scalar_chunks: Vec<usize>,
    /// For each row, the number of clusters in the rows before it, and the
    /// number of clusters in all rows at the end.
    pub row_ptr: Vec<usize>,
}

/// What assembling yields, as plain sequences.
pub struct CsrView {
    /// The indices that the rows list, one row after the other.
    pub all_new_point_indices: Seq<usize>,
    /// Where each group of each row begins in `all_new_point_indices`.
    pub all_cluster_start_indices: Seq<usize>,
    /// Where each group of each row ends in `all_new_point_indices`.
    pub all_cluster_end_indices: Seq<usize>,
    /// The singletons of the rows, one row after the other.
    pub all_single_point_indices: Seq<usize>,
    /// The chunk of each singleton.
    pub all_single_scalar_chunks: Seq<usize>,
    /// The number of clusters before each row, and in all rows at the end.
    pub row_ptr: Seq<usize>,
}

impl View for AllPrecomputeResult {
    type V = CsrView;

    open spec fn view(&self) -> CsrView {
        CsrView {
            all_new_point_indices: self.all_new_point_indices@,
            all_cluster_start_indices: self.all_cluster_start_indices@,
            all_cluster_end_indices: self.all_cluster_end_indices@,
            all_single_point_indices: self.all_single_point_indices@,
            all_single_scalar_chunks: self.all_single_scalar_chunks@,
            row_ptr: self.row_ptr@,
        }
    }
}

/// The clustering of row `row_idx` of the matrix of `num_rows` rows.
pub open spec fn row_at(chunks: Seq<usize>, num_rows: nat, row_idx: nat) -> RowView {
    cluster_row(
        chunks,
        row_start(chunks.len(), num_rows, row_idx),
        row_end(chunks.len(), num_rows, row_idx),
    )
}

/// Whether row `row_idx` of the matrix of `num_rows` rows holds no nonzero
/// chunk.
pub open spec fn row_is_empty_at(chunks: Seq<usize>, num_rows: nat, row_idx: nat) -> bool {
    row_is_empty(
        chunks,
        row_start(chunks.len(), num_rows, row_idx),
        row_end(chunks.len(), num_rows, row_idx),
    )
}

/// Offsets into a row's indices, as offsets into the indices of all rows
/// when `by` indices of earlier rows stand before them.
pub open spec fn shifted(offsets: Seq<usize>, by: nat) -> Seq<usize> {
    Seq::new(offsets.len(), |k: int| (offsets[k] + by) as usize)
}

/// The chunk of each of the given points.
pub open spec fn chunks_at(chunks: Seq<usize>, points: Seq<usize>) -> Seq<usize> {
    Seq::new(points.len(), |k: int| chunks[points[k] as int])
}

/// The flat arrays for the first `upto` rows.
pub open spec fn assemble_rows(chunks: Seq<usize>, num_rows: nat, upto: nat) -> CsrView
    decreases upto,
{
    if upto == 0 {
        CsrView {
            all_new_point_indices: Seq::empty(),
            all_cluster_start_indices: Seq::empty(),
            all_cluster_end_indices: Seq::empty(),
            all_single_point_indices: Seq::empty(),
            all_single_scalar_chunks: Seq::empty(),
            row_ptr: seq![0usize],
        }
    } else {
        let before = assemble_rows(chunks, num_rows, (upto - 1) as nat);
        let row = row_at(chunks, num_rows, (upto - 1) as nat);
        let offset = before.all_new_point_indices.len();
        CsrView {
            all_new_point_indices: before.all_new_point_indices + row.new_point_indices,
            all_cluster_start_indices: before.all_cluster_start_indices + shifted(
                row.cluster_start_indices,
                offset,
            ),
            all_cluster_end_indices: before.all_cluster_end_indices + shifted(
                row.cluster_end_indices,
                offset,
            ),
            all_single_point_indices: before.all_single_point_indices + row_singles(row),
            all_single_scalar_chunks: before.all_single_scalar_chunks + chunks_at(
                chunks,
                row_singles(row),
            ),
            row_ptr: before.row_ptr.push((before.row_ptr.last() + row.num_non_zero) as usize),
        }
    }
}

/// What `all_precomputation` returns for a chunk sequence and a row count.
pub open spec fn all_precomputation_spec(chunks: Seq<usize>, num_rows: nat) -> Result<
    CsrView,
    PrecomputeError,
> {
    if !shape_is_valid(chunks.len(), num_rows) {
        Err(PrecomputeError::InvalidShape)
    } else if exists|r: nat| r < num_rows && #[trigger] row_is_empty_at(chunks, num_rows, r) {
        Err(PrecomputeError::EmptyRow)
    } else {
        Ok(assemble_rows(chunks, num_rows, num_rows))
    }
}

/// What holds of the clustering of a row of a matrix of valid shape: the
/// sizes and the indices that the assembly relies on.
pub proof fn lemma_row_fits(chunks: Seq<usize>, num_rows: nat, row_idx: nat)
    requires
        chunks.len() <= usize::MAX,
        shape_is_valid(chunks.len(), num_rows),
        row_idx < num_rows,
    ensures
        ({
            let row = row_at(chunks, num_rows, row_idx);
            &&& row.new_point_indices.len() <= row_width(chunks.len(), num_rows)
            &&& 0 <= groups_len(row) <= row.new_point_indices.len()
            &&& row.num_non_zero <= row.new_point_indices.len()
            &&& row.num_non_zero == row.cluster_start_indices.len() + row_singles(row).len()
            &&& ranges_tile(row.cluster_start_indices, row.cluster_end_indices, 2, groups_len(row))
            &&& forall|k: int|
                0 <= k < row.new_point_indices.len() ==> (#[trigger] row.new_point_indices[k])
                    < chunks.len()
        }),
{
    let len = chunks.len();
    let lo = row_start(len, num_rows, row_idx);
    let hi = row_end(len, num_rows, row_idx);
    let row = row_at(chunks, num_rows, row_idx);
    let groups = groups_below(chunks, lo, hi, chunk_bound());
    let singles = singles_below(chunks, lo, hi, chunk_bound());
    lemma_row_in_bounds(len, num_rows, row_idx);
    lemma_groups_fit(chunks, lo, hi, chunk_bound());
    lemma_boundaries_tile(chunks, lo, hi, chunk_bound());
    lemma_tiles_count(row.cluster_start_indices, row.cluster_end_indices, 2, groups.len() as int);
    lemma_groups_members(chunks, lo, hi, chunk_bound());
    lemma_singles_members(chunks, lo, hi, chunk_bound());
    assert(row_singles(row) =~= singles);
    assert forall|k: int| 0 <= k < row.new_point_indices.len() implies (
    #[trigger] row.new_point_indices[k]) < chunks.len() by {
        if k < groups.len() {
            assert(is_group_member(chunks, lo, hi, chunk_bound(), groups[k]));
        } else {
            assert(is_singleton(chunks, lo, hi, chunk_bound(), singles[k - groups.len()]));
        }
    }
}

/// The sizes of the flat arrays for the first `upto` rows.
pub proof fn lemma_assembled_sizes(chunks: Seq<usize>, num_rows: nat, upto: nat)
    requires
        chunks.len() <= usize::MAX,
        shape_is_valid(chunks.len(), num_rows),
        upto <= num_rows,
    ensures
        ({
            let all = assemble_rows(chunks, num_rows, upto);
            &&& all.all_new_point_indices.len() <= upto * row_width(chunks.len(), num_rows)
                <= chunks.len()
            &&& all.row_ptr.len() == upto + 1
            &&& all.row_ptr.last() <= all.all_new_point_indices.len()
            &&& all.all_cluster_start_indices.len() == all.all_cluster_end_indices.len()
            &&& all.all_single_point_indices.len() == all.all_single_scalar_chunks.len()
        }),
    decreases upto,
{
    let width = row_width(chunks.len(), num_rows);
    if upto > 0 {
        let before = (upto - 1) as nat;
        lemma_assembled_sizes(chunks, num_rows, before);
        lemma_row_fits(chunks, num_rows, before);
        lemma_row_in_bounds(chunks.len(), num_rows, before);
        assert(before * width + width == upto * width) by (nonlinear_arith)
            requires
                before + 1 == upto,
        ;
    } else {
        assert(0 * width == 0);
    }
}

/// The number of clusters in the rows before row `upto`: for each of them,
/// the number of distinct nonzero chunk values that it holds.
pub open spec fn clusters_before(chunks: Seq<usize>, num_rows: nat, upto: nat) -> nat
    decreases upto,
{
    if upto == 0 {
        0
    } else {
        let row_idx = (upto - 1) as nat;
        clusters_before(chunks, num_rows, row_idx) + distinct_chunks(
            chunks,
            row_start(chunks.len(), num_rows, row_idx),
            row_end(chunks.len(), num_rows, row_idx),
            chunk_bound(),
        ).len()
    }
}

/// Whether `points[start..end]` is a nonempty range of points that all have
/// the same chunk.
pub open spec fn same_chunk_run(chunks: Seq<usize>, points: Seq<usize>, start: int, end: int) -> bool {
    &&& 0 <= start < end <= points.len()
    &&& forall|j: int|
        start <= j < end ==> chunks[(#[trigger] points[j]) as int] == chunks[points[start] as int]
}

/// The number of clusters of a row is the number of distinct nonzero chunk
/// values that the row holds.
pub proof fn lemma_num_non_zero(chunks: Seq<usize>, num_rows: nat, row_idx: nat)
    requires
        chunks.len() <= usize::MAX,
        shape_is_valid(chunks.len(), num_rows),
        row_idx < num_rows,
    ensures
        row_at(chunks, num_rows, row_idx).num_non_zero == distinct_chunks(
            chunks,
            row_start(chunks.len(), num_rows, row_idx),
            row_end(chunks.len(), num_rows, row_idx),
            chunk_bound(),
        ).len(),
{
    let lo = row_start(chunks.len(), num_rows, row_idx);
    let hi = row_end(chunks.len(), num_rows, row_idx);
    lemma_row_fits(chunks, num_rows, row_idx);
    lemma_distinct_count(chunks, lo, hi, chunk_bound());
    assert(row_singles(row_at(chunks, num_rows, row_idx)) =~= singles_below(
        chunks,
        lo,
        hi,
        chunk_bound(),
    ));
}

/// The row pointers for the first `upto` rows: one per row and one more,
/// each the number of clusters in the rows before it.
pub proof fn lemma_row_ptr(chunks: Seq<usize>, num_rows: nat, upto: nat)
    requires
        chunks.len() <= usize::MAX,
        shape_is_valid(chunks.len(), num_rows),
        upto <= num_rows,
    ensures
        assemble_rows(chunks, num_rows, upto).row_ptr.len() == upto + 1,
        forall|r: int|
            0 <= r <= upto ==> (#[trigger] assemble_rows(chunks, num_rows, upto).row_ptr[r])
                == clusters_before(chunks, num_rows, r as nat),
    decreases upto,
{
    if upto > 0 {
        let row_idx = (upto - 1) as nat;
        lemma_row_ptr(chunks, num_rows, row_idx);
        lemma_assembled_sizes(chunks, num_rows, row_idx);
        lemma_assembled_sizes(chunks, num_rows, upto);
        lemma_row_fits(chunks, num_rows, row_idx);
        lemma_num_non_zero(chunks, num_rows, row_idx);
        let before = assemble_rows(chunks, num_rows, row_idx).row_ptr;
        let all = assemble_rows(chunks, num_rows, upto).row_ptr;
        assert forall|r: int| 0 <= r <= upto implies (#[trigger] all[r]) == clusters_before(
            chunks,
            num_rows,
            r as nat,
        ) by {
            if r < upto {
                assert(all[r] == before[r]);
            }
        }
    }
}

/// The number of clusters before a row does not fall as the row advances.
pub proof fn lemma_clusters_before_monotonic(chunks: Seq<usize>, num_rows: nat, i: nat, j: nat)
    requires
        i <= j,
    ensures
        clusters_before(chunks, num_rows, i) <= clusters_before(chunks, num_rows, j),
    decreases j,
{
    if i < j {
        lemma_clusters_before_monotonic(chunks, num_rows, i, (j - 1) as nat);
    }
}

/// Each pair of boundaries in the flat arrays for the first `upto` rows
/// encloses points of one chunk.
pub proof fn lemma_assembled_runs(chunks: Seq<usize>, num_rows: nat, upto: nat, k: int)
    requires
        chunks.len() <= usize::MAX,
        shape_is_valid(chunks.len(), num_rows),
        upto <= num_rows,
        0 <= k < assemble_rows(chunks, num_rows, upto).all_cluster_start_indices.len(),
    ensures
        ({
            let all = assemble_rows(chunks, num_rows, upto);
            &&& k < all.all_cluster_end_indices.len()
            &&& same_chunk_run(
                chunks,
                all.all_new_point_indices,
                all.all_cluster_start_indices[k] as int,
                all.all_cluster_end_indices[k] as int,
            )
        }),
    decreases upto,
{
    if upto > 0 {
        let row_idx = (upto - 1) as nat;
        let before = assemble_rows(chunks, num_rows, row_idx);
        let all = assemble_rows(chunks, num_rows, upto);
        let row = row_at(chunks, num_rows, row_idx);
        let lo = row_start(chunks.len(), num_rows, row_idx);
        let hi = row_end(chunks.len(), num_rows, row_idx);
        let offset = before.all_new_point_indices.len();
        lemma_assembled_sizes(chunks, num_rows, row_idx);
        lemma_assembled_sizes(chunks, num_rows, upto);
        lemma_row_fits(chunks, num_rows, row_idx);
        lemma_row_in_bounds(chunks.len(), num_rows, row_idx);
        let points = all.all_new_point_indices;
        let start = all.all_cluster_start_indices[k] as int;
        let end = all.all_cluster_end_indices[k] as int;
        if k < before.all_cluster_start_indices.len() {
            lemma_assembled_runs(chunks, num_rows, row_idx, k);
            assert forall|j: int| start <= j < end implies chunks[(#[trigger] points[j]) as int]
                == chunks[points[start] as int] by {
                assert(points[j] == before.all_new_point_indices[j]);
                assert(points[start] == before.all_new_point_indices[start]);
            }
        } else {
            let g = k - before.all_cluster_start_indices.len();
            let groups = groups_below(chunks, lo, hi, chunk_bound());
            let first = row.cluster_start_indices[g] as int;
            let last = row.cluster_end_indices[g] as int;
            lemma_group_is_cluster(chunks, lo, hi, chunk_bound(), g);
            let v = chunks[groups[first] as int];
            lemma_cluster_members(chunks, lo, hi, v);
            assert(start == first + offset);
            assert(end == last + offset);
            assert forall|j: int| start <= j < end implies chunks[(#[trigger] points[j]) as int]
                == chunks[points[start] as int] by {
                let member = groups.subrange(first, last)[j - start];
                assert(points[j] == row.new_point_indices[j - offset]);
                assert(points[j] == member);
                assert(holds_chunk(chunks, lo, hi, cluster(chunks, lo, hi, v)[j - start], v));
                assert(points[start] == groups[first]);
            }
        }
    }
}

/// What holds of the flat arrays for all rows.
///
/// There is a row pointer for each row and one more.  The first is zero,
/// none is less than the one before it, and each is the number of clusters
/// in the rows before it, so that the last is the number of clusters in
/// all rows.  Each pair of boundaries is a pair of offsets into
/// `all_new_point_indices` and encloses points of one chunk.
pub proof fn lemma_assembled_laws(chunks: Seq<usize>, num_rows: nat)
    requires
        chunks.len() <= usize::MAX,
        shape_is_valid(chunks.len(), num_rows),
    ensures
        ({
            let all = assemble_rows(chunks, num_rows, num_rows);
            &&& all.row_ptr.len() == num_rows + 1
            &&& all.row_ptr[0] == 0
            &&& forall|i: int, j: int| 0 <= i <= j <= num_rows ==> all.row_ptr[i] <= all.row_ptr[j]
            &&& forall|r: int|
                0 <= r <= num_rows ==> (#[trigger] all.row_ptr[r]) == clusters_before(
                    chunks,
                    num_rows,
                    r as nat,
                )
            &&& all.all_cluster_start_indices.len() == all.all_cluster_end_indices.len()
            &&& forall|k: int|
                0 <= k < all.all_cluster_start_indices.len() ==> same_chunk_run(
                    chunks,
                    all.all_new_point_indices,
                    (#[trigger] all.all_cluster_start_indices[k]) as int,
                    all.all_cluster_end_indices[k] as int,
                )
        }),
{
    let all = assemble_rows(chunks, num_rows, num_rows);
    lemma_row_ptr(chunks, num_rows, num_rows);
    lemma_assembled_sizes(chunks, num_rows, num_rows);
    assert forall|i: int, j: int| 0 <= i <= j <= num_rows implies all.row_ptr[i]
        <= all.row_ptr[j] by {
        lemma_clusters_before_monotonic(chunks, num_rows, i as nat, j as nat);
    }
    assert forall|k: int| 0 <= k < all.all_cluster_start_indices.len() implies same_chunk_run(
        chunks,
        all.all_new_point_indices,
        (#[trigger] all.all_cluster_start_indices[k]) as int,
        all.all_cluster_end_indices[k] as int,
    ) by {
        lemma_assembled_runs(chunks, num_rows, num_rows, k);
    }
}

/// What a result of `all_precomputation` stands for.
pub open spec fn result_view(res: Result<AllPrecomputeResult, PrecomputeError>) -> Result<
    CsrView,
    PrecomputeError,
> {
    match res {
        Ok(all) => Ok(all@),
        Err(e) => Err(e),
    }
}

/// Assembling is a function of its input: two results that
/// `all_precomputation` may return for the same chunks and the same row
/// count hold the same arrays, or are the same error.
pub proof fn lemma_all_precomputation_deterministic(
    chunks: Seq<usize>,
    num_rows: nat,
    first: Result<AllPrecomputeResult, PrecomputeError>,
    second: Result<AllPrecomputeResult, PrecomputeError>,
)
    requires
        result_view(first) == all_precomputation_spec(chunks, num_rows),
        result_view(second) == all_precomputation_spec(chunks, num_rows),
    ensures
        result_view(first) == result_view(second),
{
}

/// Clusters every row of the `num_rows`-row matrix `scalar_chunks` and lays
/// the clusterings out in flat arrays.
///
/// It fails with `InvalidShape` when `num_rows` is zero or does not divide
/// the number of chunks, and with `EmptyRow` when a row holds no nonzero
/// chunk.
pub fn all_precomputation(scalar_chunks: &[usize], num_rows: usize) -> (res: Result<
    AllPrecomputeResult,
    PrecomputeError,
>)
    ensures
        result_view(res) == all_precomputation_spec(scalar_chunks@, num_rows as nat),
        res matches Ok(all) ==> ({
            &&& all.row_ptr@.len() == num_rows + 1
            &&& all.row_ptr@[0] == 0
            &&& forall|i: int, j: int|
                0 <= i <= j <= num_rows ==> all.row_ptr@[i] <= all.row_ptr@[j]
            &&& forall|r: int|
                0 <= r <= num_rows ==> (#[trigger] all.row_ptr@[r]) == clusters_before(
                    scalar_chunks@,
                    num_rows as nat,
                    r as nat,
                )
            &&& all.all_cluster_start_indices@.len() == all.all_cluster_end_indices@.len()
            &&& forall|k: int|
                0 <= k < all.all_cluster_start_indices@.len() ==> same_chunk_run(
                    scalar_chunks@,
                    all.all_new_point_indices@,
                    (#[trigger] all.all_cluster_start_indices@[k]) as int,
                    all.all_cluster_end_indices@[k] as int,
                )
        }),
{
    if num_rows == 0 || scalar_chunks.len() % num_rows != 0 {
        return Err(PrecomputeError::InvalidShape);
    }
    let ghost chunks = scalar_chunks@;
    let ghost rows = num_rows as nat;
    let mut all_new_point_indices: Vec<usize> = Vec::new();
    let mut all_cluster_start_indices: Vec<usize> = Vec::new();
    let mut all_cluster_end_indices: Vec<usize> = Vec::new();
    let mut all_single_point_indices: Vec<usize> = Vec::new();
    let mut all_single_scalar_chunks: Vec<usize> = Vec::new();
    let mut row_ptr: Vec<usize> = Vec::new();
    row_ptr.push(0);

    let mut row_idx: usize = 0;
    while row_idx < num_rows
        invariant
            row_idx <= num_rows,
            chunks == scalar_chunks@,
            chunks.len() <= usize::MAX,
            rows == num_rows,
            shape_is_valid(chunks.len(), rows),
            forall|r: nat| r < row_idx ==> !#[trigger] row_is_empty_at(chunks, rows, r),
            all_new_point_indices@ == assemble_rows(
                chunks,
                rows,
                row_idx as nat,
            ).all_new_point_indices,
            all_cluster_start_indices@ == assemble_rows(
                chunks,
                rows,
                row_idx as nat,
            ).all_cluster_start_indices,
            all_cluster_end_indices@ == assemble_rows(
                chunks,
                rows,
                row_idx as nat,
            ).all_cluster_end_indices,
            all_single_point_indices@ == assemble_rows(
                chunks,
                rows,
                row_idx as nat,
            ).all_single_point_indices,
            all_single_scalar_chunks@ == assemble_rows(
                chunks,
                rows,
                row_idx as nat,
            ).all_single_scalar_chunks,
            row_ptr@ == assemble_rows(chunks, rows, row_idx as nat).row_ptr,
        decreases num_rows - row_idx,
    {
        let ghost before = assemble_rows(chunks, rows, row_idx as nat);
        let ghost model = row_at(chunks, rows, row_idx as nat);
        let ghost width = row_width(chunks.len(), rows);
        proof {
            lemma_assembled_sizes(chunks, rows, row_idx as nat);
            lemma_row_fits(chunks, rows, row_idx as nat);
            lemma_row_in_bounds(chunks.len(), rows, row_idx as nat);
        }
        let row = match precompute_with_cluster_method(scalar_chunks, row_idx, num_rows) {
            Ok(row) => row,
            Err(e) => {
                assert(row_is_empty_at(chunks, rows, row_idx as nat));
                return Err(e);
            },
        };
        let RowResult {
            new_point_indices,
            cluster_start_indices,
            cluster_end_indices,
            singles_start,
            num_non_zero,
        } = row;
        let mut new_point_indices = new_point_indices;

        row_ptr.push(row_ptr[row_ptr.len() - 1] + num_non_zero);

        if let Some(start) = singles_start {
            let mut i: usize = start;
            while i < new_point_indices.len()
                invariant
                    start <= i <= new_point_indices.len(),
                    chunks == scalar_chunks@,
                    new_point_indices@ == model.new_point_indices,
                    groups_len(model) == start,
                    forall|k: int|
                        0 <= k < model.new_point_indices.len() ==> (
                        #[trigger] model.new_point_indices[k]) < chunks.len(),
                    all_single_point_indices@ == before.all_single_point_indices + row_singles(
                        model,
                    ).take(i - start),
                    all_single_scalar_chunks@ == before.all_single_scalar_chunks + chunks_at(
                        chunks,
                        row_singles(model),
                    ).take(i - start),
                decreases new_point_indices.len() - i,
            {
                let point = new_point_indices[i];
                all_single_point_indices.push(point);
                all_single_scalar_chunks.push(scalar_chunks[point]);
                i += 1;
                assert(all_single_point_indices@ =~= before.all_single_point_indices + row_singles(
                    model,
                ).take(i - start));
                assert(all_single_scalar_chunks@ =~= before.all_single_scalar_chunks + chunks_at(
                    chunks,
                    row_singles(model),
                ).take(i - start));
            }
            assert(row_singles(model).take(i - start) =~= row_singles(model));
            assert(chunks_at(chunks, row_singles(model)).take(i - start) =~= chunks_at(
                chunks,
                row_singles(model),
            ));
        } else {
            assert(row_singles(model) =~= Seq::<usize>::empty());
            assert(all_single_point_indices@ =~= before.all_single_point_indices + row_singles(
                model,
            ));
            assert(all_single_scalar_chunks@ =~= before.all_single_scalar_chunks + chunks_at(
                chunks,
                row_singles(model),
            ));
        }

        let offset = all_new_point_indices.len();
        proof {
            lemma_tiles_count(
                model.cluster_start_indices,
                model.cluster_end_indices,
                2,
                groups_len(model),
            );
        }
        let mut k: usize = 0;
        while k < cluster_start_indices.len()
            invariant
                k <= cluster_start_indices.len(),
                cluster_start_indices@ == model.cluster_start_indices,
                cluster_end_indices@ == model.cluster_end_indices,
                cluster_start_indices@.len() == cluster_end_indices@.len(),
                forall|i: int|
                    0 <= i < cluster_start_indices@.len() ==> (#[trigger] cluster_start_indices@[i])
                        + offset <= usize::MAX,
                forall|i: int|
                    0 <= i < cluster_end_indices@.len() ==> (#[trigger] cluster_end_indices@[i])
                        + offset <= usize::MAX,
                offset == before.all_new_point_indices.len(),
                all_cluster_start_indices@ == before.all_cluster_start_indices + shifted(
                    model.cluster_start_indices,
                    offset as nat,
                ).take(k as int),
                all_cluster_end_indices@ == before.all_cluster_end_indices + shifted(
                    model.cluster_end_indices,
                    offset as nat,
                ).take(k as int),
            decreases cluster_start_indices.len() - k,
        {
            all_cluster_start_indices.push(cluster_start_indices[k] + offset);
            all_cluster_end_indices.push(cluster_end_indices[k] + offset);
            k += 1;
            assert(all_cluster_start_indices@ =~= before.all_cluster_start_indices + shifted(
                model.cluster_start_indices,
                offset as nat,
            ).take(k as int));
            assert(all_cluster_end_indices@ =~= before.all_cluster_end_indices + shifted(
                model.cluster_end_indices,
                offset as nat,
            ).take(k as int));
        }
        assert(shifted(model.cluster_start_indices, offset as nat).take(k as int) =~= shifted(
            model.cluster_start_indices,
            offset as nat,
        ));
        assert(shifted(model.cluster_end_indices, offset as nat).take(k as int) =~= shifted(
            model.cluster_end_indices,
            offset as nat,
        ));

        all_new_point_indices.append(&mut new_point_indices);
        row_idx += 1;
    }
    proof {
        lemma_assembled_laws(chunks, rows);
    }
    Ok(
        AllPrecomputeResult {
            all_new_point_indices,
            all_cluster_start_indices,
            all_cluster_end_indices,
            all_single_point_indices,
            all_single_scalar_chunks,
            row_ptr,
        },
    )
}

} // verus!
