//! What goes to a device and what is read from it.

use vstd::prelude::*;
use crate::float::Floats;
use crate::gpu::{laid_out, least, size_of_number, DenseView, GpuLimits};
use crate::gpu_batch::{batch_row, decoded, decoded_from, BatchView, GpuResult, ScoredRow};
use crate::gpu_scan::{flat_norms, flat_present, flat_values, packed, packed_from, packed_shard, row_values, shard_size, PackedView};
use crate::vector::element_finite;

verus! {

/// Whether a score is what a device gave for a candidate: none where it says that there is no vector.
pub open spec fn read_as(result: GpuResult, scored: ScoredRow) -> bool {
    ||| result.state == 0 && scored.score is None
    ||| result.state == 1 && element_finite(result.score) && scored.score == Some(result.score)
}

proof fn lemma_decoded(results: Seq<GpuResult>, first_row: nat, batch: BatchView, from: nat, done: Seq<ScoredRow>)
    requires
        from <= results.len(),
        done.len() == from,
        forall|i: int|
            0 <= i < from ==> read_as(results[i], #[trigger] done[i]) && done[i].row == batch_row(first_row, batch, i as nat) as usize,
    ensures
        decoded_from(results, first_row, batch, from, done) matches Ok(scores) ==> scores.len() == results.len() && forall|i: int|
            0 <= i < scores.len() ==> read_as(results[i], #[trigger] scores[i]) && scores[i].row == batch_row(
                first_row,
                batch,
                i as nat,
            ) as usize,
        decoded_from(results, first_row, batch, from, done) is Ok <==> forall|i: int|
            from <= i < results.len() ==> (#[trigger] results[i]).state == 0 || (results[i].state == 1 && element_finite(results[i].score)),
    decreases results.len() - from,
{
    if from < results.len() {
        let result = results[from as int];
        let row = batch_row(first_row, batch, from) as usize;
        if result.state == 0 {
            lemma_decoded(results, first_row, batch, from + 1, done.push(ScoredRow { row, score: None }));
        } else if result.state == 1 && element_finite(result.score) {
            lemma_decoded(results, first_row, batch, from + 1, done.push(ScoredRow { row, score: Some(result.score) }));
        }
    }
}

/// A batch gives one score for each of its candidates, in their order: the one that the device gave,
/// for the row that the candidate is. It is refused exactly where there are not as many, or where one
/// is neither missing nor finite.
pub proof fn law_scores_are_read(results: Seq<GpuResult>, first_row: nat, batch: BatchView)
    ensures
        decoded(results, first_row, batch) matches Ok(scores) ==> scores.len() == batch.count && forall|i: int|
            0 <= i < scores.len() ==> read_as(results[i], #[trigger] scores[i]) && scores[i].row == batch_row(
                first_row,
                batch,
                i as nat,
            ) as usize,
        decoded(results, first_row, batch) is Ok <==> results.len() == batch.count && forall|i: int|
            0 <= i < results.len() ==> (#[trigger] results[i]).state == 0 || (results[i].state == 1 && element_finite(results[i].score)),
        batch.candidates is None ==> forall|at: nat| #[trigger] batch_row(first_row, batch, at) == first_row + batch.offset + at,
        batch.candidates matches Some(rows) ==> forall|at: nat| #[trigger] batch_row(first_row, batch, at) == first_row + rows[at as int],
{
    lemma_decoded(results, first_row, batch, 0, Seq::empty());
}

/// Whether a shard holds rows of a column as they are.
pub open spec fn holds_rows(shard: PackedView, column: DenseView) -> bool {
    &&& shard.values.len() == shard.row_count * column.dimensions
    &&& shard.present.len() == shard.row_count
    &&& shard.norms.len() == shard.row_count
    &&& forall|k: int|
        0 <= k < shard.row_count ==> #[trigger] shard.values.subrange(k * column.dimensions, (k + 1) * column.dimensions) == row_values(
            column,
            (shard.first_row + k) as nat,
        )
    &&& forall|k: int|
        0 <= k < shard.row_count ==> (#[trigger] shard.present[k] == 1 <==> flat_present(column.chunks, column.chunks.len())[shard.first_row
            + k])
}

/// Whether a column has the elements, the norms and the marks of its rows.
pub open spec fn filled(column: DenseView) -> bool {
    &&& flat_values(column.chunks, column.chunks.len()).len() == column.row_count * column.dimensions
    &&& flat_norms(column.chunks, column.chunks.len()).len() == column.row_count
    &&& flat_present(column.chunks, column.chunks.len()).len() == column.row_count
}

proof fn lemma_shard(column: DenseView, first: nat, count: nat, floats: Floats)
    requires
        filled(column),
        first + count <= column.row_count,
    ensures
        holds_rows(packed_shard(column, first, count, floats), column),
{
    let shard = packed_shard(column, first, count, floats);
    let all = flat_values(column.chunks, column.chunks.len());
    let width = column.dimensions;
    assert(first * width <= (first + count) * width <= column.row_count * width) by (nonlinear_arith)
        requires
            first + count <= column.row_count,
    ;
    assert((first + count) * width - first * width == count * width) by (nonlinear_arith);
    assert forall|k: int| 0 <= k < count implies #[trigger] shard.values.subrange(k * width, (k + 1) * width) == row_values(
        column,
        (first + k) as nat,
    ) by {
        assert(0 <= k * width <= (k + 1) * width <= count * width) by (nonlinear_arith)
            requires
                0 <= k < count,
        ;
        assert(first * width + k * width == (first + k) * width) by (nonlinear_arith);
        assert(first * width + (k + 1) * width == (first + k + 1) * width) by (nonlinear_arith);
        assert(shard.values.subrange(k * width, (k + 1) * width) =~= row_values(column, (first + k) as nat));
    }
}

/// Whether shards follow each other from a row on, none larger than allowed.
spec fn in_turn(shards: Seq<PackedView>, most: nat, end: nat) -> bool {
    &&& forall|i: int| 0 <= i < shards.len() ==> 0 < (#[trigger] shards[i]).row_count <= most
    &&& forall|i: int|
        0 <= i < shards.len() ==> (#[trigger] shards[i]).first_row == (if i == 0 {
            0
        } else {
            shards[i - 1].first_row + shards[i - 1].row_count
        })
    &&& end == (if shards.len() == 0 {
        0
    } else {
        shards.last().first_row + shards.last().row_count
    })
}

proof fn lemma_packed(column: DenseView, most: nat, floats: Floats, first: nat, done: Seq<PackedView>)
    requires
        filled(column),
        most > 0,
        first <= column.row_count,
        in_turn(done, most, first),
        forall|i: int| 0 <= i < done.len() ==> holds_rows(#[trigger] done[i], column),
    ensures
        in_turn(packed_from(column, most, floats, first, done), most, column.row_count),
        forall|i: int|
            0 <= i < packed_from(column, most, floats, first, done).len() ==> holds_rows(
                #[trigger] packed_from(column, most, floats, first, done)[i],
                column,
            ),
    decreases column.row_count - first,
{
    if first < column.row_count {
        let count = shard_size(column.row_count, first, most);
        let shard = packed_shard(column, first, count, floats);
        lemma_shard(column, first, count, floats);
        let next = done.push(shard);
        assert forall|i: int| 0 <= i < next.len() implies (#[trigger] next[i]).first_row == (if i == 0 {
            0
        } else {
            next[i - 1].first_row + next[i - 1].row_count
        }) by {
            if i < done.len() {
                assert(next[i] == done[i]);
            }
        }
        lemma_packed(column, most, floats, first + count, next);
        assert(packed_from(column, most, floats, first, done) == packed_from(column, most, floats, first + count, next));
    } else {
        assert(packed_from(column, most, floats, first, done) == done);
    }
}

/// What is uploaded of a column are shards that follow each other and hold all of its rows, each as it
/// is, with a mark where it holds a vector.
pub proof fn law_all_rows_are_packed(column: DenseView, rows_per_shard: nat, floats: Floats)
    requires
        filled(column),
        rows_per_shard > 0,
    ensures
        packed(column, rows_per_shard, floats) matches Ok(shards) ==> {
            &&& forall|i: int|
                0 <= i < shards.len() ==> 0 < (#[trigger] shards[i]).row_count <= rows_per_shard && holds_rows(shards[i], column)
            &&& forall|i: int|
                0 <= i < shards.len() ==> (#[trigger] shards[i]).first_row == (if i == 0 {
                    0
                } else {
                    shards[i - 1].first_row + shards[i - 1].row_count
                })
            &&& shards.len() == 0 ==> column.row_count == 0
            &&& shards.len() > 0 ==> shards.last().first_row + shards.last().row_count == column.row_count
        },
{
    lemma_packed(column, rows_per_shard, floats, 0, Seq::empty());
}

proof fn lemma_quotient(most: nat, size: nat, count: nat)
    requires
        size > 0,
        count <= most / size,
    ensures
        count * size <= most,
        count == most / size ==> (count + 1) * size > most,
{
    assert(count * size <= most) by (nonlinear_arith)
        requires
            size > 0,
            count <= most / size,
    ;
    if count == most / size {
        assert((count + 1) * size > most) by (nonlinear_arith)
            requires
                size > 0,
                count == most / size,
        ;
    }
}

/// Whether so many bytes are more than a buffer can have on a device.
pub open spec fn too_many(limits: GpuLimits, bytes: nat) -> bool {
    bytes > limits.max_storage_binding_size || bytes > limits.max_buffer_size || bytes > usize::MAX
}

/// A column is laid out in shards of as many rows as the vectors and the norms of a shard fit in a
/// buffer of the device, and takes four bytes for each element and eight for each row.
pub proof fn law_layout(limits: GpuLimits, column: DenseView)
    ensures
        laid_out(limits, column) matches Ok(layout) ==> {
            let rows = layout.rows_per_shard as nat;
            &&& 0 < rows <= u32::MAX
            &&& !too_many(limits, rows * (column.dimensions * 4))
            &&& !too_many(limits, rows * 4)
            &&& rows == u32::MAX || too_many(limits, (rows + 1) * (column.dimensions * 4)) || too_many(limits, (rows + 1) * 4)
            &&& layout.bytes == column.row_count * (column.dimensions * 4) + column.row_count * 8
        },
{
    if let Ok(layout) = laid_out(limits, column) {
        let rows = layout.rows_per_shard as nat;
        let most = least(size_of_number(limits.max_storage_binding_size), size_of_number(limits.max_buffer_size)) as nat;
        assert(rows <= most / (column.dimensions * 4) && rows <= most / 4);
        lemma_quotient(most, column.dimensions * 4, rows);
        lemma_quotient(most, 4, rows);
    }
}

} // verus!
