//! What is uploaded of a dense vector column to a compute device.

use vstd::prelude::*;
use crate::arithmetic::{exceeds, is_larger, ZERO};
use crate::float::{
    compute_text, computes, finite, floats, is_finite, narrow, narrowed, notation, FloatReply, FloatTask, FloatTaskView, Floats,
};
use crate::gpu::{
    bad_input, chunk_sound, chunks_checked, dense_checked, ChunkRowsView, ColumnLayout, DenseVectorColumn, DenseView, GpuError,
    GpuErrorView,
};
use crate::text::{decimal_count, decimal_text, join2, join3, lemma_views_push, views};
use crate::vector::{element_finite, element_is_finite};

verus! {

broadcast use {vstd::string::group_string_axioms, lemma_views_push};

/// How many rows the first `count` chunks have together.
pub open spec fn chunk_rows(chunks: Seq<ChunkRowsView>, count: nat) -> nat
    decreases count,
{
    if count == 0 {
        0
    } else {
        chunk_rows(chunks, (count - 1) as nat) + chunks[count - 1].row_count
    }
}

/// The elements of the first `count` chunks.
pub open spec fn flat_values(chunks: Seq<ChunkRowsView>, count: nat) -> Seq<u32>
    decreases count,
{
    if count == 0 {
        Seq::empty()
    } else {
        flat_values(chunks, (count - 1) as nat) + chunks[count - 1].values
    }
}

/// The norms of the first `count` chunks.
pub open spec fn flat_norms(chunks: Seq<ChunkRowsView>, count: nat) -> Seq<u64>
    decreases count,
{
    if count == 0 {
        Seq::empty()
    } else {
        flat_norms(chunks, (count - 1) as nat) + chunks[count - 1].norms
    }
}

/// Which rows of the first `count` chunks hold a vector.
pub open spec fn flat_present(chunks: Seq<ChunkRowsView>, count: nat) -> Seq<bool>
    decreases count,
{
    if count == 0 {
        Seq::empty()
    } else {
        flat_present(chunks, (count - 1) as nat) + chunks[count - 1].present
    }
}

/// What a shard of a column holds: the elements, the norms as elements, and 1 for each row that
/// holds a vector.
#[derive(Debug)]
pub struct PackedShard {
    pub first_row: usize,
    pub row_count: usize,
    pub values: Vec<u32>,
    pub norms: Vec<u32>,
    pub present: Vec<u32>,
    pub cosine_supported: bool,
}

pub struct PackedView {
    pub first_row: nat,
    pub row_count: nat,
    pub values: Seq<u32>,
    pub norms: Seq<u32>,
    pub present: Seq<u32>,
    pub cosine_supported: bool,
}

impl View for PackedShard {
    type V = PackedView;

    open spec fn view(&self) -> PackedView {
        PackedView {
            first_row: self.first_row as nat,
            row_count: self.row_count as nat,
            values: self.values@,
            norms: self.norms@,
            present: self.present@,
            cosine_supported: self.cosine_supported,
        }
    }
}

/// Whether a norm is one that a vector can have.
pub open spec fn norm_valid(norm: u64) -> bool {
    finite(norm) && !exceeds(ZERO, norm)
}

pub open spec fn invalid_norm(row: nat, norm: u64, floats: Floats) -> GpuErrorView {
    bad_input(
        "dense vector row "@ + decimal_text(row) + " has invalid cached norm "@ + notation(floats, FloatTaskView::Text(norm)),
    )
}

/// The first row, from `from` on, whose norm is invalid.
pub open spec fn first_invalid(norms: Seq<u64>, from: nat) -> Option<nat>
    decreases norms.len() - from,
{
    if from >= norms.len() {
        None
    } else if !norm_valid(norms[from as int]) {
        Some(from)
    } else {
        first_invalid(norms, from + 1)
    }
}

/// The elements nearest to norms.
pub open spec fn narrow_norms(norms: Seq<u64>, floats: Floats) -> Seq<u32> {
    norms.map_values(|norm: u64| narrowed(floats, norm))
}

pub open spec fn marks(present: Seq<bool>) -> Seq<u32> {
    present.map_values(
        |there: bool|
            if there {
                1u32
            } else {
                0u32
            },
    )
}

/// Whether every element is finite.
pub open spec fn elements_finite(elements: Seq<u32>) -> bool {
    forall|i: int| 0 <= i < elements.len() ==> element_finite(#[trigger] elements[i])
}

/// The shard of the rows from `first` on.
pub open spec fn packed_shard(column: DenseView, first: nat, count: nat, floats: Floats) -> PackedView {
    let chunks = column.chunks;
    let total = chunks.len();
    let norms = narrow_norms(flat_norms(chunks, total).subrange(first as int, (first + count) as int), floats);
    PackedView {
        first_row: first,
        row_count: count,
        values: flat_values(chunks, total).subrange(
            (first * column.dimensions) as int,
            ((first + count) * column.dimensions) as int,
        ),
        norms,
        present: marks(flat_present(chunks, total).subrange(first as int, (first + count) as int)),
        cosine_supported: elements_finite(norms),
    }
}

/// How many rows the shard that starts at `first` has.
pub open spec fn shard_size(row_count: nat, first: nat, rows_per_shard: nat) -> nat {
    if row_count - first < rows_per_shard {
        (row_count - first) as nat
    } else {
        rows_per_shard
    }
}

/// The shards of the rows from `first` on, after `done`.
pub open spec fn packed_from(column: DenseView, rows_per_shard: nat, floats: Floats, first: nat, done: Seq<PackedView>) -> Seq<PackedView>
    decreases column.row_count - first,
{
    if first >= column.row_count || rows_per_shard == 0 {
        done
    } else {
        let count = shard_size(column.row_count, first, rows_per_shard);
        packed_from(
            column,
            rows_per_shard,
            floats,
            first + count,
            done.push(packed_shard(column, first, count, floats)),
        )
    }
}

/// What is uploaded of a column.
pub open spec fn packed(column: DenseView, rows_per_shard: nat, floats: Floats) -> Result<Seq<PackedView>, GpuErrorView> {
    let norms = flat_norms(column.chunks, column.chunks.len());
    match first_invalid(norms, 0) {
        Some(row) => Err(invalid_norm(row, norms[row as int], floats)),
        None => Ok(packed_from(column, rows_per_shard, floats, 0, Seq::empty())),
    }
}

/// Whether a chunk starts where the ones before it end and holds what it says.
pub open spec fn chunk_placed(column: DenseView, at: int) -> bool {
    chunk_sound(column.chunks[at], column.dimensions, chunk_rows(column.chunks, at as nat))
}

/// Whether every chunk starts where the ones before it end and holds what it says.
pub open spec fn chunks_sound(column: DenseView) -> bool {
    &&& forall|i: int| 0 <= i < column.chunks.len() ==> #[trigger] chunk_placed(column, i)
    &&& chunk_rows(column.chunks, column.chunks.len()) == column.row_count
}

proof fn lemma_checked(column: DenseView, from: nat, expected: nat)
    requires
        from <= column.chunks.len(),
        expected == chunk_rows(column.chunks, from),
        chunks_checked(column.chunks, column.dimensions, from, expected) is Ok,
    ensures
        forall|i: int| from <= i < column.chunks.len() ==> #[trigger] chunk_placed(column, i),
        chunks_checked(column.chunks, column.dimensions, from, expected) == Ok::<nat, GpuErrorView>(
            chunk_rows(column.chunks, column.chunks.len()),
        ),
    decreases column.chunks.len() - from,
{
    if from < column.chunks.len() {
        let chunk = column.chunks[from as int];
        assert(chunk_rows(column.chunks, from + 1) == expected + chunk.row_count);
        lemma_checked(column, from + 1, expected + chunk.row_count);
        assert forall|i: int| from <= i < column.chunks.len() implies #[trigger] chunk_placed(column, i) by {
            if i == from {
                assert(chunk_sound(chunk, column.dimensions, expected));
            }
        }
    }
}

/// A column that passes the check is one whose chunks are its rows.
pub proof fn lemma_dense_sound(column: DenseView)
    requires
        dense_checked(column) is Ok,
    ensures
        chunks_sound(column),
{
    lemma_checked(column, 0, 0);
}

proof fn lemma_flat(column: DenseView, count: nat)
    requires
        chunks_sound(column),
        count <= column.chunks.len(),
    ensures
        flat_norms(column.chunks, count).len() == chunk_rows(column.chunks, count),
        flat_present(column.chunks, count).len() == chunk_rows(column.chunks, count),
        flat_values(column.chunks, count).len() == chunk_rows(column.chunks, count) * column.dimensions,
    decreases count,
{
    if count > 0 {
        lemma_flat(column, (count - 1) as nat);
        let chunk = column.chunks[count - 1];
        assert(chunk_placed(column, count - 1));
        let before = chunk_rows(column.chunks, (count - 1) as nat);
        assert((before + chunk.row_count) * column.dimensions == before * column.dimensions + chunk.row_count
            * column.dimensions) by (nonlinear_arith);
    }
}

/// The rows of a chunk stand in the column where the chunk starts.
proof fn lemma_prefix(column: DenseView, at: nat, count: nat)
    requires
        chunks_sound(column),
        at < count <= column.chunks.len(),
    ensures
        ({
            let chunk = column.chunks[at as int];
            let start = chunk_rows(column.chunks, at) as int;
            let end = start + chunk.row_count;
            &&& end <= chunk_rows(column.chunks, count)
            &&& flat_norms(column.chunks, count).subrange(start, end) == chunk.norms
            &&& flat_present(column.chunks, count).subrange(start, end) == chunk.present
            &&& flat_values(column.chunks, count).subrange(start * column.dimensions, end * column.dimensions) == chunk.values
        }),
    decreases count,
{
    let d = column.dimensions;
    let chunk = column.chunks[at as int];
    let start = chunk_rows(column.chunks, at) as int;
    let end = start + chunk.row_count;
    let less = (count - 1) as nat;
    let before = chunk_rows(column.chunks, less) as int;
    let last = column.chunks[less as int];
    lemma_flat(column, less);
    lemma_flat(column, count);
    assert(chunk_placed(column, at as int));
    assert(chunk_placed(column, less as int));
    assert(end * d == start * d + chunk.row_count * d) by (nonlinear_arith)
        requires
            end == start + chunk.row_count,
    ;
    if at < less {
        lemma_prefix(column, at, less);
        assert(0 <= start * d <= end * d <= before * d) by (nonlinear_arith)
            requires
                0 <= start <= end <= before,
        ;
        assert(flat_norms(column.chunks, count).subrange(start, end) =~= flat_norms(column.chunks, less).subrange(start, end));
        assert(flat_present(column.chunks, count).subrange(start, end) =~= flat_present(column.chunks, less).subrange(
            start,
            end,
        ));
        assert(flat_values(column.chunks, count).subrange(start * d, end * d) =~= flat_values(column.chunks, less).subrange(
            start * d,
            end * d,
        ));
    } else {
        assert(flat_norms(column.chunks, count).subrange(start, end) =~= chunk.norms);
        assert(flat_present(column.chunks, count).subrange(start, end) =~= chunk.present);
        assert(flat_values(column.chunks, count).subrange(start * d, end * d) =~= chunk.values);
    }
}

proof fn lemma_valid_so_far(norms: Seq<u64>, from: nat)
    requires
        from <= norms.len(),
        forall|i: int| 0 <= i < from ==> norm_valid(#[trigger] norms[i]),
    ensures
        first_invalid(norms, 0) == first_invalid(norms, from),
    decreases from,
{
    if from > 0 {
        lemma_valid_so_far(norms, (from - 1) as nat);
        assert(norm_valid(norms[from - 1]));
    }
}

/// Where the next row of a column is.
struct Cursor {
    chunk: usize,
    row: usize,
}

spec fn cursor_at(cursor: Cursor, column: DenseView, row: nat) -> bool {
    &&& cursor.chunk <= column.chunks.len()
    &&& row == chunk_rows(column.chunks, cursor.chunk as nat) + cursor.row
    &&& (cursor.chunk < column.chunks.len() ==> cursor.row < column.chunks[cursor.chunk as int].row_count)
    &&& (cursor.chunk == column.chunks.len() ==> cursor.row == 0)
}

/// The elements of a row.
pub open spec fn row_values(column: DenseView, row: nat) -> Seq<u32> {
    flat_values(column.chunks, column.chunks.len()).subrange(
        (row * column.dimensions) as int,
        ((row + 1) * column.dimensions) as int,
    )
}

proof fn lemma_row_values(column: DenseView, cursor: Cursor, row: nat)
    requires
        chunks_sound(column),
        cursor_at(cursor, column, row),
        row < column.row_count,
    ensures
        cursor.chunk < column.chunks.len(),
        ({
            let chunk = column.chunks[cursor.chunk as int];
            let d = column.dimensions;
            &&& chunk_placed(column, cursor.chunk as int)
            &&& (cursor.row + 1) * d <= chunk.values.len()
            &&& cursor.row * d + d == (cursor.row + 1) * d
            &&& row_values(column, row) == chunk.values.subrange(cursor.row * d as int, (cursor.row + 1) * d)
            &&& flat_norms(column.chunks, column.chunks.len())[row as int] == chunk.norms[cursor.row as int]
            &&& flat_present(column.chunks, column.chunks.len())[row as int] == chunk.present[cursor.row as int]
        }),
{
    let total = column.chunks.len();
    let d = column.dimensions;
    let chunk = column.chunks[cursor.chunk as int];
    let start = chunk_rows(column.chunks, cursor.chunk as nat) as int;
    let end = start + chunk.row_count;
    let local = cursor.row as int;
    lemma_flat(column, total);
    lemma_prefix(column, cursor.chunk as nat, total);
    assert(chunk_placed(column, cursor.chunk as int));
    let norms = flat_norms(column.chunks, total);
    let present = flat_present(column.chunks, total);
    let values = flat_values(column.chunks, total);
    assert(norms.subrange(start, end)[local] == norms[start + local]);
    assert(present.subrange(start, end)[local] == present[start + local]);
    assert(local * d + d == (local + 1) * d) by (nonlinear_arith);
    assert(row * d == start * d + local * d) by (nonlinear_arith)
        requires
            row == start + local,
    ;
    assert((row + 1) * d == start * d + (local + 1) * d) by (nonlinear_arith)
        requires
            row == start + local,
    ;
    assert(0 <= local * d <= (local + 1) * d <= chunk.row_count * d) by (nonlinear_arith)
        requires
            0 <= local < chunk.row_count,
    ;
    assert(end * d == start * d + chunk.row_count * d) by (nonlinear_arith)
        requires
            end == start + chunk.row_count,
    ;
    assert(end * d <= column.row_count * d) by (nonlinear_arith)
        requires
            end <= column.row_count,
    ;
    assert(0 <= start * d) by (nonlinear_arith)
        requires
            0 <= start,
    ;
    assert(values.subrange(start * d, end * d).subrange(local * d, (local + 1) * d) =~= row_values(column, row));
}

fn copy_row(column: &DenseVectorColumn, cursor: &Cursor, row: usize, values: &mut Vec<u32>)
    requires
        chunks_sound(column@),
        cursor_at(*cursor, column@, row as nat),
        row < column.row_count,
    ensures
        final(values)@ == old(values)@ + row_values(column@, row as nat),
{
    proof {
        lemma_row_values(column@, *cursor, row as nat);
        assert(column@.chunks[cursor.chunk as int] == column.chunks@[cursor.chunk as int]@);
    }
    let chunk = &column.chunks[cursor.chunk];
    let dimensions: usize = column.dimensions;
    let held: usize = chunk.values.len();
    assert(cursor.row * dimensions <= held);
    let first: usize = cursor.row * dimensions;
    let ghost wanted = row_values(column@, row as nat);
    let ghost before = values@;
    assert(wanted.len() == dimensions);
    let mut at: usize = 0;
    assert(values@ =~= before + wanted.take(0));
    while at < dimensions
        invariant
            at <= dimensions,
            held == chunk.values@.len(),
            first + dimensions <= held,
            wanted == chunk.values@.subrange(first as int, first + dimensions),
            values@ == before + wanted.take(at as int),
        decreases dimensions - at,
    {
        proof {
            assert(wanted[at as int] == chunk.values@[first + at]);
            assert(wanted.take(at as int + 1) =~= wanted.take(at as int).push(wanted[at as int]));
        }
        values.push(chunk.values[first + at]);
        assert(values@ =~= before + wanted.take(at as int + 1));
        at = at + 1;
    }
    assert(wanted.take(at as int) =~= wanted);
}

fn advance(column: &DenseVectorColumn, cursor: &mut Cursor, row: usize)
    requires
        chunks_sound(column@),
        cursor_at(*old(cursor), column@, row as nat),
        row < column.row_count,
    ensures
        cursor_at(*final(cursor), column@, (row + 1) as nat),
{
    proof {
        lemma_row_values(column@, *cursor, row as nat);
    }
    let total: usize = column.chunks.len();
    let chunk = &column.chunks[cursor.chunk];
    assert(column@.chunks[cursor.chunk as int] == chunk@);
    assert(cursor.chunk < total);
    cursor.row = cursor.row + 1;
    if cursor.row == chunk.row_count {
        proof {
            assert(chunk_rows(column@.chunks, (cursor.chunk + 1) as nat) == chunk_rows(column@.chunks, cursor.chunk as nat)
                + chunk.row_count);
            if cursor.chunk + 1 < column@.chunks.len() {
                assert(chunk_placed(column@, cursor.chunk + 1));
            }
        }
        cursor.chunk = cursor.chunk + 1;
        cursor.row = 0;
    }
}

proof fn lemma_values_grow(column: DenseView, first: nat, row: nat)
    requires
        chunks_sound(column),
        first <= row < column.row_count,
    ensures
        ({
            let flat = flat_values(column.chunks, column.chunks.len());
            flat.subrange((first * column.dimensions) as int, ((row + 1) * column.dimensions) as int) == flat.subrange(
                (first * column.dimensions) as int,
                (row * column.dimensions) as int,
            ) + row_values(column, row)
        }),
{
    let flat = flat_values(column.chunks, column.chunks.len());
    lemma_flat(column, column.chunks.len());
    let d = column.dimensions;
    assert(first * d <= row * d) by (nonlinear_arith)
        requires
            first <= row,
    ;
    assert(row * d <= (row + 1) * d) by (nonlinear_arith);
    assert((row + 1) * d <= column.row_count * d) by (nonlinear_arith)
        requires
            row < column.row_count,
    ;
    assert(flat.subrange((first * d) as int, ((row + 1) * d) as int) =~= flat.subrange((first * d) as int, (row * d) as int)
        + row_values(column, row));
}

#[verifier::rlimit(60)]
fn pack_shard<F: Fn(FloatTask) -> FloatReply>(f: &F, column: &DenseVectorColumn, cursor: &mut Cursor, first: usize, count: usize) -> (result: Result<
    PackedShard,
    GpuError,
>)
    requires
        computes(*f),
        chunks_sound(column@),
        cursor_at(*old(cursor), column@, first as nat),
        first + count <= column.row_count,
        forall|i: int|
            0 <= i < first ==> norm_valid(#[trigger] flat_norms(column@.chunks, column@.chunks.len())[i]),
    ensures
        match result {
            Ok(shard) => shard@ == packed_shard(column@, first as nat, count as nat, floats(*f)) && cursor_at(
                *final(cursor),
                column@,
                (first + count) as nat,
            ) && forall|i: int|
                0 <= i < first + count ==> norm_valid(#[trigger] flat_norms(column@.chunks, column@.chunks.len())[i]),
            Err(error) => ({
                let norms = flat_norms(column@.chunks, column@.chunks.len());
                first_invalid(norms, 0) matches Some(row) && error@ == invalid_norm(row, norms[row as int], floats(*f))
            }),
        },
{
    let ghost view = column@;
    let ghost total = view.chunks.len();
    let ghost norms_all = flat_norms(view.chunks, total);
    let ghost present_all = flat_present(view.chunks, total);
    let ghost values_all = flat_values(view.chunks, total);
    let ghost end = (first + count) as int;
    proof {
        lemma_flat(view, total);
    }
    let mut values: Vec<u32> = Vec::new();
    let mut norms: Vec<u32> = Vec::new();
    let mut present: Vec<u32> = Vec::new();
    let mut supported = true;
    let stop: usize = first + count;
    let mut row: usize = first;
    proof {
        assert(first * view.dimensions <= view.row_count * view.dimensions) by (nonlinear_arith)
            requires
                first <= view.row_count,
        ;
        assert(values@ =~= values_all.subrange((first * view.dimensions) as int, (row * view.dimensions) as int));
    }
    while row < stop
        invariant
            computes(*f),
            view == column@,
            total == view.chunks.len(),
            chunks_sound(view),
            norms_all == flat_norms(view.chunks, total),
            present_all == flat_present(view.chunks, total),
            values_all == flat_values(view.chunks, total),
            norms_all.len() == view.row_count,
            present_all.len() == view.row_count,
            stop == first + count,
            stop <= column.row_count,
            first <= row <= stop,
            cursor_at(*cursor, view, row as nat),
            forall|i: int| 0 <= i < row ==> norm_valid(#[trigger] norms_all[i]),
            norms@.len() == row - first,
            present@.len() == row - first,
            forall|i: int| 0 <= i < norms@.len() ==> (#[trigger] norms@[i]) == narrowed(floats(*f), norms_all[first + i]),
            forall|i: int|
                0 <= i < present@.len() ==> (#[trigger] present@[i]) == (if present_all[first + i] {
                    1u32
                } else {
                    0u32
                }),
            supported == elements_finite(norms@),
            values@ == values_all.subrange((first * view.dimensions) as int, (row * view.dimensions) as int),
        decreases stop - row,
    {
        proof {
            lemma_row_values(view, *cursor, row as nat);
            assert(view.chunks[cursor.chunk as int] == column.chunks@[cursor.chunk as int]@);
        }
        let norm: u64 = column.chunks[cursor.chunk].norms[cursor.row];
        let there = column.chunks[cursor.chunk].present[cursor.row];
        assert(norm == norms_all[row as int]);
        if !is_finite(norm) || is_larger(ZERO, norm) {
            proof {
                lemma_valid_so_far(norms_all, row as nat);
            }
            let number = decimal_count(row);
            let text = compute_text(f, FloatTask::Text(norm));
            let head = join3("dense vector row ", number.as_str(), " has invalid cached norm ");
            return Err(GpuError::InvalidInput(join2(head.as_str(), text.as_str())));
        }
        copy_row(column, cursor, row, &mut values);
        proof {
            lemma_values_grow(view, first as nat, row as nat);
        }
        let element: u32 = narrow(f, norm);
        let ghost before = norms@;
        if !element_is_finite(element) {
            supported = false;
        }
        norms.push(element);
        proof {
            assert(elements_finite(norms@) == (elements_finite(before) && element_finite(element))) by {
                assert(norms@[before.len() as int] == element);
                assert forall|i: int| 0 <= i < before.len() implies before[i] == norms@[i] by {}
                if elements_finite(norms@) {
                    assert forall|i: int| 0 <= i < before.len() implies element_finite(#[trigger] before[i]) by {
                        assert(element_finite(norms@[i]));
                    }
                }
            }
        }
        present.push(
            if there {
                1u32
            } else {
                0u32
            },
        );
        advance(column, cursor, row);
        row = row + 1;
    }
    proof {
        let expected = packed_shard(view, first as nat, count as nat, floats(*f));
        assert(norms@ =~= expected.norms);
        assert(present@ =~= expected.present);
    }
    Ok(PackedShard { first_row: first, row_count: count, values, norms, present, cosine_supported: supported })
}

/// What is uploaded of a column.
#[verifier::rlimit(40)]
pub fn pack_column<F: Fn(FloatTask) -> FloatReply>(f: &F, column: &DenseVectorColumn, layout: &ColumnLayout) -> (result: Result<
    Vec<PackedShard>,
    GpuError,
>)
    requires
        computes(*f),
        dense_checked(column@) is Ok,
        layout.rows_per_shard > 0,
    ensures
        match result {
            Ok(shards) => packed(column@, layout.rows_per_shard as nat, floats(*f)) == Ok::<Seq<PackedView>, GpuErrorView>(
                views(shards@),
            ),
            Err(error) => packed(column@, layout.rows_per_shard as nat, floats(*f)) == Err::<
                Seq<PackedView>,
                GpuErrorView,
            >(error@),
        },
{
    let ghost view = column@;
    let ghost norms_all = flat_norms(view.chunks, view.chunks.len());
    proof {
        lemma_dense_sound(view);
        lemma_flat(view, view.chunks.len());
        if view.chunks.len() > 0 {
            assert(chunk_placed(view, 0));
        }
    }
    let mut cursor = Cursor { chunk: 0, row: 0 };
    let mut shards: Vec<PackedShard> = Vec::new();
    assert(views(shards@) =~= Seq::<PackedView>::empty());
    let mut first: usize = 0;
    while first < column.row_count
        invariant
            computes(*f),
            view == column@,
            norms_all == flat_norms(view.chunks, view.chunks.len()),
            norms_all.len() == view.row_count,
            chunks_sound(view),
            layout.rows_per_shard > 0,
            first <= column.row_count,
            cursor_at(cursor, view, first as nat),
            forall|i: int| 0 <= i < first ==> norm_valid(#[trigger] norms_all[i]),
            packed_from(view, layout.rows_per_shard as nat, floats(*f), first as nat, views(shards@)) == packed_from(
                view,
                layout.rows_per_shard as nat,
                floats(*f),
                0,
                Seq::empty(),
            ),
        decreases column.row_count - first,
    {
        let rest: usize = column.row_count - first;
        let count: usize = if rest < layout.rows_per_shard {
            rest
        } else {
            layout.rows_per_shard
        };
        let shard = pack_shard(f, column, &mut cursor, first, count)?;
        shards.push(shard);
        first = first + count;
    }
    proof {
        lemma_valid_so_far(norms_all, view.row_count);
    }
    Ok(shards)
}

} // verus!
