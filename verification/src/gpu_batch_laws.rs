//! That a scan looks at every candidate once.

use vstd::prelude::*;
use crate::gpu_batch::{
    full_batches, indexed_batches, scan_batches, shard_batches, shard_candidates, shard_placed, shards_placed,
    window_batches, BatchView, CachedColumn,
};

verus! {

/// How many of the first `count` candidates of a batch are a row of the column.
pub open spec fn held(batch: BatchView, per: nat, row: nat, count: nat) -> nat
    decreases count,
{
    if count == 0 {
        0
    } else {
        let at = match batch.candidates {
            Some(candidates) => batch.shard * per + candidates[count - 1],
            None => batch.shard * per + batch.offset + (count - 1),
        };
        held(batch, per, row, (count - 1) as nat) + if at == row {
            1nat
        } else {
            0nat
        }
    }
}

/// How often the first `count` batches look at a row of the column.
pub open spec fn scanned(batches: Seq<BatchView>, per: nat, row: nat, count: nat) -> nat
    decreases count,
{
    if count == 0 {
        0
    } else {
        scanned(batches, per, row, (count - 1) as nat) + held(batches[count - 1], per, row, batches[count - 1].count)
    }
}

/// How often a row is listed among those from `from` up to `end`.
pub open spec fn listed(rows: Seq<usize>, from: nat, end: nat, row: nat) -> nat
    decreases end - from,
{
    if from >= end || from >= rows.len() {
        0
    } else {
        listed(rows, from + 1, end, row) + if rows[from as int] == row {
            1nat
        } else {
            0nat
        }
    }
}

/// Whether a row is one of the column.
pub open spec fn stored<T>(column: CachedColumn<T>, row: nat) -> bool {
    let per = column.rows_per_shard as nat;
    row / per < column.shards@.len() && row % per < column.shards@[(row / per) as int].row_count
}

proof fn lemma_scanned_prefix(batches: Seq<BatchView>, more: BatchView, per: nat, row: nat, count: nat)
    requires
        count <= batches.len(),
    ensures
        scanned(batches.push(more), per, row, count) == scanned(batches, per, row, count),
    decreases count,
{
    if count > 0 {
        lemma_scanned_prefix(batches, more, per, row, (count - 1) as nat);
        assert(batches.push(more)[count - 1] == batches[count - 1]);
    }
}

proof fn lemma_scanned_push(batches: Seq<BatchView>, more: BatchView, per: nat, row: nat)
    ensures
        scanned(batches.push(more), per, row, batches.len() + 1) == scanned(batches, per, row, batches.len()) + held(
            more,
            per,
            row,
            more.count,
        ),
{
    lemma_scanned_prefix(batches, more, per, row, batches.len());
    assert(batches.push(more)[batches.len() as int] == more);
}

proof fn lemma_held_run(batch: BatchView, per: nat, row: nat, count: nat)
    requires
        batch.candidates is None,
    ensures
        held(batch, per, row, count) == (if batch.shard * per + batch.offset <= row < batch.shard * per + batch.offset + count {
            1nat
        } else {
            0nat
        }),
    decreases count,
{
    if count > 0 {
        lemma_held_run(batch, per, row, (count - 1) as nat);
    }
}

proof fn lemma_shard(shard: nat, rows: nat, most: nat, offset: nat, done: Seq<BatchView>, per: nat, row: nat)
    requires
        most > 0,
    ensures
        ({
            let after = shard_batches(shard, rows, most, offset, done);
            scanned(after, per, row, after.len()) == scanned(done, per, row, done.len()) + if shard * per + offset <= row
                < shard * per + rows {
                1nat
            } else {
                0nat
            }
        }),
    decreases rows - offset,
{
    if offset < rows {
        let count = if rows - offset < most {
            (rows - offset) as nat
        } else {
            most
        };
        let batch = BatchView { shard, offset, count, candidates: None };
        lemma_scanned_push(done, batch, per, row);
        lemma_held_run(batch, per, row, count);
        lemma_shard(shard, rows, most, offset + count, done.push(batch), per, row);
    }
}

/// A row of a shard is of no other.
proof fn lemma_of_shard(shard: nat, per: nat, row: nat, count: nat)
    requires
        0 < per,
        count <= per,
    ensures
        shard * per <= row < shard * per + count <==> row / per == shard && row % per < count,
{
    vstd::arithmetic::div_mod::lemma_fundamental_div_mod(row as int, per as int);
    if shard * per <= row < shard * per + count {
        vstd::arithmetic::div_mod::lemma_fundamental_div_mod_converse(
            row as int,
            per as int,
            shard as int,
            row - shard * per,
        );
    }
    if row / per == shard {
        assert(per * (row / per) == shard * per) by (nonlinear_arith)
            requires
                row / per == shard,
        ;
    }
}

proof fn lemma_full<T>(column: CachedColumn<T>, most: nat, from: nat, done: Seq<BatchView>, row: nat)
    requires
        most > 0,
        column.rows_per_shard > 0,
        forall|i: int| 0 <= i < column.shards@.len() ==> (#[trigger] column.shards@[i]).row_count <= column.rows_per_shard,
    ensures
        ({
            let per = column.rows_per_shard as nat;
            let after = full_batches(column, most, from, done);
            scanned(after, per, row, after.len()) == scanned(done, per, row, done.len()) + if from <= row / per && stored(
                column,
                row,
            ) {
                1nat
            } else {
                0nat
            }
        }),
    decreases column.shards@.len() - from,
{
    let per = column.rows_per_shard as nat;
    if from < column.shards@.len() {
        let count = column.shards@[from as int].row_count as nat;
        lemma_shard(from, count, most, 0, done, per, row);
        lemma_of_shard(from, per, row, count);
        lemma_full(column, most, from + 1, shard_batches(from, count, most, 0, done), row);
    }
}

proof fn lemma_candidates(rows: Seq<usize>, per: nat, shard: nat, from: nat, end: nat, done: Seq<u32>, row: nat)
    requires
        0 < per <= u32::MAX,
    ensures
        ({
            let after = shard_candidates(rows, per, shard, from, end, done);
            let batch = BatchView { shard, offset: 0, count: after.len(), candidates: Some(after) };
            let before = BatchView { shard, offset: 0, count: done.len(), candidates: Some(done) };
            held(batch, per, row, after.len()) == held(before, per, row, done.len()) + if row / per == shard {
                listed(rows, from, end, row)
            } else {
                0nat
            }
        }),
    decreases end - from,
{
    let before = BatchView { shard, offset: 0, count: done.len(), candidates: Some(done) };
    if from < end && from < rows.len() {
        let found = rows[from as int] as nat;
        if found / per == shard {
            let inside = (found - shard * per) as u32;
            lemma_of_shard(shard, per, found, per);
            assert(found % per < per) by {
                vstd::arithmetic::div_mod::lemma_mod_bound(found as int, per as int);
            }
            assert(inside == found - shard * per);
            let next = done.push(inside);
            let middle = BatchView { shard, offset: 0, count: next.len(), candidates: Some(next) };
            lemma_held_same(before, middle, per, row, done.len());
            lemma_candidates(rows, per, shard, from + 1, end, next, row);
        } else {
            lemma_candidates(rows, per, shard, from + 1, end, done, row);
        }
    }
}

/// What a batch holds depends on its candidates up to there.
proof fn lemma_held_same(first: BatchView, second: BatchView, per: nat, row: nat, count: nat)
    requires
        first.shard == second.shard,
        first.candidates is Some,
        second.candidates is Some,
        count <= first.candidates->Some_0.len(),
        count <= second.candidates->Some_0.len(),
        forall|i: int| 0 <= i < count ==> first.candidates->Some_0[i] == second.candidates->Some_0[i],
    ensures
        held(first, per, row, count) == held(second, per, row, count),
    decreases count,
{
    if count > 0 {
        lemma_held_same(first, second, per, row, (count - 1) as nat);
    }
}

proof fn lemma_window(rows: Seq<usize>, per: nat, shards: nat, shard: nat, from: nat, end: nat, done: Seq<BatchView>, row: nat)
    requires
        0 < per <= u32::MAX,
    ensures
        ({
            let after = window_batches(rows, per, shards, shard, from, end, done);
            scanned(after, per, row, after.len()) == scanned(done, per, row, done.len()) + if shard <= row / per < shards {
                listed(rows, from, end, row)
            } else {
                0nat
            }
        }),
    decreases shards - shard,
{
    if shard < shards {
        let found = shard_candidates(rows, per, shard, from, end, Seq::empty());
        let batch = BatchView { shard, offset: 0, count: found.len(), candidates: Some(found) };
        lemma_candidates(rows, per, shard, from, end, Seq::empty(), row);
        lemma_scanned_push(done, batch, per, row);
        let next = if found.len() == 0 {
            done
        } else {
            done.push(batch)
        };
        lemma_window(rows, per, shards, shard + 1, from, end, next, row);
    }
}

proof fn lemma_listed(rows: Seq<usize>, from: nat, middle: nat, end: nat, row: nat)
    requires
        from <= middle <= end,
    ensures
        listed(rows, from, end, row) == listed(rows, from, middle, row) + listed(rows, middle, end, row),
    decreases middle - from,
{
    if from < middle {
        lemma_listed(rows, from + 1, middle, end, row);
    }
}

proof fn lemma_indexed(rows: Seq<usize>, per: nat, shards: nat, most: nat, from: nat, done: Seq<BatchView>, row: nat)
    requires
        0 < per <= u32::MAX,
        most > 0,
        row / per < shards,
    ensures
        ({
            let after = indexed_batches(rows, per, shards, most, from, done);
            scanned(after, per, row, after.len()) == scanned(done, per, row, done.len()) + listed(rows, from, rows.len(), row)
        }),
    decreases rows.len() - from,
{
    if from < rows.len() {
        let end = if rows.len() - from < most {
            rows.len()
        } else {
            from + most
        };
        lemma_window(rows, per, shards, 0, from, end, done, row);
        lemma_listed(rows, from, end, rows.len(), row);
        lemma_indexed(rows, per, shards, most, end, window_batches(rows, per, shards, 0, from, end, done), row);
    }
}

/// Whether a shard holds as many rows as it can, or those that are left.
pub open spec fn shard_filled<T>(column: CachedColumn<T>, at: int) -> bool {
    let left = column.row_count - at * column.rows_per_shard;
    column.shards@[at].row_count == if left < column.rows_per_shard {
        left
    } else {
        column.rows_per_shard as int
    }
}

proof fn lemma_stored<T>(column: CachedColumn<T>, row: nat)
    requires
        shards_placed(column),
        forall|i: int| 0 <= i < column.shards@.len() ==> #[trigger] shard_filled(column, i),
    ensures
        stored(column, row) == (row < column.row_count),
{
    let per = column.rows_per_shard as nat;
    let shard = row / per;
    let count = column.shards@.len();
    lemma_of_shard(shard, per, row, per);
    assert(shard * per <= row < shard * per + per) by {
        vstd::arithmetic::div_mod::lemma_mod_bound(row as int, per as int);
    }
    if shard < count {
        assert(shard_filled(column, shard as int));
        assert(shard_placed(column, shard as int));
        lemma_of_shard(shard, per, row, column.shards@[shard as int].row_count as nat);
    } else {
        assert(count * per <= shard * per) by (nonlinear_arith)
            requires
                count <= shard,
        ;
    }
}

proof fn lemma_not_listed(rows: Seq<usize>, from: nat, end: nat, row: nat)
    requires
        forall|i: int| 0 <= i < rows.len() ==> (#[trigger] rows[i]) != row,
    ensures
        listed(rows, from, end, row) == 0,
    decreases end - from,
{
    if from < end && from < rows.len() {
        lemma_not_listed(rows, from + 1, end, row);
    }
}

proof fn lemma_beyond(rows: Seq<usize>, per: nat, shards: nat, most: nat, from: nat, done: Seq<BatchView>, row: nat)
    requires
        0 < per <= u32::MAX,
        most > 0,
        row / per >= shards,
    ensures
        ({
            let after = indexed_batches(rows, per, shards, most, from, done);
            scanned(after, per, row, after.len()) == scanned(done, per, row, done.len())
        }),
    decreases rows.len() - from,
{
    if from < rows.len() {
        let end = if rows.len() - from < most {
            rows.len()
        } else {
            from + most
        };
        lemma_window(rows, per, shards, 0, from, end, done, row);
        lemma_beyond(rows, per, shards, most, end, window_batches(rows, per, shards, 0, from, end, done), row);
    }
}

/// A scan of a whole column looks at each of its rows once and at nothing else; a scan of candidates
/// looks at each row as often as it is among them.
pub proof fn law_candidates_are_scanned_once<T>(column: CachedColumn<T>, rows: Option<Seq<usize>>, most: nat, row: nat)
    requires
        most > 0,
        shards_placed(column),
        forall|i: int| 0 <= i < column.shards@.len() ==> #[trigger] shard_filled(column, i),
        rows matches Some(rows) ==> forall|i: int| 0 <= i < rows.len() ==> (#[trigger] rows[i]) < column.row_count,
    ensures
        ({
            let batches = scan_batches(column, rows, most);
            scanned(batches, column.rows_per_shard as nat, row, batches.len()) == (match rows {
                None => if row < column.row_count {
                    1nat
                } else {
                    0nat
                },
                Some(rows) => listed(rows, 0, rows.len(), row),
            })
        }),
{
    let per = column.rows_per_shard as nat;
    let shards = column.shards@.len();
    assert forall|i: int| 0 <= i < shards implies (#[trigger] column.shards@[i]).row_count <= column.rows_per_shard by {
        assert(shard_filled(column, i));
    }
    lemma_stored(column, row);
    match rows {
        None => lemma_full(column, most, 0, Seq::empty(), row),
        Some(rows) => {
            if row / per < shards {
                lemma_indexed(rows, per, shards, most, 0, Seq::empty(), row);
            } else {
                lemma_beyond(rows, per, shards, most, 0, Seq::empty(), row);
                lemma_not_listed(rows, 0, rows.len(), row);
            }
        },
    }
}

} // verus!
