//! Columns that stay on a compute device, and the batches in which candidates are scanned there.

use vstd::prelude::*;
use crate::float::{compute_number, computes, floats, narrow, narrowed, number, FloatReply, FloatTask, FloatTaskView, Floats};
use crate::gpu::{
    bad_input, dispatch_shape, dispatched, laid_out, over_limit, reply, ColumnLayout, DenseVectorColumn, DenseView, DispatchShape,
    GpuError, GpuErrorView, GpuLimits, PARAMETER_BYTES, RESULT_BYTES,
};
use crate::gpu_scan::{packed_from, packed_shard, shard_size, PackedShard, PackedView};
use crate::text::{decimal, decimal_count, decimal_text, join2, join3, lemma_views_push, views};
use crate::vector::{element_finite, element_is_finite, Vector};

verus! {

broadcast use {vstd::string::group_string_axioms, lemma_views_push};

/// Consecutive rows of a column on a device, with the buffers that hold them.
#[derive(Debug)]
pub struct CachedColumnShard<T> {
    pub first_row: usize,
    pub row_count: usize,
    pub cosine_supported: bool,
    pub buffers: T,
}

/// A column on a device.
#[derive(Debug)]
pub struct CachedColumn<T> {
    pub storage_id: u64,
    pub dimensions: usize,
    pub row_count: usize,
    pub rows_per_shard: usize,
    pub bytes: usize,
    pub shards: Vec<CachedColumnShard<T>>,
}

/// Whether the shards hold the rows of the column, so many each.
pub open spec fn shards_placed<T>(column: CachedColumn<T>) -> bool {
    &&& 0 < column.rows_per_shard <= u32::MAX
    &&& column.row_count <= column.shards@.len() * column.rows_per_shard
    &&& forall|i: int| 0 <= i < column.shards@.len() ==> #[trigger] shard_placed(column, i)
}

/// Whether a shard starts where the ones before it end.
pub open spec fn shard_placed<T>(column: CachedColumn<T>, at: int) -> bool {
    &&& column.shards@[at].first_row == at * column.rows_per_shard
    &&& column.shards@[at].first_row + column.shards@[at].row_count <= column.row_count
}

/// Whether an entry is of this column.
pub open spec fn of_column<T>(entry: CachedColumn<T>, column: DenseView) -> bool {
    entry.storage_id == column.storage_id && entry.dimensions == column.dimensions && entry.row_count == column.row_count
}

/// The first entry, from `from` on, that is of this column.
pub open spec fn column_at<T>(entries: Seq<CachedColumn<T>>, column: DenseView, from: nat) -> Option<nat>
    decreases entries.len() - from,
{
    if from >= entries.len() {
        None
    } else if of_column(entries[from as int], column) {
        Some(from)
    } else {
        column_at(entries, column, from + 1)
    }
}

/// How many bytes the entries have together.
pub open spec fn cached_size<T>(entries: Seq<CachedColumn<T>>) -> nat
    decreases entries.len(),
{
    if entries.len() == 0 {
        0
    } else {
        cached_size(entries.drop_last()) + entries.last().bytes as nat
    }
}

/// The entries with the one at `at` moved to the front.
pub open spec fn brought_forward<T>(entries: Seq<CachedColumn<T>>, at: nat) -> Seq<CachedColumn<T>> {
    if at == 0 {
        entries
    } else {
        seq![entries[at as int]] + entries.remove(at as int)
    }
}

/// The entries without the last ones that are more than so many bytes.
pub open spec fn reduced<T>(entries: Seq<CachedColumn<T>>, most: nat) -> Seq<CachedColumn<T>>
    decreases entries.len(),
{
    if entries.len() > 0 && cached_size(entries) > most {
        reduced(entries.drop_last(), most)
    } else {
        entries
    }
}

/// The entries once there is room for a column, and its layout; none where it is there already and
/// then the first.
pub open spec fn prepared<T>(entries: Seq<CachedColumn<T>>, limits: GpuLimits, column: DenseView) -> (
    Seq<CachedColumn<T>>,
    Result<Option<ColumnLayout>, GpuErrorView>,
) {
    match column_at(entries, column, 0) {
        Some(at) => (brought_forward(entries, at), Ok(None)),
        None => match laid_out(limits, column) {
            Err(error) => (entries, Err(error)),
            Ok(layout) => if layout.bytes > limits.max_cache_bytes {
                (
                    entries,
                    Err(
                        over_limit(
                            "dense column needs "@ + decimal_text(layout.bytes as nat) + " bytes but the cache limit is "@
                                + decimal_text(limits.max_cache_bytes as nat) + " bytes"@,
                        ),
                    ),
                )
            } else {
                (reduced(entries, (limits.max_cache_bytes - layout.bytes) as nat), Ok(Some(layout)))
            },
        },
    }
}

proof fn lemma_size_remove<T>(entries: Seq<CachedColumn<T>>, at: int)
    requires
        0 <= at < entries.len(),
    ensures
        cached_size(entries.remove(at)) + entries[at].bytes == cached_size(entries),
    decreases entries.len(),
{
    if at == entries.len() - 1 {
        assert(entries.remove(at) =~= entries.drop_last());
    } else {
        lemma_size_remove(entries.drop_last(), at);
        assert(entries.remove(at).drop_last() =~= entries.drop_last().remove(at));
        assert(entries.remove(at).last() == entries.last());
    }
}

proof fn lemma_size_front<T>(entries: Seq<CachedColumn<T>>, first: CachedColumn<T>)
    ensures
        cached_size(seq![first] + entries) == first.bytes + cached_size(entries),
    decreases entries.len(),
{
    let all = seq![first] + entries;
    if entries.len() == 0 {
        assert(all.drop_last() =~= Seq::<CachedColumn<T>>::empty());
        assert(cached_size(all.drop_last()) == 0);
    } else {
        lemma_size_front(entries.drop_last(), first);
        assert(all.drop_last() =~= seq![first] + entries.drop_last());
        assert(all.last() == entries.last());
    }
}

/// Making room for a column leaves no more than the cache may hold once the column is in it, and
/// what is left are the entries that were used last.
pub proof fn law_room<T>(entries: Seq<CachedColumn<T>>, most: nat)
    ensures
        cached_size(reduced(entries, most)) <= most,
        reduced(entries, most).len() <= entries.len(),
        reduced(entries, most) == entries.take(reduced(entries, most).len() as int),
    decreases entries.len(),
{
    if entries.len() > 0 && cached_size(entries) > most {
        law_room(entries.drop_last(), most);
        let count = reduced(entries, most).len() as int;
        assert(entries.drop_last().take(count) =~= entries.take(count));
    } else {
        assert(entries.take(entries.len() as int) =~= entries);
    }
}

/// The columns on a device, the last used first.
pub struct GpuCache<T> {
    pub entries: Vec<CachedColumn<T>>,
    pub cached_bytes: usize,
}

impl<T> GpuCache<T> {
    pub open spec fn wf(self) -> bool {
        &&& self.cached_bytes == cached_size(self.entries@)
        &&& forall|i: int| 0 <= i < self.entries@.len() ==> shards_placed(#[trigger] self.entries@[i])
    }

    pub fn new() -> (cache: GpuCache<T>)
        ensures
            cache.wf(),
            cache.entries@ == Seq::<CachedColumn<T>>::empty(),
    {
        GpuCache { entries: Vec::new(), cached_bytes: 0 }
    }

    fn find(&self, column: &DenseVectorColumn) -> (result: Option<usize>)
        ensures
            match result {
                Some(at) => column_at(self.entries@, column@, 0) == Some(at as nat) && at < self.entries@.len(),
                None => column_at(self.entries@, column@, 0) is None,
            },
    {
        let mut at: usize = 0;
        while at < self.entries.len()
            invariant
                at <= self.entries@.len(),
                column_at(self.entries@, column@, at as nat) == column_at(self.entries@, column@, 0),
            decreases self.entries@.len() - at,
        {
            let entry = &self.entries[at];
            if entry.storage_id == column.storage_id && entry.dimensions == column.dimensions && entry.row_count
                == column.row_count {
                return Some(at);
            }
            at = at + 1;
        }
        None
    }

    /// Makes room for a column, and gives its layout; none where it is there already and then the
    /// first.
    pub fn ensure_cached(&mut self, limits: &GpuLimits, column: &DenseVectorColumn) -> (result: Result<
        Option<ColumnLayout>,
        GpuError,
    >)
        requires
            old(self).wf(),
        ensures
            final(self).wf(),
            (final(self).entries@, reply(result)) == prepared(old(self).entries@, *limits, column@),
            result matches Ok(Some(layout)) ==> final(self).cached_bytes + layout.bytes <= limits.max_cache_bytes
                && layout.rows_per_shard > 0 && layout.rows_per_shard <= u32::MAX,
    {
        if let Some(at) = self.find(column) {
            if at != 0 {
                let ghost start = self.entries@;
                proof {
                    lemma_size_remove(start, at as int);
                    lemma_size_front(start.remove(at as int), start[at as int]);
                }
                let entry = self.entries.remove(at);
                self.entries.insert(0, entry);
                proof {
                    assert(self.entries@ =~= brought_forward(start, at as nat));
                    assert forall|i: int| 0 <= i < self.entries@.len() implies shards_placed(#[trigger] self.entries@[i]) by {
                        if i == 0 {
                            assert(self.entries@[i] == start[at as int]);
                        } else if i <= at {
                            assert(self.entries@[i] == start[i - 1]);
                        } else {
                            assert(self.entries@[i] == start[i]);
                        }
                    }
                }
            }
            return Ok(None);
        }
        let layout = limits.column_layout(column)?;
        if layout.bytes > limits.max_cache_bytes {
            let needed = decimal_count(layout.bytes);
            let most = decimal_count(limits.max_cache_bytes);
            let head = join3("dense column needs ", needed.as_str(), " bytes but the cache limit is ");
            return Err(GpuError::Limit(join3(head.as_str(), most.as_str(), " bytes")));
        }
        let room: usize = limits.max_cache_bytes - layout.bytes;
        let ghost start = self.entries@;
        proof {
            law_room(start, room as nat);
        }
        while self.cached_bytes > room
            invariant
                self.wf(),
                reduced(self.entries@, room as nat) == reduced(start, room as nat),
            decreases self.entries@.len(),
        {
            let ghost before = self.entries@;
            if let Some(evicted) = self.entries.pop() {
                assert(self.entries@ =~= before.drop_last());
                self.cached_bytes = self.cached_bytes - evicted.bytes;
                assert forall|i: int| 0 <= i < self.entries@.len() implies shards_placed(#[trigger] self.entries@[i]) by {
                    assert(self.entries@[i] == before[i]);
                }
            }
        }
        Ok(Some(layout))
    }

    /// Puts a column that was uploaded to the front.
    pub fn store(&mut self, column: &DenseVectorColumn, layout: &ColumnLayout, packed: &Vec<PackedShard>, buffers: Vec<T>)
        requires
            old(self).wf(),
            old(self).cached_bytes + layout.bytes <= usize::MAX,
            0 < layout.rows_per_shard <= u32::MAX,
            buffers@.len() == packed@.len(),
            exists|floats: Floats|
                views(packed@) == #[trigger] packed_from(column@, layout.rows_per_shard as nat, floats, 0, Seq::empty()),
        ensures
            final(self).wf(),
            final(self).entries@.len() == old(self).entries@.len() + 1,
            final(self).entries@.skip(1) == old(self).entries@,
            of_column(final(self).entries@[0], column@),
            final(self).entries@[0].bytes == layout.bytes,
            final(self).entries@[0].rows_per_shard == layout.rows_per_shard,
            final(self).entries@[0].shards@.len() == packed@.len(),
            forall|i: int|
                0 <= i < packed@.len() ==> {
                    let shard = #[trigger] final(self).entries@[0].shards@[i];
                    shard.first_row == packed@[i].first_row && shard.row_count == packed@[i].row_count
                        && shard.cosine_supported == packed@[i].cosine_supported && shard.buffers == buffers@[i]
                },
    {
        let mut rest = buffers;
        let ghost all = rest@;
        let mut shards: Vec<CachedColumnShard<T>> = Vec::new();
        while shards.len() < packed.len()
            invariant
                all.len() == packed@.len(),
                shards@.len() <= packed@.len(),
                rest@ == all.skip(shards@.len() as int),
                forall|i: int|
                    0 <= i < shards@.len() ==> (#[trigger] shards@[i]) == (CachedColumnShard {
                        first_row: packed@[i].first_row,
                        row_count: packed@[i].row_count,
                        cosine_supported: packed@[i].cosine_supported,
                        buffers: all[i],
                    }),
            decreases packed@.len() - shards@.len(),
        {
            let at: usize = shards.len();
            assert(rest@.len() == all.len() - at);
            let handle = rest.remove(0);
            assert(rest@ =~= all.skip(at as int + 1));
            shards.push(
                CachedColumnShard {
                    first_row: packed[at].first_row,
                    row_count: packed[at].row_count,
                    cosine_supported: packed[at].cosine_supported,
                    buffers: handle,
                },
            );
        }
        let entry = CachedColumn {
            storage_id: column.storage_id,
            dimensions: column.dimensions,
            row_count: column.row_count,
            rows_per_shard: layout.rows_per_shard,
            bytes: layout.bytes,
            shards,
        };
        proof {
            let per = layout.rows_per_shard as nat;
            let floats = choose|floats: Floats| views(packed@) == #[trigger] packed_from(column@, per, floats, 0, Seq::empty());
            lemma_packed_placed(column@, per, floats, 0, Seq::empty());
            assert(views(packed@).len() == packed@.len());
            assert forall|i: int| 0 <= i < entry.shards@.len() implies #[trigger] shard_placed(entry, i) by {
                assert(views(packed@)[i] == packed@[i]@);
                assert(shard_in_place(views(packed@), per, column@.row_count, i));
            }
            lemma_size_front(self.entries@, entry);
        }
        let ghost start = self.entries@;
        self.entries.insert(0, entry);
        self.cached_bytes = self.cached_bytes + layout.bytes;
        proof {
            assert(self.entries@ =~= seq![entry] + start);
            assert(self.entries@.skip(1) =~= start);
            assert forall|i: int| 0 <= i < self.entries@.len() implies shards_placed(#[trigger] self.entries@[i]) by {
                if i > 0 {
                    assert(self.entries@[i] == start[i - 1]);
                }
            }
        }
    }
}

spec fn shard_in_place(shards: Seq<PackedView>, per: nat, row_count: nat, at: int) -> bool {
    shards[at].first_row == at * per && shards[at].first_row + shards[at].row_count <= row_count
}

proof fn lemma_packed_placed(column: DenseView, per: nat, floats: Floats, first: nat, done: Seq<PackedView>)
    requires
        per > 0,
        forall|i: int| 0 <= i < done.len() ==> #[trigger] shard_in_place(done, per, column.row_count, i),
        first <= column.row_count,
        first == done.len() * per || first == column.row_count,
        first == column.row_count ==> column.row_count <= done.len() * per,
    ensures
        ({
            let shards = packed_from(column, per, floats, first, done);
            &&& column.row_count <= shards.len() * per
            &&& forall|i: int| 0 <= i < shards.len() ==> #[trigger] shard_in_place(shards, per, column.row_count, i)
        }),
    decreases column.row_count - first,
{
    if first < column.row_count {
        let count = shard_size(column.row_count, first, per);
        let next = done.push(packed_shard(column, first, count, floats));
        assert forall|i: int| 0 <= i < next.len() implies #[trigger] shard_in_place(next, per, column.row_count, i) by {
            if i < done.len() {
                assert(shard_in_place(done, per, column.row_count, i));
                assert(next[i] == done[i]);
            }
        }
        assert(next.len() * per == done.len() * per + per) by (nonlinear_arith)
            requires
                next.len() == done.len() + 1,
        ;
        lemma_packed_placed(column, per, floats, first + count, next);
    }
}

/// What a scan is asked: the column's size, the candidates, and the query's dimensions.
pub open spec fn scan_checked(column: DenseView, rows: Option<Seq<usize>>, dimensions: nat) -> Result<bool, GpuErrorView> {
    let count = match rows {
        Some(rows) => rows.len(),
        None => column.row_count,
    };
    if count == 0 {
        Ok(false)
    } else if dimensions != column.dimensions {
        Err(
            bad_input(
                "query has "@ + decimal_text(dimensions) + " dimensions but the column has "@ + decimal_text(
                    column.dimensions,
                ),
            ),
        )
    } else {
        match rows {
            None => Ok(true),
            Some(rows) => match first_outside(rows, column.row_count, 0) {
                Some(row) => Err(
                    bad_input(
                        "candidate row "@ + decimal_text(row as nat) + " is outside a column with "@ + decimal_text(
                            column.row_count,
                        ) + " rows"@,
                    ),
                ),
                None => Ok(true),
            },
        }
    }
}

/// The first of the rows from `from` on that is not below `count`.
pub open spec fn first_outside(rows: Seq<usize>, count: nat, from: nat) -> Option<usize>
    decreases rows.len() - from,
{
    if from >= rows.len() {
        None
    } else if rows[from as int] >= count {
        Some(rows[from as int])
    } else {
        first_outside(rows, count, from + 1)
    }
}

pub open spec fn rows_view(rows: Option<&Vec<usize>>) -> Option<Seq<usize>> {
    match rows {
        None => None,
        Some(rows) => Some(rows@),
    }
}

/// Whether a query of so many elements fits into a buffer.
pub open spec fn query_checked(limits: GpuLimits, dimensions: nat) -> Result<(), GpuErrorView> {
    if 4 * dimensions <= limits.max_storage_binding_size && 4 * dimensions <= limits.max_buffer_size {
        Ok(())
    } else {
        Err(GpuErrorView::Limit("query vector exceeds the maximum storage-buffer binding"@))
    }
}

/// Checks that a query fits into a buffer.
pub fn check_query(limits: &GpuLimits, query: &Vector) -> (result: Result<(), GpuError>)
    ensures
        reply(result) == query_checked(*limits, query@.len()),
{
    if limits.fits_storage_buffer(query.dimensions() * 4) {
        Ok(())
    } else {
        Err(GpuError::Limit("query vector exceeds the maximum storage-buffer binding".to_owned()))
    }
}

/// Whether there is anything to scan; fails where the query or a candidate does not fit the column.
pub fn check_scan(column: &DenseVectorColumn, rows: Option<&Vec<usize>>, query: &Vector) -> (result: Result<bool, GpuError>)
    ensures
        reply(result) == scan_checked(column@, rows_view(rows), query@.len()),
        result matches Ok(_) ==> (rows matches Some(rows) ==> forall|i: int|
            0 <= i < rows@.len() ==> (#[trigger] rows@[i]) < column.row_count),
{
    let count: usize = match rows {
        Some(rows) => rows.len(),
        None => column.row_count,
    };
    if count == 0 {
        return Ok(false);
    }
    let dimensions: usize = query.dimensions();
    if dimensions != column.dimensions {
        let asked = decimal_count(dimensions);
        let held = decimal_count(column.dimensions);
        let head = join3("query has ", asked.as_str(), " dimensions but the column has ");
        return Err(GpuError::InvalidInput(join2(head.as_str(), held.as_str())));
    }
    if let Some(listed) = rows {
        let mut at: usize = 0;
        while at < listed.len()
            invariant
                rows == Some(listed),
                at <= listed@.len(),
                count == listed@.len(),
                count > 0,
                dimensions == query@.len(),
                dimensions == column.dimensions,
                forall|i: int| 0 <= i < at ==> (#[trigger] listed@[i]) < column.row_count,
                first_outside(listed@, column.row_count as nat, at as nat) == first_outside(
                    listed@,
                    column.row_count as nat,
                    0,
                ),
            decreases listed@.len() - at,
        {
            if listed[at] >= column.row_count {
                let row = decimal_count(listed[at]);
                let held = decimal_count(column.row_count);
                let head = join3("candidate row ", row.as_str(), " is outside a column with ");
                return Err(GpuError::InvalidInput(join3(head.as_str(), held.as_str(), " rows")));
            }
            at = at + 1;
        }
    }
    Ok(true)
}

/// Whether a shard that a scan reads holds a norm that no element can be.
pub open spec fn unsupported<T>(column: CachedColumn<T>, rows: Option<Seq<usize>>) -> bool {
    match rows {
        None => exists|i: int| 0 <= i < column.shards@.len() && !(#[trigger] column.shards@[i]).cosine_supported,
        Some(rows) => any_unsupported(column, rows, 0),
    }
}

/// Whether the shard of a row, from `from` on, holds a norm that no element can be.
pub open spec fn any_unsupported<T>(column: CachedColumn<T>, rows: Seq<usize>, from: nat) -> bool
    decreases rows.len() - from,
{
    from < rows.len() && (row_unsupported(column, rows[from as int]) || any_unsupported(column, rows, from + 1))
}

/// Whether the shard of a row holds a norm that no element can be.
pub open spec fn row_unsupported<T>(column: CachedColumn<T>, row: usize) -> bool {
    !column.shards@[row as int / column.rows_per_shard as int].cosine_supported
}

fn is_unsupported<T>(column: &CachedColumn<T>, rows: Option<&Vec<usize>>) -> (result: bool)
    requires
        shards_placed(*column),
        rows matches Some(rows) ==> forall|i: int| 0 <= i < rows@.len() ==> (#[trigger] rows@[i]) < column.row_count,
    ensures
        result == unsupported(*column, rows_view(rows)),
{
    match rows {
        None => {
            let mut at: usize = 0;
            while at < column.shards.len()
                invariant
                    rows is None,
                    at <= column.shards@.len(),
                    forall|i: int| 0 <= i < at ==> (#[trigger] column.shards@[i]).cosine_supported,
                decreases column.shards@.len() - at,
            {
                if !column.shards[at].cosine_supported {
                    assert(!column.shards@[at as int].cosine_supported);
                    return true;
                }
                at = at + 1;
            }
            false
        },
        Some(listed) => {
            let mut at: usize = 0;
            while at < listed.len()
                invariant
                    rows == Some(listed),
                    shards_placed(*column),
                    forall|i: int| 0 <= i < listed@.len() ==> (#[trigger] listed@[i]) < column.row_count,
                    at <= listed@.len(),
                    any_unsupported(*column, listed@, at as nat) == any_unsupported(*column, listed@, 0),
                decreases listed@.len() - at,
            {
                proof {
                    lemma_shard_of(*column, listed@[at as int]);
                }
                let shard: usize = listed[at] / column.rows_per_shard;
                if !column.shards[shard].cosine_supported {
                    return true;
                }
                at = at + 1;
            }
            false
        },
    }
}

proof fn lemma_shard_of<T>(column: CachedColumn<T>, row: usize)
    requires
        shards_placed(column),
        row < column.row_count,
    ensures
        ({
            let at = row as int / column.rows_per_shard as int;
            &&& 0 <= at < column.shards@.len()
            &&& shard_placed(column, at)
            &&& column.shards@[at].first_row <= row
            &&& row - column.shards@[at].first_row < column.rows_per_shard
        }),
{
    let per = column.rows_per_shard as int;
    let at = row as int / per;
    let count = column.shards@.len() as int;
    assert(0 <= at && at * per <= row && row < at * per + per) by (nonlinear_arith)
        requires
            per > 0,
            at == row as int / per,
            row >= 0,
    ;
    assert(at < count) by (nonlinear_arith)
        requires
            at * per <= row,
            row < count * per,
            per > 0,
    ;
    assert(shard_placed(column, at));
}

/// The error of a scan by cosine whose norms are too large for elements.
pub open spec fn cosine_checked<T>(column: CachedColumn<T>, rows: Option<Seq<usize>>, query: Seq<u32>, floats: Floats) -> Result<
    (),
    GpuErrorView,
> {
    if !element_finite(narrowed(floats, number(floats, FloatTaskView::Norm(query)))) {
        Err(over_limit("query norm exceeds the shader's f32 numeric range"@))
    } else if unsupported(column, rows) {
        Err(over_limit("a stored vector norm exceeds the shader's f32 numeric range"@))
    } else {
        Ok(())
    }
}

pub fn check_cosine<T, F: Fn(FloatTask) -> FloatReply>(f: &F, column: &CachedColumn<T>, rows: Option<&Vec<usize>>, query: &Vector) -> (result: Result<
    (),
    GpuError,
>)
    requires
        computes(*f),
        shards_placed(*column),
        rows matches Some(rows) ==> forall|i: int| 0 <= i < rows@.len() ==> (#[trigger] rows@[i]) < column.row_count,
    ensures
        reply(result) == cosine_checked(*column, rows_view(rows), query@, floats(*f)),
{
    let norm: u32 = narrow(f, compute_number(f, FloatTask::Norm(query.share())));
    if !element_is_finite(norm) {
        return Err(GpuError::Limit("query norm exceeds the shader's f32 numeric range".to_owned()));
    }
    if is_unsupported(column, rows) {
        return Err(GpuError::Limit("a stored vector norm exceeds the shader's f32 numeric range".to_owned()));
    }
    Ok(())
}

/// Candidates that are scanned at once: rows of one shard from `offset` on, or those given.
#[derive(Debug)]
pub struct ScanBatch {
    pub shard: usize,
    pub offset: usize,
    pub count: usize,
    pub candidates: Option<Vec<u32>>,
}

pub struct BatchView {
    pub shard: nat,
    pub offset: nat,
    pub count: nat,
    pub candidates: Option<Seq<u32>>,
}

impl View for ScanBatch {
    type V = BatchView;

    open spec fn view(&self) -> BatchView {
        BatchView {
            shard: self.shard as nat,
            offset: self.offset as nat,
            count: self.count as nat,
            candidates: match self.candidates {
                None => None,
                Some(rows) => Some(rows@),
            },
        }
    }
}

/// The batches of a shard's rows from `offset` on, after `done`.
pub open spec fn shard_batches(shard: nat, rows: nat, most: nat, offset: nat, done: Seq<BatchView>) -> Seq<BatchView>
    decreases rows - offset,
{
    if offset >= rows || most == 0 {
        done
    } else {
        let count = if rows - offset < most {
            (rows - offset) as nat
        } else {
            most
        };
        shard_batches(
            shard,
            rows,
            most,
            offset + count,
            done.push(BatchView { shard, offset, count, candidates: None }),
        )
    }
}

/// The batches of all rows, from the shard `from` on, after `done`.
pub open spec fn full_batches<T>(column: CachedColumn<T>, most: nat, from: nat, done: Seq<BatchView>) -> Seq<BatchView>
    decreases column.shards@.len() - from,
{
    if from >= column.shards@.len() {
        done
    } else {
        full_batches(
            column,
            most,
            from + 1,
            shard_batches(from, column.shards@[from as int].row_count as nat, most, 0, done),
        )
    }
}

/// The rows of a shard among the candidates from `from` up to `end`, counted within the shard, after
/// `done`.
pub open spec fn shard_candidates(rows: Seq<usize>, per: nat, shard: nat, from: nat, end: nat, done: Seq<u32>) -> Seq<u32>
    decreases end - from,
{
    if from >= end || from >= rows.len() {
        done
    } else if rows[from as int] as nat / per == shard {
        shard_candidates(rows, per, shard, from + 1, end, done.push((rows[from as int] - shard * per) as u32))
    } else {
        shard_candidates(rows, per, shard, from + 1, end, done)
    }
}

/// The batches of the candidates from `from` up to `end`, from the shard `shard` on, after `done`.
pub open spec fn window_batches(rows: Seq<usize>, per: nat, shards: nat, shard: nat, from: nat, end: nat, done: Seq<BatchView>) -> Seq<
    BatchView,
>
    decreases shards - shard,
{
    if shard >= shards {
        done
    } else {
        let found = shard_candidates(rows, per, shard, from, end, Seq::empty());
        window_batches(
            rows,
            per,
            shards,
            shard + 1,
            from,
            end,
            if found.len() == 0 {
                done
            } else {
                done.push(BatchView { shard, offset: 0, count: found.len(), candidates: Some(found) })
            },
        )
    }
}

/// The batches of the candidates from `from` on, so many at a time, after `done`.
pub open spec fn indexed_batches(rows: Seq<usize>, per: nat, shards: nat, most: nat, from: nat, done: Seq<BatchView>) -> Seq<BatchView>
    decreases rows.len() - from,
{
    if from >= rows.len() || most == 0 {
        done
    } else {
        let end = if rows.len() - from < most {
            rows.len()
        } else {
            from + most
        };
        indexed_batches(rows, per, shards, most, end, window_batches(rows, per, shards, 0, from, end, done))
    }
}

/// The batches of a scan.
pub open spec fn scan_batches<T>(column: CachedColumn<T>, rows: Option<Seq<usize>>, most: nat) -> Seq<BatchView> {
    match rows {
        None => full_batches(column, most, 0, Seq::empty()),
        Some(rows) => indexed_batches(
            rows,
            column.rows_per_shard as nat,
            column.shards@.len(),
            most,
            0,
            Seq::empty(),
        ),
    }
}

fn plan_shard(shard: usize, rows: usize, most: usize, done: &mut Vec<ScanBatch>)
    requires
        most > 0,
    ensures
        views(final(done)@) == shard_batches(shard as nat, rows as nat, most as nat, 0, views(old(done)@)),
{
    let mut offset: usize = 0;
    while offset < rows
        invariant
            most > 0,
            offset <= rows,
            shard_batches(shard as nat, rows as nat, most as nat, offset as nat, views(done@)) == shard_batches(
                shard as nat,
                rows as nat,
                most as nat,
                0,
                views(old(done)@),
            ),
        decreases rows - offset,
    {
        let count: usize = if rows - offset < most {
            rows - offset
        } else {
            most
        };
        done.push(ScanBatch { shard, offset, count, candidates: None });
        offset = offset + count;
    }
}

fn collect_candidates<T>(column: &CachedColumn<T>, rows: &Vec<usize>, shard: usize, from: usize, end: usize) -> (found: Vec<u32>)
    requires
        shards_placed(*column),
        shard < column.shards@.len(),
        from <= end <= rows@.len(),
        forall|i: int| 0 <= i < rows@.len() ==> (#[trigger] rows@[i]) < column.row_count,
    ensures
        found@ == shard_candidates(
            rows@,
            column.rows_per_shard as nat,
            shard as nat,
            from as nat,
            end as nat,
            Seq::empty(),
        ),
{
    let per: usize = column.rows_per_shard;
    let mut found: Vec<u32> = Vec::new();
    let mut at: usize = from;
    while at < end
        invariant
            shards_placed(*column),
            shard < column.shards@.len(),
            per == column.rows_per_shard,
            at <= end <= rows@.len(),
            forall|i: int| 0 <= i < rows@.len() ==> (#[trigger] rows@[i]) < column.row_count,
            shard_candidates(rows@, per as nat, shard as nat, at as nat, end as nat, found@) == shard_candidates(
                rows@,
                per as nat,
                shard as nat,
                from as nat,
                end as nat,
                Seq::empty(),
            ),
        decreases end - at,
    {
        let row: usize = rows[at];
        proof {
            assert(rows@[at as int] < column.row_count);
            lemma_shard_of(*column, row);
        }
        if row / per == shard {
            assert(shard_placed(*column, shard as int));
            let local: usize = row - column.shards[shard].first_row;
            found.push(local as u32);
        }
        at = at + 1;
    }
    found
}

fn plan_window<T>(column: &CachedColumn<T>, rows: &Vec<usize>, from: usize, end: usize, done: &mut Vec<ScanBatch>)
    requires
        shards_placed(*column),
        from <= end <= rows@.len(),
        forall|i: int| 0 <= i < rows@.len() ==> (#[trigger] rows@[i]) < column.row_count,
    ensures
        views(final(done)@) == window_batches(
            rows@,
            column.rows_per_shard as nat,
            column.shards@.len(),
            0,
            from as nat,
            end as nat,
            views(old(done)@),
        ),
{
    let mut shard: usize = 0;
    while shard < column.shards.len()
        invariant
            shards_placed(*column),
            from <= end <= rows@.len(),
            forall|i: int| 0 <= i < rows@.len() ==> (#[trigger] rows@[i]) < column.row_count,
            shard <= column.shards@.len(),
            window_batches(
                rows@,
                column.rows_per_shard as nat,
                column.shards@.len(),
                shard as nat,
                from as nat,
                end as nat,
                views(done@),
            ) == window_batches(
                rows@,
                column.rows_per_shard as nat,
                column.shards@.len(),
                0,
                from as nat,
                end as nat,
                views(old(done)@),
            ),
        decreases column.shards@.len() - shard,
    {
        let found = collect_candidates(column, rows, shard, from, end);
        let count: usize = found.len();
        if count > 0 {
            done.push(ScanBatch { shard, offset: 0, count, candidates: Some(found) });
        }
        shard = shard + 1;
    }
}

/// The batches of a scan.
pub fn plan_scan<T>(limits: &GpuLimits, column: &CachedColumn<T>, rows: Option<&Vec<usize>>) -> (batches: Vec<ScanBatch>)
    requires
        shards_placed(*column),
        limits.max_candidates_per_batch > 0,
        rows matches Some(rows) ==> forall|i: int| 0 <= i < rows@.len() ==> (#[trigger] rows@[i]) < column.row_count,
    ensures
        views(batches@) == scan_batches(*column, rows_view(rows), limits.max_candidates_per_batch as nat),
{
    let most: usize = limits.max_candidates_per_batch;
    let mut done: Vec<ScanBatch> = Vec::new();
    assert(views(done@) =~= Seq::<BatchView>::empty());
    match rows {
        None => {
            let mut shard: usize = 0;
            while shard < column.shards.len()
                invariant
                    most > 0,
                    shard <= column.shards@.len(),
                    full_batches(*column, most as nat, shard as nat, views(done@)) == full_batches(
                        *column,
                        most as nat,
                        0,
                        Seq::empty(),
                    ),
                decreases column.shards@.len() - shard,
            {
                plan_shard(shard, column.shards[shard].row_count, most, &mut done);
                shard = shard + 1;
            }
        },
        Some(rows) => {
            let total: usize = rows.len();
            let mut from: usize = 0;
            while from < total
                invariant
                    most > 0,
                    total == rows@.len(),
                    from <= total,
                    shards_placed(*column),
                    forall|i: int| 0 <= i < rows@.len() ==> (#[trigger] rows@[i]) < column.row_count,
                    indexed_batches(
                        rows@,
                        column.rows_per_shard as nat,
                        column.shards@.len(),
                        most as nat,
                        from as nat,
                        views(done@),
                    ) == indexed_batches(
                        rows@,
                        column.rows_per_shard as nat,
                        column.shards@.len(),
                        most as nat,
                        0,
                        Seq::empty(),
                    ),
                decreases total - from,
            {
                let end: usize = if total - from < most {
                    total
                } else {
                    from + most
                };
                plan_window(column, rows, from, end, &mut done);
                from = end;
            }
        },
    }
    done
}

/// What a scan is told. The norm of the query is an element as a bit pattern.
#[derive(Clone, Copy, Debug, PartialEq, Eq, Structural)]
pub struct GpuParameters {
    pub dimensions: u32,
    pub candidate_count: u32,
    pub row_count: u32,
    pub metric: u32,
    pub indexed: u32,
    pub query_norm: u32,
    pub dispatch_width: u32,
    pub candidate_offset: u32,
}

/// How a batch is run.
#[derive(Clone, Copy, Debug, PartialEq, Eq, Structural)]
pub struct BatchPlan {
    pub parameters: GpuParameters,
    pub dispatch: DispatchShape,
    pub output_bytes: usize,
}

/// How a batch of a shard with so many rows is run.
pub open spec fn batch_planned(
    limits: GpuLimits,
    shard_rows: nat,
    batch: BatchView,
    metric: u32,
    dimensions: nat,
    query_norm: u32,
) -> Result<BatchPlan, GpuErrorView> {
    let output = batch.count * RESULT_BYTES as nat;
    if batch.count == 0 || batch.count > limits.max_candidates_per_batch {
        Err(bad_input("GPU batch contains "@ + decimal_text(batch.count) + " candidates"@))
    } else if batch.candidates matches Some(rows) && rows.len() != batch.count {
        Err(bad_input("candidate buffer length does not match the GPU batch"@))
    } else if batch.count > u32::MAX {
        Err(over_limit("candidate batch exceeds u32 address space"@))
    } else if batch.offset > u32::MAX {
        Err(over_limit("candidate offset exceeds u32 address space"@))
    } else if dimensions > u32::MAX {
        Err(over_limit("vector dimensions exceed u32 address space"@))
    } else if shard_rows > u32::MAX {
        Err(over_limit("GPU shard exceeds u32 address space"@))
    } else {
        match dispatched(batch.count as u32, limits.max_compute_workgroups) {
            Err(error) => Err(error),
            Ok(dispatch) => if !limits.uniform_fits(PARAMETER_BYTES as nat) {
                Err(over_limit("scan parameters exceed the maximum uniform-buffer binding"@))
            } else if output > usize::MAX {
                Err(over_limit("GPU output size overflow"@))
            } else if !limits.storage_fits(output) || !limits.buffer_fits(output) {
                Err(over_limit("result batch exceeds the maximum GPU buffer size"@))
            } else if batch.candidates is Some && !limits.storage_fits(batch.count * 4) {
                Err(over_limit("candidate batch exceeds the maximum storage-buffer binding"@))
            } else {
                Ok(
                    BatchPlan {
                        parameters: GpuParameters {
                            dimensions: dimensions as u32,
                            candidate_count: batch.count as u32,
                            row_count: shard_rows as u32,
                            metric,
                            indexed: if batch.candidates is Some {
                                1
                            } else {
                                0
                            },
                            query_norm,
                            dispatch_width: dispatch.width,
                            candidate_offset: batch.offset as u32,
                        },
                        dispatch,
                        output_bytes: output as usize,
                    },
                )
            },
        }
    }
}

/// How a batch of a shard with so many rows is run.
pub fn plan_batch(limits: &GpuLimits, shard_rows: usize, batch: &ScanBatch, metric: u32, dimensions: usize, query_norm: u32) -> (result: Result<
    BatchPlan,
    GpuError,
>)
    ensures
        reply(result) == batch_planned(*limits, shard_rows as nat, batch@, metric, dimensions as nat, query_norm),
{
    let count: usize = batch.count;
    if count == 0 || count > limits.max_candidates_per_batch {
        let number = decimal_count(count);
        return Err(GpuError::InvalidInput(join3("GPU batch contains ", number.as_str(), " candidates")));
    }
    if let Some(rows) = &batch.candidates {
        if rows.len() != count {
            return Err(GpuError::InvalidInput("candidate buffer length does not match the GPU batch".to_owned()));
        }
    }
    let largest: u64 = u32::MAX as u64;
    if count as u64 > largest {
        return Err(GpuError::Limit("candidate batch exceeds u32 address space".to_owned()));
    }
    if batch.offset as u64 > largest {
        return Err(GpuError::Limit("candidate offset exceeds u32 address space".to_owned()));
    }
    if dimensions as u64 > largest {
        return Err(GpuError::Limit("vector dimensions exceed u32 address space".to_owned()));
    }
    if shard_rows as u64 > largest {
        return Err(GpuError::Limit("GPU shard exceeds u32 address space".to_owned()));
    }
    let dispatch = dispatch_shape(count as u32, limits.max_compute_workgroups)?;
    if !limits.fits_uniform_buffer(PARAMETER_BYTES) {
        return Err(GpuError::Limit("scan parameters exceed the maximum uniform-buffer binding".to_owned()));
    }
    let output_bytes: usize = match count.checked_mul(RESULT_BYTES) {
        None => return Err(GpuError::Limit("GPU output size overflow".to_owned())),
        Some(bytes) => bytes,
    };
    if !limits.fits_storage_buffer(output_bytes) || !limits.fits_buffer(output_bytes) {
        return Err(GpuError::Limit("result batch exceeds the maximum GPU buffer size".to_owned()));
    }
    let listed = batch.candidates.is_some();
    if listed && !limits.fits_storage_buffer(count * 4) {
        return Err(GpuError::Limit("candidate batch exceeds the maximum storage-buffer binding".to_owned()));
    }
    Ok(
        BatchPlan {
            parameters: GpuParameters {
                dimensions: dimensions as u32,
                candidate_count: count as u32,
                row_count: shard_rows as u32,
                metric,
                indexed: if listed {
                    1
                } else {
                    0
                },
                query_norm,
                dispatch_width: dispatch.width,
                candidate_offset: batch.offset as u32,
            },
            dispatch,
            output_bytes,
        },
    )
}

/// What a device gives for one candidate. The score is an element as a bit pattern.
#[derive(Clone, Copy, Debug, PartialEq, Eq, Structural)]
pub struct GpuResult {
    pub score: u32,
    pub state: u32,
}

/// A row of a column with its score; none where it holds no vector.
#[derive(Clone, Copy, Debug, PartialEq, Eq, Structural)]
pub struct ScoredRow {
    pub row: usize,
    pub score: Option<u32>,
}

/// The row of a column that a candidate of a batch is.
pub open spec fn batch_row(first_row: nat, batch: BatchView, at: nat) -> nat {
    match batch.candidates {
        None => first_row + batch.offset + at,
        Some(rows) => first_row + rows[at as int] as nat,
    }
}

/// The scores of the candidates from `from` on, after `done`.
pub open spec fn decoded_from(results: Seq<GpuResult>, first_row: nat, batch: BatchView, from: nat, done: Seq<ScoredRow>) -> Result<
    Seq<ScoredRow>,
    GpuErrorView,
>
    decreases results.len() - from,
{
    if from >= results.len() {
        Ok(done)
    } else {
        let result = results[from as int];
        let row = batch_row(first_row, batch, from) as usize;
        if result.state == 0 {
            decoded_from(results, first_row, batch, from + 1, done.push(ScoredRow { row, score: None }))
        } else if result.state == 1 && element_finite(result.score) {
            decoded_from(results, first_row, batch, from + 1, done.push(ScoredRow { row, score: Some(result.score) }))
        } else if result.state == 2 {
            Err(GpuErrorView::ZeroNorm)
        } else if result.state == 1 {
            Err(GpuErrorView::Execution("shader returned a non-finite vector score"@))
        } else {
            Err(
                GpuErrorView::Execution(
                    "shader returned unknown result state "@ + decimal_text(result.state as nat),
                ),
            )
        }
    }
}

/// The scores that a batch gives.
pub open spec fn decoded(results: Seq<GpuResult>, first_row: nat, batch: BatchView) -> Result<Seq<ScoredRow>, GpuErrorView> {
    if results.len() != batch.count {
        Err(
            GpuErrorView::Execution(
                "GPU returned "@ + decimal_text(results.len()) + " scores for "@ + decimal_text(batch.count)
                    + " candidates"@,
            ),
        )
    } else {
        decoded_from(results, first_row, batch, 0, Seq::empty())
    }
}

/// Whether every row that a batch names is a row of a column of so many.
pub open spec fn batch_within(first_row: nat, batch: BatchView, row_count: nat) -> bool {
    match batch.candidates {
        None => first_row + batch.offset + batch.count <= row_count,
        Some(rows) => rows.len() == batch.count && forall|i: int|
            0 <= i < rows.len() ==> first_row + (#[trigger] rows[i]) < row_count,
    }
}

/// The scores that a batch gives.
pub fn decode_batch(results: &Vec<GpuResult>, first_row: usize, batch: &ScanBatch) -> (result: Result<Vec<ScoredRow>, GpuError>)
    requires
        batch_within(first_row as nat, batch@, usize::MAX as nat),
    ensures
        match result {
            Ok(scores) => decoded(results@, first_row as nat, batch@) == Ok::<Seq<ScoredRow>, GpuErrorView>(scores@),
            Err(error) => decoded(results@, first_row as nat, batch@) == Err::<Seq<ScoredRow>, GpuErrorView>(error@),
        },
{
    if results.len() != batch.count {
        let found = decimal_count(results.len());
        let wanted = decimal_count(batch.count);
        let head = join3("GPU returned ", found.as_str(), " scores for ");
        return Err(GpuError::Execution(join3(head.as_str(), wanted.as_str(), " candidates")));
    }
    let mut scores: Vec<ScoredRow> = Vec::new();
    let mut at: usize = 0;
    while at < results.len()
        invariant
            results@.len() == batch.count,
            batch_within(first_row as nat, batch@, usize::MAX as nat),
            at <= results@.len(),
            decoded_from(results@, first_row as nat, batch@, at as nat, scores@) == decoded_from(
                results@,
                first_row as nat,
                batch@,
                0,
                Seq::empty(),
            ),
        decreases results@.len() - at,
    {
        let row: usize = match &batch.candidates {
            None => first_row + batch.offset + at,
            Some(rows) => {
                assert(first_row + rows@[at as int] < usize::MAX);
                first_row + rows[at] as usize
            },
        };
        assert(row == batch_row(first_row as nat, batch@, at as nat));
        let result: GpuResult = results[at];
        if result.state == 0 {
            scores.push(ScoredRow { row, score: None });
        } else if result.state == 1 {
            if !element_is_finite(result.score) {
                return Err(GpuError::Execution("shader returned a non-finite vector score".to_owned()));
            }
            scores.push(ScoredRow { row, score: Some(result.score) });
        } else if result.state == 2 {
            return Err(GpuError::ZeroNorm);
        } else {
            let state = decimal(result.state as u64);
            return Err(GpuError::Execution(join2("shader returned unknown result state ", state.as_str())));
        }
        at = at + 1;
    }
    Ok(scores)
}

} // verus!
