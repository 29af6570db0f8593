//! Planning scans of dense vector columns on a compute device, and reading their results.

use vstd::prelude::*;
use crate::text::{decimal, decimal_count, decimal_text, join2, join3, lemma_views_push, views};

verus! {

broadcast use {vstd::string::group_string_axioms, lemma_views_push};

/// How many invocations a workgroup has.
pub const WORKGROUP_SIZE: u32 = 128;

pub const MAX_READBACK_BYTES: usize = 33554432;

pub const REQUIRED_STORAGE_BINDINGS: u32 = 6;

/// How many bytes the parameters of a scan have.
pub const PARAMETER_BYTES: usize = 32;

/// How many bytes the result for one candidate has.
pub const RESULT_BYTES: usize = 8;

/// Why a scan on a device fails.
#[derive(Debug, PartialEq, Eq)]
pub enum GpuError {
    Unavailable(String),
    Limit(String),
    Execution(String),
    InvalidInput(String),
    ZeroNorm,
}

pub enum GpuErrorView {
    Unavailable(Seq<char>),
    Limit(Seq<char>),
    Execution(Seq<char>),
    InvalidInput(Seq<char>),
    ZeroNorm,
}

impl View for GpuError {
    type V = GpuErrorView;

    open spec fn view(&self) -> GpuErrorView {
        match self {
            GpuError::Unavailable(reason) => GpuErrorView::Unavailable(reason@),
            GpuError::Limit(reason) => GpuErrorView::Limit(reason@),
            GpuError::Execution(reason) => GpuErrorView::Execution(reason@),
            GpuError::InvalidInput(reason) => GpuErrorView::InvalidInput(reason@),
            GpuError::ZeroNorm => GpuErrorView::ZeroNorm,
        }
    }
}

impl GpuErrorView {
    /// Whether the scan can be made without a device instead.
    pub open spec fn fallback_safe(self) -> bool {
        self is Unavailable || self is Limit || self is Execution
    }

    /// The error in words.
    pub open spec fn message(self) -> Seq<char> {
        match self {
            GpuErrorView::Unavailable(reason) => reason,
            GpuErrorView::Limit(reason) => "GPU device limit: "@ + reason,
            GpuErrorView::Execution(reason) => "GPU execution failed: "@ + reason,
            GpuErrorView::InvalidInput(reason) => "invalid GPU scan input: "@ + reason,
            GpuErrorView::ZeroNorm => "cosine distance is undefined for a zero vector"@,
        }
    }
}

impl GpuError {
    /// Whether the scan can be made without a device instead.
    pub fn is_fallback_safe(&self) -> (result: bool)
        ensures
            result == self@.fallback_safe(),
    {
        match self {
            GpuError::Unavailable(_) => true,
            GpuError::Limit(_) => true,
            GpuError::Execution(_) => true,
            GpuError::InvalidInput(_) => false,
            GpuError::ZeroNorm => false,
        }
    }

    /// The error in words.
    pub fn message(&self) -> (text: String)
        ensures
            text@ == self@.message(),
    {
        match self {
            GpuError::Unavailable(reason) => reason.clone(),
            GpuError::Limit(reason) => join2("GPU device limit: ", reason.as_str()),
            GpuError::Execution(reason) => join2("GPU execution failed: ", reason.as_str()),
            GpuError::InvalidInput(reason) => join2("invalid GPU scan input: ", reason.as_str()),
            GpuError::ZeroNorm => "cosine distance is undefined for a zero vector".to_owned(),
        }
    }
}

/// A result by its view.
pub open spec fn reply<T>(result: Result<T, GpuError>) -> Result<T, GpuErrorView> {
    match result {
        Ok(value) => Ok(value),
        Err(error) => Err(error@),
    }
}

pub open spec fn over_limit(reason: Seq<char>) -> GpuErrorView {
    GpuErrorView::Limit(reason)
}

fn limit(reason: &str) -> (error: GpuError)
    ensures
        error@ == over_limit(reason@),
{
    GpuError::Limit(reason.to_owned())
}

pub open spec fn bad_input(reason: Seq<char>) -> GpuErrorView {
    GpuErrorView::InvalidInput(reason)
}

fn input(reason: &str) -> (error: GpuError)
    ensures
        error@ == bad_input(reason@),
{
    GpuError::InvalidInput(reason.to_owned())
}

/// What a device can do, as far as scans need it.
#[derive(Clone, Copy, Debug)]
pub struct AdapterLimits {
    pub max_compute_workgroup_size_x: u32,
    pub max_compute_invocations_per_workgroup: u32,
    pub max_compute_workgroups_per_dimension: u32,
    pub max_storage_buffers_per_shader_stage: u32,
    pub max_uniform_buffer_binding_size: u64,
    pub max_storage_buffer_binding_size: u64,
    pub max_buffer_size: u64,
}

/// Why a device cannot make scans; nothing where it can.
pub open spec fn adapter_checked(limits: AdapterLimits) -> Result<(), Seq<char>> {
    if limits.max_compute_workgroup_size_x < WORKGROUP_SIZE || limits.max_compute_invocations_per_workgroup < WORKGROUP_SIZE {
        Err("adapter supports fewer than 128 compute invocations per workgroup"@)
    } else if limits.max_compute_workgroups_per_dimension == 0 {
        Err("adapter reports no compute workgroups"@)
    } else if limits.max_storage_buffers_per_shader_stage < REQUIRED_STORAGE_BINDINGS {
        Err(
            "adapter exposes "@ + decimal_text(limits.max_storage_buffers_per_shader_stage as nat)
                + " storage buffers per shader stage; 6 are required"@,
        )
    } else if limits.max_uniform_buffer_binding_size < PARAMETER_BYTES {
        Err("adapter uniform-buffer binding is too small for scan parameters"@)
    } else {
        Ok(())
    }
}

pub fn validate_adapter_limits(limits: &AdapterLimits) -> (result: Result<(), String>)
    ensures
        match result {
            Ok(_) => adapter_checked(*limits) is Ok,
            Err(reason) => adapter_checked(*limits) == Err::<(), Seq<char>>(reason@),
        },
{
    if limits.max_compute_workgroup_size_x < WORKGROUP_SIZE || limits.max_compute_invocations_per_workgroup < WORKGROUP_SIZE {
        return Err("adapter supports fewer than 128 compute invocations per workgroup".to_owned());
    }
    if limits.max_compute_workgroups_per_dimension == 0 {
        return Err("adapter reports no compute workgroups".to_owned());
    }
    if limits.max_storage_buffers_per_shader_stage < REQUIRED_STORAGE_BINDINGS {
        let count = decimal(limits.max_storage_buffers_per_shader_stage as u64);
        return Err(join3("adapter exposes ", count.as_str(), " storage buffers per shader stage; 6 are required"));
    }
    if limits.max_uniform_buffer_binding_size < PARAMETER_BYTES as u64 {
        return Err("adapter uniform-buffer binding is too small for scan parameters".to_owned());
    }
    Ok(())
}

/// The number as a size, or the largest size where it is beyond that.
pub open spec fn size_of_number(value: u64) -> usize {
    if value > usize::MAX {
        usize::MAX
    } else {
        value as usize
    }
}

pub fn usize_from_u64(value: u64) -> (size: usize)
    ensures
        size == size_of_number(value),
{
    if value > usize::MAX as u64 {
        usize::MAX
    } else {
        value as usize
    }
}

/// The bounds that a device sets to scans.
#[derive(Clone, Copy, Debug)]
pub struct GpuLimits {
    pub max_cache_bytes: usize,
    pub max_buffer_size: u64,
    pub max_storage_binding_size: u64,
    pub max_uniform_binding_size: u64,
    pub max_compute_workgroups: u32,
    pub max_candidates_per_batch: usize,
}

pub open spec fn least(left: usize, right: usize) -> usize {
    if left <= right {
        left
    } else {
        right
    }
}

fn least_of(left: usize, right: usize) -> (result: usize)
    ensures
        result == least(left, right),
{
    if left <= right {
        left
    } else {
        right
    }
}

/// How many candidates a batch can have.
pub open spec fn batch_size(limits: AdapterLimits) -> usize {
    least(
        least(MAX_READBACK_BYTES, size_of_number(limits.max_buffer_size)),
        size_of_number(limits.max_storage_buffer_binding_size),
    ) / RESULT_BYTES
}

/// The bounds of scans on a device with a cache of this size.
pub open spec fn device_limits(max_cache_bytes: usize, limits: AdapterLimits) -> Result<GpuLimits, GpuErrorView> {
    if max_cache_bytes == 0 {
        Err(GpuErrorView::Unavailable("GPU cache size must be greater than zero"@))
    } else {
        match adapter_checked(limits) {
            Err(reason) => Err(GpuErrorView::Unavailable(reason)),
            Ok(_) => if batch_size(limits) == 0 {
                Err(GpuErrorView::Unavailable("adapter cannot allocate a non-empty GPU result buffer"@))
            } else {
                Ok(
                    GpuLimits {
                        max_cache_bytes,
                        max_buffer_size: limits.max_buffer_size,
                        max_storage_binding_size: limits.max_storage_buffer_binding_size,
                        max_uniform_binding_size: limits.max_uniform_buffer_binding_size,
                        max_compute_workgroups: limits.max_compute_workgroups_per_dimension,
                        max_candidates_per_batch: batch_size(limits),
                    },
                )
            },
        }
    }
}

impl GpuLimits {
    pub fn new(max_cache_bytes: usize, limits: &AdapterLimits) -> (result: Result<GpuLimits, GpuError>)
        ensures
            reply(result) == device_limits(max_cache_bytes, *limits),
    {
        if max_cache_bytes == 0 {
            return Err(GpuError::Unavailable("GPU cache size must be greater than zero".to_owned()));
        }
        match validate_adapter_limits(limits) {
            Err(reason) => return Err(GpuError::Unavailable(reason)),
            Ok(_) => {},
        }
        let most: usize = least_of(
            least_of(MAX_READBACK_BYTES, usize_from_u64(limits.max_buffer_size)),
            usize_from_u64(limits.max_storage_buffer_binding_size),
        );
        let max_candidates_per_batch: usize = most / RESULT_BYTES;
        if max_candidates_per_batch == 0 {
            return Err(
                GpuError::Unavailable("adapter cannot allocate a non-empty GPU result buffer".to_owned()),
            );
        }
        Ok(
            GpuLimits {
                max_cache_bytes,
                max_buffer_size: limits.max_buffer_size,
                max_storage_binding_size: limits.max_storage_buffer_binding_size,
                max_uniform_binding_size: limits.max_uniform_buffer_binding_size,
                max_compute_workgroups: limits.max_compute_workgroups_per_dimension,
                max_candidates_per_batch,
            },
        )
    }

    /// Whether a buffer can have so many bytes.
    pub open spec fn buffer_fits(self, bytes: nat) -> bool {
        0 < bytes <= self.max_buffer_size
    }

    /// Whether a storage buffer can have so many bytes.
    pub open spec fn storage_fits(self, bytes: nat) -> bool {
        0 < bytes <= self.max_buffer_size && bytes <= self.max_storage_binding_size
    }

    /// Whether a uniform buffer can have so many bytes.
    pub open spec fn uniform_fits(self, bytes: nat) -> bool {
        0 < bytes <= self.max_buffer_size && bytes <= self.max_uniform_binding_size
    }

    pub fn fits_buffer(&self, bytes: usize) -> (result: bool)
        ensures
            result == self.buffer_fits(bytes as nat),
    {
        let size: u64 = bytes as u64;
        size > 0 && size <= self.max_buffer_size
    }

    pub fn fits_storage_buffer(&self, bytes: usize) -> (result: bool)
        ensures
            result == self.storage_fits(bytes as nat),
    {
        let size: u64 = bytes as u64;
        size > 0 && size <= self.max_buffer_size && size <= self.max_storage_binding_size
    }

    pub fn fits_uniform_buffer(&self, bytes: usize) -> (result: bool)
        ensures
            result == self.uniform_fits(bytes as nat),
    {
        let size: u64 = bytes as u64;
        size > 0 && size <= self.max_buffer_size && size <= self.max_uniform_binding_size
    }
}

/// The quotient, rounded up.
pub open spec fn quotient_up(value: nat, by: nat) -> nat {
    (value + by - 1) as nat / by
}

/// The grid of workgroups that a scan is dispatched on; the width is how many candidates one row of
/// workgroups takes.
#[derive(Clone, Copy, Debug, PartialEq, Eq, Structural)]
pub struct DispatchShape {
    pub x: u32,
    pub y: u32,
    pub width: u32,
}

/// How many workgroups a row of the grid can have.
pub open spec fn widest(max_workgroups: u32) -> nat {
    let addressable = (u32::MAX / WORKGROUP_SIZE) as nat;
    if max_workgroups < addressable {
        max_workgroups as nat
    } else {
        addressable
    }
}

/// The grid for so many candidates.
pub open spec fn dispatched(candidate_count: u32, max_workgroups: u32) -> Result<DispatchShape, GpuErrorView> {
    let total = quotient_up(candidate_count as nat, WORKGROUP_SIZE as nat);
    let x = if total < widest(max_workgroups) {
        total
    } else {
        widest(max_workgroups)
    };
    let y = quotient_up(total, x);
    if candidate_count == 0 {
        Err(bad_input("cannot dispatch an empty candidate batch"@))
    } else if widest(max_workgroups) == 0 {
        Err(over_limit("adapter cannot address a compute workgroup"@))
    } else if y > max_workgroups {
        Err(
            over_limit(
                decimal_text(candidate_count as nat) + " candidates exceed the two-dimensional dispatch grid"@,
            ),
        )
    } else {
        Ok(DispatchShape { x: x as u32, y: y as u32, width: (x * WORKGROUP_SIZE) as u32 })
    }
}

/// The grid for so many candidates.
pub fn dispatch_shape(candidate_count: u32, max_workgroups: u32) -> (result: Result<DispatchShape, GpuError>)
    ensures
        reply(result) == dispatched(candidate_count, max_workgroups),
{
    if candidate_count == 0 {
        return Err(input("cannot dispatch an empty candidate batch"));
    }
    let addressable: u32 = u32::MAX / WORKGROUP_SIZE;
    let max_x: u32 = if max_workgroups < addressable {
        max_workgroups
    } else {
        addressable
    };
    if max_x == 0 {
        return Err(limit("adapter cannot address a compute workgroup"));
    }
    let total: u32 = ((candidate_count as u64 + WORKGROUP_SIZE as u64 - 1) / WORKGROUP_SIZE as u64) as u32;
    assert(total == quotient_up(candidate_count as nat, WORKGROUP_SIZE as nat));
    let x: u32 = if total < max_x {
        total
    } else {
        max_x
    };
    assert(x >= 1);
    proof {
        lemma_quotient_small(total as nat, x as nat);
    }
    let y: u32 = ((total as u64 + x as u64 - 1) / x as u64) as u32;
    assert(y == quotient_up(total as nat, x as nat));
    if y > max_workgroups {
        let count = decimal(candidate_count as u64);
        return Err(
            GpuError::Limit(join2(count.as_str(), " candidates exceed the two-dimensional dispatch grid")),
        );
    }
    Ok(DispatchShape { x, y, width: x * WORKGROUP_SIZE })
}

proof fn lemma_quotient_small(value: nat, by: nat)
    requires
        by >= 1,
    ensures
        quotient_up(value, by) <= value,
        quotient_up(value, by) * by >= value,
{
    assert(quotient_up(value, by) <= value) by (nonlinear_arith)
        requires
            by >= 1,
            quotient_up(value, by) == (value + by - 1) as nat / by,
    ;
    assert(quotient_up(value, by) * by >= value) by (nonlinear_arith)
        requires
            by >= 1,
            quotient_up(value, by) == (value + by - 1) as nat / by,
    ;
}

/// The grid that candidates are dispatched on has an invocation for each of them, no side of it is
/// longer than the device allows, and its width is that of a row.
pub proof fn law_dispatch_covers(candidate_count: u32, max_workgroups: u32)
    ensures
        dispatched(candidate_count, max_workgroups) matches Ok(shape) ==> {
            &&& 1 <= shape.x <= max_workgroups
            &&& 1 <= shape.y <= max_workgroups
            &&& shape.width == shape.x * WORKGROUP_SIZE
            &&& shape.width * shape.y >= candidate_count
        },
{
    if dispatched(candidate_count, max_workgroups) is Ok {
        let total = quotient_up(candidate_count as nat, WORKGROUP_SIZE as nat);
        let x = if total < widest(max_workgroups) {
            total
        } else {
            widest(max_workgroups)
        };
        let y = quotient_up(total, x);
        lemma_quotient_small(candidate_count as nat, WORKGROUP_SIZE as nat);
        lemma_quotient_small(total, x);
        assert(y >= 1) by (nonlinear_arith)
            requires
                y * x >= total,
                total >= 1,
        ;
        assert((x * WORKGROUP_SIZE) * y >= candidate_count) by (nonlinear_arith)
            requires
                y * x >= total,
                total * WORKGROUP_SIZE >= candidate_count,
        ;
    }
}

/// How many bytes rows of vectors have; more than a size can be are an error.
pub open spec fn rows_bytes(rows: nat, dimensions: nat) -> Result<nat, GpuErrorView> {
    if rows * dimensions * 4 > usize::MAX {
        Err(over_limit("dense vector buffer size overflow"@))
    } else {
        Ok(rows * dimensions * 4)
    }
}

/// How many bytes rows of vectors have.
pub fn checked_row_bytes(rows: usize, dimensions: usize) -> (result: Result<usize, GpuError>)
    ensures
        match result {
            Ok(bytes) => rows_bytes(rows as nat, dimensions as nat) == Ok::<nat, GpuErrorView>(bytes as nat),
            Err(error) => rows_bytes(rows as nat, dimensions as nat) == Err::<nat, GpuErrorView>(error@),
        },
{
    match rows.checked_mul(dimensions) {
        None => Err(limit("dense vector buffer size overflow")),
        Some(values) => match values.checked_mul(4) {
            None => Err(limit("dense vector buffer size overflow")),
            Some(bytes) => Ok(bytes),
        },
    }
}

/// Consecutive rows of a column: the elements, the norms as bit patterns, and which rows hold a
/// vector.
#[derive(Debug)]
pub struct DenseVectorChunk {
    pub first_row: usize,
    pub row_count: usize,
    pub values: Vec<u32>,
    pub norms: Vec<u64>,
    pub present: Vec<bool>,
}

pub struct ChunkRowsView {
    pub first_row: nat,
    pub row_count: nat,
    pub values: Seq<u32>,
    pub norms: Seq<u64>,
    pub present: Seq<bool>,
}

impl View for DenseVectorChunk {
    type V = ChunkRowsView;

    open spec fn view(&self) -> ChunkRowsView {
        ChunkRowsView {
            first_row: self.first_row as nat,
            row_count: self.row_count as nat,
            values: self.values@,
            norms: self.norms@,
            present: self.present@,
        }
    }
}

/// A column of vectors, stored densely.
#[derive(Debug)]
pub struct DenseVectorColumn {
    pub storage_id: u64,
    pub dimensions: usize,
    pub row_count: usize,
    pub chunks: Vec<DenseVectorChunk>,
}

pub struct DenseView {
    pub storage_id: u64,
    pub dimensions: nat,
    pub row_count: nat,
    pub chunks: Seq<ChunkRowsView>,
}

impl View for DenseVectorColumn {
    type V = DenseView;

    open spec fn view(&self) -> DenseView {
        DenseView {
            storage_id: self.storage_id,
            dimensions: self.dimensions as nat,
            row_count: self.row_count as nat,
            chunks: views(self.chunks@),
        }
    }
}

/// Whether a chunk starts at this row and holds what it says.
pub open spec fn chunk_sound(chunk: ChunkRowsView, dimensions: nat, expected: nat) -> bool {
    &&& chunk.row_count > 0
    &&& chunk.first_row == expected
    &&& chunk.values.len() == chunk.row_count * dimensions
    &&& chunk.norms.len() == chunk.row_count
    &&& chunk.present.len() == chunk.row_count
}

/// The number of rows of the chunks from `from` on, where the next is to start at `expected`.
pub open spec fn chunks_checked(chunks: Seq<ChunkRowsView>, dimensions: nat, from: nat, expected: nat) -> Result<nat, GpuErrorView>
    decreases chunks.len() - from,
{
    if from >= chunks.len() {
        Ok(expected)
    } else {
        let chunk = chunks[from as int];
        if chunk.row_count * dimensions > usize::MAX {
            Err(bad_input("dense chunk size overflow"@))
        } else if !chunk_sound(chunk, dimensions, expected) {
            Err(bad_input("dense vector chunk at row "@ + decimal_text(chunk.first_row) + " is not contiguous"@))
        } else if expected + chunk.row_count > usize::MAX {
            Err(bad_input("dense row count overflow"@))
        } else {
            chunks_checked(chunks, dimensions, from + 1, expected + chunk.row_count)
        }
    }
}

/// The error of a column whose chunks are not its rows.
pub open spec fn dense_checked(column: DenseView) -> Result<(), GpuErrorView> {
    match chunks_checked(column.chunks, column.dimensions, 0, 0) {
        Err(error) => Err(error),
        Ok(rows) => if rows != column.row_count {
            Err(
                bad_input(
                    "dense chunks contain "@ + decimal_text(rows) + " rows but the column reports "@ + decimal_text(
                        column.row_count,
                    ),
                ),
            )
        } else {
            Ok(())
        },
    }
}

/// Fails exactly where the chunks are not the rows of the column.
pub fn validate_dense_chunks(column: &DenseVectorColumn) -> (result: Result<(), GpuError>)
    ensures
        reply(result) == dense_checked(column@),
{
    let ghost all = views(column.chunks@);
    let mut expected: usize = 0;
    let mut at: usize = 0;
    while at < column.chunks.len()
        invariant
            all == views(column.chunks@),
            at <= column.chunks@.len(),
            chunks_checked(all, column.dimensions as nat, at as nat, expected as nat) == chunks_checked(
                all,
                column.dimensions as nat,
                0,
                0,
            ),
        decreases column.chunks@.len() - at,
    {
        let chunk = &column.chunks[at];
        assert(all[at as int] == chunk@);
        let values: usize = match chunk.row_count.checked_mul(column.dimensions) {
            None => return Err(input("dense chunk size overflow")),
            Some(values) => values,
        };
        if chunk.row_count == 0 || chunk.first_row != expected || chunk.values.len() != values || chunk.norms.len()
            != chunk.row_count || chunk.present.len() != chunk.row_count {
            let row = decimal_count(chunk.first_row);
            return Err(
                GpuError::InvalidInput(join3("dense vector chunk at row ", row.as_str(), " is not contiguous")),
            );
        }
        expected = match expected.checked_add(chunk.row_count) {
            None => return Err(input("dense row count overflow")),
            Some(next) => next,
        };
        at = at + 1;
    }
    if expected != column.row_count {
        let found = decimal_count(expected);
        let reported = decimal_count(column.row_count);
        let head = join3("dense chunks contain ", found.as_str(), " rows but the column reports ");
        return Err(GpuError::InvalidInput(join2(head.as_str(), reported.as_str())));
    }
    Ok(())
}

/// How a column is laid out on a device.
#[derive(Clone, Copy, Debug)]
pub struct ColumnLayout {
    pub bytes: usize,
    pub rows_per_shard: usize,
}

/// How many rows of so many bytes a shard can have.
pub open spec fn shard_rows(limits: GpuLimits, bytes_per_row: nat) -> nat {
    let most = least(size_of_number(limits.max_storage_binding_size), size_of_number(limits.max_buffer_size)) as nat;
    let by_values = most / bytes_per_row;
    let by_norms = most / 4;
    let fewest = if by_values < by_norms {
        by_values
    } else {
        by_norms
    };
    if fewest < u32::MAX {
        fewest
    } else {
        u32::MAX as nat
    }
}

/// The layout of a column.
pub open spec fn laid_out(limits: GpuLimits, column: DenseView) -> Result<ColumnLayout, GpuErrorView> {
    let bytes_per_row = column.dimensions * 4;
    let values = column.row_count * bytes_per_row;
    let metadata = column.row_count * 8;
    if column.dimensions == 0 || column.row_count == 0 {
        Err(bad_input("dense vector column must have rows and dimensions"@))
    } else {
        match dense_checked(column) {
            Err(error) => Err(error),
            Ok(_) => if bytes_per_row > usize::MAX {
                Err(over_limit("vector row size overflow"@))
            } else if values > usize::MAX {
                Err(over_limit("dense vector column size overflow"@))
            } else if metadata > usize::MAX {
                Err(over_limit("dense vector metadata size overflow"@))
            } else if values + metadata > usize::MAX {
                Err(over_limit("GPU cache size overflow"@))
            } else if shard_rows(limits, bytes_per_row) == 0 {
                Err(
                    over_limit(
                        "one "@ + decimal_text(column.dimensions)
                            + "-dimension vector exceeds the maximum storage-buffer binding"@,
                    ),
                )
            } else {
                Ok(
                    ColumnLayout {
                        bytes: (values + metadata) as usize,
                        rows_per_shard: shard_rows(limits, bytes_per_row) as usize,
                    },
                )
            },
        }
    }
}

impl GpuLimits {
    /// The layout of a column.
    pub fn column_layout(&self, column: &DenseVectorColumn) -> (result: Result<ColumnLayout, GpuError>)
        ensures
            reply(result) == laid_out(*self, column@),
    {
        if column.dimensions == 0 || column.row_count == 0 {
            return Err(input("dense vector column must have rows and dimensions"));
        }
        validate_dense_chunks(column)?;
        let bytes_per_row: usize = match column.dimensions.checked_mul(4) {
            None => return Err(limit("vector row size overflow")),
            Some(bytes) => bytes,
        };
        let values: usize = match column.row_count.checked_mul(bytes_per_row) {
            None => return Err(limit("dense vector column size overflow")),
            Some(bytes) => bytes,
        };
        let metadata: usize = match column.row_count.checked_mul(8) {
            None => return Err(limit("dense vector metadata size overflow")),
            Some(bytes) => bytes,
        };
        let bytes: usize = match values.checked_add(metadata) {
            None => return Err(limit("GPU cache size overflow")),
            Some(bytes) => bytes,
        };
        let most: usize = least_of(usize_from_u64(self.max_storage_binding_size), usize_from_u64(self.max_buffer_size));
        let rows: usize = least_of(least_of(most / bytes_per_row, most / 4), u32::MAX as usize);
        if rows == 0 {
            let dimensions = decimal_count(column.dimensions);
            return Err(
                GpuError::Limit(
                    join3("one ", dimensions.as_str(), "-dimension vector exceeds the maximum storage-buffer binding"),
                ),
            );
        }
        Ok(ColumnLayout { bytes, rows_per_shard: rows })
    }
}

} // verus!
