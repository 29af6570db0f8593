use vectors::gpu::{
    checked_row_bytes, dispatch_shape, usize_from_u64, validate_adapter_limits, validate_dense_chunks, AdapterLimits, DenseVectorChunk,
    DenseVectorColumn, DispatchShape, GpuError, GpuLimits,
};
use vectors::gpu_batch::{check_cosine, check_query, check_scan, decode_batch, plan_batch, plan_scan, GpuCache, GpuResult};
use vectors::gpu_scan::pack_column;
use vectors::{FloatReply, FloatTask, Vector};

fn lanes(vector: &Vector) -> Vec<f32> {
    vector.as_slice().iter().map(|bits| f32::from_bits(*bits)).collect()
}

fn norm(values: &[f32]) -> f64 {
    values.iter().map(|value| f64::from(*value) * f64::from(*value)).sum::<f64>().sqrt()
}

fn squared(left: &[f32], right: &[f32]) -> f32 {
    left.iter().zip(right).map(|(a, b)| (a - b) * (a - b)).sum()
}

fn number(value: f64) -> FloatReply {
    FloatReply::Number(value.to_bits())
}

fn evaluate(task: FloatTask) -> FloatReply {
    let real = f64::from_bits;
    match task {
        FloatTask::Add(a, b) => number(real(a) + real(b)),
        FloatTask::Subtract(a, b) => number(real(a) - real(b)),
        FloatTask::Multiply(a, b) => number(real(a) * real(b)),
        FloatTask::Divide(a, b) => number(real(a) / real(b)),
        FloatTask::Remainder(a, b) => number(real(a) % real(b)),
        FloatTask::Logarithm(a) => number(real(a).ln()),
        FloatTask::FromInteger(a) => number(a as f64),
        FloatTask::FromCount(a) => number(a as f64),
        FloatTask::Parse(text) => match text.parse::<f64>() {
            Ok(value) => number(value),
            Err(_) => FloatReply::Nothing,
        },
        FloatTask::Narrow(a) => FloatReply::Element((real(a) as f32).to_bits()),
        FloatTask::Text(a) => FloatReply::Text(format!("{}", real(a))),
        FloatTask::SourceText(a) => FloatReply::Text(format!("{:?}", real(a))),
        FloatTask::Thousandths(a) => FloatReply::Text(format!("{:.3}", real(a))),
        FloatTask::ElementText(a) => FloatReply::Text(format!("{}", f32::from_bits(a))),
        FloatTask::ElementSourceText(a) => FloatReply::Text(format!("{:?}", f32::from_bits(a))),
        FloatTask::Norm(a) => number(norm(&lanes(&a))),
        FloatTask::Normalize(a) => {
            let values = lanes(&a);
            let length = norm(&values);
            FloatReply::Elements(values.iter().map(|value| ((f64::from(*value) / length) as f32).to_bits()).collect())
        }
        FloatTask::SquaredDistance(a, b) => number(f64::from(squared(&lanes(&a), &lanes(&b)))),
        FloatTask::Distance(a, b) => number(f64::from(squared(&lanes(&a), &lanes(&b)).sqrt())),
        FloatTask::DotProduct(a, b) => {
            let sum: f32 = lanes(&a).iter().zip(lanes(&b)).map(|(x, y)| x * y).sum();
            number(f64::from(sum))
        }
        FloatTask::CosineDistance(a, b) => {
            let (left, right) = (lanes(&a), lanes(&b));
            let dot: f64 = left.iter().zip(&right).map(|(x, y)| f64::from(*x) * f64::from(*y)).sum();
            number(f64::from((1.0 - dot / (norm(&left) * norm(&right))) as f32))
        }
    }
}

#[test]
fn dispatch_uses_second_dimension_after_x_is_full() {
    let shape = dispatch_shape(1_025, 4).unwrap();
    assert_eq!(shape, DispatchShape { x: 4, y: 3, width: 512 });
}

#[test]
fn dispatch_rejects_candidates_beyond_the_two_dimensional_grid() {
    let error = dispatch_shape(2_049, 4).unwrap_err();
    assert!(matches!(error, GpuError::Limit(_)));
}

#[test]
fn dispatch_handles_partial_workgroups() {
    assert_eq!(dispatch_shape(129, 65_535).unwrap(), DispatchShape { x: 2, y: 1, width: 256 });
}

fn adapter() -> AdapterLimits {
    AdapterLimits {
        max_compute_workgroup_size_x: 256,
        max_compute_invocations_per_workgroup: 256,
        max_compute_workgroups_per_dimension: 65_535,
        max_storage_buffers_per_shader_stage: 8,
        max_uniform_buffer_binding_size: 65_536,
        max_storage_buffer_binding_size: 134_217_728,
        max_buffer_size: 268_435_456,
    }
}

fn limits(cache: usize) -> GpuLimits {
    match GpuLimits::new(cache, &adapter()) {
        Ok(limits) => limits,
        Err(error) => panic!("{}", error.message()),
    }
}

fn vector(values: &[f32]) -> Vector {
    match Vector::new(values.iter().map(|value| value.to_bits()).collect()) {
        Ok(vector) => vector,
        Err(error) => panic!("{}", error.message()),
    }
}

fn column(storage_id: u64, rows: &[Option<[f32; 2]>]) -> DenseVectorColumn {
    let mut values = Vec::new();
    let mut norms = Vec::new();
    let mut present = Vec::new();
    for row in rows {
        let lanes = row.unwrap_or([0.0, 0.0]);
        values.extend(lanes.iter().map(|lane| lane.to_bits()));
        norms.push(norm(&lanes).to_bits());
        present.push(row.is_some());
    }
    DenseVectorColumn {
        storage_id,
        dimensions: 2,
        row_count: rows.len(),
        chunks: vec![DenseVectorChunk { first_row: 0, row_count: rows.len(), values, norms, present }],
    }
}

#[test]
fn adapters_need_every_limit() {
    assert!(validate_adapter_limits(&adapter()).is_ok());
    assert!(validate_adapter_limits(&AdapterLimits { max_compute_workgroup_size_x: 127, ..adapter() }).is_err());
    assert!(validate_adapter_limits(&AdapterLimits { max_storage_buffers_per_shader_stage: 5, ..adapter() }).is_err());
    assert!(validate_adapter_limits(&AdapterLimits { max_uniform_buffer_binding_size: 31, ..adapter() }).is_err());
}

#[test]
fn columns_are_uploaded_once_and_evicted_when_room_is_needed() {
    let first = column(1, &[Some([1.0, 0.0]), None, Some([0.0, 2.0])]);
    let second = column(2, &[Some([1.0, 1.0])]);
    assert!(validate_dense_chunks(&first).is_ok());
    let size = match limits(1_000_000).column_layout(&first) {
        Ok(layout) => layout.bytes,
        Err(error) => panic!("{}", error.message()),
    };
    let limits = limits(size);
    let mut cache: GpuCache<u8> = GpuCache::new();
    for (round, dense) in [&first, &first, &second].into_iter().enumerate() {
        match cache.ensure_cached(&limits, dense) {
            Ok(Some(layout)) => {
                let packed = match pack_column(&evaluate, dense, &layout) {
                    Ok(packed) => packed,
                    Err(error) => panic!("{}", error.message()),
                };
                let handles = packed.iter().map(|_| round as u8).collect();
                cache.store(dense, &layout, &packed, handles);
            }
            Ok(None) => assert_eq!(round, 1),
            Err(error) => panic!("{}", error.message()),
        }
    }
    assert_eq!(cache.entries.len(), 1);
    assert_eq!(cache.entries[0].storage_id, 2);
    assert!(cache.cached_bytes <= size);
    let small = match GpuLimits::new(1, &adapter()) {
        Ok(limits) => limits,
        Err(error) => panic!("{}", error.message()),
    };
    assert!(matches!(cache.ensure_cached(&small, &first), Err(GpuError::Limit(_))));
}

#[test]
fn a_scan_covers_every_row_and_decodes_its_scores() {
    let dense = column(7, &[Some([1.0, 0.0]), None, Some([0.0, 2.0])]);
    let limits = limits(1_000_000);
    let mut cache: GpuCache<()> = GpuCache::new();
    if let Ok(Some(layout)) = cache.ensure_cached(&limits, &dense) {
        let packed = pack_column(&evaluate, &dense, &layout).unwrap_or_else(|error| panic!("{}", error.message()));
        assert_eq!(packed.len(), 1);
        assert_eq!(packed[0].present, vec![1, 0, 1]);
        assert_eq!(packed[0].norms[2], 2.0_f32.to_bits());
        cache.store(&dense, &layout, &packed, vec![()]);
    }
    let query = vector(&[1.0, 0.0]);
    assert!(matches!(check_scan(&dense, None, &query), Ok(true)));
    assert!(check_cosine(&evaluate, &cache.entries[0], None, &query).is_ok());
    let batches = plan_scan(&limits, &cache.entries[0], None);
    assert_eq!(batches.iter().map(|batch| batch.count).sum::<usize>(), 3);
    let plan = plan_batch(&limits, 3, &batches[0], 2, 2, 1.0_f32.to_bits()).unwrap_or_else(|error| panic!("{}", error.message()));
    assert_eq!(plan.parameters.candidate_count, 3);
    assert_eq!(plan.parameters.dimensions, 2);
    assert_eq!(plan.dispatch, DispatchShape { x: 1, y: 1, width: 128 });
    assert_eq!(plan.output_bytes, 24);
    let score = |value: f32, state: u32| GpuResult { score: value.to_bits(), state };
    match decode_batch(&vec![score(0.0, 1), score(0.0, 0), score(1.0, 1)], 0, &batches[0]) {
        Ok(rows) => {
            assert_eq!(rows.iter().map(|row| row.row).collect::<Vec<_>>(), vec![0, 1, 2]);
            assert_eq!(rows[0].score, Some(0.0_f32.to_bits()));
            assert_eq!(rows[1].score, None);
            assert_eq!(rows[2].score, Some(1.0_f32.to_bits()));
        }
        Err(error) => panic!("{}", error.message()),
    }
    let zero = decode_batch(&vec![score(0.0, 1), score(0.0, 2), score(1.0, 1)], 0, &batches[0]);
    assert!(matches!(zero, Err(GpuError::ZeroNorm)));
    for wrong in [score(f32::NAN, 1), score(0.0, 9)] {
        let results = vec![score(0.0, 1), wrong, score(1.0, 1)];
        assert!(matches!(decode_batch(&results, 0, &batches[0]), Err(GpuError::Execution(_))));
    }
    assert!(matches!(decode_batch(&Vec::new(), 0, &batches[0]), Err(GpuError::Execution(_))));
    assert!(check_query(&limits, &query).is_ok());
}

#[test]
fn zero_vectors_have_no_cosine_and_wrong_widths_are_refused() {
    let dense = column(7, &[Some([1.0, 0.0])]);
    assert!(check_scan(&dense, None, &vector(&[1.0])).is_err());
    assert!(check_scan(&dense, Some(&vec![1]), &vector(&[1.0, 0.0])).is_err());
    assert!(matches!(check_scan(&dense, Some(&Vec::new()), &vector(&[1.0, 0.0])), Ok(false)));
}

#[test]
fn row_bytes_are_counted_without_overflow() {
    assert!(matches!(checked_row_bytes(3, 2), Ok(bytes) if bytes == 24));
    assert!(checked_row_bytes(usize::MAX, 2).is_err());
    assert_eq!(usize_from_u64(17), 17);
}

#[test]
fn only_input_errors_are_final() {
    assert!(GpuError::Unavailable("none".into()).is_fallback_safe());
    assert!(GpuError::Limit("small".into()).is_fallback_safe());
    assert!(!GpuError::ZeroNorm.is_fallback_safe());
    assert!(!GpuError::InvalidInput("row".into()).is_fallback_safe());
}
