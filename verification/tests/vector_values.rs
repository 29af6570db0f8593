use std::sync::Arc;
use vectors::float::{float_key_of, is_finite, negate, Metric};
use vectors::{Error, FloatReply, FloatTask, Vector, MAX_VECTOR_DIMENSIONS};

fn lanes(vector: &Vector) -> Vec<f32> {
    vector.as_slice().iter().map(|bits| f32::from_bits(*bits)).collect()
}

fn norm(values: &[f32]) -> f64 {
    values.iter().map(|value| f64::from(*value) * f64::from(*value)).sum::<f64>().sqrt()
}

fn squared(left: &[f32], right: &[f32]) -> f32 {
    left.iter().zip(right).map(|(a, b)| (a - b) * (a - b)).sum()
}

fn number(value: f64) -> FloatReply {
    FloatReply::Number(value.to_bits())
}

fn evaluate(task: FloatTask) -> FloatReply {
    let real = f64::from_bits;
    match task {
        FloatTask::Add(a, b) => number(real(a) + real(b)),
        FloatTask::Subtract(a, b) => number(real(a) - real(b)),
        FloatTask::Multiply(a, b) => number(real(a) * real(b)),
        FloatTask::Divide(a, b) => number(real(a) / real(b)),
        FloatTask::Remainder(a, b) => number(real(a) % real(b)),
        FloatTask::Logarithm(a) => number(real(a).ln()),
        FloatTask::FromInteger(a) => number(a as f64),
        FloatTask::FromCount(a) => number(a as f64),
        FloatTask::Parse(text) => match text.parse::<f64>() {
            Ok(value) => number(value),
            Err(_) => FloatReply::Nothing,
        },
        FloatTask::Narrow(a) => FloatReply::Element((real(a) as f32).to_bits()),
        FloatTask::Text(a) => FloatReply::Text(format!("{}", real(a))),
        FloatTask::SourceText(a) => FloatReply::Text(format!("{:?}", real(a))),
        FloatTask::Thousandths(a) => FloatReply::Text(format!("{:.3}", real(a))),
        FloatTask::ElementText(a) => FloatReply::Text(format!("{}", f32::from_bits(a))),
        FloatTask::ElementSourceText(a) => FloatReply::Text(format!("{:?}", f32::from_bits(a))),
        FloatTask::Norm(a) => number(norm(&lanes(&a))),
        FloatTask::Normalize(a) => {
            let values = lanes(&a);
            let length = norm(&values);
            FloatReply::Elements(values.iter().map(|value| ((f64::from(*value) / length) as f32).to_bits()).collect())
        }
        FloatTask::SquaredDistance(a, b) => number(f64::from(squared(&lanes(&a), &lanes(&b)))),
        FloatTask::Distance(a, b) => number(f64::from(squared(&lanes(&a), &lanes(&b)).sqrt())),
        FloatTask::DotProduct(a, b) => {
            let sum: f32 = lanes(&a).iter().zip(lanes(&b)).map(|(x, y)| x * y).sum();
            number(f64::from(sum))
        }
        FloatTask::CosineDistance(a, b) => {
            let (left, right) = (lanes(&a), lanes(&b));
            let dot: f64 = left.iter().zip(&right).map(|(x, y)| f64::from(*x) * f64::from(*y)).sum();
            number(f64::from((1.0 - dot / (norm(&left) * norm(&right))) as f32))
        }
    }
}

fn vector(values: &[f32]) -> Vector {
    match Vector::new(values.iter().map(|value| value.to_bits()).collect()) {
        Ok(vector) => vector,
        Err(error) => panic!("{}", error.message()),
    }
}

fn value(result: Result<u64, Error>) -> f64 {
    match result {
        Ok(bits) => f64::from_bits(bits),
        Err(error) => panic!("{}", error.message()),
    }
}

#[test]
fn vectors_have_elements_and_each_is_finite() {
    assert!(matches!(Vector::new(Vec::new()), Err(Error::InvalidVectorDimension)));
    let long = vec![0; MAX_VECTOR_DIMENSIONS + 1];
    assert!(matches!(Vector::new(long), Err(Error::VectorDimensionLimit { .. })));
    let infinite = vec![1.0_f32.to_bits(), f32::INFINITY.to_bits()];
    assert!(matches!(Vector::new(infinite), Err(Error::NonFiniteVectorElement { index: 1 })));
    assert_eq!(vector(&[1.0, 2.0]).dimensions(), 2);
}

#[test]
fn metrics_have_exact_values() {
    let (left, right) = (vector(&[3.0, 4.0]), vector(&[0.0, 0.0]));
    assert_eq!(value(left.l2_distance(&evaluate, &right)), 5.0);
    assert_eq!(value(left.squared_l2_distance(&evaluate, &right)), 25.0);
    assert_eq!(value(left.dot_product(&evaluate, &vector(&[2.0, 1.0]))), 10.0);
    assert_eq!(f64::from_bits(left.norm(&evaluate)), 5.0);
    assert_eq!(value(left.cosine_distance(&evaluate, &vector(&[4.0, -3.0]))), 1.0);
    assert!(matches!(left.cosine_distance(&evaluate, &right), Err(Error::ZeroNorm)));
    assert!(matches!(left.dot_product(&evaluate, &vector(&[1.0])), Err(Error::DimensionMismatch { left: 2, right: 1 })));
    assert_eq!(value(Metric::NegativeDotProduct.score(&evaluate, &left, &vector(&[1.0, 0.0]))), -3.0);
}

#[test]
fn normalized_vectors_have_length_one() {
    match vector(&[3.0, 4.0]).normalized(&evaluate) {
        Ok(unit) => assert!(unit.same_as(&vector(&[0.6, 0.8]))),
        Err(error) => panic!("{}", error.message()),
    }
    assert!(matches!(vector(&[0.0]).normalized(&evaluate), Err(Error::ZeroNorm)));
}

#[test]
fn bits_tell_finite_numbers_and_zeros_apart() {
    assert!(is_finite(1.5_f64.to_bits()));
    assert!(!is_finite(f64::NAN.to_bits()));
    assert_eq!(negate(1.0_f64.to_bits()), (-1.0_f64).to_bits());
    assert_eq!(float_key_of((-0.0_f64).to_bits()), float_key_of(0.0_f64.to_bits()));
    assert!(vector(&[0.0, -0.0]).is_zero());
}

#[test]
fn vectors_can_share_their_elements() {
    let shared = Arc::new([1.0f32, 3.0, 4.0, 2.0].map(f32::to_bits).to_vec());
    let part = Vector::from_shared(shared.clone(), 1, 2);
    assert_eq!(part.dimensions(), 2);
    assert_eq!(part.as_slice(), vector(&[3.0, 4.0]).as_slice());
    let whole = Vector::from_shared(shared, 0, 4);
    assert_eq!(whole.as_slice()[3], 2.0f32.to_bits());
}
