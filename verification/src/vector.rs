//! Immutable vectors of 32-bit floating-point elements, held as their bit patterns.

use std::sync::Arc;
use vstd::prelude::*;
use vstd::slice::slice_subrange;
use crate::error::{Error, ErrorView, outcome};

verus! {

/// Upper bound used to reject accidental or malicious resource exhaustion.
pub const MAX_VECTOR_DIMENSIONS: usize = 65_535;

pub const ELEMENT_SIGN: u32 = 0x8000_0000;

pub const ELEMENT_INFINITE: u32 = 0x7f80_0000;

/// The bits of an element without its sign.
pub open spec fn element_magnitude(bits: u32) -> int {
    if bits >= ELEMENT_SIGN {
        bits - ELEMENT_SIGN
    } else {
        bits as int
    }
}

/// Whether the bits denote a finite number.
pub open spec fn element_finite(bits: u32) -> bool {
    element_magnitude(bits) < ELEMENT_INFINITE
}

/// The bits of an element with the two zeros made one.
pub open spec fn element_key(bits: u32) -> u32 {
    if element_magnitude(bits) == 0 {
        0
    } else {
        bits
    }
}

/// The position of the first element from `from` on that is not finite.
pub open spec fn first_non_finite(values: Seq<u32>, from: nat) -> Option<nat>
    decreases values.len() - from,
{
    if from >= values.len() {
        None
    } else if !element_finite(values[from as int]) {
        Some(from)
    } else {
        first_non_finite(values, from + 1)
    }
}

/// What `Vector::new` makes of these elements.
pub open spec fn new_vector(values: Seq<u32>) -> Result<Seq<u32>, ErrorView> {
    if values.len() == 0 {
        Err(ErrorView::InvalidVectorDimension)
    } else if values.len() > MAX_VECTOR_DIMENSIONS {
        Err(ErrorView::VectorDimensionLimit { found: values.len(), max: MAX_VECTOR_DIMENSIONS as nat })
    } else {
        match first_non_finite(values, 0) {
            Some(index) => Err(ErrorView::NonFiniteVectorElement { index }),
            None => Ok(values),
        }
    }
}

/// Whether the elements can be those of a vector.
pub open spec fn vector_elements(values: Seq<u32>) -> bool {
    &&& 0 < values.len() <= MAX_VECTOR_DIMENSIONS
    &&& forall|i: int| 0 <= i < values.len() ==> element_finite(#[trigger] values[i])
}

/// Whether every element is a zero, so that the Euclidean norm is zero.
pub open spec fn zero_vector(values: Seq<u32>) -> bool {
    forall|i: int| 0 <= i < values.len() ==> element_magnitude(#[trigger] values[i]) == 0
}

/// Whether the two vectors hold equal numbers.
pub open spec fn same_elements(left: Seq<u32>, right: Seq<u32>) -> bool {
    &&& left.len() == right.len()
    &&& forall|i: int| 0 <= i < left.len() ==> element_key(#[trigger] left[i]) == element_key(right[i])
}

proof fn lemma_first_non_finite(values: Seq<u32>, from: nat)
    ensures
        match first_non_finite(values, from) {
            None => forall|i: int| from <= i < values.len() ==> element_finite(#[trigger] values[i]),
            Some(index) => from <= index < values.len() && !element_finite(values[index as int])
                && forall|i: int| from <= i < index ==> element_finite(#[trigger] values[i]),
        },
    decreases values.len() - from,
{
    if from < values.len() && element_finite(values[from as int]) {
        lemma_first_non_finite(values, from + 1);
    }
}

/// An accepted element sequence is a vector's.
pub proof fn lemma_new_vector_elements(values: Seq<u32>)
    ensures
        new_vector(values) is Ok <==> vector_elements(values),
        new_vector(values) is Ok ==> new_vector(values)->Ok_0 == values,
{
    lemma_first_non_finite(values, 0);
}

pub fn element_is_finite(bits: u32) -> (finite: bool)
    ensures
        finite == element_finite(bits),
{
    let magnitude: u32 = if bits >= ELEMENT_SIGN { bits - ELEMENT_SIGN } else { bits };
    magnitude < ELEMENT_INFINITE
}

pub fn element_key_of(bits: u32) -> (key: u32)
    ensures
        key == element_key(bits),
{
    if bits == 0 || bits == ELEMENT_SIGN {
        0
    } else {
        bits
    }
}

/// An immutable, cheaply cloneable, contiguous vector of finite elements.
#[derive(Debug)]
pub struct Vector {
    values: Arc<Vec<u32>>,
    offset: usize,
    dimensions: usize,
}

impl View for Vector {
    type V = Seq<u32>;

    closed spec fn view(&self) -> Seq<u32> {
        self.values@.subrange(self.offset as int, self.offset + self.dimensions)
    }
}

impl Vector {
    #[verifier::type_invariant]
    spec fn inv(&self) -> bool {
        &&& self.offset + self.dimensions <= self.values@.len()
        &&& vector_elements(self@)
    }

    /// A vector of the given elements.
    pub fn new(values: Vec<u32>) -> (result: Result<Vector, Error>)
        ensures
            outcome(result) == new_vector(values@),
    {
        if values.len() == 0 {
            return Err(Error::InvalidVectorDimension);
        }
        if values.len() > MAX_VECTOR_DIMENSIONS {
            return Err(Error::VectorDimensionLimit { found: values.len(), max: MAX_VECTOR_DIMENSIONS });
        }
        let mut index: usize = 0;
        while index < values.len()
            invariant
                index <= values@.len(),
                first_non_finite(values@, index as nat) == first_non_finite(values@, 0),
                forall|i: int| 0 <= i < index ==> element_finite(#[trigger] values@[i]),
                0 < values@.len() <= MAX_VECTOR_DIMENSIONS,
            decreases values@.len() - index,
        {
            if !element_is_finite(values[index]) {
                return Err(Error::NonFiniteVectorElement { index });
            }
            index = index + 1;
        }
        let dimensions: usize = values.len();
        assert(values@.subrange(0, dimensions as int) =~= values@);
        Ok(Vector { values: Arc::new(values), offset: 0, dimensions })
    }

    /// The vector at `offset` within elements that several vectors share.
    pub fn from_shared(values: Arc<Vec<u32>>, offset: usize, dimensions: usize) -> (vector: Vector)
        requires
            offset + dimensions <= values@.len(),
            vector_elements(values@.subrange(offset as int, offset + dimensions)),
        ensures
            vector@ == values@.subrange(offset as int, offset + dimensions),
    {
        Vector { values, offset, dimensions }
    }

    pub fn dimensions(&self) -> (count: usize)
        ensures
            count == self@.len(),
            0 < count <= MAX_VECTOR_DIMENSIONS,
    {
        proof {
            use_type_invariant(self);
        }
        self.dimensions
    }

    pub fn as_slice(&self) -> (elements: &[u32])
        ensures
            elements@ == self@,
            vector_elements(self@),
    {
        proof {
            use_type_invariant(self);
        }
        let all = self.values.as_slice();
        let total: usize = all.len();
        assert(self.offset + self.dimensions <= total);
        slice_subrange(all, self.offset, self.offset + self.dimensions)
    }

    /// Another handle of the same vector.
    pub fn share(&self) -> (vector: Vector)
        ensures
            vector@ == self@,
    {
        proof {
            use_type_invariant(self);
        }
        Vector { values: self.values.clone(), offset: self.offset, dimensions: self.dimensions }
    }

    /// Whether the Euclidean norm is zero.
    pub fn is_zero(&self) -> (zero: bool)
        ensures
            zero == zero_vector(self@),
    {
        let elements = self.as_slice();
        let mut index: usize = 0;
        while index < elements.len()
            invariant
                elements@ == self@,
                index <= elements@.len(),
                forall|i: int| 0 <= i < index ==> element_magnitude(#[trigger] elements@[i]) == 0,
            decreases elements@.len() - index,
        {
            if elements[index] != 0 && elements[index] != ELEMENT_SIGN {
                return false;
            }
            index = index + 1;
        }
        true
    }

    /// Whether the two vectors hold equal numbers.
    pub fn same_as(&self, other: &Vector) -> (same: bool)
        ensures
            same == same_elements(self@, other@),
    {
        let left = self.as_slice();
        let right = other.as_slice();
        if left.len() != right.len() {
            return false;
        }
        let mut index: usize = 0;
        while index < left.len()
            invariant
                left@ == self@,
                right@ == other@,
                left@.len() == right@.len(),
                index <= left@.len(),
                forall|i: int| 0 <= i < index ==> element_key(#[trigger] left@[i]) == element_key(right@[i]),
            decreases left@.len() - index,
        {
            if element_key_of(left[index]) != element_key_of(right[index]) {
                return false;
            }
            index = index + 1;
        }
        true
    }

    /// Fails exactly when the two vectors have different dimensions.
    pub fn ensure_same_dimensions(&self, other: &Vector) -> (result: Result<(), Error>)
        ensures
            outcome(result) == same_dimensions(self@, other@),
    {
        let left: usize = self.dimensions();
        let right: usize = other.dimensions();
        if left != right {
            return Err(Error::DimensionMismatch { left, right });
        }
        Ok(())
    }
}

/// What a check for equal dimensions gives.
pub open spec fn same_dimensions(left: Seq<u32>, right: Seq<u32>) -> Result<(), ErrorView> {
    if left.len() != right.len() {
        Err(ErrorView::DimensionMismatch { left: left.len(), right: right.len() })
    } else {
        Ok(())
    }
}

impl Clone for Vector {
    fn clone(&self) -> (vector: Vector)
        ensures
            vector@ == self@,
    {
        self.share()
    }
}

} // verus!
