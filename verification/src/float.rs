//! Floating-point numbers as bit patterns.
//!
//! Ordering, sign and finiteness are read off the bits. Arithmetic, conversion and
//! notation are asked of a function that the caller supplies.

use vstd::prelude::*;
use crate::error::{Error, ErrorView, outcome};
use crate::text::{int_rank, Rank};
use crate::vector::{new_vector, same_dimensions, zero_vector, Vector};

verus! {

pub const SIGN: u64 = 0x8000_0000_0000_0000;

pub const INFINITE: u64 = 0x7ff0_0000_0000_0000;

/// The bits without the sign.
pub open spec fn magnitude(bits: u64) -> int {
    if bits >= SIGN {
        bits - SIGN
    } else {
        bits as int
    }
}

/// Whether the bits denote a finite number.
pub open spec fn finite(bits: u64) -> bool {
    magnitude(bits) < INFINITE
}

/// Whether the bits denote no number.
pub open spec fn not_a_number(bits: u64) -> bool {
    magnitude(bits) > INFINITE
}

/// The position of a number among all numbers; the two zeros share one.
pub open spec fn number_key(bits: u64) -> int {
    if bits >= SIGN {
        -magnitude(bits)
    } else {
        magnitude(bits)
    }
}

/// The position of a bit pattern in the total order of bit patterns.
pub open spec fn total_key(bits: u64) -> int {
    if bits >= SIGN {
        -magnitude(bits) - 1
    } else {
        magnitude(bits)
    }
}

/// The rank of two numbers; none where either is no number.
pub open spec fn number_rank(left: u64, right: u64) -> Option<Rank> {
    if not_a_number(left) || not_a_number(right) {
        None
    } else {
        Some(int_rank(number_key(left), number_key(right)))
    }
}

/// The number with the other sign.
pub open spec fn negated(bits: u64) -> u64 {
    if bits >= SIGN {
        (bits - SIGN) as u64
    } else {
        (bits + SIGN) as u64
    }
}

/// The bits with the two zeros made one.
pub open spec fn float_key(bits: u64) -> u64 {
    if magnitude(bits) == 0 {
        0
    } else {
        bits
    }
}

pub fn is_finite(bits: u64) -> (result: bool)
    ensures
        result == finite(bits),
{
    let size: u64 = if bits >= SIGN { bits - SIGN } else { bits };
    size < INFINITE
}

pub fn is_not_a_number(bits: u64) -> (result: bool)
    ensures
        result == not_a_number(bits),
{
    let size: u64 = if bits >= SIGN { bits - SIGN } else { bits };
    size > INFINITE
}

pub fn negate(bits: u64) -> (result: u64)
    ensures
        result == negated(bits),
{
    if bits >= SIGN {
        bits - SIGN
    } else {
        bits + SIGN
    }
}

pub fn is_zero(bits: u64) -> (result: bool)
    ensures
        result == (magnitude(bits) == 0),
{
    bits == 0 || bits == SIGN
}

pub fn float_key_of(bits: u64) -> (result: u64)
    ensures
        result == float_key(bits),
{
    if is_zero(bits) {
        0
    } else {
        bits
    }
}

/// The rank of two numbers; none where either is no number.
pub fn rank_numbers(left: u64, right: u64) -> (result: Option<Rank>)
    ensures
        result == number_rank(left, right),
{
    if is_not_a_number(left) || is_not_a_number(right) {
        return None;
    }
    let rank = if left >= SIGN {
        if right >= SIGN {
            if left > right {
                Rank::Before
            } else if left == right {
                Rank::Same
            } else {
                Rank::After
            }
        } else if left == SIGN && right == 0 {
            Rank::Same
        } else {
            Rank::Before
        }
    } else if right >= SIGN {
        if left == 0 && right == SIGN {
            Rank::Same
        } else {
            Rank::After
        }
    } else if left < right {
        Rank::Before
    } else if left == right {
        Rank::Same
    } else {
        Rank::After
    };
    Some(rank)
}

/// The rank of two bit patterns in their total order.
pub fn rank_total(left: u64, right: u64) -> (result: Rank)
    ensures
        result == int_rank(total_key(left), total_key(right)),
{
    if left >= SIGN {
        if right < SIGN || left > right {
            Rank::Before
        } else if left == right {
            Rank::Same
        } else {
            Rank::After
        }
    } else if right >= SIGN || left > right {
        Rank::After
    } else if left == right {
        Rank::Same
    } else {
        Rank::Before
    }
}

/// Whether the first number is at least the second; false where either is no number.
pub open spec fn at_least(left: u64, right: u64) -> bool {
    number_rank(left, right) matches Some(rank) && rank != Rank::Before
}

pub fn is_at_least(left: u64, right: u64) -> (result: bool)
    ensures
        result == at_least(left, right),
{
    match rank_numbers(left, right) {
        Some(Rank::Before) => false,
        Some(_) => true,
        None => false,
    }
}

/// A computation on floating-point numbers.
pub enum FloatTask {
    Add(u64, u64),
    Subtract(u64, u64),
    Multiply(u64, u64),
    Divide(u64, u64),
    Remainder(u64, u64),
    /// The natural logarithm.
    Logarithm(u64),
    /// The number nearest to an integer.
    FromInteger(i64),
    /// The number nearest to a count.
    FromCount(u64),
    /// The number that a decimal notation denotes.
    Parse(String),
    /// The nearest element of a vector.
    Narrow(u64),
    /// The shortest notation that reads back as the number.
    Text(u64),
    /// The shortest notation that reads back as a floating-point number.
    SourceText(u64),
    /// The notation with three digits after the point.
    Thousandths(u64),
    ElementText(u32),
    ElementSourceText(u32),
    /// The Euclidean norm.
    Norm(Vector),
    /// The elements divided by the norm.
    Normalize(Vector),
    SquaredDistance(Vector, Vector),
    Distance(Vector, Vector),
    DotProduct(Vector, Vector),
    CosineDistance(Vector, Vector),
}

/// A computation with its operands by their views.
pub enum FloatTaskView {
    Add(u64, u64),
    Subtract(u64, u64),
    Multiply(u64, u64),
    Divide(u64, u64),
    Remainder(u64, u64),
    Logarithm(u64),
    FromInteger(i64),
    FromCount(u64),
    Parse(Seq<char>),
    Narrow(u64),
    Text(u64),
    SourceText(u64),
    Thousandths(u64),
    ElementText(u32),
    ElementSourceText(u32),
    Norm(Seq<u32>),
    Normalize(Seq<u32>),
    SquaredDistance(Seq<u32>, Seq<u32>),
    Distance(Seq<u32>, Seq<u32>),
    DotProduct(Seq<u32>, Seq<u32>),
    CosineDistance(Seq<u32>, Seq<u32>),
}

impl View for FloatTask {
    type V = FloatTaskView;

    open spec fn view(&self) -> FloatTaskView {
        match self {
            FloatTask::Add(a, b) => FloatTaskView::Add(*a, *b),
            FloatTask::Subtract(a, b) => FloatTaskView::Subtract(*a, *b),
            FloatTask::Multiply(a, b) => FloatTaskView::Multiply(*a, *b),
            FloatTask::Divide(a, b) => FloatTaskView::Divide(*a, *b),
            FloatTask::Remainder(a, b) => FloatTaskView::Remainder(*a, *b),
            FloatTask::Logarithm(a) => FloatTaskView::Logarithm(*a),
            FloatTask::FromInteger(a) => FloatTaskView::FromInteger(*a),
            FloatTask::FromCount(a) => FloatTaskView::FromCount(*a),
            FloatTask::Parse(a) => FloatTaskView::Parse(a@),
            FloatTask::Narrow(a) => FloatTaskView::Narrow(*a),
            FloatTask::Text(a) => FloatTaskView::Text(*a),
            FloatTask::SourceText(a) => FloatTaskView::SourceText(*a),
            FloatTask::Thousandths(a) => FloatTaskView::Thousandths(*a),
            FloatTask::ElementText(a) => FloatTaskView::ElementText(*a),
            FloatTask::ElementSourceText(a) => FloatTaskView::ElementSourceText(*a),
            FloatTask::Norm(a) => FloatTaskView::Norm(a@),
            FloatTask::Normalize(a) => FloatTaskView::Normalize(a@),
            FloatTask::SquaredDistance(a, b) => FloatTaskView::SquaredDistance(a@, b@),
            FloatTask::Distance(a, b) => FloatTaskView::Distance(a@, b@),
            FloatTask::DotProduct(a, b) => FloatTaskView::DotProduct(a@, b@),
            FloatTask::CosineDistance(a, b) => FloatTaskView::CosineDistance(a@, b@),
        }
    }
}

/// What a computation gives.
pub enum FloatReply {
    Number(u64),
    Element(u32),
    Text(String),
    Elements(Vec<u32>),
    Nothing,
}

/// A reply with its contents by their views.
pub enum FloatReplyView {
    Number(u64),
    Element(u32),
    Text(Seq<char>),
    Elements(Seq<u32>),
    Nothing,
}

impl View for FloatReply {
    type V = FloatReplyView;

    open spec fn view(&self) -> FloatReplyView {
        match self {
            FloatReply::Number(a) => FloatReplyView::Number(*a),
            FloatReply::Element(a) => FloatReplyView::Element(*a),
            FloatReply::Text(a) => FloatReplyView::Text(a@),
            FloatReply::Elements(a) => FloatReplyView::Elements(a@),
            FloatReply::Nothing => FloatReplyView::Nothing,
        }
    }
}

/// What each computation gives.
pub type Floats = spec_fn(FloatTaskView) -> FloatReplyView;

/// Whether `f` can be asked for every computation and gives equal replies to equal ones.
pub open spec fn computes<F: Fn(FloatTask) -> FloatReply>(f: F) -> bool {
    &&& forall|task: FloatTask| #[trigger] call_requires(f, (task,))
    &&& forall|first: FloatTask, second: FloatTask, one: FloatReply, other: FloatReply|
        #[trigger] call_ensures(f, (first,), one) && #[trigger] call_ensures(f, (second,), other) && first@ == second@
            ==> one@ == other@
}

/// Whether `f` gives this reply to this computation.
pub open spec fn replies<F: Fn(FloatTask) -> FloatReply>(f: F, task: FloatTaskView, reply: FloatReplyView) -> bool {
    exists|asked: FloatTask, given: FloatReply|
        asked@ == task && given@ == reply && #[trigger] call_ensures(f, (asked,), given)
}

/// What `f` gives to each computation.
pub open spec fn floats<F: Fn(FloatTask) -> FloatReply>(f: F) -> Floats {
    |task: FloatTaskView| choose|reply: FloatReplyView| replies(f, task, reply)
}

/// Asks `f` for one computation.
pub fn compute<F: Fn(FloatTask) -> FloatReply>(f: &F, task: FloatTask) -> (reply: FloatReply)
    requires
        computes(*f),
    ensures
        reply@ == floats(*f)(task@),
{
    let ghost asked = task;
    let reply = f(task);
    proof {
        assert(replies(*f, asked@, reply@));
        let chosen = floats(*f)(asked@);
        assert(replies(*f, asked@, chosen));
    }
    reply
}

/// The number in a reply; zero where it holds none.
pub open spec fn number(floats: Floats, task: FloatTaskView) -> u64 {
    match floats(task) {
        FloatReplyView::Number(bits) => bits,
        _ => 0,
    }
}

/// The number in a reply; zero where it holds none.
pub fn compute_number<F: Fn(FloatTask) -> FloatReply>(f: &F, task: FloatTask) -> (bits: u64)
    requires
        computes(*f),
    ensures
        bits == number(floats(*f), task@),
{
    match compute(f, task) {
        FloatReply::Number(bits) => bits,
        _ => 0,
    }
}

/// The vector element nearest to a number.
pub open spec fn narrowed(floats: Floats, bits: u64) -> u32 {
    match floats(FloatTaskView::Narrow(bits)) {
        FloatReplyView::Element(element) => element,
        _ => 0,
    }
}

pub fn narrow<F: Fn(FloatTask) -> FloatReply>(f: &F, bits: u64) -> (element: u32)
    requires
        computes(*f),
    ensures
        element == narrowed(floats(*f), bits),
{
    match compute(f, FloatTask::Narrow(bits)) {
        FloatReply::Element(element) => element,
        _ => 0,
    }
}

/// The text in a reply; empty where it holds none.
pub open spec fn notation(floats: Floats, task: FloatTaskView) -> Seq<char> {
    match floats(task) {
        FloatReplyView::Text(text) => text,
        _ => Seq::empty(),
    }
}

pub fn compute_text<F: Fn(FloatTask) -> FloatReply>(f: &F, task: FloatTask) -> (text: String)
    requires
        computes(*f),
    ensures
        text@ == notation(floats(*f), task@),
{
    match compute(f, task) {
        FloatReply::Text(text) => text,
        _ => String::new(),
    }
}

/// A measure of how far two vectors are apart or alike.
#[derive(Clone, Copy, Debug, PartialEq, Eq, Structural)]
pub enum Metric {
    L2,
    SquaredL2,
    Cosine,
    DotProduct,
    NegativeDotProduct,
}

/// What a metric gives on two vectors.
pub open spec fn scored(floats: Floats, metric: Metric, left: Seq<u32>, right: Seq<u32>) -> Result<u64, ErrorView> {
    match same_dimensions(left, right) {
        Err(error) => Err(error),
        Ok(_) => match metric {
            Metric::L2 => Ok(number(floats, FloatTaskView::Distance(left, right))),
            Metric::SquaredL2 => Ok(number(floats, FloatTaskView::SquaredDistance(left, right))),
            Metric::Cosine => if zero_vector(left) || zero_vector(right) {
                Err(ErrorView::ZeroNorm)
            } else {
                Ok(number(floats, FloatTaskView::CosineDistance(left, right)))
            },
            Metric::DotProduct => Ok(number(floats, FloatTaskView::DotProduct(left, right))),
            Metric::NegativeDotProduct => Ok(negated(number(floats, FloatTaskView::DotProduct(left, right)))),
        },
    }
}

impl Metric {
    /// The metric on two vectors of equal dimensions; cosine also needs two nonzero ones.
    pub fn score<F: Fn(FloatTask) -> FloatReply>(self, f: &F, left: &Vector, right: &Vector) -> (result: Result<u64, Error>)
        requires
            computes(*f),
        ensures
            outcome(result) == scored(floats(*f), self, left@, right@),
    {
        left.ensure_same_dimensions(right)?;
        match self {
            Metric::L2 => Ok(compute_number(f, FloatTask::Distance(left.share(), right.share()))),
            Metric::SquaredL2 => Ok(compute_number(f, FloatTask::SquaredDistance(left.share(), right.share()))),
            Metric::Cosine => {
                if left.is_zero() || right.is_zero() {
                    return Err(Error::ZeroNorm);
                }
                Ok(compute_number(f, FloatTask::CosineDistance(left.share(), right.share())))
            },
            Metric::DotProduct => Ok(compute_number(f, FloatTask::DotProduct(left.share(), right.share()))),
            Metric::NegativeDotProduct => Ok(
                negate(compute_number(f, FloatTask::DotProduct(left.share(), right.share()))),
            ),
        }
    }

    pub open spec fn name(self) -> Seq<char> {
        match self {
            Metric::L2 => "l2_distance"@,
            Metric::SquaredL2 => "squared_l2_distance"@,
            Metric::Cosine => "cosine_distance"@,
            Metric::DotProduct | Metric::NegativeDotProduct => "dot_product"@,
        }
    }

    /// The name by which a query intent calls the metric.
    pub fn intent_name(self) -> (name: &'static str)
        ensures
            name@ == self.name(),
    {
        match self {
            Metric::L2 => "l2_distance",
            Metric::SquaredL2 => "squared_l2_distance",
            Metric::Cosine => "cosine_distance",
            Metric::DotProduct | Metric::NegativeDotProduct => "dot_product",
        }
    }
}

/// A unit-length copy of a vector.
pub open spec fn unit_vector(floats: Floats, vector: Seq<u32>) -> Result<Seq<u32>, ErrorView> {
    if zero_vector(vector) {
        Err(ErrorView::ZeroNorm)
    } else {
        match floats(FloatTaskView::Normalize(vector)) {
            FloatReplyView::Elements(elements) => new_vector(elements),
            _ => new_vector(Seq::empty()),
        }
    }
}

/// A unit-length copy of a vector.
pub fn normalized<F: Fn(FloatTask) -> FloatReply>(f: &F, vector: &Vector) -> (result: Result<Vector, Error>)
    requires
        computes(*f),
    ensures
        outcome(result) == unit_vector(floats(*f), vector@),
{
    if vector.is_zero() {
        return Err(Error::ZeroNorm);
    }
    match compute(f, FloatTask::Normalize(vector.share())) {
        FloatReply::Elements(elements) => Vector::new(elements),
        _ => Vector::new(Vec::new()),
    }
}

impl Vector {
    /// The Euclidean norm.
    pub fn norm<F: Fn(FloatTask) -> FloatReply>(&self, f: &F) -> (norm: u64)
        requires
            computes(*f),
        ensures
            norm == number(floats(*f), FloatTaskView::Norm(self@)),
    {
        compute_number(f, FloatTask::Norm(self.share()))
    }

    /// A unit-length copy.
    pub fn normalized<F: Fn(FloatTask) -> FloatReply>(&self, f: &F) -> (result: Result<Vector, Error>)
        requires
            computes(*f),
        ensures
            outcome(result) == unit_vector(floats(*f), self@),
    {
        normalized(f, self)
    }

    /// The squared Euclidean distance.
    pub fn squared_l2_distance<F: Fn(FloatTask) -> FloatReply>(&self, f: &F, other: &Vector) -> (result: Result<u64, Error>)
        requires
            computes(*f),
        ensures
            outcome(result) == scored(floats(*f), Metric::SquaredL2, self@, other@),
    {
        Metric::SquaredL2.score(f, self, other)
    }

    /// The Euclidean distance.
    pub fn l2_distance<F: Fn(FloatTask) -> FloatReply>(&self, f: &F, other: &Vector) -> (result: Result<u64, Error>)
        requires
            computes(*f),
        ensures
            outcome(result) == scored(floats(*f), Metric::L2, self@, other@),
    {
        Metric::L2.score(f, self, other)
    }

    /// The dot product.
    pub fn dot_product<F: Fn(FloatTask) -> FloatReply>(&self, f: &F, other: &Vector) -> (result: Result<u64, Error>)
        requires
            computes(*f),
        ensures
            outcome(result) == scored(floats(*f), Metric::DotProduct, self@, other@),
    {
        Metric::DotProduct.score(f, self, other)
    }

    /// The cosine distance; vectors of norm zero have none.
    pub fn cosine_distance<F: Fn(FloatTask) -> FloatReply>(&self, f: &F, other: &Vector) -> (result: Result<u64, Error>)
        requires
            computes(*f),
        ensures
            outcome(result) == scored(floats(*f), Metric::Cosine, self@, other@),
    {
        Metric::Cosine.score(f, self, other)
    }
}

} // verus!
