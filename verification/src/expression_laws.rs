//! What the operators and functions of SQL mean.

use vstd::prelude::*;
use crate::ast::{last_name, ArgumentView, BinaryView, ExprView, FunctionView, LiteralView, Test, UnaryView};
use crate::error::ErrorView;
use crate::eval::{argument_values, evaluated, function_metric, list_members, scalar_function, ScopeView};
use crate::float::{finite, magnitude, negated, not_a_number, number_key, FloatReplyView, FloatTaskView, Floats};
use crate::operators::{compared, like, logical_type, Comparison};
use crate::text::{lemma_text_rank_same, normalized, text_rank, text_rank_from, Rank};
use crate::unicode::lowered;
use crate::value::{DataType, ValueView};

verus! {

broadcast use vstd::string::group_string_axioms;

/// A call of a function on two expressions, with nothing else to it.
pub open spec fn calls_on(function: FunctionView, left: ExprView, right: ExprView) -> bool {
    &&& !function.distinct
    &&& !function.modified
    &&& function.arguments == seq![ArgumentView::Expr(left), ArgumentView::Expr(right)]
}

/// A call of a function on one expression, with nothing else to it.
pub open spec fn calls_on_one(function: FunctionView, inner: ExprView) -> bool {
    &&& !function.distinct
    &&& !function.modified
    &&& function.arguments == seq![ArgumentView::Expr(inner)]
}

/// Whether some element is another number than zero.
pub open spec fn some_nonzero(elements: Seq<u32>) -> bool {
    exists|i: int| 0 <= i < elements.len() && (#[trigger] elements[i]) != 0 && elements[i] != 0x8000_0000
}

/// The expression of an operator between two others.
pub open spec fn joined(left: ExprView, operator: BinaryView, right: ExprView) -> ExprView {
    ExprView::BinaryOp(Box::new(left), operator, Box::new(right))
}

proof fn lemma_names()
    ensures
        scalar_function("dot_product"@) == scalar_function("inner_product"@),
        scalar_function("l2_distance"@) == scalar_function("euclidean_distance"@),
        function_metric("dot_product"@) is Some,
        function_metric("l2_distance"@) is Some,
        function_metric("squared_l2_distance"@) is Some,
        function_metric("cosine_distance"@) is Some,
        scalar_function("dot_product"@) is Measure,
        scalar_function("l2_distance"@) is Measure,
        scalar_function("squared_l2_distance"@) is Measure,
        scalar_function("cosine_distance"@) is Measure,
        scalar_function("vector_norm"@) is Norm,
        scalar_function("norm"@) is Norm,
        scalar_function("vector_dims"@) is Dimensions,
        scalar_function("dimensions"@) is Dimensions,
        scalar_function("normalize"@) is Normalize,
        scalar_function("normalize_vector"@) is Normalize,
{
    reveal_strlit("vector");
    reveal_strlit("vector_dims");
    reveal_strlit("dimensions");
    reveal_strlit("vector_norm");
    reveal_strlit("norm");
    reveal_strlit("normalize");
    reveal_strlit("normalize_vector");
    reveal_strlit("l2_distance");
    reveal_strlit("euclidean_distance");
    reveal_strlit("squared_l2_distance");
    reveal_strlit("cosine_distance");
    reveal_strlit("dot_product");
    reveal_strlit("inner_product");
    assert("vector"@.len() == 6);
    assert("vector_dims"@.len() == 11);
    assert("dimensions"@.len() == 10);
    assert("vector_norm"@.len() == 11);
    assert("norm"@.len() == 4);
    assert("normalize"@.len() == 9);
    assert("normalize_vector"@.len() == 16);
    assert("l2_distance"@.len() == 11);
    assert("euclidean_distance"@.len() == 18);
    assert("squared_l2_distance"@.len() == 19);
    assert("cosine_distance"@.len() == 15);
    assert("dot_product"@.len() == 11);
    assert("inner_product"@.len() == 13);
    assert("vector_dims"@[7] != "vector_norm"@[7]);
    assert("vector_dims"@[0] != "l2_distance"@[0] && "vector_dims"@[0] != "dot_product"@[0]);
    assert("vector_norm"@[0] != "l2_distance"@[0] && "vector_norm"@[0] != "dot_product"@[0]);
    assert("l2_distance"@[0] != "dot_product"@[0]);
    assert("vector_dims"@ != "vector_norm"@ && "vector_dims"@ != "l2_distance"@ && "vector_dims"@ != "dot_product"@);
    assert("vector_norm"@ != "l2_distance"@ && "vector_norm"@ != "dot_product"@ && "l2_distance"@ != "dot_product"@);
    assert(function_metric("inner_product"@) is Some);
    assert(function_metric("euclidean_distance"@) is Some);
    assert(function_metric("dot_product"@) == function_metric("inner_product"@));
    assert(function_metric("l2_distance"@) == function_metric("euclidean_distance"@));
    assert(scalar_function("inner_product"@) is Measure);
    assert(scalar_function("euclidean_distance"@) is Measure);
}

proof fn lemma_two_arguments(
    function: FunctionView,
    left: ExprView,
    right: ExprView,
    a: ValueView,
    b: ValueView,
    scope: ScopeView,
    floats: Floats,
)
    requires
        calls_on(function, left, right),
        evaluated(left, scope, floats) == Ok::<ValueView, ErrorView>(a),
        evaluated(right, scope, floats) == Ok::<ValueView, ErrorView>(b),
    ensures
        argument_values(function.arguments, scope, floats, 0, Seq::empty()) == Ok::<Seq<ValueView>, ErrorView>(seq![a, b]),
{
    let one = Seq::<ValueView>::empty().push(a);
    assert(function.arguments[0] == ArgumentView::Expr(left) && function.arguments[1] == ArgumentView::Expr(right));
    assert(argument_values(function.arguments, scope, floats, 0, Seq::empty()) == argument_values(
        function.arguments,
        scope,
        floats,
        1,
        one,
    ));
    assert(argument_values(function.arguments, scope, floats, 1, one) == argument_values(
        function.arguments,
        scope,
        floats,
        2,
        one.push(b),
    ));
    assert(argument_values(function.arguments, scope, floats, 2, one.push(b)) == Ok::<Seq<ValueView>, ErrorView>(one.push(b)));
    assert(one.push(b) =~= seq![a, b]);
}

/// A distance function on two vectors of equal dimensions is the number that its own computation
/// gives for them: the dot product as it is, the Euclidean distance, its square, and the cosine
/// distance where neither vector is zero.
pub proof fn law_distance_functions(
    function: FunctionView,
    left: ExprView,
    right: ExprView,
    a: Seq<u32>,
    b: Seq<u32>,
    scope: ScopeView,
    floats: Floats,
    bits: u64,
)
    requires
        calls_on(function, left, right),
        evaluated(left, scope, floats) == Ok::<ValueView, ErrorView>(ValueView::Vector(a)),
        evaluated(right, scope, floats) == Ok::<ValueView, ErrorView>(ValueView::Vector(b)),
        a.len() == b.len(),
    ensures
        ({
            let name = last_name(function.name);
            let value = evaluated(ExprView::Function(function), scope, floats);
            let given = Ok::<ValueView, ErrorView>(ValueView::Float(bits));
            &&& (name == "dot_product"@ || name == "inner_product"@) && floats(FloatTaskView::DotProduct(a, b))
                == FloatReplyView::Number(bits) ==> value == given
            &&& (name == "l2_distance"@ || name == "euclidean_distance"@) && floats(FloatTaskView::Distance(a, b))
                == FloatReplyView::Number(bits) ==> value == given
            &&& name == "squared_l2_distance"@ && floats(FloatTaskView::SquaredDistance(a, b)) == FloatReplyView::Number(bits)
                ==> value == given
            &&& name == "cosine_distance"@ && some_nonzero(a) && some_nonzero(b) && floats(
                FloatTaskView::CosineDistance(a, b),
            ) == FloatReplyView::Number(bits) ==> value == given
            &&& name == "cosine_distance"@ && !(some_nonzero(a) && some_nonzero(b)) ==> value == Err::<ValueView, ErrorView>(
                ErrorView::ZeroNorm,
            )
        }),
{
    lemma_names();
    lemma_two_arguments(function, left, right, ValueView::Vector(a), ValueView::Vector(b), scope, floats);
    lemma_nonzero(a);
    lemma_nonzero(b);
    reveal_strlit("cosine_distance");
    reveal_strlit("squared_l2_distance");
    reveal_strlit("dot_product");
    reveal_strlit("inner_product");
    reveal_strlit("l2_distance");
    reveal_strlit("euclidean_distance");
    assert("l2_distance"@[0] != "dot_product"@[0]);
}

proof fn lemma_nonzero(elements: Seq<u32>)
    ensures
        some_nonzero(elements) == !crate::vector::zero_vector(elements),
{
    if some_nonzero(elements) {
        let i = choose|i: int| 0 <= i < elements.len() && (#[trigger] elements[i]) != 0 && elements[i] != 0x8000_0000;
        assert(crate::vector::element_magnitude(elements[i]) != 0);
    }
}

/// The operators between two vectors of equal dimensions: `<->` is the Euclidean distance, `<=>` the
/// cosine distance, and `<#>` the dot product with the other sign.
pub proof fn law_distance_operators(
    left: ExprView,
    right: ExprView,
    a: Seq<u32>,
    b: Seq<u32>,
    scope: ScopeView,
    floats: Floats,
    bits: u64,
)
    requires
        evaluated(left, scope, floats) == Ok::<ValueView, ErrorView>(ValueView::Vector(a)),
        evaluated(right, scope, floats) == Ok::<ValueView, ErrorView>(ValueView::Vector(b)),
        a.len() == b.len(),
    ensures
        floats(FloatTaskView::Distance(a, b)) == FloatReplyView::Number(bits) ==> evaluated(
            joined(left, BinaryView::Custom("<->"@), right),
            scope,
            floats,
        ) == Ok::<ValueView, ErrorView>(ValueView::Float(bits)),
        floats(FloatTaskView::CosineDistance(a, b)) == FloatReplyView::Number(bits) && some_nonzero(a) && some_nonzero(b)
            ==> evaluated(joined(left, BinaryView::Custom("<=>"@), right), scope, floats) == Ok::<ValueView, ErrorView>(
            ValueView::Float(bits),
        ),
        !(some_nonzero(a) && some_nonzero(b)) ==> evaluated(joined(left, BinaryView::Custom("<=>"@), right), scope, floats)
            == Err::<ValueView, ErrorView>(ErrorView::ZeroNorm),
        floats(FloatTaskView::DotProduct(a, b)) == FloatReplyView::Number(bits) ==> (evaluated(
            joined(left, BinaryView::Custom("<#>"@), right),
            scope,
            floats,
        ) matches Ok(ValueView::Float(turned)) && (turned as int - bits == 0x8000_0000_0000_0000 || bits - turned as int
            == 0x8000_0000_0000_0000)),
{
    lemma_nonzero(a);
    lemma_nonzero(b);
    reveal_strlit("<->");
    reveal_strlit("<#>");
    reveal_strlit("<=>");
    assert("<->"@[1] != "<#>"@[1] && "<->"@[1] != "<=>"@[1] && "<#>"@[1] != "<=>"@[1]);
}

/// A distance between vectors of different dimensions is refused, whichever function or operator asks
/// for it, and one with `NULL` is `NULL`.
pub proof fn law_distances_need_equal_dimensions(
    function: FunctionView,
    operator: Seq<char>,
    left: ExprView,
    right: ExprView,
    a: Seq<u32>,
    b: ValueView,
    scope: ScopeView,
    floats: Floats,
)
    requires
        calls_on(function, left, right),
        last_name(function.name) == "dot_product"@ || last_name(function.name) == "inner_product"@ || last_name(
            function.name,
        ) == "l2_distance"@ || last_name(function.name) == "euclidean_distance"@ || last_name(function.name)
            == "squared_l2_distance"@ || last_name(function.name) == "cosine_distance"@,
        operator == "<->"@ || operator == "<=>"@ || operator == "<#>"@,
        evaluated(left, scope, floats) == Ok::<ValueView, ErrorView>(ValueView::Vector(a)),
        evaluated(right, scope, floats) == Ok::<ValueView, ErrorView>(b),
        b is Null || (b matches ValueView::Vector(elements) && elements.len() != a.len()),
    ensures
        ({
            let value = match b {
                ValueView::Vector(elements) => Err::<ValueView, ErrorView>(
                    ErrorView::DimensionMismatch { left: a.len(), right: elements.len() },
                ),
                _ => Ok::<ValueView, ErrorView>(ValueView::Null),
            };
            &&& evaluated(ExprView::Function(function), scope, floats) == value
            &&& evaluated(joined(left, BinaryView::Custom(operator), right), scope, floats) == value
        }),
{
    lemma_names();
    lemma_two_arguments(function, left, right, ValueView::Vector(a), b, scope, floats);
    reveal_strlit("<->");
    reveal_strlit("<#>");
    reveal_strlit("<=>");
}

/// The functions of one vector: how many elements it has, its norm, and the vector of length one in
/// its direction, which a zero vector has not.
pub proof fn law_vector_functions(
    function: FunctionView,
    inner: ExprView,
    a: Seq<u32>,
    scope: ScopeView,
    floats: Floats,
    bits: u64,
    unit: Seq<u32>,
)
    requires
        calls_on_one(function, inner),
        evaluated(inner, scope, floats) == Ok::<ValueView, ErrorView>(ValueView::Vector(a)),
        a.len() <= i64::MAX,
    ensures
        ({
            let name = last_name(function.name);
            let value = evaluated(ExprView::Function(function), scope, floats);
            &&& name == "vector_dims"@ || name == "dimensions"@ ==> (value matches Ok(ValueView::Integer(count)) && count
                == a.len())
            &&& (name == "vector_norm"@ || name == "norm"@) && floats(FloatTaskView::Norm(a)) == FloatReplyView::Number(bits)
                ==> value == Ok::<ValueView, ErrorView>(ValueView::Float(bits))
            &&& (name == "normalize"@ || name == "normalize_vector"@) && !some_nonzero(a) ==> value == Err::<
                ValueView,
                ErrorView,
            >(ErrorView::ZeroNorm)
            &&& (name == "normalize"@ || name == "normalize_vector"@) && some_nonzero(a) && floats(
                FloatTaskView::Normalize(a),
            ) == FloatReplyView::Elements(unit) && value is Ok ==> value == Ok::<ValueView, ErrorView>(
                ValueView::Vector(unit),
            )
        }),
{
    lemma_names();
    lemma_nonzero(a);
    let one = Seq::<ValueView>::empty().push(ValueView::Vector(a));
    assert(function.arguments[0] == ArgumentView::Expr(inner));
    assert(argument_values(function.arguments, scope, floats, 0, Seq::empty()) == argument_values(
        function.arguments,
        scope,
        floats,
        1,
        one,
    ));
    assert(argument_values(function.arguments, scope, floats, 1, one) == Ok::<Seq<ValueView>, ErrorView>(one));
    assert(one[0] == ValueView::Vector(a) && one.len() == 1);
}

/// Sums, differences and products of integers are exact, or refused where they are out of range.
pub proof fn law_integer_sums_and_products(left: ExprView, right: ExprView, a: i64, b: i64, scope: ScopeView, floats: Floats)
    requires
        evaluated(left, scope, floats) == Ok::<ValueView, ErrorView>(ValueView::Integer(a)),
        evaluated(right, scope, floats) == Ok::<ValueView, ErrorView>(ValueView::Integer(b)),
    ensures
        exactly(evaluated(joined(left, BinaryView::Plus, right), scope, floats), a + b),
        exactly(evaluated(joined(left, BinaryView::Minus, right), scope, floats), a - b),
        exactly(evaluated(joined(left, BinaryView::Multiply, right), scope, floats), a * b),
        exactly(evaluated(ExprView::UnaryOp(UnaryView::Minus, Box::new(left)), scope, floats), -a),
{
}

/// Whether a result is this integer, or an overflow where it does not fit.
pub open spec fn exactly(result: Result<ValueView, ErrorView>, value: int) -> bool {
    if i64::MIN <= value <= i64::MAX {
        result matches Ok(ValueView::Integer(found)) && found == value
    } else {
        result == Err::<ValueView, ErrorView>(ErrorView::InvalidQuery("integer overflow"@))
    }
}

/// The quotient of integers is cut off towards zero, and the remainder is what is left of the
/// dividend: with the sign of the dividend, and smaller than the divisor. Nothing is divided by zero.
pub proof fn law_integer_division(left: ExprView, right: ExprView, a: i64, b: i64, scope: ScopeView, floats: Floats)
    requires
        evaluated(left, scope, floats) == Ok::<ValueView, ErrorView>(ValueView::Integer(a)),
        evaluated(right, scope, floats) == Ok::<ValueView, ErrorView>(ValueView::Integer(b)),
    ensures
        ({
            let quotient = evaluated(joined(left, BinaryView::Divide, right), scope, floats);
            let rest = evaluated(joined(left, BinaryView::Modulo, right), scope, floats);
            if b == 0 {
                quotient == Err::<ValueView, ErrorView>(ErrorView::InvalidQuery("division by zero"@)) && rest == quotient
            } else if a == i64::MIN && b == -1 {
                quotient == Err::<ValueView, ErrorView>(ErrorView::InvalidQuery("integer overflow"@)) && rest == quotient
            } else {
                quotient matches Ok(ValueView::Integer(q)) && (rest matches Ok(ValueView::Integer(r)) && (a == q * b + r && (if b
                    > 0 {
                    -b < r < b
                } else {
                    b < r < -b
                }) && (a >= 0 ==> r >= 0) && (a <= 0 ==> r <= 0)))
            }
        }),
{
    if b != 0 && !(a == i64::MIN && b == -1) {
        let x = a as int;
        let d = b as int;
        let size = if x < 0 { -x } else { x };
        let width = if d < 0 { -d } else { d };
        vstd::arithmetic::div_mod::lemma_fundamental_div_mod(size, width);
        vstd::arithmetic::div_mod::lemma_mod_bound(size, width);
        let q = size / width;
        let r = size % width;
        assert(q * width <= size && q >= 0 && q <= size) by (nonlinear_arith)
            requires
                size == width * q + r,
                0 <= r < width,
                size >= 0,
                width > 0,
        ;
        assert(q < 0x8000_0000_0000_0000 || (a == i64::MIN && width == 1)) by {
            if a == i64::MIN && width > 1 {
                assert(q < size) by (nonlinear_arith)
                    requires
                        size == width * q + r,
                        0 <= r < width,
                        width >= 2,
                        size > 0,
                        q >= 0,
                ;
            }
        }
        assert(x == (if (x < 0) != (d < 0) { -q } else { q }) * d + (if x < 0 { -r } else { r })) by (nonlinear_arith)
            requires
                size == width * q + r,
                size == (if x < 0 { -x } else { x }),
                width == (if d < 0 { -d } else { d }),
        ;
        let quotient = evaluated(joined(left, BinaryView::Divide, right), scope, floats);
        let rest = evaluated(joined(left, BinaryView::Modulo, right), scope, floats);
        let sign = if (x < 0) != (d < 0) { -q } else { q };
        if x == 0 {
            assert(q == 0 && r == 0) by (nonlinear_arith)
                requires
                    0 == width * q + r,
                    0 <= r < width,
                    q >= 0,
            ;
        }
        assert(-1 * x == -x && x * -1 == -x && d * -1 == -d);
        assert(quotient == Ok::<ValueView, ErrorView>(ValueView::Integer(sign as i64)));
        assert(rest == Ok::<ValueView, ErrorView>(ValueView::Integer((if x < 0 { -r } else { r }) as i64)));
    }
}

/// Arithmetic on floating-point numbers is that of the computation of its operator, whose result
/// must be finite, and an integer beside one counts as the number nearest to it. Nothing is divided
/// by zero, and a result with `NULL` is `NULL`.
pub proof fn law_number_arithmetic(
    left: ExprView,
    right: ExprView,
    a: u64,
    b: u64,
    value: ValueView,
    scope: ScopeView,
    floats: Floats,
    bits: u64,
)
    requires
        evaluated(left, scope, floats) == Ok::<ValueView, ErrorView>(ValueView::Float(a)),
        evaluated(right, scope, floats) == Ok::<ValueView, ErrorView>(value),
        value == ValueView::Float(b) || (value matches ValueView::Integer(whole) && floats(FloatTaskView::FromInteger(whole))
            == FloatReplyView::Number(b)),
        finite(bits),
    ensures
        ({
            let given = Ok::<ValueView, ErrorView>(ValueView::Float(bits));
            let number = FloatReplyView::Number(bits);
            let of = |operator: BinaryView| evaluated(joined(left, operator, right), scope, floats);
            &&& floats(FloatTaskView::Add(a, b)) == number ==> of(BinaryView::Plus) == given
            &&& floats(FloatTaskView::Subtract(a, b)) == number ==> of(BinaryView::Minus) == given
            &&& floats(FloatTaskView::Multiply(a, b)) == number ==> of(BinaryView::Multiply) == given
            &&& floats(FloatTaskView::Divide(a, b)) == number && magnitude(b) != 0 ==> of(BinaryView::Divide) == given
            &&& floats(FloatTaskView::Remainder(a, b)) == number && magnitude(b) != 0 ==> of(BinaryView::Modulo) == given
            &&& magnitude(b) == 0 ==> of(BinaryView::Divide) == Err::<ValueView, ErrorView>(
                ErrorView::InvalidQuery("division by zero"@),
            )
        }),
{
}

/// Whether a comparison has this truth.
pub open spec fn decided(result: Result<ValueView, ErrorView>, truth: bool) -> bool {
    result == Ok::<ValueView, ErrorView>(ValueView::Boolean(truth))
}

/// Whether the six comparisons of two expressions are as those of two integers.
pub open spec fn compared_as(left: ExprView, right: ExprView, a: int, b: int, scope: ScopeView, floats: Floats) -> bool {
    &&& decided(evaluated(joined(left, BinaryView::Eq, right), scope, floats), a == b)
    &&& decided(evaluated(joined(left, BinaryView::NotEq, right), scope, floats), a != b)
    &&& decided(evaluated(joined(left, BinaryView::Lt, right), scope, floats), a < b)
    &&& decided(evaluated(joined(left, BinaryView::LtEq, right), scope, floats), a <= b)
    &&& decided(evaluated(joined(left, BinaryView::Gt, right), scope, floats), a > b)
    &&& decided(evaluated(joined(left, BinaryView::GtEq, right), scope, floats), a >= b)
}

/// Integers, numbers and truth values are compared by their size, `false` before `true`. The two
/// zeros of floating-point numbers are equal.
pub proof fn law_numbers_are_compared_by_size(
    left: ExprView,
    right: ExprView,
    a: ValueView,
    b: ValueView,
    scope: ScopeView,
    floats: Floats,
)
    requires
        evaluated(left, scope, floats) == Ok::<ValueView, ErrorView>(a),
        evaluated(right, scope, floats) == Ok::<ValueView, ErrorView>(b),
    ensures
        a matches ValueView::Integer(x) ==> (b matches ValueView::Integer(y) ==> compared_as(
            left,
            right,
            x as int,
            y as int,
            scope,
            floats,
        )),
        a matches ValueView::Float(x) ==> (b matches ValueView::Float(y) ==> (!not_a_number(x) && !not_a_number(y)
            ==> compared_as(left, right, number_key(x), number_key(y), scope, floats))),
        a matches ValueView::Float(x) ==> (b matches ValueView::Integer(whole) ==> forall|y: u64|
            !not_a_number(x) && !not_a_number(y) && #[trigger] gives(floats, whole, y) ==> compared_as(
                left,
                right,
                number_key(x),
                number_key(y),
                scope,
                floats,
            )),
        a matches ValueView::Integer(whole) ==> (b matches ValueView::Float(y) ==> forall|x: u64|
            !not_a_number(x) && !not_a_number(y) && #[trigger] gives(floats, whole, x) ==> compared_as(
                left,
                right,
                number_key(x),
                number_key(y),
                scope,
                floats,
            )),
        a matches ValueView::Boolean(x) ==> (b matches ValueView::Boolean(y) ==> compared_as(
            left,
            right,
            (if x { 1int } else { 0int }),
            (if y { 1int } else { 0int }),
            scope,
            floats,
        )),
{
}

/// Whether a number is what an integer is taken for.
pub open spec fn gives(floats: Floats, whole: i64, bits: u64) -> bool {
    floats(FloatTaskView::FromInteger(whole)) == FloatReplyView::Number(bits)
}

/// A comparison with `NULL` is `NULL`, whatever stands on the other side.
pub proof fn law_null_is_not_compared(left: ExprView, right: ExprView, a: ValueView, b: ValueView, scope: ScopeView, floats: Floats)
    requires
        evaluated(left, scope, floats) == Ok::<ValueView, ErrorView>(a),
        evaluated(right, scope, floats) == Ok::<ValueView, ErrorView>(b),
        a is Null || b is Null,
    ensures
        ({
            let nothing = Ok::<ValueView, ErrorView>(ValueView::Null);
            let of = |operator: BinaryView| evaluated(joined(left, operator, right), scope, floats);
            &&& of(BinaryView::Eq) == nothing && of(BinaryView::NotEq) == nothing
            &&& of(BinaryView::Lt) == nothing && of(BinaryView::LtEq) == nothing
            &&& of(BinaryView::Gt) == nothing && of(BinaryView::GtEq) == nothing
            &&& of(BinaryView::Plus) == nothing && of(BinaryView::Minus) == nothing
            &&& of(BinaryView::Multiply) == nothing && of(BinaryView::Divide) == nothing && of(BinaryView::Modulo) == nothing
        }),
{
}

/// Whether the first text comes before the second: where they first differ it has the smaller
/// character, or it ends there.
pub open spec fn comes_before(first: Seq<char>, second: Seq<char>) -> bool {
    exists|at: int|
        0 <= at <= first.len() && at < second.len() && #[trigger] first.take(at) == second.take(at) && (at == first.len()
            || (first[at] as int) < (second[at] as int))
}

proof fn lemma_text_before(first: Seq<char>, second: Seq<char>, from: nat)
    requires
        from <= first.len(),
        from <= second.len(),
        first.take(from as int) == second.take(from as int),
    ensures
        text_rank_from(first, second, from) == Rank::Before ==> comes_before(first, second),
        text_rank_from(first, second, from) == Rank::After ==> comes_before(second, first),
        text_rank_from(first, second, from) == Rank::Same ==> first == second,
    decreases first.len() - from,
{
    if from >= first.len() || from >= second.len() {
        if first.len() < second.len() {
            assert(first.take(from as int) == second.take(from as int));
        } else if first.len() > second.len() {
            assert(second.take(from as int) == first.take(from as int));
        } else {
            assert(first.take(from as int) =~= first);
            assert(second.take(from as int) =~= second);
        }
    } else if first[from as int] != second[from as int] {
        assert(first.take(from as int) == second.take(from as int));
        assert(second.take(from as int) == first.take(from as int));
    } else {
        assert(first.take(from as int + 1) =~= first.take(from as int).push(first[from as int]));
        assert(second.take(from as int + 1) =~= second.take(from as int).push(second[from as int]));
        lemma_text_before(first, second, from + 1);
    }
}

proof fn lemma_before_once(first: Seq<char>, second: Seq<char>)
    requires
        comes_before(first, second),
    ensures
        first != second,
        !comes_before(second, first),
{
    let at = choose|at: int|
        0 <= at <= first.len() && at < second.len() && #[trigger] first.take(at) == second.take(at) && (at == first.len() || (
        first[at] as int) < (second[at] as int));
    if comes_before(second, first) {
        let on = choose|on: int|
            0 <= on <= second.len() && on < first.len() && #[trigger] second.take(on) == first.take(on) && (on == second.len()
                || (second[on] as int) < (first[on] as int));
        if at < on {
            assert(second.take(on)[at] == first.take(on)[at]);
        } else if on < at {
            assert(first.take(at)[on] == second.take(at)[on]);
        }
    }
}

/// Texts are compared character by character, by code point; a text comes before those that it
/// begins.
pub proof fn law_texts_are_compared_by_character(
    left: ExprView,
    right: ExprView,
    a: Seq<char>,
    b: Seq<char>,
    scope: ScopeView,
    floats: Floats,
)
    requires
        evaluated(left, scope, floats) == Ok::<ValueView, ErrorView>(ValueView::Text(a)),
        evaluated(right, scope, floats) == Ok::<ValueView, ErrorView>(ValueView::Text(b)),
    ensures
        decided(evaluated(joined(left, BinaryView::Eq, right), scope, floats), a == b),
        decided(evaluated(joined(left, BinaryView::NotEq, right), scope, floats), a != b),
        decided(evaluated(joined(left, BinaryView::Lt, right), scope, floats), comes_before(a, b)),
        decided(evaluated(joined(left, BinaryView::GtEq, right), scope, floats), !comes_before(a, b)),
        decided(evaluated(joined(left, BinaryView::Gt, right), scope, floats), comes_before(b, a)),
        decided(evaluated(joined(left, BinaryView::LtEq, right), scope, floats), !comes_before(b, a)),
{
    assert(a.take(0) =~= b.take(0));
    lemma_text_before(a, b, 0);
    if comes_before(a, b) {
        lemma_before_once(a, b);
    }
    if comes_before(b, a) {
        lemma_before_once(b, a);
    }
    assert(text_rank(a, b) == Rank::Same ==> a == b);
    if a == b {
        lemma_text_rank_same(a, b, 0);
    }
}

/// Vectors are equal exactly where their elements are the same numbers one by one.
pub proof fn law_vectors_are_compared_by_element(
    left: ExprView,
    right: ExprView,
    a: Seq<u32>,
    b: Seq<u32>,
    scope: ScopeView,
    floats: Floats,
)
    requires
        evaluated(left, scope, floats) == Ok::<ValueView, ErrorView>(ValueView::Vector(a)),
        evaluated(right, scope, floats) == Ok::<ValueView, ErrorView>(ValueView::Vector(b)),
    ensures
        ({
            let same = a.len() == b.len() && forall|i: int|
                0 <= i < a.len() ==> (#[trigger] a[i] == b[i] || (a[i] % 0x8000_0000 == 0 && b[i] % 0x8000_0000 == 0));
            &&& decided(evaluated(joined(left, BinaryView::Eq, right), scope, floats), same)
            &&& decided(evaluated(joined(left, BinaryView::NotEq, right), scope, floats), !same)
        }),
{
}

/// The truth of a value: none for `NULL`.
pub open spec fn truth(value: ValueView) -> Option<bool> {
    match value {
        ValueView::Boolean(flag) => Some(flag),
        _ => None,
    }
}

/// A truth as a value.
pub open spec fn told(truth: Option<bool>) -> Result<ValueView, ErrorView> {
    match truth {
        Some(flag) => Ok(ValueView::Boolean(flag)),
        None => Ok(ValueView::Null),
    }
}

/// `AND` is false where a side is false, true where both are true, and else unknown; `OR` is true
/// where a side is true, false where both are false, and else unknown; `NOT` of the unknown is
/// unknown.
pub proof fn law_logic(left: ExprView, right: ExprView, a: ValueView, b: ValueView, scope: ScopeView, floats: Floats)
    requires
        evaluated(left, scope, floats) == Ok::<ValueView, ErrorView>(a),
        evaluated(right, scope, floats) == Ok::<ValueView, ErrorView>(b),
        a is Boolean || a is Null,
        b is Boolean || b is Null,
    ensures
        evaluated(joined(left, BinaryView::And, right), scope, floats) == told(
            if truth(a) == Some(false) || truth(b) == Some(false) {
                Some(false)
            } else if a is Null || b is Null {
                None
            } else {
                Some(true)
            },
        ),
        evaluated(joined(left, BinaryView::Or, right), scope, floats) == told(
            if truth(a) == Some(true) || truth(b) == Some(true) {
                Some(true)
            } else if a is Null || b is Null {
                None
            } else {
                Some(false)
            },
        ),
        evaluated(ExprView::UnaryOp(UnaryView::Not, Box::new(left)), scope, floats) == told(
            match truth(a) {
                Some(flag) => Some(!flag),
                None => None,
            },
        ),
{
}

/// The tests of a value: whether it is `NULL`, and whether it is true or false, which `NULL` is not.
pub proof fn law_tests(inner: ExprView, value: ValueView, scope: ScopeView, floats: Floats)
    requires
        evaluated(inner, scope, floats) == Ok::<ValueView, ErrorView>(value),
    ensures
        ({
            let of = |test: Test| evaluated(ExprView::Test(test, Box::new(inner)), scope, floats);
            &&& decided(of(Test::IsNull), value is Null)
            &&& decided(of(Test::IsNotNull), !(value is Null))
            &&& value is Boolean || value is Null ==> {
                &&& decided(of(Test::IsTrue), value == ValueView::Boolean(true))
                &&& decided(of(Test::IsFalse), value == ValueView::Boolean(false))
                &&& decided(of(Test::IsNotTrue), value != ValueView::Boolean(true))
                &&& decided(of(Test::IsNotFalse), value != ValueView::Boolean(false))
            }
        }),
{
}

/// `BETWEEN` is the conjunction of two comparisons, and `NOT BETWEEN` its negation, wherever those
/// have values.
pub proof fn law_between(inner: ExprView, low: ExprView, high: ExprView, scope: ScopeView, floats: Floats)
    requires
        evaluated(joined(inner, BinaryView::GtEq, low), scope, floats) is Ok,
        evaluated(joined(inner, BinaryView::LtEq, high), scope, floats) is Ok,
    ensures
        ({
            let inside = joined(joined(inner, BinaryView::GtEq, low), BinaryView::And, joined(inner, BinaryView::LtEq, high));
            let between = |negated: bool|
                evaluated(
                    ExprView::Between { expr: Box::new(inner), negated, low: Box::new(low), high: Box::new(high) },
                    scope,
                    floats,
                );
            &&& between(false) == evaluated(inside, scope, floats)
            &&& between(true) == evaluated(ExprView::UnaryOp(UnaryView::Not, Box::new(inside)), scope, floats)
        }),
{
    reveal_with_fuel(evaluated, 4);
}

/// Whether a value equals the value of an item of a list, by position.
pub open spec fn equals_item(value: ValueView, list: Seq<ExprView>, i: int, scope: ScopeView, floats: Floats) -> bool {
    evaluated(list[i], scope, floats) matches Ok(item) && compared(floats, value, item, Comparison::Eq) == Ok::<
        ValueView,
        ErrorView,
    >(ValueView::Boolean(true))
}

/// Whether it cannot be told whether a value equals the value of an item of a list.
pub open spec fn leaves_open(value: ValueView, list: Seq<ExprView>, i: int, scope: ScopeView, floats: Floats) -> bool {
    evaluated(list[i], scope, floats) matches Ok(item) && compared(floats, value, item, Comparison::Eq) == Ok::<
        ValueView,
        ErrorView,
    >(ValueView::Null)
}

proof fn lemma_members(
    value: ValueView,
    list: Seq<ExprView>,
    scope: ScopeView,
    floats: Floats,
    from: nat,
    found: bool,
    saw_null: bool,
)
    requires
        from <= list.len(),
    ensures
        list_members(value, list, scope, floats, from, found, saw_null) matches Ok((now, open)) ==> {
            &&& now == (found || exists|i: int| from <= i < list.len() && #[trigger] equals_item(value, list, i, scope, floats))
            &&& open == (saw_null || exists|i: int|
                from <= i < list.len() && #[trigger] leaves_open(value, list, i, scope, floats))
        },
    decreases list.len() - from,
{
    if from < list.len() {
        if let Ok(item) = evaluated(list[from as int], scope, floats) {
            if let Ok(equal) = compared(floats, value, item, Comparison::Eq) {
                lemma_members(
                    value,
                    list,
                    scope,
                    floats,
                    from + 1,
                    found || equal == ValueView::Boolean(true),
                    saw_null || equal is Null,
                );
                assert(equals_item(value, list, from as int, scope, floats) == (equal == ValueView::Boolean(true)));
                assert(leaves_open(value, list, from as int, scope, floats) == (equal is Null));
            }
        }
    }
}

/// `IN` is true where some item of the list is equal, else unknown where that cannot be told of an
/// item, and else false; `NOT IN` is its negation.
pub proof fn law_membership(inner: ExprView, list: Seq<ExprView>, value: ValueView, scope: ScopeView, floats: Floats)
    requires
        evaluated(inner, scope, floats) == Ok::<ValueView, ErrorView>(value),
        !(value is Null),
    ensures
        ({
            let of = |negated: bool| evaluated(ExprView::InList { expr: Box::new(inner), list, negated }, scope, floats);
            let found = exists|i: int| 0 <= i < list.len() && #[trigger] equals_item(value, list, i, scope, floats);
            let open = exists|i: int| 0 <= i < list.len() && #[trigger] leaves_open(value, list, i, scope, floats);
            of(false) is Ok ==> {
                &&& of(false) == told(if found { Some(true) } else if open { None } else { Some(false) })
                &&& of(true) == told(if found { Some(false) } else if open { None } else { Some(true) })
            }
        }),
{
    lemma_members(value, list, scope, floats, 0, false, false);
}

/// `LIKE` on texts tells whether the pattern matches, `NOT LIKE` the opposite, and `ILIKE` does so
/// after both are put in lower case.
pub proof fn law_like(
    inner: ExprView,
    pattern: ExprView,
    text: Seq<char>,
    wanted: Seq<char>,
    scope: ScopeView,
    floats: Floats,
)
    requires
        evaluated(inner, scope, floats) == Ok::<ValueView, ErrorView>(ValueView::Text(text)),
        evaluated(pattern, scope, floats) == Ok::<ValueView, ErrorView>(ValueView::Text(wanted)),
    ensures
        ({
            let of = |negated: bool, insensitive: bool|
                evaluated(
                    ExprView::Like {
                        expr: Box::new(inner),
                        pattern: Box::new(pattern),
                        negated,
                        escape: None,
                        insensitive,
                    },
                    scope,
                    floats,
                );
            &&& decided(of(false, false), like(text, wanted))
            &&& decided(of(true, false), !like(text, wanted))
            &&& decided(of(false, true), like(lowered(text), lowered(wanted)))
            &&& decided(of(true, true), !like(lowered(text), lowered(wanted)))
        }),
{
}

/// A pattern is matched from either end: `_` stands for exactly one character, `%` for any number of
/// them, and every other character for itself.
pub proof fn law_like_by_characters(text: Seq<char>, pattern: Seq<char>, last: char)
    ensures
        like(text, Seq::empty()) <==> text.len() == 0,
        like(text, pattern.push('_')) <==> text.len() > 0 && like(text.drop_last(), pattern),
        last != '%' && last != '_' ==> (like(text, pattern.push(last)) <==> text.len() > 0 && text.last() == last && like(
            text.drop_last(),
            pattern,
        )),
        like(text, seq!['%']),
{
    assert(pattern.push('_').drop_last() =~= pattern);
    assert(pattern.push(last).drop_last() =~= pattern);
    lemma_any(text);
}

proof fn lemma_any(text: Seq<char>)
    ensures
        like(text, seq!['%']),
    decreases text.len(),
{
    reveal_with_fuel(like, 2);
    assert(seq!['%'].drop_last() =~= Seq::<char>::empty());
    assert(seq!['%'].last() == '%');
    if text.len() > 0 {
        lemma_any(text.drop_last());
    }
}

/// The value of a column is that which the row holds in the first column of this name.
pub proof fn law_column_is_read(identifier: crate::ast::IdentView, text: Seq<char>, scope: ScopeView, floats: Floats, at: nat)
    requires
        scope.schema.sources is None,
        at < scope.schema.columns.len(),
        normalized(scope.schema.columns[at as int].name) == normalized(identifier.name()),
        forall|i: int|
            0 <= i < at ==> normalized((#[trigger] scope.schema.columns[i]).name) != normalized(identifier.name()),
    ensures
        evaluated(ExprView::Identifier(identifier, text), scope, floats) == Ok::<ValueView, ErrorView>(scope.row[at as int]),
{
    lemma_first_column(scope.schema.columns, identifier.name(), 0, at);
}

proof fn lemma_first_column(columns: Seq<crate::value::ColumnView>, name: Seq<char>, from: nat, at: nat)
    requires
        from <= at < columns.len(),
        normalized(columns[at as int].name) == normalized(name),
        forall|i: int| from <= i < at ==> normalized((#[trigger] columns[i]).name) != normalized(name),
    ensures
        crate::value::column_position(columns, name, from) == Some(at),
    decreases at - from,
{
    if from < at {
        lemma_first_column(columns, name, from + 1, at);
    }
}

/// `CAST` leaves a value of the type as it is, makes the nearest number of an integer, leaves `NULL`,
/// and refuses everything else.
pub proof fn law_cast(
    inner: ExprView,
    written: crate::ast::TypeNameView,
    formatted: bool,
    value: ValueView,
    scope: ScopeView,
    floats: Floats,
    bits: u64,
)
    requires
        evaluated(inner, scope, floats) == Ok::<ValueView, ErrorView>(value),
        logical_type(written) is Ok,
    ensures
        ({
            let cast = evaluated(ExprView::Cast { expr: Box::new(inner), data_type: written, formatted }, scope, floats);
            let kept = Ok::<ValueView, ErrorView>(value);
            match logical_type(written)->Ok_0 {
                DataType::Integer => if value is Integer || value is Null {
                    cast == kept
                } else {
                    cast is Err
                },
                DataType::Float => {
                    &&& value is Float || value is Null ==> cast == kept
                    &&& value matches ValueView::Integer(whole) ==> gives(floats, whole, bits) ==> cast == Ok::<
                        ValueView,
                        ErrorView,
                    >(ValueView::Float(bits))
                    &&& value is Text || value is Boolean || value is Vector ==> cast is Err
                },
                DataType::Text => if value is Text || value is Null {
                    cast == kept
                } else {
                    cast is Err
                },
                DataType::Boolean => if value is Boolean || value is Null {
                    cast == kept
                } else {
                    cast is Err
                },
                DataType::Vector(dimensions) => if value is Null || (value matches ValueView::Vector(elements) && elements.len()
                    == dimensions) {
                    cast == kept
                } else {
                    cast is Err
                },
            }
        }),
{
}

/// A literal is the value that it writes.
pub proof fn law_literals(literal: LiteralView, scope: ScopeView, floats: Floats, bits: u64)
    ensures
        ({
            let value = evaluated(ExprView::Value(literal), scope, floats);
            match literal {
                LiteralView::Null => value == Ok::<ValueView, ErrorView>(ValueView::Null),
                LiteralView::Boolean(flag) => value == Ok::<ValueView, ErrorView>(ValueView::Boolean(flag)),
                LiteralView::Text { form, text } => value == Ok::<ValueView, ErrorView>(ValueView::Text(text)),
                LiteralView::Number { digits, long } => if digits.contains('.') || digits.contains('e') || digits.contains('E') {
                    floats(FloatTaskView::Parse(digits)) == FloatReplyView::Number(bits) && finite(bits) ==> value == Ok::<
                        ValueView,
                        ErrorView,
                    >(ValueView::Float(bits))
                } else {
                    value matches Ok(found) ==> found is Integer
                },
                LiteralView::Other(_) => value is Err,
            }
        }),
{
}

} // verus!
