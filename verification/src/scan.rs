//! The rows that a condition leaves to be examined, found in the indexes of a table.

use vstd::prelude::*;
use crate::ast::{ident_name, ArgumentView, BinaryOperator, BinaryView, Expr, ExprView};
use crate::error::ErrorView;
use crate::eval::{argument_values, array_numbers, evaluate_constant, evaluated, list_members, ScopeView};
use crate::float::{computes, floats, FloatReply, FloatTask, Floats};
use crate::index::{
    ascending, common, indexable, intersect_sorted, law_intersection, law_union, lemma_matching, matching, merged,
    union_sorted,
};
use crate::operators::{coerce, coerced, compared, Comparison, OperatorKindView};
use crate::table::{valid_row, valid_value, IndexView, NamedIndex, Table, TableView};
use crate::text::{lemma_text_rank_same, lemma_views_push, views};
use crate::value::{
    find_column, found_column, key_of, lemma_column_position, lemma_row_views_push, type_of, DataType, UniqueKey, Value,
    ValueView,
};

verus! {

broadcast use {vstd::string::group_string_axioms, lemma_views_push, lemma_row_views_push};

/// Rows that a condition can select; `exact` says that it selects all of them.
pub struct IndexedCandidates {
    pub rows: Vec<usize>,
    pub exact: bool,
}

#[verifier::ext_equal]
pub struct CandidatesView {
    pub rows: Seq<usize>,
    pub exact: bool,
}

impl View for IndexedCandidates {
    type V = CandidatesView;

    open spec fn view(&self) -> CandidatesView {
        CandidatesView { rows: self.rows@, exact: self.exact }
    }
}

/// The name of the column that an expression refers to.
pub open spec fn referred_name(expression: ExprView) -> Option<Seq<char>> {
    match expression {
        ExprView::Identifier(identifier, _) => Some(identifier.name()),
        ExprView::CompoundIdentifier(parts, _) => if parts.len() == 0 {
            None
        } else {
            Some(parts.last().name())
        },
        _ => None,
    }
}

/// Whether an index, from `from` on, is on this column.
pub open spec fn has_index(indexes: Seq<IndexView>, column: nat, from: nat) -> bool
    decreases indexes.len() - from,
{
    from < indexes.len() && (indexes[from as int].column == column || has_index(indexes, column, from + 1))
}

/// The rows whose indexed column has the value.
pub open spec fn equality_rows(table: TableView, column: ExprView, value: ExprView, floats: Floats) -> Option<Seq<usize>> {
    match referred_name(column) {
        None => None,
        Some(name) => match found_column(table.columns, name) {
            Err(_) => None,
            Ok(at) => if !has_index(table.indexes, at, 0) {
                None
            } else {
                match evaluated(value, ScopeView::none(), floats) {
                    Err(_) => None,
                    Ok(value) => match coerced(floats, value, table.columns[at as int].data_type) {
                        Err(_) => None,
                        Ok(ValueView::Null) => Some(Seq::empty()),
                        Ok(ValueView::Vector(_)) => None,
                        Ok(value) => Some(matching(table.rows, at as int, key_of(value), table.rows.len())),
                    },
                }
            },
        },
    }
}

/// The rows that the indexes leave for a condition.
pub open spec fn index_candidates(table: TableView, condition: ExprView, floats: Floats) -> Option<CandidatesView>
    decreases condition,
{
    match condition {
        ExprView::BinaryOp(left, BinaryView::And, right) => match (
            index_candidates(table, *left, floats),
            index_candidates(table, *right, floats),
        ) {
            (Some(a), Some(b)) => Some(
                CandidatesView { rows: common(a.rows, b.rows, 0, 0, Seq::empty()), exact: a.exact && b.exact },
            ),
            (Some(a), None) => Some(CandidatesView { rows: a.rows, exact: false }),
            (None, Some(b)) => Some(CandidatesView { rows: b.rows, exact: false }),
            (None, None) => None,
        },
        ExprView::BinaryOp(left, BinaryView::Or, right) => match (
            index_candidates(table, *left, floats),
            index_candidates(table, *right, floats),
        ) {
            (Some(a), Some(b)) => Some(
                CandidatesView { rows: merged(a.rows, b.rows, 0, 0, Seq::empty()), exact: a.exact && b.exact },
            ),
            _ => None,
        },
        ExprView::BinaryOp(left, BinaryView::Eq, right) => match equality_rows(table, *left, *right, floats) {
            Some(rows) => Some(CandidatesView { rows, exact: true }),
            None => match equality_rows(table, *right, *left, floats) {
                Some(rows) => Some(CandidatesView { rows, exact: true }),
                None => None,
            },
        },
        ExprView::Nested(inner) => index_candidates(table, *inner, floats),
        _ => None,
    }
}

pub fn find_index_on(indexes: &Vec<NamedIndex>, column: usize) -> (result: Option<usize>)
    ensures
        match result {
            Some(at) => has_index(views(indexes@), column as nat, 0) && at < indexes@.len() && indexes@[at as int].index.column
                == column,
            None => !has_index(views(indexes@), column as nat, 0),
        },
{
    let mut at: usize = 0;
    while at < indexes.len()
        invariant
            at <= indexes@.len(),
            has_index(views(indexes@), column as nat, at as nat) == has_index(views(indexes@), column as nat, 0),
        decreases indexes@.len() - at,
    {
        assert(views(indexes@)[at as int] == indexes@[at as int]@);
        if indexes[at].index.column == column {
            return Some(at);
        }
        at = at + 1;
    }
    None
}

/// The rows whose indexed column has the value.
pub fn equality_index_lookup<F: Fn(FloatTask) -> FloatReply>(f: &F, table: &Table, column: &Expr, value: &Expr) -> (result:
    Option<Vec<usize>>)
    requires
        computes(*f),
        table.wf(),
    ensures
        match result {
            Some(rows) => equality_rows(table@, column@, value@, floats(*f)) == Some(rows@),
            None => equality_rows(table@, column@, value@, floats(*f)) is None,
        },
{
    let name = match column {
        Expr::Identifier(identifier, _) => ident_name(identifier),
        Expr::CompoundIdentifier(parts, _) => {
            if parts.len() == 0 {
                return None;
            }
            ident_name(&parts[parts.len() - 1])
        },
        _ => return None,
    };
    let at: usize = match find_column(&table.columns, name.as_str()) {
        Ok(at) => at,
        Err(_) => return None,
    };
    let position: usize = match find_index_on(&table.indexes, at) {
        Some(position) => position,
        None => return None,
    };
    let value = match evaluate_constant(f, value) {
        Ok(value) => value,
        Err(_) => return None,
    };
    assert(table@.columns[at as int] == table.columns@[at as int]@);
    let value = match coerce(f, value, table.columns[at].data_type) {
        Ok(value) => value,
        Err(_) => return None,
    };
    match &value {
        Value::Null => return Some(Vec::new()),
        Value::Vector(_) => return None,
        _ => {},
    }
    let key = UniqueKey::of(&value);
    let index = &table.indexes[position].index;
    assert(index.covers(table@.rows, table.rows@.len()));
    Some(index.lookup(&key))
}

/// The rows that the indexes leave for a condition.
pub fn indexed_candidate_rows<F: Fn(FloatTask) -> FloatReply>(f: &F, table: &Table, condition: &Expr) -> (result: Option<
    IndexedCandidates,
>)
    requires
        computes(*f),
        table.wf(),
    ensures
        match result {
            Some(candidates) => index_candidates(table@, condition@, floats(*f)) == Some(candidates@),
            None => index_candidates(table@, condition@, floats(*f)) is None,
        },
    decreases condition,
{
    match condition {
        Expr::BinaryOp(left, operator, right) => match operator {
            BinaryOperator::And => match (indexed_candidate_rows(f, table, left), indexed_candidate_rows(f, table, right)) {
                (Some(a), Some(b)) => Some(
                    IndexedCandidates { rows: intersect_sorted(&a.rows, &b.rows), exact: a.exact && b.exact },
                ),
                (Some(a), None) => Some(IndexedCandidates { rows: a.rows, exact: false }),
                (None, Some(b)) => Some(IndexedCandidates { rows: b.rows, exact: false }),
                (None, None) => None,
            },
            BinaryOperator::Or => match (indexed_candidate_rows(f, table, left), indexed_candidate_rows(f, table, right)) {
                (Some(a), Some(b)) => Some(
                    IndexedCandidates { rows: union_sorted(&a.rows, &b.rows), exact: a.exact && b.exact },
                ),
                _ => None,
            },
            BinaryOperator::Eq => match equality_index_lookup(f, table, left, right) {
                Some(rows) => Some(IndexedCandidates { rows, exact: true }),
                None => match equality_index_lookup(f, table, right, left) {
                    Some(rows) => Some(IndexedCandidates { rows, exact: true }),
                    None => None,
                },
            },
            _ => None,
        },
        Expr::Nested(inner) => indexed_candidate_rows(f, table, inner),
        _ => None,
    }
}

/// The rows that the indexes leave are in order and are rows of the table.
pub proof fn lemma_candidates_valid(table: TableView, condition: ExprView, floats: Floats)
    requires
        table.rows.len() <= usize::MAX,
    ensures
        index_candidates(table, condition, floats) matches Some(candidates) ==> ascending(candidates.rows) && forall|i: int|
            0 <= i < candidates.rows.len() ==> (#[trigger] candidates.rows[i]) < table.rows.len(),
    decreases condition,
{
    match condition {
        ExprView::BinaryOp(left, BinaryView::And, right) => {
            lemma_candidates_valid(table, *left, floats);
            lemma_candidates_valid(table, *right, floats);
            if let (Some(a), Some(b)) = (
                index_candidates(table, *left, floats),
                index_candidates(table, *right, floats),
            ) {
                law_intersection(a.rows, b.rows);
                let rows = common(a.rows, b.rows, 0, 0, Seq::empty());
                assert forall|i: int| 0 <= i < rows.len() implies (#[trigger] rows[i]) < table.rows.len() by {
                    assert(rows.contains(rows[i]));
                    assert(a.rows.contains(rows[i]));
                }
            }
        },
        ExprView::BinaryOp(left, BinaryView::Or, right) => {
            lemma_candidates_valid(table, *left, floats);
            lemma_candidates_valid(table, *right, floats);
            if let (Some(a), Some(b)) = (
                index_candidates(table, *left, floats),
                index_candidates(table, *right, floats),
            ) {
                law_union(a.rows, b.rows);
                let rows = merged(a.rows, b.rows, 0, 0, Seq::empty());
                assert forall|i: int| 0 <= i < rows.len() implies (#[trigger] rows[i]) < table.rows.len() by {
                    assert(rows.contains(rows[i]));
                    assert(a.rows.contains(rows[i]) || b.rows.contains(rows[i]));
                }
            }
        },
        ExprView::BinaryOp(left, BinaryView::Eq, right) => {
            lemma_equality_valid(table, *left, *right, floats);
            lemma_equality_valid(table, *right, *left, floats);
        },
        ExprView::Nested(inner) => lemma_candidates_valid(table, *inner, floats),
        _ => {},
    }
}

proof fn lemma_equality_valid(table: TableView, column: ExprView, value: ExprView, floats: Floats)
    requires
        table.rows.len() <= usize::MAX,
    ensures
        equality_rows(table, column, value, floats) matches Some(rows) ==> ascending(rows) && forall|i: int|
            0 <= i < rows.len() ==> (#[trigger] rows[i]) < table.rows.len(),
{
    if let Some(rows) = equality_rows(table, column, value, floats) {
        let at = found_column(table.columns, referred_name(column)->0)->Ok_0;
        let constant = coerced(
            floats,
            evaluated(value, ScopeView::none(), floats)->Ok_0,
            table.columns[at as int].data_type,
        )->Ok_0;
        if !(constant is Null) {
            lemma_matching(table.rows, at as int, key_of(constant), table.rows.len());
        }
    }
}

/// A constant has its value in every scope.
#[verifier::rlimit(60)]
pub proof fn law_constant(expression: ExprView, scope: ScopeView, floats: Floats)
    requires
        evaluated(expression, ScopeView::none(), floats) is Ok,
    ensures
        evaluated(expression, scope, floats) == evaluated(expression, ScopeView::none(), floats),
    decreases expression, 0nat,
{
    let none = ScopeView::none();
    match expression {
        ExprView::Nested(inner) => law_constant(*inner, scope, floats),
        ExprView::Array(items, _, _) => lemma_constant_array(items, scope, floats, 0, Seq::empty()),
        ExprView::Function(function) => {
            if !(function.distinct || function.modified) {
                lemma_constant_arguments(function.arguments, scope, floats, 0, Seq::empty());
            }
        },
        ExprView::BinaryOp(left, operator, right) => {
            law_constant(*left, scope, floats);
            if evaluated(*right, none, floats) is Ok {
                law_constant(*right, scope, floats);
            }
        },
        ExprView::UnaryOp(_, inner) => law_constant(*inner, scope, floats),
        ExprView::Test(_, inner) => law_constant(*inner, scope, floats),
        ExprView::Between { expr, low, high, .. } => {
            law_constant(*expr, scope, floats);
            law_constant(*low, scope, floats);
            law_constant(*high, scope, floats);
        },
        ExprView::InList { expr, list, .. } => {
            law_constant(*expr, scope, floats);
            let value = evaluated(*expr, none, floats)->Ok_0;
            lemma_constant_members(value, list, scope, floats, 0, false, value is Null);
        },
        ExprView::Like { expr, pattern, .. } => {
            law_constant(*expr, scope, floats);
            law_constant(*pattern, scope, floats);
        },
        ExprView::Cast { expr, .. } => law_constant(*expr, scope, floats),
        _ => {},
    }
}

proof fn lemma_constant_array(items: Seq<ExprView>, scope: ScopeView, floats: Floats, from: nat, done: Seq<Option<u64>>)
    requires
        array_numbers(items, ScopeView::none(), floats, from, done) is Ok,
    ensures
        array_numbers(items, scope, floats, from, done) == array_numbers(items, ScopeView::none(), floats, from, done),
    decreases items, (items.len() - from) as nat,
{
    if from < items.len() {
        law_constant(items[from as int], scope, floats);
        let value = evaluated(items[from as int], ScopeView::none(), floats)->Ok_0;
        lemma_constant_array(items, scope, floats, from + 1, done.push(value.as_number(floats)->Ok_0));
    }
}

proof fn lemma_constant_arguments(
    arguments: Seq<ArgumentView>,
    scope: ScopeView,
    floats: Floats,
    from: nat,
    done: Seq<ValueView>,
)
    requires
        argument_values(arguments, ScopeView::none(), floats, from, done) is Ok,
    ensures
        argument_values(arguments, scope, floats, from, done) == argument_values(
            arguments,
            ScopeView::none(),
            floats,
            from,
            done,
        ),
    decreases arguments, (arguments.len() - from) as nat,
{
    if from < arguments.len() {
        if let ArgumentView::Expr(expression) = arguments[from as int] {
            assert(decreases_to!(arguments => arguments[from as int]));
            law_constant(expression, scope, floats);
            let value = evaluated(expression, ScopeView::none(), floats)->Ok_0;
            lemma_constant_arguments(arguments, scope, floats, from + 1, done.push(value));
        }
    }
}

proof fn lemma_constant_members(
    value: ValueView,
    list: Seq<ExprView>,
    scope: ScopeView,
    floats: Floats,
    from: nat,
    found: bool,
    saw_null: bool,
)
    requires
        list_members(value, list, ScopeView::none(), floats, from, found, saw_null) is Ok,
    ensures
        list_members(value, list, scope, floats, from, found, saw_null) == list_members(
            value,
            list,
            ScopeView::none(),
            floats,
            from,
            found,
            saw_null,
        ),
    decreases list, (list.len() - from) as nat,
{
    if from < list.len() {
        law_constant(list[from as int], scope, floats);
        let item = evaluated(list[from as int], ScopeView::none(), floats)->Ok_0;
        let equal = compared(floats, value, item, Comparison::Eq)->Ok_0;
        lemma_constant_members(
            value,
            list,
            scope,
            floats,
            from + 1,
            found || equal == ValueView::Boolean(true),
            saw_null || equal is Null,
        );
    }
}

/// A stored value compares equal to a constant exactly when it has the constant's key, or the
/// comparison fails.
proof fn lemma_equal_key(floats: Floats, stored: ValueView, value: ValueView, data_type: DataType)
    requires
        type_of(stored) matches Some(found) ==> found == data_type,
        coerced(floats, value, data_type) is Ok,
        !(coerced(floats, value, data_type)->Ok_0 is Vector),
    ensures
        ({
            let constant = coerced(floats, value, data_type)->Ok_0;
            let same = indexable(stored) && indexable(constant) && key_of(stored) == key_of(constant);
            &&& compared(floats, stored, value, Comparison::Eq) matches Ok(equal) ==> same == (equal == ValueView::Boolean(
                true,
            ))
            &&& compared(floats, value, stored, Comparison::Eq) matches Ok(equal) ==> same == (equal == ValueView::Boolean(
                true,
            ))
        }),
{
    if let (ValueView::Text(a), ValueView::Text(b)) = (stored, value) {
        lemma_text_rank_same(a, b, 0);
        lemma_text_rank_same(b, a, 0);
        assert(a.skip(0) =~= a);
        assert(b.skip(0) =~= b);
    }
}

/// The value of a column reference in a row.
proof fn lemma_referred(table: TableView, column: ExprView, row: Seq<ValueView>, floats: Floats)
    requires
        referred_name(column) is Some,
        found_column(table.columns, referred_name(column)->0) is Ok,
    ensures
        evaluated(column, ScopeView::plain(table.columns, row), floats) == Ok::<ValueView, ErrorView>(
            row[found_column(table.columns, referred_name(column)->0)->Ok_0 as int],
        ),
{
}

proof fn lemma_equality_candidates(
    table: TableView,
    left: ExprView,
    right: ExprView,
    swapped: bool,
    position: usize,
    floats: Floats,
)
    requires
        table.valid(),
        table.rows.len() <= usize::MAX,
        position < table.rows.len(),
        equality_rows(
            table,
            if swapped {
                right
            } else {
                left
            },
            if swapped {
                left
            } else {
                right
            },
            floats,
        ) is Some,
    ensures
        ({
            let rows = equality_rows(
                table,
                if swapped {
                    right
                } else {
                    left
                },
                if swapped {
                    left
                } else {
                    right
                },
                floats,
            )->0;
            let condition = ExprView::BinaryOp(Box::new(left), BinaryView::Eq, Box::new(right));
            evaluated(condition, ScopeView::plain(table.columns, table.rows[position as int]), floats) matches Ok(found)
                ==> rows.contains(position) == (found == ValueView::Boolean(true))
        }),
{
    let (column, value) = if swapped {
        (right, left)
    } else {
        (left, right)
    };
    let row = table.rows[position as int];
    let scope = ScopeView::plain(table.columns, row);
    let at = found_column(table.columns, referred_name(column)->0)->Ok_0;
    lemma_column_position(table.columns, referred_name(column)->0, 0);
    let data_type = table.columns[at as int].data_type;
    let constant = evaluated(value, ScopeView::none(), floats)->Ok_0;
    law_constant(value, scope, floats);
    lemma_referred(table, column, row, floats);
    assert(valid_row(table.columns, row));
    assert(valid_value(table.columns[at as int], row[at as int]));
    lemma_equal_key(floats, row[at as int], constant, data_type);
    let coerced0 = coerced(floats, constant, data_type)->Ok_0;
    if !(coerced0 is Null) {
        lemma_matching(table.rows, at as int, key_of(coerced0), table.rows.len());
    }
    let condition = ExprView::BinaryOp(Box::new(left), BinaryView::Eq, Box::new(right));
    if swapped {
        assert(evaluated(condition, scope, floats) == compared(floats, constant, row[at as int], Comparison::Eq));
    } else {
        assert(evaluated(condition, scope, floats) == compared(floats, row[at as int], constant, Comparison::Eq));
    }
}

/// Every row that a condition selects is among those that the indexes leave for it; where the
/// indexes leave the exact rows, the condition selects each of them unless it fails.
#[verifier::rlimit(60)]
pub proof fn law_index_candidates(table: TableView, condition: ExprView, position: usize, floats: Floats)
    requires
        table.valid(),
        table.rows.len() <= usize::MAX,
        position < table.rows.len(),
        index_candidates(table, condition, floats) is Some,
    ensures
        ({
            let candidates = index_candidates(table, condition, floats)->0;
            let found = evaluated(condition, ScopeView::plain(table.columns, table.rows[position as int]), floats);
            &&& found == Ok::<ValueView, ErrorView>(ValueView::Boolean(true)) ==> candidates.rows.contains(position)
            &&& candidates.exact && candidates.rows.contains(position) && found is Ok ==> found == Ok::<ValueView, ErrorView>(
                ValueView::Boolean(true),
            )
        }),
    decreases condition,
{
    let scope = ScopeView::plain(table.columns, table.rows[position as int]);
    match condition {
        ExprView::BinaryOp(left, BinaryView::And, right) => {
            assert(BinaryView::And.kind() == OperatorKindView::And);
            lemma_candidates_valid(table, *left, floats);
            lemma_candidates_valid(table, *right, floats);
            match (index_candidates(table, *left, floats), index_candidates(table, *right, floats)) {
                (Some(a), Some(b)) => {
                    law_index_candidates(table, *left, position, floats);
                    law_index_candidates(table, *right, position, floats);
                    law_intersection(a.rows, b.rows);
                },
                (Some(_), None) => law_index_candidates(table, *left, position, floats),
                (None, Some(_)) => law_index_candidates(table, *right, position, floats),
                (None, None) => {},
            }
        },
        ExprView::BinaryOp(left, BinaryView::Or, right) => {
            assert(BinaryView::Or.kind() == OperatorKindView::Or);
            lemma_candidates_valid(table, *left, floats);
            lemma_candidates_valid(table, *right, floats);
            if let (Some(a), Some(b)) = (
                index_candidates(table, *left, floats),
                index_candidates(table, *right, floats),
            ) {
                law_index_candidates(table, *left, position, floats);
                law_index_candidates(table, *right, position, floats);
                law_union(a.rows, b.rows);
            }
        },
        ExprView::BinaryOp(left, BinaryView::Eq, right) => {
            assert(condition == ExprView::BinaryOp(Box::new(*left), BinaryView::Eq, Box::new(*right)));
            if equality_rows(table, *left, *right, floats) is Some {
                lemma_equality_candidates(table, *left, *right, false, position, floats);
            } else {
                lemma_equality_candidates(table, *left, *right, true, position, floats);
            }
        },
        ExprView::Nested(inner) => law_index_candidates(table, *inner, position, floats),
        _ => {},
    }
}

} // verus!
