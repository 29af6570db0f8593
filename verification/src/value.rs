//! SQL values, their types, and the columns that hold them.

use vstd::prelude::*;
use crate::error::{Error, ErrorView, outcome};
use crate::float::{
    compute_number, compute_text, computes, float_key, float_key_of, floats, not_a_number, notation, number,
    number_rank, rank_numbers, FloatReply, FloatTask, FloatTaskView, Floats,
};
use crate::text::{
    decimal_count, decimal_text, int_rank, join3, normalize_name, normalized, rank_text, signed_decimal,
    signed_decimal_text, text_rank, views, Rank,
};
use crate::vector::{element_key, element_key_of, same_elements, Vector};

verus! {

broadcast use vstd::string::group_string_axioms;

/// Logical types supported by the in-memory storage engine.
#[derive(Clone, Copy, Debug, PartialEq, Eq, Structural)]
pub enum DataType {
    Integer,
    Float,
    Text,
    Boolean,
    Vector(usize),
}

impl DataType {
    /// The SQL notation of the type.
    pub open spec fn notation(self) -> Seq<char> {
        match self {
            DataType::Integer => "INTEGER"@,
            DataType::Float => "DOUBLE"@,
            DataType::Text => "TEXT"@,
            DataType::Boolean => "BOOLEAN"@,
            DataType::Vector(dimensions) => "VECTOR("@ + decimal_text(dimensions as nat) + ")"@,
        }
    }

    /// The SQL notation of the type.
    pub fn to_text(&self) -> (text: String)
        ensures
            text@ == self.notation(),
    {
        match self {
            DataType::Integer => "INTEGER".to_owned(),
            DataType::Float => "DOUBLE".to_owned(),
            DataType::Text => "TEXT".to_owned(),
            DataType::Boolean => "BOOLEAN".to_owned(),
            DataType::Vector(dimensions) => join3("VECTOR(", decimal_count(*dimensions).as_str(), ")"),
        }
    }

    /// The name of the type's values.
    pub open spec fn value_name(self) -> Seq<char> {
        match self {
            DataType::Integer => "INTEGER"@,
            DataType::Float => "FLOAT"@,
            DataType::Text => "TEXT"@,
            DataType::Boolean => "BOOLEAN"@,
            DataType::Vector(_) => "VECTOR"@,
        }
    }
}

/// The name of the type's values.
pub fn declared_value_type_name(data_type: &DataType) -> (name: &'static str)
    ensures
        name@ == data_type.value_name(),
{
    match data_type {
        DataType::Integer => "INTEGER",
        DataType::Float => "FLOAT",
        DataType::Text => "TEXT",
        DataType::Boolean => "BOOLEAN",
        DataType::Vector(_) => "VECTOR",
    }
}

/// A stored SQL value. A floating-point number is held as its bit pattern.
#[derive(Debug)]
pub enum Value {
    Null,
    Integer(i64),
    Float(u64),
    Text(String),
    Boolean(bool),
    Vector(Vector),
}

/// A value with its text and its elements as sequences.
pub enum ValueView {
    Null,
    Integer(i64),
    Float(u64),
    Text(Seq<char>),
    Boolean(bool),
    Vector(Seq<u32>),
}

impl View for Value {
    type V = ValueView;

    open spec fn view(&self) -> ValueView {
        match self {
            Value::Null => ValueView::Null,
            Value::Integer(value) => ValueView::Integer(*value),
            Value::Float(bits) => ValueView::Float(*bits),
            Value::Text(text) => ValueView::Text(text@),
            Value::Boolean(value) => ValueView::Boolean(*value),
            Value::Vector(vector) => ValueView::Vector(vector@),
        }
    }
}

impl Clone for Value {
    fn clone(&self) -> (value: Value)
        ensures
            value@ == self@,
    {
        match self {
            Value::Null => Value::Null,
            Value::Integer(value) => Value::Integer(*value),
            Value::Float(bits) => Value::Float(*bits),
            Value::Text(text) => Value::Text(text.clone()),
            Value::Boolean(value) => Value::Boolean(*value),
            Value::Vector(vector) => Value::Vector(vector.share()),
        }
    }
}

impl ValueView {
    /// The name of the value's type.
    pub open spec fn kind_name(self) -> Seq<char> {
        match self {
            ValueView::Null => "NULL"@,
            ValueView::Integer(_) => "INTEGER"@,
            ValueView::Float(_) => "FLOAT"@,
            ValueView::Text(_) => "TEXT"@,
            ValueView::Boolean(_) => "BOOLEAN"@,
            ValueView::Vector(_) => "VECTOR"@,
        }
    }

    /// The truth value; none for `NULL`.
    pub open spec fn as_bool(self) -> Result<Option<bool>, ErrorView> {
        match self {
            ValueView::Boolean(value) => Ok(Some(value)),
            ValueView::Null => Ok(None),
            _ => Err(mismatch("BOOLEAN"@, self)),
        }
    }

    /// The number; none for `NULL`.
    pub open spec fn as_number(self, floats: Floats) -> Result<Option<u64>, ErrorView> {
        match self {
            ValueView::Integer(value) => Ok(Some(number(floats, FloatTaskView::FromInteger(value)))),
            ValueView::Float(bits) => Ok(Some(bits)),
            ValueView::Null => Ok(None),
            _ => Err(mismatch("numeric value"@, self)),
        }
    }

    /// The vector; none for `NULL`.
    pub open spec fn as_vector(self) -> Result<Option<Seq<u32>>, ErrorView> {
        match self {
            ValueView::Vector(elements) => Ok(Some(elements)),
            ValueView::Null => Ok(None),
            _ => Err(mismatch("VECTOR"@, self)),
        }
    }

    /// The text shown to a user.
    pub open spec fn notation(self, floats: Floats) -> Seq<char> {
        match self {
            ValueView::Null => "NULL"@,
            ValueView::Integer(value) => signed_decimal_text(value as int),
            ValueView::Float(bits) => notation(floats, FloatTaskView::Text(bits)),
            ValueView::Text(text) => text,
            ValueView::Boolean(value) => if value { "true"@ } else { "false"@ },
            ValueView::Vector(elements) => elements_text(floats, elements, 0, "["@) + "]"@,
        }
    }
}

/// The elements' notations from `from` on, separated by commas, after `done`.
pub open spec fn elements_text(floats: Floats, elements: Seq<u32>, from: nat, done: Seq<char>) -> Seq<char>
    decreases elements.len() - from,
{
    if from >= elements.len() {
        done
    } else {
        let separated = if from == 0 { done } else { done + ", "@ };
        elements_text(
            floats,
            elements,
            from + 1,
            separated + notation(floats, FloatTaskView::ElementText(elements[from as int])),
        )
    }
}

/// The error for a value of another type than expected.
pub open spec fn mismatch(expected: Seq<char>, found: ValueView) -> ErrorView {
    ErrorView::TypeMismatch { expected, found: found.kind_name() }
}

/// The error for a value of another type than expected.
pub fn type_mismatch(expected: &str, found: &Value) -> (error: Error)
    ensures
        error@ == mismatch(expected@, found@),
{
    Error::TypeMismatch { expected: expected.to_owned(), found: found.kind_name().to_owned() }
}

impl Value {
    pub fn is_null(&self) -> (null: bool)
        ensures
            null == (self@ is Null),
    {
        match self {
            Value::Null => true,
            _ => false,
        }
    }

    /// The name of the value's type.
    pub fn kind_name(&self) -> (name: &'static str)
        ensures
            name@ == self@.kind_name(),
    {
        match self {
            Value::Null => "NULL",
            Value::Integer(_) => "INTEGER",
            Value::Float(_) => "FLOAT",
            Value::Text(_) => "TEXT",
            Value::Boolean(_) => "BOOLEAN",
            Value::Vector(_) => "VECTOR",
        }
    }

    /// The truth value; none for `NULL`.
    pub fn as_bool(&self) -> (result: Result<Option<bool>, Error>)
        ensures
            outcome(result) == self@.as_bool(),
    {
        match self {
            Value::Boolean(value) => Ok(Some(*value)),
            Value::Null => Ok(None),
            value => Err(type_mismatch("BOOLEAN", value)),
        }
    }

    /// The number; none for `NULL`.
    pub fn as_number<F: Fn(FloatTask) -> FloatReply>(&self, f: &F) -> (result: Result<Option<u64>, Error>)
        requires
            computes(*f),
        ensures
            outcome(result) == self@.as_number(floats(*f)),
    {
        match self {
            Value::Integer(value) => Ok(Some(compute_number(f, FloatTask::FromInteger(*value)))),
            Value::Float(bits) => Ok(Some(*bits)),
            Value::Null => Ok(None),
            value => Err(type_mismatch("numeric value", value)),
        }
    }

    /// The vector; none for `NULL`.
    pub fn as_vector(&self) -> (result: Result<Option<&Vector>, Error>)
        ensures
            match result {
                Ok(Some(vector)) => self@.as_vector() == Ok::<Option<Seq<u32>>, ErrorView>(Some(vector@)),
                Ok(None) => self@.as_vector() == Ok::<Option<Seq<u32>>, ErrorView>(None),
                Err(error) => self@.as_vector() == Err::<Option<Seq<u32>>, ErrorView>(error@),
            },
    {
        match self {
            Value::Vector(vector) => Ok(Some(vector)),
            Value::Null => Ok(None),
            value => Err(type_mismatch("VECTOR", value)),
        }
    }

    /// The text shown to a user.
    pub fn to_text<F: Fn(FloatTask) -> FloatReply>(&self, f: &F) -> (text: String)
        requires
            computes(*f),
        ensures
            text@ == self@.notation(floats(*f)),
    {
        match self {
            Value::Null => "NULL".to_owned(),
            Value::Integer(value) => signed_decimal(*value),
            Value::Float(bits) => compute_text(f, FloatTask::Text(*bits)),
            Value::Text(text) => text.clone(),
            Value::Boolean(value) => if *value { "true".to_owned() } else { "false".to_owned() },
            Value::Vector(vector) => {
                let elements = vector.as_slice();
                let mut out = "[".to_owned();
                let mut index: usize = 0;
                while index < elements.len()
                    invariant
                        computes(*f),
                        index <= elements@.len(),
                        elements_text(floats(*f), elements@, index as nat, out@) == elements_text(
                            floats(*f),
                            elements@,
                            0,
                            "["@,
                        ),
                    decreases elements@.len() - index,
                {
                    if index != 0 {
                        out.append(", ");
                    }
                    let element = compute_text(f, FloatTask::ElementText(elements[index]));
                    out.append(element.as_str());
                    index = index + 1;
                }
                out.append("]");
                out
            },
        }
    }
}

/// The declared type of a value; none for `NULL`.
pub open spec fn type_of(value: ValueView) -> Option<DataType> {
    match value {
        ValueView::Null => None,
        ValueView::Integer(_) => Some(DataType::Integer),
        ValueView::Float(_) => Some(DataType::Float),
        ValueView::Text(_) => Some(DataType::Text),
        ValueView::Boolean(_) => Some(DataType::Boolean),
        ValueView::Vector(elements) => Some(DataType::Vector(elements.len() as usize)),
    }
}

/// The declared type of a value; none for `NULL`.
pub fn value_data_type(value: &Value) -> (data_type: Option<DataType>)
    ensures
        data_type == type_of(value@),
{
    match value {
        Value::Null => None,
        Value::Integer(_) => Some(DataType::Integer),
        Value::Float(_) => Some(DataType::Float),
        Value::Text(_) => Some(DataType::Text),
        Value::Boolean(_) => Some(DataType::Boolean),
        Value::Vector(vector) => Some(DataType::Vector(vector.dimensions())),
    }
}

/// Whether the two values are of one type and equal; `NULL` equals `NULL` here.
pub open spec fn same_value(left: ValueView, right: ValueView) -> bool {
    match (left, right) {
        (ValueView::Null, ValueView::Null) => true,
        (ValueView::Integer(a), ValueView::Integer(b)) => a == b,
        (ValueView::Float(a), ValueView::Float(b)) => number_rank(a, b) == Some(Rank::Same),
        (ValueView::Text(a), ValueView::Text(b)) => a == b,
        (ValueView::Boolean(a), ValueView::Boolean(b)) => a == b,
        (ValueView::Vector(a), ValueView::Vector(b)) => same_elements(a, b),
        _ => false,
    }
}

/// Whether the two values are of one type and equal; `NULL` equals `NULL` here.
pub fn is_same_value(left: &Value, right: &Value) -> (same: bool)
    ensures
        same == same_value(left@, right@),
{
    match (left, right) {
        (Value::Null, Value::Null) => true,
        (Value::Integer(a), Value::Integer(b)) => *a == *b,
        (Value::Float(a), Value::Float(b)) => match rank_numbers(*a, *b) {
            Some(Rank::Same) => true,
            _ => false,
        },
        (Value::Text(a), Value::Text(b)) => *a == *b,
        (Value::Boolean(a), Value::Boolean(b)) => *a == *b,
        (Value::Vector(a), Value::Vector(b)) => a.same_as(b),
        _ => false,
    }
}

/// A key under which equal values meet: the two zeros of a floating-point type are one key.
pub open spec fn key_of(value: ValueView) -> ValueView {
    match value {
        ValueView::Float(bits) => ValueView::Float(float_key(bits)),
        ValueView::Vector(elements) => ValueView::Vector(elements.map_values(|bits: u32| element_key(bits))),
        _ => value,
    }
}

/// The keys of a row's values.
pub open spec fn keys_of(values: Seq<ValueView>) -> Seq<ValueView> {
    values.map_values(|value: ValueView| key_of(value))
}

/// A hashable form of a value in which the two zeros of a floating-point type are one.
#[derive(Debug)]
pub enum UniqueKey {
    Null,
    Integer(i64),
    Float(u64),
    Text(String),
    Boolean(bool),
    Vector(Vec<u32>),
}

impl View for UniqueKey {
    type V = ValueView;

    open spec fn view(&self) -> ValueView {
        match self {
            UniqueKey::Null => ValueView::Null,
            UniqueKey::Integer(value) => ValueView::Integer(*value),
            UniqueKey::Float(bits) => ValueView::Float(*bits),
            UniqueKey::Text(text) => ValueView::Text(text@),
            UniqueKey::Boolean(value) => ValueView::Boolean(*value),
            UniqueKey::Vector(elements) => ValueView::Vector(elements@),
        }
    }
}

fn same_words(left: &Vec<u32>, right: &Vec<u32>) -> (same: bool)
    ensures
        same == (left@ == right@),
{
    if left.len() != right.len() {
        return false;
    }
    let mut index: usize = 0;
    while index < left.len()
        invariant
            left@.len() == right@.len(),
            index <= left@.len(),
            forall|i: int| 0 <= i < index ==> left@[i] == right@[i],
        decreases left@.len() - index,
    {
        if left[index] != right[index] {
            return false;
        }
        index = index + 1;
    }
    assert(left@ =~= right@);
    true
}

impl UniqueKey {
    /// The key of a value.
    pub fn of(value: &Value) -> (key: UniqueKey)
        ensures
            key@ == key_of(value@),
    {
        match value {
            Value::Null => UniqueKey::Null,
            Value::Integer(value) => UniqueKey::Integer(*value),
            Value::Float(bits) => UniqueKey::Float(float_key_of(*bits)),
            Value::Text(text) => UniqueKey::Text(text.clone()),
            Value::Boolean(value) => UniqueKey::Boolean(*value),
            Value::Vector(vector) => {
                let elements = vector.as_slice();
                let mut out: Vec<u32> = Vec::new();
                let mut index: usize = 0;
                while index < elements.len()
                    invariant
                        index <= elements@.len(),
                        out@ == elements@.map_values(|bits: u32| element_key(bits)).take(index as int),
                    decreases elements@.len() - index,
                {
                    out.push(element_key_of(elements[index]));
                    index = index + 1;
                    assert(out@ =~= elements@.map_values(|bits: u32| element_key(bits)).take(index as int));
                }
                assert(out@ =~= elements@.map_values(|bits: u32| element_key(bits)));
                UniqueKey::Vector(out)
            },
        }
    }

    pub fn same_as(&self, other: &UniqueKey) -> (same: bool)
        ensures
            same == (self@ == other@),
    {
        match (self, other) {
            (UniqueKey::Null, UniqueKey::Null) => true,
            (UniqueKey::Integer(a), UniqueKey::Integer(b)) => *a == *b,
            (UniqueKey::Float(a), UniqueKey::Float(b)) => *a == *b,
            (UniqueKey::Text(a), UniqueKey::Text(b)) => *a == *b,
            (UniqueKey::Boolean(a), UniqueKey::Boolean(b)) => *a == *b,
            (UniqueKey::Vector(a), UniqueKey::Vector(b)) => same_words(a, b),
            _ => false,
        }
    }
}

/// Whether two rows of keys are equal.
pub fn same_keys(left: &Vec<UniqueKey>, right: &Vec<UniqueKey>) -> (same: bool)
    ensures
        same == (views(left@) == views(right@)),
{
    if left.len() != right.len() {
        assert(views(left@).len() != views(right@).len());
        return false;
    }
    let mut index: usize = 0;
    while index < left.len()
        invariant
            left@.len() == right@.len(),
            index <= left@.len(),
            forall|i: int| 0 <= i < index ==> left@[i]@ == right@[i]@,
        decreases left@.len() - index,
    {
        if !left[index].same_as(&right[index]) {
            assert(views(left@)[index as int] != views(right@)[index as int]);
            return false;
        }
        index = index + 1;
    }
    assert(views(left@) =~= views(right@));
    true
}

/// The keys of a row's values.
pub fn row_keys(values: &Vec<Value>) -> (keys: Vec<UniqueKey>)
    ensures
        views(keys@) == keys_of(views(values@)),
{
    let mut out: Vec<UniqueKey> = Vec::new();
    let mut index: usize = 0;
    while index < values.len()
        invariant
            index <= values@.len(),
            out@.len() == index,
            forall|i: int| 0 <= i < index ==> out@[i]@ == key_of(values@[i]@),
        decreases values@.len() - index,
    {
        out.push(UniqueKey::of(&values[index]));
        index = index + 1;
    }
    assert(views(out@) =~= keys_of(views(values@)));
    out
}

/// Two values of one type that are no `NULL` and hold no non-numbers are equal exactly when
/// their keys are.
pub proof fn law_key_is_equality(left: ValueView, right: ValueView)
    requires
        left matches ValueView::Float(bits) ==> !not_a_number(bits),
        right matches ValueView::Float(bits) ==> !not_a_number(bits),
    ensures
        same_value(left, right) <==> key_of(left) == key_of(right),
{
    match (left, right) {
        (ValueView::Vector(a), ValueView::Vector(b)) => {
            let x = a.map_values(|bits: u32| element_key(bits));
            let y = b.map_values(|bits: u32| element_key(bits));
            if same_elements(a, b) {
                assert(x =~= y);
            } else if x == y {
                assert(a.len() == x.len() && b.len() == y.len());
                assert forall|i: int| 0 <= i < a.len() implies element_key(#[trigger] a[i]) == element_key(b[i]) by {
                    assert(x[i] == y[i]);
                }
            }
        },
        _ => {},
    }
}

/// The order in which `ORDER BY` puts two values: `NULL` first, numbers by size, text by code
/// point, `false` before `true`, and values of other pairs of types by the name of the type.
pub open spec fn sort_rank(floats: Floats, left: ValueView, right: ValueView) -> Rank {
    match (left, right) {
        (ValueView::Null, ValueView::Null) => Rank::Same,
        (ValueView::Null, _) => Rank::Before,
        (_, ValueView::Null) => Rank::After,
        (ValueView::Integer(a), ValueView::Integer(b)) => int_rank(a as int, b as int),
        (ValueView::Integer(a), ValueView::Float(b)) => known_rank(
            number_rank(number(floats, FloatTaskView::FromInteger(a)), b),
        ),
        (ValueView::Float(a), ValueView::Integer(b)) => known_rank(
            number_rank(a, number(floats, FloatTaskView::FromInteger(b))),
        ),
        (ValueView::Float(a), ValueView::Float(b)) => known_rank(number_rank(a, b)),
        (ValueView::Text(a), ValueView::Text(b)) => text_rank(a, b),
        (ValueView::Boolean(a), ValueView::Boolean(b)) => bool_rank(a, b),
        _ => text_rank(left.kind_name(), right.kind_name()),
    }
}

pub open spec fn known_rank(rank: Option<Rank>) -> Rank {
    match rank {
        Some(rank) => rank,
        None => Rank::Same,
    }
}

pub open spec fn bool_rank(left: bool, right: bool) -> Rank {
    if left == right {
        Rank::Same
    } else if right {
        Rank::Before
    } else {
        Rank::After
    }
}

pub fn rank_integers(left: i64, right: i64) -> (result: Rank)
    ensures
        result == int_rank(left as int, right as int),
{
    if left < right {
        Rank::Before
    } else if left == right {
        Rank::Same
    } else {
        Rank::After
    }
}

pub fn rank_bools(left: bool, right: bool) -> (result: Rank)
    ensures
        result == bool_rank(left, right),
{
    if left == right {
        Rank::Same
    } else if right {
        Rank::Before
    } else {
        Rank::After
    }
}

fn rank_or_same(rank: Option<Rank>) -> (result: Rank)
    ensures
        result == known_rank(rank),
{
    match rank {
        Some(rank) => rank,
        None => Rank::Same,
    }
}

/// The order in which `ORDER BY` puts two values.
pub fn compare_sort_values<F: Fn(FloatTask) -> FloatReply>(f: &F, left: &Value, right: &Value) -> (result: Rank)
    requires
        computes(*f),
    ensures
        result == sort_rank(floats(*f), left@, right@),
{
    match (left, right) {
        (Value::Null, Value::Null) => Rank::Same,
        (Value::Null, _) => Rank::Before,
        (_, Value::Null) => Rank::After,
        (Value::Integer(a), Value::Integer(b)) => rank_integers(*a, *b),
        (Value::Integer(a), Value::Float(b)) => rank_or_same(
            rank_numbers(compute_number(f, FloatTask::FromInteger(*a)), *b),
        ),
        (Value::Float(a), Value::Integer(b)) => rank_or_same(
            rank_numbers(*a, compute_number(f, FloatTask::FromInteger(*b))),
        ),
        (Value::Float(a), Value::Float(b)) => rank_or_same(rank_numbers(*a, *b)),
        (Value::Text(a), Value::Text(b)) => rank_text(a.as_str(), b.as_str()),
        (Value::Boolean(a), Value::Boolean(b)) => rank_bools(*a, *b),
        (left, right) => rank_text(left.kind_name(), right.kind_name()),
    }
}

/// A column in a table schema.
#[derive(Debug)]
pub struct Column {
    pub name: String,
    pub data_type: DataType,
    pub nullable: bool,
    pub unique: bool,
}

/// A column with its name as a character sequence.
#[verifier::ext_equal]
pub struct ColumnView {
    pub name: Seq<char>,
    pub data_type: DataType,
    pub nullable: bool,
    pub unique: bool,
}

impl View for Column {
    type V = ColumnView;

    open spec fn view(&self) -> ColumnView {
        ColumnView { name: self.name@, data_type: self.data_type, nullable: self.nullable, unique: self.unique }
    }
}

impl Clone for Column {
    fn clone(&self) -> (column: Column)
        ensures
            column@ == self@,
    {
        Column { name: self.name.clone(), data_type: self.data_type, nullable: self.nullable, unique: self.unique }
    }
}

/// The first column from `from` on whose name is `name` but for the case of ASCII letters.
pub open spec fn column_position(columns: Seq<ColumnView>, name: Seq<char>, from: nat) -> Option<nat>
    decreases columns.len() - from,
{
    if from >= columns.len() {
        None
    } else if normalized(columns[from as int].name) == normalized(name) {
        Some(from)
    } else {
        column_position(columns, name, from + 1)
    }
}

/// The first column of this name, or the error that there is none.
pub open spec fn found_column(columns: Seq<ColumnView>, name: Seq<char>) -> Result<nat, ErrorView> {
    match column_position(columns, name, 0) {
        Some(index) => Ok(index),
        None => Err(ErrorView::ColumnNotFound(normalized(name))),
    }
}

pub proof fn lemma_column_position(columns: Seq<ColumnView>, name: Seq<char>, from: nat)
    ensures
        column_position(columns, name, from) matches Some(index) ==> from <= index < columns.len()
            && normalized(columns[index as int].name) == normalized(name),
    decreases columns.len() - from,
{
    if from < columns.len() && normalized(columns[from as int].name) != normalized(name) {
        lemma_column_position(columns, name, from + 1);
    }
}

/// The first column of this name, or the error that there is none.
pub fn find_column(columns: &Vec<Column>, name: &str) -> (result: Result<usize, Error>)
    ensures
        match result {
            Ok(index) => found_column(views(columns@), name@) == Ok::<nat, ErrorView>(index as nat) && index < columns@.len(),
            Err(error) => found_column(views(columns@), name@) == Err::<nat, ErrorView>(error@),
        },
{
    let wanted = normalize_name(name);
    let mut index: usize = 0;
    while index < columns.len()
        invariant
            index <= columns@.len(),
            wanted@ == normalized(name@),
            column_position(views(columns@), name@, index as nat) == column_position(views(columns@), name@, 0),
        decreases columns@.len() - index,
    {
        let candidate = normalize_name(columns[index].name.as_str());
        if candidate == wanted {
            return Ok(index);
        }
        index = index + 1;
    }
    Err(Error::ColumnNotFound(wanted))
}

/// The views of a table's rows.
pub open spec fn row_views(rows: Seq<Vec<Value>>) -> Seq<Seq<ValueView>> {
    rows.map_values(|row: Vec<Value>| views(row@))
}

pub broadcast proof fn lemma_row_views_push(rows: Seq<Vec<Value>>, row: Vec<Value>)
    ensures
        #[trigger] row_views(rows.push(row)) == row_views(rows).push(views(row@)),
{
    assert(row_views(rows.push(row)) =~= row_views(rows).push(views(row@)));
}

/// A copy of a row.
pub fn copy_row(row: &Vec<Value>) -> (copy: Vec<Value>)
    ensures
        views(copy@) == views(row@),
{
    let mut out: Vec<Value> = Vec::new();
    let mut index: usize = 0;
    while index < row.len()
        invariant
            index <= row@.len(),
            out@.len() == index,
            forall|i: int| 0 <= i < index ==> out@[i]@ == row@[i]@,
        decreases row@.len() - index,
    {
        out.push(row[index].clone());
        index = index + 1;
    }
    assert(views(out@) =~= views(row@));
    out
}

/// A copy of rows.
pub fn copy_rows(rows: &Vec<Vec<Value>>) -> (copy: Vec<Vec<Value>>)
    ensures
        row_views(copy@) == row_views(rows@),
{
    let mut out: Vec<Vec<Value>> = Vec::new();
    let mut index: usize = 0;
    while index < rows.len()
        invariant
            index <= rows@.len(),
            out@.len() == index,
            forall|i: int| 0 <= i < index ==> views(out@[i]@) == views(rows@[i]@),
        decreases rows@.len() - index,
    {
        out.push(copy_row(&rows[index]));
        index = index + 1;
    }
    assert(row_views(out@) =~= row_views(rows@));
    out
}

/// A copy of columns.
pub fn copy_columns(columns: &Vec<Column>) -> (copy: Vec<Column>)
    ensures
        views(copy@) == views(columns@),
{
    let mut out: Vec<Column> = Vec::new();
    let mut index: usize = 0;
    while index < columns.len()
        invariant
            index <= columns@.len(),
            out@.len() == index,
            forall|i: int| 0 <= i < index ==> out@[i]@ == columns@[i]@,
        decreases columns@.len() - index,
    {
        out.push(columns[index].clone());
        index = index + 1;
    }
    assert(views(out@) =~= views(columns@));
    out
}

} // verus!
