//! The parts of a SQL statement that the engine reads.

use vstd::prelude::*;
use crate::text::{normalize_name, normalized, views};

verus! {

broadcast use vstd::string::group_string_axioms;

/// The view of an optional item.
pub open spec fn optional<T: View>(item: Option<T>) -> Option<T::V> {
    match item {
        Some(item) => Some(item@),
        None => None,
    }
}

/// An identifier; a quoted one keeps its case.
#[derive(Debug)]
pub struct Ident {
    pub value: String,
    pub quoted: bool,
}

#[verifier::ext_equal]
pub struct IdentView {
    pub value: Seq<char>,
    pub quoted: bool,
}

impl View for Ident {
    type V = IdentView;

    open spec fn view(&self) -> IdentView {
        IdentView { value: self.value@, quoted: self.quoted }
    }
}

impl IdentView {
    /// The name that the identifier refers to.
    pub open spec fn name(self) -> Seq<char> {
        if self.quoted {
            self.value
        } else {
            normalized(self.value)
        }
    }
}

/// The name that the identifier refers to.
pub fn ident_name(identifier: &Ident) -> (name: String)
    ensures
        name@ == identifier@.name(),
{
    if identifier.quoted {
        identifier.value.clone()
    } else {
        normalize_name(identifier.value.as_str())
    }
}

/// The name that the last part of a dotted name refers to; empty where there is no part.
pub open spec fn last_name(parts: Seq<IdentView>) -> Seq<char> {
    if parts.len() == 0 {
        Seq::empty()
    } else {
        parts.last().name()
    }
}

/// The name that the last part of a dotted name refers to; empty where there is no part.
pub fn object_name(parts: &Vec<Ident>) -> (name: String)
    ensures
        name@ == last_name(views(parts@)),
{
    if parts.len() == 0 {
        return String::new();
    }
    ident_name(&parts[parts.len() - 1])
}

/// A literal. Other forms of text literals than the plain one keep the name of their form.
#[derive(Debug)]
pub enum Literal {
    Number { digits: String, long: bool },
    Text { form: String, text: String },
    Boolean(bool),
    Null,
    Other(String),
}

pub enum LiteralView {
    Number { digits: Seq<char>, long: bool },
    Text { form: Seq<char>, text: Seq<char> },
    Boolean(bool),
    Null,
    Other(Seq<char>),
}

impl View for Literal {
    type V = LiteralView;

    open spec fn view(&self) -> LiteralView {
        match self {
            Literal::Number { digits, long } => LiteralView::Number { digits: digits@, long: *long },
            Literal::Text { form, text } => LiteralView::Text { form: form@, text: text@ },
            Literal::Boolean(value) => LiteralView::Boolean(*value),
            Literal::Null => LiteralView::Null,
            Literal::Other(text) => LiteralView::Other(text@),
        }
    }
}

#[derive(Debug)]
pub enum BinaryOperator {
    Plus,
    Minus,
    Multiply,
    Divide,
    Modulo,
    Eq,
    NotEq,
    Gt,
    GtEq,
    Lt,
    LtEq,
    And,
    Or,
    Custom(String),
    Other(String),
}

pub enum BinaryView {
    Plus,
    Minus,
    Multiply,
    Divide,
    Modulo,
    Eq,
    NotEq,
    Gt,
    GtEq,
    Lt,
    LtEq,
    And,
    Or,
    Custom(Seq<char>),
    Other(Seq<char>),
}

impl View for BinaryOperator {
    type V = BinaryView;

    open spec fn view(&self) -> BinaryView {
        match self {
            BinaryOperator::Plus => BinaryView::Plus,
            BinaryOperator::Minus => BinaryView::Minus,
            BinaryOperator::Multiply => BinaryView::Multiply,
            BinaryOperator::Divide => BinaryView::Divide,
            BinaryOperator::Modulo => BinaryView::Modulo,
            BinaryOperator::Eq => BinaryView::Eq,
            BinaryOperator::NotEq => BinaryView::NotEq,
            BinaryOperator::Gt => BinaryView::Gt,
            BinaryOperator::GtEq => BinaryView::GtEq,
            BinaryOperator::Lt => BinaryView::Lt,
            BinaryOperator::LtEq => BinaryView::LtEq,
            BinaryOperator::And => BinaryView::And,
            BinaryOperator::Or => BinaryView::Or,
            BinaryOperator::Custom(text) => BinaryView::Custom(text@),
            BinaryOperator::Other(text) => BinaryView::Other(text@),
        }
    }
}

impl BinaryView {
    /// The SQL notation of the operator.
    pub open spec fn notation(self) -> Seq<char> {
        match self {
            BinaryView::Plus => "+"@,
            BinaryView::Minus => "-"@,
            BinaryView::Multiply => "*"@,
            BinaryView::Divide => "/"@,
            BinaryView::Modulo => "%"@,
            BinaryView::Eq => "="@,
            BinaryView::NotEq => "<>"@,
            BinaryView::Gt => ">"@,
            BinaryView::GtEq => ">="@,
            BinaryView::Lt => "<"@,
            BinaryView::LtEq => "<="@,
            BinaryView::And => "AND"@,
            BinaryView::Or => "OR"@,
            BinaryView::Custom(text) => text,
            BinaryView::Other(text) => text,
        }
    }
}

impl BinaryOperator {
    /// The SQL notation of the operator.
    pub fn to_text(&self) -> (text: String)
        ensures
            text@ == self@.notation(),
    {
        match self {
            BinaryOperator::Plus => "+".to_owned(),
            BinaryOperator::Minus => "-".to_owned(),
            BinaryOperator::Multiply => "*".to_owned(),
            BinaryOperator::Divide => "/".to_owned(),
            BinaryOperator::Modulo => "%".to_owned(),
            BinaryOperator::Eq => "=".to_owned(),
            BinaryOperator::NotEq => "<>".to_owned(),
            BinaryOperator::Gt => ">".to_owned(),
            BinaryOperator::GtEq => ">=".to_owned(),
            BinaryOperator::Lt => "<".to_owned(),
            BinaryOperator::LtEq => "<=".to_owned(),
            BinaryOperator::And => "AND".to_owned(),
            BinaryOperator::Or => "OR".to_owned(),
            BinaryOperator::Custom(text) => text.clone(),
            BinaryOperator::Other(text) => text.clone(),
        }
    }
}

#[derive(Debug)]
pub enum UnaryOperator {
    Plus,
    Minus,
    Not,
    Other(String),
}

pub enum UnaryView {
    Plus,
    Minus,
    Not,
    Other(Seq<char>),
}

impl View for UnaryOperator {
    type V = UnaryView;

    open spec fn view(&self) -> UnaryView {
        match self {
            UnaryOperator::Plus => UnaryView::Plus,
            UnaryOperator::Minus => UnaryView::Minus,
            UnaryOperator::Not => UnaryView::Not,
            UnaryOperator::Other(text) => UnaryView::Other(text@),
        }
    }
}

/// A type as a statement writes it: the form of the type, a user-defined name with its
/// modifiers where the form is a custom one, and the whole notation.
#[derive(Debug)]
pub struct TypeName {
    pub form: String,
    pub name: Vec<Ident>,
    pub modifiers: Vec<String>,
    pub text: String,
}

#[verifier::ext_equal]
pub struct TypeNameView {
    pub form: Seq<char>,
    pub name: Seq<IdentView>,
    pub modifiers: Seq<Seq<char>>,
    pub text: Seq<char>,
}

impl View for TypeName {
    type V = TypeNameView;

    open spec fn view(&self) -> TypeNameView {
        TypeNameView {
            form: self.form@,
            name: views(self.name@),
            modifiers: views(self.modifiers@),
            text: self.text@,
        }
    }
}

/// A test of one expression.
#[derive(Clone, Copy, Debug, PartialEq, Eq, Structural)]
pub enum Test {
    IsNull,
    IsNotNull,
    IsTrue,
    IsFalse,
    IsNotTrue,
    IsNotFalse,
}

/// A function call. `modified` says that it has a filter, a window or an ordering.
#[derive(Debug)]
pub struct Function {
    pub name: Vec<Ident>,
    pub name_text: String,
    pub arguments: Vec<Argument>,
    pub distinct: bool,
    pub modified: bool,
    pub special: bool,
    pub null_treatment: bool,
    pub text: String,
}

#[derive(Debug)]
pub enum Argument {
    Expr(Expr),
    Wildcard(String),
    Named(String),
}

/// An expression. Where an error message quotes an expression, its notation is held with it.
#[derive(Debug)]
pub enum Expr {
    Identifier(Ident, String),
    CompoundIdentifier(Vec<Ident>, String),
    Value(Literal),
    Nested(Box<Expr>),
    Array(Vec<Expr>, bool, String),
    Function(Function),
    BinaryOp(Box<Expr>, BinaryOperator, Box<Expr>),
    UnaryOp(UnaryOperator, Box<Expr>),
    Test(Test, Box<Expr>),
    Between { expr: Box<Expr>, negated: bool, low: Box<Expr>, high: Box<Expr> },
    InList { expr: Box<Expr>, list: Vec<Expr>, negated: bool },
    Like { expr: Box<Expr>, pattern: Box<Expr>, negated: bool, escape: Option<char>, insensitive: bool },
    Cast { expr: Box<Expr>, data_type: TypeName, formatted: bool },
    Other(String),
}

pub struct FunctionView {
    pub name: Seq<IdentView>,
    pub name_text: Seq<char>,
    pub arguments: Seq<ArgumentView>,
    pub distinct: bool,
    pub modified: bool,
    pub special: bool,
    pub null_treatment: bool,
    pub text: Seq<char>,
}

pub enum ArgumentView {
    Expr(ExprView),
    Wildcard(Seq<char>),
    Named(Seq<char>),
}

#[allow(inconsistent_fields)]
pub enum ExprView {
    Identifier(IdentView, Seq<char>),
    CompoundIdentifier(Seq<IdentView>, Seq<char>),
    Value(LiteralView),
    Nested(Box<ExprView>),
    Array(Seq<ExprView>, bool, Seq<char>),
    Function(FunctionView),
    BinaryOp(Box<ExprView>, BinaryView, Box<ExprView>),
    UnaryOp(UnaryView, Box<ExprView>),
    Test(Test, Box<ExprView>),
    Between { expr: Box<ExprView>, negated: bool, low: Box<ExprView>, high: Box<ExprView> },
    InList { expr: Box<ExprView>, list: Seq<ExprView>, negated: bool },
    Like { expr: Box<ExprView>, pattern: Box<ExprView>, negated: bool, escape: Option<char>, insensitive: bool },
    Cast { expr: Box<ExprView>, data_type: TypeNameView, formatted: bool },
    Other(Seq<char>),
}

pub open spec fn expr_view(e: Expr) -> ExprView
    decreases e,
{
    match e {
        Expr::Identifier(name, text) => ExprView::Identifier(name@, text@),
        Expr::CompoundIdentifier(names, text) => ExprView::CompoundIdentifier(views(names@), text@),
        Expr::Value(literal) => ExprView::Value(literal@),
        Expr::Nested(inner) => ExprView::Nested(Box::new(expr_view(*inner))),
        Expr::Array(items, named, text) => ExprView::Array(expr_views(items@), named, text@),
        Expr::Function(function) => ExprView::Function(function_view(function)),
        Expr::BinaryOp(left, op, right) => ExprView::BinaryOp(
            Box::new(expr_view(*left)),
            op@,
            Box::new(expr_view(*right)),
        ),
        Expr::UnaryOp(op, inner) => ExprView::UnaryOp(op@, Box::new(expr_view(*inner))),
        Expr::Test(test, inner) => ExprView::Test(test, Box::new(expr_view(*inner))),
        Expr::Between { expr, negated, low, high } => ExprView::Between {
            expr: Box::new(expr_view(*expr)),
            negated,
            low: Box::new(expr_view(*low)),
            high: Box::new(expr_view(*high)),
        },
        Expr::InList { expr, list, negated } => ExprView::InList {
            expr: Box::new(expr_view(*expr)),
            list: expr_views(list@),
            negated,
        },
        Expr::Like { expr, pattern, negated, escape, insensitive } => ExprView::Like {
            expr: Box::new(expr_view(*expr)),
            pattern: Box::new(expr_view(*pattern)),
            negated,
            escape,
            insensitive,
        },
        Expr::Cast { expr, data_type, formatted } => ExprView::Cast {
            expr: Box::new(expr_view(*expr)),
            data_type: data_type@,
            formatted,
        },
        Expr::Other(text) => ExprView::Other(text@),
    }
}

pub open spec fn expr_views(items: Seq<Expr>) -> Seq<ExprView>
    decreases items,
{
    Seq::new(
        items.len(),
        |i: int|
            if 0 <= i < items.len() {
                expr_view(items[i])
            } else {
                arbitrary()
            },
    )
}

pub open spec fn function_view(function: Function) -> FunctionView
    decreases function,
{
    FunctionView {
        name: views(function.name@),
        name_text: function.name_text@,
        arguments: argument_views(function.arguments@),
        distinct: function.distinct,
        modified: function.modified,
        special: function.special,
        null_treatment: function.null_treatment,
        text: function.text@,
    }
}

pub open spec fn argument_view(argument: Argument) -> ArgumentView
    decreases argument,
{
    match argument {
        Argument::Expr(expr) => ArgumentView::Expr(expr_view(expr)),
        Argument::Wildcard(text) => ArgumentView::Wildcard(text@),
        Argument::Named(text) => ArgumentView::Named(text@),
    }
}

pub open spec fn argument_views(items: Seq<Argument>) -> Seq<ArgumentView>
    decreases items,
{
    Seq::new(
        items.len(),
        |i: int|
            if 0 <= i < items.len() {
                argument_view(items[i])
            } else {
                arbitrary()
            },
    )
}

impl View for Expr {
    type V = ExprView;

    open spec fn view(&self) -> ExprView {
        expr_view(*self)
    }
}

impl View for Function {
    type V = FunctionView;

    open spec fn view(&self) -> FunctionView {
        function_view(*self)
    }
}

impl View for Argument {
    type V = ArgumentView;

    open spec fn view(&self) -> ArgumentView {
        argument_view(*self)
    }
}

/// An expression with its notation.
#[derive(Debug)]
pub struct Phrase {
    pub expr: Expr,
    pub text: String,
}

pub struct PhraseView {
    pub expr: ExprView,
    pub text: Seq<char>,
}

impl View for Phrase {
    type V = PhraseView;

    open spec fn view(&self) -> PhraseView {
        PhraseView { expr: self.expr@, text: self.text@ }
    }
}

/// One item of `ORDER BY`.
#[derive(Debug)]
pub struct OrderItem {
    pub expr: Expr,
    pub ascending: Option<bool>,
    pub nulls_first: Option<bool>,
    pub text: String,
}

pub struct OrderView {
    pub expr: ExprView,
    pub ascending: Option<bool>,
    pub nulls_first: Option<bool>,
    pub text: Seq<char>,
}

impl View for OrderItem {
    type V = OrderView;

    open spec fn view(&self) -> OrderView {
        OrderView {
            expr: self.expr@,
            ascending: self.ascending,
            nulls_first: self.nulls_first,
            text: self.text@,
        }
    }
}

impl OrderView {
    pub open spec fn descending(self) -> bool {
        self.ascending == Some(false)
    }

    /// Whether `NULL` comes first.
    pub open spec fn nulls_lead(self) -> bool {
        match self.nulls_first {
            Some(first) => first,
            None => self.descending(),
        }
    }
}

/// One item of a `SELECT` list. A wildcard is plain where it has no further options.
#[derive(Debug)]
pub enum SelectItem {
    Unnamed(Phrase),
    Aliased(Expr, Ident),
    Wildcard { qualifier: Option<Vec<Ident>>, plain: bool, text: String },
}

pub enum SelectItemView {
    Unnamed(PhraseView),
    Aliased(ExprView, IdentView),
    Wildcard { qualifier: Option<Seq<IdentView>>, plain: bool, text: Seq<char> },
}

impl View for SelectItem {
    type V = SelectItemView;

    open spec fn view(&self) -> SelectItemView {
        match self {
            SelectItem::Unnamed(phrase) => SelectItemView::Unnamed(phrase@),
            SelectItem::Aliased(expr, alias) => SelectItemView::Aliased(expr@, alias@),
            SelectItem::Wildcard { qualifier, plain, text } => SelectItemView::Wildcard {
                qualifier: match qualifier {
                    Some(names) => Some(views(names@)),
                    None => None,
                },
                plain: *plain,
                text: text@,
            },
        }
    }
}

/// A source of rows. `decorated` says that a table has hints, a version or partitions.
#[derive(Debug)]
pub enum Relation {
    Table { name: Vec<Ident>, called: bool, decorated: bool, alias: Option<Alias>, text: String },
    Other(String),
}

/// The alias of a source, and whether it renames columns.
#[derive(Debug)]
pub struct Alias {
    pub name: Ident,
    pub renames: bool,
}

#[verifier::ext_equal]
pub struct AliasView {
    pub name: IdentView,
    pub renames: bool,
}

impl View for Alias {
    type V = AliasView;

    open spec fn view(&self) -> AliasView {
        AliasView { name: self.name@, renames: self.renames }
    }
}

pub enum RelationView {
    Table { name: Seq<IdentView>, called: bool, decorated: bool, alias: Option<AliasView>, text: Seq<char> },
    Other(Seq<char>),
}

impl View for Relation {
    type V = RelationView;

    open spec fn view(&self) -> RelationView {
        match self {
            Relation::Table { name, called, decorated, alias, text } => RelationView::Table {
                name: views(name@),
                called: *called,
                decorated: *decorated,
                alias: optional(*alias),
                text: text@,
            },
            Relation::Other(text) => RelationView::Other(text@),
        }
    }
}

#[derive(Debug)]
pub enum JoinOperator {
    Inner(Expr),
    LeftOuter(Expr),
    Other,
}

pub enum JoinOperatorView {
    Inner(ExprView),
    LeftOuter(ExprView),
    Other,
}

impl View for JoinOperator {
    type V = JoinOperatorView;

    open spec fn view(&self) -> JoinOperatorView {
        match self {
            JoinOperator::Inner(on) => JoinOperatorView::Inner(on@),
            JoinOperator::LeftOuter(on) => JoinOperatorView::LeftOuter(on@),
            JoinOperator::Other => JoinOperatorView::Other,
        }
    }
}

#[derive(Debug)]
pub struct Join {
    pub relation: Relation,
    pub operator: JoinOperator,
}

pub struct JoinView {
    pub relation: RelationView,
    pub operator: JoinOperatorView,
}

impl View for Join {
    type V = JoinView;

    open spec fn view(&self) -> JoinView {
        JoinView { relation: self.relation@, operator: self.operator@ }
    }
}

/// One item of `FROM`.
#[derive(Debug)]
pub struct TableWithJoins {
    pub relation: Relation,
    pub joins: Vec<Join>,
}

pub struct TableWithJoinsView {
    pub relation: RelationView,
    pub joins: Seq<JoinView>,
}

impl View for TableWithJoins {
    type V = TableWithJoinsView;

    open spec fn view(&self) -> TableWithJoinsView {
        TableWithJoinsView { relation: self.relation@, joins: views(self.joins@) }
    }
}

#[derive(Clone, Copy, Debug, PartialEq, Eq, Structural)]
pub enum Distinct {
    No,
    Rows,
    On,
}

/// A `SELECT`. `advanced` says that it has a clause beyond those held here; `group_by` is none
/// for `GROUP BY ALL`.
#[derive(Debug)]
pub struct Select {
    pub distinct: Distinct,
    pub advanced: bool,
    pub projection: Vec<SelectItem>,
    pub from: Vec<TableWithJoins>,
    pub selection: Option<Phrase>,
    pub group_by: Option<Vec<Phrase>>,
    pub having: Option<Phrase>,
}

pub struct SelectView {
    pub distinct: Distinct,
    pub advanced: bool,
    pub projection: Seq<SelectItemView>,
    pub from: Seq<TableWithJoinsView>,
    pub selection: Option<PhraseView>,
    pub group_by: Option<Seq<PhraseView>>,
    pub having: Option<PhraseView>,
}

impl View for Select {
    type V = SelectView;

    open spec fn view(&self) -> SelectView {
        SelectView {
            distinct: self.distinct,
            advanced: self.advanced,
            projection: views(self.projection@),
            from: views(self.from@),
            selection: optional(self.selection),
            group_by: match self.group_by {
                Some(items) => Some(views(items@)),
                None => None,
            },
            having: optional(self.having),
        }
    }
}

#[derive(Debug)]
pub enum Body {
    Select(Select),
    Values(Vec<Vec<Expr>>),
    Other,
}

pub enum BodyView {
    Select(SelectView),
    Values(Seq<Seq<ExprView>>),
    Other,
}

impl View for Body {
    type V = BodyView;

    open spec fn view(&self) -> BodyView {
        match self {
            Body::Select(select) => BodyView::Select(select@),
            Body::Values(rows) => BodyView::Values(rows@.map_values(|row: Vec<Expr>| views(row@))),
            Body::Other => BodyView::Other,
        }
    }
}

/// A query. `extended` says that it has a `WITH`, a `LIMIT BY`, a `FETCH`, a lock or a `FOR`
/// clause.
#[derive(Debug)]
pub struct Query {
    pub extended: bool,
    pub body: Body,
    pub order_by: Vec<OrderItem>,
    pub limit: Option<Expr>,
    pub offset: Option<Expr>,
}

pub struct QueryView {
    pub extended: bool,
    pub body: BodyView,
    pub order_by: Seq<OrderView>,
    pub limit: Option<ExprView>,
    pub offset: Option<ExprView>,
}

impl View for Query {
    type V = QueryView;

    open spec fn view(&self) -> QueryView {
        QueryView {
            extended: self.extended,
            body: self.body@,
            order_by: views(self.order_by@),
            limit: optional(self.limit),
            offset: optional(self.offset),
        }
    }
}

/// `SET target = value`; the last part of the target names the column.
#[derive(Debug)]
pub struct Assignment {
    pub target: Vec<Ident>,
    pub value: Expr,
}

pub struct AssignmentView {
    pub target: Seq<IdentView>,
    pub value: ExprView,
}

impl View for Assignment {
    type V = AssignmentView;

    open spec fn view(&self) -> AssignmentView {
        AssignmentView { target: views(self.target@), value: self.value@ }
    }
}

/// What `ON CONFLICT DO UPDATE` changes, and of which rows.
#[derive(Debug)]
pub struct DoUpdate {
    pub assignments: Vec<Assignment>,
    pub selection: Option<Expr>,
}

pub struct DoUpdateView {
    pub assignments: Seq<AssignmentView>,
    pub selection: Option<ExprView>,
}

impl View for DoUpdate {
    type V = DoUpdateView;

    open spec fn view(&self) -> DoUpdateView {
        DoUpdateView { assignments: views(self.assignments@), selection: optional(self.selection) }
    }
}

#[derive(Debug)]
pub enum ConflictTarget {
    Columns(Vec<Ident>),
    Constraint,
}

pub enum ConflictTargetView {
    Columns(Seq<IdentView>),
    Constraint,
}

impl View for ConflictTarget {
    type V = ConflictTargetView;

    open spec fn view(&self) -> ConflictTargetView {
        match self {
            ConflictTarget::Columns(columns) => ConflictTargetView::Columns(views(columns@)),
            ConflictTarget::Constraint => ConflictTargetView::Constraint,
        }
    }
}

/// The conflict clause of an `INSERT`.
#[derive(Debug)]
pub enum OnInsert {
    DuplicateKeyUpdate,
    DoNothing(Option<ConflictTarget>),
    DoUpdate(Option<ConflictTarget>, DoUpdate),
}

pub enum OnInsertView {
    DuplicateKeyUpdate,
    DoNothing(Option<ConflictTargetView>),
    DoUpdate(Option<ConflictTargetView>, DoUpdateView),
}

impl View for OnInsert {
    type V = OnInsertView;

    open spec fn view(&self) -> OnInsertView {
        match self {
            OnInsert::DuplicateKeyUpdate => OnInsertView::DuplicateKeyUpdate,
            OnInsert::DoNothing(target) => OnInsertView::DoNothing(optional(*target)),
            OnInsert::DoUpdate(target, update) => OnInsertView::DoUpdate(optional(*target), update@),
        }
    }
}

#[derive(Debug)]
pub enum ColumnOption {
    Null,
    NotNull,
    Unique { is_primary: bool },
    Comment,
    Other(String),
}

pub enum ColumnOptionView {
    Null,
    NotNull,
    Unique { is_primary: bool },
    Comment,
    Other(Seq<char>),
}

impl View for ColumnOption {
    type V = ColumnOptionView;

    open spec fn view(&self) -> ColumnOptionView {
        match self {
            ColumnOption::Null => ColumnOptionView::Null,
            ColumnOption::NotNull => ColumnOptionView::NotNull,
            ColumnOption::Unique { is_primary } => ColumnOptionView::Unique { is_primary: *is_primary },
            ColumnOption::Comment => ColumnOptionView::Comment,
            ColumnOption::Other(text) => ColumnOptionView::Other(text@),
        }
    }
}

#[derive(Debug)]
pub struct ColumnDef {
    pub name: Ident,
    pub data_type: TypeName,
    pub options: Vec<ColumnOption>,
}

pub struct ColumnDefView {
    pub name: IdentView,
    pub data_type: TypeNameView,
    pub options: Seq<ColumnOptionView>,
}

impl View for ColumnDef {
    type V = ColumnDefView;

    open spec fn view(&self) -> ColumnDefView {
        ColumnDefView { name: self.name@, data_type: self.data_type@, options: views(self.options@) }
    }
}

#[derive(Debug)]
pub enum TableConstraint {
    Unique { columns: Vec<Ident>, is_primary: bool },
    Other(String),
}

pub enum TableConstraintView {
    Unique { columns: Seq<IdentView>, is_primary: bool },
    Other(Seq<char>),
}

impl View for TableConstraint {
    type V = TableConstraintView;

    open spec fn view(&self) -> TableConstraintView {
        match self {
            TableConstraint::Unique { columns, is_primary } => TableConstraintView::Unique {
                columns: views(columns@),
                is_primary: *is_primary,
            },
            TableConstraint::Other(text) => TableConstraintView::Other(text@),
        }
    }
}

/// What `DROP` drops.
#[derive(Debug)]
pub enum DropKind {
    Table,
    Index,
    Other(String),
}

pub enum DropKindView {
    Table,
    Index,
    Other(Seq<char>),
}

impl View for DropKind {
    type V = DropKindView;

    open spec fn view(&self) -> DropKindView {
        match self {
            DropKind::Table => DropKindView::Table,
            DropKind::Index => DropKindView::Index,
            DropKind::Other(text) => DropKindView::Other(text@),
        }
    }
}

/// A statement. `from_query` says that a table is created from a query; `returning`, `formatted`,
/// `special`, `extended` and `modified` say that a statement has clauses beyond those held here.
#[derive(Debug)]
#[allow(inconsistent_fields)]
pub enum Statement {
    CreateTable {
        name: Vec<Ident>,
        columns: Vec<ColumnDef>,
        constraints: Vec<TableConstraint>,
        if_not_exists: bool,
        from_query: bool,
    },
    Insert {
        table_name: Vec<Ident>,
        columns: Vec<Ident>,
        source: Option<Query>,
        on_insert: Option<OnInsert>,
        returning: bool,
    },
    Query(Query),
    Explain { analyze: bool, verbose: bool, formatted: bool, query: Option<Query> },
    CreateIndex {
        name: Option<Vec<Ident>>,
        table_name: Vec<Ident>,
        method: Option<Ident>,
        columns: Vec<OrderItem>,
        if_not_exists: bool,
        special: bool,
    },
    Update { table: TableWithJoins, assignments: Vec<Assignment>, selection: Option<Expr>, extended: bool },
    Delete { from: Vec<TableWithJoins>, selection: Option<Expr>, extended: bool },
    Drop { kind: DropKind, names: Vec<Vec<Ident>>, if_exists: bool, modified: bool },
    Other(String),
}

#[allow(inconsistent_fields)]
pub enum StatementView {
    CreateTable {
        name: Seq<IdentView>,
        columns: Seq<ColumnDefView>,
        constraints: Seq<TableConstraintView>,
        if_not_exists: bool,
        from_query: bool,
    },
    Insert {
        table_name: Seq<IdentView>,
        columns: Seq<IdentView>,
        source: Option<QueryView>,
        on_insert: Option<OnInsertView>,
        returning: bool,
    },
    Query(QueryView),
    Explain { analyze: bool, verbose: bool, formatted: bool, query: Option<QueryView> },
    CreateIndex {
        name: Option<Seq<IdentView>>,
        table_name: Seq<IdentView>,
        method: Option<IdentView>,
        columns: Seq<OrderView>,
        if_not_exists: bool,
        special: bool,
    },
    Update { table: TableWithJoinsView, assignments: Seq<AssignmentView>, selection: Option<ExprView>, extended: bool },
    Delete { from: Seq<TableWithJoinsView>, selection: Option<ExprView>, extended: bool },
    Drop { kind: DropKindView, names: Seq<Seq<IdentView>>, if_exists: bool, modified: bool },
    Other(Seq<char>),
}

/// The view of an optional dotted name.
pub open spec fn optional_name(name: Option<Vec<Ident>>) -> Option<Seq<IdentView>> {
    match name {
        Some(parts) => Some(views(parts@)),
        None => None,
    }
}

/// The views of dotted names.
pub open spec fn name_lists(names: Seq<Vec<Ident>>) -> Seq<Seq<IdentView>> {
    names.map_values(|name: Vec<Ident>| views(name@))
}

impl View for Statement {
    type V = StatementView;

    open spec fn view(&self) -> StatementView {
        match self {
            Statement::CreateTable { name, columns, constraints, if_not_exists, from_query } => StatementView::CreateTable {
                name: views(name@),
                columns: views(columns@),
                constraints: views(constraints@),
                if_not_exists: *if_not_exists,
                from_query: *from_query,
            },
            Statement::Insert { table_name, columns, source, on_insert, returning } => StatementView::Insert {
                table_name: views(table_name@),
                columns: views(columns@),
                source: optional(*source),
                on_insert: optional(*on_insert),
                returning: *returning,
            },
            Statement::Query(query) => StatementView::Query(query@),
            Statement::Explain { analyze, verbose, formatted, query } => StatementView::Explain {
                analyze: *analyze,
                verbose: *verbose,
                formatted: *formatted,
                query: optional(*query),
            },
            Statement::CreateIndex { name, table_name, method, columns, if_not_exists, special } => StatementView::CreateIndex {
                name: optional_name(*name),
                table_name: views(table_name@),
                method: optional(*method),
                columns: views(columns@),
                if_not_exists: *if_not_exists,
                special: *special,
            },
            Statement::Update { table, assignments, selection, extended } => StatementView::Update {
                table: table@,
                assignments: views(assignments@),
                selection: optional(*selection),
                extended: *extended,
            },
            Statement::Delete { from, selection, extended } => StatementView::Delete {
                from: views(from@),
                selection: optional(*selection),
                extended: *extended,
            },
            Statement::Drop { kind, names, if_exists, modified } => StatementView::Drop {
                kind: kind@,
                names: name_lists(names@),
                if_exists: *if_exists,
                modified: *modified,
            },
            Statement::Other(text) => StatementView::Other(text@),
        }
    }
}

fn same_char(left: &Option<char>, right: &Option<char>) -> (same: bool)
    ensures
        same == (*left == *right),
{
    match (left, right) {
        (Some(a), Some(b)) => *a == *b,
        (None, None) => true,
        _ => false,
    }
}

fn same_ident(left: &Ident, right: &Ident) -> (same: bool)
    ensures
        same == (left@ == right@),
{
    left.value == right.value && left.quoted == right.quoted
}

fn same_idents(left: &Vec<Ident>, right: &Vec<Ident>) -> (same: bool)
    ensures
        same == (views(left@) == views(right@)),
{
    if left.len() != right.len() {
        assert(views(left@).len() != views(right@).len());
        return false;
    }
    let mut index: usize = 0;
    while index < left.len()
        invariant
            left@.len() == right@.len(),
            index <= left@.len(),
            forall|i: int| 0 <= i < index ==> left@[i]@ == right@[i]@,
        decreases left@.len() - index,
    {
        if !same_ident(&left[index], &right[index]) {
            assert(views(left@)[index as int] != views(right@)[index as int]);
            return false;
        }
        index = index + 1;
    }
    assert(views(left@) =~= views(right@));
    true
}

fn same_strings(left: &Vec<String>, right: &Vec<String>) -> (same: bool)
    ensures
        same == (views(left@) == views(right@)),
{
    if left.len() != right.len() {
        assert(views(left@).len() != views(right@).len());
        return false;
    }
    let mut index: usize = 0;
    while index < left.len()
        invariant
            left@.len() == right@.len(),
            index <= left@.len(),
            forall|i: int| 0 <= i < index ==> left@[i]@ == right@[i]@,
        decreases left@.len() - index,
    {
        if !(left[index] == right[index]) {
            assert(views(left@)[index as int] != views(right@)[index as int]);
            return false;
        }
        index = index + 1;
    }
    assert(views(left@) =~= views(right@));
    true
}

fn same_literal(left: &Literal, right: &Literal) -> (same: bool)
    ensures
        same == (left@ == right@),
{
    match (left, right) {
        (Literal::Number { digits: a, long: x }, Literal::Number { digits: b, long: y }) => *a == *b && *x == *y,
        (Literal::Text { form: a, text: x }, Literal::Text { form: b, text: y }) => *a == *b && *x == *y,
        (Literal::Boolean(a), Literal::Boolean(b)) => *a == *b,
        (Literal::Null, Literal::Null) => true,
        (Literal::Other(a), Literal::Other(b)) => *a == *b,
        _ => false,
    }
}

fn same_binary(left: &BinaryOperator, right: &BinaryOperator) -> (same: bool)
    ensures
        same == (left@ == right@),
{
    match (left, right) {
        (BinaryOperator::Plus, BinaryOperator::Plus) => true,
        (BinaryOperator::Minus, BinaryOperator::Minus) => true,
        (BinaryOperator::Multiply, BinaryOperator::Multiply) => true,
        (BinaryOperator::Divide, BinaryOperator::Divide) => true,
        (BinaryOperator::Modulo, BinaryOperator::Modulo) => true,
        (BinaryOperator::Eq, BinaryOperator::Eq) => true,
        (BinaryOperator::NotEq, BinaryOperator::NotEq) => true,
        (BinaryOperator::Gt, BinaryOperator::Gt) => true,
        (BinaryOperator::GtEq, BinaryOperator::GtEq) => true,
        (BinaryOperator::Lt, BinaryOperator::Lt) => true,
        (BinaryOperator::LtEq, BinaryOperator::LtEq) => true,
        (BinaryOperator::And, BinaryOperator::And) => true,
        (BinaryOperator::Or, BinaryOperator::Or) => true,
        (BinaryOperator::Custom(a), BinaryOperator::Custom(b)) => *a == *b,
        (BinaryOperator::Other(a), BinaryOperator::Other(b)) => *a == *b,
        _ => false,
    }
}

fn same_unary(left: &UnaryOperator, right: &UnaryOperator) -> (same: bool)
    ensures
        same == (left@ == right@),
{
    match (left, right) {
        (UnaryOperator::Plus, UnaryOperator::Plus) => true,
        (UnaryOperator::Minus, UnaryOperator::Minus) => true,
        (UnaryOperator::Not, UnaryOperator::Not) => true,
        (UnaryOperator::Other(a), UnaryOperator::Other(b)) => *a == *b,
        _ => false,
    }
}

fn same_type_name(left: &TypeName, right: &TypeName) -> (same: bool)
    ensures
        same == (left@ == right@),
{
    left.form == right.form && same_idents(&left.name, &right.name) && same_strings(&left.modifiers, &right.modifiers)
        && left.text == right.text
}

fn same_argument(left: &Argument, right: &Argument) -> (same: bool)
    ensures
        same == (left@ == right@),
    decreases left, 0nat,
{
    match (left, right) {
        (Argument::Expr(a), Argument::Expr(b)) => same_expr(a, b),
        (Argument::Wildcard(a), Argument::Wildcard(b)) => *a == *b,
        (Argument::Named(a), Argument::Named(b)) => *a == *b,
        _ => false,
    }
}

fn same_exprs(left: &Vec<Expr>, right: &Vec<Expr>) -> (same: bool)
    ensures
        same == (expr_views(left@) == expr_views(right@)),
    decreases left, 0nat,
{
    if left.len() != right.len() {
        assert(expr_views(left@).len() != expr_views(right@).len());
        return false;
    }
    let mut index: usize = 0;
    while index < left.len()
        invariant
            left@.len() == right@.len(),
            index <= left@.len(),
            forall|i: int| 0 <= i < index ==> expr_view(left@[i]) == expr_view(right@[i]),
        decreases left@.len() - index,
    {
        if !same_expr(&left[index], &right[index]) {
            assert(expr_views(left@)[index as int] != expr_views(right@)[index as int]);
            return false;
        }
        index = index + 1;
    }
    assert(expr_views(left@) =~= expr_views(right@));
    true
}

fn same_function(left: &Function, right: &Function) -> (same: bool)
    ensures
        same == (left@ == right@),
    decreases left, 0nat,
{
    if !(same_idents(&left.name, &right.name) && left.name_text == right.name_text && left.distinct == right.distinct
        && left.modified == right.modified && left.special == right.special && left.null_treatment == right.null_treatment
        && left.text == right.text) {
        return false;
    }
    if left.arguments.len() != right.arguments.len() {
        assert(argument_views(left.arguments@).len() != argument_views(right.arguments@).len());
        return false;
    }
    let mut index: usize = 0;
    while index < left.arguments.len()
        invariant
            left.arguments@.len() == right.arguments@.len(),
            index <= left.arguments@.len(),
            forall|i: int| 0 <= i < index ==> argument_view(left.arguments@[i]) == argument_view(right.arguments@[i]),
        decreases left.arguments@.len() - index,
    {
        if !same_argument(&left.arguments[index], &right.arguments[index]) {
            assert(argument_views(left.arguments@)[index as int] != argument_views(right.arguments@)[index as int]);
            return false;
        }
        index = index + 1;
    }
    assert(argument_views(left.arguments@) =~= argument_views(right.arguments@));
    true
}

/// Whether the two expressions are written alike.
pub fn same_expr(left: &Expr, right: &Expr) -> (same: bool)
    ensures
        same == (left@ == right@),
    decreases left, 1nat,
{
    match (left, right) {
        (Expr::Identifier(a, x), Expr::Identifier(b, y)) => same_ident(a, b) && *x == *y,
        (Expr::CompoundIdentifier(a, x), Expr::CompoundIdentifier(b, y)) => same_idents(a, b) && *x == *y,
        (Expr::Value(a), Expr::Value(b)) => same_literal(a, b),
        (Expr::Nested(a), Expr::Nested(b)) => same_expr(a, b),
        (Expr::Array(a, m, x), Expr::Array(b, n, y)) => same_exprs(a, b) && *m == *n && *x == *y,
        (Expr::Function(a), Expr::Function(b)) => same_function(a, b),
        (Expr::BinaryOp(a, m, x), Expr::BinaryOp(b, n, y)) => same_expr(a, b) && same_binary(m, n) && same_expr(x, y),
        (Expr::UnaryOp(m, a), Expr::UnaryOp(n, b)) => same_unary(m, n) && same_expr(a, b),
        (Expr::Test(m, a), Expr::Test(n, b)) => *m == *n && same_expr(a, b),
        (
            Expr::Between { expr: a, negated: m, low: p, high: r },
            Expr::Between { expr: b, negated: n, low: q, high: s },
        ) => same_expr(a, b) && *m == *n && same_expr(p, q) && same_expr(r, s),
        (Expr::InList { expr: a, list: p, negated: m }, Expr::InList { expr: b, list: q, negated: n }) => same_expr(a, b)
            && *m == *n && same_exprs(p, q),
        (
            Expr::Like { expr: a, pattern: p, negated: m, escape: r, insensitive: x },
            Expr::Like { expr: b, pattern: q, negated: n, escape: s, insensitive: y },
        ) => same_expr(a, b) && same_expr(p, q) && *m == *n && same_char(r, s) && *x == *y,
        (
            Expr::Cast { expr: a, data_type: p, formatted: m },
            Expr::Cast { expr: b, data_type: q, formatted: n },
        ) => same_expr(a, b) && same_type_name(p, q) && *m == *n,
        (Expr::Other(a), Expr::Other(b)) => *a == *b,
        _ => false,
    }
}

} // verus!
