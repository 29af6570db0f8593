//! Executing statements: one, or several of which either all take effect or none.

use vstd::prelude::*;
use crate::ast::{ident_name, optional, DropKind, DropKindView, Expr, Query, Statement, StatementView};
use crate::catalog::{
    deleted, inserted, table_created, transition, updated, Catalog, CatalogView, ExecutionResult, ExecutionView,
    QueryResultView,
};
use crate::error::{unsupported, Error, ErrorView};
use crate::eval::borrowed;
use crate::explain::{explain_query, explained};
use crate::float::{computes, floats, FloatReply, FloatTask, Floats};
use crate::read::{query_result, run_query};
use crate::schema::{index_created, indexes_dropped, tables_dropped};
use crate::text::{join2, lemma_views_push, same_text, views};

verus! {

broadcast use {vstd::string::group_string_axioms, lemma_views_push};

/// What a statement that only reads gives, over the catalog that it leaves as it is.
pub open spec fn reading(
    catalog: CatalogView,
    result: Result<QueryResultView, ErrorView>,
) -> Result<(CatalogView, ExecutionView), ErrorView> {
    match result {
        Ok(found) => Ok((catalog, ExecutionView::Query(found))),
        Err(error) => Err(error),
    }
}

/// What a statement does to the catalog, and its result.
#[verifier::opaque]
pub open spec fn executed(catalog: CatalogView, statement: StatementView, floats: Floats) -> Result<
    (CatalogView, ExecutionView),
    ErrorView,
> {
    match statement {
        StatementView::CreateTable { name, columns, constraints, if_not_exists, from_query } => if from_query {
            Err(ErrorView::Unsupported("CREATE TABLE AS is not supported"@))
        } else {
            table_created(catalog, name, columns, constraints, if_not_exists)
        },
        StatementView::Insert { table_name, columns, source, on_insert, returning } => if returning {
            Err(ErrorView::Unsupported("INSERT ... RETURNING"@))
        } else {
            inserted(catalog, table_name, columns, source, on_insert, floats)
        },
        StatementView::Query(query) => reading(catalog, query_result(catalog, query, floats)),
        StatementView::Explain { analyze, verbose, formatted, query } => if analyze || formatted {
            Err(ErrorView::Unsupported("EXPLAIN ANALYZE and formatted EXPLAIN output"@))
        } else {
            match query {
                Some(query) => reading(catalog, explained(catalog, query, verbose, floats)),
                None => Err(ErrorView::Unsupported("EXPLAIN for statements other than SELECT"@)),
            }
        },
        StatementView::CreateIndex { name, table_name, method, columns, if_not_exists, special } => if special {
            Err(ErrorView::Unsupported("unique, concurrent, covering, partial, or NULL-configured indexes"@))
        } else {
            match method {
                Some(method) if method.name() != "hash"@ => Err(
                    ErrorView::Unsupported("index method "@ + method.value),
                ),
                _ => index_created(catalog, name, table_name, columns, if_not_exists),
            }
        },
        StatementView::Update { table, assignments, selection, extended } => if extended {
            Err(ErrorView::Unsupported("UPDATE ... FROM or RETURNING"@))
        } else {
            updated(catalog, table, assignments, selection, floats)
        },
        StatementView::Delete { from, selection, extended } => if extended {
            Err(ErrorView::Unsupported("multi-table DELETE, USING, RETURNING, ORDER BY, and LIMIT"@))
        } else {
            deleted(catalog, from, selection, floats)
        },
        StatementView::Drop { kind, names, if_exists, modified } => if modified {
            Err(ErrorView::Unsupported("DROP CASCADE, RESTRICT, PURGE, or TEMPORARY"@))
        } else {
            match kind {
                DropKindView::Table => tables_dropped(catalog, names, if_exists),
                DropKindView::Index => indexes_dropped(catalog, names, if_exists),
                DropKindView::Other(text) => Err(ErrorView::Unsupported("DROP "@ + text)),
            }
        },
        StatementView::Other(text) => Err(ErrorView::Unsupported(text)),
    }
}

fn borrow_expr(expression: &Option<Expr>) -> (result: Option<&Expr>)
    ensures
        borrowed(result) == optional(*expression),
{
    match expression {
        Some(expression) => Some(expression),
        None => None,
    }
}

impl Catalog {
    /// Executes one statement; one that fails leaves the catalog as it was.
    pub fn execute_statement<F: Fn(FloatTask) -> FloatReply>(&mut self, f: &F, statement: &Statement) -> (result: Result<
        ExecutionResult,
        Error,
    >)
        requires
            computes(*f),
            old(self).wf(),
        ensures
            final(self).wf(),
            transition(old(self)@, final(self)@, result, executed(old(self)@, statement@, floats(*f))),
    {
        reveal(executed);
        match statement {
            Statement::CreateTable { name, columns, constraints, if_not_exists, from_query } => {
                if *from_query {
                    return Err(unsupported("CREATE TABLE AS is not supported"));
                }
                self.create_table(name, columns, constraints, *if_not_exists)
            },
            Statement::Insert { table_name, columns, source, on_insert, returning } => {
                if *returning {
                    return Err(unsupported("INSERT ... RETURNING"));
                }
                self.insert(f, table_name, columns, source, on_insert)
            },
            Statement::Query(query) => {
                let found = run_query(f, self, query)?;
                Ok(ExecutionResult::Query(found))
            },
            Statement::Explain { analyze, verbose, formatted, query } => {
                if *analyze || *formatted {
                    return Err(unsupported("EXPLAIN ANALYZE and formatted EXPLAIN output"));
                }
                match query {
                    Some(query) => {
                        let found = explain_query(f, self, query, *verbose)?;
                        Ok(ExecutionResult::Query(found))
                    },
                    None => Err(unsupported("EXPLAIN for statements other than SELECT")),
                }
            },
            Statement::CreateIndex { name, table_name, method, columns, if_not_exists, special } => {
                if *special {
                    return Err(unsupported("unique, concurrent, covering, partial, or NULL-configured indexes"));
                }
                if let Some(method) = method {
                    let title = ident_name(method);
                    if !same_text(title.as_str(), "hash") {
                        return Err(Error::Unsupported(join2("index method ", method.value.as_str())));
                    }
                }
                self.create_index(name, table_name, columns, *if_not_exists)
            },
            Statement::Update { table, assignments, selection, extended } => {
                if *extended {
                    return Err(unsupported("UPDATE ... FROM or RETURNING"));
                }
                self.update(f, table, assignments, borrow_expr(selection))
            },
            Statement::Delete { from, selection, extended } => {
                if *extended {
                    return Err(unsupported("multi-table DELETE, USING, RETURNING, ORDER BY, and LIMIT"));
                }
                self.delete(f, from, borrow_expr(selection))
            },
            Statement::Drop { kind, names, if_exists, modified } => {
                if *modified {
                    return Err(unsupported("DROP CASCADE, RESTRICT, PURGE, or TEMPORARY"));
                }
                match kind {
                    DropKind::Table => self.drop_tables(names, *if_exists),
                    DropKind::Index => self.drop_indexes(names, *if_exists),
                    DropKind::Other(text) => Err(Error::Unsupported(join2("DROP ", text.as_str()))),
                }
            },
            Statement::Other(text) => Err(Error::Unsupported(text.clone())),
        }
    }
}

/// What the statements from `from` on do to the catalog one after the other, and their results
/// after `done`.
pub open spec fn executed_all(
    catalog: CatalogView,
    statements: Seq<StatementView>,
    floats: Floats,
    from: nat,
    done: Seq<ExecutionView>,
) -> Result<(CatalogView, Seq<ExecutionView>), ErrorView>
    decreases statements.len() - from,
{
    if from >= statements.len() {
        Ok((catalog, done))
    } else {
        match executed(catalog, statements[from as int], floats) {
            Err(error) => Err(error),
            Ok((after, result)) => executed_all(after, statements, floats, from + 1, done.push(result)),
        }
    }
}

/// A catalog that statements have been applied to, with their results.
pub struct Staged {
    pub catalog: Catalog,
    pub results: Vec<ExecutionResult>,
}

/// Applies statements to a copy of the catalog.
pub fn stage_statements<F: Fn(FloatTask) -> FloatReply>(f: &F, catalog: &Catalog, statements: &Vec<Statement>) -> (result: Result<
    Staged,
    Error,
>)
    requires
        computes(*f),
        catalog.wf(),
    ensures
        match result {
            Ok(staged) => executed_all(catalog@, views(statements@), floats(*f), 0, Seq::empty()) == Ok::<
                (CatalogView, Seq<ExecutionView>),
                ErrorView,
            >((staged.catalog@, views(staged.results@))) && staged.catalog.wf(),
            Err(error) => executed_all(catalog@, views(statements@), floats(*f), 0, Seq::empty()) == Err::<
                (CatalogView, Seq<ExecutionView>),
                ErrorView,
            >(error@),
        },
{
    let mut staging = catalog.duplicate();
    let mut results: Vec<ExecutionResult> = Vec::new();
    assert(views(results@) =~= Seq::<ExecutionView>::empty());
    let mut index: usize = 0;
    while index < statements.len()
        invariant
            computes(*f),
            staging.wf(),
            index <= statements@.len(),
            executed_all(staging@, views(statements@), floats(*f), index as nat, views(results@)) == executed_all(
                catalog@,
                views(statements@),
                floats(*f),
                0,
                Seq::empty(),
            ),
        decreases statements@.len() - index,
    {
        assert(views(statements@)[index as int] == statements@[index as int]@);
        let result = staging.execute_statement(f, &statements[index])?;
        results.push(result);
        index = index + 1;
    }
    Ok(Staged { catalog: staging, results })
}

/// A query leaves the catalog as it is.
pub proof fn law_queries_read(catalog: CatalogView, statement: StatementView, floats: Floats)
    requires
        statement is Query || statement is Explain,
    ensures
        executed(catalog, statement, floats) matches Ok((after, result)) ==> after == catalog && result is Query,
{
    reveal(executed);
}

} // verus!
