//! The database: parsing through the cache, execution, staged writes and recovery.

use std::sync::Arc;
use vstd::prelude::*;
use crate::ast::{Statement, StatementView};
use crate::cache::{
    bounded, cached_position, law_remembered, lemma_position, lemma_remembered_len, promoted, remembered, without,
    CachedView, ParseCache, PARSE_CACHE_MAX_ENTRY_BYTES,
};
use crate::catalog::{
    resolve_typed_conflict_plan, transition, typed_inserted, Catalog, CatalogView, ExecutionResult, ExecutionView,
    InsertConflict, InsertConflictView,
};
use crate::error::{invalid, outcome, Error, ErrorView};
use crate::execute::{executed, executed_all, law_queries_read, stage_statements};
use crate::float::{computes, floats, FloatReply, FloatTask, Floats};
use crate::intent::{analyze_query_intent, analyzed, IntentView, QueryIntent};
use crate::notation::{parse_statements, parsed};
use crate::schema::{following_sequence, next_durable_sequence};
use crate::text::{byte_count, decimal, decimal_text, join2, join3, lemma_views_push, normalize_name, normalized, views};
use crate::value::{copy_rows, lemma_row_views_push, row_views, Value, ValueView};
use crate::write::{prepare_typed_rows, typed_rows};

verus! {

broadcast use {vstd::string::group_string_axioms, lemma_views_push, lemma_row_views_push};

/// Whether each text that is kept is kept with its own statements.
pub open spec fn truthful(entries: Seq<CachedView>) -> bool {
    forall|i: int|
        0 <= i < entries.len() ==> parsed((#[trigger] entries[i]).sql) == Ok::<Seq<StatementView>, ErrorView>(
            entries[i].statements,
        )
}

/// The entries of the cache after a text has been asked for.
pub open spec fn requested(entries: Seq<CachedView>, sql: Seq<char>) -> Seq<CachedView> {
    match cached_position(entries, sql, 0) {
        Some(at) => promoted(entries, at),
        None => match parsed(sql) {
            Ok(statements) => remembered(entries, CachedView { sql, statements }),
            Err(_) => entries,
        },
    }
}

/// What a request does to the catalog, and its results.
pub open spec fn answered(catalog: CatalogView, sql: Seq<char>, floats: Floats) -> Result<
    (CatalogView, Seq<ExecutionView>),
    ErrorView,
> {
    match parsed(sql) {
        Err(error) => Err(error),
        Ok(statements) => executed_all(catalog, statements, floats, 0, Seq::empty()),
    }
}

/// What is known of one read-only `SELECT` without executing it.
pub open spec fn understood(catalog: CatalogView, sql: Seq<char>, floats: Floats) -> Result<IntentView, ErrorView> {
    match parsed(sql) {
        Err(error) => Err(error),
        Ok(statements) => if statements.len() != 1 {
            Err(ErrorView::InvalidQuery("query intent requires exactly one SELECT statement"@))
        } else {
            match statements[0] {
                StatementView::Query(query) => analyzed(catalog, query, floats),
                _ => Err(ErrorView::InvalidQuery("query intent only accepts a read-only SELECT statement"@)),
            }
        },
    }
}

impl CatalogView {
    /// The catalog under a durable sequence number.
    pub open spec fn sequenced(self, sequence: u64) -> CatalogView {
        CatalogView { durable_sequence: sequence, ..self }
    }

    /// The catalog with its changes counted from `revision` on.
    pub open spec fn revised(self, revision: u64) -> CatalogView {
        CatalogView { revision, ..self }
    }
}

/// The number under which the change from one catalog to another is logged; none where nothing
/// changed.
pub open spec fn logged_as(before: CatalogView, after: CatalogView) -> Result<Option<u64>, ErrorView> {
    if after.revision == before.revision {
        Ok(None)
    } else {
        match following_sequence(before.durable_sequence) {
            Ok(sequence) => Ok(Some(sequence)),
            Err(error) => Err(error),
        }
    }
}

/// The catalog as it is once its change has been logged under this number.
pub open spec fn committed(catalog: CatalogView, sequence: Option<u64>) -> CatalogView {
    match sequence {
        Some(sequence) => catalog.sequenced(sequence),
        None => catalog,
    }
}

/// Statements that have been applied to a copy of the catalog and wait for the log.
pub struct StagedRequest {
    pub catalog: Catalog,
    pub results: Vec<ExecutionResult>,
    /// The sequence number of the record to append; none where nothing changed.
    pub sequence: Option<u64>,
}

/// Rows that have been inserted into a copy of the catalog and wait for the log.
pub struct StagedRows {
    pub catalog: Catalog,
    /// The rows with their values in the types of the columns, as the log keeps them.
    pub rows: Vec<Vec<Value>>,
    pub affected: usize,
    /// The sequence number of the record to append; none where nothing changed.
    pub sequence: Option<u64>,
}

/// One logged change.
pub enum WalOperation {
    Sql(String),
    InsertRows { table: String, rows: Vec<Vec<Value>>, conflict: InsertConflict },
}

pub enum OperationView {
    Sql(Seq<char>),
    InsertRows { table: Seq<char>, rows: Seq<Seq<ValueView>>, conflict: InsertConflictView },
}

impl View for WalOperation {
    type V = OperationView;

    open spec fn view(&self) -> OperationView {
        match self {
            WalOperation::Sql(sql) => OperationView::Sql(sql@),
            WalOperation::InsertRows { table, rows, conflict } => OperationView::InsertRows {
                table: table@,
                rows: row_views(rows@),
                conflict: conflict@,
            },
        }
    }
}

/// A logged change with its number.
pub struct RecoveryRecord {
    pub sequence: u64,
    pub operation: WalOperation,
}

pub struct RecordView {
    pub sequence: u64,
    pub operation: OperationView,
}

impl View for RecoveryRecord {
    type V = RecordView;

    open spec fn view(&self) -> RecordView {
        RecordView { sequence: self.sequence, operation: self.operation@ }
    }
}

/// The catalog after a logged change.
#[verifier::opaque]
pub open spec fn replayed(catalog: CatalogView, operation: OperationView, floats: Floats) -> Result<CatalogView, ErrorView> {
    match operation {
        OperationView::Sql(sql) => match answered(catalog, sql, floats) {
            Ok((after, _)) => Ok(after),
            Err(error) => Err(error),
        },
        OperationView::InsertRows { table, rows, conflict } => match typed_inserted(catalog, table, rows, conflict, floats) {
            Ok((after, _)) => Ok(after),
            Err(error) => Err(error),
        },
    }
}

/// The catalog after the records from `from` on, of which the ones up to the checkpoint are passed
/// over and the next one must be number `expected`.
pub open spec fn recovered(
    catalog: CatalogView,
    records: Seq<RecordView>,
    checkpoint: u64,
    expected: u64,
    floats: Floats,
    from: nat,
) -> Result<CatalogView, ErrorView>
    decreases records.len() - from,
{
    if from >= records.len() {
        Ok(catalog)
    } else {
        let record = records[from as int];
        if record.sequence <= checkpoint {
            recovered(catalog, records, checkpoint, expected, floats, from + 1)
        } else if record.sequence != expected {
            Err(
                ErrorView::CorruptWal(
                    "expected record sequence "@ + decimal_text(expected as nat) + ", found "@ + decimal_text(
                        record.sequence as nat,
                    ),
                ),
            )
        } else {
            match replayed(catalog, record.operation, floats) {
                Err(error) => Err(
                    ErrorView::CorruptWal(
                        "record "@ + decimal_text(record.sequence as nat) + " cannot be replayed: "@ + error.message(),
                    ),
                ),
                Ok(after) => if after.revision == catalog.revision {
                    Err(
                        ErrorView::CorruptWal(
                            "record "@ + decimal_text(record.sequence as nat) + " did not change the catalog"@,
                        ),
                    )
                } else if expected == u64::MAX {
                    Err(ErrorView::CorruptWal("record sequence overflow"@))
                } else {
                    recovered(
                        after.sequenced(record.sequence),
                        records,
                        checkpoint,
                        (expected + 1) as u64,
                        floats,
                        from + 1,
                    )
                },
            }
        }
    }
}

/// The catalog that a checkpoint and the records logged after it give.
pub open spec fn recovery(catalog: CatalogView, records: Seq<RecordView>, floats: Floats) -> Result<CatalogView, ErrorView> {
    if catalog.durable_sequence == u64::MAX {
        Err(ErrorView::CorruptWal("checkpoint sequence overflow"@))
    } else {
        recovered(
            catalog,
            records,
            catalog.durable_sequence,
            (catalog.durable_sequence + 1) as u64,
            floats,
            0,
        )
    }
}

fn only_queries(statements: &Vec<Statement>) -> (result: bool)
    ensures
        result == forall|i: int| 0 <= i < statements@.len() ==> (#[trigger] statements@[i]) is Query,
{
    let mut index: usize = 0;
    while index < statements.len()
        invariant
            index <= statements@.len(),
            forall|i: int| 0 <= i < index ==> (#[trigger] statements@[i]) is Query,
        decreases statements@.len() - index,
    {
        match &statements[index] {
            Statement::Query(_) => {},
            _ => {
                assert(!(statements@[index as int] is Query));
                return false;
            },
        }
        index = index + 1;
    }
    true
}

impl Catalog {
    pub(crate) fn set_sequence(&mut self, sequence: u64)
        requires
            old(self).wf(),
        ensures
            final(self).wf(),
            final(self)@ == old(self)@.sequenced(sequence),
    {
        let ghost before = *self;
        self.durable_sequence = sequence;
        assert(self.tables == before.tables);
        assert(self@.tables == before@.tables);
    }

    pub(crate) fn set_revision(&mut self, revision: u64)
        requires
            old(self).wf(),
        ensures
            final(self).wf(),
            final(self)@ == old(self)@.revised(revision),
    {
        let ghost before = *self;
        self.revision = revision;
        assert(self.tables == before.tables);
        assert(self@.tables == before@.tables);
    }

    fn run_one<F: Fn(FloatTask) -> FloatReply>(&mut self, f: &F, statement: &Statement) -> (result: Result<
        ExecutionResult,
        Error,
    >)
        requires
            computes(*f),
            old(self).wf(),
            statement is Query,
        ensures
            final(self).wf(),
            final(self)@ == old(self)@,
            transition(old(self)@, final(self)@, result, executed(old(self)@, statement@, floats(*f))),
    {
        let result = self.execute_statement(f, statement);
        proof {
            law_queries_read(old(self)@, statement@, floats(*f));
        }
        result
    }
}

/// Runs queries against the catalog as it stands.
fn run_queries<F: Fn(FloatTask) -> FloatReply>(f: &F, catalog: &mut Catalog, statements: &Vec<Statement>) -> (result: Result<
    Vec<ExecutionResult>,
    Error,
>)
    requires
        computes(*f),
        old(catalog).wf(),
        forall|i: int| 0 <= i < statements@.len() ==> (#[trigger] statements@[i]) is Query,
    ensures
        final(catalog).wf(),
        final(catalog)@ == old(catalog)@,
        match result {
            Ok(results) => executed_all(old(catalog)@, views(statements@), floats(*f), 0, Seq::empty()) == Ok::<
                (CatalogView, Seq<ExecutionView>),
                ErrorView,
            >((old(catalog)@, views(results@))),
            Err(error) => executed_all(old(catalog)@, views(statements@), floats(*f), 0, Seq::empty()) == Err::<
                (CatalogView, Seq<ExecutionView>),
                ErrorView,
            >(error@),
        },
{
    let ghost start = catalog@;
    let mut results: Vec<ExecutionResult> = Vec::new();
    assert(views(results@) =~= Seq::<ExecutionView>::empty());
    let mut index: usize = 0;
    while index < statements.len()
        invariant
            computes(*f),
            catalog.wf(),
            catalog@ == start,
            start == old(catalog)@,
            index <= statements@.len(),
            forall|i: int| 0 <= i < statements@.len() ==> (#[trigger] statements@[i]) is Query,
            executed_all(start, views(statements@), floats(*f), index as nat, views(results@)) == executed_all(
                start,
                views(statements@),
                floats(*f),
                0,
                Seq::empty(),
            ),
        decreases statements@.len() - index,
    {
        assert(views(statements@)[index as int] == statements@[index as int]@);
        let result = catalog.run_one(f, &statements[index])?;
        results.push(result);
        index = index + 1;
    }
    Ok(results)
}

/// A catalog with the cache of the texts that have been parsed.
pub struct Database {
    pub catalog: Catalog,
    pub parse_cache: ParseCache,
}

impl Database {
    pub open spec fn wf(self) -> bool {
        &&& self.catalog.wf()
        &&& self.parse_cache.wf()
        &&& truthful(self.parse_cache@)
    }

    pub fn new() -> (database: Database)
        ensures
            database.wf(),
            database.catalog@.tables.len() == 0,
            database.catalog@.revision == 0,
            database.catalog@.durable_sequence == 0,
            database.parse_cache@.len() == 0,
    {
        Database { catalog: Catalog::new(), parse_cache: ParseCache::new() }
    }

    /// A database of a catalog that has been read.
    pub fn of(catalog: Catalog) -> (database: Database)
        requires
            catalog.wf(),
        ensures
            database.wf(),
            database.catalog@ == catalog@,
            database.parse_cache@.len() == 0,
    {
        Database { catalog, parse_cache: ParseCache::new() }
    }

    /// The statements of a text, from the cache where they are kept.
    fn parse_sql(&mut self, sql: &str) -> (result: Result<Arc<Vec<Statement>>, Error>)
        requires
            old(self).wf(),
        ensures
            final(self).wf(),
            final(self).catalog == old(self).catalog,
            final(self).parse_cache@ == requested(old(self).parse_cache@, sql@),
            match result {
                Ok(statements) => parsed(sql@) == Ok::<Seq<StatementView>, ErrorView>(views(statements@)),
                Err(error) => parsed(sql@) == Err::<Seq<StatementView>, ErrorView>(error@),
            },
    {
        let ghost entries = self.parse_cache@;
        proof {
            lemma_position(entries, sql@, 0);
        }
        if let Some(statements) = self.parse_cache.get(sql) {
            proof {
                let at = cached_position(entries, sql@, 0)->Some_0;
                assert(entries[at as int].sql == sql@);
                assert forall|i: int| 0 <= i < promoted(entries, at).len() implies parsed(
                    (#[trigger] promoted(entries, at)[i]).sql,
                ) == Ok::<Seq<StatementView>, ErrorView>(promoted(entries, at)[i].statements) by {
                    if i == 0 {
                        assert(promoted(entries, at)[i] == entries[at as int]);
                    } else if i <= at {
                        assert(promoted(entries, at)[i] == entries[i - 1]);
                    } else {
                        assert(promoted(entries, at)[i] == entries[i]);
                    }
                }
            }
            return Ok(statements);
        }
        let statements = Arc::new(parse_statements(sql)?);
        self.parse_cache.insert(sql, &statements);
        proof {
            let added = CachedView { sql: sql@, statements: views(statements@) };
            lemma_remembered_truthful(entries, added);
        }
        Ok(statements)
    }

    /// Executes one or more statements. If any of them fails, none has changed anything.
    pub fn execute<F: Fn(FloatTask) -> FloatReply>(&mut self, f: &F, sql: &str) -> (result: Result<
        Vec<ExecutionResult>,
        Error,
    >)
        requires
            computes(*f),
            old(self).wf(),
        ensures
            final(self).wf(),
            final(self).parse_cache@ == requested(old(self).parse_cache@, sql@),
            match result {
                Ok(results) => answered(old(self).catalog@, sql@, floats(*f)) == Ok::<
                    (CatalogView, Seq<ExecutionView>),
                    ErrorView,
                >((final(self).catalog@, views(results@))),
                Err(error) => answered(old(self).catalog@, sql@, floats(*f)) == Err::<
                    (CatalogView, Seq<ExecutionView>),
                    ErrorView,
                >(error@) && final(self).catalog@ == old(self).catalog@,
            },
    {
        let statements = self.parse_sql(sql)?;
        let ghost start = self.catalog@;
        if only_queries(&statements) {
            return run_queries(f, &mut self.catalog, &statements);
        }
        if statements.len() == 1 {
            assert(views(statements@)[0] == statements@[0]@);
            let result = self.catalog.execute_statement(f, &statements[0])?;
            let mut results: Vec<ExecutionResult> = Vec::new();
            let ghost none = views(results@);
            results.push(result);
            proof {
                assert(none =~= Seq::<ExecutionView>::empty());
                assert(executed_all(self.catalog@, views(statements@), floats(*f), 1, views(results@)) == Ok::<
                    (CatalogView, Seq<ExecutionView>),
                    ErrorView,
                >((self.catalog@, views(results@))));
            }
            return Ok(results);
        }
        let staged = stage_statements(f, &self.catalog, &statements)?;
        self.catalog = staged.catalog;
        Ok(staged.results)
    }

    /// Applies a request to a copy of the catalog, for a database that is logged.
    pub fn stage<F: Fn(FloatTask) -> FloatReply>(&mut self, f: &F, sql: &str) -> (result: Result<StagedRequest, Error>)
        requires
            computes(*f),
            old(self).wf(),
        ensures
            final(self).wf(),
            final(self).parse_cache@ == requested(old(self).parse_cache@, sql@),
            final(self).catalog == old(self).catalog,
            match result {
                Ok(staged) => staged.catalog.wf() && answered(old(self).catalog@, sql@, floats(*f)) == Ok::<
                    (CatalogView, Seq<ExecutionView>),
                    ErrorView,
                >((staged.catalog@, views(staged.results@))) && logged_as(old(self).catalog@, staged.catalog@) == Ok::<
                    Option<u64>,
                    ErrorView,
                >(staged.sequence),
                Err(error) => match answered(old(self).catalog@, sql@, floats(*f)) {
                    Err(expected) => error@ == expected,
                    Ok((after, _)) => logged_as(old(self).catalog@, after) == Err::<Option<u64>, ErrorView>(error@),
                },
            },
    {
        let statements = self.parse_sql(sql)?;
        let staged = stage_statements(f, &self.catalog, &statements)?;
        let sequence: Option<u64> = if staged.catalog.revision == self.catalog.revision {
            None
        } else {
            Some(next_durable_sequence(self.catalog.durable_sequence)?)
        };
        Ok(StagedRequest { catalog: staged.catalog, results: staged.results, sequence })
    }

    /// Makes a logged request visible.
    pub fn commit(&mut self, staged: StagedRequest) -> (results: Vec<ExecutionResult>)
        requires
            old(self).wf(),
            staged.catalog.wf(),
        ensures
            final(self).wf(),
            final(self).parse_cache == old(self).parse_cache,
            final(self).catalog@ == committed(staged.catalog@, staged.sequence),
            results == staged.results,
    {
        self.adopt(staged.catalog, staged.sequence);
        staged.results
    }

    fn adopt(&mut self, catalog: Catalog, sequence: Option<u64>)
        requires
            old(self).wf(),
            catalog.wf(),
        ensures
            final(self).wf(),
            final(self).parse_cache == old(self).parse_cache,
            final(self).catalog@ == committed(catalog@, sequence),
    {
        let mut catalog = catalog;
        if let Some(sequence) = sequence {
            catalog.set_sequence(sequence);
        }
        self.catalog = catalog;
    }

    /// Inserts fully typed rows in schema order.
    pub fn insert_rows<F: Fn(FloatTask) -> FloatReply>(
        &mut self,
        f: &F,
        table_name: &str,
        rows: &Vec<Vec<Value>>,
        conflict: &InsertConflict,
    ) -> (result: Result<usize, Error>)
        requires
            computes(*f),
            old(self).wf(),
        ensures
            final(self).wf(),
            final(self).parse_cache == old(self).parse_cache,
            match result {
                Ok(count) => typed_inserted(old(self).catalog@, table_name@, row_views(rows@), conflict@, floats(*f)) == Ok::<
                    (CatalogView, nat),
                    ErrorView,
                >((final(self).catalog@, count as nat)),
                Err(error) => typed_inserted(old(self).catalog@, table_name@, row_views(rows@), conflict@, floats(*f))
                    == Err::<(CatalogView, nat), ErrorView>(error@) && final(self).catalog@ == old(self).catalog@,
            },
    {
        self.catalog.insert_rows(f, table_name, rows, conflict)
    }

    /// Inserts rows into a copy of the catalog, for a database that is logged.
    pub fn stage_rows<F: Fn(FloatTask) -> FloatReply>(
        &self,
        f: &F,
        table_name: &str,
        rows: &Vec<Vec<Value>>,
        conflict: &InsertConflict,
    ) -> (result: Result<StagedRows, Error>)
        requires
            computes(*f),
            self.wf(),
        ensures
            match result {
                Ok(staged) => staged.catalog.wf() && typed_inserted(
                    self.catalog@,
                    table_name@,
                    row_views(rows@),
                    conflict@,
                    floats(*f),
                ) == Ok::<(CatalogView, nat), ErrorView>((staged.catalog@, staged.affected as nat)) && (
                self.catalog@.located(normalized(table_name@)) matches Ok(at) && typed_rows(
                    self.catalog@.tables[at as int].table.columns,
                    row_views(rows@),
                    floats(*f),
                    0,
                    Seq::empty(),
                ) == Ok::<Seq<Seq<ValueView>>, ErrorView>(row_views(staged.rows@))) && logged_as(
                    self.catalog@,
                    staged.catalog@,
                ) == Ok::<Option<u64>, ErrorView>(staged.sequence),
                Err(error) => match typed_inserted(self.catalog@, table_name@, row_views(rows@), conflict@, floats(*f)) {
                    Err(expected) => error@ == expected,
                    Ok((after, _)) => logged_as(self.catalog@, after) == Err::<Option<u64>, ErrorView>(error@),
                },
            },
    {
        let name = normalize_name(table_name);
        let at: usize = self.catalog.locate(name.as_str())?;
        assert(self.catalog@.tables[at as int] == self.catalog.tables@[at as int]@);
        let plan = resolve_typed_conflict_plan(&self.catalog.tables[at].table.columns, conflict)?;
        let pending = prepare_typed_rows(f, &self.catalog.tables[at].table.columns, rows)?;
        let logged = copy_rows(&pending);
        let mut staging = self.catalog.duplicate();
        let affected: usize = staging.insert_pending(f, at, pending, &plan)?;
        let sequence: Option<u64> = if staging.revision == self.catalog.revision {
            None
        } else {
            Some(next_durable_sequence(self.catalog.durable_sequence)?)
        };
        Ok(StagedRows { catalog: staging, rows: logged, affected, sequence })
    }

    /// Makes logged rows visible.
    pub fn commit_rows(&mut self, staged: StagedRows) -> (affected: usize)
        requires
            old(self).wf(),
            staged.catalog.wf(),
        ensures
            final(self).wf(),
            final(self).parse_cache == old(self).parse_cache,
            final(self).catalog@ == committed(staged.catalog@, staged.sequence),
            affected == staged.affected,
    {
        self.adopt(staged.catalog, staged.sequence);
        staged.affected
    }

    /// Analyzes one read-only `SELECT` without executing it.
    pub fn query_intent<F: Fn(FloatTask) -> FloatReply>(&mut self, f: &F, sql: &str) -> (result: Result<QueryIntent, Error>)
        requires
            computes(*f),
            old(self).wf(),
        ensures
            final(self).wf(),
            final(self).parse_cache@ == requested(old(self).parse_cache@, sql@),
            final(self).catalog == old(self).catalog,
            outcome(result) == understood(old(self).catalog@, sql@, floats(*f)),
    {
        let statements = self.parse_sql(sql)?;
        if statements.len() != 1 {
            return Err(invalid("query intent requires exactly one SELECT statement"));
        }
        assert(views(statements@)[0] == statements@[0]@);
        match &statements[0] {
            Statement::Query(query) => analyze_query_intent(f, &self.catalog, query),
            _ => Err(invalid("query intent only accepts a read-only SELECT statement")),
        }
    }

    /// The number of changes that have been made.
    pub fn revision(&self) -> (revision: u64)
        ensures
            revision == self.catalog@.revision,
    {
        self.catalog.revision
    }

    /// The revision to save, unless it is the one that was saved last.
    pub fn changed_since(&self, last_revision: Option<u64>) -> (result: Option<u64>)
        ensures
            result == (if last_revision == Some(self.catalog@.revision) {
                None
            } else {
                Some(self.catalog@.revision)
            }),
    {
        match last_revision {
            Some(last) if last == self.catalog.revision => None,
            _ => Some(self.catalog.revision),
        }
    }

    /// Counts changes from zero on, as a database does once it has been opened.
    pub fn reset_revision(&mut self)
        requires
            old(self).wf(),
        ensures
            final(self).wf(),
            final(self).parse_cache == old(self).parse_cache,
            final(self).catalog@ == old(self).catalog@.revised(0),
    {
        self.catalog.set_revision(0);
    }

    fn replay<F: Fn(FloatTask) -> FloatReply>(&mut self, f: &F, operation: &WalOperation) -> (result: Result<(), Error>)
        requires
            computes(*f),
            old(self).wf(),
        ensures
            final(self).wf(),
            match result {
                Ok(_) => replayed(old(self).catalog@, operation@, floats(*f)) == Ok::<CatalogView, ErrorView>(
                    final(self).catalog@,
                ),
                Err(error) => replayed(old(self).catalog@, operation@, floats(*f)) == Err::<CatalogView, ErrorView>(error@)
                    && final(self).catalog@ == old(self).catalog@,
            },
    {
        reveal(replayed);
        match operation {
            WalOperation::Sql(sql) => {
                let _ = self.execute(f, sql.as_str())?;
                Ok(())
            },
            WalOperation::InsertRows { table, rows, conflict } => {
                let _ = self.insert_rows(f, table.as_str(), rows, conflict)?;
                Ok(())
            },
        }
    }

    /// Applies the changes that were logged after the checkpoint that the catalog was read from.
    #[verifier::rlimit(40)]
    pub fn recover<F: Fn(FloatTask) -> FloatReply>(&mut self, f: &F, records: &Vec<RecoveryRecord>) -> (result: Result<
        (),
        Error,
    >)
        requires
            computes(*f),
            old(self).wf(),
        ensures
            final(self).wf(),
            match result {
                Ok(_) => recovery(old(self).catalog@, views(records@), floats(*f)) == Ok::<CatalogView, ErrorView>(
                    final(self).catalog@,
                ),
                Err(error) => recovery(old(self).catalog@, views(records@), floats(*f)) == Err::<CatalogView, ErrorView>(
                    error@,
                ),
            },
    {
        let checkpoint: u64 = self.catalog.durable_sequence;
        if checkpoint == u64::MAX {
            return Err(Error::CorruptWal("checkpoint sequence overflow".to_owned()));
        }
        let ghost start = self.catalog@;
        let ghost all = views(records@);
        let mut expected: u64 = checkpoint + 1;
        let mut index: usize = 0;
        while index < records.len()
            invariant
                computes(*f),
                self.wf(),
                start == old(self).catalog@,
                index <= records@.len(),
                all == views(records@),
                recovered(self.catalog@, all, checkpoint, expected, floats(*f), index as nat) == recovery(
                    start,
                    all,
                    floats(*f),
                ),
            decreases records@.len() - index,
        {
            let record = &records[index];
            assert(all[index as int] == record@);
            index = index + 1;
            if record.sequence <= checkpoint {
                continue;
            }
            if record.sequence != expected {
                let wanted = decimal(expected);
                let found = decimal(record.sequence);
                let head = join2("expected record sequence ", wanted.as_str());
                return Err(Error::CorruptWal(join3(head.as_str(), ", found ", found.as_str())));
            }
            let before: u64 = self.catalog.revision;
            let number = decimal(record.sequence);
            let head = join2("record ", number.as_str());
            match self.replay(f, &record.operation) {
                Err(error) => {
                    let text = error.message();
                    return Err(Error::CorruptWal(join3(head.as_str(), " cannot be replayed: ", text.as_str())));
                },
                Ok(_) => {},
            }
            if self.catalog.revision == before {
                return Err(Error::CorruptWal(join2(head.as_str(), " did not change the catalog")));
            }
            let ghost after = self.catalog@;
            if expected == u64::MAX {
                return Err(Error::CorruptWal("record sequence overflow".to_owned()));
            }
            self.catalog.set_sequence(record.sequence);
            expected = expected + 1;
        }
        Ok(())
    }
}

proof fn lemma_remembered_truthful(entries: Seq<CachedView>, added: CachedView)
    requires
        bounded(entries),
        truthful(entries),
        parsed(added.sql) == Ok::<Seq<StatementView>, ErrorView>(added.statements),
    ensures
        truthful(remembered(entries, added)),
{
    let all = remembered(entries, added);
    law_remembered(entries, added);
    lemma_position(entries, added.sql, 0);
    assert forall|i: int| 0 <= i < all.len() implies parsed((#[trigger] all[i]).sql) == Ok::<Seq<StatementView>, ErrorView>(
        all[i].statements,
    ) by {
        if byte_count(added.sql) <= PARSE_CACHE_MAX_ENTRY_BYTES && i > 0 {
            let rest = without(entries, added.sql);
            lemma_remembered_len(entries, added);
            assert(all.skip(1)[i - 1] == all[i]);
            assert(rest.take(all.len() - 1)[i - 1] == rest[i - 1]);
            match cached_position(entries, added.sql, 0) {
                Some(at) => {
                    if i - 1 < at {
                        assert(rest[i - 1] == entries[i - 1]);
                    } else {
                        assert(rest[i - 1] == entries[i]);
                    }
                },
                None => {
                    assert(rest[i - 1] == entries[i - 1]);
                },
            }
        }
    }
}

/// A cached text is answered as one that is parsed anew: what a request does depends on the catalog
/// and the text alone.
pub proof fn law_cache_transparent(first: Database, second: Database, sql: Seq<char>, floats: Floats)
    requires
        first.wf(),
        second.wf(),
        first.catalog@ == second.catalog@,
    ensures
        answered(first.catalog@, sql, floats) == answered(second.catalog@, sql, floats),
        cached_position(first.parse_cache@, sql, 0) matches Some(at) ==> parsed(sql) == Ok::<
            Seq<StatementView>,
            ErrorView,
        >(first.parse_cache@[at as int].statements),
{
    lemma_position(first.parse_cache@, sql, 0);
}

proof fn lemma_recovered_skips(
    catalog: CatalogView,
    records: Seq<RecordView>,
    checkpoint: u64,
    expected: u64,
    floats: Floats,
    from: nat,
)
    requires
        forall|i: int| 0 <= i < records.len() ==> (#[trigger] records[i]).sequence <= checkpoint,
    ensures
        recovered(catalog, records, checkpoint, expected, floats, from) == Ok::<CatalogView, ErrorView>(catalog),
    decreases records.len() - from,
{
    if from < records.len() {
        lemma_recovered_skips(catalog, records, checkpoint, expected, floats, from + 1);
    }
}

/// Records that the checkpoint already holds change nothing.
pub proof fn law_checkpointed_records_are_skipped(catalog: CatalogView, records: Seq<RecordView>, floats: Floats)
    requires
        catalog.durable_sequence < u64::MAX,
        forall|i: int| 0 <= i < records.len() ==> (#[trigger] records[i]).sequence <= catalog.durable_sequence,
    ensures
        recovery(catalog, records, floats) == Ok::<CatalogView, ErrorView>(catalog),
{
    lemma_recovered_skips(
        catalog,
        records,
        catalog.durable_sequence,
        (catalog.durable_sequence + 1) as u64,
        floats,
        0,
    );
}

proof fn lemma_recovered_sequence(
    catalog: CatalogView,
    records: Seq<RecordView>,
    checkpoint: u64,
    expected: u64,
    floats: Floats,
    from: nat,
)
    requires
        from <= records.len(),
        expected == catalog.durable_sequence + 1,
        checkpoint < expected,
    ensures
        recovered(catalog, records, checkpoint, expected, floats, from) matches Ok(after) ==> after.durable_sequence
            >= catalog.durable_sequence && after.durable_sequence <= catalog.durable_sequence + (records.len() - from),
    decreases records.len() - from,
{
    if from < records.len() {
        let record = records[from as int];
        if record.sequence <= checkpoint {
            lemma_recovered_sequence(catalog, records, checkpoint, expected, floats, from + 1);
        } else if record.sequence == expected && expected < u64::MAX {
            if let Ok(after) = replayed(catalog, record.operation, floats) {
                if after.revision != catalog.revision {
                    lemma_recovered_sequence(
                        after.sequenced(record.sequence),
                        records,
                        checkpoint,
                        (expected + 1) as u64,
                        floats,
                        from + 1,
                    );
                }
            }
        }
    }
}

/// Recovery never goes back behind the checkpoint, and counts at most one change for each record.
pub proof fn law_recovery_counts_records(catalog: CatalogView, records: Seq<RecordView>, floats: Floats)
    ensures
        recovery(catalog, records, floats) matches Ok(after) ==> catalog.durable_sequence <= after.durable_sequence
            <= catalog.durable_sequence + records.len(),
{
    if catalog.durable_sequence < u64::MAX {
        lemma_recovered_sequence(
            catalog,
            records,
            catalog.durable_sequence,
            (catalog.durable_sequence + 1) as u64,
            floats,
            0,
        );
    }
}

/// Replaying the record of a committed request gives the committed catalog again.
pub proof fn law_commit_is_recovered(catalog: CatalogView, sql: Seq<char>, floats: Floats)
    requires
        catalog.durable_sequence < u64::MAX - 1,
        answered(catalog, sql, floats) is Ok,
        answered(catalog, sql, floats)->Ok_0.0.revision != catalog.revision,
    ensures
        ({
            let after = answered(catalog, sql, floats)->Ok_0.0;
            let sequence = (catalog.durable_sequence + 1) as u64;
            &&& logged_as(catalog, after) == Ok::<Option<u64>, ErrorView>(Some(sequence))
            &&& recovery(catalog, seq![RecordView { sequence, operation: OperationView::Sql(sql) }], floats) == Ok::<
                CatalogView,
                ErrorView,
            >(committed(after, Some(sequence)))
        }),
{
    let sequence = (catalog.durable_sequence + 1) as u64;
    let records = seq![RecordView { sequence, operation: OperationView::Sql(sql) }];
    let after = answered(catalog, sql, floats)->Ok_0.0;
    assert(records[0].sequence == sequence);
    reveal(replayed);
    reveal_with_fuel(recovered, 2);
    assert(recovered(
        after.sequenced(sequence),
        records,
        catalog.durable_sequence,
        (sequence + 1) as u64,
        floats,
        1,
    ) == Ok::<CatalogView, ErrorView>(after.sequenced(sequence)));
}

} // verus!
