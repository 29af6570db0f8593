//! What an interactive shell does with the lines that it reads.

use vstd::prelude::*;
use crate::catalog::{CatalogView, ExecutionResult, ExecutionView};
use crate::database::{answered, requested, Database};
use crate::error::{Error, ErrorView};
use crate::float::{computes, floats, FloatReply, FloatTask, Floats};
use crate::reranking::{trim, trimmed};
use crate::schema::{described_indexes, ordered_names, IndexInfo, IndexInfoView};
use crate::shell::{
    cell_rows, duration_text, format_duration, input_complete, input_is_complete, meta_command, parse_meta_command,
    print_result, result_text, table_text, write_table, yes_no, MetaCommand, MetaView,
};
use crate::text::{chars_of, decimal_count, decimal_text, join2, join3, lemma_views_push, normalized, string_of, views};
use crate::value::{Column, ColumnView};

verus! {

broadcast use {vstd::string::group_string_axioms, lemma_views_push};

/// What the help command prints.
pub const HELP: &'static str = "Shell commands:
  .help                 Show this help
  .tutorial             Show the built-in lesson
  .tables               List tables
  .schema TABLE         Show a table's columns
  .indexes TABLE        Show a table's scalar indexes
  .save PATH            Save a database snapshot
  .open PATH            Replace the current database from a snapshot
  .read PATH            Execute SQL from a file
  .checkpoint           Write a checkpoint and compact the log
  .timer on|off         Show statement execution time
  .cancel               Discard the current multiline statement
  .quit                 Exit the shell

Terminate SQL statements with a semicolon.";

/// What the tutorial command prints.
pub const TUTORIAL: &'static str = "A first lesson. Enter each statement; a semicolon ends it.

1. Create a table with a vector column:
   CREATE TABLE points (id INTEGER PRIMARY KEY, label TEXT, v VECTOR(2));

2. Insert rows:
   INSERT INTO points VALUES (1, 'near', ARRAY[0.1, 0.2]), (2, 'far', ARRAY[3, 4]);

3. Find the nearest rows:
   SELECT id, label, l2_distance(v, ARRAY[0, 0]) AS distance
   FROM points ORDER BY distance LIMIT 10;

4. Look around with .tables and .schema points, and see how a query runs with EXPLAIN.

Type .help for every command.";

/// Whether a statement has been started.
pub open spec fn pending(statement: Seq<char>) -> bool {
    trimmed(statement).len() > 0
}

fn is_pending(statement: &str) -> (result: bool)
    ensures
        result == pending(statement@),
{
    let rest = chars_of(trim(statement).as_str());
    rest.len() > 0
}

/// What is written before a line is read.
pub fn prompt(statement: &str) -> (text: &'static str)
    ensures
        text@ == (if pending(statement@) {
            "     ...> "@
        } else {
            "vectors> "@
        }),
{
    if is_pending(statement) {
        "     ...> "
    } else {
        "vectors> "
    }
}

/// What is said where the input ends with a started statement.
pub fn end_of_input(statement: &str) -> (message: Option<&'static str>)
    ensures
        match message {
            Some(text) => pending(statement@) && text@ == "error: incomplete SQL discarded"@,
            None => !pending(statement@),
        },
{
    if is_pending(statement) {
        Some("error: incomplete SQL discarded")
    } else {
        None
    }
}

/// What a line asks for.
#[derive(Debug, PartialEq, Eq)]
pub enum LineStep {
    /// To read on.
    More,
    /// To say that the line was refused.
    Refuse(String),
    /// To follow a command.
    Command(MetaCommand),
    /// To execute the statement.
    Execute(String),
}

pub enum LineView {
    More,
    Refuse(Seq<char>),
    Command(MetaView),
    Execute(Seq<char>),
}

impl View for LineStep {
    type V = LineView;

    open spec fn view(&self) -> LineView {
        match self {
            LineStep::More => LineView::More,
            LineStep::Refuse(text) => LineView::Refuse(text@),
            LineStep::Command(command) => LineView::Command(command@),
            LineStep::Execute(sql) => LineView::Execute(sql@),
        }
    }
}

/// Whether a command can be given while a statement is started.
pub open spec fn allowed_while_pending(command: MetaView) -> bool {
    command is Help || command is Cancel || command is Quit
}

/// What a line asks for, and the statement that is started after it.
pub open spec fn line_taken(statement: Seq<char>, line: Seq<char>) -> (LineView, Seq<char>) {
    match meta_command(trimmed(line)) {
        Err(reason) => (LineView::Refuse("error: "@ + reason), statement),
        Ok(Some(command)) => if pending(statement) && !allowed_while_pending(command) {
            (LineView::Refuse("error: finish the current SQL statement or use .cancel"@), statement)
        } else {
            (LineView::Command(command), statement)
        },
        Ok(None) => if !pending(line) && !pending(statement) {
            (LineView::More, statement)
        } else if input_complete(statement + line) {
            (LineView::Execute(statement + line), Seq::empty())
        } else {
            (LineView::More, statement + line)
        },
    }
}

fn is_allowed(command: &MetaCommand) -> (result: bool)
    ensures
        result == allowed_while_pending(command@),
{
    match command {
        MetaCommand::Help => true,
        MetaCommand::Cancel => true,
        MetaCommand::Quit => true,
        _ => false,
    }
}

fn no_text() -> (text: String)
    ensures
        text@ == Seq::<char>::empty(),
{
    proof {
        reveal_strlit("");
        assert(""@ =~= Seq::<char>::empty());
    }
    "".to_owned()
}

/// Takes a line.
pub fn take_line(statement: &mut String, line: &str) -> (step: LineStep)
    ensures
        (step@, final(statement)@) == line_taken(old(statement)@, line@),
{
    let short = trim(line);
    match parse_meta_command(short.as_str()) {
        Err(reason) => LineStep::Refuse(join2("error: ", reason.as_str())),
        Ok(Some(command)) => {
            if is_pending(statement.as_str()) && !is_allowed(&command) {
                LineStep::Refuse("error: finish the current SQL statement or use .cancel".to_owned())
            } else {
                LineStep::Command(command)
            }
        },
        Ok(None) => {
            if !is_pending(line) && !is_pending(statement.as_str()) {
                return LineStep::More;
            }
            let whole = join2(statement.as_str(), line);
            if input_is_complete(whole.as_str()) {
                *statement = no_text();
                LineStep::Execute(whole)
            } else {
                *statement = whole;
                LineStep::More
            }
        },
    }
}

/// What a command asks for.
#[derive(Debug, PartialEq, Eq)]
pub enum Followed {
    /// To print.
    Print(String),
    /// To say what went wrong.
    Warn(String),
    /// To save a snapshot.
    Save(String),
    /// To open a snapshot in place of the database.
    Open(String),
    /// To execute what a file holds.
    Read(String),
    /// To write a checkpoint.
    Checkpoint,
    /// To end.
    Quit,
}

pub enum FollowedView {
    Print(Seq<char>),
    Warn(Seq<char>),
    Save(Seq<char>),
    Open(Seq<char>),
    Read(Seq<char>),
    Checkpoint,
    Quit,
}

impl View for Followed {
    type V = FollowedView;

    open spec fn view(&self) -> FollowedView {
        match self {
            Followed::Print(text) => FollowedView::Print(text@),
            Followed::Warn(text) => FollowedView::Warn(text@),
            Followed::Save(path) => FollowedView::Save(path@),
            Followed::Open(path) => FollowedView::Open(path@),
            Followed::Read(path) => FollowedView::Read(path@),
            Followed::Checkpoint => FollowedView::Checkpoint,
            Followed::Quit => FollowedView::Quit,
        }
    }
}

/// A line that says what went wrong.
pub open spec fn warned(error: ErrorView) -> FollowedView {
    FollowedView::Warn("error: "@ + error.message() + seq!['\n'])
}

/// What is printed of the tables.
pub open spec fn tables_text(names: Seq<Seq<char>>) -> Seq<char> {
    if names.len() == 0 {
        "(no tables)"@ + seq!['\n']
    } else {
        table_text(seq!["table"@], names.map_values(|name: Seq<char>| seq![name])) + "("@ + decimal_text(names.len())
            + " table(s))"@ + seq!['\n']
    }
}

pub open spec fn word_of(value: bool) -> Seq<char> {
    if value {
        "yes"@
    } else {
        "no"@
    }
}

/// The cells that describe a column.
pub open spec fn column_cells(column: ColumnView) -> Seq<Seq<char>> {
    seq![column.name, column.data_type.notation(), word_of(column.nullable), word_of(column.unique)]
}

/// What is printed of the columns of a table.
pub open spec fn columns_text(columns: Seq<ColumnView>) -> Seq<char> {
    table_text(
        seq!["column"@, "type"@, "nullable"@, "unique"@],
        columns.map_values(|column: ColumnView| column_cells(column)),
    )
}

/// What is printed of the indexes of a table.
pub open spec fn indexes_text(table: Seq<char>, indexes: Seq<IndexInfoView>) -> Seq<char> {
    if indexes.len() == 0 {
        "(no scalar indexes on "@ + table + ")"@ + seq!['\n']
    } else {
        table_text(seq!["index"@, "column"@], indexes.map_values(|index: IndexInfoView| seq![index.name, index.column]))
    }
}

/// What a command asks for, the statement that is started after it, and whether times are shown.
pub open spec fn followed(command: MetaView, catalog: CatalogView, statement: Seq<char>, timer: bool) -> (
    FollowedView,
    Seq<char>,
    bool,
) {
    match command {
        MetaView::Help => (FollowedView::Print(HELP@ + seq!['\n']), statement, timer),
        MetaView::Tutorial => (FollowedView::Print(TUTORIAL@ + seq!['\n']), statement, timer),
        MetaView::Tables => (FollowedView::Print(tables_text(ordered_names(catalog.tables))), statement, timer),
        MetaView::Schema(table) => match catalog.located(normalized(table)) {
            Ok(at) => (FollowedView::Print(columns_text(catalog.tables[at as int].table.columns)), statement, timer),
            Err(error) => (warned(error), statement, timer),
        },
        MetaView::Indexes(table) => match catalog.located(normalized(table)) {
            Ok(at) => (
                FollowedView::Print(indexes_text(table, described_indexes(catalog.tables[at as int].table))),
                statement,
                timer,
            ),
            Err(error) => (warned(error), statement, timer),
        },
        MetaView::Save(path) => (FollowedView::Save(path), statement, timer),
        MetaView::Open(path) => (FollowedView::Open(path), statement, timer),
        MetaView::Read(path) => (FollowedView::Read(path), statement, timer),
        MetaView::Checkpoint => (FollowedView::Checkpoint, statement, timer),
        MetaView::Timer(enabled) => (
            FollowedView::Print(
                if enabled {
                    "timer on"@
                } else {
                    "timer off"@
                } + seq!['\n'],
            ),
            statement,
            enabled,
        ),
        MetaView::Cancel => if pending(statement) {
            (FollowedView::Print("statement canceled"@ + seq!['\n']), Seq::empty(), timer)
        } else {
            (FollowedView::Print("(no pending statement)"@ + seq!['\n']), statement, timer)
        },
        MetaView::Quit => (FollowedView::Quit, statement, timer),
    }
}

fn line_of(text: &str) -> (line: String)
    ensures
        line@ == text@ + seq!['\n'],
{
    proof {
        reveal_strlit("\n");
        assert("\n"@ =~= seq!['\n']);
    }
    join2(text, "\n")
}

fn text_of(chars: &Vec<char>) -> (text: String)
    ensures
        text@ == chars@,
{
    assert(chars@.subrange(0, chars@.len() as int) =~= chars@);
    string_of(chars, 0, chars.len())
}

fn push_tables(names: &Vec<String>) -> (rows: Vec<Vec<String>>)
    ensures
        cell_rows(rows@) == views(names@).map_values(|name: Seq<char>| seq![name]),
{
    let mut rows: Vec<Vec<String>> = Vec::new();
    let mut at: usize = 0;
    while at < names.len()
        invariant
            at <= names@.len(),
            rows@.len() == at,
            forall|i: int| 0 <= i < at ==> views((#[trigger] rows@[i])@) == seq![names@[i]@],
        decreases names@.len() - at,
    {
        let mut row: Vec<String> = Vec::new();
        row.push(names[at].clone());
        assert(views(row@) =~= seq![names@[at as int]@]);
        rows.push(row);
        at = at + 1;
    }
    assert(cell_rows(rows@) =~= views(names@).map_values(|name: Seq<char>| seq![name]));
    rows
}

fn show_tables(names: &Vec<String>) -> (text: String)
    ensures
        text@ == tables_text(views(names@)),
{
    if names.len() == 0 {
        return line_of("(no tables)");
    }
    let rows = push_tables(names);
    let mut columns: Vec<String> = Vec::new();
    columns.push("table".to_owned());
    assert(views(columns@) =~= seq!["table"@]);
    let mut out: Vec<char> = Vec::new();
    write_table(&mut out, &columns, &rows);
    assert(Seq::<char>::empty() + out@ =~= out@);
    let count = decimal_count(rows.len());
    let tail = line_of(join3("(", count.as_str(), " table(s))").as_str());
    let table = text_of(&out);
    let text = join2(table.as_str(), tail.as_str());
    assert(text@ =~= tables_text(views(names@)));
    text
}

fn push_columns(columns: &Vec<Column>) -> (rows: Vec<Vec<String>>)
    ensures
        cell_rows(rows@) == views(columns@).map_values(|column: ColumnView| column_cells(column)),
{
    let mut rows: Vec<Vec<String>> = Vec::new();
    let mut at: usize = 0;
    while at < columns.len()
        invariant
            at <= columns@.len(),
            rows@.len() == at,
            forall|i: int| 0 <= i < at ==> views((#[trigger] rows@[i])@) == column_cells(columns@[i]@),
        decreases columns@.len() - at,
    {
        let mut row: Vec<String> = Vec::new();
        row.push(columns[at].name.clone());
        row.push(columns[at].data_type.to_text());
        row.push(yes_no(columns[at].nullable));
        row.push(yes_no(columns[at].unique));
        assert(views(row@) =~= column_cells(columns@[at as int]@));
        rows.push(row);
        at = at + 1;
    }
    assert(cell_rows(rows@) =~= views(columns@).map_values(|column: ColumnView| column_cells(column)));
    rows
}

fn show_columns(columns: &Vec<Column>) -> (text: String)
    ensures
        text@ == columns_text(views(columns@)),
{
    let rows = push_columns(columns);
    let mut heads: Vec<String> = Vec::new();
    heads.push("column".to_owned());
    heads.push("type".to_owned());
    heads.push("nullable".to_owned());
    heads.push("unique".to_owned());
    assert(views(heads@) =~= seq!["column"@, "type"@, "nullable"@, "unique"@]);
    let mut out: Vec<char> = Vec::new();
    write_table(&mut out, &heads, &rows);
    assert(Seq::<char>::empty() + columns_text(views(columns@)) =~= columns_text(views(columns@)));
    text_of(&out)
}

fn push_indexes(indexes: &Vec<IndexInfo>) -> (rows: Vec<Vec<String>>)
    ensures
        cell_rows(rows@) == views(indexes@).map_values(|index: IndexInfoView| seq![index.name, index.column]),
{
    let mut rows: Vec<Vec<String>> = Vec::new();
    let mut at: usize = 0;
    while at < indexes.len()
        invariant
            at <= indexes@.len(),
            rows@.len() == at,
            forall|i: int|
                0 <= i < at ==> views((#[trigger] rows@[i])@) == seq![indexes@[i]@.name, indexes@[i]@.column],
        decreases indexes@.len() - at,
    {
        let mut row: Vec<String> = Vec::new();
        row.push(indexes[at].name.clone());
        row.push(indexes[at].column.clone());
        assert(views(row@) =~= seq![indexes@[at as int]@.name, indexes@[at as int]@.column]);
        rows.push(row);
        at = at + 1;
    }
    assert(cell_rows(rows@) =~= views(indexes@).map_values(|index: IndexInfoView| seq![index.name, index.column]));
    rows
}

fn show_indexes(table: &str, indexes: &Vec<IndexInfo>) -> (text: String)
    ensures
        text@ == indexes_text(table@, views(indexes@)),
{
    if indexes.len() == 0 {
        return line_of(join3("(no scalar indexes on ", table, ")").as_str());
    }
    let rows = push_indexes(indexes);
    let mut heads: Vec<String> = Vec::new();
    heads.push("index".to_owned());
    heads.push("column".to_owned());
    assert(views(heads@) =~= seq!["index"@, "column"@]);
    let mut out: Vec<char> = Vec::new();
    write_table(&mut out, &heads, &rows);
    assert(Seq::<char>::empty() + indexes_text(table@, views(indexes@)) =~= indexes_text(table@, views(indexes@)));
    text_of(&out)
}

fn warn(error: &Error) -> (step: Followed)
    ensures
        step@ == warned(error@),
{
    Followed::Warn(line_of(join2("error: ", error.message().as_str()).as_str()))
}

/// Follows a command as far as no file is needed.
pub fn handle_meta_command(command: MetaCommand, database: &Database, statement: &mut String, timer: &mut bool) -> (step: Followed)
    requires
        database.wf(),
    ensures
        (step@, final(statement)@, *final(timer)) == followed(command@, database.catalog@, old(statement)@, *old(timer)),
{
    match command {
        MetaCommand::Help => Followed::Print(line_of(HELP)),
        MetaCommand::Tutorial => Followed::Print(line_of(TUTORIAL)),
        MetaCommand::Tables => Followed::Print(show_tables(&database.tables())),
        MetaCommand::Schema(table) => match database.schema(table.as_str()) {
            Ok(columns) => Followed::Print(show_columns(&columns)),
            Err(error) => warn(&error),
        },
        MetaCommand::Indexes(table) => match database.indexes(table.as_str()) {
            Ok(indexes) => Followed::Print(show_indexes(table.as_str(), &indexes)),
            Err(error) => warn(&error),
        },
        MetaCommand::Save(path) => Followed::Save(path),
        MetaCommand::Open(path) => Followed::Open(path),
        MetaCommand::Read(path) => Followed::Read(path),
        MetaCommand::Checkpoint => Followed::Checkpoint,
        MetaCommand::Timer(enabled) => {
            *timer = enabled;
            if enabled {
                Followed::Print(line_of("timer on"))
            } else {
                Followed::Print(line_of("timer off"))
            }
        },
        MetaCommand::Cancel => {
            if is_pending(statement.as_str()) {
                *statement = no_text();
                Followed::Print(line_of("statement canceled"))
            } else {
                Followed::Print(line_of("(no pending statement)"))
            }
        },
        MetaCommand::Quit => Followed::Quit,
    }
}

/// What is printed of the first `count` results.
pub open spec fn results_text(results: Seq<ExecutionView>, count: nat, floats: Floats) -> Seq<char>
    decreases count,
{
    if count == 0 {
        Seq::empty()
    } else {
        results_text(results, (count - 1) as nat, floats) + result_text(results[count - 1], floats)
    }
}

/// What is printed of executed statements.
pub open spec fn execution_text(answer: Result<(CatalogView, Seq<ExecutionView>), ErrorView>, floats: Floats) -> FollowedView {
    match answer {
        Ok((_, results)) => FollowedView::Print(results_text(results, results.len(), floats)),
        Err(error) => warned(error),
    }
}

fn show_results<F: Fn(FloatTask) -> FloatReply>(f: &F, results: &Vec<ExecutionResult>) -> (text: String)
    requires
        computes(*f),
    ensures
        text@ == results_text(views(results@), results@.len(), floats(*f)),
{
    let mut out: Vec<char> = Vec::new();
    let mut at: usize = 0;
    while at < results.len()
        invariant
            computes(*f),
            at <= results@.len(),
            out@ == results_text(views(results@), at as nat, floats(*f)),
        decreases results@.len() - at,
    {
        assert(views(results@)[at as int] == results@[at as int]@);
        print_result(f, &mut out, &results[at]);
        at = at + 1;
    }
    text_of(&out)
}

/// Executes statements and says what is printed of them.
pub fn execute_sql<F: Fn(FloatTask) -> FloatReply>(f: &F, database: &mut Database, sql: &str) -> (step: Followed)
    requires
        computes(*f),
        old(database).wf(),
    ensures
        final(database).wf(),
        final(database).parse_cache@ == requested(old(database).parse_cache@, sql@),
        step@ == execution_text(answered(old(database).catalog@, sql@, floats(*f)), floats(*f)),
        match answered(old(database).catalog@, sql@, floats(*f)) {
            Ok((catalog, _)) => final(database).catalog@ == catalog,
            Err(_) => final(database).catalog@ == old(database).catalog@,
        },
{
    match database.execute(f, sql) {
        Ok(results) => Followed::Print(show_results(f, &results)),
        Err(error) => warn(&error),
    }
}

/// What is printed of the time that statements took.
pub fn time_line<F: Fn(FloatTask) -> FloatReply>(f: &F, seconds: u64, nanos: u32) -> (line: String)
    requires
        computes(*f),
    ensures
        line@ == "Time: "@ + duration_text(seconds, nanos, floats(*f)) + seq!['\n'],
{
    line_of(join2("Time: ", format_duration(f, seconds, nanos).as_str()).as_str())
}

/// A refused line leaves the started statement as it is.
pub proof fn law_refused_line_changes_nothing(statement: Seq<char>, line: Seq<char>)
    requires
        line_taken(statement, line).0 is Refuse,
    ensures
        line_taken(statement, line).1 == statement,
{
}

/// Nothing is left of a statement once it is executed.
pub proof fn law_executed_statement_is_taken(statement: Seq<char>, line: Seq<char>)
    requires
        line_taken(statement, line).0 is Execute,
    ensures
        line_taken(statement, line).0 == LineView::Execute(statement + line),
        input_complete(statement + line),
        line_taken(statement, line).1.len() == 0,
{
}

/// Of statements that fail nothing is printed but a warning.
pub proof fn law_failed_sql_only_warns(catalog: CatalogView, sql: Seq<char>, floats: Floats)
    requires
        answered(catalog, sql, floats) is Err,
    ensures
        execution_text(answered(catalog, sql, floats), floats) is Warn,
{
}

} // verus!
