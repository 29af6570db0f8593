use vectors::ast::{Body, Statement};
use vectors::cache::{PARSE_CACHE_MAX_ENTRIES, PARSE_CACHE_MAX_ENTRY_BYTES, PARSE_CACHE_MAX_SQL_BYTES};
use vectors::index::{hash_of, HashIndex, UniqueMap};
use vectors::join_query::run_join_query;
use vectors::notation::spell_tokens;
use vectors::parseable::is_parseable;
use vectors::tokens::{SqlToken, TokenKind};
use vectors::value::{is_same_value, UniqueKey};
use vectors::{
    bind_parameters, Database, Error, ExecutionResult, FloatReply, FloatTask, InsertConflict, QueryColumnRole, QueryResult,
    Value, Vector,
};

fn lanes(vector: &Vector) -> Vec<f32> {
    vector.as_slice().iter().map(|bits| f32::from_bits(*bits)).collect()
}

fn norm(values: &[f32]) -> f64 {
    values.iter().map(|value| f64::from(*value) * f64::from(*value)).sum::<f64>().sqrt()
}

fn squared(left: &[f32], right: &[f32]) -> f32 {
    left.iter().zip(right).map(|(a, b)| (a - b) * (a - b)).sum()
}

fn number(value: f64) -> FloatReply {
    FloatReply::Number(value.to_bits())
}

fn evaluate(task: FloatTask) -> FloatReply {
    let real = f64::from_bits;
    match task {
        FloatTask::Add(a, b) => number(real(a) + real(b)),
        FloatTask::Subtract(a, b) => number(real(a) - real(b)),
        FloatTask::Multiply(a, b) => number(real(a) * real(b)),
        FloatTask::Divide(a, b) => number(real(a) / real(b)),
        FloatTask::Remainder(a, b) => number(real(a) % real(b)),
        FloatTask::Logarithm(a) => number(real(a).ln()),
        FloatTask::FromInteger(a) => number(a as f64),
        FloatTask::FromCount(a) => number(a as f64),
        FloatTask::Parse(text) => match text.parse::<f64>() {
            Ok(value) => number(value),
            Err(_) => FloatReply::Nothing,
        },
        FloatTask::Narrow(a) => FloatReply::Element((real(a) as f32).to_bits()),
        FloatTask::Text(a) => FloatReply::Text(format!("{}", real(a))),
        FloatTask::SourceText(a) => FloatReply::Text(format!("{:?}", real(a))),
        FloatTask::Thousandths(a) => FloatReply::Text(format!("{:.3}", real(a))),
        FloatTask::ElementText(a) => FloatReply::Text(format!("{}", f32::from_bits(a))),
        FloatTask::ElementSourceText(a) => FloatReply::Text(format!("{:?}", f32::from_bits(a))),
        FloatTask::Norm(a) => number(norm(&lanes(&a))),
        FloatTask::Normalize(a) => {
            let values = lanes(&a);
            let length = norm(&values);
            FloatReply::Elements(values.iter().map(|value| ((f64::from(*value) / length) as f32).to_bits()).collect())
        }
        FloatTask::SquaredDistance(a, b) => number(f64::from(squared(&lanes(&a), &lanes(&b)))),
        FloatTask::Distance(a, b) => number(f64::from(squared(&lanes(&a), &lanes(&b)).sqrt())),
        FloatTask::DotProduct(a, b) => {
            let sum: f32 = lanes(&a).iter().zip(lanes(&b)).map(|(x, y)| x * y).sum();
            number(f64::from(sum))
        }
        FloatTask::CosineDistance(a, b) => {
            let (left, right) = (lanes(&a), lanes(&b));
            let dot: f64 = left.iter().zip(&right).map(|(x, y)| f64::from(*x) * f64::from(*y)).sum();
            number(f64::from((1.0 - dot / (norm(&left) * norm(&right))) as f32))
        }
    }
}

fn run(database: &mut Database, sql: &str) -> Vec<ExecutionResult> {
    match database.execute(&evaluate, sql) {
        Ok(results) => results,
        Err(error) => panic!("{sql}: {}", error.message()),
    }
}

fn refuse(database: &mut Database, sql: &str) -> Error {
    match database.execute(&evaluate, sql) {
        Ok(_) => panic!("accepted {sql}"),
        Err(error) => error,
    }
}

fn query(database: &mut Database, sql: &str) -> QueryResult {
    let mut results = run(database, sql);
    match results.pop() {
        Some(ExecutionResult::Query(result)) => result,
        _ => panic!("expected a query result"),
    }
}

fn cells(result: &QueryResult) -> Vec<Vec<String>> {
    result.rows.iter().map(|row| row.iter().map(|value| value.to_text(&evaluate)).collect()).collect()
}

fn shown(database: &mut Database, sql: &str) -> Vec<Vec<String>> {
    let result = query(database, sql);
    cells(&result)
}

fn affected(result: &ExecutionResult) -> usize {
    match result {
        ExecutionResult::Command { rows_affected, .. } => *rows_affected,
        _ => panic!("expected a command"),
    }
}

fn row(values: &[&str]) -> Vec<String> {
    values.iter().map(|value| value.to_string()).collect()
}

fn people() -> Database {
    let mut database = Database::new();
    run(&mut database, "CREATE TABLE people (id INTEGER PRIMARY KEY, name TEXT NOT NULL, age INTEGER, score FLOAT)");
    run(
        &mut database,
        "INSERT INTO people VALUES (1, 'Ada', 36, 9.5), (2, 'Bob', 25, 7.25), (3, 'Cy', NULL, 8.0), (4, 'Di', 25, NULL)",
    );
    database
}

#[test]
fn parse_cache_is_shared_bounded_and_catalog_independent() {
    let mut database = Database::new();
    run(&mut database, "CREATE TABLE cached (id INTEGER PRIMARY KEY)");
    let query_text = "SELECT COUNT(*) FROM cached";
    assert_eq!(run(&mut database, query_text).len(), 1);
    run(&mut database, "INSERT INTO cached VALUES (1)");
    let result = run(&mut database, query_text);
    let ExecutionResult::Query(result) = &result[0] else {
        panic!("expected a query result");
    };
    assert_eq!(result.rows.len(), 1);
    assert_eq!(result.rows[0].len(), 1);
    assert!(is_same_value(&result.rows[0][0], &Value::Integer(1)));

    for value in 0..(PARSE_CACHE_MAX_ENTRIES + 16) {
        run(&mut database, &format!("SELECT {value}"));
    }
    let oversized = format!("SELECT 1 -- {}", "x".repeat(PARSE_CACHE_MAX_ENTRY_BYTES));
    run(&mut database, &oversized);
    assert!(matches!(refuse(&mut database, "SELECT ("), Error::Parse(_)));

    let cache = &database.parse_cache;
    assert_eq!(cache.entries.len(), PARSE_CACHE_MAX_ENTRIES);
    assert!(cache.sql_bytes <= PARSE_CACHE_MAX_SQL_BYTES);
    assert!(!cache.entries.iter().any(|entry| entry.sql == oversized));
    assert!(!cache.entries.iter().any(|entry| entry.sql == "SELECT ("));
    assert_eq!(cache.entries.first().map(|entry| entry.sql.as_str()), Some("SELECT 79"));
}

#[test]
fn a_request_is_all_or_nothing() {
    let mut database = people();
    let error = refuse(&mut database, "INSERT INTO people VALUES (9, 'New', 1, 1.0); INSERT INTO people VALUES (1, 'Twice', 1, 1.0)");
    assert!(matches!(error, Error::UniqueViolation(_)), "{}", error.message());
    assert_eq!(shown(&mut database, "SELECT COUNT(*) FROM people"), vec![row(&["4"])]);
}

#[test]
fn refused_statements_do_not_change_the_revision() {
    let mut database = people();
    let before = database.revision();
    refuse(&mut database, "INSERT INTO people VALUES (1, 'Twice', 1, 1.0)");
    refuse(&mut database, "SELECT missing FROM people");
    assert_eq!(database.revision(), before);
    assert_eq!(database.changed_since(Some(before)), None);
    run(&mut database, "DELETE FROM people WHERE id = 4");
    assert_eq!(database.changed_since(Some(before)), Some(database.revision()));
    assert!(database.revision() > before);
}

#[test]
fn a_query_does_not_change_the_revision() {
    let mut database = people();
    let before = database.revision();
    run(&mut database, "SELECT * FROM people ORDER BY id");
    run(&mut database, "UPDATE people SET age = 1 WHERE id = 77");
    assert_eq!(database.revision(), before);
}

#[test]
fn filters_orders_and_limits_rows() {
    let mut database = people();
    assert_eq!(
        shown(&mut database, "SELECT id, name FROM people WHERE age = 25 ORDER BY name DESC"),
        vec![row(&["4", "Di"]), row(&["2", "Bob"])]
    );
    assert_eq!(
        shown(&mut database, "SELECT name FROM people ORDER BY id LIMIT 2 OFFSET 1"),
        vec![row(&["Bob"]), row(&["Cy"])]
    );
    assert_eq!(
        shown(&mut database, "SELECT name FROM people WHERE age IS NULL OR score IS NULL ORDER BY id"),
        vec![row(&["Cy"]), row(&["Di"])]
    );
    assert_eq!(
        shown(&mut database, "SELECT id FROM people WHERE name LIKE '_i' ORDER BY id"),
        vec![row(&["4"])]
    );
    assert_eq!(
        shown(&mut database, "SELECT id FROM people WHERE id IN (3, 1) ORDER BY id"),
        vec![row(&["1"]), row(&["3"])]
    );
    assert_eq!(
        shown(&mut database, "SELECT id FROM people WHERE age BETWEEN 20 AND 30 ORDER BY id"),
        vec![row(&["2"]), row(&["4"])]
    );
}

#[test]
fn null_is_neither_equal_nor_unequal() {
    let mut database = people();
    assert_eq!(shown(&mut database, "SELECT COUNT(*) FROM people WHERE age = NULL"), vec![row(&["0"])]);
    assert_eq!(shown(&mut database, "SELECT COUNT(*) FROM people WHERE age <> 25"), vec![row(&["1"])]);
    assert_eq!(shown(&mut database, "SELECT COUNT(*) FROM people WHERE NOT (age = 25)"), vec![row(&["1"])]);
}

#[test]
fn aggregates_have_exact_values() {
    let mut database = people();
    assert_eq!(
        shown(&mut database, "SELECT COUNT(*), COUNT(age), SUM(age), MIN(name), MAX(age) FROM people"),
        vec![row(&["4", "3", "86", "Ada", "36"])]
    );
    assert_eq!(shown(&mut database, "SELECT SUM(score) FROM people"), vec![row(&["24.75"])]);
    assert_eq!(shown(&mut database, "SELECT AVG(score) FROM people"), vec![row(&["8.25"])]);
    assert_eq!(
        shown(&mut database, "SELECT age, COUNT(*) FROM people WHERE age IS NOT NULL GROUP BY age HAVING COUNT(*) > 1"),
        vec![row(&["25", "2"])]
    );
}

#[test]
fn integer_arithmetic_is_exact_and_checked() {
    let mut database = Database::new();
    assert_eq!(shown(&mut database, "SELECT 7 + 5 * 2"), vec![row(&["17"])]);
    assert_eq!(shown(&mut database, "SELECT 9223372036854775807"), vec![row(&["9223372036854775807"])]);
    let error = refuse(&mut database, "SELECT 9223372036854775807 + 1");
    assert!(error.message().contains("overflow"), "{}", error.message());
    let error = refuse(&mut database, "SELECT 1 % 0");
    assert!(error.message().contains("zero"), "{}", error.message());
}

#[test]
fn unique_and_nullable_columns_are_enforced() {
    let mut database = people();
    let error = refuse(&mut database, "INSERT INTO people VALUES (5, NULL, 1, 1.0)");
    assert!(matches!(error, Error::NullViolation(_)), "{}", error.message());
    let error = refuse(&mut database, "UPDATE people SET id = 1 WHERE id = 2");
    assert!(matches!(error, Error::UniqueViolation(_)), "{}", error.message());
    let error = refuse(&mut database, "INSERT INTO people VALUES ('x', 'Name', 1, 1.0)");
    assert!(matches!(error, Error::TypeMismatch { .. }), "{}", error.message());
}

#[test]
fn conflicts_are_skipped_or_updated() {
    let mut database = people();
    let results = run(&mut database, "INSERT INTO people VALUES (1, 'Other', 1, 1.0), (5, 'Eve', 5, 5.0) ON CONFLICT DO NOTHING");
    assert_eq!(affected(&results[0]), 1);
    assert_eq!(shown(&mut database, "SELECT name FROM people WHERE id = 1"), vec![row(&["Ada"])]);
    run(
        &mut database,
        "INSERT INTO people VALUES (1, 'Lovelace', 1, 1.0) ON CONFLICT (id) DO UPDATE SET name = excluded.name",
    );
    assert_eq!(shown(&mut database, "SELECT name, age FROM people WHERE id = 1"), vec![row(&["Lovelace", "36"])]);
}

#[test]
fn typed_rows_follow_the_same_rules() {
    let mut database = people();
    let rows = vec![
        vec![Value::Integer(1), Value::Text("Twice".into()), Value::Null, Value::Null],
        vec![Value::Integer(6), Value::Text("Flo".into()), Value::Null, Value::Integer(3)],
    ];
    assert!(database.insert_rows(&evaluate, "people", &rows, &InsertConflict::Fail).is_err());
    assert_eq!(shown(&mut database, "SELECT COUNT(*) FROM people"), vec![row(&["4"])]);
    let count = database.insert_rows(&evaluate, "PEOPLE", &rows, &InsertConflict::DoNothing { target: None });
    assert!(matches!(count, Ok(1)));
    assert_eq!(shown(&mut database, "SELECT name, score FROM people WHERE id = 6"), vec![row(&["Flo", "3"])]);
    let update = InsertConflict::DoUpdate { target: "id".into(), update_columns: vec!["name".into()] };
    let count = database.insert_rows(&evaluate, "people", &rows, &update);
    assert!(matches!(count, Ok(2)));
    assert_eq!(shown(&mut database, "SELECT name, age FROM people WHERE id = 1"), vec![row(&["Twice", "36"])]);
}

#[test]
fn indexes_do_not_change_results() {
    let mut database = people();
    let plain = shown(&mut database, "SELECT id FROM people WHERE age = 25 ORDER BY id");
    let examined = query(&mut database, "SELECT id FROM people WHERE age = 25 ORDER BY id").rows_examined;
    run(&mut database, "CREATE INDEX by_age ON people (age)");
    assert_eq!(shown(&mut database, "SELECT id FROM people WHERE age = 25 ORDER BY id"), plain);
    let pruned = query(&mut database, "SELECT id FROM people WHERE age = 25 ORDER BY id").rows_examined;
    assert_eq!(examined, 4);
    assert_eq!(pruned, 2);
    let indexes = match database.indexes("people") {
        Ok(indexes) => indexes,
        Err(error) => panic!("{}", error.message()),
    };
    assert_eq!(indexes.len(), 1);
    assert_eq!(indexes[0].name, "by_age");
    assert_eq!(indexes[0].column, "age");
    run(&mut database, "DROP INDEX by_age");
    assert_eq!(shown(&mut database, "SELECT id FROM people WHERE age = 25 ORDER BY id"), plain);
}

fn join(database: &mut Database, sql: &str) -> Vec<Vec<String>> {
    assert!(matches!(refuse(database, sql), Error::Unsupported(_)));
    let statements = database.parse_cache.entries[0].statements.clone();
    match &statements[0] {
        Statement::Query(query) => match &query.body {
            Body::Select(select) => match run_join_query(&evaluate, &database.catalog, select, query, None) {
                Ok(result) => cells(&result),
                Err(error) => panic!("{}", error.message()),
            },
            _ => panic!("expected a selection"),
        },
        _ => panic!("expected a query"),
    }
}

#[test]
fn joins_match_rows_and_keep_unmatched_ones() {
    let mut database = people();
    run(&mut database, "CREATE TABLE pets (owner INTEGER, pet TEXT)");
    run(&mut database, "INSERT INTO pets VALUES (1, 'cat'), (1, 'dog'), (3, 'eel'), (NULL, 'fly')");
    assert_eq!(
        join(&mut database, "SELECT p.name, q.pet FROM people p JOIN pets q ON p.id = q.owner ORDER BY p.id, q.pet"),
        vec![row(&["Ada", "cat"]), row(&["Ada", "dog"]), row(&["Cy", "eel"])]
    );
    assert_eq!(
        join(&mut database, "SELECT p.name, q.pet FROM people p LEFT JOIN pets q ON p.id = q.owner WHERE q.pet IS NULL ORDER BY p.id"),
        vec![row(&["Bob", "NULL"]), row(&["Di", "NULL"])]
    );
}

#[test]
fn joined_keys_are_compared_as_numbers() {
    let mut database = people();
    run(&mut database, "CREATE TABLE marks (owner FLOAT, mark TEXT)");
    run(&mut database, "INSERT INTO marks VALUES (1.0, 'a'), (1.5, 'b'), (3.0, 'c'), (NULL, 'd')");
    let sql = "SELECT p.name, m.mark FROM people p JOIN marks m ON p.id = m.owner ORDER BY p.id";
    let expected = vec![row(&["Ada", "a"]), row(&["Cy", "c"])];
    assert_eq!(join(&mut database, sql), expected);
    run(&mut database, "CREATE INDEX by_owner ON marks (owner)");
    assert_eq!(join(&mut database, sql), expected);
}

#[test]
fn vectors_are_ranked_by_distance() {
    let mut database = Database::new();
    run(&mut database, "CREATE TABLE items (id INTEGER PRIMARY KEY, embedding VECTOR(2))");
    run(&mut database, "INSERT INTO items VALUES (1, [1.0, 0.0]), (2, [0.0, 1.0]), (3, [0.8, 0.6]), (4, NULL)");
    assert_eq!(
        shown(&mut database, "SELECT id FROM items WHERE embedding IS NOT NULL ORDER BY cosine_distance(embedding, [1.0, 0.0]) LIMIT 2"),
        vec![row(&["1"]), row(&["3"])]
    );
    assert_eq!(shown(&mut database, "SELECT l2_distance([3.0, 4.0], [0.0, 0.0])"), vec![row(&["5"])]);
    assert_eq!(shown(&mut database, "SELECT embedding FROM items WHERE id = 3"), vec![row(&["[0.8, 0.6]"])]);
    let error = refuse(&mut database, "SELECT cosine_distance([1.0, 0.0], [0.0, 0.0])");
    assert!(matches!(error, Error::ZeroNorm));
    let error = refuse(&mut database, "SELECT l2_distance([1.0, 0.0], [0.0])");
    assert!(matches!(error, Error::DimensionMismatch { left: 2, right: 1 }), "{}", error.message());
    let error = refuse(&mut database, "INSERT INTO items VALUES (5, [1.0])");
    assert!(error.message().contains("2"), "{}", error.message());
}

#[test]
fn parameters_are_bound_as_literals() {
    let bound = bind_parameters(&evaluate, "SELECT ?, $1, '?'", &vec![Value::Text("a'b".into())]);
    assert!(matches!(bound, Err(Error::InvalidQuery(_)) | Err(Error::Parse(_))));
    let bound = bind_parameters(&evaluate, "SELECT $2, $1, '$1'", &vec![Value::Text("a'b".into()), Value::Integer(-4)]);
    match bound {
        Ok(text) => {
            let mut database = Database::new();
            assert_eq!(shown(&mut database, &text), vec![row(&["-4", "a'b", "$1"])]);
        }
        Err(error) => panic!("{}", error.message()),
    }
    assert!(bind_parameters(&evaluate, "SELECT $1", &Vec::new()).is_err());
    assert!(bind_parameters(&evaluate, "SELECT 1", &vec![Value::Null]).is_err());
}

#[test]
fn intents_name_the_columns_and_the_search() {
    let mut database = Database::new();
    run(&mut database, "CREATE TABLE notes (id INTEGER PRIMARY KEY, content TEXT, embedding VECTOR(2))");
    let intent = database.query_intent(
        &evaluate,
        "SELECT id, content, cosine_distance(embedding, [1.0, 0.0]) AS distance FROM notes ORDER BY distance LIMIT 3",
    );
    match intent {
        Ok(intent) => {
            assert_eq!(intent.table, Some("notes".to_string()));
            assert_eq!(intent.columns.len(), 3);
            assert!(matches!(intent.columns[0].role, QueryColumnRole::Identifier));
            assert!(matches!(intent.columns[1].role, QueryColumnRole::Content));
            assert!(matches!(intent.columns[2].role, QueryColumnRole::SimilarityScore));
            assert_eq!(intent.limit, Some(3));
            match intent.vector_search {
                Some(search) => {
                    assert_eq!(search.metric, "cosine_distance");
                    assert_eq!(search.column, "embedding");
                    assert_eq!(search.dimensions, 2);
                    assert!(!search.descending);
                }
                None => panic!("expected a vector search"),
            }
        }
        Err(error) => panic!("{}", error.message()),
    }
    assert!(database.query_intent(&evaluate, "DELETE FROM notes").is_err());
}

#[test]
fn missing_names_have_their_own_errors() {
    let mut database = people();
    assert!(matches!(refuse(&mut database, "SELECT * FROM nowhere"), Error::TableNotFound(_)));
    assert!(matches!(refuse(&mut database, "SELECT nothing FROM people"), Error::ColumnNotFound(_)));
    assert!(matches!(refuse(&mut database, "CREATE TABLE people (id INTEGER)"), Error::TableAlreadyExists(_)));
    assert!(matches!(refuse(&mut database, "DROP INDEX nothing"), Error::IndexNotFound(_)));
    assert!(matches!(refuse(&mut database, "CREATE TABLE twice (a INTEGER, a INTEGER)"), Error::DuplicateColumn(_)));
    assert_eq!(refuse(&mut database, "SELECT * FROM nowhere").message(), "table 'nowhere' does not exist");
}

#[test]
fn names_of_tables_are_listed_in_order() {
    let mut database = people();
    run(&mut database, "CREATE TABLE Alpha (id INTEGER)");
    assert_eq!(database.tables(), vec!["alpha".to_string(), "people".to_string()]);
    let infos = database.table_info();
    assert_eq!(infos[1].name, "people");
    assert_eq!(infos[1].row_count, 4);
    assert_eq!(infos[1].column_count, 4);
    run(&mut database, "DROP TABLE alpha");
    assert_eq!(database.tables(), vec!["people".to_string()]);
}

#[test]
fn distinct_rows_come_once() {
    let mut database = people();
    assert_eq!(
        shown(&mut database, "SELECT DISTINCT age FROM people WHERE age IS NOT NULL ORDER BY age"),
        vec![row(&["25"]), row(&["36"])]
    );
}

#[test]
fn explain_describes_a_plan() {
    let mut database = people();
    let text = cells(&query(&mut database, "EXPLAIN SELECT id FROM people WHERE id = 1")).concat().join("\n");
    assert!(text.to_lowercase().contains("people"), "{text}");
}

#[test]
fn staged_requests_become_visible_when_committed() {
    let mut database = people();
    let staged = match database.stage(&evaluate, "DELETE FROM people WHERE id = 1") {
        Ok(staged) => staged,
        Err(error) => panic!("{}", error.message()),
    };
    assert_eq!(shown(&mut database, "SELECT COUNT(*) FROM people"), vec![row(&["4"])]);
    assert_eq!(staged.sequence, Some(1));
    let results = database.commit(staged);
    assert_eq!(affected(&results[0]), 1);
    assert_eq!(shown(&mut database, "SELECT COUNT(*) FROM people"), vec![row(&["3"])]);
}

#[test]
fn the_nearest_rows_are_those_of_a_full_sort() {
    let mut database = Database::new();
    run(&mut database, "CREATE TABLE points (id INTEGER PRIMARY KEY, place VECTOR(2), kept BOOLEAN)");
    for id in 0..40 {
        let (x, y) = ((id * 17) % 41, (id * 29) % 37);
        run(&mut database, &format!("INSERT INTO points VALUES ({id}, [{x}.0, {y}.0], {})", id % 3 != 0));
    }
    for distance in ["l2_distance(place, [7.0, 11.0])", "cosine_distance(place, [3.0, 1.0])"] {
        for window in ["LIMIT 5", "LIMIT 7 OFFSET 4", "LIMIT 100"] {
            let scope = "FROM points WHERE kept = TRUE AND id > 0";
            let nearest = shown(&mut database, &format!("SELECT id {scope} ORDER BY {distance} {window}"));
            let sorted = shown(&mut database, &format!("SELECT id {scope} ORDER BY {distance}, id + 0 {window}"));
            assert_eq!(nearest, sorted, "{distance} {window}");
        }
    }
}

#[test]
fn inserted_rows_are_read_in_their_order() {
    let mut database = Database::new();
    run(&mut database, "CREATE TABLE t (a INTEGER, b TEXT)");
    assert_eq!(shown(&mut database, "SELECT * FROM t"), Vec::<Vec<String>>::new());
    run(&mut database, "INSERT INTO t VALUES (3, 'c'), (1, 'a')");
    run(&mut database, "INSERT INTO t (b, a) VALUES ('b', 2)");
    assert_eq!(shown(&mut database, "SELECT * FROM t"), vec![row(&["3", "c"]), row(&["1", "a"]), row(&["2", "b"])]);
}

#[test]
fn types_are_checked_without_rows() {
    let mut database = Database::new();
    run(&mut database, "CREATE TABLE t (a INTEGER, b TEXT)");
    let sql = "SELECT a FROM t WHERE a + 1";
    let empty = refuse(&mut database, sql).message();
    run(&mut database, "INSERT INTO t VALUES (1, 'x')");
    assert_eq!(refuse(&mut database, sql).message(), empty);
    let wrong = "SELECT a + b FROM t";
    let filled = refuse(&mut database, wrong).message();
    run(&mut database, "DELETE FROM t");
    assert_eq!(refuse(&mut database, wrong).message(), filled);
}

#[test]
fn staged_rows_become_visible_when_committed() {
    let mut database = Database::new();
    run(&mut database, "CREATE TABLE t (a INTEGER PRIMARY KEY, b FLOAT)");
    let rows = vec![vec![Value::Integer(1), Value::Integer(2)]];
    let staged = match database.stage_rows(&evaluate, "T", &rows, &InsertConflict::Fail) {
        Ok(staged) => staged,
        Err(error) => panic!("{}", error.message()),
    };
    assert_eq!(staged.sequence, Some(1));
    assert!(is_same_value(&staged.rows[0][1], &Value::Float(2.0f64.to_bits())));
    assert_eq!(shown(&mut database, "SELECT COUNT(*) FROM t"), vec![row(&["0"])]);
    assert_eq!(database.commit_rows(staged), 1);
    assert_eq!(shown(&mut database, "SELECT * FROM t"), vec![row(&["1", "2"])]);
    assert!(matches!(
        database.stage_rows(&evaluate, "t", &rows, &InsertConflict::Fail),
        Err(Error::UniqueViolation(_))
    ));
    database.reset_revision();
    assert_eq!(database.revision(), 0);
}

#[test]
fn operators_are_their_functions() {
    let mut database = Database::new();
    for (operator, function) in [("<=>", "cosine_distance"), ("<->", "l2_distance"), ("<->", "euclidean_distance")] {
        let short = shown(&mut database, &format!("SELECT [3.0, 4.0] {operator} [1.0, 0.5]"));
        let long = shown(&mut database, &format!("SELECT {function}([3.0, 4.0], [1.0, 0.5])"));
        assert_eq!(short, long, "{operator}");
        let short = refuse(&mut database, &format!("SELECT [3.0, 4.0] {operator} [1.0]")).message();
        let long = refuse(&mut database, &format!("SELECT {function}([3.0, 4.0], [1.0])")).message();
        assert_eq!(short, long, "{operator}");
    }
    assert_eq!(shown(&mut database, "SELECT [3.0, 4.0] <#> [1.0, 0.5]"), vec![row(&["-5"])]);
}

#[test]
fn intents_describe_what_is_returned() {
    let mut database = people();
    run(&mut database, "CREATE TABLE spots (id INTEGER PRIMARY KEY, spot VECTOR(2))");
    for sql in [
        "SELECT * FROM people",
        "SELECT age, COUNT(*) AS n, AVG(age) FROM people GROUP BY age HAVING COUNT(*) > 0",
        "SELECT id, l2_distance(spot, [0.0, 1.0]) AS d, id + 1 FROM spots ORDER BY d LIMIT 2",
        "SELECT spot <=> [1.0, 0.0], (id) FROM spots",
    ] {
        let intent = match database.query_intent(&evaluate, sql) {
            Ok(intent) => intent,
            Err(error) => panic!("{sql}: {}", error.message()),
        };
        let result = query(&mut database, sql);
        assert_eq!(intent.columns.len(), result.columns.len(), "{sql}");
        for (at, column) in intent.columns.iter().enumerate() {
            assert_eq!(column.output_name, result.columns[at], "{sql}");
            assert_eq!(column.data_type, result.column_types[at], "{sql}");
        }
    }
}

#[test]
fn typed_rows_are_inserted_as_sql_inserts_them() {
    let create = "CREATE TABLE t (id INTEGER PRIMARY KEY, score FLOAT, name TEXT NOT NULL)";
    let mut written = Database::new();
    run(&mut written, create);
    let results = run(&mut written, "INSERT INTO t VALUES (1, 2, 'a'), (2, NULL, 'b')");
    let mut typed = Database::new();
    run(&mut typed, create);
    let rows = vec![
        vec![Value::Integer(1), Value::Integer(2), Value::Text("a".into())],
        vec![Value::Integer(2), Value::Null, Value::Text("b".into())],
    ];
    match typed.insert_rows(&evaluate, "t", &rows, &InsertConflict::Fail) {
        Ok(count) => assert_eq!(count, affected(&results[0])),
        Err(error) => panic!("{}", error.message()),
    }
    assert_eq!(shown(&mut typed, "SELECT * FROM t"), shown(&mut written, "SELECT * FROM t"));
    assert_eq!(typed.revision(), written.revision());
    let missing = vec![vec![Value::Integer(3), Value::Null, Value::Null]];
    match typed.insert_rows(&evaluate, "t", &missing, &InsertConflict::Fail) {
        Ok(_) => panic!("accepted a missing name"),
        Err(error) => {
            assert_eq!(error.message(), refuse(&mut written, "INSERT INTO t VALUES (3, NULL, NULL)").message())
        }
    }
}

#[test]
fn a_batch_inserted_again_changes_nothing() {
    let mut database = Database::new();
    run(&mut database, "CREATE TABLE t (id INTEGER PRIMARY KEY, name TEXT)");
    let rows = vec![
        vec![Value::Integer(1), Value::Text("a".into())],
        vec![Value::Integer(1), Value::Text("b".into())],
        vec![Value::Integer(2), Value::Text("c".into())],
    ];
    let conflict = InsertConflict::DoNothing { target: None };
    for expected in [2, 0, 0] {
        match database.insert_rows(&evaluate, "t", &rows, &conflict) {
            Ok(count) => assert_eq!(count, expected),
            Err(error) => panic!("{}", error.message()),
        }
        assert_eq!(database.revision(), 2);
    }
    assert_eq!(shown(&mut database, "SELECT * FROM t"), vec![row(&["1", "a"]), row(&["2", "c"])]);
}

#[test]
fn the_revision_counts_changes_alone() {
    let mut database = people();
    let before = database.revision();
    for sql in [
        "UPDATE people SET age = 1 WHERE id = 99",
        "DELETE FROM people WHERE id = 99",
        "CREATE TABLE IF NOT EXISTS people (id INTEGER)",
        "DROP TABLE IF EXISTS nothing",
        "SELECT * FROM people; EXPLAIN SELECT * FROM people",
    ] {
        run(&mut database, sql);
        assert_eq!(database.revision(), before, "{sql}");
    }
    run(&mut database, "UPDATE people SET age = age; DELETE FROM people WHERE id = 1");
    assert_eq!(database.revision(), before + 2);
}

#[test]
fn changes_reach_the_selected_rows_alone() {
    let mut database = Database::new();
    run(&mut database, "CREATE TABLE t (id INTEGER, n INTEGER)");
    run(&mut database, "INSERT INTO t VALUES (1, 10), (2, 20), (3, NULL), (4, 40)");
    assert_eq!(affected(&run(&mut database, "UPDATE t SET n = n + id WHERE n > 10")[0]), 2);
    assert_eq!(
        shown(&mut database, "SELECT * FROM t"),
        vec![row(&["1", "10"]), row(&["2", "22"]), row(&["3", "NULL"]), row(&["4", "44"])]
    );
    assert_eq!(affected(&run(&mut database, "DELETE FROM t WHERE n < 40")[0]), 2);
    assert_eq!(shown(&mut database, "SELECT * FROM t"), vec![row(&["3", "NULL"]), row(&["4", "44"])]);
}

#[test]
fn rows_that_are_not_told_apart_stay_in_their_order() {
    let mut database = Database::new();
    run(&mut database, "CREATE TABLE t (k INTEGER, s TEXT)");
    run(&mut database, "INSERT INTO t VALUES (2, 'a'), (1, 'b'), (NULL, 'c'), (2, 'd'), (1, 'e')");
    let letters = |rows: Vec<Vec<String>>| rows.into_iter().map(|mut row| row.remove(0)).collect::<Vec<_>>().join("");
    assert_eq!(letters(shown(&mut database, "SELECT s FROM t ORDER BY k")), "beadc");
    assert_eq!(letters(shown(&mut database, "SELECT s FROM t ORDER BY k DESC")), "cadbe");
    assert_eq!(letters(shown(&mut database, "SELECT s FROM t ORDER BY k NULLS FIRST, s DESC")), "cebda");
    assert_eq!(
        shown(&mut database, "SELECT k, COUNT(*), MIN(s) FROM t GROUP BY k ORDER BY k"),
        vec![row(&["1", "2", "b"]), row(&["2", "2", "a"]), row(&["NULL", "1", "c"])]
    );
}

#[test]
fn texts_that_the_parser_cannot_be_given_are_parse_errors() {
    let mut database = people();
    for sql in [
        "REPLACE",
        "REPLACE 1",
        "SELECT 1; replace people",
        "EXPLAIN REPLACE",
        "PREPARE p AS REPLACE",
        "SELECT TOP 1.5 id FROM people",
        "SELECT TOP 99999999999999999999 id FROM people",
        "CREATE TABLE t (a INTEGER) AUTO_INCREMENT=5000000000",
        "CREATE TABLE t (a INTEGER) AUTO_INCREMENT 1.5",
        "FLUSH RELAY LOGS FOR CHANNEL",
        "FLUSH RELAY LOGS FOR CHANNEL a.",
        "GRANT SELECT ON t TO u GRANTED BY 1",
        "REVOKE SELECT ON t FROM u GRANTED BY",
    ] {
        assert!(matches!(refuse(&mut database, sql), Error::Parse(_)), "{sql}");
    }
    assert_eq!(database.revision(), 2);
}

#[test]
fn long_and_deep_texts_are_refused_before_they_are_parsed() {
    let mut database = people();
    let chain = |count: usize| format!("SELECT id FROM people WHERE id = 1{}", " OR id = 2".repeat(count));
    assert_eq!(shown(&mut database, &chain(186)).len(), 2);
    assert!(matches!(refuse(&mut database, &chain(300)), Error::Parse(_)));
    assert!(matches!(refuse(&mut database, &format!("SELECT {}1", "1*".repeat(100_000))), Error::Parse(_)));
    let negated = |count: usize| format!("SELECT id FROM people WHERE {} id = 1", "NOT ".repeat(count));
    assert_eq!(shown(&mut database, &negated(62)), vec![row(&["1"])]);
    assert!(matches!(refuse(&mut database, &negated(200)), Error::Parse(_)));
    assert!(matches!(refuse(&mut database, &format!("SELECT {}1{}", "(".repeat(5_000), ")".repeat(5_000))), Error::Parse(_)));
    assert!(matches!(refuse(&mut database, &format!("SELECT {}", "INTERVAL ".repeat(40))), Error::Parse(_)));
    assert!(matches!(refuse(&mut database, &format!("SELECT 1{}", " UNION SELECT 1, 2".repeat(500))), Error::Parse(_)));
}

#[test]
fn long_lists_are_no_depth() {
    let mut database = Database::new();
    run(&mut database, "CREATE TABLE t (id INTEGER PRIMARY KEY, v VECTOR(2))");
    let rows: Vec<String> = (0..2_000).map(|id| format!("({id}, ARRAY[-{id}, -0.5])")).collect();
    let sql = format!("INSERT INTO t VALUES {}", rows.join(", "));
    assert_eq!(affected(&run(&mut database, &sql)[0]), 2_000);
    let script = "SELECT 1; ".repeat(600);
    assert_eq!(run(&mut database, &script).len(), 600);
}

#[test]
fn replace_into_inserts() {
    let mut database = people();
    run(&mut database, "REPLACE INTO people VALUES (9, 'Zed', 1, 1.0)");
    assert_eq!(shown(&mut database, "SELECT name FROM people WHERE id = 9"), vec![row(&["Zed"])]);
    assert!(matches!(refuse(&mut database, "REPLACE INTO people VALUES (9, 'Zed', 1, 1.0)"), Error::UniqueViolation { .. }));
    assert_eq!(shown(&mut database, "SELECT id AS replace FROM people WHERE id = 9"), vec![row(&["9"])]);
}

#[test]
fn vector_operators_are_read_where_the_tokens_are() {
    let mut database = Database::new();
    run(&mut database, "CREATE TABLE t (id INTEGER PRIMARY KEY, name TEXT, v VECTOR(2))");
    run(&mut database, "INSERT INTO t VALUES (1, 'a', ARRAY[3, 4])");
    let one = vec![row(&["5"])];
    assert_eq!(shown(&mut database, "SELECT v <-> ARRAY[0, 0] FROM t"), one);
    assert_eq!(shown(&mut database, "SELECT /*/**/'*/v<->ARRAY[0, 0] FROM t"), one);
    assert_eq!(shown(&mut database, "SELECT v<->ARRAY[0, 0] FROM t WHERE name LIKE'a'OR name LIKE'\\'"), one);
    assert_eq!(shown(&mut database, "SELECT '\\', v<->ARRAY[0, 0] FROM t"), vec![row(&["\\", "5"])]);
    assert_eq!(shown(&mut database, "SELECT '<->' FROM t"), vec![row(&["<->"])]);
    assert_eq!(shown(&mut database, "SELECT v <#> ARRAY[1, 0] FROM t -- v <-> v\n"), vec![row(&["-3"])]);
}

#[test]
fn tokens_are_spelled_as_the_parser_reads_them() {
    let mark = |text: &str, column: u64| SqlToken { kind: TokenKind::Mark(text.into()), line: 1, column };
    let tokens = vec![
        SqlToken { kind: TokenKind::Word("NoKeyword".into()), line: 1, column: 1 },
        mark("<", 2),
        mark("->", 3),
        SqlToken { kind: TokenKind::Word("NoKeyword".into()), line: 1, column: 5 },
    ];
    assert_eq!(spell_tokens("v<->w", &tokens), "v OPERATOR(\"<->\") w");
    assert_eq!(spell_tokens("v<->w", &Vec::new()), "v<->w");
    let word = SqlToken { kind: TokenKind::Word("REPLACE".into()), line: 1, column: 1 };
    assert!(!is_parseable(&vec![word]));
    assert!(is_parseable(&tokens));
}

#[test]
fn texts_up_to_the_limit_are_parsed() {
    let mut database = people();
    let one = vec![row(&["1"])];
    let times = |count: usize| format!("SELECT id{} FROM people WHERE id = 1", "*1".repeat(count));
    assert_eq!(shown(&mut database, &times(186)), one);
    assert!(matches!(refuse(&mut database, &times(187)), Error::Parse(_)));
    let negated = |count: usize| format!("SELECT id FROM people WHERE {} id = 1", "NOT ".repeat(count));
    assert_eq!(shown(&mut database, &negated(62)), one);
    let known = |count: usize| format!("SELECT id FROM people WHERE (id = 1){} AND id = 1", " IS NOT NULL".repeat(count));
    assert_eq!(shown(&mut database, &known(30)), one);
    let signed = |count: usize| format!("SELECT {}id FROM people WHERE id = 1", "- ".repeat(count));
    assert_eq!(shown(&mut database, &signed(62)), one);
    let grown = |count: usize| format!("SELECT {}id{} FROM people WHERE id = 1", "(".repeat(count), "*1*1*1)".repeat(count));
    assert_eq!(shown(&mut database, &grown(10)), one);
    assert!(matches!(refuse(&mut database, &grown(40)), Error::Parse(_)));
    let stairs = |count: usize| {
        format!("SELECT id FROM people WHERE {}id = 1{}", "1 = 0 OR id = 1 AND 1 = 1 * (".repeat(count), ")".repeat(count))
    };
    assert!(matches!(refuse(&mut database, &stairs(14)), Error::Parse(_)));
}

/// Executes nested texts, among them the deepest one that is not refused for its depth.
fn answer(parts: &[(&str, &str, &str, &str)]) {
    let mut database = people();
    for (before, opened, inner, closed) in parts {
        let mut refused = |count: usize| {
            let sql = format!("{before}{}{inner}{}", opened.repeat(count), closed.repeat(count));
            let answer = database.execute(&evaluate, &sql);
            matches!(answer, Err(Error::Parse(text)) if text.contains("nested too deeply"))
        };
        let (mut taken, mut most) = (1, 400);
        assert!(!refused(taken) && refused(most), "{opened}");
        while most - taken > 1 {
            let middle = (taken + most) / 2;
            if refused(middle) {
                most = middle;
            } else {
                taken = middle;
            }
        }
        assert!(taken > 2, "{opened}");
    }
    assert_eq!(database.revision(), 2);
}

#[test]
fn bracketed_texts_are_answered() {
    answer(&[
        ("SELECT ", "(", "1", ")"),
        ("SELECT ", "1 OR (", "1", ")"),
        ("SELECT ", "1 OR 1 AND (", "1", ")"),
        ("SELECT ", "1 OR 1 AND 1 BETWEEN 1 AND (", "1", ")"),
        ("SELECT ", "1 * (", "1", ")"),
        ("SELECT ", "NOT (", "1", ")"),
        ("SELECT ", "- (", "1", ")"),
        ("SELECT ", "[", "1", "]"),
        ("SELECT ", "CAST(", "1", " AS INTEGER)"),
        ("SELECT ", "abs(", "1", ")"),
        ("SELECT ", "1 + 1 * abs(", "1", ")"),
        ("SELECT ", "coalesce(1, ", "1", ")"),
        ("SELECT ", "1 IN (", "1", ")"),
    ]);
}

#[test]
fn stairs_texts_are_answered() {
    answer(&[
        ("SELECT ", "1 OR 1 AND 1 = 1 + 1 * (", "1", ")"),
        ("SELECT ", "1 OR 1 AND 1 LIKE 1 = 1 | 1 ^ 1 & 1 + 1 * 1 || (", "1", ")"),
        ("SELECT ", "1 OR NOT 1 AND NOT 1 = - 1 * (", "1", ")"),
        ("SELECT ", "1 OR 1 AND 1 = CASE WHEN ", "1", " THEN 1 END"),
        ("SELECT ", "CASE 1 WHEN 1 THEN ", "1", " END"),
        ("SELECT ", "CASE WHEN ", "1", " THEN 1 END"),
        ("SELECT ", "CASE WHEN 1 THEN 1 ELSE ", "1", " END"),
        ("SELECT 1", " -> 1", "", ""),
        ("SELECT 1", " -> 1 AND 1", "", ""),
        ("SELECT 1", " -> 1 OR 1 AND 1 = 1 + 1 * 1", "", ""),
        ("SELECT 1", " IS DISTINCT FROM 1 AND 1", "", ""),
        ("SELECT ", "1 -> (1 OR 1 AND ", "1", ")"),
    ]);
}

#[test]
fn grown_texts_are_answered() {
    answer(&[
        ("SELECT ", "(", "1", "*1*1)"),
        ("SELECT ", "(", "1", " OR 1)"),
        ("SELECT ", "abs(", "1", "*1, 1)*1"),
        ("SELECT ", "CASE WHEN ", "1", "*1 AND 1 THEN 1 END*1"),
        ("SELECT ", "[", "1*1", "*1, 1]"),
        ("SELECT ", "(SELECT ", "1", " UNION SELECT 1)"),
    ]);
}

#[test]
fn chained_texts_are_answered() {
    answer(&[
        ("SELECT 1", "*1", "", ""),
        ("SELECT 1", " OR 1", "", ""),
        ("SELECT 1", "::INTEGER", "", ""),
        ("SELECT 1", " IS NULL", "", ""),
        ("SELECT 1", " IN (1)", "", ""),
        ("SELECT 1", " LIKE 1", "", ""),
        ("SELECT 1", " BETWEEN 1 AND 1", "", ""),
        ("SELECT 1", " !", "", ""),
        ("SELECT ", "NOT ", "1", ""),
        ("SELECT ", "- ", "1", ""),
        ("SELECT ", "INTERVAL ", "1", ""),
    ]);
}

#[test]
fn queried_texts_are_answered() {
    answer(&[
        ("SELECT ", "1 IN (SELECT 1 WHERE ", "1", ")"),
        ("SELECT ", "EXISTS (SELECT 1 WHERE ", "1", ")"),
        ("SELECT 1 FROM ", "(SELECT 1 FROM ", "t", ")"),
        ("SELECT 1 FROM ", "(", "t", ")"),
        ("SELECT 1 FROM ", "(", "t", " JOIN u)"),
        ("", "WITH a AS (", "SELECT 1", ") SELECT 1"),
        ("SELECT 1", " UNION SELECT 1", "", ""),
        ("SELECT 1 FROM t", " PIVOT(SUM(a) FOR b IN ('x'))", "", ""),
        ("SELECT 1 FROM t", " JOIN u ON 1 = 1", "", ""),
        ("SELECT CAST(1 AS INTEGER", "[]", ")", ""),
    ]);
}

#[test]
fn stated_texts_are_answered() {
    answer(&[
        ("", "EXPLAIN ", "SELECT 1", ""),
        ("", "PREPARE p AS ", "SELECT 1", ""),
        ("", "INSERT INTO people ", "SELECT 1", ""),
        ("", "CREATE PROCEDURE p AS BEGIN ", "SELECT 1", " END"),
        ("", "CREATE PROCEDURE p AS BEGIN SELECT 1; ", "SELECT 1", " END"),
    ]);
}

#[test]
fn keys_are_found_by_their_hashes() {
    assert_eq!(hash_of(&UniqueKey::Integer(7)), 0xaf63_ba4c_8601_b2c6);
    assert_eq!(hash_of(&UniqueKey::Text("ab".into())), 0x089c_4407_b545_986a);
    assert_eq!(hash_of(&UniqueKey::Vector(vec![97, 98])), 0x089c_4407_b545_986a);
    assert_eq!(hash_of(&UniqueKey::Null), 0xcbf2_9ce4_8422_2325);
    let mut index = HashIndex::new(0);
    let mut map = UniqueMap::new(0);
    let rows: Vec<Vec<Value>> = vec![
        vec![Value::Text("ab".into())],
        vec![Value::Null],
        vec![Value::Integer(7)],
        vec![Value::Text("ab".into())],
    ];
    index.extend(&rows, 0);
    map.extend(&rows, 0);
    assert_eq!(index.lookup(&UniqueKey::Text("ab".into())), vec![0, 3]);
    assert_eq!(index.lookup(&UniqueKey::Vector(vec![97, 98])), Vec::<usize>::new());
    assert_eq!(index.lookup(&UniqueKey::Null), Vec::<usize>::new());
    assert_eq!(map.lookup(&UniqueKey::Text("ab".into())), Some(3));
    assert_eq!(map.lookup(&UniqueKey::Integer(7)), Some(2));
    assert_eq!(map.lookup(&UniqueKey::Null), None);
}

#[test]
fn many_unique_rows_are_inserted_one_by_one() {
    let mut database = Database::new();
    run(&mut database, "CREATE TABLE t (id INTEGER PRIMARY KEY, name TEXT UNIQUE)");
    let rows: Vec<Vec<Value>> = (0..20_000).map(|id: i64| vec![Value::Integer(id), Value::Text(format!("n{id}"))]).collect();
    match database.insert_rows(&evaluate, "t", &rows, &InsertConflict::Fail) {
        Ok(count) => assert_eq!(count, 20_000),
        Err(error) => panic!("{}", error.message()),
    }
    assert_eq!(shown(&mut database, "SELECT id FROM t WHERE name = 'n19999'"), vec![row(&["19999"])]);
    assert!(matches!(refuse(&mut database, "INSERT INTO t VALUES (20000, 'n5')"), Error::UniqueViolation { .. }));
}

#[test]
fn external_tables_that_cannot_be_written_are_unsupported() {
    let mut database = people();
    for sql in [
        "EXPLAIN CREATE EXTERNAL TABLE t (a INTEGER)",
        "DESCRIBE CREATE EXTERNAL TABLE t (a INTEGER)",
        "PREPARE p AS CREATE EXTERNAL TABLE t (a INTEGER)",
        "CREATE PROCEDURE p AS BEGIN CREATE EXTERNAL TABLE t (a INTEGER) END",
        "CREATE PROCEDURE p AS BEGIN EXPLAIN CREATE EXTERNAL TABLE t (a INTEGER) END",
    ] {
        assert!(matches!(refuse(&mut database, sql), Error::Unsupported(_)), "{sql}");
    }
    let placed = "PREPARE p AS CREATE EXTERNAL TABLE t (a INTEGER) STORED AS PARQUET LOCATION 'x'";
    match refuse(&mut database, placed) {
        Error::Unsupported(text) => assert_eq!(text, placed),
        error => panic!("{}", error.message()),
    }
    assert_eq!(database.revision(), 2);
}

#[test]
fn keywords_are_names_where_no_statement_begins() {
    let mut database = people();
    run(&mut database, "SELECT 1 AS prepare; CREATE EXTERNAL TABLE t (a INTEGER)");
    assert_eq!(shown(&mut database, "SELECT a FROM t"), Vec::<Vec<String>>::new());
    assert_eq!(shown(&mut database, "SELECT 1 AS prepare, 2 AS replace"), vec![row(&["1", "2"])]);
    run(&mut database, "CREATE TABLE u (auto_increment INTEGER, procedure INTEGER)");
    let many = "INSERT INTO u VALUES (1, 2); ".repeat(20);
    run(&mut database, &format!("SELECT 1 AS create; {many}"));
    assert_eq!(shown(&mut database, "SELECT COUNT(*) FROM u WHERE auto_increment = 1"), vec![row(&["20"])]);
    assert_eq!(
        shown(&mut database, "SELECT 1 AS create; SELECT COUNT(*) FROM u WHERE auto_increment = 5000000000"),
        vec![row(&["0"])]
    );
}

#[test]
fn array_types_are_counted() {
    let mut database = people();
    for sql in [
        format!("CREATE TABLE t (a INTEGER{})", "[]".repeat(1_000_000)),
        format!("SELECT CAST(1 AS INTEGER{})", "[]".repeat(100_000)),
        format!("SELECT CAST(1 AS {}INTEGER{}, 1)", "STRUCT<a ".repeat(30), "[], b INTEGER>[]".repeat(30)),
        format!("SELECT 1 FROM people{}", " PIVOT(SUM(a) FOR b IN ('x'))".repeat(1_000)),
        format!("{}SELECT 1{}", "CREATE PROCEDURE p AS BEGIN SELECT 1; ".repeat(30), " END".repeat(30)),
        format!("SELECT 1{}", " -> 1 AND 1".repeat(45)),
        format!("SELECT 1{}", " IS DISTINCT FROM 1 AND 1".repeat(45)),
    ] {
        assert!(matches!(refuse(&mut database, &sql), Error::Parse(_)));
    }
    assert!(matches!(refuse(&mut database, "CREATE TABLE t (a INTEGER[][])"), Error::Unsupported(_)));
    let empty: Vec<String> = (0..1_000).map(|_| "(ARRAY[], [])".to_string()).collect();
    let sql = format!("INSERT INTO people VALUES {}", empty.join(", "));
    assert!(!matches!(refuse(&mut database, &sql), Error::Parse(_)));
}

#[test]
fn names_that_are_keywords_hide_no_depth() {
    let mut database = people();
    for sql in [
        format!("SELECT 1 AS case, {}1", "when * ".repeat(5_000)),
        format!("SELECT CASE WHEN {}1 THEN 1 END", "when * ".repeat(5_000)),
        format!("SELECT CASE WHEN {}1 THEN 1 END", "1 * end * ".repeat(5_000)),
        format!("SELECT {}1", "and * 1 * 1 * 1 * ".repeat(1_000)),
        format!("SELECT {}1", "t.and * 1 * 1 * 1 * ".repeat(1_000)),
        format!("SELECT 1{}", " BETWEEN 1 AND 1 IS NULL IS NULL IS NULL".repeat(1_000)),
        format!("SELECT 1{}", " BETWEEN and * 1 AND 1 IS NULL IS NULL IS NULL".repeat(1_000)),
        format!("SELECT 1{}", " OPERATOR(;) 1".repeat(5_000)),
        format!("SELECT 1{}", " OPERATOR(a.,) 1".repeat(5_000)),
        format!("SELECT {}1{}", "1 OR 1 AND (1 OPERATOR()) ".repeat(45), ")".repeat(45)),
    ] {
        assert!(matches!(refuse(&mut database, &sql), Error::Parse(_)));
    }
}

#[test]
fn long_cases_and_conditions_are_parsed() {
    let mut database = people();
    let parts: Vec<String> = (1..=300).map(|id| format!("WHEN id = {id} AND id IS NOT NULL THEN 'n{id}'")).collect();
    let sql = format!("SELECT CASE {} ELSE NULL END FROM people WHERE id = 1", parts.join(" "));
    assert!(matches!(refuse(&mut database, &sql), Error::Unsupported(_)));
    let parts: Vec<String> = (0..150).map(|id| format!("id BETWEEN {id} AND {id} + 1")).collect();
    let sql = format!("SELECT id FROM people WHERE {}", parts.join(" OR "));
    assert_eq!(shown(&mut database, &sql).len(), 4);
}
