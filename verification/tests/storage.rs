use vectors::codec::{
    corrupt, path_io, read_bool, read_count, read_i64, read_string, read_u32, read_u64, read_u8, write_bool, write_bytes, write_count,
    write_i64, write_string, write_u32, write_u64, write_u8, ChecksumIo, Source,
};
use vectors::database::{RecoveryRecord, WalOperation};
use vectors::install::{install_next, InstallState, Tidying};
use vectors::schema::next_durable_sequence;
use vectors::snapshot::{load, magic, write_catalog};
use vectors::{Database, Error, ExecutionResult, FloatReply, FloatTask, InsertConflict, Value, Vector};

fn lanes(vector: &Vector) -> Vec<f32> {
    vector.as_slice().iter().map(|bits| f32::from_bits(*bits)).collect()
}

fn norm(values: &[f32]) -> f64 {
    values.iter().map(|value| f64::from(*value) * f64::from(*value)).sum::<f64>().sqrt()
}

fn squared(left: &[f32], right: &[f32]) -> f32 {
    left.iter().zip(right).map(|(a, b)| (a - b) * (a - b)).sum()
}

fn number(value: f64) -> FloatReply {
    FloatReply::Number(value.to_bits())
}

fn evaluate(task: FloatTask) -> FloatReply {
    let real = f64::from_bits;
    match task {
        FloatTask::Add(a, b) => number(real(a) + real(b)),
        FloatTask::Subtract(a, b) => number(real(a) - real(b)),
        FloatTask::Multiply(a, b) => number(real(a) * real(b)),
        FloatTask::Divide(a, b) => number(real(a) / real(b)),
        FloatTask::Remainder(a, b) => number(real(a) % real(b)),
        FloatTask::Logarithm(a) => number(real(a).ln()),
        FloatTask::FromInteger(a) => number(a as f64),
        FloatTask::FromCount(a) => number(a as f64),
        FloatTask::Parse(text) => match text.parse::<f64>() {
            Ok(value) => number(value),
            Err(_) => FloatReply::Nothing,
        },
        FloatTask::Narrow(a) => FloatReply::Element((real(a) as f32).to_bits()),
        FloatTask::Text(a) => FloatReply::Text(format!("{}", real(a))),
        FloatTask::SourceText(a) => FloatReply::Text(format!("{:?}", real(a))),
        FloatTask::Thousandths(a) => FloatReply::Text(format!("{:.3}", real(a))),
        FloatTask::ElementText(a) => FloatReply::Text(format!("{}", f32::from_bits(a))),
        FloatTask::ElementSourceText(a) => FloatReply::Text(format!("{:?}", f32::from_bits(a))),
        FloatTask::Norm(a) => number(norm(&lanes(&a))),
        FloatTask::Normalize(a) => {
            let values = lanes(&a);
            let length = norm(&values);
            FloatReply::Elements(values.iter().map(|value| ((f64::from(*value) / length) as f32).to_bits()).collect())
        }
        FloatTask::SquaredDistance(a, b) => number(f64::from(squared(&lanes(&a), &lanes(&b)))),
        FloatTask::Distance(a, b) => number(f64::from(squared(&lanes(&a), &lanes(&b)).sqrt())),
        FloatTask::DotProduct(a, b) => {
            let sum: f32 = lanes(&a).iter().zip(lanes(&b)).map(|(x, y)| x * y).sum();
            number(f64::from(sum))
        }
        FloatTask::CosineDistance(a, b) => {
            let (left, right) = (lanes(&a), lanes(&b));
            let dot: f64 = left.iter().zip(&right).map(|(x, y)| f64::from(*x) * f64::from(*y)).sum();
            number(f64::from((1.0 - dot / (norm(&left) * norm(&right))) as f32))
        }
    }
}

fn take<T>(result: Result<T, Error>) -> T {
    match result {
        Ok(value) => value,
        Err(error) => panic!("{}", error.message()),
    }
}

fn filled() -> Database {
    let mut database = Database::new();
    let sql = "CREATE TABLE items (id INTEGER PRIMARY KEY, title TEXT, score FLOAT, ok BOOLEAN, place VECTOR(2)); \
               INSERT INTO items VALUES (1, 'one', 1.5, TRUE, [1.0, 2.0]), (2, NULL, NULL, FALSE, NULL); \
               CREATE INDEX by_title ON items (title)";
    take(database.execute(&evaluate, sql));
    database
}

fn rows(database: &mut Database, sql: &str) -> Vec<String> {
    match take(database.execute(&evaluate, sql)).pop() {
        Some(ExecutionResult::Query(result)) => result
            .rows
            .iter()
            .map(|row| row.iter().map(|value| value.to_text(&evaluate)).collect::<Vec<_>>().join("|"))
            .collect(),
        _ => panic!("expected a query"),
    }
}

fn source(bytes: Vec<u8>) -> ChecksumIo<Source> {
    ChecksumIo::new(Source { bytes, at: 0 })
}

#[test]
fn a_snapshot_gives_back_what_was_saved() {
    let mut database = filled();
    let expected = rows(&mut database, "SELECT * FROM items ORDER BY id");
    let bytes = take(write_catalog(&database.catalog));
    assert!(bytes.starts_with(&magic()));
    let mut opened = Database::of(take(load(bytes)));
    assert_eq!(rows(&mut opened, "SELECT * FROM items ORDER BY id"), expected);
    assert_eq!(expected[0], "1|one|1.5|true|[1, 2]");
    assert_eq!(opened.tables(), vec!["items".to_string()]);
    let indexes = take(opened.indexes("items"));
    assert_eq!(indexes.len(), 1);
    assert_eq!(indexes[0].name, "by_title");
    assert!(opened.execute(&evaluate, "INSERT INTO items VALUES (1, 'again', 1.0, TRUE, NULL)").is_err());
}

#[test]
fn changed_bytes_are_noticed() {
    let bytes = take(write_catalog(&filled().catalog));
    for at in [0, 9, bytes.len() / 2, bytes.len() - 1] {
        let mut changed = bytes.clone();
        changed[at] ^= 1;
        assert!(matches!(load(changed), Err(Error::CorruptSnapshot(_))), "byte {at}");
    }
    let mut short = bytes.clone();
    short.pop();
    assert!(matches!(load(short), Err(Error::CorruptSnapshot(_))));
    let mut long = bytes;
    long.push(0);
    assert!(matches!(load(long), Err(Error::CorruptSnapshot(_))));
}

#[test]
fn values_are_written_in_little_endian_order() {
    let mut writer = ChecksumIo::new(Vec::new());
    write_u8(&mut writer, 7);
    write_u32(&mut writer, 0x01020304);
    write_u64(&mut writer, 0x0102030405060708);
    write_i64(&mut writer, -2);
    write_count(&mut writer, 3);
    write_bool(&mut writer, true);
    take(write_string(&mut writer, "h\u{e9}"));
    write_bytes(&mut writer, &[9]);
    let bytes = writer.into_inner();
    assert_eq!(&bytes[..5], &[7, 4, 3, 2, 1]);
    let mut reader = source(bytes);
    assert_eq!(take(read_u8(&mut reader)), 7);
    assert_eq!(take(read_u32(&mut reader)), 0x01020304);
    assert_eq!(take(read_u64(&mut reader)), 0x0102030405060708);
    assert_eq!(take(read_i64(&mut reader)), -2);
    assert_eq!(take(read_count(&mut reader, "items", 3)), 3);
    assert!(take(read_bool(&mut reader, "flag")));
    assert_eq!(take(read_string(&mut reader)), "h\u{e9}");
    assert_eq!(take(read_u8(&mut reader)), 9);
    assert!(read_u8(&mut reader).is_err());
}

#[test]
fn counts_and_flags_are_bounded() {
    let mut writer = ChecksumIo::new(Vec::new());
    write_count(&mut writer, 4);
    let mut reader = source(writer.into_inner());
    assert!(matches!(read_count(&mut reader, "items", 3), Err(Error::CorruptSnapshot(_))));
    assert!(matches!(read_bool(&mut source(vec![2]), "flag"), Err(Error::CorruptSnapshot(_))));
    assert!(matches!(corrupt("x"), Error::CorruptSnapshot(text) if text == "x"));
    assert!(matches!(path_io("open", "f", "gone"), Error::StorageIo(_)));
}

#[test]
fn the_checksum_is_the_fnv_hash_of_the_bytes() {
    let mut writer = ChecksumIo::new(Vec::new());
    write_bytes(&mut writer, b"a");
    assert_eq!(writer.finish_hash(), 0xaf63dc4c8601ec8c);
}

#[test]
fn a_log_is_replayed_from_its_first_record_on() {
    let mut database = Database::new();
    let records = vec![
        RecoveryRecord { sequence: 1, operation: WalOperation::Sql("CREATE TABLE t (id INTEGER PRIMARY KEY)".into()) },
        RecoveryRecord {
            sequence: 2,
            operation: WalOperation::InsertRows {
                table: "t".into(),
                rows: vec![vec![Value::Integer(5)]],
                conflict: InsertConflict::Fail,
            },
        },
    ];
    take(database.recover(&evaluate, &records));
    assert_eq!(rows(&mut database, "SELECT id FROM t"), vec!["5".to_string()]);
    assert_eq!(database.catalog.durable_sequence, 2);
    let broken = vec![RecoveryRecord { sequence: 9, operation: WalOperation::Sql("SELECT 1".into()) }];
    assert!(matches!(database.recover(&evaluate, &broken), Err(Error::CorruptWal(_))));
}

#[test]
fn sequences_do_not_wrap() {
    assert_eq!(take(next_durable_sequence(4)), 5);
    assert!(next_durable_sequence(u64::MAX).is_err());
}

#[test]
fn an_old_snapshot_is_kept_until_the_new_one_stands() {
    let step = install_next(InstallState::Installing, None, true, "db");
    assert_eq!(step.state, InstallState::Ended);
    assert!(step.result.is_ok());
    assert!(step.tidying.is_empty());
    let step = install_next(InstallState::Installing, Some("exists"), true, "db");
    assert_eq!(step.state, InstallState::BackingUp);
    let step = install_next(InstallState::BackingUp, None, false, "db");
    assert_eq!(step.state, InstallState::Replacing);
    let step = install_next(InstallState::Replacing, None, true, "db");
    assert_eq!(step.tidying, vec![Tidying::DropBackup]);
    assert!(step.result.is_ok());
    let step = install_next(InstallState::Replacing, Some("full"), false, "db");
    assert_eq!(step.tidying, vec![Tidying::Restore, Tidying::DropTemporary]);
    match step.result {
        Err(error) => assert_eq!(error.message(), "storage I/O error: install replacement snapshot 'db': full"),
        Ok(()) => panic!("the failure is reported"),
    }
    let step = install_next(InstallState::Installing, Some("no room"), false, "db");
    assert_eq!(step.tidying, vec![Tidying::DropTemporary]);
    assert!(step.result.is_err());
    let step = install_next(InstallState::BackingUp, Some("locked"), true, "db");
    assert!(step.result.is_err());
}

#[test]
fn equal_databases_have_equal_snapshots() {
    let parts = [
        "CREATE TABLE beta (id INTEGER, name TEXT); INSERT INTO beta VALUES (1, 'x'), (2, 'y')",
        "CREATE TABLE alpha (id INTEGER, name TEXT); INSERT INTO alpha VALUES (7, 'z')",
    ];
    let mut first = Database::new();
    take(first.execute(&evaluate, parts[0]));
    take(first.execute(&evaluate, parts[1]));
    take(first.execute(&evaluate, "CREATE INDEX by_id ON beta (id); CREATE INDEX by_name ON beta (name)"));
    let mut second = Database::new();
    take(second.execute(&evaluate, parts[1]));
    take(second.execute(&evaluate, parts[0]));
    take(second.execute(&evaluate, "CREATE INDEX by_name ON beta (name); CREATE INDEX by_id ON beta (id)"));
    assert_eq!(take(write_catalog(&first.catalog)), take(write_catalog(&second.catalog)));
}

#[test]
fn committed_changes_are_recovered_from_the_log() {
    let mut database = Database::new();
    let mut records = Vec::new();
    for sql in ["CREATE TABLE t (id INTEGER PRIMARY KEY, name TEXT)", "SELECT * FROM t", "INSERT INTO t VALUES (1, 'a')"] {
        let staged = take(database.stage(&evaluate, sql));
        if let Some(sequence) = staged.sequence {
            records.push(RecoveryRecord { sequence, operation: WalOperation::Sql(sql.into()) });
        }
        database.commit(staged);
    }
    let given = vec![vec![Value::Integer(2), Value::Text("b".into())]];
    let staged = take(database.stage_rows(&evaluate, "t", &given, &InsertConflict::Fail));
    match staged.sequence {
        Some(sequence) => records.push(RecoveryRecord {
            sequence,
            operation: WalOperation::InsertRows { table: "t".into(), rows: given, conflict: InsertConflict::Fail },
        }),
        None => panic!("expected a change"),
    }
    database.commit_rows(staged);
    assert_eq!(records.iter().map(|record| record.sequence).collect::<Vec<_>>(), vec![1, 2, 3]);
    let mut recovered = Database::new();
    take(recovered.recover(&evaluate, &records));
    let expected = rows(&mut database, "SELECT * FROM t");
    assert_eq!(expected, vec!["1|a".to_string(), "2|b".to_string()]);
    assert_eq!(rows(&mut recovered, "SELECT * FROM t"), expected);
    assert_eq!(recovered.catalog.durable_sequence, 3);
}

/// A snapshot of one table of one integer, in the form of a version, with its checksum.
fn snapshot_of(version: u32) -> Vec<u8> {
    let mut bytes = magic().to_vec();
    bytes.extend(version.to_le_bytes());
    if version >= 3 {
        bytes.extend(9u64.to_le_bytes());
    }
    bytes.extend(1u64.to_le_bytes());
    bytes.extend(1u64.to_le_bytes());
    bytes.extend(b"t");
    bytes.extend(1u64.to_le_bytes());
    bytes.extend(2u64.to_le_bytes());
    bytes.extend(b"id");
    bytes.extend([1, 0, 1]);
    if version >= 2 {
        bytes.extend(0u64.to_le_bytes());
    }
    bytes.extend(1u64.to_le_bytes());
    bytes.push(1);
    bytes.extend(7i64.to_le_bytes());
    let mut hash = 0xcbf29ce484222325u64;
    for byte in &bytes {
        hash = (hash ^ *byte as u64).wrapping_mul(0x100000001b3);
    }
    bytes.extend(hash.to_le_bytes());
    bytes
}

#[test]
fn older_snapshots_are_still_read() {
    for version in [1, 2, 3] {
        let mut opened = Database::of(take(load(snapshot_of(version))));
        assert_eq!(opened.catalog.durable_sequence, if version == 3 { 9 } else { 0 });
        assert_eq!(rows(&mut opened, "SELECT id FROM t"), vec!["7".to_string()]);
        assert_eq!(opened.revision(), 0);
    }
    let mut longer = snapshot_of(3);
    longer.push(0);
    match load(longer) {
        Err(Error::CorruptSnapshot(text)) => assert_eq!(text, "trailing data after catalog"),
        _ => panic!("expected a refusal"),
    }
    match load(snapshot_of(4)) {
        Err(Error::CorruptSnapshot(text)) => {
            assert_eq!(text, "unsupported format version 4; supported versions are 1 through 3")
        }
        _ => panic!("expected a refusal"),
    }
}

#[test]
fn a_checkpoint_and_its_log_are_recovered() {
    let mut database = Database::new();
    let mut records = Vec::new();
    let mut checkpoint = Vec::new();
    for sql in ["CREATE TABLE t (id INTEGER PRIMARY KEY)", "INSERT INTO t VALUES (1)", "INSERT INTO t VALUES (2)"] {
        let staged = take(database.stage(&evaluate, sql));
        if let Some(sequence) = staged.sequence {
            records.push(RecoveryRecord { sequence, operation: WalOperation::Sql(sql.into()) });
        }
        database.commit(staged);
        if records.len() == 2 {
            checkpoint = take(write_catalog(&database.catalog));
        }
    }
    let mut opened = Database::of(take(load(checkpoint)));
    assert_eq!(opened.catalog.durable_sequence, 2);
    take(opened.recover(&evaluate, &records));
    assert_eq!(opened.catalog.durable_sequence, 3);
    assert_eq!(rows(&mut opened, "SELECT id FROM t"), vec!["1".to_string(), "2".to_string()]);
}

#[test]
fn an_empty_name_is_saved_but_not_read_back() {
    let mut database = Database::new();
    take(database.execute(&evaluate, "CREATE TABLE t (\"\" INTEGER)"));
    let bytes = take(write_catalog(&database.catalog));
    assert!(matches!(load(bytes), Err(Error::CorruptSnapshot(_))));
}

#[test]
fn refused_values_are_read() {
    let mut reader = source(vec![9, 0, 0, 0, 0, 0, 0, 0, 2, 1, 7]);
    assert!(read_count(&mut reader, "count", 8).is_err());
    assert_eq!(reader.inner.at, 8);
    assert!(read_bool(&mut reader, "flag").is_err());
    assert_eq!(reader.inner.at, 9);
    assert_eq!(take(read_bool(&mut reader, "flag")), true);
    assert!(read_count(&mut reader, "count", 8).is_err());
    assert_eq!(reader.inner.at, 10);
    let mut reader = source(vec![1, 0, 0, 0, 0, 0, 0, 0, 0xff, 5]);
    assert!(read_string(&mut reader).is_err());
    assert_eq!(reader.inner.at, 9);
    let mut reader = source(vec![3, 0, 0, 0, 0, 0, 0, 0, 65]);
    assert!(read_string(&mut reader).is_err());
    assert_eq!(reader.inner.at, 8);
}
