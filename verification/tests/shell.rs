use vectors::shell::{
    display_width, format_duration, input_is_complete, parse_meta_command, printable_text, unquote, write_table, yes_no, MetaCommand,
};
use vectors::unicode::is_whitespace;
use vectors::shell_run::{end_of_input, execute_sql, handle_meta_command, prompt, take_line, time_line, Followed, LineStep, HELP};
use vectors::{Database, FloatReply, FloatTask, Vector};

fn lanes(vector: &Vector) -> Vec<f32> {
    vector.as_slice().iter().map(|bits| f32::from_bits(*bits)).collect()
}

fn norm(values: &[f32]) -> f64 {
    values.iter().map(|value| f64::from(*value) * f64::from(*value)).sum::<f64>().sqrt()
}

fn squared(left: &[f32], right: &[f32]) -> f32 {
    left.iter().zip(right).map(|(a, b)| (a - b) * (a - b)).sum()
}

fn number(value: f64) -> FloatReply {
    FloatReply::Number(value.to_bits())
}

fn evaluate(task: FloatTask) -> FloatReply {
    let real = f64::from_bits;
    match task {
        FloatTask::Add(a, b) => number(real(a) + real(b)),
        FloatTask::Subtract(a, b) => number(real(a) - real(b)),
        FloatTask::Multiply(a, b) => number(real(a) * real(b)),
        FloatTask::Divide(a, b) => number(real(a) / real(b)),
        FloatTask::Remainder(a, b) => number(real(a) % real(b)),
        FloatTask::Logarithm(a) => number(real(a).ln()),
        FloatTask::FromInteger(a) => number(a as f64),
        FloatTask::FromCount(a) => number(a as f64),
        FloatTask::Parse(text) => match text.parse::<f64>() {
            Ok(value) => number(value),
            Err(_) => FloatReply::Nothing,
        },
        FloatTask::Narrow(a) => FloatReply::Element((real(a) as f32).to_bits()),
        FloatTask::Text(a) => FloatReply::Text(format!("{}", real(a))),
        FloatTask::SourceText(a) => FloatReply::Text(format!("{:?}", real(a))),
        FloatTask::Thousandths(a) => FloatReply::Text(format!("{:.3}", real(a))),
        FloatTask::ElementText(a) => FloatReply::Text(format!("{}", f32::from_bits(a))),
        FloatTask::ElementSourceText(a) => FloatReply::Text(format!("{:?}", f32::from_bits(a))),
        FloatTask::Norm(a) => number(norm(&lanes(&a))),
        FloatTask::Normalize(a) => {
            let values = lanes(&a);
            let length = norm(&values);
            FloatReply::Elements(values.iter().map(|value| ((f64::from(*value) / length) as f32).to_bits()).collect())
        }
        FloatTask::SquaredDistance(a, b) => number(f64::from(squared(&lanes(&a), &lanes(&b)))),
        FloatTask::Distance(a, b) => number(f64::from(squared(&lanes(&a), &lanes(&b)).sqrt())),
        FloatTask::DotProduct(a, b) => {
            let sum: f32 = lanes(&a).iter().zip(lanes(&b)).map(|(x, y)| x * y).sum();
            number(f64::from(sum))
        }
        FloatTask::CosineDistance(a, b) => {
            let (left, right) = (lanes(&a), lanes(&b));
            let dot: f64 = left.iter().zip(&right).map(|(x, y)| f64::from(*x) * f64::from(*y)).sum();
            number(f64::from((1.0 - dot / (norm(&left) * norm(&right))) as f32))
        }
    }
}

#[test]
fn parses_shell_commands_and_quoted_paths() {
    assert_eq!(parse_meta_command("select 1"), Ok(None));
    assert_eq!(parse_meta_command(".tables"), Ok(Some(MetaCommand::Tables)));
    assert_eq!(
        parse_meta_command(".save \"my database.vdb\""),
        Ok(Some(MetaCommand::Save("my database.vdb".into())))
    );
    assert_eq!(parse_meta_command(".timer ON"), Ok(Some(MetaCommand::Timer(true))));
    assert!(parse_meta_command(".schema").is_err());
    assert!(parse_meta_command(".unknown").is_err());
}

#[test]
fn detects_complete_sql_outside_literals_and_comments() {
    assert!(input_is_complete("SELECT 1;"));
    assert!(input_is_complete("SELECT 1; -- trailing comment"));
    assert!(input_is_complete("SELECT ';'; /* trailing comment */"));
    assert!(!input_is_complete("SELECT ';'"));
    assert!(!input_is_complete("SELECT 1; SELECT 2"));
    assert!(!input_is_complete("SELECT 1; /* unfinished"));
}

#[test]
fn escapes_control_characters_in_table_cells() {
    assert_eq!(printable_text("line one\nline two\tend"), "line one\\nline two\\tend");
}

fn follow(step: Followed, output: &mut String, errors: &mut String) -> bool {
    match step {
        Followed::Print(text) => output.push_str(&text),
        Followed::Warn(text) => errors.push_str(&text),
        Followed::Quit => return true,
        _ => panic!("no file is used here"),
    }
    false
}

fn session(input: &str) -> (String, String) {
    let mut database = Database::new();
    let mut statement = String::new();
    let mut timer = false;
    let mut output = String::new();
    let mut errors = String::new();
    for line in input.split_inclusive('\n') {
        output.push_str(prompt(&statement));
        match take_line(&mut statement, line) {
            LineStep::More => {}
            LineStep::Refuse(text) => {
                errors.push_str(&text);
                errors.push('\n');
            }
            LineStep::Command(command) => {
                let step = handle_meta_command(command, &database, &mut statement, &mut timer);
                if follow(step, &mut output, &mut errors) {
                    return (output, errors);
                }
            }
            LineStep::Execute(sql) => {
                let step = execute_sql(&evaluate, &mut database, &sql);
                follow(step, &mut output, &mut errors);
            }
        }
    }
    if let Some(message) = end_of_input(&statement) {
        errors.push_str(message);
    }
    (output, errors)
}

#[test]
fn shell_lists_metadata_and_aligns_query_results() {
    let (output, errors) = session(
        ".help\n\
         CREATE TABLE entries (\n\
             id INTEGER PRIMARY KEY,\n\
             title TEXT\n\
         );\n\
         INSERT INTO entries VALUES (1, 'short'), (2, 'longer title');\n\
         .tables\n\
         .schema entries\n\
         SELECT id, title FROM entries ORDER BY id;\n\
         .quit\n",
    );
    assert!(output.contains("     ...> "));
    assert!(output.contains(".indexes TABLE"));
    assert!(output.contains("table  \n-------\nentries"));
    assert!(output.contains("column | type    | nullable | unique"));
    assert!(output.contains("id | title       \n---+-------------"));
    assert!(output.contains("1  | short       \n2  | longer title"));
    assert!(errors.is_empty(), "{errors}");
}

#[test]
fn commands_state_why_they_are_refused() {
    assert_eq!(parse_meta_command(".help me"), Err(".help does not accept an argument".to_string()));
    assert_eq!(parse_meta_command(".READ  "), Err(".read requires an argument".to_string()));
    assert_eq!(parse_meta_command(".timer maybe"), Err(".timer expects 'on' or 'off'".to_string()));
    assert_eq!(parse_meta_command(".what"), Err("unknown command '.what'; type .help for help".to_string()));
    assert_eq!(parse_meta_command(".Exit"), Ok(Some(MetaCommand::Quit)));
    assert_eq!(parse_meta_command(".open 'a b'"), Ok(Some(MetaCommand::Open("a b".into()))));
    assert_eq!(parse_meta_command(""), Ok(None));
}

#[test]
fn quotes_are_taken_off_in_pairs() {
    assert_eq!(unquote("'a'"), "a");
    assert_eq!(unquote("\"\""), "");
    assert_eq!(unquote("'a\""), "'a\"");
    assert_eq!(unquote("'"), "'");
}

#[test]
fn a_started_statement_refuses_other_commands() {
    let mut statement = String::new();
    assert_eq!(take_line(&mut statement, "SELECT\n"), LineStep::More);
    assert_eq!(prompt(&statement), "     ...> ");
    assert_eq!(
        take_line(&mut statement, ".tables\n"),
        LineStep::Refuse("error: finish the current SQL statement or use .cancel".into())
    );
    assert_eq!(statement, "SELECT\n");
    assert_eq!(take_line(&mut statement, ".cancel\n"), LineStep::Command(MetaCommand::Cancel));
    let database = Database::new();
    let mut timer = false;
    let step = handle_meta_command(MetaCommand::Cancel, &database, &mut statement, &mut timer);
    assert_eq!(step, Followed::Print("statement canceled\n".into()));
    assert_eq!(statement, "");
    let step = handle_meta_command(MetaCommand::Cancel, &database, &mut statement, &mut timer);
    assert_eq!(step, Followed::Print("(no pending statement)\n".into()));
}

#[test]
fn an_executed_statement_is_taken_whole() {
    let mut statement = String::new();
    assert_eq!(take_line(&mut statement, "SELECT\n"), LineStep::More);
    assert_eq!(take_line(&mut statement, "1;\n"), LineStep::Execute("SELECT\n1;\n".into()));
    assert_eq!(statement, "");
    assert_eq!(end_of_input(&statement), None);
    assert_eq!(end_of_input("SELECT"), Some("error: incomplete SQL discarded"));
    assert_eq!(take_line(&mut statement, "  \n"), LineStep::More);
    assert_eq!(statement, "");
}

#[test]
fn commands_without_files_are_followed() {
    let database = Database::new();
    let mut statement = String::new();
    let mut timer = false;
    let step = handle_meta_command(MetaCommand::Tables, &database, &mut statement, &mut timer);
    assert_eq!(step, Followed::Print("(no tables)\n".into()));
    let step = handle_meta_command(MetaCommand::Timer(true), &database, &mut statement, &mut timer);
    assert_eq!(step, Followed::Print("timer on\n".into()));
    assert!(timer);
    let step = handle_meta_command(MetaCommand::Schema("x".into()), &database, &mut statement, &mut timer);
    assert_eq!(step, Followed::Warn("error: table 'x' does not exist\n".into()));
    let step = handle_meta_command(MetaCommand::Indexes("x".into()), &database, &mut statement, &mut timer);
    assert_eq!(step, Followed::Warn("error: table 'x' does not exist\n".into()));
    let step = handle_meta_command(MetaCommand::Save("f".into()), &database, &mut statement, &mut timer);
    assert_eq!(step, Followed::Save("f".into()));
    assert_eq!(handle_meta_command(MetaCommand::Quit, &database, &mut statement, &mut timer), Followed::Quit);
    let step = handle_meta_command(MetaCommand::Help, &database, &mut statement, &mut timer);
    assert_eq!(step, Followed::Print(format!("{HELP}\n")));
}

#[test]
fn results_are_printed_with_their_counts() {
    let mut database = Database::new();
    let step = execute_sql(&evaluate, &mut database, "CREATE TABLE t (a TEXT); INSERT INTO t VALUES ('x\ny'), (NULL)");
    match step {
        Followed::Print(text) => assert!(text.ends_with(" (2 row(s))\n"), "{text}"),
        other => panic!("{other:?}"),
    }
    let step = execute_sql(&evaluate, &mut database, "SELECT a FROM t");
    assert_eq!(step, Followed::Print("a   \n----\nx\\ny\nNULL\n(2 row(s), 2 examined)\n".into()));
    let step = execute_sql(&evaluate, &mut database, "SELECT a FROM u");
    assert_eq!(step, Followed::Warn("error: table 'u' does not exist\n".into()));
}

#[test]
fn durations_have_three_digits() {
    assert_eq!(format_duration(&evaluate, 1, 0), "1.000 s");
    assert_eq!(format_duration(&evaluate, 0, 999_999_999), "1000.000 ms");
    assert_eq!(format_duration(&evaluate, 0, 1_500_000), "1.500 ms");
    assert_eq!(time_line(&evaluate, 2, 250_000_000), "Time: 2.250 s\n");
}

#[test]
fn control_characters_are_written_as_escapes() {
    assert_eq!(printable_text("\0\u{1b}\u{7f}\u{9f}\r"), "\\u{0}\\u{1b}\\u{7f}\\u{9f}\\r");
    assert_eq!(printable_text("caf\u{e9} \\ '\u{a0}"), "caf\u{e9} \\ '\u{a0}");
}

#[test]
fn tables_align_their_columns() {
    let mut out = Vec::new();
    let rows = vec![vec!["1".to_string()], vec!["22".to_string(), "\u{e9}".to_string(), "extra".to_string()]];
    write_table(&mut out, &vec!["a".to_string(), "bcd".to_string()], &rows);
    let text: String = out.into_iter().collect();
    assert_eq!(text, "a  | bcd\n---+----\n1  |    \n22 | \u{e9}  \n");
    assert_eq!(display_width("\u{e9}\u{e9}"), 2);
    assert_eq!(yes_no(true), "yes");
    assert_eq!(yes_no(false), "no");
}

#[test]
fn doubled_quotes_stay_inside_a_literal() {
    assert!(!input_is_complete("SELECT 'it''s;"));
    assert!(input_is_complete("SELECT 'it''s';"));
    assert!(!input_is_complete("SELECT \"a\"\";"));
    assert!(input_is_complete("SELECT 1; -- done\n  "));
    assert!(!input_is_complete("-- SELECT 1;"));
    assert!(!input_is_complete(""));
}

#[test]
fn the_shell_knows_its_lesson_and_its_checkpoint() {
    assert_eq!(parse_meta_command(".tutorial"), Ok(Some(MetaCommand::Tutorial)));
    assert_eq!(parse_meta_command(".CHECKPOINT "), Ok(Some(MetaCommand::Checkpoint)));
    assert_eq!(parse_meta_command(".tutorial now"), Err(".tutorial does not accept an argument".into()));
    assert_eq!(parse_meta_command(".checkpoint now"), Err(".checkpoint does not accept an argument".into()));
    let database = Database::new();
    let mut statement = String::new();
    let mut timer = false;
    let step = handle_meta_command(MetaCommand::Checkpoint, &database, &mut statement, &mut timer);
    assert_eq!(step, Followed::Checkpoint);
    match handle_meta_command(MetaCommand::Tutorial, &database, &mut statement, &mut timer) {
        Followed::Print(text) => assert!(text.contains("CREATE TABLE points")),
        step => panic!("unexpected {step:?}"),
    }
    match handle_meta_command(MetaCommand::Help, &database, &mut statement, &mut timer) {
        Followed::Print(text) => assert!(text.contains(".tutorial") && text.contains(".checkpoint")),
        step => panic!("unexpected {step:?}"),
    }
}

#[test]
fn white_space_behind_a_text_changes_nothing() {
    for text in ["SELECT 1;", "SELECT 1", "SELECT ';", "SELECT \"a", "SELECT 1; -- x", "SELECT 1; /* x", "SELECT 1 -", "SELECT 1 /", ""] {
        for space in [" ", "\n", "\t \r\n", "\u{3000}\u{85}"] {
            assert_eq!(input_is_complete(&format!("{text}{space}")), input_is_complete(text), "{text:?}");
        }
    }
}

#[test]
fn white_space_is_that_of_unicode() {
    for c in '\0'..=char::MAX {
        assert_eq!(is_whitespace(c), c.is_whitespace(), "{c:?}");
    }
}
