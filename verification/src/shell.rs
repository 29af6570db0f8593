//! The commands of an interactive shell, when its input is complete, and how it shows results.

use vstd::prelude::*;
use crate::arithmetic::{compute_over, compute_plus, compute_times, over, plus, times, BILLION, THOUSAND};
use crate::catalog::{ExecutionResult, ExecutionView};
use crate::float::{
    compute_number, compute_text, computes, floats, notation, number, FloatReply, FloatTask, FloatTaskView, Floats,
};
use crate::reranking::{trim, trimmed};
use crate::text::{
    chars_of, decimal_count, decimal_text, join2, join3, lemma_views_push, normalize_name, normalized, same_text,
    string_of, views,
};
use crate::unicode::{is_whitespace, unicode_space};
use crate::value::{row_views, Value, ValueView};

verus! {

broadcast use {vstd::string::group_string_axioms, lemma_views_push};

/// A command of the shell.
#[derive(Debug, PartialEq, Eq)]
pub enum MetaCommand {
    Help,
    Tutorial,
    Tables,
    Schema(String),
    Indexes(String),
    Save(String),
    Open(String),
    Read(String),
    Checkpoint,
    Timer(bool),
    Cancel,
    Quit,
}

pub enum MetaView {
    Help,
    Tutorial,
    Tables,
    Schema(Seq<char>),
    Indexes(Seq<char>),
    Save(Seq<char>),
    Open(Seq<char>),
    Read(Seq<char>),
    Checkpoint,
    Timer(bool),
    Cancel,
    Quit,
}

impl View for MetaCommand {
    type V = MetaView;

    open spec fn view(&self) -> MetaView {
        match self {
            MetaCommand::Help => MetaView::Help,
            MetaCommand::Tutorial => MetaView::Tutorial,
            MetaCommand::Tables => MetaView::Tables,
            MetaCommand::Schema(table) => MetaView::Schema(table@),
            MetaCommand::Indexes(table) => MetaView::Indexes(table@),
            MetaCommand::Save(path) => MetaView::Save(path@),
            MetaCommand::Open(path) => MetaView::Open(path@),
            MetaCommand::Read(path) => MetaView::Read(path@),
            MetaCommand::Checkpoint => MetaView::Checkpoint,
            MetaCommand::Timer(enabled) => MetaView::Timer(*enabled),
            MetaCommand::Cancel => MetaView::Cancel,
            MetaCommand::Quit => MetaView::Quit,
        }
    }
}

/// A text without a pair of equal quotes around it.
pub open spec fn unquoted(text: Seq<char>) -> Seq<char> {
    if text.len() >= 2 && (text[0] == '\'' || text[0] == '"') && text.last() == text[0] {
        text.subrange(1, text.len() - 1)
    } else {
        text
    }
}

/// A text without a pair of equal quotes around it.
pub fn unquote(argument: &str) -> (text: String)
    ensures
        text@ == unquoted(argument@),
{
    let chars = chars_of(argument);
    let count: usize = chars.len();
    if count >= 2 && (chars[0] == '\'' || chars[0] == '"') && chars[count - 1] == chars[0] {
        return string_of(&chars, 1, count - 1);
    }
    argument.to_owned()
}

/// The first place, from `from` on, of white space; the length where there is none.
pub open spec fn space_at(text: Seq<char>, from: nat) -> nat
    decreases text.len() - from,
{
    if from >= text.len() || unicode_space(text[from as int]) {
        from
    } else {
        space_at(text, from + 1)
    }
}

/// What a command without an argument is.
pub open spec fn bare(name: Seq<char>, argument: Seq<char>, command: MetaView) -> Result<Option<MetaView>, Seq<char>> {
    if argument.len() > 0 {
        Err(name + " does not accept an argument"@)
    } else {
        Ok(Some(command))
    }
}

/// The argument that a command needs.
pub open spec fn needed(name: Seq<char>, argument: Seq<char>) -> Result<Seq<char>, Seq<char>> {
    if argument.len() == 0 {
        Err(name + " requires an argument"@)
    } else {
        Ok(unquoted(argument))
    }
}

/// The command of this name with this argument.
pub open spec fn command_of(name: Seq<char>, argument: Seq<char>) -> Result<Option<MetaView>, Seq<char>> {
    if name == ".help"@ {
        bare(name, argument, MetaView::Help)
    } else if name == ".tutorial"@ {
        bare(name, argument, MetaView::Tutorial)
    } else if name == ".tables"@ {
        bare(name, argument, MetaView::Tables)
    } else if name == ".schema"@ {
        match needed(name, argument) {
            Err(reason) => Err(reason),
            Ok(table) => Ok(Some(MetaView::Schema(table))),
        }
    } else if name == ".indexes"@ {
        match needed(name, argument) {
            Err(reason) => Err(reason),
            Ok(table) => Ok(Some(MetaView::Indexes(table))),
        }
    } else if name == ".save"@ {
        match needed(name, argument) {
            Err(reason) => Err(reason),
            Ok(path) => Ok(Some(MetaView::Save(path))),
        }
    } else if name == ".open"@ {
        match needed(name, argument) {
            Err(reason) => Err(reason),
            Ok(path) => Ok(Some(MetaView::Open(path))),
        }
    } else if name == ".read"@ {
        match needed(name, argument) {
            Err(reason) => Err(reason),
            Ok(path) => Ok(Some(MetaView::Read(path))),
        }
    } else if name == ".checkpoint"@ {
        bare(name, argument, MetaView::Checkpoint)
    } else if name == ".timer"@ {
        if normalized(argument) == "on"@ {
            Ok(Some(MetaView::Timer(true)))
        } else if normalized(argument) == "off"@ {
            Ok(Some(MetaView::Timer(false)))
        } else {
            Err(".timer expects 'on' or 'off'"@)
        }
    } else if name == ".cancel"@ {
        bare(name, argument, MetaView::Cancel)
    } else if name == ".quit"@ || name == ".exit"@ {
        bare(name, argument, MetaView::Quit)
    } else {
        Err("unknown command '"@ + name + "'; type .help for help"@)
    }
}

/// The command that a line is; none where it does not start with a point.
pub open spec fn meta_command(line: Seq<char>) -> Result<Option<MetaView>, Seq<char>> {
    if line.len() == 0 || line[0] != '.' {
        Ok(None)
    } else {
        let cut = space_at(line, 0) as int;
        command_of(normalized(line.take(cut)), trimmed(line.skip(cut)))
    }
}

pub open spec fn parsed_command(result: Result<Option<MetaCommand>, String>) -> Result<Option<MetaView>, Seq<char>> {
    match result {
        Ok(None) => Ok(None),
        Ok(Some(command)) => Ok(Some(command@)),
        Err(reason) => Err(reason@),
    }
}

fn is_empty(text: &str) -> (result: bool)
    ensures
        result == (text@.len() == 0),
{
    let chars = chars_of(text);
    chars.len() == 0
}

fn no_argument(name: &str, argument: &str) -> (result: Result<(), String>)
    ensures
        match result {
            Ok(_) => argument@.len() == 0,
            Err(reason) => argument@.len() > 0 && reason@ == name@ + " does not accept an argument"@,
        },
{
    if is_empty(argument) {
        Ok(())
    } else {
        Err(join2(name, " does not accept an argument"))
    }
}

fn required_argument(name: &str, argument: &str) -> (result: Result<String, String>)
    ensures
        match result {
            Ok(text) => needed(name@, argument@) == Ok::<Seq<char>, Seq<char>>(text@),
            Err(reason) => needed(name@, argument@) == Err::<Seq<char>, Seq<char>>(reason@),
        },
{
    if is_empty(argument) {
        Err(join2(name, " requires an argument"))
    } else {
        Ok(unquote(argument))
    }
}

fn name_command(name: &str, argument: &str) -> (result: Result<Option<MetaCommand>, String>)
    ensures
        parsed_command(result) == command_of(name@, argument@),
{
    if same_text(name, ".help") {
        no_argument(name, argument)?;
        Ok(Some(MetaCommand::Help))
    } else if same_text(name, ".tutorial") {
        no_argument(name, argument)?;
        Ok(Some(MetaCommand::Tutorial))
    } else if same_text(name, ".tables") {
        no_argument(name, argument)?;
        Ok(Some(MetaCommand::Tables))
    } else if same_text(name, ".schema") {
        Ok(Some(MetaCommand::Schema(required_argument(name, argument)?)))
    } else if same_text(name, ".indexes") {
        Ok(Some(MetaCommand::Indexes(required_argument(name, argument)?)))
    } else if same_text(name, ".save") {
        Ok(Some(MetaCommand::Save(required_argument(name, argument)?)))
    } else if same_text(name, ".open") {
        Ok(Some(MetaCommand::Open(required_argument(name, argument)?)))
    } else if same_text(name, ".read") {
        Ok(Some(MetaCommand::Read(required_argument(name, argument)?)))
    } else if same_text(name, ".checkpoint") {
        no_argument(name, argument)?;
        Ok(Some(MetaCommand::Checkpoint))
    } else if same_text(name, ".timer") {
        let setting = normalize_name(argument);
        if same_text(setting.as_str(), "on") {
            Ok(Some(MetaCommand::Timer(true)))
        } else if same_text(setting.as_str(), "off") {
            Ok(Some(MetaCommand::Timer(false)))
        } else {
            Err(".timer expects 'on' or 'off'".to_owned())
        }
    } else if same_text(name, ".cancel") {
        no_argument(name, argument)?;
        Ok(Some(MetaCommand::Cancel))
    } else if same_text(name, ".quit") || same_text(name, ".exit") {
        no_argument(name, argument)?;
        Ok(Some(MetaCommand::Quit))
    } else {
        Err(join3("unknown command '", name, "'; type .help for help"))
    }
}

/// The command that a line is.
pub fn parse_meta_command(line: &str) -> (result: Result<Option<MetaCommand>, String>)
    ensures
        parsed_command(result) == meta_command(line@),
{
    let chars = chars_of(line);
    if chars.len() == 0 || chars[0] != '.' {
        return Ok(None);
    }
    let mut cut: usize = 0;
    while cut < chars.len() && !is_whitespace(chars[cut])
        invariant
            chars@ == line@,
            cut <= chars@.len(),
            space_at(line@, cut as nat) == space_at(line@, 0),
        decreases chars@.len() - cut,
    {
        cut = cut + 1;
    }
    proof {
        assert(line@.subrange(0, cut as int) =~= line@.take(cut as int));
        assert(line@.subrange(cut as int, line@.len() as int) =~= line@.skip(cut as int));
    }
    let name = normalize_name(string_of(&chars, 0, cut).as_str());
    let argument = trim(string_of(&chars, cut, chars.len()).as_str());
    name_command(name.as_str(), argument.as_str())
}

/// `yes` or `no`.
pub fn yes_no(value: bool) -> (text: String)
    ensures
        text@ == (if value {
            "yes"@
        } else {
            "no"@
        }),
{
    if value {
        "yes".to_owned()
    } else {
        "no".to_owned()
    }
}

/// How many seconds a duration has, as a number.
pub open spec fn seconds_of(seconds: u64, nanos: u32, floats: Floats) -> u64 {
    plus(
        floats,
        number(floats, FloatTaskView::FromCount(seconds)),
        over(floats, number(floats, FloatTaskView::FromCount(nanos as u64)), BILLION),
    )
}

/// A duration in seconds, or in thousandths of one where it is shorter, with three digits after the
/// point.
pub open spec fn duration_text(seconds: u64, nanos: u32, floats: Floats) -> Seq<char> {
    if seconds >= 1 {
        notation(floats, FloatTaskView::Thousandths(seconds_of(seconds, nanos, floats))) + " s"@
    } else {
        notation(floats, FloatTaskView::Thousandths(times(floats, seconds_of(seconds, nanos, floats), THOUSAND))) + " ms"@
    }
}

/// A duration as it is shown.
pub fn format_duration<F: Fn(FloatTask) -> FloatReply>(f: &F, seconds: u64, nanos: u32) -> (text: String)
    requires
        computes(*f),
    ensures
        text@ == duration_text(seconds, nanos, floats(*f)),
{
    let whole: u64 = compute_number(f, FloatTask::FromCount(seconds));
    let part: u64 = compute_over(f, compute_number(f, FloatTask::FromCount(nanos as u64)), BILLION);
    let total: u64 = compute_plus(f, whole, part);
    if seconds >= 1 {
        join2(compute_text(f, FloatTask::Thousandths(total)).as_str(), " s")
    } else {
        let scaled: u64 = compute_times(f, total, THOUSAND);
        join2(compute_text(f, FloatTask::Thousandths(scaled)).as_str(), " ms")
    }
}

/// Whether a character controls a device and is not to be shown.
pub open spec fn control(c: char) -> bool {
    0 <= (c as int) < 32 || 127 <= (c as int) < 160
}

pub open spec fn hex_digit(value: int) -> char {
    if value < 10 {
        (('0' as u32) + value) as char
    } else {
        (('a' as u32) + value - 10) as char
    }
}

/// A number below 256 in hexadecimal, without a leading zero.
pub open spec fn small_hex(value: int) -> Seq<char> {
    if value < 16 {
        seq![hex_digit(value)]
    } else {
        seq![hex_digit(value / 16), hex_digit(value % 16)]
    }
}

/// How a character is shown.
pub open spec fn shown_char(c: char) -> Seq<char> {
    if c == '\n' {
        seq!['\\', 'n']
    } else if c == '\r' {
        seq!['\\', 'r']
    } else if c == '\t' {
        seq!['\\', 't']
    } else if control(c) {
        seq!['\\', 'u', '{'] + small_hex(c as int) + seq!['}']
    } else {
        seq![c]
    }
}

/// How the first `count` characters of a text are shown.
pub open spec fn shown(text: Seq<char>, count: nat) -> Seq<char>
    decreases count,
{
    if count == 0 {
        Seq::empty()
    } else {
        shown(text, (count - 1) as nat) + shown_char(text[count - 1])
    }
}

fn hex_char(value: u32) -> (c: char)
    requires
        value < 16,
    ensures
        c == hex_digit(value as int),
{
    if value < 10 {
        (48u8 + value as u8) as char
    } else {
        (97u8 + (value - 10) as u8) as char
    }
}

fn show_char(out: &mut Vec<char>, c: char)
    ensures
        final(out)@ == old(out)@ + shown_char(c),
{
    let ghost start = out@;
    if c == '\n' {
        out.push('\\');
        out.push('n');
    } else if c == '\r' {
        out.push('\\');
        out.push('r');
    } else if c == '\t' {
        out.push('\\');
        out.push('t');
    } else if (c as u32) < 32 || (127 <= c as u32 && (c as u32) < 160) {
        let code: u32 = c as u32;
        out.push('\\');
        out.push('u');
        out.push('{');
        if code >= 16 {
            out.push(hex_char(code / 16));
        }
        out.push(hex_char(code % 16));
        out.push('}');
        proof {
            if code < 16 {
                assert(code % 16 == code);
            }
        }
    } else {
        out.push(c);
    }
    assert(out@ =~= start + shown_char(c));
}

/// A text as it is shown: on one line, and without characters that control a device.
pub fn printable_text(value: &str) -> (text: String)
    ensures
        text@ == shown(value@, value@.len()),
{
    let chars = chars_of(value);
    let mut out: Vec<char> = Vec::new();
    let mut at: usize = 0;
    while at < chars.len()
        invariant
            chars@ == value@,
            at <= chars@.len(),
            out@ == shown(value@, at as nat),
        decreases chars@.len() - at,
    {
        show_char(&mut out, chars[at]);
        at = at + 1;
    }
    let total: usize = out.len();
    assert(out@.subrange(0, total as int) =~= out@);
    string_of(&out, 0, total)
}

/// What is shown holds no character that controls a device.
pub proof fn law_shown_is_plain(text: Seq<char>, count: nat, at: int)
    requires
        count <= text.len(),
        0 <= at < shown(text, count).len(),
    ensures
        !control(shown(text, count)[at]),
    decreases count,
{
    let before = shown(text, (count - 1) as nat);
    if at < before.len() {
        law_shown_is_plain(text, (count - 1) as nat, at);
    } else {
        let c = text[count - 1];
        assert(shown(text, count)[at] == shown_char(c)[at - before.len()]);
        if control(c) && c != '\n' && c != '\r' && c != '\t' {
            let code = c as int;
            assert(0 <= code < 160);
            assert(0 <= code / 16 < 16) by (nonlinear_arith)
                requires
                    0 <= code < 160,
            ;
            assert(0 <= code % 16 < 16);
            assert(hex_digit(code / 16) as int >= 48 && hex_digit(code / 16) as int <= 102);
            assert(hex_digit(code % 16) as int >= 48 && hex_digit(code % 16) as int <= 102);
        }
    }
}

/// How many characters a text has.
pub fn display_width(value: &str) -> (width: usize)
    ensures
        width == value@.len(),
{
    let chars = chars_of(value);
    chars.len()
}

/// So many of a character.
pub open spec fn repeated(c: char, count: nat) -> Seq<char> {
    Seq::new(count, |i: int| c)
}

/// The cell of a row; an empty one where there is none.
pub open spec fn cell_of(cells: Seq<Seq<char>>, at: int) -> Seq<char> {
    if at < cells.len() {
        cells[at]
    } else {
        Seq::empty()
    }
}

/// A cell with as many spaces as its column is wider.
pub open spec fn padded(cell: Seq<char>, width: nat) -> Seq<char> {
    cell + repeated(' ', (width - cell.len()) as nat)
}

/// The first `count` cells of a row.
pub open spec fn cells_text(cells: Seq<Seq<char>>, widths: Seq<usize>, count: nat) -> Seq<char>
    decreases count,
{
    if count == 0 {
        Seq::empty()
    } else {
        let before = cells_text(cells, widths, (count - 1) as nat);
        let cell = padded(cell_of(cells, count - 1), widths[count - 1] as nat);
        if count == 1 {
            before + cell
        } else {
            before + " | "@ + cell
        }
    }
}

/// A row of a table.
pub open spec fn row_text(cells: Seq<Seq<char>>, widths: Seq<usize>) -> Seq<char> {
    cells_text(cells, widths, widths.len()) + seq!['\n']
}

/// Whether every cell that is shown fits its column.
pub open spec fn cells_fit(cells: Seq<Seq<char>>, widths: Seq<usize>) -> bool {
    forall|i: int| 0 <= i < widths.len() && i < cells.len() ==> (#[trigger] cells[i]).len() <= widths[i]
}

fn push_text(out: &mut Vec<char>, text: &str)
    ensures
        final(out)@ == old(out)@ + text@,
{
    let chars = chars_of(text);
    let ghost start = out@;
    let mut at: usize = 0;
    assert(out@ =~= start + chars@.take(0));
    while at < chars.len()
        invariant
            chars@ == text@,
            at <= chars@.len(),
            out@ == start + chars@.take(at as int),
        decreases chars@.len() - at,
    {
        assert(chars@.take(at as int + 1) =~= chars@.take(at as int).push(chars@[at as int]));
        out.push(chars[at]);
        assert(out@ =~= start + chars@.take(at as int + 1));
        at = at + 1;
    }
    assert(chars@.take(at as int) =~= chars@);
}

fn push_repeated(out: &mut Vec<char>, c: char, count: usize)
    ensures
        final(out)@ == old(out)@ + repeated(c, count as nat),
{
    let ghost start = out@;
    let mut done: usize = 0;
    assert(out@ =~= start + repeated(c, 0));
    while done < count
        invariant
            done <= count,
            out@ == start + repeated(c, done as nat),
        decreases count - done,
    {
        out.push(c);
        assert(out@ =~= start + repeated(c, (done + 1) as nat));
        done = done + 1;
    }
}

/// Writes a row of a table.
pub fn write_table_row(out: &mut Vec<char>, cells: &Vec<String>, widths: &Vec<usize>)
    requires
        cells_fit(views(cells@), widths@),
    ensures
        final(out)@ == old(out)@ + row_text(views(cells@), widths@),
{
    let ghost start = out@;
    let ghost all = views(cells@);
    let mut at: usize = 0;
    assert(out@ =~= start + cells_text(all, widths@, 0));
    while at < widths.len()
        invariant
            all == views(cells@),
            cells_fit(all, widths@),
            at <= widths@.len(),
            out@ == start + cells_text(all, widths@, at as nat),
        decreases widths@.len() - at,
    {
        let ghost before = cells_text(all, widths@, at as nat);
        if at > 0 {
            push_text(out, " | ");
        }
        if at < cells.len() {
            assert(all[at as int] == cells@[at as int]@);
            push_text(out, cells[at].as_str());
            let width: usize = display_width(cells[at].as_str());
            assert(all[at as int].len() <= widths@[at as int]);
            push_repeated(out, ' ', widths[at] - width);
        } else {
            push_repeated(out, ' ', widths[at]);
        }
        assert(out@ =~= start + cells_text(all, widths@, (at + 1) as nat));
        at = at + 1;
    }
    out.push('\n');
    assert(out@ =~= start + row_text(all, widths@));
}

proof fn lemma_cells_length(left: Seq<Seq<char>>, right: Seq<Seq<char>>, widths: Seq<usize>, count: nat)
    requires
        cells_fit(left, widths),
        cells_fit(right, widths),
        count <= widths.len(),
    ensures
        cells_text(left, widths, count).len() == cells_text(right, widths, count).len(),
    decreases count,
{
    if count > 0 {
        lemma_cells_length(left, right, widths, (count - 1) as nat);
        assert(padded(cell_of(left, count - 1), widths[count - 1] as nat).len() == widths[count - 1]);
        assert(padded(cell_of(right, count - 1), widths[count - 1] as nat).len() == widths[count - 1]);
    }
}

/// Rows align: whatever their cells hold, the rows of a table are as long as each other up to any column.
pub proof fn law_rows_align(left: Seq<Seq<char>>, right: Seq<Seq<char>>, widths: Seq<usize>, count: nat)
    requires
        cells_fit(left, widths),
        cells_fit(right, widths),
        count <= widths.len(),
    ensures
        cells_text(left, widths, count).len() == cells_text(right, widths, count).len(),
        row_text(left, widths).len() == row_text(right, widths).len(),
{
    lemma_cells_length(left, right, widths, count);
    lemma_cells_length(left, right, widths, widths.len());
}

/// The widths of columns that are at least as wide as the cells of a row from `from` on.
pub open spec fn widened(widths: Seq<usize>, cells: Seq<Seq<char>>, from: nat) -> Seq<usize>
    decreases widths.len() - from,
{
    if from >= widths.len() || from >= cells.len() {
        widths
    } else if widths[from as int] < cells[from as int].len() {
        widened(widths.update(from as int, cells[from as int].len() as usize), cells, from + 1)
    } else {
        widened(widths, cells, from + 1)
    }
}

/// The widths of columns that are at least as wide as the rows from `from` on.
pub open spec fn all_widened(widths: Seq<usize>, rows: Seq<Seq<Seq<char>>>, from: nat) -> Seq<usize>
    decreases rows.len() - from,
{
    if from >= rows.len() {
        widths
    } else {
        all_widened(widened(widths, rows[from as int], 0), rows, from + 1)
    }
}

pub open spec fn heading_widths(columns: Seq<Seq<char>>) -> Seq<usize> {
    columns.map_values(|column: Seq<char>| column.len() as usize)
}

/// The widths of the columns of a table: as wide as the widest cell.
pub open spec fn table_widths(columns: Seq<Seq<char>>, rows: Seq<Seq<Seq<char>>>) -> Seq<usize> {
    all_widened(heading_widths(columns), rows, 0)
}

/// The line under the headings, up to the first `count` columns.
pub open spec fn ruled(widths: Seq<usize>, count: nat) -> Seq<char>
    decreases count,
{
    if count == 0 {
        Seq::empty()
    } else if count == 1 {
        repeated('-', widths[0] as nat)
    } else {
        ruled(widths, (count - 1) as nat) + "-+-"@ + repeated('-', widths[count - 1] as nat)
    }
}

/// The first `count` rows of a table.
pub open spec fn rows_text(rows: Seq<Seq<Seq<char>>>, widths: Seq<usize>, count: nat) -> Seq<char>
    decreases count,
{
    if count == 0 {
        Seq::empty()
    } else {
        rows_text(rows, widths, (count - 1) as nat) + row_text(rows[count - 1], widths)
    }
}

/// A table: the headings, a line, and the rows.
pub open spec fn table_text(columns: Seq<Seq<char>>, rows: Seq<Seq<Seq<char>>>) -> Seq<char> {
    let widths = table_widths(columns, rows);
    row_text(columns, widths) + ruled(widths, widths.len()) + seq!['\n'] + rows_text(rows, widths, rows.len())
}

/// The cells of rows.
pub open spec fn cell_rows(rows: Seq<Vec<String>>) -> Seq<Seq<Seq<char>>> {
    rows.map_values(|row: Vec<String>| views(row@))
}

/// Whether one list of widths is at least another.
pub open spec fn at_least_as_wide(wide: Seq<usize>, narrow: Seq<usize>) -> bool {
    wide.len() == narrow.len() && forall|i: int| 0 <= i < wide.len() ==> narrow[i] <= (#[trigger] wide[i])
}

proof fn lemma_fit_wider(cells: Seq<Seq<char>>, narrow: Seq<usize>, wide: Seq<usize>)
    requires
        cells_fit(cells, narrow),
        at_least_as_wide(wide, narrow),
    ensures
        cells_fit(cells, wide),
{
    assert forall|i: int| 0 <= i < wide.len() && i < cells.len() implies (#[trigger] cells[i]).len() <= wide[i] by {
        assert(narrow[i] <= wide[i]);
    }
}

fn widen(widths: &mut Vec<usize>, cells: &Vec<String>)
    ensures
        final(widths)@ == widened(old(widths)@, views(cells@), 0),
        at_least_as_wide(final(widths)@, old(widths)@),
        cells_fit(views(cells@), final(widths)@),
{
    let ghost all = views(cells@);
    let ghost start = widths@;
    let mut at: usize = 0;
    while at < widths.len() && at < cells.len()
        invariant
            all == views(cells@),
            start == old(widths)@,
            at <= widths@.len(),
            at_least_as_wide(widths@, start),
            forall|i: int| 0 <= i < at && i < all.len() ==> (#[trigger] all[i]).len() <= widths@[i],
            widened(widths@, all, at as nat) == widened(start, all, 0),
        decreases widths@.len() - at,
    {
        assert(all[at as int] == cells@[at as int]@);
        let width: usize = display_width(cells[at].as_str());
        if widths[at] < width {
            widths.set(at, width);
        }
        at = at + 1;
    }
}

fn push_rule(out: &mut Vec<char>, widths: &Vec<usize>)
    ensures
        final(out)@ == old(out)@ + ruled(widths@, widths@.len()),
{
    let ghost start = out@;
    let mut at: usize = 0;
    assert(out@ =~= start + ruled(widths@, 0));
    while at < widths.len()
        invariant
            at <= widths@.len(),
            out@ == start + ruled(widths@, at as nat),
        decreases widths@.len() - at,
    {
        if at > 0 {
            push_text(out, "-+-");
        }
        push_repeated(out, '-', widths[at]);
        assert(out@ =~= start + ruled(widths@, (at + 1) as nat));
        at = at + 1;
    }
}

/// Writes a table: the headings, a line, and the rows.
pub fn write_table(out: &mut Vec<char>, columns: &Vec<String>, rows: &Vec<Vec<String>>)
    ensures
        final(out)@ == old(out)@ + table_text(views(columns@), cell_rows(rows@)),
{
    let ghost start = out@;
    let ghost heads = views(columns@);
    let ghost all = cell_rows(rows@);
    let mut widths: Vec<usize> = Vec::new();
    let mut at: usize = 0;
    while at < columns.len()
        invariant
            heads == views(columns@),
            at <= columns@.len(),
            widths@.len() == at,
            forall|i: int| 0 <= i < at ==> (#[trigger] widths@[i]) == heads[i].len(),
        decreases columns@.len() - at,
    {
        assert(heads[at as int] == columns@[at as int]@);
        widths.push(display_width(columns[at].as_str()));
        at = at + 1;
    }
    assert(widths@ =~= heading_widths(heads));
    let mut row: usize = 0;
    while row < rows.len()
        invariant
            heads == views(columns@),
            all == cell_rows(rows@),
            row <= rows@.len(),
            all_widened(widths@, all, row as nat) == table_widths(heads, all),
            cells_fit(heads, widths@),
            forall|i: int| 0 <= i < row ==> cells_fit(#[trigger] all[i], widths@),
        decreases rows@.len() - row,
    {
        let ghost before = widths@;
        assert(all[row as int] == views(rows@[row as int]@));
        widen(&mut widths, &rows[row]);
        proof {
            lemma_fit_wider(heads, before, widths@);
            assert forall|i: int| 0 <= i <= row implies cells_fit(#[trigger] all[i], widths@) by {
                if i < row {
                    lemma_fit_wider(all[i], before, widths@);
                }
            }
        }
        row = row + 1;
    }
    let ghost wide = table_widths(heads, all);
    write_table_row(out, columns, &widths);
    push_rule(out, &widths);
    out.push('\n');
    let ghost top = row_text(heads, wide) + ruled(wide, wide.len()) + seq!['\n'];
    assert(out@ =~= start + top);
    let mut shown: usize = 0;
    assert(out@ =~= start + top + rows_text(all, wide, 0));
    while shown < rows.len()
        invariant
            all == cell_rows(rows@),
            shown <= rows@.len(),
            widths@ == wide,
            forall|i: int| 0 <= i < rows@.len() ==> cells_fit(#[trigger] all[i], wide),
            out@ == start + top + rows_text(all, wide, shown as nat),
        decreases rows@.len() - shown,
    {
        assert(all[shown as int] == views(rows@[shown as int]@));
        write_table_row(out, &rows[shown], &widths);
        assert(out@ =~= start + top + rows_text(all, wide, (shown + 1) as nat));
        shown = shown + 1;
    }
    assert(out@ =~= start + table_text(heads, all));
}

/// How a value is shown.
pub open spec fn shown_value(value: ValueView, floats: Floats) -> Seq<char> {
    match value {
        ValueView::Text(text) => shown(text, text.len()),
        _ => value.notation(floats),
    }
}

/// A value as it is shown.
pub fn printable_value<F: Fn(FloatTask) -> FloatReply>(f: &F, value: &Value) -> (text: String)
    requires
        computes(*f),
    ensures
        text@ == shown_value(value@, floats(*f)),
{
    match value {
        Value::Text(text) => printable_text(text.as_str()),
        _ => value.to_text(f),
    }
}

pub open spec fn shown_texts(texts: Seq<Seq<char>>) -> Seq<Seq<char>> {
    texts.map_values(|text: Seq<char>| shown(text, text.len()))
}

pub open spec fn shown_row(row: Seq<ValueView>, floats: Floats) -> Seq<Seq<char>> {
    row.map_values(|value: ValueView| shown_value(value, floats))
}

pub open spec fn shown_rows(rows: Seq<Seq<ValueView>>, floats: Floats) -> Seq<Seq<Seq<char>>> {
    rows.map_values(|row: Seq<ValueView>| shown_row(row, floats))
}

/// What is printed of one result.
pub open spec fn result_text(result: ExecutionView, floats: Floats) -> Seq<char> {
    match result {
        ExecutionView::Command { tag, rows_affected } => tag + " ("@ + decimal_text(rows_affected) + " row(s))"@ + seq!['\n'],
        ExecutionView::Query(result) => if result.columns.len() == 0 {
            "(empty result)"@ + seq!['\n']
        } else {
            table_text(shown_texts(result.columns), shown_rows(result.rows, floats)) + "("@ + decimal_text(result.rows.len())
                + " row(s), "@ + decimal_text(result.rows_examined) + " examined)"@ + seq!['\n']
        },
    }
}

fn show_texts(texts: &Vec<String>) -> (result: Vec<String>)
    ensures
        views(result@) == shown_texts(views(texts@)),
{
    let mut result: Vec<String> = Vec::new();
    let mut at: usize = 0;
    while at < texts.len()
        invariant
            at <= texts@.len(),
            views(result@) == shown_texts(views(texts@).take(at as int)),
        decreases texts@.len() - at,
    {
        assert(views(texts@)[at as int] == texts@[at as int]@);
        let ghost before = views(result@);
        result.push(printable_text(texts[at].as_str()));
        assert(views(texts@).take(at as int + 1) =~= views(texts@).take(at as int).push(texts@[at as int]@));
        assert(views(result@) =~= shown_texts(views(texts@).take(at as int + 1)));
        at = at + 1;
    }
    assert(views(texts@).take(at as int) =~= views(texts@));
    result
}

fn show_row<F: Fn(FloatTask) -> FloatReply>(f: &F, row: &Vec<Value>) -> (result: Vec<String>)
    requires
        computes(*f),
    ensures
        views(result@) == shown_row(views(row@), floats(*f)),
{
    let mut result: Vec<String> = Vec::new();
    let mut at: usize = 0;
    while at < row.len()
        invariant
            computes(*f),
            at <= row@.len(),
            views(result@) == shown_row(views(row@).take(at as int), floats(*f)),
        decreases row@.len() - at,
    {
        assert(views(row@)[at as int] == row@[at as int]@);
        result.push(printable_value(f, &row[at]));
        assert(views(row@).take(at as int + 1) =~= views(row@).take(at as int).push(row@[at as int]@));
        assert(views(result@) =~= shown_row(views(row@).take(at as int + 1), floats(*f)));
        at = at + 1;
    }
    assert(views(row@).take(at as int) =~= views(row@));
    result
}

fn show_rows<F: Fn(FloatTask) -> FloatReply>(f: &F, rows: &Vec<Vec<Value>>) -> (result: Vec<Vec<String>>)
    requires
        computes(*f),
    ensures
        cell_rows(result@) == shown_rows(row_views(rows@), floats(*f)),
{
    let mut result: Vec<Vec<String>> = Vec::new();
    let mut at: usize = 0;
    while at < rows.len()
        invariant
            computes(*f),
            at <= rows@.len(),
            cell_rows(result@) == shown_rows(row_views(rows@).take(at as int), floats(*f)),
        decreases rows@.len() - at,
    {
        let ghost before = result@;
        let shown = show_row(f, &rows[at]);
        proof {
            assert(row_views(rows@)[at as int] == views(rows@[at as int]@));
            assert(row_views(rows@).take(at as int + 1) =~= row_views(rows@).take(at as int).push(views(rows@[at as int]@)));
            assert(cell_rows(before.push(shown)) =~= cell_rows(before).push(views(shown@)));
            assert(shown_rows(row_views(rows@).take(at as int + 1), floats(*f)) =~= shown_rows(
                row_views(rows@).take(at as int),
                floats(*f),
            ).push(shown_row(views(rows@[at as int]@), floats(*f))));
        }
        result.push(shown);
        at = at + 1;
    }
    assert(row_views(rows@).take(at as int) =~= row_views(rows@));
    result
}

/// Prints one result.
pub fn print_result<F: Fn(FloatTask) -> FloatReply>(f: &F, out: &mut Vec<char>, result: &ExecutionResult)
    requires
        computes(*f),
    ensures
        final(out)@ == old(out)@ + result_text(result@, floats(*f)),
{
    let ghost start = out@;
    match result {
        ExecutionResult::Command { tag, rows_affected } => {
            push_text(out, tag);
            push_text(out, " (");
            push_text(out, decimal_count(*rows_affected).as_str());
            push_text(out, " row(s))");
        },
        ExecutionResult::Query(query) => {
            if query.columns.len() == 0 {
                push_text(out, "(empty result)");
            } else {
                let columns = show_texts(&query.columns);
                let rows = show_rows(f, &query.rows);
                write_table(out, &columns, &rows);
                push_text(out, "(");
                push_text(out, decimal_count(query.row_count()).as_str());
                push_text(out, " row(s), ");
                push_text(out, decimal_count(query.rows_examined).as_str());
                push_text(out, " examined)");
            }
        },
    }
    out.push('\n');
    assert(out@ =~= start + result_text(result@, floats(*f)));
}

/// Where a scan of SQL text is.
#[derive(Clone, Copy)]
pub enum InputState {
    Normal,
    SingleQuoted,
    DoubleQuoted,
    LineComment,
    BlockComment,
}

/// Whether a character stands at a place.
pub open spec fn stands(text: Seq<char>, at: nat, c: char) -> bool {
    at < text.len() && text[at as int] == c
}

/// Whether text from `at` on ends behind a semicolon that ends a statement, where `complete` says that only
/// white space and comments have come since one.
pub open spec fn complete_from(text: Seq<char>, at: nat, state: InputState, complete: bool) -> bool
    decreases text.len() - at,
{
    if at >= text.len() {
        complete && (state is Normal || state is LineComment)
    } else {
        let c = text[at as int];
        match state {
            InputState::Normal => if unicode_space(c) {
                complete_from(text, at + 1, state, complete)
            } else if c == '-' && stands(text, at + 1, '-') {
                complete_from(text, at + 2, InputState::LineComment, complete)
            } else if c == '/' && stands(text, at + 1, '*') {
                complete_from(text, at + 2, InputState::BlockComment, complete)
            } else if c == '\'' {
                complete_from(text, at + 1, InputState::SingleQuoted, false)
            } else if c == '"' {
                complete_from(text, at + 1, InputState::DoubleQuoted, false)
            } else {
                complete_from(text, at + 1, state, c == ';')
            },
            InputState::SingleQuoted => if c != '\'' {
                complete_from(text, at + 1, state, complete)
            } else if stands(text, at + 1, '\'') {
                complete_from(text, at + 2, state, complete)
            } else {
                complete_from(text, at + 1, InputState::Normal, complete)
            },
            InputState::DoubleQuoted => if c != '"' {
                complete_from(text, at + 1, state, complete)
            } else if stands(text, at + 1, '"') {
                complete_from(text, at + 2, state, complete)
            } else {
                complete_from(text, at + 1, InputState::Normal, complete)
            },
            InputState::LineComment => if c == '\n' {
                complete_from(text, at + 1, InputState::Normal, complete)
            } else {
                complete_from(text, at + 1, state, complete)
            },
            InputState::BlockComment => if c == '*' && stands(text, at + 1, '/') {
                complete_from(text, at + 2, InputState::Normal, complete)
            } else {
                complete_from(text, at + 1, state, complete)
            },
        }
    }
}

/// Whether SQL text ends behind the semicolon of its last statement, but for white space and comments.
pub open spec fn input_complete(text: Seq<char>) -> bool {
    complete_from(text, 0, InputState::Normal, false)
}

fn is_at(chars: &Vec<char>, at: usize, c: char) -> (result: bool)
    ensures
        result == stands(chars@, at as nat, c),
{
    at < chars.len() && chars[at] == c
}

/// Whether SQL text ends behind the semicolon of its last statement, but for white space and comments.
pub fn input_is_complete(input: &str) -> (result: bool)
    ensures
        result == input_complete(input@),
{
    let chars = chars_of(input);
    let total: usize = chars.len();
    let mut state = InputState::Normal;
    let mut complete = false;
    let mut at: usize = 0;
    while at < total
        invariant
            chars@ == input@,
            total == chars@.len(),
            at <= total,
            complete_from(input@, at as nat, state, complete) == input_complete(input@),
        decreases total - at,
    {
        let c = chars[at];
        let next: usize = at + 1;
        let mut taken: usize = next;
        match state {
            InputState::Normal => {
                if is_whitespace(c) {
                } else if c == '-' && is_at(&chars, next, '-') {
                    taken = next + 1;
                    state = InputState::LineComment;
                } else if c == '/' && is_at(&chars, next, '*') {
                    taken = next + 1;
                    state = InputState::BlockComment;
                } else if c == '\'' {
                    complete = false;
                    state = InputState::SingleQuoted;
                } else if c == '"' {
                    complete = false;
                    state = InputState::DoubleQuoted;
                } else {
                    complete = c == ';';
                }
            },
            InputState::SingleQuoted => {
                if c == '\'' {
                    if is_at(&chars, next, '\'') {
                        taken = next + 1;
                    } else {
                        state = InputState::Normal;
                    }
                }
            },
            InputState::DoubleQuoted => {
                if c == '"' {
                    if is_at(&chars, next, '"') {
                        taken = next + 1;
                    } else {
                        state = InputState::Normal;
                    }
                }
            },
            InputState::LineComment => {
                if c == '\n' {
                    state = InputState::Normal;
                }
            },
            InputState::BlockComment => {
                if c == '*' && is_at(&chars, next, '/') {
                    taken = next + 1;
                    state = InputState::Normal;
                }
            },
        }
        at = taken;
    }
    match state {
        InputState::Normal => complete,
        InputState::LineComment => complete,
        _ => false,
    }
}

/// Text that ends inside a quoted literal is not complete, however it goes on until the quote ends it.
pub proof fn law_open_literal_is_incomplete(text: Seq<char>, at: nat, complete: bool)
    requires
        at <= text.len(),
        forall|i: int| at <= i < text.len() ==> text[i] != '\'',
    ensures
        !complete_from(text, at, InputState::SingleQuoted, complete),
    decreases text.len() - at,
{
    if at < text.len() {
        law_open_literal_is_incomplete(text, at + 1, complete);
    }
}

/// White space from `at` on changes nothing.
proof fn lemma_trailing_space(text: Seq<char>, at: nat, state: InputState, complete: bool)
    requires
        at <= text.len(),
        forall|i: int| at <= i < text.len() ==> unicode_space(#[trigger] text[i]),
    ensures
        complete_from(text, at, state, complete) == (complete && (state is Normal || state is LineComment)),
    decreases text.len() - at,
{
    if at < text.len() {
        let c = text[at as int];
        assert(unicode_space(c));
        if state is LineComment && c == '\n' {
            lemma_trailing_space(text, at + 1, InputState::Normal, complete);
        } else {
            lemma_trailing_space(text, at + 1, state, complete);
        }
    }
}

proof fn lemma_space_behind(text: Seq<char>, space: Seq<char>, at: nat, state: InputState, complete: bool)
    requires
        at <= text.len(),
        forall|i: int| 0 <= i < space.len() ==> unicode_space(#[trigger] space[i]),
    ensures
        complete_from(text + space, at, state, complete) == complete_from(text, at, state, complete),
    decreases text.len() - at,
{
    let all = text + space;
    if at >= text.len() {
        assert forall|i: int| at <= i < all.len() implies unicode_space(#[trigger] all[i]) by {
            assert(all[i] == space[i - text.len()]);
        }
        lemma_trailing_space(all, at, state, complete);
    } else {
        let c = text[at as int];
        assert(all[at as int] == c);
        if at + 1 < text.len() {
            assert(all[at as int + 1] == text[at as int + 1]);
        } else if at + 1 < all.len() {
            assert(all[at as int + 1] == space[0]);
            assert(unicode_space(space[0]));
        }
        assert forall|mark: char| #[trigger] stands(all, at + 1, mark) && !unicode_space(mark) implies stands(
            text,
            at + 1,
            mark,
        ) by {
        }
        assert forall|mark: char| #[trigger] stands(text, at + 1, mark) implies stands(all, at + 1, mark) by {
        }
        lemma_space_behind(text, space, at + 1, state, complete);
        lemma_space_behind(text, space, at + 1, state, c == ';');
        lemma_space_behind(text, space, at + 1, InputState::Normal, complete);
        lemma_space_behind(text, space, at + 1, InputState::SingleQuoted, false);
        lemma_space_behind(text, space, at + 1, InputState::DoubleQuoted, false);
        if at + 1 < text.len() {
            lemma_space_behind(text, space, at + 2, state, complete);
            lemma_space_behind(text, space, at + 2, InputState::Normal, complete);
            lemma_space_behind(text, space, at + 2, InputState::LineComment, complete);
            lemma_space_behind(text, space, at + 2, InputState::BlockComment, complete);
        }
    }
}

/// White space behind a text leaves it complete, or incomplete, as it was.
pub proof fn law_trailing_space(text: Seq<char>, space: Seq<char>)
    requires
        forall|i: int| 0 <= i < space.len() ==> unicode_space(#[trigger] space[i]),
    ensures
        input_complete(text + space) == input_complete(text),
{
    lemma_space_behind(text, space, 0, InputState::Normal, false);
}

} // verus!
