//! Tables: rows under a schema, with the indexes and key maps that follow from them.

use vstd::prelude::*;
use crate::aggregate::rows_of_width;
use crate::error::{plain, Error, ErrorView};
use crate::index::{
    holder, lemma_holder, lemma_holder_prefix, lemma_matching_prefix, matching, HashIndex,
    UniqueMap,
};
use crate::text::{lemma_views_push, views};
use crate::value::{
    copy_columns, copy_rows, key_of, lemma_row_views_push, row_views, type_of, Column, ColumnView, UniqueKey, Value,
    ValueView,
};

verus! {

broadcast use {vstd::string::group_string_axioms, lemma_views_push, lemma_row_views_push};

/// An index with its name.
#[derive(Debug)]
pub struct NamedIndex {
    pub name: String,
    pub index: HashIndex,
}

#[verifier::ext_equal]
pub struct IndexView {
    pub name: Seq<char>,
    pub column: nat,
}

impl View for NamedIndex {
    type V = IndexView;

    open spec fn view(&self) -> IndexView {
        IndexView { name: self.name@, column: self.index.column as nat }
    }
}

/// Rows under a schema. The indexes and the key maps follow from the rows.
#[derive(Debug)]
pub struct Table {
    pub columns: Vec<Column>,
    pub rows: Vec<Vec<Value>>,
    pub indexes: Vec<NamedIndex>,
    pub unique_keys: Vec<Option<UniqueMap>>,
}

#[verifier::ext_equal]
pub struct TableView {
    pub columns: Seq<ColumnView>,
    pub rows: Seq<Seq<ValueView>>,
    pub indexes: Seq<IndexView>,
}

impl View for Table {
    type V = TableView;

    open spec fn view(&self) -> TableView {
        TableView { columns: views(self.columns@), rows: row_views(self.rows@), indexes: views(self.indexes@) }
    }
}

/// Whether the column can hold the value: one of its type, or `NULL` where it may.
pub open spec fn valid_value(column: ColumnView, value: ValueView) -> bool {
    match type_of(value) {
        None => column.nullable,
        Some(data_type) => data_type == column.data_type,
    }
}

/// Whether a table with these columns can hold the row.
pub open spec fn valid_row(columns: Seq<ColumnView>, row: Seq<ValueView>) -> bool {
    &&& row.len() == columns.len()
    &&& forall|c: int| 0 <= c < columns.len() ==> valid_value(#[trigger] columns[c], row[c])
}

/// Whether no two rows hold the same value in the column; `NULL` is no such value.
pub open spec fn distinct_keys(rows: Seq<Seq<ValueView>>, column: int) -> bool {
    forall|i: int, j: int|
        0 <= i < j < rows.len() && !(rows[i][column] is Null) && !(rows[j][column] is Null) ==> key_of(
            #[trigger] rows[i][column],
        ) != key_of(#[trigger] rows[j][column])
}

impl TableView {
    /// Whether every row is valid, unique columns hold no value twice, and every index is on a
    /// column.
    pub open spec fn valid(self) -> bool {
        &&& forall|i: int| 0 <= i < self.rows.len() ==> valid_row(self.columns, #[trigger] self.rows[i])
        &&& forall|c: int| 0 <= c < self.columns.len() && (#[trigger] self.columns[c]).unique ==> distinct_keys(self.rows, c)
        &&& forall|i: int| 0 <= i < self.indexes.len() ==> (#[trigger] self.indexes[i]).column < self.columns.len()
    }

    pub open spec fn with_rows(self, rows: Seq<Seq<ValueView>>) -> TableView {
        TableView { columns: self.columns, rows, indexes: self.indexes }
    }
}

impl Table {
    /// Whether the indexes and key maps cover the first `count` rows.
    pub open spec fn covers(self, count: nat) -> bool {
        &&& forall|i: int|
            0 <= i < self.indexes@.len() ==> (#[trigger] self.indexes@[i]).index.column < self.columns@.len()
                && self.indexes@[i].index.covers(self@.rows, count)
        &&& self.unique_keys@.len() == self.columns@.len()
        &&& forall|c: int|
            0 <= c < self.columns@.len() ==> match #[trigger] self.unique_keys@[c] {
                Some(map) => self.columns@[c].unique && map.column == c && map.covers(self@.rows, count),
                None => !self.columns@[c].unique,
            }
    }

    /// Whether the table is valid and its indexes and key maps are those of its rows.
    pub open spec fn wf(self) -> bool {
        &&& self@.valid()
        &&& self.covers(self.rows@.len())
    }
}

pub proof fn lemma_valid_width(table: TableView)
    requires
        table.valid(),
    ensures
        rows_of_width(table.rows, table.columns.len()),
{
    assert forall|i: int| 0 <= i < table.rows.len() implies (#[trigger] table.rows[i]).len() == table.columns.len() by {
        assert(valid_row(table.columns, table.rows[i]));
    }
}

/// The error for the first column, from `from` on, that may not be `NULL` and is.
pub open spec fn null_checked(columns: Seq<ColumnView>, row: Seq<ValueView>, from: nat) -> Result<(), ErrorView>
    decreases columns.len() - from,
{
    if from >= columns.len() || from >= row.len() {
        Ok(())
    } else if !columns[from as int].nullable && row[from as int] is Null {
        Err(ErrorView::NullViolation(columns[from as int].name))
    } else {
        null_checked(columns, row, from + 1)
    }
}

/// Fails exactly when a column that may not be `NULL` is.
pub fn validate_row(columns: &Vec<Column>, row: &Vec<Value>) -> (result: Result<(), Error>)
    ensures
        plain(result) == null_checked(views(columns@), views(row@), 0),
{
    let mut index: usize = 0;
    while index < columns.len() && index < row.len()
        invariant
            index <= columns@.len(),
            index <= row@.len(),
            null_checked(views(columns@), views(row@), index as nat) == null_checked(views(columns@), views(row@), 0),
        decreases columns@.len() - index,
    {
        if !columns[index].nullable && row[index].is_null() {
            return Err(Error::NullViolation(columns[index].name.clone()));
        }
        index = index + 1;
    }
    Ok(())
}

proof fn lemma_null_checked(columns: Seq<ColumnView>, row: Seq<ValueView>, from: nat)
    requires
        null_checked(columns, row, from) is Ok,
        row.len() == columns.len(),
    ensures
        forall|c: int| from <= c < columns.len() ==> (#[trigger] columns[c]).nullable || !(row[c] is Null),
    decreases columns.len() - from,
{
    if from < columns.len() {
        lemma_null_checked(columns, row, from + 1);
    }
}

/// A row of values of the columns' types, or of `NULL`, that passes the check for `NULL` is valid.
pub proof fn lemma_checked_row(columns: Seq<ColumnView>, row: Seq<ValueView>)
    requires
        null_checked(columns, row, 0) is Ok,
        row.len() == columns.len(),
        forall|c: int|
            0 <= c < columns.len() ==> row[c] is Null || type_of(row[c]) == Some((#[trigger] columns[c]).data_type),
    ensures
        valid_row(columns, row),
{
    lemma_null_checked(columns, row, 0);
}

/// Whether the value of a pending row in a column is one that a stored row or an earlier pending
/// row holds.
pub open spec fn repeats(base: Seq<Seq<ValueView>>, pending: Seq<Seq<ValueView>>, column: int, at: int) -> bool {
    let value = pending[at][column];
    !(value is Null) && (holder(base, column, key_of(value), base.len()) is Some || holder(
        pending,
        column,
        key_of(value),
        at as nat,
    ) is Some)
}

/// Whether some pending row repeats a value in the column.
pub open spec fn any_repeat(base: Seq<Seq<ValueView>>, pending: Seq<Seq<ValueView>>, column: int, from: nat) -> bool
    decreases pending.len() - from,
{
    from < pending.len() && (repeats(base, pending, column, from as int) || any_repeat(base, pending, column, from + 1))
}

/// The error for the first unique column, from `from` on, in which a pending row repeats a value.
pub open spec fn unique_checked(
    columns: Seq<ColumnView>,
    base: Seq<Seq<ValueView>>,
    pending: Seq<Seq<ValueView>>,
    from: nat,
) -> Result<(), ErrorView>
    decreases columns.len() - from,
{
    if from >= columns.len() {
        Ok(())
    } else if columns[from as int].unique && any_repeat(base, pending, from as int, 0) {
        Err(ErrorView::UniqueViolation(columns[from as int].name))
    } else {
        unique_checked(columns, base, pending, from + 1)
    }
}

proof fn lemma_no_repeat(base: Seq<Seq<ValueView>>, pending: Seq<Seq<ValueView>>, column: int, from: nat)
    requires
        !any_repeat(base, pending, column, from),
    ensures
        forall|i: int| from <= i < pending.len() ==> !repeats(base, pending, column, i),
    decreases pending.len() - from,
{
    if from < pending.len() {
        lemma_no_repeat(base, pending, column, from + 1);
    }
}

proof fn lemma_unique_checked(columns: Seq<ColumnView>, base: Seq<Seq<ValueView>>, pending: Seq<Seq<ValueView>>, from: nat)
    requires
        unique_checked(columns, base, pending, from) is Ok,
    ensures
        forall|c: int| from <= c < columns.len() && (#[trigger] columns[c]).unique ==> !any_repeat(base, pending, c, 0),
    decreases columns.len() - from,
{
    if from < columns.len() {
        lemma_unique_checked(columns, base, pending, from + 1);
    }
}

/// Rows that pass the uniqueness check can be added to rows without repeated values.
pub proof fn law_unique_check_suffices(
    columns: Seq<ColumnView>,
    base: Seq<Seq<ValueView>>,
    pending: Seq<Seq<ValueView>>,
    column: int,
)
    requires
        unique_checked(columns, base, pending, 0) is Ok,
        0 <= column < columns.len(),
        columns[column].unique,
        distinct_keys(base, column),
        base.len() <= usize::MAX,
        pending.len() <= usize::MAX,
    ensures
        distinct_keys(base + pending, column),
{
    lemma_unique_checked(columns, base, pending, 0);
    lemma_no_repeat(base, pending, column, 0);
    let all = base + pending;
    assert forall|i: int, j: int|
        0 <= i < j < all.len() && !(all[i][column] is Null) && !(all[j][column] is Null) implies key_of(
        #[trigger] all[i][column],
    ) != key_of(#[trigger] all[j][column]) by {
        if j < base.len() {
            assert(base[i][column] == all[i][column] && base[j][column] == all[j][column]);
        } else {
            let at = j - base.len();
            let value = pending[at][column];
            assert(all[j] == pending[at]);
            assert(!repeats(base, pending, column, at));
            lemma_holder(base, column, key_of(value), base.len());
            lemma_holder(pending, column, key_of(value), at as nat);
            if i < base.len() {
                assert(all[i] == base[i]);
                assert(key_of(base[i][column]) != key_of(value));
            } else {
                assert(all[i] == pending[i - base.len()]);
                assert(key_of(pending[i - base.len()][column]) != key_of(value));
            }
        }
    }
}

fn has_repeat(map: &Option<UniqueMap>, Ghost(base): Ghost<Seq<Seq<ValueView>>>, pending: &Vec<Vec<Value>>, column: usize) -> (result:
    bool)
    requires
        match map {
            Some(map) => map.column == column && map.covers(base, base.len()),
            None => base.len() == 0,
        },
        forall|i: int| 0 <= i < pending@.len() ==> (#[trigger] pending@[i])@.len() > column,
    ensures
        result == any_repeat(base, row_views(pending@), column as int, 0),
{
    let mut seen = UniqueMap::new(column);
    assert(seen.covers(row_views(pending@), 0));
    let mut position: usize = 0;
    while position < pending.len()
        invariant
            match map {
                Some(map) => map.column == column && map.covers(base, base.len()),
                None => base.len() == 0,
            },
            forall|i: int| 0 <= i < pending@.len() ==> (#[trigger] pending@[i])@.len() > column,
            position <= pending@.len(),
            seen.column == column,
            seen.covers(row_views(pending@), position as nat),
            any_repeat(base, row_views(pending@), column as int, position as nat) == any_repeat(
                base,
                row_views(pending@),
                column as int,
                0,
            ),
        decreases pending@.len() - position,
    {
        let value = &pending[position][column];
        assert(row_views(pending@)[position as int] == views(pending@[position as int]@));
        assert(row_views(pending@)[position as int][column as int] == value@);
        if !value.is_null() {
            let key = UniqueKey::of(value);
            let stored = match map {
                Some(map) => map.lookup(&key).is_some(),
                None => false,
            };
            if stored || seen.lookup(&key).is_some() {
                assert(repeats(base, row_views(pending@), column as int, position as int));
                return true;
            }
        }
        assert(!repeats(base, row_views(pending@), column as int, position as int));
        seen.record(pending, position);
        position = position + 1;
    }
    false
}

impl Table {
    /// A table with these columns and no rows.
    pub fn empty(columns: Vec<Column>) -> (table: Table)
        ensures
            table@ == (TableView { columns: views(columns@), rows: Seq::empty(), indexes: Seq::empty() }),
            table.wf(),
    {
        let mut table = Table { columns, rows: Vec::new(), indexes: Vec::new(), unique_keys: Vec::new() };
        assert(table@.rows =~= Seq::empty());
        assert(table@.indexes =~= Seq::empty());
        table.rebuild();
        table
    }

    /// A table with these columns, rows, and indexes by name and column.
    pub fn new(columns: Vec<Column>, rows: Vec<Vec<Value>>, indexes: Vec<NamedIndex>) -> (table: Table)
        requires
            (TableView { columns: views(columns@), rows: row_views(rows@), indexes: views(indexes@) }).valid(),
        ensures
            table@ == (TableView { columns: views(columns@), rows: row_views(rows@), indexes: views(indexes@) }),
            table.wf(),
    {
        let mut table = Table { columns, rows, indexes, unique_keys: Vec::new() };
        table.rebuild();
        table
    }

    /// Fails exactly when a pending row repeats a value of a unique column.
    pub fn validate_unique(&self, pending: &Vec<Vec<Value>>) -> (result: Result<(), Error>)
        requires
            self.wf(),
            rows_of_width(row_views(pending@), self.columns@.len()),
        ensures
            plain(result) == unique_checked(self@.columns, self@.rows, row_views(pending@), 0),
    {
        let mut column: usize = 0;
        while column < self.columns.len()
            invariant
                self.wf(),
                rows_of_width(row_views(pending@), self.columns@.len()),
                column <= self.columns@.len(),
                unique_checked(self@.columns, self@.rows, row_views(pending@), column as nat) == unique_checked(
                    self@.columns,
                    self@.rows,
                    row_views(pending@),
                    0,
                ),
            decreases self.columns@.len() - column,
        {
            assert(self@.columns[column as int] == self.columns@[column as int]@);
            if self.columns[column].unique {
                proof {
                    assert(self.unique_keys@[column as int] is Some);
                    assert forall|i: int| 0 <= i < pending@.len() implies (#[trigger] pending@[i])@.len() > column by {
                        assert(row_views(pending@)[i].len() == self.columns@.len());
                        assert(row_views(pending@)[i] == views(pending@[i]@));
                    }
                }
                if has_repeat(&self.unique_keys[column], Ghost(self@.rows), pending, column) {
                    return Err(Error::UniqueViolation(self.columns[column].name.clone()));
                }
            }
            column = column + 1;
        }
        Ok(())
    }

    /// Makes the indexes and the key maps those of the rows.
    pub fn rebuild(&mut self)
        requires
            old(self)@.valid(),
        ensures
            final(self)@ == old(self)@,
            final(self).columns == old(self).columns,
            final(self).wf(),
    {
        let ghost columns = self.columns;
        let ghost rows = self.rows;
        let ghost names = views(self.indexes@);
        proof {
            assert forall|i: int| 0 <= i < rows@.len() implies (#[trigger] rows@[i])@.len() == columns@.len() by {
                assert(valid_row(self@.columns, self@.rows[i]));
                assert(self@.rows[i] == views(rows@[i]@));
            }
            assert forall|i: int| 0 <= i < self.indexes@.len() implies (#[trigger] names[i]).column < columns@.len() by {
                assert(self@.indexes[i] == names[i]);
            }
        }
        let mut at: usize = 0;
        while at < self.indexes.len()
            invariant
                self.columns == columns,
                self.rows == rows,
                views(self.indexes@) == names,
                at <= self.indexes@.len(),
                forall|i: int| 0 <= i < rows@.len() ==> (#[trigger] rows@[i])@.len() == columns@.len(),
                forall|i: int| 0 <= i < self.indexes@.len() ==> (#[trigger] names[i]).column < columns@.len(),
                forall|i: int| 0 <= i < at ==> (#[trigger] self.indexes@[i]).index.covers(row_views(rows@), rows@.len()),
            decreases self.indexes@.len() - at,
        {
            assert(names[at as int] == self.indexes@[at as int]@);
            let ghost before = self.indexes@;
            self.indexes[at].index.rebuild(&self.rows);
            assert(views(self.indexes@) =~= names) by {
                assert forall|i: int| 0 <= i < names.len() implies views(self.indexes@)[i] == names[i] by {
                    assert(names[i] == before[i]@);
                }
            }
            at = at + 1;
        }
        let mut maps: Vec<Option<UniqueMap>> = Vec::new();
        let mut column: usize = 0;
        while column < self.columns.len()
            invariant
                self.columns == columns,
                self.rows == rows,
                views(self.indexes@) == names,
                forall|i: int| 0 <= i < rows@.len() ==> (#[trigger] rows@[i])@.len() == columns@.len(),
                forall|i: int|
                    0 <= i < self.indexes@.len() ==> (#[trigger] self.indexes@[i]).index.covers(row_views(rows@), rows@.len()),
                column <= columns@.len(),
                maps@.len() == column,
                forall|c: int|
                    0 <= c < column ==> match #[trigger] maps@[c] {
                        Some(map) => columns@[c].unique && map.column == c && map.covers(row_views(rows@), rows@.len()),
                        None => !columns@[c].unique,
                    },
            decreases columns@.len() - column,
        {
            if self.columns[column].unique {
                let mut map = UniqueMap::new(column);
                assert(map.covers(row_views(rows@), 0));
                map.extend(&self.rows, 0);
                maps.push(Some(map));
            } else {
                maps.push(None);
            }
            column = column + 1;
        }
        self.unique_keys = maps;
        proof {
            assert(self@ == old(self)@);
            assert forall|i: int| 0 <= i < self.indexes@.len() implies (#[trigger] self.indexes@[i]).index.column
                < self.columns@.len() && self.indexes@[i].index.covers(self@.rows, self.rows@.len()) by {
                assert(self@.indexes[i] == self.indexes@[i]@);
            }
        }
    }

    /// Adds rows at the end.
    pub fn append_rows(&mut self, added: Vec<Vec<Value>>)
        requires
            old(self).wf(),
            old(self)@.with_rows(old(self)@.rows + row_views(added@)).valid(),
        ensures
            final(self)@ == old(self)@.with_rows(old(self)@.rows + row_views(added@)),
            final(self).columns == old(self).columns,
            final(self).wf(),
    {
        let ghost before = *self;
        let ghost all = before@.rows + row_views(added@);
        let ghost target = before@.with_rows(all);
        let first: usize = self.rows.len();
        let mut added = added;
        let ghost added_rows = added@;
        self.rows.append(&mut added);
        proof {
            assert(self.rows@ == before.rows@ + added_rows);
            assert(row_views(self.rows@) =~= all);
            assert forall|i: int| 0 <= i < self.rows@.len() implies (#[trigger] self.rows@[i])@.len()
                == self.columns@.len() by {
                assert(valid_row(target.columns, target.rows[i]));
                assert(row_views(self.rows@)[i] == views(self.rows@[i]@));
            }
            assert forall|i: int| 0 <= i < first implies before@.rows[i] == all[i] by {
            }
            assert forall|i: int| 0 <= i < self.indexes@.len() implies (#[trigger] self.indexes@[i]).index.covers(
                all,
                first as nat,
            ) && self.indexes@[i].index.column < self.columns@.len() by {
                let index = self.indexes@[i].index;
                assert(before.indexes@[i].index == index);
                assert(index.covers(before@.rows, first as nat));
                assert forall|key: ValueView| #[trigger]
                    index.rows_of(key) == matching(all, index.column as int, key, first as nat) by {
                    lemma_matching_prefix(before@.rows, all, index.column as int, key, first as nat);
                }
            }
            assert forall|c: int| 0 <= c < self.columns@.len() implies match #[trigger] self.unique_keys@[c] {
                Some(map) => self.columns@[c].unique && map.column == c && map.covers(all, first as nat),
                None => !self.columns@[c].unique,
            } by {
                assert(before.unique_keys@[c] == self.unique_keys@[c]);
                if let Some(map) = self.unique_keys@[c] {
                    assert(map.covers(before@.rows, first as nat));
                    assert forall|key: ValueView| #[trigger]
                        map.row_of(key) == holder(all, map.column as int, key, first as nat) by {
                        lemma_holder_prefix(before@.rows, all, map.column as int, key, first as nat);
                    }
                }
            }
        }
        self.extend_indexes(first);
    }

    /// Adds the rows from `first` on to indexes and key maps that cover those before.
    fn extend_indexes(&mut self, first: usize)
        requires
            first <= old(self).rows@.len(),
            old(self)@.valid(),
            old(self).covers(first as nat),
        ensures
            final(self)@ == old(self)@,
            final(self).columns == old(self).columns,
            final(self).wf(),
    {
        let ghost columns = self.columns;
        let ghost rows = self.rows;
        let ghost names = views(self.indexes@);
        proof {
            assert forall|i: int| 0 <= i < rows@.len() implies (#[trigger] rows@[i])@.len() == columns@.len() by {
                assert(valid_row(self@.columns, self@.rows[i]));
                assert(self@.rows[i] == views(rows@[i]@));
            }
        }
        let mut at: usize = 0;
        while at < self.indexes.len()
            invariant
                self.columns == columns,
                self.rows == rows,
                first <= rows@.len(),
                views(self.indexes@) == names,
                self.unique_keys == old(self).unique_keys,
                at <= self.indexes@.len(),
                forall|i: int| 0 <= i < rows@.len() ==> (#[trigger] rows@[i])@.len() == columns@.len(),
                forall|i: int|
                    0 <= i < self.indexes@.len() ==> (#[trigger] self.indexes@[i]).index.column < columns@.len()
                        && self.indexes@[i].index.covers(
                        row_views(rows@),
                        if i < at {
                            rows@.len()
                        } else {
                            first as nat
                        },
                    ),
            decreases self.indexes@.len() - at,
        {
            let ghost before = self.indexes@;
            assert(before[at as int].index.covers(row_views(rows@), first as nat));
            self.indexes[at].index.extend(&self.rows, first);
            assert(views(self.indexes@) =~= names) by {
                assert forall|i: int| 0 <= i < names.len() implies views(self.indexes@)[i] == names[i] by {
                    assert(names[i] == before[i]@);
                }
            }
            at = at + 1;
        }
        let mut column: usize = 0;
        while column < self.columns.len()
            invariant
                self.columns == columns,
                self.rows == rows,
                first <= rows@.len(),
                views(self.indexes@) == names,
                self.unique_keys@.len() == columns@.len(),
                column <= columns@.len(),
                forall|i: int| 0 <= i < rows@.len() ==> (#[trigger] rows@[i])@.len() == columns@.len(),
                forall|i: int|
                    0 <= i < self.indexes@.len() ==> (#[trigger] self.indexes@[i]).index.column < columns@.len()
                        && self.indexes@[i].index.covers(row_views(rows@), rows@.len()),
                forall|c: int|
                    0 <= c < columns@.len() ==> match #[trigger] self.unique_keys@[c] {
                        Some(map) => columns@[c].unique && map.column == c && map.covers(
                            row_views(rows@),
                            if c < column {
                                rows@.len()
                            } else {
                                first as nat
                            },
                        ),
                        None => !columns@[c].unique,
                    },
            decreases columns@.len() - column,
        {
            let ghost maps = self.unique_keys@;
            let mut entry: Option<UniqueMap> = None;
            std::mem::swap(&mut entry, &mut self.unique_keys[column]);
            assert(entry == maps[column as int]);
            let replaced = match entry {
                Some(map) => {
                    let mut map = map;
                    map.extend(&self.rows, first);
                    Some(map)
                },
                None => None,
            };
            self.unique_keys[column] = replaced;
            column = column + 1;
        }
    }

    /// Puts other rows in place of the table's.
    pub fn replace_rows(&mut self, rows: Vec<Vec<Value>>)
        requires
            old(self)@.with_rows(row_views(rows@)).valid(),
        ensures
            final(self)@ == old(self)@.with_rows(row_views(rows@)),
            final(self).columns == old(self).columns,
            final(self).wf(),
    {
        self.rows = rows;
        self.rebuild();
    }

    /// A copy of the table.
    pub fn duplicate(&self) -> (table: Table)
        requires
            self.wf(),
        ensures
            table@ == self@,
            table.wf(),
    {
        let mut indexes: Vec<NamedIndex> = Vec::new();
        let mut at: usize = 0;
        while at < self.indexes.len()
            invariant
                at <= self.indexes@.len(),
                indexes@.len() == at,
                forall|i: int| 0 <= i < at ==> (#[trigger] indexes@[i])@ == self.indexes@[i]@,
            decreases self.indexes@.len() - at,
        {
            indexes.push(
                NamedIndex {
                    name: self.indexes[at].name.clone(),
                    index: HashIndex::new(self.indexes[at].index.column),
                },
            );
            at = at + 1;
        }
        assert(views(indexes@) =~= views(self.indexes@));
        let columns = copy_columns(&self.columns);
        let rows = copy_rows(&self.rows);
        Table::new(columns, rows, indexes)
    }
}

/// Fails exactly when a value of a unique column occurs twice in the rows.
pub fn validate_distinct(columns: &Vec<Column>, rows: &Vec<Vec<Value>>) -> (result: Result<(), Error>)
    requires
        rows_of_width(row_views(rows@), columns@.len()),
    ensures
        plain(result) == unique_checked(views(columns@), Seq::empty(), row_views(rows@), 0),
{
    let mut column: usize = 0;
    while column < columns.len()
        invariant
            rows_of_width(row_views(rows@), columns@.len()),
            column <= columns@.len(),
            unique_checked(views(columns@), Seq::empty(), row_views(rows@), column as nat) == unique_checked(
                views(columns@),
                Seq::empty(),
                row_views(rows@),
                0,
            ),
        decreases columns@.len() - column,
    {
        if columns[column].unique {
            proof {
                assert forall|i: int| 0 <= i < rows@.len() implies (#[trigger] rows@[i])@.len() > column by {
                    assert(row_views(rows@)[i].len() == columns@.len());
                    assert(row_views(rows@)[i] == views(rows@[i]@));
                }
            }
            if has_repeat(&None, Ghost(Seq::empty()), rows, column) {
                return Err(Error::UniqueViolation(columns[column].name.clone()));
            }
        }
        column = column + 1;
    }
    Ok(())
}

/// Valid rows that pass the uniqueness check make a valid table.
pub proof fn lemma_checked_table(table: TableView, rows: Seq<Seq<ValueView>>)
    requires
        table.valid(),
        forall|i: int| 0 <= i < rows.len() ==> valid_row(table.columns, #[trigger] rows[i]),
        unique_checked(table.columns, Seq::empty(), rows, 0) is Ok,
        rows.len() <= usize::MAX,
    ensures
        table.with_rows(rows).valid(),
{
    assert forall|c: int| 0 <= c < table.columns.len() && (#[trigger] table.columns[c]).unique implies distinct_keys(
        rows,
        c,
    ) by {
        law_unique_check_suffices(table.columns, Seq::empty(), rows, c);
        assert(Seq::<Seq<ValueView>>::empty() + rows =~= rows);
    }
}

/// Valid rows that pass the uniqueness check can be added to a valid table.
pub proof fn lemma_extended_table(table: TableView, pending: Seq<Seq<ValueView>>)
    requires
        table.valid(),
        forall|i: int| 0 <= i < pending.len() ==> valid_row(table.columns, #[trigger] pending[i]),
        unique_checked(table.columns, table.rows, pending, 0) is Ok,
        table.rows.len() <= usize::MAX,
        pending.len() <= usize::MAX,
    ensures
        table.with_rows(table.rows + pending).valid(),
{
    let all = table.rows + pending;
    assert forall|i: int| 0 <= i < all.len() implies valid_row(table.columns, #[trigger] all[i]) by {
        if i < table.rows.len() {
            assert(all[i] == table.rows[i]);
        } else {
            assert(all[i] == pending[i - table.rows.len()]);
        }
    }
    assert forall|c: int| 0 <= c < table.columns.len() && (#[trigger] table.columns[c]).unique implies distinct_keys(
        all,
        c,
    ) by {
        law_unique_check_suffices(table.columns, table.rows, pending, c);
    }
}

} // verus!
