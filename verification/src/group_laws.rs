//! That grouping parts the rows of a query.

use vstd::prelude::*;
use crate::aggregate::GroupView;
use crate::ast::{ExprView, PhraseView};
use crate::error::ErrorView;
use crate::eval::{selects, ScopeView};
use crate::float::Floats;
use crate::query::{group_position, phrase_values, row_added, row_grouped, row_groups};
use crate::value::{keys_of, ColumnView, ValueView};

verus! {

/// Whether a row is selected and has values that count as the same as these to be grouped by.
pub open spec fn belongs(
    row: Seq<ValueView>,
    values: Seq<ValueView>,
    columns: Seq<ColumnView>,
    selection: Option<ExprView>,
    group_by: Seq<PhraseView>,
    floats: Floats,
) -> bool {
    let scope = ScopeView::plain(columns, row);
    &&& selects(selection, scope, floats) == Ok::<bool, ErrorView>(true)
    &&& phrase_values(group_by, scope, floats, 0, Seq::empty()) matches Ok(found) && keys_of(found) == keys_of(values)
}

/// Whether the groups are of different values, and each has rows and only rows that belong to it.
pub open spec fn parted(
    groups: Seq<GroupView>,
    columns: Seq<ColumnView>,
    selection: Option<ExprView>,
    group_by: Seq<PhraseView>,
    floats: Floats,
) -> bool {
    &&& forall|i: int, j: int|
        0 <= i < j < groups.len() ==> keys_of((#[trigger] groups[i]).values) != keys_of((#[trigger] groups[j]).values)
    &&& forall|i: int| 0 <= i < groups.len() ==> (#[trigger] groups[i]).rows.len() > 0
    &&& forall|i: int, k: int|
        0 <= i < groups.len() && 0 <= k < groups[i].rows.len() ==> belongs(
            #[trigger] groups[i].rows[k],
            groups[i].values,
            columns,
            selection,
            group_by,
            floats,
        )
}

/// How many rows the groups from `from` on have.
pub open spec fn rows_grouped(groups: Seq<GroupView>, from: nat) -> nat
    decreases groups.len() - from,
{
    if from >= groups.len() {
        0
    } else {
        groups[from as int].rows.len() + rows_grouped(groups, from + 1)
    }
}

/// How many of the rows from `from` on are selected.
pub open spec fn rows_selected(
    rows: Seq<Seq<ValueView>>,
    columns: Seq<ColumnView>,
    selection: Option<ExprView>,
    floats: Floats,
    from: nat,
) -> nat
    decreases rows.len() - from,
{
    if from >= rows.len() {
        0
    } else {
        rows_selected(rows, columns, selection, floats, from + 1) + if selects(
            selection,
            ScopeView::plain(columns, rows[from as int]),
            floats,
        ) == Ok::<bool, ErrorView>(true) {
            1nat
        } else {
            0nat
        }
    }
}

proof fn lemma_rows_added(groups: Seq<GroupView>, at: nat, row: Seq<ValueView>, from: nat)
    requires
        at < groups.len(),
    ensures
        rows_grouped(row_added(groups, at, row), from) == rows_grouped(groups, from) + if from <= at {
            1int
        } else {
            0int
        },
    decreases groups.len() - from,
{
    if from < groups.len() {
        lemma_rows_added(groups, at, row, from + 1);
    }
}

proof fn lemma_rows_pushed(groups: Seq<GroupView>, group: GroupView, from: nat)
    requires
        from <= groups.len(),
    ensures
        rows_grouped(groups.push(group), from) == rows_grouped(groups, from) + group.rows.len(),
    decreases groups.len() - from,
{
    if from < groups.len() {
        assert(groups.push(group)[from as int] == groups[from as int]);
        lemma_rows_pushed(groups, group, from + 1);
    } else {
        assert(rows_grouped(groups.push(group), from + 1) == 0);
    }
}

proof fn lemma_group_position(groups: Seq<GroupView>, keys: Seq<ValueView>, from: nat)
    ensures
        match group_position(groups, keys, from) {
            Some(at) => from <= at < groups.len() && keys_of(groups[at as int].values) == keys,
            None => forall|i: int| from <= i < groups.len() ==> keys_of((#[trigger] groups[i]).values) != keys,
        },
    decreases groups.len() - from,
{
    if from < groups.len() && keys_of(groups[from as int].values) != keys {
        lemma_group_position(groups, keys, from + 1);
    }
}

proof fn lemma_one_more(
    groups: Seq<GroupView>,
    values: Seq<ValueView>,
    row: Seq<ValueView>,
    columns: Seq<ColumnView>,
    selection: Option<ExprView>,
    group_by: Seq<PhraseView>,
    floats: Floats,
)
    requires
        parted(groups, columns, selection, group_by, floats),
        belongs(row, values, columns, selection, group_by, floats),
    ensures
        parted(row_grouped(groups, values, row), columns, selection, group_by, floats),
        rows_grouped(row_grouped(groups, values, row), 0) == rows_grouped(groups, 0) + 1,
{
    let now = row_grouped(groups, values, row);
    lemma_group_position(groups, keys_of(values), 0);
    match group_position(groups, keys_of(values), 0) {
        Some(at) => {
            lemma_rows_added(groups, at, row, 0);
            assert forall|i: int, k: int| 0 <= i < now.len() && 0 <= k < now[i].rows.len() implies belongs(
                #[trigger] now[i].rows[k],
                now[i].values,
                columns,
                selection,
                group_by,
                floats,
            ) by {
                if i == at && k == groups[i].rows.len() {
                    assert(now[i].rows[k] == row);
                } else {
                    assert(now[i].rows[k] == groups[i].rows[k]);
                }
            }
        },
        None => {
            let group = GroupView { values, rows: seq![row] };
            lemma_rows_pushed(groups, group, 0);
            assert forall|i: int, k: int| 0 <= i < now.len() && 0 <= k < now[i].rows.len() implies belongs(
                #[trigger] now[i].rows[k],
                now[i].values,
                columns,
                selection,
                group_by,
                floats,
            ) by {
                if i < groups.len() {
                    assert(now[i] == groups[i]);
                    assert(belongs(groups[i].rows[k], groups[i].values, columns, selection, group_by, floats));
                } else {
                    assert(now[i] == group);
                }
            }
        },
    }
}

proof fn lemma_grouped(
    columns: Seq<ColumnView>,
    rows: Seq<Seq<ValueView>>,
    selection: Option<ExprView>,
    group_by: Seq<PhraseView>,
    floats: Floats,
    from: nat,
    done: Seq<GroupView>,
)
    requires
        group_by.len() > 0,
        parted(done, columns, selection, group_by, floats),
    ensures
        row_groups(columns, rows, selection, group_by, floats, from, done) matches Ok(groups) ==> parted(
            groups,
            columns,
            selection,
            group_by,
            floats,
        ) && rows_grouped(groups, 0) == rows_grouped(done, 0) + rows_selected(rows, columns, selection, floats, from),
    decreases rows.len() - from,
{
    if from < rows.len() {
        let row = rows[from as int];
        let scope = ScopeView::plain(columns, row);
        match selects(selection, scope, floats) {
            Ok(false) => lemma_grouped(columns, rows, selection, group_by, floats, from + 1, done),
            Ok(true) => {
                if let Ok(values) = phrase_values(group_by, scope, floats, 0, Seq::empty()) {
                    lemma_one_more(done, values, row, columns, selection, group_by, floats);
                    lemma_grouped(
                        columns,
                        rows,
                        selection,
                        group_by,
                        floats,
                        from + 1,
                        row_grouped(done, values, row),
                    );
                }
            },
            Err(_) => {},
        }
    }
}

/// `GROUP BY` parts the selected rows: groups have different values, none is empty, each row is in a
/// group of its own values, and together the groups have as many rows as are selected.
pub proof fn law_groups_part_the_rows(
    columns: Seq<ColumnView>,
    rows: Seq<Seq<ValueView>>,
    selection: Option<ExprView>,
    group_by: Seq<PhraseView>,
    floats: Floats,
)
    requires
        group_by.len() > 0,
    ensures
        row_groups(columns, rows, selection, group_by, floats, 0, Seq::empty()) matches Ok(groups) ==> parted(
            groups,
            columns,
            selection,
            group_by,
            floats,
        ) && rows_grouped(groups, 0) == rows_selected(rows, columns, selection, floats, 0),
{
    lemma_grouped(columns, rows, selection, group_by, floats, 0, Seq::empty());
}

} // verus!
