//! What `UPDATE` and `DELETE` change, and what they leave.

use vstd::prelude::*;
use crate::ast::{AssignmentView, ExprView};
use crate::catalog::{kept_rows, updated_rows};
use crate::error::ErrorView;
use crate::eval::{selects, ScopeView};
use crate::float::Floats;
use crate::group_laws::rows_selected;
use crate::table::TableView;
use crate::value::ValueView;
use crate::write::assigned_row;

verus! {

/// Whether a row of a table is selected.
pub open spec fn selected(table: TableView, at: int, selection: Option<ExprView>, floats: Floats) -> bool {
    selects(selection, ScopeView::plain(table.columns, table.rows[at]), floats) == Ok::<bool, ErrorView>(true)
}

/// Whether a row is what an update makes of the row of a table.
pub open spec fn updates(
    table: TableView,
    assignments: Seq<AssignmentView>,
    targets: Seq<usize>,
    selection: Option<ExprView>,
    floats: Floats,
    at: int,
    row: Seq<ValueView>,
) -> bool {
    if selected(table, at, selection, floats) {
        assigned_row(assignments, targets, ScopeView::plain(table.columns, table.rows[at]), floats, 0, table.rows[at])
            == Ok::<Seq<ValueView>, ErrorView>(row)
    } else {
        row == table.rows[at]
    }
}

proof fn lemma_updates(
    table: TableView,
    assignments: Seq<AssignmentView>,
    targets: Seq<usize>,
    selection: Option<ExprView>,
    floats: Floats,
    from: nat,
    done: Seq<Seq<ValueView>>,
    affected: nat,
)
    requires
        from <= table.rows.len(),
        done.len() == from,
        forall|i: int| 0 <= i < from ==> updates(table, assignments, targets, selection, floats, i, #[trigger] done[i]),
    ensures
        updated_rows(table, assignments, targets, selection, floats, from, done, affected) matches Ok((rows, count)) ==> {
            &&& rows.len() == table.rows.len()
            &&& forall|i: int|
                0 <= i < rows.len() ==> updates(table, assignments, targets, selection, floats, i, #[trigger] rows[i])
            &&& count == affected + rows_selected(table.rows, table.columns, selection, floats, from)
        },
    decreases table.rows.len() - from,
{
    if from < table.rows.len() {
        let row = table.rows[from as int];
        let scope = ScopeView::plain(table.columns, row);
        match selects(selection, scope, floats) {
            Ok(false) => {
                let next = done.push(row);
                assert(updates(table, assignments, targets, selection, floats, from as int, row));
                assert forall|i: int| 0 <= i < next.len() implies updates(
                    table,
                    assignments,
                    targets,
                    selection,
                    floats,
                    i,
                    #[trigger] next[i],
                ) by {
                    if i < from {
                        assert(next[i] == done[i]);
                    }
                }
                lemma_updates(table, assignments, targets, selection, floats, from + 1, next, affected);
            },
            Ok(true) => {
                if let Ok(changed) = assigned_row(assignments, targets, scope, floats, 0, row) {
                    let next = done.push(changed);
                    assert(updates(table, assignments, targets, selection, floats, from as int, changed));
                    assert forall|i: int| 0 <= i < next.len() implies updates(
                        table,
                        assignments,
                        targets,
                        selection,
                        floats,
                        i,
                        #[trigger] next[i],
                    ) by {
                        if i < from {
                            assert(next[i] == done[i]);
                        }
                    }
                    lemma_updates(table, assignments, targets, selection, floats, from + 1, next, affected + 1);
                }
            },
            Err(_) => {},
        }
    }
}

/// `UPDATE` changes the selected rows as its assignments say, in their places, and no others; it
/// counts those that it changed.
pub proof fn law_update_changes_the_selected_rows(
    table: TableView,
    assignments: Seq<AssignmentView>,
    targets: Seq<usize>,
    selection: Option<ExprView>,
    floats: Floats,
)
    ensures
        updated_rows(table, assignments, targets, selection, floats, 0, Seq::empty(), 0) matches Ok((rows, count)) ==> {
            &&& rows.len() == table.rows.len()
            &&& forall|i: int|
                0 <= i < rows.len() ==> updates(table, assignments, targets, selection, floats, i, #[trigger] rows[i])
            &&& count == rows_selected(table.rows, table.columns, selection, floats, 0)
        },
{
    lemma_updates(table, assignments, targets, selection, floats, 0, Seq::empty(), 0);
}

/// Whether rows are those of a table that are not selected, from `from` on, in their order.
pub open spec fn unselected_rows(table: TableView, selection: Option<ExprView>, floats: Floats, from: nat) -> Seq<Seq<ValueView>>
    decreases table.rows.len() - from,
{
    if from >= table.rows.len() {
        Seq::empty()
    } else if selected(table, from as int, selection, floats) {
        unselected_rows(table, selection, floats, from + 1)
    } else {
        seq![table.rows[from as int]] + unselected_rows(table, selection, floats, from + 1)
    }
}

proof fn lemma_kept_unselected(
    table: TableView,
    selection: Option<ExprView>,
    floats: Floats,
    from: nat,
    kept: Seq<Seq<ValueView>>,
)
    requires
        from <= table.rows.len(),
    ensures
        kept_rows(table, selection, floats, from, kept) matches Ok(rows) ==> rows == kept + unselected_rows(
            table,
            selection,
            floats,
            from,
        ) && rows.len() + rows_selected(table.rows, table.columns, selection, floats, from) == kept.len()
            + table.rows.len() - from,
    decreases table.rows.len() - from,
{
    if from < table.rows.len() {
        let row = table.rows[from as int];
        if let Ok(deleted) = selects(selection, ScopeView::plain(table.columns, row), floats) {
            if deleted {
                lemma_kept_unselected(table, selection, floats, from + 1, kept);
            } else {
                lemma_kept_unselected(table, selection, floats, from + 1, kept.push(row));
                let rest = unselected_rows(table, selection, floats, from + 1);
                assert(kept.push(row) + rest =~= kept + (seq![row] + rest));
            }
        }
    } else {
        assert(kept + unselected_rows(table, selection, floats, from) =~= kept);
    }
}

/// `DELETE` leaves the rows that are not selected, as they were and in their order.
pub proof fn law_delete_leaves_the_other_rows(table: TableView, selection: Option<ExprView>, floats: Floats)
    ensures
        kept_rows(table, selection, floats, 0, Seq::empty()) matches Ok(rows) ==> rows == unselected_rows(
            table,
            selection,
            floats,
            0,
        ) && rows.len() + rows_selected(table.rows, table.columns, selection, floats, 0) == table.rows.len(),
{
    lemma_kept_unselected(table, selection, floats, 0, Seq::empty());
    let left = unselected_rows(table, selection, floats, 0);
    assert(Seq::<Seq<ValueView>>::empty() + left =~= left);
}

} // verus!
