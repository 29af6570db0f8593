//! That what was logged is recovered.

use vstd::prelude::*;
use crate::catalog::{typed_inserted, CatalogView, InsertConflictView};
use crate::database::{answered, committed, logged_as, recovered, recovery, replayed, OperationView, RecordView};
use crate::error::ErrorView;
use crate::float::Floats;
use crate::operators::{coerced, law_coerce_twice};
use crate::restore::{law_snapshot_restores, storable};
use crate::snapshot::{arranged_tables, loaded, snapshot_of};
use crate::text::normalized;
use crate::value::{ColumnView, ValueView};
use crate::write::{coerced_row, typed_row, typed_rows};

verus! {

/// The catalog after the first `count` logged changes, each of which counts one up; none where one of them fails or
/// changes nothing.
pub open spec fn applied(catalog: CatalogView, operations: Seq<OperationView>, floats: Floats, count: nat) -> Option<CatalogView>
    decreases count,
{
    if count == 0 {
        Some(catalog)
    } else {
        match applied(catalog, operations, floats, (count - 1) as nat) {
            None => None,
            Some(before) => match replayed(before, operations[count - 1], floats) {
                Err(_) => None,
                Ok(after) => if after.revision == before.revision {
                    None
                } else {
                    Some(after.sequenced((before.durable_sequence + 1) as u64))
                },
            },
        }
    }
}

/// The log of changes after a checkpoint.
pub open spec fn log_of(checkpoint: u64, operations: Seq<OperationView>) -> Seq<RecordView> {
    Seq::new(
        operations.len(),
        |i: int| RecordView { sequence: (checkpoint + 1 + i) as u64, operation: operations[i] },
    )
}

proof fn lemma_applied_sequence(catalog: CatalogView, operations: Seq<OperationView>, floats: Floats, count: nat)
    requires
        catalog.durable_sequence + count <= u64::MAX,
    ensures
        applied(catalog, operations, floats, count) matches Some(after) ==> after.durable_sequence == catalog.durable_sequence
            + count,
    decreases count,
{
    if count > 0 {
        lemma_applied_sequence(catalog, operations, floats, (count - 1) as nat);
    }
}

proof fn lemma_applied_before(catalog: CatalogView, operations: Seq<OperationView>, floats: Floats, count: nat, more: nat)
    requires
        count <= more,
        applied(catalog, operations, floats, more) is Some,
    ensures
        applied(catalog, operations, floats, count) is Some,
    decreases more - count,
{
    if count < more {
        lemma_applied_before(catalog, operations, floats, count, (more - 1) as nat);
    }
}

proof fn lemma_log_recovered(catalog: CatalogView, operations: Seq<OperationView>, floats: Floats, from: nat)
    requires
        from <= operations.len(),
        catalog.durable_sequence + operations.len() < u64::MAX,
        applied(catalog, operations, floats, operations.len()) is Some,
    ensures
        ({
            let checkpoint = catalog.durable_sequence;
            recovered(
                applied(catalog, operations, floats, from)->0,
                log_of(checkpoint, operations),
                checkpoint,
                (checkpoint + 1 + from) as u64,
                floats,
                from,
            ) == Ok::<CatalogView, ErrorView>(applied(catalog, operations, floats, operations.len())->0)
        }),
    decreases operations.len() - from,
{
    let checkpoint = catalog.durable_sequence;
    let records = log_of(checkpoint, operations);
    lemma_applied_before(catalog, operations, floats, from, operations.len());
    if from < operations.len() {
        lemma_applied_before(catalog, operations, floats, from + 1, operations.len());
        lemma_applied_sequence(catalog, operations, floats, from);
        assert(records[from as int].sequence == checkpoint + 1 + from);
        lemma_log_recovered(catalog, operations, floats, from + 1);
    }
}

/// Changes that were logged one after another behind a checkpoint are recovered in full: recovery gives the catalog
/// that the changes gave. This holds of any number of them, so of each state that a crash can leave the log in.
pub proof fn law_log_is_recovered(catalog: CatalogView, operations: Seq<OperationView>, floats: Floats)
    requires
        catalog.durable_sequence + operations.len() < u64::MAX,
        applied(catalog, operations, floats, operations.len()) is Some,
    ensures
        recovery(catalog, log_of(catalog.durable_sequence, operations), floats) == Ok::<CatalogView, ErrorView>(
            applied(catalog, operations, floats, operations.len())->0,
        ),
{
    lemma_log_recovered(catalog, operations, floats, 0);
}

proof fn lemma_coerced_again(
    columns: Seq<ColumnView>,
    row: Seq<ValueView>,
    floats: Floats,
    from: nat,
    done: Seq<ValueView>,
)
    requires
        row.len() == columns.len(),
        from == done.len(),
        from <= row.len(),
        coerced_row(columns, row, floats, from, done) is Ok,
    ensures
        ({
            let values = coerced_row(columns, row, floats, from, done)->Ok_0;
            &&& values.len() == row.len()
            &&& forall|i: int| 0 <= i < from ==> values[i] == done[i]
            &&& coerced_row(columns, values, floats, from, done) == Ok::<Seq<ValueView>, ErrorView>(values)
        }),
    decreases row.len() - from,
{
    if from < row.len() {
        let value = coerced(floats, row[from as int], columns[from as int].data_type)->Ok_0;
        law_coerce_twice(floats, row[from as int], columns[from as int].data_type);
        lemma_coerced_again(columns, row, floats, from + 1, done.push(value));
        let values = coerced_row(columns, row, floats, from, done)->Ok_0;
        assert(values[from as int] == done.push(value)[from as int]);
        assert forall|i: int| 0 <= i < from implies values[i] == done[i] by {
            assert(values[i] == done.push(value)[i]);
        }
    }
}

proof fn lemma_typed_again(
    columns: Seq<ColumnView>,
    rows: Seq<Seq<ValueView>>,
    floats: Floats,
    from: nat,
    done: Seq<Seq<ValueView>>,
)
    requires
        from == done.len(),
        from <= rows.len(),
        typed_rows(columns, rows, floats, from, done) is Ok,
    ensures
        ({
            let typed = typed_rows(columns, rows, floats, from, done)->Ok_0;
            &&& typed.len() == rows.len()
            &&& forall|i: int| 0 <= i < from ==> typed[i] == done[i]
            &&& typed_rows(columns, typed, floats, from, done) == Ok::<Seq<Seq<ValueView>>, ErrorView>(typed)
        }),
    decreases rows.len() - from,
{
    if from < rows.len() {
        let row = typed_row(columns, rows[from as int], floats)->Ok_0;
        lemma_coerced_again(columns, rows[from as int], floats, 0, Seq::empty());
        assert(typed_row(columns, row, floats) == Ok::<Seq<ValueView>, ErrorView>(row));
        lemma_typed_again(columns, rows, floats, from + 1, done.push(row));
        let typed = typed_rows(columns, rows, floats, from, done)->Ok_0;
        assert(typed[from as int] == done.push(row)[from as int]);
        assert forall|i: int| 0 <= i < from implies typed[i] == done[i] by {
            assert(typed[i] == done.push(row)[i]);
        }
    }
}

/// Replaying the record of committed rows gives the committed catalog again. The record holds the rows with their
/// values in the types of the columns.
pub proof fn law_committed_rows_are_recovered(
    catalog: CatalogView,
    table: Seq<char>,
    rows: Seq<Seq<ValueView>>,
    conflict: InsertConflictView,
    floats: Floats,
)
    requires
        catalog.durable_sequence < u64::MAX - 1,
        typed_inserted(catalog, table, rows, conflict, floats) is Ok,
        typed_inserted(catalog, table, rows, conflict, floats)->Ok_0.0.revision != catalog.revision,
    ensures
        ({
            let after = typed_inserted(catalog, table, rows, conflict, floats)->Ok_0.0;
            let sequence = (catalog.durable_sequence + 1) as u64;
            let at = catalog.located(normalized(table))->Ok_0;
            let typed = typed_rows(catalog.tables[at as int].table.columns, rows, floats, 0, Seq::empty())->Ok_0;
            let operation = OperationView::InsertRows { table, rows: typed, conflict };
            &&& logged_as(catalog, after) == Ok::<Option<u64>, ErrorView>(Some(sequence))
            &&& recovery(catalog, log_of(catalog.durable_sequence, seq![operation]), floats) == Ok::<CatalogView, ErrorView>(
                committed(after, Some(sequence)),
            )
        }),
{
    let at = catalog.located(normalized(table))->Ok_0;
    let columns = catalog.tables[at as int].table.columns;
    let typed = typed_rows(columns, rows, floats, 0, Seq::empty())->Ok_0;
    let operation = OperationView::InsertRows { table, rows: typed, conflict };
    lemma_typed_again(columns, rows, floats, 0, Seq::empty());
    reveal(replayed);
    reveal_with_fuel(applied, 2);
    assert(seq![operation][0] == operation);
    law_log_is_recovered(catalog, seq![operation], floats);
}

/// Whatever was answered and logged, several requests one after another, is recovered: the last of them in its place
/// behind the ones before it.
pub proof fn law_requests_are_recovered(catalog: CatalogView, operations: Seq<OperationView>, sql: Seq<char>, floats: Floats)
    requires
        catalog.durable_sequence + operations.len() + 1 < u64::MAX,
        applied(catalog, operations, floats, operations.len()) is Some,
        answered(applied(catalog, operations, floats, operations.len())->0, sql, floats) is Ok,
        answered(applied(catalog, operations, floats, operations.len())->0, sql, floats)->Ok_0.0.revision != applied(
            catalog,
            operations,
            floats,
            operations.len(),
        )->0.revision,
    ensures
        ({
            let before = applied(catalog, operations, floats, operations.len())->0;
            let after = answered(before, sql, floats)->Ok_0.0;
            recovery(catalog, log_of(catalog.durable_sequence, operations.push(OperationView::Sql(sql))), floats) == Ok::<
                CatalogView,
                ErrorView,
            >(committed(after, Some((before.durable_sequence + 1) as u64)))
        }),
{
    let all = operations.push(OperationView::Sql(sql));
    reveal(replayed);
    lemma_applied_prefix(catalog, operations, all, floats, operations.len());
    law_log_is_recovered(catalog, all, floats);
}

proof fn lemma_applied_prefix(
    catalog: CatalogView,
    operations: Seq<OperationView>,
    all: Seq<OperationView>,
    floats: Floats,
    count: nat,
)
    requires
        count <= operations.len() <= all.len(),
        forall|i: int| 0 <= i < operations.len() ==> operations[i] == #[trigger] all[i],
    ensures
        applied(catalog, operations, floats, count) == applied(catalog, all, floats, count),
    decreases count,
{
    if count > 0 {
        lemma_applied_prefix(catalog, operations, all, floats, (count - 1) as nat);
        assert(operations[count - 1] == all[count - 1]);
    }
}

/// A checkpoint and the log are recovered together: what is loaded of the checkpoint of a catalog
/// has the number of its last logged change, so that the records behind it are replayed, and no
/// others, and give what they give on the tables that were saved. A change that is made and logged
/// on what was loaded is recovered too.
pub proof fn law_checkpoint_and_log_are_recovered(
    catalog: CatalogView,
    records: Seq<RecordView>,
    operations: Seq<OperationView>,
    floats: Floats,
)
    requires
        storable(catalog.tables),
        catalog.tables.len() <= usize::MAX,
        forall|i: int| 0 <= i < catalog.tables.len() ==> (#[trigger] catalog.tables[i]).table.indexes.len() <= usize::MAX,
        snapshot_of(arranged_tables(catalog.tables), catalog.durable_sequence) is Ok,
    ensures
        loaded(snapshot_of(arranged_tables(catalog.tables), catalog.durable_sequence)->Ok_0) matches Ok(opened) && {
            let saved = CatalogView { tables: arranged_tables(catalog.tables), revision: 0, ..catalog };
            &&& opened == saved
            &&& opened.durable_sequence == catalog.durable_sequence
            &&& recovery(opened, records, floats) == recovery(saved, records, floats)
            &&& catalog.durable_sequence + operations.len() < u64::MAX && applied(
                opened,
                operations,
                floats,
                operations.len(),
            ) is Some ==> recovery(opened, log_of(catalog.durable_sequence, operations), floats) == Ok::<
                CatalogView,
                ErrorView,
            >(applied(opened, operations, floats, operations.len())->Some_0)
        },
{
    law_snapshot_restores(catalog);
    let opened = CatalogView { tables: arranged_tables(catalog.tables), revision: 0, ..catalog };
    if catalog.durable_sequence + operations.len() < u64::MAX && applied(opened, operations, floats, operations.len()) is Some {
        law_log_is_recovered(opened, operations, floats);
    }
}

} // verus!
