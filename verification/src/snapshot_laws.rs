//! That a snapshot depends on what a catalog holds, and not on the order in which it holds it.

use vstd::prelude::*;
use vstd::set_lib::{lemma_int_range, lemma_subset_equality, set_int_range};
use crate::catalog::NamedTableView;
use crate::order::{law_sorted, leads, sorted, weak_order, Precedes};
use crate::schema::{index_order, lemma_index_order, lemma_table_order, table_order};
use crate::snapshot::{arranged_indexes, arranged_table, arranged_tables, snapshot_of};
use crate::table::IndexView;
use crate::text::{lemma_text_order, lemma_text_rank_same, text_rank, Rank};

verus! {

/// Whether each text goes before those after it.
spec fn names_ascend(names: Seq<Seq<char>>) -> bool {
    forall|i: int, j: int| 0 <= i < j < names.len() ==> text_rank(#[trigger] names[i], #[trigger] names[j]) == Rank::Before
}

/// Whether two lists hold the same texts.
spec fn same_texts(a: Seq<Seq<char>>, b: Seq<Seq<char>>) -> bool {
    &&& forall|i: int| 0 <= i < a.len() ==> b.contains(#[trigger] a[i])
    &&& forall|i: int| 0 <= i < b.len() ==> a.contains(#[trigger] b[i])
}

proof fn lemma_not_before_itself(text: Seq<char>)
    ensures
        text_rank(text, text) != Rank::Before,
{
    lemma_text_order(text, text, text);
}

proof fn lemma_one_arrangement(a: Seq<Seq<char>>, b: Seq<Seq<char>>)
    requires
        names_ascend(a),
        names_ascend(b),
        same_texts(a, b),
    ensures
        a == b,
    decreases a.len(),
{
    if a.len() == 0 {
        if b.len() > 0 {
            assert(a.contains(b[0]));
        }
        assert(a =~= b);
    } else {
        assert(b.contains(a[0]));
        let x = a.last();
        let y = b.last();
        if x != y {
            assert(b.contains(a[a.len() - 1]));
            assert(a.contains(b[b.len() - 1]));
            let k = choose|k: int| 0 <= k < b.len() && b[k] == x;
            let m = choose|m: int| 0 <= m < a.len() && a[m] == y;
            assert(text_rank(b[k], b[b.len() - 1]) == Rank::Before);
            assert(text_rank(a[m], a[a.len() - 1]) == Rank::Before);
            lemma_text_order(x, y, x);
            lemma_not_before_itself(x);
            assert(false);
        }
        let c = a.drop_last();
        let d = b.drop_last();
        assert forall|i: int| 0 <= i < c.len() implies d.contains(#[trigger] c[i]) by {
            assert(b.contains(a[i]));
            let k = choose|k: int| 0 <= k < b.len() && b[k] == a[i];
            assert(text_rank(a[i], a[a.len() - 1]) == Rank::Before);
            lemma_not_before_itself(x);
            assert(k < b.len() - 1);
            assert(d[k] == c[i]);
        }
        assert forall|i: int| 0 <= i < d.len() implies c.contains(#[trigger] d[i]) by {
            assert(a.contains(b[i]));
            let k = choose|k: int| 0 <= k < a.len() && a[k] == b[i];
            assert(text_rank(b[i], b[b.len() - 1]) == Rank::Before);
            lemma_not_before_itself(x);
            assert(k < a.len() - 1);
            assert(c[k] == d[i]);
        }
        assert forall|i: int, j: int| 0 <= i < j < c.len() implies text_rank(#[trigger] c[i], #[trigger] c[j]) == Rank::Before by {
            assert(text_rank(a[i], a[j]) == Rank::Before);
        }
        assert forall|i: int, j: int| 0 <= i < j < d.len() implies text_rank(#[trigger] d[i], #[trigger] d[j]) == Rank::Before by {
            assert(text_rank(b[i], b[j]) == Rank::Before);
        }
        lemma_one_arrangement(c, d);
        assert(a =~= c.push(x));
        assert(b =~= d.push(y));
    }
}

/// Sorting puts every position somewhere.
proof fn lemma_every_position(count: usize, before: Precedes, at: usize) -> (place: int)
    requires
        weak_order(before, count),
        at < count,
    ensures
        0 <= place < count,
        sorted(count, before).len() == count,
        sorted(count, before)[place] == at,
{
    law_sorted(count, before);
    let order = sorted(count, before);
    let places = order.map_values(|position: usize| position as int);
    assert(places.no_duplicates()) by {
        assert forall|i: int, j: int| 0 <= i < places.len() && 0 <= j < places.len() && i != j implies places[i] != places[j] by {
            assert(order[i] != order[j]);
        }
    }
    places.unique_seq_to_set();
    let all = set_int_range(0, count as int);
    lemma_int_range(0, count as int);
    assert(places.to_set().subset_of(all)) by {
        assert forall|p: int| places.to_set().contains(p) implies all.contains(p) by {
            let i = choose|i: int| 0 <= i < places.len() && places[i] == p;
            assert(places[i] == order[i] as int);
        }
    }
    lemma_subset_equality(places.to_set(), all);
    assert(places.to_set().contains(at as int));
    let place = choose|i: int| 0 <= i < places.len() && places[i] == at as int;
    place
}

/// Whether indexes have different names.
pub open spec fn index_names_differ(indexes: Seq<IndexView>) -> bool {
    forall|i: int, j: int| 0 <= i < j < indexes.len() ==> (#[trigger] indexes[i]).name != (#[trigger] indexes[j]).name
}

/// Whether two lists hold the same indexes, each under a name of its own.
pub open spec fn same_indexes(a: Seq<IndexView>, b: Seq<IndexView>) -> bool {
    &&& a.len() <= usize::MAX
    &&& b.len() <= usize::MAX
    &&& index_names_differ(a)
    &&& index_names_differ(b)
    &&& forall|i: int| 0 <= i < a.len() ==> b.contains(#[trigger] a[i])
    &&& forall|i: int| 0 <= i < b.len() ==> a.contains(#[trigger] b[i])
}

/// Whether two tables have the same name and hold the same, but for the order of their indexes.
pub open spec fn same_table(a: NamedTableView, b: NamedTableView) -> bool {
    &&& a.name == b.name
    &&& a.table.columns == b.table.columns
    &&& a.table.rows == b.table.rows
    &&& same_indexes(a.table.indexes, b.table.indexes)
}

/// Whether a list has a table that is the same.
pub open spec fn has_table(tables: Seq<NamedTableView>, entry: NamedTableView) -> bool {
    exists|i: int| 0 <= i < tables.len() && same_table(entry, #[trigger] tables[i])
}

/// Whether two lists hold the same tables, each under a name of its own.
pub open spec fn same_tables(a: Seq<NamedTableView>, b: Seq<NamedTableView>) -> bool {
    &&& a.len() <= usize::MAX
    &&& b.len() <= usize::MAX
    &&& forall|i: int, j: int| 0 <= i < j < a.len() ==> (#[trigger] a[i]).name != (#[trigger] a[j]).name
    &&& forall|i: int, j: int| 0 <= i < j < b.len() ==> (#[trigger] b[i]).name != (#[trigger] b[j]).name
    &&& forall|i: int| 0 <= i < a.len() ==> has_table(b, #[trigger] a[i])
    &&& forall|i: int| 0 <= i < b.len() ==> has_table(a, #[trigger] b[i])
}

spec fn index_names(indexes: Seq<IndexView>) -> Seq<Seq<char>> {
    indexes.map_values(|index: IndexView| index.name)
}

spec fn table_names_of(tables: Seq<NamedTableView>) -> Seq<Seq<char>> {
    tables.map_values(|entry: NamedTableView| entry.name)
}

proof fn lemma_before(first: Seq<char>, second: Seq<char>)
    requires
        text_rank(second, first) != Rank::Before,
        first != second,
    ensures
        text_rank(first, second) == Rank::Before,
{
    lemma_text_order(second, first, first);
    lemma_text_order(first, second, second);
    lemma_text_rank_same(first, second, 0);
    assert(first.skip(0) =~= first);
    assert(second.skip(0) =~= second);
}

proof fn lemma_indexes_ascend(indexes: Seq<IndexView>)
    requires
        indexes.len() <= usize::MAX,
        index_names_differ(indexes),
    ensures
        names_ascend(index_names(arranged_indexes(indexes))),
        arranged_indexes(indexes).len() == indexes.len(),
        forall|i: int| 0 <= i < indexes.len() ==> indexes.contains(#[trigger] arranged_indexes(indexes)[i]),
{
    let count = indexes.len() as usize;
    let before = index_order(indexes);
    lemma_index_order(indexes);
    law_sorted(count, before);
    let order = sorted(count, before);
    let arranged = arranged_indexes(indexes);
    let names = index_names(arranged);
    assert forall|i: int| 0 <= i < indexes.len() implies indexes.contains(#[trigger] arranged[i]) by {
        assert(arranged[i] == indexes[order[i] as int]);
    }
    assert forall|i: int, j: int| 0 <= i < j < names.len() implies text_rank(#[trigger] names[i], #[trigger] names[j])
        == Rank::Before by {
        let a = order[i];
        let b = order[j];
        assert(leads(before, a, b));
        assert(a != b);
        assert(indexes[a as int].name != indexes[b as int].name) by {
            if a < b {
                assert(indexes[a as int].name != indexes[b as int].name);
            } else {
                assert(indexes[b as int].name != indexes[a as int].name);
            }
        }
        if !before(a, b) {
            lemma_before(indexes[a as int].name, indexes[b as int].name);
        }
    }
}

proof fn lemma_index_kept(indexes: Seq<IndexView>, at: int)
    requires
        indexes.len() <= usize::MAX,
        0 <= at < indexes.len(),
    ensures
        arranged_indexes(indexes).contains(indexes[at]),
{
    lemma_index_order(indexes);
    let place = lemma_every_position(indexes.len() as usize, index_order(indexes), at as usize);
    assert(arranged_indexes(indexes)[place] == indexes[at]);
}

proof fn lemma_same_indexes(a: Seq<IndexView>, b: Seq<IndexView>)
    requires
        same_indexes(a, b),
    ensures
        arranged_indexes(a) == arranged_indexes(b),
{
    let c = arranged_indexes(a);
    let d = arranged_indexes(b);
    lemma_indexes_ascend(a);
    lemma_indexes_ascend(b);
    assert forall|i: int| 0 <= i < c.len() implies index_names(d).contains(#[trigger] index_names(c)[i]) by {
        assert(a.contains(c[i]));
        let k = choose|k: int| 0 <= k < a.len() && a[k] == c[i];
        assert(b.contains(a[k]));
        let m = choose|m: int| 0 <= m < b.len() && b[m] == a[k];
        lemma_index_kept(b, m);
        let n = choose|n: int| 0 <= n < d.len() && d[n] == b[m];
        assert(index_names(d)[n] == index_names(c)[i]);
    }
    assert forall|i: int| 0 <= i < d.len() implies index_names(c).contains(#[trigger] index_names(d)[i]) by {
        assert(b.contains(d[i]));
        let k = choose|k: int| 0 <= k < b.len() && b[k] == d[i];
        assert(a.contains(b[k]));
        let m = choose|m: int| 0 <= m < a.len() && a[m] == b[k];
        lemma_index_kept(a, m);
        let n = choose|n: int| 0 <= n < c.len() && c[n] == a[m];
        assert(index_names(c)[n] == index_names(d)[i]);
    }
    lemma_one_arrangement(index_names(c), index_names(d));
    assert(c.len() == index_names(c).len() && d.len() == index_names(d).len());
    assert forall|i: int| 0 <= i < c.len() implies c[i] == d[i] by {
        assert(index_names(c)[i] == index_names(d)[i]);
        assert(a.contains(c[i]));
        assert(b.contains(d[i]));
        let k = choose|k: int| 0 <= k < a.len() && a[k] == c[i];
        assert(b.contains(a[k]));
        let m = choose|m: int| 0 <= m < b.len() && b[m] == a[k];
        let n = choose|n: int| 0 <= n < b.len() && b[n] == d[i];
        assert(b[m].name == b[n].name);
        if m < n {
            assert(b[m].name != b[n].name);
        } else if n < m {
            assert(b[n].name != b[m].name);
        }
    }
    assert(c =~= d);
}

/// Whether an entry is one of the tables with its indexes in order.
spec fn is_arranged(tables: Seq<NamedTableView>, entry: NamedTableView) -> bool {
    exists|k: int| 0 <= k < tables.len() && entry == arranged_table(#[trigger] tables[k])
}

proof fn lemma_tables_ascend(tables: Seq<NamedTableView>)
    requires
        tables.len() <= usize::MAX,
        forall|i: int, j: int| 0 <= i < j < tables.len() ==> (#[trigger] tables[i]).name != (#[trigger] tables[j]).name,
    ensures
        names_ascend(table_names_of(arranged_tables(tables))),
        arranged_tables(tables).len() == tables.len(),
        forall|i: int| 0 <= i < tables.len() ==> is_arranged(tables, #[trigger] arranged_tables(tables)[i]),
{
    let count = tables.len() as usize;
    let before = table_order(tables);
    lemma_table_order(tables);
    law_sorted(count, before);
    let order = sorted(count, before);
    let arranged = arranged_tables(tables);
    let names = table_names_of(arranged);
    assert forall|i: int| 0 <= i < tables.len() implies is_arranged(tables, #[trigger] arranged[i]) by {
        assert(arranged[i] == arranged_table(tables[order[i] as int]));
    }
    assert forall|i: int, j: int| 0 <= i < j < names.len() implies text_rank(#[trigger] names[i], #[trigger] names[j])
        == Rank::Before by {
        let a = order[i];
        let b = order[j];
        assert(leads(before, a, b));
        assert(a != b);
        assert(tables[a as int].name != tables[b as int].name) by {
            if a < b {
                assert(tables[a as int].name != tables[b as int].name);
            } else {
                assert(tables[b as int].name != tables[a as int].name);
            }
        }
        assert(names[i] == tables[a as int].name);
        assert(names[j] == tables[b as int].name);
        if !before(a, b) {
            lemma_before(tables[a as int].name, tables[b as int].name);
        }
    }
}

proof fn lemma_table_kept(tables: Seq<NamedTableView>, at: int) -> (place: int)
    requires
        tables.len() <= usize::MAX,
        0 <= at < tables.len(),
    ensures
        0 <= place < arranged_tables(tables).len(),
        arranged_tables(tables)[place] == arranged_table(tables[at]),
{
    lemma_table_order(tables);
    lemma_every_position(tables.len() as usize, table_order(tables), at as usize)
}

/// Each arranged table of one list is one of the other, and under the same name.
proof fn lemma_names_kept(a: Seq<NamedTableView>, b: Seq<NamedTableView>)
    requires
        same_tables(a, b),
    ensures
        forall|i: int|
            0 <= i < arranged_tables(a).len() ==> table_names_of(arranged_tables(b)).contains(
                #[trigger] table_names_of(arranged_tables(a))[i],
            ),
{
    lemma_tables_ascend(a);
    let c = arranged_tables(a);
    let d = arranged_tables(b);
    assert forall|i: int| 0 <= i < c.len() implies table_names_of(d).contains(#[trigger] table_names_of(c)[i]) by {
        assert(is_arranged(a, c[i]));
        let k = choose|k: int| 0 <= k < a.len() && c[i] == arranged_table(#[trigger] a[k]);
        assert(has_table(b, a[k]));
        let m = choose|m: int| 0 <= m < b.len() && same_table(a[k], #[trigger] b[m]);
        let n = lemma_table_kept(b, m);
        assert(table_names_of(d)[n] == table_names_of(c)[i]);
    }
}

/// Equal catalogs have equal snapshots, byte for byte, in whatever order they hold their tables and indexes.
pub proof fn law_snapshot_is_reproducible(a: Seq<NamedTableView>, b: Seq<NamedTableView>, sequence: u64)
    requires
        same_tables(a, b),
    ensures
        arranged_tables(a) == arranged_tables(b),
        snapshot_of(arranged_tables(a), sequence) == snapshot_of(arranged_tables(b), sequence),
{
    let c = arranged_tables(a);
    let d = arranged_tables(b);
    assert(same_tables(b, a));
    lemma_names_kept(a, b);
    lemma_names_kept(b, a);
    lemma_tables_ascend(a);
    lemma_tables_ascend(b);
    lemma_one_arrangement(table_names_of(c), table_names_of(d));
    assert(c.len() == table_names_of(c).len() && d.len() == table_names_of(d).len());
    assert forall|i: int| 0 <= i < c.len() implies c[i] == d[i] by {
        assert(table_names_of(c)[i] == table_names_of(d)[i]);
        assert(is_arranged(a, c[i]));
        let k = choose|k: int| 0 <= k < a.len() && c[i] == arranged_table(#[trigger] a[k]);
        assert(is_arranged(b, d[i]));
        let n = choose|n: int| 0 <= n < b.len() && d[i] == arranged_table(#[trigger] b[n]);
        assert(has_table(b, a[k]));
        let m = choose|m: int| 0 <= m < b.len() && same_table(a[k], #[trigger] b[m]);
        assert(b[m].name == b[n].name);
        if m < n {
            assert(b[m].name != b[n].name);
        } else if n < m {
            assert(b[n].name != b[m].name);
        }
        lemma_same_indexes(a[k].table.indexes, b[m].table.indexes);
    }
    assert(c =~= d);
}

} // verus!
