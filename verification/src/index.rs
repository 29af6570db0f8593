//! Scalar hash indexes and unique-key maps over a table's rows.

use std::collections::HashMap;
use vstd::prelude::*;
use crate::codec::{FNV_OFFSET_BASIS, FNV_PRIME};
use crate::text::{chars_of, views};
use crate::value::{key_of, row_views, UniqueKey, Value, ValueView};

verus! {

/// Whether an index holds a value: every scalar but `NULL`.
pub open spec fn indexable(value: ValueView) -> bool {
    !(value is Null) && !(value is Vector)
}

/// The positions below `count` of the rows whose value in `column` has this key.
pub open spec fn matching(rows: Seq<Seq<ValueView>>, column: int, key: ValueView, count: nat) -> Seq<usize>
    decreases count,
{
    if count == 0 {
        Seq::empty()
    } else {
        let before = matching(rows, column, key, (count - 1) as nat);
        let value = rows[count - 1][column];
        if indexable(value) && key_of(value) == key {
            before.push((count - 1) as usize)
        } else {
            before
        }
    }
}

/// Whether positions are strictly ascending.
pub open spec fn ascending(positions: Seq<usize>) -> bool {
    forall|i: int, j: int| 0 <= i < j < positions.len() ==> positions[i] < positions[j]
}

/// The positions of the rows with a key are ascending and are exactly those of such rows.
pub proof fn lemma_matching(rows: Seq<Seq<ValueView>>, column: int, key: ValueView, count: nat)
    requires
        count <= rows.len(),
        rows.len() <= usize::MAX,
    ensures
        ascending(matching(rows, column, key, count)),
        forall|i: int| 0 <= i < matching(rows, column, key, count).len() ==> (#[trigger] matching(rows, column, key, count)[i])
            < count,
        forall|p: usize|
            matching(rows, column, key, count).contains(p) <==> p < count && indexable(rows[p as int][column]) && key_of(
                rows[p as int][column],
            ) == key,
    decreases count,
{
    if count > 0 {
        lemma_matching(rows, column, key, (count - 1) as nat);
        let before = matching(rows, column, key, (count - 1) as nat);
        let now = matching(rows, column, key, count);
        let last = (count - 1) as usize;
        let value = rows[count - 1][column];
        if indexable(value) && key_of(value) == key {
            assert(now == before.push(last));
            assert forall|p: usize| now.contains(p) <==> p < count && indexable(rows[p as int][column]) && key_of(
                rows[p as int][column],
            ) == key by {
                if now.contains(p) {
                    let i = choose|i: int| 0 <= i < now.len() && now[i] == p;
                    if i < before.len() {
                        assert(before[i] == p);
                        assert(before.contains(p));
                    }
                }
                if p < count && indexable(rows[p as int][column]) && key_of(rows[p as int][column]) == key {
                    if p < count - 1 {
                        assert(before.contains(p));
                        let i = choose|i: int| 0 <= i < before.len() && before[i] == p;
                        assert(now[i] == p);
                    } else {
                        assert(now[before.len() as int] == p);
                    }
                }
            }
        } else {
            assert(now == before);
        }
    }
}

/// Two row sequences that agree below `count` have the same matches there.
pub proof fn lemma_matching_prefix(
    rows: Seq<Seq<ValueView>>,
    longer: Seq<Seq<ValueView>>,
    column: int,
    key: ValueView,
    count: nat,
)
    requires
        count <= rows.len(),
        count <= longer.len(),
        forall|i: int| 0 <= i < count ==> rows[i] == longer[i],
    ensures
        matching(rows, column, key, count) == matching(longer, column, key, count),
    decreases count,
{
    if count > 0 {
        lemma_matching_prefix(rows, longer, column, key, (count - 1) as nat);
    }
}

/// A hash after one more word.
pub open spec fn stirred(hash: u64, word: u64) -> u64 {
    (hash ^ word).wrapping_mul(FNV_PRIME)
}

/// The hash of the first `count` characters of a text.
pub open spec fn text_hash(text: Seq<char>, count: nat) -> u64
    decreases count,
{
    if count == 0 {
        FNV_OFFSET_BASIS
    } else {
        stirred(text_hash(text, (count - 1) as nat), text[count - 1] as u64)
    }
}

/// The hash of the first `count` elements of a vector.
pub open spec fn elements_hash(elements: Seq<u32>, count: nat) -> u64
    decreases count,
{
    if count == 0 {
        FNV_OFFSET_BASIS
    } else {
        stirred(elements_hash(elements, (count - 1) as nat), elements[count - 1] as u64)
    }
}

/// The hash of a key.
pub open spec fn key_hash(key: ValueView) -> u64 {
    match key {
        ValueView::Null => FNV_OFFSET_BASIS,
        ValueView::Integer(value) => stirred(FNV_OFFSET_BASIS, value as u64),
        ValueView::Float(bits) => stirred(FNV_OFFSET_BASIS, bits),
        ValueView::Text(text) => text_hash(text, text.len()),
        ValueView::Boolean(value) => stirred(FNV_OFFSET_BASIS, if value { 1 } else { 0 }),
        ValueView::Vector(elements) => elements_hash(elements, elements.len()),
    }
}

fn stir(hash: u64, word: u64) -> (result: u64)
    ensures
        result == stirred(hash, word),
{
    (hash ^ word).wrapping_mul(FNV_PRIME)
}

/// The hash of a key.
pub fn hash_of(key: &UniqueKey) -> (hash: u64)
    ensures
        hash == key_hash(key@),
{
    match key {
        UniqueKey::Null => FNV_OFFSET_BASIS,
        UniqueKey::Integer(value) => stir(FNV_OFFSET_BASIS, *value as u64),
        UniqueKey::Float(bits) => stir(FNV_OFFSET_BASIS, *bits),
        UniqueKey::Text(text) => {
            let chars = chars_of(text.as_str());
            let mut hash: u64 = FNV_OFFSET_BASIS;
            let mut at: usize = 0;
            while at < chars.len()
                invariant
                    at <= chars@.len(),
                    hash == text_hash(chars@, at as nat),
                decreases chars@.len() - at,
            {
                hash = stir(hash, chars[at] as u64);
                at = at + 1;
            }
            hash
        },
        UniqueKey::Boolean(value) => stir(
            FNV_OFFSET_BASIS,
            if *value {
                1
            } else {
                0
            },
        ),
        UniqueKey::Vector(elements) => {
            let mut hash: u64 = FNV_OFFSET_BASIS;
            let mut at: usize = 0;
            while at < elements.len()
                invariant
                    at <= elements@.len(),
                    hash == elements_hash(elements@, at as nat),
                decreases elements@.len() - at,
            {
                hash = stir(hash, elements[at] as u64);
                at = at + 1;
            }
            hash
        },
    }
}

/// The rows with one key.
#[derive(Debug)]
pub struct Bucket {
    pub key: UniqueKey,
    pub rows: Vec<usize>,
}

pub struct BucketView {
    pub key: ValueView,
    pub rows: Seq<usize>,
}

impl View for Bucket {
    type V = BucketView;

    open spec fn view(&self) -> BucketView {
        BucketView { key: self.key@, rows: self.rows@ }
    }
}

/// The rows of the first bucket, from `from` on, with this key.
pub open spec fn bucket_rows(buckets: Seq<BucketView>, key: ValueView, from: nat) -> Seq<usize>
    decreases buckets.len() - from,
{
    if from >= buckets.len() {
        Seq::empty()
    } else if buckets[from as int].key == key {
        buckets[from as int].rows
    } else {
        bucket_rows(buckets, key, from + 1)
    }
}

proof fn lemma_bucket_skip(buckets: Seq<BucketView>, key: ValueView, from: nat, at: nat)
    requires
        from <= at <= buckets.len(),
        forall|i: int| from <= i < at ==> (#[trigger] buckets[i]).key != key,
    ensures
        bucket_rows(buckets, key, from) == bucket_rows(buckets, key, at),
    decreases at - from,
{
    if from < at {
        lemma_bucket_skip(buckets, key, from + 1, at);
    }
}

/// Changing the rows of the first bucket of one key changes the rows of that key alone.
proof fn lemma_bucket_update(buckets: Seq<BucketView>, at: int, changed: BucketView, key: ValueView, from: nat)
    requires
        0 <= at < buckets.len(),
        changed.key == buckets[at].key,
        from <= buckets.len(),
        forall|i: int| 0 <= i < at ==> (#[trigger] buckets[i]).key != changed.key,
    ensures
        key != changed.key ==> bucket_rows(buckets.update(at, changed), key, from) == bucket_rows(buckets, key, from),
        key == changed.key && from <= at ==> bucket_rows(buckets.update(at, changed), key, from) == changed.rows,
    decreases buckets.len() - from,
{
    if from < buckets.len() {
        lemma_bucket_update(buckets, at, changed, key, from + 1);
    }
}

/// A bucket added at the end changes the rows of its key alone, where that key had none.
proof fn lemma_bucket_push(buckets: Seq<BucketView>, added: BucketView, key: ValueView, from: nat)
    requires
        from <= buckets.len(),
        forall|i: int| 0 <= i < buckets.len() ==> (#[trigger] buckets[i]).key != added.key,
    ensures
        key != added.key ==> bucket_rows(buckets.push(added), key, from) == bucket_rows(buckets, key, from),
        key == added.key ==> bucket_rows(buckets.push(added), key, from) == added.rows,
    decreases buckets.len() - from,
{
    if from < buckets.len() {
        lemma_bucket_push(buckets, added, key, from + 1);
        assert(buckets.push(added)[from as int] == buckets[from as int]);
    } else {
        assert(buckets.push(added)[from as int] == added);
        assert(bucket_rows(buckets.push(added), key, from + 1) == Seq::<usize>::empty());
    }
}

/// Records in the buckets of one slot that the row at `position` has this key.
fn record_in(buckets: &mut Vec<Bucket>, key: UniqueKey, position: usize)
    ensures
        forall|other: ValueView|
            #[trigger] bucket_rows(views(final(buckets)@), other, 0) == if other == key@ {
                bucket_rows(views(old(buckets)@), other, 0).push(position)
            } else {
                bucket_rows(views(old(buckets)@), other, 0)
            },
{
    let ghost before = views(buckets@);
    let mut at: usize = 0;
    while at < buckets.len()
        invariant
            *buckets == *old(buckets),
            before == views(buckets@),
            at <= buckets@.len(),
            forall|i: int| 0 <= i < at ==> (#[trigger] before[i]).key != key@,
        decreases buckets@.len() - at,
    {
        if buckets[at].key.same_as(&key) {
            let ghost changed = BucketView { key: key@, rows: before[at as int].rows.push(position) };
            buckets[at].rows.push(position);
            proof {
                assert(views(buckets@) =~= before.update(at as int, changed));
                lemma_bucket_skip(before, key@, 0, at as nat);
                assert forall|other: ValueView|
                    #[trigger] bucket_rows(views(buckets@), other, 0) == if other == key@ {
                        bucket_rows(before, other, 0).push(position)
                    } else {
                        bucket_rows(before, other, 0)
                    } by {
                    lemma_bucket_update(before, at as int, changed, other, 0);
                }
            }
            return;
        }
        at = at + 1;
    }
    let mut rows: Vec<usize> = Vec::new();
    rows.push(position);
    let ghost added = BucketView { key: key@, rows: seq![position] };
    buckets.push(Bucket { key, rows });
    proof {
        assert(rows@ =~= seq![position]);
        assert(views(buckets@) =~= before.push(added));
        lemma_bucket_skip(before, key@, 0, before.len());
        assert(bucket_rows(before, key@, 0) =~= Seq::<usize>::empty());
        assert forall|other: ValueView|
            #[trigger] bucket_rows(views(buckets@), other, 0) == if other == key@ {
                bucket_rows(before, other, 0).push(position)
            } else {
                bucket_rows(before, other, 0)
            } by {
            lemma_bucket_push(before, added, other, 0);
            assert(seq![position] =~= Seq::<usize>::empty().push(position));
        }
    }
}

/// A hash index on one scalar column: under each hash, the buckets of the keys with that hash.
#[derive(Debug)]
pub struct HashIndex {
    pub column: usize,
    pub slots: HashMap<u64, Vec<Bucket>>,
}

impl HashIndex {
    /// The rows that the index gives for a key.
    pub open spec fn rows_of(self, key: ValueView) -> Seq<usize> {
        if self.slots@.contains_key(key_hash(key)) {
            bucket_rows(views(self.slots@[key_hash(key)]@), key, 0)
        } else {
            Seq::empty()
        }
    }

    /// Whether the index gives, for every key, exactly the rows below `count` with that key.
    pub open spec fn covers(self, rows: Seq<Seq<ValueView>>, count: nat) -> bool {
        forall|key: ValueView| #[trigger] self.rows_of(key) == matching(rows, self.column as int, key, count)
    }

    /// An index of no rows.
    pub fn new(column: usize) -> (index: HashIndex)
        ensures
            index.column == column,
            forall|rows: Seq<Seq<ValueView>>| #[trigger] index.covers(rows, 0),
    {
        HashIndex { column, slots: HashMap::new() }
    }

    /// Records that the row at `position` has this key.
    fn record(&mut self, key: UniqueKey, position: usize)
        ensures
            final(self).column == old(self).column,
            forall|other: ValueView|
                #[trigger] final(self).rows_of(other) == if other == key@ {
                    old(self).rows_of(other).push(position)
                } else {
                    old(self).rows_of(other)
                },
    {
        let ghost ident = key@;
        let hash: u64 = hash_of(&key);
        let mut buckets = match self.slots.remove(&hash) {
            Some(buckets) => buckets,
            None => Vec::new(),
        };
        let ghost had = views(buckets@);
        record_in(&mut buckets, key, position);
        let ghost has = views(buckets@);
        self.slots.insert(hash, buckets);
        proof {
            assert forall|other: ValueView|
                #[trigger] self.rows_of(other) == if other == ident {
                    old(self).rows_of(other).push(position)
                } else {
                    old(self).rows_of(other)
                } by {
                if key_hash(other) == hash {
                    assert(self.rows_of(other) == bucket_rows(has, other, 0));
                    assert(old(self).rows_of(other) == bucket_rows(had, other, 0));
                }
            }
        }
    }

    /// Adds the rows from `first` on to an index that covers those before.
    pub fn extend(&mut self, rows: &Vec<Vec<Value>>, first: usize)
        requires
            first <= rows@.len(),
            old(self).covers(row_views(rows@), first as nat),
            forall|i: int| 0 <= i < rows@.len() ==> (#[trigger] rows@[i])@.len() > old(self).column,
        ensures
            final(self).column == old(self).column,
            final(self).covers(row_views(rows@), rows@.len()),
    {
        let mut position: usize = first;
        while position < rows.len()
            invariant
                first <= position <= rows@.len(),
                self.column == old(self).column,
                self.covers(row_views(rows@), position as nat),
                forall|i: int| 0 <= i < rows@.len() ==> (#[trigger] rows@[i])@.len() > self.column,
            decreases rows@.len() - position,
        {
            let ghost before = *self;
            let ghost all = row_views(rows@);
            let ghost stored = all[position as int][self.column as int];
            let value = &rows[position][self.column];
            assert(stored == value@) by {
                assert(all[position as int] == views(rows@[position as int]@));
            }
            let skipped = match value {
                Value::Null => true,
                Value::Vector(_) => true,
                _ => false,
            };
            if !skipped {
                self.record(UniqueKey::of(value), position);
            }
            proof {
                assert forall|key: ValueView| #[trigger]
                    self.rows_of(key) == matching(all, self.column as int, key, (position + 1) as nat) by {
                    assert(before.rows_of(key) == matching(all, self.column as int, key, position as nat));
                }
            }
            position = position + 1;
        }
    }

    /// Makes the index cover exactly these rows.
    pub fn rebuild(&mut self, rows: &Vec<Vec<Value>>)
        requires
            forall|i: int| 0 <= i < rows@.len() ==> (#[trigger] rows@[i])@.len() > old(self).column,
        ensures
            final(self).column == old(self).column,
            final(self).covers(row_views(rows@), rows@.len()),
    {
        self.slots = HashMap::new();
        assert(self.covers(row_views(rows@), 0));
        self.extend(rows, 0);
    }

    /// The rows with this key.
    pub fn lookup(&self, key: &UniqueKey) -> (rows: Vec<usize>)
        ensures
            rows@ == self.rows_of(key@),
    {
        match self.slots.get(&hash_of(key)) {
            Some(buckets) => {
                let mut at: usize = 0;
                while at < buckets.len()
                    invariant
                        at <= buckets@.len(),
                        bucket_rows(views(buckets@), key@, at as nat) == bucket_rows(views(buckets@), key@, 0),
                        self.rows_of(key@) == bucket_rows(views(buckets@), key@, 0),
                    decreases buckets@.len() - at,
                {
                    if buckets[at].key.same_as(key) {
                        return copy_positions(&buckets[at].rows);
                    }
                    at = at + 1;
                }
                Vec::new()
            },
            None => Vec::new(),
        }
    }
}

/// A copy of positions.
pub fn copy_positions(positions: &Vec<usize>) -> (copy: Vec<usize>)
    ensures
        copy@ == positions@,
{
    let mut out: Vec<usize> = Vec::new();
    let mut index: usize = 0;
    while index < positions.len()
        invariant
            index <= positions@.len(),
            out@ == positions@.take(index as int),
        decreases positions@.len() - index,
    {
        out.push(positions[index]);
        index = index + 1;
        assert(out@ =~= positions@.take(index as int));
    }
    assert(out@ =~= positions@);
    out
}

/// The last row below `count` whose value in `column` is no `NULL` and has this key.
pub open spec fn holder(rows: Seq<Seq<ValueView>>, column: int, key: ValueView, count: nat) -> Option<usize>
    decreases count,
{
    if count == 0 {
        None
    } else {
        let value = rows[count - 1][column];
        if !(value is Null) && key_of(value) == key {
            Some((count - 1) as usize)
        } else {
            holder(rows, column, key, (count - 1) as nat)
        }
    }
}

/// A key has a holder exactly when some row holds it.
pub proof fn lemma_holder(rows: Seq<Seq<ValueView>>, column: int, key: ValueView, count: nat)
    requires
        count <= rows.len(),
        rows.len() <= usize::MAX,
    ensures
        match holder(rows, column, key, count) {
            Some(position) => position < count && !(rows[position as int][column] is Null) && key_of(
                rows[position as int][column],
            ) == key,
            None => forall|i: int| 0 <= i < count ==> (rows[i][column] is Null) || key_of(#[trigger] rows[i][column]) != key,
        },
    decreases count,
{
    if count > 0 {
        lemma_holder(rows, column, key, (count - 1) as nat);
    }
}

/// Two row sequences that agree below `count` have the same holders there.
pub proof fn lemma_holder_prefix(
    rows: Seq<Seq<ValueView>>,
    longer: Seq<Seq<ValueView>>,
    column: int,
    key: ValueView,
    count: nat,
)
    requires
        count <= rows.len(),
        count <= longer.len(),
        forall|i: int| 0 <= i < count ==> rows[i] == longer[i],
    ensures
        holder(rows, column, key, count) == holder(longer, column, key, count),
    decreases count,
{
    if count > 0 {
        lemma_holder_prefix(rows, longer, column, key, (count - 1) as nat);
    }
}

#[derive(Debug)]
pub struct UniqueEntry {
    pub key: UniqueKey,
    pub row: usize,
}

pub struct UniqueEntryView {
    pub key: ValueView,
    pub row: usize,
}

impl View for UniqueEntry {
    type V = UniqueEntryView;

    open spec fn view(&self) -> UniqueEntryView {
        UniqueEntryView { key: self.key@, row: self.row }
    }
}

/// The row of the last of the first `count` entries with this key.
pub open spec fn entry_row(entries: Seq<UniqueEntryView>, key: ValueView, count: nat) -> Option<usize>
    decreases count,
{
    if count == 0 {
        None
    } else if entries[count - 1].key == key {
        Some(entries[count - 1].row)
    } else {
        entry_row(entries, key, (count - 1) as nat)
    }
}

proof fn lemma_entry_prefix(entries: Seq<UniqueEntryView>, added: UniqueEntryView, key: ValueView, count: nat)
    requires
        count <= entries.len(),
    ensures
        entry_row(entries.push(added), key, count) == entry_row(entries, key, count),
    decreases count,
{
    if count > 0 {
        lemma_entry_prefix(entries, added, key, (count - 1) as nat);
    }
}

/// The row that holds each value of a unique column: under each hash, the keys with that hash.
#[derive(Debug)]
pub struct UniqueMap {
    pub column: usize,
    pub slots: HashMap<u64, Vec<UniqueEntry>>,
}

impl UniqueMap {
    /// The row that the map gives for a key.
    pub open spec fn row_of(self, key: ValueView) -> Option<usize> {
        if self.slots@.contains_key(key_hash(key)) {
            let entries = self.slots@[key_hash(key)]@;
            entry_row(views(entries), key, entries.len())
        } else {
            None
        }
    }

    /// Whether the map gives, for every key, the row below `count` that holds it.
    pub open spec fn covers(self, rows: Seq<Seq<ValueView>>, count: nat) -> bool {
        forall|key: ValueView| #[trigger] self.row_of(key) == holder(rows, self.column as int, key, count)
    }

    /// A map of no rows.
    pub fn new(column: usize) -> (map: UniqueMap)
        ensures
            map.column == column,
            forall|rows: Seq<Seq<ValueView>>| #[trigger] map.covers(rows, 0),
    {
        UniqueMap { column, slots: HashMap::new() }
    }

    /// Adds the row at `position` to a map that covers those before.
    pub fn record(&mut self, rows: &Vec<Vec<Value>>, position: usize)
        requires
            position < rows@.len(),
            old(self).covers(row_views(rows@), position as nat),
            rows@[position as int]@.len() > old(self).column,
        ensures
            final(self).column == old(self).column,
            final(self).covers(row_views(rows@), (position + 1) as nat),
    {
        let ghost before = *self;
        let ghost all = row_views(rows@);
        let value = &rows[position][self.column];
        assert(all[position as int][self.column as int] == value@) by {
            assert(all[position as int] == views(rows@[position as int]@));
        }
        if !value.is_null() {
            let key = UniqueKey::of(value);
            let hash: u64 = hash_of(&key);
            let mut entries = match self.slots.remove(&hash) {
                Some(entries) => entries,
                None => Vec::new(),
            };
            let ghost had = views(entries@);
            let ghost added = UniqueEntryView { key: key@, row: position };
            entries.push(UniqueEntry { key, row: position });
            let ghost has = views(entries@);
            self.slots.insert(hash, entries);
            proof {
                assert(has =~= had.push(added));
                assert forall|key: ValueView| #[trigger]
                    self.row_of(key) == holder(all, self.column as int, key, (position + 1) as nat) by {
                    assert(before.row_of(key) == holder(all, self.column as int, key, position as nat));
                    if key_hash(key) == hash {
                        lemma_entry_prefix(had, added, key, had.len());
                        assert(self.row_of(key) == entry_row(has, key, has.len()));
                        assert(before.row_of(key) == entry_row(had, key, had.len()));
                    }
                }
            }
        } else {
            proof {
                assert forall|key: ValueView| #[trigger]
                    self.row_of(key) == holder(all, self.column as int, key, (position + 1) as nat) by {
                    assert(before.row_of(key) == holder(all, self.column as int, key, position as nat));
                }
            }
        }
    }

    /// Adds the rows from `first` on to a map that covers those before.
    pub fn extend(&mut self, rows: &Vec<Vec<Value>>, first: usize)
        requires
            first <= rows@.len(),
            old(self).covers(row_views(rows@), first as nat),
            forall|i: int| 0 <= i < rows@.len() ==> (#[trigger] rows@[i])@.len() > old(self).column,
        ensures
            final(self).column == old(self).column,
            final(self).covers(row_views(rows@), rows@.len()),
    {
        let mut position: usize = first;
        while position < rows.len()
            invariant
                first <= position <= rows@.len(),
                self.column == old(self).column,
                self.covers(row_views(rows@), position as nat),
                forall|i: int| 0 <= i < rows@.len() ==> (#[trigger] rows@[i])@.len() > self.column,
            decreases rows@.len() - position,
        {
            self.record(rows, position);
            position = position + 1;
        }
    }

    /// The row that holds this key.
    pub fn lookup(&self, key: &UniqueKey) -> (row: Option<usize>)
        ensures
            row == self.row_of(key@),
    {
        match self.slots.get(&hash_of(key)) {
            Some(entries) => {
                let mut count: usize = entries.len();
                while count > 0
                    invariant
                        count <= entries@.len(),
                        self.row_of(key@) == entry_row(views(entries@), key@, count as nat),
                    decreases count,
                {
                    if entries[count - 1].key.same_as(key) {
                        return Some(entries[count - 1].row);
                    }
                    count = count - 1;
                }
                None
            },
            None => None,
        }
    }
}

/// The positions that both of two ascending sequences hold, from `i` and `j` on, after `done`.
pub open spec fn common(left: Seq<usize>, right: Seq<usize>, i: nat, j: nat, done: Seq<usize>) -> Seq<usize>
    decreases left.len() - i + (right.len() - j),
{
    if i >= left.len() || j >= right.len() {
        done
    } else if left[i as int] < right[j as int] {
        common(left, right, i + 1, j, done)
    } else if left[i as int] > right[j as int] {
        common(left, right, i, j + 1, done)
    } else {
        common(left, right, i + 1, j + 1, done.push(left[i as int]))
    }
}

/// The positions that either of two ascending sequences holds, from `i` and `j` on, after `done`.
pub open spec fn merged(left: Seq<usize>, right: Seq<usize>, i: nat, j: nat, done: Seq<usize>) -> Seq<usize>
    decreases
        (if i < left.len() {
            left.len() - i
        } else {
            0
        }) + (if j < right.len() {
            right.len() - j
        } else {
            0
        }),
{
    if i >= left.len() && j >= right.len() {
        done
    } else if j >= right.len() || (i < left.len() && left[i as int] < right[j as int]) {
        merged(left, right, i + 1, j, done.push(left[i as int]))
    } else if i >= left.len() || left[i as int] > right[j as int] {
        merged(left, right, i, j + 1, done.push(right[j as int]))
    } else {
        merged(left, right, i + 1, j + 1, done.push(left[i as int]))
    }
}

/// The positions that both of two ascending sequences hold.
pub fn intersect_sorted(left: &Vec<usize>, right: &Vec<usize>) -> (result: Vec<usize>)
    ensures
        result@ == common(left@, right@, 0, 0, Seq::empty()),
{
    let mut out: Vec<usize> = Vec::new();
    let mut i: usize = 0;
    let mut j: usize = 0;
    while i < left.len() && j < right.len()
        invariant
            i <= left@.len(),
            j <= right@.len(),
            common(left@, right@, i as nat, j as nat, out@) == common(left@, right@, 0, 0, Seq::empty()),
        decreases left@.len() - i + (right@.len() - j),
    {
        if left[i] < right[j] {
            i = i + 1;
        } else if left[i] > right[j] {
            j = j + 1;
        } else {
            out.push(left[i]);
            i = i + 1;
            j = j + 1;
        }
    }
    out
}

/// The positions that either of two ascending sequences holds.
pub fn union_sorted(left: &Vec<usize>, right: &Vec<usize>) -> (result: Vec<usize>)
    ensures
        result@ == merged(left@, right@, 0, 0, Seq::empty()),
{
    let mut out: Vec<usize> = Vec::new();
    let mut i: usize = 0;
    let mut j: usize = 0;
    while i < left.len() || j < right.len()
        invariant
            i <= left@.len(),
            j <= right@.len(),
            merged(left@, right@, i as nat, j as nat, out@) == merged(left@, right@, 0, 0, Seq::empty()),
        decreases left@.len() - i + (right@.len() - j),
    {
        if j >= right.len() || (i < left.len() && left[i] < right[j]) {
            out.push(left[i]);
            i = i + 1;
        } else if i >= left.len() || left[i] > right[j] {
            out.push(right[j]);
            j = j + 1;
        } else {
            out.push(left[i]);
            i = i + 1;
            j = j + 1;
        }
    }
    out
}

proof fn lemma_common(left: Seq<usize>, right: Seq<usize>, i: nat, j: nat, done: Seq<usize>)
    requires
        ascending(left),
        ascending(right),
        ascending(done),
        i <= left.len(),
        j <= right.len(),
        forall|k: int, m: int| 0 <= k < done.len() && i <= m < left.len() ==> done[k] < left[m],
        forall|k: int, m: int| 0 <= k < done.len() && j <= m < right.len() ==> done[k] < right[m],
        forall|k: int| 0 <= k < done.len() ==> left.contains(#[trigger] done[k]) && right.contains(done[k]),
        forall|p: usize| #[trigger]
            left.contains(p) && right.contains(p) ==> done.contains(p) || (exists|k: int|
                i <= k < left.len() && left[k] == p) && (exists|k: int| j <= k < right.len() && right[k] == p),
    ensures
        ascending(common(left, right, i, j, done)),
        forall|p: usize|
            #[trigger] common(left, right, i, j, done).contains(p) <==> left.contains(p) && right.contains(p),
    decreases left.len() - i + (right.len() - j),
{
    if i >= left.len() || j >= right.len() {
        assert forall|p: usize| #[trigger] done.contains(p) <==> left.contains(p) && right.contains(p) by {
            if done.contains(p) {
                let k = choose|k: int| 0 <= k < done.len() && done[k] == p;
                assert(left.contains(done[k]));
            }
        }
    } else if left[i as int] < right[j as int] {
        assert forall|p: usize| #[trigger]
            left.contains(p) && right.contains(p) implies done.contains(p) || (exists|k: int|
            i + 1 <= k < left.len() && left[k] == p) && (exists|k: int| j <= k < right.len() && right[k] == p) by {
            if !done.contains(p) {
                let k = choose|k: int| i <= k < left.len() && left[k] == p;
                let m = choose|m: int| j <= m < right.len() && right[m] == p;
                assert(right[j as int] <= right[m]);
                assert(k != i);
            }
        }
        lemma_common(left, right, i + 1, j, done);
    } else if left[i as int] > right[j as int] {
        assert forall|p: usize| #[trigger]
            left.contains(p) && right.contains(p) implies done.contains(p) || (exists|k: int|
            i <= k < left.len() && left[k] == p) && (exists|k: int| j + 1 <= k < right.len() && right[k] == p) by {
            if !done.contains(p) {
                let k = choose|k: int| i <= k < left.len() && left[k] == p;
                let m = choose|m: int| j <= m < right.len() && right[m] == p;
                assert(left[i as int] <= left[k]);
                assert(m != j);
            }
        }
        lemma_common(left, right, i, j + 1, done);
    } else {
        let next = done.push(left[i as int]);
        assert(left.contains(left[i as int]));
        assert(right.contains(right[j as int]));
        assert forall|p: usize| #[trigger]
            left.contains(p) && right.contains(p) implies next.contains(p) || (exists|k: int|
            i + 1 <= k < left.len() && left[k] == p) && (exists|k: int| j + 1 <= k < right.len() && right[k] == p) by {
            if done.contains(p) {
                let k = choose|k: int| 0 <= k < done.len() && done[k] == p;
                assert(next[k] == p);
            } else if p == left[i as int] {
                assert(next[done.len() as int] == p);
            } else {
                let k = choose|k: int| i <= k < left.len() && left[k] == p;
                let m = choose|m: int| j <= m < right.len() && right[m] == p;
                assert(k != i && m != j);
            }
        }
        lemma_common(left, right, i + 1, j + 1, next);
    }
}

/// The intersection of two ascending sequences is ascending and holds exactly what both hold.
pub proof fn law_intersection(left: Seq<usize>, right: Seq<usize>)
    requires
        ascending(left),
        ascending(right),
    ensures
        ascending(common(left, right, 0, 0, Seq::empty())),
        forall|p: usize|
            #[trigger] common(left, right, 0, 0, Seq::empty()).contains(p) <==> left.contains(p) && right.contains(p),
{
    lemma_common(left, right, 0, 0, Seq::empty());
}

proof fn lemma_merged(left: Seq<usize>, right: Seq<usize>, i: nat, j: nat, done: Seq<usize>)
    requires
        ascending(left),
        ascending(right),
        ascending(done),
        i <= left.len(),
        j <= right.len(),
        forall|k: int, m: int| 0 <= k < done.len() && i <= m < left.len() ==> done[k] < left[m],
        forall|k: int, m: int| 0 <= k < done.len() && j <= m < right.len() ==> done[k] < right[m],
        forall|k: int| 0 <= k < done.len() ==> left.contains(#[trigger] done[k]) || right.contains(done[k]),
        forall|k: int| 0 <= k < i ==> done.contains(#[trigger] left[k]),
        forall|k: int| 0 <= k < j ==> done.contains(#[trigger] right[k]),
    ensures
        ascending(merged(left, right, i, j, done)),
        forall|p: usize|
            #[trigger] merged(left, right, i, j, done).contains(p) <==> left.contains(p) || right.contains(p),
    decreases left.len() - i + (right.len() - j),
{
    if i >= left.len() && j >= right.len() {
        assert forall|p: usize| #[trigger] done.contains(p) <==> left.contains(p) || right.contains(p) by {
            if done.contains(p) {
                let k = choose|k: int| 0 <= k < done.len() && done[k] == p;
                assert(left.contains(done[k]) || right.contains(done[k]));
            }
            if left.contains(p) {
                let k = choose|k: int| 0 <= k < left.len() && left[k] == p;
                assert(done.contains(left[k]));
            }
            if right.contains(p) {
                let k = choose|k: int| 0 <= k < right.len() && right[k] == p;
                assert(done.contains(right[k]));
            }
        }
    } else {
        let from_left = j >= right.len() || (i < left.len() && left[i as int] < right[j as int]);
        let from_right = !from_left && (i >= left.len() || left[i as int] > right[j as int]);
        let value = if from_right { right[j as int] } else { left[i as int] };
        let next = done.push(value);
        assert forall|p: usize| done.contains(p) implies next.contains(p) by {
            let k = choose|k: int| 0 <= k < done.len() && done[k] == p;
            assert(next[k] == p);
        }
        assert(next[done.len() as int] == value);
        assert(next.contains(value));
        if from_right {
            assert(right.contains(value));
            assert forall|k: int| 0 <= k < j + 1 implies next.contains(#[trigger] right[k]) by {
                if k < j {
                    assert(done.contains(right[k]));
                }
            }
            lemma_merged(left, right, i, j + 1, next);
        } else if from_left {
            assert(left.contains(value));
            assert forall|k: int| 0 <= k < i + 1 implies next.contains(#[trigger] left[k]) by {
                if k < i {
                    assert(done.contains(left[k]));
                }
            }
            lemma_merged(left, right, i + 1, j, next);
        } else {
            assert(left.contains(value));
            assert(right[j as int] == value);
            assert forall|k: int| 0 <= k < i + 1 implies next.contains(#[trigger] left[k]) by {
                if k < i {
                    assert(done.contains(left[k]));
                }
            }
            assert forall|k: int| 0 <= k < j + 1 implies next.contains(#[trigger] right[k]) by {
                if k < j {
                    assert(done.contains(right[k]));
                }
            }
            lemma_merged(left, right, i + 1, j + 1, next);
        }
    }
}

/// The union of two ascending sequences is ascending and holds exactly what either holds.
pub proof fn law_union(left: Seq<usize>, right: Seq<usize>)
    requires
        ascending(left),
        ascending(right),
    ensures
        ascending(merged(left, right, 0, 0, Seq::empty())),
        forall|p: usize|
            #[trigger] merged(left, right, 0, 0, Seq::empty()).contains(p) <==> left.contains(p) || right.contains(p),
{
    lemma_merged(left, right, 0, 0, Seq::empty());
}

} // verus!
