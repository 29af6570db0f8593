//! A bounded cache of word indexes, the least recently used first to go.

use std::sync::Arc;
use vstd::prelude::*;
use crate::error::{Error, ErrorView};
use crate::float::{computes, floats, FloatReply, FloatTask, Floats};
use crate::graph::{invalid, misuse, MAX_CHUNKS};
use crate::lexical::{built, LexicalIndex, LexicalIndexView};
use crate::text::{lemma_views_push, same_text, views};
use crate::value::{row_views, Value, ValueView};

verus! {

broadcast use {vstd::string::group_string_axioms, lemma_views_push};

pub const LEXICAL_CACHE_ENTRIES: usize = 3;

/// Which contents an index is of: a collection of a database at a generation of its chunks.
#[derive(Debug)]
pub struct LexicalKey {
    pub owner: u64,
    pub collection: String,
    pub storage_id: u64,
    pub row_count: usize,
}

pub struct LexicalKeyView {
    pub owner: u64,
    pub collection: Seq<char>,
    pub storage_id: u64,
    pub row_count: nat,
}

impl View for LexicalKey {
    type V = LexicalKeyView;

    open spec fn view(&self) -> LexicalKeyView {
        LexicalKeyView {
            owner: self.owner,
            collection: self.collection@,
            storage_id: self.storage_id,
            row_count: self.row_count as nat,
        }
    }
}

impl LexicalKey {
    fn copy(&self) -> (copy: LexicalKey)
        ensures
            copy@ == self@,
    {
        LexicalKey {
            owner: self.owner,
            collection: self.collection.clone(),
            storage_id: self.storage_id,
            row_count: self.row_count,
        }
    }

    fn is_same(&self, other: &LexicalKey) -> (same: bool)
        ensures
            same == (self@ == other@),
    {
        self.owner == other.owner && same_text(self.collection.as_str(), other.collection.as_str()) && self.storage_id
            == other.storage_id && self.row_count == other.row_count
    }

    fn is_of(&self, other: &LexicalKey) -> (result: bool)
        ensures
            result == of_collection(self@, other@),
    {
        self.owner == other.owner && same_text(self.collection.as_str(), other.collection.as_str())
    }
}

/// Whether two indexes are of one collection, at whichever generation.
pub open spec fn of_collection(left: LexicalKeyView, right: LexicalKeyView) -> bool {
    left.owner == right.owner && left.collection == right.collection
}

/// An index with what it is of.
pub struct LexicalCacheEntry {
    pub key: LexicalKey,
    pub index: Arc<LexicalIndex>,
}

pub struct LexicalEntryView {
    pub key: LexicalKeyView,
    pub index: LexicalIndexView,
}

impl View for LexicalCacheEntry {
    type V = LexicalEntryView;

    open spec fn view(&self) -> LexicalEntryView {
        LexicalEntryView { key: self.key@, index: self.index@ }
    }
}

impl LexicalCacheEntry {
    fn share(&self) -> (copy: LexicalCacheEntry)
        ensures
            copy@ == self@,
    {
        LexicalCacheEntry { key: self.key.copy(), index: Arc::clone(&self.index) }
    }
}

/// The first entry, from `from` on, of this key.
pub open spec fn entry_at(entries: Seq<LexicalEntryView>, key: LexicalKeyView, from: nat) -> Option<nat>
    decreases entries.len() - from,
{
    if from >= entries.len() {
        None
    } else if entries[from as int].key == key {
        Some(from)
    } else {
        entry_at(entries, key, from + 1)
    }
}

/// The entries from `from` on whose owner is still there, after `done`.
pub open spec fn alive(entries: Seq<LexicalEntryView>, owners: Seq<u64>, from: nat, done: Seq<LexicalEntryView>) -> Seq<
    LexicalEntryView,
>
    decreases entries.len() - from,
{
    if from >= entries.len() {
        done
    } else if owners.contains(entries[from as int].key.owner) {
        alive(entries, owners, from + 1, done.push(entries[from as int]))
    } else {
        alive(entries, owners, from + 1, done)
    }
}

/// The entries from `from` on that are of other collections, after `done`.
pub open spec fn others(entries: Seq<LexicalEntryView>, key: LexicalKeyView, from: nat, done: Seq<LexicalEntryView>) -> Seq<
    LexicalEntryView,
>
    decreases entries.len() - from,
{
    if from >= entries.len() {
        done
    } else if of_collection(entries[from as int].key, key) {
        others(entries, key, from + 1, done)
    } else {
        others(entries, key, from + 1, done.push(entries[from as int]))
    }
}

/// The entries with the one at `at` moved to the end.
pub open spec fn renewed(entries: Seq<LexicalEntryView>, at: nat) -> Seq<LexicalEntryView> {
    entries.remove(at as int).push(entries[at as int])
}

/// The entries after looking for a key, and the index found.
pub open spec fn looked_up(entries: Seq<LexicalEntryView>, owners: Seq<u64>, key: LexicalKeyView) -> (
    Seq<LexicalEntryView>,
    Option<LexicalIndexView>,
) {
    let kept = alive(entries, owners, 0, Seq::empty());
    match entry_at(kept, key, 0) {
        Some(at) => (renewed(kept, at), Some(kept[at as int].index)),
        None => (others(kept, key, 0, Seq::empty()), None),
    }
}

/// The entries without the oldest ones that leave no room for another.
pub open spec fn with_room(entries: Seq<LexicalEntryView>) -> Seq<LexicalEntryView> {
    if entries.len() >= LEXICAL_CACHE_ENTRIES {
        entries.skip(entries.len() - LEXICAL_CACHE_ENTRIES + 1)
    } else {
        entries
    }
}

/// The entries after publishing an index, the index to use, and whether it was there already.
pub open spec fn published(entries: Seq<LexicalEntryView>, key: LexicalKeyView, index: LexicalIndexView) -> (
    Seq<LexicalEntryView>,
    LexicalIndexView,
    bool,
) {
    match entry_at(entries, key, 0) {
        Some(at) => (renewed(entries, at), entries[at as int].index, true),
        None => (
            with_room(others(entries, key, 0, Seq::empty())).push(LexicalEntryView { key, index }),
            index,
            false,
        ),
    }
}

/// Whether the index of every entry is one of as many rows as the entry says.
pub open spec fn entries_valid(entries: Seq<LexicalEntryView>) -> bool {
    forall|i: int|
        0 <= i < entries.len() ==> (#[trigger] entries[i]).index.valid() && entries[i].index.length_factors.len()
            == entries[i].key.row_count
}

/// A cache of word indexes, the oldest first.
pub struct LexicalCache {
    pub entries: Vec<LexicalCacheEntry>,
}

impl View for LexicalCache {
    type V = Seq<LexicalEntryView>;

    open spec fn view(&self) -> Seq<LexicalEntryView> {
        views(self.entries@)
    }
}

impl LexicalCache {
    pub open spec fn wf(self) -> bool {
        entries_valid(self@)
    }

    pub fn new() -> (cache: LexicalCache)
        ensures
            cache@ == Seq::<LexicalEntryView>::empty(),
            cache.wf(),
    {
        let entries: Vec<LexicalCacheEntry> = Vec::new();
        assert(views(entries@) =~= Seq::<LexicalEntryView>::empty());
        LexicalCache { entries }
    }

    fn keep_alive(&mut self, owners: &Vec<u64>)
        requires
            old(self).wf(),
        ensures
            final(self)@ == alive(old(self)@, owners@, 0, Seq::empty()),
            final(self).wf(),
    {
        let mut kept: Vec<LexicalCacheEntry> = Vec::new();
        assert(views(kept@) =~= Seq::<LexicalEntryView>::empty());
        let mut at: usize = 0;
        while at < self.entries.len()
            invariant
                *self == *old(self),
                old(self).wf(),
                at <= self.entries@.len(),
                entries_valid(views(kept@)),
                alive(self@, owners@, at as nat, views(kept@)) == alive(self@, owners@, 0, Seq::empty()),
            decreases self.entries@.len() - at,
        {
            assert(self@[at as int] == self.entries@[at as int]@);
            let owner: u64 = self.entries[at].key.owner;
            let mut index: usize = 0;
            let mut there = false;
            while index < owners.len()
                invariant
                    index <= owners@.len(),
                    there ==> owners@.contains(owner),
                    !there ==> forall|i: int| 0 <= i < index ==> owners@[i] != owner,
                decreases owners@.len() - index,
            {
                if owners[index] == owner {
                    assert(owners@[index as int] == owner);
                    there = true;
                }
                index = index + 1;
            }
            if there {
                let ghost before = views(kept@);
                kept.push(self.entries[at].share());
                assert(views(kept@) =~= before.push(self@[at as int]));
            }
            at = at + 1;
        }
        self.entries = kept;
    }

    fn keep_others(&mut self, key: &LexicalKey)
        requires
            old(self).wf(),
        ensures
            final(self)@ == others(old(self)@, key@, 0, Seq::empty()),
            final(self).wf(),
    {
        let mut kept: Vec<LexicalCacheEntry> = Vec::new();
        assert(views(kept@) =~= Seq::<LexicalEntryView>::empty());
        let mut at: usize = 0;
        while at < self.entries.len()
            invariant
                *self == *old(self),
                old(self).wf(),
                at <= self.entries@.len(),
                entries_valid(views(kept@)),
                others(self@, key@, at as nat, views(kept@)) == others(self@, key@, 0, Seq::empty()),
            decreases self.entries@.len() - at,
        {
            assert(self@[at as int] == self.entries@[at as int]@);
            if !self.entries[at].key.is_of(key) {
                let ghost before = views(kept@);
                kept.push(self.entries[at].share());
                assert(views(kept@) =~= before.push(self@[at as int]));
            }
            at = at + 1;
        }
        self.entries = kept;
    }

    fn find(&self, key: &LexicalKey) -> (result: Option<usize>)
        ensures
            match result {
                Some(at) => entry_at(self@, key@, 0) == Some(at as nat) && at < self.entries@.len() && self@[at as int].key
                    == key@,
                None => entry_at(self@, key@, 0) is None,
            },
    {
        let mut at: usize = 0;
        while at < self.entries.len()
            invariant
                at <= self.entries@.len(),
                entry_at(self@, key@, at as nat) == entry_at(self@, key@, 0),
            decreases self.entries@.len() - at,
        {
            assert(self@[at as int] == self.entries@[at as int]@);
            if self.entries[at].key.is_same(key) {
                return Some(at);
            }
            at = at + 1;
        }
        None
    }

    fn renew(&mut self, at: usize) -> (index: Arc<LexicalIndex>)
        requires
            old(self).wf(),
            at < old(self).entries@.len(),
        ensures
            final(self)@ == renewed(old(self)@, at as nat),
            final(self).wf(),
            index@ == old(self)@[at as int].index,
    {
        let ghost start = self@;
        assert(start[at as int] == self.entries@[at as int]@);
        let entry = self.entries.remove(at);
        let index = Arc::clone(&entry.index);
        self.entries.push(entry);
        assert(self@ =~= renewed(start, at as nat));
        assert forall|i: int| 0 <= i < self@.len() implies (#[trigger] self@[i]).index.valid()
            && self@[i].index.length_factors.len() == self@[i].key.row_count by {
            if i + 1 < start.len() && i >= at {
                assert(self@[i] == start[i + 1]);
            } else if i + 1 < start.len() {
                assert(self@[i] == start[i]);
            } else {
                assert(self@[i] == start[at as int]);
            }
        }
        index
    }

    /// The index of a key, which is then the newest; entries without an owner leave, and where the
    /// key is not there, so do those of its collection.
    pub fn lookup(&mut self, owners: &Vec<u64>, key: &LexicalKey) -> (result: Option<Arc<LexicalIndex>>)
        requires
            old(self).wf(),
        ensures
            final(self).wf(),
            final(self)@ == looked_up(old(self)@, owners@, key@).0,
            match result {
                Some(index) => looked_up(old(self)@, owners@, key@).1 == Some(index@) && index@.valid()
                    && index@.length_factors.len() == key.row_count,
                None => looked_up(old(self)@, owners@, key@).1 is None,
            },
    {
        self.keep_alive(owners);
        match self.find(key) {
            Some(at) => Some(self.renew(at)),
            None => {
                self.keep_others(key);
                None
            },
        }
    }

    /// Puts an index into the cache, unless one of the key is there, and gives the one to use.
    pub fn publish(&mut self, key: &LexicalKey, index: Arc<LexicalIndex>) -> (result: (Arc<LexicalIndex>, bool))
        requires
            old(self).wf(),
            index@.valid(),
            index@.length_factors.len() == key.row_count,
        ensures
            final(self).wf(),
            final(self)@ == published(old(self)@, key@, index@).0,
            result.0@ == published(old(self)@, key@, index@).1,
            result.1 == published(old(self)@, key@, index@).2,
            result.0@.valid() && result.0@.length_factors.len() == key.row_count,
    {
        if let Some(at) = self.find(key) {
            return (self.renew(at), true);
        }
        self.keep_others(key);
        let ghost kept = self@;
        let ghost room = with_room(kept);
        while self.entries.len() >= LEXICAL_CACHE_ENTRIES
            invariant
                self.wf(),
                room == with_room(kept),
                with_room(self@) == room,
            decreases self.entries@.len(),
        {
            let ghost before = self@;
            let oldest = self.entries.remove(0);
            assert(self@ =~= before.skip(1));
            assert(with_room(self@) =~= with_room(before));
            assert forall|i: int| 0 <= i < self@.len() implies (#[trigger] self@[i]).index.valid()
                && self@[i].index.length_factors.len() == self@[i].key.row_count by {
                assert(self@[i] == before[i + 1]);
            }
        }
        assert(self@ == room);
        let shared = Arc::clone(&index);
        let ghost before = self@;
        self.entries.push(LexicalCacheEntry { key: key.copy(), index });
        assert(self@ =~= before.push(LexicalEntryView { key: key@, index: index@ }));
        (shared, false)
    }
}

/// The entries after asking for the index of a collection, and what was given: the index, and
/// whether it was there already.
pub open spec fn indexed(
    entries: Seq<LexicalEntryView>,
    owners: Seq<u64>,
    key: LexicalKeyView,
    rows: Seq<Seq<ValueView>>,
    terms: Seq<Seq<char>>,
    floats: Floats,
) -> (Seq<LexicalEntryView>, Result<(LexicalIndexView, bool), ErrorView>) {
    let (left, found) = looked_up(entries, owners, key);
    match found {
        Some(index) => (left, Ok((index, true))),
        None => match built(rows, None, floats) {
            Err(error) => (left, Err(error)),
            Ok(None) => match built(rows, Some(terms), floats) {
                Err(error) => (left, Err(error)),
                Ok(None) => (left, Err(misuse("could not build lexical query index"@))),
                Ok(Some(index)) => (left, Ok((index, false))),
            },
            Ok(Some(index)) => {
                let (next, used, hit) = published(left, key, index);
                (next, Ok((used, hit)))
            },
        },
    }
}

/// The index of a collection's words, and whether it was in the cache. One that would be too large
/// to keep is built for the words of the query alone, and not kept.
pub fn lexical_index<F: Fn(FloatTask) -> FloatReply>(
    f: &F,
    cache: &mut LexicalCache,
    owners: &Vec<u64>,
    key: &LexicalKey,
    rows: &Vec<Vec<Value>>,
    terms: &Vec<String>,
) -> (result: Result<(Arc<LexicalIndex>, bool), Error>)
    requires
        computes(*f),
        old(cache).wf(),
        rows@.len() <= MAX_CHUNKS,
        key.row_count == rows@.len(),
    ensures
        final(cache).wf(),
        final(cache)@ == indexed(old(cache)@, owners@, key@, row_views(rows@), views(terms@), floats(*f)).0,
        match result {
            Ok((index, hit)) => indexed(
                old(cache)@,
                owners@,
                key@,
                row_views(rows@),
                views(terms@),
                floats(*f),
            ).1 == Ok::<(LexicalIndexView, bool), ErrorView>((index@, hit)) && index@.valid()
                && index@.length_factors.len() == rows@.len(),
            Err(error) => indexed(old(cache)@, owners@, key@, row_views(rows@), views(terms@), floats(*f)).1 == Err::<
                (LexicalIndexView, bool),
                ErrorView,
            >(error@),
        },
{
    if let Some(index) = cache.lookup(owners, key) {
        return Ok((index, true));
    }
    match LexicalIndex::build(f, rows, None)? {
        None => match LexicalIndex::build(f, rows, Some(terms))? {
            None => Err(invalid("could not build lexical query index")),
            Some(index) => Ok((Arc::new(index), false)),
        },
        Some(index) => Ok(cache.publish(key, Arc::new(index))),
    }
}

} // verus!
