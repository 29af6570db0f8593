//! That a cache of word indexes changes nothing but the time that a retrieval takes.

use vstd::prelude::*;
use crate::catalog::CatalogView;
use crate::error::ErrorView;
use crate::float::Floats;
use crate::graph::collection_of;
use crate::graph_links::PolicyView;
use crate::graph_rag::{retrieved, words_key, RetrievedView};
use crate::graph_traversal::RagRequestView;
use crate::graph_write::places_of;
use crate::lexical::{built, query_terms, LexicalIndexView};
use crate::lexical_cache::{
    alive, entry_at, indexed, looked_up, others, published, renewed, with_room, LexicalEntryView, LexicalKeyView,
};
use crate::value::ValueView;

verus! {

/// The rows of the chunks that a key stands for: those of a collection of a database at one
/// generation.
pub type Contents = spec_fn(LexicalKeyView) -> Seq<Seq<ValueView>>;

/// Whether the index of an entry is that of the rows that its key stands for.
pub open spec fn true_entry(entry: LexicalEntryView, contents: Contents, floats: Floats) -> bool {
    built(contents(entry.key), None, floats) == Ok::<Option<LexicalIndexView>, ErrorView>(Some(entry.index))
}

/// Whether every index of a cache is that of the rows that its key stands for.
pub open spec fn true_entries(entries: Seq<LexicalEntryView>, contents: Contents, floats: Floats) -> bool {
    forall|i: int| 0 <= i < entries.len() ==> true_entry(#[trigger] entries[i], contents, floats)
}

/// An answer with nothing said of the cache.
pub open spec fn answer_alone(answer: Result<(LexicalIndexView, bool), ErrorView>) -> Result<LexicalIndexView, ErrorView> {
    match answer {
        Ok((index, _)) => Ok(index),
        Err(error) => Err(error),
    }
}

/// A retrieval with nothing said of the cache.
pub open spec fn retrieval_alone(answer: Result<RetrievedView, ErrorView>) -> Result<RetrievedView, ErrorView> {
    match answer {
        Ok(found) => Ok(RetrievedView { lexical_cache_hit: false, ..found }),
        Err(error) => Err(error),
    }
}

proof fn lemma_entry_at(entries: Seq<LexicalEntryView>, key: LexicalKeyView, from: nat)
    ensures
        entry_at(entries, key, from) matches Some(at) ==> from <= at < entries.len() && entries[at as int].key == key,
    decreases entries.len() - from,
{
    if from < entries.len() && entries[from as int].key != key {
        lemma_entry_at(entries, key, from + 1);
    }
}

proof fn lemma_alive(
    entries: Seq<LexicalEntryView>,
    owners: Seq<u64>,
    from: nat,
    done: Seq<LexicalEntryView>,
    contents: Contents,
    floats: Floats,
)
    requires
        true_entries(entries, contents, floats),
        true_entries(done, contents, floats),
    ensures
        true_entries(alive(entries, owners, from, done), contents, floats),
    decreases entries.len() - from,
{
    if from < entries.len() {
        let next = done.push(entries[from as int]);
        assert(true_entries(next, contents, floats));
        lemma_alive(entries, owners, from + 1, next, contents, floats);
        lemma_alive(entries, owners, from + 1, done, contents, floats);
    }
}

proof fn lemma_others(
    entries: Seq<LexicalEntryView>,
    key: LexicalKeyView,
    from: nat,
    done: Seq<LexicalEntryView>,
    contents: Contents,
    floats: Floats,
)
    requires
        true_entries(entries, contents, floats),
        true_entries(done, contents, floats),
    ensures
        true_entries(others(entries, key, from, done), contents, floats),
    decreases entries.len() - from,
{
    if from < entries.len() {
        let next = done.push(entries[from as int]);
        assert(true_entries(next, contents, floats));
        lemma_others(entries, key, from + 1, next, contents, floats);
        lemma_others(entries, key, from + 1, done, contents, floats);
    }
}

proof fn lemma_renewed(entries: Seq<LexicalEntryView>, at: nat, contents: Contents, floats: Floats)
    requires
        at < entries.len(),
        true_entries(entries, contents, floats),
    ensures
        true_entries(renewed(entries, at), contents, floats),
{
    let after = renewed(entries, at);
    assert forall|i: int| 0 <= i < after.len() implies true_entry(#[trigger] after[i], contents, floats) by {
        if i + 1 == after.len() {
            assert(after[i] == entries[at as int]);
        } else if i < at {
            assert(after[i] == entries[i]);
        } else {
            assert(after[i] == entries[i + 1]);
        }
    }
}

proof fn lemma_looked_up(
    entries: Seq<LexicalEntryView>,
    owners: Seq<u64>,
    key: LexicalKeyView,
    contents: Contents,
    floats: Floats,
)
    requires
        true_entries(entries, contents, floats),
    ensures
        true_entries(looked_up(entries, owners, key).0, contents, floats),
        looked_up(entries, owners, key).1 matches Some(index) ==> built(contents(key), None, floats) == Ok::<
            Option<LexicalIndexView>,
            ErrorView,
        >(Some(index)),
{
    let kept = alive(entries, owners, 0, Seq::empty());
    lemma_alive(entries, owners, 0, Seq::empty(), contents, floats);
    lemma_entry_at(kept, key, 0);
    lemma_others(kept, key, 0, Seq::empty(), contents, floats);
    if let Some(at) = entry_at(kept, key, 0) {
        lemma_renewed(kept, at, contents, floats);
        assert(true_entry(kept[at as int], contents, floats));
    }
}

proof fn lemma_published(
    entries: Seq<LexicalEntryView>,
    key: LexicalKeyView,
    index: LexicalIndexView,
    contents: Contents,
    floats: Floats,
)
    requires
        true_entries(entries, contents, floats),
        built(contents(key), None, floats) == Ok::<Option<LexicalIndexView>, ErrorView>(Some(index)),
    ensures
        true_entries(published(entries, key, index).0, contents, floats),
        published(entries, key, index).1 == index,
{
    lemma_entry_at(entries, key, 0);
    if let Some(at) = entry_at(entries, key, 0) {
        lemma_renewed(entries, at, contents, floats);
        assert(true_entry(entries[at as int], contents, floats));
    } else {
        let kept = others(entries, key, 0, Seq::empty());
        lemma_others(entries, key, 0, Seq::empty(), contents, floats);
        let room = with_room(kept);
        let after = room.push(LexicalEntryView { key, index });
        assert forall|i: int| 0 <= i < after.len() implies true_entry(#[trigger] after[i], contents, floats) by {
            if i < room.len() {
                assert(after[i] == kept[kept.len() - room.len() + i]);
            }
        }
    }
}

/// A cache whose indexes are those of the rows that their keys stand for gives the index that is
/// built without it, or the same error, and stays such a cache.
pub proof fn law_cached_words_are_those_of_the_rows(
    entries: Seq<LexicalEntryView>,
    owners: Seq<u64>,
    key: LexicalKeyView,
    terms: Seq<Seq<char>>,
    contents: Contents,
    floats: Floats,
)
    requires
        true_entries(entries, contents, floats),
    ensures
        true_entries(indexed(entries, owners, key, contents(key), terms, floats).0, contents, floats),
        answer_alone(indexed(entries, owners, key, contents(key), terms, floats).1) == answer_alone(
            indexed(Seq::empty(), owners, key, contents(key), terms, floats).1,
        ),
{
    let rows = contents(key);
    let none = Seq::<LexicalEntryView>::empty();
    lemma_looked_up(entries, owners, key, contents, floats);
    lemma_looked_up(none, owners, key, contents, floats);
    let left = looked_up(entries, owners, key).0;
    let bare = looked_up(none, owners, key).0;
    assert(alive(none, owners, 0, none) == none);
    assert(looked_up(none, owners, key).1 is None);
    if let Ok(Some(index)) = built(rows, None, floats) {
        lemma_published(left, key, index, contents, floats);
        lemma_published(bare, key, index, contents, floats);
    }
}

/// A retrieval with a cache whose indexes are those of the rows that their keys stand for finds what
/// it finds without one, but for saying whether the cache helped, and leaves such a cache. The key
/// of the collection must stand for the rows of its chunks.
pub proof fn law_retrieval_ignores_the_cache(
    entries: Seq<LexicalEntryView>,
    owners: Seq<u64>,
    owner: u64,
    storage_id: u64,
    catalog: CatalogView,
    request: RagRequestView,
    policy: PolicyView,
    contents: Contents,
    floats: Floats,
)
    requires
        true_entries(entries, contents, floats),
        collection_of(catalog, request.collection) matches Ok(info) ==> {
            let chunks = catalog.tables[places_of(catalog, info).chunks as int].table;
            contents(words_key(owner, storage_id, info, chunks)) == chunks.rows
        },
    ensures
        true_entries(
            retrieved(entries, owners, owner, storage_id, catalog, request, policy, floats).0,
            contents,
            floats,
        ),
        retrieval_alone(retrieved(entries, owners, owner, storage_id, catalog, request, policy, floats).1)
            == retrieval_alone(
            retrieved(Seq::empty(), owners, owner, storage_id, catalog, request, policy, floats).1,
        ),
{
    if let Ok(info) = collection_of(catalog, request.collection) {
        let chunks = catalog.tables[places_of(catalog, info).chunks as int].table;
        let key = words_key(owner, storage_id, info, chunks);
        law_cached_words_are_those_of_the_rows(
            entries,
            owners,
            key,
            query_terms(request.query_text),
            contents,
            floats,
        );
    }
}

} // verus!
