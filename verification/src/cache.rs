//! A bounded cache of parsed SQL text, the least recently used first to go.

use std::sync::Arc;
use vstd::prelude::*;
use crate::ast::{Statement, StatementView};
use crate::text::{byte_count, count_bytes, lemma_views_push, views};

verus! {

broadcast use {vstd::string::group_string_axioms, lemma_views_push};

pub const PARSE_CACHE_MAX_ENTRIES: usize = 64;

pub const PARSE_CACHE_MAX_SQL_BYTES: usize = 1048576;

pub const PARSE_CACHE_MAX_ENTRY_BYTES: usize = 65536;

/// A text and its statements.
pub struct CachedSql {
    pub sql: String,
    pub statements: Arc<Vec<Statement>>,
}

pub struct CachedView {
    pub sql: Seq<char>,
    pub statements: Seq<StatementView>,
}

impl View for CachedSql {
    type V = CachedView;

    open spec fn view(&self) -> CachedView {
        CachedView { sql: self.sql@, statements: views(self.statements@) }
    }
}

/// How many bytes the texts have together.
pub open spec fn total_bytes(entries: Seq<CachedView>) -> nat
    decreases entries.len(),
{
    if entries.len() == 0 {
        0
    } else {
        total_bytes(entries.drop_last()) + byte_count(entries.last().sql)
    }
}

/// The first entry, from `from` on, of this text.
pub open spec fn cached_position(entries: Seq<CachedView>, sql: Seq<char>, from: nat) -> Option<nat>
    decreases entries.len() - from,
{
    if from >= entries.len() {
        None
    } else if entries[from as int].sql == sql {
        Some(from)
    } else {
        cached_position(entries, sql, from + 1)
    }
}

/// The entries with the one at `at` moved to the front.
pub open spec fn promoted(entries: Seq<CachedView>, at: nat) -> Seq<CachedView> {
    seq![entries[at as int]] + entries.remove(at as int)
}

/// The entries without the last ones that leave no room for a text of this size.
pub open spec fn evicted(entries: Seq<CachedView>, size: nat) -> Seq<CachedView>
    decreases entries.len(),
{
    if entries.len() > 0 && (entries.len() >= PARSE_CACHE_MAX_ENTRIES || total_bytes(entries) + size
        > PARSE_CACHE_MAX_SQL_BYTES) {
        evicted(entries.drop_last(), size)
    } else {
        entries
    }
}

/// The entries without the one of this text.
pub open spec fn without(entries: Seq<CachedView>, sql: Seq<char>) -> Seq<CachedView> {
    match cached_position(entries, sql, 0) {
        Some(at) => entries.remove(at as int),
        None => entries,
    }
}

/// The entries after a text has been parsed. A text that is too long is not kept.
pub open spec fn remembered(entries: Seq<CachedView>, added: CachedView) -> Seq<CachedView> {
    if byte_count(added.sql) > PARSE_CACHE_MAX_ENTRY_BYTES {
        entries
    } else {
        seq![added] + evicted(without(entries, added.sql), byte_count(added.sql))
    }
}

/// Whether the entries are within the bounds and no text is kept twice.
pub open spec fn bounded(entries: Seq<CachedView>) -> bool {
    &&& entries.len() <= PARSE_CACHE_MAX_ENTRIES
    &&& total_bytes(entries) <= PARSE_CACHE_MAX_SQL_BYTES
    &&& forall|i: int| 0 <= i < entries.len() ==> byte_count((#[trigger] entries[i]).sql) <= PARSE_CACHE_MAX_ENTRY_BYTES
    &&& forall|i: int, j: int| 0 <= i < j < entries.len() ==> (#[trigger] entries[i]).sql != (#[trigger] entries[j]).sql
}

/// Parsed texts, the most recently used first.
pub struct ParseCache {
    pub entries: Vec<CachedSql>,
    pub sql_bytes: usize,
}

impl View for ParseCache {
    type V = Seq<CachedView>;

    open spec fn view(&self) -> Seq<CachedView> {
        views(self.entries@)
    }
}

proof fn lemma_total_remove(entries: Seq<CachedView>, at: int)
    requires
        0 <= at < entries.len(),
    ensures
        total_bytes(entries.remove(at)) + byte_count(entries[at].sql) == total_bytes(entries),
    decreases entries.len(),
{
    if at == entries.len() - 1 {
        assert(entries.remove(at) =~= entries.drop_last());
    } else {
        lemma_total_remove(entries.drop_last(), at);
        assert(entries.remove(at).drop_last() =~= entries.drop_last().remove(at));
        assert(entries.remove(at).last() == entries.last());
    }
}

proof fn lemma_total_front(entries: Seq<CachedView>, added: CachedView)
    ensures
        total_bytes(seq![added] + entries) == byte_count(added.sql) + total_bytes(entries),
    decreases entries.len(),
{
    let all = seq![added] + entries;
    if entries.len() == 0 {
        assert(all.drop_last() =~= Seq::<CachedView>::empty());
        assert(all.last() == added);
        assert(total_bytes(all.drop_last()) == 0);
    } else {
        lemma_total_front(entries.drop_last(), added);
        assert(all.drop_last() =~= seq![added] + entries.drop_last());
        assert(all.last() == entries.last());
    }
}

pub proof fn lemma_position(entries: Seq<CachedView>, sql: Seq<char>, from: nat)
    ensures
        match cached_position(entries, sql, from) {
            Some(at) => from <= at < entries.len() && entries[at as int].sql == sql,
            None => forall|i: int| from <= i < entries.len() ==> (#[trigger] entries[i]).sql != sql,
        },
    decreases entries.len() - from,
{
    if from < entries.len() && entries[from as int].sql != sql {
        lemma_position(entries, sql, from + 1);
    }
}

/// What is left of bounded entries once one is removed is bounded.
proof fn lemma_remove_bounded(entries: Seq<CachedView>, at: int)
    requires
        bounded(entries),
        0 <= at < entries.len(),
    ensures
        bounded(entries.remove(at)),
        forall|i: int| 0 <= i < entries.remove(at).len() ==> (#[trigger] entries.remove(at)[i]).sql != entries[at].sql,
{
    lemma_total_remove(entries, at);
    let rest = entries.remove(at);
    assert forall|i: int| 0 <= i < rest.len() implies byte_count((#[trigger] rest[i]).sql) <= PARSE_CACHE_MAX_ENTRY_BYTES
        && rest[i].sql != entries[at].sql by {
        if i < at {
            assert(rest[i] == entries[i]);
        } else {
            assert(rest[i] == entries[i + 1]);
        }
    }
    assert forall|i: int, j: int| 0 <= i < j < rest.len() implies (#[trigger] rest[i]).sql != (#[trigger] rest[j]).sql by {
        let a = if i < at {
            i
        } else {
            i + 1
        };
        let b = if j < at {
            j
        } else {
            j + 1
        };
        assert(rest[i] == entries[a]);
        assert(rest[j] == entries[b]);
    }
}

proof fn lemma_without_bounded(entries: Seq<CachedView>, sql: Seq<char>)
    requires
        bounded(entries),
    ensures
        bounded(without(entries, sql)),
        forall|i: int| 0 <= i < without(entries, sql).len() ==> (#[trigger] without(entries, sql)[i]).sql != sql,
{
    lemma_position(entries, sql, 0);
    if let Some(at) = cached_position(entries, sql, 0) {
        lemma_remove_bounded(entries, at as int);
    }
}

proof fn lemma_evicted_bounded(entries: Seq<CachedView>, size: nat)
    requires
        bounded(entries),
        size <= PARSE_CACHE_MAX_ENTRY_BYTES,
    ensures
        bounded(evicted(entries, size)),
        evicted(entries, size).len() < PARSE_CACHE_MAX_ENTRIES,
        total_bytes(evicted(entries, size)) + size <= PARSE_CACHE_MAX_SQL_BYTES,
        evicted(entries, size) == entries.take(evicted(entries, size).len() as int),
        evicted(entries, size).len() <= entries.len(),
    decreases entries.len(),
{
    if entries.len() > 0 && (entries.len() >= PARSE_CACHE_MAX_ENTRIES || total_bytes(entries) + size
        > PARSE_CACHE_MAX_SQL_BYTES) {
        let shorter = entries.drop_last();
        assert forall|i: int, j: int| 0 <= i < j < shorter.len() implies (#[trigger] shorter[i]).sql != (
        #[trigger] shorter[j]).sql by {
            assert(shorter[i] == entries[i]);
            assert(shorter[j] == entries[j]);
        }
        lemma_evicted_bounded(shorter, size);
        let count = evicted(shorter, size).len();
        assert(shorter.take(count as int) =~= entries.take(count as int));
    } else {
        assert(entries.take(entries.len() as int) =~= entries);
    }
}

/// Remembering a text keeps the cache within its bounds; a text that is not too long is then the
/// first entry, and the others are earlier ones in their order.
pub proof fn law_remembered(entries: Seq<CachedView>, added: CachedView)
    requires
        bounded(entries),
    ensures
        bounded(remembered(entries, added)),
        byte_count(added.sql) <= PARSE_CACHE_MAX_ENTRY_BYTES ==> remembered(entries, added)[0] == added && remembered(
            entries,
            added,
        ).skip(1) == without(entries, added.sql).take(remembered(entries, added).len() - 1),
{
    if byte_count(added.sql) <= PARSE_CACHE_MAX_ENTRY_BYTES {
        let size = byte_count(added.sql);
        let rest = without(entries, added.sql);
        lemma_without_bounded(entries, added.sql);
        lemma_evicted_bounded(rest, size);
        let kept = evicted(rest, size);
        lemma_total_front(kept, added);
        let all = seq![added] + kept;
        assert(all.skip(1) =~= kept);
        assert forall|i: int| 0 <= i < all.len() implies byte_count((#[trigger] all[i]).sql) <= PARSE_CACHE_MAX_ENTRY_BYTES by {
            if i > 0 {
                assert(all[i] == kept[i - 1]);
            }
        }
        assert forall|i: int, j: int| 0 <= i < j < all.len() implies (#[trigger] all[i]).sql != (#[trigger] all[j]).sql by {
            assert(all[j] == kept[j - 1]);
            assert(kept[j - 1] == rest[j - 1]);
            if i > 0 {
                assert(all[i] == kept[i - 1]);
            }
        }
    }
}

/// Moving an entry to the front keeps the cache within its bounds.
pub proof fn law_promoted(entries: Seq<CachedView>, at: nat)
    requires
        bounded(entries),
        at < entries.len(),
    ensures
        bounded(promoted(entries, at)),
        promoted(entries, at)[0] == entries[at as int],
        total_bytes(promoted(entries, at)) == total_bytes(entries),
{
    let rest = entries.remove(at as int);
    lemma_remove_bounded(entries, at as int);
    lemma_total_remove(entries, at as int);
    lemma_total_front(rest, entries[at as int]);
    let all = promoted(entries, at);
    assert forall|i: int| 0 <= i < all.len() implies byte_count((#[trigger] all[i]).sql) <= PARSE_CACHE_MAX_ENTRY_BYTES by {
        if i > 0 {
            assert(all[i] == rest[i - 1]);
        }
    }
    assert forall|i: int, j: int| 0 <= i < j < all.len() implies (#[trigger] all[i]).sql != (#[trigger] all[j]).sql by {
        assert(all[j] == rest[j - 1]);
        if i > 0 {
            assert(all[i] == rest[i - 1]);
        }
    }
}

impl ParseCache {
    /// Whether the entries are bounded and their bytes are counted.
    pub open spec fn wf(self) -> bool {
        &&& bounded(self@)
        &&& self.sql_bytes == total_bytes(self@)
    }

    pub fn new() -> (cache: ParseCache)
        ensures
            cache@ == Seq::<CachedView>::empty(),
            cache.wf(),
    {
        let cache = ParseCache { entries: Vec::new(), sql_bytes: 0 };
        assert(cache@ =~= Seq::<CachedView>::empty());
        cache
    }

    fn position(&self, sql: &str) -> (result: Option<usize>)
        ensures
            match result {
                Some(at) => cached_position(self@, sql@, 0) == Some(at as nat) && at < self.entries@.len(),
                None => cached_position(self@, sql@, 0) is None,
            },
    {
        let mut at: usize = 0;
        while at < self.entries.len()
            invariant
                at <= self.entries@.len(),
                cached_position(self@, sql@, at as nat) == cached_position(self@, sql@, 0),
            decreases self.entries@.len() - at,
        {
            assert(self@[at as int] == self.entries@[at as int]@);
            if *self.entries[at].sql.as_str() == *sql {
                return Some(at);
            }
            at = at + 1;
        }
        None
    }

    /// The statements of a text that is kept, which is then the most recently used.
    pub fn get(&mut self, sql: &str) -> (result: Option<Arc<Vec<Statement>>>)
        requires
            old(self).wf(),
        ensures
            final(self).wf(),
            match cached_position(old(self)@, sql@, 0) {
                Some(at) => result matches Some(statements) && views(statements@) == old(self)@[at as int].statements
                    && final(self)@ == promoted(old(self)@, at),
                None => result is None && final(self)@ == old(self)@,
            },
    {
        let at: usize = match self.position(sql) {
            Some(at) => at,
            None => return None,
        };
        let ghost before = self@;
        let ghost had = self.entries@;
        assert(before[at as int] == had[at as int]@);
        let entry = self.entries.remove(at);
        let statements = entry.statements.clone();
        self.entries.insert(0, entry);
        proof {
            assert(self@ =~= promoted(before, at as nat)) by {
                assert forall|i: int| 0 <= i < self@.len() implies self@[i] == promoted(before, at as nat)[i] by {
                    if i > 0 && i - 1 < at {
                        assert(self.entries@[i] == had[i - 1]);
                    } else if i > 0 {
                        assert(self.entries@[i] == had[i]);
                    }
                }
            }
            law_promoted(before, at as nat);
        }
        Some(statements)
    }

    /// Remembers the statements of a text.
    pub fn insert(&mut self, sql: &str, statements: &Arc<Vec<Statement>>)
        requires
            old(self).wf(),
        ensures
            final(self).wf(),
            final(self)@ == remembered(old(self)@, CachedView { sql: sql@, statements: views(statements@) }),
    {
        let ghost start = self@;
        let ghost added = CachedView { sql: sql@, statements: views(statements@) };
        let size: usize = count_bytes(sql);
        proof {
            law_remembered(start, added);
        }
        if size > PARSE_CACHE_MAX_ENTRY_BYTES {
            return;
        }
        proof {
            lemma_without_bounded(start, sql@);
            lemma_position(start, sql@, 0);
        }
        if let Some(at) = self.position(sql) {
            let ghost had = self.entries@;
            proof {
                lemma_total_remove(start, at as int);
                assert(start[at as int] == had[at as int]@);
            }
            let entry = self.entries.remove(at);
            self.sql_bytes = self.sql_bytes - count_bytes(entry.sql.as_str());
            assert(self@ =~= start.remove(at as int));
        }
        let ghost rest = without(start, sql@);
        assert(self@ == rest);
        while self.entries.len() > 0 && (self.entries.len() >= PARSE_CACHE_MAX_ENTRIES || self.sql_bytes + size
            > PARSE_CACHE_MAX_SQL_BYTES)
            invariant
                self.sql_bytes == total_bytes(self@),
                self.sql_bytes <= PARSE_CACHE_MAX_SQL_BYTES,
                size <= PARSE_CACHE_MAX_ENTRY_BYTES,
                evicted(self@, size as nat) == evicted(rest, size as nat),
            decreases self.entries@.len(),
        {
            let ghost now = self@;
            let ghost had = self.entries@;
            assert(now.last() == had.last()@);
            match self.entries.pop() {
                Some(entry) => {
                    assert(self@ =~= now.drop_last());
                    self.sql_bytes = self.sql_bytes - count_bytes(entry.sql.as_str());
                },
                None => {},
            }
        }
        let ghost kept = self@;
        proof {
            assert(kept == evicted(rest, size as nat));
            lemma_evicted_bounded(rest, size as nat);
            lemma_total_front(kept, added);
        }
        self.sql_bytes = self.sql_bytes + size;
        self.entries.insert(0, CachedSql { sql: sql.to_owned(), statements: statements.clone() });
        assert(self@ =~= seq![added] + kept);
    }
}

/// What is remembered beside the new text was kept before.
pub proof fn lemma_remembered_len(entries: Seq<CachedView>, added: CachedView)
    requires
        bounded(entries),
        byte_count(added.sql) <= PARSE_CACHE_MAX_ENTRY_BYTES,
    ensures
        1 <= remembered(entries, added).len() <= without(entries, added.sql).len() + 1,
{
    lemma_without_bounded(entries, added.sql);
    lemma_evicted_bounded(without(entries, added.sql), byte_count(added.sql));
}

} // verus!
