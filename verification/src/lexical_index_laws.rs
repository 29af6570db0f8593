//! What an index of words holds.

use vstd::prelude::*;
use crate::float::Floats;
use crate::graph::text_in;
use crate::graph_score_laws::{held_once, law_words_are_counted, rows_once, times_in};
use crate::lexical::{
    built, built_from, counts_from, index_words, length_factors, posted, posting_at, wanted, BuildView, Occurrence,
    PostingView, TermCountView,
};
use crate::value::ValueView;

verus! {

/// The words of the text that is embedded of a row.
pub open spec fn words_in(row: Seq<ValueView>) -> Seq<Seq<char>> {
    match text_in(row, 6) {
        Ok(text) => index_words(text),
        Err(_) => Seq::empty(),
    }
}

/// The first `count` rows that hold a word that is wanted, each with how often.
pub open spec fn holding(rows: Seq<Seq<ValueView>>, terms: Option<Seq<Seq<char>>>, word: Seq<char>, count: nat) -> Seq<Occurrence>
    decreases count,
{
    if count == 0 {
        Seq::empty()
    } else {
        let before = holding(rows, terms, word, (count - 1) as nat);
        let often = times_in(words_in(rows[count - 1]), word);
        if wanted(terms, word) && often > 0 {
            before.push(Occurrence { row: (count - 1) as usize, frequency: often as usize })
        } else {
            before
        }
    }
}

/// Whether each word stands once.
pub open spec fn words_once(postings: Seq<PostingView>) -> bool {
    forall|p: int, q: int| 0 <= p < q < postings.len() ==> (#[trigger] postings[p]).term != (#[trigger] postings[q]).term
}

/// The rows that an index has under a word.
pub open spec fn rows_under(postings: Seq<PostingView>, word: Seq<char>) -> Seq<Occurrence> {
    match posting_at(postings, word, 0) {
        Some(at) => postings[at as int].rows,
        None => Seq::empty(),
    }
}

proof fn lemma_posting_at(postings: Seq<PostingView>, term: Seq<char>, from: nat)
    ensures
        match posting_at(postings, term, from) {
            Some(at) => from <= at < postings.len() && postings[at as int].term == term && forall|p: int|
                from <= p < at ==> (#[trigger] postings[p]).term != term,
            None => forall|p: int| from <= p < postings.len() ==> (#[trigger] postings[p]).term != term,
        },
    decreases postings.len() - from,
{
    if from < postings.len() && postings[from as int].term != term {
        lemma_posting_at(postings, term, from + 1);
    }
}

/// Whether an index has, under each word, what another has, and one row more for the words counted.
spec fn one_row_more(
    postings: Seq<PostingView>,
    base: Seq<PostingView>,
    counts: Seq<TermCountView>,
    row: usize,
) -> bool {
    &&& words_once(postings)
    &&& forall|word: Seq<char>| #[trigger]
        rows_under(postings, word) == match place_of(counts, word) {
            Some(i) => rows_under(base, word).push(Occurrence { row, frequency: counts[i].count as usize }),
            None => rows_under(base, word),
        }
}

/// The place of a word among counts.
spec fn place_of(counts: Seq<TermCountView>, word: Seq<char>) -> Option<int> {
    if exists|i: int| 0 <= i < counts.len() && (#[trigger] counts[i]).term == word {
        Some(choose|i: int| 0 <= i < counts.len() && (#[trigger] counts[i]).term == word)
    } else {
        None
    }
}

proof fn lemma_place(counts: Seq<TermCountView>, word: Seq<char>, i: int)
    requires
        0 <= i < counts.len(),
        counts[i].term == word,
        forall|a: int, b: int| 0 <= a < b < counts.len() ==> (#[trigger] counts[a]).term != (#[trigger] counts[b]).term,
    ensures
        place_of(counts, word) == Some(i),
{
    let at = choose|at: int| 0 <= at < counts.len() && (#[trigger] counts[at]).term == word;
    if at < i {
        assert(counts[at].term != counts[i].term);
    } else if i < at {
        assert(counts[i].term != counts[at].term);
    }
}

proof fn lemma_one_posted(
    counts: Seq<TermCountView>,
    row: usize,
    from: nat,
    base: Seq<PostingView>,
    now: Seq<PostingView>,
    next: Seq<PostingView>,
)
    requires
        from < counts.len(),
        forall|a: int, b: int| 0 <= a < b < counts.len() ==> (#[trigger] counts[a]).term != (#[trigger] counts[b]).term,
        one_row_more(now, base, counts.take(from as int), row),
        ({
            let entry = counts[from as int];
            let occurrence = Occurrence { row, frequency: entry.count as usize };
            match posting_at(now, entry.term, 0) {
                Some(at) => next == now.update(
                    at as int,
                    PostingView { term: entry.term, rows: now[at as int].rows.push(occurrence) },
                ),
                None => next == now.push(PostingView { term: entry.term, rows: seq![occurrence] }),
            }
        }),
    ensures
        one_row_more(next, base, counts.take(from as int + 1), row),
{
    let entry = counts[from as int];
    let occurrence = Occurrence { row, frequency: entry.count as usize };
    let less = counts.take(from as int);
    let more = counts.take(from as int + 1);
    lemma_posting_at(now, entry.term, 0);
    assert forall|p: int, q: int| 0 <= p < q < next.len() implies (#[trigger] next[p]).term != (#[trigger] next[q]).term by {
        match posting_at(now, entry.term, 0) {
            Some(at) => {
                assert(next[p].term == now[p].term && next[q].term == now[q].term);
                assert(now[p].term != now[q].term);
            },
            None => {
                assert(next[p] == now[p]);
                if q < now.len() {
                    assert(now[p].term != now[q].term);
                }
            },
        }
    }
    assert forall|word: Seq<char>| #[trigger] rows_under(next, word) == match place_of(more, word) {
        Some(i) => rows_under(base, word).push(Occurrence { row, frequency: more[i].count as usize }),
        None => rows_under(base, word),
    } by {
        lemma_posting_at(next, word, 0);
        lemma_posting_at(now, word, 0);
        if word == entry.term {
            assert(more[from as int] == entry);
            assert forall|a: int, b: int| 0 <= a < b < more.len() implies (#[trigger] more[a]).term != (#[trigger] more[b]).term by {
                assert(counts[a].term != counts[b].term);
            }
            lemma_place(more, word, from as int);
            assert(place_of(less, word) is None) by {
                if exists|i: int| 0 <= i < less.len() && (#[trigger] less[i]).term == word {
                    let i = choose|i: int| 0 <= i < less.len() && (#[trigger] less[i]).term == word;
                    assert(counts[i].term != counts[from as int].term);
                }
            }
            assert(rows_under(now, word) == rows_under(base, word));
            match posting_at(now, word, 0) {
                Some(at) => {
                    assert(next[at as int].term == word);
                    let found = posting_at(next, word, 0)->Some_0;
                    if found != at {
                        if found < at {
                            assert(next[found as int].term != next[at as int].term);
                        } else {
                            assert(next[at as int].term != next[found as int].term);
                        }
                    }
                },
                None => {
                    assert(next[now.len() as int].term == word);
                    let found = posting_at(next, word, 0)->Some_0;
                    if found < now.len() {
                        assert(next[found as int] == now[found as int]);
                    }
                    assert(seq![occurrence] =~= Seq::<Occurrence>::empty().push(occurrence));
                },
            }
        } else {
            assert(place_of(more, word) is Some <==> place_of(less, word) is Some) by {
                if exists|i: int| 0 <= i < more.len() && (#[trigger] more[i]).term == word {
                    let i = choose|i: int| 0 <= i < more.len() && (#[trigger] more[i]).term == word;
                    assert(i < from);
                    assert(less[i].term == word);
                }
                if exists|i: int| 0 <= i < less.len() && (#[trigger] less[i]).term == word {
                    let i = choose|i: int| 0 <= i < less.len() && (#[trigger] less[i]).term == word;
                    assert(more[i].term == word);
                }
            }
            if place_of(less, word) is Some {
                let i = choose|i: int| 0 <= i < less.len() && (#[trigger] less[i]).term == word;
                assert forall|a: int, b: int| 0 <= a < b < more.len() implies (#[trigger] more[a]).term != (#[trigger] more[b]).term by {
                    assert(counts[a].term != counts[b].term);
                }
                assert forall|a: int, b: int| 0 <= a < b < less.len() implies (#[trigger] less[a]).term != (#[trigger] less[b]).term by {
                    assert(counts[a].term != counts[b].term);
                }
                assert(more[i].term == word);
                lemma_place(more, word, i);
                lemma_place(less, word, i);
                assert(more[i] == less[i]);
            }
            assert(rows_under(next, word) == rows_under(now, word)) by {
                match posting_at(now, word, 0) {
                    Some(at) => {
                        assert(next[at as int] == now[at as int]);
                        let found = posting_at(next, word, 0)->Some_0;
                        if found < at {
                            assert(next[found as int].term != next[at as int].term);
                        } else if at < found {
                            assert(next[at as int].term != next[found as int].term);
                        }
                    },
                    None => {
                        if let Some(found) = posting_at(next, word, 0) {
                            if found < now.len() {
                                assert(now[found as int].term != word);
                                assert(next[found as int].term == now[found as int].term);
                            }
                        }
                    },
                }
            }
        }
    }
}

proof fn lemma_posted(counts: Seq<TermCountView>, row: usize, all: bool, from: nat, base: Seq<PostingView>, done: BuildView)
    requires
        from <= counts.len(),
        forall|a: int, b: int| 0 <= a < b < counts.len() ==> (#[trigger] counts[a]).term != (#[trigger] counts[b]).term,
        one_row_more(done.postings, base, counts.take(from as int), row),
    ensures
        posted(counts, row, all, from, done) matches Some(after) ==> one_row_more(after.postings, base, counts, row),
    decreases counts.len() - from,
{
    if from < counts.len() {
        let entry = counts[from as int];
        let occurrence = Occurrence { row, frequency: entry.count as usize };
        match posting_at(done.postings, entry.term, 0) {
            Some(at) => {
                let rows = done.postings[at as int].rows.push(occurrence);
                let next = BuildView {
                    postings: done.postings.update(at as int, PostingView { term: entry.term, rows }),
                    bytes: done.bytes + 32,
                };
                lemma_one_posted(counts, row, from, base, done.postings, next.postings);
                lemma_posted(counts, row, all, from + 1, base, next);
            },
            None => {
                let next = BuildView {
                    postings: done.postings.push(PostingView { term: entry.term, rows: seq![occurrence] }),
                    bytes: done.bytes + 32 + 128 + 2 * crate::text::byte_count(entry.term),
                };
                lemma_one_posted(counts, row, from, base, done.postings, next.postings);
                lemma_posted(counts, row, all, from + 1, base, next);
            },
        }
    } else {
        assert(counts.take(from as int) =~= counts);
    }
}

/// Whether an index has, under each word, the rows below a count that hold it.
pub open spec fn indexes(postings: Seq<PostingView>, rows: Seq<Seq<ValueView>>, terms: Option<Seq<Seq<char>>>, count: nat) -> bool {
    &&& words_once(postings)
    &&& forall|word: Seq<char>| #[trigger] rows_under(postings, word) == holding(rows, terms, word, count)
}

proof fn lemma_row_indexed(
    rows: Seq<Seq<ValueView>>,
    terms: Option<Seq<Seq<char>>>,
    from: nat,
    before: Seq<PostingView>,
    after: Seq<PostingView>,
)
    requires
        from < rows.len(),
        indexes(before, rows, terms, from),
        one_row_more(after, before, counts_from(words_in(rows[from as int]), terms, 0, Seq::empty()), from as usize),
    ensures
        indexes(after, rows, terms, from + 1),
{
    let found = words_in(rows[from as int]);
    let counts = counts_from(found, terms, 0, Seq::empty());
    law_words_are_counted(found, terms);
    assert forall|word: Seq<char>| #[trigger] rows_under(after, word) == holding(rows, terms, word, from + 1) by {
        assert(rows_under(before, word) == holding(rows, terms, word, from));
        if exists|i: int| 0 <= i < counts.len() && (#[trigger] counts[i]).term == word {
            let i = choose|i: int| 0 <= i < counts.len() && (#[trigger] counts[i]).term == word;
            lemma_place(counts, word, i);
            assert(counts[i].count == times_in(found, word));
        } else {
            assert(place_of(counts, word) is None);
            if wanted(terms, word) && times_in(found, word) > 0 {
                lemma_present(found, word);
                let k = choose|k: int| 0 <= k < found.len() && found[k] == word;
                assert(wanted(terms, found[k]));
                assert(false);
            }
        }
    }
}

proof fn lemma_present(found: Seq<Seq<char>>, word: Seq<char>)
    requires
        times_in(found, word) > 0,
    ensures
        found.contains(word),
    decreases found.len(),
{
    if found.last() == word {
        assert(found[found.len() - 1] == word);
    } else {
        lemma_present(found.drop_last(), word);
        let less = found.drop_last();
        let i = choose|i: int| 0 <= i < less.len() && less[i] == word;
        assert(found[i] == word);
    }
}

proof fn lemma_built(rows: Seq<Seq<ValueView>>, terms: Option<Seq<Seq<char>>>, from: nat, lengths: Seq<usize>, done: BuildView)
    requires
        from <= rows.len(),
        lengths.len() == from,
        forall|i: int| 0 <= i < from ==> #[trigger] lengths[i] == words_in(rows[i]).len() as usize,
        indexes(done.postings, rows, terms, from),
    ensures
        built_from(rows, terms, from, lengths, done) matches Ok(Some((all, postings))) ==> {
            &&& all.len() == rows.len()
            &&& forall|i: int| 0 <= i < rows.len() ==> #[trigger] all[i] == words_in(rows[i]).len() as usize
            &&& indexes(postings, rows, terms, rows.len())
        },
    decreases rows.len() - from,
{
    if from < rows.len() {
        if let Ok(text) = text_in(rows[from as int], 6) {
            let found = index_words(text);
            let counts = counts_from(found, terms, 0, Seq::empty());
            law_words_are_counted(found, terms);
            assert(counts.take(0) =~= Seq::<TermCountView>::empty());
            assert(one_row_more(done.postings, done.postings, counts.take(0), from as usize));
            lemma_posted(counts, from as usize, terms is None, 0, done.postings, done);
            if let Some(next) = posted(counts, from as usize, terms is None, 0, done) {
                lemma_row_indexed(rows, terms, from, done.postings, next.postings);
                lemma_built(rows, terms, from + 1, lengths.push(found.len() as usize), next);
            }
        }
    }
}

proof fn lemma_holding(rows: Seq<Seq<ValueView>>, terms: Option<Seq<Seq<char>>>, word: Seq<char>, count: nat)
    requires
        count <= rows.len() <= usize::MAX,
    ensures
        ({
            let found = holding(rows, terms, word, count);
            &&& rows_once(found)
            &&& forall|k: int| 0 <= k < found.len() ==> (#[trigger] found[k]).row < count
        }),
    decreases count,
{
    if count > 0 {
        lemma_holding(rows, terms, word, (count - 1) as nat);
        let before = holding(rows, terms, word, (count - 1) as nat);
        let found = holding(rows, terms, word, count);
        assert forall|k: int| 0 <= k < found.len() implies (#[trigger] found[k]).row < count by {
            if k < before.len() {
                assert(found[k] == before[k]);
            }
        }
        assert forall|i: int, j: int| 0 <= i < j < found.len() implies (#[trigger] found[i]).row != (#[trigger] found[j]).row by {
            assert(found[i] == before[i]);
            if j < before.len() {
                assert(found[j] == before[j]);
            }
        }
    }
}

/// An index of rows holds every word that is wanted once, and under it the rows that hold it, in their
/// order, each with how often it stands there. The lengths that count are the numbers of words.
pub proof fn law_index_of_rows(rows: Seq<Seq<ValueView>>, terms: Option<Seq<Seq<char>>>, floats: Floats)
    requires
        rows.len() <= usize::MAX,
    ensures
        built(rows, terms, floats) matches Ok(Some(index)) ==> {
            &&& indexes(index.postings, rows, terms, rows.len())
            &&& held_once(index)
            &&& index.length_factors == length_factors(Seq::new(rows.len(), |i: int| words_in(rows[i]).len() as usize), floats)
        },
{
    let start = BuildView { postings: Seq::empty(), bytes: 8 * rows.len() };
    assert forall|word: Seq<char>| #[trigger] rows_under(start.postings, word) == holding(rows, terms, word, 0) by {
        lemma_posting_at(start.postings, word, 0);
    }
    lemma_built(rows, terms, 0, Seq::empty(), start);
    if let Ok(Some(index)) = built(rows, terms, floats) {
        let (lengths, postings) = built_from(rows, terms, 0, Seq::empty(), start)->Ok_0->Some_0;
        assert(lengths =~= Seq::new(rows.len(), |i: int| words_in(rows[i]).len() as usize));
        assert forall|p: int| 0 <= p < postings.len() implies postings[p].rows == holding(
            rows,
            terms,
            (#[trigger] postings[p]).term,
            rows.len(),
        ) by {
            let word = postings[p].term;
            lemma_posting_at(postings, word, 0);
            let at = posting_at(postings, word, 0)->Some_0;
            if at != p {
                assert(postings[at as int].term != postings[p].term);
            }
            assert(rows_under(postings, word) == postings[p].rows);
        }
        assert forall|p: int| 0 <= p < postings.len() implies rows_once((#[trigger] postings[p]).rows) by {
            lemma_holding(rows, terms, postings[p].term, rows.len());
        }
        assert forall|p: int, k: int| 0 <= p < postings.len() && 0 <= k < postings[p].rows.len() implies (#[trigger] postings[p].rows[k]).row
            < index.length_factors.len() by {
            lemma_holding(rows, terms, postings[p].term, rows.len());
            assert(postings[p].rows == holding(rows, terms, postings[p].term, rows.len()));
        }
    }
}

} // verus!
