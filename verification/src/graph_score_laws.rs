//! What the scores of chunks are made of: their words, their citations, and the ways to them.

use vstd::prelude::*;
use crate::arithmetic::exceeds;
use crate::error::ErrorView;
use crate::float::{at_least, not_a_number, number, number_key, scored, FloatTaskView, Floats, Metric};
use crate::graph_rag::CandidateView;
use crate::graph_rag_laws::{sum, whole};
use crate::graph_search::HitView;
use crate::graph_select::{likeness, overlap_of, repeats, squeezed};
use crate::graph_select_laws::{difference, product, ratio};
use crate::graph_traversal::{
    lexical_fit, vector_fit, way_evidence, way_strength, EvidenceView, Target, TraversalView,
};
use crate::lexical::{
    all_scores, average_length, counted, count_at, counts_from, gain, length_factor, posting_at, query_terms, lower_words, rarity,
    scored_rows, scored_terms, term_added, term_place, terms_from, wanted, words, words_from, words_total, LexicalIndexView,
    Occurrence, PostingView, TermCountView,
};

verus! {

/// How rare a word is: the logarithm of one more than the rows without it over those with it, half a
/// row added to each.
pub proof fn law_rarity(rows: nat, holding: nat, floats: Floats)
    ensures
        ({
            let half = 0x3fe0000000000000;
            let one = 0x3ff0000000000000;
            let without = sum(floats, difference(floats, whole(floats, rows), whole(floats, holding)), half);
            let with_it = sum(floats, whole(floats, holding), half);
            rarity(rows, holding, floats) == number(
                floats,
                FloatTaskView::Logarithm(sum(floats, one, ratio(floats, without, with_it))),
            )
        }),
{
}

/// A rarer word counts for at least as much, where logarithm, sum, difference and quotient keep the
/// order of numbers.
pub proof fn law_rarer_counts_more(rows: nat, few: nat, many: nat, floats: Floats)
    requires
        few <= many <= rows,
        forall|a: u64, b: u64|
            number_key(a) <= number_key(b) ==> number_key(#[trigger] number(floats, FloatTaskView::Logarithm(a))) <= number_key(
                #[trigger] number(floats, FloatTaskView::Logarithm(b)),
            ),
        forall|a: u64, b: u64, c: u64|
            number_key(a) <= number_key(b) ==> number_key(#[trigger] sum(floats, c, a)) <= number_key(#[trigger] sum(floats, c, b)),
        number_key(
            ratio(
                floats,
                sum(floats, difference(floats, whole(floats, rows), whole(floats, many)), 0x3fe0000000000000),
                sum(floats, whole(floats, many), 0x3fe0000000000000),
            ),
        ) <= number_key(
            ratio(
                floats,
                sum(floats, difference(floats, whole(floats, rows), whole(floats, few)), 0x3fe0000000000000),
                sum(floats, whole(floats, few), 0x3fe0000000000000),
            ),
        ),
    ensures
        number_key(rarity(rows, many, floats)) <= number_key(rarity(rows, few, floats)),
{
    law_rarity(rows, few, floats);
    law_rarity(rows, many, floats);
}

/// What a word adds to a row: its rarity times how often it stands there times two and a fifth, over
/// how often it stands there and the weight of the row's length.
pub proof fn law_gain(idf: u64, frequency: usize, factor: u64, floats: Floats)
    ensures
        gain(idf, frequency, factor, floats) == ratio(
            floats,
            product(floats, product(floats, idf, whole(floats, frequency as nat)), 0x400199999999999a),
            sum(floats, whole(floats, frequency as nat), factor),
        ),
{
}

/// The weight of a row's length: one and a fifth times a quarter and three quarters of how long it is
/// beside the mean. The mean is of all rows, and never zero.
pub proof fn law_length(lengths: Seq<usize>, length: usize, average: u64, floats: Floats)
    ensures
        length_factor(length, average, floats) == product(
            floats,
            0x3ff3333333333333,
            sum(
                floats,
                0x3fd0000000000000,
                ratio(floats, product(floats, 0x3fe8000000000000, whole(floats, length as nat)), average),
            ),
        ),
        lengths.len() > 0 ==> {
            let mean = ratio(floats, whole(floats, words_total(lengths, lengths.len())), whole(floats, lengths.len()));
            average_length(lengths, floats) == (if !not_a_number(mean) && number_key(mean) >= 0x3cb0000000000000 {
                mean
            } else {
                0x3cb0000000000000
            })
        },
{
}

/// How often a word is in a list.
pub open spec fn times_in(found: Seq<Seq<char>>, word: Seq<char>) -> nat
    decreases found.len(),
{
    if found.len() == 0 {
        0
    } else {
        times_in(found.drop_last(), word) + if found.last() == word {
            1nat
        } else {
            0
        }
    }
}

proof fn lemma_count_at(counts: Seq<TermCountView>, term: Seq<char>, from: nat)
    ensures
        match count_at(counts, term, from) {
            Some(at) => from <= at < counts.len() && counts[at as int].term == term,
            None => forall|i: int| from <= i < counts.len() ==> (#[trigger] counts[i]).term != term,
        },
    decreases counts.len() - from,
{
    if from < counts.len() && counts[from as int].term != term {
        lemma_count_at(counts, term, from + 1);
    }
}

/// Whether counts say of each word that is wanted how often it is in a list.
pub open spec fn counts_words(counts: Seq<TermCountView>, found: Seq<Seq<char>>, terms: Option<Seq<Seq<char>>>) -> bool {
    &&& forall|i: int|
        0 <= i < counts.len() ==> (#[trigger] counts[i]).count == times_in(found, counts[i].term) && counts[i].count > 0 && wanted(
            terms,
            counts[i].term,
        )
    &&& forall|i: int, j: int| 0 <= i < j < counts.len() ==> (#[trigger] counts[i]).term != (#[trigger] counts[j]).term
    &&& forall|k: int|
        0 <= k < found.len() && wanted(terms, #[trigger] found[k]) ==> exists|i: int|
            0 <= i < counts.len() && (#[trigger] counts[i]).term == found[k]
}

proof fn lemma_absent(found: Seq<Seq<char>>, word: Seq<char>)
    requires
        !found.contains(word),
    ensures
        times_in(found, word) == 0,
    decreases found.len(),
{
    if found.len() > 0 {
        assert(found[found.len() - 1] == found.last());
        assert forall|i: int| 0 <= i < found.drop_last().len() implies found.drop_last()[i] != word by {
            assert(found[i] == found.drop_last()[i]);
        }
        lemma_absent(found.drop_last(), word);
    }
}

proof fn lemma_counts(found: Seq<Seq<char>>, terms: Option<Seq<Seq<char>>>, from: nat, done: Seq<TermCountView>)
    requires
        from <= found.len(),
        counts_words(done, found.take(from as int), terms),
    ensures
        counts_words(counts_from(found, terms, from, done), found, terms),
    decreases found.len() - from,
{
    if from < found.len() {
        let word = found[from as int];
        let less = found.take(from as int);
        let more = found.take(from as int + 1);
        assert(more.drop_last() =~= less);
        assert(more.last() == word);
        if wanted(terms, word) {
            let next = counted(done, word);
            lemma_count_at(done, word, 0);
            if count_at(done, word, 0) is None {
                assert(!less.contains(word)) by {
                    if less.contains(word) {
                        let k = choose|k: int| 0 <= k < less.len() && less[k] == word;
                        assert(wanted(terms, less[k]));
                        let i = choose|i: int| 0 <= i < done.len() && (#[trigger] done[i]).term == less[k];
                        assert(done[i].term == word);
                    }
                }
                lemma_absent(less, word);
            }
            assert forall|i: int| 0 <= i < next.len() implies (#[trigger] next[i]).count == times_in(more, next[i].term) && next[i].count
                > 0 && wanted(terms, next[i].term) by {
                match count_at(done, word, 0) {
                    Some(at) => {
                        assert(done[i].term == next[i].term);
                        if i != at {
                            assert(done[i].term != done[at as int].term) by {
                                if i < at {
                                    assert(done[i].term != done[at as int].term);
                                } else {
                                    assert(done[at as int].term != done[i].term);
                                }
                            }
                        }
                    },
                    None => {
                        if i < done.len() {
                            assert(next[i] == done[i]);
                        }
                    },
                }
            }
            assert forall|i: int, j: int| 0 <= i < j < next.len() implies (#[trigger] next[i]).term != (#[trigger] next[j]).term by {
                if j < done.len() {
                    assert(done[i].term != done[j].term);
                } else {
                    assert(done[i].term != word);
                }
            }
            assert forall|k: int| 0 <= k < more.len() && wanted(terms, #[trigger] more[k]) implies exists|i: int|
                0 <= i < next.len() && (#[trigger] next[i]).term == more[k] by {
                if k < from {
                    assert(less[k] == more[k]);
                    let i = choose|i: int| 0 <= i < done.len() && (#[trigger] done[i]).term == less[k];
                    assert(next[i].term == more[k]);
                } else {
                    match count_at(done, word, 0) {
                        Some(at) => assert(next[at as int].term == word),
                        None => assert(next[done.len() as int].term == word),
                    }
                }
            }
            lemma_counts(found, terms, from + 1, next);
        } else {
            assert forall|i: int| 0 <= i < done.len() implies (#[trigger] done[i]).count == times_in(more, done[i].term) && done[i].count > 0
                && wanted(terms, done[i].term) by {
                assert(done[i].term != word);
            }
            assert forall|k: int| 0 <= k < more.len() && wanted(terms, #[trigger] more[k]) implies exists|i: int|
                0 <= i < done.len() && (#[trigger] done[i]).term == more[k] by {
                assert(less[k] == more[k]);
            }
            lemma_counts(found, terms, from + 1, done);
        }
    } else {
        assert(found.take(from as int) =~= found);
    }
}

/// The words of a row are counted: each that is wanted stands once, with how often it occurs.
pub proof fn law_words_are_counted(found: Seq<Seq<char>>, terms: Option<Seq<Seq<char>>>)
    ensures
        counts_words(counts_from(found, terms, 0, Seq::empty()), found, terms),
{
    assert(found.take(0) =~= Seq::<Seq<char>>::empty());
    lemma_counts(found, terms, 0, Seq::empty());
}

proof fn lemma_term_place(terms: Seq<Seq<char>>, term: Seq<char>, from: nat)
    requires
        from <= terms.len(),
    ensures
        from <= term_place(terms, term, from) <= terms.len(),
    decreases terms.len() - from,
{
    if from < terms.len() && crate::text::text_rank(terms[from as int], term) == crate::text::Rank::Before {
        lemma_term_place(terms, term, from + 1);
    }
}

proof fn lemma_terms(found: Seq<Seq<char>>, from: nat, done: Seq<Seq<char>>)
    requires
        from <= found.len(),
        forall|word: Seq<char>| #[trigger] done.contains(word) <==> found.take(from as int).contains(word),
    ensures
        forall|word: Seq<char>| #[trigger] terms_from(found, from, done).contains(word) <==> found.contains(word),
    decreases found.len() - from,
{
    if from < found.len() {
        let term = found[from as int];
        let next = term_added(done, term);
        let less = found.take(from as int);
        let more = found.take(from as int + 1);
        let place = term_place(done, term, 0);
        lemma_term_place(done, term, 0);
        assert forall|word: Seq<char>| #[trigger] next.contains(word) <==> more.contains(word) by {
            assert(more[from as int] == term);
            if less.contains(word) {
                let i = choose|i: int| 0 <= i < less.len() && less[i] == word;
                assert(more[i] == word);
            }
            if more.contains(word) && word != term {
                let i = choose|i: int| 0 <= i < more.len() && more[i] == word;
                assert(less[i] == word);
            }
            assert(done.contains(word) <==> less.contains(word));
            if place < done.len() && done[place as int] == term {
                if word == term {
                    assert(done.contains(word));
                }
            } else {
                let added = done.insert(place as int, term);
                assert(added[place as int] == term);
                if done.contains(word) {
                    let i = choose|i: int| 0 <= i < done.len() && done[i] == word;
                    if i < place {
                        assert(added[i] == word);
                    } else {
                        assert(added[i + 1] == word);
                    }
                }
                if added.contains(word) && word != term {
                    let i = choose|i: int| 0 <= i < added.len() && added[i] == word;
                    if i < place {
                        assert(done[i] == word);
                    } else {
                        assert(done[i - 1] == word);
                    }
                }
            }
        }
        lemma_terms(found, from + 1, next);
        assert(terms_from(found, from, done) == terms_from(found, from + 1, next));
    } else {
        assert(found.take(from as int) =~= found);
        assert(terms_from(found, from, done) == done);
    }
}

/// The words that a query asks for are those of its text in lower case.
pub proof fn law_query_words(text: Seq<char>)
    ensures
        forall|word: Seq<char>| #[trigger] query_terms(text).contains(word) <==> lower_words(text).contains(word),
{
    let found = lower_words(text);
    assert(found.take(0) =~= Seq::<Seq<char>>::empty());
    lemma_terms(found, 0, Seq::empty());
}

/// Whether a piece of a text is one of its words: letters and numbers alone, at least one, and none on
/// either side.
pub open spec fn is_word(text: Seq<char>, start: int, end: int) -> bool {
    &&& 0 <= start < end <= text.len()
    &&& forall|i: int| start <= i < end ==> crate::unicode::unicode_alphanumeric(#[trigger] text[i])
    &&& start > 0 ==> !crate::unicode::unicode_alphanumeric(text[start - 1])
    &&& end < text.len() ==> !crate::unicode::unicode_alphanumeric(text[end])
}

/// Whether a text is one of the words of another.
pub open spec fn is_word_of(text: Seq<char>, word: Seq<char>) -> bool {
    exists|start: int, end: int| #[trigger] is_word(text, start, end) && word == text.subrange(start, end)
}

proof fn lemma_words_found(text: Seq<char>, from: nat, start: nat, done: Seq<Seq<char>>)
    requires
        start <= from <= text.len(),
        forall|i: int| start <= i < from ==> crate::unicode::unicode_alphanumeric(#[trigger] text[i]),
        start > 0 ==> !crate::unicode::unicode_alphanumeric(text[start - 1]),
        forall|i: int| 0 <= i < done.len() ==> is_word_of(text, #[trigger] done[i]),
        forall|a: int, b: int| #[trigger] is_word(text, a, b) && b < start ==> done.contains(text.subrange(a, b)),
    ensures
        forall|i: int| 0 <= i < words_from(text, from, start, done).len() ==> is_word_of(text, #[trigger] words_from(text, from, start, done)[i]),
        forall|a: int, b: int| #[trigger] is_word(text, a, b) ==> words_from(text, from, start, done).contains(text.subrange(a, b)),
    decreases text.len() - from,
{
    if from < text.len() && crate::unicode::unicode_alphanumeric(text[from as int]) {
        lemma_words_found(text, from + 1, start, done);
        assert(words_from(text, from, start, done) == words_from(text, from + 1, start, done));
    } else {
        let next = if start < from {
            done.push(text.subrange(start as int, from as int))
        } else {
            done
        };
        if start < from {
            assert(is_word(text, start as int, from as int));
        }
        assert forall|i: int| 0 <= i < next.len() implies is_word_of(text, #[trigger] next[i]) by {
            if i < done.len() {
                assert(next[i] == done[i]);
            }
        }
        assert forall|a: int, b: int| #[trigger] is_word(text, a, b) && b <= from implies next.contains(text.subrange(a, b)) by {
            if b < start {
                let i = choose|i: int| 0 <= i < done.len() && done[i] == text.subrange(a, b);
                assert(next[i] == text.subrange(a, b));
            } else {
                assert(crate::unicode::unicode_alphanumeric(text[b - 1]));
                if b == start {
                    assert(false);
                }
                if b < from {
                    assert(crate::unicode::unicode_alphanumeric(text[b]));
                }
                if a < start {
                    assert(crate::unicode::unicode_alphanumeric(text[start - 1]));
                }
                if a > start {
                    assert(crate::unicode::unicode_alphanumeric(text[a - 1]));
                }
                assert(a == start && b == from);
                assert(next[done.len() as int] == text.subrange(a, b));
            }
        }
        if from < text.len() {
            lemma_words_found(text, from + 1, from + 1, next);
            assert(words_from(text, from, start, done) == words_from(text, from + 1, from + 1, next));
        } else {
            assert(words_from(text, from, start, done) == next);
        }
    }
}

/// The words of a text are its longest runs of letters and numbers, all of them and nothing else.
pub proof fn law_words(text: Seq<char>)
    ensures
        forall|i: int| 0 <= i < words(text).len() ==> is_word_of(text, #[trigger] words(text)[i]),
        forall|a: int, b: int| #[trigger] is_word(text, a, b) ==> words(text).contains(text.subrange(a, b)),
{
    lemma_words_found(text, 0, 0, Seq::empty());
}

/// The scores of a row after the words from `from` on, one word after the other.
pub open spec fn row_score(index: LexicalIndexView, terms: Seq<Seq<char>>, floats: Floats, row: int, count: nat) -> u64
    decreases count,
{
    if count == 0 {
        0
    } else {
        let before = row_score(index, terms, floats, row, (count - 1) as nat);
        match occurrence(index.postings, terms[count - 1], row) {
            None => before,
            Some((holding, frequency)) => sum(
                floats,
                before,
                gain(rarity(index.length_factors.len(), holding, floats), frequency, index.length_factors[row], floats),
            ),
        }
    }
}

/// In how many rows a word stands, and how often in this one; none where it does not stand here.
pub open spec fn occurrence(postings: Seq<PostingView>, term: Seq<char>, row: int) -> Option<(nat, usize)> {
    if exists|p: int, k: int| #[trigger] occurs(postings, term, row, p, k) {
        let (p, k) = choose|p: int, k: int| #[trigger] occurs(postings, term, row, p, k);
        Some((postings[p].rows.len(), postings[p].rows[k].frequency))
    } else {
        None
    }
}

pub open spec fn occurs(postings: Seq<PostingView>, term: Seq<char>, row: int, p: int, k: int) -> bool {
    &&& 0 <= p < postings.len()
    &&& postings[p].term == term
    &&& 0 <= k < postings[p].rows.len()
    &&& postings[p].rows[k].row == row
}

/// Whether an index holds each word once, and under each word each row once.
pub open spec fn held_once(index: LexicalIndexView) -> bool {
    &&& index.valid()
    &&& forall|p: int, q: int|
        0 <= p < q < index.postings.len() ==> (#[trigger] index.postings[p]).term != (#[trigger] index.postings[q]).term
    &&& forall|p: int| 0 <= p < index.postings.len() ==> rows_once((#[trigger] index.postings[p]).rows)
}

pub open spec fn rows_once(rows: Seq<Occurrence>) -> bool {
    forall|i: int, j: int| 0 <= i < j < rows.len() ==> (#[trigger] rows[i]).row != (#[trigger] rows[j]).row
}

proof fn lemma_posting_at(postings: Seq<PostingView>, term: Seq<char>, from: nat)
    ensures
        match posting_at(postings, term, from) {
            Some(at) => from <= at < postings.len() && postings[at as int].term == term,
            None => forall|p: int| from <= p < postings.len() ==> (#[trigger] postings[p]).term != term,
        },
    decreases postings.len() - from,
{
    if from < postings.len() && postings[from as int].term != term {
        lemma_posting_at(postings, term, from + 1);
    }
}

proof fn lemma_scored_rows(
    rows: Seq<Occurrence>,
    idf: u64,
    factors: Seq<u64>,
    floats: Floats,
    from: nat,
    scores: Seq<u64>,
    row: int,
)
    requires
        from <= rows.len(),
        0 <= row < scores.len(),
        rows_once(rows),
        forall|i: int| 0 <= i < rows.len() ==> (#[trigger] rows[i]).row < scores.len(),
    ensures
        ({
            let after = scored_rows(rows, idf, factors, floats, from, scores);
            &&& after.len() == scores.len()
            &&& forall|k: int|
                from <= k < rows.len() && (#[trigger] rows[k]).row == row ==> after[row] == sum(
                    floats,
                    scores[row],
                    gain(idf, rows[k].frequency, factors[row], floats),
                )
            &&& (forall|k: int| from <= k < rows.len() ==> (#[trigger] rows[k]).row != row) ==> after[row] == scores[row]
        }),
    decreases rows.len() - from,
{
    if from < rows.len() {
        let at = rows[from as int].row as int;
        let next = scores.update(
            at,
            crate::arithmetic::plus(floats, scores[at], gain(idf, rows[from as int].frequency, factors[at], floats)),
        );
        lemma_scored_rows(rows, idf, factors, floats, from + 1, next, row);
        let after = scored_rows(rows, idf, factors, floats, from, scores);
        assert(after == scored_rows(rows, idf, factors, floats, from + 1, next));
        if at == row {
            assert forall|k: int| from + 1 <= k < rows.len() implies (#[trigger] rows[k]).row != row by {
                assert(rows[from as int].row != rows[k].row);
            }
            assert forall|k: int| from <= k < rows.len() && (#[trigger] rows[k]).row == row implies after[row] == sum(
                floats,
                scores[row],
                gain(idf, rows[k].frequency, factors[row], floats),
            ) by {
                if k > from {
                    assert(rows[k].row != row);
                }
            }
        } else {
            assert(next[row] == scores[row]);
            assert forall|k: int| from <= k < rows.len() && (#[trigger] rows[k]).row == row implies after[row] == sum(
                floats,
                scores[row],
                gain(idf, rows[k].frequency, factors[row], floats),
            ) by {
                assert(k != from);
            }
            if forall|k: int| from <= k < rows.len() ==> (#[trigger] rows[k]).row != row {
                assert(after[row] == next[row]);
            }
        }
    }
}

proof fn lemma_scored_terms(
    index: LexicalIndexView,
    terms: Seq<Seq<char>>,
    floats: Floats,
    from: nat,
    scores: Seq<u64>,
    row: int,
)
    requires
        held_once(index),
        from <= terms.len(),
        scores.len() == index.length_factors.len(),
        0 <= row < scores.len(),
        scores[row] == row_score(index, terms, floats, row, from),
    ensures
        scored_terms(index, terms, floats, from, scores).len() == scores.len(),
        scored_terms(index, terms, floats, from, scores)[row] == row_score(index, terms, floats, row, terms.len()),
    decreases terms.len() - from,
{
    if from < terms.len() {
        let term = terms[from as int];
        lemma_posting_at(index.postings, term, 0);
        match posting_at(index.postings, term, 0) {
            None => {
                assert(occurrence(index.postings, term, row) is None) by {
                    if exists|p: int, k: int| #[trigger] occurs(index.postings, term, row, p, k) {
                        let (p, k) = choose|p: int, k: int| #[trigger] occurs(index.postings, term, row, p, k);
                        assert(index.postings[p].term == term);
                    }
                }
                lemma_scored_terms(index, terms, floats, from + 1, scores, row);
            },
            Some(at) => {
                let rows = index.postings[at as int].rows;
                let idf = rarity(index.length_factors.len(), rows.len(), floats);
                assert(rows_once(rows));
                assert forall|i: int| 0 <= i < rows.len() implies (#[trigger] rows[i]).row < scores.len() by {
                    assert(index.postings[at as int].rows[i].row < index.length_factors.len());
                }
                lemma_scored_rows(rows, idf, index.length_factors, floats, 0, scores, row);
                let next = scored_rows(rows, idf, index.length_factors, floats, 0, scores);
                if exists|p: int, k: int| #[trigger] occurs(index.postings, term, row, p, k) {
                    let (p, k) = choose|p: int, k: int| #[trigger] occurs(index.postings, term, row, p, k);
                    assert(p == at) by {
                        if p < at {
                            assert(index.postings[p].term != index.postings[at as int].term);
                        } else if at < p {
                            assert(index.postings[at as int].term != index.postings[p].term);
                        }
                    }
                    assert(rows[k].row == row);
                } else {
                    assert forall|k: int| 0 <= k < rows.len() implies (#[trigger] rows[k]).row != row by {
                        if rows[k].row == row {
                            assert(occurs(index.postings, term, row, at as int, k));
                        }
                    }
                }
                lemma_scored_terms(index, terms, floats, from + 1, next, row);
            },
        }
    }
}

/// The score of a row for words is the sum of what each of them adds where it stands in the row, by
/// how rare it is, how often it stands there, and how long the row is.
pub proof fn law_row_scores(index: LexicalIndexView, terms: Seq<Seq<char>>, floats: Floats, row: int)
    requires
        held_once(index),
        0 <= row < index.length_factors.len(),
    ensures
        all_scores(index, terms, floats).len() == index.length_factors.len(),
        all_scores(index, terms, floats)[row] == row_score(index, terms, floats, row, terms.len()),
{
    lemma_scored_terms(index, terms, floats, 0, Seq::new(index.length_factors.len(), |i: int| 0), row);
}

/// How many bytes two pieces of a text have in common.
pub open spec fn common_bytes(left: HitView, right: HitView) -> nat {
    if left.end_byte <= right.start_byte || right.end_byte <= left.start_byte || left.end_byte <= left.start_byte || right.end_byte
        <= right.start_byte {
        0
    } else {
        let end = if left.end_byte <= right.end_byte {
            left.end_byte
        } else {
            right.end_byte
        };
        let start = if left.start_byte >= right.start_byte {
            left.start_byte
        } else {
            right.start_byte
        };
        (end - start) as nat
    }
}

/// How many bytes a citation has.
pub open spec fn cited_bytes(hit: HitView) -> nat {
    if hit.end_byte <= hit.start_byte {
        0
    } else {
        (hit.end_byte - hit.start_byte) as nat
    }
}

/// Two citations overlap by the bytes that they have in common over those of the shorter one; those of
/// different documents, and empty ones, do not. It does not matter which is first.
pub proof fn law_source_overlap(left: HitView, right: HitView, floats: Floats)
    ensures
        left.document_id != right.document_id ==> overlap_of(left, right, floats) == 0,
        cited_bytes(left) == 0 || cited_bytes(right) == 0 ==> overlap_of(left, right, floats) == 0,
        left.document_id == right.document_id && 0 < cited_bytes(left) <= cited_bytes(right) ==> overlap_of(left, right, floats) == ratio(
            floats,
            whole(floats, common_bytes(left, right)),
            whole(floats, cited_bytes(left)),
        ),
        overlap_of(left, right, floats) == overlap_of(right, left, floats),
{
}

/// Two candidates are alike by the cosine of their vectors or by the overlap of their citations,
/// whichever is more.
pub proof fn law_likeness(left: CandidateView, right: CandidateView, floats: Floats)
    ensures
        likeness(left, right, floats) matches Ok(alike) ==> (scored(floats, Metric::Cosine, left.vector, right.vector) matches Ok(
            distance,
        ) && {
            let by_vector = difference(floats, 0x3ff0000000000000, distance);
            let overlap = overlap_of(left.hit, right.hit, floats);
            !not_a_number(by_vector) && !not_a_number(overlap) ==> {
                &&& !exceeds(overlap, alike)
                &&& !exceeds(by_vector, 0x3ff0000000000000) ==> !exceeds(by_vector, alike)
                &&& number_key(alike) >= 0
                &&& alike == overlap || alike == by_vector || alike == 0 || alike == 0x3ff0000000000000
                &&& alike == 0x3ff0000000000000 ==> alike == overlap || number_key(by_vector) >= 0x3ff0000000000000
                &&& number_key(alike) == 0 ==> number_key(by_vector) <= 0
            }
        }),
{
}

/// One candidate repeats another where their texts are the same but for case and white space, or where
/// at least four fifths of the shorter citation are in the other.
pub proof fn law_repeats(left: CandidateView, right: CandidateView, floats: Floats)
    ensures
        repeats(left, right, floats) == repeats(right, left, floats),
        left.hit.text == right.hit.text ==> repeats(left, right, floats),
        squeezed(left.hit.text) != squeezed(right.hit.text) && left.hit.document_id != right.hit.document_id ==> !repeats(
            left,
            right,
            floats,
        ),
        squeezed(left.hit.text) != squeezed(right.hit.text) ==> (repeats(left, right, floats) <==> at_least(
            overlap_of(left.hit, right.hit, floats),
            0x3fe999999999999a,
        )),
{
    law_source_overlap(left.hit, right.hit, floats);
}

/// A way along a relationship has half the strength of where it comes from, times the weight of the
/// relationship, and no less than the score of the chunk that it leads to.
pub proof fn law_way_strength(t: TraversalView, floats: Floats, source: EvidenceView, target: Target)
    ensures
        ({
            let along = product(floats, product(floats, source.strength, 0x3fe0000000000000), target.weight);
            let own = match t.scores[target.row as int] {
                Some(score) => score.fusion,
                None => 0,
            };
            !not_a_number(along) && !not_a_number(own) ==> {
                let strength = way_strength(t, floats, source, target);
                &&& strength == along || strength == own
                &&& number_key(strength) >= number_key(along)
                &&& number_key(strength) >= number_key(own)
            }
        }),
{
}

/// A way gives a chunk the part of its strength that the chunk fits the query by: a fifth, and four
/// fifths of its fit; and no less than its own score. It goes on from where it came from by one
/// relationship.
pub proof fn law_way_evidence(t: TraversalView, floats: Floats, source: EvidenceView, target: Target, fit: u64)
    ensures
        ({
            let evidence = way_evidence(t, floats, source, target, fit);
            let strength = way_strength(t, floats, source, target);
            let share = sum(floats, 0x3fc999999999999a, product(floats, 0x3fe999999999999a, fit));
            let along = product(floats, strength, share);
            let own = match t.scores[target.row as int] {
                Some(score) => score.fusion,
                None => 0,
            };
            &&& evidence.row == target.row
            &&& evidence.seed == source.seed
            &&& evidence.strength == strength
            &&& evidence.trace.len() == source.trace.len() + 1
            &&& evidence.trace.last() == target.edge
            &&& evidence.trace.drop_last() == source.trace
            &&& !not_a_number(along) && !not_a_number(own) ==> {
                &&& evidence.score.fusion == along || evidence.score.fusion == own
                &&& number_key(evidence.score.fusion) >= number_key(along)
                &&& number_key(evidence.score.fusion) >= number_key(own)
            }
        }),
{
    assert(source.trace.push(target.edge).drop_last() =~= source.trace);
}

/// A chunk fits a query by its vector as far as they are alike, and by its words as far as its score
/// comes up to the largest; neither is below zero, and where a ranking has no weight it does not count.
pub proof fn law_fits(t: TraversalView, floats: Floats, largest: u64, row: usize)
    ensures
        !exceeds(t.request.vector_weight, 0) ==> vector_fit(t, floats, row) == Ok::<u64, ErrorView>(0),
        !exceeds(t.request.lexical_weight, 0) ==> lexical_fit(t, floats, largest, row) == 0,
        exceeds(t.request.vector_weight, 0) ==> (t.similarities[row as int] matches Some(alike) ==> (!not_a_number(alike) ==> (
        vector_fit(t, floats, row) matches Ok(fit) && number_key(fit) >= 0 && (number_key(alike) > 0 ==> fit == alike) && (number_key(
            alike,
        ) <= 0 ==> number_key(fit) == 0)))),
        exceeds(t.request.lexical_weight, 0) && exceeds(largest, 0) ==> {
            let part = ratio(floats, t.lexical_scores[row as int], largest);
            !not_a_number(part) ==> {
                let fit = lexical_fit(t, floats, largest, row);
                &&& 0 <= number_key(part) <= 0x3ff0000000000000 ==> fit == part
                &&& number_key(part) < 0 ==> fit == 0
                &&& number_key(part) > 0x3ff0000000000000 ==> fit == 0x3ff0000000000000
            }
        },
{
}

} // verus!
