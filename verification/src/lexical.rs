//! The words of texts, and an index that scores chunks by the words of a query.

use vstd::prelude::*;
use crate::arithmetic::{
    compute_minus, compute_over, compute_plus, compute_times, count_number, exceeds, is_larger, maximum, maximum_of, minus,
    number_of_count, over, plus, times, BM25_GAIN, BM25_SATURATION, EPSILON, HALF, ONE, QUARTER, THREE_QUARTERS, ZERO,
};
use crate::error::{plain, Error, ErrorView};
use crate::float::{compute_number, computes, floats, number, FloatReply, FloatTask, FloatTaskView, Floats};
use crate::graph::{bounded_text, invalid, misuse, text_at, text_bounded, text_in, MAX_CHUNKS};
use crate::graph_browse::has_id;
use crate::graph_links::{rank_weighted, rows_below, weighted_sorted, Weighted};
use crate::graph_neighborhood::first_of;
use crate::slice::lemma_bytes_cover;
use crate::text::{
    byte_count, chars_of, count_bytes, lemma_views_push, rank_text, same_text, string_of, text_rank, views, Rank,
};
use crate::unicode::{ascii_lower, is_alphanumeric, lowered, to_lowercase, unicode_alphanumeric};
use crate::value::{row_views, Value, ValueView};

verus! {

broadcast use {vstd::string::group_string_axioms, lemma_views_push};

pub const LEXICAL_INDEX_BYTES: usize = 16777216;

pub const MAX_QUERY_TERMS: usize = 256;

/// The words of a text from `from` on, where the one that is open began at `start`, after `done`.
pub open spec fn words_from(text: Seq<char>, from: nat, start: nat, done: Seq<Seq<char>>) -> Seq<Seq<char>>
    decreases text.len() - from,
{
    if from < text.len() && unicode_alphanumeric(text[from as int]) {
        words_from(text, from + 1, start, done)
    } else {
        let next = if start < from {
            done.push(text.subrange(start as int, from as int))
        } else {
            done
        };
        if from >= text.len() {
            next
        } else {
            words_from(text, from + 1, from + 1, next)
        }
    }
}

/// The words of a text: its longest runs of letters and numbers.
pub open spec fn words(text: Seq<char>) -> Seq<Seq<char>> {
    words_from(text, 0, 0, Seq::empty())
}

proof fn lemma_words(text: Seq<char>, from: nat, start: nat, done: Seq<Seq<char>>)
    requires
        start <= from <= text.len(),
        done.len() <= start,
    ensures
        words_from(text, from, start, done).len() <= text.len(),
    decreases text.len() - from,
{
    if from < text.len() && unicode_alphanumeric(text[from as int]) {
        lemma_words(text, from + 1, start, done);
    } else if from < text.len() {
        let next = if start < from {
            done.push(text.subrange(start as int, from as int))
        } else {
            done
        };
        lemma_words(text, from + 1, from + 1, next);
    }
}

/// The words of a text.
pub fn token_words(text: &str) -> (result: Vec<String>)
    ensures
        views(result@) == words(text@),
{
    let chars = chars_of(text);
    let mut result: Vec<String> = Vec::new();
    assert(views(result@) =~= Seq::<Seq<char>>::empty());
    let mut start: usize = 0;
    let mut at: usize = 0;
    while at < chars.len()
        invariant
            chars@ == text@,
            start <= at <= chars@.len(),
            words_from(text@, at as nat, start as nat, views(result@)) == words(text@),
        decreases chars@.len() - at,
    {
        if !is_alphanumeric(chars[at]) {
            if start < at {
                result.push(string_of(&chars, start, at));
            }
            start = at + 1;
        }
        at = at + 1;
    }
    if start < at {
        result.push(string_of(&chars, start, at));
    }
    result
}

/// The words of a text in lower case.
pub open spec fn lower_words(text: Seq<char>) -> Seq<Seq<char>> {
    words(text).map_values(|word: Seq<char>| lowered(word))
}

/// The words of a text in lower case.
pub fn tokens(text: &str) -> (result: Vec<String>)
    ensures
        views(result@) == lower_words(text@),
{
    let found = token_words(text);
    let mut result: Vec<String> = Vec::new();
    while result.len() < found.len()
        invariant
            views(found@) == words(text@),
            result@.len() <= found@.len(),
            forall|i: int| 0 <= i < result@.len() ==> (#[trigger] result@[i])@ == lowered(found@[i]@),
        decreases found@.len() - result@.len(),
    {
        let at: usize = result.len();
        result.push(to_lowercase(found[at].as_str()));
    }
    assert(views(result@) =~= lower_words(text@));
    result
}

/// Whether a word is of ASCII characters alone and none of them in upper case.
pub open spec fn settled(word: Seq<char>) -> bool {
    forall|i: int| 0 <= i < word.len() ==> settled_char(#[trigger] word[i])
}

pub open spec fn settled_char(c: char) -> bool {
    (c as u32) < 128 && !('A' <= c && c <= 'Z')
}

/// A word as the index holds it.
pub open spec fn index_word(word: Seq<char>) -> Seq<char> {
    if settled(word) {
        word
    } else {
        lowered(word)
    }
}

fn is_settled(word: &str) -> (result: bool)
    ensures
        result == settled(word@),
{
    let chars = chars_of(word);
    let mut index: usize = 0;
    while index < chars.len()
        invariant
            chars@ == word@,
            index <= chars@.len(),
            forall|i: int| 0 <= i < index ==> settled_char(#[trigger] word@[i]),
        decreases chars@.len() - index,
    {
        let c = chars[index];
        if c as u32 >= 128 || ('A' <= c && c <= 'Z') {
            assert(!settled_char(word@[index as int]));
            return false;
        }
        index = index + 1;
    }
    true
}

/// The words of a text as the index holds them.
pub open spec fn index_words(text: Seq<char>) -> Seq<Seq<char>> {
    words(text).map_values(|word: Seq<char>| index_word(word))
}

/// The words of a text as the index holds them.
pub fn index_tokens(text: &str) -> (result: Vec<String>)
    ensures
        views(result@) == index_words(text@),
        result@.len() <= text@.len(),
{
    let found = token_words(text);
    proof {
        lemma_words(text@, 0, 0, Seq::empty());
        assert(views(found@).len() == found@.len());
    }
    let mut result: Vec<String> = Vec::new();
    while result.len() < found.len()
        invariant
            views(found@) == words(text@),
            result@.len() <= found@.len() <= text@.len(),
            forall|i: int| 0 <= i < result@.len() ==> (#[trigger] result@[i])@ == index_word(found@[i]@),
        decreases found@.len() - result@.len(),
    {
        let at: usize = result.len();
        if is_settled(found[at].as_str()) {
            result.push(found[at].clone());
        } else {
            result.push(to_lowercase(found[at].as_str()));
        }
    }
    assert(views(result@) =~= index_words(text@));
    result
}

/// The index holds the words of a text in lower case: that words which are so already are taken as
/// they are makes no difference.
pub proof fn law_index_words_are_lower(text: Seq<char>)
    ensures
        index_words(text) == lower_words(text),
{
    let found = words(text);
    assert forall|i: int| 0 <= i < found.len() implies index_word(#[trigger] found[i]) == lowered(found[i]) by {
        let word = found[i];
        if settled(word) {
            assert forall|k: int| 0 <= k < word.len() implies (#[trigger] word[k] as u32) < 128 && ascii_lower(word[k])
                == word[k] by {
                assert(settled_char(word[k]));
            }
            assert(word.map_values(|c: char| ascii_lower(c)) =~= word);
        }
    }
    assert(index_words(text) =~= lower_words(text));
}

/// The place of a word in order, from `from` on.
pub open spec fn term_place(terms: Seq<Seq<char>>, term: Seq<char>, from: nat) -> nat
    decreases terms.len() - from,
{
    if from < terms.len() && text_rank(terms[from as int], term) == Rank::Before {
        term_place(terms, term, from + 1)
    } else {
        from
    }
}

/// Distinct words in order with one more.
pub open spec fn term_added(terms: Seq<Seq<char>>, term: Seq<char>) -> Seq<Seq<char>> {
    let place = term_place(terms, term, 0);
    if place < terms.len() && terms[place as int] == term {
        terms
    } else {
        terms.insert(place as int, term)
    }
}

pub open spec fn terms_from(found: Seq<Seq<char>>, from: nat, done: Seq<Seq<char>>) -> Seq<Seq<char>>
    decreases found.len() - from,
{
    if from >= found.len() {
        done
    } else {
        terms_from(found, from + 1, term_added(done, found[from as int]))
    }
}

/// The distinct words of a text in lower case, in order.
pub open spec fn query_terms(text: Seq<char>) -> Seq<Seq<char>> {
    terms_from(lower_words(text), 0, Seq::empty())
}

fn add_term(terms: &mut Vec<String>, term: &str)
    ensures
        views(final(terms)@) == term_added(views(old(terms)@), term@),
        final(terms)@.len() <= old(terms)@.len() + 1,
{
    let ghost start = views(terms@);
    let mut place: usize = 0;
    while place < terms.len()
        invariant
            terms@ == old(terms)@,
            start == views(old(terms)@),
            place <= terms@.len(),
            term_place(start, term@, place as nat) == term_place(start, term@, 0),
        decreases terms@.len() - place,
    {
        assert(start[place as int] == terms@[place as int]@);
        match rank_text(terms[place].as_str(), term) {
            Rank::Before => {
                place = place + 1;
            },
            _ => {
                if !same_text(terms[place].as_str(), term) {
                    terms.insert(place, term.to_owned());
                    assert(views(terms@) =~= start.insert(place as int, term@));
                }
                return;
            },
        }
    }
    terms.push(term.to_owned());
    assert(views(terms@) =~= start.insert(place as int, term@));
}

/// The distinct words of a text in lower case, in order.
pub fn read_terms(text: &str) -> (terms: Vec<String>)
    ensures
        views(terms@) == query_terms(text@),
{
    let found = tokens(text);
    let ghost all = views(found@);
    let mut terms: Vec<String> = Vec::new();
    assert(views(terms@) =~= Seq::<Seq<char>>::empty());
    let mut at: usize = 0;
    while at < found.len()
        invariant
            all == views(found@),
            all == lower_words(text@),
            at <= found@.len(),
            terms_from(all, at as nat, views(terms@)) == query_terms(text@),
        decreases found@.len() - at,
    {
        assert(all[at as int] == found@[at as int]@);
        add_term(&mut terms, found[at].as_str());
        at = at + 1;
    }
    terms
}

/// Whether a text can be asked for: not empty, not too long, and of no more words than a query may
/// have.
pub open spec fn query_checked(text: Seq<char>) -> Result<(), ErrorView> {
    match text_bounded(text, 8191, false, "RAG query"@) {
        Err(error) => Err(error),
        Ok(_) => if query_terms(text).len() > MAX_QUERY_TERMS {
            Err(misuse("RAG query may contain at most 256 distinct lexical terms"@))
        } else {
            Ok(())
        },
    }
}

/// Fails exactly where a text cannot be asked for.
pub fn validate_query_text(text: &str) -> (result: Result<(), Error>)
    ensures
        plain(result) == query_checked(text@),
{
    bounded_text(text, 8191, false, "RAG query")?;
    let terms = read_terms(text);
    assert(views(terms@).len() == terms@.len());
    if terms.len() > MAX_QUERY_TERMS {
        return Err(invalid("RAG query may contain at most 256 distinct lexical terms"));
    }
    Ok(())
}

/// How often a word stands in a row.
#[derive(Clone, Copy, Debug)]
pub struct Occurrence {
    pub row: usize,
    pub frequency: usize,
}

/// A word with the rows that it stands in.
#[derive(Debug)]
pub struct Posting {
    pub term: String,
    pub rows: Vec<Occurrence>,
}

pub struct PostingView {
    pub term: Seq<char>,
    pub rows: Seq<Occurrence>,
}

impl View for Posting {
    type V = PostingView;

    open spec fn view(&self) -> PostingView {
        PostingView { term: self.term@, rows: self.rows@ }
    }
}

/// A word of one row with how often it stands there.
#[derive(Debug)]
pub struct TermCount {
    pub term: String,
    pub count: usize,
}

pub struct TermCountView {
    pub term: Seq<char>,
    pub count: nat,
}

impl View for TermCount {
    type V = TermCountView;

    open spec fn view(&self) -> TermCountView {
        TermCountView { term: self.term@, count: self.count as nat }
    }
}

/// The first place, from `from` on, of a word.
pub open spec fn count_at(counts: Seq<TermCountView>, term: Seq<char>, from: nat) -> Option<nat>
    decreases counts.len() - from,
{
    if from >= counts.len() {
        None
    } else if counts[from as int].term == term {
        Some(from)
    } else {
        count_at(counts, term, from + 1)
    }
}

/// The counts with one more of a word.
pub open spec fn counted(counts: Seq<TermCountView>, term: Seq<char>) -> Seq<TermCountView> {
    match count_at(counts, term, 0) {
        Some(at) => counts.update(at as int, TermCountView { term, count: counts[at as int].count + 1 }),
        None => counts.push(TermCountView { term, count: 1 }),
    }
}

/// Whether a word is to be indexed: every word where no terms are given.
pub open spec fn wanted(terms: Option<Seq<Seq<char>>>, term: Seq<char>) -> bool {
    terms matches Some(terms) ==> terms.contains(term)
}

/// The counts of the words from `from` on that are to be indexed, after `done`.
pub open spec fn counts_from(found: Seq<Seq<char>>, terms: Option<Seq<Seq<char>>>, from: nat, done: Seq<TermCountView>) -> Seq<
    TermCountView,
>
    decreases found.len() - from,
{
    if from >= found.len() {
        done
    } else if wanted(terms, found[from as int]) {
        counts_from(found, terms, from + 1, counted(done, found[from as int]))
    } else {
        counts_from(found, terms, from + 1, done)
    }
}

pub open spec fn terms_view(terms: Option<&Vec<String>>) -> Option<Seq<Seq<char>>> {
    match terms {
        None => None,
        Some(terms) => Some(views(terms@)),
    }
}

fn count_term(counts: &mut Vec<TermCount>, term: String, Ghost(most): Ghost<nat>)
    requires
        most < usize::MAX,
        forall|i: int| 0 <= i < old(counts)@.len() ==> (#[trigger] old(counts)@[i]).count <= most,
    ensures
        views(final(counts)@) == counted(views(old(counts)@), term@),
        forall|i: int| 0 <= i < final(counts)@.len() ==> (#[trigger] final(counts)@[i]).count <= most + 1,
{
    let ghost start = views(counts@);
    let mut at: usize = 0;
    while at < counts.len()
        invariant
            most < usize::MAX,
            counts@ == old(counts)@,
            start == views(old(counts)@),
            forall|i: int| 0 <= i < counts@.len() ==> (#[trigger] counts@[i]).count <= most,
            at <= counts@.len(),
            count_at(start, term@, at as nat) == count_at(start, term@, 0),
        decreases counts@.len() - at,
    {
        assert(start[at as int] == counts@[at as int]@);
        if same_text(counts[at].term.as_str(), term.as_str()) {
            assert(counts@[at as int].count <= most);
            let count: usize = counts[at].count + 1;
            counts.set(at, TermCount { term, count });
            assert(views(counts@) =~= counted(start, start[at as int].term));
            return;
        }
        at = at + 1;
    }
    counts.push(TermCount { term, count: 1 });
}

/// The counts of the words of a text, and how many words it has.
fn count_terms(text: &str, terms: Option<&Vec<String>>) -> (result: (Vec<TermCount>, usize))
    ensures
        views(result.0@) == counts_from(index_words(text@), terms_view(terms), 0, Seq::empty()),
        result.1 == index_words(text@).len(),
        result.1 <= text@.len(),
{
    let found = index_tokens(text);
    let ghost all = views(found@);
    let mut counts: Vec<TermCount> = Vec::new();
    assert(views(counts@) =~= Seq::<TermCountView>::empty());
    let total: usize = found.len();
    let mut at: usize = 0;
    while at < total
        invariant
            all == views(found@),
            total == found@.len(),
            at <= total,
            forall|i: int| 0 <= i < counts@.len() ==> (#[trigger] counts@[i]).count <= at,
            counts_from(all, terms_view(terms), at as nat, views(counts@)) == counts_from(
                all,
                terms_view(terms),
                0,
                Seq::empty(),
            ),
        decreases total - at,
    {
        assert(all[at as int] == found@[at as int]@);
        let chosen = match terms {
            None => true,
            Some(terms) => has_id(terms, found[at].as_str()),
        };
        if chosen {
            count_term(&mut counts, found[at].clone(), Ghost(at as nat));
        }
        at = at + 1;
    }
    (counts, total)
}

/// The first place, from `from` on, of a word in an index.
pub open spec fn posting_at(postings: Seq<PostingView>, term: Seq<char>, from: nat) -> Option<nat>
    decreases postings.len() - from,
{
    if from >= postings.len() {
        None
    } else if postings[from as int].term == term {
        Some(from)
    } else {
        posting_at(postings, term, from + 1)
    }
}

fn find_posting(postings: &Vec<Posting>, term: &str) -> (result: Option<usize>)
    ensures
        match result {
            Some(at) => posting_at(views(postings@), term@, 0) == Some(at as nat) && at < postings@.len(),
            None => posting_at(views(postings@), term@, 0) is None,
        },
{
    let mut at: usize = 0;
    while at < postings.len()
        invariant
            at <= postings@.len(),
            posting_at(views(postings@), term@, at as nat) == posting_at(views(postings@), term@, 0),
        decreases postings@.len() - at,
    {
        assert(views(postings@)[at as int] == postings@[at as int]@);
        if same_text(postings[at].term.as_str(), term) {
            return Some(at);
        }
        at = at + 1;
    }
    None
}

/// An index being built, with an estimate of its size in bytes.
pub struct BuildView {
    pub postings: Seq<PostingView>,
    pub bytes: nat,
}

/// The index with the words from `from` on of a row; none where it becomes too large, unless it is
/// for the words of one query alone.
pub open spec fn posted(counts: Seq<TermCountView>, row: usize, whole: bool, from: nat, done: BuildView) -> Option<BuildView>
    decreases counts.len() - from,
{
    if from >= counts.len() {
        Some(done)
    } else {
        let entry = counts[from as int];
        let occurrence = Occurrence { row, frequency: entry.count as usize };
        match posting_at(done.postings, entry.term, 0) {
            Some(at) => {
                let bytes = done.bytes + 32;
                if whole && bytes > LEXICAL_INDEX_BYTES {
                    None
                } else {
                    let rows = done.postings[at as int].rows.push(occurrence);
                    posted(
                        counts,
                        row,
                        whole,
                        from + 1,
                        BuildView {
                            postings: done.postings.update(at as int, PostingView { term: entry.term, rows }),
                            bytes,
                        },
                    )
                }
            },
            None => {
                let bytes = done.bytes + 32 + 128 + 2 * byte_count(entry.term);
                if whole && bytes > LEXICAL_INDEX_BYTES {
                    None
                } else {
                    posted(
                        counts,
                        row,
                        whole,
                        from + 1,
                        BuildView {
                            postings: done.postings.push(PostingView { term: entry.term, rows: seq![occurrence] }),
                            bytes,
                        },
                    )
                }
            },
        }
    }
}

/// The index after the rows from `from` on, with the number of words of each row.
pub open spec fn built_from(
    rows: Seq<Seq<ValueView>>,
    terms: Option<Seq<Seq<char>>>,
    from: nat,
    lengths: Seq<usize>,
    done: BuildView,
) -> Result<Option<(Seq<usize>, Seq<PostingView>)>, ErrorView>
    decreases rows.len() - from,
{
    if from >= rows.len() {
        Ok(Some((lengths, done.postings)))
    } else {
        match text_in(rows[from as int], 6) {
            Err(error) => Err(error),
            Ok(text) => match text_bounded(text, 32768, false, "stored embedding text"@) {
                Err(error) => Err(error),
                Ok(_) => {
                    let found = index_words(text);
                    match posted(counts_from(found, terms, 0, Seq::empty()), from as usize, terms is None, 0, done) {
                        None => Ok(None),
                        Some(next) => built_from(rows, terms, from + 1, lengths.push(found.len() as usize), next),
                    }
                },
            },
        }
    }
}

/// How many words the first `count` rows have together.
pub open spec fn words_total(lengths: Seq<usize>, count: nat) -> nat
    decreases count,
{
    if count == 0 || count > lengths.len() {
        0
    } else {
        words_total(lengths, (count - 1) as nat) + lengths[count - 1] as nat
    }
}

/// The mean number of words of a row.
pub open spec fn average_length(lengths: Seq<usize>, floats: Floats) -> u64 {
    let rows = if lengths.len() == 0 {
        1
    } else {
        lengths.len()
    };
    maximum(
        over(floats, count_number(floats, words_total(lengths, lengths.len())), count_number(floats, rows)),
        EPSILON,
    )
}

/// The weight by which the length of a row counts against its words.
pub open spec fn length_factor(length: usize, average: u64, floats: Floats) -> u64 {
    times(
        floats,
        BM25_SATURATION,
        plus(
            floats,
            QUARTER,
            over(floats, times(floats, THREE_QUARTERS, count_number(floats, length as nat)), average),
        ),
    )
}

pub open spec fn length_factors(lengths: Seq<usize>, floats: Floats) -> Seq<u64> {
    lengths.map_values(|length: usize| length_factor(length, average_length(lengths, floats), floats))
}

/// An index of words. The factors are numbers as bit patterns.
#[derive(Debug)]
pub struct LexicalIndex {
    pub length_factors: Vec<u64>,
    pub postings: Vec<Posting>,
}

pub struct LexicalIndexView {
    pub length_factors: Seq<u64>,
    pub postings: Seq<PostingView>,
}

impl View for LexicalIndex {
    type V = LexicalIndexView;

    open spec fn view(&self) -> LexicalIndexView {
        LexicalIndexView { length_factors: self.length_factors@, postings: views(self.postings@) }
    }
}

/// Whether every row of the postings is below `count`.
pub open spec fn postings_below(postings: Seq<PostingView>, count: nat) -> bool {
    forall|i: int, j: int|
        0 <= i < postings.len() && 0 <= j < postings[i].rows.len() ==> (#[trigger] postings[i].rows[j]).row < count
}

impl LexicalIndexView {
    pub open spec fn valid(self) -> bool {
        postings_below(self.postings, self.length_factors.len())
    }
}

/// How many bytes an index holds, up to the largest number.
pub open spec fn held_bytes(postings: Seq<PostingView>, from: nat, done: nat) -> nat
    decreases postings.len() - from,
{
    if from >= postings.len() {
        done
    } else {
        held_bytes(
            postings,
            from + 1,
            done + 80 + byte_count(postings[from as int].term) + 16 * postings[from as int].rows.len(),
        )
    }
}

/// The index of the rows; none where it is too large.
pub open spec fn built(rows: Seq<Seq<ValueView>>, terms: Option<Seq<Seq<char>>>, floats: Floats) -> Result<
    Option<LexicalIndexView>,
    ErrorView,
> {
    match built_from(rows, terms, 0, Seq::empty(), BuildView { postings: Seq::empty(), bytes: 8 * rows.len() }) {
        Err(error) => Err(error),
        Ok(None) => Ok(None),
        Ok(Some((lengths, postings))) => if terms is None && held_bytes(postings, 0, 8 * rows.len())
            > LEXICAL_INDEX_BYTES {
            Ok(None)
        } else {
            Ok(Some(LexicalIndexView { length_factors: length_factors(lengths, floats), postings }))
        },
    }
}

/// A number of bytes, or the largest number where it is beyond that.
pub open spec fn saturated(bytes: nat) -> nat {
    if bytes > usize::MAX {
        usize::MAX as nat
    } else {
        bytes
    }
}

fn times_or_most(value: usize, factor: usize) -> (result: usize)
    ensures
        result == saturated((value * factor) as nat),
{
    match value.checked_mul(factor) {
        Some(product) => product,
        None => usize::MAX,
    }
}

fn post_row(postings: &mut Vec<Posting>, bytes: &mut usize, counts: Vec<TermCount>, row: usize, whole: bool, Ghost(size): Ghost<nat>) -> (result: (
    bool,
    Ghost<nat>,
))
    requires
        *old(bytes) == saturated(size),
        postings_below(views(old(postings)@), row as nat),
        row < usize::MAX,
    ensures
        match posted(
            views(counts@),
            row,
            whole,
            0,
            (BuildView { postings: views(old(postings)@), bytes: size }),
        ) {
            None => !result.0,
            Some(next) => result.0 && next.postings == views(final(postings)@) && next.bytes == result.1@ && *final(bytes)
                == saturated(result.1@) && postings_below(views(final(postings)@), (row + 1) as nat),
        },
{
    let ghost all = views(counts@);
    let ghost start = BuildView { postings: views(postings@), bytes: size };
    let ghost mut reached = size;
    let mut at: usize = 0;
    while at < counts.len()
        invariant
            all == views(counts@),
            start == (BuildView { postings: views(old(postings)@), bytes: size }),
            at <= counts@.len(),
            row < usize::MAX,
            *bytes == saturated(reached),
            postings_below(views(postings@), (row + 1) as nat),
            posted(all, row, whole, at as nat, (BuildView { postings: views(postings@), bytes: reached })) == posted(
                all,
                row,
                whole,
                0,
                start,
            ),
        decreases counts@.len() - at,
    {
        assert(all[at as int] == counts@[at as int]@);
        let ghost before = views(postings@);
        let entry = &counts[at];
        let occurrence = Occurrence { row, frequency: entry.count };
        match find_posting(postings, entry.term.as_str()) {
            Some(place) => {
                *bytes = bytes.saturating_add(32);
                proof {
                    reached = reached + 32;
                }
                if whole && *bytes > LEXICAL_INDEX_BYTES {
                    return (false, Ghost(reached));
                }
                let mut stored = postings[place].rows.clone();
                assert(stored@ =~= postings@[place as int].rows@);
                stored.push(occurrence);
                postings.set(place, Posting { term: entry.term.clone(), rows: stored });
                proof {
                    assert(before[place as int].rows == postings@[place as int].rows@.drop_last());
                    assert(views(postings@) =~= before.update(
                        place as int,
                        PostingView { term: entry.term@, rows: before[place as int].rows.push(occurrence) },
                    ));
                    assert forall|i: int, j: int|
                        0 <= i < views(postings@).len() && 0 <= j < views(postings@)[i].rows.len() implies (
                    #[trigger] views(postings@)[i].rows[j]).row < (row + 1) as nat by {
                        if i == place && j == before[place as int].rows.len() {
                        } else {
                            assert(before[i].rows[j].row < row + 1);
                        }
                    }
                }
            },
            None => {
                let size_of_term: usize = times_or_most(count_bytes(entry.term.as_str()), 2).saturating_add(128);
                *bytes = bytes.saturating_add(32).saturating_add(size_of_term);
                proof {
                    reached = reached + 32 + 128 + 2 * byte_count(entry.term@);
                }
                if whole && *bytes > LEXICAL_INDEX_BYTES {
                    return (false, Ghost(reached));
                }
                let mut rows: Vec<Occurrence> = Vec::new();
                rows.push(occurrence);
                postings.push(Posting { term: entry.term.clone(), rows });
                proof {
                    assert(rows@ =~= seq![occurrence]);
                    assert(views(postings@) =~= before.push(PostingView { term: entry.term@, rows: seq![occurrence] }));
                    assert forall|i: int, j: int|
                        0 <= i < views(postings@).len() && 0 <= j < views(postings@)[i].rows.len() implies (
                    #[trigger] views(postings@)[i].rows[j]).row < (row + 1) as nat by {
                        if i < before.len() {
                            assert(before[i].rows[j].row < row + 1);
                        }
                    }
                }
            },
        }
        at = at + 1;
    }
    (true, Ghost(reached))
}

fn measure_index(postings: &Vec<Posting>, rows: usize) -> (bytes: usize)
    requires
        rows <= MAX_CHUNKS,
    ensures
        bytes == saturated(held_bytes(views(postings@), 0, 8 * rows as nat)),
{
    let ghost all = views(postings@);
    let ghost mut reached = 8 * rows as nat;
    let mut bytes: usize = 8 * rows;
    let mut at: usize = 0;
    while at < postings.len()
        invariant
            all == views(postings@),
            at <= postings@.len(),
            bytes == saturated(reached),
            held_bytes(all, at as nat, reached) == held_bytes(all, 0, 8 * rows as nat),
        decreases postings@.len() - at,
    {
        assert(all[at as int] == postings@[at as int]@);
        let term: usize = count_bytes(postings[at].term.as_str());
        let rows_held: usize = postings[at].rows.len();
        bytes = bytes.saturating_add(80).saturating_add(term).saturating_add(times_or_most(rows_held, 16));
        proof {
            reached = reached + 80 + byte_count(all[at as int].term) + 16 * all[at as int].rows.len();
        }
        at = at + 1;
    }
    bytes
}

fn total_words(lengths: &Vec<usize>) -> (total: usize)
    requires
        lengths@.len() <= MAX_CHUNKS,
        forall|i: int| 0 <= i < lengths@.len() ==> (#[trigger] lengths@[i]) <= 32768,
    ensures
        total == words_total(lengths@, lengths@.len()),
{
    let mut total: usize = 0;
    let mut at: usize = 0;
    while at < lengths.len()
        invariant
            lengths@.len() <= MAX_CHUNKS,
            forall|i: int| 0 <= i < lengths@.len() ==> (#[trigger] lengths@[i]) <= 32768,
            at <= lengths@.len(),
            total == words_total(lengths@, at as nat),
            total <= 32768 * at,
        decreases lengths@.len() - at,
    {
        assert(lengths@[at as int] <= 32768);
        total = total + lengths[at];
        at = at + 1;
    }
    total
}

fn compute_factors<F: Fn(FloatTask) -> FloatReply>(f: &F, lengths: &Vec<usize>) -> (factors: Vec<u64>)
    requires
        computes(*f),
        lengths@.len() <= MAX_CHUNKS,
        forall|i: int| 0 <= i < lengths@.len() ==> (#[trigger] lengths@[i]) <= 32768,
    ensures
        factors@ == length_factors(lengths@, floats(*f)),
{
    let total: usize = total_words(lengths);
    let rows: usize = if lengths.len() == 0 {
        1
    } else {
        lengths.len()
    };
    let average: u64 = maximum_of(compute_over(f, number_of_count(f, total), number_of_count(f, rows)), EPSILON);
    let mut factors: Vec<u64> = Vec::new();
    while factors.len() < lengths.len()
        invariant
            computes(*f),
            average == average_length(lengths@, floats(*f)),
            factors@.len() <= lengths@.len(),
            forall|i: int|
                0 <= i < factors@.len() ==> (#[trigger] factors@[i]) == length_factor(lengths@[i], average, floats(*f)),
        decreases lengths@.len() - factors@.len(),
    {
        let at: usize = factors.len();
        let scaled: u64 = compute_times(f, THREE_QUARTERS, number_of_count(f, lengths[at]));
        let share: u64 = compute_plus(f, QUARTER, compute_over(f, scaled, average));
        factors.push(compute_times(f, BM25_SATURATION, share));
    }
    assert(factors@ =~= length_factors(lengths@, floats(*f)));
    factors
}

/// How often a word counts: the more, the fewer the rows that it stands in.
pub open spec fn rarity(rows: nat, holding: nat, floats: Floats) -> u64 {
    let frequency = count_number(floats, holding);
    let missing = plus(floats, minus(floats, count_number(floats, rows), frequency), HALF);
    number(
        floats,
        FloatTaskView::Logarithm(plus(floats, ONE, over(floats, missing, plus(floats, frequency, HALF)))),
    )
}

/// What the occurrences of a word in a row add to its score.
pub open spec fn gain(idf: u64, frequency: usize, factor: u64, floats: Floats) -> u64 {
    let tf = count_number(floats, frequency as nat);
    over(floats, times(floats, times(floats, idf, tf), BM25_GAIN), plus(floats, tf, factor))
}

/// The scores after the rows of a word from `from` on.
pub open spec fn scored_rows(
    rows: Seq<Occurrence>,
    idf: u64,
    factors: Seq<u64>,
    floats: Floats,
    from: nat,
    scores: Seq<u64>,
) -> Seq<u64>
    decreases rows.len() - from,
{
    if from >= rows.len() {
        scores
    } else {
        let at = rows[from as int].row as int;
        scored_rows(
            rows,
            idf,
            factors,
            floats,
            from + 1,
            scores.update(at, plus(floats, scores[at], gain(idf, rows[from as int].frequency, factors[at], floats))),
        )
    }
}

/// The scores after the words from `from` on.
pub open spec fn scored_terms(index: LexicalIndexView, terms: Seq<Seq<char>>, floats: Floats, from: nat, scores: Seq<u64>) -> Seq<u64>
    decreases terms.len() - from,
{
    if from >= terms.len() {
        scores
    } else {
        match posting_at(index.postings, terms[from as int], 0) {
            None => scored_terms(index, terms, floats, from + 1, scores),
            Some(at) => {
                let rows = index.postings[at as int].rows;
                scored_terms(
                    index,
                    terms,
                    floats,
                    from + 1,
                    scored_rows(
                        rows,
                        rarity(index.length_factors.len(), rows.len(), floats),
                        index.length_factors,
                        floats,
                        0,
                        scores,
                    ),
                )
            },
        }
    }
}

/// The score of every row for the words of a query.
pub open spec fn all_scores(index: LexicalIndexView, terms: Seq<Seq<char>>, floats: Floats) -> Seq<u64> {
    scored_terms(index, terms, floats, 0, Seq::new(index.length_factors.len(), |i: int| ZERO))
}

/// The rows from `from` on whose score is above zero, after `done`.
pub open spec fn matched(scores: Seq<u64>, from: nat, done: Seq<Weighted>) -> Seq<Weighted>
    decreases scores.len() - from,
{
    if from >= scores.len() {
        done
    } else if exceeds(scores[from as int], ZERO) {
        matched(scores, from + 1, done.push(Weighted { row: from as usize, weight: scores[from as int] }))
    } else {
        matched(scores, from + 1, done)
    }
}

/// The best `limit` rows for the words of a query, best first.
pub open spec fn best_rows(scores: Seq<u64>, chunks: Seq<Seq<ValueView>>, limit: nat, floats: Floats) -> Seq<Weighted> {
    first_of(weighted_sorted(chunks, matched(scores, 0, Seq::empty()), floats), limit)
}

impl LexicalIndex {
    /// Builds the index of the rows: of all their words, or of the words of one query. An index of
    /// all words that would be too large is none.
    pub fn build<F: Fn(FloatTask) -> FloatReply>(f: &F, rows: &Vec<Vec<Value>>, terms: Option<&Vec<String>>) -> (result: Result<
        Option<LexicalIndex>,
        Error,
    >)
        requires
            computes(*f),
            rows@.len() <= MAX_CHUNKS,
        ensures
            match result {
                Ok(Some(index)) => built(row_views(rows@), terms_view(terms), floats(*f)) == Ok::<
                    Option<LexicalIndexView>,
                    ErrorView,
                >(Some(index@)) && index@.valid() && index.length_factors@.len() == rows@.len(),
                Ok(None) => built(row_views(rows@), terms_view(terms), floats(*f)) == Ok::<
                    Option<LexicalIndexView>,
                    ErrorView,
                >(None),
                Err(error) => built(row_views(rows@), terms_view(terms), floats(*f)) == Err::<
                    Option<LexicalIndexView>,
                    ErrorView,
                >(error@),
            },
    {
        let ghost all = row_views(rows@);
        let ghost wanted = terms_view(terms);
        let ghost begin = BuildView { postings: Seq::empty(), bytes: 8 * rows@.len() };
        let whole = terms.is_none();
        let mut postings: Vec<Posting> = Vec::new();
        assert(views(postings@) =~= Seq::<PostingView>::empty());
        let mut lengths: Vec<usize> = Vec::new();
        let mut bytes: usize = 8 * rows.len();
        let ghost mut reached = 8 * rows@.len();
        let mut at: usize = 0;
        while at < rows.len()
            invariant
                computes(*f),
                all == row_views(rows@),
                wanted == terms_view(terms),
                whole == (wanted is None),
                begin == (BuildView { postings: Seq::<PostingView>::empty(), bytes: 8 * rows@.len() }),
                at <= rows@.len() <= MAX_CHUNKS,
                lengths@.len() == at,
                forall|i: int| 0 <= i < lengths@.len() ==> (#[trigger] lengths@[i]) <= 32768,
                bytes == saturated(reached),
                postings_below(views(postings@), at as nat),
                built_from(
                    all,
                    wanted,
                    at as nat,
                    lengths@,
                    (BuildView { postings: views(postings@), bytes: reached }),
                ) == built_from(all, wanted, 0, Seq::empty(), begin),
            decreases rows@.len() - at,
        {
            assert(all[at as int] == views(rows@[at as int]@));
            let text = text_at(&rows[at], 6)?;
            bounded_text(text, 32768, false, "stored embedding text")?;
            let (counts, length) = count_terms(text, terms);
            proof {
                lemma_bytes_cover(text@);
            }
            lengths.push(length);
            let (fits, Ghost(size)) = post_row(&mut postings, &mut bytes, counts, at, whole, Ghost(reached));
            if !fits {
                return Ok(None);
            }
            proof {
                reached = size;
            }
            at = at + 1;
        }
        if whole && measure_index(&postings, rows.len()) > LEXICAL_INDEX_BYTES {
            return Ok(None);
        }
        let factors = compute_factors(f, &lengths);
        Ok(Some(LexicalIndex { length_factors: factors, postings }))
    }

    fn score_rows<F: Fn(FloatTask) -> FloatReply>(&self, f: &F, at: usize, scores: &mut Vec<u64>)
        requires
            computes(*f),
            self@.valid(),
            at < self.postings@.len(),
            old(scores)@.len() == self.length_factors@.len(),
        ensures
            final(scores)@.len() == old(scores)@.len(),
            final(scores)@ == scored_rows(
                self@.postings[at as int].rows,
                rarity(self@.length_factors.len(), self@.postings[at as int].rows.len(), floats(*f)),
                self@.length_factors,
                floats(*f),
                0,
                old(scores)@,
            ),
    {
        let rows = &self.postings[at].rows;
        assert(self@.postings[at as int].rows == rows@);
        let frequency: u64 = number_of_count(f, rows.len());
        let missing: u64 = compute_plus(
            f,
            compute_minus(f, number_of_count(f, self.length_factors.len()), frequency),
            HALF,
        );
        let ratio: u64 = compute_over(f, missing, compute_plus(f, frequency, HALF));
        let idf: u64 = compute_number(f, FloatTask::Logarithm(compute_plus(f, ONE, ratio)));
        let mut index: usize = 0;
        while index < rows.len()
            invariant
                computes(*f),
                self@.valid(),
                at < self.postings@.len(),
                self@.postings[at as int].rows == rows@,
                scores@.len() == self.length_factors@.len(),
                scores@.len() == old(scores)@.len(),
                index <= rows@.len(),
                scored_rows(rows@, idf, self@.length_factors, floats(*f), index as nat, scores@) == scored_rows(
                    rows@,
                    idf,
                    self@.length_factors,
                    floats(*f),
                    0,
                    old(scores)@,
                ),
            decreases rows@.len() - index,
        {
            assert(self@.postings[at as int].rows[index as int].row < self.length_factors@.len());
            let row: usize = rows[index].row;
            let tf: u64 = number_of_count(f, rows[index].frequency);
            let denominator: u64 = compute_plus(f, tf, self.length_factors[row]);
            let product: u64 = compute_times(f, compute_times(f, idf, tf), BM25_GAIN);
            let added: u64 = compute_plus(f, scores[row], compute_over(f, product, denominator));
            scores.set(row, added);
            index = index + 1;
        }
    }

    /// The score of every row for the words of a query, and the best `limit` rows.
    pub fn score<F: Fn(FloatTask) -> FloatReply>(&self, f: &F, terms: &Vec<String>, chunks: &Vec<Vec<Value>>, limit: usize) -> (result: (
        Vec<u64>,
        Vec<Weighted>,
    ))
        requires
            computes(*f),
            self@.valid(),
            self.length_factors@.len() == chunks@.len(),
        ensures
            result.0@ == all_scores(self@, views(terms@), floats(*f)),
            result.0@.len() == chunks@.len(),
            result.1@ == best_rows(result.0@, row_views(chunks@), limit as nat, floats(*f)),
            result.1@.len() <= limit,
            rows_below(result.1@, chunks@.len()),
    {
        let ghost all = views(terms@);
        let ghost none = Seq::new(self@.length_factors.len(), |i: int| ZERO);
        let mut scores: Vec<u64> = Vec::new();
        while scores.len() < self.length_factors.len()
            invariant
                scores@.len() <= self.length_factors@.len(),
                forall|i: int| 0 <= i < scores@.len() ==> (#[trigger] scores@[i]) == ZERO,
            decreases self.length_factors@.len() - scores@.len(),
        {
            scores.push(ZERO);
        }
        assert(scores@ =~= none);
        let mut at: usize = 0;
        while at < terms.len()
            invariant
                computes(*f),
                self@.valid(),
                all == views(terms@),
                at <= terms@.len(),
                scores@.len() == self.length_factors@.len(),
                scored_terms(self@, all, floats(*f), at as nat, scores@) == scored_terms(self@, all, floats(*f), 0, none),
            decreases terms@.len() - at,
        {
            assert(all[at as int] == terms@[at as int]@);
            if let Some(place) = find_posting(&self.postings, terms[at].as_str()) {
                self.score_rows(f, place, &mut scores);
            }
            at = at + 1;
        }
        let mut ranked: Vec<Weighted> = Vec::new();
        let mut row: usize = 0;
        while row < scores.len()
            invariant
                row <= scores@.len(),
                scores@.len() == chunks@.len(),
                rows_below(ranked@, chunks@.len()),
                matched(scores@, row as nat, ranked@) == matched(scores@, 0, Seq::empty()),
            decreases scores@.len() - row,
        {
            if is_larger(scores[row], ZERO) {
                ranked.push(Weighted { row, weight: scores[row] });
            }
            row = row + 1;
        }
        let mut best = rank_weighted(f, chunks, &ranked);
        if best.len() > limit {
            best.truncate(limit);
        }
        assert(best@ =~= best_rows(scores@, row_views(chunks@), limit as nat, floats(*f)));
        (scores, best)
    }
}

} // verus!
