//! The chunks nearest to a vector.

use vstd::prelude::*;
use crate::arithmetic::{clamp_number, clamped, compute_minus, minus, MINUS_ONE, ONE};
use crate::error::{plain, Error, ErrorView};
use crate::float::{computes, floats, number_rank, rank_numbers, scored, FloatReply, FloatTask, Floats, Metric};
use crate::graph::{invalid, misuse};
use crate::order::{sort_positions, sorted, Precedes};
use crate::text::{views, Rank};
use crate::value::{known_rank, row_views, Value, ValueView};
use crate::vector::Vector;

verus! {

/// The cosine distance of a chunk to a vector.
pub open spec fn chunk_distance(row: Seq<ValueView>, query: Seq<u32>, floats: Floats) -> Result<u64, ErrorView> {
    if row.len() > 8 && row[8] is Vector {
        scored(floats, Metric::Cosine, row[8]->Vector_0, query)
    } else {
        Err(misuse("graph chunk embedding is missing"@))
    }
}

pub fn measure_chunk<F: Fn(FloatTask) -> FloatReply>(f: &F, row: &Vec<Value>, query: &Vector) -> (result: Result<u64, Error>)
    requires
        computes(*f),
    ensures
        plain(result) == chunk_distance(views(row@), query@, floats(*f)),
{
    if row.len() > 8 {
        assert(views(row@)[8] == row@[8]@);
        if let Value::Vector(vector) = &row[8] {
            return Metric::Cosine.score(f, vector, query);
        }
    }
    Err(invalid("graph chunk embedding is missing"))
}

/// The distance from the query to the vector of a row.
pub open spec fn query_distance(row: Seq<ValueView>, query: Seq<u32>, floats: Floats) -> Result<u64, ErrorView> {
    if row.len() > 8 && row[8] is Vector {
        scored(floats, Metric::Cosine, query, row[8]->Vector_0)
    } else {
        Err(misuse("graph chunk embedding is missing"@))
    }
}

pub fn measure_query<F: Fn(FloatTask) -> FloatReply>(f: &F, row: &Vec<Value>, query: &Vector) -> (result: Result<u64, Error>)
    requires
        computes(*f),
    ensures
        plain(result) == query_distance(views(row@), query@, floats(*f)),
{
    if row.len() > 8 {
        assert(views(row@)[8] == row@[8]@);
        if let Value::Vector(vector) = &row[8] {
            return Metric::Cosine.score(f, query, vector);
        }
    }
    Err(invalid("graph chunk embedding is missing"))
}

/// The distances of the chunks from `from` on, after `done`.
pub open spec fn distances_from(rows: Seq<Seq<ValueView>>, query: Seq<u32>, floats: Floats, from: nat, done: Seq<u64>) -> Result<
    Seq<u64>,
    ErrorView,
>
    decreases rows.len() - from,
{
    if from >= rows.len() {
        Ok(done)
    } else {
        match chunk_distance(rows[from as int], query, floats) {
            Err(error) => Err(error),
            Ok(distance) => distances_from(rows, query, floats, from + 1, done.push(distance)),
        }
    }
}

/// Whether one distance is smaller than another.
pub open spec fn distance_order(distances: Seq<u64>) -> Precedes {
    |a: usize, b: usize| known_rank(number_rank(distances[a as int], distances[b as int])) == Rank::Before
}

/// A chunk with its distance.
#[derive(Clone, Copy, Debug)]
pub struct NearChunk {
    pub row: usize,
    pub distance: u64,
}

/// The `limit` chunks nearest to a vector, nearest first, those at the same distance in their order.
pub open spec fn nearest(rows: Seq<Seq<ValueView>>, query: Seq<u32>, limit: nat, floats: Floats) -> Result<Seq<NearChunk>, ErrorView> {
    match distances_from(rows, query, floats, 0, Seq::empty()) {
        Err(error) => Err(error),
        Ok(distances) => {
            let order = sorted(distances.len() as usize, distance_order(distances));
            let count = if limit < order.len() {
                limit
            } else {
                order.len()
            };
            Ok(
                order.take(count as int).map_values(
                    |at: usize| NearChunk { row: at, distance: distances[at as int] },
                ),
            )
        },
    }
}

fn measure_chunks<F: Fn(FloatTask) -> FloatReply>(f: &F, rows: &Vec<Vec<Value>>, query: &Vector) -> (result: Result<Vec<u64>, Error>)
    requires
        computes(*f),
    ensures
        match result {
            Ok(distances) => distances_from(row_views(rows@), query@, floats(*f), 0, Seq::empty()) == Ok::<
                Seq<u64>,
                ErrorView,
            >(distances@) && distances@.len() == rows@.len(),
            Err(error) => distances_from(row_views(rows@), query@, floats(*f), 0, Seq::empty()) == Err::<
                Seq<u64>,
                ErrorView,
            >(error@),
        },
{
    let mut distances: Vec<u64> = Vec::new();
    while distances.len() < rows.len()
        invariant
            computes(*f),
            distances@.len() <= rows@.len(),
            distances_from(row_views(rows@), query@, floats(*f), distances@.len(), distances@) == distances_from(
                row_views(rows@),
                query@,
                floats(*f),
                0,
                Seq::empty(),
            ),
        decreases rows@.len() - distances@.len(),
    {
        let index: usize = distances.len();
        assert(row_views(rows@)[index as int] == views(rows@[index as int]@));
        let distance: u64 = measure_chunk(f, &rows[index], query)?;
        distances.push(distance);
    }
    Ok(distances)
}

/// The `limit` chunks nearest to a vector, nearest first.
pub fn nearest_chunks<F: Fn(FloatTask) -> FloatReply>(f: &F, rows: &Vec<Vec<Value>>, query: &Vector, limit: usize) -> (result:
    Result<Vec<NearChunk>, Error>)
    requires
        computes(*f),
    ensures
        match result {
            Ok(found) => nearest(row_views(rows@), query@, limit as nat, floats(*f)) == Ok::<
                Seq<NearChunk>,
                ErrorView,
            >(found@) && found@.len() <= limit && found@.len() <= rows@.len() && forall|i: int|
                0 <= i < found@.len() ==> (#[trigger] found@[i]).row < rows@.len(),
            Err(error) => nearest(row_views(rows@), query@, limit as nat, floats(*f)) == Err::<
                Seq<NearChunk>,
                ErrorView,
            >(error@),
        },
{
    let distances = measure_chunks(f, rows, query)?;
    let ghost before = distance_order(distances@);
    let precedes = |a: usize, b: usize| -> (result: bool)
        requires
            a < distances@.len(),
            b < distances@.len(),
        ensures
            result == before(a, b),
        {
            match rank_numbers(distances[a], distances[b]) {
                Some(Rank::Before) => true,
                _ => false,
            }
        };
    let order = sort_positions(distances.len(), &precedes, Ghost(before));
    let count: usize = if limit < order.len() {
        limit
    } else {
        order.len()
    };
    let mut found: Vec<NearChunk> = Vec::new();
    while found.len() < count
        invariant
            count <= order@.len(),
            found@.len() <= count,
            order@.len() == distances@.len(),
            forall|i: int| 0 <= i < order@.len() ==> (#[trigger] order@[i]) < distances@.len(),
            forall|i: int|
                0 <= i < found@.len() ==> (#[trigger] found@[i]) == (NearChunk {
                    row: order@[i],
                    distance: distances@[order@[i] as int],
                }),
        decreases count - found@.len(),
    {
        let at: usize = order[found.len()];
        found.push(NearChunk { row: at, distance: distances[at] });
    }
    assert(found@ =~= order@.take(count as int).map_values(
        |at: usize| NearChunk { row: at, distance: distances@[at as int] },
    ));
    Ok(found)
}

/// How alike two vectors at this cosine distance are.
pub open spec fn similarity(distance: u64, floats: Floats) -> u64 {
    clamped(minus(floats, ONE, distance), MINUS_ONE, ONE)
}

pub fn similarity_of<F: Fn(FloatTask) -> FloatReply>(f: &F, distance: u64) -> (result: u64)
    requires
        computes(*f),
    ensures
        result == similarity(distance, floats(*f)),
{
    clamp_number(compute_minus(f, ONE, distance), MINUS_ONE, ONE)
}

} // verus!
