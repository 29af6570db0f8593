//! Which rows a join gives.

use vstd::prelude::*;
use crate::ast::ExprView;
use crate::candidate::CandidateView;
use crate::error::ErrorView;
use crate::eval::{evaluated, SchemaView, ScopeView};
use crate::float::Floats;
use crate::join::{stage_matches, StageView};
use crate::join_query::{emitted, visited, visited_matches, visited_rows, JoinOutputView, JoinStateView};
use crate::projection::{output_value, ProjectionView};
use crate::select::{output_values, row_candidate};
use crate::value::ValueView;

verus! {

/// Whether a condition is true of a joined row.
pub open spec fn holds_of(condition: ExprView, schema: SchemaView, row: Seq<ValueView>, floats: Floats) -> bool {
    evaluated(condition, ScopeView { schema, row, excluded: None }, floats) == Ok::<ValueView, ErrorView>(ValueView::Boolean(true))
}

/// Whether the row at a place of a joined table goes with a row: their keys are equal, and the
/// condition of the join is true of the two.
pub open spec fn goes_with(stage: StageView, row: Seq<ValueView>, at: int, floats: Floats) -> bool {
    &&& 0 <= at < stage.rows.len()
    &&& stage_matches(stage, row, floats).contains(at as usize)
    &&& holds_of(stage.on, stage.schema, row + stage.rows[at], floats)
}

/// As many values that are `NULL`.
pub open spec fn all_null(count: nat) -> Seq<ValueView> {
    Seq::new(count, |i: int| ValueView::Null)
}

/// Whether a row is one that the stages from `depth` on make of a row: at each stage it goes on with a
/// row of the joined table that goes with it, or, in an outer join where there is none, with `NULL`.
pub open spec fn joins(stages: Seq<StageView>, depth: nat, row: Seq<ValueView>, whole: Seq<ValueView>, floats: Floats) -> bool
    decreases stages.len() - depth,
{
    if depth >= stages.len() {
        whole == row
    } else {
        let stage = stages[depth as int];
        ||| exists|at: int| #[trigger] goes_with(stage, row, at, floats) && joins(stages, depth + 1, row + stage.rows[at], whole, floats)
        ||| stage.outer && (forall|at: int| !#[trigger] goes_with(stage, row, at, floats)) && joins(
            stages,
            depth + 1,
            row + all_null(stage.width),
            whole,
            floats,
        )
    }
}

/// Whether a candidate is made from a joined row that the condition of the query selects.
pub open spec fn made_of(output: JoinOutputView, whole: Seq<ValueView>, candidate: CandidateView, floats: Floats) -> bool {
    &&& output.selection matches Some(condition) ==> holds_of(condition, output.schema, whole, floats)
    &&& candidate.values.len() == output.projection.len()
    &&& forall|c: int|
        0 <= c < output.projection.len() ==> output_value(
            (#[trigger] output.projection[c]).output,
            ScopeView { schema: output.schema, row: whole, excluded: None },
            floats,
        ) == Ok::<ValueView, ErrorView>(candidate.values[c])
}

/// Whether the condition of a query selects a joined row.
pub open spec fn wanted(output: JoinOutputView, whole: Seq<ValueView>, floats: Floats) -> bool {
    output.selection matches Some(condition) ==> holds_of(condition, output.schema, whole, floats)
}

/// Whether one of some candidates is made from a joined row.
pub open spec fn given(output: JoinOutputView, whole: Seq<ValueView>, candidates: Seq<CandidateView>, floats: Floats) -> bool {
    exists|i: int| 0 <= i < candidates.len() && made_of(output, whole, #[trigger] candidates[i], floats)
}

/// Whether a candidate is made from a joined row that a row becomes.
spec fn comes_from(stages: Seq<StageView>, output: JoinOutputView, depth: nat, row: Seq<ValueView>, candidate: CandidateView, floats: Floats) -> bool {
    exists|whole: Seq<ValueView>| #[trigger]
        joins(stages, depth, row, whole, floats) && made_of(output, whole, candidate, floats)
}

/// Whether candidates are more than before by those that a row makes.
spec fn grown(
    stages: Seq<StageView>,
    output: JoinOutputView,
    depth: nat,
    row: Seq<ValueView>,
    before: Seq<CandidateView>,
    after: Seq<CandidateView>,
    floats: Floats,
) -> bool {
    &&& before.len() <= after.len()
    &&& forall|i: int| 0 <= i < before.len() ==> #[trigger] after[i] == before[i]
    &&& forall|i: int| before.len() <= i < after.len() ==> comes_from(stages, output, depth, row, #[trigger] after[i], floats)
}

proof fn lemma_outputs(projection: Seq<ProjectionView>, scope: ScopeView, floats: Floats, from: nat, done: Seq<ValueView>)
    requires
        from <= projection.len(),
        done.len() == from,
        forall|c: int|
            0 <= c < from ==> output_value((#[trigger] projection[c]).output, scope, floats) == Ok::<ValueView, ErrorView>(done[c]),
    ensures
        output_values(projection, scope, floats, from, done) matches Ok(values) ==> values.len() == projection.len() && forall|c: int|
            0 <= c < projection.len() ==> output_value((#[trigger] projection[c]).output, scope, floats) == Ok::<
                ValueView,
                ErrorView,
            >(values[c]),
    decreases projection.len() - from,
{
    if from < projection.len() {
        if let Ok(value) = output_value(projection[from as int].output, scope, floats) {
            lemma_outputs(projection, scope, floats, from + 1, done.push(value));
        }
    }
}

proof fn lemma_emitted(output: JoinOutputView, row: Seq<ValueView>, state: JoinStateView, floats: Floats)
    requires
        !output.distinct,
    ensures
        emitted(output, row, state, floats) matches Ok(after) ==> {
            &&& wanted(output, row, floats) ==> after.candidates.len() == state.candidates.len() + 1 && made_of(
                output,
                row,
                after.candidates.last(),
                floats,
            ) && after.candidates.drop_last() == state.candidates
            &&& !wanted(output, row, floats) ==> after.candidates == state.candidates
        },
{
    let scope = ScopeView { schema: output.schema, row, excluded: None };
    lemma_outputs(output.projection, scope, floats, 0, Seq::empty());
    if let Ok(Some(candidate)) = row_candidate(output.selection, output.projection, output.items, output.aliases, scope, floats) {
        assert(made_of(output, row, candidate, floats));
        assert(state.candidates.push(candidate).drop_last() =~= state.candidates);
    }
}

proof fn lemma_given_longer(output: JoinOutputView, whole: Seq<ValueView>, before: Seq<CandidateView>, after: Seq<CandidateView>, floats: Floats)
    requires
        given(output, whole, before, floats),
        before.len() <= after.len(),
        forall|i: int| 0 <= i < before.len() ==> #[trigger] after[i] == before[i],
    ensures
        given(output, whole, after, floats),
{
    let i = choose|i: int| 0 <= i < before.len() && made_of(output, whole, #[trigger] before[i], floats);
    assert(after[i] == before[i]);
}

/// How the matches from `from` on are visited.
proof fn lemma_step(
    stages: Seq<StageView>,
    output: JoinOutputView,
    depth: nat,
    row: Seq<ValueView>,
    matches: Seq<usize>,
    from: nat,
    matched: bool,
    state: JoinStateView,
    floats: Floats,
)
    requires
        depth < stages.len(),
        output.capacity is None,
    ensures
        ({
            let stage = stages[depth as int];
            let all = visited_matches(stages, output, depth, row, matches, from, matched, state, floats);
            if from >= matches.len() {
                if stage.outer && !matched {
                    all == visited(stages, output, depth + 1, row + all_null(stage.width), state.examined(), floats)
                } else {
                    all == Ok::<JoinStateView, ErrorView>(state)
                }
            } else {
                let next = row + stage.rows[matches[from as int] as int];
                all is Ok ==> if holds_of(stage.on, stage.schema, next, floats) {
                    visited(stages, output, depth + 1, next, state.examined(), floats) matches Ok(middle) && all == visited_matches(
                        stages,
                        output,
                        depth,
                        row,
                        matches,
                        from + 1,
                        true,
                        middle,
                        floats,
                    )
                } else {
                    all == visited_matches(stages, output, depth, row, matches, from + 1, matched, state.examined(), floats)
                }
            }
        }),
{
    reveal(visited);
    let stage = stages[depth as int];
    assert(crate::join_query::nulls(stage.width) =~= all_null(stage.width));
}

/// How a row is visited.
proof fn lemma_start(stages: Seq<StageView>, output: JoinOutputView, depth: nat, row: Seq<ValueView>, state: JoinStateView, floats: Floats)
    ensures
        visited(stages, output, depth, row, state, floats) == if depth >= stages.len() {
            emitted(output, row, state, floats)
        } else {
            visited_matches(
                stages,
                output,
                depth,
                row,
                stage_matches(stages[depth as int], row, floats),
                0,
                false,
                state,
                floats,
            )
        },
{
    reveal(visited);
}

proof fn lemma_last(stages: Seq<StageView>, output: JoinOutputView, depth: nat, row: Seq<ValueView>, state: JoinStateView, floats: Floats)
    requires
        !output.distinct,
        depth >= stages.len(),
    ensures
        emitted(output, row, state, floats) matches Ok(after) ==> grown(
            stages,
            output,
            depth,
            row,
            state.candidates,
            after.candidates,
            floats,
        ) && forall|whole: Seq<ValueView>| #[trigger]
            joins(stages, depth, row, whole, floats) && wanted(output, whole, floats) ==> given(output, whole, after.candidates, floats),
{
    lemma_emitted(output, row, state, floats);
    if let Ok(after) = emitted(output, row, state, floats) {
        assert(joins(stages, depth, row, row, floats));
        assert forall|i: int| state.candidates.len() <= i < after.candidates.len() implies comes_from(
            stages,
            output,
            depth,
            row,
            #[trigger] after.candidates[i],
            floats,
        ) by {
            assert(after.candidates[i] == after.candidates.last());
        }
        assert forall|i: int| 0 <= i < state.candidates.len() implies #[trigger] after.candidates[i] == state.candidates[i] by {
            if wanted(output, row, floats) {
                assert(after.candidates.drop_last()[i] == state.candidates[i]);
            }
        }
        assert forall|whole: Seq<ValueView>| #[trigger]
            joins(stages, depth, row, whole, floats) && wanted(output, whole, floats) implies given(
            output,
            whole,
            after.candidates,
            floats,
        ) by {
            assert(whole == row);
            assert(after.candidates[after.candidates.len() - 1] == after.candidates.last());
        }
    }
}

proof fn lemma_cover(
    stages: Seq<StageView>,
    output: JoinOutputView,
    depth: nat,
    row: Seq<ValueView>,
    whole: Seq<ValueView>,
    candidates: Seq<CandidateView>,
    floats: Floats,
)
    requires
        depth < stages.len(),
        stages[depth as int].rows.len() <= usize::MAX,
        joins(stages, depth, row, whole, floats),
        forall|k: int|
            0 <= k < stage_matches(stages[depth as int], row, floats).len() && goes_with(
                stages[depth as int],
                row,
                (#[trigger] stage_matches(stages[depth as int], row, floats)[k]) as int,
                floats,
            ) && joins(
                stages,
                depth + 1,
                row + stages[depth as int].rows[stage_matches(stages[depth as int], row, floats)[k] as int],
                whole,
                floats,
            ) ==> given(output, whole, candidates, floats),
        (stages[depth as int].outer && forall|at: int| !#[trigger] goes_with(stages[depth as int], row, at, floats)) && joins(
            stages,
            depth + 1,
            row + all_null(stages[depth as int].width),
            whole,
            floats,
        ) ==> given(output, whole, candidates, floats),
    ensures
        given(output, whole, candidates, floats),
{
    let stage = stages[depth as int];
    let matches = stage_matches(stage, row, floats);
    if exists|at: int| #[trigger] goes_with(stage, row, at, floats) && joins(stages, depth + 1, row + stage.rows[at], whole, floats) {
        let at = choose|at: int| #[trigger]
            goes_with(stage, row, at, floats) && joins(stages, depth + 1, row + stage.rows[at], whole, floats);
        let k = choose|k: int| 0 <= k < matches.len() && matches[k] == at as usize;
        assert(matches[k] as int == at);
    }
}

proof fn lemma_visited(stages: Seq<StageView>, output: JoinOutputView, depth: nat, row: Seq<ValueView>, state: JoinStateView, floats: Floats)
    requires
        !output.distinct,
        output.capacity is None,
        forall|d: int| 0 <= d < stages.len() ==> (#[trigger] stages[d]).rows.len() <= usize::MAX,
        depth <= stages.len(),
    ensures
        visited(stages, output, depth, row, state, floats) matches Ok(after) ==> grown(
            stages,
            output,
            depth,
            row,
            state.candidates,
            after.candidates,
            floats,
        ) && forall|whole: Seq<ValueView>| #[trigger]
            joins(stages, depth, row, whole, floats) && wanted(output, whole, floats) ==> given(output, whole, after.candidates, floats),
    decreases stages.len() - depth, 1nat, 0nat,
{
    lemma_start(stages, output, depth, row, state, floats);
    if depth >= stages.len() {
        lemma_last(stages, output, depth, row, state, floats);
    } else {
        let stage = stages[depth as int];
        let matches = stage_matches(stage, row, floats);
        lemma_matches_within(stage, row, floats);
        lemma_visited_matches(stages, output, depth, row, matches, 0, false, state, floats);
        if let Ok(after) = visited(stages, output, depth, row, state, floats) {
            assert forall|whole: Seq<ValueView>| #[trigger]
                joins(stages, depth, row, whole, floats) && wanted(output, whole, floats) implies given(
                output,
                whole,
                after.candidates,
                floats,
            ) by {
                lemma_cover(stages, output, depth, row, whole, after.candidates, floats);
            }
        }
    }
}

proof fn lemma_matches_within(stage: StageView, row: Seq<ValueView>, floats: Floats)
    requires
        stage.rows.len() <= usize::MAX,
    ensures
        forall|k: int|
            0 <= k < stage_matches(stage, row, floats).len() ==> (#[trigger] stage_matches(stage, row, floats)[k]) < stage.rows.len(),
{
    if let Some(key) = crate::join::join_key(row[stage.left_key as int], stage.numeric_coercion, floats) {
        lemma_matching_within(stage, key, floats, stage.rows.len());
    }
}

proof fn lemma_matching_within(stage: StageView, key: ValueView, floats: Floats, count: nat)
    requires
        count <= stage.rows.len() <= usize::MAX,
    ensures
        ({
            let found = crate::join::join_matching(
                stage.rows,
                stage.right_key as int,
                key,
                stage.numeric_coercion,
                floats,
                count,
            );
            forall|k: int| 0 <= k < found.len() ==> (#[trigger] found[k]) < count
        }),
    decreases count,
{
    if count > 0 {
        lemma_matching_within(stage, key, floats, (count - 1) as nat);
        let before = crate::join::join_matching(
            stage.rows,
            stage.right_key as int,
            key,
            stage.numeric_coercion,
            floats,
            (count - 1) as nat,
        );
        let found = crate::join::join_matching(stage.rows, stage.right_key as int, key, stage.numeric_coercion, floats, count);
        assert(found == before || found == before.push((count - 1) as usize));
        assert forall|k: int| 0 <= k < found.len() implies (#[trigger] found[k]) < count by {
            if k < before.len() {
                assert(found[k] == before[k]);
            }
        }
    }
}

#[verifier::rlimit(40)]
proof fn lemma_visited_matches(
    stages: Seq<StageView>,
    output: JoinOutputView,
    depth: nat,
    row: Seq<ValueView>,
    matches: Seq<usize>,
    from: nat,
    matched: bool,
    state: JoinStateView,
    floats: Floats,
)
    requires
        !output.distinct,
        output.capacity is None,
        forall|d: int| 0 <= d < stages.len() ==> (#[trigger] stages[d]).rows.len() <= usize::MAX,
        depth < stages.len(),
        from <= matches.len(),
        matches == stage_matches(stages[depth as int], row, floats),
        forall|k: int| 0 <= k < matches.len() ==> (#[trigger] matches[k]) < stages[depth as int].rows.len(),
        matched <==> exists|k: int| 0 <= k < from && goes_with(stages[depth as int], row, (#[trigger] matches[k]) as int, floats),
    ensures
        visited_matches(stages, output, depth, row, matches, from, matched, state, floats) matches Ok(after) ==> {
            &&& grown(stages, output, depth, row, state.candidates, after.candidates, floats)
            &&& forall|k: int, whole: Seq<ValueView>|
                from <= k < matches.len() && goes_with(stages[depth as int], row, (#[trigger] matches[k]) as int, floats) && #[trigger] joins(
                    stages,
                    depth + 1,
                    row + stages[depth as int].rows[matches[k] as int],
                    whole,
                    floats,
                ) && wanted(output, whole, floats) ==> given(output, whole, after.candidates, floats)
            &&& (stages[depth as int].outer && forall|at: int| !#[trigger] goes_with(stages[depth as int], row, at, floats)) ==> forall|
                whole: Seq<ValueView>,
            | #[trigger]
                joins(stages, depth + 1, row + all_null(stages[depth as int].width), whole, floats) && wanted(output, whole, floats)
                    ==> given(output, whole, after.candidates, floats)
        },
    decreases stages.len() - depth, 0nat, matches.len() - from,
{
    let stage = stages[depth as int];
    lemma_step(stages, output, depth, row, matches, from, matched, state, floats);
    if from >= matches.len() {
        if stage.outer && !matched {
            let next = row + all_null(stage.width);
            assert(crate::join_query::nulls(stage.width) =~= all_null(stage.width));
            lemma_visited(stages, output, depth + 1, next, state.examined(), floats);
            assert forall|at: int| !#[trigger] goes_with(stage, row, at, floats) by {
                if goes_with(stage, row, at, floats) {
                    let k = choose|k: int| 0 <= k < matches.len() && matches[k] == at as usize;
                    assert(goes_with(stage, row, matches[k] as int, floats));
                }
            }
            if let Ok(after) = visited(stages, output, depth + 1, next, state.examined(), floats) {
                assert forall|i: int| state.candidates.len() <= i < after.candidates.len() implies comes_from(
                    stages,
                    output,
                    depth,
                    row,
                    #[trigger] after.candidates[i],
                    floats,
                ) by {
                    assert(comes_from(stages, output, depth + 1, next, after.candidates[i], floats));
                    let whole = choose|whole: Seq<ValueView>| #[trigger]
                        joins(stages, depth + 1, next, whole, floats) && made_of(output, whole, after.candidates[i], floats);
                    assert(joins(stages, depth, row, whole, floats));
                }
            }
        } else if matched {
            let k = choose|k: int| 0 <= k < from && goes_with(stage, row, (#[trigger] matches[k]) as int, floats);
            assert(goes_with(stage, row, matches[k] as int, floats));
        }
    } else {
        let at = matches[from as int] as int;
        let next = row + stage.rows[at];
        assert(matches.contains(at as usize));
        let fits = holds_of(stage.on, stage.schema, next, floats);
        assert(goes_with(stage, row, at, floats) == fits);
        if visited_matches(stages, output, depth, row, matches, from, matched, state, floats) is Ok {
            if !fits {
                lemma_visited_matches(stages, output, depth, row, matches, from + 1, matched, state.examined(), floats);
            } else {
                lemma_visited(stages, output, depth + 1, next, state.examined(), floats);
                let middle = visited(stages, output, depth + 1, next, state.examined(), floats)->Ok_0;
                assert(grown(stages, output, depth + 1, next, state.candidates, middle.candidates, floats));
                assert(goes_with(stage, row, matches[from as int] as int, floats));
                lemma_visited_matches(stages, output, depth, row, matches, from + 1, true, middle, floats);
                let after = visited_matches(stages, output, depth, row, matches, from + 1, true, middle, floats)->Ok_0;
                assert(grown(stages, output, depth, row, middle.candidates, after.candidates, floats));
                assert forall|i: int| state.candidates.len() <= i < after.candidates.len() implies comes_from(
                    stages,
                    output,
                    depth,
                    row,
                    #[trigger] after.candidates[i],
                    floats,
                ) by {
                    if i < middle.candidates.len() {
                        assert(after.candidates[i] == middle.candidates[i]);
                        assert(comes_from(stages, output, depth + 1, next, middle.candidates[i], floats));
                        let whole = choose|whole: Seq<ValueView>| #[trigger]
                            joins(stages, depth + 1, next, whole, floats) && made_of(output, whole, middle.candidates[i], floats);
                        assert(joins(stages, depth, row, whole, floats));
                    }
                }
                assert forall|i: int| 0 <= i < state.candidates.len() implies #[trigger] after.candidates[i] == state.candidates[i] by {
                    assert(middle.candidates[i] == state.candidates[i]);
                }
                assert forall|k: int, whole: Seq<ValueView>|
                    from <= k < matches.len() && goes_with(stage, row, (#[trigger] matches[k]) as int, floats) && #[trigger] joins(
                        stages,
                        depth + 1,
                        row + stage.rows[matches[k] as int],
                        whole,
                        floats,
                    ) && wanted(output, whole, floats) implies given(output, whole, after.candidates, floats) by {
                    if k == from {
                        lemma_given_longer(output, whole, middle.candidates, after.candidates, floats);
                    }
                }
            }
        }
    }
}

/// Whether a joined row comes from a row of the first table.
pub open spec fn joined_row(stages: Seq<StageView>, rows: Seq<Seq<ValueView>>, at: int, whole: Seq<ValueView>, floats: Floats) -> bool {
    0 <= at < rows.len() && joins(stages, 0, rows[at], whole, floats)
}

/// Whether a candidate is made from a joined row.
pub open spec fn derived(
    stages: Seq<StageView>,
    output: JoinOutputView,
    rows: Seq<Seq<ValueView>>,
    candidate: CandidateView,
    floats: Floats,
) -> bool {
    exists|at: int, whole: Seq<ValueView>| #[trigger]
        joined_row(stages, rows, at, whole, floats) && made_of(output, whole, candidate, floats)
}

proof fn lemma_visited_rows(
    stages: Seq<StageView>,
    output: JoinOutputView,
    rows: Seq<Seq<ValueView>>,
    from: nat,
    state: JoinStateView,
    floats: Floats,
)
    requires
        !output.distinct,
        output.capacity is None,
        forall|d: int| 0 <= d < stages.len() ==> (#[trigger] stages[d]).rows.len() <= usize::MAX,
        from <= rows.len(),
        forall|i: int|
            0 <= i < state.candidates.len() ==> derived(
                stages,
                output,
                rows,
                #[trigger] state.candidates[i],
                floats,
            ),
        forall|at: int, whole: Seq<ValueView>| #[trigger]
            joined_row(stages, rows, at, whole, floats) && at < from && wanted(output, whole, floats) ==> given(
                output,
                whole,
                state.candidates,
                floats,
            ),
    ensures
        visited_rows(stages, output, rows, from, state, floats) matches Ok(after) ==> {
            &&& forall|i: int|
                0 <= i < after.candidates.len() ==> derived(
                    stages,
                    output,
                    rows,
                    #[trigger] after.candidates[i],
                    floats,
                )
            &&& forall|at: int, whole: Seq<ValueView>| #[trigger]
                joined_row(stages, rows, at, whole, floats) && wanted(output, whole, floats) ==> given(
                    output,
                    whole,
                    after.candidates,
                    floats,
                )
        },
    decreases rows.len() - from,
{
    if from < rows.len() {
        let row = rows[from as int];
        lemma_visited(stages, output, 0, row, state, floats);
        if let Ok(after) = visited(stages, output, 0, row, state, floats) {
            assert forall|i: int| 0 <= i < after.candidates.len() implies derived(
                stages,
                output,
                rows,
                #[trigger] after.candidates[i],
                floats,
            ) by {
                if i < state.candidates.len() {
                    assert(after.candidates[i] == state.candidates[i]);
                } else {
                    assert(comes_from(stages, output, 0, row, after.candidates[i], floats));
                    let whole = choose|whole: Seq<ValueView>| #[trigger]
                        joins(stages, 0, row, whole, floats) && made_of(output, whole, after.candidates[i], floats);
                    assert(joined_row(stages, rows, from as int, whole, floats));
                }
            }
            assert forall|at: int, whole: Seq<ValueView>| #[trigger]
                joined_row(stages, rows, at, whole, floats) && at < from + 1 && wanted(output, whole, floats) implies given(
                output,
                whole,
                after.candidates,
                floats,
            ) by {
                if at < from {
                    lemma_given_longer(output, whole, state.candidates, after.candidates, floats);
                }
            }
            lemma_visited_rows(stages, output, rows, from + 1, after, floats);
        }
    }
}

/// A join gives the rows that go together: every row of the first table with each row of the next
/// whose key is equal and for which the condition of the join is true, and so on; in a left join, a
/// row with which none goes is given with `NULL` in place of the joined table. Of these it gives those
/// that the condition of the query selects, and nothing else.
pub proof fn law_joined_rows(stages: Seq<StageView>, output: JoinOutputView, rows: Seq<Seq<ValueView>>, floats: Floats)
    requires
        !output.distinct,
        output.capacity is None,
        forall|d: int| 0 <= d < stages.len() ==> (#[trigger] stages[d]).rows.len() <= usize::MAX,
    ensures
        visited_rows(stages, output, rows, 0, JoinStateView::start(), floats) matches Ok(after) ==> {
            &&& forall|i: int|
                0 <= i < after.candidates.len() ==> derived(
                    stages,
                    output,
                    rows,
                    #[trigger] after.candidates[i],
                    floats,
                )
            &&& forall|at: int, whole: Seq<ValueView>| #[trigger]
                joined_row(stages, rows, at, whole, floats) && wanted(output, whole, floats) ==> given(
                    output,
                    whole,
                    after.candidates,
                    floats,
                )
        },
{
    lemma_visited_rows(stages, output, rows, 0, JoinStateView::start(), floats);
}

/// An inner join keeps only rows that match; a left join keeps the others too.
pub proof fn law_join_kinds(operator: crate::ast::JoinOperatorView)
    ensures
        operator matches crate::ast::JoinOperatorView::Inner(on) ==> crate::join::join_condition(operator) == Ok::<
            (bool, ExprView),
            ErrorView,
        >((false, on)),
        operator matches crate::ast::JoinOperatorView::LeftOuter(on) ==> crate::join::join_condition(operator) == Ok::<
            (bool, ExprView),
            ErrorView,
        >((true, on)),
        operator is Other ==> crate::join::join_condition(operator) is Err,
{
}

} // verus!
