//! What holds of every floor plan: general statements about the two counts,
//! each proved from the model of the walk.
use crate::grid::{
    cols_of, grid_len_of, is_grid, lemma_find_from, lemma_find_from_update,
    lemma_grid_measures, line_len_of, obstacles, patrol_floor, rows_of, start_of, NEWLINE,
    OBSTACLE, START,
};
use crate::margin::{
    cols, lemma_trapped_guard_repeats, lemma_visited_cells_open, on_margin, open_cells,
    reaches_margin, rows,
};
use crate::patrol::{is_candidate, lemma_placements_before, loop_placements, traps};
use crate::walk::{
    escapes, free_cells, guard_at, lemma_gone_stays_gone, lemma_visited_cells_bounded,
    lemma_visited_cells_free, stands_on, visited_cells, Floor,
};
use vstd::prelude::*;

verus! {

/// The guard of a floor plan starts on a free cell of a grid of whole rows,
/// and the measures of the floor are those of the plan.
pub proof fn lemma_plan_floor(text: Seq<u8>)
    requires
        is_grid(text),
    ensures
        patrol_floor(text).wf(),
        !on_margin(patrol_floor(text), start_of(text)),
        !obstacles(text).contains(start_of(text)),
        rows(patrol_floor(text)) == rows_of(text),
        cols(patrol_floor(text)) == cols_of(text),
{
    lemma_grid_measures(text);
    lemma_find_from(text, START, 0);
    vstd::arithmetic::div_mod::lemma_div_by_multiple(rows_of(text), line_len_of(text));
}

/// The traversal count of every floor plan is at least one: the guard visits
/// the cell it starts on.
pub proof fn lemma_traversal_count_at_least_one(text: Seq<u8>)
    requires
        is_grid(text),
    ensures
        visited_cells(patrol_floor(text)).contains(start_of(text)),
        visited_cells(patrol_floor(text)).len() >= 1,
{
    lemma_plan_floor(text);
    lemma_visited_cells_bounded(patrol_floor(text));
}

/// The traversal count of every floor plan is at most the number of
/// positions of its grid that hold no obstacle. Counted in cells alone, the
/// row terminators left out, it is at most the number of cells without
/// obstacle, and one more where the guard leaves the grid eastwards, over
/// the terminator position of a row.
pub proof fn lemma_traversal_count_at_most_free(text: Seq<u8>)
    requires
        is_grid(text),
    ensures
        visited_cells(patrol_floor(text)).subset_of(free_cells(patrol_floor(text))),
        visited_cells(patrol_floor(text)).len() <= free_cells(patrol_floor(text)).len(),
        visited_cells(patrol_floor(text)).len() <= open_cells(patrol_floor(text)).len()
            + if reaches_margin(patrol_floor(text)) {
            1int
        } else {
            0int
        },
{
    lemma_plan_floor(text);
    lemma_visited_cells_free(patrol_floor(text));
    lemma_visited_cells_open(patrol_floor(text));
}

/// Neither count exceeds the number of positions of the grid, which is the
/// length of the plan, and one more where the last row has no terminator. A
/// plan of fewer than `u32::MAX` bytes therefore has counts that `part1` and
/// `part2` can return.
pub proof fn lemma_counts_bounded(text: Seq<u8>)
    requires
        is_grid(text),
    ensures
        visited_cells(patrol_floor(text)).len() <= grid_len_of(text),
        loop_placements(text).len() <= grid_len_of(text),
        grid_len_of(text) <= text.len() + 1,
{
    lemma_grid_measures(text);
    lemma_visited_cells_bounded(patrol_floor(text));
    lemma_placements_before(text, 0);
}

/// The traversal count is a function of the plan alone: two counts that
/// both are what `part1` returns for a plan are the same number.
pub proof fn lemma_traversal_count_repeatable(text: Seq<u8>, first: u32, second: u32)
    requires
        first == visited_cells(patrol_floor(text)).len(),
        second == visited_cells(patrol_floor(text)).len(),
    ensures
        first == second,
{
}

/// A guard that starts in the first row leaves the grid with its first move
/// and visits nothing but its starting cell.
pub proof fn lemma_start_in_first_row(floor: Floor)
    requires
        0 <= floor.start < floor.line_len,
    ensures
        guard_at(floor, 1) is None,
        escapes(floor),
        visited_cells(floor) == set![floor.start],
{
    assert(stands_on(floor, 0, floor.start));
    assert forall|pos: int| visited_cells(floor).contains(pos) implies pos == floor.start by {
        let n = choose|n: nat| stands_on(floor, n, pos);
        if n > 0 {
            lemma_gone_stays_gone(floor, 1, n);
        }
    }
}

/// The loop search counts no placement on the cell where the guard starts,
/// on a cell that holds an obstacle already, or on a row terminator.
pub proof fn lemma_placements_are_free_cells(text: Seq<u8>, pos: int)
    requires
        is_grid(text),
        loop_placements(text).contains(pos),
    ensures
        pos != start_of(text),
        !obstacles(text).contains(pos),
        0 <= pos < text.len(),
        text[pos] != OBSTACLE,
        text[pos] != NEWLINE,
{
    lemma_grid_measures(text);
}

/// To try an obstacle at a candidate cell is to walk the plan in which that
/// cell is overwritten with an obstacle: the overwritten text is a floor
/// plan again, with the same measures and start, and one more obstacle.
pub proof fn lemma_placement_is_substitution(text: Seq<u8>, pos: int)
    requires
        is_grid(text),
        is_candidate(text, pos),
    ensures
        0 <= pos < text.len(),
        is_grid(text.update(pos, OBSTACLE)),
        patrol_floor(text.update(pos, OBSTACLE)) == patrol_floor(text).with_obstacle(pos),
{
    lemma_grid_measures(text);
    lemma_find_from(text, START, 0);
    lemma_find_from_update(text, NEWLINE, pos, OBSTACLE, 0);
    lemma_find_from_update(text, START, pos, OBSTACLE, 0);
    assert(obstacles(text.update(pos, OBSTACLE)) =~= obstacles(text).insert(pos));
}

/// A placement that the loop search counts traps the guard in earnest: in
/// the plan with the obstacle written into that cell the guard never leaves
/// the grid, and it is back in an earlier state within four states for every
/// cell of the plan.
pub proof fn lemma_counted_placement_traps(text: Seq<u8>, pos: int) -> (pair: (nat, nat))
    requires
        is_grid(text),
        loop_placements(text).contains(pos),
    ensures
        0 <= pos < text.len(),
        is_grid(text.update(pos, OBSTACLE)),
        !escapes(patrol_floor(text.update(pos, OBSTACLE))),
        pair.0 < pair.1 <= 4 * rows_of(text) * cols_of(text),
        guard_at(patrol_floor(text.update(pos, OBSTACLE)), pair.0) is Some,
        guard_at(patrol_floor(text.update(pos, OBSTACLE)), pair.0) == guard_at(
            patrol_floor(text.update(pos, OBSTACLE)),
            pair.1,
        ),
{
    lemma_placement_is_substitution(text, pos);
    lemma_plan_floor(text);
    lemma_trapped_guard_repeats(patrol_floor(text).with_obstacle(pos))
}

} // verus!
