//! The two questions asked of a floor plan, and the searches that answer
//! them.
use crate::bitset::{lemma_cleared, mark_visited, marked};
use crate::direction::Dir;
use crate::grid::{
    cols_of, floor_of, grid_len_of, is_grid, lemma_grid_measures, line_len_of, obstacles, parse,
    patrol_floor, start_of, NEWLINE, OBSTACLE,
};
use crate::walk::{
    escapes, free_cells, guard_at, lemma_gone_stays_gone, lemma_long_walk_repeats,
    lemma_repeat_never_escapes, lemma_trail_complete, lemma_trail_within_visited,
    lemma_visited_cells_bounded, lemma_visited_cells_free, state_code, trail, visited_cells,
    Guard,
};
use std::collections::HashSet;
use vstd::pervasive::unreached;
use vstd::prelude::*;
use vstd::set_lib::{lemma_int_range, lemma_len_subset, set_int_range};
use vstd::string::StringSliceAdditionalSpecFns;

verus! {

/// The key under which a state is remembered.
fn state_key(pos: usize, dir: Dir) -> (key: u128)
    ensures
        key == state_code(Guard { pos: pos as int, dir }),
{
    let turn: u128 = match dir {
        Dir::N => 0,
        Dir::E => 1,
        Dir::S => 2,
        Dir::W => 3,
    };
    (pos as u128) * 4 + turn
}

/// Tells whether the guard walks in a circle for ever once an obstacle is
/// added at `obstacle_pos`.
///
/// The guard starts at `start_pos`, heading north, on the grid of `grid_len`
/// positions in rows of `line_len` that `bytes` describe. Every state it
/// comes into is remembered; the walk ends when a state comes up a second
/// time, or when the guard steps off the grid.
pub fn causes_loop(
    bytes: &[u8],
    line_len: usize,
    grid_len: usize,
    start_pos: usize,
    obstacle_pos: usize,
) -> (looping: bool)
    requires
        line_len > 0,
        grid_len % line_len == 0,
        start_pos < grid_len,
    ensures
        looping == !escapes(
            floor_of(bytes@, line_len as int, grid_len as int, start_pos as int).with_obstacle(
                obstacle_pos as int,
            ),
        ),
{
    broadcast use vstd::std_specs::hash::group_hash_axioms;

    let ghost floor = floor_of(
        bytes@,
        line_len as int,
        grid_len as int,
        start_pos as int,
    ).with_obstacle(obstacle_pos as int);
    let ghost mut moves: nat = 0;
    let mut visited_states: HashSet<u128> = HashSet::new();
    let mut pos = start_pos;
    let mut dir = Dir::N;

    loop
        invariant
            floor == floor_of(
                bytes@,
                line_len as int,
                grid_len as int,
                start_pos as int,
            ).with_obstacle(obstacle_pos as int),
            floor.wf(),
            pos < grid_len,
            guard_at(floor, moves) == Some(Guard { pos: pos as int, dir }),
            forall|key: u128|
                visited_states@.contains(key) <==> exists|i: nat|
                    i < moves && key == state_code(#[trigger] guard_at(floor, i).unwrap()),
            forall|i: nat, j: nat|
                i < j < moves ==> #[trigger] guard_at(floor, i) != #[trigger] guard_at(floor, j),
            moves <= 4 * grid_len,
        decreases 4 * grid_len - moves,
    {
        let state = state_key(pos, dir);
        if !visited_states.insert(state) {
            proof {
                let i = choose|i: nat|
                    i < moves && state == state_code(#[trigger] guard_at(floor, i).unwrap());
                if guard_at(floor, i) is None {
                    lemma_gone_stays_gone(floor, i, moves);
                }
                lemma_repeat_never_escapes(floor, i, moves);
            }
            return true;
        }
        proof {
            if moves >= 4 * grid_len {
                lemma_long_walk_repeats(floor, moves);
            }
        }
        match dir.step(pos, line_len, grid_len) {
            Some(next_pos) => {
                if next_pos == obstacle_pos || (next_pos < bytes.len() && bytes[next_pos]
                    == OBSTACLE) {
                    dir = dir.rotate();
                } else {
                    pos = next_pos;
                }
            },
            None => {
                return false;
            },
        }
        proof {
            assert(guard_at(floor, moves + 1) == Some(Guard { pos: pos as int, dir }));
            moves = moves + 1;
        }
    }
}

/// Counts the distinct cells the guard stands on during its patrol of the
/// floor plan `input`, the starting cell included.
///
/// The guard starts at the start marker, heading north. It marks the cell it
/// stands on, then looks one cell ahead: off the grid, the patrol is over; at
/// an obstacle, it turns right and stays; otherwise it moves ahead. A guard
/// that is still on the grid after four moves for every position of the grid
/// walks in a circle and has by then marked every cell of it.
///
/// The count is at least one, and at most the number of positions of the
/// grid that hold no obstacle.
///
/// The text must be a floor plan, as [`parse`] tells, and the count must fit
/// into the result; it does for every plan shorter than `u32::MAX` bytes.
pub fn part1(input: &str) -> (count: u32)
    requires
        is_grid(input.spec_bytes()),
        input.spec_bytes().len() < usize::MAX,
        visited_cells(patrol_floor(input.spec_bytes())).len() <= u32::MAX,
    ensures
        count == visited_cells(patrol_floor(input.spec_bytes())).len(),
        count >= 1,
        count <= free_cells(patrol_floor(input.spec_bytes())).len(),
{
    let layout = match parse(input) {
        Ok(layout) => layout,
        Err(_) => unreached(),
    };
    let bytes = input.as_bytes();
    let ghost floor = patrol_floor(bytes@);
    let ghost mut moves: nat = 0;
    proof {
        lemma_grid_measures(bytes@);
        lemma_visited_cells_bounded(floor);
        lemma_visited_cells_free(floor);
    }
    let mut visited: Vec<u64> = vec![0u64; layout.grid_len / 64 + 1];
    let mut visited_count: u32 = 0;
    let mut budget: u128 = (layout.grid_len as u128) * 4;
    let mut pos = layout.start_pos;
    let mut dir = Dir::N;
    proof {
        lemma_cleared(visited@);
    }

    loop
        invariant_except_break
            guard_at(floor, moves) == Some(Guard { pos: pos as int, dir }),
            marked(visited@) == trail(floor, moves),
            visited_count == trail(floor, moves).len(),
            budget + moves == 4 * layout.grid_len,
        invariant
            floor == patrol_floor(bytes@),
            floor.wf(),
            layout.describes(bytes@),
            visited@.len() == layout.grid_len / 64 + 1,
            pos < layout.grid_len,
            visited_cells(floor).finite(),
            visited_cells(floor).len() <= u32::MAX,
        ensures
            visited_count == visited_cells(floor).len(),
        decreases budget,
    {
        proof {
            lemma_trail_within_visited(floor, moves);
            lemma_trail_within_visited(floor, moves + 1);
            lemma_len_subset(trail(floor, moves + 1), visited_cells(floor));
        }
        if mark_visited(visited.as_mut_slice(), pos) {
            visited_count += 1;
        }
        if let Some(next_pos) = dir.step(pos, layout.line_len, layout.grid_len) {
            if next_pos < bytes.len() && bytes[next_pos] == OBSTACLE {
                dir = dir.rotate();
            } else {
                pos = next_pos;
            }
        } else {
            proof {
                lemma_trail_complete(floor, moves + 1);
            }
            break ;
        }
        if budget == 0 {
            proof {
                lemma_long_walk_repeats(floor, moves + 1);
                lemma_trail_complete(floor, moves + 1);
            }
            break ;
        }
        budget -= 1;
        proof {
            moves = moves + 1;
        }
    }
    visited_count
}

/// A cell where an obstacle may be tried: a cell of the grid, not a row
/// terminator, that holds no obstacle and is not where the guard starts.
pub open spec fn is_candidate(text: Seq<u8>, pos: int) -> bool {
    &&& 0 <= pos < grid_len_of(text)
    &&& pos % line_len_of(text) != cols_of(text)
    &&& !obstacles(text).contains(pos)
    &&& pos != start_of(text)
}

/// An obstacle added at `pos` keeps the guard on the grid for ever.
pub open spec fn traps(text: Seq<u8>, pos: int) -> bool {
    !escapes(patrol_floor(text).with_obstacle(pos))
}

/// The candidate cells at which one added obstacle traps the guard.
pub open spec fn loop_placements(text: Seq<u8>) -> Set<int> {
    Set::new(|pos: int| is_candidate(text, pos) && traps(text, pos))
}

/// Those of [`loop_placements`] that lie before `bound`.
pub open spec fn loop_placements_before(text: Seq<u8>, bound: int) -> Set<int> {
    Set::new(|pos: int| pos < bound && is_candidate(text, pos) && traps(text, pos))
}

/// The placements before a bound are finitely many, and among all
/// placements, of which there are no more than positions of the grid.
pub proof fn lemma_placements_before(text: Seq<u8>, bound: int)
    requires
        is_grid(text),
    ensures
        loop_placements(text).finite(),
        loop_placements(text).len() <= grid_len_of(text),
        loop_placements_before(text, bound).finite(),
        loop_placements_before(text, bound).len() <= loop_placements(text).len(),
        bound >= grid_len_of(text) ==> loop_placements_before(text, bound) == loop_placements(
            text,
        ),
        bound <= 0 ==> loop_placements_before(text, bound) == Set::<int>::empty(),
{
    lemma_grid_measures(text);
    lemma_int_range(0, grid_len_of(text));
    lemma_len_subset(loop_placements(text), set_int_range(0, grid_len_of(text)));
    lemma_len_subset(loop_placements_before(text, bound), loop_placements(text));
}

/// Counts the cells of the floor plan `input` at which one added obstacle
/// would trap the guard in an endless circuit.
///
/// Every cell of the grid is tried but the row terminators, the cells that
/// hold an obstacle already, and the cell where the guard starts.
///
/// The text must be a floor plan, as [`parse`] tells, and the count must fit
/// into the result; it does for every plan shorter than `u32::MAX` bytes.
pub fn part2(input: &str) -> (count: u32)
    requires
        is_grid(input.spec_bytes()),
        input.spec_bytes().len() < usize::MAX,
        loop_placements(input.spec_bytes()).len() <= u32::MAX,
    ensures
        count == loop_placements(input.spec_bytes()).len(),
{
    let layout = match parse(input) {
        Ok(layout) => layout,
        Err(_) => unreached(),
    };
    let bytes = input.as_bytes();
    let mut obstacle_count: u32 = 0;
    proof {
        lemma_grid_measures(bytes@);
        lemma_placements_before(bytes@, 0);
    }

    for pos in 0..layout.grid_len
        invariant
            is_grid(bytes@),
            layout.describes(bytes@),
            patrol_floor(bytes@).wf(),
            loop_placements(bytes@).len() <= u32::MAX,
            obstacle_count == loop_placements_before(bytes@, pos as int).len(),
    {
        proof {
            lemma_grid_measures(bytes@);
            lemma_placements_before(bytes@, pos as int);
            lemma_placements_before(bytes@, pos + 1);
        }
        let tried = pos < bytes.len() && bytes[pos] != OBSTACLE && pos != layout.start_pos
            && bytes[pos] != NEWLINE;
        if tried && causes_loop(bytes, layout.line_len, layout.grid_len, layout.start_pos, pos) {
            assert(loop_placements_before(bytes@, pos + 1) =~= loop_placements_before(
                bytes@,
                pos as int,
            ).insert(pos as int));
            obstacle_count += 1;
        } else {
            assert(loop_placements_before(bytes@, pos + 1) =~= loop_placements_before(
                bytes@,
                pos as int,
            ));
        }
    }
    proof {
        lemma_placements_before(bytes@, layout.grid_len as int);
    }
    obstacle_count
}

} // verus!
