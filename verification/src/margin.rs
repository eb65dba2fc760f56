//! The last column of every row is the margin: it holds the row terminators,
//! not cells. This module proves what the margin means for a patrol: the
//! guard can only step onto it heading east, and leaves the grid with its
//! next move. A guard that never leaves therefore stays on the cells, and
//! is back in an earlier state after at most four moves per cell.
use crate::direction::Dir;
use crate::walk::{
    dir_index, escapes, guard_at, lemma_gone_stays_gone, lemma_guard_on_free_cell,
    lemma_guard_stays_inside, lemma_pigeonhole, stands_on, visited_cells, Floor, Guard,
};
use vstd::arithmetic::div_mod::{
    lemma_fundamental_div_mod, lemma_fundamental_div_mod_converse, lemma_mod_add_multiples_vanish,
    lemma_mod_sub_multiples_vanish,
};
use vstd::prelude::*;
use vstd::set_lib::{lemma_int_range, lemma_len_subset, set_int_range};

verus! {

/// `pos` lies in the last column of its row.
pub open spec fn on_margin(floor: Floor, pos: int) -> bool {
    pos % floor.line_len == floor.line_len - 1
}

/// After `n` moves the guard is on the grid, and on the margin.
pub open spec fn on_margin_at(floor: Floor, n: nat) -> bool {
    guard_at(floor, n) matches Some(guard) && on_margin(floor, guard.pos)
}

/// At some moment of its patrol the guard stands on the margin.
pub open spec fn reaches_margin(floor: Floor) -> bool {
    exists|n: nat| on_margin_at(floor, n)
}

/// Number of rows of the grid.
pub open spec fn rows(floor: Floor) -> int {
    floor.grid_len / floor.line_len
}

/// Number of cells per row: the margin is not a cell.
pub open spec fn cols(floor: Floor) -> int {
    floor.line_len - 1
}

/// The cells that hold no obstacle: the free positions off the margin.
pub open spec fn open_cells(floor: Floor) -> Set<int> {
    Set::new(
        |pos: int|
            0 <= pos < floor.grid_len && !on_margin(floor, pos) && !floor.blocked.contains(pos),
    )
}

/// Moving by a whole row keeps the column.
proof fn lemma_row_shift(pos: int, line_len: int)
    requires
        line_len > 0,
    ensures
        (pos + line_len) % line_len == pos % line_len,
        (pos - line_len) % line_len == pos % line_len,
{
    lemma_mod_add_multiples_vanish(pos, line_len);
    lemma_mod_sub_multiples_vanish(pos, line_len);
}

/// Moving one position on leads to the next column, or from the last column
/// of a row to the first of the next.
proof fn lemma_column_shift(pos: int, line_len: int)
    requires
        line_len > 0,
    ensures
        (pos + 1) % line_len == if pos % line_len == line_len - 1 {
            0
        } else {
            pos % line_len + 1
        },
{
    lemma_fundamental_div_mod(pos, line_len);
    let row = pos / line_len;
    let col = pos % line_len;
    if col == line_len - 1 {
        assert(pos + 1 == (row + 1) * line_len + 0) by (nonlinear_arith)
            requires
                pos == line_len * row + col,
                col == line_len - 1,
        ;
        lemma_fundamental_div_mod_converse(pos + 1, line_len, row + 1, 0);
    } else {
        assert(pos + 1 == row * line_len + (col + 1)) by (nonlinear_arith)
            requires
                pos == line_len * row + col,
        ;
        lemma_fundamental_div_mod_converse(pos + 1, line_len, row, col + 1);
    }
}

/// A guard that starts on a cell stands on the margin only when heading
/// east.
pub proof fn lemma_margin_heading(floor: Floor, n: nat)
    requires
        floor.wf(),
        !on_margin(floor, floor.start),
    ensures
        guard_at(floor, n) matches Some(guard) ==> (on_margin(floor, guard.pos) ==> guard.dir
            == Dir::E),
    decreases n,
{
    if n > 0 {
        lemma_margin_heading(floor, (n - 1) as nat);
        if let Some(before) = guard_at(floor, (n - 1) as nat) {
            lemma_row_shift(before.pos, floor.line_len);
            lemma_column_shift(before.pos, floor.line_len);
            lemma_column_shift(before.pos - 1, floor.line_len);
        }
    }
}

/// A guard that starts on a cell and stands on the margin leaves the grid
/// with its next move.
pub proof fn lemma_margin_is_exit(floor: Floor, n: nat)
    requires
        floor.wf(),
        !on_margin(floor, floor.start),
        on_margin_at(floor, n),
    ensures
        guard_at(floor, n + 1) is None,
{
    lemma_margin_heading(floor, n);
    lemma_column_shift(guard_at(floor, n).unwrap().pos, floor.line_len);
}

/// A guard that starts on a free cell visits open cells only, and besides
/// them at most the one position of the margin over which it leaves.
pub proof fn lemma_visited_cells_open(floor: Floor)
    requires
        floor.wf(),
        !on_margin(floor, floor.start),
        !floor.blocked.contains(floor.start),
    ensures
        open_cells(floor).finite(),
        visited_cells(floor).len() <= open_cells(floor).len() + if reaches_margin(floor) {
            1int
        } else {
            0int
        },
{
    let open = open_cells(floor);
    lemma_int_range(0, floor.grid_len);
    lemma_len_subset(open, set_int_range(0, floor.grid_len));
    if reaches_margin(floor) {
        let last = choose|n: nat| on_margin_at(floor, n);
        let exit = guard_at(floor, last).unwrap().pos;
        lemma_margin_is_exit(floor, last);
        assert forall|pos: int| visited_cells(floor).contains(pos) implies open.insert(
            exit,
        ).contains(pos) by {
            let n = choose|n: nat| stands_on(floor, n, pos);
            lemma_guard_on_free_cell(floor, n);
            if on_margin(floor, pos) {
                lemma_margin_is_exit(floor, n);
                if n < last {
                    lemma_gone_stays_gone(floor, n + 1, last);
                } else if last < n {
                    lemma_gone_stays_gone(floor, last + 1, n);
                }
            }
        }
        lemma_len_subset(visited_cells(floor), open.insert(exit));
    } else {
        assert forall|pos: int| visited_cells(floor).contains(pos) implies open.contains(pos) by {
            let n = choose|n: nat| stands_on(floor, n, pos);
            lemma_guard_on_free_cell(floor, n);
            assert(!on_margin_at(floor, n));
        }
        lemma_len_subset(visited_cells(floor), open);
    }
}

/// A state on a cell as one integer: the cells are numbered row by row, the
/// margin left out, and each has four consecutive codes, one per heading.
pub open spec fn cell_code(floor: Floor, guard: Guard) -> int {
    ((guard.pos / floor.line_len) * cols(floor) + guard.pos % floor.line_len) * 4 + dir_index(
        guard.dir,
    )
}

/// The codes of the states on cells range from `0` up to four times the
/// number of cells, and different states have different codes.
proof fn lemma_cell_code(floor: Floor, one: Guard, other: Guard)
    requires
        floor.wf(),
        0 <= one.pos < floor.grid_len,
        0 <= other.pos < floor.grid_len,
        !on_margin(floor, one.pos),
        !on_margin(floor, other.pos),
    ensures
        0 <= cell_code(floor, one) < 4 * rows(floor) * cols(floor),
        cell_code(floor, one) == cell_code(floor, other) ==> one == other,
{
    let line_len = floor.line_len;
    let width = cols(floor);
    let height = rows(floor);
    lemma_fundamental_div_mod(floor.grid_len, line_len);
    lemma_fundamental_div_mod(one.pos, line_len);
    lemma_fundamental_div_mod(other.pos, line_len);
    let row = one.pos / line_len;
    let col = one.pos % line_len;
    assert(0 <= row < height) by (nonlinear_arith)
        requires
            0 <= one.pos < floor.grid_len,
            floor.grid_len == line_len * height,
            one.pos == line_len * row + col,
            0 <= col < line_len,
    ;
    assert(0 <= row * width + col < height * width) by (nonlinear_arith)
        requires
            0 <= row < height,
            0 <= col < width,
    ;
    assert(4 * rows(floor) * cols(floor) == 4 * (height * width)) by (nonlinear_arith)
        requires
            height == rows(floor),
            width == cols(floor),
    ;
    if cell_code(floor, one) == cell_code(floor, other) {
        let other_row = other.pos / line_len;
        let other_col = other.pos % line_len;
        let cell = row * width + col;
        lemma_fundamental_div_mod_converse(cell, width, row, col);
        lemma_fundamental_div_mod_converse(cell, width, other_row, other_col);
    }
}

/// A guard that starts on a cell and never leaves the grid is back in an
/// earlier state after at most four moves for every cell of the grid.
pub proof fn lemma_trapped_guard_repeats(floor: Floor) -> (pair: (nat, nat))
    requires
        floor.wf(),
        !on_margin(floor, floor.start),
        !escapes(floor),
    ensures
        pair.0 < pair.1 <= 4 * rows(floor) * cols(floor),
        guard_at(floor, pair.0) is Some,
        guard_at(floor, pair.0) == guard_at(floor, pair.1),
{
    let bound = 4 * rows(floor) * cols(floor);
    assert forall|n: nat| guard_at(floor, n) is Some && !on_margin_at(floor, n) by {
        if on_margin_at(floor, n) {
            lemma_margin_is_exit(floor, n);
        }
    }
    let codes = Seq::new(
        (bound + 1) as nat,
        |i: int| cell_code(floor, guard_at(floor, i as nat).unwrap()),
    );
    assert forall|i: int| 0 <= i < codes.len() implies 0 <= #[trigger] codes[i] < bound by {
        let guard = guard_at(floor, i as nat).unwrap();
        lemma_guard_stays_inside(floor, i as nat);
        assert(!on_margin_at(floor, i as nat));
        lemma_cell_code(floor, guard, guard);
    }
    let (i, j) = lemma_pigeonhole(codes, bound);
    let one = guard_at(floor, i as nat).unwrap();
    let other = guard_at(floor, j as nat).unwrap();
    lemma_guard_stays_inside(floor, i as nat);
    lemma_guard_stays_inside(floor, j as nat);
    assert(!on_margin_at(floor, i as nat) && !on_margin_at(floor, j as nat));
    lemma_cell_code(floor, one, other);
    (i as nat, j as nat)
}

} // verus!
