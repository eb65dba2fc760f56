//! The mathematical model of a patrol: the floor, the guard's state, and the
//! infinite sequence of states that the turning rule produces from the start.
//!
//! Everything in this module is ghost code: definitions and proofs. The
//! executable functions of the crate state their results over [`escapes`]
//! and [`visited_cells`].
use crate::direction::{lemma_step_stays_inside, Dir};
use vstd::prelude::*;
use vstd::set_lib::{lemma_int_range, lemma_len_subset, set_int_range};

verus! {

/// A floor plan: a flat, row-major grid with the guard's starting position
/// and the set of positions that hold an obstacle.
pub struct Floor {
    /// Positions per row, the row terminator included.
    pub line_len: int,
    /// Number of positions of the whole grid.
    pub grid_len: int,
    /// Where the guard starts, heading north.
    pub start: int,
    /// The positions the guard cannot enter.
    pub blocked: Set<int>,
}

impl Floor {
    /// The grid consists of whole rows and the start lies on it.
    pub open spec fn wf(self) -> bool {
        &&& self.line_len > 0
        &&& self.grid_len % self.line_len == 0
        &&& 0 <= self.start < self.grid_len
    }

    /// The same floor with one more obstacle, at `pos`.
    pub open spec fn with_obstacle(self, pos: int) -> Floor {
        Floor { blocked: self.blocked.insert(pos), ..self }
    }
}

/// Where the guard stands and which way it faces.
pub struct Guard {
    pub pos: int,
    pub dir: Dir,
}

/// One move of the guard: `None` where the cell ahead lies off the grid; a
/// quarter turn in place where the cell ahead is blocked; one cell forward
/// otherwise.
pub open spec fn advance(floor: Floor, guard: Guard) -> Option<Guard> {
    match guard.dir.spec_step(guard.pos, floor.line_len, floor.grid_len) {
        None => None,
        Some(ahead) => if floor.blocked.contains(ahead) {
            Some(Guard { pos: guard.pos, dir: guard.dir.spec_rotate() })
        } else {
            Some(Guard { pos: ahead, dir: guard.dir })
        },
    }
}

/// The guard after `n` moves, or `None` once it has left the grid.
pub open spec fn guard_at(floor: Floor, n: nat) -> Option<Guard>
    decreases n,
{
    if n == 0 {
        Some(Guard { pos: floor.start, dir: Dir::N })
    } else {
        match guard_at(floor, (n - 1) as nat) {
            Some(guard) => advance(floor, guard),
            None => None,
        }
    }
}

/// The guard leaves the grid after some number of moves.
pub open spec fn escapes(floor: Floor) -> bool {
    exists|n: nat| guard_at(floor, n) is None
}

/// After `n` moves the guard is still on the grid, at `pos`.
pub open spec fn stands_on(floor: Floor, n: nat, pos: int) -> bool {
    guard_at(floor, n) matches Some(guard) && guard.pos == pos
}

/// Every position the guard stands on at some moment of its patrol.
pub open spec fn visited_cells(floor: Floor) -> Set<int> {
    Set::new(|pos: int| exists|n: nat| stands_on(floor, n, pos))
}

/// The positions the guard stands on before its `n`-th move: those of its
/// first `n` states.
pub open spec fn trail(floor: Floor, n: nat) -> Set<int>
    decreases n,
{
    if n == 0 {
        Set::empty()
    } else {
        match guard_at(floor, (n - 1) as nat) {
            Some(guard) => trail(floor, (n - 1) as nat).insert(guard.pos),
            None => trail(floor, (n - 1) as nat),
        }
    }
}

/// While the guard is on the grid, it stands on a position of the grid.
pub proof fn lemma_guard_stays_inside(floor: Floor, n: nat)
    requires
        floor.wf(),
    ensures
        guard_at(floor, n) matches Some(guard) ==> 0 <= guard.pos < floor.grid_len,
    decreases n,
{
    if n > 0 {
        lemma_guard_stays_inside(floor, (n - 1) as nat);
        if let Some(before) = guard_at(floor, (n - 1) as nat) {
            lemma_step_stays_inside(before.dir, before.pos, floor.line_len, floor.grid_len);
        }
    }
}

/// A guard that has left the grid does not come back.
pub proof fn lemma_gone_stays_gone(floor: Floor, m: nat, n: nat)
    requires
        m <= n,
        guard_at(floor, m) is None,
    ensures
        guard_at(floor, n) is None,
    decreases n,
{
    if m < n {
        lemma_gone_stays_gone(floor, m, (n - 1) as nat);
    }
}

/// The walk has no memory: from equal states it continues equally.
pub proof fn lemma_walk_shift(floor: Floor, a: nat, b: nat, k: nat)
    requires
        guard_at(floor, a) == guard_at(floor, b),
    ensures
        guard_at(floor, a + k) == guard_at(floor, b + k),
    decreases k,
{
    if k > 0 {
        lemma_walk_shift(floor, a, b, (k - 1) as nat);
    }
}

/// Once a state has occurred twice, every later state has occurred before
/// the second occurrence.
pub proof fn lemma_repeat_folds_back(floor: Floor, a: nat, b: nat, n: nat) -> (m: nat)
    requires
        a < b,
        guard_at(floor, a) == guard_at(floor, b),
    ensures
        m < b,
        guard_at(floor, m) == guard_at(floor, n),
    decreases n,
{
    if n < b {
        n
    } else {
        let earlier = (n - (b - a)) as nat;
        lemma_walk_shift(floor, a, b, (n - b) as nat);
        lemma_repeat_folds_back(floor, a, b, earlier)
    }
}

/// A guard that comes into the same state twice while on the grid walks in a
/// circle for ever.
pub proof fn lemma_repeat_never_escapes(floor: Floor, a: nat, b: nat)
    requires
        a < b,
        guard_at(floor, a) == guard_at(floor, b),
        guard_at(floor, b) is Some,
    ensures
        !escapes(floor),
{
    assert forall|n: nat| guard_at(floor, n) is Some by {
        let m = lemma_repeat_folds_back(floor, a, b, n);
        if guard_at(floor, m) is None {
            lemma_gone_stays_gone(floor, m, b);
        }
    }
}

/// The trail is finite and holds exactly the positions of the first `n`
/// states.
pub proof fn lemma_trail_contents(floor: Floor, n: nat)
    ensures
        trail(floor, n).finite(),
        forall|pos: int|
            trail(floor, n).contains(pos) <==> exists|k: nat| k < n && stands_on(floor, k, pos),
    decreases n,
{
    if n > 0 {
        let last = (n - 1) as nat;
        lemma_trail_contents(floor, last);
        assert forall|pos: int| trail(floor, n).contains(pos) implies exists|k: nat|
            k < n && stands_on(floor, k, pos) by {
            if !trail(floor, last).contains(pos) {
                assert(stands_on(floor, last, pos));
            }
        }
    }
}

/// Once the guard has left the grid, or has come into the same state twice,
/// the trail up to that moment is all it will ever visit.
pub proof fn lemma_trail_complete(floor: Floor, n: nat)
    requires
        guard_at(floor, n) is None || exists|a: nat, b: nat|
            a < b <= n && guard_at(floor, a) == guard_at(floor, b),
    ensures
        visited_cells(floor) == trail(floor, n),
{
    lemma_trail_contents(floor, n);
    assert forall|pos: int| visited_cells(floor).contains(pos) implies trail(floor, n).contains(
        pos,
    ) by {
        let k = choose|k: nat| stands_on(floor, k, pos);
        if k >= n {
            if guard_at(floor, n) is None {
                lemma_gone_stays_gone(floor, n, k);
            } else {
                let (a, b) = choose|a: nat, b: nat|
                    a < b <= n && guard_at(floor, a) == guard_at(floor, b);
                let m = lemma_repeat_folds_back(floor, a, b, k);
                assert(m < n && stands_on(floor, m, pos));
            }
        }
    }
}

/// The number of a heading in the turning order.
pub open spec fn dir_index(dir: Dir) -> int {
    match dir {
        Dir::N => 0,
        Dir::E => 1,
        Dir::S => 2,
        Dir::W => 3,
    }
}

/// A state as one integer: four consecutive codes for each position, one per
/// heading. Different states have different codes.
pub open spec fn state_code(guard: Guard) -> int {
    guard.pos * 4 + dir_index(guard.dir)
}

/// Among more than `bound` numbers, all from `0` up to but excluding
/// `bound`, two are equal.
pub proof fn lemma_pigeonhole(codes: Seq<int>, bound: int) -> (pair: (int, int))
    requires
        0 <= bound < codes.len(),
        forall|i: int| 0 <= i < codes.len() ==> 0 <= #[trigger] codes[i] < bound,
    ensures
        0 <= pair.0 < pair.1 < codes.len(),
        codes[pair.0] == codes[pair.1],
{
    if codes.no_duplicates() {
        codes.unique_seq_to_set();
        lemma_int_range(0, bound);
        lemma_len_subset(codes.to_set(), set_int_range(0, bound));
    }
    let (i, j) = choose|i: int, j: int|
        0 <= i < codes.len() && 0 <= j < codes.len() && i != j && codes[i] == codes[j];
    if i < j {
        (i, j)
    } else {
        (j, i)
    }
}

/// A guard that is still on the grid after four moves for every position of
/// the grid has been in some state twice.
pub proof fn lemma_long_walk_repeats(floor: Floor, n: nat) -> (pair: (nat, nat))
    requires
        floor.wf(),
        guard_at(floor, n) is Some,
        n >= 4 * floor.grid_len,
    ensures
        pair.0 < pair.1 <= n,
        guard_at(floor, pair.0) == guard_at(floor, pair.1),
{
    let codes = Seq::new(n + 1, |i: int| state_code(guard_at(floor, i as nat).unwrap()));
    assert forall|i: int| 0 <= i < codes.len() implies 0 <= #[trigger] codes[i] < 4
        * floor.grid_len by {
        lemma_guard_stays_inside(floor, i as nat);
        if guard_at(floor, i as nat) is None {
            lemma_gone_stays_gone(floor, i as nat, n);
        }
    }
    let (i, j) = lemma_pigeonhole(codes, 4 * floor.grid_len);
    if guard_at(floor, i as nat) is None {
        lemma_gone_stays_gone(floor, i as nat, n);
    }
    if guard_at(floor, j as nat) is None {
        lemma_gone_stays_gone(floor, j as nat, n);
    }
    (i as nat, j as nat)
}

/// The positions of the grid that hold no obstacle.
pub open spec fn free_cells(floor: Floor) -> Set<int> {
    Set::new(|pos: int| 0 <= pos < floor.grid_len && !floor.blocked.contains(pos))
}

/// Whatever the guard has visited so far, it visits.
pub proof fn lemma_trail_within_visited(floor: Floor, n: nat)
    ensures
        trail(floor, n).finite(),
        trail(floor, n).subset_of(visited_cells(floor)),
{
    lemma_trail_contents(floor, n);
}

/// A guard that starts on a free cell only ever stands on free cells.
pub proof fn lemma_guard_on_free_cell(floor: Floor, n: nat)
    requires
        floor.wf(),
        !floor.blocked.contains(floor.start),
    ensures
        guard_at(floor, n) matches Some(guard) ==> free_cells(floor).contains(guard.pos),
    decreases n,
{
    lemma_guard_stays_inside(floor, n);
    if n > 0 {
        lemma_guard_on_free_cell(floor, (n - 1) as nat);
    }
}

/// The guard visits its starting cell, and only positions of the grid: a
/// finite set.
pub proof fn lemma_visited_cells_bounded(floor: Floor)
    requires
        floor.wf(),
    ensures
        visited_cells(floor).finite(),
        visited_cells(floor).contains(floor.start),
        1 <= visited_cells(floor).len() <= floor.grid_len,
        forall|pos: int| visited_cells(floor).contains(pos) ==> 0 <= pos < floor.grid_len,
{
    assert forall|pos: int| visited_cells(floor).contains(pos) implies 0 <= pos
        < floor.grid_len by {
        let n = choose|n: nat| stands_on(floor, n, pos);
        lemma_guard_stays_inside(floor, n);
    }
    lemma_int_range(0, floor.grid_len);
    lemma_len_subset(visited_cells(floor), set_int_range(0, floor.grid_len));
    assert(stands_on(floor, 0, floor.start));
    if visited_cells(floor).len() == 0 {
        visited_cells(floor).lemma_len0_is_empty();
        assert(!Set::<int>::empty().contains(floor.start));
    }
}

/// A guard that starts on a free cell visits no more cells than are free.
pub proof fn lemma_visited_cells_free(floor: Floor)
    requires
        floor.wf(),
        !floor.blocked.contains(floor.start),
    ensures
        free_cells(floor).finite(),
        visited_cells(floor).subset_of(free_cells(floor)),
        visited_cells(floor).len() <= free_cells(floor).len(),
{
    lemma_int_range(0, floor.grid_len);
    lemma_len_subset(free_cells(floor), set_int_range(0, floor.grid_len));
    assert forall|pos: int| visited_cells(floor).contains(pos) implies free_cells(floor).contains(
        pos,
    ) by {
        let n = choose|n: nat| stands_on(floor, n, pos);
        lemma_guard_on_free_cell(floor, n);
    }
    lemma_len_subset(visited_cells(floor), free_cells(floor));
}

} // verus!
