//! Compass headings and the two geometric operations on them: turning right,
//! and finding the neighbouring cell in a flat, row-major grid whose rows are
//! `line_len` positions wide.
use vstd::arithmetic::div_mod::lemma_small_mod;
use vstd::prelude::*;

verus! {

/// One of the four headings. Turning right cycles through them in the order
/// `N`, `E`, `S`, `W`, and back to `N`.
#[derive(Clone, Copy, Debug, PartialEq, Eq, Hash, Structural)]
pub enum Dir {
    N,
    E,
    S,
    W,
}

impl Dir {
    /// The heading after a quarter turn to the right.
    pub open spec fn spec_rotate(self) -> Dir {
        match self {
            Dir::N => Dir::E,
            Dir::E => Dir::S,
            Dir::S => Dir::W,
            Dir::W => Dir::N,
        }
    }

    /// The position one cell ahead of `pos` in this heading, or `None` where
    /// the move would leave the grid.
    ///
    /// A grid of `grid_len` positions is laid out row by row, `line_len`
    /// positions to a row. Going north or south changes the position by one
    /// whole row and is refused in the first and last row. Going east or west
    /// changes it by one and is refused where it would wrap around into a
    /// neighbouring row: east from the last position of a row, west from the
    /// first.
    pub open spec fn spec_step(self, pos: int, line_len: int, grid_len: int) -> Option<int> {
        match self {
            Dir::N => if pos >= line_len {
                Some(pos - line_len)
            } else {
                None
            },
            Dir::E => if (pos + 1) % line_len != 0 {
                Some(pos + 1)
            } else {
                None
            },
            Dir::S => if pos + line_len < grid_len {
                Some(pos + line_len)
            } else {
                None
            },
            Dir::W => if pos % line_len != 0 {
                Some(pos - 1)
            } else {
                None
            },
        }
    }

    /// Turns a quarter to the right.
    #[verifier::when_used_as_spec(spec_rotate)]
    pub fn rotate(self) -> (turned: Dir)
        ensures
            turned == self.spec_rotate(),
    {
        match self {
            Dir::N => Dir::E,
            Dir::E => Dir::S,
            Dir::S => Dir::W,
            Dir::W => Dir::N,
        }
    }

    /// Computes the position one cell ahead of `pos`, or `None` where the
    /// guard would fall off the grid.
    ///
    /// Whenever the grid consists of whole rows, the position returned is
    /// again a position of the grid.
    pub fn step(self, pos: usize, line_len: usize, grid_len: usize) -> (next: Option<usize>)
        requires
            line_len > 0,
            pos < grid_len,
        ensures
            match self.spec_step(pos as int, line_len as int, grid_len as int) {
                Some(p) => next == Some(p as usize) && 0 <= p <= usize::MAX,
                None => next is None,
            },
            grid_len % line_len == 0 ==> (next matches Some(p) ==> p < grid_len),
    {
        match self {
            Dir::N => if pos >= line_len {
                Some(pos - line_len)
            } else {
                None
            },
            Dir::E => if (pos + 1) % line_len != 0 {
                Some(pos + 1)
            } else {
                None
            },
            Dir::S => if line_len < grid_len - pos {
                Some(pos + line_len)
            } else {
                None
            },
            Dir::W => if pos % line_len != 0 {
                assert(pos != 0) by {
                    lemma_small_mod(0, line_len as nat);
                }
                Some(pos - 1)
            } else {
                None
            },
        }
    }
}

/// In a grid made of whole rows, a step from a position of the grid never
/// leads outside it.
pub proof fn lemma_step_stays_inside(dir: Dir, pos: int, line_len: int, grid_len: int)
    requires
        line_len > 0,
        0 <= pos < grid_len,
        grid_len % line_len == 0,
    ensures
        dir.spec_step(pos, line_len, grid_len) matches Some(p) ==> 0 <= p < grid_len,
{
    if dir == Dir::W && pos == 0 {
        lemma_small_mod(0, line_len as nat);
    }
}

/// Four quarter turns bring every heading back to itself.
pub proof fn lemma_four_turns_restore(dir: Dir)
    ensures
        dir.spec_rotate().spec_rotate().spec_rotate().spec_rotate() == dir,
{
}

} // verus!
