//! The floor plan as text: which bytes mean what, how a text is laid out as
//! a grid, and how the grid is measured.
use crate::walk::Floor;
use vstd::arithmetic::div_mod::{lemma_fundamental_div_mod, lemma_mod_multiples_basic};
use vstd::prelude::*;
use vstd::string::StringSliceAdditionalSpecFns;

verus! {

/// The byte that marks an obstacle, `#`.
pub const OBSTACLE: u8 = 0x23;

/// The byte that marks the cell where the guard starts, heading north: `^`.
pub const START: u8 = 0x5e;

/// The byte that ends a row, a line feed.
pub const NEWLINE: u8 = 0x0a;

/// The positions of `cells` that hold an obstacle.
pub open spec fn obstacles(cells: Seq<u8>) -> Set<int> {
    Set::new(|pos: int| 0 <= pos < cells.len() && cells[pos] == OBSTACLE)
}

/// The floor that `cells` describe, for a grid of `grid_len` positions in
/// rows of `line_len`, with the guard starting at `start`. Positions of the
/// grid beyond the end of `cells` are free.
pub open spec fn floor_of(cells: Seq<u8>, line_len: int, grid_len: int, start: int) -> Floor {
    Floor { line_len, grid_len, start, blocked: obstacles(cells) }
}

/// The first position at or after `from` that holds `byte`, or the length of
/// `text` where there is none.
pub open spec fn find_from(text: Seq<u8>, byte: u8, from: int) -> int
    decreases text.len() - from,
{
    if from >= text.len() {
        text.len() as int
    } else if text[from] == byte {
        from
    } else {
        find_from(text, byte, from + 1)
    }
}

/// The first position that holds `byte`, or the length of `text` where there
/// is none.
pub open spec fn find(text: Seq<u8>, byte: u8) -> int {
    find_from(text, byte, 0)
}

/// Cells per row: the length of the first line.
pub open spec fn cols_of(text: Seq<u8>) -> int {
    find(text, NEWLINE)
}

/// Positions per row: the cells and the terminator that follows them.
pub open spec fn line_len_of(text: Seq<u8>) -> int {
    cols_of(text) + 1
}

/// The number of rows. The terminator of the last row may be missing.
pub open spec fn rows_of(text: Seq<u8>) -> int {
    text.len() as int / line_len_of(text) + if text.len() as int % line_len_of(text) == 0 {
        0int
    } else {
        1int
    }
}

/// Positions of the whole grid, the terminator of the last row included
/// whether the text has it or not.
pub open spec fn grid_len_of(text: Seq<u8>) -> int {
    rows_of(text) * line_len_of(text)
}

/// Where the guard starts: the first start marker.
pub open spec fn start_of(text: Seq<u8>) -> int {
    find(text, START)
}

/// Every row is as long as the first: the terminators stand in the last
/// column of each row and nowhere else, and the last row is complete, with
/// or without its terminator.
pub open spec fn is_rectangular(text: Seq<u8>) -> bool {
    &&& forall|i: int|
        0 <= i < text.len() ==> (text[i] == NEWLINE <==> i % line_len_of(text) == cols_of(text))
    &&& (text.len() as int % line_len_of(text) == 0 || text.len() as int % line_len_of(text)
        == cols_of(text))
}

/// Why a text is no floor plan.
#[derive(Clone, Copy, Debug, PartialEq, Eq, Structural)]
pub enum GridError {
    /// The text has no lines.
    Empty,
    /// The rows differ in length.
    Ragged,
    /// No cell holds the start marker.
    NoStart,
}

impl GridError {
    /// A sentence for the person who supplied the text.
    pub fn message(&self) -> (text: &'static str)
        ensures
            text@ == match self {
                GridError::Empty => "the floor plan is empty"@,
                GridError::Ragged => "the rows of the floor plan differ in length"@,
                GridError::NoStart => "the floor plan has no start marker"@,
            },
    {
        match self {
            GridError::Empty => "the floor plan is empty",
            GridError::Ragged => "the rows of the floor plan differ in length",
            GridError::NoStart => "the floor plan has no start marker",
        }
    }
}

/// The first reason for which `text` is no floor plan, or `None` where it is
/// one: a text with at least one line, rectangular, with a start marker.
pub open spec fn grid_error(text: Seq<u8>) -> Option<GridError> {
    if text.len() == 0 {
        Some(GridError::Empty)
    } else if !is_rectangular(text) {
        Some(GridError::Ragged)
    } else if start_of(text) >= text.len() {
        Some(GridError::NoStart)
    } else {
        None
    }
}

/// The text is a floor plan.
pub open spec fn is_grid(text: Seq<u8>) -> bool {
    grid_error(text) is None
}

/// The floor that a floor plan describes.
pub open spec fn patrol_floor(text: Seq<u8>) -> Floor {
    floor_of(text, line_len_of(text), grid_len_of(text), start_of(text))
}

/// The measures of a floor plan.
#[derive(Clone, Copy, Debug, PartialEq, Eq, Structural)]
pub struct Layout {
    /// Number of rows.
    pub rows: usize,
    /// Cells per row.
    pub cols: usize,
    /// Positions per row: the cells and the row terminator.
    pub line_len: usize,
    /// Positions of the whole grid.
    pub grid_len: usize,
    /// Where the guard starts.
    pub start_pos: usize,
}

impl Layout {
    /// These are the measures of `text`.
    pub open spec fn describes(self, text: Seq<u8>) -> bool {
        &&& self.rows == rows_of(text)
        &&& self.cols == cols_of(text)
        &&& self.line_len == line_len_of(text)
        &&& self.grid_len == grid_len_of(text)
        &&& self.start_pos == start_of(text)
    }
}

/// `find_from` returns the first position at or after `from` that holds
/// `byte`.
pub proof fn lemma_find_from(text: Seq<u8>, byte: u8, from: int)
    requires
        0 <= from <= text.len(),
    ensures
        from <= find_from(text, byte, from) <= text.len(),
        find_from(text, byte, from) < text.len() ==> text[find_from(text, byte, from)] == byte,
        forall|i: int| from <= i < find_from(text, byte, from) ==> text[i] != byte,
    decreases text.len() - from,
{
    if from < text.len() && text[from] != byte {
        lemma_find_from(text, byte, from + 1);
    }
}

/// Overwriting a position with another byte than the one looked for leaves
/// the search as it was, unless that position held the first occurrence.
pub proof fn lemma_find_from_update(text: Seq<u8>, byte: u8, at: int, new: u8, from: int)
    requires
        0 <= from <= text.len(),
        0 <= at < text.len(),
        new != byte,
        text[at] != byte || find_from(text, byte, from) < at,
    ensures
        find_from(text.update(at, new), byte, from) == find_from(text, byte, from),
    decreases text.len() - from,
{
    if from < text.len() && text[from] != byte {
        lemma_find_from_update(text, byte, at, new, from + 1);
    }
}

/// The grid of a floor plan consists of whole rows, covers the text with at
/// most the last terminator added, and holds the start.
pub proof fn lemma_grid_measures(text: Seq<u8>)
    requires
        is_grid(text),
    ensures
        patrol_floor(text).wf(),
        0 <= cols_of(text) <= text.len(),
        rows_of(text) >= 1,
        grid_len_of(text) == if text.len() as int % line_len_of(text) == 0 {
            text.len() as int
        } else {
            text.len() as int + 1
        },
        !obstacles(text).contains(start_of(text)),
{
    let len = text.len() as int;
    let line_len = line_len_of(text);
    lemma_find_from(text, NEWLINE, 0);
    lemma_find_from(text, START, 0);
    lemma_fundamental_div_mod(len, line_len);
    let whole = len / line_len;
    assert(grid_len_of(text) == if len % line_len == 0 {
        line_len * whole
    } else {
        line_len * whole + line_len
    }) by (nonlinear_arith)
        requires
            grid_len_of(text) == (whole + if len % line_len == 0 {
                0int
            } else {
                1int
            }) * line_len,
    ;
    lemma_mod_multiples_basic(rows_of(text), line_len);
}

/// Finds the first position that holds `byte`.
fn find_byte(bytes: &[u8], byte: u8) -> (at: usize)
    ensures
        at == find(bytes@, byte),
{
    let mut at: usize = 0;
    while at < bytes.len() && bytes[at] != byte
        invariant
            at <= bytes.len(),
            find(bytes@, byte) == find_from(bytes@, byte, at as int),
        decreases bytes.len() - at,
    {
        at += 1;
    }
    at
}

/// Measures a floor plan, or says why the text is none.
///
/// The first line gives the number of cells per row; every row must have as
/// many. The guard starts at the first start marker.
pub fn parse(input: &str) -> (result: Result<Layout, GridError>)
    requires
        input.spec_bytes().len() < usize::MAX,
    ensures
        match result {
            Ok(layout) => is_grid(input.spec_bytes()) && layout.describes(input.spec_bytes()),
            Err(error) => grid_error(input.spec_bytes()) == Some(error),
        },
{
    let bytes = input.as_bytes();
    let len = bytes.len();
    if len == 0 {
        return Err(GridError::Empty);
    }
    let cols = find_byte(bytes, NEWLINE);
    proof {
        lemma_find_from(bytes@, NEWLINE, 0);
    }
    let line_len = cols + 1;
    let rest = len % line_len;
    if rest != 0 && rest != cols {
        return Err(GridError::Ragged);
    }
    let mut at: usize = 0;
    while at < len
        invariant
            at <= len,
            0 < len == bytes@.len(),
            bytes@ == input.spec_bytes(),
            line_len == line_len_of(bytes@),
            cols == cols_of(bytes@),
            forall|i: int|
                0 <= i < at ==> (bytes@[i] == NEWLINE <==> i % line_len_of(bytes@) == cols_of(
                    bytes@,
                )),
        decreases len - at,
    {
        if (bytes[at] == NEWLINE) != (at % line_len == cols) {
            return Err(GridError::Ragged);
        }
        at += 1;
    }
    let start_pos = find_byte(bytes, START);
    if start_pos >= len {
        return Err(GridError::NoStart);
    }
    proof {
        lemma_grid_measures(bytes@);
    }
    let rows = len / line_len + if rest == 0 {
        0
    } else {
        1
    };
    let grid_len = rows * line_len;
    Ok(Layout { rows, cols, line_len, grid_len, start_pos })
}

} // verus!
