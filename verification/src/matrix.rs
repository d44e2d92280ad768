//! The score matrix: one flat, row-major buffer of signed integers that is
//! owned by the alignment that fills it.

use vstd::prelude::*;

verus! {

/// The one way in which an alignment can fail: the matrix that it needs
/// cannot be had.
#[derive(Clone, Copy, Debug, PartialEq, Eq, Structural)]
pub struct AllocationFailure;

impl AllocationFailure {
    /// A sentence for the caller to show. It is not allocated: it can be had
    /// where memory has run out.
    pub fn message(&self) -> (text: &'static str)
        ensures
            text@ == "Failed to allocate matrix"@,
    {
        "Failed to allocate matrix"
    }
}

/// What a matrix holds, as mathematics: its two dimensions and its cells, row
/// after row.
pub struct Grid {
    pub rows: nat,
    pub cols: nat,
    pub cells: Seq<i128>,
}

impl Grid {
    /// There is one cell for each pair of a row and a column, and `usize` can
    /// count the cells.
    pub open spec fn well_formed(self) -> bool {
        &&& self.cells.len() == self.rows * self.cols
        &&& self.rows * self.cols <= usize::MAX
    }

    /// The position lies inside the matrix.
    pub open spec fn contains(self, row: int, col: int) -> bool {
        0 <= row < self.rows && 0 <= col < self.cols
    }

    /// Where the cell stands in the buffer: rows lie one after the other.
    pub open spec fn offset(self, row: int, col: int) -> int {
        row * self.cols + col
    }

    /// The value stored at the position.
    pub open spec fn at(self, row: int, col: int) -> i128 {
        self.cells[self.offset(row, col)]
    }

    /// The matrix with one cell overwritten.
    pub open spec fn with(self, row: int, col: int, value: i128) -> Grid {
        Grid { cells: self.cells.update(self.offset(row, col), value), ..self }
    }

    /// The matrix of the given size that holds zero everywhere.
    pub open spec fn zeroed(rows: nat, cols: nat) -> Grid {
        Grid { rows, cols, cells: Seq::new(rows * cols, |k: int| 0i128) }
    }
}

/// A position inside the matrix has its offset inside the buffer.
pub proof fn lemma_offset_in_buffer(grid: Grid, row: int, col: int)
    requires
        grid.well_formed(),
        grid.contains(row, col),
    ensures
        0 <= grid.offset(row, col) < grid.cells.len(),
{
    let cols = grid.cols as int;
    let rows = grid.rows as int;
    assert(0 <= row * cols && row * cols + cols <= rows * cols) by (nonlinear_arith)
        requires
            0 <= row < rows,
            0 <= cols,
    ;
}

/// Two positions inside the matrix share an offset only where they are the
/// same position.
pub proof fn lemma_offsets_differ(grid: Grid, row: int, col: int, other_row: int, other_col: int)
    requires
        grid.contains(row, col),
        grid.contains(other_row, other_col),
        grid.offset(row, col) == grid.offset(other_row, other_col),
    ensures
        row == other_row,
        col == other_col,
{
    let cols = grid.cols as int;
    if row < other_row {
        assert(row * cols + cols <= other_row * cols) by (nonlinear_arith)
            requires
                row < other_row,
                0 <= cols,
        ;
    } else if other_row < row {
        assert(other_row * cols + cols <= row * cols) by (nonlinear_arith)
            requires
                other_row < row,
                0 <= cols,
        ;
    }
}

/// Overwriting one cell changes that cell and no other.
pub proof fn lemma_with_changes_one_cell(grid: Grid, row: int, col: int, value: i128)
    requires
        grid.well_formed(),
        grid.contains(row, col),
    ensures
        grid.with(row, col, value).well_formed(),
        grid.with(row, col, value).at(row, col) == value,
        forall|r: int, c: int|
            grid.contains(r, c) && !(r == row && c == col) ==> #[trigger] grid.with(
                row,
                col,
                value,
            ).at(r, c) == grid.at(r, c),
{
    lemma_offset_in_buffer(grid, row, col);
    assert forall|r: int, c: int| grid.contains(r, c) && !(r == row && c == col) implies #[trigger]
    grid.with(row, col, value).at(r, c) == grid.at(r, c) by {
        lemma_offset_in_buffer(grid, r, c);
        if grid.offset(r, c) == grid.offset(row, col) {
            lemma_offsets_differ(grid, r, c, row, col);
        }
    }
}

/// A matrix of `rows` by `cols` signed integers in one buffer.
pub struct ScoreMatrix {
    rows: usize,
    cols: usize,
    data: Vec<i128>,
}

impl View for ScoreMatrix {
    type V = Grid;

    closed spec fn view(&self) -> Grid {
        Grid { rows: self.rows as nat, cols: self.cols as nat, cells: self.data@ }
    }
}

/// Storage for `count` cells that hold zero, or nothing where the allocator
/// refuses it. The storage is reserved first, so that a refusal is an answer
/// and not the end of the process. No storage is asked for where `count` is
/// zero.
fn zeroed_cells(count: usize) -> (storage: Option<Vec<i128>>)
    ensures
        count == 0 ==> storage is Some,
        storage matches Some(cells) ==> cells@ == Seq::new(count as nat, |k: int| 0i128),
{
    let mut cells: Vec<i128> = Vec::new();
    if count > 0 {
        if cells.try_reserve(count).is_err() {
            return None;
        }
    }
    cells.resize(count, 0i128);
    Some(cells)
}

/// What `count` gaps in a row cost.
pub(crate) fn gap_run(count: usize, gap_penalty: i32) -> (total: i128)
    ensures
        total == count * gap_penalty,
{
    assert(-0x8000_0000_0000_0000_0000_0000 <= count * gap_penalty
        <= 0x8000_0000_0000_0000_0000_0000) by (nonlinear_arith)
        requires
            0 <= count <= 0xffff_ffff_ffff_ffff,
            -0x8000_0000 <= gap_penalty <= 0x8000_0000,
    ;
    (count as i128) * (gap_penalty as i128)
}

impl ScoreMatrix {
    /// The largest number of cells that a matrix may have: more would not fit
    /// in the memory that one allocation can span.
    pub open spec fn max_cells() -> int {
        isize::MAX / 16
    }

    /// [`Self::max_cells`], computed.
    pub fn cell_limit() -> (limit: usize)
        ensures
            limit == Self::max_cells(),
    {
        (isize::MAX as usize) / 16
    }

    /// Creates the matrix of `rows` by `cols` cells, each of them zero.
    ///
    /// It fails where the number of cells is beyond [`Self::max_cells`], which
    /// covers a product that overflows `usize`, and where the allocator
    /// refuses the storage. A matrix without cells needs no storage and is
    /// always created.
    pub fn new(rows: usize, cols: usize) -> (created: Result<ScoreMatrix, AllocationFailure>)
        ensures
            rows * cols > Self::max_cells() ==> created is Err,
            rows * cols == 0 ==> created is Ok,
            created matches Ok(matrix) ==> matrix@.well_formed(),
            created matches Ok(matrix) ==> matrix@ == Grid::zeroed(rows as nat, cols as nat),
    {
        let count: usize = match rows.checked_mul(cols) {
            Some(count) => count,
            None => {
                return Err(AllocationFailure);
            },
        };
        if count > Self::cell_limit() {
            return Err(AllocationFailure);
        }
        Self::from_storage(rows, cols, zeroed_cells(count))
    }

    /// Makes a matrix of `rows` by `cols` out of storage that was obtained for
    /// it, row after row. It fails where there is no storage, and where the
    /// storage does not hold one cell for each position.
    pub fn from_storage(rows: usize, cols: usize, storage: Option<Vec<i128>>) -> (created: Result<
        ScoreMatrix,
        AllocationFailure,
    >)
        ensures
            created is Ok <==> (storage matches Some(cells) && cells@.len() == rows * cols),
            created matches Ok(matrix) ==> matrix@.well_formed(),
            created matches Ok(matrix) ==> storage matches Some(cells) && matrix@ == (Grid {
                rows: rows as nat,
                cols: cols as nat,
                cells: cells@,
            }),
    {
        match storage {
            None => Err(AllocationFailure),
            Some(cells) => {
                let held: usize = cells.len();
                match rows.checked_mul(cols) {
                    None => Err(AllocationFailure),
                    Some(count) => {
                        if held == count {
                            Ok(ScoreMatrix { rows, cols, data: cells })
                        } else {
                            Err(AllocationFailure)
                        }
                    },
                }
            },
        }
    }

    /// The number of rows.
    pub fn rows(&self) -> (rows: usize)
        ensures
            rows == self@.rows,
    {
        self.rows
    }

    /// The number of columns.
    pub fn cols(&self) -> (cols: usize)
        ensures
            cols == self@.cols,
    {
        self.cols
    }

    /// Writes the cost of leading gaps along the two borders: cell (0, `j`)
    /// becomes `j` times the gap penalty and cell (`i`, 0) becomes `i` times
    /// the gap penalty. The cells inside are left as they were.
    pub fn init(&mut self, gap_penalty: i32)
        requires
            old(self)@.well_formed(),
        ensures
            final(self)@.well_formed(),
            final(self)@.rows == old(self)@.rows,
            final(self)@.cols == old(self)@.cols,
            forall|row: int, col: int|
                final(self)@.contains(row, col) ==> #[trigger] final(self)@.at(row, col) == (if row
                    == 0 {
                    col * gap_penalty
                } else if col == 0 {
                    row * gap_penalty
                } else {
                    old(self)@.at(row, col) as int
                }),
    {
        let rows: usize = self.rows;
        let cols: usize = self.cols;
        if rows == 0 || cols == 0 {
            return;
        }
        let mut col: usize = 0;
        while col < cols
            invariant
                self@.well_formed(),
                self@.rows == old(self)@.rows == rows,
                self@.cols == old(self)@.cols == cols,
                rows > 0,
                col <= cols,
                forall|r: int, c: int|
                    self@.contains(r, c) ==> #[trigger] self@.at(r, c) == (if r == 0 && c < col {
                        c * gap_penalty
                    } else {
                        old(self)@.at(r, c) as int
                    }),
            decreases cols - col,
        {
            self.set(0, col, gap_run(col, gap_penalty));
            col = col + 1;
        }
        let mut row: usize = 0;
        while row < rows
            invariant
                self@.well_formed(),
                self@.rows == old(self)@.rows == rows,
                self@.cols == old(self)@.cols == cols,
                cols > 0,
                row <= rows,
                forall|r: int, c: int|
                    self@.contains(r, c) ==> #[trigger] self@.at(r, c) == (if r == 0 {
                        c * gap_penalty
                    } else if c == 0 && r < row {
                        r * gap_penalty
                    } else {
                        old(self)@.at(r, c) as int
                    }),
            decreases rows - row,
        {
            self.set(row, 0, gap_run(row, gap_penalty));
            row = row + 1;
        }
    }

    /// The value stored at (`row`, `col`).
    pub fn get(&self, row: usize, col: usize) -> (value: i128)
        requires
            self@.well_formed(),
            self@.contains(row as int, col as int),
        ensures
            value == self@.at(row as int, col as int),
    {
        proof {
            lemma_offset_in_buffer(self@, row as int, col as int);
            assert(self.data@.len() == self.data.len());
        }
        self.data[row * self.cols + col]
    }

    /// Overwrites the value stored at (`row`, `col`) and leaves every other
    /// cell as it was.
    pub fn set(&mut self, row: usize, col: usize, value: i128)
        requires
            old(self)@.well_formed(),
            old(self)@.contains(row as int, col as int),
        ensures
            final(self)@ == old(self)@.with(row as int, col as int, value),
            final(self)@.well_formed(),
            final(self)@.at(row as int, col as int) == value,
            forall|r: int, c: int|
                old(self)@.contains(r, c) && !(r == row && c == col)
                    ==> #[trigger] final(self)@.at(r, c) == old(self)@.at(r, c),
    {
        proof {
            lemma_offset_in_buffer(self@, row as int, col as int);
            lemma_with_changes_one_cell(self@, row as int, col as int, value);
            assert(self.data@.len() == self.data.len());
        }
        let offset: usize = row * self.cols + col;
        self.data.set(offset, value);
    }
}

} // verus!
