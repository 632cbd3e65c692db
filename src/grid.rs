//! The grid of formatted cell texts that the header search reads.
use vstd::prelude::*;

verus! {

/// The texts of a sequence of strings.
pub open spec fn texts_of(v: Seq<String>) -> Seq<Seq<char>> {
    v.map_values(|s: String| s@)
}

/// A read-only, 1-indexed grid of formatted cell texts.
///
/// Rows run from 1 to `highest_row()`, columns from 1 to `highest_column()`;
/// a cell that holds nothing reads as the empty string.
pub trait CellGrid {
    /// Number of rows, that is the highest row index.
    spec fn row_count(&self) -> nat;

    /// Number of columns, that is the highest column index.
    spec fn column_count(&self) -> nat;

    /// The formatted text of the cell at `(row, col)`.
    spec fn cell_text(&self, row: int, col: int) -> Seq<char>;

    /// The cell at `(row, col)` can be formatted: reading it returns.
    spec fn cell_formats(&self, row: int, col: int) -> bool;

    fn highest_row(&self) -> (r: u32)
        ensures
            r as nat == self.row_count(),
    ;

    fn highest_column(&self) -> (r: u32)
        ensures
            r as nat == self.column_count(),
    ;

    fn formatted_value(&self, row: u32, col: u32) -> (r: String)
        requires
            self.cell_formats(row as int, col as int),
        ensures
            r@ == self.cell_text(row as int, col as int),
    ;
}

/// Every cell of the grid can be formatted.
pub open spec fn all_cells_format<G: CellGrid>(g: &G) -> bool {
    forall|r: int, c: int|
        1 <= r <= g.row_count() && 1 <= c <= g.column_count() ==> #[trigger] g.cell_formats(r, c)
}

/// Every cell of a `Grid` can be formatted.
pub proof fn lemma_grid_cells_format(g: &Grid)
    ensures
        all_cells_format(g),
{
}

/// A grid held in memory as rows of texts.
///
/// A row may be shorter than the grid is wide: the cells past its end are
/// empty.
pub struct Grid {
    highest_column: u32,
    cells: Vec<Vec<String>>,
}

impl Grid {
    #[verifier::type_invariant]
    spec fn well_formed(self) -> bool {
        &&& self.cells@.len() <= u32::MAX
        &&& forall|i: int| 0 <= i < self.cells@.len() ==> #[trigger] self.cells@[i]@.len() <= self.highest_column
    }

    /// An empty grid, `highest_column` columns wide.
    pub fn new(highest_column: u32) -> (g: Grid)
        ensures
            g.row_count() == 0,
            g.column_count() == highest_column,
    {
        Grid { highest_column, cells: Vec::new() }
    }

    /// Appends `row` as the grid's new last row.
    pub fn push_row(&mut self, row: Vec<String>)
        requires
            old(self).row_count() < u32::MAX,
            row@.len() <= old(self).column_count(),
        ensures
            final(self).row_count() == old(self).row_count() + 1,
            final(self).column_count() == old(self).column_count(),
            forall|r: int, c: int| 1 <= r <= old(self).row_count() ==> #[trigger] final(self).cell_text(r, c) == old(self).cell_text(r, c),
            forall|c: int| 1 <= c <= row@.len() ==> #[trigger] final(self).cell_text(old(self).row_count() + 1int, c) == row@[c - 1]@,
            forall|c: int| row@.len() < c ==> #[trigger] final(self).cell_text(old(self).row_count() + 1int, c).len() == 0,
    {
        proof {
            use_type_invariant(&*self);
        }
        let highest_column = self.highest_column;
        let mut cells: Vec<Vec<String>> = Vec::new();
        std::mem::swap(&mut cells, &mut self.cells);
        cells.push(row);
        assert(cells@.last()@.len() <= highest_column);
        *self = Grid { highest_column, cells };
    }
}

impl CellGrid for Grid {
    closed spec fn row_count(&self) -> nat {
        self.cells@.len()
    }

    closed spec fn column_count(&self) -> nat {
        self.highest_column as nat
    }

    closed spec fn cell_text(&self, row: int, col: int) -> Seq<char> {
        if 1 <= row <= self.cells@.len() && 1 <= col <= self.cells@[row - 1]@.len() {
            self.cells@[row - 1]@[col - 1]@
        } else {
            Seq::empty()
        }
    }

    closed spec fn cell_formats(&self, row: int, col: int) -> bool {
        true
    }

    fn highest_row(&self) -> (r: u32) {
        proof {
            use_type_invariant(self);
        }
        self.cells.len() as u32
    }

    fn highest_column(&self) -> (r: u32) {
        self.highest_column
    }

    fn formatted_value(&self, row: u32, col: u32) -> (r: String) {
        if 1 <= row && (row as usize) <= self.cells.len() {
            let cells = &self.cells[row as usize - 1];
            if 1 <= col && (col as usize) <= cells.len() {
                return cells[col as usize - 1].clone();
            }
        }
        String::new()
    }
}

} // verus!
