//! The rows beneath a located header row, projected onto its columns.
use vstd::prelude::*;

use crate::grid::{texts_of, CellGrid};
use crate::locate::{columns_view, HeaderInfo};

verus! {

/// The texts of `row` at the columns `cols`, in their order.
pub open spec fn projected<G: CellGrid>(g: &G, cols: Seq<int>, row: int) -> Seq<Seq<char>> {
    cols.map_values(|c: int| g.cell_text(row, c))
}

/// Every text is empty.
pub open spec fn is_blank(values: Seq<Seq<char>>) -> bool {
    forall|i: int| 0 <= i < values.len() ==> (#[trigger] values[i]).len() == 0
}

/// The projections of rows `row..=row_count()` onto `cols`, blank ones left out.
pub open spec fn rows_from<G: CellGrid>(g: &G, cols: Seq<int>, row: int) -> Seq<Seq<Seq<char>>>
    decreases g.row_count() + 1 - row,
{
    if row > g.row_count() {
        Seq::empty()
    } else if is_blank(projected(g, cols, row)) {
        rows_from(g, cols, row + 1)
    } else {
        seq![projected(g, cols, row)] + rows_from(g, cols, row + 1)
    }
}

/// A row whose texts at the projected columns are all empty is left out,
/// whatever its other columns hold, and no row that is kept is blank there.
pub proof fn lemma_blank_rows_left_out<G: CellGrid>(g: &G, cols: Seq<int>, row: int)
    ensures
        row <= g.row_count() && is_blank(projected(g, cols, row)) ==> rows_from(g, cols, row)
            == rows_from(g, cols, row + 1),
        forall|k: int|
            0 <= k < rows_from(g, cols, row).len() ==> !is_blank(#[trigger] rows_from(g, cols, row)[k]),
    decreases g.row_count() + 1 - row,
{
    if row <= g.row_count() {
        lemma_blank_rows_left_out(g, cols, row + 1);
        let rest = rows_from(g, cols, row + 1);
        if !is_blank(projected(g, cols, row)) {
            assert forall|k: int| 0 <= k < rows_from(g, cols, row).len() implies !is_blank(
                #[trigger] rows_from(g, cols, row)[k],
            ) by {
                if k > 0 {
                    assert(rows_from(g, cols, row)[k] == rest[k - 1]);
                }
            }
        }
    }
}

/// A forward-only walk over the rows beneath a header row, yielding each
/// row's texts at the header's columns and skipping the rows whose texts
/// there are all empty.
pub struct RowProjection {
    row: u32,
    columns: Vec<u32>,
}

impl View for RowProjection {
    /// The rows that remain to be read start after the first component.
    type V = (int, Seq<int>);

    closed spec fn view(&self) -> (int, Seq<int>) {
        (self.row as int, columns_view(self.columns@))
    }
}

impl RowProjection {
    /// The projections that `next_row` will still yield on `g`.
    pub open spec fn remaining<G: CellGrid>(self, g: &G) -> Seq<Seq<Seq<char>>> {
        rows_from(g, self@.1, self@.0 + 1)
    }

    /// Starts below the header row of `header`, on its columns.
    pub fn new(header: HeaderInfo) -> (p: RowProjection)
        ensures
            p@ == header@,
    {
        RowProjection { row: header.row, columns: header.header_column }
    }

    /// Yields the next row beneath the header that is not blank on the
    /// header's columns, or `None` once the grid's rows are used up.
    pub fn next_row<G: CellGrid>(&mut self, sheet: &G) -> (r: Option<Vec<String>>)
        requires
            forall|row: int, k: int|
                old(self)@.0 < row <= sheet.row_count() && 0 <= k < old(self)@.1.len()
                    ==> #[trigger] sheet.cell_formats(row, old(self)@.1[k]),
        ensures
            final(self)@.1 == old(self)@.1,
            match r {
                Some(values) => old(self).remaining(sheet) == seq![texts_of(values@)]
                    + final(self).remaining(sheet),
                None => old(self).remaining(sheet) == Seq::<Seq<Seq<char>>>::empty(),
            },
    {
        let height = sheet.highest_row();
        while self.row < height
            invariant
                height as nat == sheet.row_count(),
                self@.1 == old(self)@.1,
                old(self).remaining(sheet) == self.remaining(sheet),
                old(self)@.0 <= self@.0,
                forall|row: int, k: int|
                    old(self)@.0 < row <= sheet.row_count() && 0 <= k < old(self)@.1.len()
                        ==> #[trigger] sheet.cell_formats(row, old(self)@.1[k]),
            decreases height - self.row,
        {
            self.row = self.row + 1;
            assert forall|k: int| 0 <= k < self.columns@.len() implies #[trigger] sheet.cell_formats(
                self.row as int,
                self.columns@[k] as int,
            ) by {
                assert(old(self)@.1[k] == self.columns@[k] as int);
            }
            let values = row_values(sheet, &self.columns, self.row);
            if !all_empty(&values) {
                return Some(values);
            }
        }
        None
    }
}

/// The texts of `row` at the columns `cols`.
fn row_values<G: CellGrid>(sheet: &G, cols: &Vec<u32>, row: u32) -> (r: Vec<String>)
    requires
        forall|k: int| 0 <= k < cols@.len() ==> #[trigger] sheet.cell_formats(row as int, cols@[k] as int),
    ensures
        texts_of(r@) == projected(sheet, columns_view(cols@), row as int),
{
    let mut out: Vec<String> = Vec::new();
    let mut j: usize = 0;
    while j < cols.len()
        invariant
            j <= cols@.len(),
            out@.len() == j,
            forall|k: int| 0 <= k < cols@.len() ==> #[trigger] sheet.cell_formats(row as int, cols@[k] as int),
            forall|k: int|
                0 <= k < j ==> (#[trigger] out@[k])@ == sheet.cell_text(row as int, cols@[k] as int),
        decreases cols@.len() - j,
    {
        out.push(sheet.formatted_value(row, cols[j]));
        j = j + 1;
    }
    assert(texts_of(out@) =~= projected(sheet, columns_view(cols@), row as int));
    out
}

fn all_empty(values: &Vec<String>) -> (r: bool)
    ensures
        r == is_blank(texts_of(values@)),
{
    let mut j: usize = 0;
    while j < values.len()
        invariant
            j <= values@.len(),
            forall|k: int| 0 <= k < j ==> (#[trigger] texts_of(values@)[k]).len() == 0,
        decreases values@.len() - j,
    {
        if !values[j].as_str().is_empty() {
            assert(texts_of(values@)[j as int].len() != 0);
            return false;
        }
        j = j + 1;
    }
    true
}

} // verus!
