//! A spreadsheet worksheet read as a grid of formatted cell texts.
use vstd::prelude::*;

use umya_spreadsheet::Worksheet;

use crate::grid::CellGrid;

verus! {

#[verifier::external_type_specification]
#[verifier::external_body]
pub struct ExWorksheet(Worksheet);

/// The highest row index among the worksheet's cells.
pub uninterp spec fn sheet_highest_row(s: Worksheet) -> u32;

/// The highest column index among the worksheet's cells.
pub uninterp spec fn sheet_highest_column(s: Worksheet) -> u32;

/// The formatted text of the worksheet's cell at column `col`, row `row`.
pub uninterp spec fn sheet_text(s: Worksheet, col: u32, row: u32) -> Seq<char>;

/// The worksheet's cell at column `col`, row `row` can be formatted: it does
/// not hold a number under a date format that lies past the range of dates
/// that the formatting supports, on which formatting panics.
pub uninterp spec fn sheet_cell_formats(s: Worksheet, col: u32, row: u32) -> bool;

/// Relies on `Worksheet::highest_row`, which reads the last entry of the
/// worksheet's row index of cells.
#[verifier::external_body]
fn worksheet_highest_row(s: &Worksheet) -> (r: u32)
    ensures
        r == sheet_highest_row(*s),
{
    Worksheet::highest_row(s)
}

/// Relies on `Worksheet::highest_column`, which reads the last entry of the
/// worksheet's column index of cells.
#[verifier::external_body]
fn worksheet_highest_column(s: &Worksheet) -> (r: u32)
    ensures
        r == sheet_highest_column(*s),
{
    Worksheet::highest_column(s)
}

/// Relies on `Worksheet::formatted_value`, which formats the cell at
/// `(col, row)` by its number format, or gives an empty string where the
/// worksheet holds no cell there. It panics on a number under a date format
/// past the supported range of dates, which `requires` leaves out.
#[verifier::external_body]
fn worksheet_formatted_value(s: &Worksheet, row: u32, col: u32) -> (r: String)
    requires
        sheet_cell_formats(*s, col, row),
    ensures
        sheet_cell_formats(*s, col, row) ==> r@ == sheet_text(*s, col, row),
{
    Worksheet::formatted_value(s, (col, row))
}

impl CellGrid for Worksheet {
    open spec fn row_count(&self) -> nat {
        sheet_highest_row(*self) as nat
    }

    open spec fn column_count(&self) -> nat {
        sheet_highest_column(*self) as nat
    }

    open spec fn cell_text(&self, row: int, col: int) -> Seq<char> {
        if 0 <= row <= u32::MAX && 0 <= col <= u32::MAX {
            sheet_text(*self, col as u32, row as u32)
        } else {
            Seq::empty()
        }
    }

    open spec fn cell_formats(&self, row: int, col: int) -> bool {
        0 <= row <= u32::MAX && 0 <= col <= u32::MAX && sheet_cell_formats(
            *self,
            col as u32,
            row as u32,
        )
    }

    fn highest_row(&self) -> (r: u32) {
        worksheet_highest_row(self)
    }

    fn highest_column(&self) -> (r: u32) {
        worksheet_highest_column(self)
    }

    fn formatted_value(&self, row: u32, col: u32) -> (r: String) {
        worksheet_formatted_value(self, row, col)
    }
}

} // verus!
