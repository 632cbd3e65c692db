//! Finding the header row: the topmost row that holds one column for each
//! requested label, with duplicate labels bound to distinct columns.
use vstd::prelude::*;

use crate::grid::{all_cells_format, texts_of, CellGrid};

verus! {

/// Where the requested headers were found.
pub struct HeaderInfo {
    /// The header row.
    pub row: u32,
    /// One column for each requested label, in the order of the request.
    pub header_column: Vec<u32>,
}

impl View for HeaderInfo {
    type V = (int, Seq<int>);

    open spec fn view(&self) -> (int, Seq<int>) {
        (self.row as int, columns_view(self.header_column@))
    }
}

/// Columns as integers.
pub open spec fn columns_view(cols: Seq<u32>) -> Seq<int> {
    cols.map_values(|c: u32| c as int)
}

/// Slots, one per label, each holding the column bound to it so far.
pub open spec fn slots_view(slots: Seq<Option<u32>>) -> Seq<Option<int>> {
    slots.map_values(
        |s: Option<u32>|
            match s {
                Some(c) => Some(c as int),
                None => None,
            },
    )
}

/// The first slot at or after `i` that asks for `text` and is still unbound,
/// or `labels.len()` where there is none.
pub open spec fn first_free_slot(
    labels: Seq<Seq<char>>,
    slots: Seq<Option<int>>,
    text: Seq<char>,
    i: int,
) -> int
    decreases labels.len() - i,
{
    if i >= labels.len() {
        labels.len() as int
    } else if labels[i] == text && slots[i] is None {
        i
    } else {
        first_free_slot(labels, slots, text, i + 1)
    }
}

/// The slots after a cell of text `text` in column `col` is read: a non-empty
/// text binds the first unbound slot that asks for it.
pub open spec fn assign_column(
    labels: Seq<Seq<char>>,
    slots: Seq<Option<int>>,
    text: Seq<char>,
    col: int,
) -> Seq<Option<int>> {
    let i = first_free_slot(labels, slots, text, 0);
    if text.len() > 0 && i < labels.len() {
        slots.update(i, Some(col))
    } else {
        slots
    }
}

/// The slots after columns `1..=cols` of `row` have been read, left to right.
pub open spec fn scan_row<G: CellGrid>(g: &G, labels: Seq<Seq<char>>, row: int, cols: int) -> Seq<
    Option<int>,
>
    decreases cols,
{
    if cols <= 0 {
        Seq::new(labels.len(), |i: int| None)
    } else {
        assign_column(labels, scan_row(g, labels, row, cols - 1), g.cell_text(row, cols), cols)
    }
}

/// Every slot is bound.
pub open spec fn all_assigned(slots: Seq<Option<int>>) -> bool {
    forall|i: int| 0 <= i < slots.len() ==> #[trigger] slots[i] is Some
}

/// The columns that `row` binds to the labels, where it binds them all.
pub open spec fn row_match<G: CellGrid>(g: &G, labels: Seq<Seq<char>>, row: int) -> Option<
    Seq<int>,
> {
    let slots = scan_row(g, labels, row, g.column_count() as int);
    if labels.len() > 0 && all_assigned(slots) {
        Some(slots.map_values(|s: Option<int>| s->0))
    } else {
        None
    }
}

/// The first row from `row` down that binds all labels, with its columns.
pub open spec fn locate_from<G: CellGrid>(g: &G, labels: Seq<Seq<char>>, row: int) -> Option<
    (int, Seq<int>),
>
    decreases g.row_count() + 1 - row,
{
    if row > g.row_count() {
        None
    } else {
        match row_match(g, labels, row) {
            Some(cols) => Some((row, cols)),
            None => locate_from(g, labels, row + 1),
        }
    }
}

/// The header row of the grid for the labels, with its columns.
pub open spec fn located<G: CellGrid>(g: &G, labels: Seq<Seq<char>>) -> Option<(int, Seq<int>)> {
    locate_from(g, labels, 1)
}

proof fn lemma_first_free_slot(
    labels: Seq<Seq<char>>,
    slots: Seq<Option<int>>,
    text: Seq<char>,
    i: int,
)
    requires
        0 <= i,
    ensures
        i <= first_free_slot(labels, slots, text, i) <= labels.len() || labels.len() < i,
        first_free_slot(labels, slots, text, i) < labels.len() ==> labels[first_free_slot(labels, slots, text, i)] == text
            && slots[first_free_slot(labels, slots, text, i)] is None,
        forall|k: int|
            i <= k < first_free_slot(labels, slots, text, i) ==> !(labels[k] == text && #[trigger] slots[k] is None),
    decreases labels.len() - i,
{
    if i < labels.len() && !(labels[i] == text && slots[i] is None) {
        lemma_first_free_slot(labels, slots, text, i + 1);
    }
}

proof fn lemma_scan_len<G: CellGrid>(g: &G, labels: Seq<Seq<char>>, row: int, cols: int)
    ensures
        scan_row(g, labels, row, cols).len() == labels.len(),
    decreases cols,
{
    if cols > 0 {
        lemma_scan_len(g, labels, row, cols - 1);
        lemma_first_free_slot(labels, scan_row(g, labels, row, cols - 1), g.cell_text(row, cols), 0);
    }
}

proof fn lemma_no_free_slot(labels: Seq<Seq<char>>, slots: Seq<Option<int>>, text: Seq<char>, i: int)
    requires
        0 <= i,
        slots.len() == labels.len(),
        all_assigned(slots),
    ensures
        first_free_slot(labels, slots, text, i) == labels.len(),
    decreases labels.len() - i,
{
    if i < labels.len() {
        assert(slots[i] is Some);
        lemma_no_free_slot(labels, slots, text, i + 1);
    }
}

/// Once every slot is bound, reading further columns changes nothing.
proof fn lemma_complete_stays<G: CellGrid>(
    g: &G,
    labels: Seq<Seq<char>>,
    row: int,
    c1: int,
    c2: int,
)
    requires
        0 <= c1 <= c2,
        all_assigned(scan_row(g, labels, row, c1)),
    ensures
        scan_row(g, labels, row, c2) == scan_row(g, labels, row, c1),
    decreases c2,
{
    if c2 > c1 {
        lemma_complete_stays(g, labels, row, c1, c2 - 1);
        lemma_scan_len(g, labels, row, c1);
        lemma_no_free_slot(labels, scan_row(g, labels, row, c1), g.cell_text(row, c2), 0);
    }
}

fn first_free(headers: &[String], indexes: &Vec<Option<u32>>, text: &String) -> (r: usize)
    requires
        indexes@.len() == headers@.len(),
    ensures
        r as int == first_free_slot(texts_of(headers@), slots_view(indexes@), text@, 0),
{
    let n = headers.len();
    let mut j: usize = 0;
    while j < n
        invariant
            j <= n,
            n == headers@.len(),
            indexes@.len() == n,
            first_free_slot(texts_of(headers@), slots_view(indexes@), text@, 0) == first_free_slot(
                texts_of(headers@),
                slots_view(indexes@),
                text@,
                j as int,
            ),
        decreases n - j,
    {
        if indexes[j].is_none() && headers[j] == *text {
            return j;
        }
        j = j + 1;
    }
    n
}

fn all_filled(indexes: &Vec<Option<u32>>) -> (r: bool)
    ensures
        r == all_assigned(slots_view(indexes@)),
{
    let mut j: usize = 0;
    while j < indexes.len()
        invariant
            j <= indexes@.len(),
            forall|k: int| 0 <= k < j ==> #[trigger] slots_view(indexes@)[k] is Some,
        decreases indexes@.len() - j,
    {
        if indexes[j].is_none() {
            assert(slots_view(indexes@)[j as int] is None);
            return false;
        }
        j = j + 1;
    }
    true
}

fn filled_columns(indexes: &Vec<Option<u32>>) -> (r: Vec<u32>)
    requires
        all_assigned(slots_view(indexes@)),
    ensures
        columns_view(r@) == slots_view(indexes@).map_values(|s: Option<int>| s->0),
{
    let mut out: Vec<u32> = Vec::new();
    let mut j: usize = 0;
    while j < indexes.len()
        invariant
            j <= indexes@.len(),
            all_assigned(slots_view(indexes@)),
            out@.len() == j,
            forall|k: int| 0 <= k < j ==> slots_view(indexes@)[k] == Some(#[trigger] out@[k] as int),
        decreases indexes@.len() - j,
    {
        assert(slots_view(indexes@)[j as int] is Some);
        match indexes[j] {
            Some(c) => out.push(c),
            None => {},
        }
        j = j + 1;
    }
    assert(columns_view(out@) =~= slots_view(indexes@).map_values(|s: Option<int>| s->0));
    out
}

/// Binds the requested labels to columns of `row`: scanning the columns left
/// to right, each non-empty cell binds the first still unbound slot that asks
/// for its text. Returns the columns once every slot is bound, and `None` if
/// the row ends first (always so for an empty request).
pub fn find_header_in_row<G: CellGrid>(row: u32, sheet: &G, headers: &[String]) -> (r: Option<
    Vec<u32>,
>)
    requires
        forall|c: int| 1 <= c <= sheet.column_count() ==> #[trigger] sheet.cell_formats(row as int, c),
    ensures
        match r {
            Some(cols) => row_match(sheet, texts_of(headers@), row as int) == Some(
                columns_view(cols@),
            ),
            None => row_match(sheet, texts_of(headers@), row as int) is None,
        },
{
    let ghost labels = texts_of(headers@);
    let n = headers.len();
    let mut indexes: Vec<Option<u32>> = Vec::new();
    let mut i: usize = 0;
    while i < n
        invariant
            i <= n,
            n == headers@.len(),
            indexes@.len() == i,
            forall|k: int| 0 <= k < i ==> #[trigger] indexes@[k] is None,
        decreases n - i,
    {
        indexes.push(None);
        i = i + 1;
    }
    assert(slots_view(indexes@) =~= scan_row(sheet, labels, row as int, 0));
    if n > 0 {
        assert(slots_view(indexes@)[0] is None);
    }
    let width = sheet.highest_column();
    let mut done: u32 = 0;
    while done < width
        invariant
            done <= width,
            width as nat == sheet.column_count(),
            n == headers@.len(),
            labels == texts_of(headers@),
            indexes@.len() == n,
            slots_view(indexes@) == scan_row(sheet, labels, row as int, done as int),
            n > 0 ==> !all_assigned(slots_view(indexes@)),
            forall|c: int| 1 <= c <= sheet.column_count() ==> #[trigger] sheet.cell_formats(row as int, c),
        decreases width - done,
    {
        let col = done + 1;
        let text = sheet.formatted_value(row, col);
        if !text.as_str().is_empty() {
            let slot = first_free(headers, &indexes, &text);
            if slot < n {
                indexes.set(slot, Some(col));
                assert(slots_view(indexes@) =~= scan_row(sheet, labels, row as int, col as int));
                if all_filled(&indexes) {
                    let cols = filled_columns(&indexes);
                    proof {
                        lemma_complete_stays(sheet, labels, row as int, col as int, width as int);
                    }
                    return Some(cols);
                }
            }
        }
        done = col;
    }
    None
}

/// Finds the topmost row that binds every requested label to a column (see
/// `find_header_in_row`), or `None` where no row does.
pub fn find_header<G: CellGrid>(sheet: &G, headers: &[String]) -> (r: Option<HeaderInfo>)
    requires
        all_cells_format(sheet),
    ensures
        match r {
            Some(h) => located(sheet, texts_of(headers@)) == Some(h@),
            None => located(sheet, texts_of(headers@)) is None,
        },
{
    let ghost labels = texts_of(headers@);
    let height = sheet.highest_row();
    let mut done: u32 = 0;
    while done < height
        invariant
            done <= height,
            height as nat == sheet.row_count(),
            labels == texts_of(headers@),
            all_cells_format(sheet),
            located(sheet, labels) == locate_from(sheet, labels, done + 1),
        decreases height - done,
    {
        let row = done + 1;
        assert forall|c: int| 1 <= c <= sheet.column_count() implies #[trigger] sheet.cell_formats(
            row as int,
            c,
        ) by {}
        if let Some(header_column) = find_header_in_row(row, sheet, headers) {
            return Some(HeaderInfo { row, header_column });
        }
        done = row;
    }
    None
}


/// What holds of the slots after columns `1..=c` of `row` are read: each bound
/// slot holds a column read so far whose text is its label; slots of one label
/// are bound in their order, to increasing columns; and each non-empty column
/// read so far is bound, unless every slot of its text was bound further left.
pub open spec fn scan_invariant<G: CellGrid>(
    g: &G,
    labels: Seq<Seq<char>>,
    row: int,
    c: int,
    a: Seq<Option<int>>,
) -> bool {
    &&& a.len() == labels.len()
    &&& forall|i: int|
        0 <= i < a.len() && #[trigger] a[i] is Some ==> 1 <= a[i]->0 <= c && g.cell_text(
            row,
            a[i]->0,
        ) == labels[i] && labels[i].len() > 0
    &&& forall|i: int, j: int|
        0 <= i < j < a.len() && labels[i] == labels[j] && #[trigger] a[j] is Some ==> #[trigger] a[i] is Some
            && a[i]->0 < a[j]->0
    &&& forall|x: int|
        1 <= x <= c && (#[trigger] g.cell_text(row, x)).len() > 0 ==> (exists|j: int|
            0 <= j < a.len() && #[trigger] a[j] == Some(x)) || (forall|i: int|
            0 <= i < a.len() && labels[i] == g.cell_text(row, x) ==> #[trigger] a[i] is Some && a[i]->0
                < x)
}

proof fn lemma_scan_invariant<G: CellGrid>(g: &G, labels: Seq<Seq<char>>, row: int, c: int)
    requires
        0 <= c,
    ensures
        scan_invariant(g, labels, row, c, scan_row(g, labels, row, c)),
    decreases c,
{
    lemma_scan_len(g, labels, row, c);
    if c > 0 {
        lemma_scan_invariant(g, labels, row, c - 1);
        let a = scan_row(g, labels, row, c - 1);
        let t = g.cell_text(row, c);
        let s = first_free_slot(labels, a, t, 0);
        lemma_first_free_slot(labels, a, t, 0);
        let b = scan_row(g, labels, row, c);
        if t.len() > 0 && s < labels.len() {
            assert(b == a.update(s, Some(c)));
            assert forall|i: int, j: int|
                0 <= i < j < b.len() && labels[i] == labels[j] && #[trigger] b[j] is Some implies #[trigger] b[i] is Some
                    && b[i]->0 < b[j]->0 by {
                if j == s {
                    assert(!(labels[i] == t && a[i] is None));
                } else if i == s {
                    assert(a[j] is Some);
                }
            }
            assert forall|x: int|
                1 <= x <= c && (#[trigger] g.cell_text(row, x)).len() > 0 implies (exists|j: int|
                    0 <= j < b.len() && #[trigger] b[j] == Some(x)) || (forall|i: int|
                    0 <= i < b.len() && labels[i] == g.cell_text(row, x) ==> #[trigger] b[i] is Some
                        && b[i]->0 < x) by {
                if x == c {
                    assert(b[s] == Some(x));
                } else {
                    if exists|j: int| 0 <= j < a.len() && #[trigger] a[j] == Some(x) {
                        let j = choose|j: int| 0 <= j < a.len() && #[trigger] a[j] == Some(x);
                        assert(b[j] == Some(x));
                    } else {
                        assert forall|i: int|
                            0 <= i < b.len() && labels[i] == g.cell_text(row, x) implies #[trigger] b[i] is Some
                                && b[i]->0 < x by {
                            assert(a[i] is Some);
                        }
                    }
                }
            }
        } else {
            assert(b == a);
            assert forall|x: int|
                1 <= x <= c && (#[trigger] g.cell_text(row, x)).len() > 0 implies (exists|j: int|
                    0 <= j < b.len() && #[trigger] b[j] == Some(x)) || (forall|i: int|
                    0 <= i < b.len() && labels[i] == g.cell_text(row, x) ==> #[trigger] b[i] is Some
                        && b[i]->0 < x) by {
                if x == c {
                    assert forall|i: int|
                        0 <= i < b.len() && labels[i] == g.cell_text(row, x) implies #[trigger] b[i] is Some
                            && b[i]->0 < x by {
                        assert(!(labels[i] == t && a[i] is None));
                    }
                }
            }
        }
    }
}

proof fn lemma_row_match_facts<G: CellGrid>(g: &G, labels: Seq<Seq<char>>, row: int)
    requires
        row_match(g, labels, row) is Some,
    ensures
        ({
            let cols = row_match(g, labels, row)->0;
            &&& cols.len() == labels.len()
            &&& forall|i: int|
                0 <= i < cols.len() ==> 1 <= #[trigger] cols[i] <= g.column_count() && g.cell_text(
                    row,
                    cols[i],
                ) == labels[i]
            &&& forall|i: int, j: int|
                0 <= i < j < cols.len() && labels[i] == labels[j] ==> #[trigger] cols[i]
                    < #[trigger] cols[j]
            &&& forall|i: int, c: int|
                0 <= i < cols.len() && 1 <= c < cols[i] && #[trigger] g.cell_text(row, c)
                    == #[trigger] labels[i] ==> exists|j: int|
                    0 <= j < i && labels[j] == labels[i] && #[trigger] cols[j] == c
        }),
{
    let w = g.column_count() as int;
    lemma_scan_invariant(g, labels, row, w);
    let a = scan_row(g, labels, row, w);
    let cols = row_match(g, labels, row)->0;
    assert(cols == a.map_values(|s: Option<int>| s->0));
    assert forall|i: int| 0 <= i < cols.len() implies 1 <= #[trigger] cols[i] <= g.column_count()
        && g.cell_text(row, cols[i]) == labels[i] by {
        assert(a[i] is Some);
    }
    assert forall|i: int, j: int| 0 <= i < j < cols.len() && labels[i] == labels[j] implies #[trigger] cols[i]
        < #[trigger] cols[j] by {
        assert(a[j] is Some);
    }
    assert forall|i: int, c: int|
        0 <= i < cols.len() && 1 <= c < cols[i] && #[trigger] g.cell_text(row, c)
            == #[trigger] labels[i] implies exists|j: int|
        0 <= j < i && labels[j] == labels[i] && #[trigger] cols[j] == c by {
        assert(a[i] is Some);
        assert(g.cell_text(row, c).len() > 0);
        if exists|j: int| 0 <= j < a.len() && #[trigger] a[j] == Some(c) {
            let j = choose|j: int| 0 <= j < a.len() && #[trigger] a[j] == Some(c);
            assert(cols[j] == c);
            if j > i {
                assert(a[j] is Some);
            }
        } else {
            assert(a[i] is Some && a[i]->0 < c);
        }
    }
}

proof fn lemma_locate_from<G: CellGrid>(g: &G, labels: Seq<Seq<char>>, r0: int)
    ensures
        match locate_from(g, labels, r0) {
            Some((row, cols)) => r0 <= row <= g.row_count() && row_match(g, labels, row) == Some(
                cols,
            ) && forall|r: int| r0 <= r < row ==> #[trigger] row_match(g, labels, r) is None,
            None => forall|r: int| r0 <= r <= g.row_count() ==> #[trigger] row_match(g, labels, r) is None,
        },
    decreases g.row_count() + 1 - r0,
{
    if r0 <= g.row_count() {
        lemma_locate_from(g, labels, r0 + 1);
    }
}

/// Every column of a located header holds, in the header row, exactly the
/// label that it was bound to.
pub proof fn lemma_located_columns_hold_labels<G: CellGrid>(g: &G, labels: Seq<Seq<char>>)
    ensures
        located(g, labels) matches Some((row, cols)) ==> cols.len() == labels.len() && forall|i: int|
            0 <= i < cols.len() ==> g.cell_text(row, #[trigger] cols[i]) == labels[i],
{
    lemma_locate_from(g, labels, 1);
    if let Some((row, cols)) = located(g, labels) {
        lemma_row_match_facts(g, labels, row);
    }
}

/// Of two rows that each bind every label, the one further down is never the
/// header row: the header is the topmost row that binds them all.
pub proof fn lemma_topmost_row_wins<G: CellGrid>(
    g: &G,
    labels: Seq<Seq<char>>,
    r1: int,
    r2: int,
)
    requires
        1 <= r1 < r2 <= g.row_count(),
        row_match(g, labels, r1) is Some,
        row_match(g, labels, r2) is Some,
    ensures
        located(g, labels) is Some,
        (located(g, labels)->0).0 <= r1,
        (forall|r: int| 1 <= r < r1 ==> #[trigger] row_match(g, labels, r) is None) ==> located(
            g,
            labels,
        ) == Some((r1, row_match(g, labels, r1)->0)),
{
    lemma_locate_from(g, labels, 1);
}

/// In a row that binds every label, each slot holds the leftmost column with
/// its label that no earlier slot of the same label holds.
pub proof fn lemma_leftmost_columns<G: CellGrid>(g: &G, labels: Seq<Seq<char>>, row: int)
    requires
        row_match(g, labels, row) is Some,
    ensures
        forall|i: int, c: int|
            0 <= i < labels.len() && 1 <= c < row_match(g, labels, row)->0[i] && #[trigger] g.cell_text(
                row,
                c,
            ) == #[trigger] labels[i] ==> exists|j: int|
                0 <= j < i && labels[j] == labels[i] && #[trigger] row_match(g, labels, row)->0[j] == c,
        forall|i: int, j: int|
            0 <= i < j < labels.len() && labels[i] == labels[j] ==> #[trigger] row_match(
                g,
                labels,
                row,
            )->0[i] < #[trigger] row_match(g, labels, row)->0[j],
{
    lemma_row_match_facts(g, labels, row);
}

/// No column of `row` holds the label `labels[i]`.
pub open spec fn row_lacks_label<G: CellGrid>(g: &G, labels: Seq<Seq<char>>, row: int, i: int) -> bool {
    forall|c: int| 1 <= c <= g.column_count() ==> #[trigger] g.cell_text(row, c) != labels[i]
}

/// Some requested label is held by no column of `row`.
pub open spec fn row_lacks_some_label<G: CellGrid>(g: &G, labels: Seq<Seq<char>>, row: int) -> bool {
    exists|i: int| 0 <= i < labels.len() && #[trigger] row_lacks_label(g, labels, row, i)
}

/// Where no row holds every label in some column, there is no header.
/// So it is for a grid without rows.
pub proof fn lemma_no_header_row<G: CellGrid>(g: &G, labels: Seq<Seq<char>>)
    requires
        forall|r: int| 1 <= r <= g.row_count() ==> #[trigger] row_lacks_some_label(g, labels, r),
    ensures
        located(g, labels) is None,
{
    lemma_locate_from(g, labels, 1);
    if let Some((row, cols)) = located(g, labels) {
        lemma_row_match_facts(g, labels, row);
        assert(row_lacks_some_label(g, labels, row));
        let i = choose|i: int| 0 <= i < labels.len() && #[trigger] row_lacks_label(g, labels, row, i);
        assert(g.cell_text(row, cols[i]) == labels[i]);
    }
}

/// The label `t` requested `n` times.
pub open spec fn repeated(t: Seq<char>, n: nat) -> Seq<Seq<char>> {
    Seq::new(n, |i: int| t)
}

/// How many of the columns `1..=c` of `row` hold the text `t`.
pub open spec fn label_count<G: CellGrid>(g: &G, row: int, t: Seq<char>, c: int) -> nat
    decreases c,
{
    if c <= 0 {
        0
    } else {
        label_count(g, row, t, c - 1) + if g.cell_text(row, c) == t {
            1nat
        } else {
            0nat
        }
    }
}

proof fn lemma_repeated_scan<G: CellGrid>(g: &G, t: Seq<char>, n: nat, row: int, c: int)
    requires
        t.len() > 0,
        0 <= c,
    ensures
        forall|i: int|
            0 <= i < n ==> (#[trigger] scan_row(g, repeated(t, n), row, c)[i] is Some <==> i < if label_count(
                g,
                row,
                t,
                c,
            ) < n {
                label_count(g, row, t, c)
            } else {
                n
            }),
    decreases c,
{
    let labels = repeated(t, n);
    lemma_scan_len(g, labels, row, c);
    if c > 0 {
        lemma_repeated_scan(g, t, n, row, c - 1);
        lemma_scan_len(g, labels, row, c - 1);
        let a = scan_row(g, labels, row, c - 1);
        let cnt = label_count(g, row, t, c - 1);
        let k: int = if cnt < n {
            cnt as int
        } else {
            n as int
        };
        let tt = g.cell_text(row, c);
        let s = first_free_slot(labels, a, tt, 0);
        lemma_first_free_slot(labels, a, tt, 0);
        assert(forall|i: int| 0 <= i < n ==> (#[trigger] a[i] is Some <==> i < k));
        if tt != t {
            if s < n {
                assert(labels[s] == t);
            }
        } else if k < n {
            assert(labels[k] == t && a[k] is None);
            if s != k {
                if s < k {
                    assert(a[s] is Some);
                }
            }
            assert(s == k);
        } else {
            if s < n {
                assert(a[s] is Some);
            }
        }
    }
}

/// Requesting one non-empty label `n` times binds it in `row` exactly where
/// the row holds that label in at least `n` columns, and then to `n`
/// distinct columns, left to right.
pub proof fn lemma_repeated_label<G: CellGrid>(g: &G, t: Seq<char>, n: nat, row: int)
    requires
        n > 0,
        t.len() > 0,
    ensures
        row_match(g, repeated(t, n), row) is Some <==> label_count(
            g,
            row,
            t,
            g.column_count() as int,
        ) >= n,
        row_match(g, repeated(t, n), row) is Some ==> forall|i: int, j: int|
            0 <= i < j < n ==> #[trigger] row_match(g, repeated(t, n), row)->0[i] < #[trigger] row_match(
                g,
                repeated(t, n),
                row,
            )->0[j],
{
    let labels = repeated(t, n);
    let w = g.column_count() as int;
    lemma_repeated_scan(g, t, n, row, w);
    lemma_scan_len(g, labels, row, w);
    let a = scan_row(g, labels, row, w);
    if label_count(g, row, t, w) < n {
        assert(a[label_count(g, row, t, w) as int] is None);
    } else {
        assert forall|i: int| 0 <= i < a.len() implies #[trigger] a[i] is Some by {}
    }
    if row_match(g, labels, row) is Some {
        lemma_row_match_facts(g, labels, row);
    }
}

/// How many of the slots before `i` ask for the label `l`.
pub open spec fn occurrences(labels: Seq<Seq<char>>, l: Seq<char>, i: int) -> nat
    decreases i,
{
    if i <= 0 {
        0
    } else {
        occurrences(labels, l, i - 1) + if labels[i - 1] == l {
            1nat
        } else {
            0nat
        }
    }
}

/// The smaller of two counts.
pub open spec fn min_count(a: nat, b: nat) -> nat {
    if a < b {
        a
    } else {
        b
    }
}

/// The request is not empty, and `row` holds each requested label, none of
/// them empty, in at least as many columns as the label is requested.
pub open spec fn row_holds_labels<G: CellGrid>(g: &G, labels: Seq<Seq<char>>, row: int) -> bool {
    &&& labels.len() > 0
    &&& forall|i: int|
        0 <= i < labels.len() ==> (#[trigger] labels[i]).len() > 0 && label_count(
            g,
            row,
            labels[i],
            g.column_count() as int,
        ) >= occurrences(labels, labels[i], labels.len() as int)
}

proof fn lemma_occurrences_grow(labels: Seq<Seq<char>>, l: Seq<char>, i: int, j: int)
    requires
        0 <= i <= j <= labels.len(),
    ensures
        occurrences(labels, l, i) <= occurrences(labels, l, j),
        i < j && labels[i] == l ==> occurrences(labels, l, i) < occurrences(labels, l, j),
    decreases j - i,
{
    if i < j {
        lemma_occurrences_grow(labels, l, i, j - 1);
    }
}

proof fn lemma_occurrence_exists(labels: Seq<Seq<char>>, l: Seq<char>, m: int, k: nat)
    requires
        0 <= m <= labels.len(),
        k < occurrences(labels, l, m),
    ensures
        exists|p: int| 0 <= p < m && labels[p] == l && #[trigger] occurrences(labels, l, p) == k,
    decreases m,
{
    if k < occurrences(labels, l, m - 1) {
        lemma_occurrence_exists(labels, l, m - 1, k);
        let p = choose|p: int| 0 <= p < m - 1 && labels[p] == l && #[trigger] occurrences(labels, l, p) == k;
        assert(0 <= p < m && labels[p] == l && occurrences(labels, l, p) == k);
    } else {
        assert(labels[m - 1] == l && occurrences(labels, l, m - 1) == k);
    }
}

/// What holds of the slots after columns `1..=c`: a slot of an empty label is
/// unbound; a slot of label `l` that is the `k`-th to ask for it is bound
/// exactly when fewer than `k` columns with `l` are needed by earlier slots,
/// that is when `k` lies below both the count of `l` in the columns read and
/// the number of slots asking for `l`.
pub open spec fn counted_scan<G: CellGrid>(
    g: &G,
    labels: Seq<Seq<char>>,
    row: int,
    c: int,
    a: Seq<Option<int>>,
) -> bool {
    forall|i: int|
        0 <= i < labels.len() ==> (#[trigger] a[i] is Some <==> labels[i].len() > 0 && occurrences(
            labels,
            labels[i],
            i,
        ) < min_count(
            label_count(g, row, labels[i], c),
            occurrences(labels, labels[i], labels.len() as int),
        ))
}

proof fn lemma_counted_scan<G: CellGrid>(g: &G, labels: Seq<Seq<char>>, row: int, c: int)
    requires
        0 <= c,
    ensures
        counted_scan(g, labels, row, c, scan_row(g, labels, row, c)),
    decreases c,
{
    lemma_scan_len(g, labels, row, c);
    if c > 0 {
        lemma_counted_scan(g, labels, row, c - 1);
        lemma_scan_len(g, labels, row, c - 1);
        let a = scan_row(g, labels, row, c - 1);
        let b = scan_row(g, labels, row, c);
        let tt = g.cell_text(row, c);
        let s = first_free_slot(labels, a, tt, 0);
        lemma_first_free_slot(labels, a, tt, 0);
        let len = labels.len() as int;
        if tt.len() > 0 {
            let n = occurrences(labels, tt, len);
            let k = min_count(label_count(g, row, tt, c - 1), n);
            if k < n {
                lemma_occurrence_exists(labels, tt, len, k);
                let p = choose|p: int|
                    0 <= p < len && labels[p] == tt && #[trigger] occurrences(labels, tt, p) == k;
                assert(a[p] is None);
                if s < p {
                    lemma_occurrences_grow(labels, tt, s, p);
                    assert(a[s] is Some);
                } else if s > p {
                    assert(!(labels[p] == tt && a[p] is None));
                }
                assert(s == p);
                assert(b == a.update(p, Some(c)));
                assert forall|i: int| 0 <= i < len implies (#[trigger] b[i] is Some <==> labels[i].len()
                    > 0 && occurrences(labels, labels[i], i) < min_count(
                    label_count(g, row, labels[i], c),
                    occurrences(labels, labels[i], len),
                )) by {
                    if labels[i] == tt && i != p {
                        if i < p {
                            lemma_occurrences_grow(labels, tt, i, p);
                        } else {
                            lemma_occurrences_grow(labels, tt, p, i);
                        }
                    }
                }
            } else {
                if s < len {
                    lemma_occurrences_grow(labels, tt, s, len);
                    assert(a[s] is Some);
                }
                assert(b == a);
                assert forall|i: int| 0 <= i < len implies (#[trigger] b[i] is Some <==> labels[i].len()
                    > 0 && occurrences(labels, labels[i], i) < min_count(
                    label_count(g, row, labels[i], c),
                    occurrences(labels, labels[i], len),
                )) by {
                    if labels[i] == tt {
                        lemma_occurrences_grow(labels, tt, i, len);
                    }
                }
            }
        } else {
            assert(b == a);
            assert forall|i: int| 0 <= i < len implies (#[trigger] b[i] is Some <==> labels[i].len() > 0
                && occurrences(labels, labels[i], i) < min_count(
                label_count(g, row, labels[i], c),
                occurrences(labels, labels[i], len),
            )) by {
                assert(a[i] is Some <==> labels[i].len() > 0 && occurrences(labels, labels[i], i) < min_count(
                    label_count(g, row, labels[i], c - 1),
                    occurrences(labels, labels[i], len),
                ));
            }
        }
    }
}

/// A row binds every requested label exactly when the request is not empty
/// and the row holds each requested label, none of them empty, in at least as
/// many columns as it is requested; a label requested more often than the row
/// holds it makes the row fail.
pub proof fn lemma_row_match_by_counts<G: CellGrid>(g: &G, labels: Seq<Seq<char>>, row: int)
    ensures
        row_match(g, labels, row) is Some <==> row_holds_labels(g, labels, row),
{
    let w = g.column_count() as int;
    let len = labels.len() as int;
    lemma_counted_scan(g, labels, row, w);
    lemma_scan_len(g, labels, row, w);
    let a = scan_row(g, labels, row, w);
    if row_holds_labels(g, labels, row) {
        assert forall|i: int| 0 <= i < a.len() implies #[trigger] a[i] is Some by {
            assert(labels[i].len() > 0);
            lemma_occurrences_grow(labels, labels[i], i, len);
        }
    }
    if row_match(g, labels, row) is Some {
        assert forall|i: int| 0 <= i < len implies (#[trigger] labels[i]).len() > 0 && label_count(
            g,
            row,
            labels[i],
            w,
        ) >= occurrences(labels, labels[i], len) by {
            assert(a[i] is Some);
            let l = labels[i];
            let n = occurrences(labels, l, len);
            lemma_occurrences_grow(labels, l, i, len);
            lemma_occurrence_exists(labels, l, len, (n - 1) as nat);
            let p = choose|p: int| 0 <= p < len && labels[p] == l && #[trigger] occurrences(labels, l, p) == (n - 1) as nat;
            assert(a[p] is Some);
        }
    }
}

/// Of two rows that each hold every requested label in at least as many
/// columns as it is requested, the one further down is never the header row.
pub proof fn lemma_topmost_row_by_counts<G: CellGrid>(
    g: &G,
    labels: Seq<Seq<char>>,
    r1: int,
    r2: int,
)
    requires
        1 <= r1 < r2 <= g.row_count(),
        row_holds_labels(g, labels, r1),
        row_holds_labels(g, labels, r2),
    ensures
        located(g, labels) is Some,
        (located(g, labels)->0).0 <= r1,
{
    lemma_row_match_by_counts(g, labels, r1);
    lemma_row_match_by_counts(g, labels, r2);
    lemma_topmost_row_wins(g, labels, r1, r2);
}

} // verus!
