use xlsx_headers::grid::Grid;
use xlsx_headers::locate::{find_header, find_header_in_row, HeaderInfo};
use xlsx_headers::project::RowProjection;

fn grid(width: u32, rows: &[&[&str]]) -> Grid {
    let mut g = Grid::new(width);
    for row in rows {
        g.push_row(row.iter().map(|s| s.to_string()).collect());
    }
    g
}

fn labels(names: &[&str]) -> Vec<String> {
    names.iter().map(|s| s.to_string()).collect()
}

fn drain(g: &Grid, header: HeaderInfo) -> Vec<Vec<String>> {
    let mut p = RowProjection::new(header);
    let mut out = Vec::new();
    while let Some(values) = p.next_row(g) {
        out.push(values);
    }
    out
}

#[test]
fn end_to_end_example() {
    let g = grid(
        3,
        &[
            &[],
            &["Name", "Age", "Name"],
            &["Al", "30", "Bob"],
            &["", "", ""],
            &["Cy", "40", "Di"],
        ],
    );
    let h = find_header(&g, &labels(&["Name", "Age", "Name"])).unwrap();
    assert_eq!(h.row, 2);
    assert_eq!(h.header_column, vec![1, 2, 3]);
    let rows = drain(&g, h);
    assert_eq!(rows, vec![labels(&["Al", "30", "Bob"]), labels(&["Cy", "40", "Di"])]);
}

#[test]
fn output_follows_request_order() {
    let g = grid(3, &[&["a", "b", "c"], &["1", "2", "3"]]);
    let h = find_header(&g, &labels(&["c", "a"])).unwrap();
    assert_eq!(h.row, 1);
    assert_eq!(h.header_column, vec![3, 1]);
    assert_eq!(drain(&g, h), vec![labels(&["3", "1"])]);
}

#[test]
fn topmost_matching_row_wins() {
    let g = grid(2, &[&["x", "y"], &["a", "b"], &["b", "a"]]);
    let h = find_header(&g, &labels(&["a", "b"])).unwrap();
    assert_eq!(h.row, 2);
    assert_eq!(h.header_column, vec![1, 2]);
}

#[test]
fn leftmost_column_wins() {
    let g = grid(4, &[&["", "k", "v", "k"]]);
    let h = find_header(&g, &labels(&["k", "v"])).unwrap();
    assert_eq!(h.header_column, vec![2, 3]);
}

#[test]
fn duplicate_label_takes_distinct_columns_in_order() {
    let g = grid(5, &[&["t", "x", "t", "t", "x"]]);
    let h = find_header(&g, &labels(&["t", "x", "t"])).unwrap();
    assert_eq!(h.header_column, vec![1, 2, 3]);
    assert_eq!(find_header_in_row(1, &g, &labels(&["t", "t", "t"])), Some(vec![1, 3, 4]));
}

#[test]
fn duplicate_label_fails_with_too_few_columns() {
    let g = grid(3, &[&["t", "t", "u"], &["t", "t", "t"]]);
    assert_eq!(find_header_in_row(1, &g, &labels(&["t", "t", "t"])), None);
    let h = find_header(&g, &labels(&["t", "t", "t"])).unwrap();
    assert_eq!(h.row, 2);
}

#[test]
fn match_is_exact_text() {
    let g = grid(2, &[&["Name ", "name"]]);
    assert!(find_header(&g, &labels(&["Name"])).is_none());
}

#[test]
fn blank_projection_rows_are_left_out() {
    let g = grid(3, &[&["a", "", "b"], &["", "z", ""], &["1", "", ""], &[]]);
    let h = find_header(&g, &labels(&["a", "b"])).unwrap();
    assert_eq!(h.header_column, vec![1, 3]);
    assert_eq!(drain(&g, h), vec![labels(&["1", ""])]);
}

#[test]
fn header_on_last_row_projects_nothing() {
    let g = grid(1, &[&["x"], &["h"]]);
    let h = find_header(&g, &labels(&["h"])).unwrap();
    assert_eq!(h.row, 2);
    assert!(drain(&g, h).is_empty());
}

#[test]
fn empty_grid_has_no_header() {
    let g = grid(0, &[]);
    assert!(find_header(&g, &labels(&["a"])).is_none());
    let g = grid(3, &[]);
    assert!(find_header(&g, &labels(&["a"])).is_none());
}

#[test]
fn missing_label_has_no_header() {
    let g = grid(2, &[&["a", "b"], &["a", "c"]]);
    assert!(find_header(&g, &labels(&["a", "d"])).is_none());
}

#[test]
fn empty_request_has_no_header() {
    let g = grid(2, &[&["a", "b"]]);
    assert!(find_header(&g, &labels(&[])).is_none());
}

#[test]
fn empty_label_never_matches() {
    let g = grid(2, &[&["a", ""]]);
    assert!(find_header(&g, &labels(&["a", ""])).is_none());
}

#[test]
fn mixed_labels_need_enough_columns_each() {
    let g = grid(5, &[&["a", "b", "a", "x", "x"], &["b", "a", "x", "b", "a"]]);
    let request = labels(&["a", "b", "a", "b"]);
    assert_eq!(find_header_in_row(1, &g, &request), None);
    assert_eq!(find_header_in_row(2, &g, &request), Some(vec![2, 1, 5, 4]));
    let h = find_header(&g, &request).unwrap();
    assert_eq!(h.row, 2);
}
