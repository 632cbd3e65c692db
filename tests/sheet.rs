use xlsx_headers::grid::CellGrid;
use xlsx_headers::locate::find_header;
use xlsx_headers::project::RowProjection;

fn put(ws: &mut umya_spreadsheet::Worksheet, col: u32, row: u32, text: &str) {
    ws.cell_mut((col, row)).set_value_string(text);
}

#[test]
fn worksheet_is_read_as_a_grid() {
    let mut book = umya_spreadsheet::new_file();
    let ws = book.sheet_mut(0).unwrap();
    put(ws, 2, 3, "Name");
    put(ws, 4, 3, "Age");
    put(ws, 2, 4, "Al");
    put(ws, 4, 4, "30");
    put(ws, 3, 5, "stray");
    put(ws, 4, 6, "41");
    assert_eq!(CellGrid::highest_row(&*ws), 6);
    assert_eq!(CellGrid::highest_column(&*ws), 4);
    assert_eq!(CellGrid::formatted_value(&*ws, 3, 2), "Name".to_string());
    assert_eq!(CellGrid::formatted_value(&*ws, 1, 1), String::new());

    let headers = vec!["Age".to_string(), "Name".to_string()];
    let h = find_header(&*ws, &headers).unwrap();
    assert_eq!(h.row, 3);
    assert_eq!(h.header_column, vec![4, 2]);
    let mut p = RowProjection::new(h);
    assert_eq!(p.next_row(&*ws), Some(vec!["30".to_string(), "Al".to_string()]));
    assert_eq!(p.next_row(&*ws), Some(vec!["41".to_string(), String::new()]));
    assert_eq!(p.next_row(&*ws), None);
}
