use sss::cache_table::{format_table, parse_table, table_rows, TableError};

fn bytes(s: &str) -> Vec<u8> {
    s.as_bytes().to_vec()
}

fn table(rows: &[&[&str]]) -> Vec<Vec<Vec<u8>>> {
    rows.iter().map(|r| r.iter().map(|v| bytes(v)).collect()).collect()
}

fn cols_as_strings(cols: &Vec<Vec<Vec<u8>>>) -> Vec<Vec<String>> {
    cols.iter()
        .map(|c| c.iter().map(|v| String::from_utf8(v.clone()).unwrap()).collect())
        .collect()
}

#[test]
fn parse_reads_columns() {
    let text = bytes("1\t2\t3\n4 5  6\n");
    let cols = parse_table(&text).ok().unwrap();
    assert_eq!(
        cols_as_strings(&cols),
        vec![vec!["1", "4"], vec!["2", "5"], vec!["3", "6"]]
    );
}

#[test]
fn parse_without_final_newline() {
    let text = bytes("0.5 1e3\n-2 7");
    let cols = parse_table(&text).ok().unwrap();
    assert_eq!(cols_as_strings(&cols), vec![vec!["0.5", "-2"], vec!["1e3", "7"]]);
}

#[test]
fn parse_crlf_lines() {
    let text = bytes("1 2\r\n3 4\r\n");
    let cols = parse_table(&text).ok().unwrap();
    assert_eq!(cols_as_strings(&cols), vec![vec!["1", "3"], vec!["2", "4"]]);
}

#[test]
fn parse_empty_text_has_no_values() {
    assert!(matches!(parse_table(&Vec::new()), Err(TableError::NoValues)));
}

#[test]
fn parse_inconsistent_line_is_named() {
    let text = bytes("1 2\n3 4\n5\n6 7 8\n");
    assert!(matches!(parse_table(&text), Err(TableError::Inconsistent(3))));
}

#[test]
fn parse_blank_line_after_values_is_inconsistent() {
    let text = bytes("1 2\n\n");
    assert!(matches!(parse_table(&text), Err(TableError::Inconsistent(2))));
}

#[test]
fn parse_only_blank_lines_gives_no_columns() {
    let text = bytes("\n \n");
    let cols = parse_table(&text).ok().unwrap();
    assert!(cols.is_empty());
}

#[test]
fn format_writes_tab_separated_lines() {
    let rows = table(&[&["1", "2.5"], &["3", "4"]]);
    assert_eq!(format_table(&rows), bytes("1\t2.5\n3\t4\n"));
}

#[test]
fn format_empty_row_is_empty_line() {
    let rows = table(&[&[], &["x"]]);
    assert_eq!(format_table(&rows), bytes("\nx\n"));
}

#[test]
fn format_no_rows_is_empty_text() {
    let rows: Vec<Vec<Vec<u8>>> = Vec::new();
    assert_eq!(format_table(&rows), Vec::<u8>::new());
}

#[test]
fn read_after_write_gives_columns() {
    let rows = table(&[&["10", "20", "30"], &["11", "21", "31"], &["12", "22", "32"]]);
    let text = format_table(&rows);
    let cols = parse_table(&text).ok().unwrap();
    assert_eq!(
        cols_as_strings(&cols),
        vec![
            vec!["10", "11", "12"],
            vec!["20", "21", "22"],
            vec!["30", "31", "32"]
        ]
    );
}

#[test]
fn rows_keep_every_line_in_order() {
    let text = bytes("1 2\n\n 3\t4 5\r\nx");
    let rows = table_rows(&text);
    assert_eq!(rows, table(&[&["1", "2"], &[], &["3", "4", "5"], &["x"]]));
    assert!(table_rows(&bytes("")).is_empty());
    assert_eq!(table_rows(&bytes("\n")), vec![Vec::<Vec<u8>>::new()]);
}
