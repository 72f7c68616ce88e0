use colcut::table::{parse_tsv, Table, TableError};

fn strings(v: &[&str]) -> Vec<String> {
    v.iter().map(|s| s.to_string()).collect()
}

fn table(columns: &[&str], rows: &[&[&str]], delimiter: &str) -> Table {
    Table {
        columns: strings(columns),
        rows: rows.iter().map(|r| strings(r)).collect(),
        delimiter: delimiter.to_string(),
    }
}

#[test]
fn parse_splits_header_and_rows() {
    let t = parse_tsv("f0\tf1\tf2\n1\t2\t3\n4\t5\t6".to_string(), &"\t".to_string()).unwrap();
    assert_eq!(t.columns, strings(&["f0", "f1", "f2"]));
    assert_eq!(t.rows, vec![strings(&["1", "2", "3"]), strings(&["4", "5", "6"])]);
    assert_eq!(t.delimiter, "\t");
}

#[test]
fn parse_empty_text_fails() {
    let r = parse_tsv(String::new(), &"\t".to_string());
    assert_eq!(r, Err(TableError::EmptyInput));
}

#[test]
fn parse_single_newline_is_one_empty_header_field() {
    let t = parse_tsv("\n".to_string(), &",".to_string()).unwrap();
    assert_eq!(t.columns, strings(&[""]));
    assert!(t.rows.is_empty());
}

#[test]
fn parse_keeps_empty_fields() {
    let t = parse_tsv("a,,b,\n,".to_string(), &",".to_string()).unwrap();
    assert_eq!(t.columns, strings(&["a", "", "b", ""]));
    assert_eq!(t.rows, vec![strings(&["", ""])]);
}

#[test]
fn parse_handles_crlf_and_final_newline() {
    let t = parse_tsv("a,b\r\n1,2\r\n3,4\n".to_string(), &",".to_string()).unwrap();
    assert_eq!(t.columns, strings(&["a", "b"]));
    assert_eq!(t.rows, vec![strings(&["1", "2"]), strings(&["3", "4"])]);
}

#[test]
fn parse_keeps_lone_final_carriage_return() {
    let t = parse_tsv("a\r".to_string(), &",".to_string()).unwrap();
    assert_eq!(t.columns, strings(&["a\r"]));
}

#[test]
fn parse_multi_character_delimiter_does_not_overlap() {
    let t = parse_tsv("a::::b:::c".to_string(), &"::".to_string()).unwrap();
    assert_eq!(t.columns, strings(&["a", "", "b", ":c"]));
}

#[test]
fn parse_accepts_ragged_rows() {
    let t = parse_tsv("a,b,c\n1\n1,2,3,4".to_string(), &",".to_string()).unwrap();
    assert_eq!(t.rows, vec![strings(&["1"]), strings(&["1", "2", "3", "4"])]);
}

#[test]
fn parse_non_ascii_text() {
    let t = parse_tsv("é→ü\nα→β".to_string(), &"→".to_string()).unwrap();
    assert_eq!(t.columns, strings(&["é", "ü"]));
    assert_eq!(t.rows, vec![strings(&["α", "β"])]);
}

#[test]
fn duplicate_reorder_selection() {
    let t = table(&["f0", "f1", "f2"], &[&["a", "b", "c"]], "\t");
    let p = t.get_cols(vec![2, 0, 0]).unwrap();
    assert_eq!(p.columns, strings(&["f2", "f0", "f0"]));
    assert_eq!(p.rows, vec![strings(&["c", "a", "a"])]);
    assert_eq!(p.delimiter, "\t");
}

#[test]
fn empty_selection_keeps_rows() {
    let t = table(&["x", "y"], &[&["1", "2"], &["3", "4"]], ",");
    let p = t.get_cols(vec![]).unwrap();
    assert!(p.columns.is_empty());
    assert_eq!(p.rows.len(), 2);
    assert!(p.rows.iter().all(|r| r.is_empty()));
    assert_eq!(p.render(), "\n\n");
}

#[test]
fn projection_identity() {
    let t = table(&["a", "b", "c"], &[&["1", "2", "3"], &["4", "5", "6"]], ";");
    let p = t.get_cols(vec![0, 1, 2]).unwrap();
    assert_eq!(p, t);
}

#[test]
fn projection_is_deterministic_and_leaves_input() {
    let t = table(&["a", "b"], &[&["1", "2"]], ",");
    let before = t.clone();
    let p1 = t.get_cols(vec![1, 0]);
    let p2 = t.get_cols(vec![1, 0]);
    assert_eq!(p1, p2);
    assert_eq!(t, before);
}

#[test]
fn index_out_of_range() {
    let t = table(&["a", "b"], &[&["1", "2"]], ",");
    assert_eq!(t.get_cols(vec![2]), Err(TableError::IndexOutOfRange { index: 2, width: 2 }));
    assert_eq!(t.get_cols(vec![0, 7, 5]), Err(TableError::IndexOutOfRange { index: 7, width: 2 }));
}

#[test]
fn index_error_comes_before_row_error() {
    let t = table(&["a", "b"], &[&["1"]], ",");
    assert_eq!(t.get_cols(vec![1, 3]), Err(TableError::IndexOutOfRange { index: 3, width: 2 }));
}

#[test]
fn short_row_is_an_error() {
    let t = table(&["a", "b", "c"], &[&["1", "2", "3"], &["4"], &["5"]], ",");
    assert_eq!(t.get_cols(vec![0, 2, 1]), Err(TableError::RowWidth { row: 1, index: 2 }));
    assert!(t.get_cols(vec![0]).is_ok());
}

#[test]
fn render_joins_lines_without_final_newline() {
    let t = table(&["f1"], &[&["2"], &["5"]], "\t");
    assert_eq!(t.render(), "f1\n2\n5");
    let t = table(&["a", "b"], &[&["1", "2"]], "::");
    assert_eq!(t.render(), "a::b\n1::2");
}

#[test]
fn render_of_default_table_is_empty() {
    let t = Table::default();
    assert!(t.columns.is_empty());
    assert!(t.rows.is_empty());
    assert_eq!(t.delimiter, "\t");
    assert_eq!(t.render(), "");
}

#[test]
fn round_trip_parse_render() {
    let t = table(&["name", "", "x y"], &[&["1", "2", "3"], &["", "b", "c"]], ", ");
    let back = parse_tsv(t.render(), &t.delimiter).unwrap();
    assert_eq!(back, t);
}
