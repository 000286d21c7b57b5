use xer_tables::scan::FormatError;
use xer_tables::scan::TableScanner;
use xer_tables::scan::parse_tables;

fn lines(ls: &[&str]) -> Vec<String> {
    ls.iter().map(|l| l.to_string()).collect()
}

#[test]
fn concrete_scenario() {
    let input = lines(&[
        "ERMHDR|19.12|2024-03-15|Project|user|user_name|dbxDatabaseNoName|Project Management|EUR",
        "%T\tTABLE1",
        "%F\tcolumn_1\tcolumn_2\tcolumn_3",
        "%R\t1\t2\t\u{20ac}",
        "%R\t10\t2\t$",
        "%T\tTABLE2",
        "%F\tcolumn_1\tcolumn_2",
        "%E",
    ]);
    let tables = parse_tables(input).unwrap();
    assert_eq!(tables.len(), 2);
    assert_eq!(tables[0].name, "TABLE1");
    assert_eq!(tables[0].header, vec!["column_1", "column_2", "column_3"]);
    assert_eq!(tables[0].rows.len(), 2);
    assert_eq!(tables[0].rows[0], vec!["1", "2", "\u{20ac}"]);
    assert_eq!(tables[0].rows[1], vec!["10", "2", "$"]);
    assert_eq!(tables[1].name, "TABLE2");
    assert_eq!(tables[1].header, vec!["column_1", "column_2"]);
    assert_eq!(tables[1].rows.len(), 0);
}

#[test]
fn zero_tables_is_not_an_error() {
    let input = lines(&["ERMHDR|19.12|preamble", "%E"]);
    let tables = parse_tables(input).unwrap();
    assert!(tables.is_empty());
}

#[test]
fn empty_input_is_not_an_error() {
    let tables = parse_tables(Vec::new()).unwrap();
    assert!(tables.is_empty());
}

#[test]
fn zero_row_table_before_end() {
    let input = lines(&["preamble", "%T\tEMPTY", "%F\ta\tb", "%E"]);
    let tables = parse_tables(input).unwrap();
    assert_eq!(tables.len(), 1);
    assert_eq!(tables[0].name, "EMPTY");
    assert_eq!(tables[0].header, vec!["a", "b"]);
    assert!(tables[0].rows.is_empty());
}

#[test]
fn zero_row_table_before_next_table() {
    let input = lines(&["%T\tFIRST", "%F\ta", "%T\tSECOND", "%F\tb", "%R\t1", "%E"]);
    let tables = parse_tables(input).unwrap();
    assert_eq!(tables.len(), 2);
    assert_eq!(tables[0].name, "FIRST");
    assert!(tables[0].rows.is_empty());
    assert_eq!(tables[1].name, "SECOND");
    assert_eq!(tables[1].rows, vec![vec!["1"]]);
}

#[test]
fn row_width_need_not_match_header() {
    let input = lines(&["%T\tT", "%F\ta\tb", "%R\t1", "%R\t1\t2\t3\t4", "%E"]);
    let tables = parse_tables(input).unwrap();
    assert_eq!(tables.len(), 1);
    assert_eq!(tables[0].header.len(), 2);
    assert_eq!(tables[0].rows[0], vec!["1"]);
    assert_eq!(tables[0].rows[1], vec!["1", "2", "3", "4"]);
}

#[test]
fn table_line_without_name_fails() {
    let input = lines(&["preamble", "%T"]);
    assert_eq!(parse_tables(input), Err(FormatError::MissingName));
}

#[test]
fn table_line_at_end_of_input_fails() {
    let input = lines(&["%T\tLONE"]);
    assert_eq!(parse_tables(input), Err(FormatError::MissingHeader));
}

#[test]
fn table_line_without_header_line_fails() {
    let input = lines(&["%T\tX", "%R\t1\t2"]);
    assert_eq!(parse_tables(input), Err(FormatError::MissingHeader));
}

#[test]
fn row_before_any_table_fails() {
    let input = lines(&["preamble", "%R\t1\t2", "%T\tX", "%F\ta", "%E"]);
    assert_eq!(parse_tables(input), Err(FormatError::OrphanRow));
}

#[test]
fn error_aborts_whole_scan() {
    let input = lines(&["%T\tGOOD", "%F\ta", "%R\t1", "%T", "%F\tb", "%E"]);
    assert_eq!(parse_tables(input), Err(FormatError::MissingName));
}

#[test]
fn end_line_stops_scanning() {
    let input = lines(&["%T\tONLY", "%F\ta", "%E", "%T\tAFTER", "%F\tb", "%R\t1"]);
    let tables = parse_tables(input).unwrap();
    assert_eq!(tables.len(), 1);
    assert_eq!(tables[0].name, "ONLY");
}

#[test]
fn end_tag_may_carry_fields() {
    let input = lines(&["%T\tT", "%F\ta", "%E\ttrailing\tfields"]);
    let tables = parse_tables(input).unwrap();
    assert_eq!(tables.len(), 1);
}

#[test]
fn several_preamble_lines_are_skipped() {
    let input = lines(&["one", "two", "three", "%T\tT", "%F\ta", "%R\t1", "%E"]);
    let tables = parse_tables(input).unwrap();
    assert_eq!(tables.len(), 1);
    assert_eq!(tables[0].rows, vec![vec!["1"]]);
}

#[test]
fn stray_lines_between_tables_are_skipped() {
    let input = lines(&["%T\tA", "%F\ta", "%R\t1", "stray", "%T\tB", "%F\tb", "%E"]);
    let tables = parse_tables(input).unwrap();
    assert_eq!(tables.len(), 2);
    assert_eq!(tables[0].name, "A");
    assert_eq!(tables[0].rows, vec![vec!["1"]]);
    assert_eq!(tables[1].name, "B");
}

#[test]
fn scanner_yields_tables_then_exhaustion() {
    let input = lines(&["pre", "%T\tA", "%F\ta", "%R\t1", "%T\tB", "%F\tb", "%E"]);
    let mut sc = TableScanner::new(input);
    let first = sc.next_table().unwrap().unwrap();
    assert_eq!(first.name, "A");
    assert_eq!(first.rows, vec![vec!["1"]]);
    let second = sc.next_table().unwrap().unwrap();
    assert_eq!(second.name, "B");
    assert!(second.rows.is_empty());
    assert!(sc.next_table().unwrap().is_none());
    assert!(sc.next_table().unwrap().is_none());
}

#[test]
fn empty_name_field_is_accepted() {
    let input = lines(&["%T\t", "%F\ta", "%E"]);
    let tables = parse_tables(input).unwrap();
    assert_eq!(tables.len(), 1);
    assert_eq!(tables[0].name, "");
}

#[test]
fn round_trip_of_one_table() {
    let name = "TASK";
    let header = vec!["id", "code", "value"];
    let rows = vec![vec!["1", "X", "10"], vec!["2", "Y", "20"]];
    let mut input: Vec<String> = Vec::new();
    input.push(format!("%T\t{}", name));
    input.push(format!("%F\t{}", header.join("\t")));
    for row in &rows {
        input.push(format!("%R\t{}", row.join("\t")));
    }
    input.push("%E".to_string());
    let tables = parse_tables(input).unwrap();
    assert_eq!(tables.len(), 1);
    assert_eq!(tables[0].name, name);
    assert_eq!(tables[0].header, header);
    assert_eq!(tables[0].rows, rows);
}
