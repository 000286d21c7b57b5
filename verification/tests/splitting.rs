use xer_tables::split::split_fields;

#[test]
fn no_tab_is_one_field() {
    assert_eq!(split_fields("plain text"), vec!["plain text"]);
}

#[test]
fn empty_line_is_one_empty_field() {
    assert_eq!(split_fields(""), vec![""]);
}

#[test]
fn every_tab_ends_a_field() {
    assert_eq!(split_fields("a\tb\tc"), vec!["a", "b", "c"]);
    assert_eq!(split_fields("a\tb\t"), vec!["a", "b", ""]);
    assert_eq!(split_fields("\t"), vec!["", ""]);
}

#[test]
fn fields_keep_non_ascii_text() {
    assert_eq!(split_fields("%R\t\u{20ac}\tR$"), vec!["%R", "\u{20ac}", "R$"]);
}

#[test]
fn resplitting_a_field_changes_nothing() {
    for field in split_fields("%R\t1\t2\t\u{20ac}") {
        let again = split_fields(&field);
        assert_eq!(again.len(), 1);
        assert_eq!(again[0], field);
    }
}
