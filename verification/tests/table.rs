use figo::diagrams::table::{draw_table, Table};
use figo::style::{BorderStyle, Charset, HAlign};

#[test]
fn test_simple_table() {
    let headers = &["Name", "Version"];
    let rows = &[vec!["figo", "0.1.0"]];
    let out = draw_table(headers, rows, 40, Charset::Ascii, BorderStyle::Single).unwrap();
    assert!(out.contains("Name"));
    assert!(out.contains("figo"));
    assert!(out.contains("0.1.0"));
}

#[test]
fn test_empty_table() {
    let out = Table::new(30, Charset::Ascii).build().unwrap();
    assert!(out.contains('+'));
    assert!(out.contains('-'));
}

#[test]
fn test_unicode_table() {
    let headers = &["Col1", "Col2"];
    let rows = &[vec!["a", "b"]];
    let out = draw_table(headers, rows, 30, Charset::Unicode, BorderStyle::Single).unwrap();
    assert!(out.contains('┌'));
}

#[test]
fn test_balanced_columns() {
    let headers = &["Name", "Description"];
    let rows = &[vec!["a", "b"], vec!["xy", "longer text"]];
    let out = Table::new(40, Charset::Ascii).headers(headers).rows(rows).build().unwrap();
    assert!(out.contains("Name"));
    assert!(out.contains("Description"));
    assert!(out.contains('+'));
}

#[test]
fn small_table_exact() {
    let headers = &["A", "B"];
    let rows = &[vec!["x", "yy"]];
    let out = draw_table(headers, rows, 9, Charset::Ascii, BorderStyle::Single).unwrap();
    assert_eq!(out, "+---+---+\n|A  |B  |\n+---+---+\n|x  |yy |\n+---+---+\n");
}

#[test]
fn right_aligned_column() {
    let headers = &["N"];
    let rows = &[vec!["7"]];
    let out = Table::new(5, Charset::Ascii)
        .headers(headers)
        .rows(rows)
        .align(vec![HAlign::Right])
        .header_separator(false)
        .build()
        .unwrap();
    assert_eq!(out, "+---+\n|  N|\n|  7|\n+---+\n");
}

#[test]
fn too_narrow_table_grows_to_its_content() {
    let headers = &["A"];
    let out = Table::new(1, Charset::Ascii).headers(headers).build().unwrap();
    assert!(out.contains('A'), "header lost:\n{out}");
}
