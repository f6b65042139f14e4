use homepage_core::typst_table::{convert, convert_line, CellType};

#[test]
fn default_cell_type_is_brackets() {
    assert_eq!(CellType::default(), CellType::SquareBrackets);
}

#[test]
fn line_with_brackets() {
    assert_eq!(convert_line("a\tb", CellType::SquareBrackets), "  [a], [b], \n");
}

#[test]
fn line_with_dollars() {
    assert_eq!(convert_line("x", CellType::Dollars), "  $x$, \n");
}

#[test]
fn empty_line_is_one_empty_cell() {
    assert_eq!(convert_line("", CellType::SquareBrackets), "  [], \n");
    assert_eq!(convert_line("", CellType::Dollars), "  $$, \n");
}

#[test]
fn convert_empty_input() {
    assert_eq!(
        convert(String::new(), CellType::SquareBrackets),
        "#table(\n  columns: 0,\n)"
    );
}

#[test]
fn convert_two_by_two() {
    let input = String::from("1,5\t2\n3\t4\n");
    assert_eq!(
        convert(input, CellType::SquareBrackets),
        "#table(\n  columns: 2,\n  [1.5], [2], \n  [3], [4], \n)"
    );
}

#[test]
fn convert_dollars() {
    let input = String::from("a\tb");
    assert_eq!(
        convert(input, CellType::Dollars),
        "#table(\n  columns: 2,\n  $a$, $b$, \n)"
    );
}

#[test]
fn commas_become_dots_inside_cells() {
    let input = String::from("0,25\n1,75");
    assert_eq!(
        convert(input, CellType::Dollars),
        "#table(\n  columns: 1,\n  $0.25$, \n  $1.75$, \n)"
    );
}

#[test]
fn column_count_comes_from_first_line_only() {
    let input = String::from("a\tb\tc\nd");
    assert_eq!(
        convert(input, CellType::SquareBrackets),
        "#table(\n  columns: 3,\n  [a], [b], [c], \n  [d], \n)"
    );
}

#[test]
fn windows_line_endings_are_handled() {
    let input = String::from("a\r\nb\r\n");
    assert_eq!(
        convert(input, CellType::SquareBrackets),
        "#table(\n  columns: 1,\n  [a], \n  [b], \n)"
    );
}

#[test]
fn lone_trailing_carriage_return_stays() {
    let input = String::from("a\r");
    assert_eq!(
        convert(input, CellType::SquareBrackets),
        "#table(\n  columns: 1,\n  [a\r], \n)"
    );
}

#[test]
fn final_newline_adds_no_extra_line() {
    let with_newline = convert(String::from("a\nb\n"), CellType::SquareBrackets);
    let without_newline = convert(String::from("a\nb"), CellType::SquareBrackets);
    assert_eq!(with_newline, without_newline);
    assert_eq!(with_newline, "#table(\n  columns: 1,\n  [a], \n  [b], \n)");
}

#[test]
fn blank_line_in_the_middle_is_one_empty_cell() {
    let input = String::from("a\n\nb");
    assert_eq!(
        convert(input, CellType::SquareBrackets),
        "#table(\n  columns: 1,\n  [a], \n  [], \n  [b], \n)"
    );
}

#[test]
fn twelve_columns_print_as_two_digits() {
    let input = String::from("0\t1\t2\t3\t4\t5\t6\t7\t8\t9\t10\t11");
    let out = convert(input, CellType::SquareBrackets);
    assert!(out.starts_with("#table(\n  columns: 12,\n"));
    assert!(out.ends_with("  [0], [1], [2], [3], [4], [5], [6], [7], [8], [9], [10], [11], \n)"));
}
