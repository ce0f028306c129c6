use spreadsheet::Cell;
use spreadsheet::Direction;
use spreadsheet::NumericIndex;
use spreadsheet::Spreadsheet;
use spreadsheet::SpreadsheetError;
use spreadsheet::SymbolicIndex;

fn lines(v: &[&str]) -> Vec<String> {
    let mut out: Vec<String> = Vec::new();
    for s in v {
        out.push((*s).to_string());
    }
    out
}

/// A small table: header `x,y,z` over the integers 0..11, row-major,
/// four rows of three columns.
fn test_table() -> Spreadsheet {
    let ls = lines(&["x,y,z", "0,1,2", "3,4,5", "6,7,8", "9,10,11"]);
    Spreadsheet::from_lines(&ls, ',').unwrap()
}

#[test]
fn rowiter() {
    let spread = test_table();
    let mut rows: Vec<Vec<Cell>> = Vec::new();
    let mut it = spread.iter_rows();
    while let Some(row) = it.next(&spread) {
        rows.push(row);
    }
    assert_eq!(rows.len(), spread.rows);
    assert_eq!(
        rows[0],
        vec![Cell::Integer(0), Cell::Integer(1), Cell::Integer(2)]
    );
    assert_eq!(
        rows[1],
        vec![Cell::Integer(3), Cell::Integer(4), Cell::Integer(5)]
    );
}

#[test]
fn coliter() {
    let spread = test_table();
    let mut cols: Vec<Vec<Cell>> = Vec::new();
    let mut cursor = spread.iter_cols();
    while let Some(mut cit) = cursor.next(&spread) {
        let mut col: Vec<Cell> = Vec::new();
        while let Some(c) = cit.next(&spread) {
            col.push(c);
        }
        cols.push(col);
    }
    assert_eq!(cols.len(), spread.cols);
    assert_eq!(
        cols[0],
        vec![
            Cell::Integer(0),
            Cell::Integer(3),
            Cell::Integer(6),
            Cell::Integer(9)
        ]
    );
    assert_eq!(
        cols[1],
        vec![
            Cell::Integer(1),
            Cell::Integer(4),
            Cell::Integer(7),
            Cell::Integer(10)
        ]
    );
}

#[test]
fn iter() {
    let spread = test_table();

    let mut cit = spread.iter(1, Direction::Column);
    let mut cells: Vec<Cell> = Vec::new();
    while let Some(c) = cit.next(&spread) {
        cells.push(c);
    }
    let expected = vec![
        Cell::Integer(1),
        Cell::Integer(4),
        Cell::Integer(7),
        Cell::Integer(10),
    ];
    assert_eq!(cells, expected);

    let mut rit = spread.iter(1, Direction::Row);
    let mut cells: Vec<Cell> = Vec::new();
    while let Some(c) = rit.next(&spread) {
        cells.push(c);
    }
    let expected = vec![Cell::Integer(3), Cell::Integer(4), Cell::Integer(5)];
    assert_eq!(cells, expected);
}

#[test]
fn index() {
    let spread = test_table();
    assert_eq!(
        *spread.index_by_name(SymbolicIndex::new(0, "x")),
        Cell::Integer(0)
    );
}

#[test]
fn numeric_index() {
    let spread = test_table();
    assert_eq!(*spread.index(NumericIndex::new(0, 0)), Cell::Integer(0));
    assert_eq!(*spread.index(NumericIndex::new(1, 2)), Cell::Integer(5));
    assert_eq!(*spread.index(NumericIndex::new(3, 1)), Cell::Integer(10));
}

#[test]
fn checked_lookups() {
    let spread = test_table();
    assert_eq!(spread.get(1, 2), Some(&Cell::Integer(5)));
    assert_eq!(spread.get(4, 0), None);
    assert_eq!(spread.get(0, 3), None);
    assert_eq!(spread.get_by_name(2, "z"), Some(&Cell::Integer(8)));
    assert_eq!(spread.get_by_name(4, "z"), None);
    assert_eq!(spread.get_by_name(0, "q"), None);
}

#[test]
fn data_len_matches_shape() {
    let spread = test_table();
    assert_eq!(spread.data.len(), spread.rows * spread.cols);
    assert_eq!(spread.rows, 4);
    assert_eq!(spread.cols, 3);

    let header_only = Spreadsheet::from_lines(&lines(&["a,b"]), ',').unwrap();
    assert_eq!(header_only.data.len(), header_only.rows * header_only.cols);

    let empty = Spreadsheet::from_lines(&lines(&[]), ',').unwrap();
    assert_eq!(empty.data.len(), empty.rows * empty.cols);
}

#[test]
fn infer_round_trip() {
    assert_eq!(Cell::infer("0"), Cell::Integer(0));
    assert_eq!(Cell::infer("1"), Cell::Integer(1));
    assert_eq!(Cell::infer("2"), Cell::Integer(2));
    assert_eq!(Cell::infer("1.5"), Cell::Float("1.5".to_string()));
    assert_eq!(Cell::infer("abc"), Cell::Text("abc".to_string()));
}

#[test]
fn infer_integer_edges() {
    assert_eq!(Cell::infer("+5"), Cell::Integer(5));
    assert_eq!(Cell::infer("-7"), Cell::Integer(-7));
    assert_eq!(
        Cell::infer("9223372036854775807"),
        Cell::Integer(i64::MAX)
    );
    assert_eq!(
        Cell::infer("-9223372036854775808"),
        Cell::Integer(i64::MIN)
    );
    // One past the 64-bit range: digits still match the float grammar.
    assert_eq!(
        Cell::infer("9223372036854775808"),
        Cell::Float("9223372036854775808".to_string())
    );
    assert_eq!(
        Cell::infer("-9223372036854775809"),
        Cell::Float("-9223372036854775809".to_string())
    );
}

#[test]
fn infer_float_edges() {
    assert_eq!(Cell::infer("1e5"), Cell::Float("1e5".to_string()));
    assert_eq!(Cell::infer("-2.5E-3"), Cell::Float("-2.5E-3".to_string()));
    assert_eq!(Cell::infer("5."), Cell::Float("5.".to_string()));
    assert_eq!(Cell::infer(".5"), Cell::Float(".5".to_string()));
    assert_eq!(Cell::infer("inf"), Cell::Float("inf".to_string()));
    assert_eq!(Cell::infer("+Infinity"), Cell::Float("+Infinity".to_string()));
    assert_eq!(Cell::infer("NaN"), Cell::Float("NaN".to_string()));
    assert_eq!(Cell::infer("1.e3"), Cell::Float("1.e3".to_string()));
}

#[test]
fn infer_text_fallback() {
    assert_eq!(Cell::infer(""), Cell::Text("".to_string()));
    assert_eq!(Cell::infer("."), Cell::Text(".".to_string()));
    assert_eq!(Cell::infer("1e"), Cell::Text("1e".to_string()));
    assert_eq!(Cell::infer("--5"), Cell::Text("--5".to_string()));
    assert_eq!(Cell::infer("1.5.6"), Cell::Text("1.5.6".to_string()));
    assert_eq!(Cell::infer("0x1"), Cell::Text("0x1".to_string()));
    assert_eq!(Cell::infer(" 1"), Cell::Text(" 1".to_string()));
    assert_eq!(Cell::infer("infx"), Cell::Text("infx".to_string()));
}

#[test]
fn structural_mismatch() {
    let r = Spreadsheet::from_lines(&lines(&["x,y,z", "1,2"]), ',');
    assert_eq!(r.unwrap_err(), SpreadsheetError::StructuralMismatch);

    let r = Spreadsheet::from_lines(&lines(&["x,y,z", "1,2,3,4"]), ',');
    assert_eq!(r.unwrap_err(), SpreadsheetError::StructuralMismatch);
}

#[test]
fn header_only() {
    let spread = Spreadsheet::from_lines(&lines(&["x,y,z"]), ',').unwrap();
    assert_eq!(spread.rows, 0);
    assert_eq!(spread.cols, 3);
    assert_eq!(
        spread.headers,
        vec!["x".to_string(), "y".to_string(), "z".to_string()]
    );
    let mut it = spread.iter_rows();
    assert!(it.next(&spread).is_none());
}

#[test]
fn empty_input() {
    let spread = Spreadsheet::from_lines(&lines(&[]), ',').unwrap();
    assert_eq!(spread.rows, 0);
    assert_eq!(spread.cols, 0);
    assert!(spread.headers.is_empty());
    assert!(spread.data.is_empty());
}

#[test]
fn duplicate_headers_first_match() {
    let spread = Spreadsheet::from_lines(&lines(&["a,a", "1,2"]), ',').unwrap();
    assert_eq!(spread.get_by_name(0, "a"), Some(&Cell::Integer(1)));
    assert_eq!(
        *spread.index_by_name(SymbolicIndex::new(0, "a")),
        Cell::Integer(1)
    );
}

#[test]
fn column_lookup() {
    let spread = test_table();
    let mut cit = spread.column("y").unwrap();
    let mut cells: Vec<Cell> = Vec::new();
    while let Some(c) = cit.next(&spread) {
        cells.push(c);
    }
    assert_eq!(
        cells,
        vec![
            Cell::Integer(1),
            Cell::Integer(4),
            Cell::Integer(7),
            Cell::Integer(10)
        ]
    );
    assert!(spread.column("q").is_none());
}

#[test]
fn tab_delimiter() {
    let spread = Spreadsheet::from_lines(&lines(&["a\tb", "1\t2.5"]), '\t').unwrap();
    assert_eq!(spread.cols, 2);
    assert_eq!(*spread.index(NumericIndex::new(0, 0)), Cell::Integer(1));
    assert_eq!(
        *spread.index(NumericIndex::new(0, 1)),
        Cell::Float("2.5".to_string())
    );
}

#[test]
fn empty_fields_and_trailing_line() {
    // An empty field is text; a trailing empty line is one empty field,
    // which only a one-column table accepts.
    let spread = Spreadsheet::from_lines(&lines(&["h", "a", ""]), ',').unwrap();
    assert_eq!(spread.rows, 2);
    assert_eq!(*spread.index(NumericIndex::new(0, 0)), Cell::Text("a".to_string()));
    assert_eq!(*spread.index(NumericIndex::new(1, 0)), Cell::Text("".to_string()));

    let r = Spreadsheet::from_lines(&lines(&["x,y", "1,2", ""]), ',');
    assert_eq!(r.unwrap_err(), SpreadsheetError::StructuralMismatch);

    let spread = Spreadsheet::from_lines(&lines(&["x,y", "1,", ",2"]), ',').unwrap();
    assert_eq!(*spread.index(NumericIndex::new(0, 1)), Cell::Text("".to_string()));
    assert_eq!(*spread.index(NumericIndex::new(1, 0)), Cell::Text("".to_string()));
}

#[test]
fn split_fields() {
    assert_eq!(
        spreadsheet::table::split_line("a,b,", ','),
        vec!["a".to_string(), "b".to_string(), "".to_string()]
    );
    assert_eq!(spreadsheet::table::split_line("", ','), vec!["".to_string()]);
    assert_eq!(
        spreadsheet::table::split_line(",,", ','),
        vec!["".to_string(), "".to_string(), "".to_string()]
    );
    assert_eq!(
        spreadsheet::table::split_line("one", '\t'),
        vec!["one".to_string()]
    );
}

#[test]
fn parse_integer_strings() {
    assert_eq!(spreadsheet::parse::parse_i64("42"), Some(42));
    assert_eq!(spreadsheet::parse::parse_i64("-1"), Some(-1));
    assert_eq!(spreadsheet::parse::parse_i64(""), None);
    assert_eq!(spreadsheet::parse::parse_i64("+"), None);
    assert_eq!(spreadsheet::parse::parse_i64("12a"), None);
    assert_eq!(spreadsheet::parse::parse_i64("9223372036854775808"), None);
    assert_eq!(
        spreadsheet::parse::parse_i64("99999999999999999999999999"),
        None
    );
}

#[test]
fn recognize_float_strings() {
    assert!(spreadsheet::parse::is_float_text("1.5"));
    assert!(spreadsheet::parse::is_float_text("-0.5e10"));
    assert!(spreadsheet::parse::is_float_text("3"));
    assert!(spreadsheet::parse::is_float_text("INF"));
    assert!(!spreadsheet::parse::is_float_text("x"));
    assert!(!spreadsheet::parse::is_float_text(""));
    assert!(!spreadsheet::parse::is_float_text("1,5"));
}

#[test]
fn mixed_column_kinds() {
    // Inference is per field: one column may hold several kinds.
    let spread = Spreadsheet::from_lines(&lines(&["v", "1", "1.5", "one"]), ',').unwrap();
    assert_eq!(*spread.index(NumericIndex::new(0, 0)), Cell::Integer(1));
    assert_eq!(
        *spread.index(NumericIndex::new(1, 0)),
        Cell::Float("1.5".to_string())
    );
    assert_eq!(
        *spread.index(NumericIndex::new(2, 0)),
        Cell::Text("one".to_string())
    );
}
