use quake::{CsvProcessor, CsvTable};

#[test]
fn read_csv() {
    let text = "\"title\",\"author\"\n\"hello, world\",\"phodal\"\n";
    match CsvProcessor::read(text) {
        Ok(table) => {
            println!("{:?}", table);
            assert_eq!(vec!["title".to_string(), "author".to_string()], table.header);
            assert_eq!(1, table.rows.len());
            assert_eq!(
                vec!["hello, world".to_string(), "phodal".to_string()],
                table.rows[0]
            );
        }
        Err(err) => {
            println!("{:?}", err);
            panic!("expected a parsed table");
        }
    }
}

#[test]
fn write_quotes_non_numeric_only() {
    let header = vec!["title".to_string(), "count".to_string()];
    let rows = vec![
        vec!["hello, world".to_string(), "42".to_string()],
        vec!["-3.5".to_string(), "1e5".to_string()],
    ];
    let out = CsvProcessor::write(&header, &rows);
    assert_eq!(
        "\"title\",\"count\"\n\"hello, world\",42\n-3.5,\"1e5\"\n",
        out
    );
}

#[test]
fn write_empty_table_is_empty_text() {
    let out = CsvProcessor::write(&vec![], &vec![]);
    assert_eq!("", out);
}

#[test]
fn read_empty_is_empty_table() {
    let table = CsvProcessor::read("").unwrap();
    assert!(table.header.is_empty());
    assert!(table.rows.is_empty());
}

#[test]
fn round_trip() {
    let table = CsvTable {
        header: vec!["title".to_string(), "count".to_string(), "note".to_string()],
        rows: vec![
            vec!["hello, world".to_string(), "42".to_string(), "".to_string()],
            vec!["second".to_string(), "-1.5".to_string(), "a, b, c".to_string()],
        ],
    };
    let text = CsvProcessor::write(&table.header, &table.rows);
    let back = CsvProcessor::read(&text).unwrap();
    assert_eq!(table, back);
}

#[test]
fn round_trip_twice_is_stable() {
    let table = CsvTable {
        header: vec!["k".to_string()],
        rows: vec![vec!["v".to_string()]],
    };
    let text = CsvProcessor::write(&table.header, &table.rows);
    let back = CsvProcessor::read(&text).unwrap();
    let text2 = CsvProcessor::write(&back.header, &back.rows);
    assert_eq!(text, text2);
}

#[test]
fn read_ragged_rows_is_error() {
    let text = "\"a\",\"b\"\n\"only one\"\n";
    assert_eq!(Err(quake::TableFormatError), CsvProcessor::read(text));
}

#[test]
fn read_unterminated_quote_is_error() {
    let text = "\"a\",\"b\n";
    assert_eq!(Err(quake::TableFormatError), CsvProcessor::read(text));
}

#[test]
fn read_undoubles_quotes() {
    let text = "\"a\"\"b\"\n";
    let table = CsvProcessor::read(text).unwrap();
    assert_eq!(vec!["a\"b".to_string()], table.header);
}

#[test]
fn update_by_column_is_noop() {
    CsvProcessor::update_by_column();
    let table = CsvTable::default();
    assert!(table.header.is_empty());
    assert!(table.rows.is_empty());
}
