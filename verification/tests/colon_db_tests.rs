use brudb::colon_db::{ColonError, Outcome};
use brudb::ColonDB;

fn s(x: &str) -> String {
    x.to_string()
}

fn saved() -> Outcome {
    Outcome { save: true, problem: None }
}

fn refused(e: ColonError) -> Outcome {
    Outcome { save: false, problem: Some(e) }
}

fn example_db() -> ColonDB {
    ColonDB::find_database("db.txt", Some("id:name,age,salary\n"))
}

#[test]
fn example_program_session() {
    // the calls of the table's example program, on a file that holds a header
    let mut db = example_db();
    assert_eq!(db.insert_item_into_db(s("01"), s("name"), s("kak")), saved());
    assert_eq!(db.insert_item_into_db(s("01"), s("age"), s("18")), saved());
    assert_eq!(db.insert_item_into_db(s("01"), s("salary"), s("0")), saved());
    assert_eq!(db.insert_row_into_db(s("02"), vec![s("alan"), s("12"), s("23")]), saved());
    assert_eq!(db.delete_column(s("salary")), saved());
    assert_eq!(db.delete_item("08", s("name")), refused(ColonError::KeyNotFound));
    assert_eq!(db.delete_row("09"), refused(ColonError::KeyNotFound));
    assert_eq!(db.file_text(), "id:name,age,\n01:kak,18,\n02:alan,12,\n");
    let newdb = db.select_data(Some(0..4), Some(vec![s("name"), s("age")]));
    assert_eq!(newdb.file_text(), "id:name,age\n01:kak,18\n02:alan,12\n");
    assert_eq!(newdb.file_name(), "db.txt");
    assert_eq!(db.select_item("01", "age"), Ok(s("18")));
}

#[test]
fn missing_file_gives_empty_table() {
    let mut db = ColonDB::find_database("none.txt", None);
    assert_eq!(db.file_text(), "");
    assert_eq!(db.insert_item_into_db(s("1"), s("a"), s("b")), refused(ColonError::ColumnNotFound));
    // with no header a row must have no values
    assert_eq!(
        db.insert_row_into_db(s("1"), vec![s("x")]),
        refused(ColonError::LengthMismatch { entry_len: 1, header_len: 0 })
    );
    assert_eq!(db.insert_row_into_db(s("1"), vec![]), saved());
    assert_eq!(db.file_text(), "1:\n");
}

#[test]
fn unknown_column_is_refused() {
    let mut db = example_db();
    assert_eq!(db.insert_item_into_db(s("01"), s("height"), s("2")), refused(ColonError::ColumnNotFound));
    assert_eq!(db.delete_column(s("height")), refused(ColonError::ColumnNotFound));
    assert_eq!(db.delete_item("id", s("height")), refused(ColonError::ColumnNotFound));
    assert_eq!(db.select_item("id", "height"), Err(ColonError::ColumnNotFound));
    assert_eq!(db.file_text(), "id:name,age,salary\n");
}

#[test]
fn short_row_reports_out_of_bounds() {
    let mut db = ColonDB::find_database("t.txt", Some("id:a,b,c\nr:1\n"));
    assert_eq!(
        db.insert_item_into_db(s("r"), s("c"), s("3")),
        Outcome { save: true, problem: Some(ColonError::IndexOutOfBounds) }
    );
    assert_eq!(db.select_item("r", "c"), Err(ColonError::IndexOutOfBounds));
    assert_eq!(db.select_item("r", "a"), Ok(s("1")));
    assert!(!db.item_in_bounds("r", "c"));
    assert!(db.item_in_bounds("r", "a"));
    assert!(db.item_in_bounds("nobody", "c"));
    assert_eq!(db.file_text(), "id:a,b,c\nr:1\n");
}

#[test]
fn new_row_is_created_with_empty_values() {
    let mut db = example_db();
    assert_eq!(db.insert_item_into_db(s("07"), s("age"), s("30")), saved());
    assert_eq!(db.select_item("07", "name"), Ok(s("")));
    assert_eq!(db.select_item("07", "age"), Ok(s("30")));
    assert_eq!(db.file_text(), "id:name,age,salary\n07:,30,\n");
}

#[test]
fn insert_row_length_must_match_header() {
    let mut db = example_db();
    assert_eq!(
        db.insert_row_into_db(s("02"), vec![s("alan")]),
        refused(ColonError::LengthMismatch { entry_len: 1, header_len: 3 })
    );
    assert_eq!(db.insert_row_into_db(s("02"), vec![s("a"), s("b"), s("c")]), saved());
    assert_eq!(db.insert_row_into_db(s("02"), vec![s("x"), s("y"), s("z")]), saved());
    assert_eq!(db.file_text(), "id:name,age,salary\n02:x,y,z\n");
}

#[test]
fn delete_item_clears_one_value() {
    let mut db = ColonDB::find_database("t.txt", Some("id:a,b\nr:1,2\n"));
    assert_eq!(db.delete_item("r", s("b")), saved());
    assert_eq!(db.select_item("r", "b"), Ok(s("")));
    assert_eq!(db.select_item("r", "a"), Ok(s("1")));
}

#[test]
fn delete_row_moves_last_row_into_its_place() {
    let mut db = ColonDB::find_database("t.txt", Some("id:a\nx:1\ny:2\nz:3\n"));
    assert_eq!(db.delete_row("x"), saved());
    assert_eq!(db.file_text(), "id:a\nz:3\ny:2\n");
    assert_eq!(db.select_item("x", "a"), Err(ColonError::KeyNotFound));
    // removing the header row makes the last row the header
    assert_eq!(db.delete_row("id"), saved());
    assert_eq!(db.file_text(), "y:2\nz:3\n");
}

#[test]
fn delete_column_skips_short_rows() {
    let mut db = ColonDB::find_database("t.txt", Some("id:a,b\nr:1,2\nq:5\n"));
    assert_eq!(db.delete_column(s("b")), saved());
    assert_eq!(db.file_text(), "id:a,\nr:1,\nq:5\n");
}

#[test]
fn select_data_ranges_and_columns() {
    let db = ColonDB::find_database("t.txt", Some("id:a,b,c\nr1:1,2,3\nr2:4,5\nr3:7,8,9\n"));
    assert_eq!(db.select_data(None, None).file_text(), "id:a,b,c\nr1:1,2,3\nr2:4,5\nr3:7,8,9\n");
    assert_eq!(db.select_data(Some(1..3), None).file_text(), "r1:1,2,3\nr2:4,5\n");
    // unknown names are skipped; values past a row's end are skipped
    assert_eq!(
        db.select_data(Some(1..10), Some(vec![s("c"), s("zz"), s("a")])).file_text(),
        "r1:3,1\nr2:4\nr3:9,7\n"
    );
    // an empty or reversed range keeps no rows
    assert_eq!(db.select_data(Some(3..1), None).file_text(), "");
    assert_eq!(db.select_data(Some(9..12), None).file_text(), "");
}

#[test]
fn print_lines_show_values_and_separators() {
    let db = ColonDB::find_database("t.txt", Some("id:name,age\n1:é,\n"));
    assert_eq!(
        db.print_database(),
        vec![
            s("id || name | age | "),
            s("-------------------"),
            s("1 || é | empty | "),
            s("------------------"),
        ]
    );
}

#[test]
fn loading_handles_duplicates_and_odd_lines() {
    let db = ColonDB::find_database("t.txt", Some("id:a,b\r\nr:1,2\nnot a row\nr:3,4\nid:x\n"));
    // a repeated key keeps its first place and takes the last row
    assert_eq!(db.file_text(), "id:x\nr:3,4\n");
}

#[test]
fn saved_table_reloads_identically() {
    let mut db = example_db();
    db.insert_row_into_db(s("b"), vec![s("x:y"), s(""), s("é")]);
    db.insert_row_into_db(s("a"), vec![s("1"), s("2"), s("3")]);
    let text = db.file_text();
    let again = ColonDB::find_database("db.txt", Some(text.as_str()));
    assert_eq!(again.file_text(), text);
    assert_eq!(again.select_item("b", "name"), Ok(s("x:y")));
    assert_eq!(again.select_item("b", "salary"), Ok(s("é")));
}
