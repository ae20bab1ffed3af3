use brudb::SimpleDB;

fn s(x: &str) -> String {
    x.to_string()
}

#[test]
fn missing_file_gives_empty_store() {
    let db = SimpleDB::find_database("db2.txt", None);
    assert_eq!(db.get_value_from_db("ID"), None);
    assert_eq!(db.file_text(), "");
    assert_eq!(db.file_name(), "db2.txt");
}

#[test]
fn example_inserts_are_saved_in_order() {
    // the inserts of the store's example program
    let mut db = SimpleDB::find_database("db2.txt", None);
    db.insert_into_db(s("ID"), s("Value"));
    db.insert_into_db(s("ray"), s("123"));
    db.insert_into_db(s("jay"), s("456"));
    db.insert_into_db(s("kay"), s("789"));
    assert_eq!(db.get_value_from_db("ray"), Some(&s("123")));
    assert_eq!(db.get_value_from_db("kay"), Some(&s("789")));
    assert_eq!(db.file_text(), "ID:Value\nray:123\njay:456\nkay:789\n");
}

#[test]
fn insert_replaces_value_in_place() {
    let mut db = SimpleDB::find_database("x.txt", Some("a:1\nb:2\n"));
    db.insert_into_db(s("a"), s("9"));
    assert_eq!(db.get_value_from_db("a"), Some(&s("9")));
    assert_eq!(db.get_value_from_db("b"), Some(&s("2")));
    assert_eq!(db.file_text(), "a:9\nb:2\n");
}

#[test]
fn delete_removes_only_that_key() {
    let mut db = SimpleDB::find_database("x.txt", Some("a:1\nb:2\nc:3\n"));
    db.delete_from_db("b");
    assert_eq!(db.get_value_from_db("b"), None);
    assert_eq!(db.get_value_from_db("a"), Some(&s("1")));
    assert_eq!(db.get_value_from_db("c"), Some(&s("3")));
    db.delete_from_db("zzz");
    assert_eq!(db.file_text(), "a:1\nc:3\n");
}

#[test]
fn loading_splits_at_first_colon_and_skips_other_lines() {
    let db = SimpleDB::find_database("x.txt", Some("k:v:w\nno colon here\n:empty key\nk2:\n"));
    assert_eq!(db.get_value_from_db("k"), Some(&s("v:w")));
    assert_eq!(db.get_value_from_db(""), Some(&s("empty key")));
    assert_eq!(db.get_value_from_db("k2"), Some(&s("")));
    assert_eq!(db.get_value_from_db("no colon here"), None);
}

#[test]
fn loading_later_line_wins_and_crlf_is_dropped() {
    let db = SimpleDB::find_database("x.txt", Some("a:1\r\na:2\r\nb:3"));
    assert_eq!(db.get_value_from_db("a"), Some(&s("2")));
    assert_eq!(db.get_value_from_db("b"), Some(&s("3")));
    assert_eq!(db.file_text(), "a:2\nb:3\n");
}

#[test]
fn saved_text_reloads_to_same_contents() {
    let mut db = SimpleDB::find_database("x.txt", None);
    db.insert_into_db(s("730"), s("wake up: coffee"));
    db.insert_into_db(s("1200"), s("lunch"));
    db.insert_into_db(s("é"), s("ü"));
    let text = db.file_text();
    let again = SimpleDB::find_database("x.txt", Some(text.as_str()));
    assert_eq!(again.get_value_from_db("730"), Some(&s("wake up: coffee")));
    assert_eq!(again.get_value_from_db("1200"), Some(&s("lunch")));
    assert_eq!(again.get_value_from_db("é"), Some(&s("ü")));
    assert_eq!(again.file_text(), text);
}

#[test]
fn entry_pairs_follow_store_order() {
    let db = SimpleDB::find_database("x.txt", Some("b:2\na:1\n"));
    assert_eq!(db.entry_pairs(), vec![(s("b"), s("2")), (s("a"), s("1"))]);
}
