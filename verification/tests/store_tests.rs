use minidb::Db;

fn fresh_db() -> Db {
    Db::open(String::new())
}

#[test]
fn test_insert_and_get() {
    let mut db = fresh_db();

    db.insert(1, "Alice");
    db.insert(2, "Bob");

    assert_eq!(db.get(1), Some("Alice".to_string()));
    assert_eq!(db.get(2), Some("Bob".to_string()));
}

#[test]
fn test_get_missing_key() {
    let db = fresh_db();

    assert_eq!(db.get(99), None);
}

#[test]
fn test_update() {
    let mut db = fresh_db();

    db.insert(1, "Alice");
    db.update(1, "Alicia");

    assert_eq!(db.get(1), Some("Alicia".to_string()));
}

#[test]
fn test_delete() {
    let mut db = fresh_db();

    db.insert(1, "Alice");
    db.insert(2, "Bob");
    db.delete(1);

    assert_eq!(db.get(1), None);
    assert_eq!(db.get(2), Some("Bob".to_string()));
}

#[test]
fn insert_then_get_round_trip() {
    let mut db = fresh_db();

    db.insert(7, "seven");
    assert_eq!(db.get(7), Some("seven".to_string()));

    db.insert(0, "");
    assert_eq!(db.get(0), Some("".to_string()));

    db.insert(u32::MAX, "top");
    assert_eq!(db.get(u32::MAX), Some("top".to_string()));
}

#[test]
fn value_may_contain_the_separator() {
    let mut db = fresh_db();

    db.insert(5, "a:b:c");
    assert_eq!(db.get(5), Some("a:b:c".to_string()));
}

#[test]
fn update_twice_keeps_last_value_only() {
    let mut db = fresh_db();

    db.insert(1, "one");
    db.update(1, "first");
    db.update(1, "second");

    assert_eq!(db.get(1), Some("second".to_string()));
    assert_eq!(db.get_all(), vec![(1, "second".to_string())]);
}

#[test]
fn update_normalises_duplicates() {
    let mut db = fresh_db();

    db.insert(1, "a");
    db.insert(1, "b");
    db.update(1, "c");

    assert_eq!(db.get_all(), vec![(1, "c".to_string()), (1, "c".to_string())]);
}

#[test]
fn delete_removes_every_record_of_the_key() {
    let mut db = fresh_db();

    db.insert(1, "a");
    db.insert(1, "b");
    db.delete(1);

    assert_eq!(db.get(1), None);
    assert!(db.get_all().is_empty());
}

#[test]
fn update_and_delete_preserve_order_of_untouched_records() {
    let mut db = fresh_db();

    db.insert(1, "a");
    db.insert(2, "b");
    db.insert(3, "c");

    db.update(2, "B");
    assert_eq!(
        db.get_all(),
        vec![
            (1, "a".to_string()),
            (2, "B".to_string()),
            (3, "c".to_string()),
        ]
    );

    db.delete(2);
    assert_eq!(
        db.get_all(),
        vec![(1, "a".to_string()), (3, "c".to_string())]
    );
}

#[test]
fn duplicate_insert_shadows_for_get_but_lists_both() {
    let mut db = fresh_db();

    db.insert(1, "Alice");
    db.insert(1, "Bob");

    assert_eq!(db.get(1), Some("Alice".to_string()));
    assert_eq!(
        db.get_all(),
        vec![(1, "Alice".to_string()), (1, "Bob".to_string())]
    );
}

#[test]
fn malformed_lines_are_skipped() {
    let db = Db::open("1:Alice\nnotanumber:value\n2:Bob\n".to_string());

    assert_eq!(
        db.get_all(),
        vec![(1, "Alice".to_string()), (2, "Bob".to_string())]
    );
    assert_eq!(db.get(1), Some("Alice".to_string()));
    assert_eq!(db.get(2), Some("Bob".to_string()));
}

#[test]
fn lines_that_do_not_parse_yield_no_record() {
    // no separator, empty key, key too large for 32 bits, blank line
    let db = Db::open("noseparator\n:value\n4294967296:big\n\n2:ok\n".to_string());

    assert_eq!(db.get_all(), vec![(2, "ok".to_string())]);
}

#[test]
fn leading_zeros_in_a_key_parse() {
    let db = Db::open("007:james\n".to_string());

    assert_eq!(db.get(7), Some("james".to_string()));
}

#[test]
fn empty_store_misses_every_key() {
    let db = fresh_db();

    assert_eq!(db.get(0), None);
    assert_eq!(db.get(1), None);
    assert_eq!(db.get(u32::MAX), None);
    assert!(db.get_all().is_empty());
}

#[test]
fn concrete_scenario() {
    let mut db = fresh_db();

    db.insert(1, "Alice");
    db.insert(2, "Bob");
    db.update(1, "Alicia");
    db.delete(2);

    assert_eq!(db.get_all(), vec![(1, "Alicia".to_string())]);
}

#[test]
fn content_is_the_encoded_records() {
    let mut db = fresh_db();

    db.insert(1, "Alice");
    db.insert(2, "Bob");
    assert_eq!(db.content().as_str(), "1:Alice\n2:Bob\n");

    db.update(1, "Alicia");
    assert_eq!(db.content().as_str(), "1:Alicia\n2:Bob\n");

    db.delete(2);
    assert_eq!(db.content().as_str(), "1:Alicia\n");
}

#[test]
fn rewrites_keep_unparsed_lines_verbatim() {
    let mut db = Db::open("junk line\n1:a\n".to_string());

    db.update(1, "b");
    assert_eq!(db.content().as_str(), "junk line\n1:b\n");

    db.delete(1);
    assert_eq!(db.content().as_str(), "junk line\n");
}

#[test]
fn encode_record_gives_the_line_form() {
    assert_eq!(minidb::store::encode_record(5, "x"), "5:x\n");
    assert_eq!(minidb::store::encode_record(0, ""), "0:\n");
    assert_eq!(
        minidb::store::encode_record(4294967295, "v:w"),
        "4294967295:v:w\n"
    );
}

#[test]
fn insert_on_unterminated_content_glues_to_the_last_line() {
    // A backing file whose last line has no closing newline: the appended
    // record joins that line, so its key is not found and the first record
    // absorbs the rest of the line.
    let mut db = Db::open("1:a".to_string());

    db.insert(2, "b");
    assert_eq!(db.content().as_str(), "1:a2:b\n");
    assert_eq!(db.get(2), None);
    assert_eq!(db.get(1), Some("a2:b".to_string()));
}
