use minidb::router::respond;
use minidb::Db;

fn fresh_db() -> Db {
    Db::open(String::new())
}

#[test]
fn welcome_page() {
    let mut db = fresh_db();

    let body = respond(&mut db, "/", "");
    assert_eq!(body, "Welcome! Use /get?key=1 or /set?key=1&value=hello");
}

#[test]
fn unknown_path_is_not_found() {
    let mut db = fresh_db();

    assert_eq!(respond(&mut db, "/nope", ""), "404 Not Found");
    assert_eq!(respond(&mut db, "", "key=1"), "404 Not Found");
}

#[test]
fn get_responses() {
    let mut db = fresh_db();
    db.insert(1, "Alice");

    assert_eq!(respond(&mut db, "/get", "key=1"), "Value: Alice");
    assert_eq!(respond(&mut db, "/get", "key=2"), "Key not found");
    assert_eq!(
        respond(&mut db, "/get", "key=abc"),
        "Invalid key (must be a number)"
    );
    assert_eq!(respond(&mut db, "/get", "name=1"), "Missing 'key' parameter");
    assert_eq!(respond(&mut db, "/get", ""), "Missing 'key' parameter");
}

#[test]
fn set_saves_a_record() {
    let mut db = fresh_db();

    assert_eq!(respond(&mut db, "/set", "key=1&value=hello"), "Saved: 1 = hello");
    assert_eq!(db.get(1), Some("hello".to_string()));

    assert_eq!(
        respond(&mut db, "/set", "key=x&value=hello"),
        "Invalid key (must be a number)"
    );
    assert_eq!(
        respond(&mut db, "/set", "key=2"),
        "Missing 'key' or 'value' parameter"
    );
    assert_eq!(
        respond(&mut db, "/set", "value=hello"),
        "Missing 'key' or 'value' parameter"
    );
    assert_eq!(db.get_all(), vec![(1, "hello".to_string())]);
}

#[test]
fn update_rewrites_a_record() {
    let mut db = fresh_db();
    db.insert(1, "Alice");

    assert_eq!(
        respond(&mut db, "/update", "key=1&value=Alicia"),
        "Updated: 1 = Alicia"
    );
    assert_eq!(db.get(1), Some("Alicia".to_string()));
}

#[test]
fn delete_removes_a_record() {
    let mut db = fresh_db();
    db.insert(1, "Alice");
    db.insert(2, "Bob");

    assert_eq!(respond(&mut db, "/delete", "key=1"), "Deleted key: 1");
    assert_eq!(db.get(1), None);
    assert_eq!(db.get(2), Some("Bob".to_string()));
}

#[test]
fn all_lists_every_record() {
    let mut db = fresh_db();

    assert_eq!(respond(&mut db, "/all", ""), "Database is empty");

    db.insert(1, "Alice");
    db.insert(2, "Bob");
    assert_eq!(respond(&mut db, "/all", ""), "All data:\n1: Alice\n2: Bob\n");
}

#[test]
fn first_matching_parameter_wins() {
    let mut db = fresh_db();

    assert_eq!(
        respond(&mut db, "/set", "key=1&key=2&value=a&value=b"),
        "Saved: 1 = a"
    );
    assert_eq!(db.get_all(), vec![(1, "a".to_string())]);
}

#[test]
fn value_may_hold_further_equals_signs() {
    let mut db = fresh_db();

    assert_eq!(respond(&mut db, "/set", "key=3&value=a=b"), "Saved: 3 = a=b");
    assert_eq!(db.get(3), Some("a=b".to_string()));
}
