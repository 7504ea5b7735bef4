use ohmydb::{DbError, JsonDB, JsonValue};

fn cv(x: &str) -> Vec<char> {
    x.chars().collect()
}

fn jstr(x: &str) -> JsonValue {
    JsonValue::Str(cv(x))
}

fn person(id: &str, name: &str) -> JsonValue {
    JsonValue::Obj(vec![(cv("id"), jstr(id)), (cv("name"), jstr(name))])
}

fn person_aged(id: &str, name: &str, age: u64) -> JsonValue {
    JsonValue::Obj(vec![
        (cv("id"), jstr(id)),
        (cv("name"), jstr(name)),
        (cv("age"), JsonValue::Num(age)),
    ])
}

fn contains_doc(docs: &[JsonValue], doc: &JsonValue) -> bool {
    docs.iter().any(|d| d.deep_eq(doc))
}

#[test]
fn example_scenario() {
    let mut db = JsonDB::new("demo.json");
    db.add_table("users");

    db.insert("users", &person("1", "Jane"));
    assert!(db.run().is_ok());
    let table = db.get_table_vec("users").unwrap();
    assert_eq!(table.len(), 1);

    db.insert("users", &person("1", "John"));
    assert_eq!(db.run().unwrap_err(), DbError::RecordAlreadyExists);
    assert_eq!(db.get_table_vec("users").unwrap().len(), 1);

    db.update("users", &person("1", "Janet"));
    assert!(db.run().is_ok());
    let table = db.get_table_vec("users").unwrap();
    assert_eq!(table.len(), 1);
    assert!(table[0].deep_eq(&person("1", "Janet")));

    db.find("users");
    db.where_("name");
    db.equals("Janet");
    let found = db.run().unwrap();
    assert_eq!(found.len(), 1);
    assert!(found[0].deep_eq(&person("1", "Janet")));

    db.delete("users");
    db.where_("name");
    db.equals("Nobody");
    let removed = db.run().unwrap();
    assert!(removed.is_empty());
    assert_eq!(db.get_table_vec("users").unwrap().len(), 1);
}

#[test]
fn insert_duplicate_id_fails() {
    let mut db = JsonDB::new("db.json");
    db.add_table("users");
    db.insert("users", &person("7", "Ann"));
    assert!(db.run().is_ok());
    db.insert("users", &person("7", "Bob"));
    assert_eq!(db.run().unwrap_err(), DbError::RecordAlreadyExists);
}

#[test]
fn insert_into_missing_table_fails() {
    let mut db = JsonDB::new("db.json");
    db.insert("ghosts", &person("1", "Casper"));
    assert_eq!(db.run().unwrap_err(), DbError::TableNotFound);
}

#[test]
fn insert_or_creates_the_table() {
    let mut db = JsonDB::new("db.json");
    db.insert_or("users", &person("1", "Ann"));
    assert!(db.run().is_ok());
    let table = db.get_table_vec("users").unwrap();
    assert_eq!(table.len(), 1);
    assert!(table[0].deep_eq(&person("1", "Ann")));
}

#[test]
fn insert_without_id_fails() {
    let mut db = JsonDB::new("db.json");
    db.add_table("users");
    db.insert(
        "users",
        &JsonValue::Obj(vec![(cv("name"), jstr("Anon"))]),
    );
    assert_eq!(db.run().unwrap_err(), DbError::PathNotFound);
    assert!(db.get_table_vec("users").unwrap().is_empty());
}

#[test]
fn find_with_no_filter_returns_all() {
    let mut db = JsonDB::new("db.json");
    db.add_table("users");
    db.insert("users", &person("1", "Ann"));
    db.run().unwrap();
    db.insert("users", &person("2", "Bob"));
    db.run().unwrap();
    db.find("users");
    let all = db.run().unwrap();
    assert_eq!(all.len(), 2);
    assert!(contains_doc(&all, &person("1", "Ann")));
    assert!(contains_doc(&all, &person("2", "Bob")));
}

#[test]
fn find_where_equals_filters() {
    let mut db = JsonDB::new("db.json");
    db.add_table("users");
    db.insert("users", &person("1", "Ann"));
    db.run().unwrap();
    db.insert("users", &person("2", "Bob"));
    db.run().unwrap();
    db.insert("users", &person("3", "Ann"));
    db.run().unwrap();
    db.find("users");
    db.where_("name");
    db.equals("Ann");
    let found = db.run().unwrap();
    assert_eq!(found.len(), 2);
    assert!(contains_doc(&found, &person("1", "Ann")));
    assert!(contains_doc(&found, &person("3", "Ann")));
    assert!(!contains_doc(&found, &person("2", "Bob")));
}

#[test]
fn not_equals_filter() {
    let mut db = JsonDB::new("db.json");
    db.add_table("users");
    db.insert("users", &person("1", "Ann"));
    db.run().unwrap();
    db.insert("users", &person("2", "Bob"));
    db.run().unwrap();
    db.find("users");
    db.where_("name");
    db.not_equals("Ann");
    let found = db.run().unwrap();
    assert_eq!(found.len(), 1);
    assert!(found[0].deep_eq(&person("2", "Bob")));
}

#[test]
fn in_filter() {
    let mut db = JsonDB::new("db.json");
    db.add_table("users");
    db.insert("users", &person("1", "Ann"));
    db.run().unwrap();
    db.insert("users", &person("2", "Bob"));
    db.run().unwrap();
    db.insert("users", &person("3", "Cid"));
    db.run().unwrap();
    db.find("users");
    db.where_("name");
    db.in_(vec!["Ann".to_string(), "Cid".to_string()]);
    let found = db.run().unwrap();
    assert_eq!(found.len(), 2);
    assert!(contains_doc(&found, &person("1", "Ann")));
    assert!(contains_doc(&found, &person("3", "Cid")));
}

#[test]
fn numeric_filters() {
    let mut db = JsonDB::new("db.json");
    db.add_table("users");
    db.insert("users", &person_aged("1", "Ann", 20));
    db.run().unwrap();
    db.insert("users", &person_aged("2", "Bob", 35));
    db.run().unwrap();
    db.insert("users", &person_aged("3", "Cid", 50));
    db.run().unwrap();

    db.find("users");
    db.where_("age");
    db.less_than(35);
    let found = db.run().unwrap();
    assert_eq!(found.len(), 1);
    assert!(found[0].deep_eq(&person_aged("1", "Ann", 20)));

    db.find("users");
    db.where_("age");
    db.greater_than(35);
    let found = db.run().unwrap();
    assert_eq!(found.len(), 1);
    assert!(found[0].deep_eq(&person_aged("3", "Cid", 50)));

    db.find("users");
    db.where_("age");
    db.between(20, 35);
    let found = db.run().unwrap();
    assert_eq!(found.len(), 2);
    assert!(contains_doc(&found, &person_aged("1", "Ann", 20)));
    assert!(contains_doc(&found, &person_aged("2", "Bob", 35)));

    // a string-typed field never satisfies a numeric comparison
    db.find("users");
    db.where_("name");
    db.less_than(1000);
    assert!(db.run().unwrap().is_empty());
}

#[test]
fn update_replaces_by_id() {
    let mut db = JsonDB::new("db.json");
    db.add_table("users");
    db.insert("users", &person_aged("1", "Ann", 20));
    db.run().unwrap();
    db.insert("users", &person("2", "Bob"));
    db.run().unwrap();
    db.update("users", &person_aged("1", "Anna", 21));
    let out = db.run().unwrap();
    assert_eq!(out.len(), 1);
    assert!(out[0].deep_eq(&person_aged("1", "Anna", 21)));
    let table = db.get_table_vec("users").unwrap();
    assert_eq!(table.len(), 2);
    assert!(contains_doc(&table, &person_aged("1", "Anna", 21)));
    assert!(!contains_doc(&table, &person_aged("1", "Ann", 20)));
    assert!(contains_doc(&table, &person("2", "Bob")));
}

#[test]
fn update_of_absent_id_fails_and_changes_nothing() {
    let mut db = JsonDB::new("db.json");
    db.add_table("users");
    db.insert("users", &person("1", "Ann"));
    db.run().unwrap();
    db.update("users", &person("9", "Zed"));
    assert_eq!(db.run().unwrap_err(), DbError::RecordNotFound);
    let table = db.get_table_vec("users").unwrap();
    assert_eq!(table.len(), 1);
    assert!(table[0].deep_eq(&person("1", "Ann")));
}

#[test]
fn update_respects_the_filter_chain() {
    let mut db = JsonDB::new("db.json");
    db.add_table("users");
    db.insert("users", &person("1", "Ann"));
    db.run().unwrap();
    // the filter narrows the working result to Bob's records, so Ann's id
    // is no eligible target
    db.update("users", &person("1", "Anna"));
    db.where_("name");
    db.equals("Bob");
    assert_eq!(db.run().unwrap_err(), DbError::RecordNotFound);
    let table = db.get_table_vec("users").unwrap();
    assert!(table[0].deep_eq(&person("1", "Ann")));
}

#[test]
fn delete_scoped_removes_exactly_the_matching_documents() {
    let mut db = JsonDB::new("db.json");
    db.add_table("users");
    db.insert("users", &person("1", "Ann"));
    db.run().unwrap();
    db.insert("users", &person("2", "Bob"));
    db.run().unwrap();
    db.insert("users", &person("3", "Ann"));
    db.run().unwrap();
    db.delete("users");
    db.where_("name");
    db.equals("Ann");
    let removed = db.run().unwrap();
    assert_eq!(removed.len(), 2);
    let table = db.get_table_vec("users").unwrap();
    assert_eq!(table.len(), 1);
    assert!(table[0].deep_eq(&person("2", "Bob")));
}

#[test]
fn delete_without_filter_empties_the_table() {
    let mut db = JsonDB::new("db.json");
    db.add_table("users");
    db.insert("users", &person("1", "Ann"));
    db.run().unwrap();
    db.insert("users", &person("2", "Bob"));
    db.run().unwrap();
    db.delete("users");
    let removed = db.run().unwrap();
    assert_eq!(removed.len(), 2);
    assert!(db.get_table_vec("users").unwrap().is_empty());
}

#[test]
fn delete_from_missing_table_fails() {
    let mut db = JsonDB::new("db.json");
    db.delete("ghosts");
    assert_eq!(db.run().unwrap_err(), DbError::TableNotFound);
}

#[test]
fn nested_path_filter() {
    let mut db = JsonDB::new("db.json");
    db.add_table("todos");
    let todo = JsonValue::Obj(vec![
        (cv("id"), jstr("1")),
        (cv("title"), jstr("Buy groceries")),
        (cv("wife"), person("10", "Jane Doe")),
    ]);
    db.insert("todos", &todo);
    db.run().unwrap();
    db.find("todos");
    db.where_("wife.name");
    db.equals("Jane Doe");
    let found = db.run().unwrap();
    assert_eq!(found.len(), 1);
    assert!(found[0].deep_eq(&todo));
}

#[test]
fn missing_path_is_excluded_by_default() {
    let mut db = JsonDB::new("db.json");
    db.add_table("users");
    db.insert("users", &person("1", "Ann"));
    db.run().unwrap();
    db.insert("users", &person_aged("2", "Bob", 30));
    db.run().unwrap();
    db.find("users");
    db.where_("age");
    db.greater_than(10);
    let found = db.run().unwrap();
    assert_eq!(found.len(), 1);
    assert!(found[0].deep_eq(&person_aged("2", "Bob", 30)));
}

#[test]
fn missing_path_aborts_when_configured() {
    let mut db = JsonDB::new("db.json");
    db.set_exclude_missing_path(false);
    db.add_table("users");
    db.insert("users", &person("1", "Ann"));
    db.run().unwrap();
    db.find("users");
    db.where_("age");
    db.greater_than(10);
    assert_eq!(db.run().unwrap_err(), DbError::PathNotFound);
}

#[test]
fn add_table_is_idempotent() {
    let mut db = JsonDB::new("db.json");
    db.add_table("users");
    db.insert("users", &person("1", "Ann"));
    db.run().unwrap();
    db.add_table("users");
    assert_eq!(db.get_table_vec("users").unwrap().len(), 1);
    assert_eq!(db.get_db_values().len(), 1);
}

#[test]
fn db_path_is_kept() {
    let db = JsonDB::new("anywhere/data.json");
    assert_eq!(db.get_db_path(), "anywhere/data.json");
}

#[test]
fn insert_identical_document_twice_fails() {
    let mut db = JsonDB::new("db.json");
    db.add_table("users");
    db.insert("users", &person("5", "Eve"));
    assert!(db.run().is_ok());
    db.insert("users", &person("5", "Eve"));
    assert_eq!(db.run().unwrap_err(), DbError::RecordAlreadyExists);
    assert_eq!(db.get_table_vec("users").unwrap().len(), 1);
}

#[test]
fn update_through_filter_in_abort_mode() {
    let mut db = JsonDB::new("db.json");
    db.set_exclude_missing_path(false);
    db.add_table("users");
    db.insert("users", &person("1", "Ann"));
    db.run().unwrap();

    // every document resolves at the active path: the identity rule applies
    db.update("users", &person("1", "Anna"));
    db.where_("name");
    db.equals("Ann");
    assert!(db.run().is_ok());
    let table = db.get_table_vec("users").unwrap();
    assert!(table[0].deep_eq(&person("1", "Anna")));

    // a document the path misses ends the run with the resolution error
    db.update("users", &person("1", "Annette"));
    db.where_("age");
    db.greater_than(0);
    assert_eq!(db.run().unwrap_err(), DbError::PathNotFound);
    let table = db.get_table_vec("users").unwrap();
    assert!(table[0].deep_eq(&person("1", "Anna")));
}
