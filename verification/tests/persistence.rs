use ohmydb::{
    get_field_by_name, get_key_chain_value, get_nested_value, tables_from_json, Comparator,
    DbError, JsonDB, JsonValue,
};

fn pc(x: &str) -> Vec<char> {
    x.chars().collect()
}

fn pstr(x: &str) -> JsonValue {
    JsonValue::Str(pc(x))
}

fn record(id: &str, name: &str) -> JsonValue {
    JsonValue::Obj(vec![(pc("id"), pstr(id)), (pc("name"), pstr(name))])
}

fn text_of(chars: &[char]) -> String {
    chars.iter().collect()
}

#[test]
fn round_trip_reopens_the_same_store() {
    let mut db = JsonDB::new("db.json");
    db.add_table("users");
    db.add_table("todos");
    db.insert("users", &record("1", "Ann"));
    db.run().unwrap();
    db.insert("users", &record("2", "Bob"));
    db.run().unwrap();
    db.insert("todos", &record("1", "shop"));
    db.run().unwrap();

    let saved = db.to_json();
    let mut reopened = JsonDB::open("db.json", &saved).unwrap();

    let before = db.get_db_values();
    let after = reopened.get_db_values();
    assert_eq!(before.len(), after.len());
    for (name, docs) in before.iter() {
        let found = after.iter().find(|(n, _)| n == name).unwrap();
        assert_eq!(docs.len(), found.1.len());
        for d in docs.iter() {
            assert!(found.1.iter().any(|x| x.deep_eq(d)));
        }
    }
    let users = reopened.get_table_vec("users").unwrap();
    assert_eq!(users.len(), 2);
}

#[test]
fn empty_content_opens_an_empty_store() {
    let empty: Vec<char> = Vec::new();
    let db = JsonDB::open("db.json", &empty).unwrap();
    assert!(db.get_db_values().is_empty());
}

#[test]
fn corrupt_content_is_rejected() {
    let garbage: Vec<char> = "not json at all".chars().collect();
    assert_eq!(
        JsonDB::open("db.json", &garbage).unwrap_err(),
        DbError::CorruptData
    );

    // the top level must be an object
    let arr: Vec<char> = "[1,2]".chars().collect();
    assert_eq!(
        JsonDB::open("db.json", &arr).unwrap_err(),
        DbError::CorruptData
    );

    // every member must be an array
    let bad_member: Vec<char> = "{\"users\":3}".chars().collect();
    assert_eq!(
        JsonDB::open("db.json", &bad_member).unwrap_err(),
        DbError::CorruptData
    );

    // trailing content is refused
    let trailing: Vec<char> = "{}tail".chars().collect();
    assert_eq!(
        JsonDB::open("db.json", &trailing).unwrap_err(),
        DbError::CorruptData
    );
}

#[test]
fn duplicate_identities_in_a_file_are_rejected() {
    let content: Vec<char> =
        "{\"users\":[{\"id\":\"1\",\"name\":\"Ann\"},{\"id\":\"1\",\"name\":\"Bob\"}]}"
            .chars()
            .collect();
    assert_eq!(
        JsonDB::open("db.json", &content).unwrap_err(),
        DbError::CorruptData
    );
}

#[test]
fn serde_json_reads_our_output() {
    let mut db = JsonDB::new("db.json");
    db.add_table("users");
    db.insert("users", &record("1", "Ann"));
    db.run().unwrap();
    let saved = text_of(&db.to_json());
    let parsed: serde_json::Value = serde_json::from_str(&saved).unwrap();
    let users = parsed.as_object().unwrap().get("users").unwrap();
    let first = users.as_array().unwrap()[0].as_object().unwrap();
    assert_eq!(first.get("id").unwrap().as_str().unwrap(), "1");
    assert_eq!(first.get("name").unwrap().as_str().unwrap(), "Ann");
}

#[test]
fn our_parser_reads_serde_json_output() {
    let mut doc = serde_json::Map::new();
    doc.insert("id".to_string(), serde_json::Value::String("1".to_string()));
    doc.insert(
        "score".to_string(),
        serde_json::Value::Number(serde_json::Number::from(42u64)),
    );
    let mut top = serde_json::Map::new();
    top.insert(
        "players".to_string(),
        serde_json::Value::Array(vec![serde_json::Value::Object(doc)]),
    );
    let text = serde_json::to_string(&serde_json::Value::Object(top)).unwrap();
    let content: Vec<char> = text.chars().collect();
    let mut db = JsonDB::open("db.json", &content).unwrap();
    let players = db.get_table_vec("players").unwrap();
    assert_eq!(players.len(), 1);
    db.find("players");
    db.where_("score");
    db.between(42, 42);
    assert_eq!(db.run().unwrap().len(), 1);
}

#[test]
fn escaped_strings_round_trip() {
    let tricky = "a\"b\\c";
    let mut db = JsonDB::new("db.json");
    db.add_table("t");
    db.insert(
        "t",
        &JsonValue::Obj(vec![(pc("id"), pstr("1")), (pc("text"), pstr(tricky))]),
    );
    db.run().unwrap();
    let saved = db.to_json();
    let mut reopened = JsonDB::open("db.json", &saved).unwrap();
    reopened.find("t");
    reopened.where_("text");
    reopened.equals(tricky);
    assert_eq!(reopened.run().unwrap().len(), 1);
}

#[test]
fn null_bool_and_numbers_round_trip() {
    let doc = JsonValue::Obj(vec![
        (pc("id"), pstr("1")),
        (pc("none"), JsonValue::Null),
        (pc("flag"), JsonValue::Bool(true)),
        (pc("off"), JsonValue::Bool(false)),
        (pc("zero"), JsonValue::Num(0)),
        (pc("big"), JsonValue::Num(u64::MAX)),
        (pc("list"), JsonValue::Arr(vec![JsonValue::Num(1), JsonValue::Num(20)])),
    ]);
    let mut db = JsonDB::new("db.json");
    db.add_table("t");
    db.insert("t", &doc);
    db.run().unwrap();
    let saved = db.to_json();
    let mut reopened = JsonDB::open("db.json", &saved).unwrap();
    let docs = reopened.get_table_vec("t").unwrap();
    assert_eq!(docs.len(), 1);
    assert!(docs[0].deep_eq(&doc));
}

#[test]
fn numbers_beyond_u64_are_rejected() {
    let content: Vec<char> = "{\"t\":[{\"id\":\"1\",\"n\":18446744073709551616}]}"
        .chars()
        .collect();
    assert_eq!(
        JsonDB::open("db.json", &content).unwrap_err(),
        DbError::CorruptData
    );
}

#[test]
fn tables_from_json_lists_the_saved_tables() {
    let mut db = JsonDB::new("db.json");
    db.add_table("users");
    db.add_table("todos");
    let saved = db.to_json();
    let names = tables_from_json(&saved);
    let names: Vec<String> = names.iter().map(|n| n.iter().collect()).collect();
    assert_eq!(names, vec!["users".to_string(), "todos".to_string()]);

    let garbage: Vec<char> = "broken".chars().collect();
    assert!(tables_from_json(&garbage).is_empty());
}

#[test]
fn path_resolver_helpers() {
    let doc = JsonValue::Obj(vec![
        (pc("id"), pstr("1")),
        (
            pc("wife"),
            JsonValue::Obj(vec![(pc("name"), pstr("Jane"))]),
        ),
    ]);
    let direct = get_field_by_name(&doc, "id").unwrap();
    assert!(direct.deep_eq(&pstr("1")));

    let nested = get_nested_value(&doc, "wife.name").unwrap();
    assert!(nested.deep_eq(&pstr("Jane")));

    assert_eq!(
        get_nested_value(&doc, "wife.age").unwrap_err(),
        DbError::PathNotFound
    );
    assert_eq!(
        get_nested_value(&doc, "id.sub").unwrap_err(),
        DbError::NotAnObject
    );

    assert!(get_key_chain_value(&doc, "wife.name").is_some());
    assert!(get_key_chain_value(&doc, "husband.name").is_none());
}

#[test]
fn comparator_engine_direct() {
    let db = JsonDB::new("db.json");
    assert!(db.filter_with_conmpare(JsonValue::Num(42), &Comparator::GreaterThan(30)));
    assert!(!db.filter_with_conmpare(JsonValue::Num(42), &Comparator::GreaterThan(42)));
    assert!(db.filter_with_conmpare(JsonValue::Num(42), &Comparator::Between((42, 43))));
    assert!(db.filter_with_conmpare(pstr("x"), &Comparator::Equals(pc("x"))));
    assert!(!db.filter_with_conmpare(JsonValue::Num(3), &Comparator::Equals(pc("3"))));
    assert!(db.filter_with_conmpare(pstr("x"), &Comparator::In(vec![pc("y"), pc("x")])));
}

#[test]
fn whitespace_between_tokens_is_accepted() {
    let text = " {\n  \"users\" : [ { \"id\" : \"1\" ,\t\"name\" : \"Ann\" } ] ,\n  \"todos\" : [ ]\n}\n";
    let content: Vec<char> = text.chars().collect();
    let mut db = JsonDB::open("db.json", &content).unwrap();
    let users = db.get_table_vec("users").unwrap();
    assert_eq!(users.len(), 1);
    assert!(users[0].deep_eq(&record("1", "Ann")));
    assert!(db.get_table_vec("todos").unwrap().is_empty());
}

#[test]
fn pretty_printed_files_open() {
    let mut doc = serde_json::Map::new();
    doc.insert("id".to_string(), serde_json::Value::String("1".to_string()));
    doc.insert(
        "name".to_string(),
        serde_json::Value::String("Ann".to_string()),
    );
    let mut top = serde_json::Map::new();
    top.insert(
        "users".to_string(),
        serde_json::Value::Array(vec![serde_json::Value::Object(doc)]),
    );
    let text = serde_json::to_string_pretty(&serde_json::Value::Object(top)).unwrap();
    let content: Vec<char> = text.chars().collect();
    let mut db = JsonDB::open("db.json", &content).unwrap();
    let users = db.get_table_vec("users").unwrap();
    assert_eq!(users.len(), 1);
    assert!(users[0].deep_eq(&record("1", "Ann")));
}

#[test]
fn standard_escapes_are_accepted() {
    let text = "{\"t\":[{\"id\":\"1\",\"text\":\"a\\nb\\tc\\/d\\u0041e\\u000a\"}]}";
    let content: Vec<char> = text.chars().collect();
    let mut db = JsonDB::open("db.json", &content).unwrap();
    let docs = db.get_table_vec("t").unwrap();
    assert_eq!(docs.len(), 1);
    let expected = JsonValue::Obj(vec![
        (pc("id"), pstr("1")),
        (pc("text"), pstr("a\nb\tc/dAe\n")),
    ]);
    assert!(docs[0].deep_eq(&expected));
}

#[test]
fn control_characters_round_trip() {
    let tricky = "a\u{1}b\nc\td\u{1f}";
    let doc = JsonValue::Obj(vec![(pc("id"), pstr("1")), (pc("text"), pstr(tricky))]);
    let mut db = JsonDB::new("db.json");
    db.add_table("t");
    db.insert("t", &doc);
    db.run().unwrap();
    let saved = db.to_json();
    // the saved text holds no raw control character
    assert!(saved.iter().all(|c| (*c as u32) >= 0x20));
    let mut reopened = JsonDB::open("db.json", &saved).unwrap();
    let docs = reopened.get_table_vec("t").unwrap();
    assert_eq!(docs.len(), 1);
    assert!(docs[0].deep_eq(&doc));
    // and ordinary JSON tooling reads it the same way
    let text = text_of(&saved);
    let parsed: serde_json::Value = serde_json::from_str(&text).unwrap();
    let t = parsed.as_object().unwrap().get("t").unwrap();
    let first = t.as_array().unwrap()[0].as_object().unwrap();
    assert_eq!(first.get("text").unwrap().as_str().unwrap(), tricky);
}

#[test]
fn tables_from_json_rejects_trailing_content() {
    let content: Vec<char> = "{\"users\":[]} extra".chars().collect();
    assert!(tables_from_json(&content).is_empty());
}
