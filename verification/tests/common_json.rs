use theme_generation::json::{has_keys, obj_find, obj_set, potential_var, same_type, JSPath, Json, JsonKey};

fn to_json(v: &serde_json::Value) -> Json {
    match v {
        serde_json::Value::Null => Json::Null,
        serde_json::Value::Bool(b) => Json::Bool(*b),
        serde_json::Value::Number(n) => Json::Number(n.to_string()),
        serde_json::Value::String(s) => Json::String(s.clone()),
        serde_json::Value::Array(a) => Json::Array(a.iter().map(to_json).collect()),
        serde_json::Value::Object(o) => {
            Json::Object(o.iter().map(|(k, v)| (k.clone(), to_json(v))).collect())
        }
    }
}

fn parse(text: &str) -> Json {
    to_json(&serde_json::from_str::<serde_json::Value>(text).unwrap())
}

fn same(a: &Json, b: &Json) -> bool {
    theme_generation::json::json_eq(a, b)
}

#[test]
fn path_text_round_trip() {
    let p = JSPath::from_str("/a/b/0").unwrap();
    assert_eq!(p.to_string(), "/a/b/0");
    assert_eq!(p.join(), "a/b/0");
    assert_eq!(p.0.len(), 3);
    assert!(matches!(p.0[2], JsonKey::Index(0)));
    assert_eq!(p.0[1].inner(), "b");
    assert_eq!(p.0[2].inner(), "0");
}

#[test]
fn path_skips_empty_segments_and_trims() {
    let p = JSPath::from_str("// a / 1 /").unwrap();
    assert_eq!(p.to_string(), "/a/1");
    assert!(matches!(p.0[1], JsonKey::Index(1)));
}

#[test]
fn empty_path_is_root() {
    let p = JSPath::new();
    assert_eq!(p.to_string(), "");
    assert_eq!(p.join(), "");
}

#[test]
fn traverse_finds_nested_value() {
    let j = parse(r#"{"a": {"b": {"c": 3}}, "x": [1, 2, 3]}"#);
    let p = JSPath::from_str("/a/b/c").unwrap();
    assert!(same(p.traverse(&j).unwrap(), &parse("3")));
    let q = JSPath::from_str("/x/1").unwrap();
    assert!(same(q.traverse(&j).unwrap(), &parse("2")));
}

#[test]
fn traverse_error_names_the_path() {
    let j = parse(r#"{"a": 1}"#);
    let p = JSPath::from_str("/b").unwrap();
    match p.traverse(&j) {
        Err(theme_generation::args::ProgramError::Processing(m)) => assert_eq!(m, "Invalid path: /b"),
        _ => panic!("expected an error"),
    }
}

#[test]
fn pave_creates_missing_objects() {
    let mut j = parse(r#"{}"#);
    let p = JSPath::from_str("/a/b").unwrap();
    p.pave(&mut j, parse("5")).unwrap();
    assert!(same(&j, &parse(r#"{"a": {"b": 5}}"#)));
}

#[test]
fn pave_fills_grown_arrays_with_the_value() {
    let mut j = parse(r#"{"a": [1]}"#);
    let p = JSPath::from_str("/a/3").unwrap();
    p.pave(&mut j, parse("7")).unwrap();
    assert!(same(&j, &parse(r#"{"a": [1, 7, 7, 7]}"#)));
}

#[test]
fn remove_deletes_key_and_array_item() {
    let mut j = parse(r#"{"a": {"b": 1, "c": 2}, "x": [1, 2, 3]}"#);
    JSPath::from_str("/a/b").unwrap().remove(&mut j).unwrap();
    JSPath::from_str("/x/0").unwrap().remove(&mut j).unwrap();
    assert!(same(&j, &parse(r#"{"a": {"c": 2}, "x": [2, 3]}"#)));
}

#[test]
fn same_type_and_keys() {
    assert!(same_type(&parse("1"), &parse("2.5")));
    assert!(!same_type(&parse("1"), &parse(r#""1""#)));
    assert!(has_keys(&parse(r#"{"a": 1}"#)));
    assert!(has_keys(&parse("[1]")));
    assert!(!has_keys(&parse(r#""text""#)));
    assert!(potential_var("$color.red"));
    assert!(!potential_var("#FF0000"));
}

#[test]
fn has_num_in_path_reads_number_segments() {
    assert!(JSPath::from_str("/a/12/b").unwrap().has_num_in_path());
    assert!(JSPath::from_str("/a/3").unwrap().has_num_in_path());
    assert!(!JSPath::from_str("/a/b").unwrap().has_num_in_path());
    assert!(!JSPath::from_str("/a/99999999999").unwrap().has_num_in_path());
}

#[test]
fn pave_fills_inner_slots_with_null() {
    let mut j = parse(r#"{"a": []}"#);
    JSPath::from_str("/a/1/b").unwrap().pave(&mut j, parse("7")).unwrap();
    assert!(same(&j, &parse(r#"{"a": [null, {"b": 7}]}"#)));
}

#[test]
fn pave_then_traverse_reads_the_value_back() {
    let mut j = parse(r#"{"a": {"x": 1}, "list": [0]}"#);
    let p = JSPath::from_str("/a/b/c").unwrap();
    p.pave(&mut j, parse(r#""new""#)).unwrap();
    assert!(same(p.traverse(&j).unwrap(), &parse(r#""new""#)));
    let q = JSPath::from_str("/list/0").unwrap();
    q.pave(&mut j, parse("9")).unwrap();
    assert!(same(q.traverse(&j).unwrap(), &parse("9")));
}

#[test]
fn path_text_reads_back_as_the_path() {
    let p = JSPath::from_str("/colors/12/name").unwrap();
    let q = JSPath::from_str(&p.to_string()).unwrap();
    assert_eq!(q.to_string(), "/colors/12/name");
    assert_eq!(q.0.len(), 3);
    assert!(matches!(q.0[1], JsonKey::Index(12)));
}

#[test]
fn object_set_then_find() {
    let mut o: Vec<(String, Json)> = Vec::new();
    obj_set(&mut o, String::from("b"), parse("1"));
    obj_set(&mut o, String::from("a"), parse("2"));
    obj_set(&mut o, String::from("b"), parse("3"));
    let keys: Vec<&str> = o.iter().map(|e| e.0.as_str()).collect();
    assert_eq!(keys, vec!["a", "b"]);
    let i = obj_find(&o, &"b".chars().collect()).unwrap();
    assert!(same(&o[i].1, &parse("3")));
    let k = obj_find(&o, &"a".chars().collect()).unwrap();
    assert!(same(&o[k].1, &parse("2")));
}

#[test]
fn joined_path_reads_back_as_the_path() {
    let p = JSPath::from_str("// a / 1 /b").unwrap();
    let q = JSPath::from_str(&p.join()).unwrap();
    assert_eq!(q.to_string(), p.to_string());
    assert_eq!(q.to_string(), "/a/1/b");
    assert_eq!(JSPath::new().join(), "");
}

#[test]
fn pave_then_traverse_with_digit_and_empty_keys() {
    let p = JSPath(vec![JsonKey::Key(String::from("5")), JsonKey::Key(String::new())]);
    let mut j = Json::Object(vec![]);
    assert!(p.pave(&mut j, Json::Bool(true)).is_ok());
    assert!(matches!(p.traverse(&j), Ok(Json::Bool(true))));
}
