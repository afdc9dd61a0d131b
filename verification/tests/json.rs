use donner::json::{array, no_fields, object, put, Json};

fn doc() -> Json {
    let mut inner = no_fields();
    put(&mut inner, "b", Json::Unsigned(7));
    let mut fields = no_fields();
    put(&mut fields, "a", object(inner));
    put(&mut fields, "list", array(vec![Json::Bool(true), Json::text("x")]));
    put(&mut fields, "a", Json::Null);
    object(fields)
}

#[test]
fn members_are_found_by_name() {
    let d = doc();
    assert_eq!(d.get2("a", "b"), Some(&Json::Unsigned(7)));
    assert_eq!(d.get("c"), None);
    assert_eq!(d.get2("list", "b"), None);
    assert_eq!(Json::Null.get("a"), None);
}

#[test]
fn items_are_found_by_index() {
    let d = doc();
    let list = d.get("list").unwrap();
    assert_eq!(list.item(1).unwrap().as_str(), Some("x"));
    assert_eq!(list.item(2), None);
    assert_eq!(d.item(0), None);
}

#[test]
fn numbers_are_read_as_what_they_fit() {
    assert_eq!(Json::Unsigned(u64::MAX).as_u64(), Some(u64::MAX));
    assert_eq!(Json::Unsigned(u64::MAX).as_i64(), None);
    assert_eq!(Json::Negative(-1).as_u64(), None);
    assert_eq!(Json::Negative(-1).as_i64(), Some(-1));
    assert_eq!(Json::Unsigned(2147483647).as_i32(), Some(2147483647));
    assert_eq!(Json::Unsigned(2147483648).as_i32(), None);
    assert_eq!(Json::Negative(-2147483648).as_i32(), Some(-2147483648));
    assert_eq!(Json::Decimal("1.0".to_string()).as_u64(), None);
    assert_eq!(Json::text("1").as_i64(), None);
}

#[test]
fn a_duplicate_is_the_same() {
    assert_eq!(doc().duplicate(), doc());
    assert_eq!(Json::Decimal("1e9".to_string()).duplicate(), Json::Decimal("1e9".to_string()));
}

#[test]
fn documents_are_written_as_serde_json_writes_them() {
    let texts = vec![
        "null",
        "[true,false,[],{}]",
        "{\"a\":1,\"b\":[-5,18446744073709551615,1.50,1e+9,-0],\"c\":{\"d\":\"x\"}}",
        "\"plain\"",
        "\"q\\\"b\\\\s\u{20ac}\u{10000}\"",
    ];
    for text in texts {
        let value: serde_json::Value = serde_json::from_str(text).unwrap();
        assert_eq!(inside(&value).to_text(), text);
        assert_eq!(value.to_string(), text);
    }
    assert_eq!(Json::Decimal("[-1]".to_string()).to_text(), "\"[-1]\"");
    let odd = "a\"b\\c\n\t\u{1}\u{1f}\u{7f}d";
    let written = Json::text(odd).to_text();
    assert!(written.contains("\\u000a") && written.contains("\\u001f"));
    let read: String = serde_json::from_str(&written).unwrap();
    assert_eq!(read, odd);
}

fn inside(value: &serde_json::Value) -> Json {
    match value {
        serde_json::Value::Null => Json::Null,
        serde_json::Value::Bool(b) => Json::Bool(*b),
        serde_json::Value::Number(n) => match (n.as_u64(), n.as_i64()) {
            (Some(u), _) => Json::Unsigned(u),
            (None, Some(i)) => Json::Negative(i),
            (None, None) => Json::Decimal(n.to_string()),
        },
        serde_json::Value::String(s) => Json::Text(s.clone()),
        serde_json::Value::Array(items) => Json::Array(items.iter().map(inside).collect()),
        serde_json::Value::Object(fields) => {
            Json::Object(fields.iter().map(|(k, v)| (k.clone(), inside(v))).collect())
        }
    }
}
