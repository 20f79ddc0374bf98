use locus::json::{decode, encode, Jsonable, Value};
use locus::storage::MemStore;

struct TestObj {
    name: String,
    details: String,
}

impl Jsonable for TestObj {
    fn to_value(&self) -> Value {
        Value::Obj(vec![
            ("name".to_string(), Value::Str(self.name.clone())),
            ("details".to_string(), Value::Str(self.details.clone())),
        ])
    }

    fn from_value(v: &Value) -> Option<Self> {
        match v {
            Value::Obj(fields) => {
                let mut name = None;
                let mut details = None;
                for (key, val) in fields {
                    match (key.as_str(), val) {
                        ("name", Value::Str(s)) => name = Some(s.clone()),
                        ("details", Value::Str(s)) => details = Some(s.clone()),
                        _ => return None,
                    }
                }
                Some(TestObj {
                    name: name?,
                    details: details?,
                })
            }
            _ => None,
        }
    }
}

struct NestedObj {
    name: String,
}

struct TestObjNested {
    name: String,
    details: NestedObj,
}

impl Jsonable for TestObjNested {
    fn to_value(&self) -> Value {
        Value::Obj(vec![
            ("name".to_string(), Value::Str(self.name.clone())),
            (
                "details".to_string(),
                Value::Obj(vec![(
                    "name".to_string(),
                    Value::Str(self.details.name.clone()),
                )]),
            ),
        ])
    }

    fn from_value(v: &Value) -> Option<Self> {
        match v {
            Value::Obj(fields) => {
                let mut name = None;
                let mut details = None;
                for (key, val) in fields {
                    match (key.as_str(), val) {
                        ("name", Value::Str(s)) => name = Some(s.clone()),
                        ("details", Value::Obj(inner)) => match inner.as_slice() {
                            [(k, Value::Str(s))] if k == "name" => {
                                details = Some(NestedObj { name: s.clone() })
                            }
                            _ => return None,
                        },
                        _ => return None,
                    }
                }
                Some(TestObjNested {
                    name: name?,
                    details: details?,
                })
            }
            _ => None,
        }
    }
}

#[test]
fn test_encodes_to_json() {
    let obj = TestObj {
        name: "Test".to_string(),
        details: "Details".to_string(),
    };

    let json = obj.to_json();
    assert_eq!(json, "{\"name\":\"Test\",\"details\":\"Details\"}");
}

#[test]
fn test_encodes_nested_to_json() {
    let obj = TestObjNested {
        name: "Test".to_string(),
        details: NestedObj {
            name: "test".to_string(),
        },
    };

    let json = obj.to_json();
    assert_eq!(json, "{\"name\":\"Test\",\"details\":{\"name\":\"test\"}}");
}

#[test]
fn test_decodes_from_json() {
    let mut store = MemStore::new();
    let json = "{\"name\":\"Test\",\"details\":\"Details\"}";
    store.write_file("my-temporary-note.txt", json.to_string());

    let text = store.read_file("my-temporary-note.txt").unwrap();
    let obj = TestObj::from_json(&text).unwrap();
    assert_eq!(obj.name, "Test");
    assert_eq!(obj.details, "Details");
}

#[test]
fn test_decodes_nested_from_json() {
    let mut store = MemStore::new();
    let json = "{\"name\":\"Test\",\"details\":{\"name\":\"test\"}}";
    store.write_file("my-temporary-note.txt", json.to_string());

    let text = store.read_file("my-temporary-note.txt").unwrap();
    let obj = TestObjNested::from_json(&text).unwrap();
    assert_eq!(obj.name, "Test");
    assert_eq!(obj.details.name, "test");
}

#[test]
fn test_encodes_scalars() {
    assert_eq!(encode(&Value::Null), "null");
    assert_eq!(encode(&Value::Bool(true)), "true");
    assert_eq!(encode(&Value::Bool(false)), "false");
    assert_eq!(encode(&Value::Str("".to_string())), "\"\"");
}

#[test]
fn test_encodes_array() {
    let v = Value::Arr(vec![
        Value::Str("a".to_string()),
        Value::Null,
        Value::Bool(false),
    ]);
    assert_eq!(encode(&v), "[\"a\",null,false]");
    assert_eq!(encode(&Value::Arr(vec![])), "[]");
    assert_eq!(encode(&Value::Obj(vec![])), "{}");
}

#[test]
fn test_encodes_escapes() {
    let v = Value::Str("a\"b\\c".to_string());
    assert_eq!(encode(&v), "\"a\\\"b\\\\c\"");
}

#[test]
fn test_decode_encode_round_trip() {
    let v = Value::Obj(vec![
        ("name".to_string(), Value::Str("a\"b\\c".to_string())),
        (
            "items".to_string(),
            Value::Arr(vec![Value::Null, Value::Bool(true), Value::Obj(vec![])]),
        ),
    ]);
    let text = encode(&v);
    let back = decode(&text).unwrap();
    assert_eq!(back, v);
}

#[test]
fn test_decodes_structures() {
    let v = decode("[\"x\",true]").unwrap();
    assert_eq!(
        v,
        Value::Arr(vec![Value::Str("x".to_string()), Value::Bool(true)])
    );
    let w = decode("{\"k\":null}").unwrap();
    assert_eq!(
        w,
        Value::Obj(vec![("k".to_string(), Value::Null)])
    );
}

#[test]
fn test_decode_rejects_malformed() {
    assert!(decode("").is_err());
    assert!(decode("nul").is_err());
    assert!(decode("{\"a\":}").is_err());
    assert!(decode("{\"a\":1}").is_err());
    assert!(decode("[true,]").is_err());
    assert!(decode("\"unterminated").is_err());
    assert!(decode("null ").is_err());
    assert!(decode("nullx").is_err());
}

#[test]
fn test_decode_rejects_shape_mismatch() {
    assert!(TestObj::from_json("{\"name\":\"Test\",\"details\":{\"name\":\"t\"}}").is_err());
    assert!(TestObj::from_json("[\"name\"]").is_err());
}
