use locus::json::{Jsonable, Value};
use locus::storage::{
    dir_path, file_path, load_value, resolve_storage_file, save_value, LoadError, MemStore,
    Storable, StoragePath,
};

struct TestObj {
    name: String,
}

impl Jsonable for TestObj {
    fn to_value(&self) -> Value {
        Value::Obj(vec![("name".to_string(), Value::Str(self.name.clone()))])
    }

    fn from_value(v: &Value) -> Option<Self> {
        match v {
            Value::Obj(fields) => match fields.as_slice() {
                [(k, Value::Str(s))] if k == "name" => Some(TestObj { name: s.clone() }),
                _ => None,
            },
            _ => None,
        }
    }
}

impl StoragePath for TestObj {
    fn storage_file_name() -> &'static str {
        "test.json"
    }

    fn storage_dir_name() -> &'static str {
        ".locus"
    }

    fn base_dir_path() -> Option<String> {
        Some("/home/user".to_string())
    }
}

impl Storable for TestObj {}

#[test]
fn test_storage_path() {
    let mut store = MemStore::new();
    let storage_path = TestObj::get_or_create_storage_file_path(&mut store).unwrap();
    assert_eq!(storage_path, "/home/user/.locus/test.json");
    assert!(store.has_dir("/home/user/.locus"));
}

#[test]
fn test_storable() {
    let mut store = MemStore::new();
    let obj = TestObj {
        name: "Test".to_string(),
    };

    obj.save(&mut store).unwrap();
    assert!(store.has_dir("/home/user/.locus"));
    let loaded_obj = TestObj::load(&mut store).unwrap();
    assert_eq!(obj.name, loaded_obj.name);
}

#[test]
fn test_path_resolution_repeats() {
    let mut store = MemStore::new();
    let first = TestObj::get_or_create_storage_path(&mut store).unwrap();
    let second = TestObj::get_or_create_storage_path(&mut store).unwrap();
    assert_eq!(first, second);
    assert_eq!(first, "/home/user/.locus");
    assert!(store.has_dir("/home/user/.locus"));
}

#[test]
fn test_path_builders() {
    assert_eq!(dir_path("/home/user", ".locus"), "/home/user/.locus");
    assert_eq!(
        file_path("/home/user", ".locus", "test.json"),
        "/home/user/.locus/test.json"
    );
}

#[test]
fn test_save_load_values() {
    let mut store = MemStore::new();
    let v = Value::Obj(vec![
        ("name".to_string(), Value::Str("Test".to_string())),
        ("flag".to_string(), Value::Bool(true)),
    ]);
    save_value(&mut store, "/base", "dir", "file.json", &v).unwrap();
    let loaded = load_value(&mut store, "/base", "dir", "file.json").unwrap();
    assert_eq!(loaded, v);
}

#[test]
fn test_load_missing_file_fails() {
    let mut store = MemStore::new();
    let r = load_value(&mut store, "/base", "dir", "file.json");
    assert!(matches!(r, Err(LoadError::Read { .. })));
    match r {
        Err(LoadError::Read { path }) => assert_eq!(path, "/base/dir/file.json"),
        _ => unreachable!(),
    }

    let mut store2 = MemStore::new();
    assert!(matches!(
        TestObj::load(&mut store2),
        Err(LoadError::Read { .. })
    ));
}

#[test]
fn test_load_malformed_file_fails() {
    let mut store = MemStore::new();
    store.write_file("/base/dir/file.json", "not json at all".to_string());
    let r = load_value(&mut store, "/base", "dir", "file.json");
    assert!(matches!(r, Err(LoadError::Parse)));
}

#[test]
fn test_save_overwrites() {
    let mut store = MemStore::new();
    let v1 = Value::Str("one".to_string());
    let v2 = Value::Str("two".to_string());
    save_value(&mut store, "/base", "dir", "file.json", &v1).unwrap();
    save_value(&mut store, "/base", "dir", "file.json", &v2).unwrap();
    let loaded = load_value(&mut store, "/base", "dir", "file.json").unwrap();
    assert_eq!(loaded, v2);
}

#[test]
fn test_resolve_storage_file() {
    let resolved = resolve_storage_file(
        Some("/home/user".to_string()),
        ".locus",
        "test.json",
    );
    assert_eq!(resolved.unwrap(), "/home/user/.locus/test.json");
    assert!(resolve_storage_file(None, ".locus", "test.json").is_err());
}
