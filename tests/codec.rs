use settingsfile::{Dict, Error, Format, Settings, Type};

// A format backed by TOML, converting between `toml::Value` and `Type` by hand.
#[derive(Clone)]
struct Configuration {}

fn to_toml(t: &Type) -> toml::Value {
    match t {
        Type::Text(s) => toml::Value::String(s.clone()),
        Type::Switch(b) => toml::Value::Boolean(*b),
        Type::Int(i) => toml::Value::Integer(*i as i64),
        Type::Float(bits) => toml::Value::Float(f32::from_bits(*bits) as f64),
        Type::Complex(d) => toml::Value::Table(to_table(d)),
        Type::Array(a) => toml::Value::Array(a.iter().map(to_toml).collect()),
        Type::Blank => toml::Value::Table(toml::Table::new()),
    }
}

fn to_table(d: &Dict) -> toml::Table {
    let mut table = toml::Table::new();
    for i in 0..d.len() {
        let (k, v) = d.entry(i);
        table.insert(k.clone(), to_toml(v));
    }
    table
}

fn from_toml(v: &toml::Value) -> Type {
    match v {
        toml::Value::String(s) => Type::Text(s.clone()),
        toml::Value::Boolean(b) => Type::Switch(*b),
        toml::Value::Integer(i) => Type::Int(*i as i32),
        toml::Value::Float(f) => Type::Float((*f as f32).to_bits()),
        toml::Value::Table(t) => Type::Complex(from_table(t)),
        toml::Value::Array(a) => Type::Array(a.iter().map(from_toml).collect()),
        toml::Value::Datetime(d) => Type::Text(d.to_string()),
    }
}

fn from_table(t: &toml::Table) -> Dict {
    let mut d = Dict::new();
    for (k, v) in t.iter() {
        d.insert(k.clone(), from_toml(v));
    }
    d
}

impl Format for Configuration {
    fn filename(&self) -> String {
        "settings".to_string()
    }
    fn folder(&self) -> String {
        "program_app_folder".to_string()
    }
    fn to_string(&self, parts: &Dict) -> Result<String, Error> {
        Ok(to_table(parts).to_string())
    }
    fn from_str(&self, buffer: &str) -> Result<Dict, Error> {
        match buffer.parse::<toml::Table>() {
            Ok(table) => Ok(from_table(&table)),
            Err(error) => Err(Error::wrap(&error.to_string())),
        }
    }
}

#[test]
fn testing_with_ron_decoding_and_reencoding() {
    let mut test = Settings::new(Configuration {});
    assert!(test.set_value("user.name", "snsvrno").is_ok());

    let saved = test.save_to();
    assert!(saved.is_ok());
    let buffer = saved.unwrap();

    let loaded_setting = Settings::create_from(&buffer, Configuration {}).unwrap();
    assert_eq!(loaded_setting.get_value("user.name"), test.get_value("user.name"));
}

#[test]
fn testing_with_toml_decoding_and_reencoding() {
    let test = Configuration {};
    let test_string = r#"database = "192.168.1.1"
  other = 12332
  nextone = true"#;

    let decoded_hash = test.from_str(&test_string).unwrap();
    assert_eq!(decoded_hash.get("database").unwrap().to_text().unwrap(), "192.168.1.1");
    assert_eq!(decoded_hash.get("other").unwrap().to_int().unwrap(), 12332);
    assert_eq!(decoded_hash.get("nextone").unwrap().to_switch().unwrap(), true);

    let encoded_hash = test.to_string(&decoded_hash).unwrap();
    let decoded_hash2 = test.from_str(&encoded_hash).unwrap();
    assert_eq!(decoded_hash, decoded_hash2);
}

#[test]
fn codec_round_trip_of_a_set_tree() {
    let mut tree = Settings::new(Configuration {});
    assert!(tree.set_value("user.name", "n").is_ok());
    assert!(tree.set_value("user.size", &12).is_ok());
    assert!(tree.set_value("view.scale", &Type::Float(1.5f32.to_bits())).is_ok());
    assert!(tree.set_value("view.list", &vec![Type::Int(1), Type::Int(2)]).is_ok());
    assert!(tree.set_value("flag", &true).is_ok());

    let first = tree.save_to().unwrap();
    let decoded = Settings::create_from(&first, Configuration {}).unwrap();
    assert_eq!(decoded.parts(), tree.parts());
    let second = decoded.save_to().unwrap();
    let again = Settings::create_from(&second, Configuration {}).unwrap();
    assert_eq!(again.parts(), tree.parts());
}

#[test]
fn loading_errors() {
    assert!(matches!(Settings::create_from("", Configuration {}), Err(Error::Blank)));
    assert!(matches!(Settings::create_from("= =", Configuration {}), Err(Error::Error(_))));
    let empty = Settings::create_from_or_empty("", Configuration {});
    assert!(empty.keys().is_empty());
    let mut store = Settings::new(Configuration {});
    assert!(store.set_value("keep", &1).is_ok());
    assert!(matches!(store.load_from(""), Err(Error::Blank)));
    assert!(store.load_from("= =").is_err());
    assert_eq!(store.get_value("keep"), Some(Type::Int(1)));
    assert!(store.load_from("other = 2").is_ok());
    assert_eq!(store.get_value("keep"), None);
    assert_eq!(store.get_value("other"), Some(Type::Int(2)));
}
