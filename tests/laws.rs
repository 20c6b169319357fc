use settingsfile::{Dict, Error, Format, Settings, Type};

#[derive(Clone)]
struct Configuration {}

impl Format for Configuration {
    fn filename(&self) -> String {
        "".to_string()
    }
    fn folder(&self) -> String {
        "".to_string()
    }
    fn to_string(&self, _: &Dict) -> Result<String, Error> {
        Err(Error::unimplemented())
    }
    fn from_str(&self, _: &str) -> Result<Dict, Error> {
        Err(Error::unimplemented())
    }
}

fn text(s: &str) -> Type {
    Type::Text(s.to_string())
}

#[test]
fn set_then_get_round_trip() {
    let mut s = Settings::new(Configuration {});
    assert!(s.set_value("a", &1).is_ok());
    assert_eq!(s.get_value("a"), Some(Type::Int(1)));
    // writing below a leaf replaces the leaf with a new level
    assert!(s.set_value("a.b", &2).is_ok());
    assert_eq!(s.get_value("a.b"), Some(Type::Int(2)));
    assert!(s.set_value("a.c.d", "deep").is_ok());
    assert_eq!(s.get_value("a.c.d"), Some(text("deep")));
    assert_eq!(s.get_value("a.b"), Some(Type::Int(2)));
}

#[test]
fn paths_with_empty_segments_are_refused() {
    let mut s = Settings::new(Configuration {});
    assert!(matches!(s.set_value("", &1), Err(Error::InvalidPath(p)) if p.is_empty()));
    assert!(matches!(s.set_value("a..b", &1), Err(Error::InvalidPath(p)) if p == "a..b"));
    assert!(matches!(s.set_value("a.", &1), Err(Error::InvalidPath(_))));
    assert!(s.keys().is_empty());
    assert_eq!(s.get_value(""), None);
}

#[test]
fn delete_returns_prior_value_and_keeps_siblings() {
    let mut s = Settings::new(Configuration {});
    assert!(s.set_value("a.b.c", "x").is_ok());
    assert!(s.set_value("a.d", "y").is_ok());
    let removed = s.delete_key("a.b");
    let mut expected = Dict::new();
    expected.insert("c".to_string(), text("x"));
    assert_eq!(removed, Some(Type::Complex(expected)));
    assert_eq!(s.get_value("a.d"), Some(text("y")));
    assert_eq!(s.get_value("a.b.c"), None);
    assert_eq!(s.get_value("a.b"), None);
    // a path that does not resolve deletes nothing
    assert_eq!(s.delete_key("a.d.e"), None);
    assert_eq!(s.delete_key("zz.y"), None);
    assert_eq!(s.get_value("a.d"), Some(text("y")));
}

#[test]
fn deep_delete_keeps_the_levels_above() {
    let mut s = Settings::new(Configuration {});
    assert!(s.set_value("a.b.c", &1).is_ok());
    assert!(s.set_value("a.b.d", &2).is_ok());
    assert_eq!(s.delete_key("a.b.c"), Some(Type::Int(1)));
    assert_eq!(s.get_value("a.b.d"), Some(Type::Int(2)));
}

#[test]
fn merge_is_right_biased() {
    let mut t1 = Settings::new(Configuration {});
    assert!(t1.set_value("k", &1).is_ok());
    let mut t2 = Settings::new(Configuration {});
    assert!(t2.set_value("k", &2).is_ok());
    assert_eq!(t1.clone().merge(t2.clone()).get_value("k"), Some(Type::Int(2)));
    assert_eq!(t2.merge(t1).get_value("k"), Some(Type::Int(1)));
}

#[test]
fn keys_of_a_small_tree() {
    let mut s = Settings::new(Configuration {});
    assert!(s.set_value("software.version", &23).is_ok());
    assert!(s.set_value("software.update_available", &false).is_ok());
    let mut keys = s.keys();
    keys.sort();
    assert_eq!(keys, vec!["software.update_available".to_string(), "software.version".to_string()]);
}

#[test]
fn flatten_gives_a_flat_tree() {
    let mut s = Settings::new(Configuration {});
    assert!(s.set_value("a.b.c", &1).is_ok());
    assert!(s.set_value("d", "x").is_ok());
    let flat = s.get_flat_hash();
    assert!(flat.is_flat());
    assert_eq!(flat.get_value_absolute("a.b.c"), Some(Type::Int(1)));
    assert_eq!(flat.get_value_absolute("d"), Some(text("x")));
    // an empty tree, or one whose only Complex is empty, is not flat
    assert!(!Settings::new(Configuration {}).is_flat());
    let mut parts = Dict::new();
    parts.insert("e".to_string(), Type::Complex(Dict::new()));
    let only_empty = Settings::from_parts(parts, Configuration {});
    assert!(!only_empty.get_flat_hash().is_flat());
}

#[test]
fn flatten_then_from_flat_rebuilds_the_tree() {
    let mut s = Settings::new(Configuration {});
    assert!(s.set_value("user.name", "n").is_ok());
    assert!(s.set_value("user.mail.home", "h").is_ok());
    assert!(s.set_value("user.mail.work", "w").is_ok());
    assert!(s.set_value("size", &3).is_ok());
    assert!(s.set_value("list", &vec![Type::Int(1)]).is_ok());
    let rebuilt = Settings::from_flat(&s.get_flat_hash());
    assert_eq!(rebuilt.parts(), s.parts());
}
