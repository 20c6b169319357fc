use settingsfile::{Dict, Error, Format, ShadowSettings, Type};

#[derive(Clone)]
struct Configuration {}

impl Format for Configuration {
    fn filename(&self) -> String {
        "".to_string()
    }
    fn folder(&self) -> String {
        "".to_string()
    }
    fn to_string(&self, _: &Dict) -> Result<String, Error> {
        Ok("unimplemented".to_string())
    }
    fn from_str(&self, _: &str) -> Result<Dict, Error> {
        Ok(Dict::new())
    }
}

#[test]
fn shadowsettings_set_and_get_value() {
    let mut test_obj = ShadowSettings::new(Configuration {});
    assert_eq!(test_obj.set_value_global("a.b.c.d", "mortan").is_ok(), true);
    assert_eq!(test_obj.set_value_global("a.b.c.e", "bobby lee").is_ok(), true);
    assert_eq!(test_obj.set_value_global("a.b.f", &4453).is_ok(), true);
    assert_eq!(test_obj.set_value_global("a.is_enabled", &true).is_ok(), true);
    assert_eq!(test_obj.set_value_local("a.b.c.d", &false).is_ok(), true);
    assert_eq!(test_obj.get_value_global("a.b.c.d"), Some(Type::Text("mortan".to_string())));
    assert_eq!(test_obj.get_value_global("a.b.c.e"), Some(Type::Text("bobby lee".to_string())));
    assert_eq!(test_obj.get_value_global("a.b.f"), Some(Type::Int(4453)));
    assert_eq!(test_obj.get_value_global("a.is_enabled"), Some(Type::Switch(true)));
    assert_eq!(test_obj.get_value_local("a.b.c.d"), Some(Type::Switch(false)));
    assert_eq!(test_obj.get_value("a.b.c.d"), Some(Type::Switch(false)));
    assert_eq!(test_obj.get_value("a.b.c.e"), Some(Type::Text("bobby lee".to_string())));
    assert_eq!(test_obj.get_value("a.b.f"), Some(Type::Int(4453)));
    assert_eq!(test_obj.get_value("a.is_enabled"), Some(Type::Switch(true)));
}

#[test]
fn shadowsettings_get_value_or() {
    let mut test_obj = ShadowSettings::new(Configuration {});

    assert_eq!(test_obj.set_value_global("a.b.c.d", "mortan").is_ok(), true);
    assert_eq!(test_obj.set_value_global("a.b.c.e", "bobby lee").is_ok(), true);

    assert_eq!(
        test_obj.get_value_or("a.b.c.d", "not going to be used"),
        Type::Text("mortan".to_string())
    );
    assert_eq!(
        test_obj.get_value_or("a.b.c.f", "will be used"),
        Type::Text("will be used".to_string())
    );
}

#[test]
fn get_value_shadow_complex() {
    let mut test_obj = ShadowSettings::new(Configuration {});
    assert_eq!(test_obj.set_value_global("a.b.c.d", "mortan").is_ok(), true);
    assert_eq!(test_obj.set_value_global("a.b.c.e", "bobby lee").is_ok(), true);
    assert_eq!(test_obj.set_value_local("a.b.c.e", "lee bo").is_ok(), true);

    let other_setting = test_obj.get_value("a.b.c").unwrap().to_complex().unwrap();
    assert_eq!(other_setting.get("d"), Some(&Type::Text("mortan".to_string())));
    assert_eq!(other_setting.get("e"), Some(&Type::Text("lee bo".to_string())));
}

#[test]
fn shadow_composite_fills_one_level() {
    let mut shadow = ShadowSettings::new(Configuration {});
    assert!(shadow.set_value_global("a.x", &1).is_ok());
    assert!(shadow.set_value_global("a.y", &2).is_ok());
    assert!(shadow.set_value_local("a.x", &9).is_ok());

    let mut expected = Dict::new();
    expected.insert("x".to_string(), Type::Int(9));
    expected.insert("y".to_string(), Type::Int(2));
    assert_eq!(shadow.get_value("a"), Some(Type::Complex(expected)));

    // a nested Complex present in both tiers is taken whole from the local one
    assert!(shadow.set_value_global("a.z.p", &1).is_ok());
    assert!(shadow.set_value_global("a.z.q", &2).is_ok());
    assert!(shadow.set_value_local("a.z.p", &5).is_ok());
    let a = shadow.get_value("a").unwrap().to_complex().unwrap();
    let z = a.get("z").unwrap().to_complex().unwrap();
    assert_eq!(z.get("p"), Some(&Type::Int(5)));
    assert_eq!(z.get("q"), None);
    assert_eq!(a.get("y"), Some(&Type::Int(2)));
}

#[test]
fn shadow_local_is_created_on_first_write_and_global_delete_keeps_it() {
    let mut shadow = ShadowSettings::new(Configuration {});
    assert!(!shadow.has_local());
    assert_eq!(shadow.get_value_local("k"), None);
    assert_eq!(shadow.delete_key_local("k"), None);
    assert!(shadow.save_local_to().is_none());
    assert!(shadow.set_value_global("k", "global").is_ok());
    assert!(shadow.set_value_local("k", "local").is_ok());
    assert!(shadow.has_local());
    assert_eq!(shadow.delete_key_global("k"), Some(Type::Text("global".to_string())));
    assert_eq!(shadow.get_value("k"), Some(Type::Text("local".to_string())));
    assert_eq!(shadow.delete_key_local("k"), Some(Type::Text("local".to_string())));
    assert_eq!(shadow.get_value("k"), None);
}

#[test]
fn shadow_load_empty_buffer_is_blank() {
    let mut shadow = ShadowSettings::new(Configuration {});
    assert!(matches!(shadow.load_global_from(""), Err(Error::Blank)));
    assert!(matches!(shadow.load_local_from(""), Err(Error::Blank)));
    assert!(!shadow.has_local());
    assert!(shadow.load_local_from("anything").is_ok());
    assert!(shadow.has_local());
    assert!(matches!(ShadowSettings::create_from("", Configuration {}), Err(Error::Blank)));
}
