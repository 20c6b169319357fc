use settingsfile::subsetting::Subsetting;
use settingsfile::{Dict, SupportedType, Type};

#[test]
fn flatten() {
    let mut hash = Dict::new();
    let mut hash2 = Dict::new();
    hash2.insert("a".to_string(), Type::Switch(true));
    hash2.insert("float".to_string(), Type::Float(10.23f32.to_bits()));
    hash2.insert("int".to_string(), Type::Int(10));
    hash2.insert(
        "array".to_string(),
        Type::Array(vec![Type::Int(1), Type::Switch(false), Type::Text("testing here".to_string())]),
    );

    hash.insert("b".to_string(), Type::Complex(hash2));

    let complex = Type::Complex(hash).flatten(None);

    if let Type::Complex(ref stuff) = complex {
        for i in 0..stuff.len() {
            let (k, v) = stuff.entry(i);
            println!("{} : {:?}", k, v);
        }
    }

    assert!(complex.to_complex().unwrap().get("b.a").unwrap().to_switch().unwrap());
    assert!(complex.to_complex().unwrap().get("a") == None);
    assert!(complex.to_complex().unwrap().get("b.int").unwrap().to_int().unwrap() == 10);
    assert!(
        f32::from_bits(complex.to_complex().unwrap().get("b.float").unwrap().to_float().unwrap())
            == 10.23
    );
}

#[test]
fn flatten_with_parent_and_leaf() {
    let mut inner = Dict::new();
    inner.insert("x".to_string(), Type::Int(1));
    let mut outer = Dict::new();
    outer.insert("i".to_string(), Type::Complex(inner));
    outer.insert("t".to_string(), Type::Text("v".to_string()));
    let flat = Type::Complex(outer).flatten(Some("root".to_string())).to_complex().unwrap();
    assert_eq!(flat.len(), 2);
    assert_eq!(flat.get("root.i.x"), Some(&Type::Int(1)));
    assert_eq!(flat.get("root.t"), Some(&Type::Text("v".to_string())));
    // a leaf is returned as it is
    assert_eq!(Type::Int(4).flatten(Some("p".to_string())), Type::Int(4));
    // an empty Complex flattens to nothing
    let mut with_empty = Dict::new();
    with_empty.insert("e".to_string(), Type::Complex(Dict::new()));
    assert!(Type::Complex(with_empty).flatten(None).to_complex().unwrap().is_empty());
}

#[test]
fn accessors_match_variants() {
    let t = Type::Text("s".to_string());
    assert!(t.is_text() && !t.is_int() && !t.is_switch() && !t.is_float());
    assert_eq!(t.to_text(), Some("s".to_string()));
    assert_eq!(t.to_int(), None);
    assert!(Type::Blank.is_none());
    assert!(Type::Array(vec![]).is_array());
    assert!(Type::Complex(Dict::new()).is_complex());
    assert_eq!(Type::Switch(true).to_switch(), Some(true));
    assert_eq!(Type::Int(-3).to_int(), Some(-3));
    assert_eq!(Type::Float(7).to_float(), Some(7));
    assert_eq!(Type::Int(1).to_complex(), None);
    assert_eq!(Type::Int(1).to_array(), None);
    assert_eq!(Type::Int(5).move_it(), Type::Int(5));
}

#[test]
fn wrap_native_values() {
    assert_eq!(().wrap(), Type::Blank);
    assert_eq!("abc".wrap(), Type::Text("abc".to_string()));
    assert_eq!("abc".to_string().wrap(), Type::Text("abc".to_string()));
    assert_eq!(true.wrap(), Type::Switch(true));
    assert_eq!(12i32.wrap(), Type::Int(12));
    assert_eq!(vec![Type::Int(1)].wrap(), Type::Array(vec![Type::Int(1)]));
    let mut d = Dict::new();
    d.insert("k".to_string(), Type::Int(1));
    assert_eq!(d.wrap(), Type::Complex(d.clone()));
}

#[test]
fn dict_insert_replace_remove() {
    let mut d = Dict::new();
    assert!(d.is_empty());
    assert_eq!(d.insert("a".to_string(), Type::Int(1)), None);
    assert_eq!(d.insert("b".to_string(), Type::Int(2)), None);
    assert_eq!(d.insert("a".to_string(), Type::Int(3)), Some(Type::Int(1)));
    assert_eq!(d.len(), 2);
    assert_eq!(d.entry(0).0, "a");
    assert_eq!(d.get("a"), Some(&Type::Int(3)));
    assert!(d.contains_key(&"b".to_string()));
    assert_eq!(d.remove("a"), Some(Type::Int(3)));
    assert_eq!(d.remove("a"), None);
    assert_eq!(d.len(), 1);
    assert_eq!(d.get("a"), None);
}

#[test]
fn equality_ignores_entry_order() {
    let mut a = Dict::new();
    a.insert("x".to_string(), Type::Int(1));
    a.insert("y".to_string(), Type::Array(vec![Type::Text("t".to_string())]));
    let mut b = Dict::new();
    b.insert("y".to_string(), Type::Array(vec![Type::Text("t".to_string())]));
    b.insert("x".to_string(), Type::Int(1));
    assert_eq!(Type::Complex(a.clone()), Type::Complex(b.clone()));
    b.insert("x".to_string(), Type::Int(2));
    assert_ne!(Type::Complex(a.clone()), Type::Complex(b.clone()));
    b.insert("x".to_string(), Type::Int(1));
    b.insert("z".to_string(), Type::Blank);
    assert_ne!(a, b);
    assert_ne!(Type::Int(1), Type::Switch(true));
    assert_ne!(Type::Array(vec![Type::Int(1)]), Type::Array(vec![Type::Int(1), Type::Int(1)]));
}

#[test]
fn subsetting_accessors() {
    let single = Subsetting::Single("one".to_string());
    assert!(single.is_string());
    assert!(!single.is_hash());
    assert_eq!(single.to_string(), Some("one".to_string()));
    assert!(single.to_hash().is_none());

    let complex = Subsetting::Complex(vec![("k".to_string(), Subsetting::Single("v".to_string()))]);
    assert!(complex.is_hash());
    assert!(!complex.is_string());
    assert_eq!(complex.to_string(), None);
    let hash = complex.to_hash().unwrap();
    assert_eq!(hash.len(), 1);
    assert_eq!(hash[0].0, "k");
    assert_eq!(hash[0].1.to_string(), Some("v".to_string()));
}
