use lightwire::registry::Registry;

#[test]
fn insert_then_get() {
    let mut r: Registry<u8> = Registry::new();
    assert_eq!(r.len(), 0);
    r.insert("a".to_string(), 1);
    r.insert("b".to_string(), 2);
    assert_eq!(r.len(), 2);
    assert_eq!(r.get("a"), Some(&1));
    assert_eq!(r.get("b"), Some(&2));
    assert_eq!(r.get("c"), None);
}

#[test]
fn insert_replaces() {
    let mut r: Registry<u8> = Registry::new();
    r.insert("a".to_string(), 1);
    r.insert("a".to_string(), 5);
    assert_eq!(r.len(), 1);
    assert_eq!(r.get("a"), Some(&5));
}

#[test]
fn remove_takes_value_out() {
    let mut r: Registry<u8> = Registry::new();
    r.insert("a".to_string(), 1);
    r.insert("b".to_string(), 2);
    assert_eq!(r.remove("a"), Some(1));
    assert_eq!(r.remove("a"), None);
    assert_eq!(r.len(), 1);
    assert_eq!(r.get("b"), Some(&2));
}
