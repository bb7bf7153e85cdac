//! Tests of maps from names to values.
use styx::schema::names::NameMap;

#[test]
fn names_keep_their_order() {
    let mut map: NameMap<u32> = NameMap::new();
    assert_eq!(map.len(), 0);
    map.insert("b", 1);
    map.insert("a", 2);
    map.insert("b", 3);
    assert_eq!(map.len(), 2);
    assert_eq!(map.name_at(0), "b");
    assert_eq!(map.name_at(1), "a");
    assert_eq!(*map.value_at(0), 3);
    assert_eq!(*map.value_at(1), 2);
}

#[test]
fn names_give_back_what_was_inserted() {
    let mut map: NameMap<u32> = NameMap::new();
    map.insert("a", 1);
    map.insert("ä", 2);
    assert_eq!(map.get("a"), Some(&1));
    assert_eq!(map.get("ä"), Some(&2));
    assert_eq!(map.get("b"), None);
    assert!(map.contains_key("a"));
    assert!(!map.contains_key(""));
}

#[test]
fn a_clone_has_the_same_names_and_values() {
    let mut map: NameMap<u32> = NameMap::new();
    map.insert("b", 1);
    map.insert("a", 2);
    let copy = map.clone();
    map.insert("b", 3);
    assert_eq!(copy.len(), 2);
    assert_eq!((copy.name_at(0), copy.name_at(1)), ("b", "a"));
    assert_eq!((copy.get("b"), copy.get("a")), (Some(&1), Some(&2)));
}
