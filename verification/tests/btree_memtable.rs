use r2d2::key::Key;
use r2d2::memtable::{BTreeMemtable, Entry};
use r2d2::value::Value;

#[test]
fn btree_memtable_insert_and_get() {
    let mut t = BTreeMemtable::new();
    assert!(t.get(&Key::from_str("k")).is_none());
    assert!(t.insert(Key::from_str("k"), Value::from_str("v")).is_none());
    assert_eq!(t.get(&Key::from_str("k")), Some(&Value::from_str("v")));
}

#[test]
fn btree_memtable_insert_returns_prior_entry() {
    let mut t = BTreeMemtable::new();
    t.insert(Key::from_str("k"), Value::from_str("v1"));
    let prior = t.insert(Key::from_str("k"), Value::from_str("v2"));
    assert_eq!(prior, Some(Entry::Val(Value::from_str("v1"))));
    assert_eq!(t.get(&Key::from_str("k")), Some(&Value::from_str("v2")));
}

#[test]
fn btree_memtable_remove_returns_prior_entry() {
    let mut t = BTreeMemtable::new();
    t.insert(Key::from_str("k"), Value::from_str("v"));
    assert_eq!(t.remove(&Key::from_str("k")), Some(Entry::Val(Value::from_str("v"))));
    assert_eq!(t.remove(&Key::from_str("k")), None);
    assert!(t.get(&Key::from_str("k")).is_none());
}

#[test]
fn btree_memtable_clear_empties_the_table() {
    let mut t = BTreeMemtable::new();
    t.insert(Key::from_str("a"), Value::from_str("1"));
    t.insert(Key::from_str("b"), Value::from_str("2"));
    t.clear();
    assert!(t.get(&Key::from_str("a")).is_none());
    assert!(t.get(&Key::from_str("b")).is_none());
}
