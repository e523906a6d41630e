use r2d2::engine::Engine;
use r2d2::key::Key;
use r2d2::value::Value;

#[test]
fn basic_operation_works() {
    let mut ngin = Engine::new(None).unwrap();

    assert_eq!(ngin.get(&Key::from_str("foo")).unwrap(), None);

    assert_eq!(ngin.set(Key::from_str("foo"), Value::from_str("bar")).unwrap(), None);

    assert_eq!(
        ngin.get(&Key::from_str("foo")).unwrap(),
        Some(Value::from_str("bar"))
    );

    ngin.set(Key::from_str("foo"), Value::from_str("updated")).unwrap();

    assert_eq!(
        ngin.get(&Key::from_str("foo")).unwrap(),
        Some(Value::from_str("updated"))
    );

    assert_eq!(
        ngin.del(&Key::from_str("foo")).unwrap(),
        Some(Value::from_str("updated"))
    );

    assert_eq!(ngin.get(&Key::from_str("foo")).unwrap(), None);
}

#[test]
fn engine_get_on_fresh_store_is_none() {
    let ngin = Engine::new(None).unwrap();
    assert_eq!(ngin.get(&Key::from_str("foo")).unwrap(), None);
}

#[test]
fn engine_delete_of_absent_key_is_not_an_error() {
    let mut ngin = Engine::new(None).unwrap();
    assert_eq!(ngin.del(&Key::from_str("foo")).unwrap(), None);
}

#[test]
fn engine_survives_restart() {
    let log = {
        let mut ngin = Engine::new(None).unwrap();
        ngin.set(Key::from_str("foo"), Value::from_str("bar")).unwrap();
        ngin.wal_contents()
    };

    let ngin = Engine::new(Some(log)).unwrap();
    assert_eq!(
        ngin.get(&Key::from_str("foo")).unwrap(),
        Some(Value::from_str("bar"))
    );
}

#[test]
fn engine_restart_twice_preserves_history() {
    let log1 = {
        let mut ngin = Engine::new(None).unwrap();
        ngin.set(Key::from_str("k"), Value::from_str("one")).unwrap();
        ngin.wal_contents()
    };
    let log2 = {
        let mut ngin = Engine::new(Some(log1)).unwrap();
        ngin.set(Key::from_str("k"), Value::from_str("two")).unwrap();
        ngin.wal_contents()
    };
    let ngin = Engine::new(Some(log2)).unwrap();
    assert_eq!(
        ngin.get(&Key::from_str("k")).unwrap(),
        Some(Value::from_str("two"))
    );
}

#[test]
fn engine_iterates_pairs_in_key_order() {
    let mut ngin = Engine::new(None).unwrap();
    ngin.set(Key::from_str("b"), Value::from_str("2")).unwrap();
    ngin.set(Key::from_str("a"), Value::from_str("1")).unwrap();

    let mut it = ngin.iter();
    let first = it.next().unwrap();
    assert_eq!(first.0, Key::from_str("a"));
    assert_eq!(first.1, Value::from_str("1"));
    let second = it.next().unwrap();
    assert_eq!(second.0, Key::from_str("b"));
    assert_eq!(second.1, Value::from_str("2"));
    assert!(it.next().is_none());
}
