use r2d2::key::Key;
use r2d2::lsm::LSM;
use r2d2::value::Value;

#[test]
fn check_lsm_works() {
    let mut lsm = LSM::new(None).unwrap();

    let foo = Key::from_str("foo");
    let bar = Value::from_str("bar");

    assert!(lsm.get(&foo).unwrap().is_none());
    assert!(lsm.set(foo.clone(), bar.clone()).is_ok());
    assert_eq!(Some(bar.clone()), lsm.get(&foo).unwrap());
}

#[test]
fn check_recovery_from_commit_log() {
    let foo = Key::from_str("foo");
    let bar = Key::from_str("bar");
    let baz = Value::from_str("baz");

    let log = {
        let mut lsm = LSM::new(None).unwrap();

        assert!(lsm.set(foo.clone(), baz.clone()).is_ok());
        assert!(lsm.set(bar.clone(), baz.clone()).is_ok());
        lsm.wal_contents()
    };

    // now open a new LSM that recreates the state from the log
    let lsm = LSM::new(Some(log)).unwrap();

    // keys should be there now
    assert_eq!(Some(baz.clone()), lsm.get(&foo).unwrap());
    assert_eq!(Some(baz.clone()), lsm.get(&bar).unwrap());
}

#[test]
fn lsm_recovery_replays_updates_and_deletes() {
    let log = {
        let mut lsm = LSM::new(None).unwrap();
        lsm.set(Key::from_str("a"), Value::from_str("1")).unwrap();
        lsm.set(Key::from_str("b"), Value::from_str("2")).unwrap();
        lsm.set(Key::from_str("a"), Value::from_str("3")).unwrap();
        lsm.del(&Key::from_str("b")).unwrap();
        lsm.wal_contents()
    };

    let lsm = LSM::new(Some(log)).unwrap();
    assert_eq!(Some(Value::from_str("3")), lsm.get(&Key::from_str("a")).unwrap());
    assert_eq!(None, lsm.get(&Key::from_str("b")).unwrap());
}

#[test]
fn lsm_refuses_corrupt_log() {
    let mut log = {
        let mut lsm = LSM::new(None).unwrap();
        lsm.set(Key::from_str("a"), Value::from_str("1")).unwrap();
        lsm.wal_contents()
    };
    // A torn tail: the last record claims more bytes than the file holds.
    log.pop();
    assert!(LSM::new(Some(log)).is_err());
}

#[test]
fn lsm_iterates_in_key_order() {
    let mut lsm = LSM::new(None).unwrap();
    lsm.set(Key::from_str("cherry"), Value::from_str("3")).unwrap();
    lsm.set(Key::from_str("apple"), Value::from_str("1")).unwrap();
    lsm.set(Key::from_str("banana"), Value::from_str("2")).unwrap();

    let mut it = lsm.iter();
    let mut keys: Vec<Vec<u8>> = Vec::new();
    while let Some((k, _v)) = it.next() {
        keys.push(k.into_vec());
    }
    assert_eq!(
        keys,
        vec![
            "apple".as_bytes().to_vec(),
            "banana".as_bytes().to_vec(),
            "cherry".as_bytes().to_vec()
        ]
    );
}
