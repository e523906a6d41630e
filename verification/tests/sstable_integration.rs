use r2d2::key::Key;
use r2d2::sstable::{Error, SSTable, Slab, Writer};
use r2d2::value::Value;

fn bytes(s: &str) -> Vec<u8> {
    s.as_bytes().to_vec()
}

#[test]
fn check_write_sstable() {
    let mut writer = Writer::create("sstable");

    assert!(writer
        .append(Key::from_str("bar").into_vec(), Value::from_str("baz").into_vec())
        .is_ok());
    assert!(writer
        .append(Key::from_str("baz").into_vec(), Value::from_str("frooble").into_vec())
        .is_ok());
    assert!(writer
        .append(Key::from_str("foo").into_vec(), Value::from_str("bar").into_vec())
        .is_ok());

    let slab = writer.seal().unwrap();
    assert_eq!(slab.level(), 0);
    let sstable = SSTable::open(writer.bytes()).unwrap();

    assert_eq!(
        sstable.get(&Key::from_str("foo").into_vec()).unwrap(),
        Some(Value::from_str("bar").into_vec()),
    );
    assert_eq!(
        sstable.get(&Key::from_str("bar").into_vec()).unwrap(),
        Some(Value::from_str("baz").into_vec())
    );
    assert_eq!(sstable.get(&Key::from_str("foobar").into_vec()).unwrap(), None);
}

#[test]
fn slab_covers_when_key_is_covered() {
    let slab = Slab::new(0, "/tmp", "alpha".as_bytes().to_vec(), "gamma".as_bytes().to_vec());

    assert!(slab.covers(&"alpha".as_bytes().to_vec()));
    assert!(slab.covers(&"beta".as_bytes().to_vec()));
    assert!(!slab.covers(&"iota".as_bytes().to_vec()));
    assert!(slab.covers(&"gamma".as_bytes().to_vec()));
    assert!(!slab.covers(&"gammb".as_bytes().to_vec()));
}

#[test]
fn slab_does_not_cover_below_min_key() {
    let slab = Slab::new(0, "/tmp", bytes("alpha"), bytes("gamma"));
    assert!(!slab.covers(&bytes("aardvark")));
}

#[test]
fn sstable_round_trips_every_pair() {
    let mut writer = Writer::create("table");
    writer.append(bytes("k1"), bytes("v1")).unwrap();
    writer.append(bytes("k2"), bytes("")).unwrap();
    writer.append(bytes("k3"), bytes("a longer value with spaces")).unwrap();
    let slab = writer.seal().unwrap();

    let table = SSTable::open(writer.bytes()).unwrap();
    assert_eq!(table.get(&bytes("k1")).unwrap(), Some(bytes("v1")));
    assert_eq!(table.get(&bytes("k2")).unwrap(), Some(bytes("")));
    assert_eq!(
        table.get(&bytes("k3")).unwrap(),
        Some(bytes("a longer value with spaces"))
    );
    assert_eq!(table.get(&bytes("k0")).unwrap(), None);
    assert_eq!(table.get(&bytes("k4")).unwrap(), None);
    assert!(slab.covers(&bytes("k2")));
    assert_eq!(slab.path(), "table");
}

#[test]
fn sstable_is_immutable_once_sealed() {
    let mut writer = Writer::create("table");
    writer.append(bytes("a"), bytes("1")).unwrap();
    writer.seal().unwrap();

    assert_eq!(writer.append(bytes("b"), bytes("2")), Err(Error::SealedTableError));
    assert_eq!(writer.seal().err(), Some(Error::SealedTableError));
}

#[test]
fn sealing_an_empty_table_is_an_error() {
    let mut writer = Writer::create("table");
    assert_eq!(writer.seal().err(), Some(Error::EmptyTable));
}

#[test]
fn opening_garbage_is_an_error() {
    assert!(SSTable::open(Vec::new()).is_err());
    assert!(SSTable::open(vec![1, 2, 3]).is_err());
    assert!(SSTable::open(vec![0; 64]).is_err());
}

#[test]
fn opening_a_table_with_a_damaged_anchor_is_an_error() {
    let mut writer = Writer::create("table");
    writer.append(bytes("a"), bytes("1")).unwrap();
    writer.seal().unwrap();
    let mut file = writer.bytes();
    let n = file.len();
    // Point the anchor past the end of the file.
    file[n - 1] = 0xff;
    assert!(SSTable::open(file).is_err());
}
