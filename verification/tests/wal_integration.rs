use r2d2::key::Key;
use r2d2::value::Value;
use r2d2::wal::{Operation, WalReader, WalWriter};

fn put(k: &str, v: &str) -> Operation {
    Operation::Put(Key::from_str(k), Value::from_str(v))
}

fn del(k: &str) -> Operation {
    Operation::Delete(Key::from_str(k))
}

#[test]
fn check_wal_works() {
    let mut log_writer = WalWriter::create();

    assert!(log_writer.write(&put("foo", "bar")).is_ok());
    assert!(log_writer.write(&put("foo", "baz")).is_ok());
    assert!(log_writer.write(&del("foo")).is_ok());

    let mut log_reader = WalReader::open(log_writer.contents()).unwrap();

    let op1 = log_reader.read().unwrap();
    assert_eq!(put("foo", "bar"), op1);

    let op2 = log_reader.read().unwrap();
    assert_eq!(put("foo", "baz"), op2);

    let op3 = log_reader.read().unwrap();
    assert_eq!(del("foo"), op3);
}

#[test]
fn check_wal_iterator() {
    let mut log_writer = WalWriter::create();

    assert!(log_writer.write(&put("foo", "bar")).is_ok());
    assert!(log_writer.write(&put("foo", "baz")).is_ok());
    assert!(log_writer.write(&del("foo")).is_ok());

    let mut log_reader = WalReader::open(log_writer.contents()).unwrap();

    let op1 = log_reader.next().unwrap().unwrap();
    assert_eq!(put("foo", "bar"), op1);

    let op2 = log_reader.next().unwrap().unwrap();
    assert_eq!(put("foo", "baz"), op2);

    let op3 = log_reader.next().unwrap().unwrap();
    assert_eq!(del("foo"), op3);

    assert!(log_reader.next().is_none());
}

#[test]
fn wal_integration_check_iterator_empty_file() {
    let log_writer = WalWriter::create();
    let mut log_reader = WalReader::open(log_writer.contents()).unwrap();

    assert!(log_reader.next().is_none());
}

#[test]
fn wal_integration_check_log_resume() {
    let first_generation = {
        let mut log_writer = WalWriter::create();
        assert!(log_writer.write(&put("foo", "bar")).is_ok());
        log_writer.contents()
    };

    let resumed = {
        let mut log_writer = WalWriter::resume(first_generation);
        assert!(log_writer.write(&put("foobar", "bar")).is_ok());
        log_writer.contents()
    };

    let mut log_reader = WalReader::open(resumed).unwrap();
    let op1 = log_reader.next().unwrap().unwrap();
    assert_eq!(put("foo", "bar"), op1);

    let op2 = log_reader.next().unwrap().unwrap();
    assert_eq!(put("foobar", "bar"), op2);

    assert!(log_reader.next().is_none());
}

#[test]
fn wal_read_your_write() {
    let foo = "foo".as_bytes();
    let bar = "bar".as_bytes();
    let op = Operation::Put(Key::new(foo.to_vec()), Value::new(bar.to_vec()));

    let payload = op.encode();
    let decoded = Operation::decode(payload.as_slice()).unwrap();

    assert_eq!(
        Operation::Put(Key::new(foo.to_vec()), Value::new(bar.to_vec())),
        decoded
    )
}

#[test]
fn wal_rejects_foreign_header() {
    // A file whose header frame carries the wrong stanza is refused.
    let mut bytes: Vec<u8> = Vec::new();
    let payload: Vec<u8> = vec![3, 0, 0, 0, 0, 0, 0, 0, b'x', b'y', b'z', 1];
    bytes.extend_from_slice(&(payload.len() as u64).to_le_bytes());
    bytes.extend_from_slice(&payload);
    assert!(WalReader::open(bytes).is_err());
}

#[test]
fn wal_reader_fails_on_truncated_record() {
    let mut log_writer = WalWriter::create();
    assert!(log_writer.write(&put("foo", "bar")).is_ok());
    let mut bytes = log_writer.contents();
    // Cut the last byte off the record: the frame now claims more bytes
    // than the file holds.
    bytes.pop();

    let mut log_reader = WalReader::open(bytes).unwrap();
    let item = log_reader.next().unwrap();
    assert!(item.is_err());
}

#[test]
fn wal_write_reports_frame_size() {
    let mut log_writer = WalWriter::create();
    // A Put of "foo" -> "bar": 1 tag byte, two length-prefixed byte
    // strings of 8 + 3 bytes each, framed with an 8-byte prefix.
    let n = log_writer.write(&put("foo", "bar")).unwrap();
    assert_eq!(n, 8 + 1 + 8 + 3 + 8 + 3);
}
