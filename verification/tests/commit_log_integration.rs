use r2d2::key::Key;
use r2d2::value::Value;
use r2d2::wal::{Operation, WalReader, WalWriter};

fn str_vec(s: &str) -> Vec<u8> {
    s.as_bytes().to_vec()
}

fn put_vec(k: &Vec<u8>, v: &Vec<u8>) -> Operation {
    Operation::Put(Key::new(k.clone()), Value::new(v.clone()))
}

fn del_vec(k: &Vec<u8>) -> Operation {
    Operation::Delete(Key::new(k.clone()))
}

#[test]
fn check_commit_log_works() {
    let mut log_writer = WalWriter::create();
    let foo = str_vec("foo");
    let bar = str_vec("bar");
    let baz = str_vec("baz");

    assert!(log_writer.write(&put_vec(&foo, &bar)).is_ok());
    assert!(log_writer.write(&put_vec(&bar, &baz)).is_ok());
    assert!(log_writer.write(&del_vec(&bar)).is_ok());

    let mut log_reader = WalReader::open(log_writer.contents()).unwrap();

    let op1 = log_reader.read().unwrap();
    assert_eq!(put_vec(&foo, &bar), op1);

    let op2 = log_reader.read().unwrap();
    assert_eq!(put_vec(&bar, &baz), op2);

    let op3 = log_reader.read().unwrap();
    assert_eq!(del_vec(&bar), op3);
}

#[test]
fn check_commit_log_iterator() {
    let mut log_writer = WalWriter::create();
    let foo = str_vec("foo");
    let bar = str_vec("bar");
    let baz = str_vec("baz");

    assert!(log_writer.write(&put_vec(&foo, &bar)).is_ok());
    assert!(log_writer.write(&put_vec(&bar, &baz)).is_ok());
    assert!(log_writer.write(&del_vec(&bar)).is_ok());

    let mut log_reader = WalReader::open(log_writer.contents()).unwrap();

    let op1 = log_reader.next().unwrap().unwrap();
    assert_eq!(put_vec(&foo, &bar), op1);

    let op2 = log_reader.next().unwrap().unwrap();
    assert_eq!(put_vec(&bar, &baz), op2);

    let op3 = log_reader.next().unwrap().unwrap();
    assert_eq!(del_vec(&bar), op3);

    assert!(log_reader.next().is_none());
}

#[test]
fn commit_log_integration_check_iterator_empty_file() {
    let log_writer = WalWriter::create();
    let mut log_reader = WalReader::open(log_writer.contents()).unwrap();

    assert!(log_reader.next().is_none());
}

#[test]
fn commit_log_integration_check_log_resume() {
    let foo = str_vec("foo");
    let bar = str_vec("bar");
    let foobar = str_vec("foobar");

    let first_generation = {
        let mut log_writer = WalWriter::create();
        assert!(log_writer.write(&put_vec(&foo, &bar)).is_ok());
        log_writer.contents()
    };

    let resumed = {
        let mut log_writer = WalWriter::resume(first_generation);
        assert!(log_writer.write(&put_vec(&foobar, &bar)).is_ok());
        log_writer.contents()
    };

    let mut log_reader = WalReader::open(resumed).unwrap();
    let op1 = log_reader.next().unwrap().unwrap();
    assert_eq!(put_vec(&foo, &bar), op1);

    let op2 = log_reader.next().unwrap().unwrap();
    assert_eq!(put_vec(&foobar, &bar), op2);
}

#[test]
fn commit_log_read_your_write() {
    let foo = "foo".as_bytes();
    let bar = "bar".as_bytes();
    let op = Operation::Put(Key::new(foo.to_vec()), Value::new(bar.to_vec()));

    let payload = op.encode();
    let decoded = Operation::decode(payload.as_slice()).unwrap();

    assert_eq!(
        Operation::Put(Key::new(foo.to_vec()), Value::new(bar.to_vec())),
        decoded
    )
}

#[test]
fn write_to_null_log() {
    let mut writer = WalWriter::null();
    let foo = str_vec("foo");
    let bar = str_vec("bar");

    assert!(writer.write(&put_vec(&foo, &bar)).is_ok());
    assert!(writer.write(&put_vec(&foo, &bar)).is_ok());
    // A null log records nothing.
    assert!(writer.contents().is_empty());
}
