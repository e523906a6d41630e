use r2d2::binary_io::{read_data_size, read_frame, write_data_size, write_frame, Error};
use r2d2::key::Key;
use r2d2::memtable::Memtable;
use r2d2::value::Value;

#[test]
fn frame_round_trip() {
    let payload = b"some payload bytes".to_vec();
    let mut out: Vec<u8> = Vec::new();
    let n = write_frame(&mut out, payload.as_slice());
    assert_eq!(n, payload.len() + 8);

    let (read_back, end) = read_frame(out.as_slice(), 0).unwrap();
    assert_eq!(read_back, payload);
    assert_eq!(end, out.len());
}

#[test]
fn empty_frame_round_trip() {
    let mut out: Vec<u8> = Vec::new();
    let n = write_frame(&mut out, &[]);
    assert_eq!(n, 8);
    let (read_back, end) = read_frame(out.as_slice(), 0).unwrap();
    assert!(read_back.is_empty());
    assert_eq!(end, 8);
}

#[test]
fn consecutive_frames_read_back_in_order() {
    let mut out: Vec<u8> = Vec::new();
    write_frame(&mut out, b"first");
    write_frame(&mut out, b"second");

    let (f1, mid) = read_frame(out.as_slice(), 0).unwrap();
    assert_eq!(f1, b"first".to_vec());
    let (f2, end) = read_frame(out.as_slice(), mid).unwrap();
    assert_eq!(f2, b"second".to_vec());
    assert_eq!(end, out.len());
}

#[test]
fn reading_at_the_end_is_a_clean_end_of_input() {
    let mut out: Vec<u8> = Vec::new();
    write_frame(&mut out, b"data");
    let (_, end) = read_frame(out.as_slice(), 0).unwrap();
    assert_eq!(read_frame(out.as_slice(), end), Err(Error::EndOfInput));
}

#[test]
fn a_short_length_prefix_is_truncated() {
    let buf: Vec<u8> = vec![1, 2, 3];
    assert_eq!(read_frame(buf.as_slice(), 0), Err(Error::Truncated));
}

#[test]
fn a_short_payload_is_truncated() {
    let mut out: Vec<u8> = Vec::new();
    write_frame(&mut out, b"data");
    out.pop();
    assert_eq!(read_frame(out.as_slice(), 0), Err(Error::Truncated));
}

#[test]
fn data_size_round_trip() {
    let mut out: Vec<u8> = Vec::new();
    let n = write_data_size(&mut out, 0xdead_beef);
    assert_eq!(n, 4);
    assert_eq!(read_data_size(out.as_slice(), 0).unwrap(), 0xdead_beef);
}

#[test]
fn memtable_insert_replaces_and_returns_prior() {
    let mut t = Memtable::new();
    assert_eq!(t.len(), 0);
    assert!(t.insert(Key::from_str("k"), Value::from_str("v1")).is_none());
    let prior = t.insert(Key::from_str("k"), Value::from_str("v2"));
    assert_eq!(prior, Some(Value::from_str("v1")));
    assert_eq!(t.len(), 1);
    assert_eq!(t.get(&Key::from_str("k")), Some(&Value::from_str("v2")));
}

#[test]
fn memtable_remove_returns_prior_value() {
    let mut t = Memtable::new();
    t.insert(Key::from_str("k"), Value::from_str("v"));
    assert_eq!(t.remove(&Key::from_str("k")), Some(Value::from_str("v")));
    assert_eq!(t.remove(&Key::from_str("k")), None);
    assert_eq!(t.get(&Key::from_str("k")), None);
}

#[test]
fn memtable_pairs_come_out_sorted() {
    let mut t = Memtable::new();
    t.insert(Key::from_str("m"), Value::from_str("2"));
    t.insert(Key::from_str("z"), Value::from_str("3"));
    t.insert(Key::from_str("a"), Value::from_str("1"));

    let pairs = t.pairs();
    let keys: Vec<Vec<u8>> = pairs.iter().map(|p| p.0.to_vec()).collect();
    assert_eq!(
        keys,
        vec!["a".as_bytes().to_vec(), "m".as_bytes().to_vec(), "z".as_bytes().to_vec()]
    );
}
