use icetray::{File, FileMode, Frame};

#[test]
fn roundtrip_single_frame() {
    let mut x = Frame::new();
    x.set("foo", String::from("Bar"));
    x.set("num", 42u8);

    let mut buffer: Vec<u8> = Vec::new();
    x.write_to_stream(&mut buffer);

    let mut y = Frame::new();
    let end = y.read_from_stream(buffer.as_slice(), 0).unwrap();
    assert_eq!(end, buffer.len());
    assert_eq!(*y.get::<String>("foo").unwrap(), "Bar");
    assert_eq!(*y.get::<u8>("num").unwrap(), 42u8);
}

#[test]
fn ancestor_entries_are_not_serialized() {
    let mut a = Frame::new();
    a.set("shared", 1u8);
    let mut c = Frame::new_with_parent(std::sync::Arc::new(a));
    c.set("own", 2u8);
    assert!(c.get::<u8>("shared").is_ok());

    let mut buffer: Vec<u8> = Vec::new();
    c.write_to_stream(&mut buffer);

    let mut y = Frame::new();
    y.read_from_stream(buffer.as_slice(), 0).unwrap();
    assert_eq!(*y.get::<u8>("own").unwrap(), 2u8);
    assert!(y.get::<u8>("shared").is_err());
}

#[test]
fn empty_frame_encodes_as_zero_count() {
    let x = Frame::new();
    let mut buffer: Vec<u8> = Vec::new();
    x.write_to_stream(&mut buffer);
    assert_eq!(buffer, vec![0u8; 8]);
}

#[test]
fn known_encoding_of_one_byte_entry() {
    let mut x = Frame::new();
    x.set("a", 5u8);
    let mut buffer: Vec<u8> = Vec::new();
    x.write_to_stream(&mut buffer);

    let mut expected: Vec<u8> = Vec::new();
    expected.extend_from_slice(&[1, 0, 0, 0, 0, 0, 0, 0]); // one pair
    expected.extend_from_slice(&[1, 0, 0, 0, 0, 0, 0, 0]); // key length
    expected.extend_from_slice(b"a"); // key
    expected.extend_from_slice(&[1, 5]); // byte tag, value
    assert_eq!(buffer, expected);
}

#[test]
fn known_encoding_of_one_text_entry() {
    let mut x = Frame::new();
    x.set("k", String::from("hi"));
    let mut buffer: Vec<u8> = Vec::new();
    x.write_to_stream(&mut buffer);

    let mut expected: Vec<u8> = Vec::new();
    expected.extend_from_slice(&[1, 0, 0, 0, 0, 0, 0, 0]); // one pair
    expected.extend_from_slice(&[1, 0, 0, 0, 0, 0, 0, 0]); // key length
    expected.extend_from_slice(b"k"); // key
    expected.extend_from_slice(&[0]); // text tag
    expected.extend_from_slice(&[2, 0, 0, 0, 0, 0, 0, 0]); // text length
    expected.extend_from_slice(b"hi"); // text
    assert_eq!(buffer, expected);
}

#[test]
fn empty_stream_reads_none() {
    let mut file = File::new(Vec::new(), FileMode::Read);
    assert_eq!(file.read_frame().unwrap().map(|_| ()), None);
}

#[test]
fn n_frames_then_none() {
    let mut file = File::new(Vec::new(), FileMode::Write);
    for i in 0..3u8 {
        let mut f = Frame::new();
        f.set("i", i);
        file.write_frame(&f);
    }
    let bytes = file.into_bytes();

    let mut reader = File::new(bytes, FileMode::Read);
    for i in 0..3u8 {
        let f = reader.read_frame().unwrap().expect("frame missing");
        assert_eq!(*f.get::<u8>("i").unwrap(), i);
    }
    assert!(reader.read_frame().unwrap().is_none());
    assert!(reader.read_frame().unwrap().is_none());
}

#[test]
fn truncated_stream_errors() {
    let mut file = File::new(Vec::new(), FileMode::Write);
    for _ in 0..2 {
        let mut f = Frame::new();
        f.set("payload", String::from("0123456789"));
        file.write_frame(&f);
    }
    let mut bytes = file.into_bytes();
    bytes.truncate(bytes.len() - 5);

    let mut reader = File::new(bytes, FileMode::Read);
    assert!(reader.read_frame().unwrap().is_some());
    assert!(reader.read_frame().is_err());
}

#[test]
fn garbage_count_errors() {
    // fewer than eight bytes: the record's count field itself is cut short
    let mut reader = File::new(vec![7u8, 7u8, 7u8], FileMode::Read);
    assert!(reader.read_frame().is_err());
}

#[test]
fn unknown_value_tag_errors() {
    let mut bytes: Vec<u8> = Vec::new();
    bytes.extend_from_slice(&[1, 0, 0, 0, 0, 0, 0, 0]); // one pair
    bytes.extend_from_slice(&[0, 0, 0, 0, 0, 0, 0, 0]); // empty key
    bytes.push(9); // no such tag
    let mut reader = File::new(bytes, FileMode::Read);
    assert!(reader.read_frame().is_err());
}

#[test]
fn invalid_key_bytes_error() {
    let mut bytes: Vec<u8> = Vec::new();
    bytes.extend_from_slice(&[1, 0, 0, 0, 0, 0, 0, 0]); // one pair
    bytes.extend_from_slice(&[1, 0, 0, 0, 0, 0, 0, 0]); // key of one byte
    bytes.push(0xFF); // not UTF-8
    bytes.extend_from_slice(&[1, 5]);
    let mut reader = File::new(bytes, FileMode::Read);
    assert!(reader.read_frame().is_err());
}

#[test]
fn append_mode_keeps_existing_records() {
    let mut first = File::new(Vec::new(), FileMode::Write);
    let mut f1 = Frame::new();
    f1.set("n", 1u8);
    first.write_frame(&f1);
    let bytes = first.into_bytes();

    let mut second = File::new(bytes, FileMode::Append);
    let mut f2 = Frame::new();
    f2.set("n", 2u8);
    second.write_frame(&f2);
    let all = second.into_bytes();

    let mut reader = File::new(all, FileMode::Read);
    assert_eq!(*reader.read_frame().unwrap().unwrap().get::<u8>("n").unwrap(), 1u8);
    assert_eq!(*reader.read_frame().unwrap().unwrap().get::<u8>("n").unwrap(), 2u8);
    assert!(reader.read_frame().unwrap().is_none());
}

#[test]
fn write_mode_starts_empty() {
    let stale = vec![9u8; 16];
    let file = File::new(stale, FileMode::Write);
    assert_eq!(file.into_bytes(), Vec::<u8>::new());
}

#[test]
fn read_frame_advances_past_each_record() {
    let mut f = Frame::new();
    f.set("a", 1u8);
    let mut buffer: Vec<u8> = Vec::new();
    f.write_to_stream(&mut buffer);
    let one = buffer.len();
    f.write_to_stream(&mut buffer);

    let mut fresh = Frame::new();
    let end = fresh.read_from_stream(buffer.as_slice(), 0).unwrap();
    assert_eq!(end, one);
    let end2 = fresh.read_from_stream(buffer.as_slice(), end).unwrap();
    assert_eq!(end2, buffer.len());
}

#[test]
fn repeated_key_keeps_last_occurrence() {
    // hand-built record holding the same key twice
    let mut bytes: Vec<u8> = Vec::new();
    bytes.extend_from_slice(&[2, 0, 0, 0, 0, 0, 0, 0]); // two pairs
    bytes.extend_from_slice(&[1, 0, 0, 0, 0, 0, 0, 0]);
    bytes.extend_from_slice(b"k");
    bytes.extend_from_slice(&[1, 1]); // k -> 1
    bytes.extend_from_slice(&[1, 0, 0, 0, 0, 0, 0, 0]);
    bytes.extend_from_slice(b"k");
    bytes.extend_from_slice(&[1, 2]); // k -> 2
    let mut f = Frame::new();
    f.read_from_stream(bytes.as_slice(), 0).unwrap();
    assert_eq!(*f.get::<u8>("k").unwrap(), 2u8);
}
