use bytehound::event::{Event, HeaderBody};
use bytehound::reader::{parse_events, ReadError};
use bytehound::Timestamp;
use bytehound::event::DataId;

#[test]
fn test_data_id_string_conversions() {
    let id_before = DataId(0x12345678_ABCD3210, 0x9AAAAAAB_CDDDDDDF);
    assert_eq!(id_before.to_text(), b"12345678abcd32109aaaaaabcddddddf".to_vec());

    let id_after: DataId = DataId::parse(&id_before.to_text()).unwrap();
    assert_eq!(id_before, id_after);
}

#[test]
fn data_id_text_is_padded_and_checked() {
    assert_eq!(DataId::new(1, 0xff).to_text(), b"000000000000000100000000000000ff".to_vec());
    assert_eq!(DataId::parse(b"00000000000000010000000000000"), None);
    assert_eq!(DataId::parse(b"0000000000000001000000000000000g"), None);
    assert_eq!(DataId::parse(b"FFFFFFFFFFFFFFFF0000000000000002"), Some(DataId(u64::MAX, 2)));
}

#[test]
fn a_recording_starts_with_its_header() {
    let header = HeaderBody {
        id: DataId::new(1, 1),
        initial_timestamp: Timestamp::from_usecs(3),
        timestamp: Timestamp::from_usecs(3),
        wall_clock_secs: 0,
        wall_clock_nsecs: 0,
        pid: 1,
        cmdline: vec![],
        executable: b"/bin/true".to_vec(),
        arch: "x86_64".to_string(),
        flags: 0,
        pointer_size: 8,
    };
    assert_eq!(parse_events(Event::Header(header.clone())), Ok(header));
    assert_eq!(parse_events(Event::Marker { value: 0 }), Err(ReadError::MissingHeader));
}
