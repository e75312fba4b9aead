use commit_log::error::StoreError;
use commit_log::message::Message;
use commit_log::storage::naming::{has_log_extension, join_path, log_file_name, parse_base_offset};
use commit_log::storage::segment::Segment;

#[test]
fn segment_test_append() {
    let first_msg_value = "hello";
    let message = Message::new(0, String::from(first_msg_value));
    let mut segment = Segment::new(0, String::from("test.dat"), Vec::new());
    segment.append(&message).unwrap();

    let message_read = segment.read_from(0).unwrap();
    assert_eq!(message_read.value, first_msg_value);

    let second_message_value = ", world!";
    let second_message = Message::new(1, String::from(second_message_value));
    segment.append(&second_message).unwrap();

    let second_msg_read = segment.read_from(1).unwrap();
    assert_eq!(second_msg_read.value, second_message_value);
}

#[test]
fn test_load() {
    let segment = Segment::load("data/my_topic/00000.dat", Vec::new()).unwrap();
    assert!(segment.is_active);
    assert_eq!(segment.base_offset, 0);
    assert_eq!(segment.path, "data/my_topic/00000.dat");
}

#[test]
fn frame_bytes_are_exact() {
    let mut segment = Segment::new(0, String::from("test.dat"), Vec::new());
    assert_eq!(segment.append(&Message::new(7, String::from("hi"))), Ok(8));
    assert_eq!(
        segment.log,
        vec![18, 0, 0, 0, 7, 0, 0, 0, 0, 0, 0, 0, 2, 0, 0, 0, 0, 0, 0, 0, b'h', b'i']
    );
}

#[test]
fn base_offsets_from_names() {
    assert_eq!(parse_base_offset("00000.dat"), Some(0));
    assert_eq!(parse_base_offset("00042.dat"), Some(42));
    assert_eq!(parse_base_offset("a/b.c/00007.dat"), Some(7));
    assert_eq!(parse_base_offset("+5.dat"), Some(5));
    assert_eq!(parse_base_offset("18446744073709551615.dat"), Some(u64::MAX));
    assert_eq!(parse_base_offset("18446744073709551616.dat"), None);
    assert_eq!(parse_base_offset("metadata.json"), None);
    assert_eq!(parse_base_offset(".dat"), None);
    assert_eq!(parse_base_offset("12"), Some(12));
    assert_eq!(parse_base_offset("1.2.dat"), None);
    assert_eq!(parse_base_offset(""), None);
    assert_eq!(parse_base_offset("+.dat"), None);
    assert!(has_log_extension("00000.dat"));
    assert!(has_log_extension("x/y/abc.dat"));
    assert!(!has_log_extension("metadata.json"));
    assert!(!has_log_extension(".dat"));
    assert!(!has_log_extension("dat"));
    assert!(!has_log_extension("a.data"));
    assert!(!has_log_extension("a.dat/b"));
    assert_eq!(Segment::load("nope.dat", Vec::new()).unwrap_err(), StoreError::InvalidData);
}

#[test]
fn read_finds_first_match() {
    let mut segment = Segment::new(0, String::from("test.dat"), Vec::new());
    segment.append(&Message::new(4, String::from("first"))).unwrap();
    segment.append(&Message::new(4, String::from("second"))).unwrap();
    segment.append(&Message::new(5, String::from("third"))).unwrap();
    assert_eq!(segment.read_from(4).unwrap().value, "first");
    assert_eq!(segment.read_from(5).unwrap().value, "third");
    assert_eq!(segment.read_from(5).unwrap().offset, 5);
}

#[test]
fn read_of_empty_or_missing_is_not_found() {
    let mut segment = Segment::new(0, String::from("test.dat"), Vec::new());
    assert_eq!(segment.read_from(0).unwrap_err(), StoreError::NotFound);
    segment.append(&Message::new(0, String::from("a"))).unwrap();
    assert_eq!(segment.read_from(1).unwrap_err(), StoreError::NotFound);
}

#[test]
fn read_past_truncation_is_invalid_data() {
    let mut segment = Segment::new(0, String::from("test.dat"), Vec::new());
    segment.append(&Message::new(0, String::from("a"))).unwrap();
    let whole = segment.log.len();
    segment.append(&Message::new(1, String::from("b"))).unwrap();
    let full = segment.log.clone();
    for cut in whole + 1..full.len() {
        let broken = Segment::new(0, String::from("test.dat"), full[..cut].to_vec());
        assert_eq!(broken.read_from(0).unwrap().value, "a");
        assert_eq!(broken.read_from(1).unwrap_err(), StoreError::InvalidData);
        assert_eq!(broken.read_from(7).unwrap_err(), StoreError::InvalidData);
    }
    let clean = Segment::new(0, String::from("test.dat"), full[..whole].to_vec());
    assert_eq!(clean.read_from(1).unwrap_err(), StoreError::NotFound);
}

#[test]
fn read_of_undecodable_frame_is_invalid_data() {
    let segment = Segment::new(0, String::from("test.dat"), vec![3, 0, 0, 0, 1, 2, 3]);
    assert_eq!(segment.read_from(0).unwrap_err(), StoreError::InvalidData);
}

#[test]
fn append_frame_adds_prefix_and_payload() {
    let mut segment = Segment::new(0, String::from("test.dat"), vec![9]);
    assert_eq!(segment.append_frame(vec![1, 2, 3]), Ok(()));
    assert_eq!(segment.log, vec![9, 3, 0, 0, 0, 1, 2, 3]);
    assert_eq!(segment.append_frame(Vec::new()), Ok(()));
    assert_eq!(segment.log, vec![9, 3, 0, 0, 0, 1, 2, 3, 0, 0, 0, 0]);
}

#[test]
fn contains_offset_covers_base_to_base_plus_five() {
    let segment = Segment::new(10, String::from("test.dat"), Vec::new());
    assert!(!segment.contains_offset(9));
    assert!(segment.contains_offset(10));
    assert!(segment.contains_offset(15));
    assert!(!segment.contains_offset(16));
    let last = Segment::new(u64::MAX - 2, String::from("test.dat"), Vec::new());
    assert!(last.contains_offset(u64::MAX));
    assert!(!last.contains_offset(0));
}

#[test]
fn new_segment_is_active() {
    let segment = Segment::new(12, String::from("test.dat"), vec![1, 2]);
    assert_eq!(segment.base_offset, 12);
    assert_eq!(segment.path, "test.dat");
    assert_eq!(segment.log, vec![1, 2]);
    assert!(segment.is_active);
}

#[test]
fn load_keeps_log_and_reads_name() {
    let segment = Segment::load("00012.dat", vec![7]).unwrap();
    assert_eq!(segment.base_offset, 12);
    assert_eq!(segment.path, "00012.dat");
    assert_eq!(segment.log, vec![7]);
    assert!(segment.is_active);
}

#[test]
fn log_file_names_are_padded_to_five_digits() {
    assert_eq!(log_file_name(0), "00000.dat");
    assert_eq!(log_file_name(0), Segment::DEFAULT_LOG_PATH);
    assert_eq!(log_file_name(6), "00006.dat");
    assert_eq!(log_file_name(12345), "12345.dat");
    assert_eq!(log_file_name(123456), "123456.dat");
    assert_eq!(log_file_name(1000), "01000.dat");
    assert_eq!(log_file_name(u64::MAX), "18446744073709551615.dat");
    for base in [0u64, 9, 10, 99999, 100000, u64::MAX] {
        let path = join_path("data/t", &log_file_name(base));
        assert!(has_log_extension(&path));
        assert_eq!(parse_base_offset(&path), Some(base));
    }
    assert_eq!(join_path("a", "b"), "a/b");
    assert_eq!(Segment::DEFAULT_MESSAGE_COUNT, 5);
}

#[test]
fn frame_of_puts_the_length_in_front() {
    assert_eq!(Segment::frame_of(vec![1, 2, 3]), Ok(vec![3, 0, 0, 0, 1, 2, 3]));
    assert_eq!(Segment::frame_of(Vec::new()), Ok(vec![0, 0, 0, 0]));
    assert_eq!(Segment::frame_of(vec![7; 258]).unwrap()[..4], [2, 1, 0, 0]);
}
