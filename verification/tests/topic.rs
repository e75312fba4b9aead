use commit_log::error::StoreError;
use commit_log::message::Message;
use commit_log::queue::listing::SegmentFile;
use commit_log::queue::topic::{Topic, TopicMetadata};
use commit_log::storage::segment::Segment;

fn file(name: &str, contents: Vec<u8>) -> SegmentFile {
    SegmentFile { name: String::from(name), contents }
}

fn metadata(name: &str, next_offset: u64) -> TopicMetadata {
    TopicMetadata {
        name: String::from(name),
        base_directory: format!("data/{}", name),
        next_offset,
    }
}

#[test]
fn topic_test_append() {
    let mut my_topic = Topic::new(String::from("my_topic"));
    let next_offset = my_topic.append(String::from("my topic's first message"));
    assert_eq!(next_offset.unwrap(), 1);
}

#[test]
fn test_append_and_read() {
    let mut my_second_topic = Topic::new(String::from("my_second_topic"));

    let msg = "message in the second topic";
    let next_offset = my_second_topic.append(String::from(msg)).unwrap_or_else(|e| {
        panic!(
            "wasn't able to append message to topic: {}. error: {}",
            &my_second_topic.name,
            e.describe()
        )
    });

    let msg_read = my_second_topic.read(next_offset - 1).unwrap_or_else(|e| {
        panic!(
            "wasn't able to read the message from topic: {} with offset: {}, error: {}",
            &my_second_topic.name,
            &next_offset - 1,
            e.describe()
        )
    });

    assert_eq!(msg_read.value, msg);

    let msg2 = "second message in the second topic!";
    let next_offset = my_second_topic.append(String::from(msg2)).unwrap_or_else(|e| {
        panic!(
            "wasn't able to append 2nd message to topic: {}, error: {}",
            my_second_topic.name,
            e.describe()
        )
    });

    let msg_read = my_second_topic.read(next_offset - 1).unwrap_or_else(|e| {
        panic!(
            "wasn't able to read the second message from topic: {} with offset: {}, error: {}",
            &my_second_topic.name,
            &next_offset - 1,
            e.describe()
        )
    });

    assert_eq!(msg_read.value, msg2);
}

#[test]
fn test_json_serde() {
    let topic = &mut Topic::new(String::from("serde_testing_topic"));
    topic.next_offset = 99;
    let written = topic.write();

    let mut object = serde_json::Map::new();
    object.insert(String::from("name"), serde_json::Value::from(written.name));
    object.insert(String::from("base_directory"), serde_json::Value::from(written.base_directory));
    object.insert(String::from("next_offset"), serde_json::Value::from(written.next_offset));
    let json = serde_json::to_string(&serde_json::Value::Object(object)).unwrap();

    let parsed: serde_json::Value = serde_json::from_str(&json).unwrap();
    let read = TopicMetadata {
        name: String::from(parsed["name"].as_str().unwrap()),
        base_directory: String::from(parsed["base_directory"].as_str().unwrap()),
        next_offset: parsed["next_offset"].as_u64().unwrap(),
    };
    let files = vec![
        file("00000.dat", topic.segments[0].log.clone()),
        file("metadata.json", json.into_bytes()),
    ];
    let topic_read = Topic::load(read, files).unwrap();

    assert_eq!(topic_read.name, "serde_testing_topic");
    assert_eq!(topic_read.next_offset, 99);
    assert_eq!(topic.segments.len(), 1);
    assert_eq!(topic_read.segments.len(), 1);
    assert_eq!(topic_read.base_directory, "data/serde_testing_topic");
}

#[test]
fn new_topic_has_one_empty_active_segment() {
    let topic = Topic::new(String::from("t0"));
    assert_eq!(topic.name, "t0");
    assert_eq!(topic.base_directory, "data/t0");
    assert_eq!(topic.next_offset, 0);
    assert_eq!(topic.segments.len(), 1);
    assert_eq!(topic.segments[0].base_offset, 0);
    assert!(topic.segments[0].log.is_empty());
    assert!(topic.segments[0].is_active);
    assert_eq!(topic.segments[0].path, "data/t0/00000.dat");
    assert_eq!(Topic::metadata_path("t0"), "data/t0/metadata.json");
}

#[test]
fn hello_is_read_back() {
    let mut topic = Topic::new(String::from("t1"));
    assert_eq!(topic.append(String::from("hello")), Ok(1));
    let message = topic.read(0).unwrap();
    assert_eq!(message.value, "hello");
    assert_eq!(message.offset, 0);
}

#[test]
fn offsets_count_up() {
    let mut topic = Topic::new(String::from("t2"));
    assert_eq!(topic.append(String::from("a")), Ok(1));
    assert_eq!(topic.append(String::from("b")), Ok(2));
    assert_eq!(topic.append(String::from("c")), Ok(3));
    assert_eq!(topic.next_offset, 3);
    assert_eq!(topic.read(0).unwrap().value, "a");
    assert_eq!(topic.read(1).unwrap().value, "b");
    assert_eq!(topic.read(2).unwrap().value, "c");
}

#[test]
fn read_of_empty_topic_is_not_found() {
    let topic = Topic::new(String::from("t4"));
    assert_eq!(topic.read(5).unwrap_err(), StoreError::NotFound);
    assert_eq!(topic.read(0).unwrap_err(), StoreError::NotFound);
}

#[test]
fn read_at_or_beyond_next_offset_is_not_found() {
    let mut topic = Topic::new(String::from("t6"));
    topic.append(String::from("a")).unwrap();
    topic.append(String::from("b")).unwrap();
    assert_eq!(topic.read(2).unwrap_err(), StoreError::NotFound);
    assert_eq!(topic.read(5).unwrap_err(), StoreError::NotFound);
    assert_eq!(topic.read(6).unwrap_err(), StoreError::NotFound);
    assert_eq!(topic.read(u64::MAX).unwrap_err(), StoreError::NotFound);
}

#[test]
fn read_past_truncation_in_topic_is_invalid_data() {
    let mut topic = Topic::new(String::from("t5"));
    topic.append(String::from("a")).unwrap();
    topic.append(String::from("b")).unwrap();
    let len = topic.segments[0].log.len();
    topic.segments[0].log.truncate(len - 3);
    assert_eq!(topic.read(0).unwrap().value, "a");
    assert_eq!(topic.read(1).unwrap_err(), StoreError::InvalidData);
}

#[test]
fn append_without_active_segment_is_not_found() {
    let mut topic = Topic::new(String::from("sealed"));
    topic.segments[0].is_active = false;
    assert_eq!(topic.append(String::from("a")), Err(StoreError::NotFound));
    assert_eq!(topic.next_offset, 0);
    assert!(topic.segments[0].log.is_empty());
    let mut empty = Topic::load(metadata("none", 4), Vec::new()).unwrap();
    assert_eq!(empty.append(String::from("a")), Err(StoreError::NotFound));
    assert_eq!(empty.read(0).unwrap_err(), StoreError::NotFound);
}

#[test]
fn append_goes_to_first_active_segment() {
    let mut topic = Topic::new(String::from("two"));
    topic.segments[0].is_active = false;
    topic.segments.push(Segment::new(6, String::from("test.dat"), Vec::new()));
    topic.segments.push(Segment::new(12, String::from("test.dat"), Vec::new()));
    topic.next_offset = 6;
    assert_eq!(topic.find_active_segment(), Some(1));
    assert_eq!(topic.find_segment(6), Some(1));
    assert_eq!(topic.find_segment(5), Some(0));
    assert_eq!(topic.find_segment(17), Some(2));
    assert_eq!(topic.find_segment(18), None);
    assert_eq!(topic.append(String::from("x")), Ok(7));
    assert!(topic.segments[0].log.is_empty());
    assert!(!topic.segments[1].log.is_empty());
    assert!(topic.segments[2].log.is_empty());
    assert_eq!(topic.read(6).unwrap().value, "x");
}

#[test]
fn seventh_message_is_out_of_the_only_segment() {
    let mut topic = Topic::new(String::from("seven"));
    for i in 0..7u64 {
        assert_eq!(topic.append(format!("m{}", i)), Ok(i + 1));
    }
    assert_eq!(topic.read(5).unwrap().value, "m5");
    assert_eq!(topic.read(6).unwrap_err(), StoreError::NotFound);
}

#[test]
fn write_gives_name_directory_and_next_offset() {
    let mut topic = Topic::new(String::from("w"));
    topic.append(String::from("a")).unwrap();
    let written = topic.write();
    assert_eq!(written.name, "w");
    assert_eq!(written.base_directory, "data/w");
    assert_eq!(written.next_offset, 1);
}

#[test]
fn load_orders_segments_by_base_offset() {
    let files = vec![
        file("00012.dat", vec![12]),
        file("metadata.json", vec![b'{', b'}']),
        file("00000.dat", vec![0]),
        file("notes.txt", vec![1, 2, 3]),
        file("00006.dat", vec![6]),
        file("0.dat", vec![100]),
        file(".dat", vec![5]),
    ];
    let topic = Topic::load(metadata("m", 14), files).unwrap();
    assert_eq!(topic.name, "m");
    assert_eq!(topic.base_directory, "data/m");
    assert_eq!(topic.next_offset, 14);
    let bases: Vec<u64> = topic.segments.iter().map(|s| s.base_offset).collect();
    assert_eq!(bases, vec![0, 0, 6, 12]);
    let logs: Vec<Vec<u8>> = topic.segments.iter().map(|s| s.log.clone()).collect();
    assert_eq!(logs, vec![vec![0], vec![100], vec![6], vec![12]]);
    let active: Vec<bool> = topic.segments.iter().map(|s| s.is_active).collect();
    assert_eq!(active, vec![false, false, false, true]);
    let paths: Vec<&str> = topic.segments.iter().map(|s| s.path.as_str()).collect();
    assert_eq!(
        paths,
        vec!["data/m/00000.dat", "data/m/0.dat", "data/m/00006.dat", "data/m/00012.dat"]
    );
}

#[test]
fn load_rejects_segment_file_without_base_offset() {
    let files = vec![file("00000.dat", Vec::new()), file("first.dat", Vec::new())];
    assert_eq!(Topic::load(metadata("bad", 0), files).unwrap_err(), StoreError::InvalidData);
    let mut topic = Topic::new(String::from("kept"));
    topic.append(String::from("a")).unwrap();
    let log = topic.segments[0].log.clone();
    assert_eq!(
        topic.load_segments(vec![file("x.dat", Vec::new())]),
        Err(StoreError::InvalidData)
    );
    assert_eq!(topic.segments.len(), 1);
    assert_eq!(topic.segments[0].log, log);
}

#[test]
fn loaded_topic_reads_what_was_appended() {
    let mut topic = Topic::new(String::from("again"));
    topic.append(String::from("a")).unwrap();
    topic.append(String::from("b")).unwrap();
    let files = vec![file("00000.dat", topic.segments[0].log.clone())];
    let mut loaded = Topic::load(topic.write(), files).unwrap();
    assert_eq!(loaded.next_offset, 2);
    assert_eq!(loaded.read(1).unwrap().value, "b");
    assert_eq!(loaded.append(String::from("c")), Ok(3));
    assert_eq!(loaded.read(2).unwrap().value, "c");
}

#[test]
fn each_offset_has_one_claimant() {
    let mut first = Segment::new(0, String::from("data/r/00000.dat"), Vec::new());
    let mut second = Segment::new(6, String::from("data/r/00006.dat"), Vec::new());
    let mut third = Segment::new(12, String::from("data/r/00012.dat"), Vec::new());
    for offset in 0..15u64 {
        let segment = match offset / 6 {
            0 => &mut first,
            1 => &mut second,
            _ => &mut third,
        };
        assert_eq!(segment.append(&Message::new(offset, format!("m{}", offset))), Ok(offset + 1));
    }
    let files = vec![
        file("00006.dat", second.log),
        file("00012.dat", third.log),
        file("00000.dat", first.log),
    ];
    let topic = Topic::load(metadata("r", 15), files).unwrap();
    for offset in 0..15u64 {
        let claimants: Vec<usize> = (0..topic.segments.len())
            .filter(|&i| topic.segments[i].contains_offset(offset))
            .collect();
        assert_eq!(claimants, vec![(offset / 6) as usize]);
        assert_eq!(topic.find_segment(offset), Some((offset / 6) as usize));
        let message = topic.read(offset).unwrap();
        assert_eq!(message.offset, offset);
        assert_eq!(message.value, format!("m{}", offset));
    }
    assert_eq!(topic.read(15).unwrap_err(), StoreError::NotFound);
    assert_eq!(topic.read(18).unwrap_err(), StoreError::NotFound);
    assert_eq!(topic.find_active_segment(), Some(2));
}

#[test]
fn new_topic_comes_back_from_what_it_writes() {
    let mut topic = Topic::new(String::from("back"));
    topic.append(String::from("kept")).unwrap();
    let files = vec![file("00000.dat", topic.segments[0].log.clone())];
    let restored = Topic::load(topic.write(), files).unwrap();
    assert_eq!(restored.name, topic.name);
    assert_eq!(restored.base_directory, topic.base_directory);
    assert_eq!(restored.next_offset, topic.next_offset);
    assert_eq!(restored.segments.len(), 1);
    assert_eq!(restored.segments[0].base_offset, 0);
    assert_eq!(restored.segments[0].path, topic.segments[0].path);
    assert_eq!(restored.segments[0].log, topic.segments[0].log);
    assert!(restored.segments[0].is_active);
}

#[test]
fn many_appends_count_up_from_any_start() {
    let mut topic = Topic::load(
        metadata("late", 40),
        vec![file("00036.dat", Vec::new()), file("00030.dat", Vec::new())],
    )
    .unwrap();
    for i in 0..10u64 {
        assert_eq!(topic.append(String::from("x")), Ok(41 + i));
        assert_eq!(topic.next_offset, 41 + i);
    }
    assert!(topic.segments[0].log.is_empty());
    assert_eq!(topic.read(41).unwrap().offset, 41);
    assert_eq!(topic.read(42).unwrap_err(), StoreError::NotFound);
}

#[test]
fn roll_over_opens_a_segment_when_the_active_one_is_full() {
    let mut topic = Topic::new(String::from("roll"));
    assert_eq!(topic.roll_over(), Ok(false));
    for i in 0..6u64 {
        assert_eq!(topic.roll_over(), Ok(false));
        assert_eq!(topic.append(format!("m{}", i)), Ok(i + 1));
    }
    assert_eq!(topic.segments.len(), 1);
    assert_eq!(topic.roll_over(), Ok(true));
    assert_eq!(topic.segments.len(), 2);
    assert!(!topic.segments[0].is_active);
    assert!(topic.segments[1].is_active);
    assert_eq!(topic.segments[1].base_offset, 6);
    assert_eq!(topic.segments[1].path, "data/roll/00006.dat");
    assert!(topic.segments[1].log.is_empty());
    assert_eq!(topic.next_offset, 6);
    assert_eq!(topic.roll_over(), Ok(false));
    assert_eq!(topic.append(String::from("m6")), Ok(7));
    assert_eq!(topic.read(6).unwrap().value, "m6");
    assert_eq!(topic.read(0).unwrap().value, "m0");
}

#[test]
fn roll_over_without_active_segment_is_not_found() {
    let mut topic = Topic::new(String::from("shut"));
    topic.segments[0].is_active = false;
    assert_eq!(topic.roll_over(), Err(StoreError::NotFound));
    assert_eq!(topic.segments.len(), 1);
}

#[test]
fn rolling_topic_reads_every_payload_back() {
    let mut topic = Topic::new(String::from("long"));
    for i in 0..40u64 {
        topic.roll_over().unwrap();
        assert_eq!(topic.append(format!("payload {}", i)), Ok(i + 1));
    }
    assert_eq!(topic.segments.len(), 7);
    let bases: Vec<u64> = topic.segments.iter().map(|s| s.base_offset).collect();
    assert_eq!(bases, vec![0, 6, 12, 18, 24, 30, 36]);
    for i in 0..40u64 {
        let message = topic.read(i).unwrap();
        assert_eq!(message.offset, i);
        assert_eq!(message.value, format!("payload {}", i));
    }
    assert_eq!(topic.read(40).unwrap_err(), StoreError::NotFound);
    let files: Vec<SegmentFile> = topic
        .segments
        .iter()
        .rev()
        .map(|s| SegmentFile {
            name: String::from(s.path.rsplit('/').next().unwrap()),
            contents: s.log.clone(),
        })
        .collect();
    let restored = Topic::load(topic.write(), files).unwrap();
    assert_eq!(restored.segments.len(), 7);
    for i in 0..7 {
        assert_eq!(restored.segments[i].base_offset, topic.segments[i].base_offset);
        assert_eq!(restored.segments[i].path, topic.segments[i].path);
        assert_eq!(restored.segments[i].log, topic.segments[i].log);
        assert_eq!(restored.segments[i].is_active, topic.segments[i].is_active);
    }
    assert_eq!(restored.read(39).unwrap().value, "payload 39");
}

#[test]
fn next_frame_is_what_append_adds() {
    let mut topic = Topic::new(String::from("ahead"));
    topic.append(String::from("a")).unwrap();
    let held = topic.segments[0].log.clone();
    let (place, frame) = topic.next_frame("hi").unwrap();
    assert_eq!(place, 0);
    assert_eq!(
        frame,
        vec![18, 0, 0, 0, 1, 0, 0, 0, 0, 0, 0, 0, 2, 0, 0, 0, 0, 0, 0, 0, b'h', b'i']
    );
    assert_eq!(topic.segments[0].log, held);
    assert_eq!(topic.append(String::from("hi")), Ok(2));
    assert_eq!(topic.segments[0].log, [held, frame].concat());
    topic.segments[0].is_active = false;
    assert_eq!(topic.next_frame("x").unwrap_err(), StoreError::NotFound);
}

#[test]
fn append_at_the_last_offset_without_active_segment_is_not_found() {
    let mut topic = Topic::load(metadata("end", u64::MAX), Vec::new()).unwrap();
    assert_eq!(topic.append(String::from("a")), Err(StoreError::NotFound));
    assert_eq!(topic.next_offset, u64::MAX);
}
