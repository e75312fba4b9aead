use commit_log::consumer_group::consumer_group::ConsumerGroup;
use commit_log::error::StoreError;
use commit_log::queue::listing::SegmentFile;
use commit_log::queue::topic::Topic;

#[test]
fn test_append_read() {
    let mut topic = Topic::new(String::from("the_topic_to_test_consumer_group"));
    let written = topic.write();
    assert_eq!(written.name, "the_topic_to_test_consumer_group");

    let mut consumer_group = ConsumerGroup::new("testing_consumer_group");
    let next_offset = consumer_group
        .append(&mut topic, "testing consumer group's append and read")
        .unwrap();

    let files = vec![SegmentFile {
        name: String::from("00000.dat"),
        contents: topic.segments[0].log.clone(),
    }];
    let loaded = Topic::load(written, files).unwrap();
    let message = consumer_group.read(&loaded, next_offset - 1).unwrap();

    assert_eq!(message.value, "testing consumer group's append and read");
}

#[test]
fn group_reports_what_the_topic_reports() {
    let mut topic = Topic::new(String::from("g"));
    let mut group = ConsumerGroup::new("readers");
    assert_eq!(group.read(&topic, 0).unwrap_err(), StoreError::NotFound);
    assert_eq!(group.append(&mut topic, "a"), Ok(1));
    assert_eq!(group.append(&mut topic, "b"), Ok(2));
    assert_eq!(group.read(&topic, 1).unwrap().value, "b");
    topic.segments[0].is_active = false;
    assert_eq!(group.append(&mut topic, "c"), Err(StoreError::NotFound));
    assert_eq!(topic.next_offset, 2);
}
