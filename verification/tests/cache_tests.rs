use rustdds::cache_change::{CacheChange, DDSData, Guid, SequenceNumber};
use rustdds::dds_cache::{DDSCache, DDSHistoryCache, QosPolicies, TopicCache, TopicKind};
use rustdds::messages::{RepresentationIdentifier, SerializedPayload};
use rustdds::time::Timestamp;

fn change(sn: i64, byte: u8) -> CacheChange {
    let payload = SerializedPayload::new(RepresentationIdentifier::CdrBe, vec![byte, byte]);
    CacheChange::new(Guid::guid_unknown(), SequenceNumber::from(sn), Some(DDSData::new(payload)))
}

#[test]
fn create_dds_cache() {
    let mut cache = DDSCache::new();
    let topic_name = &String::from("ImJustATopic");
    assert!(cache.add_new_topic(
        topic_name,
        TopicKind::WithKey,
        "IDontKnowIfThisIsNecessary".to_string()
    ));
    let base: u64 = 23_000_000_000;
    cache.to_topic_add_change(topic_name, &Timestamp::from_nanos(base + 1), change(1, 1));
    cache.to_topic_add_change(topic_name, &Timestamp::from_nanos(base + 2), change(1, 2));
    cache.to_topic_add_change(topic_name, &Timestamp::from_nanos(base + 3), change(2, 3));
    assert_eq!(
        cache
            .from_topic_get_changes_in_range(
                topic_name,
                &Timestamp::from_nanos(base - 23_000_000_000),
                &Timestamp::from_nanos(base + 10)
            )
            .len(),
        3
    );
}

#[test]
fn history_point_query() {
    let mut hist = DDSHistoryCache::new();
    let t1 = Timestamp::from_nanos(10);
    let t2 = Timestamp::from_nanos(20);
    hist.add_change(&t1, change(1, 11));
    hist.add_change(&t2, change(2, 22));
    let got = hist.get_change(&t1).expect("inserted at exactly t1");
    assert_eq!(got.sequence_number, SequenceNumber::from(1));
    assert!(hist.get_change(&Timestamp::from_nanos(15)).is_none());
}

#[test]
fn history_remove_change() {
    let mut hist = DDSHistoryCache::new();
    let t = Timestamp::from_nanos(5);
    hist.add_change(&t, change(3, 33));
    let removed = hist.remove_change(&t).expect("was present");
    assert_eq!(removed.sequence_number, SequenceNumber::from(3));
    assert!(hist.get_change(&t).is_none());
    assert!(hist.remove_change(&t).is_none());
}

#[test]
fn history_range_query_ordered() {
    let mut hist = DDSHistoryCache::new();
    let t1 = Timestamp::from_nanos(100);
    let t2 = Timestamp::from_nanos(200);
    let t3 = Timestamp::from_nanos(300);
    // inserted out of order; iteration order is timestamp order
    hist.add_change(&t2, change(2, 2));
    hist.add_change(&t1, change(1, 1));
    hist.add_change(&t3, change(3, 3));
    let all = hist.get_range_of_changes_vec(&t1, &t3);
    assert_eq!(all.len(), 3);
    assert_eq!(all[0].0, t1);
    assert_eq!(all[1].0, t2);
    assert_eq!(all[2].0, t3);
    assert_eq!(all[1].1.sequence_number, SequenceNumber::from(2));
    let one = hist.get_range_of_changes(&t2, &t2);
    assert_eq!(one.len(), 1);
    assert_eq!(one[0].0, t2);
    let none = hist.get_range_of_changes_vec(&Timestamp::from_nanos(301), &Timestamp::from_nanos(400));
    assert!(none.is_empty());
}

#[test]
fn topic_cache_forwards() {
    let mut topic = TopicCache::new(TopicKind::NoKey, "SensorReading".to_string());
    let t = Timestamp::from_nanos(7);
    topic.add_change(&t, change(4, 44));
    assert!(topic.get_change(&t).is_some());
    let snapshot = topic.get_changes_in_range(&t, &t);
    assert_eq!(snapshot.len(), 1);
}

#[test]
fn duplicate_topic_is_refused() {
    let mut cache = DDSCache::new();
    let name = &String::from("Weather");
    assert!(cache.add_new_topic(name, TopicKind::NoKey, "WeatherData".to_string()));
    assert!(!cache.add_new_topic(name, TopicKind::WithKey, "Other".to_string()));
    // the first registration stays
    let qos = cache.get_topic_qos(name).expect("topic exists");
    assert_eq!(*qos, QosPolicies::qos_none());
}

#[test]
fn unknown_topic_operations_are_noops() {
    let mut cache = DDSCache::new();
    let name = &String::from("Nowhere");
    assert!(cache.get_topic_qos(name).is_none());
    assert!(cache.get_topic_qos_mut(name).is_none());
    assert!(cache.from_topic_get_change(name, &Timestamp::from_nanos(1)).is_none());
    assert!(cache
        .from_topic_get_changes_in_range(
            name,
            &Timestamp::from_nanos(0),
            &Timestamp::from_nanos(100)
        )
        .is_empty());
    // silently dropped
    cache.to_topic_add_change(name, &Timestamp::from_nanos(1), change(1, 1));
    cache.remove_topic(name);
}

#[test]
fn remove_topic_drops_its_history() {
    let mut cache = DDSCache::new();
    let name = &String::from("Transient");
    let keep = &String::from("Durable");
    cache.add_new_topic(name, TopicKind::NoKey, "A".to_string());
    cache.add_new_topic(keep, TopicKind::NoKey, "B".to_string());
    let t = Timestamp::from_nanos(50);
    cache.to_topic_add_change(name, &t, change(1, 1));
    cache.to_topic_add_change(keep, &t, change(2, 2));
    cache.remove_topic(name);
    assert!(cache.from_topic_get_change(name, &t).is_none());
    assert!(cache.from_topic_get_change(keep, &t).is_some());
}

#[test]
fn qos_can_be_read_and_replaced() {
    let mut cache = DDSCache::new();
    let name = &String::from("Tuned");
    cache.add_new_topic(name, TopicKind::WithKey, "T".to_string());
    assert_eq!(*cache.get_topic_qos(name).unwrap(), QosPolicies::qos_none());
    {
        let qos = cache.get_topic_qos_mut(name).expect("topic exists");
        qos.reliable = true;
        qos.history_depth = 8;
    }
    let qos = cache.get_topic_qos(name).unwrap();
    assert!(qos.reliable);
    assert_eq!(qos.history_depth, 8);
}

#[test]
fn point_query_distinguishes_topics() {
    let mut cache = DDSCache::new();
    let a = &String::from("TopicA");
    let b = &String::from("TopicB");
    cache.add_new_topic(a, TopicKind::NoKey, "A".to_string());
    cache.add_new_topic(b, TopicKind::NoKey, "B".to_string());
    let t = Timestamp::from_nanos(9);
    cache.to_topic_add_change(a, &t, change(1, 1));
    assert!(cache.from_topic_get_change(a, &t).is_some());
    assert!(cache.from_topic_get_change(b, &t).is_none());
}
