use kafka_clone::brokermap::{Broker, BrokerMap, BrokerMapError};
use kafka_clone::coordinator::{
    BrokerInitializationRequest, CoordinatorServer, MetadataRequest,
};

fn broker(id: u32, ip: &str, port: u32) -> Broker {
    Broker { id, ip: ip.to_string(), port }
}

fn ids(brokers: &[Broker]) -> Vec<u32> {
    let mut ids: Vec<u32> = brokers.iter().map(|b| b.id).collect();
    ids.sort();
    ids
}

#[test]
fn unknown_topic_is_refused() {
    let map = BrokerMap::new();
    let topic = "test".to_string();
    assert!(!map.has_topic(&topic));
    assert_eq!(map.get_topic_brokers(&topic).unwrap_err(), BrokerMapError::TopicNotFound);
}

#[test]
fn insert_then_get_names_the_broker() {
    let mut map = BrokerMap::new();
    assert_eq!(map.insert("test".to_string(), broker(1, "10.0.0.1", 50030)), Ok(true));
    let brokers = map.get_topic_brokers(&"test".to_string()).unwrap();
    assert_eq!(brokers.len(), 1);
    assert_eq!(brokers[0].id, 1);
    assert_eq!(brokers[0].ip, "10.0.0.1");
    assert_eq!(brokers[0].port, 50030);
    assert!(map.has_topic(&"test".to_string()));
}

#[test]
fn registering_twice_changes_nothing() {
    let mut map = BrokerMap::new();
    assert_eq!(map.insert("t".to_string(), broker(1, "a", 1)), Ok(true));
    assert_eq!(map.insert("t".to_string(), broker(1, "a", 1)), Ok(true));
    assert_eq!(map.get_topic_brokers(&"t".to_string()).unwrap().len(), 1);
}

#[test]
fn brokers_differing_in_one_field_are_distinct() {
    let mut map = BrokerMap::new();
    map.insert("t".to_string(), broker(1, "a", 1)).unwrap();
    map.insert("t".to_string(), broker(1, "b", 1)).unwrap();
    map.insert("t".to_string(), broker(1, "a", 2)).unwrap();
    assert_eq!(map.get_topic_brokers(&"t".to_string()).unwrap().len(), 3);
}

#[test]
fn topics_are_kept_apart() {
    let mut map = BrokerMap::new();
    map.insert("a".to_string(), broker(1, "x", 1)).unwrap();
    map.insert("b".to_string(), broker(2, "y", 2)).unwrap();
    map.insert("a".to_string(), broker(3, "z", 3)).unwrap();
    assert_eq!(ids(&map.get_topic_brokers(&"a".to_string()).unwrap()), vec![1, 3]);
    assert_eq!(ids(&map.get_topic_brokers(&"b".to_string()).unwrap()), vec![2]);
}

#[test]
fn registration_order_does_not_matter() {
    let mut first = BrokerMap::new();
    first.insert("t".to_string(), broker(1, "x", 1)).unwrap();
    first.insert("t".to_string(), broker(2, "y", 2)).unwrap();
    let mut second = BrokerMap::new();
    second.insert("t".to_string(), broker(2, "y", 2)).unwrap();
    second.insert("t".to_string(), broker(1, "x", 1)).unwrap();
    assert_eq!(
        ids(&first.get_topic_brokers(&"t".to_string()).unwrap()),
        ids(&second.get_topic_brokers(&"t".to_string()).unwrap())
    );
}

#[test]
fn remove_from_unknown_topic_is_refused() {
    let mut map = BrokerMap::new();
    let err = map.remove(&"t".to_string(), &broker(1, "a", 1)).unwrap_err();
    assert_eq!(err, BrokerMapError::TopicNotFound);
    assert_eq!(err.message(), "Topic not found");
    assert!(!map.has_topic(&"t".to_string()));
}

#[test]
fn remove_unknown_broker_is_refused() {
    let mut map = BrokerMap::new();
    map.insert("t".to_string(), broker(1, "a", 1)).unwrap();
    let err = map.remove(&"t".to_string(), &broker(2, "a", 1)).unwrap_err();
    assert_eq!(err, BrokerMapError::BrokerNotFound);
    assert_eq!(err.message(), "Broker not found");
    assert_eq!(ids(&map.get_topic_brokers(&"t".to_string()).unwrap()), vec![1]);
}

#[test]
fn register_then_remove_restores_the_topic() {
    let mut map = BrokerMap::new();
    map.insert("t".to_string(), broker(1, "a", 1)).unwrap();
    map.insert("t".to_string(), broker(2, "b", 2)).unwrap();
    assert_eq!(map.remove(&"t".to_string(), &broker(2, "b", 2)), Ok(()));
    assert_eq!(ids(&map.get_topic_brokers(&"t".to_string()).unwrap()), vec![1]);
}

#[test]
fn last_broker_leaving_keeps_the_topic() {
    let mut map = BrokerMap::new();
    map.insert("t".to_string(), broker(1, "a", 1)).unwrap();
    assert_eq!(map.remove(&"t".to_string(), &broker(1, "a", 1)), Ok(()));
    assert!(map.has_topic(&"t".to_string()));
    assert!(map.get_topic_brokers(&"t".to_string()).unwrap().is_empty());
    assert_eq!(
        map.remove(&"t".to_string(), &broker(1, "a", 1)).unwrap_err(),
        BrokerMapError::BrokerNotFound
    );
}

#[test]
fn coordinator_registers_and_answers() {
    let mut server = CoordinatorServer::new(BrokerMap::new());
    assert!(!server.knows_topic(&"test".to_string()));
    let response = server.send(BrokerInitializationRequest {
        broker: Some(broker(7, "broker-service", 50030)),
        partition: 0,
        topic_name: "test".to_string(),
    });
    assert_eq!(response.status, 0);
    assert_eq!(response.message, "Broker successfully registered");
    assert!(server.knows_topic(&"test".to_string()));
    let metadata = server.get_metadata(&MetadataRequest { topic_name: "test".to_string() });
    assert_eq!(metadata.brokers.len(), 1);
    assert_eq!(metadata.brokers[0].id, 7);
    assert_eq!(metadata.brokers[0].ip, "broker-service");
    assert_eq!(metadata.brokers[0].port, 50030);
}
