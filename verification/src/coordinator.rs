use crate::brokermap::{registered, views, Broker, BrokerMap, TopicMap};
use vstd::prelude::*;

verus! {

/// A broker announcing that it holds `topic_name`.
pub struct BrokerInitializationRequest {
    pub broker: Option<Broker>,
    pub partition: u32,
    pub topic_name: String,
}

/// The coordinator's answer to a broker announcement: status 0 when the
/// broker was registered.
pub struct BrokerInitializationResponse {
    pub status: i32,
    pub message: String,
}

/// A producer asking which brokers hold `topic_name`.
pub struct MetadataRequest {
    pub topic_name: String,
}

/// The brokers that hold the requested topic, each once.
pub struct MetadataResponse {
    pub brokers: Vec<Broker>,
}

/// The coordinator: it records which brokers hold which topic and tells
/// producers where a topic lives.
pub struct CoordinatorServer {
    broker_metadata: BrokerMap,
}

impl CoordinatorServer {
    /// The coordinator's internal invariant.
    pub closed spec fn wf(&self) -> bool {
        self.broker_metadata.wf()
    }

    /// The registry the coordinator keeps.
    pub closed spec fn registry(&self) -> TopicMap {
        self.broker_metadata@
    }

    /// A coordinator that keeps `broker_dict`.
    pub fn new(broker_dict: BrokerMap) -> (server: Self)
        requires
            broker_dict.wf(),
        ensures
            server.wf(),
            server.registry() == broker_dict@,
    {
        CoordinatorServer { broker_metadata: broker_dict }
    }

    /// Whether any broker ever announced `topic`.
    pub fn knows_topic(&self, topic: &String) -> (known: bool)
        requires
            self.wf(),
        ensures
            known == self.registry().contains_key(topic@),
    {
        self.broker_metadata.has_topic(topic)
    }

    /// Handles a broker's announcement: the broker is registered for the
    /// topic, and the answer says so. The request must name a broker.
    pub fn send(&mut self, request: BrokerInitializationRequest) -> (response: BrokerInitializationResponse)
        requires
            old(self).wf(),
            request.broker is Some,
        ensures
            final(self).wf(),
            final(self).registry() == registered(old(self).registry(), request.topic_name@, request.broker->0@),
            response.status == 0,
            response.message@ == "Broker successfully registered"@,
    {
        let broker = request.broker.unwrap();
        match self.broker_metadata.insert(request.topic_name, broker) {
            Ok(true) => BrokerInitializationResponse { status: 0, message: "Broker successfully registered".to_owned() },
            _ => BrokerInitializationResponse { status: 1, message: "Broker already registered".to_owned() },
        }
    }

    /// Answers a producer: the brokers that hold the requested topic. The
    /// topic must be known.
    pub fn get_metadata(&self, request: &MetadataRequest) -> (response: MetadataResponse)
        requires
            self.wf(),
            self.registry().contains_key(request.topic_name@),
        ensures
            views(response.brokers@).no_duplicates(),
            views(response.brokers@).to_set() == self.registry()[request.topic_name@],
    {
        match self.broker_metadata.get_topic_brokers(&request.topic_name) {
            Ok(brokers) => MetadataResponse { brokers },
            Err(_) => MetadataResponse { brokers: Vec::new() },
        }
    }
}

} // verus!
