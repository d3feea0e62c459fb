use vstd::prelude::*;

verus! {

/// A broker as the coordinator knows it: its identifier and the address
/// at which producers reach it.
#[derive(Debug)]
pub struct Broker {
    pub id: u32,
    pub ip: String,
    pub port: u32,
}

/// The mathematical value of a `Broker`: two brokers are the same member of
/// a topic exactly when all three fields agree.
pub struct BrokerView {
    pub id: u32,
    pub ip: Seq<char>,
    pub port: u32,
}

impl View for Broker {
    type V = BrokerView;

    open spec fn view(&self) -> BrokerView {
        BrokerView { id: self.id, ip: self.ip@, port: self.port }
    }
}

impl Clone for Broker {
    fn clone(&self) -> (copy: Self)
        ensures
            copy@ == self@,
    {
        Broker { id: self.id, ip: self.ip.clone(), port: self.port }
    }
}

impl Broker {
    /// Whether two brokers are the same member of a topic.
    pub fn same_as(&self, other: &Broker) -> (same: bool)
        ensures
            same == (self@ == other@),
    {
        self.id == other.id && self.port == other.port && self.ip == other.ip
    }
}


/// The views of a sequence of brokers, in order.
pub open spec fn views(brokers: Seq<Broker>) -> Seq<BrokerView> {
    brokers.map_values(|b: Broker| b@)
}

/// The registry as a mathematical map: each known topic to the set of
/// brokers that hold it.
pub type TopicMap = Map<Seq<char>, Set<BrokerView>>;

/// Why a registry operation was refused.
#[derive(Debug, Clone, Copy, PartialEq, Eq, Structural)]
pub enum BrokerMapError {
    TopicNotFound,
    BrokerNotFound,
}

/// The text that the coordinator gives for each refusal.
pub open spec fn error_text(e: BrokerMapError) -> Seq<char> {
    match e {
        BrokerMapError::TopicNotFound => "Topic not found"@,
        BrokerMapError::BrokerNotFound => "Broker not found"@,
    }
}

impl BrokerMapError {
    /// The message that describes this refusal.
    pub fn message(&self) -> (text: &'static str)
        ensures
            text@ == error_text(*self),
    {
        match self {
            BrokerMapError::TopicNotFound => "Topic not found",
            BrokerMapError::BrokerNotFound => "Broker not found",
        }
    }
}

/// The registry after `broker` was registered for `topic`: the topic is
/// created if it was unknown, and the broker joins its set.
pub open spec fn registered(m: TopicMap, topic: Seq<char>, broker: BrokerView) -> TopicMap {
    if m.contains_key(topic) {
        m.insert(topic, m[topic].insert(broker))
    } else {
        m.insert(topic, Set::empty().insert(broker))
    }
}

/// What removing `broker` from `topic` gives: the new registry, or the
/// reason for the refusal. A topic whose last broker leaves stays known,
/// with an empty set.
pub open spec fn removal(m: TopicMap, topic: Seq<char>, broker: BrokerView) -> Result<TopicMap, BrokerMapError> {
    if !m.contains_key(topic) {
        Err(BrokerMapError::TopicNotFound)
    } else if !m[topic].contains(broker) {
        Err(BrokerMapError::BrokerNotFound)
    } else {
        Ok(m.insert(topic, m[topic].remove(broker)))
    }
}

/// The coordinator's registry of which brokers hold which topic.
///
/// Topics are kept in `topics`, and the brokers of `topics[i]` in
/// `members[i]`; no topic occurs twice, and no broker occurs twice in one
/// topic.
pub struct BrokerMap {
    topics: Vec<String>,
    members: Vec<Vec<Broker>>,
}

impl View for BrokerMap {
    type V = TopicMap;

    closed spec fn view(&self) -> TopicMap {
        Map::new(
            |t: Seq<char>| self.topic_seq().contains(t),
            |t: Seq<char>| self.member_seq(self.topic_seq().index_of(t)).to_set(),
        )
    }
}

/// Index of `broker` in `brokers`, if it occurs there.
fn find_member(brokers: &Vec<Broker>, broker: &Broker) -> (found: Option<usize>)
    ensures
        match found {
            Some(j) => j < brokers@.len() && brokers@[j as int]@ == broker@,
            None => !views(brokers@).contains(broker@),
        },
{
    let mut j: usize = 0;
    while j < brokers.len()
        invariant
            j <= brokers@.len(),
            forall|k: int| 0 <= k < j ==> brokers@[k]@ != broker@,
        decreases brokers@.len() - j,
    {
        if brokers[j].same_as(broker) {
            return Some(j);
        }
        j += 1;
    }
    None
}

impl BrokerMap {
    closed spec fn topic_seq(&self) -> Seq<Seq<char>> {
        self.topics@.map_values(|t: String| t@)
    }

    closed spec fn member_seq(&self, i: int) -> Seq<BrokerView> {
        views(self.members@[i]@)
    }

    /// The registry's internal invariant.
    pub closed spec fn wf(&self) -> bool {
        &&& self.topics@.len() == self.members@.len()
        &&& self.topic_seq().no_duplicates()
        &&& forall|i: int| 0 <= i < self.members@.len() ==> #[trigger] self.member_seq(i).no_duplicates()
    }

    proof fn lemma_view_at(&self, i: int)
        requires
            self.wf(),
            0 <= i < self.topics@.len(),
        ensures
            self@.contains_key(self.topic_seq()[i]),
            self@[self.topic_seq()[i]] == self.member_seq(i).to_set(),
    {
        let t = self.topic_seq()[i];
        assert(self.topic_seq().contains(t));
        let j = self.topic_seq().index_of(t);
        assert(self.topic_seq()[j] == t);
    }

    proof fn lemma_view_update(&self, old_map: &BrokerMap, i: int)
        requires
            old_map.wf(),
            self.wf(),
            self.topic_seq() == old_map.topic_seq(),
            0 <= i < old_map.topics@.len(),
            forall|k: int| 0 <= k < old_map.topics@.len() && k != i ==> self.member_seq(k) == old_map.member_seq(k),
        ensures
            self@ == old_map@.insert(old_map.topic_seq()[i], self.member_seq(i).to_set()),
    {
        let t = old_map.topic_seq()[i];
        self.lemma_view_at(i);
        assert forall|u: Seq<char>| #[trigger] self@.contains_key(u) <==> old_map@.insert(t, self.member_seq(i).to_set()).contains_key(u) by {}
        assert forall|u: Seq<char>| self@.contains_key(u) implies #[trigger] self@[u] == old_map@.insert(t, self.member_seq(i).to_set())[u] by {
            if u != t {
                let j = self.topic_seq().index_of(u);
                assert(self.topic_seq()[j] == u);
                self.lemma_view_at(j);
                old_map.lemma_view_at(j);
            }
        }
        assert(self@ =~= old_map@.insert(t, self.member_seq(i).to_set()));
    }

    proof fn lemma_view_push(&self, old_map: &BrokerMap)
        requires
            old_map.wf(),
            self.wf(),
            self.topics@.len() == old_map.topics@.len() + 1,
            self.topic_seq().drop_last() == old_map.topic_seq(),
            forall|k: int| 0 <= k < old_map.topics@.len() ==> self.member_seq(k) == old_map.member_seq(k),
        ensures
            self@ == old_map@.insert(self.topic_seq().last(), self.member_seq(old_map.topics@.len() as int).to_set()),
    {
        let n = old_map.topics@.len() as int;
        let t = self.topic_seq()[n];
        let target = old_map@.insert(t, self.member_seq(n).to_set());
        self.lemma_view_at(n);
        assert forall|u: Seq<char>| #[trigger] self@.contains_key(u) <==> target.contains_key(u) by {
            if self.topic_seq().contains(u) && u != t {
                let j = self.topic_seq().index_of(u);
                assert(old_map.topic_seq()[j] == u);
            }
            if old_map.topic_seq().contains(u) {
                let j = old_map.topic_seq().index_of(u);
                assert(self.topic_seq()[j] == u);
            }
        }
        assert forall|u: Seq<char>| self@.contains_key(u) implies #[trigger] self@[u] == target[u] by {
            if u != t {
                let j = self.topic_seq().index_of(u);
                assert(self.topic_seq()[j] == u);
                self.lemma_view_at(j);
                old_map.lemma_view_at(j);
            }
        }
        assert(self@ =~= target);
    }

    fn find_topic(&self, topic: &String) -> (found: Option<usize>)
        requires
            self.wf(),
        ensures
            match found {
                Some(i) => i < self.topics@.len() && self.topic_seq()[i as int] == topic@,
                None => !self@.contains_key(topic@),
            },
    {
        let mut i: usize = 0;
        while i < self.topics.len()
            invariant
                i <= self.topics@.len(),
                forall|j: int| 0 <= j < i ==> self.topic_seq()[j] != topic@,
            decreases self.topics@.len() - i,
        {
            if self.topics[i] == *topic {
                return Some(i);
            }
            i += 1;
        }
        None
    }

    /// Whether `topic` is known to the registry.
    pub fn has_topic(&self, topic: &String) -> (known: bool)
        requires
            self.wf(),
        ensures
            known == self@.contains_key(topic@),
    {
        match self.find_topic(topic) {
            Some(i) => {
                proof { self.lemma_view_at(i as int); }
                true
            },
            None => false,
        }
    }

    /// Registers `broker` as holding `topic`, creating the topic if it is
    /// new. Registering a broker twice changes nothing. It always succeeds.
    pub fn insert(&mut self, topic: String, broker: Broker) -> (result: Result<bool, BrokerMapError>)
        requires
            old(self).wf(),
        ensures
            final(self).wf(),
            final(self)@ == registered(old(self)@, topic@, broker@),
            result == Ok::<bool, BrokerMapError>(true),
    {
        let ghost old_map = *self;
        match self.find_topic(&topic) {
            Some(i) => {
                proof { old_map.lemma_view_at(i as int); }
                let mut set = self.members.remove(i);
                let ghost before = views(set@);
                match find_member(&set, &broker) {
                    None => {
                        set.push(broker);
                        proof {
                            assert(views(set@) =~= before.push(broker@));
                            before.lemma_push_to_set_commute(broker@);
                            assert(before == old_map.member_seq(i as int));
                            assert(old_map.member_seq(i as int).no_duplicates());
                            assert forall|a: int, b: int| 0 <= a < b < views(set@).len() implies views(set@)[a] != views(set@)[b] by {
                                if b == before.len() {
                                    assert(before.contains(before[a]));
                                }
                            }
                        }
                    },
                    Some(j) => {
                        proof {
                            assert(before[j as int] == broker@);
                            assert(before.to_set().contains(broker@));
                            assert(before.to_set() =~= before.to_set().insert(broker@));
                        }
                    },
                }
                proof {
                    assert(views(set@).no_duplicates());
                }
                self.members.insert(i, set);
                proof {
                    assert(self.members@ =~= old_map.members@.update(i as int, set));
                    assert(self.topic_seq() =~= old_map.topic_seq());
                    assert forall|k: int| 0 <= k < self.members@.len() implies #[trigger] self.member_seq(k).no_duplicates() by {
                        if k != i {
                            assert(self.member_seq(k) == old_map.member_seq(k));
                        }
                    }
                    self.lemma_view_update(&old_map, i as int);
                }
            },
            None => {
                self.topics.push(topic);
                let mut set: Vec<Broker> = Vec::new();
                set.push(broker);
                self.members.push(set);
                proof {
                    let n = old_map.topics@.len() as int;
                    assert(self.topic_seq() =~= old_map.topic_seq().push(topic@));
                    assert(self.topic_seq().drop_last() =~= old_map.topic_seq());
                    assert(views(set@) =~= seq![broker@]);
                    assert(self.member_seq(n) == seq![broker@]);
                    assert forall|k: int| 0 <= k < self.members@.len() implies #[trigger] self.member_seq(k).no_duplicates() by {
                        if k != n {
                            assert(self.member_seq(k) == old_map.member_seq(k));
                        }
                    }
                    assert forall|a: int, b: int| 0 <= a < b < self.topic_seq().len() implies self.topic_seq()[a] != self.topic_seq()[b] by {
                        if b == n {
                            assert(old_map.topic_seq()[a] == self.topic_seq()[a]);
                        }
                    }
                    self.lemma_view_push(&old_map);
                    assert(seq![broker@][0] == broker@);
                    assert(seq![broker@].to_set() =~= Set::empty().insert(broker@));
                }
            },
        }
        Ok(true)
    }

    /// Removes `broker` from `topic`. Refused, with nothing changed, when the
    /// topic is unknown or the broker does not hold it.
    pub fn remove(&mut self, topic: &String, broker: &Broker) -> (result: Result<(), BrokerMapError>)
        requires
            old(self).wf(),
        ensures
            final(self).wf(),
            match removal(old(self)@, topic@, broker@) {
                Ok(m) => result == Ok::<(), BrokerMapError>(()) && final(self)@ == m,
                Err(e) => result == Err::<(), BrokerMapError>(e) && final(self)@ == old(self)@,
            },
    {
        let ghost old_map = *self;
        match self.find_topic(topic) {
            None => Err(BrokerMapError::TopicNotFound),
            Some(i) => {
                proof { old_map.lemma_view_at(i as int); }
                match find_member(&self.members[i], broker) {
                    None => Err(BrokerMapError::BrokerNotFound),
                    Some(j) => {
                        let mut set = self.members.remove(i);
                        let ghost before = views(set@);
                        set.remove(j);
                        proof {
                            let after = views(set@);
                            assert(before == old_map.member_seq(i as int));
                            assert(old_map.member_seq(i as int).no_duplicates());
                            assert(before[j as int] == broker@);
                            assert(after =~= before.remove(j as int));
                            assert forall|a: int, b: int| 0 <= a < b < after.len() implies after[a] != after[b] by {
                                let a2 = if a < j { a } else { a + 1 };
                                let b2 = if b < j { b } else { b + 1 };
                                assert(after[a] == before[a2]);
                                assert(after[b] == before[b2]);
                            }
                            assert forall|x: BrokerView| #[trigger] after.to_set().contains(x) <==> before.to_set().remove(broker@).contains(x) by {
                                if after.contains(x) {
                                    let k = choose|k: int| 0 <= k < after.len() && after[k] == x;
                                    let k2 = if k < j { k } else { k + 1 };
                                    assert(before[k2] == x);
                                }
                                if before.contains(x) && x != broker@ {
                                    let k = choose|k: int| 0 <= k < before.len() && before[k] == x;
                                    assert(k != j);
                                    let k2 = if k < j { k } else { k - 1 };
                                    assert(after[k2] == x);
                                }
                            }
                            assert(after.to_set() =~= before.to_set().remove(broker@));
                        }
                        self.members.insert(i, set);
                        proof {
                            assert(self.members@ =~= old_map.members@.update(i as int, set));
                            assert(self.topic_seq() =~= old_map.topic_seq());
                            assert forall|k: int| 0 <= k < self.members@.len() implies #[trigger] self.member_seq(k).no_duplicates() by {
                                if k != i {
                                    assert(self.member_seq(k) == old_map.member_seq(k));
                                }
                            }
                            self.lemma_view_update(&old_map, i as int);
                        }
                        Ok(())
                    },
                }
            },
        }
    }

    /// The brokers that hold `topic`, each once, or a refusal when the
    /// topic is unknown.
    pub fn get_topic_brokers(&self, topic: &String) -> (result: Result<Vec<Broker>, BrokerMapError>)
        requires
            self.wf(),
        ensures
            match result {
                Ok(brokers) => {
                    &&& self@.contains_key(topic@)
                    &&& views(brokers@).no_duplicates()
                    &&& views(brokers@).to_set() == self@[topic@]
                },
                Err(e) => e == BrokerMapError::TopicNotFound && !self@.contains_key(topic@),
            },
    {
        match self.find_topic(topic) {
            None => Err(BrokerMapError::TopicNotFound),
            Some(i) => {
                proof { self.lemma_view_at(i as int); }
                let source = &self.members[i];
                let mut copy: Vec<Broker> = Vec::new();
                let mut k: usize = 0;
                while k < source.len()
                    invariant
                        k <= source@.len(),
                        copy@.len() == k,
                        forall|m: int| 0 <= m < k ==> #[trigger] copy@[m]@ == source@[m]@,
                    decreases source@.len() - k,
                {
                    copy.push(source[k].clone());
                    k += 1;
                }
                proof {
                    assert(views(copy@) =~= self.member_seq(i as int));
                }
                Ok(copy)
            },
        }
    }

    /// An empty registry.
    pub fn new() -> (map: Self)
        ensures
            map.wf(),
            map@ == TopicMap::empty(),
    {
        let map = BrokerMap { topics: Vec::new(), members: Vec::new() };
        assert(map@ =~= TopicMap::empty());
        map
    }
}

/// Registering the same broker for the same topic twice is the same as
/// registering it once.
pub proof fn lemma_register_idempotent(m: TopicMap, topic: Seq<char>, broker: BrokerView)
    ensures
        registered(registered(m, topic, broker), topic, broker) == registered(m, topic, broker),
{
    let once = registered(m, topic, broker);
    assert(once[topic].insert(broker) =~= once[topic]);
    assert(registered(once, topic, broker) =~= once);
}

/// After a registration the topic is known and the broker holds it, and
/// every other topic keeps exactly the brokers it had.
pub proof fn lemma_register_visible(m: TopicMap, topic: Seq<char>, broker: BrokerView, other: Seq<char>)
    ensures
        registered(m, topic, broker).contains_key(topic),
        registered(m, topic, broker)[topic].contains(broker),
        other != topic ==> (registered(m, topic, broker).contains_key(other) == m.contains_key(other)),
        other != topic && m.contains_key(other) ==> registered(m, topic, broker)[other] == m[other],
{
}

/// The order in which brokers register does not matter.
pub proof fn lemma_register_commutes(
    m: TopicMap,
    t1: Seq<char>,
    b1: BrokerView,
    t2: Seq<char>,
    b2: BrokerView,
)
    ensures
        registered(registered(m, t1, b1), t2, b2) == registered(registered(m, t2, b2), t1, b1),
{
    let left = registered(registered(m, t1, b1), t2, b2);
    let right = registered(registered(m, t2, b2), t1, b1);
    if t1 == t2 {
        if m.contains_key(t1) {
            assert(left[t1] =~= right[t1]);
        } else {
            assert(left[t1] =~= right[t1]);
        }
    }
    assert(left =~= right);
}

/// Removing a broker right after registering it succeeds; the topic keeps
/// the brokers it had before, minus this one, and a topic that the
/// registration created stays known with no brokers.
pub proof fn lemma_register_then_remove(m: TopicMap, topic: Seq<char>, broker: BrokerView)
    ensures
        removal(registered(m, topic, broker), topic, broker) == Ok::<TopicMap, BrokerMapError>(
            if m.contains_key(topic) {
                m.insert(topic, m[topic].remove(broker))
            } else {
                m.insert(topic, Set::empty())
            },
        ),
        m.contains_key(topic) && !m[topic].contains(broker) ==> removal(registered(m, topic, broker), topic, broker)
            == Ok::<TopicMap, BrokerMapError>(m),
{
    let after = registered(m, topic, broker);
    if m.contains_key(topic) {
        assert(after[topic].remove(broker) =~= m[topic].remove(broker));
        assert(after.insert(topic, after[topic].remove(broker)) =~= m.insert(topic, m[topic].remove(broker)));
        if !m[topic].contains(broker) {
            assert(m[topic].remove(broker) =~= m[topic]);
            assert(m.insert(topic, m[topic]) =~= m);
        }
    } else {
        assert(after[topic].remove(broker) =~= Set::<BrokerView>::empty());
        assert(after.insert(topic, after[topic].remove(broker)) =~= m.insert(topic, Set::empty()));
    }
}

/// A successful removal takes the broker out of its topic and leaves
/// every other topic as it was; a refused one names the missing part.
pub proof fn lemma_removal_outcome(m: TopicMap, topic: Seq<char>, broker: BrokerView, other: Seq<char>)
    ensures
        removal(m, topic, broker) is Err <==> !m.contains_key(topic) || !m[topic].contains(broker),
        removal(m, topic, broker) == Err::<TopicMap, BrokerMapError>(BrokerMapError::TopicNotFound) <==> !m.contains_key(topic),
        removal(m, topic, broker) matches Ok(after) ==> {
            &&& after.dom() == m.dom()
            &&& !after[topic].contains(broker)
            &&& other != topic ==> after[other] == m[other]
        },
{
    if let Ok(after) = removal(m, topic, broker) {
        assert(after.dom() =~= m.dom());
    }
}

} // verus!
