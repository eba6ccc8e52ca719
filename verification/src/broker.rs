//! The broker engine: client registry, topic-id allocation, the subscription
//! index, and the publish/subscribe/unsubscribe state machine.

use vstd::prelude::*;

use crate::packet::{
    clone_bytes, Address, ConnAck, Connect, Message, PubAck, Publish, RejectedReason, ReturnCode,
    SubAck, Subscribe, TopicNameOrId, UnsubAck, Unsubscribe,
};

verus! {

/// A registered client: a sequentially assigned id and the network address
/// it connected from.
#[derive(Debug, Clone, PartialEq, Eq)]
pub struct Client {
    pub client_id: u64,
    pub address: Address,
}

impl View for Client {
    type V = (u64, Seq<char>, u16);

    open spec fn view(&self) -> (u64, Seq<char>, u16) {
        (self.client_id, self.address.host@, self.address.port)
    }
}

impl Client {
    pub fn new(client_id: u64, address: Address) -> (c: Client)
        ensures
            c@ == (client_id, address.host@, address.port),
    {
        Client { client_id, address }
    }
}

/// The address part of a client's abstract value.
pub open spec fn addr_of(c: (u64, Seq<char>, u16)) -> (Seq<char>, u16) {
    (c.1, c.2)
}

/// The abstract value of a list of clients.
pub open spec fn clients_view(s: Seq<Client>) -> Seq<(u64, Seq<char>, u16)> {
    s.map_values(|c: Client| c@)
}

/// Whether some client in `s` has address `a`.
pub open spec fn contains_addr(s: Seq<(u64, Seq<char>, u16)>, a: (Seq<char>, u16)) -> bool {
    exists|i: int| 0 <= i < s.len() && addr_of(s[i]) == a
}

/// The concurrent map of the `dashmap` crate, the index's backing store;
/// opaque here, reached only through the wrappers below.
#[verifier::external_type_specification]
#[verifier::external_body]
#[verifier::reject_recursive_types(K)]
#[verifier::reject_recursive_types(V)]
#[verifier::reject_recursive_types(S)]
pub struct ExDashMap<K, V, S>(dashmap::DashMap<K, V, S>);

/// What the concurrent subscription table holds: for each topic id, the
/// clients subscribed to it, in subscription order.
pub uninterp spec fn index_contents(
    m: dashmap::DashMap<u16, Vec<Client>>,
) -> Map<u16, Seq<(u64, Seq<char>, u16)>>;

/// An index with no topics at all.
pub open spec fn empty_index() -> Map<u16, Seq<(u64, Seq<char>, u16)>> {
    Map::empty()
}

/// The subscription index, flat variant: topic id to subscriber list.  The
/// table allows per-key concurrent access, so publish traffic on one topic
/// never blocks traffic on another.
pub struct Subscriptions {
    subscription_list: dashmap::DashMap<u16, Vec<Client>>,
}

impl View for Subscriptions {
    type V = Map<u16, Seq<(u64, Seq<char>, u16)>>;

    closed spec fn view(&self) -> Map<u16, Seq<(u64, Seq<char>, u16)>> {
        index_contents(self.subscription_list)
    }
}

impl Subscriptions {
    /// Relies on `dashmap::DashMap::new`: makes an empty map.
    #[verifier::external_body]
    pub fn new() -> (s: Subscriptions)
        ensures
            s@ == empty_index(),
    {
        Subscriptions { subscription_list: dashmap::DashMap::new() }
    }

    /// Relies on `dashmap::DashMap::contains_key`: whether the map stores a
    /// value under this key.
    #[verifier::external_body]
    pub fn contains_topic(&self, topic: u16) -> (r: bool)
        ensures
            r == self@.dom().contains(topic),
    {
        self.subscription_list.contains_key(&topic)
    }

    /// Relies on `dashmap::DashMap::get`: returns the value stored under the
    /// key, if any; the list is cloned out of the map.
    #[verifier::external_body]
    fn get_list(&self, topic: u16) -> (r: Option<Vec<Client>>)
        ensures
            match r {
                Some(v) => index_contents(self.subscription_list).dom().contains(topic)
                    && clients_view(v@) == index_contents(self.subscription_list)[topic],
                None => !index_contents(self.subscription_list).dom().contains(topic),
            },
    {
        self.subscription_list.get(&topic).map(|e| e.value().clone())
    }

    /// Relies on `dashmap::DashMap::insert`: stores the value under the key,
    /// replacing what was there.
    #[verifier::external_body]
    fn put_list(&mut self, topic: u16, list: Vec<Client>)
        ensures
            index_contents(final(self).subscription_list) == index_contents(
                old(self).subscription_list,
            ).insert(topic, clients_view(list@)),
    {
        self.subscription_list.insert(topic, list);
    }

    /// Relies on `dashmap::DashMap::iter`: visits every key-value pair of
    /// the map exactly once, in no promised order; the subscriber lists are
    /// cloned out of the map.
    #[verifier::external_body]
    pub fn get_sub_list(&self) -> (r: Vec<(u16, Vec<Client>)>)
        ensures
            forall|i: int, j: int|
                0 <= i < j < r@.len() ==> (#[trigger] r@[i]).0 != (#[trigger] r@[j]).0,
            forall|i: int| 0 <= i < r@.len() ==> self@.dom().contains((#[trigger] r@[i]).0),
            forall|i: int|
                0 <= i < r@.len() ==> clients_view((#[trigger] r@[i]).1@) == self@[r@[i].0],
            forall|k: u16| #[trigger] self@.dom().contains(k) ==> listing_has_key(r@, k),
    {
        self.subscription_list.iter().map(|e| (*e.key(), e.value().clone())).collect()
    }

    /// Relies on `dashmap::DashMap::len`: how many key-value pairs the map
    /// stores (finitely many).
    #[verifier::external_body]
    pub fn topic_count(&self) -> (n: usize)
        ensures
            Some(n as int) == finite_size(self@),
    {
        self.subscription_list.len()
    }
}

/// Whether some pair in the listing carries this topic key.
pub open spec fn listing_has_key(s: Seq<(u16, Vec<Client>)>, k: u16) -> bool {
    exists|i: int| 0 <= i < s.len() && s[i].0 == k
}

/// The number of topics the index holds, where its key set is finite.
pub open spec fn finite_size(m: Map<u16, Seq<(u64, Seq<char>, u16)>>) -> Option<int> {
    if m.dom().finite() {
        Some(m.dom().len() as int)
    } else {
        None
    }
}

/// Every subscriber list in the index holds pairwise distinct addresses:
/// a client is subscribed to a topic at most once.
pub open spec fn index_wf(m: Map<u16, Seq<(u64, Seq<char>, u16)>>) -> bool {
    forall|t: u16| #[trigger] m.dom().contains(t) ==> distinct_addrs(m[t])
}

/// No two entries share an address.
pub open spec fn distinct_addrs(s: Seq<(u64, Seq<char>, u16)>) -> bool {
    forall|i: int, j: int| 0 <= i < j < s.len() ==> addr_of(s[i]) != addr_of(s[j])
}

/// The abstract state of a broker.
#[verifier::ext_equal]
pub ghost struct BrokerView {
    pub num_packets: u16,
    pub num_clients: u64,
    pub topic_counter: u32,
    pub clients: Seq<(u64, Seq<char>, u16)>,
    pub pairs: Seq<(Seq<char>, u16)>,
}

/// The abstract value of the name-to-id table.
pub open spec fn pairs_view(s: Seq<(String, u16)>) -> Seq<(Seq<char>, u16)> {
    s.map_values(|p: (String, u16)| (p.0@, p.1))
}

/// The broker: the client registry, the topic registry (name-to-id pairs and
/// the monotonic id allocation counter), and the packet counter that stamps
/// acknowledgment message ids.
pub struct MBroker {
    num_packets: u16,
    num_clients: u64,
    topic_counter: u32,
    client_list: Vec<Client>,
    topicname_id_pairs: Vec<(String, u16)>,
}

impl View for MBroker {
    type V = BrokerView;

    closed spec fn view(&self) -> BrokerView {
        BrokerView {
            num_packets: self.num_packets,
            num_clients: self.num_clients,
            topic_counter: self.topic_counter,
            clients: clients_view(self.client_list@),
            pairs: pairs_view(self.topicname_id_pairs@),
        }
    }
}

/// The broker's internal invariant: the client counter matches the list,
/// client ids are sequential from 1, no address is registered twice, topic
/// names and topic ids are each mapped at most once, and every assigned id
/// lies below the allocation counter.
pub open spec fn broker_wf(b: BrokerView) -> bool {
    &&& b.num_clients == b.clients.len()
    &&& forall|i: int| 0 <= i < b.clients.len() ==> (#[trigger] b.clients[i]).0 == i + 1
    &&& forall|i: int, j: int|
        0 <= i < j < b.clients.len() ==> addr_of(b.clients[i]) != addr_of(b.clients[j])
    &&& forall|i: int, j: int|
        0 <= i < j < b.pairs.len() ==> b.pairs[i].0 != b.pairs[j].0 && b.pairs[i].1 != b.pairs[j].1
    &&& forall|i: int| 0 <= i < b.pairs.len() ==> (#[trigger] b.pairs[i]).1 < b.topic_counter
    &&& b.topic_counter <= 65536
}

/// Whether a client with address `a` is registered.
pub open spec fn registered(clients: Seq<(u64, Seq<char>, u16)>, a: (Seq<char>, u16)) -> bool {
    exists|i: int| 0 <= i < clients.len() && addr_of(clients[i]) == a
}

/// The registered client with address `a` (unique under `broker_wf`).
pub open spec fn client_at(
    clients: Seq<(u64, Seq<char>, u16)>,
    a: (Seq<char>, u16),
) -> (u64, Seq<char>, u16) {
    clients[choose|i: int| 0 <= i < clients.len() && addr_of(clients[i]) == a]
}

proof fn lemma_free_id_exists(dom: Set<u16>, c: u32)
    requires
        dom.finite(),
        c + dom.len() < 65536,
    ensures
        exists|i: u16| c <= i && !dom.contains(i),
{
    if forall|i: u16| c <= i ==> #[trigger] dom.contains(i) {
        let ints = vstd::set_lib::set_int_range(c as int, 65536);
        vstd::set_lib::lemma_int_range(c as int, 65536);
        let f = |i: int| i as u16;
        let mapped = ints.map(f);
        assert forall|x: u16| #[trigger] mapped.contains(x) implies dom.contains(x) by {
            let i = choose|i: int| ints.contains(i) && f(i) == x;
            assert(c <= i < 65536);
            assert(x == i as u16);
            assert(c <= x);
        };
        assert(vstd::relations::injective_on(f, ints)) by {
            assert forall|i1: int, i2: int|
                ints.contains(i1) && ints.contains(i2) && #[trigger] f(i1) == #[trigger] f(
                    i2,
                ) implies i1 == i2 by {
                assert(0 <= i1 < 65536 && 0 <= i2 < 65536);
            };
        };
        vstd::set_lib::lemma_map_size(ints, mapped, f);
        vstd::set_lib::lemma_len_subset(mapped, dom);
        assert(65536 - c <= dom.len());
        assert(false);
    }
}

/// The acknowledgment counter after stamping one more packet.
pub open spec fn next_msg_id(c: u16) -> u16 {
    if c == 0xFFFF {
        0u16
    } else {
        (c + 1) as u16
    }
}

/// Whether the name table maps `name` to some id.
pub open spec fn pairs_contain(pairs: Seq<(Seq<char>, u16)>, name: Seq<char>) -> bool {
    exists|i: int| 0 <= i < pairs.len() && pairs[i].0 == name
}

/// The id the name table maps `name` to (unique under `broker_wf`).
pub open spec fn pair_id(pairs: Seq<(Seq<char>, u16)>, name: Seq<char>) -> u16 {
    pairs[choose|i: int| 0 <= i < pairs.len() && pairs[i].0 == name].1
}

/// The smallest candidate id at or above `c` that the subscription index
/// does not use (65536 when every id from `c` up is taken).
pub open spec fn first_free_from(dom: Set<u16>, c: int) -> int
    decreases 65536 - c when c <= 65536
{
    if c < 0 || c >= 65536 {
        65536
    } else if !dom.contains(c as u16) {
        c
    } else {
        first_free_from(dom, c + 1)
    }
}

proof fn lemma_first_free_from(dom: Set<u16>, c: int)
    requires
        0 <= c <= 65536,
        exists|i: u16| c <= i && !dom.contains(i),
    ensures
        ({
            let r = first_free_from(dom, c);
            &&& c <= r < 65536
            &&& !dom.contains(r as u16)
            &&& forall|j: int| c <= j < r ==> #[trigger] dom.contains(j as u16)
        }),
    decreases 65536 - c,
{
    let w = choose|i: u16| c <= i && !dom.contains(i);
    assert(c <= w < 65536);
    if dom.contains(c as u16) {
        assert(c + 1 <= w && !dom.contains(w));
        lemma_first_free_from(dom, c + 1);
    }
}

/// The id that resolving name `n` yields: the mapped id if the name is
/// known, else the first id at or above the counter that the index does
/// not use.
pub open spec fn resolved_id(b: BrokerView, dom: Set<u16>, n: Seq<char>) -> u16 {
    if pairs_contain(b.pairs, n) {
        pair_id(b.pairs, n)
    } else {
        first_free_from(dom, b.topic_counter as int) as u16
    }
}

/// The broker state after resolving name `n`: unchanged for a known name;
/// for a fresh name the new pair is recorded and the counter moves past the
/// assigned id.
pub open spec fn broker_after_resolve(b: BrokerView, dom: Set<u16>, n: Seq<char>) -> BrokerView {
    if pairs_contain(b.pairs, n) {
        b
    } else {
        BrokerView {
            pairs: b.pairs.push((n, resolved_id(b, dom, n))),
            topic_counter: (resolved_id(b, dom, n) + 1) as u32,
            ..b
        }
    }
}


/// The topic id echoed in a rejected subscribe acknowledgment: the id the
/// request named, or 0 for a request by name.
pub open spec fn rejected_topic_id(topic: TopicNameOrId) -> u16 {
    match topic {
        TopicNameOrId::Name(_) => 0u16,
        TopicNameOrId::Id(id) => id,
    }
}

/// Whether a subscribe request would have to allocate a fresh topic id.
pub open spec fn sub_needs_fresh_id(b: BrokerView, topic: TopicNameOrId) -> bool {
    match topic {
        TopicNameOrId::Name(n) => !pairs_contain(b.pairs, n@),
        TopicNameOrId::Id(_) => false,
    }
}

/// The topic id an accepted subscribe settles on.
pub open spec fn sub_topic_id(b: BrokerView, dom: Set<u16>, topic: TopicNameOrId) -> u16 {
    match topic {
        TopicNameOrId::Id(id) => id,
        TopicNameOrId::Name(n) => resolved_id(b, dom, n@),
    }
}

/// The broker state after the topic resolution a subscribe performs.
pub open spec fn broker_after_sub_resolve(
    b: BrokerView,
    dom: Set<u16>,
    topic: TopicNameOrId,
) -> BrokerView {
    match topic {
        TopicNameOrId::Id(_) => b,
        TopicNameOrId::Name(n) => broker_after_resolve(b, dom, n@),
    }
}

/// The subscription index after client `c` subscribes to topic `t`: a fresh
/// singleton list, the unchanged index when the client is already
/// subscribed, or the client appended to the topic's list.
pub open spec fn subscribe_index(
    m: Map<u16, Seq<(u64, Seq<char>, u16)>>,
    t: u16,
    c: (u64, Seq<char>, u16),
) -> Map<u16, Seq<(u64, Seq<char>, u16)>> {
    if !m.dom().contains(t) {
        m.insert(t, seq![c])
    } else if contains_addr(m[t], addr_of(c)) {
        m
    } else {
        m.insert(t, m[t].push(c))
    }
}

proof fn lemma_wf_same_registry(a: BrokerView, b: BrokerView)
    requires
        broker_wf(a),
        b.clients == a.clients,
        b.pairs == a.pairs,
        b.topic_counter == a.topic_counter,
        b.num_clients == a.num_clients,
    ensures
        broker_wf(b),
{
    assert forall|i: int| 0 <= i < b.clients.len() implies (#[trigger] b.clients[i]).0 == i
        + 1 by {
        assert(b.clients[i] == a.clients[i]);
    };
    assert forall|i: int, j: int| 0 <= i < j < b.clients.len() implies addr_of(b.clients[i])
        != addr_of(b.clients[j]) by {
        assert(b.clients[i] == a.clients[i]);
        assert(b.clients[j] == a.clients[j]);
    };
    assert forall|i: int, j: int| 0 <= i < j < b.pairs.len() implies b.pairs[i].0 != b.pairs[j].0
        && b.pairs[i].1 != b.pairs[j].1 by {
        assert(b.pairs[i] == a.pairs[i]);
        assert(b.pairs[j] == a.pairs[j]);
    };
    assert forall|i: int| 0 <= i < b.pairs.len() implies (#[trigger] b.pairs[i]).1
        < b.topic_counter by {
        assert(b.pairs[i] == a.pairs[i]);
    };
}

proof fn lemma_subscribe_index_wf(
    m: Map<u16, Seq<(u64, Seq<char>, u16)>>,
    t: u16,
    c: (u64, Seq<char>, u16),
)
    requires
        index_wf(m),
    ensures
        index_wf(subscribe_index(m, t, c)),
{
    let m2 = subscribe_index(m, t, c);
    assert forall|k: u16| #[trigger] m2.dom().contains(k) implies distinct_addrs(m2[k]) by {
        if k == t {
            if !m.dom().contains(t) {
                assert(m2[t] == seq![c]);
            } else if contains_addr(m[t], addr_of(c)) {
                assert(m2[t] == m[t]);
            } else {
                assert(m2[t] == m[t].push(c));
                let s = m[t];
                assert forall|i: int, j: int| 0 <= i < j < m2[t].len() implies addr_of(m2[t][i])
                    != addr_of(m2[t][j]) by {
                    if j < s.len() {
                        assert(addr_of(s[i]) != addr_of(s[j]));
                    } else {
                        if addr_of(s[i]) == addr_of(c) {
                            assert(contains_addr(s, addr_of(c)));
                        }
                    }
                };
            }
        } else {
            assert(m.dom().contains(k) && m2[k] == m[k]);
        }
    };
}


/// A copy of a client record.
fn clone_client(c: &Client) -> (r: Client)
    ensures
        r@ == c@,
{
    Client {
        client_id: c.client_id,
        address: Address { host: c.address.host.clone(), port: c.address.port },
    }
}

/// Whether some client in the list has this address.
fn list_contains_addr(list: &Vec<Client>, addr: &Address) -> (r: bool)
    ensures
        r == contains_addr(clients_view(list@), addr@),
{
    let n = list.len();
    let mut i: usize = 0;
    while i < n
        invariant
            n == list.len(),
            i <= n,
            forall|j: int| 0 <= j < i ==> addr_of(clients_view(list@)[j]) != addr@,
        decreases n - i,
    {
        proof {
            assert(clients_view(list@)[i as int] == list@[i as int]@);
        }
        if list[i].address.same_endpoint(addr) {
            return true;
        }
        i += 1;
    }
    false
}


/// The addresses a publish to topic `t` currently reaches.
pub open spec fn publish_recipients(
    m: Map<u16, Seq<(u64, Seq<char>, u16)>>,
    t: u16,
) -> Seq<(Seq<char>, u16)> {
    if m.dom().contains(t) {
        m[t].map_values(|c: (u64, Seq<char>, u16)| addr_of(c))
    } else {
        Seq::empty()
    }
}

/// The topic id an unsubscribe request names, if it resolves at all.
pub open spec fn unsub_topic(b: BrokerView, topic: TopicNameOrId) -> Option<u16> {
    match topic {
        TopicNameOrId::Id(id) => Some(id),
        TopicNameOrId::Name(n) => if pairs_contain(b.pairs, n@) {
            Some(pair_id(b.pairs, n@))
        } else {
            None
        },
    }
}

/// Whether the unsubscribe request names a topic whose list has an entry
/// for this address.
pub open spec fn unsub_ok(
    b: BrokerView,
    m: Map<u16, Seq<(u64, Seq<char>, u16)>>,
    topic: TopicNameOrId,
    a: (Seq<char>, u16),
) -> bool {
    match unsub_topic(b, topic) {
        Some(t) => m.dom().contains(t) && contains_addr(m[t], a),
        None => false,
    }
}

/// The list with the entry at address `a` removed.
pub open spec fn remove_addr(
    s: Seq<(u64, Seq<char>, u16)>,
    a: (Seq<char>, u16),
) -> Seq<(u64, Seq<char>, u16)> {
    s.remove(choose|i: int| 0 <= i < s.len() && addr_of(s[i]) == a)
}

/// The index after one entry for address `a` leaves topic `t`'s list; the
/// emptied list is left in place rather than pruned.
pub open spec fn unsub_index(
    m: Map<u16, Seq<(u64, Seq<char>, u16)>>,
    t: u16,
    a: (Seq<char>, u16),
) -> Map<u16, Seq<(u64, Seq<char>, u16)>> {
    if m.dom().contains(t) && contains_addr(m[t], a) {
        m.insert(t, remove_addr(m[t], a))
    } else {
        m
    }
}

proof fn lemma_remove_distinct(s: Seq<(u64, Seq<char>, u16)>, i: int)
    requires
        distinct_addrs(s),
        0 <= i < s.len(),
    ensures
        distinct_addrs(s.remove(i)),
{
    s.remove_ensures(i);
    let s2 = s.remove(i);
    assert forall|p: int, q: int| 0 <= p < q < s2.len() implies addr_of(s2[p]) != addr_of(
        s2[q],
    ) by {
        let p0: int = if p < i { p } else { p + 1 };
        let q0: int = if q < i { q } else { q + 1 };
        assert(s2[p] == s[p0]);
        assert(s2[q] == s[q0]);
        assert(addr_of(s[p0]) != addr_of(s[q0]));
    };
}

proof fn lemma_unsub_index_wf(
    m: Map<u16, Seq<(u64, Seq<char>, u16)>>,
    t: u16,
    a: (Seq<char>, u16),
)
    requires
        index_wf(m),
    ensures
        index_wf(unsub_index(m, t, a)),
{
    let m2 = unsub_index(m, t, a);
    if m.dom().contains(t) && contains_addr(m[t], a) {
        let i = choose|i: int| 0 <= i < m[t].len() && addr_of(m[t][i]) == a;
        assert(distinct_addrs(m[t]));
        lemma_remove_distinct(m[t], i);
        assert forall|k: u16| #[trigger] m2.dom().contains(k) implies distinct_addrs(m2[k]) by {
            if k != t {
                assert(m.dom().contains(k) && m2[k] == m[k]);
            }
        };
    }
}


/// The position of the entry with this address, if the list has one.
fn addr_index_in_list(list: &Vec<Client>, addr: &Address) -> (r: Option<usize>)
    ensures
        match r {
            Some(i) => i < list@.len() && addr_of(clients_view(list@)[i as int]) == addr@
                && contains_addr(clients_view(list@), addr@),
            None => !contains_addr(clients_view(list@), addr@),
        },
{
    let n = list.len();
    let mut i: usize = 0;
    while i < n
        invariant
            n == list.len(),
            i <= n,
            forall|j: int| 0 <= j < i ==> addr_of(clients_view(list@)[j]) != addr@,
        decreases n - i,
    {
        proof {
            assert(clients_view(list@)[i as int] == list@[i as int]@);
        }
        if list[i].address.same_endpoint(addr) {
            return Some(i);
        }
        i += 1;
    }
    None
}

impl MBroker {
    /// A fresh broker: no clients, no topics, acknowledgment ids counted
    /// from 2000 and topic ids handed out from 1 (0 stands for "no topic"
    /// in rejected acknowledgments).
    pub fn new() -> (b: MBroker)
        ensures
            broker_wf(b@),
            b@.num_packets == 2000,
            b@.num_clients == 0,
            b@.topic_counter == 1,
            b@.clients.len() == 0,
            b@.pairs.len() == 0,
    {
        let b = MBroker {
            num_packets: 2000,
            num_clients: 0,
            topic_counter: 1,
            client_list: Vec::new(),
            topicname_id_pairs: Vec::new(),
        };
        proof {
            assert(clients_view(b.client_list@) =~= Seq::<(u64, Seq<char>, u16)>::empty());
            assert(pairs_view(b.topicname_id_pairs@) =~= Seq::<(Seq<char>, u16)>::empty());
        }
        b
    }

    /// The index of the registered client with this address, if any.
    fn client_index(&self, addr: &Address) -> (r: Option<usize>)
        ensures
            match r {
                Some(i) => i < self@.clients.len() && addr_of(self@.clients[i as int]) == addr@
                    && registered(self@.clients, addr@),
                None => !registered(self@.clients, addr@),
            },
    {
        let n = self.client_list.len();
        let mut i: usize = 0;
        while i < n
            invariant
                n == self.client_list.len(),
                i <= n,
                forall|j: int| 0 <= j < i ==> addr_of(self@.clients[j]) != addr@,
            decreases n - i,
        {
            proof {
                assert(self@.clients[i as int] == self.client_list@[i as int]@);
            }
            if self.client_list[i].address.same_endpoint(addr) {
                return Some(i);
            }
            i += 1;
        }
        None
    }

    /// Whether a client with this address is registered.
    fn find_client_by_address(&self, addr: &Address) -> (r: bool)
        ensures
            r == registered(self@.clients, addr@),
    {
        self.client_index(addr).is_some()
    }


    /// The id already assigned to a topic name, if any.
    pub fn lookup_topic_id(&self, name: &String) -> (r: Option<u16>)
        requires
            broker_wf(self@),
        ensures
            match r {
                Some(id) => pairs_contain(self@.pairs, name@) && id == pair_id(self@.pairs, name@),
                None => !pairs_contain(self@.pairs, name@),
            },
    {
        let n = self.topicname_id_pairs.len();
        let mut i: usize = 0;
        while i < n
            invariant
                broker_wf(self@),
                n == self.topicname_id_pairs.len(),
                i <= n,
                forall|j: int| 0 <= j < i ==> self@.pairs[j].0 != name@,
            decreases n - i,
        {
            proof {
                assert(self@.pairs[i as int] == (
                    self.topicname_id_pairs@[i as int].0@,
                    self.topicname_id_pairs@[i as int].1,
                ));
            }
            if self.topicname_id_pairs[i].0 == *name {
                proof {
                    let pv = self@.pairs;
                    assert(pairs_contain(pv, name@));
                    let j = choose|j: int| 0 <= j < pv.len() && pv[j].0 == name@;
                    if j < i as int {
                        assert(pv[j].0 != pv[i as int].0);
                    } else if (i as int) < j {
                        assert(pv[i as int].0 != pv[j].0);
                    }
                }
                return Some(self.topicname_id_pairs[i].1);
            }
            i += 1;
        }
        None
    }

    /// Resolve a topic name to its id.  A known name keeps its id; a fresh
    /// name is assigned the first id, counting up from the monotonic
    /// allocation counter, that the subscription index does not use, and the
    /// counter moves past it.
    pub fn resolve_topic_id(&mut self, sub_list: &Subscriptions, name: &String) -> (id: u16)
        requires
            broker_wf(old(self)@),
            !pairs_contain(old(self)@.pairs, name@) ==> exists|i: u16|
                old(self)@.topic_counter <= i && !sub_list@.dom().contains(i),
        ensures
            broker_wf(final(self)@),
            id == resolved_id(old(self)@, sub_list@.dom(), name@),
            final(self)@ == broker_after_resolve(old(self)@, sub_list@.dom(), name@),
            pairs_contain(final(self)@.pairs, name@),
            pair_id(final(self)@.pairs, name@) == id,
    {
        match self.lookup_topic_id(name) {
            Some(id) => id,
            None => {
                let ghost b0 = self@;
                let ghost dom = sub_list@.dom();
                let ghost w: u16 = choose|i: u16| b0.topic_counter <= i && !dom.contains(i);
                let mut candidate: u32 = self.topic_counter;
                loop
                    invariant
                        *self == *old(self),
                        broker_wf(b0),
                        b0 == self@,
                        dom == sub_list@.dom(),
                        b0.topic_counter <= w && !dom.contains(w),
                        b0.topic_counter <= candidate <= w,
                        forall|j: int|
                            b0.topic_counter <= j < candidate ==> #[trigger] dom.contains(
                                j as u16,
                            ),
                    ensures
                        *self == *old(self),
                        b0.topic_counter <= candidate <= w,
                        !dom.contains(candidate as u16),
                        forall|j: int|
                            b0.topic_counter <= j < candidate ==> #[trigger] dom.contains(
                                j as u16,
                            ),
                    decreases w - candidate,
                {
                    let cu: u16 = candidate as u16;
                    if !sub_list.contains_topic(cu) {
                        break;
                    }
                    candidate = candidate + 1;
                }
                proof {
                    lemma_first_free_from(dom, b0.topic_counter as int);
                    let r = first_free_from(dom, b0.topic_counter as int);
                    if r < candidate {
                        assert(dom.contains(r as u16));
                    }
                    if candidate < r {
                        assert(dom.contains(candidate as u16));
                    }
                    assert(r == candidate);
                }
                let id: u16 = candidate as u16;
                let ghost old_pairs = self@.pairs;
                self.topicname_id_pairs.push((name.clone(), id));
                self.topic_counter = candidate + 1;
                proof {
                    let b1 = self@;
                    assert(b1.pairs =~= old_pairs.push((name@, id)));
                    assert forall|k: int, j: int| 0 <= k < j < b1.pairs.len() implies b1.pairs[k].0
                        != b1.pairs[j].0 && b1.pairs[k].1 != b1.pairs[j].1 by {
                        if j < b1.pairs.len() - 1 {
                            assert(b0.pairs[k].0 != b0.pairs[j].0);
                            assert(b0.pairs[k].1 != b0.pairs[j].1);
                        } else {
                            if b0.pairs[k].0 == name@ {
                                assert(pairs_contain(b0.pairs, name@));
                            }
                            assert(b0.pairs[k].1 < b0.topic_counter);
                        }
                    };
                    assert forall|k: int| 0 <= k < b1.pairs.len() implies (#[trigger] b1.pairs[k]).1
                        < b1.topic_counter by {
                        if k < b1.pairs.len() - 1 {
                            assert(b0.pairs[k].1 < b0.topic_counter);
                        }
                    };
                    assert(b1.pairs[old_pairs.len() as int] == (name@, id));
                    assert(pairs_contain(b1.pairs, name@));
                    let j = choose|j: int| 0 <= j < b1.pairs.len() && b1.pairs[j].0 == name@;
                    if j < b1.pairs.len() - 1 {
                        assert(b0.pairs[j].0 == name@);
                        assert(pairs_contain(b0.pairs, name@));
                    }
                    assert(pair_id(b1.pairs, name@) == id);
                    assert(b1 =~= broker_after_resolve(b0, dom, name@));
                }
                id
            },
        }
    }


    /// Subscribe a client to a topic.  A request from an unregistered
    /// address is rejected with `NotSupported`; otherwise the topic
    /// reference is resolved (allocating an id for a fresh name), the client
    /// is added to the topic's subscriber list unless it is already on it,
    /// and the assigned id is returned in an accepted acknowledgment.
    pub fn accept_sub(
        &mut self,
        addr: Address,
        packet: Subscribe,
        sub_list: &mut Subscriptions,
    ) -> (res: Message)
        requires
            broker_wf(old(self)@),
            index_wf(old(sub_list)@),
            (registered(old(self)@.clients, addr@) && sub_needs_fresh_id(
                old(self)@,
                packet.topic,
            )) ==> exists|i: u16|
                old(self)@.topic_counter <= i && !old(sub_list)@.dom().contains(i),
        ensures
            broker_wf(final(self)@),
            index_wf(final(sub_list)@),
            final(self)@.clients == old(self)@.clients,
            final(self)@.num_clients == old(self)@.num_clients,
            final(self)@.num_packets == next_msg_id(old(self)@.num_packets),
            !registered(old(self)@.clients, addr@) ==> {
                &&& res == Message::SubAck(
                    SubAck {
                        msg_id: packet.msg_id,
                        topic_id: rejected_topic_id(packet.topic),
                        code: ReturnCode::Rejected(RejectedReason::NotSupported),
                    },
                )
                &&& *final(sub_list) == *old(sub_list)
                &&& final(self)@.pairs == old(self)@.pairs
                &&& final(self)@.topic_counter == old(self)@.topic_counter
            },
            registered(old(self)@.clients, addr@) ==> ({
                let t = sub_topic_id(old(self)@, old(sub_list)@.dom(), packet.topic);
                let b1 = broker_after_sub_resolve(old(self)@, old(sub_list)@.dom(), packet.topic);
                &&& res == Message::SubAck(
                    SubAck { msg_id: packet.msg_id, topic_id: t, code: ReturnCode::Accepted },
                )
                &&& final(sub_list)@ == subscribe_index(
                    old(sub_list)@,
                    t,
                    client_at(old(self)@.clients, addr@),
                )
                &&& final(self)@.pairs == b1.pairs
                &&& final(self)@.topic_counter == b1.topic_counter
            }),
    {
        self.num_packets = if self.num_packets == 0xFFFFu16 {
            0
        } else {
            self.num_packets + 1
        };
        proof {
            lemma_wf_same_registry(old(self)@, self@);
        }
        let found = self.client_index(&addr);
        match found {
            None => {
                let topic_id = match &packet.topic {
                    TopicNameOrId::Name(_) => 0u16,
                    TopicNameOrId::Id(id) => *id,
                };
                Message::SubAck(
                    SubAck {
                        msg_id: packet.msg_id,
                        topic_id,
                        code: ReturnCode::Rejected(RejectedReason::NotSupported),
                    },
                )
            },
            Some(ci) => {
                let cli = clone_client(&self.client_list[ci]);
                proof {
                    let b0 = old(self)@;
                    let k = choose|i: int|
                        0 <= i < b0.clients.len() && addr_of(b0.clients[i]) == addr@;
                    if k != ci as int {
                        if k < ci as int {
                            assert(addr_of(b0.clients[k]) != addr_of(b0.clients[ci as int]));
                        } else {
                            assert(addr_of(b0.clients[ci as int]) != addr_of(b0.clients[k]));
                        }
                    }
                    assert(cli@ == client_at(b0.clients, addr@));
                }
                let topic: u16 = match &packet.topic {
                    TopicNameOrId::Id(id) => *id,
                    TopicNameOrId::Name(name) => self.resolve_topic_id(sub_list, name),
                };
                let ghost m0 = sub_list@;
                let entry = sub_list.get_list(topic);
                match entry {
                    Some(mut list) => {
                        if !list_contains_addr(&list, &addr) {
                            let ghost lv = clients_view(list@);
                            list.push(cli);
                            proof {
                                assert(clients_view(list@) =~= lv.push(cli@));
                            }
                            sub_list.put_list(topic, list);
                            proof {
                                assert(sub_list@ =~= subscribe_index(
                                    m0,
                                    topic,
                                    client_at(old(self)@.clients, addr@),
                                ));
                            }
                        } else {
                            proof {
                                assert(addr_of(client_at(old(self)@.clients, addr@)) == addr@);
                                assert(sub_list@ =~= subscribe_index(
                                    m0,
                                    topic,
                                    client_at(old(self)@.clients, addr@),
                                ));
                            }
                        }
                    },
                    None => {
                        let mut list: Vec<Client> = Vec::new();
                        list.push(cli);
                        proof {
                            assert(clients_view(list@) =~= seq![cli@]);
                        }
                        sub_list.put_list(topic, list);
                        proof {
                            assert(sub_list@ =~= subscribe_index(
                                m0,
                                topic,
                                client_at(old(self)@.clients, addr@),
                            ));
                        }
                    },
                }
                proof {
                    lemma_subscribe_index_wf(m0, topic, client_at(old(self)@.clients, addr@));
                }
                Message::SubAck(
                    SubAck { msg_id: packet.msg_id, topic_id: topic, code: ReturnCode::Accepted },
                )
            },
        }
    }


    /// Publish a payload.  The request is rejected with `NotSupported` for
    /// an unregistered source and with `InvalidTopicId` for a topic id the
    /// index has never seen; otherwise it is accepted and the result carries
    /// the address of every current subscriber of the topic.  The returned
    /// triple is the acknowledgment, the publish packet to fan out, and the
    /// recipients.
    pub fn accept_pub(
        &mut self,
        addr: Address,
        packet: Publish,
        sub_list: &Subscriptions,
    ) -> (res: (Message, Message, Vec<Address>))
        requires
            broker_wf(old(self)@),
        ensures
            broker_wf(final(self)@),
            final(self)@ == (BrokerView { num_packets: next_msg_id(old(self)@.num_packets), ..old(self)@ }),
            res.1 matches Message::Publish(q) && q.topic_id == packet.topic_id && q.msg_id
                == packet.msg_id && q.data@ == packet.data@,
            !registered(old(self)@.clients, addr@) ==> res.0 == Message::PubAck(
                PubAck {
                    topic_id: packet.topic_id,
                    msg_id: next_msg_id(old(self)@.num_packets),
                    code: ReturnCode::Rejected(RejectedReason::NotSupported),
                },
            ) && res.2@.len() == 0,
            (registered(old(self)@.clients, addr@) && !sub_list@.dom().contains(packet.topic_id))
                ==> res.0 == Message::PubAck(
                PubAck {
                    topic_id: packet.topic_id,
                    msg_id: next_msg_id(old(self)@.num_packets),
                    code: ReturnCode::Rejected(RejectedReason::InvalidTopicId),
                },
            ) && res.2@.len() == 0,
            (registered(old(self)@.clients, addr@) && sub_list@.dom().contains(packet.topic_id))
                ==> res.0 == Message::PubAck(
                PubAck {
                    topic_id: packet.topic_id,
                    msg_id: next_msg_id(old(self)@.num_packets),
                    code: ReturnCode::Accepted,
                },
            ) && res.2@.map_values(|a: Address| a@) == publish_recipients(
                sub_list@,
                packet.topic_id,
            ),
    {
        self.num_packets = if self.num_packets == 0xFFFFu16 {
            0
        } else {
            self.num_packets + 1
        };
        proof {
            lemma_wf_same_registry(old(self)@, self@);
            assert(self@ =~= (BrokerView { num_packets: next_msg_id(old(self)@.num_packets), ..old(self)@ }));
        }
        let topic_id = packet.topic_id;
        let msg_id = packet.msg_id;
        let pub_p = Message::Publish(
            Publish { topic_id, msg_id, data: clone_bytes(&packet.data) },
        );
        if !self.find_client_by_address(&addr) {
            let ack = Message::PubAck(
                PubAck {
                    topic_id,
                    msg_id: self.num_packets,
                    code: ReturnCode::Rejected(RejectedReason::NotSupported),
                },
            );
            return (ack, pub_p, Vec::new());
        }
        let mut ret_clients: Vec<Address> = Vec::new();
        match sub_list.get_list(topic_id) {
            Some(list) => {
                let ghost lv = clients_view(list@);
                let n = list.len();
                let mut i: usize = 0;
                while i < n
                    invariant
                        n == list.len(),
                        i <= n,
                        lv == clients_view(list@),
                        ret_clients@.len() == i,
                        forall|j: int|
                            0 <= j < i ==> #[trigger] ret_clients@[j]@ == addr_of(lv[j]),
                    decreases n - i,
                {
                    proof {
                        assert(lv[i as int] == list@[i as int]@);
                    }
                    let a = Address {
                        host: list[i].address.host.clone(),
                        port: list[i].address.port,
                    };
                    ret_clients.push(a);
                    i += 1;
                }
                proof {
                    assert(ret_clients@.map_values(|a: Address| a@) =~= lv.map_values(
                        |c: (u64, Seq<char>, u16)| addr_of(c),
                    ));
                }
                let ack = Message::PubAck(
                    PubAck { topic_id, msg_id: self.num_packets, code: ReturnCode::Accepted },
                );
                (ack, pub_p, ret_clients)
            },
            None => {
                let ack = Message::PubAck(
                    PubAck {
                        topic_id,
                        msg_id: self.num_packets,
                        code: ReturnCode::Rejected(RejectedReason::InvalidTopicId),
                    },
                );
                (ack, pub_p, ret_clients)
            },
        }
    }

    /// Drop one subscription.  The request is rejected with `NotSupported`
    /// for an unregistered source, and with `InvalidTopicId` when the topic
    /// reference does not resolve, the topic has no list, or the list has no
    /// entry for this address; otherwise the one entry for the address
    /// leaves the topic's list and the request is accepted.
    pub fn accept_unsub(
        &mut self,
        addr: Address,
        packet: Unsubscribe,
        sub_list: &mut Subscriptions,
    ) -> (res: Message)
        requires
            broker_wf(old(self)@),
            index_wf(old(sub_list)@),
        ensures
            broker_wf(final(self)@),
            index_wf(final(sub_list)@),
            final(self)@ == (BrokerView { num_packets: next_msg_id(old(self)@.num_packets), ..old(self)@ }),
            !registered(old(self)@.clients, addr@) ==> res == Message::UnsubAck(
                UnsubAck {
                    msg_id: next_msg_id(old(self)@.num_packets),
                    code: ReturnCode::Rejected(RejectedReason::NotSupported),
                },
            ) && *final(sub_list) == *old(sub_list),
            (registered(old(self)@.clients, addr@) && !unsub_ok(
                old(self)@,
                old(sub_list)@,
                packet.topic,
                addr@,
            )) ==> res == Message::UnsubAck(
                UnsubAck {
                    msg_id: next_msg_id(old(self)@.num_packets),
                    code: ReturnCode::Rejected(RejectedReason::InvalidTopicId),
                },
            ) && *final(sub_list) == *old(sub_list),
            (registered(old(self)@.clients, addr@) && unsub_ok(
                old(self)@,
                old(sub_list)@,
                packet.topic,
                addr@,
            )) ==> res == Message::UnsubAck(
                UnsubAck {
                    msg_id: next_msg_id(old(self)@.num_packets),
                    code: ReturnCode::Accepted,
                },
            ) && final(sub_list)@ == unsub_index(
                old(sub_list)@,
                unsub_topic(old(self)@, packet.topic).unwrap(),
                addr@,
            ),
    {
        self.num_packets = if self.num_packets == 0xFFFFu16 {
            0
        } else {
            self.num_packets + 1
        };
        proof {
            lemma_wf_same_registry(old(self)@, self@);
            assert(self@ =~= (BrokerView { num_packets: next_msg_id(old(self)@.num_packets), ..old(self)@ }));
        }
        if !self.find_client_by_address(&addr) {
            return Message::UnsubAck(
                UnsubAck {
                    msg_id: self.num_packets,
                    code: ReturnCode::Rejected(RejectedReason::NotSupported),
                },
            );
        }
        let topic_found: Option<u16> = match &packet.topic {
            TopicNameOrId::Id(id) => Some(*id),
            TopicNameOrId::Name(name) => self.lookup_topic_id(name),
        };
        let topic: u16 = match topic_found {
            Some(t) => t,
            None => {
                return Message::UnsubAck(
                    UnsubAck {
                        msg_id: self.num_packets,
                        code: ReturnCode::Rejected(RejectedReason::InvalidTopicId),
                    },
                );
            },
        };
        let ghost m0 = sub_list@;
        match sub_list.get_list(topic) {
            None => Message::UnsubAck(
                UnsubAck {
                    msg_id: self.num_packets,
                    code: ReturnCode::Rejected(RejectedReason::InvalidTopicId),
                },
            ),
            Some(mut list) => {
                match addr_index_in_list(&list, &addr) {
                    None => Message::UnsubAck(
                        UnsubAck {
                            msg_id: self.num_packets,
                            code: ReturnCode::Rejected(RejectedReason::InvalidTopicId),
                        },
                    ),
                    Some(i) => {
                        let ghost lv = clients_view(list@);
                        list.remove(i);
                        proof {
                            assert(clients_view(list@) =~= lv.remove(i as int));
                            let j = choose|j: int|
                                0 <= j < lv.len() && addr_of(lv[j]) == addr@;
                            if j != i as int {
                                assert(distinct_addrs(m0[topic]));
                                if j < i as int {
                                    assert(addr_of(lv[j]) != addr_of(lv[i as int]));
                                } else {
                                    assert(addr_of(lv[i as int]) != addr_of(lv[j]));
                                }
                            }
                            assert(lv.remove(i as int) == remove_addr(m0[topic], addr@));
                        }
                        sub_list.put_list(topic, list);
                        proof {
                            assert(sub_list@ =~= unsub_index(m0, topic, addr@));
                            lemma_unsub_index_wf(m0, topic, addr@);
                        }
                        Message::UnsubAck(
                            UnsubAck { msg_id: self.num_packets, code: ReturnCode::Accepted },
                        )
                    },
                }
            },
        }
    }


    /// Whether a fresh topic name can still be assigned an id: exactly when
    /// the counter's headroom in the 16-bit id space exceeds the number of
    /// topics the index uses, which guarantees a free id at or above the
    /// counter.
    pub fn can_allocate_topic(&self, sub_list: &Subscriptions) -> (r: bool)
        ensures
            r == (match finite_size(sub_list@) {
                Some(k) => self@.topic_counter < 65536 && self@.topic_counter + k < 65536,
                None => false,
            }),
            r ==> exists|i: u16|
                self@.topic_counter <= i && !sub_list@.dom().contains(i),
    {
        let count = sub_list.topic_count();
        let c = self.topic_counter;
        let r = count < 65536 && c < 65536 && (c as usize) + count < 65536;
        proof {
            if r {
                lemma_free_id_exists(sub_list@.dom(), c);
            }
        }
        r
    }

    /// The registered clients, in connection order.
    pub fn get_client_list(&self) -> (r: Vec<Client>)
        ensures
            clients_view(r@) == self@.clients,
    {
        let n = self.client_list.len();
        let mut r: Vec<Client> = Vec::new();
        let mut i: usize = 0;
        while i < n
            invariant
                n == self.client_list.len(),
                i <= n,
                clients_view(r@) == self@.clients.subrange(0, i as int),
            decreases n - i,
        {
            let ghost rv = clients_view(r@);
            proof {
                assert(self@.clients[i as int] == self.client_list@[i as int]@);
            }
            r.push(clone_client(&self.client_list[i]));
            proof {
                assert(clients_view(r@) =~= rv.push(self.client_list@[i as int]@));
                assert(clients_view(r@) =~= self@.clients.subrange(0, i + 1));
            }
            i += 1;
        }
        proof {
            assert(clients_view(r@) =~= self@.clients);
        }
        r
    }

    /// Connect a client.  A second connect from an already registered address
    /// is rejected with `Congestion`; otherwise the client is added to the
    /// registry under the next sequential id and the connect is accepted.
    pub fn accept_connect(&mut self, addr: Address, _connect_packet: Connect) -> (res: Message)
        requires
            broker_wf(old(self)@),
            old(self)@.clients.len() < u64::MAX,
        ensures
            broker_wf(final(self)@),
            final(self)@.pairs == old(self)@.pairs,
            final(self)@.topic_counter == old(self)@.topic_counter,
            registered(old(self)@.clients, addr@) ==> {
                &&& res == Message::ConnAck(
                    ConnAck { code: ReturnCode::Rejected(RejectedReason::Congestion) },
                )
                &&& *final(self) == *old(self)
            },
            !registered(old(self)@.clients, addr@) ==> {
                &&& res == Message::ConnAck(ConnAck { code: ReturnCode::Accepted })
                &&& final(self)@.clients == old(self)@.clients.push(
                    (((old(self)@.num_clients + 1) as u64), addr.host@, addr.port),
                )
                &&& final(self)@.num_clients == old(self)@.num_clients + 1
                &&& final(self)@.num_packets == next_msg_id(old(self)@.num_packets)
            },
    {
        if self.find_client_by_address(&addr) {
            return Message::ConnAck(
                ConnAck { code: ReturnCode::Rejected(RejectedReason::Congestion) },
            );
        }
        self.num_clients = self.num_clients + 1;
        let c = Client::new(self.num_clients, addr);
        let ghost old_clients = clients_view(self.client_list@);
        self.client_list.push(c);
        proof {
            assert(clients_view(self.client_list@) =~= old_clients.push(c@));
        }
        self.num_packets = if self.num_packets == 0xFFFFu16 {
            0
        } else {
            self.num_packets + 1
        };
        proof {
            let b0 = old(self)@;
            let b1 = self@;
            assert forall|k: int| 0 <= k < b1.clients.len() implies (#[trigger] b1.clients[k]).0
                == k + 1 by {
                if k < b0.clients.len() {
                    assert(b1.clients[k] == b0.clients[k]);
                }
            };
            assert forall|k: int, j: int| 0 <= k < j < b1.clients.len() implies addr_of(
                b1.clients[k],
            ) != addr_of(b1.clients[j]) by {
                if j < b0.clients.len() {
                    assert(addr_of(b0.clients[k]) != addr_of(b0.clients[j]));
                } else {
                    if addr_of(b0.clients[k]) == addr@ {
                        assert(registered(b0.clients, addr@));
                    }
                }
            };
            assert forall|k: int, j: int| 0 <= k < j < b1.pairs.len() implies b1.pairs[k].0
                != b1.pairs[j].0 && b1.pairs[k].1 != b1.pairs[j].1 by {
                assert(b1.pairs[k] == b0.pairs[k]);
                assert(b1.pairs[j] == b0.pairs[j]);
            };
            assert forall|k: int| 0 <= k < b1.pairs.len() implies (#[trigger] b1.pairs[k]).1
                < b1.topic_counter by {
                assert(b1.pairs[k] == b0.pairs[k]);
            };
        }
        Message::ConnAck(ConnAck { code: ReturnCode::Accepted })
    }
}

/// Resolving the same topic name twice yields the same id: once a name is
/// mapped, a later resolution returns the recorded id, whatever the
/// subscription index holds by then.
pub proof fn lemma_resolve_idempotent(b: BrokerView, dom1: Set<u16>, dom2: Set<u16>, n: Seq<char>)
    requires
        broker_wf(b),
    ensures
        ({
            let id1 = resolved_id(b, dom1, n);
            let b2 = broker_after_resolve(b, dom1, n);
            resolved_id(b2, dom2, n) == id1
        }),
{
    if !pairs_contain(b.pairs, n) {
        let id1 = resolved_id(b, dom1, n);
        let p2 = b.pairs.push((n, id1));
        assert(p2[b.pairs.len() as int] == (n, id1));
        assert(pairs_contain(p2, n));
        let j = choose|j: int| 0 <= j < p2.len() && p2[j].0 == n;
        if j < b.pairs.len() {
            assert(b.pairs[j] == p2[j]);
            assert(pairs_contain(b.pairs, n));
        }
        assert(pair_id(p2, n) == id1);
    }
}

/// Resolving two distinct, previously unmapped names, one after the other,
/// yields two distinct ids, whatever the subscription index holds at each
/// of the two calls (provided an id is still free each time).
pub proof fn lemma_resolve_distinct(
    b: BrokerView,
    dom1: Set<u16>,
    dom2: Set<u16>,
    n1: Seq<char>,
    n2: Seq<char>,
)
    requires
        broker_wf(b),
        n1 != n2,
        !pairs_contain(b.pairs, n1),
        !pairs_contain(b.pairs, n2),
        exists|i: u16| b.topic_counter <= i && !dom1.contains(i),
        exists|i: u16| resolved_id(b, dom1, n1) < i && !dom2.contains(i),
    ensures
        resolved_id(b, dom1, n1) != resolved_id(
            broker_after_resolve(b, dom1, n1),
            dom2,
            n2,
        ),
{
    lemma_first_free_from(dom1, b.topic_counter as int);
    let id1 = resolved_id(b, dom1, n1);
    let b2 = broker_after_resolve(b, dom1, n1);
    assert(b2.pairs == b.pairs.push((n1, id1)));
    if pairs_contain(b2.pairs, n2) {
        let j = choose|j: int| 0 <= j < b2.pairs.len() && b2.pairs[j].0 == n2;
        if j < b.pairs.len() {
            assert(b.pairs[j] == b2.pairs[j]);
            assert(pairs_contain(b.pairs, n2));
        }
        assert(false);
    }
    assert(b2.topic_counter == id1 + 1);
    lemma_first_free_from(dom2, id1 + 1);
}

/// A freshly allocated topic id is new on every side: it differs from every
/// id the subscription index uses and from every id the name table already
/// holds, so the name-to-id map stays injective as it grows.
pub proof fn lemma_fresh_id_unused(b: BrokerView, dom: Set<u16>, n: Seq<char>)
    requires
        broker_wf(b),
        !pairs_contain(b.pairs, n),
        exists|i: u16| b.topic_counter <= i && !dom.contains(i),
    ensures
        ({
            let id = resolved_id(b, dom, n);
            &&& !dom.contains(id)
            &&& forall|j: int| 0 <= j < b.pairs.len() ==> (#[trigger] b.pairs[j]).1 != id
        }),
{
    lemma_first_free_from(dom, b.topic_counter as int);
}

/// A successful unsubscribe removes exactly one entry, and a publish to the
/// topic afterwards no longer reaches the removed address.
pub proof fn lemma_unsub_excludes(
    m: Map<u16, Seq<(u64, Seq<char>, u16)>>,
    t: u16,
    a: (Seq<char>, u16),
)
    requires
        index_wf(m),
        m.dom().contains(t),
        contains_addr(m[t], a),
    ensures
        ({
            let m2 = unsub_index(m, t, a);
            &&& m2.dom().contains(t)
            &&& m2[t].len() == m[t].len() - 1
            &&& !contains_addr(m2[t], a)
            &&& !publish_recipients(m2, t).contains(a)
        }),
{
    let s = m[t];
    let i = choose|i: int| 0 <= i < s.len() && addr_of(s[i]) == a;
    s.remove_ensures(i);
    let m2 = unsub_index(m, t, a);
    let s2 = m2[t];
    assert(s2 == s.remove(i));
    assert(distinct_addrs(s));
    assert forall|j: int| 0 <= j < s2.len() implies addr_of(#[trigger] s2[j]) != a by {
        let j0: int = if j < i {
            j
        } else {
            j + 1
        };
        assert(s2[j] == s[j0]);
        if j0 < i {
            assert(addr_of(s[j0]) != addr_of(s[i]));
        } else {
            assert(addr_of(s[i]) != addr_of(s[j0]));
        }
    };
    if publish_recipients(m2, t).contains(a) {
        let j = choose|j: int|
            0 <= j < publish_recipients(m2, t).len() && publish_recipients(m2, t)[j] == a;
        assert(addr_of(s2[j]) == a);
    }
}

} // verus!
