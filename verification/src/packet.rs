//! The data the broker works on: client addresses, topic references and the
//! packets of the protocol (requests and their acknowledgments).

use vstd::prelude::*;

verus! {

/// A network endpoint, the identity key of a client: host and port.
#[derive(Debug, Clone, PartialEq, Eq)]
pub struct Address {
    pub host: String,
    pub port: u16,
}

impl View for Address {
    type V = (Seq<char>, u16);

    open spec fn view(&self) -> (Seq<char>, u16) {
        (self.host@, self.port)
    }
}

impl Address {
    pub fn new(host: String, port: u16) -> (a: Address)
        ensures
            a@ == (host@, port),
    {
        Address { host, port }
    }

    /// Whether two addresses name the same endpoint.
    pub fn same_endpoint(&self, other: &Address) -> (r: bool)
        ensures
            r == (self@ == other@),
    {
        self.host == other.host && self.port == other.port
    }
}

/// Why a request was rejected.
#[derive(Debug, Clone, Copy, PartialEq, Eq, Structural)]
pub enum RejectedReason {
    Congestion,
    InvalidTopicId,
    NotSupported,
}

/// The result code carried by every acknowledgment.
#[derive(Debug, Clone, Copy, PartialEq, Eq, Structural)]
pub enum ReturnCode {
    Accepted,
    Rejected(RejectedReason),
}

/// A topic reference as a request carries it: by name or by numeric id.
#[derive(Debug, Clone, PartialEq, Eq)]
pub enum TopicNameOrId {
    Name(String),
    Id(u16),
}

/// A connection request; the broker reads only the source address.
#[derive(Debug, Clone, PartialEq, Eq)]
pub struct Connect {
    pub duration: u16,
    pub client_id: String,
}

/// The acknowledgment of a `Connect`.
#[derive(Debug, Clone, Copy, PartialEq, Eq, Structural)]
pub struct ConnAck {
    pub code: ReturnCode,
}

/// A subscription request for a topic, by name or id.
#[derive(Debug, Clone, PartialEq, Eq)]
pub struct Subscribe {
    pub msg_id: u16,
    pub topic: TopicNameOrId,
}

/// The acknowledgment of a `Subscribe`, carrying the assigned topic id.
#[derive(Debug, Clone, Copy, PartialEq, Eq, Structural)]
pub struct SubAck {
    pub msg_id: u16,
    pub topic_id: u16,
    pub code: ReturnCode,
}

/// A publication: a payload for every subscriber of the topic id.
#[derive(Debug, Clone, PartialEq, Eq)]
pub struct Publish {
    pub topic_id: u16,
    pub msg_id: u16,
    pub data: Vec<u8>,
}

/// The acknowledgment of a `Publish`.
#[derive(Debug, Clone, Copy, PartialEq, Eq, Structural)]
pub struct PubAck {
    pub topic_id: u16,
    pub msg_id: u16,
    pub code: ReturnCode,
}

/// A request to drop one subscription.
#[derive(Debug, Clone, PartialEq, Eq)]
pub struct Unsubscribe {
    pub msg_id: u16,
    pub topic: TopicNameOrId,
}

/// The acknowledgment of an `Unsubscribe`.
#[derive(Debug, Clone, Copy, PartialEq, Eq, Structural)]
pub struct UnsubAck {
    pub msg_id: u16,
    pub code: ReturnCode,
}

/// The packets of the protocol, already decoded from the wire.
#[derive(Debug, Clone, PartialEq, Eq)]
pub enum Message {
    Connect(Connect),
    ConnAck(ConnAck),
    Subscribe(Subscribe),
    SubAck(SubAck),
    Publish(Publish),
    PubAck(PubAck),
    Unsubscribe(Unsubscribe),
    UnsubAck(UnsubAck),
}

/// A copy of a byte payload.
pub fn clone_bytes(v: &Vec<u8>) -> (r: Vec<u8>)
    ensures
        r@ == v@,
{
    let n = v.len();
    let mut r: Vec<u8> = Vec::new();
    let mut i: usize = 0;
    while i < n
        invariant
            n == v.len(),
            i <= n,
            r@ == v@.subrange(0, i as int),
        decreases n - i,
    {
        r.push(v[i]);
        proof {
            assert(r@ =~= v@.subrange(0, i + 1));
        }
        i += 1;
    }
    proof {
        assert(r@ =~= v@);
    }
    r
}

} // verus!
