//! The decision core of the packet dispatch loop: given one decoded packet
//! and its source address, drive the broker and say which packets go back to
//! which addresses.  Receiving, decoding, encoding and sending stay with the
//! caller.

use vstd::prelude::*;

use crate::broker::{
    addr_of, broker_wf, index_wf, next_msg_id, publish_recipients, registered, sub_needs_fresh_id,
    sub_topic_id, subscribe_index, unsub_index, unsub_ok, unsub_topic, broker_after_sub_resolve,
    client_at, rejected_topic_id, BrokerView, MBroker, Subscriptions,
};
use crate::packet::{
    clone_bytes, Address, ConnAck, Message, Publish, RejectedReason, ReturnCode, SubAck, UnsubAck,
};

verus! {

/// Route one decoded packet through the broker.  The result lists every
/// (recipient, packet) pair the caller should send: one acknowledgment to
/// the source for a connect, subscribe or unsubscribe, and for an accepted
/// publish a copy of the publish packet for every current subscriber of the
/// topic (best-effort fan-out; no acknowledgment, and a rejected publish
/// sends nothing).  An acknowledgment packet arriving at the broker is
/// dropped rather than answered, so one stray datagram never stops the
/// loop.
pub fn dispatch_packet(
    broker: &mut MBroker,
    sub_list: &mut Subscriptions,
    source: Address,
    msg: Message,
) -> (out: Vec<(Address, Message)>)
    requires
        broker_wf(old(broker)@),
        index_wf(old(sub_list)@),
        msg matches Message::Connect(_) ==> old(broker)@.clients.len() < u64::MAX,
        (msg matches Message::Subscribe(p) && registered(old(broker)@.clients, source@)
            && sub_needs_fresh_id(old(broker)@, p.topic)) ==> exists|i: u16|
            old(broker)@.topic_counter <= i && !old(sub_list)@.dom().contains(i),
    ensures
        broker_wf(final(broker)@),
        index_wf(final(sub_list)@),
        msg matches Message::Connect(_) ==> {
            &&& out@.len() == 1
            &&& out@[0].0 == source
            &&& out@[0].1 == Message::ConnAck(
                ConnAck {
                    code: if registered(old(broker)@.clients, source@) {
                        ReturnCode::Rejected(RejectedReason::Congestion)
                    } else {
                        ReturnCode::Accepted
                    },
                },
            )
            &&& registered(final(broker)@.clients, source@)
            &&& final(broker)@.pairs == old(broker)@.pairs
            &&& final(broker)@.topic_counter == old(broker)@.topic_counter
            &&& registered(old(broker)@.clients, source@) ==> *final(broker) == *old(broker)
            &&& !registered(old(broker)@.clients, source@) ==> {
                &&& final(broker)@.clients == old(broker)@.clients.push(
                    (((old(broker)@.num_clients + 1) as u64), source.host@, source.port),
                )
                &&& final(broker)@.num_clients == old(broker)@.num_clients + 1
                &&& final(broker)@.num_packets == next_msg_id(old(broker)@.num_packets)
            }
            &&& *final(sub_list) == *old(sub_list)
        },
        msg matches Message::Subscribe(p) ==> ({
            let t = sub_topic_id(old(broker)@, old(sub_list)@.dom(), p.topic);
            &&& out@.len() == 1
            &&& out@[0].0 == source
            &&& final(broker)@.clients == old(broker)@.clients
            &&& final(broker)@.num_clients == old(broker)@.num_clients
            &&& final(broker)@.num_packets == next_msg_id(old(broker)@.num_packets)
            &&& !registered(old(broker)@.clients, source@) ==> {
                &&& out@[0].1 == Message::SubAck(
                    SubAck {
                        msg_id: p.msg_id,
                        topic_id: rejected_topic_id(p.topic),
                        code: ReturnCode::Rejected(RejectedReason::NotSupported),
                    },
                )
                &&& *final(sub_list) == *old(sub_list)
                &&& final(broker)@.pairs == old(broker)@.pairs
                &&& final(broker)@.topic_counter == old(broker)@.topic_counter
            }
            &&& registered(old(broker)@.clients, source@) ==> {
                &&& out@[0].1 == Message::SubAck(
                    SubAck { msg_id: p.msg_id, topic_id: t, code: ReturnCode::Accepted },
                )
                &&& final(sub_list)@ == subscribe_index(
                    old(sub_list)@,
                    t,
                    client_at(old(broker)@.clients, source@),
                )
                &&& final(broker)@.pairs == broker_after_sub_resolve(
                    old(broker)@,
                    old(sub_list)@.dom(),
                    p.topic,
                ).pairs
                &&& final(broker)@.topic_counter == broker_after_sub_resolve(
                    old(broker)@,
                    old(sub_list)@.dom(),
                    p.topic,
                ).topic_counter
            }
        }),
        msg matches Message::Unsubscribe(p) ==> {
            &&& out@.len() == 1
            &&& out@[0].0 == source
            &&& final(broker)@ == (BrokerView {
                num_packets: next_msg_id(old(broker)@.num_packets),
                ..old(broker)@
            })
            &&& out@[0].1 == Message::UnsubAck(
                UnsubAck {
                    msg_id: next_msg_id(old(broker)@.num_packets),
                    code: if !registered(old(broker)@.clients, source@) {
                        ReturnCode::Rejected(RejectedReason::NotSupported)
                    } else if !unsub_ok(old(broker)@, old(sub_list)@, p.topic, source@) {
                        ReturnCode::Rejected(RejectedReason::InvalidTopicId)
                    } else {
                        ReturnCode::Accepted
                    },
                },
            )
            &&& (registered(old(broker)@.clients, source@) && unsub_ok(
                old(broker)@,
                old(sub_list)@,
                p.topic,
                source@,
            )) ==> final(sub_list)@ == unsub_index(
                old(sub_list)@,
                unsub_topic(old(broker)@, p.topic).unwrap(),
                source@,
            )
            &&& (!registered(old(broker)@.clients, source@) || !unsub_ok(
                old(broker)@,
                old(sub_list)@,
                p.topic,
                source@,
            )) ==> *final(sub_list) == *old(sub_list)
        },
        msg matches Message::Publish(p) ==> {
            &&& *final(sub_list) == *old(sub_list)
            &&& final(broker)@ == (BrokerView {
                num_packets: next_msg_id(old(broker)@.num_packets),
                ..old(broker)@
            })
            &&& (!registered(old(broker)@.clients, source@) || !old(sub_list)@.dom().contains(
                p.topic_id,
            )) ==> out@.len() == 0
            &&& (registered(old(broker)@.clients, source@) && old(sub_list)@.dom().contains(
                p.topic_id,
            )) ==> {
                &&& out@.len() == publish_recipients(old(sub_list)@, p.topic_id).len()
                &&& forall|i: int|
                    0 <= i < out@.len() ==> ({
                        &&& (#[trigger] out@[i]).0@ == publish_recipients(
                            old(sub_list)@,
                            p.topic_id,
                        )[i]
                        &&& out@[i].1 matches Message::Publish(q) && q.topic_id == p.topic_id
                            && q.msg_id == p.msg_id && q.data@ == p.data@
                    })
            }
        },
        (msg matches Message::ConnAck(_) || msg matches Message::SubAck(_) || msg matches
            Message::PubAck(_) || msg matches Message::UnsubAck(_)) ==> {
            &&& out@.len() == 0
            &&& *final(broker) == *old(broker)
            &&& *final(sub_list) == *old(sub_list)
        },
{
    let mut out: Vec<(Address, Message)> = Vec::new();
    match msg {
        Message::Connect(p) => {
            let reply = broker.accept_connect(
                Address { host: source.host.clone(), port: source.port },
                p,
            );
            proof {
                let b0 = old(broker)@;
                let b1 = broker@;
                if !registered(b0.clients, source@) {
                    assert(addr_of(b1.clients[b0.clients.len() as int]) == source@);
                    assert(registered(b1.clients, source@));
                }
            }
            out.push((source, reply));
        },
        Message::Subscribe(p) => {
            let reply = broker.accept_sub(
                Address { host: source.host.clone(), port: source.port },
                p,
                sub_list,
            );
            out.push((source, reply));
        },
        Message::Unsubscribe(p) => {
            let reply = broker.accept_unsub(
                Address { host: source.host.clone(), port: source.port },
                p,
                sub_list,
            );
            out.push((source, reply));
        },
        Message::Publish(p) => {
            let res = broker.accept_pub(
                Address { host: source.host.clone(), port: source.port },
                p,
                sub_list,
            );
            let recipients = res.2;
            match res.1 {
                Message::Publish(q) => {
                    let ghost rv = recipients@;
                    let n = recipients.len();
                    let mut i: usize = 0;
                    while i < n
                        invariant
                            n == recipients.len(),
                            i <= n,
                            rv == recipients@,
                            out@.len() == i,
                            forall|j: int|
                                0 <= j < i ==> ({
                                    &&& (#[trigger] out@[j]).0 == rv[j]
                                    &&& out@[j].1 matches Message::Publish(e) && e.topic_id
                                        == q.topic_id && e.msg_id == q.msg_id && e.data@ == q.data@
                                }),
                        decreases n - i,
                    {
                        let a = Address {
                            host: recipients[i].host.clone(),
                            port: recipients[i].port,
                        };
                        proof {
                            assert(a == rv[i as int]);
                        }
                        let copy = Message::Publish(
                            Publish {
                                topic_id: q.topic_id,
                                msg_id: q.msg_id,
                                data: clone_bytes(&q.data),
                            },
                        );
                        out.push((a, copy));
                        i += 1;
                    }
                },
                _ => {},
            }
        },
        _ => {},
    }
    out
}

} // verus!
