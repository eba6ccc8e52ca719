use composite_broker::broker::{Client, MBroker, Subscriptions};
use composite_broker::packet::{
    Address, Connect, Message, Publish, RejectedReason, ReturnCode, Subscribe, TopicNameOrId,
    Unsubscribe,
};

fn addr() -> Address {
    Address::new("127.0.0.1".to_string(), 7878)
}

fn addr2() -> Address {
    Address::new("192.0.0.1".to_string(), 7777)
}

fn connect(client_id: &str) -> Connect {
    Connect { duration: 30, client_id: client_id.to_string() }
}

fn sub_by_name(msg_id: u16, name: &str) -> Subscribe {
    Subscribe { msg_id, topic: TopicNameOrId::Name(name.to_string()) }
}

fn sub_by_id(msg_id: u16, id: u16) -> Subscribe {
    Subscribe { msg_id, topic: TopicNameOrId::Id(id) }
}

#[test]
fn test_new_client1() {
    let mut broker = MBroker::new();
    let conn_p = connect("1004");
    let res = broker.accept_connect(addr(), conn_p);
    match res {
        Message::ConnAck(p) => {
            assert_eq!(p.code, ReturnCode::Accepted);
        }
        _ => {}
    }
}

#[test]
fn test_new_client2() {
    let mut broker = MBroker::new();
    let conn_p1 = connect("1004");
    let conn_p2 = connect("1005");
    let r1 = broker.accept_connect(addr(), conn_p1);
    let r2 = broker.accept_connect(addr(), conn_p2);
    match r1 {
        Message::ConnAck(p) => {
            assert_eq!(p.code, ReturnCode::Accepted);
        }
        _ => {}
    }
    match r2 {
        Message::ConnAck(p) => {
            assert_eq!(p.code, ReturnCode::Rejected(RejectedReason::Congestion));
        }
        _ => {}
    }
}

#[test]
fn test_new_sub_id() {
    let mut sub_list = Subscriptions::new();
    let mut broker = MBroker::new();
    broker.accept_connect(addr(), connect("1004"));
    let res = broker.accept_sub(addr(), sub_by_id(01, 01), &mut sub_list);
    match res {
        Message::SubAck(p) => {
            assert_eq!(p.code, ReturnCode::Accepted);
        }
        _ => {
            panic!("Error: didn't receive ack packet");
        }
    }
}

#[test]
fn test_new_sub_name() {
    let mut sub_list = Subscriptions::new();
    let mut broker = MBroker::new();
    broker.accept_connect(addr(), connect("1004"));
    let res = broker.accept_sub(addr(), sub_by_name(01, "01"), &mut sub_list);
    match res {
        Message::SubAck(p) => {
            assert_eq!(p.code, ReturnCode::Accepted);
        }
        _ => {
            panic!("Error: didn't receive ack packet");
        }
    }
}

#[test]
fn test_multiple_subs_names_ids() {
    let mut sub_list = Subscriptions::new();
    let mut broker = MBroker::new();
    broker.accept_connect(addr(), connect("1004"));
    let res1 = broker.accept_sub(addr(), sub_by_name(01, "01"), &mut sub_list);
    let res2 = broker.accept_sub(addr(), sub_by_id(01, 01), &mut sub_list);
    match res1 {
        Message::SubAck(p) => {
            println!("Sub for \"01\" Topic id: {}", p.topic_id);
            assert_eq!(p.code, ReturnCode::Accepted);
        }
        _ => {
            panic!("Error: didn't receive ack packet");
        }
    }
    match res2 {
        Message::SubAck(p) => {
            println!("Sub for 01 Topic id: {}", p.topic_id);
            assert_eq!(p.code, ReturnCode::Accepted);
        }
        _ => {
            panic!("Error: didn't receive ack packet");
        }
    }
}

#[test]
fn test_multiple_subs_gwu() {
    let mut sub_list = Subscriptions::new();
    let mut broker = MBroker::new();
    broker.accept_connect(addr(), connect("1004"));
    let r1 = broker.accept_sub(addr(), sub_by_name(01, "seas"), &mut sub_list);
    match r1 {
        Message::SubAck(p) => {
            println!("Sub for seas Topic id: {}", p.topic_id);
            assert_eq!(p.code, ReturnCode::Accepted);
        }
        _ => {
            panic!("Error: didn't receive ack packet");
        }
    }
    let r2 = broker.accept_sub(addr(), sub_by_name(02, "ccas"), &mut sub_list);
    match r2 {
        Message::SubAck(p) => {
            println!("Sub for ccas Topic id: {}", p.topic_id);
            assert_eq!(p.code, ReturnCode::Accepted);
        }
        _ => {
            panic!("Error: didn't receive ack packet");
        }
    }
    let r3 = broker.accept_sub(addr(), sub_by_name(02, "elliot"), &mut sub_list);
    match r3 {
        Message::SubAck(p) => {
            println!("Sub for elliot Topic id: {}", p.topic_id);
            assert_eq!(p.code, ReturnCode::Accepted);
        }
        _ => {
            panic!("Error: didn't receive ack packet");
        }
    }
}

#[test]
fn test_multiple_subs_unis() {
    let mut sub_list = Subscriptions::new();
    let mut broker = MBroker::new();
    broker.accept_connect(addr(), connect("1004"));
    let r1 = broker.accept_sub(addr(), sub_by_name(01, "gwu"), &mut sub_list);
    match r1 {
        Message::SubAck(p) => {
            println!("Sub for gwu Topic id: {}", p.topic_id);
            assert_eq!(p.code, ReturnCode::Accepted);
        }
        _ => {
            panic!("Error: didn't receive ack packet");
        }
    }
    let r2 = broker.accept_sub(addr(), sub_by_name(02, "udel"), &mut sub_list);
    match r2 {
        Message::SubAck(p) => {
            println!("Sub for udel Topic id: {}", p.topic_id);
            assert_eq!(p.code, ReturnCode::Accepted);
        }
        _ => {
            panic!("Error: didn't receive ack packet");
        }
    }
    let r3 = broker.accept_sub(addr(), sub_by_name(03, "uwm"), &mut sub_list);
    match r3 {
        Message::SubAck(p) => {
            println!("Sub for uwm Topic id: {}", p.topic_id);
            assert_eq!(p.code, ReturnCode::Accepted);
        }
        _ => {
            panic!("Error: didn't receive ack packet");
        }
    }
}

#[test]
fn test_new_pub() {
    let mut sub_list = Subscriptions::new();
    let mut broker = MBroker::new();
    broker.accept_connect(addr(), connect("1004"));
    let sub_ret = broker.accept_sub(addr(), sub_by_name(01, "gwu"), &mut sub_list);
    let topic = match sub_ret {
        Message::SubAck(p) => p.topic_id,
        _ => 0,
    };
    let pub_p = Publish { topic_id: topic, msg_id: 02, data: b"George Washington".to_vec() };
    let res = broker.accept_pub(addr(), pub_p, &sub_list);
    match res.0 {
        Message::PubAck(p) => {
            assert_eq!(p.code, ReturnCode::Accepted);
        }
        _ => {
            panic!("Error: didn't receive ack packet");
        }
    }
    match res.1 {
        Message::Publish(p) => {
            println!("Published data: {:?}", p.data);
            assert_eq!(p.topic_id, topic);
        }
        _ => {
            panic!("Error didn't receive ")
        }
    }
    println!("{:?}", res.2);
}

#[test]
fn test_new_pub_2clients() {
    let mut sub_list = Subscriptions::new();
    let mut broker = MBroker::new();
    broker.accept_connect(addr(), connect("1004"));
    broker.accept_connect(addr2(), connect("1005"));
    let sub_ret = broker.accept_sub(addr(), sub_by_name(01, "gwu"), &mut sub_list);
    let topic = match sub_ret {
        Message::SubAck(p) => p.topic_id,
        _ => 0,
    };
    let pub_p = Publish {
        topic_id: topic,
        msg_id: 02,
        data: b"George Washington University".to_vec(),
    };
    let res = broker.accept_pub(addr2(), pub_p, &sub_list);
    match res.0 {
        Message::PubAck(p) => {
            assert_eq!(p.code, ReturnCode::Accepted);
        }
        _ => {
            panic!("Error: didn't receive ack packet");
        }
    }
    match res.1 {
        Message::Publish(p) => {
            println!("Published data: {:?}", p.data);
            assert_eq!(p.topic_id, topic);
        }
        _ => {
            panic!("Error: publish packet not returned")
        }
    }
    println!("{:?}", res.2);
}

#[test]
fn test_unsub() {
    let mut sub_list = Subscriptions::new();
    let mut broker = MBroker::new();
    broker.accept_connect(addr(), connect("1004"));
    println!("Subscribing...");
    let sub_ret = broker.accept_sub(addr(), sub_by_name(01, "gwu"), &mut sub_list);
    let topic = match sub_ret {
        Message::SubAck(p) => p.topic_id,
        _ => 0,
    };
    let unsub_p = Unsubscribe { msg_id: 02, topic: TopicNameOrId::Id(topic) };
    let unsub_ret = broker.accept_unsub(addr(), unsub_p, &mut sub_list);
    match unsub_ret {
        Message::UnsubAck(p) => {
            assert_eq!(p.code, ReturnCode::Accepted);
        }
        _ => {
            panic!("Error: didn't receive ack packet");
        }
    }
}

#[test]
fn test_unsub_invalid() {
    let mut sub_list = Subscriptions::new();
    let mut broker = MBroker::new();
    broker.accept_connect(addr(), connect("1004"));
    let sub_ret = broker.accept_sub(addr(), sub_by_name(01, "gwu"), &mut sub_list);
    let topic = match sub_ret {
        Message::SubAck(p) => p.topic_id + 1,
        _ => 0,
    };
    let unsub_p = Unsubscribe { msg_id: 02, topic: TopicNameOrId::Id(topic) };
    let unsub_ret = broker.accept_unsub(addr(), unsub_p, &mut sub_list);
    match unsub_ret {
        Message::UnsubAck(p) => {
            assert_eq!(p.code, ReturnCode::Rejected(RejectedReason::InvalidTopicId));
        }
        _ => {
            panic!("Error: didn't receive ack packet");
        }
    }
}

#[test]
fn resolving_same_name_twice_yields_same_id() {
    let mut sub_list = Subscriptions::new();
    let mut broker = MBroker::new();
    broker.accept_connect(addr(), connect("1"));
    let r1 = broker.accept_sub(addr(), sub_by_name(1, "alpha"), &mut sub_list);
    broker.accept_sub(addr(), sub_by_name(2, "beta"), &mut sub_list);
    let r2 = broker.accept_sub(addr(), sub_by_name(3, "alpha"), &mut sub_list);
    let (id1, id2) = match (r1, r2) {
        (Message::SubAck(a), Message::SubAck(b)) => (a.topic_id, b.topic_id),
        _ => panic!("Error: didn't receive ack packet"),
    };
    assert_eq!(id1, id2);
    assert_eq!(broker.lookup_topic_id(&"alpha".to_string()), Some(id1));
}

#[test]
fn resolving_distinct_names_yields_distinct_ids() {
    let mut sub_list = Subscriptions::new();
    let mut broker = MBroker::new();
    broker.accept_connect(addr(), connect("1"));
    let names = ["a", "b", "c", "d"];
    let mut ids = Vec::new();
    for (i, n) in names.iter().enumerate() {
        let r = broker.accept_sub(addr(), sub_by_name(i as u16, n), &mut sub_list);
        match r {
            Message::SubAck(p) => {
                assert_eq!(p.code, ReturnCode::Accepted);
                ids.push(p.topic_id);
            }
            _ => panic!("Error: didn't receive ack packet"),
        }
    }
    for i in 0..ids.len() {
        for j in (i + 1)..ids.len() {
            assert_ne!(ids[i], ids[j]);
        }
    }
}

#[test]
fn unregistered_client_is_not_supported() {
    let mut sub_list = Subscriptions::new();
    let mut broker = MBroker::new();
    let s = broker.accept_sub(addr(), sub_by_name(1, "gwu"), &mut sub_list);
    match s {
        Message::SubAck(p) => {
            assert_eq!(p.code, ReturnCode::Rejected(RejectedReason::NotSupported));
            assert_eq!(p.topic_id, 0);
        }
        _ => panic!("Error: didn't receive ack packet"),
    }
    let pub_p = Publish { topic_id: 1, msg_id: 1, data: b"x".to_vec() };
    let p = broker.accept_pub(addr(), pub_p, &sub_list);
    match p.0 {
        Message::PubAck(a) => {
            assert_eq!(a.code, ReturnCode::Rejected(RejectedReason::NotSupported));
        }
        _ => panic!("Error: didn't receive ack packet"),
    }
    assert!(p.2.is_empty());
    let unsub_p = Unsubscribe { msg_id: 1, topic: TopicNameOrId::Id(1) };
    let u = broker.accept_unsub(addr(), unsub_p, &mut sub_list);
    match u {
        Message::UnsubAck(a) => {
            assert_eq!(a.code, ReturnCode::Rejected(RejectedReason::NotSupported));
        }
        _ => panic!("Error: didn't receive ack packet"),
    }
}

#[test]
fn publish_to_unknown_topic_is_invalid() {
    let mut sub_list = Subscriptions::new();
    let mut broker = MBroker::new();
    broker.accept_connect(addr(), connect("1"));
    let pub_p = Publish { topic_id: 77, msg_id: 1, data: b"x".to_vec() };
    let res = broker.accept_pub(addr(), pub_p, &sub_list);
    match res.0 {
        Message::PubAck(a) => {
            assert_eq!(a.code, ReturnCode::Rejected(RejectedReason::InvalidTopicId));
        }
        _ => panic!("Error: didn't receive ack packet"),
    }
    assert!(res.2.is_empty());
}

#[test]
fn publish_reaches_every_subscriber() {
    let mut sub_list = Subscriptions::new();
    let mut broker = MBroker::new();
    let clients = [
        Address::new("10.0.0.1".to_string(), 1),
        Address::new("10.0.0.2".to_string(), 2),
        Address::new("10.0.0.3".to_string(), 3),
    ];
    for (i, a) in clients.iter().enumerate() {
        broker.accept_connect(a.clone(), connect(&format!("c{}", i)));
        let r = broker.accept_sub(a.clone(), sub_by_name(i as u16, "news"), &mut sub_list);
        match r {
            Message::SubAck(p) => assert_eq!(p.code, ReturnCode::Accepted),
            _ => panic!("Error: didn't receive ack packet"),
        }
    }
    let topic = broker.lookup_topic_id(&"news".to_string()).unwrap();
    let pub_p = Publish { topic_id: topic, msg_id: 9, data: b"hi".to_vec() };
    let res = broker.accept_pub(clients[0].clone(), pub_p, &sub_list);
    match res.0 {
        Message::PubAck(a) => assert_eq!(a.code, ReturnCode::Accepted),
        _ => panic!("Error: didn't receive ack packet"),
    }
    assert_eq!(res.2.len(), 3);
    for a in clients.iter() {
        assert!(res.2.contains(a));
    }
}

#[test]
fn duplicate_subscription_is_kept_once() {
    let mut sub_list = Subscriptions::new();
    let mut broker = MBroker::new();
    broker.accept_connect(addr(), connect("1"));
    broker.accept_sub(addr(), sub_by_name(1, "news"), &mut sub_list);
    let r = broker.accept_sub(addr(), sub_by_name(2, "news"), &mut sub_list);
    match r {
        Message::SubAck(p) => assert_eq!(p.code, ReturnCode::Accepted),
        _ => panic!("Error: didn't receive ack packet"),
    }
    let topic = broker.lookup_topic_id(&"news".to_string()).unwrap();
    let pub_p = Publish { topic_id: topic, msg_id: 3, data: b"x".to_vec() };
    let res = broker.accept_pub(addr(), pub_p, &sub_list);
    assert_eq!(res.2.len(), 1);
}

#[test]
fn unsubscribe_removes_exactly_one_entry() {
    let mut sub_list = Subscriptions::new();
    let mut broker = MBroker::new();
    broker.accept_connect(addr(), connect("1"));
    broker.accept_connect(addr2(), connect("2"));
    broker.accept_sub(addr(), sub_by_name(1, "news"), &mut sub_list);
    broker.accept_sub(addr2(), sub_by_name(2, "news"), &mut sub_list);
    let topic = broker.lookup_topic_id(&"news".to_string()).unwrap();

    // a pair never subscribed: another topic id
    let u0 = broker.accept_unsub(
        addr(),
        Unsubscribe { msg_id: 3, topic: TopicNameOrId::Id(topic + 1) },
        &mut sub_list,
    );
    match u0 {
        Message::UnsubAck(a) => {
            assert_eq!(a.code, ReturnCode::Rejected(RejectedReason::InvalidTopicId));
        }
        _ => panic!("Error: didn't receive ack packet"),
    }

    let u1 = broker.accept_unsub(
        addr(),
        Unsubscribe { msg_id: 4, topic: TopicNameOrId::Id(topic) },
        &mut sub_list,
    );
    match u1 {
        Message::UnsubAck(a) => assert_eq!(a.code, ReturnCode::Accepted),
        _ => panic!("Error: didn't receive ack packet"),
    }

    let pub_p = Publish { topic_id: topic, msg_id: 5, data: b"x".to_vec() };
    let res = broker.accept_pub(addr2(), pub_p, &sub_list);
    assert_eq!(res.2.len(), 1);
    assert_eq!(res.2[0], addr2());
    assert!(!res.2.contains(&addr()));

    // unsubscribing the same pair again finds nothing to remove
    let u2 = broker.accept_unsub(
        addr(),
        Unsubscribe { msg_id: 6, topic: TopicNameOrId::Id(topic) },
        &mut sub_list,
    );
    match u2 {
        Message::UnsubAck(a) => {
            assert_eq!(a.code, ReturnCode::Rejected(RejectedReason::InvalidTopicId));
        }
        _ => panic!("Error: didn't receive ack packet"),
    }
}

#[test]
fn publish_to_emptied_list_is_accepted_with_no_recipient() {
    let mut sub_list = Subscriptions::new();
    let mut broker = MBroker::new();
    broker.accept_connect(addr(), connect("1"));
    broker.accept_sub(addr(), sub_by_name(1, "news"), &mut sub_list);
    let topic = broker.lookup_topic_id(&"news".to_string()).unwrap();
    broker.accept_unsub(
        addr(),
        Unsubscribe { msg_id: 2, topic: TopicNameOrId::Id(topic) },
        &mut sub_list,
    );
    // the emptied list stays in place, so the topic still resolves
    let pub_p = Publish { topic_id: topic, msg_id: 3, data: b"x".to_vec() };
    let res = broker.accept_pub(addr(), pub_p, &sub_list);
    match res.0 {
        Message::PubAck(a) => assert_eq!(a.code, ReturnCode::Accepted),
        _ => panic!("Error: didn't receive ack packet"),
    }
    assert!(res.2.is_empty());
}

#[test]
fn scenario_end_to_end() {
    let mut sub_list = Subscriptions::new();
    let mut broker = MBroker::new();
    let a1 = Address::new("10.0.0.1".to_string(), 1000);
    let a2 = Address::new("10.0.0.2".to_string(), 2000);

    let c1 = broker.accept_connect(a1.clone(), connect("one"));
    match c1 {
        Message::ConnAck(p) => assert_eq!(p.code, ReturnCode::Accepted),
        _ => panic!("Error: didn't receive ack packet"),
    }
    let c1b = broker.accept_connect(a1.clone(), connect("one"));
    match c1b {
        Message::ConnAck(p) => {
            assert_eq!(p.code, ReturnCode::Rejected(RejectedReason::Congestion));
        }
        _ => panic!("Error: didn't receive ack packet"),
    }

    let s = broker.accept_sub(a1.clone(), sub_by_name(1, "sensors"), &mut sub_list);
    match s {
        Message::SubAck(p) => {
            assert_eq!(p.code, ReturnCode::Accepted);
            assert_eq!(p.topic_id, 1);
        }
        _ => panic!("Error: didn't receive ack packet"),
    }

    let p1 = broker.accept_pub(
        a2.clone(),
        Publish { topic_id: 1, msg_id: 2, data: b"42".to_vec() },
        &sub_list,
    );
    match p1.0 {
        Message::PubAck(a) => {
            assert_eq!(a.code, ReturnCode::Rejected(RejectedReason::NotSupported));
        }
        _ => panic!("Error: didn't receive ack packet"),
    }
    assert!(p1.2.is_empty());

    let c2 = broker.accept_connect(a2.clone(), connect("two"));
    match c2 {
        Message::ConnAck(p) => assert_eq!(p.code, ReturnCode::Accepted),
        _ => panic!("Error: didn't receive ack packet"),
    }

    let p2 = broker.accept_pub(
        a2.clone(),
        Publish { topic_id: 1, msg_id: 3, data: b"42".to_vec() },
        &sub_list,
    );
    match p2.0 {
        Message::PubAck(a) => assert_eq!(a.code, ReturnCode::Accepted),
        _ => panic!("Error: didn't receive ack packet"),
    }
    assert_eq!(p2.2, vec![a1.clone()]);
}

#[test]
fn sub_list_lists_every_topic_once() {
    let mut sub_list = Subscriptions::new();
    let mut broker = MBroker::new();
    broker.accept_connect(addr(), connect("1"));
    broker.accept_sub(addr(), sub_by_name(1, "news"), &mut sub_list);
    broker.accept_sub(addr(), sub_by_name(2, "sport"), &mut sub_list);
    let listing = sub_list.get_sub_list();
    assert_eq!(listing.len(), 2);
    let news = broker.lookup_topic_id(&"news".to_string()).unwrap();
    let sport = broker.lookup_topic_id(&"sport".to_string()).unwrap();
    for (topic, clients) in &listing {
        assert!(*topic == news || *topic == sport);
        assert_eq!(clients.len(), 1);
        assert_eq!(clients[0].address, addr());
    }
    assert_ne!(listing[0].0, listing[1].0);
}

#[test]
fn fresh_broker_can_allocate_topics() {
    let sub_list = Subscriptions::new();
    let broker = MBroker::new();
    assert!(broker.can_allocate_topic(&sub_list));
}

#[test]
fn client_list_keeps_connection_order() {
    let mut broker = MBroker::new();
    broker.accept_connect(addr(), connect("1"));
    broker.accept_connect(addr2(), connect("2"));
    let list = broker.get_client_list();
    assert_eq!(list.len(), 2);
    assert_eq!(list[0], Client { client_id: 1, address: addr() });
    assert_eq!(list[1], Client { client_id: 2, address: addr2() });
}
