use bytes::{Bytes, BytesMut};
use composite_broker::msg_parser::{cm_decode, cm_encode};
use mqtt_v5::types::{ConnectPacket, Packet, ProtocolVersion, PublishPacket, QoS};

#[test]
fn lib_test_read_publish_packet() {
    let packet2 = Packet::Publish(PublishPacket {
        is_duplicate: false,
        qos: QoS::AtLeastOnce,
        retain: true,
        topic: "gwu".parse().unwrap(),
        user_properties: Vec::new(),
        payload: Bytes::from("this is gwu"),
        packet_id: Some(42),
        payload_format_indicator: None,
        message_expiry_interval: None,
        topic_alias: None,
        response_topic: None,
        correlation_data: None,
        subscription_identifier: None,
        content_type: None,
    });

    let mut buf2 = BytesMut::new();
    let res2 = cm_encode(packet2, &mut buf2);
    assert!(res2.is_ok());

    let decode2 = cm_decode(&buf2);
    match decode2 {
        Ok(Packet::Publish(p)) => println!("\tPublish packet received {:?}", p.packet_id),
        _ => panic!("Incorrect type returned"),
    };
}

#[test]
fn lib_test_read_connect_packet() {
    let packet = Packet::Connect(ConnectPacket {
        protocol_name: String::from("cm_mqtt"),
        protocol_version: ProtocolVersion::V500,
        clean_start: true,
        keep_alive: 1,
        user_properties: Vec::new(),
        client_id: String::from("1004"),
        session_expiry_interval: None,
        receive_maximum: None,
        maximum_packet_size: None,
        topic_alias_maximum: None,
        request_response_information: None,
        request_problem_information: None,
        authentication_method: None,
        authentication_data: None,
        will: None,
        user_name: None,
        password: None,
    });

    let mut buf = BytesMut::new();
    let res = cm_encode(packet, &mut buf);
    assert!(res.is_ok());

    let decode = cm_decode(&buf);
    assert!(decode.is_ok());
    match decode {
        Ok(Packet::Connect(p)) => println!("\tConnect packet received {}", p.client_id),
        _ => panic!("Incorrect type returned"),
    };
}

#[test]
fn decode_of_empty_buffer_is_refused() {
    let empty: [u8; 0] = [];
    match cm_decode(&empty) {
        Err(m) => assert_eq!(m, "Buffer was empty"),
        Ok(_) => panic!("Incorrect type returned"),
    }
}

#[test]
fn decode_of_overlong_length_field_is_an_error_not_a_panic() {
    // four continuation bytes and a fifth digit of 16: the shape whose
    // length arithmetic the codec does not take
    let overlong: [u8; 6] = [0x10, 0x80, 0x80, 0x80, 0x80, 0x10];
    match cm_decode(&overlong) {
        Err(m) => assert_eq!(m, "Packet wasn't decoded"),
        Ok(_) => panic!("Incorrect type returned"),
    }
    // the same shape buried past a valid header is refused as well
    let buried: [u8; 10] = [0x30, 0x08, 0x80, 0x80, 0x80, 0x80, 0x7f, 0x00, 0x00, 0x00];
    match cm_decode(&buried) {
        Err(m) => assert_eq!(m, "Packet wasn't decoded"),
        Ok(_) => panic!("Incorrect type returned"),
    }
}

#[test]
fn decode_of_garbage_is_an_error_not_a_panic() {
    let garbage: [u8; 3] = [0xff, 0xff, 0xff];
    match cm_decode(&garbage) {
        Err(m) => assert_eq!(m, "Packet wasn't decoded"),
        Ok(_) => panic!("Incorrect type returned"),
    }
}
