use std::convert::TryFrom;

use t1_lab_redes::{DecodeError, FragmentPos, Message, MessageType, MsgMetadata};

#[test]
fn message_type_bytes_round_trip() {
    let all = [
        MessageType::Connection,
        MessageType::Text,
        MessageType::File,
        MessageType::ListClients,
        MessageType::SetName,
        MessageType::Broadcast,
        MessageType::Disconnect,
        MessageType::Error,
        MessageType::Success,
    ];
    for (i, t) in all.iter().enumerate() {
        assert_eq!(t.to_byte(), i as u8);
        assert_eq!(u8::from(*t), i as u8);
        assert_eq!(MessageType::from_byte(i as u8), Some(*t));
        assert_eq!(MessageType::try_from(i as u8), Ok(*t));
    }
    assert_eq!(MessageType::from_byte(9), None);
    assert_eq!(MessageType::try_from(200u8), Err(DecodeError::InvalidType));
}

#[test]
fn reliable_header_layout() {
    let m = MsgMetadata::new(0x0201, 0x0403, MessageType::Text, 0x0807060504030201, None, None);
    assert_eq!(
        m.serialize(),
        vec![0x01, 0x02, 0x03, 0x04, 1, 0x01, 0x02, 0x03, 0x04, 0x05, 0x06, 0x07, 0x08]
    );
    assert_eq!(m.udp_id(), None);
    assert_eq!(m.udp_seq(), None);
}

#[test]
fn fragment_header_layout() {
    let m = MsgMetadata::new(7, 9, MessageType::Broadcast, 3, Some(0x1234), Some(2));
    let bytes = m.serialize();
    assert_eq!(bytes.len(), 17);
    assert_eq!(&bytes[13..17], &[0x34, 0x12, 0x02, 0x00]);
    assert_eq!(bytes[4], 5);
    assert_eq!(m.fragment, Some(FragmentPos { id: 0x1234, seq: 2 }));
    assert_eq!(m.udp_id(), Some(0x1234));
    assert_eq!(m.udp_seq(), Some(2));
}

#[test]
fn round_trip_reliable_message() {
    let m = Message::new_text(42, 17, "olá, mundo".to_string(), None, None);
    let bytes = m.serialize();
    assert_eq!(bytes.len(), 13 + "olá, mundo".len());
    let back = Message::deserialize(&bytes, false).unwrap();
    assert_eq!(back.metadata, m.metadata);
    assert_eq!(back.content, m.content);
}

#[test]
fn round_trip_fragment() {
    let meta = MsgMetadata::new(5, 6, MessageType::File, 100, Some(3), Some(9));
    let m = Message::new(meta, vec![9, 8, 7]);
    let bytes = m.serialize();
    assert_eq!(bytes.len(), 20);
    let back = Message::deserialize(&bytes, true).unwrap();
    assert_eq!(back.metadata, meta);
    assert_eq!(back.content, vec![9, 8, 7]);
    let again = Message::new_udp_packet(bytes).unwrap();
    assert_eq!(again.metadata, meta);
    assert_eq!(again.content, vec![9, 8, 7]);
}

#[test]
fn round_trip_empty_payload() {
    let m = Message::new_generic_response(65535, 0, false);
    let back = Message::deserialize(&m.serialize(), false).unwrap();
    assert_eq!(back.metadata.message_type, MessageType::Error);
    assert_eq!(back.metadata.key, 65535);
    assert!(back.content.is_empty());
}

#[test]
fn decode_truncated_header() {
    let bytes = Message::new_list_clients_request(1).serialize();
    assert_eq!(Message::deserialize(&bytes[..12], false).unwrap_err(), DecodeError::Truncated);
    assert_eq!(MsgMetadata::deserialize(&bytes, true).unwrap_err(), DecodeError::Truncated);
    assert_eq!(Message::deserialize(&[], false).unwrap_err(), DecodeError::Truncated);
}

#[test]
fn decode_truncated_payload() {
    let bytes = Message::new_text(1, 2, "hello".to_string(), None, None).serialize();
    assert_eq!(
        Message::deserialize(&bytes[..bytes.len() - 1], false).unwrap_err(),
        DecodeError::Truncated
    );
}

#[test]
fn decode_invalid_type() {
    let mut bytes = Message::new_list_clients_request(1).serialize();
    bytes[4] = 9;
    assert_eq!(Message::deserialize(&bytes, false).unwrap_err(), DecodeError::InvalidType);
    assert_eq!(MsgMetadata::deserialize(&bytes, false).unwrap_err(), DecodeError::InvalidType);
}

#[test]
fn reliable_decode_stops_at_declared_length() {
    let mut bytes = Message::new_text(1, 2, "hi".to_string(), None, None).serialize();
    bytes.extend_from_slice(&[1, 2, 3]);
    let m = Message::deserialize(&bytes, false).unwrap();
    assert_eq!(m.content, b"hi".to_vec());
}

#[test]
fn constructors_fill_headers() {
    let c = Message::new_connection_request(3, "Ann".to_string());
    assert_eq!(c.metadata.message_type, MessageType::Connection);
    assert_eq!(c.metadata.receiver_id, 0);
    assert_eq!(c.metadata.message_length, 3);
    assert_eq!(c.content, b"Ann".to_vec());

    let s = Message::new_set_name_request(4, "Bob".to_string(), Some(1), Some(0));
    assert_eq!(s.metadata.message_type, MessageType::SetName);
    assert_eq!(s.metadata.fragment, Some(FragmentPos { id: 1, seq: 0 }));
    assert_eq!(s.content, b"Bob".to_vec());

    let l = Message::new_list_clients_request(5);
    assert_eq!(l.metadata.message_type, MessageType::ListClients);
    assert_eq!(l.metadata.message_length, 0);

    let ok = Message::new_generic_response(6, 8, true);
    assert_eq!(ok.metadata.message_type, MessageType::Success);
    assert_eq!(ok.metadata.receiver_id, 8);
    assert!(ok.content.is_empty());
}

#[test]
fn list_response_is_json() {
    let clients = vec![(1u16, "Ann".to_string()), (2u16, "Bob".to_string())];
    let m = Message::new_list_clients_response(9, 1, clients, None, None);
    assert_eq!(m.metadata.message_type, MessageType::Success);
    assert_eq!(String::from_utf8(m.content.clone()).unwrap(), r#"[[1,"Ann"],[2,"Bob"]]"#);
    assert_eq!(m.metadata.message_length, m.content.len() as u64);
}

#[test]
fn completeness_of_payload() {
    let m = Message::new_text(1, 2, "abc".to_string(), None, None);
    assert!(m.is_complete());
    let meta = MsgMetadata::new(1, 2, MessageType::Text, 10, Some(1), Some(0));
    assert!(!Message::new(meta, vec![1, 2]).is_complete());
    assert!(meta.is_complete(10));
}

#[test]
fn generated_keys_vary() {
    let keys: Vec<u16> = (0..64).map(|_| Message::generate_key()).collect();
    assert!(keys.iter().any(|k| *k != keys[0]));
}
