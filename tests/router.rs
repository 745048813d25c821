use std::collections::HashSet;

use t1_lab_redes::{process_message, Message, MessageType, MsgMetadata, Registry};

fn registry_with(n: usize) -> (Registry, Vec<u16>) {
    let mut reg = Registry::new();
    let mut ids = Vec::new();
    for i in 0..n {
        ids.push(reg.assign_id(format!("127.0.0.1:{}", 7000 + i)).unwrap());
    }
    (reg, ids)
}

fn missing_id(ids: &[u16]) -> u16 {
    (0..=u16::MAX).find(|k| !ids.contains(k)).unwrap()
}

#[test]
fn text_is_forwarded_and_acknowledged() {
    let (mut reg, ids) = registry_with(2);
    let (a, b) = (ids[0], ids[1]);
    let msg = Message::new_text(7, b, "hi".to_string(), None, None);
    let out = process_message(&msg, a, &mut reg);
    assert_eq!(out.len(), 2);
    assert_eq!(out[0].0, b);
    assert_eq!(out[0].1.metadata.message_type, MessageType::Text);
    assert_eq!(out[0].1.metadata.key, 7);
    assert_eq!(out[0].1.content, b"hi".to_vec());
    assert_eq!(out[1].0, a);
    assert_eq!(out[1].1.metadata.message_type, MessageType::Success);
    assert_eq!(out[1].1.metadata.key, 7);
    assert!(out[1].1.content.is_empty());
}

#[test]
fn text_to_unknown_receiver_is_an_error() {
    let (mut reg, ids) = registry_with(1);
    let a = ids[0];
    let b = missing_id(&ids);
    let msg = Message::new_text(7, b, "hi".to_string(), None, None);
    let out = process_message(&msg, a, &mut reg);
    assert_eq!(out.len(), 1);
    assert_eq!(out[0].0, a);
    assert_eq!(out[0].1.metadata.message_type, MessageType::Error);
    assert_eq!(out[0].1.metadata.key, 7);
}

#[test]
fn file_keeps_its_type_and_bytes() {
    let (mut reg, ids) = registry_with(2);
    let bytes = vec![0u8, 255, 128, 1];
    let meta = MsgMetadata::new(3, ids[1], MessageType::File, 4, None, None);
    let out = process_message(&Message::new(meta, bytes.clone()), ids[0], &mut reg);
    assert_eq!(out.len(), 2);
    assert_eq!(out[0].1.metadata.message_type, MessageType::File);
    assert_eq!(out[0].1.content, bytes);
}

#[test]
fn broadcast_reaches_everyone_but_the_sender() {
    let (mut reg, ids) = registry_with(3);
    let a = ids[0];
    let meta = MsgMetadata::new(11, 0, MessageType::Broadcast, 5, None, None);
    let out = process_message(&Message::new(meta, b"hello".to_vec()), a, &mut reg);
    let dests: HashSet<u16> = out.iter().map(|(d, _)| *d).collect();
    let expected: HashSet<u16> = [ids[1], ids[2]].into_iter().collect();
    assert_eq!(out.len(), 2);
    assert_eq!(dests, expected);
    for (_, m) in &out {
        assert_eq!(m.content, b"hello".to_vec());
        assert_eq!(m.metadata.message_type, MessageType::Broadcast);
    }
}

#[test]
fn directory_listing() {
    let (mut reg, ids) = registry_with(2);
    let (ann, bob) = (ids[0], ids[1]);
    assert!(reg.set_name(ann, "Ann".to_string()));
    assert!(reg.set_name(bob, "Bob".to_string()));
    let out = process_message(&Message::new_list_clients_request(9), ann, &mut reg);
    assert_eq!(out.len(), 1);
    assert_eq!(out[0].0, ann);
    assert_eq!(out[0].1.metadata.message_type, MessageType::Success);
    assert_eq!(out[0].1.metadata.key, 9);
    let listed: Vec<(u16, String)> = serde_json::from_slice(&out[0].1.content).unwrap();
    let listed: HashSet<(u16, String)> = listed.into_iter().collect();
    let expected: HashSet<(u16, String)> =
        [(ann, "Ann".to_string()), (bob, "Bob".to_string())].into_iter().collect();
    assert_eq!(listed, expected);
}

#[test]
fn connection_sets_trimmed_name() {
    let (mut reg, ids) = registry_with(2);
    let out = process_message(&Message::new_connection_request(4, "  Ann \n".to_string()), ids[0], &mut reg);
    assert_eq!(out.len(), 1);
    assert_eq!(out[0].0, ids[0]);
    assert_eq!(out[0].1.metadata.message_type, MessageType::Success);
    assert_eq!(out[0].1.metadata.key, 4);
    assert_eq!(reg.name_of(ids[0]), Some("Ann".to_string()));
    let out = process_message(&Message::new_set_name_request(5, "Ann".to_string(), None, None), ids[1], &mut reg);
    assert_eq!(out.len(), 1);
    assert_eq!(out[0].0, ids[1]);
    assert_eq!(out[0].1.metadata.message_type, MessageType::Error);
    assert_eq!(reg.name_of(ids[1]), None);
}

#[test]
fn set_name_renames() {
    let (mut reg, ids) = registry_with(1);
    process_message(&Message::new_set_name_request(1, "Old".to_string(), None, None), ids[0], &mut reg);
    let out = process_message(&Message::new_set_name_request(2, "New".to_string(), None, None), ids[0], &mut reg);
    assert_eq!(out[0].1.metadata.message_type, MessageType::Success);
    assert_eq!(reg.name_of(ids[0]), Some("New".to_string()));
}

#[test]
fn disconnect_removes_sender_silently() {
    let (mut reg, ids) = registry_with(2);
    let meta = MsgMetadata::new(1, 0, MessageType::Disconnect, 0, None, None);
    let out = process_message(&Message::new(meta, Vec::new()), ids[0], &mut reg);
    assert!(out.is_empty());
    assert!(!reg.contains(ids[0]));
    assert!(reg.contains(ids[1]));
}

#[test]
fn responses_are_not_routed() {
    let (mut reg, ids) = registry_with(2);
    for ok in [true, false] {
        let out = process_message(&Message::new_generic_response(1, ids[1], ok), ids[0], &mut reg);
        assert!(out.is_empty());
    }
    assert_eq!(reg.registered_ids().len(), 2);
}

#[test]
fn invalid_utf8_name_is_read_lossily() {
    let (mut reg, ids) = registry_with(1);
    let meta = MsgMetadata::new(1, 0, MessageType::SetName, 4, None, None);
    let out = process_message(&Message::new(meta, vec![b'A', 0xff, b'B', b' ']), ids[0], &mut reg);
    assert_eq!(out[0].1.metadata.message_type, MessageType::Success);
    assert_eq!(reg.name_of(ids[0]), Some("A\u{FFFD}B".to_string()));
}
