use t1_lab_redes::{
    build_udp_message, relay_fragment, release_identity, Message, MessageType, MsgMetadata,
    Reassembler, Registry, MAX_OPEN_PER_SENDER,
};

fn datagram(fid: u16, seq: u16, total: u64, payload: &[u8]) -> Vec<u8> {
    let meta = MsgMetadata::new(21, 5, MessageType::Text, total, Some(fid), Some(seq));
    Message::new(meta, payload.to_vec()).serialize()
}

#[test]
fn out_of_order_fragments_with_repeats_give_one_message() {
    let mut engine = Reassembler::new();
    let parts: [&[u8]; 3] = [b"abc", b"de", b"fghi"];
    let order = [2usize, 0, 2, 2, 0, 1, 1, 0];
    let mut delivered = Vec::new();
    for &i in &order {
        if let Some(m) = build_udp_message(datagram(4, i as u16, 9, parts[i]), 1, &mut engine) {
            delivered.push(m);
        }
    }
    assert_eq!(delivered.len(), 1);
    let m = &delivered[0];
    assert_eq!(m.content, b"abcdefghi".to_vec());
    assert_eq!(m.metadata.key, 21);
    assert_eq!(m.metadata.receiver_id, 5);
    assert_eq!(m.metadata.message_type, MessageType::Text);
    assert_eq!(m.metadata.message_length, 9);
    assert_eq!(m.metadata.fragment, None);
    assert_eq!(engine.open_buffers(), 0);
}

#[test]
fn gaps_in_seq_numbers_keep_order() {
    let mut engine = Reassembler::new();
    assert!(build_udp_message(datagram(1, 500, 4, b"cd"), 2, &mut engine).is_none());
    let m = build_udp_message(datagram(1, 7, 4, b"ab"), 2, &mut engine).unwrap();
    assert_eq!(m.content, b"abcd".to_vec());
}

#[test]
fn completed_message_is_never_handed_on_again() {
    let mut engine = Reassembler::new();
    assert!(build_udp_message(datagram(9, 0, 2, b"x"), 1, &mut engine).is_none());
    assert!(build_udp_message(datagram(9, 1, 2, b"y"), 1, &mut engine).is_some());
    assert!(build_udp_message(datagram(9, 1, 2, b"y"), 1, &mut engine).is_none());
    assert!(build_udp_message(datagram(9, 0, 2, b"x"), 1, &mut engine).is_none());
    assert_eq!(engine.open_buffers(), 0);
    // the same fragment id from another sender is another message
    assert!(build_udp_message(datagram(9, 0, 1, b"z"), 2, &mut engine).is_some());
}

#[test]
fn single_fragment_and_empty_messages() {
    let mut engine = Reassembler::new();
    let m = build_udp_message(datagram(1, 0, 3, b"abc"), 1, &mut engine).unwrap();
    assert_eq!(m.content, b"abc".to_vec());
    let m = build_udp_message(datagram(2, 0, 0, b""), 1, &mut engine).unwrap();
    assert!(m.content.is_empty());
}

#[test]
fn mismatched_or_oversized_fragments_are_dropped() {
    let mut engine = Reassembler::new();
    assert!(build_udp_message(datagram(3, 0, 4, b"ab"), 1, &mut engine).is_none());
    // declares another total
    assert!(build_udp_message(datagram(3, 1, 5, b"cd"), 1, &mut engine).is_none());
    // would pass the total
    assert!(build_udp_message(datagram(3, 1, 4, b"cde"), 1, &mut engine).is_none());
    // longer than its own declared total
    assert!(build_udp_message(datagram(8, 0, 1, b"toolong"), 1, &mut engine).is_none());
    assert_eq!(engine.open_buffers(), 1);
    let m = build_udp_message(datagram(3, 1, 4, b"cd"), 1, &mut engine).unwrap();
    assert_eq!(m.content, b"abcd".to_vec());
}

#[test]
fn malformed_datagrams_are_dropped() {
    let mut engine = Reassembler::new();
    assert!(build_udp_message(vec![1, 2, 3], 1, &mut engine).is_none());
    let mut bad = datagram(1, 0, 1, b"a");
    bad[4] = 42;
    assert!(build_udp_message(bad, 1, &mut engine).is_none());
    assert_eq!(engine.open_buffers(), 0);
}

#[test]
fn open_buffers_per_sender_are_bounded() {
    let mut engine = Reassembler::new();
    for fid in 0..MAX_OPEN_PER_SENDER as u16 {
        assert!(build_udp_message(datagram(fid, 0, 2, b"a"), 1, &mut engine).is_none());
    }
    assert_eq!(engine.open_buffers(), MAX_OPEN_PER_SENDER);
    let extra = MAX_OPEN_PER_SENDER as u16;
    assert!(build_udp_message(datagram(extra, 0, 2, b"a"), 1, &mut engine).is_none());
    assert_eq!(engine.open_buffers(), MAX_OPEN_PER_SENDER);
    // another sender is not affected
    assert!(build_udp_message(datagram(extra, 0, 2, b"a"), 2, &mut engine).is_none());
    assert_eq!(engine.open_buffers(), MAX_OPEN_PER_SENDER + 1);
    // an open message can still complete
    assert!(build_udp_message(datagram(0, 1, 2, b"b"), 1, &mut engine).is_some());
}

#[test]
fn released_identity_starts_afresh() {
    let mut reg = Registry::new();
    let mut engine = Reassembler::new();
    let a = reg.assign_id("udp-peer:1".to_string()).unwrap();
    assert!(build_udp_message(datagram(1, 0, 1, b"a"), a, &mut engine).is_some());
    assert!(build_udp_message(datagram(2, 0, 2, b"a"), a, &mut engine).is_none());
    release_identity(&mut reg, &mut engine, a);
    assert!(!reg.contains(a));
    assert_eq!(engine.open_buffers(), 0);
    assert!(build_udp_message(datagram(1, 0, 1, b"a"), a, &mut engine).is_some());
}

#[test]
fn completed_fragment_is_routed() {
    let mut reg = Registry::new();
    let mut engine = Reassembler::new();
    let a = reg.assign_id("1.1.1.1:1".to_string()).unwrap();
    let b = reg.assign_id("2.2.2.2:2".to_string()).unwrap();
    let first = Message::new(MsgMetadata::new(7, b, MessageType::Text, 4, Some(1), Some(1)), b"lo".to_vec());
    let second = Message::new(MsgMetadata::new(7, b, MessageType::Text, 4, Some(1), Some(0)), b"he".to_vec());
    assert!(relay_fragment(&mut reg, &mut engine, a, first.serialize()).is_empty());
    let out = relay_fragment(&mut reg, &mut engine, a, second.serialize());
    assert_eq!(out.len(), 2);
    assert_eq!(out[0].0, b);
    assert_eq!(out[0].1.content, b"helo".to_vec());
    assert_eq!(out[0].1.metadata.fragment, None);
    assert_eq!(out[1].0, a);
    assert_eq!(out[1].1.metadata.message_type, MessageType::Success);
    assert!(relay_fragment(&mut reg, &mut engine, a, vec![0; 5]).is_empty());
}
