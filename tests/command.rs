use t1_lab_redes::{create_command, MessageType};

#[test]
fn msg_line_is_a_text() {
    let (t, id, content) = create_command(&"msg 42 hello there\n".to_string());
    assert_eq!(t, MessageType::Text);
    assert_eq!(id, 42);
    assert_eq!(content, "hello there");
}

#[test]
fn extra_spaces_before_the_id() {
    let (t, id, content) = create_command(&"  msg    7 olá".to_string());
    assert_eq!(t, MessageType::Text);
    assert_eq!(id, 7);
    assert_eq!(content, "olá");
}

#[test]
fn largest_id_and_overflow() {
    let (t, id, _) = create_command(&"msg 65535 x".to_string());
    assert_eq!((t, id), (MessageType::Text, 65535));
    let (t, id, content) = create_command(&"msg 65536 x".to_string());
    assert_eq!((t, id, content.as_str()), (MessageType::Error, 0, ""));
}

#[test]
fn malformed_msg_lines_are_errors() {
    for line in ["msg abc hi", "msg 12", "msg  x", "msg 1a2 hi", "msg -3 hi"] {
        let (t, id, content) = create_command(&line.to_string());
        assert_eq!(t, MessageType::Error, "{}", line);
        assert_eq!(id, 0);
        assert!(content.is_empty());
    }
}

#[test]
fn other_lines_propose_a_name() {
    let (t, id, content) = create_command(&"  Ann Lee \n".to_string());
    assert_eq!(t, MessageType::SetName);
    assert_eq!(id, 0);
    assert_eq!(content, "Ann Lee");
    let (t, _, content) = create_command(&"msg".to_string());
    assert_eq!((t, content.as_str()), (MessageType::SetName, "msg"));
    let (t, _, content) = create_command(&"message".to_string());
    assert_eq!((t, content.as_str()), (MessageType::SetName, "message"));
}

#[test]
fn empty_content_after_the_id() {
    let (t, id, content) = create_command(&"msg 3  ".to_string());
    // trimming removes the trailing spaces, so no content separator is left
    assert_eq!((t, id, content.as_str()), (MessageType::Error, 0, ""));
    let (t, id, content) = create_command(&"msg 3  x".to_string());
    assert_eq!((t, id, content.as_str()), (MessageType::Text, 3, " x"));
}
