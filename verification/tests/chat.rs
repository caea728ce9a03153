use orion_utils::chat::{unpack_messages, ChatHistory, MailBlob, MessageBlob, NO_CURSOR};

#[test]
fn chat_test_push() {
    let mut blob = MessageBlob::default();

    blob.push(b"hello");
    blob.push(b"world");

    assert_eq!(
        blob.data(),
        &[0, 5, b'h', b'e', b'l', b'l', b'o', 0, 5, 0, 5, b'w', b'o', b'r', b'l', b'd', 0, 5][..]
    );

    blob.pop();

    assert_eq!(blob.data(), &[0, 5, b'w', b'o', b'r', b'l', b'd', 0, 5][..]);
}

#[test]
fn chat_test_fetch() {
    let mut blob = MessageBlob::default();

    for i in 0..10u8 {
        blob.push(&[i, i + 1]);
    }

    let mut buffer = Vec::new();
    let mut cursor = NO_CURSOR;

    cursor = blob.fetch(cursor, 2, &mut buffer);

    assert_eq!(buffer, vec![0, 2, 9, 10, 0, 2, 8, 9]);
    assert_eq!(cursor, 48);

    buffer.clear();
    cursor = blob.fetch(cursor, 2, &mut buffer);

    assert_eq!(buffer, vec![0, 2, 7, 8, 0, 2, 6, 7]);
    assert_eq!(cursor, 36);
}

#[test]
fn test_read_messages_is_sound() {
    let mut mb = MailBlob::default();
    mb.push(&[42; 3]);
    let slice = mb.read();
    assert_eq!(&slice[2..], &[42; 3]);
    let slice = mb.read();
    assert_eq!(slice, &[] as &[u8]);
}

#[test]
fn newest_message_comes_back_first() {
    let mut blob = MessageBlob::new();
    blob.push(b"first");
    blob.push(b"second");
    let mut buffer = Vec::new();
    let cursor = blob.fetch(NO_CURSOR, 1, &mut buffer);
    assert_eq!(buffer, [&[0u8, 6][..], b"second"].concat());
    assert_eq!(cursor, 9);
    let mut older = Vec::new();
    let cursor = blob.fetch(cursor, 5, &mut older);
    assert_eq!(unpack_messages(&older), vec![&b"first"[..]]);
    assert_eq!(cursor, NO_CURSOR);
    assert_eq!(blob.offset(), 19);
}

#[test]
fn fetch_from_the_start_gives_nothing() {
    let mut buffer = Vec::new();
    let mut small = MessageBlob::new();
    small.push(b"abc");
    let c = small.fetch(0, 3, &mut buffer);
    assert_eq!(c, NO_CURSOR);
    assert!(buffer.is_empty());
    let c = small.fetch(NO_CURSOR, 0, &mut buffer);
    assert_eq!(c, 7);
    assert!(buffer.is_empty());
}

#[test]
fn mail_frames_unpack_to_the_messages() {
    let mut mb = MailBlob::new();
    assert!(mb.push(b"one"));
    assert!(mb.push(b""));
    assert!(mb.push(b"three"));
    let all = mb.read();
    assert_eq!(unpack_messages(&all), vec![&b"one"[..], &b""[..], &b"three"[..]]);
    assert_eq!(unpack_messages(&[0, 5, 1]), Vec::<&[u8]>::new());
}

#[test]
fn full_mailbox_refuses_and_keeps_its_mail() {
    let mut mb = MailBlob::new();
    let big = vec![1u8; 1024 * 1024 - 2];
    assert!(mb.push(&big));
    assert!(!mb.push(b"x"));
    assert_eq!(mb.read().len(), 1024 * 1024);
}

#[test]
fn history_is_taken_over_when_ahead_and_bigger() {
    let mut blob = MessageBlob::new();
    blob.push(b"a");
    blob.try_replace(ChatHistory { offset: 1, first: &[1, 2, 3, 4, 5, 6], last: &[] });
    assert_eq!(blob.offset(), 5);
    blob.try_replace(ChatHistory { offset: 9, first: &[1, 2, 3], last: &[4, 5, 6] });
    assert_eq!(blob.data(), &[1, 2, 3, 4, 5, 6][..]);
    assert_eq!(blob.offset(), 9);
    let copy = ChatHistory { offset: 3, first: &[7], last: &[8] }.to_blob();
    assert_eq!(copy.offset(), 3);
    assert_eq!(copy.data(), &[7, 7][..]);
}

#[test]
fn unpacking_stops_at_a_cut_frame() {
    assert_eq!(unpack_messages(&[0, 2, 7, 8, 0, 1, 9, 0]), vec![&[7u8, 8][..], &[9u8][..]]);
}

#[test]
fn pushed_mail_unpacks_in_push_order() {
    let mut mail = MailBlob::new();
    assert!(mail.push(b"alpha"));
    assert!(mail.push(b""));
    assert!(mail.push(b"gamma"));
    let all = mail.read();
    assert_eq!(unpack_messages(&all), vec![&b"alpha"[..], &b""[..], &b"gamma"[..]]);
}
