use orion_utils::contracts::SIGN_PUBLIC_KEY_SIZE;
use orion_utils::name::Name;
use orion_utils::protocol::{ActionProof, Message, UserOrChat, SIGNATURE_SIZE};

fn sample_proof() -> ActionProof {
    ActionProof { pk: [3; SIGN_PUBLIC_KEY_SIZE], no: 7, sig: [4; SIGNATURE_SIZE] }
}

#[test]
fn salts_end_with_the_action_number() {
    let salted = ActionProof::build_salt([0xff; 32], 0x01020304);
    assert_eq!(&salted[..32], &[0xff; 32]);
    assert_eq!(&salted[32..], &[4, 3, 2, 1]);
}

#[test]
fn chat_salt_is_the_name_then_zeros() {
    let salt = ActionProof::chat_salt(&Name::from_str("abc").unwrap());
    assert_eq!(&salt[..3], b"abc");
    assert_eq!(&salt[3..], &[0; 29]);
}

#[test]
fn messages_travel_without_their_chat() {
    let content = [1u8, 2];
    let m = Message { chat: Name::from_str("general").unwrap(), content: &content, proof: sample_proof() };
    let r = m.to_replicate();
    assert_eq!(r.content, &[1, 2]);
    assert_eq!(r.proof.no, 7);
    let back = r.to_message(Name::from_str("other").unwrap());
    assert_eq!(back.chat.as_str(), "other");
    assert_eq!(back.content, &[1, 2]);
}

#[test]
fn user_or_chat_bytes() {
    let user = UserOrChat::User([5; SIGN_PUBLIC_KEY_SIZE]);
    assert_eq!(user.as_slice(), &[5; SIGN_PUBLIC_KEY_SIZE][..]);
    let chat = UserOrChat::Chat(Name::from_str("room").unwrap());
    assert_eq!(chat.as_slice(), b"room");
}
