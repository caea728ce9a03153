use orion_utils::onion::{outbound_confirmed, outbound_kind, OUpgradeError, PathId, MISSING_PEER, OCCUPIED_PEER, OK};

#[test]
fn answer_kinds() {
    assert!(outbound_kind(OK).is_ok());
    assert!(matches!(outbound_kind(MISSING_PEER), Err(OUpgradeError::MissingPeer)));
    assert!(matches!(outbound_kind(OCCUPIED_PEER), Err(OUpgradeError::OccupiedPeer)));
    assert!(matches!(outbound_kind(9), Err(OUpgradeError::UnknownPacketKind(9))));
}

#[test]
fn confirmation_decides() {
    assert!(outbound_confirmed(true).is_ok());
    assert!(matches!(outbound_confirmed(false), Err(OUpgradeError::AuthenticationFailed)));
}

#[test]
fn path_ids_order() {
    assert!(PathId(1) < PathId(2));
    assert_eq!(PathId(3), PathId(3));
}

use orion_utils::onion::{new_initial, peel, peel_initial, peel_wih_key, try_peel_initial, wrap, wrap_with_key};

fn public(secret: [u8; 32]) -> [u8; 32] {
    x25519_dalek::PublicKey::from(&x25519_dalek::StaticSecret::from(secret)).to_bytes()
}

#[test]
fn a_layer_peels_with_its_key() {
    let key = [7u8; 32];
    let mut buffer = b"keep this".to_vec();
    wrap_with_key(&key, 4, &mut buffer);
    assert_eq!(buffer.len(), 9 + 28);
    assert_eq!(&buffer[..4], b"keep");
    let len = peel_wih_key(&key, &mut buffer[4..]).unwrap();
    assert_eq!(len, 5);
    assert_eq!(&buffer[4..9], b" this");
    assert_eq!(peel_wih_key(&[8u8; 32], &mut buffer[4..]), None);
    assert_eq!(peel_wih_key(&key, &mut [0u8; 10]), None);
}

#[test]
fn the_recipient_peels_what_the_sender_wrapped() {
    let sender_secret = [3u8; 32];
    let recipient_secret = [9u8; 32];
    let mut buffer = b"secret".to_vec();
    wrap(&sender_secret, &public(recipient_secret), &mut buffer);
    let mut tampered = buffer.clone();
    let len = peel(&recipient_secret, &public(sender_secret), &mut buffer).unwrap();
    assert_eq!(&buffer[..len], b"secret");
    tampered[0] ^= 1;
    assert_eq!(peel(&recipient_secret, &public(sender_secret), &mut tampered), None);
}

#[test]
fn each_hop_finds_the_next_one() {
    let first = [11u8; 32];
    let last = [12u8; 32];
    let ephemeral = [13u8; 32];
    let mut buffer = Vec::new();
    new_initial([(public(first), &b"to-first"[..]), (public(last), &b"to-last"[..])], &ephemeral, &mut buffer);

    let (id, sender, left) = try_peel_initial(&last, &mut buffer).unwrap();
    assert_eq!(id.unwrap(), b"to-last".to_vec());
    assert_eq!(sender, public(ephemeral));
    let (id, sender, left) = peel_initial(&first, &mut buffer[..left]).unwrap();
    assert_eq!(id.unwrap(), b"to-first".to_vec());
    assert_eq!(sender, public(ephemeral));
    assert_eq!(left, 32);
    let (id, _, left) = peel_initial(&first, &mut buffer[..left]).unwrap();
    assert!(id.is_none());
    assert_eq!(left, 0);
    assert!(peel_initial(&first, &mut [0u8; 5]).is_none());
}

#[test]
fn a_layer_for_someone_else_does_not_open() {
    let mut buffer = Vec::new();
    new_initial([(public([1; 32]), &b"a"[..]), (public([2; 32]), &b"b"[..])], &[3; 32], &mut buffer);
    assert!(try_peel_initial(&[4; 32], &mut buffer).is_none());
}
