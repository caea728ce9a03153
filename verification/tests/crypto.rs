use orion_utils::crypto::{
    decrypt, encrypt, DecapsulationError, EncKeyPair, FixedAesPayload, KeyPair, PublicKey, Signature, VerifyError,
    ENC_ASOC_DATA, SHARED_SECRET_SIZE,
};
use orion_utils::name::Name;
use orion_utils::protocol::{ActionProof, UserKeys};
use orion_utils::storage::{Identity, ProofCheck};

#[test]
fn test_sign_verify() {
    let keypair = KeyPair::new();
    let data = b"hello world";
    let signature = keypair.sign(data);
    let public_key = keypair.public_key();
    public_key.verify(data, &signature).unwrap();
    public_key.verify(b"deez nust", &signature).expect_err("invalid signature");
}

#[test]
fn a_broken_dilithium_part_is_reported_as_such() {
    let keypair = KeyPair::new();
    let mut signature = keypair.sign(b"data");
    signature.dili[0] ^= 1;
    assert!(matches!(keypair.public_key().verify(b"data", &signature), Err(VerifyError::Dili(_))));
    let mut signature = keypair.sign(b"data");
    signature.ed[0] ^= 1;
    assert!(matches!(keypair.public_key().verify(b"data", &signature), Err(VerifyError::Ed(_))));
}

#[test]
fn keys_and_signatures_read_back_from_bytes() {
    let keypair = KeyPair::new();
    let public = keypair.public_key();
    let back = PublicKey::from_bytes(&public.to_bytes());
    assert_eq!(back.dili, public.dili);
    assert_eq!(back.ed, public.ed);
    let signature = keypair.sign(b"x");
    let back = Signature::from_bytes(&signature.to_bytes());
    assert_eq!(back.dili, signature.dili);
    assert_eq!(back.ed, signature.ed);
    assert_eq!(&public.to_bytes()[1952..], &public.ed);
}

#[test]
fn action_proofs_hold_for_their_salt_only() {
    let keys = UserKeys::new().unwrap();
    let mut no = 0;
    let proof = ActionProof::for_profile(&mut no, &keys.sign);
    assert_eq!(no, 1);
    assert_eq!(proof.no, 0);
    assert!(proof.is_profile_valid());
    let chat = Name::from_str("general").unwrap();
    assert!(!proof.is_chat_valid(chat));

    let in_chat = ActionProof::for_chat(&mut no, &keys.sign, chat);
    assert_eq!(in_chat.no, 1);
    assert!(in_chat.is_chat_valid(chat));
    assert!(!in_chat.is_chat_valid(Name::from_str("other").unwrap()));
    assert!(!in_chat.is_profile_valid());

    let mut forged = in_chat;
    forged.no = 5;
    assert!(!forged.is_chat_valid(chat));
}

#[test]
fn identities_carry_the_public_keys() {
    let keys = UserKeys::new().unwrap();
    let identity = keys.identity();
    assert_eq!(identity.sign.ed, keys.sign.public_key().ed);
    assert_eq!(identity.enc.kyb, keys.enc.kyb_public);
    let enc = EncKeyPair::new().unwrap();
    assert_ne!(enc.public_key().x, identity.enc.x);
}

#[test]
fn test_enc_dec() {
    let alice = EncKeyPair::new().unwrap();
    let bob = EncKeyPair::new().unwrap();
    let (ciphertext, secret) = alice.encapsulate(&bob.public_key()).unwrap();
    let dec = bob.decapsulate(ciphertext, &alice.public_key()).unwrap();
    assert_eq!(secret, dec);
}

#[test]
fn test_enc_dec_choosen() {
    let alice = EncKeyPair::new().unwrap();
    let bob = EncKeyPair::new().unwrap();
    let secret = [42u8; SHARED_SECRET_SIZE];
    let ciphertext = alice.encapsulate_choosen(&bob.public_key(), secret).unwrap();
    let dec = bob.decapsulate_choosen(ciphertext, &alice.public_key()).unwrap();
    assert_eq!(secret, dec);
}

#[test]
fn decapsulating_with_the_wrong_sender_fails_to_open() {
    let alice = EncKeyPair::new().unwrap();
    let bob = EncKeyPair::new().unwrap();
    let eve = EncKeyPair::new().unwrap();
    let (ciphertext, _) = alice.encapsulate(&bob.public_key()).unwrap();
    assert!(matches!(bob.decapsulate(ciphertext, &eve.public_key()), Err(DecapsulationError::Aes(_))));
    let ciphertext = alice.encapsulate_choosen(&bob.public_key(), [1u8; SHARED_SECRET_SIZE]).unwrap();
    assert!(matches!(eve.decapsulate_choosen(ciphertext, &alice.public_key()), Err(DecapsulationError::Aes(_))));
}

#[test]
fn sealed_payloads_open_under_their_key_only() {
    let data = [5u8; 40];
    let sealed = FixedAesPayload::new(data, [9u8; 32], &ENC_ASOC_DATA);
    assert_ne!(sealed.data, data);
    assert_eq!(sealed.decrypt([9u8; 32], &ENC_ASOC_DATA).unwrap(), data);
    assert!(sealed.decrypt([8u8; 32], &ENC_ASOC_DATA).is_err());
    assert!(sealed.decrypt([9u8; 32], b"other").is_err());
}

#[test]
fn encrypt_appends_tag_and_nonce() {
    let mut data = b"hello".to_vec();
    encrypt(&mut data, [3u8; 32]);
    assert_eq!(data.len(), 5 + 16 + 12);
    assert_ne!(&data[..5], b"hello");
    let mut other = b"hello".to_vec();
    encrypt(&mut other, [3u8; 32]);
    assert_ne!(data[5 + 16..], other[5 + 16..]);
}

#[test]
fn proof_checks_carry_the_signature_check() {
    let keys = UserKeys::new().unwrap();
    let mut no = 3;
    let chat = Name::from_str("general").unwrap();
    let proof = ActionProof::for_chat(&mut no, &keys.sign, chat);
    let check = ProofCheck::of_chat(proof, chat, Identity([9; 32]));
    assert!(check.valid);
    assert_eq!(check.nonce, 3);
    assert!(check.signer == Identity([9; 32]));
    assert!(!ProofCheck::of_chat(proof, Name::from_str("other").unwrap(), Identity([9; 32])).valid);
    assert!(!ProofCheck::of_profile(proof, Identity([9; 32])).valid);
    let on_profile = ActionProof::for_profile(&mut no, &keys.sign);
    assert!(ProofCheck::of_profile(on_profile, Identity([1; 32])).valid);
}

#[test]
fn identities_agree_on_the_dilithium_key() {
    let keys = UserKeys::new().unwrap();
    assert_eq!(keys.identity().sign.dili, keys.identity().sign.dili);
    assert_eq!(keys.identity().sign.dili, keys.sign.dili_public);
}

#[test]
fn kyber_secret_keys_carry_their_public_key() {
    let pair = EncKeyPair::new().unwrap();
    assert_eq!(&pair.kyb_secret[1152..2336], &pair.kyb_public[..]);
    let keys = UserKeys::new().unwrap();
    assert_eq!(&keys.enc.kyb_secret[1152..2336], &keys.enc.kyb_public[..]);
}

#[test]
fn short_input_is_refused_by_decrypt() {
    let mut data = [7u8; 27];
    assert!(decrypt(&mut data, [1; 32]).is_none());
    assert_eq!(data, [7u8; 27]);
    assert!(decrypt(&mut [], [1; 32]).is_none());
}
