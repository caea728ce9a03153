use orion_utils::chat::NO_CURSOR;
use orion_utils::codec::{Codec, Reminder};
use orion_utils::dispatch::{PacketBuffer, RequestId};
use orion_utils::name::Name;
use orion_utils::storage::{
    advance_nonce, AddUser, AddUserError, CreateAccount, CreateAccountError, CreateChat, CreateChatError,
    FetchMessages, FetchMessagesError, FetchVault, FetchVaultError, Identity, ProofCheck, ReadMail,
    ReadMailError, SendMail, SendMailError, SendMessage, SendMessageError, SetVault, SetVaultError,
    Storage, MAIL_BOX_CAP,
};

const META: (u8, RequestId) = (3, RequestId(7));

fn alice() -> Identity {
    Identity([1; 32])
}

fn bob() -> Identity {
    Identity([2; 32])
}

fn signed(signer: Identity, nonce: u64) -> ProofCheck {
    ProofCheck { valid: true, signer, nonce }
}

fn general() -> Name {
    Name::from_str("general").unwrap()
}

#[test]
fn nonces_only_move_forward() {
    let mut n = 5u64;
    assert!(!advance_nonce(&mut n, 5));
    assert!(!advance_nonce(&mut n, 4));
    assert_eq!(n, 5);
    assert!(advance_nonce(&mut n, 6));
    assert_eq!(n, 6);
}

#[test]
fn create_chat_once() {
    let mut storage = Storage::new();
    let (r, record) = CreateChat::execute(&mut storage, &(alice(), general()), META);
    assert_eq!(r, Ok(()));
    let record = record.unwrap();
    assert_eq!(record.key, general().to_bytes());
    let mut value = vec![3, 7];
    value.extend_from_slice(&[1; 32]);
    value.extend_from_slice(&general().to_bytes());
    assert_eq!(record.value, value);
    assert_eq!(storage.chats.len(), 1);
    let chat = storage.chats.get(&general()).unwrap();
    assert_eq!(chat.members.len(), 1);
    assert!(chat.members[0].id == alice());
    assert_eq!(chat.members[0].action, 0);

    let (r, record) = CreateChat::execute(&mut storage, &(bob(), general()), META);
    assert_eq!(r, Err(CreateChatError::AlreadyExists));
    assert!(record.is_none());
}

#[test]
fn replicating_storage_puts_no_record() {
    let mut storage = Storage::new();
    storage.start_replication();
    let (r, record) = CreateChat::execute(&mut storage, &(alice(), general()), META);
    assert_eq!(r, Ok(()));
    assert!(record.is_none());
    storage.stop_replication();
    assert!(!storage.replicating);
}

#[test]
fn add_user_checks_proof_membership_and_nonce() {
    let mut storage = Storage::new();
    let _ = CreateChat::execute(&mut storage, &(alice(), general()), META);
    let request = (bob(), general(), 0u8);

    let invalid = ProofCheck { valid: false, signer: alice(), nonce: 1 };
    assert_eq!(AddUser::execute(&mut storage, &request, &invalid, META).0, Err(AddUserError::InvalidProof));

    let other = (bob(), Name::from_str("other").unwrap(), 0u8);
    assert_eq!(AddUser::execute(&mut storage, &other, &signed(alice(), 1), META).0, Err(AddUserError::InvalidAction));

    assert_eq!(AddUser::execute(&mut storage, &request, &signed(bob(), 1), META).0, Err(AddUserError::NotMember));

    assert_eq!(AddUser::execute(&mut storage, &request, &signed(alice(), 0), META).0, Err(AddUserError::InvalidAction));

    let (r, record) = AddUser::execute(&mut storage, &request, &signed(alice(), 1), META);
    assert_eq!(r, Ok(()));
    assert!(record.is_some());
    let chat = storage.chats.get(&general()).unwrap();
    assert_eq!(chat.members.len(), 2);
    assert_eq!(chat.members[0].action, 1);
    assert!(chat.members[1].id == bob());

    // the nonce moves on even though the user is a member already
    assert_eq!(AddUser::execute(&mut storage, &request, &signed(alice(), 2), META).0, Err(AddUserError::AlreadyExists));
    assert_eq!(storage.chats.get(&general()).unwrap().members[0].action, 2);
}

#[test]
fn messages_are_sent_and_fetched() {
    let mut storage = Storage::new();
    let _ = CreateChat::execute(&mut storage, &(alice(), general()), META);
    let mut events: PacketBuffer<Name> = PacketBuffer::new();

    let invalid = ProofCheck { valid: false, signer: alice(), nonce: 1 };
    let hello = (general(), 9u8, Reminder(b"hello"));
    assert_eq!(SendMessage::execute(&mut storage, &hello, &invalid, &mut events, META).0, Err(SendMessageError::InvalidProof));

    let big = vec![0u8; 1025];
    let too_large = (general(), 9u8, Reminder(&big));
    assert_eq!(
        SendMessage::execute(&mut storage, &too_large, &signed(alice(), 1), &mut events, META).0,
        Err(SendMessageError::MessageTooLarge)
    );

    let nowhere = (Name::from_str("nowhere").unwrap(), 9u8, Reminder(b"hello"));
    assert_eq!(
        SendMessage::execute(&mut storage, &nowhere, &signed(alice(), 1), &mut events, META).0,
        Err(SendMessageError::ChatNotFound)
    );
    assert_eq!(
        SendMessage::execute(&mut storage, &hello, &signed(bob(), 1), &mut events, META).0,
        Err(SendMessageError::NotMember)
    );
    assert_eq!(
        SendMessage::execute(&mut storage, &hello, &signed(alice(), 0), &mut events, META).0,
        Err(SendMessageError::InvalidAction)
    );

    let (r, record) = SendMessage::execute(&mut storage, &hello, &signed(alice(), 1), &mut events, META);
    assert_eq!(r, Ok(()));
    assert_eq!(record.unwrap().key, general().to_bytes());
    let drained = events.drain();
    assert_eq!(drained.len(), 1);

    let (messages, cursor) = FetchMessages::execute(&storage, &(general(), NO_CURSOR)).unwrap();
    assert_eq!(messages, vec![0, 5, b'h', b'e', b'l', b'l', b'o']);
    assert_eq!(cursor, NO_CURSOR);
    assert!(matches!(
        FetchMessages::execute(&storage, &(Name::from_str("nowhere").unwrap(), NO_CURSOR)),
        Err(FetchMessagesError::ChatNotFound)
    ));
}

#[test]
fn accounts_vaults_and_mail() {
    let mut storage = Storage::new();
    let invalid = ProofCheck { valid: false, signer: alice(), nonce: 1 };
    assert_eq!(
        CreateAccount::execute(&mut storage, &1u8, &invalid, &[5], &[6], META).0,
        Err(CreateAccountError::InvalidProof)
    );
    let (r, record) = CreateAccount::execute(&mut storage, &1u8, &signed(alice(), 1), &[5], &[6], META);
    assert_eq!(r, Ok(()));
    assert_eq!(record.unwrap().value, vec![3, 7, 1, 5, 1, 6, 1, 0, 0]);
    assert_eq!(
        CreateAccount::execute(&mut storage, &1u8, &signed(alice(), 2), &[5], &[6], META).0,
        Err(CreateAccountError::AlreadyExists)
    );

    assert_eq!(SetVault::execute(&mut storage, &0u8, &invalid, &[1], META).0, Err(SetVaultError::InvalidProof));
    assert_eq!(SetVault::execute(&mut storage, &0u8, &signed(bob(), 2), &[1], META).0, Err(SetVaultError::NotFound));
    assert_eq!(SetVault::execute(&mut storage, &0u8, &signed(alice(), 1), &[1], META).0, Err(SetVaultError::InvalidAction));
    assert_eq!(SetVault::execute(&mut storage, &0u8, &signed(alice(), 2), &[1, 2], META).0, Ok(()));
    match FetchVault::execute(&storage, &alice()) {
        Ok((nonce, vault)) => {
            assert_eq!(nonce, 2);
            assert_eq!(vault, &[1, 2]);
        }
        Err(_) => panic!("the vault is there"),
    }
    assert!(matches!(FetchVault::execute(&storage, &bob()), Err(FetchVaultError::NotFound)));

    assert_eq!(SendMail::execute(&mut storage, &(bob(), &[9][..]), META).0, Err(SendMailError::NotFound));
    assert_eq!(SendMail::execute(&mut storage, &(alice(), &[9, 8][..]), META).0, Ok(()));
    let huge = vec![0u8; MAIL_BOX_CAP];
    assert_eq!(SendMail::execute(&mut storage, &(alice(), &huge[..]), META).0, Err(SendMailError::MailboxFull));

    assert_eq!(ReadMail::execute(&mut storage, &invalid), Err(ReadMailError::InvalidProof));
    assert_eq!(ReadMail::execute(&mut storage, &signed(bob(), 9)), Err(ReadMailError::NotFound));
    assert_eq!(ReadMail::execute(&mut storage, &signed(alice(), 2)), Err(ReadMailError::InvalidAction));
    assert_eq!(ReadMail::execute(&mut storage, &signed(alice(), 3)), Ok(vec![0, 2, 9, 8]));
    assert_eq!(ReadMail::execute(&mut storage, &signed(alice(), 4)), Ok(vec![]));
}

#[test]
fn error_codes_read_back() {
    assert_eq!(AddUserError::NotMember.to_bytes(), vec![2]);
    let mut slice: &[u8] = &[4];
    assert_eq!(SendMessageError::decode(&mut slice), Some(SendMessageError::MessageTooLarge));
    let mut slice: &[u8] = &[5];
    assert_eq!(SendMessageError::decode(&mut slice), None);
}
