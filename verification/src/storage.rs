//! Storage of profiles and chats kept by a node, and the handling of requests on it.

use crate::chat::{push_ok, pushed, fetch_count, fetch_start, fetch_steps, fetch_steps_ok, Cursor, MessageBlob, MESSAGE_FETCH_LIMIT};
use crate::codec::{
    base128, base128_decode, be16, bytes_encoding, decode_bytes, encode_bytes, lemma_base128_roundtrip,
    lemma_bytes_reads_back, lemma_encode_stopped, lemma_encode_then, parse_base128, parse_bytes, Buffer,
    Codec, Reminder,
};
use crate::dispatch::{PacketBuffer, RequestMeta};
use crate::name::ChatName;
use crate::protocol::{chat_salt, profile_salt, proof_holds, ActionProof};
use crate::stream::{find_key, LinearMap};
use vstd::prelude::*;
use vstd::std_specs::cmp::PartialEqSpec;

verus! {

/// Counter of the actions of a member or a profile, that each request moves on.
pub type Nonce = u64;

/// Most bytes of one chat message.
pub const MAX_MESSAGE_SIZE: usize = 1024;

/// Most bytes a mailbox holds.
pub const MAIL_BOX_CAP: usize = 1024 * 1024;

/// The identity of a user: a hash of their public key.
#[derive(Clone, Copy)]
pub struct Identity(pub [u8; 32]);

impl View for Identity {
    type V = Seq<u8>;

    open spec fn view(&self) -> Seq<u8> {
        self.0@
    }
}

impl PartialEq for Identity {
    fn eq(&self, other: &Identity) -> (r: bool) {
        let mut i: usize = 0;
        while i < 32
            invariant
                i <= 32,
                self.0@.len() == 32,
                other.0@.len() == 32,
                forall|k: int| 0 <= k < i ==> self.0@[k] == other.0@[k],
            decreases 32 - i,
        {
            if self.0[i] != other.0[i] {
                proof {
                    assert(self.0@[i as int] != other.0@[i as int]);
                }
                return false;
            }
            i = i + 1;
        }
        proof {
            assert(self.0@ =~= other.0@);
        }
        true
    }
}

impl vstd::std_specs::cmp::PartialEqSpecImpl for Identity {
    open spec fn obeys_eq_spec() -> bool {
        true
    }

    open spec fn eq_spec(&self, other: &Identity) -> bool {
        self@ == other@
    }
}

impl<'a> Codec<'a> for Identity {
    type Model = Seq<u8>;

    open spec fn model(&self) -> Seq<u8> {
        self@
    }

    open spec fn encoding(&self) -> Seq<u8> {
        self@
    }

    open spec fn parse(bytes: Seq<u8>) -> Option<(Seq<u8>, nat)> {
        <[u8; 32] as Codec<'a>>::parse(bytes)
    }

    open spec fn reads_back(&self, rest: Seq<u8>) -> bool {
        true
    }

    proof fn lemma_reads_back(&self, rest: Seq<u8>) {
        self.0.lemma_reads_back(rest);
    }

    fn encode<B: Buffer>(&self, buffer: &mut B) -> (r: Option<()>) {
        self.0.encode(buffer)
    }

    fn decode(buffer: &mut &'a [u8]) -> (r: Option<Identity>) {
        match <[u8; 32] as Codec<'a>>::decode(buffer) {
            Some(bytes) => Some(Identity(bytes)),
            None => None,
        }
    }
}

/// A member of a chat and the count of their actions in it.
pub struct Member {
    pub id: Identity,
    pub action: Nonce,
}

impl Member {
    pub fn new(id: Identity) -> (m: Member)
        ensures
            m.id == id,
            m.action == 0,
    {
        Member { id, action: 0 }
    }
}

/// A chat: its members and its history.
pub struct Chat {
    pub members: Vec<Member>,
    pub messages: MessageBlob,
}

impl Chat {
    /// A chat whose only member is its creator, with no messages.
    pub fn new(id: Identity) -> (c: Chat)
        ensures
            c.members@.len() == 1,
            c.members@[0].id == id,
            c.members@[0].action == 0,
            c.messages@ == (Seq::<u8>::empty(), 0u32),
    {
        let mut members: Vec<Member> = Vec::new();
        members.push(Member::new(id));
        Chat { members, messages: MessageBlob::new() }
    }
}

/// A user's profile: keys, action count, vault and mailbox.
pub struct FullProfile {
    pub sign: Vec<u8>,
    pub enc: Vec<u8>,
    pub action: Nonce,
    pub vault: Vec<u8>,
    pub mail: Vec<u8>,
}

/// Reads the fields of a profile one after the other.
pub open spec fn parse_profile(bytes: Seq<u8>) -> Option<((Seq<u8>, Seq<u8>, u64, Seq<u8>, Seq<u8>), nat)> {
    match parse_bytes(bytes) {
        Some((sign, n0)) => match parse_bytes(bytes.skip(n0 as int)) {
            Some((enc, n1)) => match parse_base128(bytes.skip((n0 + n1) as int)) {
                Some((action, n2)) => match parse_bytes(bytes.skip((n0 + n1 + n2) as int)) {
                    Some((vault, n3)) => match parse_bytes(bytes.skip((n0 + n1 + n2 + n3) as int)) {
                        Some((mail, n4)) => Some(
                            ((sign, enc, action, vault, mail), n0 + n1 + n2 + n3 + n4),
                        ),
                        None => None,
                    },
                    None => None,
                },
                None => None,
            },
            None => None,
        },
        None => None,
    }
}

impl<'a> Codec<'a> for FullProfile {
    type Model = (Seq<u8>, Seq<u8>, u64, Seq<u8>, Seq<u8>);

    open spec fn model(&self) -> (Seq<u8>, Seq<u8>, u64, Seq<u8>, Seq<u8>) {
        (self.sign@, self.enc@, self.action, self.vault@, self.mail@)
    }

    open spec fn encoding(&self) -> Seq<u8> {
        bytes_encoding(self.sign@) + bytes_encoding(self.enc@) + base128(self.action)
            + bytes_encoding(self.vault@) + bytes_encoding(self.mail@)
    }

    open spec fn parse(bytes: Seq<u8>) -> Option<((Seq<u8>, Seq<u8>, u64, Seq<u8>, Seq<u8>), nat)> {
        parse_profile(bytes)
    }

    open spec fn reads_back(&self, rest: Seq<u8>) -> bool {
        true
    }

    proof fn lemma_reads_back(&self, rest: Seq<u8>) {
        let e0 = bytes_encoding(self.sign@);
        let e1 = bytes_encoding(self.enc@);
        let e2 = base128(self.action);
        let e3 = bytes_encoding(self.vault@);
        let e4 = bytes_encoding(self.mail@);
        let all = self.encoding() + rest;
        assert(self.sign.len() == self.sign@.len());
        assert(self.enc.len() == self.enc@.len());
        assert(self.vault.len() == self.vault@.len());
        assert(self.mail.len() == self.mail@.len());
        lemma_bytes_reads_back(self.sign@, e1 + e2 + e3 + e4 + rest);
        assert(all =~= e0 + (e1 + e2 + e3 + e4 + rest));
        lemma_bytes_reads_back(self.enc@, e2 + e3 + e4 + rest);
        assert(all.skip(e0.len() as int) =~= e1 + (e2 + e3 + e4 + rest));
        lemma_base128_roundtrip(self.action, e3 + e4 + rest);
        assert(all.skip((e0 + e1).len() as int) =~= e2 + (e3 + e4 + rest));
        lemma_bytes_reads_back(self.vault@, e4 + rest);
        assert(all.skip((e0 + e1 + e2).len() as int) =~= e3 + (e4 + rest));
        lemma_bytes_reads_back(self.mail@, rest);
        assert(all.skip((e0 + e1 + e2 + e3).len() as int) =~= e4 + rest);
    }

    fn encode<B: Buffer>(&self, buffer: &mut B) -> (r: Option<()>) {
        let ghost e0 = bytes_encoding(self.sign@);
        let ghost e1 = bytes_encoding(self.enc@);
        let ghost e2 = base128(self.action);
        let ghost e3 = bytes_encoding(self.vault@);
        let ghost e4 = bytes_encoding(self.mail@);
        let ghost b0 = *buffer;
        if encode_bytes(self.sign.as_slice(), buffer).is_none() {
            proof {
                lemma_encode_stopped(b0, *buffer, e0, e1 + e2 + e3 + e4);
                assert(e0 + (e1 + e2 + e3 + e4) =~= self.encoding());
            }
            return None;
        }
        let ghost b1 = *buffer;
        if encode_bytes(self.enc.as_slice(), buffer).is_none() {
            proof {
                lemma_encode_stopped(b1, *buffer, e1, e2 + e3 + e4);
                lemma_encode_then(b0, b1, *buffer, e0, e1 + (e2 + e3 + e4), None);
                assert(e0 + (e1 + (e2 + e3 + e4)) =~= self.encoding());
            }
            return None;
        }
        proof {
            lemma_encode_then(b0, b1, *buffer, e0, e1, Some(()));
        }
        let ghost b2 = *buffer;
        if self.action.encode(buffer).is_none() {
            proof {
                lemma_encode_stopped(b2, *buffer, e2, e3 + e4);
                lemma_encode_then(b0, b2, *buffer, e0 + e1, e2 + (e3 + e4), None);
                assert(e0 + e1 + (e2 + (e3 + e4)) =~= self.encoding());
            }
            return None;
        }
        proof {
            lemma_encode_then(b0, b2, *buffer, e0 + e1, e2, Some(()));
        }
        let ghost b3 = *buffer;
        if encode_bytes(self.vault.as_slice(), buffer).is_none() {
            proof {
                lemma_encode_stopped(b3, *buffer, e3, e4);
                lemma_encode_then(b0, b3, *buffer, e0 + e1 + e2, e3 + e4, None);
                assert(e0 + e1 + e2 + (e3 + e4) =~= self.encoding());
            }
            return None;
        }
        proof {
            lemma_encode_then(b0, b3, *buffer, e0 + e1 + e2, e3, Some(()));
        }
        let ghost b4 = *buffer;
        let r = encode_bytes(self.mail.as_slice(), buffer);
        proof {
            lemma_encode_then(b0, b4, *buffer, e0 + e1 + e2 + e3, e4, r);
        }
        r
    }

    fn decode(buffer: &mut &'a [u8]) -> (r: Option<FullProfile>) {
        let ghost s0 = buffer@;
        let sign = match decode_bytes(buffer) {
            Some(b) => b,
            None => return None,
        };
        let ghost s1 = buffer@;
        assert(s0.skip(s0.len() - s1.len()) =~= s1);
        let enc = match decode_bytes(buffer) {
            Some(b) => b,
            None => return None,
        };
        let ghost s2 = buffer@;
        assert(s0.skip(s0.len() - s2.len()) =~= s2);
        let action = match base128_decode(buffer) {
            Some(a) => a,
            None => return None,
        };
        let ghost s3 = buffer@;
        assert(s0.skip(s0.len() - s3.len()) =~= s3);
        let vault = match decode_bytes(buffer) {
            Some(b) => b,
            None => return None,
        };
        let ghost s4 = buffer@;
        assert(s0.skip(s0.len() - s4.len()) =~= s4);
        let mail = match decode_bytes(buffer) {
            Some(b) => b,
            None => return None,
        };
        assert(s0.skip(s0.len() - buffer@.len()) =~= buffer@);
        Some(
            FullProfile {
                sign: vstd::slice::slice_to_vec(sign),
                enc: vstd::slice::slice_to_vec(enc),
                action,
                vault: vstd::slice::slice_to_vec(vault),
                mail: vstd::slice::slice_to_vec(mail),
            },
        )
    }
}

/// What a node stores; `replicating` is set while the node itself puts records.
pub struct Storage {
    pub profiles: LinearMap<Identity, FullProfile>,
    pub chats: LinearMap<ChatName, Chat>,
    pub replicating: bool,
}

impl Storage {
    pub fn new() -> (s: Storage)
        ensures
            s.profiles@ == Seq::<(Identity, FullProfile)>::empty(),
            s.chats@ == Seq::<(ChatName, Chat)>::empty(),
            !s.replicating,
    {
        Storage { profiles: LinearMap::new(), chats: LinearMap::new(), replicating: false }
    }

    pub fn start_replication(&mut self)
        ensures
            final(self).replicating,
            final(self).profiles@ == old(self).profiles@,
            final(self).chats@ == old(self).chats@,
    {
        self.replicating = true;
    }

    pub fn stop_replication(&mut self)
        ensures
            !final(self).replicating,
            final(self).profiles@ == old(self).profiles@,
            final(self).chats@ == old(self).chats@,
    {
        self.replicating = false;
    }
}

/// A record to put in the distributed table: key and value.
pub struct Record {
    pub key: Vec<u8>,
    pub value: Vec<u8>,
}

/// The record a handler asks to replicate: none while the node itself is replicating;
/// else `key` keyed, holding the request's meta data and `value`.
pub open spec fn replication(storage_replicating: bool, key: Seq<u8>, meta: Seq<u8>, value: Seq<u8>) -> Option<(Seq<u8>, Seq<u8>)> {
    if storage_replicating {
        None
    } else {
        Some((key, meta + value))
    }
}

pub open spec fn record_model(r: Option<Record>) -> Option<(Seq<u8>, Seq<u8>)> {
    match r {
        Some(rec) => Some((rec.key@, rec.value@)),
        None => None,
    }
}

fn replicate<'a, K: Codec<'a>, V: Codec<'a>>(replicating: bool, key: &K, value: &V, meta: RequestMeta) -> (r: Option<Record>)
    ensures
        record_model(r) == replication(replicating, key.encoding(), meta.encoding(), value.encoding()),
{
    if replicating {
        return None;
    }
    let key_bytes = key.to_bytes();
    let mut value_bytes: Vec<u8> = Vec::new();
    let _ = meta.encode(&mut value_bytes);
    let _ = value.encode(&mut value_bytes);
    Some(Record { key: key_bytes, value: value_bytes })
}

#[derive(Clone, Copy, Debug, PartialEq, Eq, Structural)]
pub enum CreateChatError {
    AlreadyExists,
}

impl CreateChatError {
    /// The variant's number on the wire.
    pub open spec fn index(&self) -> u8 {
        match self {
            CreateChatError::AlreadyExists => 0u8,
        }
    }
}

impl<'a> Codec<'a> for CreateChatError {
    type Model = CreateChatError;

    open spec fn model(&self) -> CreateChatError {
        *self
    }

    open spec fn encoding(&self) -> Seq<u8> {
        seq![self.index()]
    }

    open spec fn parse(bytes: Seq<u8>) -> Option<(CreateChatError, nat)> {
        if bytes.len() == 0 {
            None
        } else {
                        if bytes[0] == 0u8 {
                Some((CreateChatError::AlreadyExists, 1))
            } else {
                None
            }
        }
    }

    open spec fn reads_back(&self, rest: Seq<u8>) -> bool {
        true
    }

    proof fn lemma_reads_back(&self, rest: Seq<u8>) {
    }

    fn encode<B: Buffer>(&self, buffer: &mut B) -> (r: Option<()>) {
        let byte: u8 = match self {
            CreateChatError::AlreadyExists => 0,
        };
        byte.encode(buffer)
    }

    fn decode(buffer: &mut &'a [u8]) -> (r: Option<CreateChatError>) {
        let ghost s0 = buffer@;
        if buffer.len() == 0 {
            return None;
        }
        let byte = buffer[0];
        *buffer = vstd::slice::slice_subrange(*buffer, 1, buffer.len());
        proof {
            assert(s0.skip(1) =~= buffer@);
        }
        if byte == 0u8 {
            return Some(CreateChatError::AlreadyExists);
        }
        None
    }
}

#[derive(Clone, Copy, Debug, PartialEq, Eq, Structural)]
pub enum AddUserError {
    InvalidProof,
    AlreadyExists,
    NotMember,
    InvalidAction,
}

impl AddUserError {
    /// The variant's number on the wire.
    pub open spec fn index(&self) -> u8 {
        match self {
            AddUserError::InvalidProof => 0u8,
            AddUserError::AlreadyExists => 1u8,
            AddUserError::NotMember => 2u8,
            AddUserError::InvalidAction => 3u8,
        }
    }
}

impl<'a> Codec<'a> for AddUserError {
    type Model = AddUserError;

    open spec fn model(&self) -> AddUserError {
        *self
    }

    open spec fn encoding(&self) -> Seq<u8> {
        seq![self.index()]
    }

    open spec fn parse(bytes: Seq<u8>) -> Option<(AddUserError, nat)> {
        if bytes.len() == 0 {
            None
        } else {
                        if bytes[0] == 0u8 {
                Some((AddUserError::InvalidProof, 1))
            } else             if bytes[0] == 1u8 {
                Some((AddUserError::AlreadyExists, 1))
            } else             if bytes[0] == 2u8 {
                Some((AddUserError::NotMember, 1))
            } else             if bytes[0] == 3u8 {
                Some((AddUserError::InvalidAction, 1))
            } else {
                None
            }
        }
    }

    open spec fn reads_back(&self, rest: Seq<u8>) -> bool {
        true
    }

    proof fn lemma_reads_back(&self, rest: Seq<u8>) {
    }

    fn encode<B: Buffer>(&self, buffer: &mut B) -> (r: Option<()>) {
        let byte: u8 = match self {
            AddUserError::InvalidProof => 0,
            AddUserError::AlreadyExists => 1,
            AddUserError::NotMember => 2,
            AddUserError::InvalidAction => 3,
        };
        byte.encode(buffer)
    }

    fn decode(buffer: &mut &'a [u8]) -> (r: Option<AddUserError>) {
        let ghost s0 = buffer@;
        if buffer.len() == 0 {
            return None;
        }
        let byte = buffer[0];
        *buffer = vstd::slice::slice_subrange(*buffer, 1, buffer.len());
        proof {
            assert(s0.skip(1) =~= buffer@);
        }
        if byte == 0u8 {
            return Some(AddUserError::InvalidProof);
        }
        if byte == 1u8 {
            return Some(AddUserError::AlreadyExists);
        }
        if byte == 2u8 {
            return Some(AddUserError::NotMember);
        }
        if byte == 3u8 {
            return Some(AddUserError::InvalidAction);
        }
        None
    }
}

#[derive(Clone, Copy, Debug, PartialEq, Eq, Structural)]
pub enum SendMessageError {
    InvalidProof,
    ChatNotFound,
    NotMember,
    InvalidAction,
    MessageTooLarge,
}

impl SendMessageError {
    /// The variant's number on the wire.
    pub open spec fn index(&self) -> u8 {
        match self {
            SendMessageError::InvalidProof => 0u8,
            SendMessageError::ChatNotFound => 1u8,
            SendMessageError::NotMember => 2u8,
            SendMessageError::InvalidAction => 3u8,
            SendMessageError::MessageTooLarge => 4u8,
        }
    }
}

impl<'a> Codec<'a> for SendMessageError {
    type Model = SendMessageError;

    open spec fn model(&self) -> SendMessageError {
        *self
    }

    open spec fn encoding(&self) -> Seq<u8> {
        seq![self.index()]
    }

    open spec fn parse(bytes: Seq<u8>) -> Option<(SendMessageError, nat)> {
        if bytes.len() == 0 {
            None
        } else {
                        if bytes[0] == 0u8 {
                Some((SendMessageError::InvalidProof, 1))
            } else             if bytes[0] == 1u8 {
                Some((SendMessageError::ChatNotFound, 1))
            } else             if bytes[0] == 2u8 {
                Some((SendMessageError::NotMember, 1))
            } else             if bytes[0] == 3u8 {
                Some((SendMessageError::InvalidAction, 1))
            } else             if bytes[0] == 4u8 {
                Some((SendMessageError::MessageTooLarge, 1))
            } else {
                None
            }
        }
    }

    open spec fn reads_back(&self, rest: Seq<u8>) -> bool {
        true
    }

    proof fn lemma_reads_back(&self, rest: Seq<u8>) {
    }

    fn encode<B: Buffer>(&self, buffer: &mut B) -> (r: Option<()>) {
        let byte: u8 = match self {
            SendMessageError::InvalidProof => 0,
            SendMessageError::ChatNotFound => 1,
            SendMessageError::NotMember => 2,
            SendMessageError::InvalidAction => 3,
            SendMessageError::MessageTooLarge => 4,
        };
        byte.encode(buffer)
    }

    fn decode(buffer: &mut &'a [u8]) -> (r: Option<SendMessageError>) {
        let ghost s0 = buffer@;
        if buffer.len() == 0 {
            return None;
        }
        let byte = buffer[0];
        *buffer = vstd::slice::slice_subrange(*buffer, 1, buffer.len());
        proof {
            assert(s0.skip(1) =~= buffer@);
        }
        if byte == 0u8 {
            return Some(SendMessageError::InvalidProof);
        }
        if byte == 1u8 {
            return Some(SendMessageError::ChatNotFound);
        }
        if byte == 2u8 {
            return Some(SendMessageError::NotMember);
        }
        if byte == 3u8 {
            return Some(SendMessageError::InvalidAction);
        }
        if byte == 4u8 {
            return Some(SendMessageError::MessageTooLarge);
        }
        None
    }
}

#[derive(Clone, Copy, Debug, PartialEq, Eq, Structural)]
pub enum FetchMessagesError {
    ChatNotFound,
}

impl FetchMessagesError {
    /// The variant's number on the wire.
    pub open spec fn index(&self) -> u8 {
        match self {
            FetchMessagesError::ChatNotFound => 0u8,
        }
    }
}

impl<'a> Codec<'a> for FetchMessagesError {
    type Model = FetchMessagesError;

    open spec fn model(&self) -> FetchMessagesError {
        *self
    }

    open spec fn encoding(&self) -> Seq<u8> {
        seq![self.index()]
    }

    open spec fn parse(bytes: Seq<u8>) -> Option<(FetchMessagesError, nat)> {
        if bytes.len() == 0 {
            None
        } else {
                        if bytes[0] == 0u8 {
                Some((FetchMessagesError::ChatNotFound, 1))
            } else {
                None
            }
        }
    }

    open spec fn reads_back(&self, rest: Seq<u8>) -> bool {
        true
    }

    proof fn lemma_reads_back(&self, rest: Seq<u8>) {
    }

    fn encode<B: Buffer>(&self, buffer: &mut B) -> (r: Option<()>) {
        let byte: u8 = match self {
            FetchMessagesError::ChatNotFound => 0,
        };
        byte.encode(buffer)
    }

    fn decode(buffer: &mut &'a [u8]) -> (r: Option<FetchMessagesError>) {
        let ghost s0 = buffer@;
        if buffer.len() == 0 {
            return None;
        }
        let byte = buffer[0];
        *buffer = vstd::slice::slice_subrange(*buffer, 1, buffer.len());
        proof {
            assert(s0.skip(1) =~= buffer@);
        }
        if byte == 0u8 {
            return Some(FetchMessagesError::ChatNotFound);
        }
        None
    }
}

#[derive(Clone, Copy, Debug, PartialEq, Eq, Structural)]
pub enum FetchProfileError {
    NotFound,
    InvalidRecord,
}

impl FetchProfileError {
    /// The variant's number on the wire.
    pub open spec fn index(&self) -> u8 {
        match self {
            FetchProfileError::NotFound => 0u8,
            FetchProfileError::InvalidRecord => 1u8,
        }
    }
}

impl<'a> Codec<'a> for FetchProfileError {
    type Model = FetchProfileError;

    open spec fn model(&self) -> FetchProfileError {
        *self
    }

    open spec fn encoding(&self) -> Seq<u8> {
        seq![self.index()]
    }

    open spec fn parse(bytes: Seq<u8>) -> Option<(FetchProfileError, nat)> {
        if bytes.len() == 0 {
            None
        } else {
                        if bytes[0] == 0u8 {
                Some((FetchProfileError::NotFound, 1))
            } else             if bytes[0] == 1u8 {
                Some((FetchProfileError::InvalidRecord, 1))
            } else {
                None
            }
        }
    }

    open spec fn reads_back(&self, rest: Seq<u8>) -> bool {
        true
    }

    proof fn lemma_reads_back(&self, rest: Seq<u8>) {
    }

    fn encode<B: Buffer>(&self, buffer: &mut B) -> (r: Option<()>) {
        let byte: u8 = match self {
            FetchProfileError::NotFound => 0,
            FetchProfileError::InvalidRecord => 1,
        };
        byte.encode(buffer)
    }

    fn decode(buffer: &mut &'a [u8]) -> (r: Option<FetchProfileError>) {
        let ghost s0 = buffer@;
        if buffer.len() == 0 {
            return None;
        }
        let byte = buffer[0];
        *buffer = vstd::slice::slice_subrange(*buffer, 1, buffer.len());
        proof {
            assert(s0.skip(1) =~= buffer@);
        }
        if byte == 0u8 {
            return Some(FetchProfileError::NotFound);
        }
        if byte == 1u8 {
            return Some(FetchProfileError::InvalidRecord);
        }
        None
    }
}

#[derive(Clone, Copy, Debug, PartialEq, Eq, Structural)]
pub enum CreateAccountError {
    InvalidProof,
    AlreadyExists,
}

impl CreateAccountError {
    /// The variant's number on the wire.
    pub open spec fn index(&self) -> u8 {
        match self {
            CreateAccountError::InvalidProof => 0u8,
            CreateAccountError::AlreadyExists => 1u8,
        }
    }
}

impl<'a> Codec<'a> for CreateAccountError {
    type Model = CreateAccountError;

    open spec fn model(&self) -> CreateAccountError {
        *self
    }

    open spec fn encoding(&self) -> Seq<u8> {
        seq![self.index()]
    }

    open spec fn parse(bytes: Seq<u8>) -> Option<(CreateAccountError, nat)> {
        if bytes.len() == 0 {
            None
        } else {
                        if bytes[0] == 0u8 {
                Some((CreateAccountError::InvalidProof, 1))
            } else             if bytes[0] == 1u8 {
                Some((CreateAccountError::AlreadyExists, 1))
            } else {
                None
            }
        }
    }

    open spec fn reads_back(&self, rest: Seq<u8>) -> bool {
        true
    }

    proof fn lemma_reads_back(&self, rest: Seq<u8>) {
    }

    fn encode<B: Buffer>(&self, buffer: &mut B) -> (r: Option<()>) {
        let byte: u8 = match self {
            CreateAccountError::InvalidProof => 0,
            CreateAccountError::AlreadyExists => 1,
        };
        byte.encode(buffer)
    }

    fn decode(buffer: &mut &'a [u8]) -> (r: Option<CreateAccountError>) {
        let ghost s0 = buffer@;
        if buffer.len() == 0 {
            return None;
        }
        let byte = buffer[0];
        *buffer = vstd::slice::slice_subrange(*buffer, 1, buffer.len());
        proof {
            assert(s0.skip(1) =~= buffer@);
        }
        if byte == 0u8 {
            return Some(CreateAccountError::InvalidProof);
        }
        if byte == 1u8 {
            return Some(CreateAccountError::AlreadyExists);
        }
        None
    }
}

#[derive(Clone, Copy, Debug, PartialEq, Eq, Structural)]
pub enum SetVaultError {
    InvalidProof,
    NotFound,
    InvalidAction,
}

impl SetVaultError {
    /// The variant's number on the wire.
    pub open spec fn index(&self) -> u8 {
        match self {
            SetVaultError::InvalidProof => 0u8,
            SetVaultError::NotFound => 1u8,
            SetVaultError::InvalidAction => 2u8,
        }
    }
}

impl<'a> Codec<'a> for SetVaultError {
    type Model = SetVaultError;

    open spec fn model(&self) -> SetVaultError {
        *self
    }

    open spec fn encoding(&self) -> Seq<u8> {
        seq![self.index()]
    }

    open spec fn parse(bytes: Seq<u8>) -> Option<(SetVaultError, nat)> {
        if bytes.len() == 0 {
            None
        } else {
                        if bytes[0] == 0u8 {
                Some((SetVaultError::InvalidProof, 1))
            } else             if bytes[0] == 1u8 {
                Some((SetVaultError::NotFound, 1))
            } else             if bytes[0] == 2u8 {
                Some((SetVaultError::InvalidAction, 1))
            } else {
                None
            }
        }
    }

    open spec fn reads_back(&self, rest: Seq<u8>) -> bool {
        true
    }

    proof fn lemma_reads_back(&self, rest: Seq<u8>) {
    }

    fn encode<B: Buffer>(&self, buffer: &mut B) -> (r: Option<()>) {
        let byte: u8 = match self {
            SetVaultError::InvalidProof => 0,
            SetVaultError::NotFound => 1,
            SetVaultError::InvalidAction => 2,
        };
        byte.encode(buffer)
    }

    fn decode(buffer: &mut &'a [u8]) -> (r: Option<SetVaultError>) {
        let ghost s0 = buffer@;
        if buffer.len() == 0 {
            return None;
        }
        let byte = buffer[0];
        *buffer = vstd::slice::slice_subrange(*buffer, 1, buffer.len());
        proof {
            assert(s0.skip(1) =~= buffer@);
        }
        if byte == 0u8 {
            return Some(SetVaultError::InvalidProof);
        }
        if byte == 1u8 {
            return Some(SetVaultError::NotFound);
        }
        if byte == 2u8 {
            return Some(SetVaultError::InvalidAction);
        }
        None
    }
}

#[derive(Clone, Copy, Debug, PartialEq, Eq, Structural)]
pub enum FetchVaultError {
    NotFound,
}

impl FetchVaultError {
    /// The variant's number on the wire.
    pub open spec fn index(&self) -> u8 {
        match self {
            FetchVaultError::NotFound => 0u8,
        }
    }
}

impl<'a> Codec<'a> for FetchVaultError {
    type Model = FetchVaultError;

    open spec fn model(&self) -> FetchVaultError {
        *self
    }

    open spec fn encoding(&self) -> Seq<u8> {
        seq![self.index()]
    }

    open spec fn parse(bytes: Seq<u8>) -> Option<(FetchVaultError, nat)> {
        if bytes.len() == 0 {
            None
        } else {
                        if bytes[0] == 0u8 {
                Some((FetchVaultError::NotFound, 1))
            } else {
                None
            }
        }
    }

    open spec fn reads_back(&self, rest: Seq<u8>) -> bool {
        true
    }

    proof fn lemma_reads_back(&self, rest: Seq<u8>) {
    }

    fn encode<B: Buffer>(&self, buffer: &mut B) -> (r: Option<()>) {
        let byte: u8 = match self {
            FetchVaultError::NotFound => 0,
        };
        byte.encode(buffer)
    }

    fn decode(buffer: &mut &'a [u8]) -> (r: Option<FetchVaultError>) {
        let ghost s0 = buffer@;
        if buffer.len() == 0 {
            return None;
        }
        let byte = buffer[0];
        *buffer = vstd::slice::slice_subrange(*buffer, 1, buffer.len());
        proof {
            assert(s0.skip(1) =~= buffer@);
        }
        if byte == 0u8 {
            return Some(FetchVaultError::NotFound);
        }
        None
    }
}

#[derive(Clone, Copy, Debug, PartialEq, Eq, Structural)]
pub enum ReadMailError {
    InvalidProof,
    NotFound,
    InvalidAction,
}

impl ReadMailError {
    /// The variant's number on the wire.
    pub open spec fn index(&self) -> u8 {
        match self {
            ReadMailError::InvalidProof => 0u8,
            ReadMailError::NotFound => 1u8,
            ReadMailError::InvalidAction => 2u8,
        }
    }
}

impl<'a> Codec<'a> for ReadMailError {
    type Model = ReadMailError;

    open spec fn model(&self) -> ReadMailError {
        *self
    }

    open spec fn encoding(&self) -> Seq<u8> {
        seq![self.index()]
    }

    open spec fn parse(bytes: Seq<u8>) -> Option<(ReadMailError, nat)> {
        if bytes.len() == 0 {
            None
        } else {
                        if bytes[0] == 0u8 {
                Some((ReadMailError::InvalidProof, 1))
            } else             if bytes[0] == 1u8 {
                Some((ReadMailError::NotFound, 1))
            } else             if bytes[0] == 2u8 {
                Some((ReadMailError::InvalidAction, 1))
            } else {
                None
            }
        }
    }

    open spec fn reads_back(&self, rest: Seq<u8>) -> bool {
        true
    }

    proof fn lemma_reads_back(&self, rest: Seq<u8>) {
    }

    fn encode<B: Buffer>(&self, buffer: &mut B) -> (r: Option<()>) {
        let byte: u8 = match self {
            ReadMailError::InvalidProof => 0,
            ReadMailError::NotFound => 1,
            ReadMailError::InvalidAction => 2,
        };
        byte.encode(buffer)
    }

    fn decode(buffer: &mut &'a [u8]) -> (r: Option<ReadMailError>) {
        let ghost s0 = buffer@;
        if buffer.len() == 0 {
            return None;
        }
        let byte = buffer[0];
        *buffer = vstd::slice::slice_subrange(*buffer, 1, buffer.len());
        proof {
            assert(s0.skip(1) =~= buffer@);
        }
        if byte == 0u8 {
            return Some(ReadMailError::InvalidProof);
        }
        if byte == 1u8 {
            return Some(ReadMailError::NotFound);
        }
        if byte == 2u8 {
            return Some(ReadMailError::InvalidAction);
        }
        None
    }
}

#[derive(Clone, Copy, Debug, PartialEq, Eq, Structural)]
pub enum SendMailError {
    NotFound,
    MailboxFull,
}

impl SendMailError {
    /// The variant's number on the wire.
    pub open spec fn index(&self) -> u8 {
        match self {
            SendMailError::NotFound => 0u8,
            SendMailError::MailboxFull => 1u8,
        }
    }
}

impl<'a> Codec<'a> for SendMailError {
    type Model = SendMailError;

    open spec fn model(&self) -> SendMailError {
        *self
    }

    open spec fn encoding(&self) -> Seq<u8> {
        seq![self.index()]
    }

    open spec fn parse(bytes: Seq<u8>) -> Option<(SendMailError, nat)> {
        if bytes.len() == 0 {
            None
        } else {
                        if bytes[0] == 0u8 {
                Some((SendMailError::NotFound, 1))
            } else             if bytes[0] == 1u8 {
                Some((SendMailError::MailboxFull, 1))
            } else {
                None
            }
        }
    }

    open spec fn reads_back(&self, rest: Seq<u8>) -> bool {
        true
    }

    proof fn lemma_reads_back(&self, rest: Seq<u8>) {
    }

    fn encode<B: Buffer>(&self, buffer: &mut B) -> (r: Option<()>) {
        let byte: u8 = match self {
            SendMailError::NotFound => 0,
            SendMailError::MailboxFull => 1,
        };
        byte.encode(buffer)
    }

    fn decode(buffer: &mut &'a [u8]) -> (r: Option<SendMailError>) {
        let ghost s0 = buffer@;
        if buffer.len() == 0 {
            return None;
        }
        let byte = buffer[0];
        *buffer = vstd::slice::slice_subrange(*buffer, 1, buffer.len());
        proof {
            assert(s0.skip(1) =~= buffer@);
        }
        if byte == 0u8 {
            return Some(SendMailError::NotFound);
        }
        if byte == 1u8 {
            return Some(SendMailError::MailboxFull);
        }
        None
    }
}

/// Creating a chat.
pub enum CreateChat {
    Handler,
}

impl CreateChat {
    /// Creates the chat `request.1` with `request.0` as its only member, unless a chat of
    /// that name exists.
    pub fn execute(storage: &mut Storage, request: &(Identity, ChatName), meta: RequestMeta) -> (r: (
        Result<(), CreateChatError>,
        Option<Record>,
    ))
        ensures
            final(storage).profiles@ == old(storage).profiles@,
            final(storage).replicating == old(storage).replicating,
            find_key(old(storage).chats@, request.1) is Some ==> r.0 == Err::<(), _>(
                CreateChatError::AlreadyExists,
            ) && r.1 is None && final(storage).chats@ == old(storage).chats@,
            find_key(old(storage).chats@, request.1) is None ==> {
                let chat = final(storage).chats@.last().1;
                &&& r.0 == Ok::<(), CreateChatError>(())
                &&& final(storage).chats@ == old(storage).chats@.push((request.1, chat))
                &&& chat.members@.len() == 1
                &&& chat.members@[0].id == request.0
                &&& chat.members@[0].action == 0
                &&& chat.messages@ == (Seq::<u8>::empty(), 0u32)
                &&& record_model(r.1) == replication(
                    old(storage).replicating,
                    request.1.encoding(),
                    meta.encoding(),
                    request.encoding(),
                )
            },
    {
        let (identity, name) = *request;
        if storage.chats.contains_key(&name) {
            return (Err(CreateChatError::AlreadyExists), None);
        }
        let _ = storage.chats.insert(name, Chat::new(identity));
        let record = replicate(storage.replicating, &name, request, meta);
        (Ok(()), record)
    }
}

/// Fetching the messages of a chat.
pub enum FetchMessages {
    Handler,
}

impl FetchMessages {
    /// Up to twenty messages of chat `request.0` older than cursor `request.1`, and the
    /// cursor to go on from.
    pub fn execute(storage: &Storage, request: &(ChatName, Cursor)) -> (r: Result<
        (Vec<u8>, Cursor),
        FetchMessagesError,
    >)
        requires
            find_key(storage.chats@, request.0) matches Some(i) ==> {
                let blob = storage.chats@[i].1.messages@;
                let c = fetch_start(blob, request.1);
                blob.1 - c <= blob.0.len() ==> fetch_steps_ok(
                    blob.0,
                    blob.0.len() - (blob.1 - c),
                    c,
                    fetch_count(MESSAGE_FETCH_LIMIT),
                )
            },
        ensures
            find_key(storage.chats@, request.0) is None ==> r == Err::<(Vec<u8>, Cursor), _>(
                FetchMessagesError::ChatNotFound,
            ),
            find_key(storage.chats@, request.0) matches Some(i) ==> {
                let blob = storage.chats@[i].1.messages@;
                let c = fetch_start(blob, request.1);
                &&& r is Ok
                &&& if blob.1 - c > blob.0.len() {
                    r.unwrap().0@ == Seq::<u8>::empty() && r.unwrap().1 == c
                } else {
                    let (out, c2) = fetch_steps(
                        blob.0,
                        blob.0.len() - (blob.1 - c),
                        c,
                        fetch_count(MESSAGE_FETCH_LIMIT),
                    );
                    r.unwrap().0@ == out && r.unwrap().1 == c2
                }
            },
    {
        let (name, cursor) = *request;
        match storage.chats.index_of(&name) {
            None => Err(FetchMessagesError::ChatNotFound),
            Some(i) => {
                let chats = storage.chats.values();
                let chat: &Chat = chats[i];
                let mut buffer: Vec<u8> = Vec::new();
                let cursor = chat.messages.fetch(cursor, MESSAGE_FETCH_LIMIT, &mut buffer);
                proof {
                    assert(Seq::<u8>::empty() + buffer@ =~= buffer@);
                }
                Ok((buffer, cursor))
            },
        }
    }
}

/// Fetching the vault of a profile.
pub enum FetchVault {
    Handler,
}

impl FetchVault {
    /// The action count and the vault of the profile of `identity`.
    pub fn execute<'a>(storage: &'a Storage, identity: &Identity) -> (r: Result<
        (Nonce, &'a [u8]),
        FetchVaultError,
    >)
        ensures
            find_key(storage.profiles@, *identity) is None ==> r == Err::<(Nonce, &'a [u8]), _>(
                FetchVaultError::NotFound,
            ),
            find_key(storage.profiles@, *identity) matches Some(i) ==> r is Ok && r.unwrap().0
                == storage.profiles@[i].1.action && r.unwrap().1@ == storage.profiles@[i].1.vault@,
    {
        match storage.profiles.index_of(identity) {
            None => Err(FetchVaultError::NotFound),
            Some(i) => {
                let profiles = storage.profiles.values();
                let profile: &FullProfile = profiles[i];
                Ok((profile.action, profile.vault.as_slice()))
            },
        }
    }
}

/// Sending mail to a profile.
pub enum SendMail {
    Handler,
}

impl SendMail {
    /// Appends `request.1`, behind its length, to the mailbox of `request.0`, when the
    /// mailbox stays under its capacity.
    pub fn execute(storage: &mut Storage, request: &(Identity, &[u8]), meta: RequestMeta) -> (r: (
        Result<(), SendMailError>,
        Option<Record>,
    ))
        ensures
            final(storage).chats@ == old(storage).chats@,
            final(storage).replicating == old(storage).replicating,
            find_key(old(storage).profiles@, request.0) is None ==> r.0 == Err::<(), _>(
                SendMailError::NotFound,
            ) && r.1 is None && final(storage).profiles@ == old(storage).profiles@,
            find_key(old(storage).profiles@, request.0) matches Some(i) ==> {
                let profile = old(storage).profiles@[i].1;
                let content = request.1@;
                if profile.mail@.len() + content.len() >= MAIL_BOX_CAP {
                    &&& r.0 == Err::<(), _>(SendMailError::MailboxFull)
                    &&& r.1 is None
                    &&& final(storage).profiles@ == old(storage).profiles@
                } else {
                    let new_profile = final(storage).profiles@[i].1;
                    &&& r.0 == Ok::<(), SendMailError>(())
                    &&& final(storage).profiles@ == old(storage).profiles@.update(
                        i,
                        (old(storage).profiles@[i].0, new_profile),
                    )
                    &&& new_profile.mail@ == profile.mail@ + be16(content.len() as u16) + content
                    &&& new_profile.vault@ == profile.vault@
                    &&& new_profile.sign@ == profile.sign@
                    &&& new_profile.enc@ == profile.enc@
                    &&& new_profile.action == profile.action
                    &&& record_model(r.1) == replication(
                        old(storage).replicating,
                        request.0.encoding(),
                        meta.encoding(),
                        request.1.encoding(),
                    )
                }
            },
    {
        let (identity, content) = *request;
        match storage.profiles.index_of(&identity) {
            None => (Err(SendMailError::NotFound), None),
            Some(i) => {
                let replicating = storage.replicating;
                let profile = storage.profiles.value_at_mut(i);
                if profile.mail.len() as u128 + content.len() as u128 >= MAIL_BOX_CAP as u128 {
                    return (Err(SendMailError::MailboxFull), None);
                }
                let len: u16 = #[verifier::truncate] (content.len() as u16);
                profile.mail.push(#[verifier::truncate] ((len >> 8u16) as u8));
                profile.mail.push(#[verifier::truncate] ((len & 0xffu16) as u8));
                let _ = Buffer::extend_from_slice(&mut profile.mail, content);
                proof {
                    assert(profile.mail@ =~= old(storage).profiles@[i as int].1.mail@ + be16(
                        content@.len() as u16,
                    ) + content@);
                }
                let record = replicate(replicating, &identity, &content, meta);
                (Ok(()), record)
            },
        }
    }
}


/// What a handler reads of the proof that comes with a request, once checked: whether its
/// signature holds for the action, the identity its key belongs to, and the action number
/// it claims.
#[derive(Clone, Copy)]
pub struct ProofCheck {
    pub valid: bool,
    pub signer: Identity,
    pub nonce: Nonce,
}

impl ProofCheck {
    /// The check of `proof` for an action in chat `chat` by `signer`, the identity its key
    /// belongs to: whether its signature holds for the action, and the action it claims.
    pub fn of_chat(proof: ActionProof, chat: ChatName, signer: Identity) -> (r: ProofCheck)
        ensures
            r.valid == proof_holds(proof, chat_salt(chat@)),
            r.signer == signer,
            r.nonce == proof.no as Nonce,
    {
        ProofCheck { valid: proof.is_chat_valid(chat), signer, nonce: proof.no as Nonce }
    }

    /// The check of `proof` for an action on the profile of `signer`, the identity its key
    /// belongs to: whether its signature holds for the action, and the action it claims.
    pub fn of_profile(proof: ActionProof, signer: Identity) -> (r: ProofCheck)
        ensures
            r.valid == proof_holds(proof, profile_salt()),
            r.signer == signer,
            r.nonce == proof.no as Nonce,
    {
        ProofCheck { valid: proof.is_profile_valid(), signer, nonce: proof.no as Nonce }
    }
}

/// Moves the action count `current` to `new` when `new` is ahead of it; tells whether
/// it did.
pub fn advance_nonce(current: &mut Nonce, new: Nonce) -> (r: bool)
    ensures
        r == (new > *old(current)),
        *final(current) == (if r {
            new
        } else {
            *old(current)
        }),
{
    if new > *current {
        *current = new;
        true
    } else {
        false
    }
}

/// Index of the first member with identity `id`, if any.
pub open spec fn find_member(members: Seq<Member>, id: Identity) -> Option<int>
    decreases members.len(),
{
    if members.len() == 0 {
        None
    } else if members[0].id@ == id@ {
        Some(0)
    } else {
        match find_member(members.drop_first(), id) {
            Some(i) => Some(i + 1),
            None => None,
        }
    }
}

/// `find_member` is the first index holding a member with that identity.
pub proof fn lemma_find_member(members: Seq<Member>, id: Identity)
    ensures
        match find_member(members, id) {
            Some(i) => 0 <= i < members.len() && members[i].id@ == id@ && forall|j: int|
                0 <= j < i ==> (#[trigger] members[j]).id@ != id@,
            None => forall|j: int| 0 <= j < members.len() ==> (#[trigger] members[j]).id@ != id@,
        },
    decreases members.len(),
{
    if members.len() > 0 {
        lemma_find_member(members.drop_first(), id);
        if members[0].id@ != id@ {
            assert forall|j: int| 1 <= j < members.len() implies members[j]
                == members.drop_first()[j - 1] by {}
        }
    }
}

/// The position of the member with identity `id`.
fn member_position(members: &Vec<Member>, id: &Identity) -> (r: Option<usize>)
    ensures
        r matches Some(i) ==> Some(i as int) == find_member(members@, *id) && i < members@.len(),
        r is None ==> find_member(members@, *id) is None,
{
    proof {
        lemma_find_member(members@, *id);
    }
    let mut i: usize = 0;
    while i < members.len()
        invariant
            i <= members@.len(),
            forall|j: int| 0 <= j < i ==> (#[trigger] members@[j]).id@ != id@,
            match find_member(members@, *id) {
                Some(f) => 0 <= f < members@.len() && members@[f].id@ == id@ && forall|j: int|
                    0 <= j < f ==> (#[trigger] members@[j]).id@ != id@,
                None => forall|j: int| 0 <= j < members@.len() ==> (#[trigger] members@[j]).id@ != id@,
            },
        decreases members@.len() - i,
    {
        if members[i].id == *id {
            return Some(i);
        }
        i = i + 1;
    }
    None
}

/// The chats after the chat at `i` took the members `members`, all else staying.
pub open spec fn chat_members_set(
    before: Seq<(ChatName, Chat)>,
    after: Seq<(ChatName, Chat)>,
    i: int,
    members: Seq<Member>,
) -> bool {
    &&& after.len() == before.len()
    &&& forall|j: int| 0 <= j < before.len() && j != i ==> after[j] == before[j]
    &&& after[i].0 == before[i].0
    &&& after[i].1.members@ == members
    &&& after[i].1.messages@ == before[i].1.messages@
}

/// The members after the one at `m` moved its action count to `nonce`.
pub open spec fn member_advanced(members: Seq<Member>, m: int, nonce: Nonce) -> Seq<Member> {
    members.update(m, Member { id: members[m].id, action: nonce })
}

/// Adding a user to a chat.
pub enum AddUser {
    Handler,
}

impl AddUser {
    /// Adds `request.0` to chat `request.1` for a member who signed the request with an
    /// action number ahead of theirs. The action count of that member moves on even when
    /// the user turns out to be a member already.
    pub fn execute<'a, P: Codec<'a>>(
        storage: &mut Storage,
        request: &(Identity, ChatName, P),
        proof: &ProofCheck,
        meta: RequestMeta,
    ) -> (r: (Result<(), AddUserError>, Option<Record>))
        ensures
            final(storage).profiles@ == old(storage).profiles@,
            final(storage).replicating == old(storage).replicating,
            !proof.valid ==> r.0 == Err::<(), _>(AddUserError::InvalidProof) && r.1 is None
                && final(storage).chats@ == old(storage).chats@,
            proof.valid && find_key(old(storage).chats@, request.1) is None ==> r.0 == Err::<
                (),
                _,
            >(AddUserError::InvalidAction) && r.1 is None && final(storage).chats@ == old(
                storage,
            ).chats@,
            proof.valid ==> (find_key(old(storage).chats@, request.1) matches Some(i) ==> {
                let members = old(storage).chats@[i].1.members@;
                match find_member(members, proof.signer) {
                    None => r.0 == Err::<(), _>(AddUserError::NotMember) && r.1 is None
                        && final(storage).chats@ == old(storage).chats@,
                    Some(m) => if proof.nonce <= members[m].action {
                        r.0 == Err::<(), _>(AddUserError::InvalidAction) && r.1 is None
                            && final(storage).chats@ == old(storage).chats@
                    } else {
                        let advanced = member_advanced(members, m, proof.nonce);
                        if find_member(advanced, request.0) is Some {
                            &&& r.0 == Err::<(), _>(AddUserError::AlreadyExists)
                            &&& r.1 is None
                            &&& chat_members_set(old(storage).chats@, final(storage).chats@, i, advanced)
                        } else {
                            &&& r.0 == Ok::<(), AddUserError>(())
                            &&& chat_members_set(
                                old(storage).chats@,
                                final(storage).chats@,
                                i,
                                advanced.push(Member { id: request.0, action: 0 }),
                            )
                            &&& record_model(r.1) == replication(
                                old(storage).replicating,
                                request.1.encoding(),
                                meta.encoding(),
                                request.encoding(),
                            )
                        }
                    },
                }
            }),
    {
        if !proof.valid {
            return (Err(AddUserError::InvalidProof), None);
        }
        let identity = request.0;
        let name = request.1;
        let i = match storage.chats.index_of(&name) {
            Some(i) => i,
            None => return (Err(AddUserError::InvalidAction), None),
        };
        let replicating = storage.replicating;
        let chat = storage.chats.value_at_mut(i);
        let m = match member_position(&chat.members, &proof.signer) {
            Some(m) => m,
            None => return (Err(AddUserError::NotMember), None),
        };
        let mut action = chat.members[m].action;
        if !advance_nonce(&mut action, proof.nonce) {
            return (Err(AddUserError::InvalidAction), None);
        }
        let id = chat.members[m].id;
        chat.members.set(m, Member { id, action });
        assert(chat.members@ =~= member_advanced(old(storage).chats@[i as int].1.members@, m as int, proof.nonce));
        if member_position(&chat.members, &identity).is_some() {
            return (Err(AddUserError::AlreadyExists), None);
        }
        chat.members.push(Member::new(identity));
        let record = replicate(replicating, &name, request, meta);
        (Ok(()), record)
    }
}

/// The profiles after the profile at `i` was changed: all else stays, and the changed one
/// keeps its keys.
pub open spec fn profile_changed(before: Seq<(Identity, FullProfile)>, after: Seq<(Identity, FullProfile)>, i: int) -> bool {
    &&& after.len() == before.len()
    &&& forall|j: int| 0 <= j < before.len() && j != i ==> after[j] == before[j]
    &&& after[i].0 == before[i].0
    &&& after[i].1.sign@ == before[i].1.sign@
    &&& after[i].1.enc@ == before[i].1.enc@
}

/// Creating an account.
pub enum CreateAccount {
    Handler,
}

impl CreateAccount {
    /// Creates the profile of the signer of the proof, with the keys `sign` and `enc`,
    /// the proof's action number, and an empty vault and mailbox.
    pub fn execute<'a, R: Codec<'a>>(
        storage: &mut Storage,
        request: &R,
        proof: &ProofCheck,
        sign: &[u8],
        enc: &[u8],
        meta: RequestMeta,
    ) -> (r: (Result<(), CreateAccountError>, Option<Record>))
        ensures
            final(storage).chats@ == old(storage).chats@,
            final(storage).replicating == old(storage).replicating,
            !proof.valid ==> r.0 == Err::<(), _>(CreateAccountError::InvalidProof) && r.1 is None
                && final(storage).profiles@ == old(storage).profiles@,
            proof.valid && find_key(old(storage).profiles@, proof.signer) is Some ==> r.0 == Err::<
                (),
                _,
            >(CreateAccountError::AlreadyExists) && r.1 is None && final(storage).profiles@ == old(
                storage,
            ).profiles@,
            proof.valid && find_key(old(storage).profiles@, proof.signer) is None ==> {
                let profile = final(storage).profiles@.last().1;
                &&& r.0 == Ok::<(), CreateAccountError>(())
                &&& final(storage).profiles@ == old(storage).profiles@.push((proof.signer, profile))
                &&& profile.sign@ == sign@
                &&& profile.enc@ == enc@
                &&& profile.action == proof.nonce
                &&& profile.vault@ == Seq::<u8>::empty()
                &&& profile.mail@ == Seq::<u8>::empty()
                &&& record_model(r.1) == replication(
                    old(storage).replicating,
                    request.encoding(),
                    meta.encoding(),
                    profile.encoding(),
                )
            },
    {
        if !proof.valid {
            return (Err(CreateAccountError::InvalidProof), None);
        }
        if storage.profiles.contains_key(&proof.signer) {
            return (Err(CreateAccountError::AlreadyExists), None);
        }
        let profile = FullProfile {
            sign: vstd::slice::slice_to_vec(sign),
            enc: vstd::slice::slice_to_vec(enc),
            action: proof.nonce,
            vault: Vec::new(),
            mail: Vec::new(),
        };
        let record = replicate(storage.replicating, request, &profile, meta);
        let _ = storage.profiles.insert(proof.signer, profile);
        (Ok(()), record)
    }
}

/// Replacing the vault of a profile.
pub enum SetVault {
    Handler,
}

impl SetVault {
    /// Replaces the vault of the signer's profile by `vault`, when the proof's action
    /// number is ahead of the profile's.
    pub fn execute<'a, R: Codec<'a>>(
        storage: &mut Storage,
        request: &R,
        proof: &ProofCheck,
        vault: &[u8],
        meta: RequestMeta,
    ) -> (r: (Result<(), SetVaultError>, Option<Record>))
        ensures
            final(storage).chats@ == old(storage).chats@,
            final(storage).replicating == old(storage).replicating,
            !proof.valid ==> r.0 == Err::<(), _>(SetVaultError::InvalidProof) && r.1 is None
                && final(storage).profiles@ == old(storage).profiles@,
            proof.valid && find_key(old(storage).profiles@, proof.signer) is None ==> r.0 == Err::<
                (),
                _,
            >(SetVaultError::NotFound) && r.1 is None && final(storage).profiles@ == old(
                storage,
            ).profiles@,
            proof.valid ==> (find_key(old(storage).profiles@, proof.signer) matches Some(i) ==> {
                let before = old(storage).profiles@[i].1;
                let after = final(storage).profiles@[i].1;
                if proof.nonce <= before.action {
                    r.0 == Err::<(), _>(SetVaultError::InvalidAction) && r.1 is None
                        && final(storage).profiles@ == old(storage).profiles@
                } else {
                    &&& r.0 == Ok::<(), SetVaultError>(())
                    &&& profile_changed(old(storage).profiles@, final(storage).profiles@, i)
                    &&& after.vault@ == vault@
                    &&& after.action == proof.nonce
                    &&& after.mail@ == before.mail@
                    &&& record_model(r.1) == replication(
                        old(storage).replicating,
                        proof.signer.encoding(),
                        meta.encoding(),
                        request.encoding(),
                    )
                }
            }),
    {
        if !proof.valid {
            return (Err(SetVaultError::InvalidProof), None);
        }
        let i = match storage.profiles.index_of(&proof.signer) {
            Some(i) => i,
            None => return (Err(SetVaultError::NotFound), None),
        };
        let replicating = storage.replicating;
        let profile = storage.profiles.value_at_mut(i);
        if !advance_nonce(&mut profile.action, proof.nonce) {
            return (Err(SetVaultError::InvalidAction), None);
        }
        profile.vault.clear();
        let _ = Buffer::extend_from_slice(&mut profile.vault, vault);
        proof {
            assert(profile.vault@ =~= vault@);
        }
        let record = replicate(replicating, &proof.signer, request, meta);
        (Ok(()), record)
    }
}

/// Reading the mailbox of a profile.
pub enum ReadMail {
    Handler,
}

impl ReadMail {
    /// Takes the mail of the signer's profile, leaving its mailbox empty, when the proof's
    /// action number is ahead of the profile's.
    pub fn execute(storage: &mut Storage, proof: &ProofCheck) -> (r: Result<Vec<u8>, ReadMailError>)
        ensures
            final(storage).chats@ == old(storage).chats@,
            final(storage).replicating == old(storage).replicating,
            !proof.valid ==> r == Err::<Vec<u8>, _>(ReadMailError::InvalidProof)
                && final(storage).profiles@ == old(storage).profiles@,
            proof.valid && find_key(old(storage).profiles@, proof.signer) is None ==> r == Err::<
                Vec<u8>,
                _,
            >(ReadMailError::NotFound) && final(storage).profiles@ == old(storage).profiles@,
            proof.valid ==> (find_key(old(storage).profiles@, proof.signer) matches Some(i) ==> {
                let before = old(storage).profiles@[i].1;
                let after = final(storage).profiles@[i].1;
                if proof.nonce <= before.action {
                    r == Err::<Vec<u8>, _>(ReadMailError::InvalidAction) && final(storage).profiles@
                        == old(storage).profiles@
                } else {
                    &&& r is Ok
                    &&& r.unwrap()@ == before.mail@
                    &&& profile_changed(old(storage).profiles@, final(storage).profiles@, i)
                    &&& after.mail@ == Seq::<u8>::empty()
                    &&& after.action == proof.nonce
                    &&& after.vault@ == before.vault@
                }
            }),
    {
        if !proof.valid {
            return Err(ReadMailError::InvalidProof);
        }
        let i = match storage.profiles.index_of(&proof.signer) {
            Some(i) => i,
            None => return Err(ReadMailError::NotFound),
        };
        let profile = storage.profiles.value_at_mut(i);
        if !advance_nonce(&mut profile.action, proof.nonce) {
            return Err(ReadMailError::InvalidAction);
        }
        let mut mail: Vec<u8> = Vec::new();
        core::mem::swap(&mut mail, &mut profile.mail);
        Ok(mail)
    }
}

/// The chats after the chat at `i` took the members `members` and the history `messages`,
/// all else staying.
pub open spec fn chat_set(
    before: Seq<(ChatName, Chat)>,
    after: Seq<(ChatName, Chat)>,
    i: int,
    members: Seq<Member>,
    messages: (Seq<u8>, Cursor),
) -> bool {
    &&& after.len() == before.len()
    &&& forall|j: int| 0 <= j < before.len() && j != i ==> after[j] == before[j]
    &&& after[i].0 == before[i].0
    &&& after[i].1.members@ == members
    &&& after[i].1.messages@ == messages
}

/// Sending a message to a chat.
pub enum SendMessage {
    Handler,
}

impl SendMessage {
    /// Appends the message `request.2` to chat `request.0` for a member who signed it with
    /// an action number ahead of theirs, and publishes the proof and the message under the
    /// chat's name.
    pub fn execute<'a, P: Codec<'a> + Copy>(
        storage: &mut Storage,
        request: &(ChatName, P, Reminder<'a>),
        proof: &ProofCheck,
        events: &mut PacketBuffer<ChatName>,
        meta: RequestMeta,
    ) -> (r: (Result<(), SendMessageError>, Option<Record>))
        requires
            proof.valid && request.2.0@.len() <= MAX_MESSAGE_SIZE ==> (find_key(
                old(storage).chats@,
                request.0,
            ) matches Some(i) ==> (find_member(old(storage).chats@[i].1.members@, proof.signer) matches Some(m)
                ==> (proof.nonce > old(storage).chats@[i].1.members@[m].action ==> push_ok(
                old(storage).chats@[i].1.messages@,
                request.2.0@,
            )))),
        ensures
            final(storage).profiles@ == old(storage).profiles@,
            final(storage).replicating == old(storage).replicating,
            r.0 is Err ==> r.1 is None && final(storage).chats@ == old(storage).chats@
                && final(events)@ == old(events)@,
            !proof.valid ==> r.0 == Err::<(), _>(SendMessageError::InvalidProof),
            proof.valid && request.2.0@.len() > MAX_MESSAGE_SIZE ==> r.0 == Err::<(), _>(
                SendMessageError::MessageTooLarge,
            ),
            proof.valid && request.2.0@.len() <= MAX_MESSAGE_SIZE ==> (find_key(
                old(storage).chats@,
                request.0,
            ) is None ==> r.0 == Err::<(), _>(SendMessageError::ChatNotFound)),
            proof.valid && request.2.0@.len() <= MAX_MESSAGE_SIZE ==> (find_key(
                old(storage).chats@,
                request.0,
            ) matches Some(i) ==> {
                let chat = old(storage).chats@[i].1;
                match find_member(chat.members@, proof.signer) {
                    None => r.0 == Err::<(), _>(SendMessageError::NotMember),
                    Some(m) => if proof.nonce <= chat.members@[m].action {
                        r.0 == Err::<(), _>(SendMessageError::InvalidAction)
                    } else {
                        &&& r.0 == Ok::<(), SendMessageError>(())
                        &&& chat_set(
                            old(storage).chats@,
                            final(storage).chats@,
                            i,
                            member_advanced(chat.members@, m, proof.nonce),
                            pushed(chat.messages@, request.2.0@),
                        )
                        &&& record_model(r.1) == replication(
                            old(storage).replicating,
                            request.0.encoding(),
                            meta.encoding(),
                            request.encoding(),
                        )
                        &&& final(events)@.0 == old(events)@.0 + request.1.encoding()
                            + request.2.encoding()
                        &&& final(events)@.1 == old(events)@.1.push(
                            (old(events)@.0.len() as usize, request.0),
                        )
                    },
                }
            }),
    {
        if !proof.valid {
            return (Err(SendMessageError::InvalidProof), None);
        }
        let name = request.0;
        let message = request.2;
        if message.0.len() > MAX_MESSAGE_SIZE {
            return (Err(SendMessageError::MessageTooLarge), None);
        }
        let i = match storage.chats.index_of(&name) {
            Some(i) => i,
            None => return (Err(SendMessageError::ChatNotFound), None),
        };
        let replicating = storage.replicating;
        let chat = storage.chats.value_at_mut(i);
        let m = match member_position(&chat.members, &proof.signer) {
            Some(m) => m,
            None => return (Err(SendMessageError::NotMember), None),
        };
        let mut action = chat.members[m].action;
        if !advance_nonce(&mut action, proof.nonce) {
            return (Err(SendMessageError::InvalidAction), None);
        }
        let id = chat.members[m].id;
        chat.members.set(m, Member { id, action });
        chat.messages.push(message.0);
        let record = replicate(replicating, &name, request, meta);
        events.push(&(request.1, message), name);
        (Ok(()), record)
    }
}

/// What a search for the peers closest to a key is keyed by.
pub trait Searcher {
    type Key<'a>: Codec<'a>;
}

/// Searching for the peers that keep a profile.
pub struct ProfileQ;

impl Searcher for ProfileQ {
    type Key<'a> = Identity;
}

/// Searching for the peers that keep a chat.
pub struct ChatQ;

impl Searcher for ChatQ {
    type Key<'a> = ChatName;
}

} // verus!
