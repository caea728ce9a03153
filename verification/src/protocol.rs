//! Messages between users and nodes: chat messages, their proofs, and what they name.

use crate::contracts::SIGN_PUBLIC_KEY_SIZE;
use crate::crypto::{
    dilithium_accepts, ed25519_accepts, ed25519_public_of, ed25519_signature_of, EncKeyPair, EncPublicKey,
    KeyPair, PublicKey, Signature, DILI_PUBLIC_KEY_SIZE, DILI_SIGNATURE_SIZE, SHARED_SECRET_SIZE,
};
use crate::name::ChatName;
use vstd::prelude::*;
use vstd::utf8::*;

verus! {

/// Bytes of a serialized signature.
pub const SIGNATURE_SIZE: usize = 3357;

/// Bytes of the salt a proof's action is signed with.
pub const SALT_SIZE: usize = 32;

/// Bytes of an action number as signed.
pub const NO_SIZE: usize = 4;

/// Number of an action of a user.
pub type ActionNo = u32;

/// A signed claim that the holder of `pk` takes action number `no`.
#[derive(Clone, Copy)]
pub struct ActionProof {
    pub pk: [u8; SIGN_PUBLIC_KEY_SIZE],
    pub no: ActionNo,
    pub sig: [u8; SIGNATURE_SIZE],
}

/// Little-endian bytes of a 32-bit number.
pub open spec fn le32(x: u32) -> Seq<u8> {
    seq![(x & 0xff) as u8, ((x >> 8) & 0xff) as u8, ((x >> 16) & 0xff) as u8, ((x >> 24) & 0xff) as u8]
}

/// What an action is signed as: the salt, then the action number in little-endian order.
pub open spec fn salted(salt: Seq<u8>, no: ActionNo) -> Seq<u8> {
    salt + le32(no)
}

/// The salt of a chat's actions: the name's bytes, then zeros.
pub open spec fn chat_salt(name: Seq<char>) -> Seq<u8> {
    encode_utf8(name) + Seq::new((SALT_SIZE - encode_utf8(name).len()) as nat, |i: int| 0u8)
}

/// The salt of a profile's actions: all `0xff`.
pub open spec fn profile_salt() -> Seq<u8> {
    Seq::new(SALT_SIZE as nat, |i: int| 0xffu8)
}

impl ActionProof {
    /// The bytes signed for action `no` under `salt`.
    pub fn build_salt(salt: [u8; SALT_SIZE], no: ActionNo) -> (r: [u8; 36])
        ensures
            r@ == salted(salt@, no),
    {
        let mut out = [0u8; 36];
        let mut i: usize = 0;
        while i < SALT_SIZE
            invariant
                i <= SALT_SIZE,
                out@.len() == 36,
                forall|k: int| 0 <= k < i ==> out@[k] == salt@[k],
            decreases SALT_SIZE - i,
        {
            out[i] = salt[i];
            i = i + 1;
        }
        out[32] = (no & 0xff) as u8;
        out[33] = ((no >> 8u32) & 0xff) as u8;
        out[34] = ((no >> 16u32) & 0xff) as u8;
        out[35] = ((no >> 24u32) & 0xff) as u8;
        assert(out@ =~= salted(salt@, no));
        out
    }

    /// The salt of a chat's actions.
    pub fn chat_salt(name: &ChatName) -> (r: [u8; SALT_SIZE])
        ensures
            r@ == chat_salt(name@),
    {
        let bytes = name.as_bytes();
        let mut plane = [0u8; SALT_SIZE];
        let mut i: usize = 0;
        while i < bytes.len()
            invariant
                bytes@ == encode_utf8(name@),
                bytes@.len() <= SALT_SIZE,
                i <= bytes@.len(),
                plane@.len() == SALT_SIZE,
                forall|k: int| 0 <= k < i ==> plane@[k] == bytes@[k],
                forall|k: int| i <= k < SALT_SIZE ==> plane@[k] == 0u8,
            decreases bytes@.len() - i,
        {
            plane[i] = bytes[i];
            i = i + 1;
        }
        assert(plane@ =~= chat_salt(name@));
        plane
    }
}

/// A message to a chat: the chat, the content, and the sender's proof.
#[derive(Clone, Copy)]
pub struct Message<'a> {
    pub chat: ChatName,
    pub content: &'a [u8],
    pub proof: ActionProof,
}

/// A message as passed between the nodes keeping its chat, which the record's key names.
#[derive(Clone, Copy)]
pub struct ReplicateMessage<'a> {
    pub content: &'a [u8],
    pub proof: ActionProof,
}

impl<'a> Message<'a> {
    /// The message without its chat.
    pub fn to_replicate(self) -> (r: ReplicateMessage<'a>)
        ensures
            r.content == self.content,
            r.proof == self.proof,
    {
        ReplicateMessage { content: self.content, proof: self.proof }
    }
}

impl<'a> ReplicateMessage<'a> {
    /// The message to chat `chat`.
    pub fn to_message(self, chat: ChatName) -> (r: Message<'a>)
        ensures
            r.chat == chat,
            r.content == self.content,
            r.proof == self.proof,
    {
        Message { chat, content: self.content, proof: self.proof }
    }
}

/// A user, by the public key, or a chat, by its name.
#[derive(Clone, Copy)]
pub enum UserOrChat {
    User([u8; SIGN_PUBLIC_KEY_SIZE]),
    Chat(ChatName),
}

impl UserOrChat {
    /// The bytes that identify it: the key, or the name's bytes.
    pub fn as_slice(&self) -> (r: &[u8])
        ensures
            self matches UserOrChat::User(pk) ==> r@ == pk@,
            self matches UserOrChat::Chat(name) ==> r@ == encode_utf8(name@),
    {
        match self {
            UserOrChat::User(pk) => pk.as_slice(),
            UserOrChat::Chat(name) => name.as_bytes(),
        }
    }
}

/// Whether the signature of `p` holds, under both schemes, for its action under `salt`.
pub open spec fn proof_holds(p: ActionProof, salt: Seq<u8>) -> bool {
    let msg = salted(salt, p.no);
    &&& ed25519_accepts(
        p.pk@.subrange(DILI_PUBLIC_KEY_SIZE as int, SIGN_PUBLIC_KEY_SIZE as int),
        msg,
        p.sig@.subrange(DILI_SIGNATURE_SIZE as int, SIGNATURE_SIZE as int),
    )
    &&& dilithium_accepts(
        p.sig@.subrange(0, DILI_SIGNATURE_SIZE as int),
        msg,
        p.pk@.subrange(0, DILI_PUBLIC_KEY_SIZE as int),
    )
}

/// What a proof made by `sk` for action `no` under `salt` holds, as far as it is known:
/// the action number, the ed25519 public key and the ed25519 signature.
pub open spec fn made_by(p: ActionProof, sk: KeyPair, salt: Seq<u8>, no: ActionNo) -> bool {
    &&& p.no == no
    &&& p.pk@.subrange(0, DILI_PUBLIC_KEY_SIZE as int) == sk.dili_public@
    &&& p.pk@.subrange(DILI_PUBLIC_KEY_SIZE as int, SIGN_PUBLIC_KEY_SIZE as int) == ed25519_public_of(sk.ed@)
    &&& p.sig@.subrange(DILI_SIGNATURE_SIZE as int, SIGNATURE_SIZE as int) == ed25519_signature_of(
        sk.ed@,
        salted(salt, no),
    )
}

impl ActionProof {
    /// Signs the next action under `salt`, moving the action count on.
    fn new(no: &mut ActionNo, sk: &KeyPair, salt: [u8; SALT_SIZE]) -> (r: ActionProof)
        requires
            *old(no) < u32::MAX,
        ensures
            *final(no) == *old(no) + 1,
            made_by(r, *sk, salt@, *old(no)),
    {
        *no = *no + 1;
        let signed = ActionProof::build_salt(salt, *no - 1);
        let signature = sk.sign(signed.as_slice());
        let public = sk.public_key();
        let sig = signature.to_bytes();
        let pk = public.to_bytes();
        proof {
            assert(sig@.subrange(DILI_SIGNATURE_SIZE as int, SIGNATURE_SIZE as int) =~= signature.ed@);
            assert(pk@.subrange(DILI_PUBLIC_KEY_SIZE as int, SIGN_PUBLIC_KEY_SIZE as int) =~= public.ed@);
            assert(pk@.subrange(0, DILI_PUBLIC_KEY_SIZE as int) =~= public.dili@);
        }
        ActionProof { pk, no: *no - 1, sig }
    }
}

impl ActionProof {
    /// Signs the next action on the user's profile, moving the action count on.
    pub fn for_profile(no: &mut ActionNo, sk: &KeyPair) -> (r: ActionProof)
        requires
            *old(no) < u32::MAX,
        ensures
            *final(no) == *old(no) + 1,
            made_by(r, *sk, profile_salt(), *old(no)),
    {
        let salt = [0xffu8; SALT_SIZE];
        assert(salt@ =~= profile_salt());
        ActionProof::new(no, sk, salt)
    }

    /// Signs the next action in chat `salt`, moving the action count on.
    pub fn for_chat(no: &mut ActionNo, sk: &KeyPair, salt: ChatName) -> (r: ActionProof)
        requires
            *old(no) < u32::MAX,
        ensures
            *final(no) == *old(no) + 1,
            made_by(r, *sk, chat_salt(salt@), *old(no)),
    {
        let plane = ActionProof::chat_salt(&salt);
        ActionProof::new(no, sk, plane)
    }

    /// Whether the signature holds for the proof's action under `salt`.
    fn is_valid(self, salt: [u8; SALT_SIZE]) -> (r: bool)
        ensures
            r == proof_holds(self, salt@),
    {
        let signed = ActionProof::build_salt(salt, self.no);
        let public = PublicKey::from_bytes(&self.pk);
        let signature = Signature::from_bytes(&self.sig);
        proof {
            assert(public.ed@ =~= self.pk@.subrange(DILI_PUBLIC_KEY_SIZE as int, SIGN_PUBLIC_KEY_SIZE as int));
            assert(public.dili@ =~= self.pk@.subrange(0, DILI_PUBLIC_KEY_SIZE as int));
            assert(signature.ed@ =~= self.sig@.subrange(DILI_SIGNATURE_SIZE as int, SIGNATURE_SIZE as int));
            assert(signature.dili@ =~= self.sig@.subrange(0, DILI_SIGNATURE_SIZE as int));
        }
        public.verify(signed.as_slice(), &signature).is_ok()
    }

    /// Whether the signature holds for the proof's action on a profile.
    pub fn is_profile_valid(self) -> (r: bool)
        ensures
            r == proof_holds(self, profile_salt()),
    {
        let salt = [0xffu8; SALT_SIZE];
        assert(salt@ =~= profile_salt());
        self.is_valid(salt)
    }

    /// Whether the signature holds for the proof's action in chat `salt`.
    pub fn is_chat_valid(self, salt: ChatName) -> (r: bool)
        ensures
            r == proof_holds(self, chat_salt(salt@)),
    {
        let plane = ActionProof::chat_salt(&salt);
        self.is_valid(plane)
    }
}

/// The keys of a user: signing, encryption, and the secret of their vault.
pub struct UserKeys {
    pub sign: KeyPair,
    pub enc: EncKeyPair,
    pub vault: [u8; SHARED_SECRET_SIZE],
}

/// The public keys of a user.
#[derive(Clone, Copy)]
pub struct UserIdentity {
    pub sign: PublicKey,
    pub enc: EncPublicKey,
}

impl UserKeys {
    /// Fresh random keys, or why kyber could not make its key pair.
    pub fn new() -> (r: Result<UserKeys, pqc_kyber::KyberError>)
        ensures
            r matches Ok(k) ==> k.enc.kyb_secret@.subrange(1152, 2336) == k.enc.kyb_public@,
    {
        let enc = match EncKeyPair::new() {
            Ok(k) => k,
            Err(e) => return Err(e),
        };
        Ok(UserKeys { sign: KeyPair::new(), enc, vault: crate::crypto::new_secret() })
    }

    /// The public halves of the keys.
    pub fn identity(&self) -> (r: UserIdentity)
        ensures
            r.sign.dili == self.sign.dili_public,
            r.sign.ed@ == ed25519_public_of(self.sign.ed@),
            r.enc.kyb == self.enc.kyb_public,
            r.enc.x@ == crate::crypto::x25519_public_of(self.enc.x@),
    {
        UserIdentity { sign: self.sign.public_key(), enc: self.enc.public_key() }
    }
}

} // verus!
