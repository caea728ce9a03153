//! What the chain records of users: their name and public keys.

use crate::name::{array_to_arrstr, trimmed_len, UserName};
use vstd::prelude::*;
use vstd::utf8::*;

verus! {

/// Bytes of a serialized public signing key.
pub const SIGN_PUBLIC_KEY_SIZE: usize = 1984;

/// Bytes of a serialized public encryption key.
pub const ENC_PUBLIC_KEY_SIZE: usize = 1216;

pub const STAKE_AMOUNT: u128 = 1000000;

pub const INIT_VOTE_POOL: u32 = 3;

pub const STAKE_DURATION_MILIS: u64 = 1000 * 60 * 60 * 24 * 30;

pub const BASE_SLASH: u128 = 2;

pub const SLASH_FACTOR: u32 = 1;

/// A user name as stored: its bytes padded with `0xff` to 32 bytes.
pub type RawUserName = [u8; 32];

/// A user's record as stored, with the name not yet checked.
#[derive(Clone, Copy)]
pub struct RawUserData {
    pub name: RawUserName,
    pub sign: [u8; SIGN_PUBLIC_KEY_SIZE],
    pub enc: [u8; ENC_PUBLIC_KEY_SIZE],
}

/// A user's record: name and public keys.
#[derive(Clone, Copy)]
pub struct UserData {
    pub name: UserName,
    pub sign: [u8; SIGN_PUBLIC_KEY_SIZE],
    pub enc: [u8; ENC_PUBLIC_KEY_SIZE],
}

/// The public keys of a user.
#[derive(Clone, Copy)]
pub struct UserIdentity {
    pub sign: [u8; SIGN_PUBLIC_KEY_SIZE],
    pub enc: [u8; ENC_PUBLIC_KEY_SIZE],
}

/// What the chain records of a node: its public keys and where it listens.
#[derive(Clone, Copy, Debug)]
pub struct NodeData {
    pub sign: [u8; SIGN_PUBLIC_KEY_SIZE],
    pub enc: [u8; ENC_PUBLIC_KEY_SIZE],
    /// The four bytes of its IPv4 address.
    pub ip: [u8; 4],
    pub port: u16,
}

impl UserData {
    /// The user's public keys.
    pub fn to_identity(self) -> (r: UserIdentity)
        ensures
            r.sign == self.sign,
            r.enc == self.enc,
    {
        UserIdentity { sign: self.sign, enc: self.enc }
    }

    /// The record, when its name bytes hold a name.
    pub fn from_raw(raw: RawUserData) -> (r: Result<UserData, ()>)
        ensures
            r is Ok <==> valid_utf8(raw.name@.take(trimmed_len(raw.name@) as int)),
            r matches Ok(d) ==> encode_utf8(d.name@) == raw.name@.take(trimmed_len(raw.name@) as int)
                && d.sign == raw.sign && d.enc == raw.enc,
    {
        match array_to_arrstr(raw.name) {
            Some(name) => Ok(UserData { name, sign: raw.sign, enc: raw.enc }),
            None => Err(()),
        }
    }
}

impl UserIdentity {
    /// The record of the user with these keys and the name `name`.
    pub fn to_data(self, name: UserName) -> (r: UserData)
        ensures
            r.name == name,
            r.sign == self.sign,
            r.enc == self.enc,
    {
        UserData { name, sign: self.sign, enc: self.enc }
    }
}

} // verus!
