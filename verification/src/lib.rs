use vstd::prelude::*;

pub mod chat;
pub mod codec;
pub mod config;
pub mod contracts;
pub mod crypto;
pub mod dispatch;
pub mod galois;
pub mod modp;
pub mod name;
pub mod onion;
pub mod poly;
pub mod protocol;
pub mod storage;
pub mod stream;

verus! {
} // verus!
