//! Routing through a path of nodes: the layers of encryption of the packet that sets a
//! path up, identifiers of paths, the key share protocol, and what goes wrong while a
//! channel is set up.

use crate::crypto::{
    aes_gcm_decrypt, aes_gcm_encrypt, aes_gcm_open, aes_gcm_seal, random_nonce, x25519_diffie_hellman, x25519_public,
    x25519_public_of, x25519_shared_of,
};
use vstd::prelude::*;

verus! {

/// The next node took the packet.
pub const OK: u8 = 0;

/// The next node is not connected.
pub const MISSING_PEER: u8 = 1;

/// The next node is busy.
pub const OCCUPIED_PEER: u8 = 2;

/// Nodes in a path.
pub const PATH_LEN: usize = 2;

/// Bytes of the packet that confirms a path: an AES-GCM tag and nonce.
pub const CONFIRM_PACKET_SIZE: usize = 28;

#[verifier::external_type_specification]
#[verifier::external_body]
pub struct ExIoError(std::io::Error);

/// Identifies a path of this node.
#[derive(Debug, Clone, Copy, PartialEq, Eq, Hash, PartialOrd, Ord)]
pub struct PathId(pub usize);

/// The protocol by which nodes share their keys.
pub struct Upgrade;

/// What goes wrong when a channel comes in.
pub enum IUpgradeError {
    MalformedPacket,
    WriteKeyPacket(std::io::Error),
    ReadPacketLength(std::io::Error),
    ReadPacket(std::io::Error),
    WriteAuthPacket(std::io::Error),
}

/// What goes wrong when a channel goes out.
pub enum OUpgradeError {
    MissingPeer,
    OccupiedPeer,
    PacketCreation(pqc_kyber::KyberError),
    MalformedPacket,
    AuthenticationFailed,
    UnknownPacketKind(u8),
    WritePacketLength(std::io::Error),
    WritePacket(std::io::Error),
    ReadPacketKind(std::io::Error),
    ReadPacket(std::io::Error),
}

/// What the kind byte a node answers an outgoing channel with means: go on and read the
/// confirmation, or the error it names.
pub fn outbound_kind(kind: u8) -> (r: Result<(), OUpgradeError>)
    ensures
        kind == OK ==> r is Ok,
        kind == MISSING_PEER ==> r matches Err(OUpgradeError::MissingPeer),
        kind == OCCUPIED_PEER ==> r matches Err(OUpgradeError::OccupiedPeer),
        kind > OCCUPIED_PEER ==> (r matches Err(OUpgradeError::UnknownPacketKind(k)) && k == kind),
{
    if kind == OK {
        Ok(())
    } else if kind == MISSING_PEER {
        Err(OUpgradeError::MissingPeer)
    } else if kind == OCCUPIED_PEER {
        Err(OUpgradeError::OccupiedPeer)
    } else {
        Err(OUpgradeError::UnknownPacketKind(kind))
    }
}

/// The outcome of an outgoing channel once its confirmation has been checked.
pub fn outbound_confirmed(confirmed: bool) -> (r: Result<(), OUpgradeError>)
    ensures
        confirmed ==> r is Ok,
        !confirmed ==> r matches Err(OUpgradeError::AuthenticationFailed),
{
    if confirmed {
        Ok(())
    } else {
        Err(OUpgradeError::AuthenticationFailed)
    }
}

/// The associated data of every layer: the bytes of "onion deez nuts".
pub const ASOC_DATA: [u8; 15] = [111, 110, 105, 111, 110, 32, 100, 101, 101, 122, 32, 110, 117, 116, 115];

/// Bytes of an AES-GCM tag.
pub const TAG_SIZE: usize = 16;

/// Bytes of an AES-GCM nonce.
pub const NONCE_SIZE: usize = 12;

/// Bytes of a key, of a public key and of a shared secret.
pub const KEY_SIZE: usize = 32;

/// Most bytes AES-GCM encrypts at once.
pub const P_MAX: u64 = 0x10_0000_0000;

/// A layer of `body` under `key`: the ciphertext, the tag and the nonce.
pub open spec fn layer(key: Seq<u8>, nonce: Seq<u8>, body: Seq<u8>) -> Seq<u8> {
    aes_gcm_seal(key, nonce, ASOC_DATA@, body).0 + aes_gcm_seal(key, nonce, ASOC_DATA@, body).1 + nonce
}

/// What opening the layer that `buffer` holds under `key` gives, if it opens.
pub open spec fn opened(key: Seq<u8>, buffer: Seq<u8>) -> Option<Seq<u8>> {
    if buffer.len() < TAG_SIZE + NONCE_SIZE {
        None
    } else {
        let n = buffer.len();
        aes_gcm_open(
            key,
            buffer.subrange(n - NONCE_SIZE, n as int),
            ASOC_DATA@,
            buffer.take(n - TAG_SIZE - NONCE_SIZE),
            buffer.subrange(n - TAG_SIZE - NONCE_SIZE, n - NONCE_SIZE),
        )
    }
}

/// Encrypts the bytes of `buffer` from `skip` on under `key`, with a fresh random nonce,
/// and appends the tag and the nonce.
pub fn wrap_with_key(key: &[u8; KEY_SIZE], skip: usize, buffer: &mut Vec<u8>)
    requires
        skip <= old(buffer)@.len(),
        old(buffer)@.len() - skip <= P_MAX,
    ensures
        ({
            let n = final(buffer)@.len();
            let nonce = final(buffer)@.subrange(n - NONCE_SIZE, n as int);
            &&& n == old(buffer)@.len() + TAG_SIZE + NONCE_SIZE
            &&& final(buffer)@ == old(buffer)@.take(skip as int) + layer(key@, nonce, old(buffer)@.skip(skip as int))
        }),
        opened(key@, final(buffer)@.skip(skip as int)) == Some(old(buffer)@.skip(skip as int)),
{
    let nonce = random_nonce();
    let mut body: Vec<u8> = Vec::new();
    let mut i: usize = skip;
    while i < buffer.len()
        invariant
            skip <= i <= buffer@.len(),
            buffer@ == old(buffer)@,
            body@ == buffer@.subrange(skip as int, i as int),
        decreases buffer@.len() - i,
    {
        body.push(buffer[i]);
        i = i + 1;
    }
    let ghost plain = body@;
    assert(plain =~= old(buffer)@.skip(skip as int));
    let tag = aes_gcm_encrypt(key, &nonce, ASOC_DATA.as_slice(), body.as_mut_slice());
    buffer.truncate(skip);
    let _ = crate::codec::Buffer::extend_from_slice(buffer, body.as_slice());
    let _ = crate::codec::Buffer::extend_from_slice(buffer, tag.as_slice());
    let _ = crate::codec::Buffer::extend_from_slice(buffer, nonce.as_slice());
    proof {
        let n = buffer@.len();
        assert(buffer@.subrange(n - NONCE_SIZE, n as int) =~= nonce@);
        assert(buffer@ =~= old(buffer)@.take(skip as int) + layer(key@, nonce@, plain));
        let wrapped = buffer@.skip(skip as int);
        let m = wrapped.len();
        assert(wrapped =~= body@ + tag@ + nonce@);
        assert(wrapped.subrange(m - NONCE_SIZE, m as int) =~= nonce@);
        assert(wrapped.take(m - TAG_SIZE - NONCE_SIZE) =~= body@);
        assert(wrapped.subrange(m - TAG_SIZE - NONCE_SIZE, m - NONCE_SIZE) =~= tag@);
    }
}

/// Wraps `buffer` under the secret that `persistent` shares with `sender`.
pub fn wrap(persistent: &[u8; KEY_SIZE], sender: &[u8; KEY_SIZE], buffer: &mut Vec<u8>)
    requires
        old(buffer)@.len() <= P_MAX,
    ensures
        ({
            let n = final(buffer)@.len();
            let nonce = final(buffer)@.subrange(n - NONCE_SIZE, n as int);
            &&& n == old(buffer)@.len() + TAG_SIZE + NONCE_SIZE
            &&& final(buffer)@ == layer(x25519_shared_of(persistent@, sender@), nonce, old(buffer)@)
        }),
        opened(x25519_shared_of(persistent@, sender@), final(buffer)@) == Some(old(buffer)@),
        forall|recipient: Seq<u8>|
            recipient.len() == KEY_SIZE && sender@ == x25519_public_of(recipient) ==> opened(
                #[trigger] x25519_shared_of(recipient, x25519_public_of(persistent@)),
                final(buffer)@,
            ) == Some(old(buffer)@),
{
    let key = x25519_diffie_hellman(persistent, sender);
    wrap_with_key(&key, 0, buffer);
    assert(old(buffer)@.take(0) =~= Seq::<u8>::empty());
    assert(old(buffer)@.skip(0) =~= old(buffer)@);
    let ghost nonce = buffer@.subrange(buffer@.len() - NONCE_SIZE, buffer@.len() as int);
    assert(Seq::<u8>::empty() + layer(key@, nonce, old(buffer)@) =~= layer(key@, nonce, old(buffer)@));
    assert(buffer@.skip(0) =~= buffer@);
}

/// Opens the layer at the end of `buffer` under `key`: on success the plain text takes
/// the front of the buffer and its length is returned; else the buffer stays as it was.
pub fn peel_wih_key(key: &[u8; KEY_SIZE], buffer: &mut [u8]) -> (r: Option<usize>)
    ensures
        final(buffer)@.len() == old(buffer)@.len(),
        r is Some <==> opened(key@, old(buffer)@) is Some,
        r matches Some(len) ==> len == old(buffer)@.len() - TAG_SIZE - NONCE_SIZE && final(buffer)@
            == opened(key@, old(buffer)@).unwrap() + old(buffer)@.skip(len as int),
        r is None ==> final(buffer)@ == old(buffer)@,
{
    let n = buffer.len();
    if n < TAG_SIZE + NONCE_SIZE {
        return None;
    }
    let body_len = n - TAG_SIZE - NONCE_SIZE;
    let mut nonce = [0u8; NONCE_SIZE];
    let mut tag = [0u8; TAG_SIZE];
    let mut body: Vec<u8> = Vec::new();
    let mut i: usize = 0;
    while i < body_len
        invariant
            i <= body_len,
            body_len + TAG_SIZE + NONCE_SIZE == n,
            n == buffer@.len(),
            buffer@ == old(buffer)@,
            body@ == buffer@.take(i as int),
        decreases body_len - i,
    {
        body.push(buffer[i]);
        i = i + 1;
    }
    let mut j: usize = 0;
    while j < TAG_SIZE
        invariant
            j <= TAG_SIZE,
            body_len + TAG_SIZE + NONCE_SIZE == n,
            n == buffer@.len(),
            tag@.len() == TAG_SIZE,
            forall|k: int| 0 <= k < j ==> tag@[k] == buffer@[body_len + k],
        decreases TAG_SIZE - j,
    {
        tag[j] = buffer[body_len + j];
        j = j + 1;
    }
    let mut k: usize = 0;
    while k < NONCE_SIZE
        invariant
            k <= NONCE_SIZE,
            body_len + TAG_SIZE + NONCE_SIZE == n,
            n == buffer@.len(),
            nonce@.len() == NONCE_SIZE,
            forall|m: int| 0 <= m < k ==> nonce@[m] == buffer@[body_len + TAG_SIZE + m],
        decreases NONCE_SIZE - k,
    {
        nonce[k] = buffer[body_len + TAG_SIZE + k];
        k = k + 1;
    }
    proof {
        assert(tag@ =~= old(buffer)@.subrange(n - TAG_SIZE - NONCE_SIZE, n - NONCE_SIZE));
        assert(nonce@ =~= old(buffer)@.subrange(n - NONCE_SIZE, n as int));
    }
    if aes_gcm_decrypt(key, &nonce, ASOC_DATA.as_slice(), body.as_mut_slice(), &tag).is_err() {
        return None;
    }
    let ghost before = buffer@;
    let mut t: usize = 0;
    while t < body_len
        invariant
            t <= body_len,
            body_len + TAG_SIZE + NONCE_SIZE == n,
            body@.len() == body_len,
            buffer@.len() == n,
            before == old(buffer)@,
            forall|m: int| 0 <= m < t ==> buffer@[m] == body@[m],
            forall|m: int| t <= m < n ==> buffer@[m] == before[m],
        decreases body_len - t,
    {
        buffer[t] = body[t];
        t = t + 1;
    }
    assert(buffer@ =~= body@ + old(buffer)@.skip(body_len as int));
    Some(body_len)
}

/// Opens the layer at the end of `buffer` under the secret that `persistent` shares with
/// `sender`.
pub fn peel(persistent: &[u8; KEY_SIZE], sender: &[u8; KEY_SIZE], buffer: &mut [u8]) -> (r: Option<usize>)
    ensures
        final(buffer)@.len() == old(buffer)@.len(),
        r is Some <==> opened(x25519_shared_of(persistent@, sender@), old(buffer)@) is Some,
        r matches Some(len) ==> len == old(buffer)@.len() - TAG_SIZE - NONCE_SIZE && final(buffer)@
            == opened(x25519_shared_of(persistent@, sender@), old(buffer)@).unwrap() + old(buffer)@.skip(
            len as int,
        ),
        r is None ==> final(buffer)@ == old(buffer)@,
{
    let key = x25519_diffie_hellman(persistent, sender);
    peel_wih_key(&key, buffer)
}

/// Every holder of a secret whose public key is `pk` opens `wrapped`, under the secret
/// shared with `sender`, to `plain`.
pub open spec fn opens_for(pk: Seq<u8>, sender: Seq<u8>, wrapped: Seq<u8>, plain: Seq<u8>) -> bool {
    forall|s: Seq<u8>|
        s.len() == KEY_SIZE && pk == x25519_public_of(s) ==> opened(#[trigger] x25519_shared_of(s, sender), wrapped)
            == Some(plain)
}

/// Adds the hop to `pk` with id bytes `id`: appends the id and its length (as a byte) and
/// wraps everything under the secret `ephemeral` shares with `pk`.
fn add_hop(pk: &[u8; KEY_SIZE], id: &[u8], ephemeral: &[u8; KEY_SIZE], buffer: &mut Vec<u8>)
    requires
        old(buffer)@.len() + id@.len() + 1 <= P_MAX,
    ensures
        final(buffer)@.len() == old(buffer)@.len() + id@.len() + 1 + TAG_SIZE + NONCE_SIZE,
        opens_for(pk@, x25519_public_of(ephemeral@), final(buffer)@, old(buffer)@ + id@ + seq![id@.len() as u8]),
{
    let _ = crate::codec::Buffer::extend_from_slice(buffer, id);
    buffer.push(id.len() as u8);
    let ghost plain = buffer@;
    assert(plain =~= old(buffer)@ + id@ + seq![id@.len() as u8]);
    wrap(ephemeral, pk, buffer);
}

/// Writes the packet that sets up a path: a layer for each hop, the last hop's outermost,
/// each holding the id of the hop's next node, and then the ephemeral public key.
pub fn new_initial(path: [([u8; KEY_SIZE], &[u8]); PATH_LEN], ephemeral: &[u8; KEY_SIZE], buffer: &mut Vec<u8>)
    requires
        old(buffer)@.len() + path[0].1@.len() + path[1].1@.len() + 2 + TAG_SIZE + NONCE_SIZE <= P_MAX,
    ensures
        ({
            let n = final(buffer)@.len();
            let sender = x25519_public_of(ephemeral@);
            &&& n >= KEY_SIZE
            &&& final(buffer)@.skip(n - KEY_SIZE) == sender
            &&& exists|inner: Seq<u8>|
                #[trigger] opens_for(
                    path[0].0@,
                    sender,
                    inner,
                    old(buffer)@ + path[0].1@ + seq![path[0].1@.len() as u8],
                ) && opens_for(
                    path[1].0@,
                    sender,
                    final(buffer)@.take(n - KEY_SIZE),
                    inner + path[1].1@ + seq![path[1].1@.len() as u8],
                )
        }),
{
    let (pk0, id0) = path[0];
    let (pk1, id1) = path[1];
    add_hop(&pk0, id0, ephemeral, buffer);
    let ghost inner = buffer@;
    add_hop(&pk1, id1, ephemeral, buffer);
    let ghost wrapped = buffer@;
    let sender = x25519_public(ephemeral);
    let _ = crate::codec::Buffer::extend_from_slice(buffer, sender.as_slice());
    proof {
        let n = buffer@.len();
        assert(buffer@.take(n - KEY_SIZE) =~= wrapped);
        assert(buffer@.skip(n - KEY_SIZE) =~= sender@);
        assert(opens_for(pk0@, sender@, inner, old(buffer)@ + id0@ + seq![id0@.len() as u8]));
    }
}

/// The length byte of the layer a node opens does not count more bytes than precede it.
pub open spec fn initial_layer_ok(persistent: Seq<u8>, buffer: Seq<u8>) -> bool {
    let n = buffer.len();
    n <= KEY_SIZE || match opened(x25519_shared_of(persistent, buffer.skip(n - KEY_SIZE)), buffer.take(n - KEY_SIZE)) {
        Some(m) => m.len() == 0 || m.last() < m.len(),
        None => true,
    }
}

/// What peeling the layer of `all` leaves, as `peel_initial` does it: the result `r`
/// and the bytes `after`.
pub open spec fn peeled_initial(
    persistent: Seq<u8>,
    all: Seq<u8>,
    after: Seq<u8>,
    r: Option<(Option<Vec<u8>>, [u8; KEY_SIZE], usize)>,
) -> bool {
    let n = all.len();
    let sender = all.skip(n - KEY_SIZE);
    let body = all.take(n - KEY_SIZE);
    &&& after.len() == n
    &&& if n < KEY_SIZE {
        r is None && after == all
    } else if n == KEY_SIZE {
        r matches Some((None, s, 0usize)) && s@ == sender && after == all
    } else {
        match opened(x25519_shared_of(persistent, sender), body) {
            None => r is None && after == all,
            Some(m) => if m.len() == 0 {
                r is None
            } else {
                let len = (m.len() - 1 - m.last()) as int;
                &&& r matches Some((Some(id), s, left)) && id@ == m.subrange(len, m.len() - 1) && s@
                    == sender && left == len + KEY_SIZE
                &&& after.take(len) == m.take(len)
                &&& after.subrange(len, len + KEY_SIZE) == sender
            },
        }
    }
}

/// Opens this node's layer of a packet that sets up a path. The sender's public key ends
/// the packet; when nothing else is there this node is the path's end. Else the layer
/// opened under the secret shared with the sender ends with the length of the next node's
/// id, before which the id stands; the id is returned, with the sender's key and the
/// length of what is left for the next node, which is the bytes before the id followed
/// by the sender's key.
pub fn peel_initial(persistent: &[u8; KEY_SIZE], original: &mut [u8]) -> (r: Option<(Option<Vec<u8>>, [u8; KEY_SIZE], usize)>)
    requires
        initial_layer_ok(persistent@, old(original)@),
    ensures
        peeled_initial(persistent@, old(original)@, final(original)@, r),
{
    let n = original.len();
    if n < KEY_SIZE {
        return None;
    }
    let mut sender = [0u8; KEY_SIZE];
    let mut i: usize = 0;
    while i < KEY_SIZE
        invariant
            i <= KEY_SIZE,
            n == original@.len(),
            n >= KEY_SIZE,
            original@ == old(original)@,
            sender@.len() == KEY_SIZE,
            forall|k: int| 0 <= k < i ==> sender@[k] == original@[n - KEY_SIZE + k],
        decreases KEY_SIZE - i,
    {
        sender[i] = original[n - KEY_SIZE + i];
        i = i + 1;
    }
    assert(sender@ =~= old(original)@.skip(n - KEY_SIZE));
    if n == KEY_SIZE {
        return Some((None, sender, 0));
    }
    let ghost all = original@;
    assert(all.take(n - KEY_SIZE) + all.subrange(n - KEY_SIZE, n as int) =~= all);
    let (body, _tail) = original.split_at_mut(n - KEY_SIZE);
    let packet_len = match peel(persistent, &sender, body) {
        Some(len) => len,
        None => {
            return None;
        },
    };
    let ghost m = body@.take(packet_len as int);
    assert(m =~= opened(x25519_shared_of(persistent@, sender@), all.take(n - KEY_SIZE)).unwrap());
    if packet_len == 0 {
        return None;
    }
    let id_len = body[packet_len - 1] as usize;
    assert(id_len == m.last());
    let len = packet_len - 1 - id_len;
    let mut id: Vec<u8> = Vec::new();
    let mut j: usize = len;
    while j < packet_len - 1
        invariant
            len <= j <= packet_len - 1,
            packet_len <= body@.len(),
            id@ =~= body@.subrange(len as int, j as int),
        decreases packet_len - 1 - j,
    {
        id.push(body[j]);
        j = j + 1;
    }
    assert(id@ =~= m.subrange(len as int, m.len() - 1));
    let ghost opened_body = body@;
    let mut k: usize = 0;
    while k < KEY_SIZE
        invariant
            k <= KEY_SIZE,
            len + KEY_SIZE <= n,
            original@.len() == n,
            forall|t: int| 0 <= t < len ==> original@[t] == opened_body[t],
            forall|t: int| 0 <= t < k ==> original@[len + t] == sender@[t],
        decreases KEY_SIZE - k,
    {
        original[len + k] = sender[k];
        k = k + 1;
    }
    proof {
        assert(original@.take(len as int) =~= m.take(len as int));
        assert(original@.subrange(len as int, len + KEY_SIZE) =~= sender@);
    }
    Some((Some(id), sender, len + KEY_SIZE))
}

/// `peel_initial`, when the length byte of the opened layer is in range; else nothing,
/// with the packet left as it was.
pub fn try_peel_initial(persistent: &[u8; KEY_SIZE], original: &mut [u8]) -> (r: Option<(Option<Vec<u8>>, [u8; KEY_SIZE], usize)>)
    ensures
        initial_layer_ok(persistent@, old(original)@) ==> peeled_initial(persistent@, old(original)@, final(original)@, r),
        !initial_layer_ok(persistent@, old(original)@) ==> r is None && final(original)@ == old(original)@,
{
    let n = original.len();
    if n <= KEY_SIZE {
        return peel_initial(persistent, original);
    }
    let mut sender = [0u8; KEY_SIZE];
    let mut copy: Vec<u8> = Vec::new();
    let mut i: usize = 0;
    while i < n - KEY_SIZE
        invariant
            i <= n - KEY_SIZE,
            n == original@.len(),
            n > KEY_SIZE,
            copy@ == original@.take(i as int),
        decreases n - KEY_SIZE - i,
    {
        copy.push(original[i]);
        i = i + 1;
    }
    let mut k: usize = 0;
    while k < KEY_SIZE
        invariant
            k <= KEY_SIZE,
            n == original@.len(),
            n > KEY_SIZE,
            sender@.len() == KEY_SIZE,
            forall|t: int| 0 <= t < k ==> sender@[t] == original@[n - KEY_SIZE + t],
        decreases KEY_SIZE - k,
    {
        sender[k] = original[n - KEY_SIZE + k];
        k = k + 1;
    }
    proof {
        assert(sender@ =~= original@.skip(n - KEY_SIZE));
        assert(copy@ =~= original@.take(n - KEY_SIZE));
    }
    match peel(persistent, &sender, copy.as_mut_slice()) {
        None => peel_initial(persistent, original),
        Some(len) => {
            if len > 0 && copy[len - 1] as usize >= len {
                proof {
                    assert(copy@.take(len as int).last() == copy@[len - 1]);
                }
                None
            } else {
                proof {
                    if len > 0 {
                        assert(copy@.take(len as int).last() == copy@[len - 1]);
                    }
                }
                peel_initial(persistent, original)
            }
        },
    }
}

} // verus!
