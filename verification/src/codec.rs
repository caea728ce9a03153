//! Byte codec: a compact binary encoding of values into byte buffers, and its inverse.

use vstd::prelude::*;
use vstd::string::StringSliceAdditionalSpecFns;
use vstd::utf8::*;

verus! {

/// `new` is `old` followed by a prefix of `target`: what a write of `target` that
/// stopped part way leaves in a buffer that held `old`.
pub open spec fn partly_written(old: Seq<u8>, new: Seq<u8>, target: Seq<u8>) -> bool {
    &&& old.len() <= new.len() <= old.len() + target.len()
    &&& new =~= old + target.take(new.len() - old.len())
}

/// A sink for encoded bytes.
pub trait Buffer {
    /// The bytes written so far.
    spec fn written(&self) -> Seq<u8>;

    /// Whether `n` more bytes can still be written.
    spec fn fits(&self, n: nat) -> bool;

    /// There is always room for nothing.
    proof fn lemma_fits_nothing(&self)
        ensures
            self.fits(0),
    ;

    /// Room for some bytes is room for fewer.
    proof fn lemma_fits_fewer(&self, a: nat, b: nat)
        requires
            a <= b,
            self.fits(b),
        ensures
            self.fits(a),
    ;

    fn extend_from_slice(&mut self, slice: &[u8]) -> (r: Option<()>)
        ensures
            r is Some <==> old(self).fits(slice@.len()),
            r is Some ==> final(self).written() == old(self).written() + slice@,
            r is Some ==> forall|n: nat| #[trigger]
                final(self).fits(n) == old(self).fits(slice@.len() + n),
            r is None ==> final(self).written() == old(self).written(),
            r is None ==> forall|n: nat| #[trigger] final(self).fits(n) == old(self).fits(n),
    ;

    fn push(&mut self, byte: u8) -> (r: Option<()>)
        ensures
            r is Some <==> old(self).fits(1),
            r is Some ==> final(self).written() == old(self).written().push(byte),
            r is Some ==> forall|n: nat| #[trigger] final(self).fits(n) == old(self).fits(1 + n),
            r is None ==> final(self).written() == old(self).written(),
            r is None ==> forall|n: nat| #[trigger] final(self).fits(n) == old(self).fits(n),
    ;
}

impl Buffer for Vec<u8> {
    open spec fn written(&self) -> Seq<u8> {
        self@
    }

    open spec fn fits(&self, n: nat) -> bool {
        true
    }

    proof fn lemma_fits_nothing(&self) {
    }

    proof fn lemma_fits_fewer(&self, a: nat, b: nat) {
    }

    fn extend_from_slice(&mut self, slice: &[u8]) -> (r: Option<()>) {
        let mut i: usize = 0;
        let ghost start = self@;
        while i < slice.len()
            invariant
                i <= slice@.len(),
                self@ =~= start + slice@.take(i as int),
            decreases slice@.len() - i,
        {
            self.push(slice[i]);
            i = i + 1;
        }
        assert(slice@.take(slice@.len() as int) =~= slice@);
        Some(())
    }

    fn push(&mut self, byte: u8) -> (r: Option<()>) {
        Vec::push(self, byte);
        Some(())
    }
}

/// A buffer that accepts bytes up to a fixed limit.
pub struct BoundedBuffer {
    bytes: Vec<u8>,
    limit: usize,
}

impl BoundedBuffer {
    pub closed spec fn spec_limit(&self) -> nat {
        self.limit as nat
    }

    #[verifier::type_invariant]
    closed spec fn within_limit(&self) -> bool {
        self.bytes@.len() <= self.limit
    }

    /// An empty buffer that accepts up to `limit` bytes.
    pub fn new(limit: usize) -> (b: Self)
        ensures
            b.written() == Seq::<u8>::empty(),
            b.spec_limit() == limit,
            forall|n: nat| #[trigger] b.fits(n) == (n == 0 || n <= limit),
    {
        BoundedBuffer { bytes: Vec::new(), limit }
    }

    /// The bytes written so far.
    pub fn as_slice(&self) -> (s: &[u8])
        ensures
            s@ == self.written(),
    {
        self.bytes.as_slice()
    }

    /// Gives up the buffer, returning what was written.
    pub fn into_vec(self) -> (v: Vec<u8>)
        ensures
            v@ == self.written(),
    {
        self.bytes
    }
}

impl Buffer for BoundedBuffer {
    closed spec fn written(&self) -> Seq<u8> {
        self.bytes@
    }

    closed spec fn fits(&self, n: nat) -> bool {
        n == 0 || self.bytes@.len() + n <= self.limit
    }

    proof fn lemma_fits_nothing(&self) {
    }

    proof fn lemma_fits_fewer(&self, a: nat, b: nat) {
    }

    fn extend_from_slice(&mut self, slice: &[u8]) -> (r: Option<()>) {
        proof {
            use_type_invariant(&*self);
        }
        if slice.len() > self.limit - self.bytes.len() {
            return None;
        }
        let mut bytes = Vec::new();
        std::mem::swap(&mut bytes, &mut self.bytes);
        let _ = Buffer::extend_from_slice(&mut bytes, slice);
        self.bytes = bytes;
        Some(())
    }

    fn push(&mut self, byte: u8) -> (r: Option<()>) {
        proof {
            use_type_invariant(&*self);
        }
        if self.bytes.len() == self.limit {
            return None;
        }
        let mut bytes = Vec::new();
        std::mem::swap(&mut bytes, &mut self.bytes);
        bytes.push(byte);
        self.bytes = bytes;
        Some(())
    }
}

/// Base-128 encoding of an integer: groups of seven bits, least significant first,
/// the high bit of each byte set when more bytes follow.
pub open spec fn base128(v: u64) -> Seq<u8>
    decreases v,
{
    let byte = (v & 0x7f) as u8;
    let rest = v >> 7u64;
    if rest == 0 {
        seq![byte]
    } else {
        proof {
            lemma_shr7_decreases(v);
        }
        seq![byte | 0x80u8] + base128(rest)
    }
}

/// Dropping the low seven bits of a number that has higher bits makes it smaller.
pub proof fn lemma_shr7_decreases(v: u64)
    by (bit_vector)
    requires
        v >> 7u64 != 0,
    ensures
        v >> 7u64 < v,
{
}

/// Reads base-128 groups from `bytes`, the first of them being group number `j`
/// (shifted by `7 * j` bits), into `acc`; at most ten groups make a number.
/// Gives the number and how many bytes it took.
pub open spec fn parse_base128_from(bytes: Seq<u8>, j: nat, acc: u64) -> Option<(u64, nat)>
    decreases 10 - j,
{
    if j >= 10 || bytes.len() == 0 {
        None
    } else {
        let byte = bytes[0];
        let acc2 = acc | (((byte & 0x7fu8) as u64) << ((7 * j) as u64));
        if byte & 0x80u8 == 0 {
            Some((acc2, 1))
        } else {
            match parse_base128_from(bytes.drop_first(), j + 1, acc2) {
                Some((v, n)) => Some((v, n + 1)),
                None => None,
            }
        }
    }
}

/// Reads a base-128 number from the front of `bytes`.
pub open spec fn parse_base128(bytes: Seq<u8>) -> Option<(u64, nat)> {
    parse_base128_from(bytes, 0, 0)
}

proof fn bv_base128_step(v: u64, r: u64, acc: u64, j: u64)
    by (bit_vector)
    requires
        j <= 9,
        r == v >> (7 * j),
        acc == v ^ (r << (7 * j)),
    ensures
        (acc | ((((r & 0x7f) as u8 & 0x7fu8) as u64) << (7 * j))) == v ^ ((r >> 7u64) << (7 * (j
            + 1))),
        (r >> 7u64) == v >> (7 * (j + 1)),
        j == 9 ==> (r >> 7u64) == 0,
        ((r & 0x7f) as u8 | 0x80u8) & 0x7fu8 == (r & 0x7f) as u8 & 0x7fu8,
        ((r & 0x7f) as u8 | 0x80u8) & 0x80u8 != 0,
        ((r & 0x7f) as u8) & 0x80u8 == 0,
        (r >> 7u64) == 0 ==> v ^ ((r >> 7u64) << (7 * (j + 1))) == v,
{
}

proof fn lemma_base128_roundtrip_from(v: u64, r: u64, acc: u64, j: nat, rest: Seq<u8>)
    requires
        j <= 9,
        r == v >> ((7 * j) as u64),
        acc == v ^ (r << ((7 * j) as u64)),
    ensures
        parse_base128_from(base128(r) + rest, j, acc) == Some((v, base128(r).len())),
        base128(r).len() <= 10 - j,
    decreases r,
{
    bv_base128_step(v, r, acc, j as u64);
    let bytes = base128(r) + rest;
    let byte = bytes[0];
    if r >> 7u64 == 0 {
        assert(byte == (r & 0x7f) as u8);
    } else {
        lemma_shr7_decreases(r);
        assert(bytes.drop_first() =~= base128(r >> 7u64) + rest);
        lemma_base128_roundtrip_from(
            v,
            r >> 7u64,
            acc | ((((r & 0x7f) as u8 & 0x7fu8) as u64) << ((7 * j) as u64)),
            j + 1,
            rest,
        );
    }
}

/// Reading the base-128 encoding of a number gives the number back, whatever follows it.
pub proof fn lemma_base128_roundtrip(v: u64, rest: Seq<u8>)
    ensures
        parse_base128(base128(v) + rest) == Some((v, base128(v).len())),
        1 <= base128(v).len() <= 10,
{
    assert(v >> 0u64 == v && v ^ (v << 0u64) == 0) by (bit_vector);
    lemma_base128_roundtrip_from(v, v, 0, 0, rest);
}

/// What an encoding of `enc` into a buffer promises: it succeeds exactly when the
/// buffer has room, appends `enc` when it succeeds, and otherwise leaves the buffer
/// holding the old bytes followed by a prefix of `enc`.
pub open spec fn encode_post<B: Buffer>(old: B, new: B, enc: Seq<u8>, r: Option<()>) -> bool {
    &&& (r is Some <==> old.fits(enc.len()))
    &&& r is Some ==> new.written() == old.written() + enc
    &&& r is Some ==> forall|n: nat| #[trigger] new.fits(n) == old.fits(enc.len() + n)
    &&& r is None ==> partly_written(old.written(), new.written(), enc)
    &&& r is None ==> forall|n: nat| #[trigger]
        new.fits(n) == old.fits((new.written().len() - old.written().len()) as nat + n)
}

/// `new` is what remains of `old` once some bytes were taken from its front.
pub open spec fn is_suffix(old: Seq<u8>, new: Seq<u8>) -> bool {
    new.len() <= old.len() && new =~= old.skip(old.len() - new.len())
}

/// What a decoding from `old` promises, `parsed` being the parse of `old`: on success
/// the value is returned and exactly the bytes it took are consumed; on failure there is
/// no value. Either way the buffer only loses bytes from its front.
pub open spec fn decode_post<T>(parsed: Option<(T, nat)>, old: Seq<u8>, new: Seq<u8>, r: Option<T>) -> bool {
    &&& is_suffix(old, new)
    &&& match parsed {
        Some((v, n)) => r == Some(v) && n <= old.len() && new =~= old.skip(n as int),
        None => r is None,
    }
}

/// Appends the base-128 encoding of `value` to `buffer`.
pub fn base128_encode<B: Buffer>(value: u64, buffer: &mut B) -> (r: Option<()>)
    ensures
        encode_post(*old(buffer), *final(buffer), base128(value), r),
{
    let ghost start = *buffer;
    let ghost full = base128(value);
    let mut rest = value;
    let ghost mut done: Seq<u8> = Seq::empty();
    proof {
        lemma_base128_roundtrip(value, Seq::empty());
    }
    loop
        invariant
            start == *old(buffer),
            full == base128(value),
            done + base128(rest) == full,
            buffer.written() == start.written() + done,
            forall|n: nat| #[trigger] buffer.fits(n) == start.fits(done.len() + n),
        decreases rest,
    {
        let byte_low = #[verifier::truncate] ((rest & 0x7f) as u8);
        let next = rest >> 7u64;
        let byte = if next != 0 {
            byte_low | 0x80u8
        } else {
            byte_low
        };
        let ghost cur = *buffer;
        let pushed = buffer.push(byte);
        if pushed.is_none() {
            proof {
                assert(!start.fits(done.len() + 1));
                if start.fits(full.len()) {
                    start.lemma_fits_fewer(done.len() + 1, full.len());
                }
                assert(full.take(done.len() as int) =~= done);
                assert(partly_written(start.written(), buffer.written(), full));
            }
            return None;
        }
        proof {
            assert(base128(rest)[0] == byte);
            assert forall|n: nat| #[trigger] buffer.fits(n) == start.fits(done.push(byte).len() + n) by {
                assert(buffer.fits(n) == cur.fits(1 + n));
                assert(cur.fits(1 + n) == start.fits(done.len() + (1 + n)));
            }
            if next != 0 {
                lemma_shr7_decreases(rest);
                assert(base128(rest) =~= seq![byte] + base128(next));
            } else {
                assert(base128(rest) =~= seq![byte]);
            }
            done = done.push(byte);
        }
        if next == 0 {
            proof {
                assert(done =~= full);
                assert(start.fits(done.len())) by {
                    assert(cur.fits(1));
                }
            }
            proof {
                assert(buffer.written() == start.written() + full);
                assert forall|n: nat| #[trigger] buffer.fits(n) == start.fits(full.len() + n) by {
                }
            }
            return Some(());
        }
        rest = next;
        proof {
            assert(done + base128(rest) =~= full);
        }
    }
}

/// Reads a base-128 number from the front of `buffer`, advancing it past the number.
pub fn base128_decode(buffer: &mut &[u8]) -> (r: Option<u64>)
    ensures
        decode_post(parse_base128(old(buffer)@), old(buffer)@, final(buffer)@, r),
        r is None ==> final(buffer)@ == old(buffer)@,
{
    let ghost start = buffer@;
    let mut value: u64 = 0;
    let mut i: usize = 0;
    assert(start.skip(0) =~= start);
    while i < 10 && i < buffer.len()
        invariant
            start == buffer@,
            start == old(buffer)@,
            i <= 10,
            i <= buffer@.len(),
            parse_base128(start) == (match parse_base128_from(start.skip(i as int), i as nat, value) {
                Some((v, n)) => Some((v, (n + i) as nat)),
                None => None,
            }),
        decreases 10 - i,
    {
        let byte = buffer[i];
        let ghost tail = start.skip(i as int);
        assert(tail[0] == byte);
        assert(tail.drop_first() =~= start.skip(i + 1));
        let ghost old_value = value;
        value = value | (((byte & 0x7fu8) as u64) << ((7 * i) as u64));
        assert(parse_base128_from(tail, i as nat, old_value) == (if byte & 0x80u8 == 0 {
            Some((value, 1nat))
        } else {
            match parse_base128_from(start.skip(i + 1), (i + 1) as nat, value) {
                Some((v, n)) => Some((v, n + 1)),
                None => None,
            }
        }));
        if byte & 0x80u8 == 0 {
            *buffer = vstd::slice::slice_subrange(*buffer, i + 1, buffer.len());
            return Some(value);
        }
        i = i + 1;
    }
    proof {
        assert(start.skip(i as int).len() == 0 || i >= 10);
    }
    None
}

/// Number of bytes of a packet's length prefix.
pub const PACKET_LEN_WIDTH: usize = 2;

/// Big-endian bytes of a 16-bit number.
pub open spec fn be16(x: u16) -> Seq<u8> {
    seq![(x >> 8u16) as u8, (x & 0xffu16) as u8]
}

/// The number whose big-endian bytes are `b0 b1`.
pub open spec fn from_be16(b0: u8, b1: u8) -> nat {
    (b0 as nat) * 256 + b1 as nat
}

/// The packet length prefix for a packet of `len` bytes (the length is kept modulo 2^16).
pub fn encode_len(len: usize) -> (r: [u8; PACKET_LEN_WIDTH])
    ensures
        r@ == be16(len as u16),
{
    let x: u16 = #[verifier::truncate] (len as u16);
    let hi: u8 = #[verifier::truncate] ((x >> 8u16) as u8);
    let lo: u8 = #[verifier::truncate] ((x & 0xffu16) as u8);
    let r = [hi, lo];
    assert(r@ =~= be16(len as u16));
    r
}

/// The packet length that a length prefix holds.
pub fn decode_len(bytes: [u8; PACKET_LEN_WIDTH]) -> (r: usize)
    ensures
        r == from_be16(bytes@[0], bytes@[1]),
{
    let hi = bytes[0] as usize;
    let lo = bytes[1] as usize;
    hi * 256 + lo
}

/// Reading a length prefix gives back the length, modulo 2^16.
pub proof fn lemma_len_roundtrip(len: usize)
    ensures
        from_be16(be16(len as u16)[0], be16(len as u16)[1]) == len % 65536,
{
    let x = len as u16;
    assert(((x >> 8u16) as u8) as u16 * 256 + ((x & 0xffu16) as u8) as u16 == x) by (bit_vector);
    assert(len as u16 == len % 65536) by (bit_vector);
    assert(((x >> 8u16) as u8) as nat * 256 + ((x & 0xffu16) as u8) as nat == x as nat);
}

/// A value with a byte encoding.
///
/// `encoding` is the bytes a value is written as; `parse` reads a value from the front of
/// some bytes and tells how many it took; `reads_back` tells when reading the encoding
/// of a value followed by `rest` gives the value back.
pub trait Codec<'a>: Sized {
    /// The mathematical value that the encoding represents.
    type Model;

    spec fn model(&self) -> Self::Model;

    spec fn encoding(&self) -> Seq<u8>;

    spec fn parse(bytes: Seq<u8>) -> Option<(Self::Model, nat)>;

    spec fn reads_back(&self, rest: Seq<u8>) -> bool;

    /// Reading back what was written gives the value, consuming exactly its encoding.
    proof fn lemma_reads_back(&self, rest: Seq<u8>)
        requires
            self.reads_back(rest),
        ensures
            Self::parse(self.encoding() + rest) == Some((self.model(), self.encoding().len())),
    ;

    fn encode<B: Buffer>(&self, buffer: &mut B) -> (r: Option<()>)
        ensures
            encode_post(*old(buffer), *final(buffer), self.encoding(), r),
    ;

    fn decode(buffer: &mut &'a [u8]) -> (r: Option<Self>)
        ensures
            decode_post(
                Self::parse(old(buffer)@),
                old(buffer)@,
                final(buffer)@,
                (match r {
                    Some(v) => Some(v.model()),
                    None => None,
                }),
            ),
    ;

    /// The encoding of the value.
    fn to_bytes(&self) -> (v: Vec<u8>)
        ensures
            v@ == self.encoding(),
    {
        let mut buffer: Vec<u8> = Vec::new();
        let _ = self.encode(&mut buffer);
        buffer
    }

    /// The encoding of the value behind its length prefix.
    fn to_packet(&self) -> (v: Vec<u8>)
        ensures
            v@ == be16(self.encoding().len() as u16) + self.encoding(),
    {
        let mut buffer: Vec<u8> = Vec::new();
        let _ = self.encode(&mut buffer);
        let len = encode_len(buffer.len());
        let mut packet: Vec<u8> = Vec::new();
        packet.push(len[0]);
        packet.push(len[1]);
        let _ = Buffer::extend_from_slice(&mut packet, buffer.as_slice());
        assert(packet@ =~= be16(self.encoding().len() as u16) + self.encoding());
        packet
    }
}

impl<'a> Codec<'a> for u8 {
    type Model = u8;

    open spec fn model(&self) -> u8 {
        *self
    }

    open spec fn encoding(&self) -> Seq<u8> {
        seq![*self]
    }

    open spec fn parse(bytes: Seq<u8>) -> Option<(u8, nat)> {
        if bytes.len() == 0 {
            None
        } else {
            Some((bytes[0], 1))
        }
    }

    open spec fn reads_back(&self, rest: Seq<u8>) -> bool {
        true
    }

    proof fn lemma_reads_back(&self, rest: Seq<u8>) {
    }

    fn encode<B: Buffer>(&self, buffer: &mut B) -> (r: Option<()>) {
        let r = buffer.push(*self);
        assert(seq![*self].take(0) =~= Seq::<u8>::empty());
        assert(old(buffer).written().push(*self) =~= old(buffer).written() + seq![*self]);
        r
    }

    fn decode(buffer: &mut &'a [u8]) -> (r: Option<u8>) {
        if buffer.len() == 0 {
            return None;
        }
        let byte = buffer[0];
        *buffer = vstd::slice::slice_subrange(*buffer, 1, buffer.len());
        Some(byte)
    }
}

impl<'a> Codec<'a> for bool {
    type Model = bool;

    open spec fn model(&self) -> bool {
        *self
    }

    open spec fn encoding(&self) -> Seq<u8> {
        seq![if *self { 1u8 } else { 0u8 }]
    }

    open spec fn parse(bytes: Seq<u8>) -> Option<(bool, nat)> {
        if bytes.len() == 0 || bytes[0] > 1 {
            None
        } else {
            Some((bytes[0] == 1, 1))
        }
    }

    open spec fn reads_back(&self, rest: Seq<u8>) -> bool {
        true
    }

    proof fn lemma_reads_back(&self, rest: Seq<u8>) {
    }

    fn encode<B: Buffer>(&self, buffer: &mut B) -> (r: Option<()>) {
        let byte: u8 = if *self { 1 } else { 0 };
        let r = buffer.push(byte);
        assert(seq![byte].take(0) =~= Seq::<u8>::empty());
        assert(old(buffer).written().push(byte) =~= old(buffer).written() + seq![byte]);
        r
    }

    fn decode(buffer: &mut &'a [u8]) -> (r: Option<bool>) {
        if buffer.len() == 0 {
            return None;
        }
        let byte = buffer[0];
        if byte > 1 {
            return None;
        }
        *buffer = vstd::slice::slice_subrange(*buffer, 1, buffer.len());
        Some(byte == 1)
    }
}

impl<'a> Codec<'a> for u64 {
    type Model = u64;

    open spec fn model(&self) -> u64 {
        *self
    }

    open spec fn encoding(&self) -> Seq<u8> {
        base128(*self)
    }

    open spec fn parse(bytes: Seq<u8>) -> Option<(u64, nat)> {
        parse_base128(bytes)
    }

    open spec fn reads_back(&self, rest: Seq<u8>) -> bool {
        true
    }

    proof fn lemma_reads_back(&self, rest: Seq<u8>) {
        lemma_base128_roundtrip(*self, rest);
    }

    fn encode<B: Buffer>(&self, buffer: &mut B) -> (r: Option<()>) {
        base128_encode(*self, buffer)
    }

    fn decode(buffer: &mut &'a [u8]) -> (r: Option<u64>) {
        base128_decode(buffer)
    }
}

/// Writing `e1` and then `e2` is writing `e1 + e2`.
pub proof fn lemma_encode_then<B: Buffer>(b0: B, b1: B, b2: B, e1: Seq<u8>, e2: Seq<u8>, r2: Option<()>)
    requires
        encode_post(b0, b1, e1, Some(())),
        encode_post(b1, b2, e2, r2),
    ensures
        encode_post(b0, b2, e1 + e2, r2),
{
    assert(b1.fits(e2.len()) == b0.fits(e1.len() + e2.len()));
    if r2 is Some {
        assert(b2.written() =~= b0.written() + (e1 + e2));
        assert forall|n: nat| #[trigger] b2.fits(n) == b0.fits((e1 + e2).len() + n) by {
            assert(b2.fits(n) == b1.fits(e2.len() + n));
            assert(b1.fits(e2.len() + n) == b0.fits(e1.len() + (e2.len() + n)));
        }
    } else {
        let k = b2.written().len() - b1.written().len();
        assert((e1 + e2).take(e1.len() + k) =~= e1 + e2.take(k));
        assert(b2.written() =~= b0.written() + (e1 + e2).take(b2.written().len() - b0.written().len()));
    }
}

/// A failed write of `e1` is a failed write of `e1 + e2`.
pub proof fn lemma_encode_stopped<B: Buffer>(b0: B, b1: B, e1: Seq<u8>, e2: Seq<u8>)
    requires
        encode_post(b0, b1, e1, None),
    ensures
        encode_post(b0, b1, e1 + e2, None),
{
    if b0.fits(e1.len() + e2.len()) {
        b0.lemma_fits_fewer(e1.len(), e1.len() + e2.len());
    }
    let k = b1.written().len() - b0.written().len();
    assert((e1 + e2).take(k) =~= e1.take(k));
}

/// Reads two values one after the other.
pub open spec fn parse_pair<'a, A: Codec<'a>, B: Codec<'a>>(bytes: Seq<u8>) -> Option<((A::Model, B::Model), nat)> {
    match A::parse(bytes) {
        Some((a, n)) => match B::parse(bytes.skip(n as int)) {
            Some((b, m)) => Some(((a, b), n + m)),
            None => None,
        },
        None => None,
    }
}

/// Reading two encodings one after the other gives back both values.
pub proof fn lemma_pair_reads_back<'a, A: Codec<'a>, B: Codec<'a>>(a: A, b: B, rest: Seq<u8>)
    requires
        a.reads_back(b.encoding() + rest),
        b.reads_back(rest),
    ensures
        parse_pair::<A, B>(a.encoding() + b.encoding() + rest) == Some(
            ((a.model(), b.model()), (a.encoding() + b.encoding()).len()),
        ),
{
    let bytes = a.encoding() + b.encoding() + rest;
    assert(bytes =~= a.encoding() + (b.encoding() + rest));
    a.lemma_reads_back(b.encoding() + rest);
    assert(bytes.skip(a.encoding().len() as int) =~= b.encoding() + rest);
    b.lemma_reads_back(rest);
}

impl<'a, T0: Codec<'a>, T1: Codec<'a>> Codec<'a> for (T0, T1) {
    type Model = (T0::Model, T1::Model);

    open spec fn model(&self) -> (T0::Model, T1::Model) {
        (self.0.model(), self.1.model())
    }

    open spec fn encoding(&self) -> Seq<u8> {
        self.0.encoding() + self.1.encoding()
    }

    open spec fn parse(bytes: Seq<u8>) -> Option<((T0::Model, T1::Model), nat)> {
        parse_pair::<T0, T1>(bytes)
    }

    open spec fn reads_back(&self, rest: Seq<u8>) -> bool {
        self.0.reads_back(self.1.encoding() + rest) && self.1.reads_back(rest)
    }

    proof fn lemma_reads_back(&self, rest: Seq<u8>) {
        lemma_pair_reads_back(self.0, self.1, rest);
        assert(self.encoding() + rest =~= self.0.encoding() + self.1.encoding() + rest);
    }

    fn encode<B: Buffer>(&self, buffer: &mut B) -> (r: Option<()>) {
        let ghost b0 = *buffer;
        assert(self.encoding() == self.0.encoding() + self.1.encoding());
        assert(b0 == *old(buffer));
        let r0 = self.0.encode(buffer);
        if r0.is_none() {
            proof {
                lemma_encode_stopped(b0, *buffer, self.0.encoding(), self.1.encoding());
            }
            return None;
        }
        let ghost b1 = *buffer;
        let r1 = self.1.encode(buffer);
        proof {
            lemma_encode_then(b0, b1, *buffer, self.0.encoding(), self.1.encoding(), r1);
        }
        r1
    }

    fn decode(buffer: &mut &'a [u8]) -> (r: Option<(T0, T1)>) {
        let ghost s0 = buffer@;
        let a = T0::decode(buffer);
        match a {
            None => {
                None
            },
            Some(a) => {
                let ghost s1 = buffer@;
                let b = T1::decode(buffer);
                proof {
                    assert(s0.skip(s0.len() - s1.len()) =~= s1);
                    assert(s0.skip(s0.len() - buffer@.len()) =~= buffer@);
                }
                match b {
                    None => None,
                    Some(b) => Some((a, b)),
                }
            },
        }
    }
}

impl<'a> Codec<'a> for u16 {
    type Model = u16;

    open spec fn model(&self) -> u16 {
        *self
    }

    open spec fn encoding(&self) -> Seq<u8> {
        base128(*self as u64)
    }

    open spec fn parse(bytes: Seq<u8>) -> Option<(u16, nat)> {
        match parse_base128(bytes) {
            Some((v, n)) => Some((v as u16, n)),
            None => None,
        }
    }

    open spec fn reads_back(&self, rest: Seq<u8>) -> bool {
        true
    }

    proof fn lemma_reads_back(&self, rest: Seq<u8>) {
        lemma_base128_roundtrip(*self as u64, rest);
    }

    fn encode<B: Buffer>(&self, buffer: &mut B) -> (r: Option<()>) {
        base128_encode(#[verifier::truncate] (*self as u64), buffer)
    }

    fn decode(buffer: &mut &'a [u8]) -> (r: Option<u16>) {
        match base128_decode(buffer) {
            Some(v) => Some(#[verifier::truncate] (v as u16)),
            None => None,
        }
    }
}

impl<'a> Codec<'a> for u32 {
    type Model = u32;

    open spec fn model(&self) -> u32 {
        *self
    }

    open spec fn encoding(&self) -> Seq<u8> {
        base128(*self as u64)
    }

    open spec fn parse(bytes: Seq<u8>) -> Option<(u32, nat)> {
        match parse_base128(bytes) {
            Some((v, n)) => Some((v as u32, n)),
            None => None,
        }
    }

    open spec fn reads_back(&self, rest: Seq<u8>) -> bool {
        true
    }

    proof fn lemma_reads_back(&self, rest: Seq<u8>) {
        lemma_base128_roundtrip(*self as u64, rest);
    }

    fn encode<B: Buffer>(&self, buffer: &mut B) -> (r: Option<()>) {
        base128_encode(#[verifier::truncate] (*self as u64), buffer)
    }

    fn decode(buffer: &mut &'a [u8]) -> (r: Option<u32>) {
        match base128_decode(buffer) {
            Some(v) => Some(#[verifier::truncate] (v as u32)),
            None => None,
        }
    }
}

impl<'a> Codec<'a> for usize {
    type Model = usize;

    open spec fn model(&self) -> usize {
        *self
    }

    open spec fn encoding(&self) -> Seq<u8> {
        base128(*self as u64)
    }

    open spec fn parse(bytes: Seq<u8>) -> Option<(usize, nat)> {
        match parse_base128(bytes) {
            Some((v, n)) => Some((v as usize, n)),
            None => None,
        }
    }

    open spec fn reads_back(&self, rest: Seq<u8>) -> bool {
        true
    }

    proof fn lemma_reads_back(&self, rest: Seq<u8>) {
        lemma_base128_roundtrip(*self as u64, rest);
    }

    fn encode<B: Buffer>(&self, buffer: &mut B) -> (r: Option<()>) {
        base128_encode(#[verifier::truncate] (*self as u64), buffer)
    }

    fn decode(buffer: &mut &'a [u8]) -> (r: Option<usize>) {
        match base128_decode(buffer) {
            Some(v) => Some(#[verifier::truncate] (v as usize)),
            None => None,
        }
    }
}

impl<'a> Codec<'a> for u128 {
    type Model = u128;

    open spec fn model(&self) -> u128 {
        *self
    }

    open spec fn encoding(&self) -> Seq<u8> {
        base128(*self as u64)
    }

    open spec fn parse(bytes: Seq<u8>) -> Option<(u128, nat)> {
        match parse_base128(bytes) {
            Some((v, n)) => Some((v as u128, n)),
            None => None,
        }
    }

    open spec fn reads_back(&self, rest: Seq<u8>) -> bool {
        *self <= u64::MAX
    }

    proof fn lemma_reads_back(&self, rest: Seq<u8>) {
        lemma_base128_roundtrip(*self as u64, rest);
    }

    fn encode<B: Buffer>(&self, buffer: &mut B) -> (r: Option<()>) {
        base128_encode(#[verifier::truncate] (*self as u64), buffer)
    }

    fn decode(buffer: &mut &'a [u8]) -> (r: Option<u128>) {
        match base128_decode(buffer) {
            Some(v) => Some(#[verifier::truncate] (v as u128)),
            None => None,
        }
    }
}

impl<'a> Codec<'a> for () {
    type Model = ();

    open spec fn model(&self) -> () {
        *self
    }

    open spec fn encoding(&self) -> Seq<u8> {
        Seq::empty()
    }

    open spec fn parse(bytes: Seq<u8>) -> Option<((), nat)> {
        Some(((), 0))
    }

    open spec fn reads_back(&self, rest: Seq<u8>) -> bool {
        true
    }

    proof fn lemma_reads_back(&self, rest: Seq<u8>) {
    }

    fn encode<B: Buffer>(&self, buffer: &mut B) -> (r: Option<()>) {
        proof {
            buffer.lemma_fits_nothing();
            assert(old(buffer).written() + Seq::<u8>::empty() =~= old(buffer).written());
            assert forall|n: nat| #[trigger] buffer.fits(n) == old(buffer).fits(0 + n) by {}
        }
        Some(())
    }

    fn decode(buffer: &mut &'a [u8]) -> (r: Option<()>) {
        assert(buffer@.skip(0) =~= buffer@);
        Some(())
    }
}

impl<'a, T: Codec<'a>> Codec<'a> for Option<T> {
    type Model = Option<T::Model>;

    open spec fn model(&self) -> Option<T::Model> {
        match self {
            Some(t) => Some(t.model()),
            None => None,
        }
    }

    open spec fn encoding(&self) -> Seq<u8> {
        match self {
            Some(t) => seq![1u8] + t.encoding(),
            None => seq![0u8],
        }
    }

    open spec fn parse(bytes: Seq<u8>) -> Option<(Option<T::Model>, nat)> {
        match <bool as Codec<'a>>::parse(bytes) {
            Some((true, n)) => match T::parse(bytes.skip(n as int)) {
                Some((t, m)) => Some((Some(t), n + m)),
                None => None,
            },
            Some((false, n)) => Some((None, n)),
            None => None,
        }
    }

    open spec fn reads_back(&self, rest: Seq<u8>) -> bool {
        match self {
            Some(t) => t.reads_back(rest),
            None => true,
        }
    }

    proof fn lemma_reads_back(&self, rest: Seq<u8>) {
        match self {
            Some(t) => {
                assert((seq![1u8] + t.encoding() + rest).skip(1) =~= t.encoding() + rest);
                t.lemma_reads_back(rest);
            },
            None => {},
        }
    }

    fn encode<B: Buffer>(&self, buffer: &mut B) -> (r: Option<()>) {
        match self {
            Some(t) => {
                let ghost b0 = *buffer;
                let r0 = true.encode(buffer);
                if r0.is_none() {
                    proof {
                        lemma_encode_stopped(b0, *buffer, seq![1u8], t.encoding());
                    }
                    return None;
                }
                let ghost b1 = *buffer;
                let r1 = t.encode(buffer);
                proof {
                    lemma_encode_then(b0, b1, *buffer, seq![1u8], t.encoding(), r1);
                }
                r1
            },
            None => false.encode(buffer),
        }
    }

    fn decode(buffer: &mut &'a [u8]) -> (r: Option<Option<T>>) {
        let ghost s0 = buffer@;
        let is_some = <bool as Codec<'a>>::decode(buffer);
        match is_some {
            None => None,
            Some(false) => Some(None),
            Some(true) => {
                let ghost s1 = buffer@;
                let t = T::decode(buffer);
                proof {
                    assert(s0.skip(s0.len() - buffer@.len()) =~= buffer@);
                }
                match t {
                    Some(t) => Some(Some(t)),
                    None => None,
                }
            },
        }
    }
}

impl<'a, R: Codec<'a>, E: Codec<'a>> Codec<'a> for Result<R, E> {
    type Model = Result<R::Model, E::Model>;

    open spec fn model(&self) -> Result<R::Model, E::Model> {
        match self {
            Ok(r) => Ok(r.model()),
            Err(e) => Err(e.model()),
        }
    }

    open spec fn encoding(&self) -> Seq<u8> {
        match self {
            Ok(r) => seq![1u8] + r.encoding(),
            Err(e) => seq![0u8] + e.encoding(),
        }
    }

    open spec fn parse(bytes: Seq<u8>) -> Option<(Result<R::Model, E::Model>, nat)> {
        match <bool as Codec<'a>>::parse(bytes) {
            Some((true, n)) => match R::parse(bytes.skip(n as int)) {
                Some((r, m)) => Some((Ok(r), n + m)),
                None => None,
            },
            Some((false, n)) => match E::parse(bytes.skip(n as int)) {
                Some((e, m)) => Some((Err(e), n + m)),
                None => None,
            },
            None => None,
        }
    }

    open spec fn reads_back(&self, rest: Seq<u8>) -> bool {
        match self {
            Ok(r) => r.reads_back(rest),
            Err(e) => e.reads_back(rest),
        }
    }

    proof fn lemma_reads_back(&self, rest: Seq<u8>) {
        match self {
            Ok(r) => {
                assert((seq![1u8] + r.encoding() + rest).skip(1) =~= r.encoding() + rest);
                r.lemma_reads_back(rest);
            },
            Err(e) => {
                assert((seq![0u8] + e.encoding() + rest).skip(1) =~= e.encoding() + rest);
                e.lemma_reads_back(rest);
            },
        }
    }

    fn encode<B: Buffer>(&self, buffer: &mut B) -> (r: Option<()>) {
        let ghost b0 = *buffer;
        match self {
            Ok(v) => {
                let r0 = true.encode(buffer);
                if r0.is_none() {
                    proof {
                        lemma_encode_stopped(b0, *buffer, seq![1u8], v.encoding());
                    }
                    return None;
                }
                let ghost b1 = *buffer;
                let r1 = v.encode(buffer);
                proof {
                    lemma_encode_then(b0, b1, *buffer, seq![1u8], v.encoding(), r1);
                }
                r1
            },
            Err(e) => {
                let r0 = false.encode(buffer);
                if r0.is_none() {
                    proof {
                        lemma_encode_stopped(b0, *buffer, seq![0u8], e.encoding());
                    }
                    return None;
                }
                let ghost b1 = *buffer;
                let r1 = e.encode(buffer);
                proof {
                    lemma_encode_then(b0, b1, *buffer, seq![0u8], e.encoding(), r1);
                }
                r1
            },
        }
    }

    fn decode(buffer: &mut &'a [u8]) -> (r: Option<Result<R, E>>) {
        let ghost s0 = buffer@;
        let is_ok = <bool as Codec<'a>>::decode(buffer);
        match is_ok {
            None => None,
            Some(true) => {
                let v = R::decode(buffer);
                proof {
                    assert(s0.skip(s0.len() - buffer@.len()) =~= buffer@);
                }
                match v {
                    Some(v) => Some(Ok(v)),
                    None => None,
                }
            },
            Some(false) => {
                let e = E::decode(buffer);
                proof {
                    assert(s0.skip(s0.len() - buffer@.len()) =~= buffer@);
                }
                match e {
                    Some(e) => Some(Err(e)),
                    None => None,
                }
            },
        }
    }
}

/// The encodings of a sequence of values, one after the other.
pub open spec fn items_encoding<'a, T: Codec<'a>>(s: Seq<T>) -> Seq<u8>
    decreases s.len(),
{
    if s.len() == 0 {
        Seq::empty()
    } else {
        items_encoding(s.drop_last()) + s.last().encoding()
    }
}

/// The models of a sequence of values.
pub open spec fn items_model<'a, T: Codec<'a>>(s: Seq<T>) -> Seq<T::Model> {
    Seq::new(s.len(), |i: int| s[i].model())
}

/// Each value of `s` reads back when followed by the encodings of the later ones and
/// then `rest`, and each has a non-empty encoding.
pub open spec fn items_read_back<'a, T: Codec<'a>>(s: Seq<T>, rest: Seq<u8>) -> bool
    decreases s.len(),
{
    if s.len() == 0 {
        true
    } else {
        &&& items_read_back(s.drop_last(), s.last().encoding() + rest)
        &&& s.last().reads_back(rest)
        &&& s.last().encoding().len() > 0
    }
}

/// Reads `count` values one after the other.
pub open spec fn parse_items<'a, T: Codec<'a>>(bytes: Seq<u8>, count: nat) -> Option<(Seq<T::Model>, nat)>
    decreases count,
{
    if count == 0 {
        Some((Seq::empty(), 0))
    } else {
        match parse_items::<T>(bytes, (count - 1) as nat) {
            Some((items, n)) => match T::parse(bytes.skip(n as int)) {
                Some((t, m)) => Some((items.push(t), n + m)),
                None => None,
            },
            None => None,
        }
    }
}

proof fn lemma_items_encoding_split<'a, T: Codec<'a>>(s1: Seq<T>, s2: Seq<T>)
    ensures
        items_encoding(s1 + s2) =~= items_encoding(s1) + items_encoding(s2),
    decreases s2.len(),
{
    if s2.len() > 0 {
        lemma_items_encoding_split(s1, s2.drop_last());
        assert((s1 + s2).drop_last() =~= s1 + s2.drop_last());
    } else {
        assert(s1 + s2 =~= s1);
    }
}

proof fn lemma_items_encoding_len<'a, T: Codec<'a>>(s: Seq<T>, rest: Seq<u8>)
    requires
        items_read_back(s, rest),
    ensures
        items_encoding(s).len() >= s.len(),
    decreases s.len(),
{
    if s.len() > 0 {
        lemma_items_encoding_len(s.drop_last(), s.last().encoding() + rest);
    }
}

proof fn lemma_parse_items_reads_back<'a, T: Codec<'a>>(s: Seq<T>, rest: Seq<u8>)
    requires
        items_read_back(s, rest),
    ensures
        parse_items::<T>(items_encoding(s) + rest, s.len()) == Some(
            (items_model(s), items_encoding(s).len()),
        ),
    decreases s.len(),
{
    if s.len() == 0 {
        assert(items_model(s) =~= Seq::<T::Model>::empty());
    } else {
        let init = s.drop_last();
        let last = s.last();
        let bytes = items_encoding(s) + rest;
        assert(bytes =~= items_encoding(init) + (last.encoding() + rest));
        lemma_parse_items_reads_back(init, last.encoding() + rest);
        assert(bytes.skip(items_encoding(init).len() as int) =~= last.encoding() + rest);
        last.lemma_reads_back(rest);
        assert(items_model(init).push(last.model()) =~= items_model(s));
    }
}

proof fn lemma_parse_items_fails_later<'a, T: Codec<'a>>(bytes: Seq<u8>, k: nat, k2: nat)
    requires
        parse_items::<T>(bytes, k) is None,
        k <= k2,
    ensures
        parse_items::<T>(bytes, k2) is None,
    decreases k2,
{
    if k2 > k {
        lemma_parse_items_fails_later::<T>(bytes, k, (k2 - 1) as nat);
    }
}

/// Reads a sequence of values behind its length.
pub open spec fn parse_seq<'a, T: Codec<'a>>(bytes: Seq<u8>) -> Option<(Seq<T::Model>, nat)> {
    match <usize as Codec<'a>>::parse(bytes) {
        Some((len, n)) => if len > bytes.len() - n {
            None
        } else {
            match parse_items::<T>(bytes.skip(n as int), len as nat) {
                Some((items, m)) => Some((items, n + m)),
                None => None,
            }
        },
        None => None,
    }
}

/// The encoding of a sequence of values behind its length.
pub open spec fn seq_encoding<'a, T: Codec<'a>>(s: Seq<T>) -> Seq<u8> {
    base128(s.len() as u64) + items_encoding(s)
}

proof fn lemma_seq_reads_back<'a, T: Codec<'a>>(s: Seq<T>, rest: Seq<u8>)
    requires
        items_read_back(s, rest),
        s.len() <= usize::MAX,
    ensures
        parse_seq::<T>(seq_encoding(s) + rest) == Some((items_model(s), seq_encoding(s).len())),
{
    let bytes = seq_encoding(s) + rest;
    let len_enc = base128(s.len() as u64);
    assert(bytes =~= len_enc + (items_encoding(s) + rest));
    lemma_base128_roundtrip(s.len() as u64, items_encoding(s) + rest);
    assert((s.len() as u64) as usize == s.len());
    lemma_items_encoding_len(s, rest);
    assert(bytes.skip(len_enc.len() as int) =~= items_encoding(s) + rest);
    lemma_parse_items_reads_back(s, rest);
}

/// A vector reads back: what `Vec::decode` parses from its encoding followed by any
/// bytes its items read back over is the vector's model, taking exactly the encoding; and
/// a length prefix that claims more items than there are bytes left parses to nothing.
pub proof fn lemma_vec_round_trip<'a, T: Codec<'a>>(v: Vec<T>, rest: Seq<u8>, bytes: Seq<u8>)
    requires
        items_read_back(v@, rest),
    ensures
        <Vec<T> as Codec<'a>>::parse(v.encoding() + rest) == Some((v.model(), v.encoding().len())),
        (<usize as Codec<'a>>::parse(bytes) matches Some((len, n)) && len > bytes.len() - n)
            ==> <Vec<T> as Codec<'a>>::parse(bytes) is None,
{
    v.lemma_reads_back(rest);
}

/// Encodes the items of `s` one after the other.
fn encode_items<'a, T: Codec<'a>, B: Buffer>(s: &[T], buffer: &mut B) -> (r: Option<()>)
    ensures
        encode_post(*old(buffer), *final(buffer), items_encoding(s@), r),
{
    let ghost b0 = *buffer;
    let mut i: usize = 0;
    proof {
        buffer.lemma_fits_nothing();
        assert(s@.take(0) =~= Seq::<T>::empty());
        assert(b0.written() + Seq::<u8>::empty() =~= b0.written());
        assert forall|n: nat| #[trigger] buffer.fits(n) == b0.fits(0 + n) by {}
    }
    while i < s.len()
        invariant
            b0 == *old(buffer),
            i <= s@.len(),
            encode_post(b0, *buffer, items_encoding(s@.take(i as int)), Some(())),
        decreases s@.len() - i,
    {
        let ghost bi = *buffer;
        let r = s[i].encode(buffer);
        proof {
            lemma_items_encoding_split(s@.take(i as int), s@.skip(i as int));
            assert(s@.take(i as int) + s@.skip(i as int) =~= s@);
            let tail = s@.skip(i as int);
            lemma_items_encoding_split(seq![tail[0]], tail.drop_first());
            assert(seq![tail[0]] + tail.drop_first() =~= tail);
            assert(items_encoding(seq![tail[0]]) =~= tail[0].encoding()) by {
                assert(seq![tail[0]].drop_last() =~= Seq::<T>::empty());
                reveal_with_fuel(items_encoding, 2);
            }
            assert(s@.take(i + 1).drop_last() =~= s@.take(i as int));
        }
        if r.is_none() {
            proof {
                let tail = s@.skip(i as int);
                lemma_encode_stopped(bi, *buffer, tail[0].encoding(), items_encoding(tail.drop_first()));
                lemma_encode_then(
                    b0,
                    bi,
                    *buffer,
                    items_encoding(s@.take(i as int)),
                    tail[0].encoding() + items_encoding(tail.drop_first()),
                    None,
                );
                assert(items_encoding(s@.take(i as int)) + (tail[0].encoding() + items_encoding(
                    tail.drop_first(),
                )) =~= items_encoding(s@));
            }
            return None;
        }
        proof {
            lemma_encode_then(
                b0,
                bi,
                *buffer,
                items_encoding(s@.take(i as int)),
                s@[i as int].encoding(),
                Some(()),
            );
        }
        i = i + 1;
    }
    proof {
        assert(s@.take(i as int) =~= s@);
    }
    Some(())
}

/// Decodes `count` items one after the other.
fn decode_items<'a, T: Codec<'a>>(buffer: &mut &'a [u8], count: usize) -> (r: Option<Vec<T>>)
    ensures
        is_suffix(old(buffer)@, final(buffer)@),
        match parse_items::<T>(old(buffer)@, count as nat) {
            Some((items, n)) => r is Some && items_model(r.unwrap()@) == items && n <= old(
                buffer,
            )@.len() && final(buffer)@ =~= old(buffer)@.skip(n as int),
            None => r is None,
        },
{
    let ghost start = buffer@;
    let mut items: Vec<T> = Vec::new();
    let mut i: usize = 0;
    proof {
        assert(start.skip(0) =~= start);
        assert(items_model(items@) =~= Seq::<T::Model>::empty());
    }
    while i < count
        invariant
            start == old(buffer)@,
            i <= count,
            is_suffix(start, buffer@),
            parse_items::<T>(start, i as nat) == Some(
                (items_model(items@), (start.len() - buffer@.len()) as nat),
            ),
        decreases count - i,
    {
        let ghost before = buffer@;
        let ghost done = (start.len() - before.len()) as nat;
        assert(start.skip(done as int) =~= before);
        let item = T::decode(buffer);
        match item {
            None => {
                proof {
                    assert(parse_items::<T>(start, (i + 1) as nat) is None);
                    lemma_parse_items_fails_later::<T>(start, (i + 1) as nat, count as nat);
                    assert(start.skip(start.len() - buffer@.len()) =~= buffer@);
                }
                return None;
            },
            Some(item) => {
                let ghost old_items = items@;
                items.push(item);
                proof {
                    assert(items_model(items@) =~= items_model(old_items).push(item.model()));
                    assert(start.skip(start.len() - buffer@.len()) =~= buffer@);
                }
            },
        }
        i = i + 1;
    }
    Some(items)
}

impl<'a, T: Codec<'a>> Codec<'a> for Vec<T> {
    type Model = Seq<T::Model>;

    open spec fn model(&self) -> Seq<T::Model> {
        items_model(self@)
    }

    open spec fn encoding(&self) -> Seq<u8> {
        seq_encoding(self@)
    }

    open spec fn parse(bytes: Seq<u8>) -> Option<(Seq<T::Model>, nat)> {
        parse_seq::<T>(bytes)
    }

    open spec fn reads_back(&self, rest: Seq<u8>) -> bool {
        items_read_back(self@, rest)
    }

    proof fn lemma_reads_back(&self, rest: Seq<u8>) {
        broadcast use vstd::std_specs::vec::axiom_spec_len;

        assert(self@.len() == self.len());
        lemma_seq_reads_back(self@, rest);
    }

    fn encode<B: Buffer>(&self, buffer: &mut B) -> (r: Option<()>) {
        let ghost b0 = *buffer;
        let r0 = self.len().encode(buffer);
        if r0.is_none() {
            proof {
                lemma_encode_stopped(b0, *buffer, base128(self@.len() as u64), items_encoding(self@));
            }
            return None;
        }
        let ghost b1 = *buffer;
        let r1 = encode_items(self.as_slice(), buffer);
        proof {
            lemma_encode_then(b0, b1, *buffer, base128(self@.len() as u64), items_encoding(self@), r1);
        }
        r1
    }

    fn decode(buffer: &mut &'a [u8]) -> (r: Option<Vec<T>>) {
        let ghost s0 = buffer@;
        let len = <usize as Codec<'a>>::decode(buffer);
        let len = match len {
            Some(len) => len,
            None => return None,
        };
        if len > buffer.len() {
            return None;
        }
        let ghost s1 = buffer@;
        let items = decode_items::<T>(buffer, len);
        proof {
            assert(s1 =~= s0.skip(s0.len() - s1.len()));
            assert(s0.skip(s0.len() - buffer@.len()) =~= buffer@);
        }
        items
    }
}

/// Reads a run of bytes behind its length.
pub open spec fn parse_bytes(bytes: Seq<u8>) -> Option<(Seq<u8>, nat)> {
    match parse_base128(bytes) {
        Some((len, n)) => if (len as usize) > bytes.len() - n {
            None
        } else {
            Some((bytes.subrange(n as int, n + (len as usize)), (n + (len as usize)) as nat))
        },
        None => None,
    }
}

/// The encoding of a run of bytes behind its length.
pub open spec fn bytes_encoding(b: Seq<u8>) -> Seq<u8> {
    base128(b.len() as u64) + b
}

pub(crate) proof fn lemma_bytes_reads_back(b: Seq<u8>, rest: Seq<u8>)
    requires
        b.len() <= usize::MAX,
    ensures
        parse_bytes(bytes_encoding(b) + rest) == Some((b, bytes_encoding(b).len())),
{
    let len_enc = base128(b.len() as u64);
    let bytes = bytes_encoding(b) + rest;
    assert(bytes =~= len_enc + (b + rest));
    lemma_base128_roundtrip(b.len() as u64, b + rest);
    assert(((b.len() as u64) as usize) == b.len());
    assert(bytes.subrange(len_enc.len() as int, (len_enc.len() + b.len()) as int) =~= b);
}

/// Writes a run of bytes behind its length.
pub(crate) fn encode_bytes<B: Buffer>(b: &[u8], buffer: &mut B) -> (r: Option<()>)
    ensures
        encode_post(*old(buffer), *final(buffer), bytes_encoding(b@), r),
{
    let ghost b0 = *buffer;
    let r0 = b.len().encode(buffer);
    if r0.is_none() {
        proof {
            lemma_encode_stopped(b0, *buffer, base128(b@.len() as u64), b@);
        }
        return None;
    }
    let ghost b1 = *buffer;
    let r1 = buffer.extend_from_slice(b);
    proof {
        if r1 is None {
            assert(b1.written() + b@.take(0) =~= b1.written());
        }
        lemma_encode_then(b0, b1, *buffer, base128(b@.len() as u64), b@, r1);
    }
    r1
}

/// Reads a run of bytes behind its length, as a part of the buffer.
pub(crate) fn decode_bytes<'a>(buffer: &mut &'a [u8]) -> (r: Option<&'a [u8]>)
    ensures
        decode_post(
            parse_bytes(old(buffer)@),
            old(buffer)@,
            final(buffer)@,
            (match r {
                Some(v) => Some(v@),
                None => None,
            }),
        ),
{
    let ghost s0 = buffer@;
    let len = <usize as Codec<'a>>::decode(buffer);
    let len = match len {
        Some(len) => len,
        None => return None,
    };
    let ghost n = (s0.len() - buffer@.len()) as nat;
    assert(parse_base128(s0) matches Some((v, m)) && m == n && v as usize == len);
    if buffer.len() < len {
        assert(parse_bytes(s0) is None);
        return None;
    }
    assert(buffer@ =~= s0.skip(n as int));
    let bytes = vstd::slice::slice_subrange(*buffer, 0, len);
    assert(bytes@ =~= s0.subrange(n as int, n + len));
    *buffer = vstd::slice::slice_subrange(*buffer, len, buffer.len());
    proof {
        let n = (s0.len() - old(buffer)@.len()) as nat;
        assert(s0.skip(s0.len() - buffer@.len()) =~= buffer@);
    }
    Some(bytes)
}

impl<'a> Codec<'a> for &'a [u8] {
    type Model = Seq<u8>;

    open spec fn model(&self) -> Seq<u8> {
        self@
    }

    open spec fn encoding(&self) -> Seq<u8> {
        bytes_encoding(self@)
    }

    open spec fn parse(bytes: Seq<u8>) -> Option<(Seq<u8>, nat)> {
        parse_bytes(bytes)
    }

    open spec fn reads_back(&self, rest: Seq<u8>) -> bool {
        true
    }

    proof fn lemma_reads_back(&self, rest: Seq<u8>) {
        broadcast use vstd::slice::group_slice_axioms;

        assert(self@.len() == self.len());
        lemma_bytes_reads_back(self@, rest);
    }

    fn encode<B: Buffer>(&self, buffer: &mut B) -> (r: Option<()>) {
        encode_bytes(*self, buffer)
    }

    fn decode(buffer: &mut &'a [u8]) -> (r: Option<&'a [u8]>) {
        decode_bytes(buffer)
    }
}

/// The rest of a message: its bytes are written as they are and reading takes all that remains.
#[derive(Clone, Copy, Debug, PartialEq, Eq, Hash, Default)]
pub struct Reminder<'a>(pub &'a [u8]);

impl<'a> Codec<'a> for Reminder<'a> {
    type Model = Seq<u8>;

    open spec fn model(&self) -> Seq<u8> {
        self.0@
    }

    open spec fn encoding(&self) -> Seq<u8> {
        self.0@
    }

    open spec fn parse(bytes: Seq<u8>) -> Option<(Seq<u8>, nat)> {
        Some((bytes, bytes.len()))
    }

    open spec fn reads_back(&self, rest: Seq<u8>) -> bool {
        rest.len() == 0
    }

    proof fn lemma_reads_back(&self, rest: Seq<u8>) {
        assert(self.0@ + rest =~= self.0@);
    }

    fn encode<B: Buffer>(&self, buffer: &mut B) -> (r: Option<()>) {
        let r = buffer.extend_from_slice(self.0);
        assert(old(buffer).written() + self.0@.take(0) =~= old(buffer).written());
        r
    }

    fn decode(buffer: &mut &'a [u8]) -> (r: Option<Reminder<'a>>) {
        let all = *buffer;
        *buffer = vstd::slice::slice_subrange(all, all.len(), all.len());
        proof {
            assert(all@.skip(all@.len() as int) =~= buffer@);
        }
        Some(Reminder(all))
    }
}

/// Some structures suport optimized codec when placed as the last part of the message.
#[derive(Debug, Clone, Copy)]
pub struct Unbound<T>(pub T);

impl<'a> Codec<'a> for Unbound<Vec<u8>> {
    type Model = Seq<u8>;

    open spec fn model(&self) -> Seq<u8> {
        self.0@
    }

    open spec fn encoding(&self) -> Seq<u8> {
        self.0@
    }

    open spec fn parse(bytes: Seq<u8>) -> Option<(Seq<u8>, nat)> {
        Some((bytes, bytes.len()))
    }

    open spec fn reads_back(&self, rest: Seq<u8>) -> bool {
        rest.len() == 0
    }

    proof fn lemma_reads_back(&self, rest: Seq<u8>) {
        assert(self.0@ + rest =~= self.0@);
    }

    fn encode<B: Buffer>(&self, buffer: &mut B) -> (r: Option<()>) {
        let r = buffer.extend_from_slice(self.0.as_slice());
        assert(old(buffer).written() + self.0@.take(0) =~= old(buffer).written());
        r
    }

    fn decode(buffer: &mut &'a [u8]) -> (r: Option<Unbound<Vec<u8>>>) {
        let all = *buffer;
        let mut bytes: Vec<u8> = Vec::new();
        let _ = Buffer::extend_from_slice(&mut bytes, all);
        *buffer = vstd::slice::slice_subrange(all, all.len(), all.len());
        proof {
            assert(all@.skip(all@.len() as int) =~= buffer@);
        }
        Some(Unbound(bytes))
    }
}

/// A value that is neither written nor read: reading gives the default value.
#[derive(Debug, Clone, Copy, PartialEq, Eq, PartialOrd, Ord, Hash, Default)]
pub struct Ignored<T>(pub T);

impl<'a, T: Codec<'a> + Default> Codec<'a> for Ignored<T> {
    type Model = ();

    open spec fn model(&self) -> () {
        ()
    }

    open spec fn encoding(&self) -> Seq<u8> {
        Seq::empty()
    }

    open spec fn parse(bytes: Seq<u8>) -> Option<((), nat)> {
        Some(((), 0))
    }

    open spec fn reads_back(&self, rest: Seq<u8>) -> bool {
        true
    }

    proof fn lemma_reads_back(&self, rest: Seq<u8>) {
    }

    fn encode<B: Buffer>(&self, buffer: &mut B) -> (r: Option<()>) {
        proof {
            buffer.lemma_fits_nothing();
            assert(old(buffer).written() + Seq::<u8>::empty() =~= old(buffer).written());
            assert forall|n: nat| #[trigger] buffer.fits(n) == old(buffer).fits(0 + n) by {}
        }
        Some(())
    }

    fn decode(buffer: &mut &'a [u8]) -> (r: Option<Ignored<T>>) {
        assert(buffer@.skip(0) =~= buffer@);
        Some(Ignored(T::default()))
    }
}

/// Whether `bytes` are valid UTF-8, and the text they hold.
#[verifier::external_body]
pub(crate) fn str_from_utf8<'a>(bytes: &'a [u8]) -> (r: Option<&'a str>)
    ensures
        r is Some <==> valid_utf8(bytes@),
        r matches Some(s) ==> s.spec_bytes() == bytes@,
{
    core::str::from_utf8(bytes).ok()
}

/// Reads UTF-8 text behind its length in bytes.
pub open spec fn parse_text(bytes: Seq<u8>) -> Option<(Seq<char>, nat)> {
    match parse_bytes(bytes) {
        Some((b, n)) => if valid_utf8(b) {
            Some((decode_utf8(b), n))
        } else {
            None
        },
        None => None,
    }
}

/// Reading the length-prefixed UTF-8 bytes of a text gives the text back.
pub proof fn lemma_text_reads_back(t: Seq<char>, rest: Seq<u8>)
    requires
        encode_utf8(t).len() <= usize::MAX,
    ensures
        parse_text(bytes_encoding(encode_utf8(t)) + rest) == Some(
            (t, bytes_encoding(encode_utf8(t)).len()),
        ),
{
    broadcast use {encode_utf8_valid_utf8, encode_utf8_decode_utf8};

    lemma_bytes_reads_back(encode_utf8(t), rest);
}

impl<'a> Codec<'a> for &'a str {
    type Model = Seq<char>;

    open spec fn model(&self) -> Seq<char> {
        self@
    }

    open spec fn encoding(&self) -> Seq<u8> {
        bytes_encoding(self.spec_bytes())
    }

    open spec fn parse(bytes: Seq<u8>) -> Option<(Seq<char>, nat)> {
        parse_text(bytes)
    }

    open spec fn reads_back(&self, rest: Seq<u8>) -> bool {
        encode_utf8(self@).len() <= usize::MAX
    }

    proof fn lemma_reads_back(&self, rest: Seq<u8>) {
        lemma_text_reads_back(self@, rest);
    }

    fn encode<B: Buffer>(&self, buffer: &mut B) -> (r: Option<()>) {
        encode_bytes(self.as_bytes(), buffer)
    }

    fn decode(buffer: &mut &'a [u8]) -> (r: Option<&'a str>) {
        let bytes = decode_bytes(buffer);
        match bytes {
            None => None,
            Some(bytes) => {
                let text = str_from_utf8(bytes);
                proof {
                    if let Some(t) = text {
                        encode_utf8_decode_utf8(t@);
                    }
                }
                text
            },
        }
    }
}

impl<'a> Codec<'a> for String {
    type Model = Seq<char>;

    open spec fn model(&self) -> Seq<char> {
        self@
    }

    open spec fn encoding(&self) -> Seq<u8> {
        bytes_encoding(encode_utf8(self@))
    }

    open spec fn parse(bytes: Seq<u8>) -> Option<(Seq<char>, nat)> {
        parse_text(bytes)
    }

    open spec fn reads_back(&self, rest: Seq<u8>) -> bool {
        encode_utf8(self@).len() <= usize::MAX
    }

    proof fn lemma_reads_back(&self, rest: Seq<u8>) {
        lemma_text_reads_back(self@, rest);
    }

    fn encode<B: Buffer>(&self, buffer: &mut B) -> (r: Option<()>) {
        self.as_str().encode(buffer)
    }

    fn decode(buffer: &mut &'a [u8]) -> (r: Option<String>) {
        let text = <&'a str as Codec<'a>>::decode(buffer);
        match text {
            None => None,
            Some(t) => Some(t.to_owned()),
        }
    }
}

impl<'a, T0: Codec<'a>, T1: Codec<'a>, T2: Codec<'a>> Codec<'a> for (T0, T1, T2) {
    type Model = (T0::Model, T1::Model, T2::Model);

    open spec fn model(&self) -> (T0::Model, T1::Model, T2::Model) {
        (self.0.model(), self.1.model(), self.2.model())
    }

    open spec fn encoding(&self) -> Seq<u8> {
        self.0.encoding() + self.1.encoding() + self.2.encoding()
    }

    open spec fn parse(bytes: Seq<u8>) -> Option<((T0::Model, T1::Model, T2::Model), nat)> {
        match T0::parse(bytes) {
            Some((v0, n0)) => match T1::parse(bytes.skip((n0) as int)) {
            Some((v1, n1)) => match T2::parse(bytes.skip((n0 + n1) as int)) {
            Some((v2, n2)) => Some(((v0, v1, v2), n0 + n1 + n2)),
            None => None,
        },
            None => None,
        },
            None => None,
        }
    }

    open spec fn reads_back(&self, rest: Seq<u8>) -> bool {
        self.0.reads_back(self.1.encoding() + self.2.encoding() + rest) && self.1.reads_back(self.2.encoding() + rest) && self.2.reads_back(rest)
    }

    proof fn lemma_reads_back(&self, rest: Seq<u8>) {
        let all = self.encoding() + rest;
        self.0.lemma_reads_back(self.1.encoding() + self.2.encoding() + rest);
        assert(all =~= self.0.encoding() + (self.1.encoding() + self.2.encoding() + rest));
        self.1.lemma_reads_back(self.2.encoding() + rest);
        assert(all.skip((self.0.encoding()).len() as int) =~= self.1.encoding() + (self.2.encoding() + rest));
        self.2.lemma_reads_back(rest);
        assert(all.skip((self.0.encoding() + self.1.encoding()).len() as int) =~= self.2.encoding() + (rest));
    }

    fn encode<B: Buffer>(&self, buffer: &mut B) -> (r: Option<()>) {
        let ghost b0 = *buffer;
        let ghost bi0 = *buffer;
        let r0 = self.0.encode(buffer);
        if r0.is_none() {
            proof {
                lemma_encode_stopped(bi0, *buffer, self.0.encoding(), self.1.encoding() + self.2.encoding());
                assert(self.0.encoding() + (self.1.encoding() + self.2.encoding()) =~= self.encoding());
            }
            return None;
        }
        let ghost bi1 = *buffer;
        let r1 = self.1.encode(buffer);
        if r1.is_none() {
            proof {
                lemma_encode_stopped(bi1, *buffer, self.1.encoding(), self.2.encoding());
                lemma_encode_then(b0, bi1, *buffer, self.0.encoding(), self.1.encoding() + (self.2.encoding()), None);
                assert(self.0.encoding() + (self.1.encoding() + (self.2.encoding())) =~= self.encoding());
            }
            return None;
        }
        proof {
            lemma_encode_then(b0, bi1, *buffer, self.0.encoding(), self.1.encoding(), r1);
            assert(self.0.encoding() + self.1.encoding() =~= self.0.encoding() + self.1.encoding());
        }
        let ghost bi2 = *buffer;
        let r2 = self.2.encode(buffer);
        proof {
            lemma_encode_then(b0, bi2, *buffer, self.0.encoding() + self.1.encoding(), self.2.encoding(), r2);
            assert(self.0.encoding() + self.1.encoding() + self.2.encoding() =~= self.0.encoding() + self.1.encoding() + self.2.encoding());
        }
        r2
    }

    fn decode(buffer: &mut &'a [u8]) -> (r: Option<(T0, T1, T2)>) {
        let ghost s0 = buffer@;
        let v0 = T0::decode(buffer);
        proof {
            assert(s0.skip(s0.len() - buffer@.len()) =~= buffer@);
        }
        let v0 = match v0 {
            Some(v) => v,
            None => return None,
        };
        let v1 = T1::decode(buffer);
        proof {
            assert(s0.skip(s0.len() - buffer@.len()) =~= buffer@);
        }
        let v1 = match v1 {
            Some(v) => v,
            None => return None,
        };
        let v2 = T2::decode(buffer);
        proof {
            assert(s0.skip(s0.len() - buffer@.len()) =~= buffer@);
        }
        let v2 = match v2 {
            Some(v) => v,
            None => return None,
        };
        Some((v0, v1, v2))
    }
}

impl<'a, T0: Codec<'a>, T1: Codec<'a>, T2: Codec<'a>, T3: Codec<'a>> Codec<'a> for (T0, T1, T2, T3) {
    type Model = (T0::Model, T1::Model, T2::Model, T3::Model);

    open spec fn model(&self) -> (T0::Model, T1::Model, T2::Model, T3::Model) {
        (self.0.model(), self.1.model(), self.2.model(), self.3.model())
    }

    open spec fn encoding(&self) -> Seq<u8> {
        self.0.encoding() + self.1.encoding() + self.2.encoding() + self.3.encoding()
    }

    open spec fn parse(bytes: Seq<u8>) -> Option<((T0::Model, T1::Model, T2::Model, T3::Model), nat)> {
        match T0::parse(bytes) {
            Some((v0, n0)) => match T1::parse(bytes.skip((n0) as int)) {
            Some((v1, n1)) => match T2::parse(bytes.skip((n0 + n1) as int)) {
            Some((v2, n2)) => match T3::parse(bytes.skip((n0 + n1 + n2) as int)) {
            Some((v3, n3)) => Some(((v0, v1, v2, v3), n0 + n1 + n2 + n3)),
            None => None,
        },
            None => None,
        },
            None => None,
        },
            None => None,
        }
    }

    open spec fn reads_back(&self, rest: Seq<u8>) -> bool {
        self.0.reads_back(self.1.encoding() + self.2.encoding() + self.3.encoding() + rest) && self.1.reads_back(self.2.encoding() + self.3.encoding() + rest) && self.2.reads_back(self.3.encoding() + rest) && self.3.reads_back(rest)
    }

    proof fn lemma_reads_back(&self, rest: Seq<u8>) {
        let all = self.encoding() + rest;
        self.0.lemma_reads_back(self.1.encoding() + self.2.encoding() + self.3.encoding() + rest);
        assert(all =~= self.0.encoding() + (self.1.encoding() + self.2.encoding() + self.3.encoding() + rest));
        self.1.lemma_reads_back(self.2.encoding() + self.3.encoding() + rest);
        assert(all.skip((self.0.encoding()).len() as int) =~= self.1.encoding() + (self.2.encoding() + self.3.encoding() + rest));
        self.2.lemma_reads_back(self.3.encoding() + rest);
        assert(all.skip((self.0.encoding() + self.1.encoding()).len() as int) =~= self.2.encoding() + (self.3.encoding() + rest));
        self.3.lemma_reads_back(rest);
        assert(all.skip((self.0.encoding() + self.1.encoding() + self.2.encoding()).len() as int) =~= self.3.encoding() + (rest));
    }

    fn encode<B: Buffer>(&self, buffer: &mut B) -> (r: Option<()>) {
        let ghost b0 = *buffer;
        let ghost bi0 = *buffer;
        let r0 = self.0.encode(buffer);
        if r0.is_none() {
            proof {
                lemma_encode_stopped(bi0, *buffer, self.0.encoding(), self.1.encoding() + self.2.encoding() + self.3.encoding());
                assert(self.0.encoding() + (self.1.encoding() + self.2.encoding() + self.3.encoding()) =~= self.encoding());
            }
            return None;
        }
        let ghost bi1 = *buffer;
        let r1 = self.1.encode(buffer);
        if r1.is_none() {
            proof {
                lemma_encode_stopped(bi1, *buffer, self.1.encoding(), self.2.encoding() + self.3.encoding());
                lemma_encode_then(b0, bi1, *buffer, self.0.encoding(), self.1.encoding() + (self.2.encoding() + self.3.encoding()), None);
                assert(self.0.encoding() + (self.1.encoding() + (self.2.encoding() + self.3.encoding())) =~= self.encoding());
            }
            return None;
        }
        proof {
            lemma_encode_then(b0, bi1, *buffer, self.0.encoding(), self.1.encoding(), r1);
            assert(self.0.encoding() + self.1.encoding() =~= self.0.encoding() + self.1.encoding());
        }
        let ghost bi2 = *buffer;
        let r2 = self.2.encode(buffer);
        if r2.is_none() {
            proof {
                lemma_encode_stopped(bi2, *buffer, self.2.encoding(), self.3.encoding());
                lemma_encode_then(b0, bi2, *buffer, self.0.encoding() + self.1.encoding(), self.2.encoding() + (self.3.encoding()), None);
                assert(self.0.encoding() + self.1.encoding() + (self.2.encoding() + (self.3.encoding())) =~= self.encoding());
            }
            return None;
        }
        proof {
            lemma_encode_then(b0, bi2, *buffer, self.0.encoding() + self.1.encoding(), self.2.encoding(), r2);
            assert(self.0.encoding() + self.1.encoding() + self.2.encoding() =~= self.0.encoding() + self.1.encoding() + self.2.encoding());
        }
        let ghost bi3 = *buffer;
        let r3 = self.3.encode(buffer);
        proof {
            lemma_encode_then(b0, bi3, *buffer, self.0.encoding() + self.1.encoding() + self.2.encoding(), self.3.encoding(), r3);
            assert(self.0.encoding() + self.1.encoding() + self.2.encoding() + self.3.encoding() =~= self.0.encoding() + self.1.encoding() + self.2.encoding() + self.3.encoding());
        }
        r3
    }

    fn decode(buffer: &mut &'a [u8]) -> (r: Option<(T0, T1, T2, T3)>) {
        let ghost s0 = buffer@;
        let v0 = T0::decode(buffer);
        proof {
            assert(s0.skip(s0.len() - buffer@.len()) =~= buffer@);
        }
        let v0 = match v0 {
            Some(v) => v,
            None => return None,
        };
        let v1 = T1::decode(buffer);
        proof {
            assert(s0.skip(s0.len() - buffer@.len()) =~= buffer@);
        }
        let v1 = match v1 {
            Some(v) => v,
            None => return None,
        };
        let v2 = T2::decode(buffer);
        proof {
            assert(s0.skip(s0.len() - buffer@.len()) =~= buffer@);
        }
        let v2 = match v2 {
            Some(v) => v,
            None => return None,
        };
        let v3 = T3::decode(buffer);
        proof {
            assert(s0.skip(s0.len() - buffer@.len()) =~= buffer@);
        }
        let v3 = match v3 {
            Some(v) => v,
            None => return None,
        };
        Some((v0, v1, v2, v3))
    }
}

impl<'a, T0: Codec<'a>, T1: Codec<'a>, T2: Codec<'a>, T3: Codec<'a>, T4: Codec<'a>> Codec<'a> for (T0, T1, T2, T3, T4) {
    type Model = (T0::Model, T1::Model, T2::Model, T3::Model, T4::Model);

    open spec fn model(&self) -> (T0::Model, T1::Model, T2::Model, T3::Model, T4::Model) {
        (self.0.model(), self.1.model(), self.2.model(), self.3.model(), self.4.model())
    }

    open spec fn encoding(&self) -> Seq<u8> {
        self.0.encoding() + self.1.encoding() + self.2.encoding() + self.3.encoding() + self.4.encoding()
    }

    open spec fn parse(bytes: Seq<u8>) -> Option<((T0::Model, T1::Model, T2::Model, T3::Model, T4::Model), nat)> {
        match T0::parse(bytes) {
            Some((v0, n0)) => match T1::parse(bytes.skip((n0) as int)) {
            Some((v1, n1)) => match T2::parse(bytes.skip((n0 + n1) as int)) {
            Some((v2, n2)) => match T3::parse(bytes.skip((n0 + n1 + n2) as int)) {
            Some((v3, n3)) => match T4::parse(bytes.skip((n0 + n1 + n2 + n3) as int)) {
            Some((v4, n4)) => Some(((v0, v1, v2, v3, v4), n0 + n1 + n2 + n3 + n4)),
            None => None,
        },
            None => None,
        },
            None => None,
        },
            None => None,
        },
            None => None,
        }
    }

    open spec fn reads_back(&self, rest: Seq<u8>) -> bool {
        self.0.reads_back(self.1.encoding() + self.2.encoding() + self.3.encoding() + self.4.encoding() + rest) && self.1.reads_back(self.2.encoding() + self.3.encoding() + self.4.encoding() + rest) && self.2.reads_back(self.3.encoding() + self.4.encoding() + rest) && self.3.reads_back(self.4.encoding() + rest) && self.4.reads_back(rest)
    }

    proof fn lemma_reads_back(&self, rest: Seq<u8>) {
        let all = self.encoding() + rest;
        self.0.lemma_reads_back(self.1.encoding() + self.2.encoding() + self.3.encoding() + self.4.encoding() + rest);
        assert(all =~= self.0.encoding() + (self.1.encoding() + self.2.encoding() + self.3.encoding() + self.4.encoding() + rest));
        self.1.lemma_reads_back(self.2.encoding() + self.3.encoding() + self.4.encoding() + rest);
        assert(all.skip((self.0.encoding()).len() as int) =~= self.1.encoding() + (self.2.encoding() + self.3.encoding() + self.4.encoding() + rest));
        self.2.lemma_reads_back(self.3.encoding() + self.4.encoding() + rest);
        assert(all.skip((self.0.encoding() + self.1.encoding()).len() as int) =~= self.2.encoding() + (self.3.encoding() + self.4.encoding() + rest));
        self.3.lemma_reads_back(self.4.encoding() + rest);
        assert(all.skip((self.0.encoding() + self.1.encoding() + self.2.encoding()).len() as int) =~= self.3.encoding() + (self.4.encoding() + rest));
        self.4.lemma_reads_back(rest);
        assert(all.skip((self.0.encoding() + self.1.encoding() + self.2.encoding() + self.3.encoding()).len() as int) =~= self.4.encoding() + (rest));
    }

    fn encode<B: Buffer>(&self, buffer: &mut B) -> (r: Option<()>) {
        let ghost b0 = *buffer;
        let ghost bi0 = *buffer;
        let r0 = self.0.encode(buffer);
        if r0.is_none() {
            proof {
                lemma_encode_stopped(bi0, *buffer, self.0.encoding(), self.1.encoding() + self.2.encoding() + self.3.encoding() + self.4.encoding());
                assert(self.0.encoding() + (self.1.encoding() + self.2.encoding() + self.3.encoding() + self.4.encoding()) =~= self.encoding());
            }
            return None;
        }
        let ghost bi1 = *buffer;
        let r1 = self.1.encode(buffer);
        if r1.is_none() {
            proof {
                lemma_encode_stopped(bi1, *buffer, self.1.encoding(), self.2.encoding() + self.3.encoding() + self.4.encoding());
                lemma_encode_then(b0, bi1, *buffer, self.0.encoding(), self.1.encoding() + (self.2.encoding() + self.3.encoding() + self.4.encoding()), None);
                assert(self.0.encoding() + (self.1.encoding() + (self.2.encoding() + self.3.encoding() + self.4.encoding())) =~= self.encoding());
            }
            return None;
        }
        proof {
            lemma_encode_then(b0, bi1, *buffer, self.0.encoding(), self.1.encoding(), r1);
            assert(self.0.encoding() + self.1.encoding() =~= self.0.encoding() + self.1.encoding());
        }
        let ghost bi2 = *buffer;
        let r2 = self.2.encode(buffer);
        if r2.is_none() {
            proof {
                lemma_encode_stopped(bi2, *buffer, self.2.encoding(), self.3.encoding() + self.4.encoding());
                lemma_encode_then(b0, bi2, *buffer, self.0.encoding() + self.1.encoding(), self.2.encoding() + (self.3.encoding() + self.4.encoding()), None);
                assert(self.0.encoding() + self.1.encoding() + (self.2.encoding() + (self.3.encoding() + self.4.encoding())) =~= self.encoding());
            }
            return None;
        }
        proof {
            lemma_encode_then(b0, bi2, *buffer, self.0.encoding() + self.1.encoding(), self.2.encoding(), r2);
            assert(self.0.encoding() + self.1.encoding() + self.2.encoding() =~= self.0.encoding() + self.1.encoding() + self.2.encoding());
        }
        let ghost bi3 = *buffer;
        let r3 = self.3.encode(buffer);
        if r3.is_none() {
            proof {
                lemma_encode_stopped(bi3, *buffer, self.3.encoding(), self.4.encoding());
                lemma_encode_then(b0, bi3, *buffer, self.0.encoding() + self.1.encoding() + self.2.encoding(), self.3.encoding() + (self.4.encoding()), None);
                assert(self.0.encoding() + self.1.encoding() + self.2.encoding() + (self.3.encoding() + (self.4.encoding())) =~= self.encoding());
            }
            return None;
        }
        proof {
            lemma_encode_then(b0, bi3, *buffer, self.0.encoding() + self.1.encoding() + self.2.encoding(), self.3.encoding(), r3);
            assert(self.0.encoding() + self.1.encoding() + self.2.encoding() + self.3.encoding() =~= self.0.encoding() + self.1.encoding() + self.2.encoding() + self.3.encoding());
        }
        let ghost bi4 = *buffer;
        let r4 = self.4.encode(buffer);
        proof {
            lemma_encode_then(b0, bi4, *buffer, self.0.encoding() + self.1.encoding() + self.2.encoding() + self.3.encoding(), self.4.encoding(), r4);
            assert(self.0.encoding() + self.1.encoding() + self.2.encoding() + self.3.encoding() + self.4.encoding() =~= self.0.encoding() + self.1.encoding() + self.2.encoding() + self.3.encoding() + self.4.encoding());
        }
        r4
    }

    fn decode(buffer: &mut &'a [u8]) -> (r: Option<(T0, T1, T2, T3, T4)>) {
        let ghost s0 = buffer@;
        let v0 = T0::decode(buffer);
        proof {
            assert(s0.skip(s0.len() - buffer@.len()) =~= buffer@);
        }
        let v0 = match v0 {
            Some(v) => v,
            None => return None,
        };
        let v1 = T1::decode(buffer);
        proof {
            assert(s0.skip(s0.len() - buffer@.len()) =~= buffer@);
        }
        let v1 = match v1 {
            Some(v) => v,
            None => return None,
        };
        let v2 = T2::decode(buffer);
        proof {
            assert(s0.skip(s0.len() - buffer@.len()) =~= buffer@);
        }
        let v2 = match v2 {
            Some(v) => v,
            None => return None,
        };
        let v3 = T3::decode(buffer);
        proof {
            assert(s0.skip(s0.len() - buffer@.len()) =~= buffer@);
        }
        let v3 = match v3 {
            Some(v) => v,
            None => return None,
        };
        let v4 = T4::decode(buffer);
        proof {
            assert(s0.skip(s0.len() - buffer@.len()) =~= buffer@);
        }
        let v4 = match v4 {
            Some(v) => v,
            None => return None,
        };
        Some((v0, v1, v2, v3, v4))
    }
}

impl<'a, T0: Codec<'a>, T1: Codec<'a>, T2: Codec<'a>, T3: Codec<'a>, T4: Codec<'a>, T5: Codec<'a>> Codec<'a> for (T0, T1, T2, T3, T4, T5) {
    type Model = (T0::Model, T1::Model, T2::Model, T3::Model, T4::Model, T5::Model);

    open spec fn model(&self) -> (T0::Model, T1::Model, T2::Model, T3::Model, T4::Model, T5::Model) {
        (self.0.model(), self.1.model(), self.2.model(), self.3.model(), self.4.model(), self.5.model())
    }

    open spec fn encoding(&self) -> Seq<u8> {
        self.0.encoding() + self.1.encoding() + self.2.encoding() + self.3.encoding() + self.4.encoding() + self.5.encoding()
    }

    open spec fn parse(bytes: Seq<u8>) -> Option<((T0::Model, T1::Model, T2::Model, T3::Model, T4::Model, T5::Model), nat)> {
        match T0::parse(bytes) {
            Some((v0, n0)) => match T1::parse(bytes.skip((n0) as int)) {
            Some((v1, n1)) => match T2::parse(bytes.skip((n0 + n1) as int)) {
            Some((v2, n2)) => match T3::parse(bytes.skip((n0 + n1 + n2) as int)) {
            Some((v3, n3)) => match T4::parse(bytes.skip((n0 + n1 + n2 + n3) as int)) {
            Some((v4, n4)) => match T5::parse(bytes.skip((n0 + n1 + n2 + n3 + n4) as int)) {
            Some((v5, n5)) => Some(((v0, v1, v2, v3, v4, v5), n0 + n1 + n2 + n3 + n4 + n5)),
            None => None,
        },
            None => None,
        },
            None => None,
        },
            None => None,
        },
            None => None,
        },
            None => None,
        }
    }

    open spec fn reads_back(&self, rest: Seq<u8>) -> bool {
        self.0.reads_back(self.1.encoding() + self.2.encoding() + self.3.encoding() + self.4.encoding() + self.5.encoding() + rest) && self.1.reads_back(self.2.encoding() + self.3.encoding() + self.4.encoding() + self.5.encoding() + rest) && self.2.reads_back(self.3.encoding() + self.4.encoding() + self.5.encoding() + rest) && self.3.reads_back(self.4.encoding() + self.5.encoding() + rest) && self.4.reads_back(self.5.encoding() + rest) && self.5.reads_back(rest)
    }

    proof fn lemma_reads_back(&self, rest: Seq<u8>) {
        let all = self.encoding() + rest;
        self.0.lemma_reads_back(self.1.encoding() + self.2.encoding() + self.3.encoding() + self.4.encoding() + self.5.encoding() + rest);
        assert(all =~= self.0.encoding() + (self.1.encoding() + self.2.encoding() + self.3.encoding() + self.4.encoding() + self.5.encoding() + rest));
        self.1.lemma_reads_back(self.2.encoding() + self.3.encoding() + self.4.encoding() + self.5.encoding() + rest);
        assert(all.skip((self.0.encoding()).len() as int) =~= self.1.encoding() + (self.2.encoding() + self.3.encoding() + self.4.encoding() + self.5.encoding() + rest));
        self.2.lemma_reads_back(self.3.encoding() + self.4.encoding() + self.5.encoding() + rest);
        assert(all.skip((self.0.encoding() + self.1.encoding()).len() as int) =~= self.2.encoding() + (self.3.encoding() + self.4.encoding() + self.5.encoding() + rest));
        self.3.lemma_reads_back(self.4.encoding() + self.5.encoding() + rest);
        assert(all.skip((self.0.encoding() + self.1.encoding() + self.2.encoding()).len() as int) =~= self.3.encoding() + (self.4.encoding() + self.5.encoding() + rest));
        self.4.lemma_reads_back(self.5.encoding() + rest);
        assert(all.skip((self.0.encoding() + self.1.encoding() + self.2.encoding() + self.3.encoding()).len() as int) =~= self.4.encoding() + (self.5.encoding() + rest));
        self.5.lemma_reads_back(rest);
        assert(all.skip((self.0.encoding() + self.1.encoding() + self.2.encoding() + self.3.encoding() + self.4.encoding()).len() as int) =~= self.5.encoding() + (rest));
    }

    fn encode<B: Buffer>(&self, buffer: &mut B) -> (r: Option<()>) {
        let ghost b0 = *buffer;
        let ghost bi0 = *buffer;
        let r0 = self.0.encode(buffer);
        if r0.is_none() {
            proof {
                lemma_encode_stopped(bi0, *buffer, self.0.encoding(), self.1.encoding() + self.2.encoding() + self.3.encoding() + self.4.encoding() + self.5.encoding());
                assert(self.0.encoding() + (self.1.encoding() + self.2.encoding() + self.3.encoding() + self.4.encoding() + self.5.encoding()) =~= self.encoding());
            }
            return None;
        }
        let ghost bi1 = *buffer;
        let r1 = self.1.encode(buffer);
        if r1.is_none() {
            proof {
                lemma_encode_stopped(bi1, *buffer, self.1.encoding(), self.2.encoding() + self.3.encoding() + self.4.encoding() + self.5.encoding());
                lemma_encode_then(b0, bi1, *buffer, self.0.encoding(), self.1.encoding() + (self.2.encoding() + self.3.encoding() + self.4.encoding() + self.5.encoding()), None);
                assert(self.0.encoding() + (self.1.encoding() + (self.2.encoding() + self.3.encoding() + self.4.encoding() + self.5.encoding())) =~= self.encoding());
            }
            return None;
        }
        proof {
            lemma_encode_then(b0, bi1, *buffer, self.0.encoding(), self.1.encoding(), r1);
            assert(self.0.encoding() + self.1.encoding() =~= self.0.encoding() + self.1.encoding());
        }
        let ghost bi2 = *buffer;
        let r2 = self.2.encode(buffer);
        if r2.is_none() {
            proof {
                lemma_encode_stopped(bi2, *buffer, self.2.encoding(), self.3.encoding() + self.4.encoding() + self.5.encoding());
                lemma_encode_then(b0, bi2, *buffer, self.0.encoding() + self.1.encoding(), self.2.encoding() + (self.3.encoding() + self.4.encoding() + self.5.encoding()), None);
                assert(self.0.encoding() + self.1.encoding() + (self.2.encoding() + (self.3.encoding() + self.4.encoding() + self.5.encoding())) =~= self.encoding());
            }
            return None;
        }
        proof {
            lemma_encode_then(b0, bi2, *buffer, self.0.encoding() + self.1.encoding(), self.2.encoding(), r2);
            assert(self.0.encoding() + self.1.encoding() + self.2.encoding() =~= self.0.encoding() + self.1.encoding() + self.2.encoding());
        }
        let ghost bi3 = *buffer;
        let r3 = self.3.encode(buffer);
        if r3.is_none() {
            proof {
                lemma_encode_stopped(bi3, *buffer, self.3.encoding(), self.4.encoding() + self.5.encoding());
                lemma_encode_then(b0, bi3, *buffer, self.0.encoding() + self.1.encoding() + self.2.encoding(), self.3.encoding() + (self.4.encoding() + self.5.encoding()), None);
                assert(self.0.encoding() + self.1.encoding() + self.2.encoding() + (self.3.encoding() + (self.4.encoding() + self.5.encoding())) =~= self.encoding());
            }
            return None;
        }
        proof {
            lemma_encode_then(b0, bi3, *buffer, self.0.encoding() + self.1.encoding() + self.2.encoding(), self.3.encoding(), r3);
            assert(self.0.encoding() + self.1.encoding() + self.2.encoding() + self.3.encoding() =~= self.0.encoding() + self.1.encoding() + self.2.encoding() + self.3.encoding());
        }
        let ghost bi4 = *buffer;
        let r4 = self.4.encode(buffer);
        if r4.is_none() {
            proof {
                lemma_encode_stopped(bi4, *buffer, self.4.encoding(), self.5.encoding());
                lemma_encode_then(b0, bi4, *buffer, self.0.encoding() + self.1.encoding() + self.2.encoding() + self.3.encoding(), self.4.encoding() + (self.5.encoding()), None);
                assert(self.0.encoding() + self.1.encoding() + self.2.encoding() + self.3.encoding() + (self.4.encoding() + (self.5.encoding())) =~= self.encoding());
            }
            return None;
        }
        proof {
            lemma_encode_then(b0, bi4, *buffer, self.0.encoding() + self.1.encoding() + self.2.encoding() + self.3.encoding(), self.4.encoding(), r4);
            assert(self.0.encoding() + self.1.encoding() + self.2.encoding() + self.3.encoding() + self.4.encoding() =~= self.0.encoding() + self.1.encoding() + self.2.encoding() + self.3.encoding() + self.4.encoding());
        }
        let ghost bi5 = *buffer;
        let r5 = self.5.encode(buffer);
        proof {
            lemma_encode_then(b0, bi5, *buffer, self.0.encoding() + self.1.encoding() + self.2.encoding() + self.3.encoding() + self.4.encoding(), self.5.encoding(), r5);
            assert(self.0.encoding() + self.1.encoding() + self.2.encoding() + self.3.encoding() + self.4.encoding() + self.5.encoding() =~= self.0.encoding() + self.1.encoding() + self.2.encoding() + self.3.encoding() + self.4.encoding() + self.5.encoding());
        }
        r5
    }

    fn decode(buffer: &mut &'a [u8]) -> (r: Option<(T0, T1, T2, T3, T4, T5)>) {
        let ghost s0 = buffer@;
        let v0 = T0::decode(buffer);
        proof {
            assert(s0.skip(s0.len() - buffer@.len()) =~= buffer@);
        }
        let v0 = match v0 {
            Some(v) => v,
            None => return None,
        };
        let v1 = T1::decode(buffer);
        proof {
            assert(s0.skip(s0.len() - buffer@.len()) =~= buffer@);
        }
        let v1 = match v1 {
            Some(v) => v,
            None => return None,
        };
        let v2 = T2::decode(buffer);
        proof {
            assert(s0.skip(s0.len() - buffer@.len()) =~= buffer@);
        }
        let v2 = match v2 {
            Some(v) => v,
            None => return None,
        };
        let v3 = T3::decode(buffer);
        proof {
            assert(s0.skip(s0.len() - buffer@.len()) =~= buffer@);
        }
        let v3 = match v3 {
            Some(v) => v,
            None => return None,
        };
        let v4 = T4::decode(buffer);
        proof {
            assert(s0.skip(s0.len() - buffer@.len()) =~= buffer@);
        }
        let v4 = match v4 {
            Some(v) => v,
            None => return None,
        };
        let v5 = T5::decode(buffer);
        proof {
            assert(s0.skip(s0.len() - buffer@.len()) =~= buffer@);
        }
        let v5 = match v5 {
            Some(v) => v,
            None => return None,
        };
        Some((v0, v1, v2, v3, v4, v5))
    }
}

impl<'a, const N: usize> Codec<'a> for [u8; N] {
    type Model = Seq<u8>;

    open spec fn model(&self) -> Seq<u8> {
        self@
    }

    open spec fn encoding(&self) -> Seq<u8> {
        self@
    }

    open spec fn parse(bytes: Seq<u8>) -> Option<(Seq<u8>, nat)> {
        if bytes.len() < N {
            None
        } else {
            Some((bytes.take(N as int), N as nat))
        }
    }

    open spec fn reads_back(&self, rest: Seq<u8>) -> bool {
        true
    }

    proof fn lemma_reads_back(&self, rest: Seq<u8>) {
        assert((self@ + rest).take(N as int) =~= self@);
    }

    fn encode<B: Buffer>(&self, buffer: &mut B) -> (r: Option<()>) {
        let r = buffer.extend_from_slice(self.as_slice());
        assert(old(buffer).written() + self@.take(0) =~= old(buffer).written());
        r
    }

    fn decode(buffer: &mut &'a [u8]) -> (r: Option<[u8; N]>) {
        if buffer.len() < N {
            return None;
        }
        let mut out = [0u8; N];
        let mut i: usize = 0;
        while i < N
            invariant
                i <= N,
                N <= buffer@.len(),
                forall|k: int| 0 <= k < i ==> out@[k] == buffer@[k],
            decreases N - i,
        {
            out[i] = buffer[i];
            i = i + 1;
        }
        let ghost s0 = buffer@;
        *buffer = vstd::slice::slice_subrange(*buffer, N, buffer.len());
        proof {
            assert(out@ =~= s0.take(N as int));
        }
        Some(out)
    }
}

impl<'a, T> Codec<'a> for core::marker::PhantomData<T> {
    type Model = ();

    open spec fn model(&self) -> () {
        ()
    }

    open spec fn encoding(&self) -> Seq<u8> {
        Seq::empty()
    }

    open spec fn parse(bytes: Seq<u8>) -> Option<((), nat)> {
        Some(((), 0))
    }

    open spec fn reads_back(&self, rest: Seq<u8>) -> bool {
        true
    }

    proof fn lemma_reads_back(&self, rest: Seq<u8>) {
    }

    fn encode<B: Buffer>(&self, buffer: &mut B) -> (r: Option<()>) {
        proof {
            buffer.lemma_fits_nothing();
            assert(old(buffer).written() + Seq::<u8>::empty() =~= old(buffer).written());
            assert forall|n: nat| #[trigger] buffer.fits(n) == old(buffer).fits(0 + n) by {}
        }
        Some(())
    }

    fn decode(buffer: &mut &'a [u8]) -> (r: Option<core::marker::PhantomData<T>>) {
        assert(buffer@.skip(0) =~= buffer@);
        Some(core::marker::PhantomData)
    }
}

/// The bytes of a base-128 number, produced one at a time.
pub struct Base128Bytes(u64, bool);

impl View for Base128Bytes {
    type V = (u64, bool);

    closed spec fn view(&self) -> (u64, bool) {
        (self.0, self.1)
    }
}

impl Base128Bytes {
    pub fn new(value: u64) -> (r: Self)
        ensures
            r@ == (value, true),
    {
        Base128Bytes(value, true)
    }

    /// The next byte: the low seven bits of the value, which is then shifted right by
    /// seven and, when something remains, has its eighth bit set. Nothing comes once the
    /// value is zero, except that the first call always gives a byte.
    pub fn next(&mut self) -> (r: Option<u8>)
        ensures
            !old(self)@.1 && old(self)@.0 == 0 ==> r is None && final(self)@ == (0u64, false),
            old(self)@.1 || old(self)@.0 != 0 ==> {
                let rest = old(self)@.0 >> 7u64;
                &&& r == Some((old(self)@.0 & 0x7f) as u8)
                &&& final(self)@ == (if rest != 0 {
                    rest | 0x80u64
                } else {
                    0u64
                }, false)
            },
    {
        let first = self.1;
        self.1 = false;
        if !first && self.0 == 0 {
            return None;
        }
        let byte = #[verifier::truncate] ((self.0 & 0x7f) as u8);
        self.0 = self.0 >> 7u64;
        if self.0 != 0 {
            self.0 = self.0 | 0x80;
        }
        Some(byte)
    }
}

/// The bytes that remain of a message, held in shared memory.
#[derive(Debug, Clone)]
pub struct OwnedReminder(pub std::sync::Arc<Vec<u8>>);

impl<'a> Codec<'a> for OwnedReminder {
    type Model = Seq<u8>;

    open spec fn model(&self) -> Seq<u8> {
        (*self.0)@
    }

    open spec fn encoding(&self) -> Seq<u8> {
        (*self.0)@
    }

    open spec fn parse(bytes: Seq<u8>) -> Option<(Seq<u8>, nat)> {
        Some((bytes, bytes.len()))
    }

    open spec fn reads_back(&self, rest: Seq<u8>) -> bool {
        rest.len() == 0
    }

    proof fn lemma_reads_back(&self, rest: Seq<u8>) {
        assert((*self.0)@ + rest =~= (*self.0)@);
    }

    fn encode<B: Buffer>(&self, buffer: &mut B) -> (r: Option<()>) {
        let bytes: &Vec<u8> = &self.0;
        let r = buffer.extend_from_slice(bytes.as_slice());
        assert(old(buffer).written() + (*self.0)@.take(0) =~= old(buffer).written());
        r
    }

    fn decode(buffer: &mut &'a [u8]) -> (r: Option<OwnedReminder>) {
        let all = *buffer;
        let mut bytes: Vec<u8> = Vec::new();
        let _ = Buffer::extend_from_slice(&mut bytes, all);
        *buffer = vstd::slice::slice_subrange(all, all.len(), all.len());
        proof {
            assert(all@.skip(all@.len() as int) =~= buffer@);
        }
        Some(OwnedReminder(std::sync::Arc::new(bytes)))
    }
}

/// A writer that appends what it is given to a buffer.
pub struct WritableBuffer<T> {
    pub buffer: T,
}

impl<T: Buffer> WritableBuffer<T> {
    /// Appends `buf`, answering how many bytes were taken, or nothing when they do not fit.
    pub fn write(&mut self, buf: &[u8]) -> (r: Option<usize>)
        ensures
            r is Some <==> old(self).buffer.fits(buf@.len()),
            r is Some ==> r == Some(buf@.len() as usize) && final(self).buffer.written()
                == old(self).buffer.written() + buf@,
            r is None ==> final(self).buffer.written() == old(self).buffer.written(),
    {
        match self.buffer.extend_from_slice(buf) {
            Some(()) => Some(buf.len()),
            None => None,
        }
    }

    /// Nothing is held back, so flushing always succeeds.
    pub fn flush(&mut self) -> (r: Option<()>)
        ensures
            r is Some,
            final(self).buffer.written() == old(self).buffer.written(),
    {
        Some(())
    }
}

} // verus!
