//! Framing of the requests a node's handlers take and of the responses and events they
//! give back.

use crate::codec::{
    lemma_encode_stopped, lemma_encode_then, parse_pair, Buffer, Codec, Reminder,
};
use vstd::prelude::*;

verus! {

/// Identifies a request.
#[derive(Clone, Copy, PartialEq, Eq, Debug, Structural)]
pub struct RequestId(pub usize);

impl RequestId {
    /// The identifier that stands for no request in particular.
    pub fn whatever() -> (r: RequestId)
        ensures
            r.0 == usize::MAX,
    {
        RequestId(usize::MAX)
    }
}

impl<'a> Codec<'a> for RequestId {
    type Model = usize;

    open spec fn model(&self) -> usize {
        self.0
    }

    open spec fn encoding(&self) -> Seq<u8> {
        self.0.encoding()
    }

    open spec fn parse(bytes: Seq<u8>) -> Option<(usize, nat)> {
        <usize as Codec<'a>>::parse(bytes)
    }

    open spec fn reads_back(&self, rest: Seq<u8>) -> bool {
        self.0.reads_back(rest)
    }

    proof fn lemma_reads_back(&self, rest: Seq<u8>) {
        self.0.lemma_reads_back(rest);
    }

    fn encode<B: Buffer>(&self, buffer: &mut B) -> (r: Option<()>) {
        self.0.encode(buffer)
    }

    fn decode(buffer: &mut &'a [u8]) -> (r: Option<RequestId>) {
        match <usize as Codec<'a>>::decode(buffer) {
            Some(id) => Some(RequestId(id)),
            None => None,
        }
    }
}

/// The prefix that picked the handler, and the request's identifier.
pub type RequestMeta = (u8, RequestId);

/// Why a message could not be handed to a handler.
#[derive(Clone, Copy, Debug, PartialEq, Eq, Structural)]
pub enum DispatchError {
    /// No handler has this prefix.
    InvalidPrefix(u8),
    /// The request does not decode.
    InvalidRequest,
}

/// Why a request got no response.
#[derive(Clone, Copy, Debug, PartialEq, Eq, Structural)]
pub enum RequestError {
    /// The response does not decode.
    InvalidResponse,
    /// The other side went away.
    ChannelClosed,
}

/// Encoded packets one after the other, each with the offset at which it was written and
/// what it is for.
pub struct PacketBuffer<M> {
    packets: Vec<u8>,
    bunds: Vec<(usize, M)>,
}

impl<M> View for PacketBuffer<M> {
    type V = (Seq<u8>, Seq<(usize, M)>);

    closed spec fn view(&self) -> (Seq<u8>, Seq<(usize, M)>) {
        (self.packets@, self.bunds@)
    }
}

/// What draining gives: each mark in turn takes the bytes up to its offset, counted from
/// where the previous one stopped.
pub open spec fn drained<M>(bytes: Seq<u8>, bunds: Seq<(usize, M)>) -> Seq<(M, Seq<u8>)>
    decreases bunds.len(),
{
    if bunds.len() == 0 {
        Seq::empty()
    } else {
        seq![(bunds[0].1, bytes.take(bunds[0].0 as int))] + drained(
            bytes.skip(bunds[0].0 as int),
            bunds.drop_first(),
        )
    }
}

/// Every offset of the marks fits in what is left of the bytes when its turn comes.
pub open spec fn drain_ok<M>(bytes: Seq<u8>, bunds: Seq<(usize, M)>) -> bool
    decreases bunds.len(),
{
    bunds.len() == 0 || (bunds[0].0 <= bytes.len() && drain_ok(
        bytes.skip(bunds[0].0 as int),
        bunds.drop_first(),
    ))
}

impl<M> PacketBuffer<M> {
    /// An empty buffer.
    pub fn new() -> (b: Self)
        ensures
            b@ == (Seq::<u8>::empty(), Seq::<(usize, M)>::empty()),
    {
        PacketBuffer { packets: Vec::new(), bunds: Vec::new() }
    }

    /// Appends the encoding of `packet`, marked with the offset it starts at and `id`.
    pub fn push<'a, P: Codec<'a>>(&mut self, packet: &P, id: M)
        ensures
            final(self)@.0 == old(self)@.0 + packet.encoding(),
            final(self)@.1 == old(self)@.1.push((old(self)@.0.len() as usize, id)),
    {
        self.bunds.push((self.packets.len(), id));
        let _ = packet.encode(&mut self.packets);
    }

    /// Takes all packets out, each with its mark; the buffer is empty afterwards.
    pub fn drain(&mut self) -> (r: Vec<(M, Vec<u8>)>)
        requires
            drain_ok(old(self)@.0, old(self)@.1),
        ensures
            final(self)@ == (Seq::<u8>::empty(), Seq::<(usize, M)>::empty()),
            r@.len() == old(self)@.1.len(),
            forall|i: int|
                0 <= i < r@.len() ==> (#[trigger] r@[i]).0 == drained(old(self)@.0, old(self)@.1)[i].0
                    && r@[i].1@ == drained(old(self)@.0, old(self)@.1)[i].1,
    {
        let mut packets: Vec<u8> = Vec::new();
        let mut bunds: Vec<(usize, M)> = Vec::new();
        core::mem::swap(&mut packets, &mut self.packets);
        core::mem::swap(&mut bunds, &mut self.bunds);
        let ghost all = packets@;
        let ghost marks = bunds@;
        let mut out: Vec<(M, Vec<u8>)> = Vec::new();
        let mut start: usize = 0;
        let mut k: usize = 0;
        let n = bunds.len();
        let mut rest: Vec<(usize, M)> = Vec::new();
        // `bunds` is consumed from the front: reverse it once so that popping gives the
        // marks in order.
        while bunds.len() > 0
            invariant
                rest@.len() + bunds@.len() == marks.len(),
                forall|j: int| 0 <= j < rest@.len() ==> #[trigger] rest@[j] == marks[marks.len() - 1 - j],
                forall|j: int| 0 <= j < bunds@.len() ==> #[trigger] bunds@[j] == marks[j],
            decreases bunds@.len(),
        {
            let mark = bunds.pop().unwrap();
            rest.push(mark);
        }
        let ghost mut done: Seq<(M, Seq<u8>)> = Seq::empty();
        proof {
            assert(all.skip(0) =~= all);
            assert(marks.skip(0) =~= marks);
            assert(done + drained(all, marks) =~= drained(all, marks));
        }
        while k < n
            invariant
                n == marks.len(),
                k <= n,
                start <= all.len(),
                all == packets@,
                rest@.len() == n - k,
                forall|j: int| 0 <= j < rest@.len() ==> #[trigger] rest@[j] == marks[n - 1 - j],
                drain_ok(all.skip(start as int), marks.skip(k as int)),
                out@.len() == k,
                done.len() == k,
                forall|i: int|
                    0 <= i < k ==> (#[trigger] out@[i]).0 == done[i].0 && out@[i].1@ == done[i].1,
                drained(all, marks) == done + drained(all.skip(start as int), marks.skip(k as int)),
            decreases n - k,
        {
            let ghost before = rest@;
            let mark = rest.pop().unwrap();
            let ghost tail = all.skip(start as int);
            let ghost ms = marks.skip(k as int);
            assert(before[n - k - 1] == marks[n - 1 - (n - k - 1)]);
            assert(mark == marks[k as int]);
            assert(ms[0] == marks[k as int]);
            assert(mark.0 <= tail.len());
            assert(packets.len() == all.len());
            assert(ms.drop_first() =~= marks.skip(k + 1));
            let end = start + mark.0;
            let mut bytes: Vec<u8> = Vec::new();
            let mut j: usize = start;
            while j < end
                invariant
                    start <= j <= end <= all.len(),
                    all == packets@,
                    bytes@ =~= all.subrange(start as int, j as int),
                decreases end - j,
            {
                bytes.push(packets[j]);
                j = j + 1;
            }
            proof {
                assert(bytes@ =~= tail.take(mark.0 as int));
                assert(all.skip(end as int) =~= tail.skip(mark.0 as int));
                let piece = (mark.1, tail.take(mark.0 as int));
                assert(drained(tail, ms) == seq![piece] + drained(all.skip(end as int), marks.skip(k + 1)));
                assert(done + drained(tail, ms) =~= done.push(piece) + drained(
                    all.skip(end as int),
                    marks.skip(k + 1),
                ));
                done = done.push(piece);
            }
            out.push((mark.1, bytes));
            start = end;
            k = k + 1;
        }
        proof {
            assert(marks.skip(n as int) =~= Seq::<(usize, M)>::empty());
            assert(done + drained(all.skip(start as int), marks.skip(n as int)) =~= done);
        }
        out
    }
}

/// A response framed with the identifier of its request.
pub struct DispatchResponse<T> {
    pub request_id: RequestId,
    pub response: T,
}

impl<'a, T: Codec<'a>> Codec<'a> for DispatchResponse<T> {
    type Model = (usize, T::Model);

    open spec fn model(&self) -> (usize, T::Model) {
        (self.request_id.0, self.response.model())
    }

    open spec fn encoding(&self) -> Seq<u8> {
        self.request_id.encoding() + self.response.encoding()
    }

    open spec fn parse(bytes: Seq<u8>) -> Option<((usize, T::Model), nat)> {
        parse_pair::<RequestId, T>(bytes)
    }

    open spec fn reads_back(&self, rest: Seq<u8>) -> bool {
        self.response.reads_back(rest)
    }

    proof fn lemma_reads_back(&self, rest: Seq<u8>) {
        crate::codec::lemma_pair_reads_back(self.request_id, self.response, rest);
    }

    fn encode<B: Buffer>(&self, buffer: &mut B) -> (r: Option<()>) {
        let ghost b0 = *buffer;
        if self.request_id.encode(buffer).is_none() {
            proof {
                lemma_encode_stopped(b0, *buffer, self.request_id.encoding(), self.response.encoding());
            }
            return None;
        }
        let ghost b1 = *buffer;
        let r = self.response.encode(buffer);
        proof {
            lemma_encode_then(b0, b1, *buffer, self.request_id.encoding(), self.response.encoding(), r);
        }
        r
    }

    fn decode(buffer: &mut &'a [u8]) -> (r: Option<DispatchResponse<T>>) {
        let ghost s0 = buffer@;
        let request_id = match RequestId::decode(buffer) {
            Some(id) => id,
            None => return None,
        };
        let ghost s1 = buffer@;
        assert(s0.skip(s0.len() - s1.len()) =~= s1);
        let response = match T::decode(buffer) {
            Some(v) => v,
            None => return None,
        };
        assert(s0.skip(s0.len() - buffer@.len()) =~= buffer@);
        Some(DispatchResponse { request_id, response })
    }
}

/// A request as it comes from the network: the handler's prefix, the request's
/// identifier, and the encoded request.
#[derive(Clone, Copy)]
pub struct DispatchMessage<'a> {
    pub prefix: u8,
    pub request_id: RequestId,
    pub payload: Reminder<'a>,
}

impl<'a> Codec<'a> for DispatchMessage<'a> {
    type Model = (u8, usize, Seq<u8>);

    open spec fn model(&self) -> (u8, usize, Seq<u8>) {
        (self.prefix, self.request_id.0, self.payload.0@)
    }

    open spec fn encoding(&self) -> Seq<u8> {
        (self.prefix, self.request_id, self.payload).encoding()
    }

    open spec fn parse(bytes: Seq<u8>) -> Option<((u8, usize, Seq<u8>), nat)> {
        <(u8, RequestId, Reminder<'a>) as Codec<'a>>::parse(bytes)
    }

    open spec fn reads_back(&self, rest: Seq<u8>) -> bool {
        rest.len() == 0
    }

    proof fn lemma_reads_back(&self, rest: Seq<u8>) {
        (self.prefix, self.request_id, self.payload).lemma_reads_back(rest);
    }

    fn encode<B: Buffer>(&self, buffer: &mut B) -> (r: Option<()>) {
        (self.prefix, self.request_id, self.payload).encode(buffer)
    }

    fn decode(buffer: &mut &'a [u8]) -> (r: Option<DispatchMessage<'a>>) {
        match <(u8, RequestId, Reminder<'a>) as Codec<'a>>::decode(buffer) {
            Some((prefix, request_id, payload)) => Some(DispatchMessage { prefix, request_id, payload }),
            None => None,
        }
    }
}

/// Something handlers run in, with the events it gives.
pub trait Context {
    type ToSwarm;
}

/// A context that holds the context `F` of some handlers, and passes their events on.
pub trait SubContext<F: Context>: Context {
    /// The part of the context the handlers work in.
    fn fragment(&mut self) -> &mut F;

    /// The event, when it is one of `F`'s; else the event itself back.
    fn try_unpack_event(event: Self::ToSwarm) -> Result<F::ToSwarm, Self::ToSwarm>;
}


/// The prefix under which the dispatcher `Self` routes requests to the handler `H`.
pub trait Dispatches<H> {
    const PREFIX: u8;
}

/// Frames a request for the handler `H` of the dispatcher `S` into `buffer`, replacing
/// what it held: the handler's prefix, the request's identifier, then the request.
pub fn frame_request<'a, H, S: Dispatches<H>, R: Codec<'a>>(buffer: &mut Vec<u8>, id: RequestId, request: &R)
    ensures
        final(buffer)@ == seq![S::PREFIX] + id.encoding() + request.encoding(),
{
    buffer.clear();
    buffer.push(S::PREFIX);
    let _ = id.encode(buffer);
    let _ = request.encode(buffer);
}

/// Reads the response to a request: the value `bytes` begin with, or `InvalidResponse`
/// when they do not hold one.
pub fn read_response<'a, T: Codec<'a>>(bytes: &'a [u8]) -> (r: Result<T, RequestError>)
    ensures
        match T::parse(bytes@) {
            Some((m, _)) => r matches Ok(v) && v.model() == m,
            None => r == Err::<T, RequestError>(RequestError::InvalidResponse),
        },
{
    let mut rest = bytes;
    match T::decode(&mut rest) {
        Some(v) => Ok(v),
        None => Err(RequestError::InvalidResponse),
    }
}

} // verus!
