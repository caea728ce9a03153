//! Chat storage: the history of a chat as a bounded run of framed messages, a mailbox,
//! and the reading of length-prefixed messages.

use crate::codec::{be16, bytes_encoding, from_be16, Buffer, Codec};
use vstd::prelude::*;

verus! {

/// Most bytes a chat history keeps.
pub const CHAT_CAP: usize = 1024 * 1024;

/// Most bytes a mailbox holds.
pub const MAIL_CAP: usize = 1024 * 1024;

/// Largest message a history hands out.
pub const MAX_MESSAGE_SIZE: usize = 1024;

/// Most messages one fetch hands out.
pub const MESSAGE_FETCH_LIMIT: usize = 20;

/// Position in a chat history, counted in bytes since the chat began.
pub type Cursor = u32;

/// The cursor that means "from the newest message".
pub const NO_CURSOR: Cursor = 0xffff_ffffu32;

/// The length of the first frame of `data` together with its header and trailer,
/// taken from its header.
pub open spec fn first_frame_len(data: Seq<u8>) -> nat {
    from_be16(data[0], data[1]) + 4
}

/// What dropping the oldest message leaves: nothing changes when there is no header.
pub open spec fn pop_spec(data: Seq<u8>) -> Seq<u8> {
    if data.len() < 2 {
        data
    } else {
        data.skip(first_frame_len(data) as int)
    }
}

/// Dropping the oldest message is possible: there is no header, or the header does not
/// claim more bytes than there are.
pub open spec fn pop_ok(data: Seq<u8>) -> bool {
    data.len() < 2 || first_frame_len(data) <= data.len()
}

/// Appends `bytes` one at a time, dropping the oldest message whenever the history is full.
pub open spec fn append_evicting(data: Seq<u8>, bytes: Seq<u8>) -> Seq<u8>
    decreases bytes.len(),
{
    if bytes.len() == 0 {
        data
    } else {
        let room = if data.len() >= CHAT_CAP {
            pop_spec(data)
        } else {
            data
        };
        append_evicting(room.push(bytes[0]), bytes.drop_first())
    }
}

/// Every drop of an oldest message that `append_evicting` makes is possible.
pub open spec fn append_evicting_ok(data: Seq<u8>, bytes: Seq<u8>) -> bool
    decreases bytes.len(),
{
    if bytes.len() == 0 {
        true
    } else {
        let room = if data.len() >= CHAT_CAP {
            pop_spec(data)
        } else {
            data
        };
        (data.len() >= CHAT_CAP ==> pop_ok(data) && room.len() < CHAT_CAP) && append_evicting_ok(
            room.push(bytes[0]),
            bytes.drop_first(),
        )
    }
}

/// `data` with the two bytes at `at` and `at + 1` replaced by `b`, as far as they exist.
pub open spec fn patch2(data: Seq<u8>, at: int, b: Seq<u8>) -> Seq<u8> {
    Seq::new(
        data.len(),
        |i: int|
            if i == at {
                b[0]
            } else if i == at + 1 {
                b[1]
            } else {
                data[i]
            },
    )
}

/// The frame of a message: room for its length, the bytes, room for its length again.
pub open spec fn raw_frame(bytes: Seq<u8>) -> Seq<u8> {
    seq![0u8, 0u8] + bytes + seq![0u8, 0u8]
}

/// The length a push of `bytes` writes into the frame: the count of bytes the history
/// grew by, less the frame's four, as a 16-bit number.
pub open spec fn pushed_len(data: Seq<u8>, bytes: Seq<u8>) -> u16 {
    ((append_evicting(data, raw_frame(bytes)).len() - data.len() - 4) as int % 65536) as u16
}

/// The history after pushing `bytes`: the frame appended byte by byte with evictions, its
/// length written where the history ended before and at the new end, and the offset
/// moved on by the frame.
pub open spec fn pushed(blob: (Seq<u8>, Cursor), bytes: Seq<u8>) -> (Seq<u8>, Cursor) {
    let grown = append_evicting(blob.0, raw_frame(bytes));
    let len = pushed_len(blob.0, bytes);
    let headed = patch2(grown, blob.0.len() as int, be16(len));
    (patch2(headed, grown.len() - 2, be16(len)), (blob.1 + len + 4) as Cursor)
}

/// A push of `bytes` neither drops a message whose header claims more than is there,
/// nor moves the offset past its range.
pub open spec fn push_ok(blob: (Seq<u8>, Cursor), bytes: Seq<u8>) -> bool {
    &&& bytes.len() + 4 <= usize::MAX
    &&& append_evicting_ok(blob.0, raw_frame(bytes))
    &&& append_evicting(blob.0, raw_frame(bytes)).len() >= blob.0.len() + 4
    &&& blob.1 + pushed_len(blob.0, bytes) + 4 <= u32::MAX
}

/// The history of a chat: frames `len msg len` (lengths as big-endian 16-bit numbers)
/// oldest first, and the total count of bytes ever pushed.
pub struct MessageBlob {
    data: Vec<u8>,
    offset: Cursor,
}

impl View for MessageBlob {
    type V = (Seq<u8>, Cursor);

    closed spec fn view(&self) -> (Seq<u8>, Cursor) {
        (self.data@, self.offset)
    }
}

impl Default for MessageBlob {
    fn default() -> (b: Self)
        ensures
            b@ == (Seq::<u8>::empty(), 0u32),
    {
        MessageBlob { data: Vec::new(), offset: 0 }
    }
}

impl Default for MailBlob {
    fn default() -> (b: Self)
        ensures
            b@ == Seq::<u8>::empty(),
    {
        MailBlob { data: Vec::new() }
    }
}

impl MessageBlob {
    /// An empty history.
    pub fn new() -> (b: Self)
        ensures
            b@ == (Seq::<u8>::empty(), 0u32),
    {
        MessageBlob { data: Vec::new(), offset: 0 }
    }

    /// The bytes of the history, oldest first.
    pub fn data(&self) -> (r: &[u8])
        ensures
            r@ == self@.0,
    {
        self.data.as_slice()
    }

    /// The count of bytes ever pushed.
    pub fn offset(&self) -> (r: Cursor)
        ensures
            r == self@.1,
    {
        self.offset
    }

    /// Drops the oldest message.
    pub fn pop(&mut self)
        requires
            pop_ok(old(self)@.0),
        ensures
            final(self)@ == (pop_spec(old(self)@.0), old(self)@.1),
    {
        if self.data.len() < 2 {
            return;
        }
        let header = (self.data[0] as usize) * 256 + self.data[1] as usize;
        let cut = header + 4;
        let mut rest: Vec<u8> = Vec::new();
        let mut i = cut;
        while i < self.data.len()
            invariant
                cut <= i <= self.data@.len(),
                rest@ =~= self.data@.subrange(cut as int, i as int),
            decreases self.data@.len() - i,
        {
            rest.push(self.data[i]);
            i = i + 1;
        }
        self.data = rest;
        proof {
            assert(self.data@ =~= pop_spec(old(self)@.0));
        }
    }

    /// Appends a message, dropping the oldest ones while the history is full. The length
    /// is written at the place where the history ended before the push and at the new end.
    pub fn push(&mut self, bytes: &[u8])
        requires
            push_ok(old(self)@, bytes@),
        ensures
            final(self)@ == pushed(old(self)@, bytes@),
    {
        let prev_len = self.data.len();
        let ghost frame = raw_frame(bytes@);
        let ghost start = self.data@;
        let mut k: usize = 0;
        let n = bytes.len() + 4;
        assert(frame.skip(0) =~= frame);
        while k < n
            invariant
                n == frame.len(),
                frame == raw_frame(bytes@),
                k <= n,
                start == old(self)@.0,
                self.offset == old(self)@.1,
                append_evicting(start, frame) == append_evicting(self.data@, frame.skip(k as int)),
                append_evicting_ok(self.data@, frame.skip(k as int)),
            decreases n - k,
        {
            let byte = if k < 2 || k >= bytes.len() + 2 {
                0u8
            } else {
                bytes[k - 2]
            };
            let ghost rest = frame.skip(k as int);
            assert(rest[0] == byte);
            assert(rest.drop_first() =~= frame.skip(k + 1));
            if self.data.len() >= CHAT_CAP {
                self.pop();
            }
            self.data.push(byte);
            k = k + 1;
        }
        proof {
            assert(frame.skip(n as int) =~= Seq::<u8>::empty());
        }
        let ghost grown = self.data@;
        let total = self.data.len();
        let len_full = total - prev_len - 4;
        let len: u16 = #[verifier::truncate] (len_full as u16);
        let hi: u8 = #[verifier::truncate] ((len >> 8u16) as u8);
        let lo: u8 = #[verifier::truncate] ((len & 0xffu16) as u8);
        if prev_len < total {
            self.data.set(prev_len, hi);
        }
        if prev_len + 1 < total {
            self.data.set(prev_len + 1, lo);
        }
        let ghost headed = self.data@;
        if total >= 1 {
            self.data.set(total - 1, lo);
        }
        if total >= 2 {
            self.data.set(total - 2, hi);
        }
        proof {
            assert(len == (len_full % 65536) as u16 && len_full % 65536 < 65536) by (bit_vector)
                requires
                    len == len_full as u16,
            ;
            assert(len == ((grown.len() - old(self)@.0.len() - 4) as int % 65536) as u16);
            assert(headed =~= patch2(grown, prev_len as int, be16(len)));
            assert(self.data@ =~= patch2(headed, grown.len() - 2, be16(len)));
        }
        self.offset = self.offset + len as u32 + 4;
    }
}

/// Walks back through the history from position `pos` (exclusive), reading at most
/// `count` frames by their trailers. Gives the messages read, each behind its length,
/// newest first, and the cursor after them; the cursor becomes `NO_CURSOR` where no
/// valid frame is found.
pub open spec fn fetch_steps(data: Seq<u8>, pos: int, cursor: Cursor, count: nat) -> (Seq<u8>, Cursor)
    decreases count,
{
    if count == 0 {
        (Seq::empty(), cursor)
    } else if pos < 2 {
        (Seq::empty(), NO_CURSOR)
    } else {
        let header = from_be16(data[pos - 2], data[pos - 1]);
        if header > MAX_MESSAGE_SIZE {
            (Seq::empty(), NO_CURSOR)
        } else {
            let from = if pos - 2 - header < 0 {
                0
            } else {
                pos - 2 - header
            };
            let msg = data.subrange(from, pos - 2);
            let next = if pos - 4 - header < 0 {
                0
            } else {
                pos - 4 - header
            };
            let (out, c) = fetch_steps(data, next, (cursor - header - 4) as Cursor, (count - 1) as nat);
            (be16(header as u16) + msg + out, c)
        }
    }
}

/// The cursor never goes below zero while walking back.
pub open spec fn fetch_steps_ok(data: Seq<u8>, pos: int, cursor: Cursor, count: nat) -> bool
    decreases count,
{
    if count == 0 || pos < 2 {
        true
    } else {
        let header = from_be16(data[pos - 2], data[pos - 1]);
        if header > MAX_MESSAGE_SIZE {
            true
        } else {
            let next = if pos - 4 - header < 0 {
                0
            } else {
                pos - 4 - header
            };
            cursor >= header + 4 && fetch_steps_ok(
                data,
                next,
                (cursor - header - 4) as Cursor,
                (count - 1) as nat,
            )
        }
    }
}

/// Where a fetch from `cursor` starts, and how many frames it may read.
pub open spec fn fetch_start(blob: (Seq<u8>, Cursor), cursor: Cursor) -> Cursor {
    if cursor < blob.1 {
        cursor
    } else {
        blob.1
    }
}

pub open spec fn fetch_count(limit: usize) -> nat {
    if limit < MESSAGE_FETCH_LIMIT {
        limit as nat
    } else {
        MESSAGE_FETCH_LIMIT as nat
    }
}

impl MessageBlob {
    /// Appends to `buffer` up to `limit` (at most twenty) messages older than `cursor`,
    /// newest first, each behind its length, and returns the cursor from which to go on.
    /// A cursor past the newest message means the newest.
    pub fn fetch(&self, cursor: Cursor, limit: usize, buffer: &mut Vec<u8>) -> (r: Cursor)
        requires
            ({
                let c = fetch_start(self@, cursor);
                let to_skip = self@.1 - c;
                to_skip <= self@.0.len() ==> fetch_steps_ok(
                    self@.0,
                    self@.0.len() - to_skip,
                    c,
                    fetch_count(limit),
                )
            }),
        ensures
            ({
                let c = fetch_start(self@, cursor);
                let to_skip = self@.1 - c;
                if to_skip > self@.0.len() {
                    r == c && final(buffer)@ == old(buffer)@
                } else {
                    let (out, c2) = fetch_steps(
                        self@.0,
                        self@.0.len() - to_skip,
                        c,
                        fetch_count(limit),
                    );
                    r == c2 && final(buffer)@ == old(buffer)@ + out
                }
            }),
    {
        let mut cursor = if cursor < self.offset {
            cursor
        } else {
            self.offset
        };
        let to_skip = (self.offset - cursor) as usize;
        if to_skip > self.data.len() {
            return cursor;
        }
        let mut pos: usize = self.data.len() - to_skip;
        let count: usize = if limit < MESSAGE_FETCH_LIMIT {
            limit
        } else {
            MESSAGE_FETCH_LIMIT
        };
        let ghost data = self.data@;
        let ghost start_buffer = buffer@;
        let ghost goal = fetch_steps(data, pos as int, cursor, count as nat);
        let mut i: usize = 0;
        while i < count
            invariant
                data == self@.0,
                i <= count,
                pos <= data.len(),
                fetch_steps_ok(data, pos as int, cursor, (count - i) as nat),
                goal.1 == fetch_steps(data, pos as int, cursor, (count - i) as nat).1,
                start_buffer + goal.0 == buffer@ + fetch_steps(
                    data,
                    pos as int,
                    cursor,
                    (count - i) as nat,
                ).0,
            ensures
                buffer@ == start_buffer + goal.0,
                cursor == goal.1,
            decreases count - i,
        {
            if pos < 2 {
                proof {
                    assert(buffer@ + Seq::<u8>::empty() =~= buffer@);
                }
                cursor = NO_CURSOR;
                break ;
            }
            let header: usize = (self.data[pos - 2] as usize) * 256 + self.data[pos - 1] as usize;
            if header > MAX_MESSAGE_SIZE {
                proof {
                    assert(buffer@ + Seq::<u8>::empty() =~= buffer@);
                }
                cursor = NO_CURSOR;
                break ;
            }
            let ghost before = buffer@;
            let h16 = header as u16;
            buffer.push(#[verifier::truncate] ((h16 >> 8u16) as u8));
            buffer.push(#[verifier::truncate] ((h16 & 0xffu16) as u8));
            let from = if pos - 2 < header {
                0
            } else {
                pos - 2 - header
            };
            let mut k = from;
            while k < pos - 2
                invariant
                    from <= k <= pos - 2,
                    pos <= data.len(),
                    data == self@.0,
                    buffer@ =~= before + be16(h16) + data.subrange(from as int, k as int),
                decreases pos - 2 - k,
            {
                buffer.push(self.data[k]);
                k = k + 1;
            }
            let ghost step_out = be16(h16) + data.subrange(from as int, (pos - 2) as int);
            proof {
                assert(buffer@ =~= before + step_out);
            }
            pos = if pos < header + 4 {
                0
            } else {
                pos - header - 4
            };
            cursor = cursor - (header as u32 + 4);
            i = i + 1;
            proof {
                assert(start_buffer + goal.0 =~= buffer@ + fetch_steps(
                    data,
                    pos as int,
                    cursor,
                    (count - i) as nat,
                ).0);
            }
        }
        cursor
    }
}

/// Appending to a history with room for all the bytes drops nothing.
proof fn lemma_append_with_room(data: Seq<u8>, bytes: Seq<u8>)
    requires
        data.len() + bytes.len() <= CHAT_CAP,
    ensures
        append_evicting(data, bytes) == data + bytes,
        append_evicting_ok(data, bytes),
    decreases bytes.len(),
{
    if bytes.len() > 0 {
        lemma_append_with_room(data.push(bytes[0]), bytes.drop_first());
        assert(data.push(bytes[0]) + bytes.drop_first() =~= data + bytes);
    }
}

/// A message pushed into a history with room for it is what a fetch of the newest
/// message gives back, behind its length, and the cursor it returns points before it.
pub proof fn lemma_push_then_fetch(blob: (Seq<u8>, Cursor), msg: Seq<u8>)
    requires
        blob.0.len() + msg.len() + 4 <= CHAT_CAP,
        msg.len() <= MAX_MESSAGE_SIZE,
        blob.1 + msg.len() + 4 <= u32::MAX,
    ensures
        push_ok(blob, msg),
        ({
            let after = pushed(blob, msg);
            let c = fetch_start(after, NO_CURSOR);
            &&& c == after.1
            &&& after.1 == blob.1 + msg.len() + 4
            &&& fetch_steps_ok(after.0, after.0.len() as int, c, 1)
            &&& fetch_steps(after.0, after.0.len() as int, c, 1) == (
                be16(msg.len() as u16) + msg,
                blob.1,
            )
        }),
{
    let frame = raw_frame(msg);
    lemma_append_with_room(blob.0, frame);
    let grown = blob.0 + frame;
    assert(pushed_len(blob.0, msg) == msg.len() as u16);
    let len = msg.len() as u16;
    let b = be16(len);
    let after = pushed(blob, msg);
    let n = grown.len();
    assert(after.0 =~= blob.0 + b + msg + b);
    crate::codec::lemma_len_roundtrip(msg.len() as usize);
    assert(after.0[n - 2] == b[0] && after.0[n - 1] == b[1]);
    assert(from_be16(after.0[n - 2], after.0[n - 1]) == msg.len());
    assert(after.0.subrange(n - 2 - msg.len(), n - 2) =~= msg);
    assert(be16(msg.len() as u16) + msg + Seq::<u8>::empty() =~= be16(msg.len() as u16) + msg);
    let c = fetch_start(after, NO_CURSOR);
    assert(after.0.len() == n);
    assert(c == after.1);
    assert(after.1 == blob.1 + msg.len() + 4);
    let header = from_be16(after.0[n - 2], after.0[n - 1]);
    assert(header == msg.len());
    assert(n - 4 - header >= 0);
    assert(fetch_steps(after.0, n - 4 - header, (c - header - 4) as Cursor, 0) == (Seq::<u8>::empty(), blob.1));
    assert(fetch_steps(after.0, n as int, c, 1) == (be16(header as u16) + after.0.subrange(n - 2 - header, n - 2) + Seq::<u8>::empty(), blob.1));
    assert(fetch_steps_ok(after.0, n - 4 - header, (c - header - 4) as Cursor, 0));
    assert(c >= header + 4);
    assert(fetch_steps_ok(after.0, n as int, c, 1));
    assert(fetch_steps(after.0, n as int, c, 1) == (be16(msg.len() as u16) + msg, blob.1));
}

/// The frame a message takes in a history: its length, its bytes, its length again.
pub open spec fn history_frame(m: Seq<u8>) -> Seq<u8> {
    be16(m.len() as u16) + m + be16(m.len() as u16)
}

/// The frames of `msgs`, oldest first, one after the other.
pub open spec fn history_frames(msgs: Seq<Seq<u8>>) -> Seq<u8>
    decreases msgs.len(),
{
    if msgs.len() == 0 {
        Seq::empty()
    } else {
        history_frames(msgs.drop_last()) + history_frame(msgs.last())
    }
}

/// The history after pushing `msgs`, oldest first, into an empty one.
pub open spec fn pushed_all(msgs: Seq<Seq<u8>>) -> (Seq<u8>, Cursor)
    decreases msgs.len(),
{
    if msgs.len() == 0 {
        (Seq::empty(), 0u32)
    } else {
        pushed(pushed_all(msgs.drop_last()), msgs.last())
    }
}

/// Each of the pushes that `pushed_all` makes is one that `push` accepts.
pub open spec fn pushes_ok(msgs: Seq<Seq<u8>>) -> bool
    decreases msgs.len(),
{
    msgs.len() == 0 || (pushes_ok(msgs.drop_last()) && push_ok(
        pushed_all(msgs.drop_last()),
        msgs.last(),
    ))
}

/// The newest `n` of `msgs` (all of them where there are fewer), newest first, each
/// behind its length.
pub open spec fn newest_first(msgs: Seq<Seq<u8>>, n: nat) -> Seq<u8>
    decreases n,
{
    if n == 0 || msgs.len() == 0 {
        Seq::empty()
    } else {
        be16(msgs.last().len() as u16) + msgs.last() + newest_first(msgs.drop_last(), (n - 1) as nat)
    }
}

/// A push into a history with room for the message appends its frame and moves the
/// offset on by the frame's length.
proof fn lemma_push_with_room(blob: (Seq<u8>, Cursor), msg: Seq<u8>)
    requires
        blob.0.len() + msg.len() + 4 <= CHAT_CAP,
        msg.len() <= MAX_MESSAGE_SIZE,
        blob.1 + msg.len() + 4 <= u32::MAX,
    ensures
        push_ok(blob, msg),
        pushed(blob, msg) == (blob.0 + history_frame(msg), (blob.1 + msg.len() + 4) as Cursor),
{
    lemma_append_with_room(blob.0, raw_frame(msg));
    assert(pushed_len(blob.0, msg) == msg.len() as u16);
    let after = pushed(blob, msg);
    assert(after.0 =~= blob.0 + history_frame(msg));
}

/// Pushing messages that all fit into an empty history keeps their frames, oldest first,
/// and an offset equal to the bytes held.
proof fn lemma_pushed_all(msgs: Seq<Seq<u8>>)
    requires
        forall|i: int| 0 <= i < msgs.len() ==> (#[trigger] msgs[i]).len() <= MAX_MESSAGE_SIZE,
        history_frames(msgs).len() <= CHAT_CAP,
    ensures
        pushes_ok(msgs),
        pushed_all(msgs) == (history_frames(msgs), history_frames(msgs).len() as Cursor),
    decreases msgs.len(),
{
    if msgs.len() > 0 {
        let prev = msgs.drop_last();
        assert forall|i: int| 0 <= i < prev.len() implies (#[trigger] prev[i]).len()
            <= MAX_MESSAGE_SIZE by {
            assert(prev[i] == msgs[i]);
        }
        lemma_pushed_all(prev);
        assert(msgs.last() == msgs[msgs.len() - 1]);
        lemma_push_with_room(pushed_all(prev), msgs.last());
    }
}

/// Walking back from the end of the frames of `msgs`, held at the start of `data`, with
/// the cursor at their length reads the newest `n` messages and stops before the older
/// ones, or runs out of frames.
proof fn lemma_fetch_frames(data: Seq<u8>, msgs: Seq<Seq<u8>>, n: nat)
    requires
        forall|i: int| 0 <= i < msgs.len() ==> (#[trigger] msgs[i]).len() <= MAX_MESSAGE_SIZE,
        history_frames(msgs).len() <= data.len(),
        history_frames(msgs).len() <= u32::MAX,
        data.subrange(0, history_frames(msgs).len() as int) == history_frames(msgs),
    ensures
        ({
            let pos = history_frames(msgs).len() as int;
            let c = pos as Cursor;
            &&& fetch_steps_ok(data, pos, c, n)
            &&& fetch_steps(data, pos, c, n).0 == newest_first(msgs, n)
            &&& fetch_steps(data, pos, c, n).1 == if n <= msgs.len() {
                history_frames(msgs.take(msgs.len() - n)).len() as Cursor
            } else {
                NO_CURSOR
            }
        }),
    decreases n,
{
    let all = history_frames(msgs);
    let pos = all.len() as int;
    let c = pos as Cursor;
    if n == 0 {
        assert(msgs.take(msgs.len() as int) =~= msgs);
    } else if msgs.len() == 0 {
        assert(all =~= Seq::<u8>::empty());
    } else {
        let prev = msgs.drop_last();
        let m = msgs.last();
        let hp = history_frames(prev);
        assert(m == msgs[msgs.len() - 1]);
        assert(all == hp + history_frame(m));
        let b = be16(m.len() as u16);
        crate::codec::lemma_len_roundtrip(m.len() as usize);
        assert(all[pos - 2] == b[0] && all[pos - 1] == b[1]);
        assert(data[pos - 2] == all[pos - 2]);
        assert(data[pos - 1] == all[pos - 1]);
        let header = from_be16(data[pos - 2], data[pos - 1]);
        assert(header == m.len());
        assert(data.subrange(pos - 2 - header, pos - 2) =~= m) by {
            assert forall|k: int| 0 <= k < m.len() implies data.subrange(
                pos - 2 - header,
                pos - 2,
            )[k] == m[k] by {
                assert(data[hp.len() + 2 + k] == all[hp.len() + 2 + k]);
            }
        }
        assert(pos - 4 - header == hp.len());
        assert forall|i: int| 0 <= i < prev.len() implies (#[trigger] prev[i]).len()
            <= MAX_MESSAGE_SIZE by {
            assert(prev[i] == msgs[i]);
        }
        assert(data.subrange(0, hp.len() as int) =~= hp) by {
            assert forall|k: int| 0 <= k < hp.len() implies data.subrange(0, hp.len() as int)[k]
                == hp[k] by {
                assert(data[k] == all[k]);
            }
        }
        lemma_fetch_frames(data, prev, (n - 1) as nat);
        assert((c - header - 4) as Cursor == hp.len() as Cursor);
        if n <= msgs.len() {
            assert(prev.take(prev.len() - (n - 1)) =~= msgs.take(msgs.len() - n));
        }
        assert(newest_first(msgs, n) == b + m + newest_first(prev, (n - 1) as nat));
    }
}

/// Messages that all fit, pushed one after another into an empty history, come back from
/// a fetch from the newest message: the newest `limit` of them, or twenty where `limit`
/// is larger, newest first and each behind its length; the cursor it returns counts the
/// bytes pushed before them, or is `NO_CURSOR` where fewer messages were pushed.
pub proof fn lemma_fetch_after_pushes(msgs: Seq<Seq<u8>>, limit: usize)
    requires
        forall|i: int| 0 <= i < msgs.len() ==> (#[trigger] msgs[i]).len() <= MAX_MESSAGE_SIZE,
        history_frames(msgs).len() <= CHAT_CAP,
    ensures
        pushes_ok(msgs),
        ({
            let b = pushed_all(msgs);
            let c = fetch_start(b, NO_CURSOR);
            let n: nat = if limit < MESSAGE_FETCH_LIMIT {
                limit as nat
            } else {
                MESSAGE_FETCH_LIMIT as nat
            };
            &&& b.0 == history_frames(msgs)
            &&& c == b.1
            &&& c == b.0.len()
            &&& fetch_steps_ok(b.0, b.0.len() as int, c, fetch_count(limit))
            &&& fetch_steps(b.0, b.0.len() as int, c, fetch_count(limit)) == (
                newest_first(msgs, n),
                if n <= msgs.len() {
                    history_frames(msgs.take(msgs.len() - n)).len() as Cursor
                } else {
                    NO_CURSOR
                },
            )
        }),
{
    lemma_pushed_all(msgs);
    let all = history_frames(msgs);
    assert(all.subrange(0, all.len() as int) =~= all);
    lemma_fetch_frames(all, msgs, fetch_count(limit));
}

/// A chat history as sent between nodes: its offset and its bytes in two parts.
#[derive(Clone, Copy)]
pub struct ChatHistory<'a> {
    pub offset: Cursor,
    pub first: &'a [u8],
    pub last: &'a [u8],
}

impl MessageBlob {
    /// Takes over a history from elsewhere when it is at least as far along and holds
    /// more bytes.
    pub fn try_replace(&mut self, c: ChatHistory<'_>)
        ensures
            (c.offset < old(self)@.1 || c.first@.len() + c.last@.len() <= old(self)@.0.len())
                ==> final(self)@ == old(self)@,
            !(c.offset < old(self)@.1 || c.first@.len() + c.last@.len() <= old(self)@.0.len())
                ==> final(self)@ == (c.first@ + c.last@, c.offset),
    {
        if c.offset < self.offset || c.first.len() as u128 + c.last.len() as u128 <= self.data.len() as u128 {
            return;
        }
        let mut data: Vec<u8> = Vec::new();
        let _ = Buffer::extend_from_slice(&mut data, c.first);
        let _ = Buffer::extend_from_slice(&mut data, c.last);
        self.data = data;
        self.offset = c.offset;
    }

    /// The record that carries this history to other nodes: its tag (2) and the history.
    pub fn as_vec(&self) -> (r: Vec<u8>)
        ensures
            r@ == seq![2u8] + crate::codec::base128(self@.1 as u64) + bytes_encoding(self@.0)
                + bytes_encoding(Seq::<u8>::empty()),
    {
        let empty: &[u8] = &[];
        let history = ChatHistory { offset: self.offset, first: self.data.as_slice(), last: empty };
        let mut buffer: Vec<u8> = Vec::new();
        buffer.push(2u8);
        let _ = history.offset.encode(&mut buffer);
        let _ = history.first.encode(&mut buffer);
        let _ = history.last.encode(&mut buffer);
        proof {
            assert(empty@ =~= Seq::<u8>::empty());
        }
        buffer
    }
}

impl<'a> ChatHistory<'a> {
    /// A history holding the first part twice over and the given offset.
    pub fn to_blob(self) -> (b: MessageBlob)
        ensures
            b@ == (self.first@ + self.first@, self.offset),
    {
        let mut data: Vec<u8> = Vec::new();
        let _ = Buffer::extend_from_slice(&mut data, self.first);
        let _ = Buffer::extend_from_slice(&mut data, self.first);
        MessageBlob { data, offset: self.offset }
    }
}

/// A mailbox: messages behind their big-endian 16-bit lengths, at most `MAIL_CAP` bytes.
pub struct MailBlob {
    data: Vec<u8>,
}

impl View for MailBlob {
    type V = Seq<u8>;

    closed spec fn view(&self) -> Seq<u8> {
        self.data@
    }
}

impl MailBlob {
    /// An empty mailbox.
    pub fn new() -> (b: Self)
        ensures
            b@ == Seq::<u8>::empty(),
    {
        MailBlob { data: Vec::new() }
    }

    /// Appends a message behind its length when it fits; tells whether it did.
    pub fn push(&mut self, bytes: &[u8]) -> (r: bool)
        requires
            old(self)@.len() <= MAIL_CAP,
        ensures
            r == (old(self)@.len() + 2 + bytes@.len() <= MAIL_CAP),
            r ==> final(self)@ == old(self)@ + be16(bytes@.len() as u16) + bytes@,
            !r ==> final(self)@ == old(self)@,
    {
        if bytes.len() > MAIL_CAP - self.data.len() || MAIL_CAP - self.data.len() - bytes.len() < 2 {
            return false;
        }
        let len: u16 = #[verifier::truncate] (bytes.len() as u16);
        self.data.push(#[verifier::truncate] ((len >> 8u16) as u8));
        self.data.push(#[verifier::truncate] ((len & 0xffu16) as u8));
        let _ = Buffer::extend_from_slice(&mut self.data, bytes);
        proof {
            assert(self.data@ =~= old(self)@ + be16(bytes@.len() as u16) + bytes@);
        }
        true
    }

    /// Hands out everything in the mailbox and empties it.
    pub fn read(&mut self) -> (r: Vec<u8>)
        ensures
            r@ == old(self)@,
            final(self)@ == Seq::<u8>::empty(),
    {
        let mut data: Vec<u8> = Vec::new();
        std::mem::swap(&mut data, &mut self.data);
        data
    }
}

/// The messages of a run of frames `len msg` (lengths big-endian 16-bit), up to the first
/// frame that is cut short.
pub open spec fn unpack(bytes: Seq<u8>) -> Seq<Seq<u8>>
    decreases bytes.len(),
{
    if bytes.len() < 2 {
        Seq::empty()
    } else {
        let n = from_be16(bytes[0], bytes[1]);
        if bytes.len() - 2 < n {
            Seq::empty()
        } else {
            seq![bytes.subrange(2, (2 + n) as int)] + unpack(bytes.skip((2 + n) as int))
        }
    }
}

/// Splits `buffer` into the messages it holds, each behind its big-endian 16-bit length.
pub fn unpack_messages(buffer: &[u8]) -> (r: Vec<&[u8]>)
    ensures
        r@.len() == unpack(buffer@).len(),
        forall|i: int| 0 <= i < r@.len() ==> r@[i]@ == #[trigger] unpack(buffer@)[i],
{
    let mut out: Vec<&[u8]> = Vec::new();
    let mut pos: usize = 0;
    let ghost all = unpack(buffer@);
    proof {
        assert(buffer@.skip(0) =~= buffer@);
    }
    loop
        invariant
            pos <= buffer@.len(),
            all == unpack(buffer@),
            all.len() == out@.len() + unpack(buffer@.skip(pos as int)).len(),
            forall|i: int| 0 <= i < out@.len() ==> out@[i]@ == #[trigger] all[i],
            forall|i: int|
                0 <= i < unpack(buffer@.skip(pos as int)).len() ==> all[out@.len() + i]
                    == #[trigger] unpack(buffer@.skip(pos as int))[i],
        decreases buffer@.len() - pos,
    {
        let ghost rest = buffer@.skip(pos as int);
        if buffer.len() - pos < 2 {
            return out;
        }
        let n = (buffer[pos] as usize) * 256 + buffer[pos + 1] as usize;
        if buffer.len() - pos - 2 < n {
            return out;
        }
        let msg = vstd::slice::slice_subrange(buffer, pos + 2, pos + 2 + n);
        proof {
            assert(rest[0] == buffer@[pos as int] && rest[1] == buffer@[pos + 1]);
            assert(msg@ =~= rest.subrange(2, 2 + n));
            assert(rest.skip(2 + n) =~= buffer@.skip(pos + 2 + n));
            assert(unpack(rest) =~= seq![msg@] + unpack(buffer@.skip(pos + 2 + n)));
        }
        let ghost old_out = out@;
        let ghost next = unpack(buffer@.skip(pos + 2 + n));
        proof {
            assert(all[old_out.len() as int] == unpack(rest)[0]);
            assert forall|i: int| 0 <= i < next.len() implies all[old_out.len() + 1 + i] == next[i] by {
                assert(all[old_out.len() + (i + 1)] == unpack(rest)[i + 1]);
            }
        }
        out.push(msg);
        pos = pos + 2 + n;
        proof {
            assert forall|i: int| 0 <= i < out@.len() implies out@[i]@ == #[trigger] all[i] by {
                if i < old_out.len() {
                    assert(out@[i] == old_out[i]);
                }
            }
            assert forall|i: int| 0 <= i < next.len() implies all[out@.len() + i] == #[trigger] next[i] by {
                assert(all[old_out.len() + 1 + i] == next[i]);
            }
        }
    }
}

/// The frames `len msg` of the messages `msgs`, one after the other.
pub open spec fn frames(msgs: Seq<Seq<u8>>) -> Seq<u8>
    decreases msgs.len(),
{
    if msgs.len() == 0 {
        Seq::empty()
    } else {
        be16(msgs[0].len() as u16) + msgs[0] + frames(msgs.drop_first())
    }
}

/// Framing one more message appends its frame.
pub proof fn lemma_frames_push(msgs: Seq<Seq<u8>>, m: Seq<u8>)
    ensures
        frames(msgs.push(m)) == frames(msgs) + be16(m.len() as u16) + m,
    decreases msgs.len(),
{
    let s = msgs.push(m);
    assert(s[0] == if msgs.len() == 0 { m } else { msgs[0] });
    if msgs.len() == 0 {
        assert(s.drop_first() =~= Seq::<Seq<u8>>::empty());
        assert(frames(s.drop_first()) =~= Seq::<u8>::empty());
        assert(frames(msgs) =~= Seq::<u8>::empty());
        assert(frames(s) =~= frames(msgs) + be16(m.len() as u16) + m);
    } else {
        lemma_frames_push(msgs.drop_first(), m);
        assert(s.drop_first() =~= msgs.drop_first().push(m));
        let head = be16(msgs[0].len() as u16) + msgs[0];
        assert(frames(s) == head + frames(s.drop_first()));
        assert(frames(msgs) == head + frames(msgs.drop_first()));
        assert(frames(s) =~= frames(msgs) + be16(m.len() as u16) + m);
    }
}

/// Unpacking the frames of messages shorter than 2^16 bytes gives the messages back.
pub proof fn lemma_unpack_frames(msgs: Seq<Seq<u8>>)
    requires
        forall|i: int| 0 <= i < msgs.len() ==> (#[trigger] msgs[i]).len() < 65536,
    ensures
        unpack(frames(msgs)) == msgs,
    decreases msgs.len(),
{
    if msgs.len() == 0 {
        assert(frames(msgs) =~= Seq::<u8>::empty());
        assert(unpack(frames(msgs)) =~= msgs);
    } else {
        let m = msgs[0];
        let rest = msgs.drop_first();
        assert forall|i: int| 0 <= i < rest.len() implies (#[trigger] rest[i]).len() < 65536 by {
            assert(rest[i] == msgs[i + 1]);
        }
        lemma_unpack_frames(rest);
        lemma_unpack_step(m, frames(rest));
        assert(frames(msgs) == be16(m.len() as u16) + m + frames(rest));
        assert(seq![m] + rest =~= msgs);
    }
}

/// A mailbox starts with the frames of no message; one that holds the frames of `msgs`
/// holds, after a successful push of `b`, the frames of `msgs` and then `b`; and when
/// every message is shorter than 2^16 bytes, what it holds unpacks to the messages in the
/// order they were pushed.
pub proof fn lemma_mail_push_unpack(msgs: Seq<Seq<u8>>, b: Seq<u8>)
    requires
        forall|i: int| 0 <= i < msgs.len() ==> (#[trigger] msgs[i]).len() < 65536,
        b.len() < 65536,
    ensures
        frames(Seq::<Seq<u8>>::empty()) == Seq::<u8>::empty(),
        frames(msgs) + be16(b.len() as u16) + b == frames(msgs.push(b)),
        unpack(frames(msgs.push(b))) == msgs.push(b),
{
    assert(frames(Seq::<Seq<u8>>::empty()) =~= Seq::<u8>::empty());
    lemma_frames_push(msgs, b);
    let all = msgs.push(b);
    assert forall|i: int| 0 <= i < all.len() implies (#[trigger] all[i]).len() < 65536 by {
        if i < msgs.len() {
            assert(all[i] == msgs[i]);
        }
    }
    lemma_unpack_frames(all);
}

/// Unpacking a frame followed by more bytes gives its message, then what the rest unpacks to.
proof fn lemma_unpack_step(m: Seq<u8>, rest: Seq<u8>)
    requires
        m.len() < 65536,
    ensures
        unpack(be16(m.len() as u16) + m + rest) == seq![m] + unpack(rest),
{
    let bytes = be16(m.len() as u16) + m + rest;
    crate::codec::lemma_len_roundtrip(m.len() as usize);
    assert(bytes[0] == be16(m.len() as u16)[0] && bytes[1] == be16(m.len() as u16)[1]);
    assert(from_be16(bytes[0], bytes[1]) == m.len());
    assert(bytes.subrange(2, (2 + m.len()) as int) =~= m);
    assert(bytes.skip((2 + m.len()) as int) =~= rest);
}
} // verus!
