//! Per-socket state: readable/writable flags and the two byte buffers.
//!
//! The socket itself lives with the embedder; one non-blocking read or write
//! is reported here as a `ReadOutcome` or `WriteOutcome`, and the connection
//! advances its buffers accordingly. `recv_pub`/`recv_sub` decode every
//! complete frame the read buffer now holds, stopping at the first line that
//! does not parse, exactly as `drain_pub`/`drain_sub` describe.

use vstd::prelude::*;
use crate::bytebuf::{bm_contents, bm_with_capacity, bm_extend, bm_split_to, bm_len};
use crate::messages::{PubMessage, PubMessageView, Subscribe};
use crate::codec::{LineCodec, first_nl, parse_pub, parse_sub, pub_frame};
use crate::BUFFER_SIZE;

verus! {

/// What one non-blocking read of the peer produced.
pub enum ReadOutcome {
    /// The read returned these bytes.
    Data(Vec<u8>),
    /// The read would block; wait for the next readiness event.
    WouldBlock,
    /// The read returned zero bytes or failed: the peer is gone.
    Closed,
}

/// What one non-blocking write to the peer produced.
pub enum WriteOutcome {
    /// This many bytes of the write buffer were written.
    Wrote(usize),
    /// The write would block; wait for the next readiness event.
    WouldBlock,
    /// The write failed: the peer is gone.
    Closed,
}

/// The peer closed the connection or an I/O error occurred.
#[derive(Debug, PartialEq, Eq, Structural)]
pub struct ConnClosed;

/// Mathematical value of a `Connection`.
pub struct ConnectionView {
    pub readable: bool,
    pub writable: bool,
    pub inbuf: Seq<u8>,
    pub outbuf: Seq<u8>,
}

/// One connection: readiness flags plus read and write buffers.
pub struct Connection {
    pub readable: bool,
    pub writable: bool,
    pub read_buffer: bytes::BytesMut,
    pub write_buffer: bytes::BytesMut,
}

impl View for Connection {
    type V = ConnectionView;

    open spec fn view(&self) -> ConnectionView {
        ConnectionView {
            readable: self.readable,
            writable: self.writable,
            inbuf: bm_contents(self.read_buffer),
            outbuf: bm_contents(self.write_buffer),
        }
    }
}

// ---------------------------------------------------------------------------
// Draining a read buffer
// ---------------------------------------------------------------------------

/// All `PubMessage`s decoded by repeatedly taking the first line of `s`,
/// stopping at the first line that does not parse, together with what is
/// left in the buffer.
pub open spec fn drain_pub(s: Seq<u8>) -> (Seq<PubMessageView>, Seq<u8>)
    decreases s.len(),
{
    if first_nl(s) >= s.len() {
        (seq![], s)
    } else {
        match parse_pub(s.take(first_nl(s) as int)) {
            Some(m) => {
                let r = drain_pub(s.skip(first_nl(s) + 1int));
                (seq![m] + r.0, r.1)
            },
            None => (seq![], s.skip(first_nl(s) + 1int)),
        }
    }
}

/// Did draining stop only because no full line is left?
pub open spec fn drain_pub_clean(s: Seq<u8>) -> bool
    decreases s.len(),
{
    if first_nl(s) >= s.len() {
        true
    } else {
        match parse_pub(s.take(first_nl(s) as int)) {
            Some(m) => drain_pub_clean(s.skip(first_nl(s) + 1int)),
            None => false,
        }
    }
}

/// The same drain for `Subscribe` frames.
pub open spec fn drain_sub(s: Seq<u8>) -> (Seq<Seq<u8>>, Seq<u8>)
    decreases s.len(),
{
    if first_nl(s) >= s.len() {
        (seq![], s)
    } else {
        match parse_sub(s.take(first_nl(s) as int)) {
            Some(c) => {
                let r = drain_sub(s.skip(first_nl(s) + 1int));
                (seq![c] + r.0, r.1)
            },
            None => (seq![], s.skip(first_nl(s) + 1int)),
        }
    }
}

/// The concatenation of the canonical frames of `ms`.
pub open spec fn frames_pub(ms: Seq<PubMessageView>) -> Seq<u8>
    decreases ms.len(),
{
    if ms.len() == 0 {
        Seq::<u8>::empty()
    } else {
        pub_frame(ms[0]) + frames_pub(ms.skip(1))
    }
}

/// Framing one more message appends its frame.
pub proof fn lemma_frames_pub_snoc(ms: Seq<PubMessageView>, m: PubMessageView)
    ensures
        frames_pub(ms.push(m)) == frames_pub(ms) + pub_frame(m),
    decreases ms.len(),
{
    if ms.len() == 0 {
        assert(ms.push(m).len() == 1);
        assert(ms.push(m)[0] == m);
        assert(ms.push(m).skip(1) =~= Seq::<PubMessageView>::empty());
        assert(frames_pub(Seq::<PubMessageView>::empty()) == Seq::<u8>::empty());
        assert(frames_pub(ms.push(m)) == pub_frame(m) + Seq::<u8>::empty());
        assert(pub_frame(m) + Seq::<u8>::empty() =~= pub_frame(m));
        assert(frames_pub(ms) + pub_frame(m) =~= pub_frame(m));
    } else {
        assert(ms.push(m)[0] == ms[0]);
        assert(ms.push(m).skip(1) =~= ms.skip(1).push(m));
        lemma_frames_pub_snoc(ms.skip(1), m);
        assert(frames_pub(ms.push(m)) =~= frames_pub(ms) + pub_frame(m));
    }
}

/// LAW: a buffer holding exactly the frames of `ms`, followed by a partial
/// line, drains to `ms` with the partial line left over, and stops only for
/// want of a newline.
pub proof fn lemma_drain_pub_frames(ms: Seq<PubMessageView>, tail: Seq<u8>)
    requires
        first_nl(tail) == tail.len(),
    ensures
        drain_pub(frames_pub(ms) + tail).0 == ms,
        drain_pub(frames_pub(ms) + tail).1 == tail,
        drain_pub_clean(frames_pub(ms) + tail),
    decreases ms.len(),
{
    let s = frames_pub(ms) + tail;
    if ms.len() == 0 {
        assert(s =~= tail);
        assert(drain_pub(s).0 =~= ms);
    } else {
        let m0 = ms[0];
        let n = crate::codec::pub_obj(m0).len();
        crate::codec::lemma_pub_obj_no_nl(m0);
        assert(forall|j: int| 0 <= j < n ==> s[j] == crate::codec::pub_obj(m0)[j]);
        assert(s[n as int] == 10u8);
        crate::codec::lemma_first_nl_is(s, n as nat);
        assert(s.take(n as int) =~= crate::codec::pub_obj(m0));
        crate::codec::lemma_pub_round_trip(m0);
        assert(parse_pub(s.take(n as int)) == Some(m0));
        assert(s.skip(n + 1int) =~= frames_pub(ms.skip(1)) + tail);
        lemma_drain_pub_frames(ms.skip(1), tail);
        assert(drain_pub(s).0 =~= ms);
    }
}

/// LAW: bytes may arrive in any split. Draining `a`, then draining what it
/// left plus `b`, decodes the same messages and leaves the same rest as
/// draining `a + b` at once, provided draining `a` stopped cleanly (at a
/// partial line, not at a malformed one).
pub proof fn lemma_drain_pub_split(a: Seq<u8>, b: Seq<u8>)
    requires
        drain_pub_clean(a),
    ensures
        drain_pub(a + b).0 == drain_pub(a).0 + drain_pub(drain_pub(a).1 + b).0,
        drain_pub(a + b).1 == drain_pub(drain_pub(a).1 + b).1,
        drain_pub_clean(a + b) == drain_pub_clean(drain_pub(a).1 + b),
    decreases a.len(),
{
    crate::codec::lemma_first_nl(a);
    if first_nl(a) >= a.len() {
        assert(drain_pub(a).1 == a);
        assert(drain_pub(a + b).0 =~= drain_pub(a).0 + drain_pub(drain_pub(a).1 + b).0);
    } else {
        let n = first_nl(a);
        assert(forall|j: int| 0 <= j < n ==> (a + b)[j] == a[j] && a[j] != 10u8);
        assert((a + b)[n as int] == a[n as int]);
        crate::codec::lemma_first_nl_is(a + b, n);
        assert((a + b).take(n as int) =~= a.take(n as int));
        match parse_pub(a.take(n as int)) {
            Some(m) => {
                assert((a + b).skip(n + 1int) =~= a.skip(n + 1int) + b);
                lemma_drain_pub_split(a.skip(n + 1int), b);
                let r = drain_pub(a.skip(n + 1int));
                assert(drain_pub(a + b).0 =~= seq![m] + r.0 + drain_pub(r.1 + b).0);
                assert(drain_pub(a).0 + drain_pub(drain_pub(a).1 + b).0 =~= seq![m] + r.0
                    + drain_pub(r.1 + b).0);
            },
            None => {
                assert(!drain_pub_clean(a));
            },
        }
    }
}

/// Did draining the `Subscribe` stream stop only for want of a full line?
pub open spec fn drain_sub_clean(s: Seq<u8>) -> bool
    decreases s.len(),
{
    if first_nl(s) >= s.len() {
        true
    } else {
        match parse_sub(s.take(first_nl(s) as int)) {
            Some(c) => drain_sub_clean(s.skip(first_nl(s) + 1int)),
            None => false,
        }
    }
}

/// The concatenation of the canonical frames of the channels `cs`.
pub open spec fn frames_sub(cs: Seq<Seq<u8>>) -> Seq<u8>
    decreases cs.len(),
{
    if cs.len() == 0 {
        Seq::<u8>::empty()
    } else {
        crate::codec::sub_frame(cs[0]) + frames_sub(cs.skip(1))
    }
}

/// LAW: a buffer holding exactly `Subscribe` frames, followed by a partial
/// line, drains to those channels with the partial line left over.
pub proof fn lemma_drain_sub_frames(cs: Seq<Seq<u8>>, tail: Seq<u8>)
    requires
        first_nl(tail) == tail.len(),
    ensures
        drain_sub(frames_sub(cs) + tail).0 == cs,
        drain_sub(frames_sub(cs) + tail).1 == tail,
        drain_sub_clean(frames_sub(cs) + tail),
    decreases cs.len(),
{
    let s = frames_sub(cs) + tail;
    if cs.len() == 0 {
        assert(s =~= tail);
        assert(drain_sub(s).0 =~= cs);
    } else {
        let c0 = cs[0];
        let n = crate::codec::sub_obj(c0).len();
        crate::codec::lemma_sub_obj_no_nl(c0);
        assert(forall|j: int| 0 <= j < n ==> s[j] == crate::codec::sub_obj(c0)[j]);
        assert(s[n as int] == 10u8);
        crate::codec::lemma_first_nl_is(s, n as nat);
        assert(s.take(n as int) =~= crate::codec::sub_obj(c0));
        crate::codec::lemma_sub_round_trip(c0);
        assert(parse_sub(s.take(n as int)) == Some(c0));
        assert(s.skip(n + 1int) =~= frames_sub(cs.skip(1)) + tail);
        lemma_drain_sub_frames(cs.skip(1), tail);
        assert(drain_sub(s).0 =~= cs);
    }
}

/// LAW: the `Subscribe` stream too may arrive in any split: draining `a`,
/// then what it left plus `b`, equals draining `a + b` at once, when `a`
/// stopped cleanly.
pub proof fn lemma_drain_sub_split(a: Seq<u8>, b: Seq<u8>)
    requires
        drain_sub_clean(a),
    ensures
        drain_sub(a + b).0 == drain_sub(a).0 + drain_sub(drain_sub(a).1 + b).0,
        drain_sub(a + b).1 == drain_sub(drain_sub(a).1 + b).1,
        drain_sub_clean(a + b) == drain_sub_clean(drain_sub(a).1 + b),
    decreases a.len(),
{
    crate::codec::lemma_first_nl(a);
    if first_nl(a) >= a.len() {
        assert(drain_sub(a).1 == a);
        assert(drain_sub(a + b).0 =~= drain_sub(a).0 + drain_sub(drain_sub(a).1 + b).0);
    } else {
        let n = first_nl(a);
        assert(forall|j: int| 0 <= j < n ==> (a + b)[j] == a[j] && a[j] != 10u8);
        assert((a + b)[n as int] == a[n as int]);
        crate::codec::lemma_first_nl_is(a + b, n);
        assert((a + b).take(n as int) =~= a.take(n as int));
        match parse_sub(a.take(n as int)) {
            Some(c) => {
                assert((a + b).skip(n + 1int) =~= a.skip(n + 1int) + b);
                lemma_drain_sub_split(a.skip(n + 1int), b);
                let r = drain_sub(a.skip(n + 1int));
                assert(drain_sub(a + b).0 =~= seq![c] + r.0 + drain_sub(r.1 + b).0);
                assert(drain_sub(a).0 + drain_sub(drain_sub(a).1 + b).0 =~= seq![c] + r.0
                    + drain_sub(r.1 + b).0);
            },
            None => {
                assert(!drain_sub_clean(a));
            },
        }
    }
}

// ---------------------------------------------------------------------------
// The connection
// ---------------------------------------------------------------------------

impl Connection {
    /// A fresh connection: not yet readable or writable, empty buffers.
    pub fn new() -> (r: Self)
        ensures
            r@.readable == false,
            r@.writable == false,
            r@.inbuf == Seq::<u8>::empty(),
            r@.outbuf == Seq::<u8>::empty(),
    {
        Connection {
            readable: false,
            writable: false,
            read_buffer: bm_with_capacity(BUFFER_SIZE),
            write_buffer: bm_with_capacity(BUFFER_SIZE),
        }
    }

    /// A readiness event: edges switch the matching flags on.
    pub fn react(&mut self, readable: bool, writable: bool)
        ensures
            final(self)@.readable == (old(self)@.readable || readable),
            final(self)@.writable == (old(self)@.writable || writable),
            final(self)@.inbuf == old(self)@.inbuf,
            final(self)@.outbuf == old(self)@.outbuf,
    {
        if readable {
            self.readable = true;
        }
        if writable {
            self.writable = true;
        }
    }

    /// Is a read worth attempting?
    pub fn wants_read(&self) -> (b: bool)
        ensures
            b == self@.readable,
    {
        self.readable
    }

    /// Is a write worth attempting?
    pub fn wants_write(&self) -> (b: bool)
        ensures
            b == (self@.writable && self@.outbuf.len() > 0),
    {
        self.writable && bm_len(&self.write_buffer) > 0
    }

    /// Takes the result of one non-blocking read and decodes every complete
    /// `PubMessage` frame now in the read buffer.
    pub fn recv_pub(&mut self, outcome: ReadOutcome) -> (r: Option<
        Result<Vec<PubMessage>, ConnClosed>,
    >)
        requires
            old(self)@.readable,
        ensures
            (match outcome {
                ReadOutcome::Closed => r matches Some(q) && q is Err && final(self)@
                    == old(self)@,
                ReadOutcome::WouldBlock => {
                    &&& r is None
                    &&& final(self)@.readable == false
                    &&& final(self)@.writable == old(self)@.writable
                    &&& final(self)@.inbuf == old(self)@.inbuf
                    &&& final(self)@.outbuf == old(self)@.outbuf
                },
                ReadOutcome::Data(d) => {
                    &&& r matches Some(q)
                    &&& q matches Ok(v)
                    &&& v@.map_values(|m: PubMessage| m@) == drain_pub(
                        old(self)@.inbuf + d@,
                    ).0
                    &&& final(self)@.inbuf == drain_pub(old(self)@.inbuf + d@).1
                    &&& final(self)@.outbuf == old(self)@.outbuf
                    &&& final(self)@.readable == old(self)@.readable
                    &&& final(self)@.writable == old(self)@.writable
                },
            }),
    {
        match outcome {
            ReadOutcome::Closed => Some(Err(ConnClosed)),
            ReadOutcome::WouldBlock => {
                self.readable = false;
                None
            },
            ReadOutcome::Data(d) => {
                bm_extend(&mut self.read_buffer, d.as_slice());
                let ghost s0 = old(self)@.inbuf + d@;
                let mut v: Vec<PubMessage> = Vec::new();
                proof {
                    assert(v@.map_values(|m: PubMessage| m@) + drain_pub(s0).0 =~= drain_pub(
                        s0,
                    ).0);
                }
                loop
                    invariant_except_break
                        v@.map_values(|m: PubMessage| m@) + drain_pub(
                            bm_contents(self.read_buffer),
                        ).0 == drain_pub(s0).0,
                        drain_pub(bm_contents(self.read_buffer)).1 == drain_pub(s0).1,
                    invariant
                        self.readable == old(self)@.readable,
                        self.writable == old(self)@.writable,
                        bm_contents(self.write_buffer) == old(self)@.outbuf,
                    ensures
                        v@.map_values(|m: PubMessage| m@) == drain_pub(s0).0,
                        bm_contents(self.read_buffer) == drain_pub(s0).1,
                    decreases bm_contents(self.read_buffer).len(),
                {
                    let ghost cur = bm_contents(self.read_buffer);
                    proof {
                        crate::codec::lemma_first_nl(cur);
                    }
                    match LineCodec::decode_pub(&mut self.read_buffer) {
                        Some(m) => {
                            proof {
                                assert(drain_pub(cur).0 == seq![m@] + drain_pub(
                                    bm_contents(self.read_buffer),
                                ).0);
                                assert((v@.push(m)).map_values(|m: PubMessage| m@) =~= v@
                                    .map_values(|m: PubMessage| m@).push(m@));
                                assert(v@.map_values(|m: PubMessage| m@).push(m@) + drain_pub(
                                    bm_contents(self.read_buffer),
                                ).0 =~= v@.map_values(|m: PubMessage| m@) + (seq![m@]
                                    + drain_pub(bm_contents(self.read_buffer)).0));
                            }
                            v.push(m);
                        },
                        None => {
                            proof {
                                assert(drain_pub(cur).0 =~= Seq::<PubMessageView>::empty());
                                assert(v@.map_values(|m: PubMessage| m@) + drain_pub(cur).0
                                    =~= v@.map_values(|m: PubMessage| m@));
                                assert(bm_contents(self.read_buffer) == drain_pub(cur).1);
                            }
                            break;
                        },
                    }
                }
                Some(Ok(v))
            },
        }
    }

    /// Takes the result of one non-blocking read and decodes every complete
    /// `Subscribe` frame now in the read buffer.
    pub fn recv_sub(&mut self, outcome: ReadOutcome) -> (r: Option<
        Result<Vec<Subscribe>, ConnClosed>,
    >)
        requires
            old(self)@.readable,
        ensures
            (match outcome {
                ReadOutcome::Closed => r matches Some(q) && q is Err && final(self)@
                    == old(self)@,
                ReadOutcome::WouldBlock => {
                    &&& r is None
                    &&& final(self)@.readable == false
                    &&& final(self)@.writable == old(self)@.writable
                    &&& final(self)@.inbuf == old(self)@.inbuf
                    &&& final(self)@.outbuf == old(self)@.outbuf
                },
                ReadOutcome::Data(d) => {
                    &&& r matches Some(q)
                    &&& q matches Ok(v)
                    &&& v@.map_values(|m: Subscribe| m@) == drain_sub(old(self)@.inbuf + d@).0
                    &&& final(self)@.inbuf == drain_sub(old(self)@.inbuf + d@).1
                    &&& final(self)@.outbuf == old(self)@.outbuf
                    &&& final(self)@.readable == old(self)@.readable
                    &&& final(self)@.writable == old(self)@.writable
                },
            }),
    {
        match outcome {
            ReadOutcome::Closed => Some(Err(ConnClosed)),
            ReadOutcome::WouldBlock => {
                self.readable = false;
                None
            },
            ReadOutcome::Data(d) => {
                bm_extend(&mut self.read_buffer, d.as_slice());
                let ghost s0 = old(self)@.inbuf + d@;
                let mut v: Vec<Subscribe> = Vec::new();
                proof {
                    assert(v@.map_values(|m: Subscribe| m@) + drain_sub(s0).0 =~= drain_sub(
                        s0,
                    ).0);
                }
                loop
                    invariant_except_break
                        v@.map_values(|m: Subscribe| m@) + drain_sub(
                            bm_contents(self.read_buffer),
                        ).0 == drain_sub(s0).0,
                        drain_sub(bm_contents(self.read_buffer)).1 == drain_sub(s0).1,
                    invariant
                        self.readable == old(self)@.readable,
                        self.writable == old(self)@.writable,
                        bm_contents(self.write_buffer) == old(self)@.outbuf,
                    ensures
                        v@.map_values(|m: Subscribe| m@) == drain_sub(s0).0,
                        bm_contents(self.read_buffer) == drain_sub(s0).1,
                    decreases bm_contents(self.read_buffer).len(),
                {
                    let ghost cur = bm_contents(self.read_buffer);
                    proof {
                        crate::codec::lemma_first_nl(cur);
                    }
                    match LineCodec::decode_sub(&mut self.read_buffer) {
                        Some(m) => {
                            proof {
                                assert(drain_sub(cur).0 == seq![m@] + drain_sub(
                                    bm_contents(self.read_buffer),
                                ).0);
                                assert((v@.push(m)).map_values(|m: Subscribe| m@) =~= v@
                                    .map_values(|m: Subscribe| m@).push(m@));
                                assert(v@.map_values(|m: Subscribe| m@).push(m@) + drain_sub(
                                    bm_contents(self.read_buffer),
                                ).0 =~= v@.map_values(|m: Subscribe| m@) + (seq![m@]
                                    + drain_sub(bm_contents(self.read_buffer)).0));
                            }
                            v.push(m);
                        },
                        None => {
                            proof {
                                assert(drain_sub(cur).0 =~= Seq::<Seq<u8>>::empty());
                                assert(v@.map_values(|m: Subscribe| m@) + drain_sub(cur).0
                                    =~= v@.map_values(|m: Subscribe| m@));
                                assert(bm_contents(self.read_buffer) == drain_sub(cur).1);
                            }
                            break;
                        },
                    }
                }
                Some(Ok(v))
            },
        }
    }

    /// Takes the result of one non-blocking write of the write buffer's
    /// bytes: the written prefix is discarded.
    pub fn on_write(&mut self, outcome: WriteOutcome) -> (r: Option<Result<usize, ConnClosed>>)
        requires
            old(self)@.writable,
            old(self)@.outbuf.len() > 0,
            outcome matches WriteOutcome::Wrote(n) ==> n <= old(self)@.outbuf.len(),
        ensures
            (match outcome {
                WriteOutcome::Wrote(n) => {
                    &&& r matches Some(q)
                    &&& q matches Ok(c) && c == n
                    &&& final(self)@.outbuf == old(self)@.outbuf.skip(n as int)
                    &&& final(self)@.inbuf == old(self)@.inbuf
                    &&& final(self)@.readable == old(self)@.readable
                    &&& final(self)@.writable == old(self)@.writable
                },
                WriteOutcome::WouldBlock => {
                    &&& r is None
                    &&& final(self)@.writable == false
                    &&& final(self)@.readable == old(self)@.readable
                    &&& final(self)@.inbuf == old(self)@.inbuf
                    &&& final(self)@.outbuf == old(self)@.outbuf
                },
                WriteOutcome::Closed => r matches Some(q) && q is Err && final(self)@
                    == old(self)@,
            }),
    {
        match outcome {
            WriteOutcome::Wrote(n) => {
                let _sent = bm_split_to(&mut self.write_buffer, n);
                Some(Ok(n))
            },
            WriteOutcome::WouldBlock => {
                self.writable = false;
                None
            },
            WriteOutcome::Closed => Some(Err(ConnClosed)),
        }
    }

    /// A snapshot of the write buffer, for the embedder to hand to the
    /// socket.
    pub fn pending(&self) -> (r: Vec<u8>)
        ensures
            r@ == self@.outbuf,
    {
        crate::bytebuf::bm_to_vec(&self.write_buffer)
    }

    /// A snapshot of the read buffer.
    pub fn buffered(&self) -> (r: Vec<u8>)
        ensures
            r@ == self@.inbuf,
    {
        crate::bytebuf::bm_to_vec(&self.read_buffer)
    }

    /// Queues outbound bytes on the write buffer.
    pub fn add_payload(&mut self, payload: &Vec<u8>)
        ensures
            final(self)@.outbuf == old(self)@.outbuf + payload@,
            final(self)@.inbuf == old(self)@.inbuf,
            final(self)@.readable == old(self)@.readable,
            final(self)@.writable == old(self)@.writable,
    {
        bm_extend(&mut self.write_buffer, payload.as_slice());
    }
}

} // verus!
