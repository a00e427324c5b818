//! The publisher worker: owns publisher-side connections, decodes
//! `PubMessage`s, stages their canonical frames for broadcast, and queues one
//! acknowledgement per decoded message.
//!
//! The worker is driven by its embedder: accepted sockets arrive through
//! `add_connection`, socket readiness through `connection_react`, the result
//! of each non-blocking read or write through `on_read`/`on_write`, and timer
//! ticks through `on_timer`. Whenever a step returns staged bytes, the
//! embedder publishes them on the broadcast in one call.

use std::collections::HashMap;
use vstd::prelude::*;
use crate::bytebuf::{bm_contents, bm_with_capacity, bm_extend, bm_take, bm_len};
use crate::connection::{
    Connection, ConnClosed, ReadOutcome, WriteOutcome, drain_pub, frames_pub,
    lemma_frames_pub_snoc,
};
use crate::messages::{PubMessage, PubMessageView, AckMessage};
use crate::codec::{LineCodec, ack_frame};

verus! {

broadcast use vstd::std_specs::hash::group_hash_axioms;

/// `n` repetitions of the positive acknowledgement frame.
pub open spec fn ack_frames(n: nat) -> Seq<u8>
    decreases n,
{
    if n == 0 {
        Seq::<u8>::empty()
    } else {
        ack_frames((n - 1) as nat) + ack_frame(true)
    }
}

/// Concatenating frame lists concatenates their bytes.
pub proof fn lemma_frames_pub_add(a: Seq<PubMessageView>, b: Seq<PubMessageView>)
    ensures
        frames_pub(a + b) == frames_pub(a) + frames_pub(b),
    decreases a.len(),
{
    if a.len() == 0 {
        assert(a + b =~= b);
        assert(frames_pub(a) + frames_pub(b) =~= frames_pub(b));
    } else {
        assert((a + b).len() > 0);
        assert((a + b)[0] == a[0]);
        assert((a + b).skip(1) =~= a.skip(1) + b);
        lemma_frames_pub_add(a.skip(1), b);
        assert(frames_pub(a + b) =~= frames_pub(a) + frames_pub(b));
    }
}

/// What one read step produced for the embedder.
pub enum PubStep {
    /// Frames were decoded (possibly none); keep reading while readable.
    Progress,
    /// The read would block; wait for the next event.
    Yield,
    /// The peer is gone: the connection was dropped, and these staged bytes
    /// must be published now.
    Closed(Vec<u8>),
}

/// The publisher worker.
pub struct Publisher {
    pub connections: HashMap<usize, Connection>,
    pub buffer_threshold: usize,
    pub publish_payload: bytes::BytesMut,
}

impl Publisher {
    /// INVARIANT: the publish stage holds a concatenation of whole canonical
    /// `PubMessage` frames — never a partial one.
    pub open spec fn stage_wf(self) -> bool {
        exists|ms: Seq<PubMessageView>|
            bm_contents(self.publish_payload) == frames_pub(ms)
    }

    /// The staged bytes.
    pub open spec fn stage(self) -> Seq<u8> {
        bm_contents(self.publish_payload)
    }

    /// A new worker with no connections and an empty stage.
    pub fn new(buffer_threshold: usize) -> (r: Self)
        requires
            buffer_threshold <= usize::MAX / 2,
        ensures
            r.buffer_threshold == buffer_threshold,
            r.connections@ == Map::<usize, Connection>::empty(),
            r.stage() == Seq::<u8>::empty(),
            r.stage_wf(),
    {
        let r = Publisher {
            connections: HashMap::new(),
            buffer_threshold,
            publish_payload: bm_with_capacity(buffer_threshold * 2),
        };
        proof {
            assert(frames_pub(Seq::<PubMessageView>::empty()) == Seq::<u8>::empty());
            assert(r.stage() == frames_pub(Seq::<PubMessageView>::empty()));
        }
        r
    }

    /// A newly accepted socket: store a fresh connection under its token.
    pub fn add_connection(&mut self, token: usize)
        ensures
            final(self).connections@.dom() == old(self).connections@.dom().insert(token),
            final(self).connections@[token]@.readable == false,
            final(self).connections@[token]@.writable == false,
            final(self).connections@[token]@.inbuf == Seq::<u8>::empty(),
            final(self).connections@[token]@.outbuf == Seq::<u8>::empty(),
            forall|t: usize|
                t != token && old(self).connections@.contains_key(t)
                    ==> final(self).connections@.contains_key(t)
                    && final(self).connections@[t] == old(self).connections@[t],
            final(self).stage() == old(self).stage(),
            final(self).buffer_threshold == old(self).buffer_threshold,
            old(self).stage_wf() ==> final(self).stage_wf(),
    {
        let conn = Connection::new();
        self.connections.insert(token, conn);
        proof {
            assert(final(self).connections@.dom() =~= old(self).connections@.dom().insert(
                token,
            ));
        }
    }

    /// Is this token one of ours?
    pub fn has_connection(&self, token: usize) -> (b: bool)
        ensures
            b == self.connections@.contains_key(token),
    {
        self.connections.contains_key(&token)
    }

    /// Routes a readiness event to the connection's flags.
    pub fn connection_react(&mut self, token: usize, readable: bool, writable: bool)
        requires
            old(self).connections@.contains_key(token),
        ensures
            final(self).connections@.dom() == old(self).connections@.dom(),
            final(self).connections@[token]@.readable == (old(self).connections@[token]@.readable
                || readable),
            final(self).connections@[token]@.writable == (old(self).connections@[token]@.writable
                || writable),
            final(self).connections@[token]@.inbuf == old(self).connections@[token]@.inbuf,
            final(self).connections@[token]@.outbuf == old(self).connections@[token]@.outbuf,
            forall|t: usize|
                t != token && old(self).connections@.contains_key(t)
                    ==> final(self).connections@.contains_key(t)
                    && final(self).connections@[t] == old(self).connections@[t],
            final(self).stage() == old(self).stage(),
            final(self).buffer_threshold == old(self).buffer_threshold,
            old(self).stage_wf() ==> final(self).stage_wf(),
    {
        let mut conn = self.connections.remove(&token).unwrap();
        conn.react(readable, writable);
        self.connections.insert(token, conn);
        proof {
            assert(final(self).connections@.dom() =~= old(self).connections@.dom());
        }
    }

    /// May a read be attempted on this connection?
    pub fn conn_readable(&self, token: usize) -> (b: bool)
        requires
            self.connections@.contains_key(token),
        ensures
            b == self.connections@[token]@.readable,
    {
        let conn = self.connections.get(&token).unwrap();
        conn.wants_read()
    }

    /// Should a write be attempted on this connection?
    pub fn conn_wants_write(&self, token: usize) -> (b: bool)
        requires
            self.connections@.contains_key(token),
        ensures
            b == (self.connections@[token]@.writable && self.connections@[token]@.outbuf.len()
                > 0),
    {
        let conn = self.connections.get(&token).unwrap();
        conn.wants_write()
    }

    /// The connection's queued outbound bytes, for the embedder to write.
    pub fn conn_pending(&self, token: usize) -> (r: Vec<u8>)
        requires
            self.connections@.contains_key(token),
        ensures
            r@ == self.connections@[token]@.outbuf,
    {
        let conn = self.connections.get(&token).unwrap();
        conn.pending()
    }

    /// Feeds one read result to the connection. Every decoded message is
    /// staged as its canonical frame, in arrival order, and exactly one
    /// acknowledgement per decoded message is queued on the connection.
    /// When the peer is gone the connection is dropped and the whole stage is
    /// handed back for one broadcast call.
    pub fn on_read(&mut self, token: usize, outcome: ReadOutcome) -> (r: PubStep)
        requires
            old(self).stage_wf(),
            old(self).connections@.contains_key(token),
            old(self).connections@[token]@.readable,
        ensures
            final(self).buffer_threshold == old(self).buffer_threshold,
            final(self).stage_wf(),
            (match outcome {
                ReadOutcome::Data(d) => {
                    let s0 = old(self).connections@[token]@.inbuf + d@;
                    let ms = drain_pub(s0).0;
                    &&& r is Progress
                    &&& final(self).connections@.dom() == old(self).connections@.dom()
                    &&& final(self).connections@[token]@.inbuf == drain_pub(s0).1
                    &&& final(self).connections@[token]@.outbuf == old(
                        self,
                    ).connections@[token]@.outbuf + ack_frames(ms.len())
                    &&& final(self).connections@[token]@.readable == old(
                        self,
                    ).connections@[token]@.readable
                    &&& final(self).connections@[token]@.writable == old(
                        self,
                    ).connections@[token]@.writable
                    &&& final(self).stage() == old(self).stage() + frames_pub(ms)
                    &&& forall|t: usize|
                        t != token && old(self).connections@.contains_key(t)
                            ==> final(self).connections@.contains_key(t)
                            && final(self).connections@[t] == old(self).connections@[t]
                },
                ReadOutcome::WouldBlock => {
                    &&& r is Yield
                    &&& final(self).connections@.dom() == old(self).connections@.dom()
                    &&& final(self).connections@[token]@.readable == false
                    &&& final(self).connections@[token]@.writable == old(
                        self,
                    ).connections@[token]@.writable
                    &&& final(self).connections@[token]@.inbuf == old(
                        self,
                    ).connections@[token]@.inbuf
                    &&& final(self).connections@[token]@.outbuf == old(
                        self,
                    ).connections@[token]@.outbuf
                    &&& final(self).stage() == old(self).stage()
                    &&& forall|t: usize|
                        t != token && old(self).connections@.contains_key(t)
                            ==> final(self).connections@.contains_key(t)
                            && final(self).connections@[t] == old(self).connections@[t]
                },
                ReadOutcome::Closed => {
                    &&& r matches PubStep::Closed(flushed) && flushed@ == old(self).stage()
                    &&& final(self).connections@.dom() == old(self).connections@.dom().remove(
                        token,
                    )
                    &&& final(self).stage() == Seq::<u8>::empty()
                    &&& forall|t: usize|
                        t != token && old(self).connections@.contains_key(t)
                            ==> final(self).connections@.contains_key(t)
                            && final(self).connections@[t] == old(self).connections@[t]
                },
            }),
    {
        let mut conn = self.connections.remove(&token).unwrap();
        match conn.recv_pub(outcome) {
            None => {
                self.connections.insert(token, conn);
                proof {
                    assert(final(self).connections@.dom() =~= old(self).connections@.dom());
                }
                PubStep::Yield
            },
            Some(Err(_)) => {
                let flushed = bm_take(&mut self.publish_payload);
                proof {
                    assert(frames_pub(Seq::<PubMessageView>::empty()) == Seq::<u8>::empty());
                    assert(self.stage() == frames_pub(Seq::<PubMessageView>::empty()));
                }
                PubStep::Closed(flushed)
            },
            Some(Ok(v)) => {
                let ghost ms = v@.map_values(|m: PubMessage| m@);
                let ghost stage0 = bm_contents(self.publish_payload);
                let ghost outbuf0 = conn@.outbuf;
                let mut i: usize = 0;
                proof {
                    assert(stage0 + frames_pub(ms.take(0)) =~= stage0);
                    assert(outbuf0 + ack_frames(0) =~= outbuf0);
                }
                while i < v.len()
                    invariant
                        i <= v@.len(),
                        ms == v@.map_values(|m: PubMessage| m@),
                        bm_contents(self.publish_payload) == stage0 + frames_pub(
                            ms.take(i as int),
                        ),
                        conn@.outbuf == outbuf0 + ack_frames(i as nat),
                        conn@.inbuf == drain_pub(
                            old(self).connections@[token]@.inbuf
                                + (match outcome {
                                ReadOutcome::Data(d) => d@,
                                _ => Seq::<u8>::empty(),
                            }),
                        ).1,
                        conn@.readable == old(self).connections@[token]@.readable,
                        conn@.writable == old(self).connections@[token]@.writable,
                        self.buffer_threshold == old(self).buffer_threshold,
                        self.connections@ == old(self).connections@.remove(token),
                    decreases v@.len() - i,
                {
                    let frame = LineCodec::encode_pub(&v[i]);
                    bm_extend(&mut self.publish_payload, frame.as_slice());
                    let ack = LineCodec::encode_ack(&AckMessage::new());
                    conn.add_payload(&ack);
                    proof {
                        assert(ms[i as int] == v@[i as int]@);
                        lemma_frames_pub_snoc(ms.take(i as int), ms[i as int]);
                        assert(ms.take(i + 1) =~= ms.take(i as int).push(ms[i as int]));
                        assert(ack_frames((i + 1) as nat) == ack_frames(i as nat) + ack_frame(
                            true,
                        ));
                    }
                    i += 1;
                }
                proof {
                    assert(ms.take(v@.len() as int) =~= ms);
                }
                self.connections.insert(token, conn);
                proof {
                    assert(final(self).connections@.dom() =~= old(self).connections@.dom());
                    let w = choose|w: Seq<PubMessageView>|
                        bm_contents(old(self).publish_payload) == frames_pub(w);
                    lemma_frames_pub_add(w, ms);
                    assert(final(self).stage() == frames_pub(w + ms));
                }
                PubStep::Progress
            },
        }
    }

    /// A timer tick: if anything is staged, take it for one broadcast call.
    pub fn on_timer(&mut self) -> (r: Option<Vec<u8>>)
        requires
            old(self).stage_wf(),
        ensures
            final(self).connections@ == old(self).connections@,
            final(self).buffer_threshold == old(self).buffer_threshold,
            final(self).stage_wf(),
            (if old(self).stage().len() > 0 {
                r matches Some(flushed) && flushed@ == old(self).stage() && final(self).stage()
                    == Seq::<u8>::empty()
            } else {
                r is None && final(self).stage() == old(self).stage()
            }),
    {
        if bm_len(&self.publish_payload) > 0 {
            let flushed = bm_take(&mut self.publish_payload);
            proof {
                assert(frames_pub(Seq::<PubMessageView>::empty()) == Seq::<u8>::empty());
                assert(self.stage() == frames_pub(Seq::<PubMessageView>::empty()));
            }
            Some(flushed)
        } else {
            None
        }
    }

    /// After reading: if the stage has reached the threshold, take it for
    /// one broadcast call.
    pub fn maybe_flush(&mut self) -> (r: Option<Vec<u8>>)
        requires
            old(self).stage_wf(),
        ensures
            final(self).connections@ == old(self).connections@,
            final(self).buffer_threshold == old(self).buffer_threshold,
            final(self).stage_wf(),
            (if old(self).stage().len() >= old(self).buffer_threshold {
                r matches Some(flushed) && flushed@ == old(self).stage() && final(self).stage()
                    == Seq::<u8>::empty()
            } else {
                r is None && final(self).stage() == old(self).stage()
            }),
    {
        if bm_len(&self.publish_payload) >= self.buffer_threshold {
            let flushed = bm_take(&mut self.publish_payload);
            proof {
                assert(frames_pub(Seq::<PubMessageView>::empty()) == Seq::<u8>::empty());
                assert(self.stage() == frames_pub(Seq::<PubMessageView>::empty()));
            }
            Some(flushed)
        } else {
            None
        }
    }

    /// Feeds one write result to the connection; a failed write drops it.
    pub fn on_write(&mut self, token: usize, outcome: WriteOutcome) -> (r: Option<
        Result<usize, ConnClosed>,
    >)
        requires
            old(self).connections@.contains_key(token),
            old(self).connections@[token]@.writable,
            old(self).connections@[token]@.outbuf.len() > 0,
            outcome matches WriteOutcome::Wrote(n) ==> n <= old(self).connections@[token]@.outbuf.len(),
        ensures
            final(self).buffer_threshold == old(self).buffer_threshold,
            final(self).stage() == old(self).stage(),
            old(self).stage_wf() ==> final(self).stage_wf(),
            forall|t: usize|
                t != token && old(self).connections@.contains_key(t)
                    ==> final(self).connections@.contains_key(t)
                    && final(self).connections@[t] == old(self).connections@[t],
            (match outcome {
                WriteOutcome::Wrote(n) => {
                    &&& r matches Some(q) && q matches Ok(c) && c == n
                    &&& final(self).connections@.dom() == old(self).connections@.dom()
                    &&& final(self).connections@[token]@.outbuf == old(
                        self,
                    ).connections@[token]@.outbuf.skip(n as int)
                    &&& final(self).connections@[token]@.inbuf == old(
                        self,
                    ).connections@[token]@.inbuf
                    &&& final(self).connections@[token]@.readable == old(
                        self,
                    ).connections@[token]@.readable
                    &&& final(self).connections@[token]@.writable == old(
                        self,
                    ).connections@[token]@.writable
                },
                WriteOutcome::WouldBlock => {
                    &&& r is None
                    &&& final(self).connections@.dom() == old(self).connections@.dom()
                    &&& final(self).connections@[token]@.writable == false
                    &&& final(self).connections@[token]@.readable == old(
                        self,
                    ).connections@[token]@.readable
                    &&& final(self).connections@[token]@.inbuf == old(
                        self,
                    ).connections@[token]@.inbuf
                    &&& final(self).connections@[token]@.outbuf == old(
                        self,
                    ).connections@[token]@.outbuf
                },
                WriteOutcome::Closed => {
                    &&& r matches Some(q) && q is Err
                    &&& final(self).connections@.dom() == old(self).connections@.dom().remove(
                        token,
                    )
                },
            }),
    {
        let mut conn = self.connections.remove(&token).unwrap();
        let res = conn.on_write(outcome);
        match res {
            Some(Err(_)) => {},
            _ => {
                self.connections.insert(token, conn);
                proof {
                    assert(final(self).connections@.dom() =~= old(self).connections@.dom());
                }
            },
        }
        res
    }
}

} // verus!
